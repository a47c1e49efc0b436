//! The protobuf message that Tesla firmware stores in SEI NAL units, and a
//! decoder for the protobuf wire format it uses.
//!
//! Field numbers and types of the message:
//! 1 version (uint32), 2 gear_state (enum), 3 frame_seq_no (uint64),
//! 4 vehicle_speed_mps, 5 accelerator_pedal_position, 6 steering_wheel_angle
//! (float), 7 blinker_on_left, 8 blinker_on_right, 9 brake_applied (bool),
//! 10 autopilot_state (enum), 11 latitude_deg, 12 longitude_deg,
//! 13 heading_deg, 14..16 linear_accel_x/y/z (double).
//! Floating-point fields are kept as their IEEE-754 bit patterns.
use vstd::prelude::*;
use crate::bytes::{le_u32, le_u64, read_u32_le, read_u64_le};

verus! {

/// The decoded SEI metadata message; float and double fields hold their bit patterns.
#[derive(Clone, Copy, Debug, PartialEq, Eq, Structural)]
pub struct SeiMetadataProto {
    pub version: u32,
    pub gear_state: i32,
    pub frame_seq_no: u64,
    pub vehicle_speed_mps_bits: u32,
    pub accelerator_pedal_position_bits: u32,
    pub steering_wheel_angle_bits: u32,
    pub blinker_on_left: bool,
    pub blinker_on_right: bool,
    pub brake_applied: bool,
    pub autopilot_state: i32,
    pub latitude_deg_bits: u64,
    pub longitude_deg_bits: u64,
    pub heading_deg_bits: u64,
    pub linear_accel_x_bits: u64,
    pub linear_accel_y_bits: u64,
    pub linear_accel_z_bits: u64,
}

/// The message with every field at its default (zero, false, +0.0).
pub open spec fn default_metadata() -> SeiMetadataProto {
    SeiMetadataProto {
        version: 0,
        gear_state: 0,
        frame_seq_no: 0,
        vehicle_speed_mps_bits: 0,
        accelerator_pedal_position_bits: 0,
        steering_wheel_angle_bits: 0,
        blinker_on_left: false,
        blinker_on_right: false,
        brake_applied: false,
        autopilot_state: 0,
        latitude_deg_bits: 0,
        longitude_deg_bits: 0,
        heading_deg_bits: 0,
        linear_accel_x_bits: 0,
        linear_accel_y_bits: 0,
        linear_accel_z_bits: 0,
    }
}

/// The nesting limit for skipped groups.
pub open spec fn recursion_limit() -> nat {
    100
}

pub open spec fn pow128(k: nat) -> int
    decreases k,
{
    if k == 0 {
        1
    } else {
        128 * pow128((k - 1) as nat)
    }
}

/// A base-128 varint whose first `k` bytes (already summed into `acc`) precede
/// position `pos + k`: its value and the position after it.  At most ten bytes
/// are read; a tenth byte above 1 would overflow 64 bits and is refused.
pub open spec fn varint_from(b: Seq<u8>, pos: int, k: nat, acc: int) -> Option<(u64, int)>
    decreases 10 - k,
{
    if k >= 10 || pos + k >= b.len() {
        None
    } else {
        let byte = b[pos + k];
        let acc2 = acc + (byte % 128) * pow128(k);
        if byte < 128 {
            if k == 9 && byte >= 2 {
                None
            } else {
                Some((acc2 as u64, pos + k + 1))
            }
        } else {
            varint_from(b, pos, k + 1, acc2)
        }
    }
}

/// The varint that starts at `pos`, and the position after it.
pub open spec fn varint_at(b: Seq<u8>, pos: int) -> Option<(u64, int)> {
    varint_from(b, pos, 0, 0)
}

/// A field key at `pos`: field number, wire type and the position after the key.
/// Keys above `u32::MAX`, wire types above 5 and field number 0 are refused.
pub open spec fn key_at(b: Seq<u8>, pos: int) -> Option<(u32, u8, int)> {
    match varint_at(b, pos) {
        Some((key, end)) => if key > 0xffff_ffff {
            None
        } else if key % 8 > 5 {
            None
        } else if key / 8 < 1 {
            None
        } else {
            Some(((key / 8) as u32, (key % 8) as u8, end))
        },
        None => None,
    }
}

/// The position after the value of a field of wire type `wire` starting at
/// `pos`, skipping it; `depth` is the nesting still allowed for groups.
pub open spec fn skip_field(b: Seq<u8>, pos: int, wire: u8, tag: u32, depth: nat) -> Option<int>
    decreases depth, b.len() - pos, 1int,
{
    if depth == 0 {
        None
    } else if wire == 0 {
        match varint_at(b, pos) {
            Some((_v, end)) => Some(end),
            None => None,
        }
    } else if wire == 5 {
        if pos + 4 <= b.len() {
            Some(pos + 4)
        } else {
            None
        }
    } else if wire == 1 {
        if pos + 8 <= b.len() {
            Some(pos + 8)
        } else {
            None
        }
    } else if wire == 2 {
        match varint_at(b, pos) {
            Some((len, end)) => if len > b.len() - end {
                None
            } else {
                Some(end + len)
            },
            None => None,
        }
    } else if wire == 3 {
        skip_group(b, pos, tag, depth)
    } else {
        None
    }
}

/// The position after the end-group key closing the group of field `tag`
/// whose contents start at `pos`.
pub open spec fn skip_group(b: Seq<u8>, pos: int, tag: u32, depth: nat) -> Option<int>
    decreases depth, b.len() - pos, 0int,
{
    if depth == 0 {
        None
    } else {
        match key_at(b, pos) {
            Some((t, w, end)) => if w == 4 {
                if t != tag {
                    None
                } else {
                    Some(end)
                }
            } else {
                match skip_field(b, end, w, t, (depth - 1) as nat) {
                    Some(np) => if pos < np <= b.len() {
                        skip_group(b, np, tag, depth)
                    } else {
                        None
                    },
                    None => None,
                }
            },
            None => None,
        }
    }
}

pub open spec fn is_varint_field(tag: u32) -> bool {
    tag == 1 || tag == 2 || tag == 3 || tag == 7 || tag == 8 || tag == 9 || tag == 10
}

pub open spec fn is_fixed32_field(tag: u32) -> bool {
    tag == 4 || tag == 5 || tag == 6
}

pub open spec fn is_fixed64_field(tag: u32) -> bool {
    11 <= tag <= 16
}

/// `msg` with varint field `tag` set from `v`.
pub open spec fn with_varint(msg: SeiMetadataProto, tag: u32, v: u64) -> SeiMetadataProto {
    if tag == 1 {
        SeiMetadataProto { version: v as u32, ..msg }
    } else if tag == 2 {
        SeiMetadataProto { gear_state: v as i32, ..msg }
    } else if tag == 3 {
        SeiMetadataProto { frame_seq_no: v, ..msg }
    } else if tag == 7 {
        SeiMetadataProto { blinker_on_left: v != 0, ..msg }
    } else if tag == 8 {
        SeiMetadataProto { blinker_on_right: v != 0, ..msg }
    } else if tag == 9 {
        SeiMetadataProto { brake_applied: v != 0, ..msg }
    } else {
        SeiMetadataProto { autopilot_state: v as i32, ..msg }
    }
}

/// `msg` with 32-bit field `tag` set to `v`.
pub open spec fn with_fixed32(msg: SeiMetadataProto, tag: u32, v: u32) -> SeiMetadataProto {
    if tag == 4 {
        SeiMetadataProto { vehicle_speed_mps_bits: v, ..msg }
    } else if tag == 5 {
        SeiMetadataProto { accelerator_pedal_position_bits: v, ..msg }
    } else {
        SeiMetadataProto { steering_wheel_angle_bits: v, ..msg }
    }
}

/// `msg` with 64-bit field `tag` set to `v`.
pub open spec fn with_fixed64(msg: SeiMetadataProto, tag: u32, v: u64) -> SeiMetadataProto {
    if tag == 11 {
        SeiMetadataProto { latitude_deg_bits: v, ..msg }
    } else if tag == 12 {
        SeiMetadataProto { longitude_deg_bits: v, ..msg }
    } else if tag == 13 {
        SeiMetadataProto { heading_deg_bits: v, ..msg }
    } else if tag == 14 {
        SeiMetadataProto { linear_accel_x_bits: v, ..msg }
    } else if tag == 15 {
        SeiMetadataProto { linear_accel_y_bits: v, ..msg }
    } else {
        SeiMetadataProto { linear_accel_z_bits: v, ..msg }
    }
}

/// Merges the value of field `tag` (wire type `wire`) that starts at `pos`
/// into `msg`: known fields must carry their own wire type; unknown fields
/// are skipped.  Gives the new message and the position after the value.
pub open spec fn merge_field(b: Seq<u8>, pos: int, tag: u32, wire: u8, msg: SeiMetadataProto) -> Option<
    (SeiMetadataProto, int),
> {
    if is_varint_field(tag) {
        if wire != 0 {
            None
        } else {
            match varint_at(b, pos) {
                Some((v, end)) => Some((with_varint(msg, tag, v), end)),
                None => None,
            }
        }
    } else if is_fixed32_field(tag) {
        if wire != 5 || pos + 4 > b.len() {
            None
        } else {
            Some((with_fixed32(msg, tag, le_u32(b, pos) as u32), pos + 4))
        }
    } else if is_fixed64_field(tag) {
        if wire != 1 || pos + 8 > b.len() {
            None
        } else {
            Some((with_fixed64(msg, tag, le_u64(b, pos) as u64), pos + 8))
        }
    } else {
        match skip_field(b, pos, wire, tag, recursion_limit()) {
            Some(np) => Some((msg, np)),
            None => None,
        }
    }
}

/// Decodes the fields from `pos` to the end of `b` into `msg`.
pub open spec fn decode_from(b: Seq<u8>, pos: int, msg: SeiMetadataProto) -> Option<SeiMetadataProto>
    decreases b.len() - pos,
{
    if pos >= b.len() {
        Some(msg)
    } else {
        match key_at(b, pos) {
            Some((tag, wire, end)) => match merge_field(b, end, tag, wire, msg) {
                Some((m2, np)) => if pos < np <= b.len() {
                    decode_from(b, np, m2)
                } else {
                    None
                },
                None => None,
            },
            None => None,
        }
    }
}

/// The message that the bytes `b` encode, if they are a valid encoding.
pub open spec fn decode_metadata_spec(b: Seq<u8>) -> Option<SeiMetadataProto> {
    decode_from(b, 0, default_metadata())
}

proof fn lemma_pow128_values()
    ensures
        pow128(0) == 1,
        pow128(1) == 0x80,
        pow128(2) == 0x4000,
        pow128(3) == 0x20_0000,
        pow128(4) == 0x1000_0000,
        pow128(5) == 0x8_0000_0000,
        pow128(6) == 0x400_0000_0000,
        pow128(7) == 0x2_0000_0000_0000,
        pow128(8) == 0x100_0000_0000_0000,
        pow128(9) == 0x8000_0000_0000_0000,
{
    reveal_with_fuel(pow128, 10);
}

/// Decodes the base-128 varint at `pos`: its value and the position after it.
pub fn decode_varint(buf: &[u8], pos: usize) -> (r: Option<(u64, usize)>)
    ensures
        r matches Some((v, end)) ==> varint_at(buf@, pos as int) == Some((v, end as int)),
        r is None ==> varint_at(buf@, pos as int) is None,
{
    let n = buf.len();
    let mut value: u64 = 0;
    let mut mult: u64 = 1;
    let mut k: usize = 0;
    proof {
        lemma_pow128_values();
    }
    while k < 10
        invariant
            n == buf@.len(),
            k < 10,
            mult == pow128(k as nat),
            0 <= value < mult,
            varint_at(buf@, pos as int) == varint_from(buf@, pos as int, k as nat, value as int),
        decreases 10 - k,
    {
        proof {
            lemma_pow128_values();
        }
        if pos >= n || k >= n - pos {
            return None;
        }
        assert(k < 9 ==> mult * 128 <= 0x1_0000_0000_0000_0000) by {
            if k < 9 {
                assert(mult * 128 == pow128((k + 1) as nat));
            }
        }
        let byte = buf[pos + k];
        if byte < 128 {
            if k == 9 && byte >= 2 {
                return None;
            }
            assert(value + byte * mult < (byte + 1) * mult) by (nonlinear_arith)
                requires
                    value < mult,
            ;
            if k == 9 {
                assert((byte + 1) * mult <= 0x1_0000_0000_0000_0000) by (nonlinear_arith)
                    requires
                        byte < 2,
                        mult == 0x8000_0000_0000_0000,
                ;
            } else {
                assert((byte + 1) * mult <= 0x1_0000_0000_0000_0000) by (nonlinear_arith)
                    requires
                        byte < 128,
                        mult * 128 <= 0x1_0000_0000_0000_0000,
                ;
            }
            return Some((value + byte as u64 * mult, pos + k + 1));
        }
        if k == 9 {
            assert(varint_from(buf@, pos as int, 10, value + (byte % 128) * mult) is None);
            return None;
        }
        let low = (byte - 128) as u64;
        assert(value + low * mult < mult * 128) by (nonlinear_arith)
            requires
                value < mult,
                low < 128,
        ;
        value = value + low * mult;
        mult = mult * 128;
        k = k + 1;
    }
    None
}

/// Decodes the field key at `pos`: field number, wire type and the position after it.
pub fn decode_key(buf: &[u8], pos: usize) -> (r: Option<(u32, u8, usize)>)
    ensures
        r matches Some((t, w, end)) ==> key_at(buf@, pos as int) == Some((t, w, end as int)),
        r is None ==> key_at(buf@, pos as int) is None,
{
    match decode_varint(buf, pos) {
        Some((key, end)) => {
            if key > 0xffff_ffff {
                None
            } else if key % 8 > 5 {
                None
            } else if key / 8 < 1 {
                None
            } else {
                Some(((key / 8) as u32, (key % 8) as u8, end))
            }
        },
        None => None,
    }
}


/// Skips the value of a field of wire type `wire` at `pos`; gives the position after it.
pub fn skip_field_value(buf: &[u8], pos: usize, wire: u8, tag: u32, depth: u32) -> (r: Option<usize>)
    ensures
        r matches Some(np) ==> skip_field(buf@, pos as int, wire, tag, depth as nat) == Some(
            np as int,
        ),
        r is None ==> skip_field(buf@, pos as int, wire, tag, depth as nat) is None,
    decreases depth, buf@.len() - pos, 1int,
{
    let n = buf.len();
    if depth == 0 {
        None
    } else if wire == 0 {
        match decode_varint(buf, pos) {
            Some((_v, end)) => Some(end),
            None => None,
        }
    } else if wire == 5 {
        if pos <= n && 4 <= n - pos {
            Some(pos + 4)
        } else {
            None
        }
    } else if wire == 1 {
        if pos <= n && 8 <= n - pos {
            Some(pos + 8)
        } else {
            None
        }
    } else if wire == 2 {
        match decode_varint(buf, pos) {
            Some((len, end)) => {
                proof {
                    lemma_varint_end(buf@, pos as int);
                }
                if len > (n - end) as u64 {
                    None
                } else {
                    Some(end + len as usize)
                }
            },
            None => None,
        }
    } else if wire == 3 {
        skip_group_body(buf, pos, tag, depth)
    } else {
        None
    }
}

/// The end of a varint lies after its start and within the buffer.
proof fn lemma_varint_end(b: Seq<u8>, pos: int)
    ensures
        varint_at(b, pos) matches Some((_v, end)) ==> pos < end <= b.len(),
{
    lemma_varint_from_end(b, pos, 0, 0);
}

proof fn lemma_varint_from_end(b: Seq<u8>, pos: int, k: nat, acc: int)
    ensures
        varint_from(b, pos, k, acc) matches Some((_v, end)) ==> pos + k < end <= b.len(),
    decreases 10 - k,
{
    if k < 10 && pos + k < b.len() {
        lemma_varint_from_end(b, pos, k + 1, acc + (b[pos + k] % 128) * pow128(k));
    }
}

/// Skips the contents of a group of field `tag` starting at `pos`, through its end-group key.
pub fn skip_group_body(buf: &[u8], pos: usize, tag: u32, depth: u32) -> (r: Option<usize>)
    ensures
        r matches Some(np) ==> skip_group(buf@, pos as int, tag, depth as nat) == Some(np as int),
        r is None ==> skip_group(buf@, pos as int, tag, depth as nat) is None,
    decreases depth, buf@.len() - pos, 0int,
{
    let n = buf.len();
    if depth == 0 {
        return None;
    }
    let mut p = pos;
    loop
        invariant
            n == buf@.len(),
            depth > 0,
            pos <= p,
            p <= n || p == pos,
            skip_group(buf@, pos as int, tag, depth as nat) == skip_group(
                buf@,
                p as int,
                tag,
                depth as nat,
            ),
        decreases n - p,
    {
        match decode_key(buf, p) {
            Some((t, w, end)) => {
                if w == 4 {
                    if t != tag {
                        return None;
                    } else {
                        return Some(end);
                    }
                }
                match skip_field_value(buf, end, w, t, depth - 1) {
                    Some(np) => {
                        if p < np && np <= n {
                            p = np;
                        } else {
                            return None;
                        }
                    },
                    None => {
                        return None;
                    },
                }
            },
            None => {
                return None;
            },
        }
    }
}

/// Merges one field value at `pos` into `msg` (see `merge_field`).
pub fn merge_field_value(buf: &[u8], pos: usize, tag: u32, wire: u8, msg: SeiMetadataProto) -> (r:
    Option<(SeiMetadataProto, usize)>)
    ensures
        r matches Some((m, np)) ==> merge_field(buf@, pos as int, tag, wire, msg) == Some(
            (m, np as int),
        ),
        r is None ==> merge_field(buf@, pos as int, tag, wire, msg) is None,
{
    let n = buf.len();
    if tag == 1 || tag == 2 || tag == 3 || tag == 7 || tag == 8 || tag == 9 || tag == 10 {
        if wire != 0 {
            return None;
        }
        match decode_varint(buf, pos) {
            Some((v, end)) => {
                let m = if tag == 1 {
                    SeiMetadataProto { version: v as u32, ..msg }
                } else if tag == 2 {
                    SeiMetadataProto { gear_state: v as i32, ..msg }
                } else if tag == 3 {
                    SeiMetadataProto { frame_seq_no: v, ..msg }
                } else if tag == 7 {
                    SeiMetadataProto { blinker_on_left: v != 0, ..msg }
                } else if tag == 8 {
                    SeiMetadataProto { blinker_on_right: v != 0, ..msg }
                } else if tag == 9 {
                    SeiMetadataProto { brake_applied: v != 0, ..msg }
                } else {
                    SeiMetadataProto { autopilot_state: v as i32, ..msg }
                };
                Some((m, end))
            },
            None => None,
        }
    } else if tag == 4 || tag == 5 || tag == 6 {
        if wire != 5 || pos > n || 4 > n - pos {
            return None;
        }
        let v = read_u32_le(buf, pos);
        let m = if tag == 4 {
            SeiMetadataProto { vehicle_speed_mps_bits: v, ..msg }
        } else if tag == 5 {
            SeiMetadataProto { accelerator_pedal_position_bits: v, ..msg }
        } else {
            SeiMetadataProto { steering_wheel_angle_bits: v, ..msg }
        };
        Some((m, pos + 4))
    } else if 11 <= tag && tag <= 16 {
        if wire != 1 || pos > n || 8 > n - pos {
            return None;
        }
        let v = read_u64_le(buf, pos);
        let m = if tag == 11 {
            SeiMetadataProto { latitude_deg_bits: v, ..msg }
        } else if tag == 12 {
            SeiMetadataProto { longitude_deg_bits: v, ..msg }
        } else if tag == 13 {
            SeiMetadataProto { heading_deg_bits: v, ..msg }
        } else if tag == 14 {
            SeiMetadataProto { linear_accel_x_bits: v, ..msg }
        } else if tag == 15 {
            SeiMetadataProto { linear_accel_y_bits: v, ..msg }
        } else {
            SeiMetadataProto { linear_accel_z_bits: v, ..msg }
        };
        Some((m, pos + 8))
    } else {
        match skip_field_value(buf, pos, wire, tag, 100) {
            Some(np) => Some((msg, np)),
            None => None,
        }
    }
}

/// Decodes an SEI metadata message; `None` when the bytes are not a valid encoding.
pub fn decode_sei_metadata(buf: &[u8]) -> (r: Option<SeiMetadataProto>)
    ensures
        r == decode_metadata_spec(buf@),
{
    let n = buf.len();
    let mut msg = SeiMetadataProto {
        version: 0,
        gear_state: 0,
        frame_seq_no: 0,
        vehicle_speed_mps_bits: 0,
        accelerator_pedal_position_bits: 0,
        steering_wheel_angle_bits: 0,
        blinker_on_left: false,
        blinker_on_right: false,
        brake_applied: false,
        autopilot_state: 0,
        latitude_deg_bits: 0,
        longitude_deg_bits: 0,
        heading_deg_bits: 0,
        linear_accel_x_bits: 0,
        linear_accel_y_bits: 0,
        linear_accel_z_bits: 0,
    };
    let mut pos: usize = 0;
    while pos < n
        invariant
            n == buf@.len(),
            pos <= n,
            decode_metadata_spec(buf@) == decode_from(buf@, pos as int, msg),
        decreases n - pos,
    {
        match decode_key(buf, pos) {
            Some((tag, wire, end)) => match merge_field_value(buf, end, tag, wire, msg) {
                Some((m2, np)) => {
                    if pos < np && np <= n {
                        msg = m2;
                        pos = np;
                    } else {
                        return None;
                    }
                },
                None => {
                    return None;
                },
            },
            None => {
                return None;
            },
        }
    }
    Some(msg)
}

proof fn lemma_skip_field_advances(b: Seq<u8>, pos: int, wire: u8, tag: u32, depth: nat)
    ensures
        skip_field(b, pos, wire, tag, depth) matches Some(np) ==> pos < np <= b.len(),
    decreases depth, b.len() - pos, 1int,
{
    lemma_varint_end(b, pos);
    if depth > 0 && wire == 3 {
        lemma_skip_group_advances(b, pos, tag, depth);
    }
}

proof fn lemma_skip_group_advances(b: Seq<u8>, pos: int, tag: u32, depth: nat)
    ensures
        skip_group(b, pos, tag, depth) matches Some(np) ==> pos < np <= b.len(),
    decreases depth, b.len() - pos, 0int,
{
    if depth > 0 {
        lemma_varint_end(b, pos);
        match key_at(b, pos) {
            Some((t, w, end)) => {
                if w != 4 {
                    lemma_skip_field_advances(b, end, w, t, (depth - 1) as nat);
                    match skip_field(b, end, w, t, (depth - 1) as nat) {
                        Some(np) => {
                            if pos < np <= b.len() {
                                lemma_skip_group_advances(b, np, tag, depth);
                            }
                        },
                        None => {},
                    }
                }
            },
            None => {},
        }
    }
}

/// Every field that decodes ends after its key and within the buffer: the
/// decoder moves forward with each field, so its check that it does never
/// fails, and a buffer of `n` bytes holds at most `n` fields.
pub proof fn lemma_field_advances(b: Seq<u8>, pos: int, msg: SeiMetadataProto)
    requires
        0 <= pos,
    ensures
        key_at(b, pos) matches Some((tag, wire, end)) ==> (merge_field(b, end, tag, wire, msg) matches Some(
            (_m, np),
        ) ==> pos < np <= b.len()),
{
    lemma_varint_end(b, pos);
    match key_at(b, pos) {
        Some((tag, wire, end)) => {
            lemma_varint_end(b, end);
            lemma_skip_field_advances(b, end, wire, tag, recursion_limit());
        },
        None => {},
    }
}

} // verus!
