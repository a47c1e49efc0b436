//! The protobuf wire format of the telemetry message, written out, and the
//! law that the decoder reads back what was written.
use vstd::prelude::*;
use crate::bytes::{le_u32, le_u64};
use crate::proto::{
    SeiMetadataProto, pow128, varint_from, varint_at, key_at, merge_field, decode_from, decode_metadata_spec,
    default_metadata, is_varint_field, is_fixed32_field, is_fixed64_field, with_varint, with_fixed32, with_fixed64,
};

verus! {

/// The base-128 varint of `v`: seven bits per byte, low bits first, the
/// high bit set on every byte but the last.
pub open spec fn varint_bytes(v: nat) -> Seq<u8>
    decreases v,
{
    if v < 128 {
        seq![v as u8]
    } else {
        seq![(v % 128 + 128) as u8] + varint_bytes(v / 128)
    }
}

proof fn lemma_pow128_facts(k: nat)
    ensures
        pow128(k) >= 1,
        pow128(k + 1) == 128 * pow128(k),
        k <= 9 ==> pow128(k) <= 0x8000_0000_0000_0000,
        pow128(9) == 0x8000_0000_0000_0000,
        pow128(10) == 0x40_0000_0000_0000_0000,
    decreases k,
{
    reveal_with_fuel(pow128, 11);
    if k > 0 {
        lemma_pow128_facts((k - 1) as nat);
        if k <= 9 {
            assert(pow128(k) == 128 * pow128((k - 1) as nat));
        }
    }
}

proof fn lemma_read_varint_bytes(b: Seq<u8>, pos: int, k: nat, acc: int, w: nat)
    requires
        0 <= pos,
        k <= 9,
        0 <= acc,
        acc + w * pow128(k) < 0x1_0000_0000_0000_0000,
        pos + k + varint_bytes(w).len() <= b.len(),
        forall|i: int| 0 <= i < varint_bytes(w).len() ==> b[pos + k + i] == #[trigger] varint_bytes(w)[i],
    ensures
        varint_from(b, pos, k, acc) == Some(
            ((acc + w * pow128(k)) as u64, pos + k + varint_bytes(w).len()),
        ),
    decreases w,
{
    lemma_pow128_facts(k);
    let p = pow128(k);
    let byte = b[pos + k];
    assert(byte == varint_bytes(w)[0]);
    if w < 128 {
        assert(byte as int == w);
        assert(byte % 128 == w);
        if k == 9 {
            assert(w < 2) by (nonlinear_arith)
                requires
                    acc + w * p < 0x1_0000_0000_0000_0000,
                    p == 0x8000_0000_0000_0000,
                    acc >= 0,
            ;
        }
    } else {
        let w2 = w / 128;
        let acc2 = acc + (byte % 128) * p;
        assert(byte as int == w % 128 + 128);
        assert(byte % 128 == w % 128);
        assert(w == 128 * w2 + w % 128) by {
            vstd::arithmetic::div_mod::lemma_fundamental_div_mod(w as int, 128);
        }
        assert(acc2 + w2 * pow128(k + 1) == acc + w * p) by (nonlinear_arith)
            requires
                acc2 == acc + (w % 128) * p,
                pow128(k + 1) == 128 * p,
                w == 128 * w2 + w % 128,
        ;
        assert(w2 >= 1);
        assert(pow128(k + 1) <= w2 * pow128(k + 1)) by (nonlinear_arith)
            requires
                w2 >= 1,
                pow128(k + 1) >= 0,
        ;
        assert(acc2 >= 0) by (nonlinear_arith)
            requires
                acc >= 0,
                p >= 1,
                byte % 128 >= 0,
                acc2 == acc + (byte % 128) * p,
        ;
        if k == 9 {
            lemma_pow128_facts(10);
            assert(false);
        }
        assert(varint_bytes(w) == seq![byte] + varint_bytes(w2));
        assert forall|i: int| 0 <= i < varint_bytes(w2).len() implies b[pos + (k + 1) + i]
            == #[trigger] varint_bytes(w2)[i] by {
            assert(varint_bytes(w)[i + 1] == varint_bytes(w2)[i]);
        }
        lemma_read_varint_bytes(b, pos, k + 1, acc2, w2);
    }
}

/// A varint written for any `u64` reads back as that value, ending where
/// it was written to end, whatever bytes surround it.
pub proof fn lemma_varint_round_trip(b: Seq<u8>, pos: int, v: u64)
    requires
        0 <= pos,
        pos + varint_bytes(v as nat).len() <= b.len(),
        forall|i: int|
            0 <= i < varint_bytes(v as nat).len() ==> b[pos + i] == #[trigger] varint_bytes(v as nat)[i],
    ensures
        varint_at(b, pos) == Some((v, pos + varint_bytes(v as nat).len())),
{
    lemma_pow128_facts(0);
    assert(v * pow128(0) == v);
    assert forall|i: int| 0 <= i < varint_bytes(v as nat).len() implies b[pos + 0 + i]
        == #[trigger] varint_bytes(v as nat)[i] by {}
    lemma_read_varint_bytes(b, pos, 0, 0, v as nat);
}

/// The `n` low bytes of `v`, least significant first.
pub open spec fn le_bytes(v: nat, n: nat) -> Seq<u8>
    decreases n,
{
    if n == 0 {
        Seq::empty()
    } else {
        seq![(v % 256) as u8] + le_bytes(v / 256, (n - 1) as nat)
    }
}

/// A field as it is written: wire type (0 varint, 5 fixed 32-bit, 1 fixed
/// 64-bit), field number and value.
pub type WireField = (u8, u32, u64);

/// The bytes of a field: its key (field number * 8 + wire type, as a
/// varint), then its value.
pub open spec fn field_bytes(f: WireField) -> Seq<u8> {
    varint_bytes((f.1 * 8 + f.0) as nat) + if f.0 == 0 {
        varint_bytes(f.2 as nat)
    } else if f.0 == 5 {
        le_bytes(f.2 as nat, 4)
    } else {
        le_bytes(f.2 as nat, 8)
    }
}

/// The bytes of the fields `fs`, one after the other.
pub open spec fn fields_bytes(fs: Seq<WireField>) -> Seq<u8>
    decreases fs.len(),
{
    if fs.len() == 0 {
        Seq::empty()
    } else {
        field_bytes(fs[0]) + fields_bytes(fs.drop_first())
    }
}

/// A field of the telemetry message written with its own wire type.
pub open spec fn field_fits(f: WireField) -> bool {
    ||| f.0 == 0 && is_varint_field(f.1)
    ||| f.0 == 5 && is_fixed32_field(f.1) && f.2 < 0x1_0000_0000
    ||| f.0 == 1 && is_fixed64_field(f.1)
}

/// `msg` with field `f` set.
pub open spec fn apply_field(msg: SeiMetadataProto, f: WireField) -> SeiMetadataProto {
    if f.0 == 0 {
        with_varint(msg, f.1, f.2)
    } else if f.0 == 5 {
        with_fixed32(msg, f.1, f.2 as u32)
    } else {
        with_fixed64(msg, f.1, f.2)
    }
}

/// `msg` with the fields `fs` set, in order.
pub open spec fn apply_fields(msg: SeiMetadataProto, fs: Seq<WireField>) -> SeiMetadataProto
    decreases fs.len(),
{
    if fs.len() == 0 {
        msg
    } else {
        apply_fields(apply_field(msg, fs[0]), fs.drop_first())
    }
}

pub open spec fn bool_wire(b: bool) -> u64 {
    if b {
        1
    } else {
        0
    }
}

/// The fields of `m` in field-number order, as a protobuf encoder writes
/// them: integers and booleans as varints (an `int32` sign-extended to 64
/// bits), floats and doubles as their little-endian bit patterns.
pub open spec fn metadata_fields(m: SeiMetadataProto) -> Seq<WireField> {
    seq![
        (0u8, 1u32, m.version as u64),
        (0u8, 2u32, m.gear_state as u64),
        (0u8, 3u32, m.frame_seq_no),
        (5u8, 4u32, m.vehicle_speed_mps_bits as u64),
        (5u8, 5u32, m.accelerator_pedal_position_bits as u64),
        (5u8, 6u32, m.steering_wheel_angle_bits as u64),
        (0u8, 7u32, bool_wire(m.blinker_on_left)),
        (0u8, 8u32, bool_wire(m.blinker_on_right)),
        (0u8, 9u32, bool_wire(m.brake_applied)),
        (0u8, 10u32, m.autopilot_state as u64),
        (1u8, 11u32, m.latitude_deg_bits),
        (1u8, 12u32, m.longitude_deg_bits),
        (1u8, 13u32, m.heading_deg_bits),
        (1u8, 14u32, m.linear_accel_x_bits),
        (1u8, 15u32, m.linear_accel_y_bits),
        (1u8, 16u32, m.linear_accel_z_bits),
    ]
}

/// The protobuf encoding of `m` with every field written.
pub open spec fn encode_metadata(m: SeiMetadataProto) -> Seq<u8> {
    fields_bytes(metadata_fields(m))
}

proof fn lemma_le_bytes_len(v: nat, n: nat)
    ensures
        le_bytes(v, n).len() == n,
    decreases n,
{
    if n > 0 {
        lemma_le_bytes_len(v / 256, (n - 1) as nat);
    }
}

proof fn lemma_varint_bytes_nonempty(v: nat)
    ensures
        varint_bytes(v).len() >= 1,
{
}

/// Four little-endian bytes of a `u32` read back as it.
proof fn lemma_le_u32_round_trip(b: Seq<u8>, pos: int, v: u32)
    requires
        0 <= pos,
        pos + 4 <= b.len(),
        forall|i: int| 0 <= i < 4 ==> b[pos + i] == #[trigger] le_bytes(v as nat, 4)[i],
    ensures
        le_u32(b, pos) == v,
{
    reveal_with_fuel(le_bytes, 5);
    let x = v;
    assert(le_bytes(v as nat, 4)[0] == (x % 256) as u8);
    assert(le_bytes(v as nat, 4)[1] == ((x / 256) % 256) as u8);
    assert(le_bytes(v as nat, 4)[2] == (((x / 256) / 256) % 256) as u8);
    assert(le_bytes(v as nat, 4)[3] == ((((x / 256) / 256) / 256) % 256) as u8);
    assert(b[pos] == x % 256);
    assert(b[pos + 1] == (x / 256) % 256);
    assert(b[pos + 2] == ((x / 256) / 256) % 256);
    assert(b[pos + 3] == (((x / 256) / 256) / 256) % 256);
    assert(x == (((x / 256) / 256) / 256) % 256 * 0x1000000 + ((x / 256) / 256) % 256 * 0x10000 + (x / 256)
        % 256 * 0x100 + x % 256) by (bit_vector);
}

/// Eight little-endian bytes of a `u64` read back as it.
proof fn lemma_le_u64_round_trip(b: Seq<u8>, pos: int, v: u64)
    requires
        0 <= pos,
        pos + 8 <= b.len(),
        forall|i: int| 0 <= i < 8 ==> b[pos + i] == #[trigger] le_bytes(v as nat, 8)[i],
    ensures
        le_u64(b, pos) == v,
{
    reveal_with_fuel(le_bytes, 9);
    let x = v;
    let d1 = x / 256;
    let d2 = d1 / 256;
    let d3 = d2 / 256;
    let d4 = d3 / 256;
    let d5 = d4 / 256;
    let d6 = d5 / 256;
    let d7 = d6 / 256;
    let e = le_bytes(v as nat, 8);
    assert(e[0] == (x % 256) as u8);
    assert(e[1] == (d1 % 256) as u8);
    assert(e[2] == (d2 % 256) as u8);
    assert(e[3] == (d3 % 256) as u8);
    assert(e[4] == (d4 % 256) as u8);
    assert(e[5] == (d5 % 256) as u8);
    assert(e[6] == (d6 % 256) as u8);
    assert(e[7] == (d7 % 256) as u8);
    assert(b[pos] == e[0]);
    assert(b[pos + 1] == e[1]);
    assert(b[pos + 2] == e[2]);
    assert(b[pos + 3] == e[3]);
    assert(b[pos + 4] == e[4]);
    assert(b[pos + 5] == e[5]);
    assert(b[pos + 6] == e[6]);
    assert(b[pos + 7] == e[7]);
    assert(x == ((d7 % 256) * 0x1000000 + (d6 % 256) * 0x10000 + (d5 % 256) * 0x100 + d4 % 256)
        * 0x1_0000_0000 + (d3 % 256) * 0x1000000 + (d2 % 256) * 0x10000 + (d1 % 256) * 0x100 + x % 256)
        by (bit_vector)
        requires
            d1 == x / 256,
            d2 == d1 / 256,
            d3 == d2 / 256,
            d4 == d3 / 256,
            d5 == d4 / 256,
            d6 == d5 / 256,
            d7 == d6 / 256,
    ;
}

/// One field written at `pos` is read back: its key, then its value merged
/// into the message, ending where the field ends.
proof fn lemma_decode_one_field(b: Seq<u8>, pos: int, f: WireField, msg: SeiMetadataProto)
    requires
        0 <= pos,
        field_fits(f),
        pos + field_bytes(f).len() <= b.len(),
        forall|i: int| 0 <= i < field_bytes(f).len() ==> b[pos + i] == #[trigger] field_bytes(f)[i],
    ensures
        key_at(b, pos) matches Some((tag, wire, end)) && tag == f.1 && wire == f.0 && merge_field(
            b,
            end,
            tag,
            wire,
            msg,
        ) == Some((apply_field(msg, f), pos + field_bytes(f).len())),
{
    let key: nat = (f.1 * 8 + f.0) as nat;
    let kb = varint_bytes(key);
    let vb = if f.0 == 0 {
        varint_bytes(f.2 as nat)
    } else if f.0 == 5 {
        le_bytes(f.2 as nat, 4)
    } else {
        le_bytes(f.2 as nat, 8)
    };
    assert(field_bytes(f) == kb + vb);
    assert(key < 0x1_0000_0000);
    assert forall|i: int| 0 <= i < varint_bytes((key as u64) as nat).len() implies b[pos + i]
        == #[trigger] varint_bytes((key as u64) as nat)[i] by {
        assert(field_bytes(f)[i] == kb[i]);
    }
    lemma_varint_round_trip(b, pos, key as u64);
    let end = pos + kb.len();
    assert(key % 8 == f.0 && key / 8 == f.1);
    assert forall|i: int| 0 <= i < vb.len() implies b[end + i] == #[trigger] vb[i] by {
        assert(field_bytes(f)[kb.len() + i] == vb[i]);
        assert(b[pos + (kb.len() + i)] == field_bytes(f)[kb.len() + i]);
    }
    if f.0 == 0 {
        lemma_varint_round_trip(b, end, f.2);
    } else if f.0 == 5 {
        lemma_le_bytes_len(f.2 as nat, 4);
        let v32 = f.2 as u32;
        assert(v32 as nat == f.2 as nat);
        lemma_le_u32_round_trip(b, end, v32);
    } else {
        lemma_le_bytes_len(f.2 as nat, 8);
        lemma_le_u64_round_trip(b, end, f.2);
    }
}

/// Fields written one after the other from `pos` to the end of the buffer
/// decode to the message with each of them set, in order.
proof fn lemma_decode_fields(b: Seq<u8>, pos: int, fs: Seq<WireField>, msg: SeiMetadataProto)
    requires
        0 <= pos,
        forall|k: int| 0 <= k < fs.len() ==> field_fits(#[trigger] fs[k]),
        pos + fields_bytes(fs).len() == b.len(),
        forall|i: int| 0 <= i < fields_bytes(fs).len() ==> b[pos + i] == #[trigger] fields_bytes(fs)[i],
    ensures
        decode_from(b, pos, msg) == Some(apply_fields(msg, fs)),
    decreases fs.len(),
{
    if fs.len() > 0 {
        let f = fs[0];
        let rest = fs.drop_first();
        let fb = field_bytes(f);
        assert(fields_bytes(fs) == fb + fields_bytes(rest));
        lemma_varint_bytes_nonempty((f.1 * 8 + f.0) as nat);
        assert(fb.len() >= 1);
        assert forall|i: int| 0 <= i < fb.len() implies b[pos + i] == #[trigger] fb[i] by {
            assert(fields_bytes(fs)[i] == fb[i]);
        }
        assert(field_fits(fs[0]));
        lemma_decode_one_field(b, pos, f, msg);
        let np = pos + fb.len();
        assert forall|k: int| 0 <= k < rest.len() implies field_fits(#[trigger] rest[k]) by {
            assert(rest[k] == fs[k + 1]);
        }
        assert forall|i: int| 0 <= i < fields_bytes(rest).len() implies b[np + i]
            == #[trigger] fields_bytes(rest)[i] by {
            assert(fields_bytes(fs)[fb.len() + i] == fields_bytes(rest)[i]);
            assert(b[pos + (fb.len() + i)] == fields_bytes(fs)[fb.len() + i]);
        }
        lemma_decode_fields(b, np, rest, apply_field(msg, f));
    } else {
        assert(pos == b.len());
    }
}

/// Setting the fields of `m` in order on the default message gives `m`.
proof fn lemma_apply_metadata_fields(m: SeiMetadataProto)
    ensures
        apply_fields(default_metadata(), metadata_fields(m)) == m,
{
    let g = m.gear_state;
    let a = m.autopilot_state;
    assert(((g as u64) as i32) == g) by (bit_vector);
    assert(((a as u64) as i32) == a) by (bit_vector);
    let fs = metadata_fields(m);
    let m0 = default_metadata();
    assert(fs.skip(0) =~= fs);
    let m1 = apply_field(m0, fs[0]);
    assert(fs.skip(0).drop_first() =~= fs.skip(1));
    assert(apply_fields(m0, fs.skip(0)) == apply_fields(m1, fs.skip(1)));
    let m2 = apply_field(m1, fs[1]);
    assert(fs.skip(1).drop_first() =~= fs.skip(2));
    assert(apply_fields(m1, fs.skip(1)) == apply_fields(m2, fs.skip(2)));
    let m3 = apply_field(m2, fs[2]);
    assert(fs.skip(2).drop_first() =~= fs.skip(3));
    assert(apply_fields(m2, fs.skip(2)) == apply_fields(m3, fs.skip(3)));
    let m4 = apply_field(m3, fs[3]);
    assert(fs.skip(3).drop_first() =~= fs.skip(4));
    assert(apply_fields(m3, fs.skip(3)) == apply_fields(m4, fs.skip(4)));
    let m5 = apply_field(m4, fs[4]);
    assert(fs.skip(4).drop_first() =~= fs.skip(5));
    assert(apply_fields(m4, fs.skip(4)) == apply_fields(m5, fs.skip(5)));
    let m6 = apply_field(m5, fs[5]);
    assert(fs.skip(5).drop_first() =~= fs.skip(6));
    assert(apply_fields(m5, fs.skip(5)) == apply_fields(m6, fs.skip(6)));
    let m7 = apply_field(m6, fs[6]);
    assert(fs.skip(6).drop_first() =~= fs.skip(7));
    assert(apply_fields(m6, fs.skip(6)) == apply_fields(m7, fs.skip(7)));
    let m8 = apply_field(m7, fs[7]);
    assert(fs.skip(7).drop_first() =~= fs.skip(8));
    assert(apply_fields(m7, fs.skip(7)) == apply_fields(m8, fs.skip(8)));
    let m9 = apply_field(m8, fs[8]);
    assert(fs.skip(8).drop_first() =~= fs.skip(9));
    assert(apply_fields(m8, fs.skip(8)) == apply_fields(m9, fs.skip(9)));
    let m10 = apply_field(m9, fs[9]);
    assert(fs.skip(9).drop_first() =~= fs.skip(10));
    assert(apply_fields(m9, fs.skip(9)) == apply_fields(m10, fs.skip(10)));
    let m11 = apply_field(m10, fs[10]);
    assert(fs.skip(10).drop_first() =~= fs.skip(11));
    assert(apply_fields(m10, fs.skip(10)) == apply_fields(m11, fs.skip(11)));
    let m12 = apply_field(m11, fs[11]);
    assert(fs.skip(11).drop_first() =~= fs.skip(12));
    assert(apply_fields(m11, fs.skip(11)) == apply_fields(m12, fs.skip(12)));
    let m13 = apply_field(m12, fs[12]);
    assert(fs.skip(12).drop_first() =~= fs.skip(13));
    assert(apply_fields(m12, fs.skip(12)) == apply_fields(m13, fs.skip(13)));
    let m14 = apply_field(m13, fs[13]);
    assert(fs.skip(13).drop_first() =~= fs.skip(14));
    assert(apply_fields(m13, fs.skip(13)) == apply_fields(m14, fs.skip(14)));
    let m15 = apply_field(m14, fs[14]);
    assert(fs.skip(14).drop_first() =~= fs.skip(15));
    assert(apply_fields(m14, fs.skip(14)) == apply_fields(m15, fs.skip(15)));
    let m16 = apply_field(m15, fs[15]);
    assert(fs.skip(15).drop_first() =~= fs.skip(16));
    assert(apply_fields(m15, fs.skip(15)) == apply_fields(m16, fs.skip(16)));
    assert(fs.skip(16) =~= Seq::<WireField>::empty());
    assert(m16 == m);
}

/// What the decoder reads back is what was written: the protobuf encoding
/// of any telemetry message, every field written with its own wire type,
/// decodes to that message.
pub proof fn lemma_metadata_round_trip(m: SeiMetadataProto)
    ensures
        decode_metadata_spec(encode_metadata(m)) == Some(m),
{
    let fs = metadata_fields(m);
    let e = encode_metadata(m);
    assert forall|k: int| 0 <= k < fs.len() implies field_fits(#[trigger] fs[k]) by {}
    assert forall|i: int| 0 <= i < fields_bytes(fs).len() implies e[0 + i] == #[trigger] fields_bytes(fs)[i] by {}
    lemma_decode_fields(e, 0, fs, default_metadata());
    lemma_apply_metadata_fields(m);
}

/// Any fields of the telemetry message written one after the other, each
/// with its own wire type, in any order, with fields left out or repeated
/// (as a protobuf encoder leaves out default values), decode to the default
/// message with those fields set in order, a later value of a field
/// replacing an earlier one.
pub proof fn lemma_fields_round_trip(fs: Seq<WireField>)
    requires
        forall|k: int| 0 <= k < fs.len() ==> field_fits(#[trigger] fs[k]),
    ensures
        decode_metadata_spec(fields_bytes(fs)) == Some(apply_fields(default_metadata(), fs)),
{
    let e = fields_bytes(fs);
    assert forall|i: int| 0 <= i < e.len() implies e[0 + i] == #[trigger] fields_bytes(fs)[i] by {}
    lemma_decode_fields(e, 0, fs, default_metadata());
}

} // verus!
