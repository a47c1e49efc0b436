//! Telemetry records from the SEI NAL units of a Tesla dashcam MP4, each
//! timed by the video sample it belongs to.
use vstd::prelude::*;
use vstd::slice::slice_subrange;
use crate::bytes::{be_u32, read_u32_be};
use crate::mp4::{Mp4Error, Mp4Info, SttsEntry, build_sample_times, sample_start_ticks, parse_mp4_info, top_level_atoms, moov_body, moov_sample_sizes, moov_stts, moov_timescale, mp4_tables_in_bounds, max_pos};
use crate::nal::{extract_proto_payload, proto_payload};
use crate::proto::{SeiMetadataProto, decode_metadata_spec, decode_sei_metadata};

verus! {

/// Gear position as the firmware encodes it.
#[derive(Clone, Copy, Debug, PartialEq, Eq, Structural)]
pub enum Gear {
    Park,
    Drive,
    Reverse,
    Neutral,
}

/// Driver-assistance state as the firmware encodes it.
#[derive(Clone, Copy, Debug, PartialEq, Eq, Structural)]
pub enum AutopilotState {
    Off,
    SelfDriving,
    Autosteer,
    Tacc,
}

impl Gear {
    /// The wire value of the gear.
    pub fn as_i32(self) -> (r: i32)
        ensures
            r == gear_value(self),
    {
        match self {
            Gear::Park => 0,
            Gear::Drive => 1,
            Gear::Reverse => 2,
            Gear::Neutral => 3,
        }
    }

    /// The gear with the given wire value, if there is one.
    pub fn from_i32(v: i32) -> (r: Option<Gear>)
        ensures
            r matches Some(g) ==> gear_value(g) == v,
            r is None <==> !(0 <= v <= 3),
    {
        match v {
            0 => Some(Gear::Park),
            1 => Some(Gear::Drive),
            2 => Some(Gear::Reverse),
            3 => Some(Gear::Neutral),
            _ => None,
        }
    }
}

impl AutopilotState {
    /// The wire value of the state.
    pub fn as_i32(self) -> (r: i32)
        ensures
            r == autopilot_value(self),
    {
        match self {
            AutopilotState::Off => 0,
            AutopilotState::SelfDriving => 1,
            AutopilotState::Autosteer => 2,
            AutopilotState::Tacc => 3,
        }
    }

    /// The state with the given wire value, if there is one.
    pub fn from_i32(v: i32) -> (r: Option<AutopilotState>)
        ensures
            r matches Some(a) ==> autopilot_value(a) == v,
            r is None <==> !(0 <= v <= 3),
    {
        match v {
            0 => Some(AutopilotState::Off),
            1 => Some(AutopilotState::SelfDriving),
            2 => Some(AutopilotState::Autosteer),
            3 => Some(AutopilotState::Tacc),
            _ => None,
        }
    }
}

pub open spec fn gear_value(g: Gear) -> i32 {
    match g {
        Gear::Park => 0,
        Gear::Drive => 1,
        Gear::Reverse => 2,
        Gear::Neutral => 3,
    }
}

pub open spec fn autopilot_value(a: AutopilotState) -> i32 {
    match a {
        AutopilotState::Off => 0,
        AutopilotState::SelfDriving => 1,
        AutopilotState::Autosteer => 2,
        AutopilotState::Tacc => 3,
    }
}

/// The label shown for a gear wire value: P, D, R, N, or ? for anything else.
pub open spec fn gear_label(g: i32) -> Seq<char> {
    if g == 0 {
        seq!['P']
    } else if g == 1 {
        seq!['D']
    } else if g == 2 {
        seq!['R']
    } else if g == 3 {
        seq!['N']
    } else {
        seq!['?']
    }
}

/// The label shown for an autopilot wire value: FSD, Autosteer, TACC, or OFF otherwise.
pub open spec fn autopilot_label(a: i32) -> Seq<char> {
    if a == 1 {
        seq!['F', 'S', 'D']
    } else if a == 2 {
        seq!['A', 'u', 't', 'o', 's', 't', 'e', 'e', 'r']
    } else if a == 3 {
        seq!['T', 'A', 'C', 'C']
    } else {
        seq!['O', 'F', 'F']
    }
}

/// The label of a gear wire value.
pub fn gear_str(g: i32) -> (r: &'static str)
    ensures
        r@ == gear_label(g),
{
    proof {
        reveal_strlit("P");
        reveal_strlit("D");
        reveal_strlit("R");
        reveal_strlit("N");
        reveal_strlit("?");
    }
    match g {
        0 => "P",
        1 => "D",
        2 => "R",
        3 => "N",
        _ => "?",
    }
}

/// The label of an autopilot wire value.
pub fn autopilot_str(a: i32) -> (r: &'static str)
    ensures
        r@ == autopilot_label(a),
{
    proof {
        reveal_strlit("FSD");
        reveal_strlit("Autosteer");
        reveal_strlit("TACC");
        reveal_strlit("OFF");
    }
    match a {
        1 => "FSD",
        2 => "Autosteer",
        3 => "TACC",
        _ => "OFF",
    }
}


/// A decoded SEI message and the time of the video sample it arrived in:
/// `time_ticks / time_scale` seconds.
#[derive(Clone, Copy, Debug, PartialEq, Eq, Structural)]
pub struct SeiRecord {
    pub time_ticks: u64,
    pub time_scale: u32,
    pub metadata: SeiMetadataProto,
}

/// Moves the current sample forward while the bytes counted into it (`sb`)
/// reach the size of the sample; gives the new sample index and the bytes left over.
pub open spec fn advance_samples(sizes: Seq<u32>, idx: int, sb: int) -> (int, int)
    decreases sizes.len() - idx,
{
    if 0 <= idx < sizes.len() && sb >= sizes[idx] {
        advance_samples(sizes, idx + 1, sb - sizes[idx])
    } else {
        (idx, sb)
    }
}

/// The time of sample `idx`: its start in ticks of the movie time scale, or,
/// past the sample table, the index counted at 36 samples per second.
pub open spec fn sample_time(times: Seq<u64>, timescale: u32, idx: int) -> (u64, u32) {
    if 0 <= idx < times.len() {
        (times[idx], timescale)
    } else {
        (idx as u64, 36)
    }
}

/// Whether a NAL unit header (its first two bytes) marks SEI user data:
/// NAL type 6 and payload type 5.
pub open spec fn is_sei_user_data(b0: u8, b1: u8) -> bool {
    (b0 & 0x1f) == 6 && b1 == 5
}

/// The telemetry record that the NAL unit `nal` gives at sample `idx`, if any.
pub open spec fn nal_record(nal: Seq<u8>, times: Seq<u64>, timescale: u32, idx: int) -> Seq<SeiRecord> {
    if is_sei_user_data(nal[0], nal[1]) {
        match proto_payload(nal) {
            Some(pl) => match decode_metadata_spec(pl) {
                Some(m) => seq![
                    SeiRecord {
                        time_ticks: sample_time(times, timescale, idx).0,
                        time_scale: sample_time(times, timescale, idx).1,
                        metadata: m,
                    },
                ],
                None => Seq::empty(),
            },
            None => Seq::empty(),
        }
    } else {
        Seq::empty()
    }
}

/// The records of the length-prefixed NAL units read from `pos` on, while the
/// bytes read since `start` stay under `mdat_size` (or without end when it is 0)
/// and the file holds them.  Every NAL unit, with its 4-byte length, counts
/// towards the current sample; NAL units shorter than 2 bytes are skipped.
pub open spec fn sei_walk(
    d: Seq<u8>,
    mdat_size: int,
    sizes: Seq<u32>,
    times: Seq<u64>,
    timescale: u32,
    start: int,
    pos: int,
    idx: int,
    sb: int,
) -> Seq<SeiRecord>
    decreases d.len() + 2 - pos,
{
    if !(mdat_size == 0 || pos - start < mdat_size) || pos + 4 > d.len() {
        Seq::empty()
    } else {
        let nal_size = be_u32(d, pos);
        let p = pos + 4;
        if nal_size < 2 {
            let (i2, s2) = advance_samples(sizes, idx, sb + 4 + nal_size);
            sei_walk(d, mdat_size, sizes, times, timescale, start, p + nal_size, i2, s2)
        } else if p + nal_size > d.len() {
            Seq::empty()
        } else {
            let rec = nal_record(d.subrange(p, p + nal_size), times, timescale, idx);
            let (i2, s2) = advance_samples(sizes, idx, sb + 4 + nal_size);
            rec + sei_walk(d, mdat_size, sizes, times, timescale, start, p + nal_size, i2, s2)
        }
    }
}

/// The telemetry records of an MP4 file whose layout and tables are `info`:
/// none when the sample table is empty.
pub open spec fn sei_records(
    d: Seq<u8>,
    mdat_offset: u64,
    mdat_size: u64,
    sizes: Seq<u32>,
    stts: Seq<SttsEntry>,
    timescale: u32,
) -> Seq<SeiRecord> {
    if sizes.len() == 0 {
        Seq::empty()
    } else {
        let times = sample_start_ticks(stts, sizes.len());
        sei_walk(d, mdat_size as int, sizes, times, timescale, mdat_offset as int, mdat_offset as int, 0, 0)
    }
}

fn advance(sizes: &Vec<u32>, idx: usize, sb: u64) -> (r: (usize, u64))
    requires
        idx <= sizes@.len(),
    ensures
        advance_samples(sizes@, idx as int, sb as int) == (r.0 as int, r.1 as int),
        r.1 <= sb,
        r.0 <= sizes@.len(),
{
    let mut i = idx;
    let mut b = sb;
    while i < sizes.len() && b >= sizes[i] as u64
        invariant
            i <= sizes@.len(),
            b <= sb,
            advance_samples(sizes@, idx as int, sb as int) == advance_samples(sizes@, i as int, b as int),
        decreases sizes@.len() - i,
    {
        b = b - sizes[i] as u64;
        i = i + 1;
    }
    (i, b)
}

/// The telemetry records in the media data of an MP4 file, each timed by the
/// video sample whose bytes it arrives in.
pub fn parse_sei_records(data: &[u8], info: &Mp4Info) -> (r: Vec<SeiRecord>)
    requires
        data@.len() <= 0x7fff_ffff_ffff_ffff,
    ensures
        r@ == sei_records(
            data@,
            info.mdat_offset,
            info.mdat_size,
            info.sample_sizes@,
            info.stts_entries@,
            info.timescale,
        ),
{
    let mut records: Vec<SeiRecord> = Vec::new();
    let ns = info.sample_sizes.len();
    if ns == 0 {
        return records;
    }
    let times = build_sample_times(&info.stts_entries, ns);
    let nu = data.len();
    let n = nu as u64;
    let start = info.mdat_offset;
    let mut pos = start;
    let mut consumed: u64 = 0;
    let mut idx: usize = 0;
    let mut sb: u64 = 0;
    let ghost total = sei_walk(
        data@,
        info.mdat_size as int,
        info.sample_sizes@,
        times@,
        info.timescale,
        start as int,
        start as int,
        0,
        0,
    );
    while info.mdat_size == 0 || consumed < info.mdat_size
        invariant
            n == data@.len(),
            n == nu,
            n <= 0x7fff_ffff_ffff_ffff,
            start <= pos,
            pos <= n + 1 || pos == start,
            consumed == pos - start,
            sb <= consumed,
            idx <= info.sample_sizes@.len(),
            times@ == sample_start_ticks(info.stts_entries@, ns as nat),
            ns == info.sample_sizes@.len(),
            ns > 0,
            total == sei_records(
                data@,
                info.mdat_offset,
                info.mdat_size,
                info.sample_sizes@,
                info.stts_entries@,
                info.timescale,
            ),
            start == info.mdat_offset,
            total == records@ + sei_walk(
                data@,
                info.mdat_size as int,
                info.sample_sizes@,
                times@,
                info.timescale,
                start as int,
                pos as int,
                idx as int,
                sb as int,
            ),
        decreases n + 2 - pos,
    {
        if pos > n || n - pos < 4 {
            proof {
                assert(records@ + Seq::<SeiRecord>::empty() =~= records@);
            }
            return records;
        }
        let nal_size = read_u32_be(data, pos as usize) as u64;
        let p = pos + 4;
        if nal_size < 2 {
            let (i2, s2) = advance(&info.sample_sizes, idx, sb + 4 + nal_size);
            idx = i2;
            sb = s2;
            pos = p + nal_size;
            consumed = consumed + 4 + nal_size;
            continue;
        }
        if nal_size > n - p {
            proof {
                assert(records@ + Seq::<SeiRecord>::empty() =~= records@);
            }
            return records;
        }
        let nal = slice_subrange(data, p as usize, (p + nal_size) as usize);
        let ghost rec = nal_record(nal@, times@, info.timescale, idx as int);
        let ghost before = records@;
        if (nal[0] & 0x1f) == 6 && nal[1] == 5 {
            let (ticks, scale) = if idx < times.len() {
                (times[idx], info.timescale)
            } else {
                (idx as u64, 36u32)
            };
            match extract_proto_payload(nal) {
                Some(pl) => match decode_sei_metadata(pl.as_slice()) {
                    Some(m) => {
                        records.push(SeiRecord { time_ticks: ticks, time_scale: scale, metadata: m });
                    },
                    None => {},
                },
                None => {},
            }
        }
        proof {
            assert(records@ =~= before + rec);
        }
        let (i2, s2) = advance(&info.sample_sizes, idx, sb + 4 + nal_size);
        idx = i2;
        sb = s2;
        pos = p + nal_size;
        consumed = consumed + 4 + nal_size;
    }
    proof {
        assert(records@ + Seq::<SeiRecord>::empty() =~= records@);
    }
    records
}


/// The telemetry records of a whole MP4 file: the layout and tables are read
/// first (their errors are returned), then the SEI units of the media data.
pub open spec fn file_sei_records(d: Seq<u8>) -> Result<Seq<SeiRecord>, Mp4Error> {
    match top_level_atoms(d) {
        Err(e) => Err(e),
        Ok(t) => match moov_body(d) {
            None => Err(Mp4Error::NoMoov),
            Some(m) => Ok(
                sei_records(
                    d,
                    t.mdat_offset,
                    t.mdat_size,
                    moov_sample_sizes(m),
                    moov_stts(m),
                    moov_timescale(m) as u32,
                ),
            ),
        },
    }
}

/// Reads an MP4 file's sample tables and returns the telemetry records of its SEI units.
pub fn extract_sei_records(data: &[u8]) -> (r: Result<Vec<SeiRecord>, Mp4Error>)
    requires
        data@.len() <= max_pos(),
        mp4_tables_in_bounds(data@),
    ensures
        match file_sei_records(data@) {
            Ok(recs) => r matches Ok(v) && v@ == recs,
            Err(e) => r == Err::<Vec<SeiRecord>, Mp4Error>(e),
        },
{
    let info = match parse_mp4_info(data) {
        Ok(info) => info,
        Err(e) => {
            return Err(e);
        },
    };
    Ok(parse_sei_records(data, &info))
}

/// Each gear has its own wire value, in 0..=3, so `from_i32` undoes `as_i32`.
pub proof fn lemma_gear_values_distinct(a: Gear, b: Gear)
    ensures
        0 <= gear_value(a) <= 3,
        gear_value(a) == gear_value(b) ==> a == b,
{
}

/// Each autopilot state has its own wire value, in 0..=3, so `from_i32`
/// undoes `as_i32`.
pub proof fn lemma_autopilot_values_distinct(a: AutopilotState, b: AutopilotState)
    ensures
        0 <= autopilot_value(a) <= 3,
        autopilot_value(a) == autopilot_value(b) ==> a == b,
{
}

} // verus!
