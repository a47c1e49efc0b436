//! Walking the top-level boxes ("atoms") of an MP4 file held in memory.
//!
//! The walk follows the file the way a reader with a seekable cursor does:
//! an atom's header is read at the cursor, and the cursor then moves past the
//! atom's body by a relative seek of (size - header) bytes, taken as a signed
//! 64-bit offset.  A seek that would leave [0, i64::MAX] fails; a seek past
//! the end of the data succeeds and ends the walk.  Because a declared size
//! can move the cursor backwards, a walk can revisit a position; it then
//! never ends, and the library reports that as `Mp4Error::Unending`.
use vstd::prelude::*;
use vstd::slice::slice_subrange;
use crate::bytes::{be_u32, be_u64, find_atom, first_tag, read_u32_be, read_u64_be};

verus! {

/// Why the top-level walk of an MP4 file stopped without a result.
#[derive(Clone, Copy, Debug, PartialEq, Eq, Structural)]
pub enum Mp4Error {
    /// No `moov` atom was found.
    NoMoov,
    /// A read needed more bytes than the file holds.
    UnexpectedEof,
    /// A relative seek would have left the range [0, i64::MAX].
    InvalidSeek,
    /// The walk returned to a position it had already read from and would run forever.
    Unending,
}

/// Start and length of an atom body inside the file.
#[derive(Clone, Copy, Debug, PartialEq, Eq, Structural)]
pub struct Span {
    pub start: u64,
    pub len: u64,
}

/// Where the media data and the movie header box lie in the file.
#[derive(Clone, Copy, Debug, PartialEq, Eq, Structural)]
pub struct TopLevelAtoms {
    /// Offset of the body of the last `mdat` atom seen (0 if none).
    pub mdat_offset: u64,
    /// Declared body size of that `mdat` atom (0 means "to the end of the file").
    pub mdat_size: u64,
    /// Start and length of the body of the last `moov` atom seen.
    pub moov: Option<Span>,
}

/// The largest position a seekable cursor may hold.
pub open spec fn max_pos() -> int {
    0x7fff_ffff_ffff_ffff
}

/// A `u64` read back as the `i64` with the same bits.
pub open spec fn as_signed(v: int) -> int {
    if v >= 0x8000_0000_0000_0000 {
        v - 0x1_0000_0000_0000_0000
    } else {
        v
    }
}

/// `a - b` on `u64`, wrapping around.
pub open spec fn wrap_sub(a: int, b: int) -> int {
    if a >= b {
        a - b
    } else {
        a - b + 0x1_0000_0000_0000_0000
    }
}

/// The cursor after a relative seek by `off`, or `None` when the seek fails.
pub open spec fn seek_by(pos: int, off: int) -> Option<int> {
    if 0 <= pos + off <= max_pos() {
        Some(pos + off)
    } else {
        None
    }
}

/// Whether the four bytes at `s[i..i + 4]` are the given ASCII letters.
pub open spec fn four_cc(s: Seq<u8>, i: int, a: u8, b: u8, c: u8, d: u8) -> bool {
    s[i] == a && s[i + 1] == b && s[i + 2] == c && s[i + 3] == d
}

pub open spec fn is_mdat(s: Seq<u8>, i: int) -> bool {
    four_cc(s, i, 0x6d, 0x64, 0x61, 0x74)
}

pub open spec fn is_moov(s: Seq<u8>, i: int) -> bool {
    four_cc(s, i, 0x6d, 0x6f, 0x6f, 0x76)
}

/// An atom header read at a cursor position.
pub enum AtomHeader {
    /// Fewer than 8 bytes remain.
    Missing,
    /// The 32-bit size field is 1 but the 64-bit size that must follow is cut off.
    ExtendedMissing,
    /// The declared atom size, the header size (8 or 16) and the position of the body.
    Found { size: u64, header: u64, body: u64 },
}

/// The atom header at `pos` (`pos < d.len()`).
pub open spec fn header_at(d: Seq<u8>, pos: int) -> AtomHeader {
    if pos + 8 > d.len() {
        AtomHeader::Missing
    } else if be_u32(d, pos) == 1 {
        if pos + 16 > d.len() {
            AtomHeader::ExtendedMissing
        } else {
            AtomHeader::Found { size: be_u64(d, pos + 8) as u64, header: 16, body: (pos + 16) as u64 }
        }
    } else {
        AtomHeader::Found { size: be_u32(d, pos) as u64, header: 8, body: (pos + 8) as u64 }
    }
}

/// One step-by-step walk over the top-level atoms, with `fuel` iterations at most.
/// `None` means the fuel ran out.
pub open spec fn top_level_walk(d: Seq<u8>, pos: int, acc: TopLevelAtoms, fuel: nat) -> Option<
    Result<TopLevelAtoms, Mp4Error>,
>
    decreases fuel,
{
    if pos >= d.len() {
        Some(Ok(acc))
    } else if fuel == 0 {
        None
    } else {
        match header_at(d, pos) {
            AtomHeader::Missing => Some(Ok(acc)),
            AtomHeader::ExtendedMissing => Some(Err(Mp4Error::UnexpectedEof)),
            AtomHeader::Found { size, header, body } => {
                if is_mdat(d, pos + 4) {
                    let msize = if size > 0 { wrap_sub(size as int, header as int) } else { 0 };
                    let next = TopLevelAtoms { mdat_offset: body, mdat_size: msize as u64, ..acc };
                    if msize > 0 {
                        match seek_by(body as int, as_signed(msize)) {
                            Some(np) => top_level_walk(d, np, next, (fuel - 1) as nat),
                            None => Some(Err(Mp4Error::InvalidSeek)),
                        }
                    } else {
                        top_level_walk(d, body as int, next, (fuel - 1) as nat)
                    }
                } else if is_moov(d, pos + 4) {
                    let sz = wrap_sub(size as int, header as int);
                    if body + sz > d.len() {
                        Some(Err(Mp4Error::UnexpectedEof))
                    } else {
                        let next = TopLevelAtoms { moov: Some(Span { start: body, len: sz as u64 }), ..acc };
                        top_level_walk(d, body + sz, next, (fuel - 1) as nat)
                    }
                } else if size < header {
                    Some(Ok(acc))
                } else {
                    match seek_by(body as int, as_signed(size - header)) {
                        Some(np) => top_level_walk(d, np, acc, (fuel - 1) as nat),
                        None => Some(Err(Mp4Error::InvalidSeek)),
                    }
                }
            },
        }
    }
}

/// The outcome of the top-level walk from the start of the file.  A walk
/// takes at most one iteration per byte before it either ends or revisits a
/// position, so `d.len() + 1` iterations decide it.
pub open spec fn top_level_atoms(d: Seq<u8>) -> Result<TopLevelAtoms, Mp4Error> {
    let init = TopLevelAtoms { mdat_offset: 0, mdat_size: 0, moov: None };
    match top_level_walk(d, 0, init, (d.len() + 1) as nat) {
        Some(r) => r,
        None => Err(Mp4Error::Unending),
    }
}

fn read_header(data: &[u8], pos: u64) -> (r: AtomHeader)
    requires
        pos < data@.len(),
        data@.len() <= max_pos(),
    ensures
        r == header_at(data@, pos as int),
{
    let n = data.len() as u64;
    if n < 8 || pos > n - 8 {
        return AtomHeader::Missing;
    }
    let p = pos as usize;
    let size32 = read_u32_be(data, p);
    if size32 == 1 {
        if n < 16 || pos > n - 16 {
            return AtomHeader::ExtendedMissing;
        }
        let size = read_u64_be(data, p + 8);
        AtomHeader::Found { size, header: 16, body: pos + 16 }
    } else {
        AtomHeader::Found { size: size32 as u64, header: 8, body: pos + 8 }
    }
}

/// The position after seeking by the `u64` `v` taken as a signed offset.
fn seek_signed(pos: u64, v: u64) -> (r: Option<u64>)
    requires
        pos <= max_pos(),
    ensures
        r matches Some(np) ==> seek_by(pos as int, as_signed(v as int)) == Some(np as int),
        r is None ==> seek_by(pos as int, as_signed(v as int)) is None,
{
    let off: i128 = if v >= 0x8000_0000_0000_0000 {
        v as i128 - 0x1_0000_0000_0000_0000
    } else {
        v as i128
    };
    let np: i128 = pos as i128 + off;
    if np < 0 || np > 0x7fff_ffff_ffff_ffff {
        None
    } else {
        Some(np as u64)
    }
}

fn is_tag(data: &[u8], i: u64, a: u8, b: u8, c: u8, d: u8) -> (r: bool)
    requires
        i + 4 <= data@.len(),
    ensures
        r == four_cc(data@, i as int, a, b, c, d),
{
    let p = i as usize;
    data[p] == a && data[p + 1] == b && data[p + 2] == c && data[p + 3] == d
}

/// Walks the top-level atoms of an MP4 file, recording the last `mdat` and `moov` atoms.
pub fn scan_top_level(data: &[u8]) -> (r: Result<TopLevelAtoms, Mp4Error>)
    requires
        data@.len() <= max_pos(),
    ensures
        r == top_level_atoms(data@),
{
    let n = data.len() as u64;
    let mut pos: u64 = 0;
    let mut acc = TopLevelAtoms { mdat_offset: 0, mdat_size: 0, moov: None };
    let mut fuel: u64 = n + 1;
    let ghost init = acc;
    while pos < n
        invariant
            n == data@.len(),
            n <= max_pos(),
            pos <= max_pos(),
            fuel <= n + 1,
            init == (TopLevelAtoms { mdat_offset: 0, mdat_size: 0, moov: None }),
            top_level_walk(data@, 0, init, (n + 1) as nat) == top_level_walk(
                data@,
                pos as int,
                acc,
                fuel as nat,
            ),
        decreases fuel,
    {
        if fuel == 0 {
            return Err(Mp4Error::Unending);
        }
        match read_header(data, pos) {
            AtomHeader::Missing => {
                return Ok(acc);
            },
            AtomHeader::ExtendedMissing => {
                return Err(Mp4Error::UnexpectedEof);
            },
            AtomHeader::Found { size, header, body } => {
                if is_tag(data, pos + 4, 0x6d, 0x64, 0x61, 0x74) {
                    let msize = if size > 0 { size.wrapping_sub(header) } else { 0 };
                    acc = TopLevelAtoms { mdat_offset: body, mdat_size: msize, ..acc };
                    if msize > 0 {
                        match seek_signed(body, msize) {
                            Some(np) => {
                                pos = np;
                            },
                            None => {
                                return Err(Mp4Error::InvalidSeek);
                            },
                        }
                    } else {
                        pos = body;
                    }
                } else if is_tag(data, pos + 4, 0x6d, 0x6f, 0x6f, 0x76) {
                    let sz = size.wrapping_sub(header);
                    if sz > n - body {
                        return Err(Mp4Error::UnexpectedEof);
                    }
                    acc = TopLevelAtoms { moov: Some(Span { start: body, len: sz }), ..acc };
                    pos = body + sz;
                } else if size < header {
                    return Ok(acc);
                } else {
                    match seek_signed(body, size - header) {
                        Some(np) => {
                            pos = np;
                        },
                        None => {
                            return Err(Mp4Error::InvalidSeek);
                        },
                    }
                }
            },
        }
        fuel = fuel - 1;
    }
    Ok(acc)
}


/// One run of the decoding time-to-sample table (`stts`).
#[derive(Clone, Copy, Debug, PartialEq, Eq, Structural)]
pub struct SttsEntry {
    pub sample_count: u32,
    pub sample_delta: u32,
}

/// The sample tables that telemetry alignment needs from the `moov` atom.
pub struct MoovTables {
    /// Sample sizes from `stsz`, in sample order (empty when there is no `stsz`).
    pub sample_sizes: Vec<u32>,
    /// Runs of `stts` (empty when there is no `stts`).
    pub stts_entries: Vec<SttsEntry>,
    /// The movie time scale from `mvhd` (10000 when there is no `mvhd`).
    pub timescale: u32,
}

pub open spec fn tag4(a: u8, b: u8, c: u8, d: u8) -> Seq<u8> {
    seq![a, b, c, d]
}

pub open spec fn mvhd_tag() -> Seq<u8> {
    tag4(0x6d, 0x76, 0x68, 0x64)
}

pub open spec fn stsz_tag() -> Seq<u8> {
    tag4(0x73, 0x74, 0x73, 0x7a)
}

pub open spec fn stts_tag() -> Seq<u8> {
    tag4(0x73, 0x74, 0x74, 0x73)
}

/// Whether every field that the sample-table reader takes from `m` lies inside `m`.
pub open spec fn moov_tables_in_bounds(m: Seq<u8>) -> bool {
    &&& match first_tag(m, mvhd_tag()) {
        Some(p) => p + 4 < m.len() && (if m[p + 4] == 0 {
            p + 20 <= m.len()
        } else {
            p + 28 <= m.len()
        }),
        None => true,
    }
    &&& match first_tag(m, stsz_tag()) {
        Some(p) => p + 16 <= m.len() && p + 16 + be_u32(m, p + 12) * 4 <= m.len(),
        None => true,
    }
    &&& match first_tag(m, stts_tag()) {
        Some(p) => p + 12 <= m.len() && p + 12 + be_u32(m, p + 8) * 8 <= m.len(),
        None => true,
    }
}

/// The movie time scale: the `mvhd` field at offset 12 (version 0) or 20 (version 1)
/// after the tag, or 10000 without an `mvhd`.
pub open spec fn moov_timescale(m: Seq<u8>) -> int {
    match first_tag(m, mvhd_tag()) {
        Some(p) => if m[p + 4] == 0 {
            be_u32(m, p + 16)
        } else {
            be_u32(m, p + 24)
        },
        None => 10000,
    }
}

/// The sample sizes listed by the first `stsz`.
pub open spec fn moov_sample_sizes(m: Seq<u8>) -> Seq<u32> {
    match first_tag(m, stsz_tag()) {
        Some(p) => Seq::new(be_u32(m, p + 12) as nat, |i: int| be_u32(m, p + 16 + i * 4) as u32),
        None => Seq::empty(),
    }
}

/// The runs listed by the first `stts`.
pub open spec fn moov_stts(m: Seq<u8>) -> Seq<SttsEntry> {
    match first_tag(m, stts_tag()) {
        Some(p) => Seq::new(
            be_u32(m, p + 8) as nat,
            |i: int|
                SttsEntry {
                    sample_count: be_u32(m, p + 12 + i * 8) as u32,
                    sample_delta: be_u32(m, p + 16 + i * 8) as u32,
                },
        ),
        None => Seq::empty(),
    }
}

/// Checks `moov_tables_in_bounds`: whether `read_moov_tables` may be called on `moov`.
pub fn moov_tables_fit(moov: &[u8]) -> (r: bool)
    ensures
        r == moov_tables_in_bounds(moov@),
{
    let n = moov.len();
    let ok_mvhd = match find_atom(moov, &[0x6d, 0x76, 0x68, 0x64]) {
        Some(p) => {
            if p >= n - 4 {
                false
            } else if moov[p + 4] == 0 {
                n >= 20 && p <= n - 20
            } else {
                n >= 28 && p <= n - 28
            }
        },
        None => true,
    };
    let ok_stsz = match find_atom(moov, &[0x73, 0x74, 0x73, 0x7a]) {
        Some(p) => {
            if n < 16 || p > n - 16 {
                false
            } else {
                let count = read_u32_be(moov, p + 12) as u128;
                (p as u128) + 16 + count * 4 <= n as u128
            }
        },
        None => true,
    };
    let ok_stts = match find_atom(moov, &[0x73, 0x74, 0x74, 0x73]) {
        Some(p) => {
            if n < 12 || p > n - 12 {
                false
            } else {
                let count = read_u32_be(moov, p + 8) as u128;
                (p as u128) + 12 + count * 8 <= n as u128
            }
        },
        None => true,
    };
    ok_mvhd && ok_stsz && ok_stts
}

/// Reads the time scale, the sample sizes and the time-to-sample runs from a `moov` body.
pub fn read_moov_tables(moov: &[u8]) -> (r: MoovTables)
    requires
        moov_tables_in_bounds(moov@),
    ensures
        r.timescale == moov_timescale(moov@),
        r.sample_sizes@ == moov_sample_sizes(moov@),
        r.stts_entries@ == moov_stts(moov@),
{
    let n = moov.len();
    let timescale = match find_atom(moov, &[0x6d, 0x76, 0x68, 0x64]) {
        Some(p) => {
            if moov[p + 4] == 0 {
                read_u32_be(moov, p + 16)
            } else {
                read_u32_be(moov, p + 24)
            }
        },
        None => 10000,
    };
    let mut sample_sizes: Vec<u32> = Vec::new();
    match find_atom(moov, &[0x73, 0x74, 0x73, 0x7a]) {
        Some(p) => {
            let count = read_u32_be(moov, p + 12) as usize;
            let mut i: usize = 0;
            while i < count
                invariant
                    n == moov@.len(),
                    first_tag(moov@, stsz_tag()) == Some(p as int),
                    count == be_u32(moov@, p + 12),
                    p + 16 + count * 4 <= n,
                    i <= count,
                    sample_sizes@ =~= moov_sample_sizes(moov@).take(i as int),
                decreases count - i,
            {
                let v = read_u32_be(moov, p + 16 + i * 4);
                sample_sizes.push(v);
                i = i + 1;
            }
        },
        None => {},
    }
    let mut stts_entries: Vec<SttsEntry> = Vec::new();
    match find_atom(moov, &[0x73, 0x74, 0x74, 0x73]) {
        Some(p) => {
            let count = read_u32_be(moov, p + 8) as usize;
            let mut i: usize = 0;
            while i < count
                invariant
                    n == moov@.len(),
                    first_tag(moov@, stts_tag()) == Some(p as int),
                    count == be_u32(moov@, p + 8),
                    p + 12 + count * 8 <= n,
                    i <= count,
                    stts_entries@ =~= moov_stts(moov@).take(i as int),
                decreases count - i,
            {
                let c = read_u32_be(moov, p + 12 + i * 8);
                let d = read_u32_be(moov, p + 16 + i * 8);
                stts_entries.push(SttsEntry { sample_count: c, sample_delta: d });
                i = i + 1;
            }
        },
        None => {},
    }
    MoovTables { sample_sizes, stts_entries, timescale }
}


/// The facts that telemetry alignment takes from an MP4 file.
pub struct Mp4Info {
    pub mdat_offset: u64,
    pub mdat_size: u64,
    pub sample_sizes: Vec<u32>,
    pub stts_entries: Vec<SttsEntry>,
    pub timescale: u32,
}

/// The `moov` body that the top-level walk found, if the walk succeeded and found one.
pub open spec fn moov_body(d: Seq<u8>) -> Option<Seq<u8>> {
    match top_level_atoms(d) {
        Ok(t) => match t.moov {
            Some(sp) => Some(d.subrange(sp.start as int, sp.start + sp.len)),
            None => None,
        },
        Err(_) => None,
    }
}

/// Whether reading the sample tables of the file's `moov` stays inside it
/// (it does trivially when there is no `moov` to read).
pub open spec fn mp4_tables_in_bounds(d: Seq<u8>) -> bool {
    match moov_body(d) {
        Some(m) => moov_tables_in_bounds(m),
        None => true,
    }
}

/// Checks `mp4_tables_in_bounds`: whether `parse_mp4_info` may be called on `data`.
pub fn mp4_tables_fit(data: &[u8]) -> (r: bool)
    requires
        data@.len() <= max_pos(),
    ensures
        r == mp4_tables_in_bounds(data@),
{
    match scan_top_level(data) {
        Ok(t) => match t.moov {
            Some(sp) => {
                proof {
                    lemma_walk_moov_in_bounds(data@, 0, TopLevelAtoms { mdat_offset: 0, mdat_size: 0, moov: None }, (data@.len() + 1) as nat);
                }
                let _n = data.len();
                assert(sp.start + sp.len <= data@.len());
                let m = slice_subrange(data, sp.start as usize, (sp.start + sp.len) as usize);
                moov_tables_fit(m)
            },
            None => true,
        },
        Err(_) => true,
    }
}

/// A `moov` span recorded by the walk lies inside the file.
proof fn lemma_walk_moov_in_bounds(d: Seq<u8>, pos: int, acc: TopLevelAtoms, fuel: nat)
    requires
        acc.moov matches Some(sp) ==> sp.start + sp.len <= d.len(),
    ensures
        top_level_walk(d, pos, acc, fuel) matches Some(Ok(t)) ==> (t.moov matches Some(sp)
            ==> sp.start + sp.len <= d.len()),
    decreases fuel,
{
    if pos >= d.len() || fuel == 0 {
    } else {
        match header_at(d, pos) {
            AtomHeader::Found { size, header, body } => {
                if is_mdat(d, pos + 4) {
                    let msize = if size > 0 { wrap_sub(size as int, header as int) } else { 0 };
                    let next = TopLevelAtoms { mdat_offset: body, mdat_size: msize as u64, ..acc };
                    if msize > 0 {
                        match seek_by(body as int, as_signed(msize)) {
                            Some(np) => lemma_walk_moov_in_bounds(d, np, next, (fuel - 1) as nat),
                            None => {},
                        }
                    } else {
                        lemma_walk_moov_in_bounds(d, body as int, next, (fuel - 1) as nat);
                    }
                } else if is_moov(d, pos + 4) {
                    let sz = wrap_sub(size as int, header as int);
                    if body + sz <= d.len() {
                        let next = TopLevelAtoms { moov: Some(Span { start: body, len: sz as u64 }), ..acc };
                        lemma_walk_moov_in_bounds(d, body + sz, next, (fuel - 1) as nat);
                    }
                } else if size >= header {
                    match seek_by(body as int, as_signed(size - header)) {
                        Some(np) => lemma_walk_moov_in_bounds(d, np, acc, (fuel - 1) as nat),
                        None => {},
                    }
                }
            },
            _ => {},
        }
    }
}

/// Locates the media data and reads the sample tables of an MP4 file.
pub fn parse_mp4_info(data: &[u8]) -> (r: Result<Mp4Info, Mp4Error>)
    requires
        data@.len() <= max_pos(),
        mp4_tables_in_bounds(data@),
    ensures
        match top_level_atoms(data@) {
            Err(e) => r == Err::<Mp4Info, Mp4Error>(e),
            Ok(t) => match moov_body(data@) {
                None => r == Err::<Mp4Info, Mp4Error>(Mp4Error::NoMoov),
                Some(m) => r matches Ok(info) && info.mdat_offset == t.mdat_offset
                    && info.mdat_size == t.mdat_size && info.timescale == moov_timescale(m)
                    && info.sample_sizes@ == moov_sample_sizes(m) && info.stts_entries@
                    == moov_stts(m),
            },
        },
{
    proof {
        lemma_walk_moov_in_bounds(data@, 0, TopLevelAtoms { mdat_offset: 0, mdat_size: 0, moov: None }, (data@.len() + 1) as nat);
    }
    let t = match scan_top_level(data) {
        Ok(t) => t,
        Err(e) => {
            return Err(e);
        },
    };
    let sp = match t.moov {
        Some(sp) => sp,
        None => {
            return Err(Mp4Error::NoMoov);
        },
    };
    let _n = data.len();
    assert(sp.start + sp.len <= data@.len());
    let m = slice_subrange(data, sp.start as usize, (sp.start + sp.len) as usize);
    assert(m@ == moov_body(data@).unwrap());
    let tables = read_moov_tables(m);
    Ok(
        Mp4Info {
            mdat_offset: t.mdat_offset,
            mdat_size: t.mdat_size,
            sample_sizes: tables.sample_sizes,
            stts_entries: tables.stts_entries,
            timescale: tables.timescale,
        },
    )
}

/// The per-sample durations that the `stts` runs spell out, in sample order.
pub open spec fn expand_stts(e: Seq<SttsEntry>) -> Seq<int>
    decreases e.len(),
{
    if e.len() == 0 {
        Seq::empty()
    } else {
        expand_stts(e.drop_last()) + Seq::new(
            e.last().sample_count as nat,
            |_k: int| e.last().sample_delta as int,
        )
    }
}

/// The durations of `n` samples: those of the `stts` runs, and, where the runs
/// cover fewer than `n` samples, the last run's duration (1 without runs) for the rest.
pub open spec fn sample_deltas(e: Seq<SttsEntry>, n: nat) -> Seq<int> {
    let base = expand_stts(e);
    let last = if e.len() > 0 { e.last().sample_delta as int } else { 1 };
    if base.len() < n {
        base + Seq::new((n - base.len()) as nat, |_k: int| last)
    } else {
        base
    }
}

/// The sum of the first `k` elements of `s`.
pub open spec fn prefix_sum(s: Seq<int>, k: nat) -> int
    decreases k,
{
    if k == 0 || k > s.len() {
        0
    } else {
        prefix_sum(s, (k - 1) as nat) + s[k - 1]
    }
}

/// The start time of every sample, in time-scale ticks: the sum of the
/// durations before it, kept modulo 2^64 like the `u64` counter that adds them up.
pub open spec fn sample_start_ticks(e: Seq<SttsEntry>, n: nat) -> Seq<u64> {
    let ds = sample_deltas(e, n);
    Seq::new(ds.len(), |k: int| (prefix_sum(ds, k as nat) % 0x1_0000_0000_0000_0000) as u64)
}

proof fn lemma_prefix_sum_push(s: Seq<int>, d: int, k: nat)
    requires
        k <= s.len(),
    ensures
        prefix_sum(s.push(d), k) == prefix_sum(s, k),
    decreases k,
{
    if k > 0 {
        lemma_prefix_sum_push(s, d, (k - 1) as nat);
    }
}

proof fn lemma_prefix_sum_bound(s: Seq<int>, k: nat)
    requires
        k <= s.len(),
        forall|i: int| 0 <= i < s.len() ==> 0 <= #[trigger] s[i] <= 0xffff_ffff,
    ensures
        0 <= prefix_sum(s, k) <= k * 0xffff_ffff,
    decreases k,
{
    if k > 0 {
        lemma_prefix_sum_bound(s, (k - 1) as nat);
    }
}

/// Start time, in ticks, of each of `n_samples` samples (and of any further
/// samples that the `stts` runs describe).
pub fn build_sample_times(stts: &Vec<SttsEntry>, n_samples: usize) -> (r: Vec<u64>)
    ensures
        r@ == sample_start_ticks(stts@, n_samples as nat),
{
    let ghost full = sample_deltas(stts@, n_samples as nat);
    let mut times: Vec<u64> = Vec::new();
    let mut acc: u128 = 0;
    let ghost mut cur: Seq<int> = Seq::empty();
    let ne = stts.len();
    let mut i: usize = 0;
    while i < ne
        invariant
            ne == stts@.len(),
            i <= ne,
            cur == expand_stts(stts@.take(i as int)),
            cur.len() <= i * 0xffff_ffff,
            times@.len() == cur.len(),
            forall|k: int| 0 <= k < cur.len() ==> 0 <= #[trigger] cur[k] <= 0xffff_ffff,
            forall|k: int|
                0 <= k < times@.len() ==> times@[k] == (prefix_sum(cur, k as nat)
                    % 0x1_0000_0000_0000_0000) as u64,
            acc == prefix_sum(cur, cur.len()),
        decreases ne - i,
    {
        let count = stts[i].sample_count;
        let delta = stts[i].sample_delta;
        let ghost before = cur;
        let mut j: u32 = 0;
        while j < count
            invariant
                ne == stts@.len(),
                i < ne,
                count == stts@[i as int].sample_count,
                delta == stts@[i as int].sample_delta,
                j <= count,
                before == expand_stts(stts@.take(i as int)),
                before.len() <= i * 0xffff_ffff,
                cur == before + Seq::new(j as nat, |_k: int| delta as int),
                times@.len() == cur.len(),
                forall|k: int| 0 <= k < cur.len() ==> 0 <= #[trigger] cur[k] <= 0xffff_ffff,
                forall|k: int|
                    0 <= k < times@.len() ==> times@[k] == (prefix_sum(cur, k as nat)
                        % 0x1_0000_0000_0000_0000) as u64,
                acc == prefix_sum(cur, cur.len()),
            decreases count - j,
        {
            proof {
                lemma_prefix_sum_bound(cur, cur.len());
                assert(cur.len() * 0xffff_ffff + 0xffff_ffff < 0x1_0000_0000_0000_0000_0000_0000_0000_0000)
                    by (nonlinear_arith)
                    requires
                        cur.len() <= i * 0xffff_ffff + j,
                        i < 0x1_0000_0000_0000_0000,
                        j <= 0xffff_ffff,
                ;
            }
            times.push((acc % 0x1_0000_0000_0000_0000) as u64);
            acc = acc + delta as u128;
            proof {
                let old_cur = cur;
                cur = cur.push(delta as int);
                lemma_prefix_sum_push(old_cur, delta as int, old_cur.len());
                assert forall|k: int| 0 <= k < times@.len() implies times@[k] == (prefix_sum(
                    cur,
                    k as nat,
                ) % 0x1_0000_0000_0000_0000) as u64 by {
                    lemma_prefix_sum_push(old_cur, delta as int, k as nat);
                }
                assert(cur == before + Seq::new((j + 1) as nat, |_k: int| delta as int));
            }
            j = j + 1;
        }
        proof {
            assert(stts@.take(i + 1).drop_last() =~= stts@.take(i as int));
            assert(cur =~= expand_stts(stts@.take(i + 1)));
            assert((i + 1) * 0xffff_ffff == i * 0xffff_ffff + 0xffff_ffff) by (nonlinear_arith);
        }
        i = i + 1;
    }
    proof {
        assert(stts@.take(ne as int) =~= stts@);
    }
    let last: u32 = if ne > 0 { stts[ne - 1].sample_delta } else { 1 };
    let ghost base = cur;
    while times.len() < n_samples
        invariant
            base == expand_stts(stts@),
            full == sample_deltas(stts@, n_samples as nat),
            times@.len() <= n_samples || times@.len() == base.len(),
            base.len() <= ne * 0xffff_ffff,
            ne == stts@.len(),
            last == (if ne > 0 { stts@.last().sample_delta as int } else { 1 }),
            cur == base + Seq::new((times@.len() - base.len()) as nat, |_k: int| last as int),
            times@.len() >= base.len(),
            forall|k: int| 0 <= k < cur.len() ==> 0 <= #[trigger] cur[k] <= 0xffff_ffff,
            times@.len() == cur.len(),
            forall|k: int|
                0 <= k < times@.len() ==> times@[k] == (prefix_sum(cur, k as nat)
                    % 0x1_0000_0000_0000_0000) as u64,
            acc == prefix_sum(cur, cur.len()),
        decreases n_samples - times@.len(),
    {
        proof {
            lemma_prefix_sum_bound(cur, cur.len());
            assert(cur.len() * 0xffff_ffff + 0xffff_ffff < 0x1_0000_0000_0000_0000_0000_0000_0000_0000)
                by (nonlinear_arith)
                requires
                    cur.len() <= ne * 0xffff_ffff + n_samples,
                    ne < 0x1_0000_0000_0000_0000,
                    n_samples < 0x1_0000_0000_0000_0000,
            ;
        }
        times.push((acc % 0x1_0000_0000_0000_0000) as u64);
        acc = acc + last as u128;
        proof {
            let old_cur = cur;
            cur = cur.push(last as int);
            lemma_prefix_sum_push(old_cur, last as int, old_cur.len());
            assert forall|k: int| 0 <= k < times@.len() implies times@[k] == (prefix_sum(
                cur,
                k as nat,
            ) % 0x1_0000_0000_0000_0000) as u64 by {
                lemma_prefix_sum_push(old_cur, last as int, k as nat);
            }
            assert(cur =~= base + Seq::new((times@.len() - base.len()) as nat, |_k: int| last as int));
        }
    }
    proof {
        assert(cur =~= full);
    }
    times
}


/// A movie duration as read from `mvhd`: `duration / timescale` seconds.
#[derive(Clone, Copy, Debug, PartialEq, Eq, Structural)]
pub struct Mp4Duration {
    pub duration: u64,
    pub timescale: u32,
}

/// The duration recorded in the first `mvhd` of a `moov` body.  Only tags
/// that start more than 20 bytes before the end are looked at; a version 0
/// header holds 32-bit fields, a version 1 header a 64-bit duration; other
/// versions, cut-off fields and a zero time scale give nothing.
pub open spec fn mvhd_duration(m: Seq<u8>) -> Option<Mp4Duration> {
    match first_tag(m, mvhd_tag()) {
        Some(i) => if i + 20 < m.len() {
            if m[i + 4] == 0 && i + 24 <= m.len() {
                let ts = be_u32(m, i + 16);
                if ts > 0 {
                    Some(Mp4Duration { duration: be_u32(m, i + 20) as u64, timescale: ts as u32 })
                } else {
                    None
                }
            } else if m[i + 4] == 1 && i + 36 <= m.len() {
                let ts = be_u32(m, i + 24);
                if ts > 0 {
                    Some(Mp4Duration { duration: be_u64(m, i + 28) as u64, timescale: ts as u32 })
                } else {
                    None
                }
            } else {
                None
            }
        } else {
            None
        },
        None => None,
    }
}

/// The walk over the top-level atoms that looks for the movie duration, with
/// `fuel` iterations at most (`None` when the fuel runs out).  It stops at the
/// first `moov`, and gives nothing when a read or a seek fails.
pub open spec fn duration_walk(d: Seq<u8>, pos: int, fuel: nat) -> Option<Option<Mp4Duration>>
    decreases fuel,
{
    if pos >= d.len() {
        Some(None)
    } else if fuel == 0 {
        None
    } else {
        match header_at(d, pos) {
            AtomHeader::Found { size, header, body } => {
                if is_moov(d, pos + 4) {
                    let sz = wrap_sub(size as int, header as int);
                    if body + sz > d.len() {
                        Some(None)
                    } else {
                        Some(mvhd_duration(d.subrange(body as int, body + sz)))
                    }
                } else if size < header {
                    Some(None)
                } else {
                    match seek_by(body as int, as_signed(size - header)) {
                        Some(np) => duration_walk(d, np, (fuel - 1) as nat),
                        None => Some(None),
                    }
                }
            },
            _ => Some(None),
        }
    }
}

/// The duration stored in the file's `moov`/`mvhd`, or `Err(Unending)` when
/// the walk to the `moov` would never end.
pub open spec fn mp4_duration(d: Seq<u8>) -> Result<Option<Mp4Duration>, Mp4Error> {
    match duration_walk(d, 0, (d.len() + 1) as nat) {
        Some(r) => Ok(r),
        None => Err(Mp4Error::Unending),
    }
}

fn moov_duration(m: &[u8]) -> (r: Option<Mp4Duration>)
    ensures
        r == mvhd_duration(m@),
{
    let n = m.len();
    let i = match find_atom(m, &[0x6d, 0x76, 0x68, 0x64]) {
        Some(i) => i,
        None => {
            return None;
        },
    };
    if n < 20 || i >= n - 20 {
        return None;
    }
    if m[i + 4] == 0 && n >= 24 && i <= n - 24 {
        let ts = read_u32_be(m, i + 16);
        if ts > 0 {
            return Some(Mp4Duration { duration: read_u32_be(m, i + 20) as u64, timescale: ts });
        }
        None
    } else if m[i + 4] == 1 && n >= 36 && i <= n - 36 {
        let ts = read_u32_be(m, i + 24);
        if ts > 0 {
            return Some(Mp4Duration { duration: read_u64_be(m, i + 28), timescale: ts });
        }
        None
    } else {
        None
    }
}

/// Reads the movie duration from the `mvhd` inside the first top-level `moov`.
pub fn read_mp4_duration(data: &[u8]) -> (r: Result<Option<Mp4Duration>, Mp4Error>)
    requires
        data@.len() <= max_pos(),
    ensures
        r == mp4_duration(data@),
{
    let n = data.len() as u64;
    let mut pos: u64 = 0;
    let mut fuel: u64 = n + 1;
    while pos < n
        invariant
            n == data@.len(),
            n <= max_pos(),
            pos <= max_pos(),
            fuel <= n + 1,
            duration_walk(data@, 0, (n + 1) as nat) == duration_walk(data@, pos as int, fuel as nat),
        decreases fuel,
    {
        if fuel == 0 {
            return Err(Mp4Error::Unending);
        }
        match read_header(data, pos) {
            AtomHeader::Found { size, header, body } => {
                if is_tag(data, pos + 4, 0x6d, 0x6f, 0x6f, 0x76) {
                    let sz = size.wrapping_sub(header);
                    if sz > n - body {
                        return Ok(None);
                    }
                    let _nu = data.len();
                    let m = slice_subrange(data, body as usize, (body + sz) as usize);
                    return Ok(moov_duration(m));
                } else if size < header {
                    return Ok(None);
                } else {
                    match seek_signed(body, size - header) {
                        Some(np) => {
                            pos = np;
                        },
                        None => {
                            return Ok(None);
                        },
                    }
                }
            },
            _ => {
                return Ok(None);
            },
        }
        fuel = fuel - 1;
    }
    Ok(None)
}

/// The position reached after `k` steps of `step` from `p`, or `None` when
/// a step before that stops.
pub open spec fn steps_from(step: spec_fn(int) -> Option<int>, p: int, k: nat) -> Option<int>
    decreases k,
{
    if k == 0 {
        Some(p)
    } else {
        match step(p) {
            Some(q) => steps_from(step, q, (k - 1) as nat),
            None => None,
        }
    }
}

proof fn lemma_steps_add(step: spec_fn(int) -> Option<int>, p: int, a: nat, b: nat)
    ensures
        steps_from(step, p, a + b) == (match steps_from(step, p, a) {
            Some(q) => steps_from(step, q, b),
            None => None,
        }),
    decreases a,
{
    if a > 0 {
        match step(p) {
            Some(q) => {
                lemma_steps_add(step, q, (a - 1) as nat, b);
                assert((a - 1) as nat + b == (a + b - 1) as nat);
            },
            None => {},
        }
    }
}

/// Once position `i` and position `j > i` coincide, every later position
/// repeats an earlier one.
proof fn lemma_steps_cycle(step: spec_fn(int) -> Option<int>, p: int, n: nat, i: nat, j: nat, k: nat)
    requires
        i < j <= n,
        steps_from(step, p, i) == steps_from(step, p, j),
        forall|m: nat| m <= n ==> (#[trigger] steps_from(step, p, m) matches Some(q) && 0 <= q < n),
    ensures
        steps_from(step, p, k) matches Some(q) && 0 <= q < n,
    decreases k,
{
    if k > n {
        let back = (k - (j - i)) as nat;
        lemma_steps_cycle(step, p, n, i, j, back);
        lemma_steps_add(step, p, j, (k - j) as nat);
        lemma_steps_add(step, p, i, (k - j) as nat);
        assert(j + (k - j) as nat == k);
        assert(i + (k - j) as nat == back);
    }
}

/// A walk whose first `n + 1` positions all lie in `[0, n)` goes on forever:
/// two of those positions coincide, and from there the walk repeats itself.
proof fn lemma_steps_forever(step: spec_fn(int) -> Option<int>, p: int, n: nat)
    requires
        forall|m: nat| m <= n ==> (#[trigger] steps_from(step, p, m) matches Some(q) && 0 <= q < n),
    ensures
        forall|k: nat| #[trigger] steps_from(step, p, k) matches Some(q) && 0 <= q < n,
{
    let s = Seq::new((n + 1) as nat, |m: int| steps_from(step, p, m as nat)->0);
    if s.no_duplicates() {
        s.unique_seq_to_set();
        vstd::set_lib::lemma_int_range(0, n as int);
        assert forall|x: int| s.to_set().contains(x) implies vstd::set_lib::set_int_range(0, n as int).contains(
            x,
        ) by {
            let m = choose|m: int| 0 <= m < s.len() && s[m] == x;
            assert(steps_from(step, p, m as nat) matches Some(q) && 0 <= q < n);
        }
        vstd::set_lib::lemma_len_subset(s.to_set(), vstd::set_lib::set_int_range(0, n as int));
        assert(false);
    }
    let (i, j) = choose|i: int, j: int| 0 <= i < s.len() && 0 <= j < s.len() && i != j && s[i] == s[j];
    let (lo, hi) = if i < j {
        (i as nat, j as nat)
    } else {
        (j as nat, i as nat)
    };
    assert(steps_from(step, p, lo) matches Some(_));
    assert(steps_from(step, p, hi) matches Some(_));
    assert(steps_from(step, p, lo) == steps_from(step, p, hi));
    assert forall|k: nat| #[trigger] steps_from(step, p, k) matches Some(q) && 0 <= q < n by {
        lemma_steps_cycle(step, p, n, lo, hi, k);
    }
}

/// Where the top-level walk goes from `pos`: the next cursor position, or
/// `None` when it stops there.
pub open spec fn walk_next(d: Seq<u8>, pos: int) -> Option<int> {
    if pos >= d.len() {
        None
    } else {
        match header_at(d, pos) {
            AtomHeader::Found { size, header, body } => {
                if is_mdat(d, pos + 4) {
                    let msize = if size > 0 { wrap_sub(size as int, header as int) } else { 0 };
                    if msize > 0 {
                        seek_by(body as int, as_signed(msize))
                    } else {
                        Some(body as int)
                    }
                } else if is_moov(d, pos + 4) {
                    let sz = wrap_sub(size as int, header as int);
                    if body + sz > d.len() {
                        None
                    } else {
                        Some(body + sz)
                    }
                } else if size < header {
                    None
                } else {
                    seek_by(body as int, as_signed(size - header))
                }
            },
            _ => None,
        }
    }
}

/// `walk_next` on the file `d`, as a function of the position.
pub open spec fn walk_step_fn(d: Seq<u8>) -> spec_fn(int) -> Option<int> {
    |p: int| walk_next(d, p)
}

proof fn lemma_walk_none_runs(d: Seq<u8>, pos: int, acc: TopLevelAtoms, fuel: nat)
    requires
        0 <= pos,
        top_level_walk(d, pos, acc, fuel) is None,
    ensures
        forall|k: nat| k <= fuel ==> (#[trigger] steps_from(walk_step_fn(d), pos, k) matches Some(q)
            && 0 <= q < d.len()),
    decreases fuel,
{
    let step = walk_step_fn(d);
    if fuel > 0 {
        let np = walk_next(d, pos)->0;
        let next = match header_at(d, pos) {
            AtomHeader::Found { size, header, body } => if is_mdat(d, pos + 4) {
                let msize = if size > 0 { wrap_sub(size as int, header as int) } else { 0 };
                TopLevelAtoms { mdat_offset: body, mdat_size: msize as u64, ..acc }
            } else if is_moov(d, pos + 4) {
                TopLevelAtoms {
                    moov: Some(Span { start: body, len: wrap_sub(size as int, header as int) as u64 }),
                    ..acc
                }
            } else {
                acc
            },
            _ => acc,
        };
        assert(walk_next(d, pos) is Some);
        assert(top_level_walk(d, np, next, (fuel - 1) as nat) is None);
        lemma_walk_none_runs(d, np, next, (fuel - 1) as nat);
        assert forall|k: nat| k <= fuel implies (#[trigger] steps_from(step, pos, k) matches Some(q) && 0 <= q
            < d.len()) by {
            if k > 0 {
                assert(steps_from(step, pos, k) == steps_from(step, np, (k - 1) as nat));
            }
        }
    }
}

proof fn lemma_walk_runs_none(d: Seq<u8>, pos: int, acc: TopLevelAtoms, fuel: nat)
    requires
        forall|k: nat| k <= fuel ==> (#[trigger] steps_from(walk_step_fn(d), pos, k) matches Some(q)
            && 0 <= q < d.len()),
    ensures
        top_level_walk(d, pos, acc, fuel) is None,
    decreases fuel,
{
    let step = walk_step_fn(d);
    assert(steps_from(step, pos, 0) == Some(pos));
    if fuel > 0 {
        assert(steps_from(step, pos, 1) matches Some(_));
        let np = walk_next(d, pos)->0;
        let next = match header_at(d, pos) {
            AtomHeader::Found { size, header, body } => if is_mdat(d, pos + 4) {
                let msize = if size > 0 { wrap_sub(size as int, header as int) } else { 0 };
                TopLevelAtoms { mdat_offset: body, mdat_size: msize as u64, ..acc }
            } else if is_moov(d, pos + 4) {
                TopLevelAtoms {
                    moov: Some(Span { start: body, len: wrap_sub(size as int, header as int) as u64 }),
                    ..acc
                }
            } else {
                acc
            },
            _ => acc,
        };
        assert forall|k: nat| k <= (fuel - 1) as nat implies (#[trigger] steps_from(step, np, k) matches Some(
            q,
        ) && 0 <= q < d.len()) by {
            assert(steps_from(step, pos, k + 1) == steps_from(step, np, k));
        }
        lemma_walk_runs_none(d, np, next, (fuel - 1) as nat);
        assert(top_level_walk(d, pos, acc, fuel) == top_level_walk(d, np, next, (fuel - 1) as nat));
    }
}

proof fn lemma_walk_more_fuel(d: Seq<u8>, pos: int, acc: TopLevelAtoms, fuel: nat, more: nat)
    requires
        top_level_walk(d, pos, acc, fuel) is Some,
        fuel <= more,
    ensures
        top_level_walk(d, pos, acc, more) == top_level_walk(d, pos, acc, fuel),
    decreases fuel,
{
    if pos < d.len() && fuel > 0 {
        match header_at(d, pos) {
            AtomHeader::Found { size, header, body } => {
                if is_mdat(d, pos + 4) {
                    let msize = if size > 0 { wrap_sub(size as int, header as int) } else { 0 };
                    let next = TopLevelAtoms { mdat_offset: body, mdat_size: msize as u64, ..acc };
                    if msize > 0 {
                        match seek_by(body as int, as_signed(msize)) {
                            Some(np) => lemma_walk_more_fuel(d, np, next, (fuel - 1) as nat, (more - 1) as nat),
                            None => {},
                        }
                    } else {
                        lemma_walk_more_fuel(d, body as int, next, (fuel - 1) as nat, (more - 1) as nat);
                    }
                } else if is_moov(d, pos + 4) {
                    let sz = wrap_sub(size as int, header as int);
                    if body + sz <= d.len() {
                        let next = TopLevelAtoms { moov: Some(Span { start: body, len: sz as u64 }), ..acc };
                        lemma_walk_more_fuel(d, body + sz, next, (fuel - 1) as nat, (more - 1) as nat);
                    }
                } else if size >= header {
                    match seek_by(body as int, as_signed(size - header)) {
                        Some(np) => lemma_walk_more_fuel(d, np, acc, (fuel - 1) as nat, (more - 1) as nat),
                        None => {},
                    }
                }
            },
            _ => {},
        }
    }
}

/// The top-level walk is decided within `d.len() + 1` iterations: with any
/// more it gives the same outcome.  So when `scan_top_level` reports
/// `Mp4Error::Unending`, the walk really would never end.
pub proof fn lemma_walk_fuel_enough(d: Seq<u8>, fuel: nat)
    requires
        fuel >= d.len() + 1,
    ensures
        top_level_walk(d, 0, TopLevelAtoms { mdat_offset: 0, mdat_size: 0, moov: None }, fuel)
            == top_level_walk(d, 0, TopLevelAtoms { mdat_offset: 0, mdat_size: 0, moov: None }, (d.len() + 1) as nat),
{
    let init = TopLevelAtoms { mdat_offset: 0, mdat_size: 0, moov: None };
    let n = (d.len() + 1) as nat;
    if top_level_walk(d, 0, init, n) is Some {
        lemma_walk_more_fuel(d, 0, init, n, fuel);
    } else {
        let step = walk_step_fn(d);
        lemma_walk_none_runs(d, 0, init, n);
        assert forall|m: nat| m <= d.len() implies (#[trigger] steps_from(step, 0, m) matches Some(q) && 0 <= q
            < d.len()) by {
            assert(steps_from(step, 0, m) matches Some(q) && 0 <= q < d.len());
        }
        lemma_steps_forever(step, 0, d.len());
        lemma_walk_runs_none(d, 0, init, fuel);
    }
}

/// Where the walk that looks for the movie duration goes from `pos`: the
/// next cursor position, or `None` when it stops there.
pub open spec fn duration_next(d: Seq<u8>, pos: int) -> Option<int> {
    if pos >= d.len() {
        None
    } else {
        match header_at(d, pos) {
            AtomHeader::Found { size, header, body } => {
                if is_moov(d, pos + 4) || size < header {
                    None
                } else {
                    seek_by(body as int, as_signed(size - header))
                }
            },
            _ => None,
        }
    }
}

/// `duration_next` on the file `d`, as a function of the position.
pub open spec fn duration_step_fn(d: Seq<u8>) -> spec_fn(int) -> Option<int> {
    |p: int| duration_next(d, p)
}

proof fn lemma_duration_none_runs(d: Seq<u8>, pos: int, fuel: nat)
    requires
        0 <= pos,
        duration_walk(d, pos, fuel) is None,
    ensures
        forall|k: nat| k <= fuel ==> (#[trigger] steps_from(duration_step_fn(d), pos, k) matches Some(q) && 0
            <= q < d.len()),
    decreases fuel,
{
    let step = duration_step_fn(d);
    if fuel > 0 {
        let np = duration_next(d, pos)->0;
        assert(duration_next(d, pos) is Some);
        lemma_duration_none_runs(d, np, (fuel - 1) as nat);
        assert forall|k: nat| k <= fuel implies (#[trigger] steps_from(step, pos, k) matches Some(q) && 0 <= q
            < d.len()) by {
            if k > 0 {
                assert(steps_from(step, pos, k) == steps_from(step, np, (k - 1) as nat));
            }
        }
    }
}

proof fn lemma_duration_runs_none(d: Seq<u8>, pos: int, fuel: nat)
    requires
        forall|k: nat| k <= fuel ==> (#[trigger] steps_from(duration_step_fn(d), pos, k) matches Some(q) && 0
            <= q < d.len()),
    ensures
        duration_walk(d, pos, fuel) is None,
    decreases fuel,
{
    let step = duration_step_fn(d);
    assert(steps_from(step, pos, 0) == Some(pos));
    if fuel > 0 {
        assert(steps_from(step, pos, 1) matches Some(_));
        let np = duration_next(d, pos)->0;
        assert forall|k: nat| k <= (fuel - 1) as nat implies (#[trigger] steps_from(step, np, k) matches Some(
            q,
        ) && 0 <= q < d.len()) by {
            assert(steps_from(step, pos, k + 1) == steps_from(step, np, k));
        }
        lemma_duration_runs_none(d, np, (fuel - 1) as nat);
    }
}

proof fn lemma_duration_more_fuel(d: Seq<u8>, pos: int, fuel: nat, more: nat)
    requires
        duration_walk(d, pos, fuel) is Some,
        fuel <= more,
    ensures
        duration_walk(d, pos, more) == duration_walk(d, pos, fuel),
    decreases fuel,
{
    if pos < d.len() && fuel > 0 {
        match duration_next(d, pos) {
            Some(np) => lemma_duration_more_fuel(d, np, (fuel - 1) as nat, (more - 1) as nat),
            None => {},
        }
    }
}

/// The walk that looks for the movie duration is decided within
/// `d.len() + 1` iterations: with any more it gives the same outcome.  So
/// when `read_mp4_duration` reports `Mp4Error::Unending`, the walk really
/// would never end.
pub proof fn lemma_duration_fuel_enough(d: Seq<u8>, fuel: nat)
    requires
        fuel >= d.len() + 1,
    ensures
        duration_walk(d, 0, fuel) == duration_walk(d, 0, (d.len() + 1) as nat),
{
    let n = (d.len() + 1) as nat;
    if duration_walk(d, 0, n) is Some {
        lemma_duration_more_fuel(d, 0, n, fuel);
    } else {
        let step = duration_step_fn(d);
        lemma_duration_none_runs(d, 0, n);
        assert forall|m: nat| m <= d.len() implies (#[trigger] steps_from(step, 0, m) matches Some(q) && 0 <= q
            < d.len()) by {
            assert(steps_from(step, 0, m) matches Some(q) && 0 <= q < d.len());
        }
        lemma_steps_forever(step, 0, d.len());
        lemma_duration_runs_none(d, 0, fuel);
    }
}

/// The four bytes of `v`, most significant first.
pub open spec fn be_bytes4(v: u32) -> Seq<u8> {
    seq![(v >> 24u32) as u8, (v >> 16u32) as u8, (v >> 8u32) as u8, v as u8]
}

/// An atom with a 32-bit size field: the size (header included), the
/// four-byte tag, then the body.
pub open spec fn atom_bytes(tag: Seq<u8>, body: Seq<u8>) -> Seq<u8> {
    be_bytes4((body.len() + 8) as u32) + tag + body
}

/// The tag of a `moov` atom.
pub open spec fn moov_tag() -> Seq<u8> {
    seq![0x6du8, 0x6fu8, 0x6fu8, 0x76u8]
}

proof fn lemma_be_bytes4(v: u32)
    ensures
        be_bytes4(v).len() == 4,
        be_bytes4(v)[0] * 0x1000000 + be_bytes4(v)[1] * 0x10000 + be_bytes4(v)[2] * 0x100 + be_bytes4(v)[3] == v,
{
    let b0 = (v >> 24u32) as u8;
    let b1 = (v >> 16u32) as u8;
    let b2 = (v >> 8u32) as u8;
    let b3 = v as u8;
    assert(b0 * 0x1000000 + b1 * 0x10000 + b2 * 0x100 + b3 == v) by (bit_vector)
        requires
            b0 == (v >> 24u32) as u8,
            b1 == (v >> 16u32) as u8,
            b2 == (v >> 8u32) as u8,
            b3 == v as u8,
    ;
}

/// The size field, tag and body of an atom laid out at `p` in `d`.
proof fn lemma_atom_at(d: Seq<u8>, pre: Seq<u8>, tag: Seq<u8>, body: Seq<u8>, post: Seq<u8>)
    requires
        d == pre + atom_bytes(tag, body) + post,
        tag.len() == 4,
        body.len() + 8 < 0x1_0000_0000,
    ensures
        be_u32(d, pre.len() as int) == body.len() + 8,
        forall|i: int| 0 <= i < 4 ==> d[pre.len() + 4 + i] == #[trigger] tag[i],
        d.subrange(pre.len() + 8int, pre.len() + 8int + body.len()) == body,
        d.len() == pre.len() + 8 + body.len() + post.len(),
{
    let v = (body.len() + 8) as u32;
    lemma_be_bytes4(v);
    let a = atom_bytes(tag, body);
    let p = pre.len() as int;
    assert(a.len() == 8 + body.len());
    assert forall|i: int| 0 <= i < a.len() implies d[p + i] == #[trigger] a[i] by {
        assert((pre + a + post)[p + i] == (pre + a)[p + i]);
    }
    assert(d[p] == a[0] && d[p + 1] == a[1] && d[p + 2] == a[2] && d[p + 3] == a[3]);
    assert(a[0] == be_bytes4(v)[0] && a[1] == be_bytes4(v)[1] && a[2] == be_bytes4(v)[2] && a[3]
        == be_bytes4(v)[3]);
    assert forall|i: int| 0 <= i < 4 implies d[p + 4 + i] == #[trigger] tag[i] by {
        assert(d[p + (4 + i)] == a[4 + i]);
    }
    assert(d.subrange(p + 8, p + 8 + body.len()) =~= body) by {
        assert forall|i: int| 0 <= i < body.len() implies d.subrange(p + 8, p + 8 + body.len())[i] == body[i] by {
            assert(d[p + (8 + i)] == a[8 + i]);
        }
    }
}

proof fn lemma_duration_at_moov(d: Seq<u8>, pre: Seq<u8>, mb: Seq<u8>, fuel: nat)
    requires
        d == pre + atom_bytes(moov_tag(), mb) + Seq::<u8>::empty(),
        mb.len() + 8 < 0x1_0000_0000,
        pre.len() < 0x1_0000_0000,
        fuel > 0,
    ensures
        duration_walk(d, pre.len() as int, fuel) == Some(mvhd_duration(mb)),
{
    let p = pre.len() as int;
    lemma_atom_at(d, pre, moov_tag(), mb, Seq::<u8>::empty());
    assert(d[p + 4 + 0] == moov_tag()[0] && d[p + 4 + 1] == moov_tag()[1] && d[p + 4 + 2] == moov_tag()[2] && d[p
        + 4 + 3] == moov_tag()[3]);
    assert(is_moov(d, p + 4));
    assert(header_at(d, p) == AtomHeader::Found { size: (mb.len() + 8) as u64, header: 8, body: (p + 8) as u64 });
    assert(wrap_sub(mb.len() + 8int, 8) == mb.len());
}

proof fn lemma_duration_skip_first(d: Seq<u8>, tag: Seq<u8>, other: Seq<u8>, rest: Seq<u8>, fuel: nat)
    requires
        d == atom_bytes(tag, other) + rest,
        tag.len() == 4,
        tag != moov_tag(),
        other.len() + 8 < 0x1_0000_0000,
        rest.len() < 0x1_0000_0000,
        fuel > 0,
    ensures
        duration_walk(d, 0, fuel) == duration_walk(d, 8int + other.len(), (fuel - 1) as nat),
{
    let e = Seq::<u8>::empty();
    let x = atom_bytes(tag, other);
    assert(d =~= e + x + rest);
    lemma_atom_at(d, e, tag, other, rest);
    assert(!is_moov(d, 4)) by {
        if is_moov(d, 4) {
            assert(d[4int + 0] == tag[0] && d[4int + 1] == tag[1] && d[4int + 2] == tag[2] && d[4int + 3] == tag[3]);
            assert(tag =~= moov_tag());
        }
    }
    assert(header_at(d, 0) == AtomHeader::Found { size: (other.len() + 8) as u64, header: 8, body: 8 });
    assert(seek_by(8, as_signed(other.len() as int)) == Some(8int + other.len()));
}

/// Law of the duration walk: it passes over any top-level atom that is not
/// a `moov`, an `mdat` included, by its declared size, so a file made of
/// such an atom and then a `moov` atom gives what the `moov` atom alone
/// gives, the duration recorded in the `moov` body's `mvhd`.
pub proof fn lemma_duration_skips_atom(tag: Seq<u8>, other: Seq<u8>, mb: Seq<u8>)
    requires
        tag.len() == 4,
        tag != moov_tag(),
        other.len() + 8 < 0x1_0000_0000,
        mb.len() + 8 < 0x1_0000_0000,
    ensures
        mp4_duration(atom_bytes(tag, other) + atom_bytes(moov_tag(), mb)) == Ok::<Option<Mp4Duration>, Mp4Error>(
            mvhd_duration(mb),
        ),
        mp4_duration(atom_bytes(moov_tag(), mb)) == Ok::<Option<Mp4Duration>, Mp4Error>(mvhd_duration(mb)),
{
    let e = Seq::<u8>::empty();
    let mv = atom_bytes(moov_tag(), mb);
    assert(mv =~= e + mv + e);
    lemma_duration_at_moov(mv, e, mb, (mv.len() + 1) as nat);
    let x = atom_bytes(tag, other);
    let d = x + mv;
    assert(d =~= x + mv + e);
    assert(x.len() == 8 + other.len());
    lemma_duration_skip_first(d, tag, other, mv, (d.len() + 1) as nat);
    lemma_duration_at_moov(d, x, mb, d.len() as nat);
}

/// The time scale that the sample-table reader takes from `mvhd` is the
/// field that the duration reader takes, for either header version: for a
/// version 1 header the big-endian 32 bits 24 bytes after the tag (after
/// the 64-bit creation and modification times), for version 0 those 16
/// bytes after it.
pub proof fn lemma_mvhd_timescale(m: Seq<u8>)
    ensures
        mvhd_duration(m) matches Some(d) ==> moov_timescale(m) == d.timescale,
        first_tag(m, mvhd_tag()) matches Some(p) ==> (m[p + 4] == 1 ==> moov_timescale(m) == m[p + 24]
            * 0x1000000 + m[p + 25] * 0x10000 + m[p + 26] * 0x100 + m[p + 27]),
        first_tag(m, mvhd_tag()) matches Some(p) ==> (m[p + 4] == 0 ==> moov_timescale(m) == m[p + 16]
            * 0x1000000 + m[p + 17] * 0x10000 + m[p + 18] * 0x100 + m[p + 19]),
{
}

} // verus!
