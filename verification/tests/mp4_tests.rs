use teslacam::bytes::{find_atom, read_u32_be, read_u64_be};
use teslacam::mp4::{
    build_sample_times, mp4_tables_fit, parse_mp4_info, read_mp4_duration, scan_top_level, Mp4Duration,
    Mp4Error, SttsEntry,
};

fn atom(kind: &[u8; 4], body: &[u8]) -> Vec<u8> {
    let mut v = ((body.len() + 8) as u32).to_be_bytes().to_vec();
    v.extend_from_slice(kind);
    v.extend_from_slice(body);
    v
}

fn mvhd_v0(timescale: u32, duration: u32) -> Vec<u8> {
    let mut b = vec![0u8; 4 + 8];
    b.extend_from_slice(&timescale.to_be_bytes());
    b.extend_from_slice(&duration.to_be_bytes());
    b.extend_from_slice(&[0u8; 80]);
    atom(b"mvhd", &b)
}

fn mvhd_v1(timescale: u32, duration: u64) -> Vec<u8> {
    let mut b = vec![1u8, 0, 0, 0];
    b.extend_from_slice(&[0u8; 16]);
    b.extend_from_slice(&timescale.to_be_bytes());
    b.extend_from_slice(&duration.to_be_bytes());
    b.extend_from_slice(&[0u8; 80]);
    atom(b"mvhd", &b)
}

fn stsz(sizes: &[u32]) -> Vec<u8> {
    let mut b = vec![0u8; 8];
    b.extend_from_slice(&(sizes.len() as u32).to_be_bytes());
    for s in sizes {
        b.extend_from_slice(&s.to_be_bytes());
    }
    atom(b"stsz", &b)
}

fn stts(runs: &[(u32, u32)]) -> Vec<u8> {
    let mut b = vec![0u8; 4];
    b.extend_from_slice(&(runs.len() as u32).to_be_bytes());
    for (c, d) in runs {
        b.extend_from_slice(&c.to_be_bytes());
        b.extend_from_slice(&d.to_be_bytes());
    }
    atom(b"stts", &b)
}

fn sample_file() -> Vec<u8> {
    let mut f = atom(b"ftyp", b"isom\0\0\0\0");
    f.extend(atom(b"mdat", &[1, 2, 3, 4, 5, 6, 7, 8]));
    let mut moov_body = mvhd_v0(30000, 1_800_000);
    moov_body.extend(stsz(&[100, 200, 300]));
    moov_body.extend(stts(&[(2, 1001), (1, 2002)]));
    f.extend(atom(b"moov", &moov_body));
    f
}

#[test]
fn reads_big_endian_words() {
    let d = [0x12, 0x34, 0x56, 0x78, 0x9a, 0xbc, 0xde, 0xf0, 0x11];
    assert_eq!(read_u32_be(&d, 0), 0x1234_5678);
    assert_eq!(read_u32_be(&d, 5), 0xbcde_f011);
    assert_eq!(read_u64_be(&d, 0), 0x1234_5678_9abc_def0);
}

#[test]
fn finds_first_atom_tag() {
    let d = b"xxmoovyymoov";
    assert_eq!(find_atom(d, b"moov"), Some(2));
    assert_eq!(find_atom(d, b"mdat"), None);
    assert_eq!(find_atom(b"moo", b"moov"), None);
    assert_eq!(find_atom(b"", b"moov"), None);
}

#[test]
fn walks_top_level_atoms() {
    let f = sample_file();
    let t = scan_top_level(&f).unwrap();
    // ftyp is 16 bytes, mdat header 8 bytes: the mdat body starts at 24.
    assert_eq!(t.mdat_offset, 24);
    assert_eq!(t.mdat_size, 8);
    let moov = t.moov.unwrap();
    assert_eq!(moov.start, 40);
    assert_eq!(moov.start + moov.len, f.len() as u64);
}

#[test]
fn reads_sample_tables() {
    let f = sample_file();
    assert!(mp4_tables_fit(&f));
    let info = parse_mp4_info(&f).unwrap();
    assert_eq!(info.timescale, 30000);
    assert_eq!(info.sample_sizes, vec![100, 200, 300]);
    assert_eq!(
        info.stts_entries,
        vec![
            SttsEntry { sample_count: 2, sample_delta: 1001 },
            SttsEntry { sample_count: 1, sample_delta: 2002 }
        ]
    );
    assert_eq!(info.mdat_offset, 24);
    assert_eq!(info.mdat_size, 8);
}

#[test]
fn missing_tables_take_defaults() {
    let mut f = atom(b"mdat", &[0; 4]);
    f.extend(atom(b"moov", &[0u8; 8]));
    let info = parse_mp4_info(&f).unwrap();
    assert_eq!(info.timescale, 10000);
    assert!(info.sample_sizes.is_empty());
    assert!(info.stts_entries.is_empty());
}

#[test]
fn no_moov_is_an_error() {
    let f = atom(b"mdat", &[0; 16]);
    assert_eq!(parse_mp4_info(&f).err(), Some(Mp4Error::NoMoov));
    assert_eq!(parse_mp4_info(&[]).err(), Some(Mp4Error::NoMoov));
}

#[test]
fn cut_off_moov_is_an_error() {
    let mut f = atom(b"moov", &[0u8; 16]);
    f.truncate(12);
    assert_eq!(scan_top_level(&f), Err(Mp4Error::UnexpectedEof));
    let mut g = vec![0, 0, 0, 1];
    g.extend_from_slice(b"free");
    g.extend_from_slice(&[0, 0]);
    assert_eq!(scan_top_level(&g), Err(Mp4Error::UnexpectedEof));
}

#[test]
fn backward_seek_before_start_is_an_error() {
    // An extended-size atom whose size minus 16 reads as -17: the seek
    // would go before the start of the file.
    let mut f = vec![0, 0, 0, 1];
    f.extend_from_slice(b"free");
    f.extend_from_slice(&u64::MAX.to_be_bytes());
    assert_eq!(scan_top_level(&f), Err(Mp4Error::InvalidSeek));
}

fn looping_file() -> Vec<u8> {
    // A 16-byte "free" atom, then an extended-size "mdat" whose declared
    // size sends the cursor back to the start of the file.
    let mut f = atom(b"free", &[0u8; 8]);
    f.extend_from_slice(&[0, 0, 0, 1]);
    f.extend_from_slice(b"mdat");
    f.extend_from_slice(&(u64::MAX - 15).to_be_bytes());
    f
}

#[test]
fn walk_that_comes_back_never_ends() {
    assert_eq!(scan_top_level(&looping_file()), Err(Mp4Error::Unending));
}

#[test]
fn sample_start_times() {
    let runs = vec![
        SttsEntry { sample_count: 2, sample_delta: 1001 },
        SttsEntry { sample_count: 1, sample_delta: 2002 },
    ];
    assert_eq!(build_sample_times(&runs, 3), vec![0, 1001, 2002]);
    // More samples than the runs cover: the last run's duration continues.
    assert_eq!(build_sample_times(&runs, 5), vec![0, 1001, 2002, 4004, 6006]);
    // No runs: one tick per sample.
    assert_eq!(build_sample_times(&vec![], 3), vec![0, 1, 2]);
    // The runs describe more samples than asked for: all of them are timed.
    assert_eq!(build_sample_times(&runs, 1), vec![0, 1001, 2002]);
}

#[test]
fn movie_duration_versions() {
    let mut f = atom(b"moov", &mvhd_v0(600, 36000));
    assert_eq!(read_mp4_duration(&f), Ok(Some(Mp4Duration { duration: 36000, timescale: 600 })));
    f = atom(b"free", &[0; 4]);
    f.extend(atom(b"moov", &mvhd_v1(1000, 1u64 << 40)));
    assert_eq!(read_mp4_duration(&f), Ok(Some(Mp4Duration { duration: 1u64 << 40, timescale: 1000 })));
}

#[test]
fn movie_duration_absent() {
    // Zero time scale.
    assert_eq!(read_mp4_duration(&atom(b"moov", &mvhd_v0(0, 10))), Ok(None));
    // No moov at all.
    assert_eq!(read_mp4_duration(&atom(b"free", &[0; 40])), Ok(None));
    // mvhd too close to the end of the moov.
    let short = atom(b"moov", &atom(b"mvhd", &[0u8; 12]));
    assert_eq!(read_mp4_duration(&short), Ok(None));
    // The walk to the moov never ends.
    assert_eq!(read_mp4_duration(&looping_file()), Err(Mp4Error::Unending));
}
