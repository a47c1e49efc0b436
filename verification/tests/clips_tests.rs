use teslacam::clips::{collect_clips, ClipFile, ClipGroup, Segment, WalkedFile};
use teslacam::scanner::EventKind;
use teslacam::sessions::{build_events, scan_clips, split_sessions, summarize_scan, ScanEvent};

fn file(path: &str, kind: EventKind, size: u64) -> WalkedFile {
    let name = path.rsplit('/').next().map(|s| s.to_string());
    let parent = match path.rfind('/') {
        Some(i) => path[..i].to_string(),
        None => String::new(),
    };
    WalkedFile { path: path.to_string(), file_name: name, is_file: true, size, kind, parent_dir: parent }
}

fn seg(ts: &str) -> Segment {
    Segment {
        timestamp: ts.to_string(),
        clips: vec![ClipFile { camera: "front".to_string(), path: format!("/{}-front.mp4", ts), size: 1 }],
    }
}

fn timestamps(s: &[Segment]) -> Vec<String> {
    s.iter().map(|x| x.timestamp.clone()).collect()
}

#[test]
fn clips_grouped_by_folder_and_timestamp() {
    let files = vec![
        file("/cam/RecentClips/2026-03-22_20-35-32-front.mp4", EventKind::Recent, 10),
        file("/cam/RecentClips/2026-03-22_20-34-32-front.mp4", EventKind::Recent, 20),
        file("/cam/RecentClips/2026-03-22_20-34-32-back.mp4", EventKind::Recent, 30),
        file("/cam/SentryClips/2026-03-21_10-00-00/2026-03-21_09-59-00-front.mp4", EventKind::Sentry, 40),
    ];
    let c = collect_clips(&files);
    assert_eq!(c.total_clips, 4);
    assert_eq!(c.total_size, 100);
    assert!(c.errors.is_empty());
    assert_eq!(c.groups.len(), 2);
    let recent = &c.groups[0];
    assert_eq!(recent.key, "recent::all");
    // Segments in timestamp order; clips of one timestamp in walk order.
    assert_eq!(timestamps(&recent.segments), vec!["2026-03-22_20-34-32", "2026-03-22_20-35-32"]);
    let cams: Vec<&str> = recent.segments[0].clips.iter().map(|c| c.camera.as_str()).collect();
    assert_eq!(cams, vec!["front", "back"]);
    assert_eq!(recent.segments[0].clips[1].size, 30);
    let sentry = &c.groups[1];
    assert_eq!(sentry.key, "/cam/SentryClips/2026-03-21_10-00-00");
    assert_eq!(sentry.segments.len(), 1);
    let held: usize = c.groups.iter().flat_map(|g| g.segments.iter()).map(|s| s.clips.len()).sum();
    assert_eq!(held, c.total_clips);
}

#[test]
fn files_that_are_not_clips() {
    let mut dir = file("/cam/RecentClips/2026-03-22_20-35-32-front.mp4", EventKind::Recent, 5);
    dir.is_file = false;
    let mut nameless = file("/cam/RecentClips/2026-03-22_20-35-32-back.mp4", EventKind::Recent, 5);
    nameless.file_name = None;
    let files = vec![
        file("/cam/EncryptedClips/2026-03-22_20-34-32-front.mp4", EventKind::Recent, 5),
        file("/cam/RecentClips/notes.txt", EventKind::Recent, 5),
        file("/cam/RecentClips/random-file.mp4", EventKind::Recent, 5),
        dir,
        nameless,
    ];
    let c = collect_clips(&files);
    assert_eq!(c.total_clips, 0);
    assert_eq!(c.total_size, 0);
    assert!(c.groups.is_empty());
    assert_eq!(c.errors, vec!["無法解析檔名: random-file.mp4".to_string()]);
}

#[test]
fn total_size_wraps_around() {
    let files = vec![
        file("/cam/RecentClips/2026-03-22_20-35-32-front.mp4", EventKind::Recent, u64::MAX),
        file("/cam/RecentClips/2026-03-22_20-35-32-back.mp4", EventKind::Recent, 2),
    ];
    assert_eq!(collect_clips(&files).total_size, 1);
}

#[test]
fn sessions_split_at_gaps_over_65_seconds() {
    let segs = vec![
        seg("2026-03-22_20-00-00"),
        seg("2026-03-22_20-01-00"),
        seg("2026-03-22_20-02-05"),
        seg("2026-03-22_20-03-11"),
        seg("2026-03-22_20-10-00"),
    ];
    let sessions = split_sessions(segs);
    let got: Vec<Vec<String>> = sessions.iter().map(|s| timestamps(s)).collect();
    assert_eq!(
        got,
        vec![
            vec!["2026-03-22_20-00-00", "2026-03-22_20-01-00", "2026-03-22_20-02-05"],
            vec!["2026-03-22_20-03-11"],
            vec!["2026-03-22_20-10-00"],
        ]
    );
    assert!(split_sessions(vec![]).is_empty());
}

#[test]
fn unreadable_timestamps_start_new_sessions() {
    let sessions = split_sessions(vec![seg("x"), seg("y")]);
    assert_eq!(sessions.len(), 2);
}

fn group(key: &str, ts: &[&str]) -> ClipGroup {
    ClipGroup { key: key.to_string(), segments: ts.iter().map(|t| seg(t)).collect() }
}

fn keys(evs: &[ScanEvent]) -> Vec<String> {
    evs.iter().map(|e| e.key.clone()).collect()
}

#[test]
fn events_from_groups() {
    let groups = vec![
        group("/cam/SentryClips/2026-03-21_10-00-00", &["2026-03-21_09-59-00"]),
        group("recent::all", &["2026-03-22_20-00-00", "2026-03-22_20-00-50", "2026-03-22_21-00-00"]),
        group("/cam/SavedClips/2026-03-20_08-00-00", &["2026-03-20_07-59-00"]),
        group("/elsewhere/x", &["2026-03-20_07-59-00"]),
        group("/cam/SentryClips/empty", &[]),
    ];
    let evs = build_events(groups, "/cam/RecentClips");
    assert_eq!(
        keys(&evs),
        vec![
            "/cam/SentryClips/2026-03-21_10-00-00",
            "recent::2026-03-22_20-00-00",
            "recent::2026-03-22_21-00-00",
            "/cam/SavedClips/2026-03-20_08-00-00",
            "/elsewhere/x",
        ]
    );
    let kinds: Vec<EventKind> = evs.iter().map(|e| e.kind).collect();
    assert_eq!(
        kinds,
        vec![EventKind::Sentry, EventKind::Recent, EventKind::Recent, EventKind::Saved, EventKind::Recent]
    );
    assert_eq!(evs[1].source_dir, "/cam/RecentClips");
    assert_eq!(evs[1].segments.len(), 2);
    assert_eq!(evs[0].source_dir, "/cam/SentryClips/2026-03-21_10-00-00");

    let r = summarize_scan(&evs, vec!["e".to_string()], 9, 99);
    assert_eq!(r.total_events, 5);
    assert_eq!(r.sentry_count, 1);
    assert_eq!(r.saved_count, 1);
    assert_eq!(r.recent_count, 3);
    assert_eq!(r.sentry_count + r.saved_count + r.recent_count, r.total_events);
    assert_eq!(r.total_clips, 9);
    assert_eq!(r.total_size_bytes, 99);
    assert_eq!(r.errors, vec!["e".to_string()]);
}

#[test]
fn whole_scan() {
    let files = vec![
        file("/cam/RecentClips/2026-03-22_20-00-00-front.mp4", EventKind::Recent, 1),
        file("/cam/RecentClips/2026-03-22_20-01-00-front.mp4", EventKind::Recent, 1),
        file("/cam/RecentClips/2026-03-22_22-00-00-front.mp4", EventKind::Recent, 1),
        file("/cam/SentryClips/2026-03-21_10-00-00/2026-03-21_09-59-00-front.mp4", EventKind::Sentry, 1),
        file("/cam/SentryClips/2026-03-21_10-00-00/2026-03-21_09-59-00-back.mp4", EventKind::Sentry, 1),
        file("/cam/SavedClips/2026-03-20_08-00-00/bad.mp4", EventKind::Saved, 1),
    ];
    let (evs, r) = scan_clips(&files, "/cam/RecentClips");
    assert_eq!(r.total_events, 3);
    assert_eq!(r.recent_count, 2);
    assert_eq!(r.sentry_count, 1);
    assert_eq!(r.saved_count, 0);
    assert_eq!(r.total_clips, 5);
    assert_eq!(r.total_size_bytes, 5);
    assert_eq!(r.errors, vec!["無法解析檔名: bad.mp4".to_string()]);
    let sentry: Vec<&ScanEvent> = evs.iter().filter(|e| e.kind == EventKind::Sentry).collect();
    assert_eq!(sentry[0].segments[0].clips.len(), 2);
}
