use teslacam::scanner::{
    clip_parts_from_captures, detect_event_type, event_kind_of_top_dir, parse_clip_filename, same_chars,
    timestamp_to_iso, EventKind,
};
use teslacam::timestamp::{timestamp_diff_seconds, timestamp_to_seconds};

#[test]
fn test_parse_clip_filename() {
    let (ts, cam) = parse_clip_filename("2026-03-22_20-34-32-front.mp4").unwrap();
    assert_eq!(ts, "2026-03-22_20-34-32");
    assert_eq!(cam, "front");
}

#[test]
fn test_parse_clip_filename_left_repeater() {
    let (ts, cam) = parse_clip_filename("2026-03-22_20-34-32-left_repeater.mp4").unwrap();
    assert_eq!(ts, "2026-03-22_20-34-32");
    assert_eq!(cam, "left_repeater");
}

#[test]
fn test_parse_clip_filename_invalid() {
    assert!(parse_clip_filename("random-file.mp4").is_none());
}

#[test]
fn test_timestamp_to_iso() {
    assert_eq!(timestamp_to_iso("2026-03-22_20-34-32"), "2026-03-22T20:34:32");
}

#[test]
fn parse_clip_filename_every_camera() {
    for cam in ["front", "back", "left_repeater", "right_repeater", "left_pillar", "right_pillar"] {
        let name = format!("2025-01-02_03-04-05-{}.mp4", cam);
        let (ts, c) = parse_clip_filename(&name).unwrap();
        assert_eq!(ts, "2025-01-02_03-04-05");
        assert_eq!(c, cam);
    }
}

#[test]
fn parse_clip_filename_rejects_near_misses() {
    assert!(parse_clip_filename("2026-03-22_20-34-32-top.mp4").is_none());
    assert!(parse_clip_filename("2026-03-22_20-34-32-front.mov").is_none());
    assert!(parse_clip_filename("x2026-03-22_20-34-32-front.mp4").is_none());
    assert!(parse_clip_filename("2026-03-22_20-34-32-front.mp4.bak").is_none());
    assert!(parse_clip_filename("2026-3-22_20-34-32-front.mp4").is_none());
}

#[test]
fn captures_need_both_groups() {
    assert_eq!(clip_parts_from_captures(None), None);
    assert_eq!(clip_parts_from_captures(Some(vec![Some("a".to_string())])), None);
    assert_eq!(
        clip_parts_from_captures(Some(vec![Some("all".to_string()), Some("t".to_string()), None])),
        None
    );
    assert_eq!(
        clip_parts_from_captures(Some(vec![
            Some("all".to_string()),
            Some("t".to_string()),
            Some("c".to_string())
        ])),
        Some(("t".to_string(), "c".to_string()))
    );
}

#[test]
fn timestamp_to_iso_keeps_other_text() {
    assert_eq!(timestamp_to_iso("no-dashes_here"), "no-dashesThere");
    assert_eq!(timestamp_to_iso("a_b_c"), "aTb_c");
    assert_eq!(timestamp_to_iso("1-2-3-4"), "1-2-3:4");
    assert_eq!(timestamp_to_iso(""), "");
}

#[test]
fn event_kind_from_top_folder() {
    assert_eq!(event_kind_of_top_dir("SentryClips"), EventKind::Sentry);
    assert_eq!(event_kind_of_top_dir("SavedClips"), EventKind::Saved);
    assert_eq!(event_kind_of_top_dir("RecentClips"), EventKind::Recent);
    assert_eq!(event_kind_of_top_dir("sentryclips"), EventKind::Recent);
    assert_eq!(event_kind_of_top_dir(""), EventKind::Recent);
}

#[test]
fn event_kind_from_path() {
    assert_eq!(
        detect_event_type("/cam/SentryClips/2026-03-22_20-34-32/a.mp4", "/cam"),
        EventKind::Sentry
    );
    assert_eq!(
        detect_event_type("/cam/SavedClips/2026-03-22_20-34-32/a.mp4", "/cam"),
        EventKind::Saved
    );
    assert_eq!(detect_event_type("/cam/RecentClips/a.mp4", "/cam"), EventKind::Recent);
    assert_eq!(detect_event_type("/elsewhere/SentryClips/a.mp4", "/cam"), EventKind::Recent);
}

#[test]
fn kind_labels() {
    assert_eq!(EventKind::Sentry.as_str(), "sentry");
    assert_eq!(EventKind::Saved.as_str(), "saved");
    assert_eq!(EventKind::Recent.as_str(), "recent");
    assert!(same_chars("abc", "abc"));
    assert!(!same_chars("abc", "abd"));
    assert!(!same_chars("abc", "ab"));
}

#[test]
fn timestamp_seconds_formula() {
    // day * 86400 + hour * 3600 + minute * 60 + second
    assert_eq!(timestamp_to_seconds("2026-03-22_20-34-32"), Some(22 * 86400 + 20 * 3600 + 34 * 60 + 32));
    assert_eq!(timestamp_to_seconds("2026-03-22"), None);
    assert_eq!(timestamp_to_seconds("2026-03_20-34-32"), None);
    assert_eq!(timestamp_to_seconds("a_b_c"), None);
}

#[test]
fn timestamp_gap_values() {
    assert_eq!(timestamp_diff_seconds("2026-03-22_20-35-32", "2026-03-22_20-34-32"), 60);
    assert_eq!(timestamp_diff_seconds("2026-03-22_20-34-32", "2026-03-22_20-35-32"), 60);
    assert_eq!(timestamp_diff_seconds("2026-03-23_00-00-05", "2026-03-22_23-59-55"), 10);
    assert_eq!(timestamp_diff_seconds("bad", "2026-03-22_20-34-32"), 999);
    assert_eq!(timestamp_diff_seconds("2026-03-22_20-34-32", "bad"), 999);
}

#[test]
fn timestamp_gap_is_symmetric_on_examples() {
    let a = "2026-03-22_20-34-32";
    let b = "2026-03-21_07-00-01";
    assert_eq!(timestamp_diff_seconds(a, b), timestamp_diff_seconds(b, a));
    assert_eq!(timestamp_diff_seconds(a, a), 0);
}
