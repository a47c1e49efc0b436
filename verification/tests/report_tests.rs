use teslacam::report::{
    after_last_chars, before_nth_chars, event_type_color, event_type_label, export_inputs, remove_all_chars,
    export_layout, segment_start_label,
    sentry_trigger_label,
};

fn chars(s: &str) -> Vec<char> {
    s.chars().collect()
}

fn text(v: Vec<char>) -> String {
    v.into_iter().collect()
}

#[test]
fn segment_labels_from_file_names() {
    assert_eq!(
        segment_start_label("/cam/SentryClips/2026-03-22_20-40-00/2026-03-22_20-34-32-front.mp4"),
        "2026-03-22 20:34:32"
    );
    assert_eq!(segment_start_label("/tc/RecentClips/2026-03-22_20-34-32-left_repeater.mp4"), "2026-03-22 20:34:32");
    // Other names: the part before the fifth '-', without ".mp4", the time after '_' with ':'.
    assert_eq!(segment_start_label("a-b-c_d-e-f-g-h.mp4"), "a-b-c d:e:f");
    assert_eq!(segment_start_label("dir/"), "");
    assert_eq!(segment_start_label("clip.mp4.mp4"), "clip");
}

#[test]
fn trigger_labels_from_folder_names() {
    assert_eq!(
        sentry_trigger_label("/cam/SentryClips/2026-03-22_20-34-32"),
        "2026-03-22 20:34:32"
    );
    assert_eq!(sentry_trigger_label("plain"), "plain");
    assert_eq!(sentry_trigger_label("a-b_c-d_e"), "a-b c:d_e");
}

#[test]
fn type_labels_and_colours() {
    assert_eq!(event_type_label("sentry"), "哨兵模式");
    assert_eq!(event_type_label("saved"), "手動保存");
    assert_eq!(event_type_label("recent"), "行車紀錄");
    assert_eq!(event_type_color("sentry"), "#e94560");
    assert_eq!(event_type_color("saved"), "#4ecdc4");
    assert_eq!(event_type_color("other"), "#888");
}

#[test]
fn text_pieces() {
    assert_eq!(text(after_last_chars(&chars("a/b/c"), '/')), "c");
    assert_eq!(text(after_last_chars(&chars("abc"), '/')), "abc");
    assert_eq!(text(before_nth_chars(&chars("1-2-3"), '-', 2)), "1-2");
    assert_eq!(text(before_nth_chars(&chars("1-2-3"), '-', 9)), "1-2-3");
    assert_eq!(text(before_nth_chars(&chars("-x"), '-', 1)), "");
    assert_eq!(text(remove_all_chars(&chars("aXYbXYXc"), &chars("XY"))), "abXc");
    assert_eq!(text(remove_all_chars(&chars("abc"), &chars(""))), "abc");
}

fn pairs(v: &[(&str, &str)]) -> Vec<(String, String)> {
    v.iter().map(|(a, b)| (a.to_string(), b.to_string())).collect()
}

#[test]
fn export_cameras_in_layout_order() {
    let files = pairs(&[
        ("back", "/b.mp4"),
        ("front", "/f.mp4"),
        ("left_repeater", "/lr.mp4"),
        ("right_repeater", "/rr.mp4"),
        ("top", "/t.mp4"),
    ]);
    assert_eq!(
        export_inputs(&files),
        Some(pairs(&[
            ("front", "/f.mp4"),
            ("left_repeater", "/lr.mp4"),
            ("back", "/b.mp4"),
            ("right_repeater", "/rr.mp4"),
        ]))
    );
}

#[test]
fn export_needs_four_cameras() {
    let files = pairs(&[("back", "/b.mp4"), ("front", "/f.mp4"), ("left_pillar", "/lp.mp4")]);
    assert_eq!(export_inputs(&files), None);
}

#[test]
fn export_takes_the_last_path_of_a_camera() {
    let files = pairs(&[
        ("front", "/old.mp4"),
        ("back", "/b.mp4"),
        ("left_pillar", "/lp.mp4"),
        ("right_pillar", "/rp.mp4"),
        ("front", "/new.mp4"),
    ]);
    let v = export_inputs(&files).unwrap();
    assert_eq!(v[1], ("front".to_string(), "/new.mp4".to_string()));
    assert_eq!(v.len(), 4);
}

#[test]
fn export_grid_of_six_and_of_four() {
    let six = pairs(&[
        ("left_pillar", "/1"),
        ("front", "/2"),
        ("right_pillar", "/3"),
        ("left_repeater", "/4"),
        ("back", "/5"),
        ("right_repeater", "/6"),
    ]);
    let l = export_layout(&six);
    assert_eq!(l.columns, 3);
    assert_eq!(l.mirrored, vec![false, false, false, false, true, false]);
    assert_eq!(
        l.stack,
        vec![
            "[v0][v1][v2]hstack=inputs=3[top]".to_string(),
            "[v3][v4][v5]hstack=inputs=3[bottom]".to_string(),
            "[top][bottom]vstack=inputs=2[out]".to_string()
        ]
    );
    let four = pairs(&[("front", "/2"), ("left_repeater", "/4"), ("back", "/5"), ("right_repeater", "/6")]);
    let l = export_layout(&four);
    assert_eq!(l.columns, 2);
    assert_eq!(l.mirrored, vec![false, false, true, false]);
    assert_eq!(l.stack[0], "[v0][v1]hstack=inputs=2[top]");
    assert_eq!(l.stack[1], "[v2][v3]hstack=inputs=2[bottom]");
}
