use teslacam::period::period_bounds;

fn some(s: &str) -> Option<String> {
    Some(s.to_string())
}

#[test]
fn week_from_monday() {
    // Thursday 2026-03-26: Monday is 2026-03-23.
    assert_eq!(
        period_bounds("week", 2026, 3, 26, 3),
        Some(("2026-03-23".to_string(), some("2026-03-16"), some("2026-03-22")))
    );
    // Across a month and a year.
    assert_eq!(
        period_bounds("week", 2026, 1, 2, 4),
        Some(("2025-12-29".to_string(), some("2025-12-22"), some("2025-12-28")))
    );
}

#[test]
fn week_of_a_date_that_does_not_exist() {
    assert_eq!(period_bounds("week", 2026, 2, 30, 0), None);
}

#[test]
fn month_and_the_month_before() {
    assert_eq!(
        period_bounds("month", 2026, 3, 26, 3),
        Some(("2026-03-01".to_string(), some("2026-02-01"), some("2026-02-28")))
    );
    assert_eq!(
        period_bounds("month", 2024, 3, 5, 1),
        Some(("2024-03-01".to_string(), some("2024-02-01"), some("2024-02-29")))
    );
    assert_eq!(
        period_bounds("month", 2026, 1, 15, 3),
        Some(("2026-01-01".to_string(), some("2025-12-01"), some("2025-12-31")))
    );
    assert_eq!(
        period_bounds("month", 2026, 11, 15, 6),
        Some(("2026-11-01".to_string(), some("2026-10-01"), some("2026-10-31")))
    );
}

#[test]
fn years_outside_four_digits() {
    let (from, prev, _) = period_bounds("month", 12345, 2, 1, 0).unwrap();
    assert_eq!(from, "+12345-02-01");
    assert_eq!(prev, some("12345-01-01"));
    let (from, prev, _) = period_bounds("month", 987, 1, 1, 0).unwrap();
    assert_eq!(from, "0987-01-01");
    assert_eq!(prev, some("986-12-01"));
    let (from, _, _) = period_bounds("month", -5, 6, 1, 0).unwrap();
    assert_eq!(from, "-0005-06-01");
}

#[test]
fn all_time() {
    assert_eq!(period_bounds("all", 2026, 3, 26, 3), Some(("1970-01-01".to_string(), None, None)));
    assert_eq!(period_bounds("", 2026, 3, 26, 3), Some(("1970-01-01".to_string(), None, None)));
}

#[test]
fn before_the_first_date() {
    // January of chrono's first year: there is no day before the 1st.
    let (from, prev_from, prev_to) = period_bounds("month", -262143, 1, 5, 0).unwrap();
    assert_eq!(from, "-262143-01-01");
    assert_eq!(prev_from, some("-262144-12-01"));
    assert_eq!(prev_to, some(""));
    // The week before would start before the first date.
    assert_eq!(period_bounds("week", -262143, 1, 3, 0), None);
    // A year chrono does not hold.
    assert_eq!(period_bounds("week", 300000, 1, 10, 0), None);
}

#[test]
fn leap_days() {
    assert_eq!(
        period_bounds("week", 2000, 3, 2, 3),
        Some(("2000-02-28".to_string(), some("2000-02-21"), some("2000-02-27")))
    );
    assert_eq!(period_bounds("month", 1900, 3, 2, 0).unwrap().2, some("1900-02-28"));
    assert_eq!(period_bounds("month", 2000, 3, 2, 0).unwrap().2, some("2000-02-29"));
}
