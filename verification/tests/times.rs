use omawind::time::{civil_from_days, day_name, days_from_civil, from_clock, iso, moment, now, parse_iso, unix};

#[test]
fn round_trips_through_iso() {
    let t = unix(2026, 9, 14, 3, 0, 0);
    assert_eq!(t, 1_789_354_800);
    assert_eq!(iso(t), "2026-09-14T03:00:00Z");
    assert_eq!(parse_iso("2026-09-14T03:00:00Z"), Some(t));
    assert_eq!(parse_iso("2026-09-14T03:00Z"), Some(t));
    assert_eq!(day_name(t), "20260914");
    for t in [0, 951_782_400, 4_107_542_399, -86_400] {
        assert_eq!(parse_iso(&iso(t)), Some(t), "{}", iso(t));
    }
}

#[test]
fn refuses_what_isnt_a_utc_time() {
    for s in [
        "2026-09-14T03:00:00",
        "2026-09-14 03:00:00Z",
        "2026-02-29T00:00Z",
        "2026-13-01T00:00Z",
        "2026-09-14T24:00Z",
        "2026-9-14T03:00Z",
        "+026-09-14T03:00Z",
        "2026-09-14T03:00:00+00:00",
    ] {
        assert_eq!(parse_iso(s), None, "{s}");
    }
    assert!(parse_iso("2028-02-29T00:00Z").is_some());
}

#[test]
fn dates_and_days_go_both_ways() {
    assert_eq!(days_from_civil(1970, 1, 1), 0);
    assert_eq!(days_from_civil(2000, 3, 1), 11_017);
    assert_eq!(days_from_civil(1600, 2, 29), -135_081);
    for z in [-719_468, -1, 0, 59, 60, 11_016, 20_710, 2_932_896] {
        let (y, m, d) = civil_from_days(z);
        assert_eq!(days_from_civil(y, m, d), z);
    }
    assert_eq!(civil_from_days(-1), (1969, 12, 31));
    assert_eq!(civil_from_days(11_016), (2000, 2, 29));
}

#[test]
fn years_outside_four_digits_are_written_in_full() {
    assert_eq!(iso(unix(12_026, 1, 2, 3, 4, 5)), "12026-01-02T03:04:05Z");
    assert_eq!(iso(unix(-1, 1, 1, 0, 0, 0)), "-001-01-01T00:00:00Z");
    assert_eq!(parse_iso("12026-01-02T03:04:05Z"), None);
}

#[test]
fn a_moment_must_exist() {
    assert_eq!(moment(2026, 9, 14, 3, 0, 0), Some(1_789_354_800));
    assert_eq!(moment(2026, 2, 29, 0, 0, 0), None);
    assert_eq!(moment(10_000, 1, 1, 0, 0, 0), None);
    assert_eq!(moment(2026, 1, 0, 0, 0, 0), None);
    assert_eq!(moment(2026, 1, 1, 0, 60, 0), None);
    assert_eq!(moment(2026, 1, 1, 0, 0, 60), None);
}

#[test]
fn the_clock_counts_from_1970() {
    assert_eq!(from_clock(Some(1_789_354_800)), 1_789_354_800);
    assert_eq!(from_clock(None), 0);
    assert!(now() > 1_700_000_000);
}

#[test]
fn a_stamp_without_seconds_is_written_with_them() {
    assert_eq!(iso(parse_iso("2026-09-14T03:00Z").unwrap()), "2026-09-14T03:00:00Z");
    assert_eq!(iso(parse_iso("0000-02-29T23:59Z").unwrap()), "0000-02-29T23:59:00Z");
    assert_eq!(iso(parse_iso("9999-12-31T23:59:59Z").unwrap()), "9999-12-31T23:59:59Z");
}
