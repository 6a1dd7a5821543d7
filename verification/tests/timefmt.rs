use om2nc::timefmt::{
    FIRST_SECOND, LAST_SECOND, UtcTime, accept_first, iso, minutes_since, parse_init, parse_json_time, parse_utc,
    run_prefix, step_key, timestamp_text,
};

#[test]
fn parse_variants() {
    let want = parse_utc("2026-09-15T00:00:00Z").unwrap();
    for s in ["2026-09-15T00Z", "2026-09-15T0000Z", "2026-09-15T00:00Z", "2026-09-15T00"] {
        assert_eq!(parse_utc(s).unwrap(), want, "{s}");
    }
    assert!(parse_utc("yesterday").is_err());
}

#[test]
fn keys() {
    let init = parse_utc("2026-09-15T00Z").unwrap();
    assert_eq!(run_prefix("ecmwf_ifs025", init), "data_spatial/ecmwf_ifs025/2026/09/15/0000Z/");
    assert_eq!(
        step_key("ecmwf_ifs025", init, 27 * 60),
        "data_spatial/ecmwf_ifs025/2026/09/15/0000Z/2026-09-16T0300.om"
    );
    assert_eq!(step_key("x", init, 15), "data_spatial/x/2026/09/15/0000Z/2026-09-15T0015.om");
}

#[test]
fn times_are_seconds_since_the_epoch() {
    assert_eq!(parse_utc("1970-01-02T00Z").unwrap(), UtcTime { secs: 86400, nanos: 0 });
    assert_eq!(parse_utc(" 2026-09-15 06:30:15Z ").unwrap(), UtcTime { secs: 1789453815, nanos: 0 });
    assert_eq!(parse_utc("2026-09-15T06:30:15ZZ").unwrap(), UtcTime { secs: 1789453815, nanos: 0 });
    assert_eq!(iso(UtcTime { secs: 1789453815, nanos: 0 }), "2026-09-15T06:30:15Z");
}

#[test]
fn range_of_times_is_that_of_the_calendar() {
    let first = chrono::DateTime::<chrono::Utc>::MIN_UTC;
    let last = chrono::DateTime::<chrono::Utc>::MAX_UTC;
    assert_eq!(first.timestamp(), FIRST_SECOND);
    assert_eq!(last.timestamp(), LAST_SECOND);
    assert!(UtcTime::from_timestamp(FIRST_SECOND).is_some());
    assert!(UtcTime::from_timestamp(FIRST_SECOND - 1).is_none());
    assert!(UtcTime::from_timestamp(LAST_SECOND).is_some());
    assert!(UtcTime::from_timestamp(LAST_SECOND + 1).is_none());
}

#[test]
fn times_move_by_minutes() {
    let t = UtcTime::from_timestamp(59).unwrap();
    assert_eq!(t.plus_minutes(2), Some(UtcTime { secs: 179, nanos: 0 }));
    assert_eq!(t.plus_minutes(-1), Some(UtcTime { secs: -1, nanos: 0 }));
    assert_eq!(t.plus_minutes(i64::MAX), None);
    assert_eq!(t.plus_minutes(i64::MIN), None);
    let last = UtcTime::from_timestamp(LAST_SECOND).unwrap();
    assert_eq!(last.plus_minutes(1), None);
    assert_eq!(last.plus_minutes(-1), Some(UtcTime { secs: LAST_SECOND - 60, nanos: 0 }));
}

#[test]
fn leap_seconds() {
    let leap = parse_utc("2016-12-31T23:59:60Z").unwrap();
    assert_eq!(leap, UtcTime { secs: 1483228799, nanos: 1_000_000_000 });
    assert_eq!(leap.plus_minutes(0), Some(leap));
    assert_eq!(leap.plus_minutes(1), Some(UtcTime { secs: 1483228859, nanos: 0 }));
    assert_eq!(leap.plus_minutes(-1), Some(UtcTime { secs: 1483228740, nanos: 0 }));
    // A step over midnight loses the leap second of the day.
    assert_eq!(minutes_since(leap, leap.plus_minutes(1).unwrap()), 0);
    let early = UtcTime { secs: 59, nanos: 1_500_000_000 };
    assert_eq!(minutes_since(early, early.plus_minutes(10).unwrap()), 10);
    assert_eq!(minutes_since(leap, leap.plus_minutes(-10).unwrap()), -10);
}

#[test]
fn minutes_are_rounded_toward_zero() {
    let at = |secs: i64, nanos: u32| UtcTime { secs, nanos };
    assert_eq!(minutes_since(at(0, 0), at(119, 999_999_999)), 1);
    assert_eq!(minutes_since(at(0, 0), at(-119, 0)), -1);
    assert_eq!(minutes_since(at(0, 1), at(60, 0)), 0);
    assert_eq!(minutes_since(at(60, 0), at(0, 1)), 0);
    assert_eq!(minutes_since(at(FIRST_SECOND, 0), at(LAST_SECOND, 999_999_999)), 275747801759);
}

#[test]
fn steps_there_and_back() {
    let init = parse_utc("2026-09-15T00Z").unwrap();
    for m in [-100000, -1, 0, 1, 15, 60, 1439, 1440, 525600] {
        assert_eq!(minutes_since(init, init.plus_minutes(m).unwrap()), m);
    }
}

#[test]
fn bad_times() {
    assert_eq!(
        parse_utc("yesterday").unwrap_err(),
        "cannot parse time \"yesterday\" (expected e.g. 2026-09-15T00Z)"
    );
    assert_eq!(
        parse_json_time("x\"y").unwrap_err(),
        "bad timestamp in JSON: \"x\\\"y\": cannot parse time \"x\\\"y\" (expected e.g. 2026-09-15T00Z)"
    );
    assert!(parse_utc("2026-13-01T00Z").is_err());
    assert!(parse_utc("").is_err());
}

#[test]
fn the_bare_hour_is_filled_in() {
    assert_eq!(timestamp_text(" 2026-09-15T00Z"), "2026-09-15T0000");
    assert_eq!(timestamp_text("2026-09-15T00:00"), "2026-09-15T00:00");
    // Thirteen bytes, not thirteen characters.
    assert_eq!(timestamp_text("2026-09-15T\u{e9}"), "2026-09-15T\u{e9}00");
    assert_eq!(timestamp_text("2026-09-15T0\u{e9}"), "2026-09-15T0\u{e9}");
}

#[test]
fn the_first_successful_attempt_counts() {
    let a = UtcTime { secs: 1, nanos: 0 };
    let b = UtcTime { secs: 2, nanos: 0 };
    assert_eq!(accept_first("x", &[None, Some(a), Some(b)]), Ok(a));
    assert!(accept_first("x", &[None, None]).is_err());
    assert!(accept_first("x", &[]).is_err());
}

#[test]
fn latest_in_any_case() {
    assert_eq!(parse_init("latest"), Ok(None));
    assert_eq!(parse_init("LaTeSt"), Ok(None));
    assert_eq!(parse_init("1970-01-01T00Z"), Ok(Some(UtcTime { secs: 0, nanos: 0 })));
    assert!(parse_init(" latest").is_err());
}

/// Minutes all over the years 0 to 9999.
fn minutes() -> Vec<i64> {
    let (first, last) = (-62167219200i64 / 60, 253402300799i64 / 60);
    let mut v: Vec<i64> = (0..400).map(|i| first + (last - first) / 399 * i).collect();
    v.extend([first, last, 0, -1, 28401120, 1440 * 59, 1440 * 60]);
    v
}

#[test]
fn every_form_is_read_as_its_time() {
    for m in minutes() {
        let t = UtcTime::from_timestamp(m * 60).unwrap();
        let c = chrono::DateTime::<chrono::Utc>::from_timestamp(m * 60, 0).unwrap();
        for f in ["%Y-%m-%dT%H%M", "%Y-%m-%dT%H:%M", "%Y-%m-%dT%H:%M:%S"] {
            let s = c.format(f).to_string();
            assert_eq!(parse_utc(&s), Ok(t), "{s}");
            assert_eq!(parse_utc(&format!("{s}Z")), Ok(t), "{s}");
        }
        if m % 60 == 0 {
            let s = c.format("%Y-%m-%dT%HZ").to_string();
            assert_eq!(parse_utc(&s), Ok(t), "{s}");
        }
    }
}

#[test]
fn shown_times_are_read_back() {
    for m in minutes() {
        let t = UtcTime::from_timestamp(m * 60 + 7).unwrap();
        assert_eq!(parse_utc(&iso(t)), Ok(t));
    }
}

#[test]
fn steps_have_their_own_keys() {
    let init = parse_utc("2024-02-28T18Z").unwrap();
    let mut keys: Vec<String> = (-3000..3000).map(|m| step_key("m", init, m)).collect();
    assert_eq!(keys[3000 + 24 * 60], "data_spatial/m/2024/02/28/1800Z/2024-02-29T1800.om");
    keys.sort();
    keys.dedup();
    assert_eq!(keys.len(), 6000);
}

#[test]
fn years_of_other_lengths() {
    let t = parse_utc("+12345-01-01T00:00Z").unwrap();
    assert_eq!(iso(t), "+12345-01-01T00:00:00Z");
    assert_eq!(iso(parse_utc("-0001-12-31T00:00Z").unwrap()), "-0001-12-31T00:00:00Z");
    assert_eq!(iso(parse_utc("0000-01-01T00Z").unwrap()), "0000-01-01T00:00:00Z");
}
