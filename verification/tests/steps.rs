use om2nc::steps::{hours_to_minutes, hours_strings, minutes_to_hours_string, parse_steps};

#[test]
fn range_with_stride() {
    assert_eq!(parse_steps("0..12:3").unwrap(), vec![0, 180, 360, 540, 720]);
}

#[test]
fn range_default_stride_and_list() {
    assert_eq!(parse_steps("0..2").unwrap(), vec![0, 60, 120]);
    assert_eq!(parse_steps("6,0,3,3").unwrap(), vec![0, 180, 360]);
    assert_eq!(parse_steps("0..1:0.25").unwrap(), vec![0, 15, 30, 45, 60]);
    assert_eq!(parse_steps("0..3:1, 12").unwrap(), vec![0, 60, 120, 180, 720]);
}

#[test]
fn errors() {
    assert!(parse_steps("").is_err());
    assert!(parse_steps("5..1").is_err());
    assert!(parse_steps("0..5:0").is_err());
    assert!(parse_steps("-3").is_err());
    assert!(parse_steps("a..b").is_err());
}

#[test]
fn hours_string() {
    assert_eq!(minutes_to_hours_string(180), "3");
    assert_eq!(minutes_to_hours_string(15), "0.25");
}

#[test]
fn readme_step_specs() {
    assert_eq!(parse_steps("0..144:3").unwrap().len(), 49);
    assert_eq!(parse_steps("0..48").unwrap().len(), 49);
    assert_eq!(parse_steps("0,6,12,24").unwrap(), vec![0, 360, 720, 1440]);
    assert_eq!(parse_steps("0..6:0.25").unwrap().len(), 25);
    assert_eq!(
        parse_steps("3..24:3,48,72").unwrap(),
        vec![180, 360, 540, 720, 900, 1080, 1260, 1440, 2880, 4320]
    );
}

#[test]
fn each_step_error_has_its_reason() {
    let reason = |s: &str| parse_steps(s).unwrap_err().reason;
    assert_eq!(reason(""), "empty element");
    assert_eq!(reason("1,,2"), "empty element");
    assert_eq!(reason("0..5:x"), "bad stride");
    assert_eq!(reason("x..5"), "bad range start");
    assert_eq!(reason("0..x"), "bad range end");
    assert_eq!(reason("0..5:0"), "stride must be > 0");
    assert_eq!(reason("5..1"), "range end before start");
    assert_eq!(reason("abc"), "bad value");
    // The stride is looked at before the ends, and the first bad element counts.
    assert_eq!(reason("x..y:z"), "bad stride");
    assert_eq!(reason("1,x,,2"), "bad value");
    let e = parse_steps("5..1").unwrap_err();
    assert_eq!(e.message(), "invalid step spec \"5..1\": range end before start");
}

#[test]
fn a_quote_in_the_spec_is_escaped_in_the_message() {
    let e = parse_steps("\"").unwrap_err();
    assert_eq!(e.message(), "invalid step spec \"\\\"\": bad value");
}

#[test]
fn range_stops_at_or_before_its_end() {
    assert_eq!(parse_steps("0..1:0.4").unwrap(), vec![0, 24, 48]);
    assert_eq!(parse_steps("2..2").unwrap(), vec![120]);
    assert_eq!(parse_steps(" 1 .. 3 : 2 ").unwrap(), vec![60, 180]);
}

/// The minutes of a number of hours by way of the machine's doubles.
fn by_doubles(s: &str) -> Option<i64> {
    let h: f64 = s.trim().parse().ok()?;
    if !h.is_finite() || h < 0.0 {
        return None;
    }
    Some((h * 60.0).round() as i64)
}

#[test]
fn hours_agree_with_double_arithmetic() {
    let mut cases: Vec<String> = Vec::new();
    for s in [
        "0", "-0", "+1", "1.", ".5", ".", "+", "-", "e5", "1e", "1e+", "1e-3", "1E2", "1e400", "1e-400", "-1e-400",
        "-1e-5", "inf", "nan", "infinity", "0x10", "1_0", " 7 ", "\u{a0}7", "0.1", "0.2", "0.3", "1e17", "1e18", "1.5e17",
        "153722867280912930", "153722867280912931", "9007199254740993", "0.008333333333333333", "0.00833333333333333",
        "0.0083333333333333331", "0.008333333333333334", "2.4e-320", "5e-324", "2e-324", "1.7976931348623157e308",
        "1.7976931348623159e308", "179769313486231580793e289", "0e999999999999999999999", "1e-99999999999999999999",
        "00012.50", "1.0000000000000002", "4503599627370496.5", "4503599627370497.5", "75059993789508.27",
    ] {
        cases.push(s.to_string());
    }
    for i in 0..4000u32 {
        cases.push(format!("{}.{:02}", i / 7, (i * 37) % 100));
        cases.push(format!("{}", i as f64 / 60.0));
        cases.push(format!("{:e}", (i as f64 + 0.5) / 60.0));
        cases.push(format!("{}e{}", i, (i % 40) as i32 - 20));
    }
    for c in &cases {
        assert_eq!(hours_to_minutes(c), by_doubles(c), "{c}");
    }
}

/// Minutes in hours by way of the machine's doubles.
fn shown_by_doubles(m: i64) -> String {
    if m % 60 == 0 { format!("{}", m / 60) } else { format!("{}", m as f64 / 60.0) }
}

#[test]
fn hours_strings_agree_with_double_arithmetic() {
    let mut cases: Vec<i64> = (-3000..12000).collect();
    for k in 0..62 {
        for d in -3..=3 {
            cases.push((1i64 << k) + d);
            cases.push(-(1i64 << k) + d);
            cases.push(((1i64 << k) + d) / 7);
        }
    }
    let mut x: i64 = 88172645463325252;
    for _ in 0..5000 {
        x ^= x << 13;
        x ^= (x as u64 >> 7) as i64;
        x ^= x << 17;
        cases.push(x);
        cases.push(x >> 20);
        cases.push(x >> 40);
    }
    cases.push(i64::MAX);
    cases.push(i64::MIN);
    cases.push(i64::MIN + 1);
    for m in cases {
        assert_eq!(minutes_to_hours_string(m), shown_by_doubles(m), "{m}");
    }
}

#[test]
fn hours_come_back_as_the_same_minutes() {
    for m in (0..4000).chain([275_747_801_761, 275_747_801_760, 137_438_953_471]) {
        assert_eq!(hours_to_minutes(&minutes_to_hours_string(m)), Some(m), "{m}");
    }
}

#[test]
fn listed_steps_are_not_negative_and_sorted() {
    let v = parse_steps("5..7:0.5, 0.1, 6, 1e1").unwrap();
    assert_eq!(v, vec![6, 300, 330, 360, 390, 420, 600]);
    assert_eq!(hours_strings(&v), vec!["0.1", "5", "5.5", "6", "6.5", "7", "10"]);
}

#[test]
fn listed_hours_can_be_asked_for() {
    for v in [vec![0], vec![0, 15, 60, 61, 62, 4321], (0..500).map(|i| i * 7).collect()] {
        assert_eq!(parse_steps(&hours_strings(&v).join(",")), Ok(v));
    }
}
