use om2nc::meta::{ModelStatus, RunKind, RunMeta, absent_names, status_key, validate_request};
use om2nc::timefmt::parse_utc;

fn strings(v: &[&str]) -> Vec<String> {
    v.iter().map(|s| s.to_string()).collect()
}

fn meta() -> RunMeta {
    RunMeta {
        completed: true,
        reference_time: "2026-09-15T00:00:00Z".to_string(),
        valid_times: strings(&["2026-09-15T00:00Z", "2026-09-15T03:00Z", "2026-09-15T06:00Z"]),
        variables: strings(&["temperature_2m", "precipitation"]),
        crs_wkt: None,
        last_modified_time: None,
    }
}

#[test]
fn steps_from_valid_times() {
    assert_eq!(meta().steps_minutes().unwrap(), vec![0, 180, 360]);
}

#[test]
fn validation() {
    let m = meta();
    assert!(validate_request(&m, &[0, 180], &["temperature_2m".into()]).is_ok());
    let err = validate_request(&m, &[0, 60, 540], &["temperature_2m".into(), "cape".into()])
        .unwrap_err()
        .to_string();
    assert!(err.contains("missing steps (hours): 1,9"), "{err}");
    assert!(err.contains("missing variables: cape"), "{err}");
}

#[test]
fn the_whole_report() {
    let err = validate_request(&meta(), &[0, 60, 540], &["cape".into()]).unwrap_err();
    assert_eq!(
        err,
        "run 2026-09-15T00:00:00Z does not provide everything requested:\n  missing steps (hours): 1,9\n  available steps: 0,3,6\n  missing variables: cape\n  available variables: temperature_2m,precipitation"
    );
    let err = validate_request(&meta(), &[15], &[]).unwrap_err();
    assert_eq!(
        err,
        "run 2026-09-15T00:00:00Z does not provide everything requested:\n  missing steps (hours): 0.25\n  available steps: 0,3,6"
    );
    let err = validate_request(&meta(), &[], &["a".into(), "b".into()]).unwrap_err();
    assert_eq!(
        err,
        "run 2026-09-15T00:00:00Z does not provide everything requested:\n  missing variables: a,b\n  available variables: temperature_2m,precipitation"
    );
}

#[test]
fn long_lists_are_summarised() {
    let mut m = meta();
    m.valid_times = (0..13).map(|h| format!("2026-09-15T{h:02}:00Z")).collect();
    let err = validate_request(&m, &[1], &[]).unwrap_err();
    assert!(err.ends_with("available steps: 0,1,2,3,4,5 ... 10,11,12 (13 total)"), "{err}");
    m.valid_times.pop();
    let err = validate_request(&m, &[1], &[]).unwrap_err();
    assert!(err.ends_with("available steps: 0,1,2,3,4,5,6,7,8,9,10,11"), "{err}");
}

#[test]
fn steps_are_sorted_and_each_once() {
    let mut m = meta();
    m.valid_times = strings(&["2026-09-15T06:00Z", "2026-09-14T23:00Z", "2026-09-15T06:00:00Z"]);
    assert_eq!(m.steps_minutes().unwrap(), vec![-60, 360]);
    let all = m.steps_minutes().unwrap();
    let vars = m.variables.clone();
    assert!(validate_request(&m, &all, &vars).is_ok());
}

#[test]
fn bad_times_in_a_status_file() {
    let mut m = meta();
    m.valid_times = strings(&["2026-09-15T06:00Z", "soon", "later"]);
    assert_eq!(
        m.steps_minutes().unwrap_err(),
        "bad timestamp in JSON: \"soon\": cannot parse time \"soon\" (expected e.g. 2026-09-15T00Z)"
    );
    assert_eq!(validate_request(&m, &[], &[]).unwrap_err(), m.steps_minutes().unwrap_err());
    m.reference_time = "now".to_string();
    assert!(m.reference_time().unwrap_err().contains("\"now\""));
    assert!(m.steps_minutes().unwrap_err().contains("\"now\""));
}

#[test]
fn which_file_describes_a_run() {
    let mut next = meta();
    next.reference_time = "2026-09-15T06:00Z".to_string();
    next.completed = false;
    let s = ModelStatus::from_files("m", Some(meta()), Some(next)).unwrap();
    let at = |t: &str| parse_utc(t).unwrap();
    assert!(matches!(s.run(at("2026-09-15T00Z")), Ok(Some((_, RunKind::Latest)))));
    assert!(matches!(s.run(at("2026-09-15T06Z")), Ok(Some((m, RunKind::InProgress))) if !m.completed));
    assert!(matches!(s.run(at("2026-09-14T00Z")), Ok(None)));
    let mut bad = meta();
    bad.reference_time = "?".to_string();
    // The first file settles it, so the second one is not looked at.
    let s = ModelStatus::from_files("m", Some(meta()), Some(bad)).unwrap();
    assert!(matches!(s.run(at("2026-09-15T00Z")), Ok(Some((_, RunKind::Latest)))));
    assert!(s.run(at("2026-09-15T06Z")).is_err());
}

#[test]
fn a_model_without_status_files() {
    let e = ModelStatus::from_files("no\tmodel", None, None).unwrap_err();
    assert_eq!(
        e,
        "model \"no\\tmodel\" not found: neither latest.json nor in-progress.json exist under data_spatial/no\tmodel/ (run `om2nc models` to list available models)"
    );
    assert!(ModelStatus::from_files("m", None, Some(meta())).is_ok());
    assert_eq!(status_key("m", "latest.json"), "data_spatial/m/latest.json");
}

#[test]
fn absent_names_keep_their_order() {
    assert_eq!(
        absent_names(&strings(&["b", "d"]), &strings(&["c", "b", "a", "c"])),
        strings(&["c", "a", "c"])
    );
}
