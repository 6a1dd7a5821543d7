use om2nc::cf::Reduction;
use om2nc::fetch::{
    FetchRequest, Fold, SlabAction, VarList, all_there, check_files, check_output, check_times, combine_plan,
    divides_by_total, gather, in_no_file, info_file, resolve, select_variables, slab_action,
    source_attribute, step_keys, subsample_warning, variables_to_read,
};
use om2nc::meta::{ModelStatus, RunMeta};
use om2nc::om::VarInfo;
use om2nc::plan::SourceStep;
use om2nc::timefmt::{UtcTime, parse_utc};

fn strings(v: &[&str]) -> Vec<String> {
    v.iter().map(|s| s.to_string()).collect()
}

fn request() -> FetchRequest {
    FetchRequest {
        model: "m".to_string(),
        init: None,
        steps_minutes: None,
        vars: Vec::new(),
        output: "out.nc".to_string(),
        concurrency: 8,
        allow_incomplete: false,
        missing_as_nan: false,
        accumulate: false,
        overwrite: false,
        deflate_level: 4,
        block_size: 32768,
        io_merge: 16384,
        history: String::new(),
        bucket: "openmeteo".to_string(),
    }
}

fn run(reference_time: &str, completed: bool) -> RunMeta {
    let day = &reference_time[..10];
    RunMeta {
        completed,
        reference_time: reference_time.to_string(),
        valid_times: (0..4).map(|h| format!("{day}T{h:02}:00Z")).collect(),
        variables: strings(&["temperature_2m", "precipitation"]),
        crs_wkt: None,
        last_modified_time: None,
    }
}

fn status() -> ModelStatus {
    ModelStatus {
        latest: Some(run("2026-09-15T00:00Z", true)),
        in_progress: Some(run("2026-09-16T00:00Z", false)),
    }
}

fn at(s: &str) -> UtcTime {
    parse_utc(s).unwrap()
}

#[test]
fn the_output_is_not_replaced_unasked() {
    assert!(check_output("out.nc", false, false).is_ok());
    assert!(check_output("out.nc", true, true).is_ok());
    assert_eq!(
        check_output("out.nc", true, false).unwrap_err(),
        "out.nc exists; pass --overwrite to replace it"
    );
}

#[test]
fn everything_of_the_latest_run() {
    let r = resolve(&status(), &request()).unwrap();
    assert_eq!(r.init, at("2026-09-15T00Z"));
    assert_eq!(r.steps, vec![0, 60, 120, 180]);
    assert_eq!(r.vars, strings(&["temperature_2m", "precipitation"]));
    assert_eq!(r.available, Some(vec![0, 60, 120, 180]));
    assert_eq!(r.plan.unique_steps(), &[0, 60, 120, 180]);
    assert!(r.interval_comment.ends_with("1 h to +3 h."));
}

#[test]
fn accumulation_over_the_gaps() {
    let mut q = request();
    q.steps_minutes = Some(vec![60, 180]);
    q.accumulate = true;
    let r = resolve(&status(), &q).unwrap();
    assert_eq!(r.plan.intervals(), vec![(0, 60), (60, 180)]);
    for o in &r.plan.outputs {
        assert_eq!(o.sources.iter().map(|s| s.duration).sum::<i64>(), o.interval.1 - o.interval.0);
    }
    assert_eq!(r.plan.outputs[1].sources.len(), 2);
}

#[test]
fn no_completed_run() {
    let mut s = status();
    s.latest = None;
    assert_eq!(
        resolve(&s, &request()).err().unwrap(),
        "no completed run available (latest.json missing); pass --init explicitly"
    );
}

#[test]
fn a_run_in_progress() {
    let mut q = request();
    q.init = Some(at("2026-09-16T00Z"));
    assert_eq!(
        resolve(&status(), &q).err().unwrap(),
        "run 2026-09-16T00:00:00Z of m is still being processed (in-progress.json, 4 steps so far); wait for latest.json to advance or pass --allow-incomplete"
    );
    q.allow_incomplete = true;
    assert!(resolve(&status(), &q).is_ok());
    q.allow_incomplete = false;
    let mut s = status();
    s.in_progress = Some(run("2026-09-16T00:00Z", true));
    assert!(resolve(&s, &q).is_ok());
}

#[test]
fn an_older_run() {
    let mut q = request();
    q.init = Some(at("2026-09-10T00Z"));
    assert_eq!(
        resolve(&status(), &q).err().unwrap(),
        "run 2026-09-10T00:00:00Z is not described by latest.json/in-progress.json; pass --step explicitly"
    );
    q.steps_minutes = Some(Vec::new());
    assert_eq!(resolve(&status(), &q).err().unwrap(), "no steps selected");
    q.steps_minutes = Some(vec![0, 60]);
    let r = resolve(&status(), &q).unwrap();
    assert_eq!(r.steps, vec![0, 60]);
    assert!(r.available.is_none() && r.vars.is_empty());
    q.accumulate = true;
    assert_eq!(
        resolve(&status(), &q).err().unwrap(),
        "--accumulate needs the run's native output times, which only latest.json/in-progress.json provide"
    );
}

#[test]
fn steps_that_the_run_does_not_provide() {
    let mut q = request();
    q.steps_minutes = Some(vec![90]);
    q.vars = strings(&["cape"]);
    let e = resolve(&status(), &q).err().unwrap();
    assert!(e.contains("missing steps (hours): 1.5") && e.contains("missing variables: cape"), "{e}");
    q.steps_minutes = Some(Vec::new());
    q.vars = Vec::new();
    assert_eq!(resolve(&status(), &q).err().unwrap(), "no steps selected");
}

#[test]
fn a_bad_reference_time() {
    let mut s = status();
    s.latest.as_mut().unwrap().reference_time = "?".to_string();
    assert!(resolve(&s, &request()).err().unwrap().starts_with("bad timestamp in JSON: \"?\""));
}

#[test]
fn missing_files() {
    let init = at("2026-09-15T00Z");
    assert_eq!(
        step_keys("m", init, &[0, 90]),
        strings(&["data_spatial/m/2026/09/15/0000Z/2026-09-15T0000.om", "data_spatial/m/2026/09/15/0000Z/2026-09-15T0130.om"])
    );
    assert_eq!(check_files("m", init, &[0, 60], &[Some(3), Some(4)]), Ok(7));
    assert_eq!(check_files("m", init, &[], &[]), Ok(0));
    assert!(all_there(&[]) && all_there(&[Some(0), Some(4)]));
    assert!(!all_there(&[Some(0), None]));
    assert_eq!(
        check_files("m", init, &[0, 15, 60], &[None, None, Some(4)]).unwrap_err(),
        "run 2026-09-15T00:00:00Z of m: 2 of 3 step files are missing (hours: 0,0.25)"
    );
}

#[test]
fn times_of_a_file() {
    let init = at("2026-09-15T00Z");
    let later = at("2026-09-15T03Z");
    assert!(check_times("k", None, None, init, 180).is_ok());
    assert!(check_times("k", Some(init), Some(later), init, 180).is_ok());
    assert_eq!(
        check_times("k", Some(later), Some(init), init, 180).unwrap_err(),
        "k: forecast_reference_time is 2026-09-15T03:00:00Z but expected 2026-09-15T00:00:00Z"
    );
    assert_eq!(
        check_times("k", Some(init), Some(init), init, 180).unwrap_err(),
        "k: valid_time is 2026-09-15T00:00:00Z but expected 2026-09-15T03:00:00Z"
    );
}

#[test]
fn choosing_variables() {
    let present = strings(&["a", "b"]);
    let s = select_variables("k", &[], &present, false).unwrap();
    assert_eq!((s.vars, s.absent), (present.clone(), Vec::new()));
    assert_eq!(select_variables("k", &[], &[], true).unwrap_err(), "k contains no array variables");
    assert_eq!(
        select_variables("k", &strings(&["c", "a", "d"]), &present, false).unwrap_err(),
        "k: variables not present in file: c,d\n  (accumulated variables such as precipitation are usually absent at step 0: drop step 0 or pass --missing-as-nan)\n  available: a,b"
    );
    let s = select_variables("k", &strings(&["c", "a"]), &present, true).unwrap();
    assert_eq!((s.vars, s.absent), (strings(&["c", "a"]), strings(&["c"])));
}

#[test]
fn warning_of_skipped_times() {
    let vars = strings(&["rain", "temperature_2m", "wind_gusts_10m"]);
    assert_eq!(subsample_warning(false, &vars), None);
    assert_eq!(subsample_warning(true, &strings(&["temperature_2m"])), None);
    assert_eq!(
        subsample_warning(true, &vars).unwrap(),
        "requested steps skip native output times: rain,wind_gusts_10m will only cover the last native interval before each step (see time_bnds); pass --accumulate to combine them"
    );
}

#[test]
fn where_shapes_come_from() {
    let present = strings(&["a"]);
    assert_eq!(info_file("a", "k", &present, 1, 1), Ok(0));
    assert_eq!(info_file("a", "k", &present, 1, 2), Ok(0));
    assert_eq!(info_file("b", "k", &present, 1, 2), Ok(1));
    assert_eq!(info_file("b", "k", &present, 2, 3), Ok(2));
    assert_eq!(info_file("b", "k", &present, 1, 1), Err("b is not present in k".to_string()));
    assert_eq!(in_no_file("b", "k", "l", 2, "c"), "b is present in neither k nor l: c");
    assert_eq!(in_no_file("b", "k", "l", 3, "c"), "b is present in none of the 3 step files from k to l: c");
}

#[test]
fn variables_have_one_shape() {
    let info = |dims: &[u64], units: &str| VarInfo { dims: dims.to_vec(), units: units.to_string() };
    let mut list = VarList::new();
    list.push("rain", info(&[2, 3], "mm")).unwrap();
    list.push("cape", info(&[2, 3], "")).unwrap();
    assert_eq!(
        list.push("x", info(&[3, 2], "")).unwrap_err(),
        "variable x has shape [3, 2] but rain has [2, 3]"
    );
    assert_eq!(list.specs.len(), 2);
    assert_eq!(list.dims, vec![2, 3]);
    assert_eq!(list.specs[0].reduction, Some(Reduction::Sum));
    assert_eq!(list.specs[1].reduction, None);
    assert_eq!((list.specs[0].name.as_str(), list.specs[0].om_units.as_str()), ("rain", "mm"));
}

#[test]
fn the_source_attribute() {
    assert_eq!(
        source_attribute("openmeteo", "m", at("2026-09-15T00Z")),
        "Open-Meteo open data, s3://openmeteo/data_spatial/m/ (model m, reference time 2026-09-15T00:00:00Z)"
    );
}

#[test]
fn what_is_read_from_a_source() {
    let vars = strings(&["temperature_2m", "rain", "cape", "wind_gusts_10m"]);
    assert_eq!(variables_to_read(&vars, 0, 2), vec![1, 3]);
    assert_eq!(variables_to_read(&vars, 1, 2), vec![0, 1, 2, 3]);
    assert_eq!(variables_to_read(&vars, 0, 1), vec![0, 1, 2, 3]);
}

#[test]
fn missing_slabs() {
    assert_eq!(slab_action("k", "v", true, false), Ok(SlabAction::Read));
    assert_eq!(slab_action("k", "v", false, true), Ok(SlabAction::FillMissing));
    assert_eq!(
        slab_action("k", "v", false, false),
        Err("k: variable v not present in file (pass --missing-as-nan to fill)".to_string())
    );
}

#[test]
fn how_slabs_are_combined() {
    let src = [
        SourceStep { step: 60, duration: 60 },
        SourceStep { step: 180, duration: 120 },
        SourceStep { step: 240, duration: 60 },
    ];
    assert_eq!(combine_plan(Reduction::Sum, &src), vec![Fold::Keep, Fold::Add, Fold::Add]);
    assert_eq!(
        combine_plan(Reduction::Mean, &src),
        vec![Fold::KeepWeighted(60), Fold::AddWeighted(120), Fold::AddWeighted(60)]
    );
    assert_eq!(combine_plan(Reduction::Maximum, &src), vec![Fold::Keep, Fold::Larger, Fold::Larger]);
    assert_eq!(combine_plan(Reduction::Minimum, &src[..1]), vec![Fold::Keep]);
    assert_eq!(combine_plan(Reduction::Minimum, &src), vec![Fold::Keep, Fold::Smaller, Fold::Smaller]);
    assert!(divides_by_total(Reduction::Mean, &src));
    assert!(!divides_by_total(Reduction::Sum, &src));
}

#[test]
fn a_mean_that_combines_nothing_is_kept() {
    let unknown = [SourceStep { step: 60, duration: 0 }];
    assert_eq!(combine_plan(Reduction::Mean, &unknown), vec![Fold::Keep]);
    assert!(!divides_by_total(Reduction::Mean, &unknown));
    let single = [SourceStep { step: 60, duration: 60 }];
    assert_eq!(combine_plan(Reduction::Mean, &single), vec![Fold::Keep]);
    assert!(!divides_by_total(Reduction::Mean, &single));
    let no_time = [SourceStep { step: -60, duration: 0 }, SourceStep { step: 0, duration: 0 }];
    assert_eq!(combine_plan(Reduction::Mean, &no_time), vec![Fold::Keep, Fold::Keep]);
    assert!(!divides_by_total(Reduction::Mean, &no_time));
    assert!(combine_plan(Reduction::Mean, &[]).is_empty());
}

#[test]
fn gathering_values() {
    assert_eq!(gather(&[1.5f32, 2.5, 3.5], &[2, 0, 0]), vec![3.5, 1.5, 1.5]);
    assert!(gather::<f32>(&[], &[]).is_empty());
}
