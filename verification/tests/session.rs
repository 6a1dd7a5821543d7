use om2nc::fetch::FetchRequest;
use om2nc::meta::{ModelStatus, RunMeta};
use om2nc::om::{Child, NodeData, StepFile, VarInfo};
use om2nc::session::{Action, Event, GridFailure, GridPlan, Session, Stage};

fn strings(v: &[&str]) -> Vec<String> {
    v.iter().map(|s| s.to_string()).collect()
}

fn request() -> FetchRequest {
    FetchRequest {
        model: "m".to_string(),
        init: None,
        steps_minutes: None,
        vars: Vec::new(),
        output: "out.nc".to_string(),
        concurrency: 8,
        allow_incomplete: false,
        missing_as_nan: true,
        accumulate: false,
        overwrite: false,
        deflate_level: 4,
        block_size: 32768,
        io_merge: 16384,
        history: "history".to_string(),
        bucket: "openmeteo".to_string(),
    }
}

fn status() -> ModelStatus {
    ModelStatus {
        latest: Some(RunMeta {
            completed: true,
            reference_time: "2026-09-15T00:00Z".to_string(),
            valid_times: strings(&["2026-09-15T00:00Z", "2026-09-15T01:00Z"]),
            variables: strings(&["cape", "rain"]),
            crs_wkt: None,
            last_modified_time: None,
        }),
        in_progress: None,
    }
}

const FIRST: &str = "data_spatial/m/2026/09/15/0000Z/2026-09-15T0000.om";
const SECOND: &str = "data_spatial/m/2026/09/15/0000Z/2026-09-15T0100.om";

fn array() -> NodeData {
    NodeData::Array {
        dims: vec![3, 4],
        chunks: vec![3, 4],
        compression: String::new(),
        scale_factor: String::new(),
        add_offset: String::new(),
    }
}

fn tree(key: &str, vars: &[&str], valid_time: i64) -> StepFile {
    let mut found: Vec<Child> =
        vars.iter().map(|v| Child { name: v.to_string(), data: array() }).collect();
    found.push(Child { name: "crs_wkt".to_string(), data: NodeData::Text(Some("GEOGCRS[]".to_string())) });
    found.push(Child { name: "valid_time".to_string(), data: NodeData::Int64(Some(valid_time)) });
    StepFile::new(key.to_string(), 9, found)
}

const INIT: i64 = 1789430400;

fn info(units: &str) -> VarInfo {
    VarInfo { dims: vec![3, 4], units: units.to_string() }
}

fn failure(a: Action) -> String {
    match a {
        Action::Fail(m) => m,
        other => panic!("{other:?}"),
    }
}

/// A session that has opened its first file.
fn at_first(q: FetchRequest) -> Session {
    let (s, a) = Session::start(q);
    assert!(matches!(a, Action::LookAtOutput));
    let (s, a) = s.next(Event::Output { already: false });
    assert!(matches!(a, Action::ReadStatus));
    let (s, a) = s.next(Event::Status(Ok(status())));
    assert!(matches!(&a, Action::StatObjects(k) if *k == strings(&[FIRST, SECOND])));
    let (s, a) = s.next(Event::Sizes(Ok(vec![Some(5), Some(6)])));
    assert!(matches!(&a, Action::Open(k) if k == FIRST));
    s
}

/// A session that has looked up its variables.
fn at_grid() -> Session {
    let (s, a) = at_first(request()).next(Event::Opened(Ok(Some(tree(FIRST, &["cape"], INIT)))));
    assert!(matches!(&a, Action::Open(k) if k == SECOND));
    let (s, a) = s.next(Event::Opened(Ok(Some(tree(SECOND, &["cape", "rain"], INIT + 3600)))));
    assert!(matches!(&a, Action::Describe(0, v) if v == "cape"));
    let (s, a) = s.next(Event::Described(Ok(info("J/kg"))));
    assert!(matches!(&a, Action::Describe(1, v) if v == "rain"));
    let (s, a) = s.next(Event::Described(Ok(info("mm"))));
    assert!(matches!(&a, Action::PlanGrid { crs_wkt, dims } if crs_wkt == "GEOGCRS[]" && *dims == vec![3, 4]));
    s
}

fn at_writing() -> Session {
    let (s, a) = at_grid().next(Event::Grid(Ok(GridPlan { ny: 2, nx: 3, regrid: None })));
    match a {
        Action::Create(l) => {
            let names: Vec<&str> = l.variables.iter().map(|v| v.name.as_str()).collect();
            assert_eq!(names[names.len() - 2..], ["cape", "rain"]);
            assert!(l.attributes.iter().any(|x| x.value.starts_with("Open-Meteo open data, s3://openmeteo/")));
        }
        other => panic!("{other:?}"),
    }
    let (s, a) = s.next(Event::Created(Ok(())));
    assert!(matches!(a, Action::WriteSlabs));
    s
}

#[test]
fn a_fetch_from_start_to_end() {
    let (s, a) = at_writing().next(Event::Written(Ok(())));
    assert!(matches!(a, Action::Close));
    let (s, a) = s.next(Event::Closed(Ok(())));
    assert!(matches!(a, Action::Rename));
    let (s, a) = s.next(Event::Moved(Ok(())));
    match a {
        Action::Finish(f) => {
            assert_eq!((f.steps, f.vars, f.ny, f.nx, f.bytes_remote), (2, 2, 2, 3, 11));
            assert_eq!(f.init.secs, INIT);
        }
        other => panic!("{other:?}"),
    }
    assert!(matches!(s.stage, Stage::Done(_)));
}

#[test]
fn a_failed_write_removes_the_part() {
    let (s, a) = at_writing().next(Event::Written(Err("broken".to_string())));
    assert!(matches!(a, Action::RemovePart));
    let (s, a) = s.next(Event::Removed);
    assert_eq!(failure(a), "broken");
    assert!(matches!(s.stage, Stage::Failed));
    let (s, _) = at_writing().next(Event::Written(Ok(())));
    let (_, a) = s.next(Event::Closed(Err("full".to_string())));
    assert_eq!(failure(a), "full");
}

#[test]
fn failures_on_the_way() {
    let (s, _) = Session::start(request());
    assert_eq!(
        failure(s.next(Event::Output { already: true }).1),
        "out.nc exists; pass --overwrite to replace it"
    );
    let (s, _) = Session::start(request());
    let (s, _) = s.next(Event::Output { already: false });
    assert_eq!(failure(s.next(Event::Status(Err("offline".to_string()))).1), "offline");
    assert_eq!(
        failure(at_first(request()).next(Event::Opened(Ok(None))).1),
        format!("object vanished: {FIRST}")
    );
    let late = tree(FIRST, &["cape"], INIT + 60);
    assert_eq!(
        failure(at_first(request()).next(Event::Opened(Ok(Some(late)))).1),
        format!("{FIRST}: valid_time is 2026-09-15T00:01:00Z but expected 2026-09-15T00:00:00Z")
    );
    let mut q = request();
    q.missing_as_nan = false;
    assert!(
        failure(at_first(q).next(Event::Opened(Ok(Some(tree(FIRST, &["cape"], INIT))))).1)
            .starts_with(&format!("{FIRST}: variables not present in file: rain\n"))
    );
    let no_crs = StepFile::new(FIRST.to_string(), 0, Vec::new());
    assert_eq!(
        failure(at_first(request()).next(Event::Opened(Ok(Some(no_crs)))).1),
        format!("{FIRST}: missing crs_wkt scalar")
    );
    let (s, _) = at_first(request()).next(Event::Opened(Ok(Some(tree(FIRST, &["cape"], INIT)))));
    assert_eq!(failure(s.next(Event::Opened(Ok(None))).1), format!("object vanished: {SECOND}"));
}

#[test]
fn missing_files_end_the_fetch() {
    let (s, _) = Session::start(request());
    let (s, _) = s.next(Event::Output { already: false });
    let (s, _) = s.next(Event::Status(Ok(status())));
    assert_eq!(
        failure(s.next(Event::Sizes(Ok(vec![Some(5), None]))).1),
        "run 2026-09-15T00:00:00Z of m: 1 of 2 step files are missing (hours: 1)"
    );
    // Missing files are reported whatever the size of the others.
    let mut q = request();
    q.init = Some(om2nc::timefmt::UtcTime::from_timestamp(INIT - 86400).unwrap());
    q.steps_minutes = Some(vec![0, 60, 120]);
    let (s, _) = Session::start(q);
    let (s, _) = s.next(Event::Output { already: false });
    let (s, _) = s.next(Event::Status(Ok(status())));
    assert_eq!(
        failure(s.next(Event::Sizes(Ok(vec![Some(u64::MAX), None, Some(1)]))).1),
        "run 2026-09-14T00:00:00Z of m: 1 of 3 step files are missing (hours: 1)"
    );
}

const STEPS: [&str; 4] = [
    "data_spatial/m/2026/09/14/0000Z/2026-09-14T0000.om",
    "data_spatial/m/2026/09/14/0000Z/2026-09-14T0100.om",
    "data_spatial/m/2026/09/14/0000Z/2026-09-14T0200.om",
    "data_spatial/m/2026/09/14/0000Z/2026-09-14T0300.om",
];

/// A session for four steps that is about to look up `snow`, which the first
/// file lacks, in the second one.
fn in_search(vars: &[&str]) -> Session {
    let mut q = request();
    q.init = Some(om2nc::timefmt::UtcTime::from_timestamp(INIT - 86400).unwrap());
    q.steps_minutes = Some(vec![0, 60, 120, 180]);
    q.vars = strings(vars);
    let (s, _) = Session::start(q);
    let (s, _) = s.next(Event::Output { already: false });
    let (s, _) = s.next(Event::Status(Ok(status())));
    let (s, _) = s.next(Event::Sizes(Ok(vec![Some(1); 4])));
    let (s, a) = s.next(Event::Opened(Ok(Some(tree(STEPS[0], &["cape"], INIT - 86400)))));
    assert!(matches!(&a, Action::Open(k) if k == STEPS[1]));
    let (s, a) = s.next(Event::Opened(Ok(Some(tree(STEPS[1], &["cape", "rain"], INIT - 82800)))));
    assert!(matches!(&a, Action::Describe(1, v) if v == "snow"));
    s
}

fn lacks() -> Event {
    Event::Described(Err("lacks it".to_string()))
}

#[test]
fn a_variable_of_a_later_file_is_found() {
    let (s, a) = in_search(&["snow", "rain", "hail", "cape"]).next(lacks());
    assert!(matches!(&a, Action::Open(k) if k == STEPS[2]));
    let (s, a) = s.next(Event::Opened(Ok(Some(tree(STEPS[2], &["snow"], INIT - 79200)))));
    assert!(matches!(&a, Action::Describe(2, v) if v == "snow"));
    let (s, a) = s.next(Event::Described(Ok(info("cm"))));
    assert!(matches!(&a, Action::Describe(1, v) if v == "rain"));
    let (s, a) = s.next(Event::Described(Ok(info("mm"))));
    assert!(matches!(&a, Action::Describe(1, v) if v == "hail"));
    // The files that are open already are not opened again.
    let (s, a) = s.next(lacks());
    assert!(matches!(&a, Action::Describe(2, v) if v == "hail"));
    let (s, a) = s.next(lacks());
    assert!(matches!(&a, Action::Open(k) if k == STEPS[3]));
    let (s, a) = s.next(Event::Opened(Ok(Some(tree(STEPS[3], &["hail"], INIT - 75600)))));
    assert!(matches!(&a, Action::Describe(3, v) if v == "hail"));
    let (s, a) = s.next(Event::Described(Ok(info("mm"))));
    assert!(matches!(&a, Action::Describe(0, v) if v == "cape"));
    let (_, a) = s.next(Event::Described(Ok(info("J/kg"))));
    assert!(matches!(a, Action::PlanGrid { .. }));
}

#[test]
fn a_search_through_all_files() {
    let (s, _) = in_search(&["snow"]).next(lacks());
    let (s, _) = s.next(Event::Opened(Ok(Some(tree(STEPS[2], &[], INIT)))));
    let (s, a) = s.next(lacks());
    assert!(matches!(&a, Action::Open(k) if k == STEPS[3]));
    let (s, _) = s.next(Event::Opened(Ok(Some(tree(STEPS[3], &[], INIT)))));
    assert_eq!(
        failure(s.next(lacks()).1),
        format!("snow is present in none of the 4 step files from {} to {}: lacks it", STEPS[0], STEPS[3])
    );
    let (s, _) = in_search(&["snow"]).next(lacks());
    assert_eq!(failure(s.next(Event::Opened(Ok(None))).1), format!("object vanished: {}", STEPS[2]));
    let (s, _) = in_search(&["snow"]).next(lacks());
    assert_eq!(failure(s.next(Event::Opened(Err("offline".to_string()))).1), "offline");
}

#[test]
fn variables_in_no_file() {
    let mut q = request();
    q.steps_minutes = Some(vec![0]);
    let (s, _) = Session::start(q);
    let (s, _) = s.next(Event::Output { already: false });
    let (s, _) = s.next(Event::Status(Ok(status())));
    let (s, _) = s.next(Event::Sizes(Ok(vec![Some(5)])));
    let (s, _) = s.next(Event::Opened(Ok(Some(tree(FIRST, &["cape"], INIT)))));
    let (_, a) = s.next(Event::Described(Ok(info(""))));
    assert_eq!(failure(a), format!("rain is not present in {FIRST}"));

    let (s, _) = at_first(request()).next(Event::Opened(Ok(Some(tree(FIRST, &["cape"], INIT)))));
    let (s, _) = s.next(Event::Opened(Ok(Some(tree(SECOND, &["cape"], INIT + 3600)))));
    let (s, _) = s.next(Event::Described(Ok(info(""))));
    let (_, a) = s.next(Event::Described(Err("gone".to_string())));
    assert_eq!(failure(a), format!("rain is present in neither {FIRST} nor {SECOND}: gone"));
}

#[test]
fn shapes_that_differ() {
    let (s, _) = at_first(request()).next(Event::Opened(Ok(Some(tree(FIRST, &["cape", "rain"], INIT)))));
    let (s, _) = s.next(Event::Described(Ok(info(""))));
    let other = VarInfo { dims: vec![4, 3], units: String::new() };
    let (_, a) = s.next(Event::Described(Ok(other)));
    assert_eq!(failure(a), "variable rain has shape [4, 3] but cape has [3, 4]");
}

#[test]
fn grids_that_are_refused() {
    let (_, a) = at_grid().next(Event::Grid(Err(GridFailure::Unsupported("rotated".to_string()))));
    assert_eq!(failure(a), "model m cannot be written as a lat/lon NetCDF: rotated");
    let (_, a) = at_grid().next(Event::Grid(Err(GridFailure::Refused("no overlap".to_string()))));
    assert_eq!(failure(a), "no overlap");
}

#[test]
fn requests_out_of_range_are_given_up() {
    let mut q = request();
    q.init = Some(om2nc::timefmt::UtcTime::from_timestamp(0).unwrap());
    q.steps_minutes = Some(vec![i64::MAX]);
    let (s, _) = Session::start(q);
    let (s, _) = s.next(Event::Output { already: false });
    let (_, a) = s.next(Event::Status(Ok(status())));
    assert!(matches!(a, Action::Abort(_)));
    let (s, _) = Session::start(request());
    let (s, _) = s.next(Event::Output { already: false });
    let (s, _) = s.next(Event::Status(Ok(status())));
    let (_, a) = s.next(Event::Sizes(Ok(vec![Some(u64::MAX), Some(1)])));
    assert!(matches!(a, Action::Abort(_)));
}
