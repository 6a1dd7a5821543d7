use om2nc::om::{Child, NodeData, StepFile, node_line, shape};
use om2nc::timefmt::UtcTime;

fn array(dims: &[u64]) -> NodeData {
    NodeData::Array {
        dims: dims.to_vec(),
        chunks: vec![32, 32],
        compression: "PforDelta2dInt16".to_string(),
        scale_factor: "20".to_string(),
        add_offset: "0".to_string(),
    }
}

fn text(s: &str) -> NodeData {
    NodeData::Text(Some(s.to_string()))
}

fn file() -> StepFile {
    let child = |name: &str, data: NodeData| Child { name: name.to_string(), data };
    StepFile::new(
        "k".to_string(),
        77,
        vec![
            child("temperature_2m", array(&[721, 1440])),
            child("valid_time", NodeData::Int64(Some(1789453815))),
            child("crs_wkt", text("GEOGCRS[]")),
            child("rain", array(&[1, 9])),
            child("twice", NodeData::Int64(Some(1))),
            child("twice", NodeData::Int32(Some(-2))),
            child("odd", array(&[4])),
            child("none", NodeData::Text(None)),
            child("group", NodeData::Group),
            child("u64", NodeData::Uint64(Some(u64::MAX))),
            child("u32", NodeData::Uint32(Some(u32::MAX))),
            child("double", NodeData::Double { whole: Some(5), shown: Some("5.5".to_string()) }),
        ],
    )
}

#[test]
fn children_by_name() {
    let f = file();
    assert_eq!(f.variable_names(), vec!["odd", "rain", "temperature_2m"]);
    for n in ["odd", "rain", "temperature_2m"] {
        assert!(f.has_variable(n));
    }
    assert!(!f.has_variable("crs_wkt"));
    assert!(!f.has_variable("snow"));
    assert_eq!(f.children.len(), 11);
    assert_eq!(f.title(), "k (77 bytes)");
}

#[test]
fn scalars() {
    let f = file();
    assert_eq!(f.scalar_string("crs_wkt").as_deref(), Some("GEOGCRS[]"));
    assert_eq!(f.scalar_string("none"), None);
    assert_eq!(f.scalar_string("valid_time"), None);
    assert_eq!(f.crs_wkt().unwrap(), "GEOGCRS[]");
    assert_eq!(f.scalar_i64("valid_time"), Some(1789453815));
    // Of two children with one name the last counts.
    assert_eq!(f.scalar_i64("twice"), Some(-2));
    assert_eq!(f.scalar_i64("u64"), Some(-1));
    assert_eq!(f.scalar_i64("u32"), Some(4294967295));
    assert_eq!(f.scalar_i64("double"), Some(5));
    assert_eq!(f.scalar_i64("crs_wkt"), None);
    assert_eq!(f.scalar_i64("rain"), None);
    assert_eq!(f.scalar_i64("snow"), None);
    assert_eq!(f.scalar_time("valid_time"), Some(UtcTime { secs: 1789453815, nanos: 0 }));
    let far = StepFile::new(
        "k".to_string(),
        0,
        vec![Child { name: "t".to_string(), data: NodeData::Int64(Some(i64::MAX)) }],
    );
    assert_eq!(far.scalar_time("t"), None);
    assert_eq!(far.crs_wkt().unwrap_err(), "k: missing crs_wkt scalar");
}

#[test]
fn variables() {
    let f = file();
    let v = f.var_info("rain", Some(&text("mm"))).unwrap();
    assert_eq!((v.dims, v.units.as_str()), (vec![1, 9], "mm"));
    assert_eq!(f.var_info("rain", None).unwrap().units, "");
    assert_eq!(f.var_info("rain", Some(&NodeData::Group)).unwrap().units, "");
    assert_eq!(f.var_info("snow", None).unwrap_err(), "k: variable \"snow\" not present");
    assert_eq!(f.var_info("crs_wkt", None).unwrap_err(), "k: \"crs_wkt\" is not an array variable");
}

#[test]
fn shapes_of_reads() {
    let f = file();
    assert!(f.check_2d("temperature_2m").is_ok());
    assert_eq!(f.check_2d("odd").unwrap_err(), "k: odd has 1 dimensions, expected 2");
    assert_eq!(f.check_2d("snow").unwrap_err(), "k: variable \"snow\" not present");
    assert!(f.check_1d("rain").is_ok());
    assert_eq!(
        f.check_1d("temperature_2m").unwrap_err(),
        "k: temperature_2m has shape [721, 1440], expected (1, n)"
    );
    assert_eq!(f.check_1d("odd").unwrap_err(), "k: odd has shape [4], expected (1, n)");
    assert_eq!(f.check_1d("group").unwrap_err(), "k: \"group\" is not an array variable");
    assert_eq!(shape(&[]), "[]");
}

#[test]
fn tree_lines() {
    assert_eq!(
        node_line("rain", "FloatArray", 1, &array(&[1, 9])),
        "  rain: FloatArray dims=[1, 9] chunks=[32, 32] compression=PforDelta2dInt16 scale_factor=20 add_offset=0"
    );
    assert_eq!(node_line("unit", "String", 2, &text("m\"m")), "    unit: String = \"m\\\"m\"");
    assert_eq!(node_line("t", "Int64", 1, &NodeData::Int64(Some(-7))), "  t: Int64 = -7");
    assert_eq!(node_line("t", "Int32", 1, &NodeData::Int32(Some(7))), "  t: Int32 = 7");
    assert_eq!(node_line("t", "Int32", 1, &NodeData::Int32(None)), "  t: Int32 = <unreadable>");
    assert_eq!(node_line("t", "Uint64", 1, &NodeData::Uint64(Some(7))), "  t: Uint64 = <unreadable>");
    assert_eq!(node_line("x", "Float", 0, &NodeData::Float(Some("1.5".to_string()))), "x: Float = 1.5");
    let d = NodeData::Double { whole: Some(1), shown: Some("1.5".to_string()) };
    assert_eq!(node_line("x", "Double", 0, &d), "x: Double = 1.5");
    assert_eq!(node_line("x", "Int8", 0, &NodeData::OtherScalar), "x: Int8 = <unreadable>");
    assert_eq!(node_line("g", "None", 1, &NodeData::Group), "  g: group");
}
