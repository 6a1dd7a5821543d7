use om2nc::cf::Reduction;
use om2nc::nc::{NcSpec, Values, VarSpec, Variable, check_slab, layout};
use om2nc::timefmt::parse_utc;

fn attribute<'a>(v: &'a Variable, name: &str) -> Option<&'a str> {
    v.attributes.iter().find(|a| a.name == name).map(|a| a.value.as_str())
}

fn vars() -> Vec<VarSpec> {
    vec![
        VarSpec { name: "temperature_2m".to_string(), om_units: "°C".to_string(), reduction: None },
        VarSpec { name: "rain".to_string(), om_units: "mm".to_string(), reduction: Some(Reduction::Sum) },
    ]
}

fn spec<'a>(vars: &'a [VarSpec], intervals: Option<&'a [(i64, i64)]>) -> NcSpec<'a> {
    NcSpec {
        model: "jma_msm",
        init: parse_utc("2026-09-15T00Z").unwrap(),
        steps_minutes: &[60, 120],
        interval_minutes: intervals,
        interval_comment: "comment",
        ny: 3,
        nx: 4,
        vars,
        crs_wkt: "GEOGCRS[]",
        history: "history",
        source: "source",
        source_grid: None,
        regrid_method: None,
        deflate_level: 4,
    }
}

#[test]
fn layout_with_intervals() {
    let vars = vars();
    let l = layout(&spec(&vars, Some(&[(0, 60), (60, 120)]))).unwrap();
    let attributes: Vec<(&str, &str)> =
        l.attributes.iter().map(|a| (a.name.as_str(), a.value.as_str())).collect();
    assert_eq!(
        attributes,
        vec![
            ("Conventions", "CF-1.10"),
            ("title", "Open-Meteo jma_msm forecast"),
            ("source", "source"),
            ("history", "history"),
            ("license", "CC BY 4.0"),
            ("attribution", "Weather data by Open-Meteo.com (https://open-meteo.com), based on Japan Meteorological Agency (JMA) model jma_msm. Licensed under CC BY 4.0."),
            ("references", "https://open-meteo.com/en/docs/open-data"),
            ("model", "jma_msm"),
            ("forecast_reference_time", "2026-09-15T00:00:00Z"),
        ]
    );
    let dimensions: Vec<(&str, usize)> = l.dimensions.iter().map(|d| (d.name.as_str(), d.len)).collect();
    assert_eq!(dimensions, vec![("time", 2), ("latitude", 3), ("longitude", 4), ("nv", 2)]);
    let names: Vec<&str> = l.variables.iter().map(|v| v.name.as_str()).collect();
    assert_eq!(
        names,
        vec!["time", "time_bnds", "step", "forecast_reference_time", "latitude", "longitude", "crs", "temperature_2m", "rain"]
    );
    for v in &l.variables {
        for d in &v.dims {
            assert!(l.dimensions.iter().any(|x| x.name == *d));
        }
    }
    let time = &l.variables[0];
    assert_eq!(attribute(time, "units"), Some("hours since 2026-09-15 00:00:00"));
    assert_eq!(attribute(time, "bounds"), Some("time_bnds"));
    assert!(matches!(&time.values, Values::Hours(v) if *v == vec![60, 120]));
    assert!(matches!(&l.variables[1].values, Values::Bounds(v) if *v == vec![(0, 60), (60, 120)]));
    assert_eq!(attribute(&l.variables[2], "standard_name"), Some("forecast_period"));
    assert!(matches!(l.variables[3].values, Values::Seconds(1789430400)));
    assert_eq!(attribute(&l.variables[4], "units"), Some("degrees_north"));
    assert_eq!(attribute(&l.variables[5], "axis"), Some("X"));
    assert_eq!(attribute(&l.variables[6], "crs_wkt"), Some("GEOGCRS[]"));
}

#[test]
fn data_variables() {
    let vars = vars();
    let l = layout(&spec(&vars, None)).unwrap();
    assert_eq!(l.dimensions.len(), 3);
    assert_eq!(attribute(&l.variables[0], "bounds"), None);
    let t = l.variables.iter().find(|v| v.name == "temperature_2m").unwrap();
    let all: Vec<(&str, &str)> = t.attributes.iter().map(|a| (a.name.as_str(), a.value.as_str())).collect();
    assert_eq!(
        all,
        vec![
            ("long_name", "temperature 2m"),
            ("standard_name", "air_temperature"),
            ("units", "degC"),
            ("open_meteo_units", "°C"),
            ("open_meteo_variable", "temperature_2m"),
            ("grid_mapping", "crs"),
            ("coordinates", "forecast_reference_time step"),
        ]
    );
    assert!(matches!(t.values, Values::Slabs { ny: 3, nx: 4, level: 4 }));
    let r = l.variables.iter().find(|v| v.name == "rain").unwrap();
    assert_eq!(attribute(r, "units"), Some("mm"));
    assert_eq!(attribute(r, "open_meteo_units"), Some("mm"));
    assert_eq!(attribute(r, "cell_methods"), Some("time: sum"));
    assert_eq!(attribute(r, "comment"), Some("comment"));
}

#[test]
fn resampled_output_says_so() {
    let mut s = spec(&[], None);
    s.source_grid = Some("octahedral reduced Gaussian O1280");
    s.regrid_method = Some("nearest");
    let l = layout(&s).unwrap();
    let n = l.attributes.len();
    assert_eq!(l.attributes[n - 2].value, "octahedral reduced Gaussian O1280");
    assert_eq!((l.attributes[n - 1].name.as_str(), l.attributes[n - 1].value.as_str()), ("regrid_method", "nearest"));
}

#[test]
fn intervals_for_each_step() {
    assert_eq!(layout(&spec(&[], Some(&[(0, 60)]))).unwrap_err(), "interval list length mismatch");
}

#[test]
fn slab_sizes() {
    assert!(check_slab("v", 12, 3, 4).is_ok());
    assert_eq!(check_slab("v", 11, 3, 4).unwrap_err(), "slab for v has 11 values, expected 12");
}
