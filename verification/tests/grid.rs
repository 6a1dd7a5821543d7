use om2nc::gaussian::GaussianError;
use om2nc::grid::{
    BBox, DEFAULT_SPACING, Degrees, Extent, GridBox, GridError, KEY_10, KEY_90, KEY_180, KEY_360, Meridians, RegularGrid, Sampler, SourceGrid,
    axis_steps, check_axes, index_window,
};

const IFS025: &str = r#"GEOGCRS["WGS 84",
    DATUM["World Geodetic System 1984",
        ELLIPSOID["WGS 84",6378137,298.257223563]],
    CS[ellipsoidal,2],
        AXIS["latitude",north],
        AXIS["longitude",east],
        ANGLEUNIT["degree",0.0174532925199433]
    USAGE[
        SCOPE["grid"],
        BBOX[-90.0,-180.0,90.0,179.75]]]"#;

/// The order key of a double.
fn key(x: f64) -> Option<i64> {
    if x.is_nan() {
        None
    } else if x.is_sign_negative() {
        Some(-((-x).to_bits() as i64))
    } else {
        Some(x.to_bits() as i64)
    }
}

fn parse_box(s: &str) -> Result<[f64; 4], GridError> {
    let v: Vec<f64> = BBox::fields(s)?.iter().map(|f| f.parse().unwrap()).collect();
    let keys: Vec<Option<i64>> = v.iter().map(|&x| key(x)).collect();
    let b = BBox::from_keys(s, &keys)?;
    assert_eq!(Some(b.south), key(v[1]));
    Ok([v[0], v[1], v[2], v[3]])
}

/// Origin and spacing of latitudes and longitudes.
struct Axes {
    lat0: f64,
    dlat: f64,
    lon0: f64,
    dlon: f64,
}

fn axes(g: &RegularGrid) -> Axes {
    let v = |s: &String| s.parse::<f64>().unwrap();
    Axes {
        lat0: v(&g.south),
        dlat: (v(&g.north) - v(&g.south)) / (g.ny as f64 - 1.0),
        lon0: v(&g.west),
        dlon: (v(&g.east) - v(&g.west)) / (g.nx as f64 - 1.0),
    }
}

fn normalise(lon: f64) -> f64 {
    if lon > 180.0 { lon - 360.0 } else { lon }
}

fn crop(g: &RegularGrid, bbox: Option<&str>) -> Result<Sampler, GridError> {
    let a = axes(g);
    let extent = Extent {
        lat_min: format!("{:.3}", a.lat0),
        lat_max: format!("{:.3}", a.lat0 + a.dlat * (g.ny - 1) as f64),
        lon_min: format!("{:.3}", a.lon0),
        lon_max: format!("{:.3}", a.lon0 + a.dlon * (g.nx - 1) as f64),
    };
    let low = |x: f64, origin: f64, step: f64| ((x - origin) / step - 1e-6).ceil() as i64;
    let high = |x: f64, origin: f64, step: f64| ((x - origin) / step + 1e-6).floor() as i64;
    match bbox {
        None => g.subset(None, extent),
        Some(s) => {
            let b = parse_box(s)?;
            let (west, east) = (normalise(b[0]), normalise(b[2]));
            let keys: Vec<Option<i64>> = b.iter().map(|&x| key(x)).collect();
            let around = BBox::from_keys(s, &keys)?.meridians(key(west).unwrap(), key(east).unwrap())?;
            let bounds = GridBox {
                west: key(west).unwrap(),
                east: key(east).unwrap(),
                south_row: low(b[1], a.lat0, a.dlat),
                north_row: high(b[3], a.lat0, a.dlat),
                west_col: if around == Meridians::All { 0 } else { low(west, a.lon0, a.dlon) },
                east_col: if around == Meridians::All { i64::MAX } else { high(east, a.lon0, a.dlon) },
            };
            g.subset(Some(&bounds), extent)
        }
    }
}

fn window(s: &Sampler) -> (usize, usize, usize, usize) {
    match s {
        Sampler::Crop2d { rows, cols } => (rows.start, rows.end, cols.start, cols.end),
        Sampler::Nearest1d { .. } => panic!("not a crop"),
    }
}

#[test]
fn ifs025_grid() {
    let g = RegularGrid::from_crs_wkt(IFS025, &[721, 1440]).unwrap();
    let a = axes(&g);
    assert!((a.dlat - 0.25).abs() < 1e-9);
    assert!((a.dlon - 0.25).abs() < 1e-9);
    assert_eq!(a.lat0, -90.0);
    assert!((a.lon0 + a.dlon * 1439.0 - 179.75).abs() < 1e-9);
    assert_eq!((g.south.as_str(), g.west.as_str(), g.north.as_str(), g.east.as_str()), ("-90.0", "-180.0", "90.0", "179.75"));
    assert_eq!((g.ny, g.nx), (721, 1440));
}

#[test]
fn subset_east_asia() {
    let g = RegularGrid::from_crs_wkt(IFS025, &[721, 1440]).unwrap();
    let s = crop(&g, Some("120,20,150,50")).unwrap();
    assert_eq!(s, Sampler::Crop2d { rows: 440..561, cols: 1200..1321 });
    let a = axes(&g);
    assert_eq!(a.lat0 + a.dlat * 440.0, 20.0);
    assert_eq!(a.lat0 + a.dlat * 560.0, 50.0);
    assert_eq!(a.lon0 + a.dlon * 1200.0, 120.0);
    assert_eq!(a.lon0 + a.dlon * 1320.0, 150.0);
}

#[test]
fn subset_whole_grid() {
    let g = RegularGrid::from_crs_wkt(IFS025, &[721, 1440]).unwrap();
    let s = crop(&g, None).unwrap();
    assert_eq!(s, Sampler::Crop2d { rows: 0..721, cols: 0..1440 });
    assert_eq!(s.describe(), "crop rows 0..721 cols 0..1440");
}

#[test]
fn subset_lon_0_360() {
    let g = RegularGrid::from_crs_wkt(IFS025, &[721, 1440]).unwrap();
    let s = crop(&g, Some("200,0,210,10")).unwrap();
    let a = axes(&g);
    assert_eq!(a.lon0 + a.dlon * window(&s).2 as f64, -160.0);
}

#[test]
fn subset_no_overlap() {
    let wkt = r#"GEOGCRS["WGS 84",USAGE[SCOPE["grid"],BBOX[22.4,120.0,47.6,150.0]]]"#;
    let g = RegularGrid::from_crs_wkt(wkt, &[505, 481]).unwrap();
    let e = crop(&g, Some("-10,-10,0,0")).unwrap_err();
    assert!(matches!(e, GridError::NoOverlap(..)));
    assert_eq!(
        e.message(),
        "bbox does not intersect the model grid (grid covers lat 22.400..47.600, lon 120.000..150.000)"
    );
    // Partially overlapping boxes are clipped to the grid.
    let s = crop(&g, Some("100,40,125,60")).unwrap();
    assert!(matches!(&s, Sampler::Crop2d { cols, .. } if cols.start == 0));
    let a = axes(&g);
    assert!((a.lat0 + a.dlat * (window(&s).1 - 1) as f64 - 47.6).abs() < 1e-9);
}

#[test]
fn rejects_unsupported_grids() {
    let rot = r#"GEOGCRS["Rotated Lat/Lon",DERIVINGCONVERSION["x"],USAGE[BBOX[1,2,3,4]]]"#;
    assert!(matches!(RegularGrid::from_crs_wkt(rot, &[10, 10]), Err(GridError::Rotated)));
    let proj = r#"PROJCRS["Lambert",USAGE[BBOX[1,2,3,4]]]"#;
    assert!(matches!(
        RegularGrid::from_crs_wkt(proj, &[10, 10]),
        Err(GridError::NotGeographic(_))
    ));
    assert!(matches!(
        RegularGrid::from_crs_wkt(IFS025, &[1, 6599680]),
        Err(GridError::NotRegular(_))
    ));
}

#[test]
fn bbox_parse_errors() {
    assert!(parse_box("1,2,3").is_err());
    assert!(parse_box("0,50,10,40").is_err());
    assert!(parse_box("a,b,c,d").is_err());
}

#[test]
fn order_keys() {
    assert_eq!(key(90.0), Some(KEY_90));
    assert_eq!(key(180.0), Some(KEY_180));
    assert_eq!(key(360.0), Some(KEY_360));
    assert_eq!(key(10.0), Some(KEY_10));
    let mut v = [0.0, -0.0, 5e-324, -5e-324, 1.0, -1.0, 90.0, -90.0, f64::MAX, f64::MIN, f64::INFINITY];
    v.sort_by(|a, b| a.partial_cmp(b).unwrap());
    for w in v.windows(2) {
        assert_eq!(w[0] < w[1], key(w[0]) < key(w[1]));
    }
}

#[test]
fn boxes_in_their_ranges() {
    assert!(parse_box(" -180 , -90 , 360 , 90 ").is_ok());
    assert!(parse_box("-180.1,-90,360,90").is_err());
    assert!(parse_box("-180,-90,360.1,90").is_err());
    assert!(parse_box("0,-90.1,0,0").is_err());
    assert!(parse_box("0,0,0,90.1").is_err());
    assert!(parse_box("nan,0,0,0").is_err());
    assert!(parse_box("0,nan,0,0").is_err());
    assert!(parse_box("inf,0,0,0").is_err());
    assert!(parse_box("0,1e1,0,+10.").is_ok());
    assert_eq!(
        parse_box("1,2").unwrap_err().message(),
        "invalid bbox \"1,2\": expected west,south,east,north in degrees"
    );
}

#[test]
fn fields_are_what_doubles_are_written_as() {
    for s in ["1", "-1.5", "+.5", "5.", "1e3", "1E-3", "inf", "-INF", "+Infinity", "NaN", "-nan", "infinit", ".", "", "e1", "1e", "0x1", "1 2", "--1"] {
        let four = format!("{s},0,0,0");
        assert_eq!(BBox::fields(&four).is_ok(), s.trim().parse::<f64>().is_ok(), "{s}");
    }
}

#[test]
fn wkt_errors() {
    let message = |wkt: &str, dims: &[u64]| RegularGrid::from_crs_wkt(wkt, dims).unwrap_err().message();
    assert_eq!(
        message("  PROJCRS[]", &[10, 10]),
        "crs_wkt is not a geographic CRS (starts with \"PROJCRS\"); projected grids are not supported"
    );
    assert_eq!(
        message("GEOGCS[DERIVINGCONVERSION", &[10, 10]),
        "grid is a rotated lat/lon grid (DERIVINGCONVERSION in crs_wkt); not supported"
    );
    assert_eq!(
        message("GEOGCS[]", &[10, 1, 3]),
        "grid is neither a regular lat/lon grid nor an octahedral reduced Gaussian grid (shape [10, 1, 3])"
    );
    assert_eq!(message("GEOGCS[BBOX[1,2,3]]", &[2, 2]), "crs_wkt has no parsable BBOX[...]: GEOGCS[BBOX[1,2,3]]");
    for wkt in ["GEOGCS[]", "GEOGCS[BBOX[1,2,3,4", "GEOGCS[BBOX[1,2,3,x]]", "GEOGCS[BBOX[1,2,3,4,5]]"] {
        assert!(matches!(RegularGrid::from_crs_wkt(wkt, &[2, 2]), Err(GridError::NoBbox(_))));
    }
    assert!(RegularGrid::from_crs_wkt("GEOGCS[BBOX[ 1 , 2,3,4]]", &[2, 2]).is_ok());
}

#[test]
fn windows_of_indices() {
    assert_eq!(index_window(10, 2, 4), Some(2..5));
    assert_eq!(index_window(10, -5, 100), Some(0..10));
    assert_eq!(index_window(10, i64::MIN, i64::MAX), Some(0..10));
    assert_eq!(index_window(10, 4, 3), None);
    assert_eq!(index_window(10, 10, 20), None);
    assert_eq!(index_window(10, -20, -1), None);
    assert_eq!(index_window(0, 0, 0), None);
}

#[test]
fn boxes_over_the_antimeridian() {
    let g = RegularGrid::from_crs_wkt(IFS025, &[721, 1440]).unwrap();
    let e = crop(&g, Some("170,0,190,10")).unwrap_err();
    assert_eq!(e.message(), "bbox crosses the antimeridian (west > east after normalisation); not supported");
    let b = |west: f64, east: f64| BBox {
        west: key(west).unwrap(),
        south: 0,
        east: key(east).unwrap(),
        north: 0,
    };
    assert!(matches!(b(170.0, 190.0).meridians(2, 1), Err(GridError::Antimeridian)));
    assert!(matches!(b(10.0, 10.0).meridians(1, 1), Ok(Meridians::Between)));
    assert!(matches!(b(200.0, 210.0).meridians(1, 2), Ok(Meridians::Between)));
}

#[test]
fn boxes_all_around() {
    let g = RegularGrid::from_crs_wkt(IFS025, &[721, 1440]).unwrap();
    assert_eq!(window(&crop(&g, Some("0,-90,360,90")).unwrap()), (0, 721, 0, 1440));
    assert_eq!(window(&crop(&g, Some("-180,0,180,10")).unwrap()), (360, 401, 0, 1440));
    assert_eq!(window(&crop(&g, Some("-180,0,200,10")).unwrap()), (360, 401, 0, 1440));
    assert_eq!(window(&crop(&g, Some("350,0,360,10")).unwrap()), (360, 401, 680, 721));
}

#[test]
fn kinds_of_source_grids() {
    let s = SourceGrid::detect("Gaussian Grid O1280", &[1, 6_599_680]).unwrap();
    assert_eq!(s.describe("", ""), "octahedral reduced Gaussian O1280 (6599680 points)");
    assert_eq!(s.regrid_attributes(), Some(("octahedral reduced Gaussian O1280".to_string(), "nearest")));
    let r = SourceGrid::detect(IFS025, &[721, 1440]).unwrap();
    assert_eq!(r.describe("0.2500", "0.2500"), "regular 721x1440 (0.2500° x 0.2500°)");
    assert_eq!(r.regrid_attributes(), None);
    let e = SourceGrid::detect(IFS025, &[1, 5]).unwrap_err();
    assert!(matches!(e, GridError::Gaussian(GaussianError::NotOctahedral(5))));
    assert_eq!(e.message(), "5 points do not form an octahedral reduced Gaussian grid");
    assert!(matches!(SourceGrid::detect("PROJCRS[]", &[5, 5]), Err(GridError::NotGeographic(_))));
}

#[test]
fn resolutions() {
    let degrees = |x: f64| Degrees { key: key(x), shown: format!("{x}") };
    let g = SourceGrid::detect("", &[1, 6_599_680]).unwrap();
    let r = SourceGrid::detect(IFS025, &[721, 1440]).unwrap();
    assert_eq!(g.check_resolution(None, "m").unwrap(), key(0.1));
    assert_eq!(Some(DEFAULT_SPACING), key(0.1));
    assert_eq!(r.check_resolution(None, "m").unwrap(), None);
    assert_eq!(
        r.check_resolution(Some(&degrees(0.1)), "m").unwrap_err().message(),
        "--resolution only applies to reduced Gaussian models; m is already a regular grid"
    );
    for x in [0.1, 10.0, 5e-324] {
        assert_eq!(g.check_resolution(Some(&degrees(x)), "m").unwrap(), key(x));
    }
    for x in [0.0, -0.0, -1.0, 10.000000000000002, f64::NAN, f64::INFINITY] {
        assert!(matches!(g.check_resolution(Some(&degrees(x)), "m"), Err(GridError::BadResolution(_))));
    }
    assert_eq!(
        g.check_resolution(Some(&degrees(11.0)), "m").unwrap_err().message(),
        "--resolution must be > 0 and <= 10 degrees, got 11"
    );
}

#[test]
fn target_axes() {
    assert_eq!(axis_steps(-2, 1), vec![-2, -1, 0, 1]);
    assert!(axis_steps(1, 0).is_empty());
    assert_eq!(axis_steps(i64::MAX, i64::MAX), vec![i64::MAX]);
    assert!(check_axes(1, 1, "b", "0.1").is_ok());
    assert_eq!(
        check_axes(0, 1, "1,2,1,2", "5").unwrap_err().message(),
        "invalid bbox \"1,2,1,2 is narrower than resolution 5\": expected west,south,east,north in degrees"
    );
    let n = Sampler::Nearest1d { window: 10..25, map: vec![1] };
    assert_eq!(n.describe(), "nearest-neighbour from 15 source points");
}
