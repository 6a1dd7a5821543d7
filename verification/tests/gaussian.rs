use om2nc::gaussian::{GaussianError, OctahedralGrid, parse_octahedral_n};

/// Row latitudes in degrees, north to south: Newton iteration on the Legendre recurrence.
fn latitudes(n: u32) -> Vec<f64> {
    let deg = 2 * n as usize;
    let mut north = Vec::new();
    for i in 0..n as usize {
        let mut z = (std::f64::consts::PI * (i as f64 + 0.75) / (deg as f64 + 0.5)).cos();
        loop {
            let (mut p1, mut p2) = (1.0f64, 0.0f64);
            for j in 1..=deg {
                let p3 = p2;
                p2 = p1;
                p1 = ((2 * j - 1) as f64 * z * p2 - (j - 1) as f64 * p3) / j as f64;
            }
            let pp = deg as f64 * (z * p1 - p2) / (z * z - 1.0);
            let z1 = z;
            z = z1 - p1 / pp;
            if (z - z1).abs() < 1e-15 {
                break;
            }
        }
        north.push(z.asin().to_degrees());
    }
    let mut all = north.clone();
    all.extend(north.iter().rev().map(|l| -l));
    all
}

fn nearest_row(g: &OctahedralGrid, lats: &[f64], lat: f64) -> usize {
    let i = lats.partition_point(|&l| l > lat);
    let upper = i > 0 && i < lats.len() && (lats[i - 1] - lat).abs() <= (lat - lats[i]).abs();
    g.nearest_row(i, upper)
}

fn nearest_in_row(g: &OctahedralGrid, row: usize, lon: f64) -> u32 {
    let frac = lon.rem_euclid(360.0) / 360.0;
    g.nearest_in_row(row, (frac * g.row_len[row] as f64).round() as u32)
}

#[test]
fn o1280_geometry() {
    assert_eq!(OctahedralGrid::total_points(1280), 6_599_680);
    assert_eq!(OctahedralGrid::n_from_total(6_599_680), Some(1280));
    assert_eq!(OctahedralGrid::n_from_total(6_599_681), None);
    let g = OctahedralGrid::new(1280);
    let lats = latitudes(1280);
    assert_eq!(g.row_len.len(), 2560);
    assert_eq!(g.row_len[0], 20);
    assert_eq!(g.row_len[1279], 5136);
    assert_eq!(g.row_len[1280], 5136);
    assert_eq!(g.total(), 6_599_680);
    // First Gaussian latitude of N1280 (ECMWF documentation): 89.946187715665774
    assert!((lats[0] - 89.946_187_7).abs() < 1e-6, "{}", lats[0]);
    assert!((lats[2559] + 89.946_187_7).abs() < 1e-6);
    assert!(lats[1279] > 0.0 && lats[1280] < 0.0);
    assert!((lats[1279] - 0.035_149_4).abs() < 1e-5, "{}", lats[1279]);
}

#[test]
fn nearest_lookup() {
    let g = OctahedralGrid::new(1280);
    let lats = latitudes(1280);
    assert_eq!(nearest_row(&g, &lats, 0.035), 1279);
    assert_eq!(nearest_row(&g, &lats, -0.035), 1280);
    assert_eq!(nearest_row(&g, &lats, 90.0), 0);
    assert_eq!(nearest_row(&g, &lats, -90.0), 2559);
    assert_eq!(nearest_in_row(&g, 1279, 90.0), 1284);
    assert_eq!(nearest_in_row(&g, 1279, -90.0), 3852);
    assert_eq!(nearest_in_row(&g, 1279, 359.99), 0);
    let rows: Vec<usize> = [0.035, -0.035].iter().map(|&l| nearest_row(&g, &lats, l)).collect();
    let columns: Vec<Vec<u32>> =
        rows.iter().map(|&r| [0.0, 90.0].iter().map(|&l| nearest_in_row(&g, r, l)).collect()).collect();
    let (win, map) = g.nearest_plan(&rows, &columns);
    assert_eq!(win, g.row_off[1279]..g.row_off[1281]);
    assert_eq!(map, vec![0, 1284, 5136, 5136 + 1284]);
}

#[test]
fn remark_parsing() {
    assert_eq!(
        parse_octahedral_n(r#"REMARK["Reduced Gaussian Grid O1280 (ECMWF)"]"#),
        Some(1280)
    );
    assert_eq!(parse_octahedral_n("GEOGCRS[]"), None);
    let g = OctahedralGrid::from_crs_wkt(
        r#"REMARK["Reduced Gaussian Grid O1280 (ECMWF)"]"#,
        &[1, 6_599_680],
    )
    .unwrap();
    assert_eq!(g.n, 1280);
    assert!(
        OctahedralGrid::from_crs_wkt(
            r#"REMARK["Reduced Gaussian Grid O640"]"#,
            &[1, 6_599_680]
        )
        .is_err()
    );
}

#[test]
fn point_counts() {
    for n in [1u32, 2, 3, 639, 640, 1280, 65535, 1_000_000_007, 2_147_483_643] {
        let t = OctahedralGrid::total_points(n);
        assert_eq!(t as u128, 4 * (n as u128) * (n as u128) + 36 * n as u128);
        assert_eq!(OctahedralGrid::n_from_total(t), Some(n));
        assert_eq!(OctahedralGrid::n_from_total(t - 1), None);
        assert_eq!(OctahedralGrid::n_from_total(t + 1), None);
    }
    assert_eq!(OctahedralGrid::n_from_total(0), None);
    assert_eq!(OctahedralGrid::n_from_total(u64::MAX), None);
}

#[test]
fn rows_of_a_small_grid() {
    let g = OctahedralGrid::new(2);
    assert_eq!(g.row_len, vec![20, 24, 24, 20]);
    assert_eq!(g.row_off, vec![0, 20, 44, 68, 88]);
    assert_eq!(g.total(), 88);
    assert_eq!(OctahedralGrid::new(0).total(), 0);
}

#[test]
fn remark_edge_cases() {
    assert_eq!(parse_octahedral_n("Gaussian Grid O"), None);
    assert_eq!(parse_octahedral_n("Gaussian Grid O+5"), None);
    assert_eq!(parse_octahedral_n("Gaussian Grid O4294967295x"), Some(4294967295));
    assert_eq!(parse_octahedral_n("Gaussian Grid O4294967296"), None);
    assert_eq!(parse_octahedral_n("Gaussian Grid Ox Gaussian Grid O5"), None);
}

#[test]
fn errors_of_the_grid() {
    let e = OctahedralGrid::from_crs_wkt("", &[1, 7]).unwrap_err();
    assert_eq!(e, GaussianError::NotOctahedral(7));
    assert_eq!(e.message(), "7 points do not form an octahedral reduced Gaussian grid");
    let e = OctahedralGrid::from_crs_wkt("Gaussian Grid O640", &[6_599_680]).unwrap_err();
    assert_eq!(e, GaussianError::Mismatch(640, 6_599_680, 1_661_440));
    assert_eq!(e.message(), "crs_wkt says O640 but the array has 6599680 points (expected 1661440)");
}

#[test]
fn plans_stay_in_their_window() {
    let g = OctahedralGrid::new(4);
    let rows = [5, 2, 3];
    let columns: Vec<Vec<u32>> =
        rows.iter().map(|&r| vec![0, g.row_len[r] - 1, g.nearest_in_row(r, g.row_len[r])]).collect();
    let (win, map) = g.nearest_plan(&rows, &columns);
    assert_eq!(win, g.row_off[2]..g.row_off[6]);
    for (k, &row) in rows.iter().enumerate() {
        for j in 0..3 {
            let i = map[k * 3 + j] as u64;
            assert!(i < win.end - win.start);
            assert_eq!(win.start + i, g.row_off[row] + columns[k][j] as u64);
        }
    }
    let (win, map) = g.nearest_plan(&[], &[]);
    assert_eq!((win, map), (0..0, Vec::new()));
}

#[test]
fn rows_at_the_ends() {
    let g = OctahedralGrid::new(4);
    assert_eq!(g.nearest_row(0, true), 0);
    assert_eq!(g.nearest_row(8, false), 7);
    assert_eq!(g.nearest_row(3, true), 2);
    assert_eq!(g.nearest_row(3, false), 3);
}
