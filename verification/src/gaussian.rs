//! ECMWF octahedral reduced Gaussian grids (O<N>, e.g. O1280 for `ecmwf_ifs`).
//!
//! Layout as stored in Open-Meteo `.om` files: a single 1-D array, rows ordered
//! north to south, row `i` (1-based from the pole) holding `16 + 4i` points at
//! longitudes `360 j / n_row`, `j = 0..n_row`, i.e. starting at 0 degrees and
//! going east.
use crate::number;
use crate::text;
use std::ops::Range;
use vstd::prelude::*;
use vstd::slice::slice_subrange;
use vstd::string::*;

verus! {

#[derive(Debug, Clone, Copy, PartialEq, Eq, Structural)]
pub enum GaussianError {
    NotOctahedral(u64),
    Mismatch(u32, u64, u64),
}

impl GaussianError {
    pub open spec fn text(self) -> Seq<char> {
        match self {
            GaussianError::NotOctahedral(points) => text::dec(points as nat)
                + " points do not form an octahedral reduced Gaussian grid"@,
            GaussianError::Mismatch(n, points, expected) => "crs_wkt says O"@ + text::dec(n as nat)
                + " but the array has "@ + text::dec(points as nat) + " points (expected "@
                + text::dec(expected as nat) + ")"@,
        }
    }

    pub fn message(&self) -> (r: String)
        ensures
            r@ == self.text(),
    {
        match self {
            GaussianError::NotOctahedral(points) => {
                let mut out = String::new();
                text::push_dec(&mut out, *points as u128);
                assert(out@ == text::dec(*points as nat));
                out.append(" points do not form an octahedral reduced Gaussian grid");
                out
            },
            GaussianError::Mismatch(n, points, expected) => {
                let mut out = "crs_wkt says O".to_owned();
                text::push_dec(&mut out, *n as u128);
                out.append(" but the array has ");
                text::push_dec(&mut out, *points as u128);
                out.append(" points (expected ");
                text::push_dec(&mut out, *expected as u128);
                out.append(")");
                out
            },
        }
    }
}

/// The points of the grid with `n` rows in each hemisphere.
pub open spec fn points(n: int) -> int {
    4 * n * n + 36 * n
}

/// The points of the first `i` rows, counted from a pole.
pub open spec fn polar_points(i: int) -> int {
    2 * i * i + 18 * i
}

/// The points in row `i`, counted from the north from 0 on.
pub open spec fn row_points(n: int, i: int) -> int {
    if i < n {
        16 + 4 * (i + 1)
    } else {
        16 + 4 * (2 * n - i)
    }
}

/// Where row `i` starts in the array; for `i == 2 * n` the number of all points.
pub open spec fn row_start(n: int, i: int) -> int {
    if i <= n {
        polar_points(i)
    } else {
        points(n) - polar_points(2 * n - i)
    }
}

/// The largest N whose row lengths can be held.
pub const MAX_N: u32 = 1073741819;

/// The largest N whose number of points can be held.
pub const MAX_COUNTED_N: u32 = 2147483643;

#[derive(Debug)]
pub struct OctahedralGrid {
    pub n: u32,
    /// Points per row.
    pub row_len: Vec<u32>,
    /// Start index of each row in the 1-D array, plus a final total.
    pub row_off: Vec<u64>,
}

/// Rows lie one behind the other, from 0 up to the number of points.
pub proof fn law_rows_fill_the_array(n: int, i: int)
    requires
        0 <= i < 2 * n,
    ensures
        row_start(n, i + 1) == row_start(n, i) + row_points(n, i),
        row_start(n, 0) == 0,
        row_start(n, 2 * n) == points(n),
        row_points(n, i) >= 20,
{
    assert(polar_points(i + 1) == polar_points(i) + 16 + 4 * (i + 1)) by (nonlinear_arith);
    let j = 2 * n - i;
    assert(polar_points(j) == polar_points(j - 1) + 16 + 4 * j) by (nonlinear_arith);
    assert(points(n) == 2 * polar_points(n)) by (nonlinear_arith);
    assert(polar_points(0) == 0) by (nonlinear_arith);
}

proof fn lemma_row_start_ordered(n: int, i: int, j: int)
    requires
        0 <= i <= j <= 2 * n,
    ensures
        row_start(n, i) <= row_start(n, j),
    decreases j - i,
{
    if i < j {
        law_rows_fill_the_array(n, i);
        lemma_row_start_ordered(n, i + 1, j);
    }
}

proof fn lemma_row_start_bounds(n: int, i: int)
    requires
        0 <= i <= 2 * n,
        n <= MAX_COUNTED_N,
    ensures
        0 <= row_start(n, i) <= points(n) <= u64::MAX,
{
    lemma_row_start_ordered(n, 0, i);
    lemma_row_start_ordered(n, i, 2 * n);
    lemma_points_bound(n);
    if n > 0 {
        law_rows_fill_the_array(n, 0);
    }
}

proof fn lemma_points_bound(n: int)
    requires
        0 <= n <= MAX_COUNTED_N,
    ensures
        0 <= points(n) <= u64::MAX,
{
    assert(4 * n * n + 36 * n <= 0xffff_ffff_ffff_ffff) by (nonlinear_arith)
        requires
            0 <= n <= 2147483643,
    ;
    assert(4 * n * n + 36 * n >= 0) by (nonlinear_arith)
        requires
            0 <= n,
    ;
}

/// Larger grids have more points.
pub proof fn lemma_points_monotone(a: int, b: int)
    requires
        0 <= a < b,
    ensures
        points(a) < points(b),
{
    assert(4 * a * a + 36 * a < 4 * b * b + 36 * b) by (nonlinear_arith)
        requires
            0 <= a < b,
    ;
}

impl OctahedralGrid {
    pub open spec fn well_formed(self) -> bool {
        let n = self.n as int;
        &&& self.n <= MAX_N
        &&& self.row_len@.len() == 2 * n
        &&& self.row_off@.len() == 2 * n + 1
        &&& forall|i: int| 0 <= i < 2 * n ==> #[trigger] self.row_len@[i] == row_points(n, i)
        &&& forall|i: int| 0 <= i <= 2 * n ==> #[trigger] self.row_off@[i] == row_start(n, i)
    }

    pub fn total_points(n: u32) -> (r: u64)
        requires
            n <= MAX_COUNTED_N,
        ensures
            r == points(n as int),
    {
        proof {
            lemma_points_bound(n as int);
            assert(4 * n * n >= 0) by (nonlinear_arith);
            assert(4 * n * n <= points(n as int));
            assert(36 * n <= points(n as int));
        }
        let m: u64 = n as u64;
        4 * m * m + 36 * m
    }

    /// Infer N from the point count (4N² + 36N = total).
    pub fn n_from_total(total: u64) -> (r: Option<u32>)
        ensures
            match r {
                Some(n) => 1 <= n <= MAX_COUNTED_N && points(n as int) == total,
                None => forall|n: int| n >= 1 ==> #[trigger] points(n) != total,
            },
    {
        let mut low: u32 = 0;
        let mut high: u32 = MAX_COUNTED_N;
        proof {
            assert(points(0) == 0) by (nonlinear_arith);
            assert forall|n: int| n > MAX_COUNTED_N implies #[trigger] points(n) > total by {
                assert(4 * n * n + 36 * n > 0xffff_ffff_ffff_ffff) by (nonlinear_arith)
                    requires
                        n >= 2147483644,
                ;
            }
        }
        while low < high
            invariant
                low <= high <= MAX_COUNTED_N,
                points(low as int) <= total,
                forall|n: int| n > high ==> #[trigger] points(n) > total,
            decreases high - low,
        {
            let mid: u32 = low + (high - low) / 2 + 1;
            if Self::total_points(mid) <= total {
                low = mid;
            } else {
                proof {
                    assert forall|n: int| n > mid - 1 implies #[trigger] points(n) > total by {
                        if n > mid {
                            lemma_points_monotone(mid as int, n);
                        }
                    }
                }
                high = mid - 1;
            }
        }
        if low >= 1 && Self::total_points(low) == total {
            Some(low)
        } else {
            proof {
                assert forall|n: int| n >= 1 implies #[trigger] points(n) != total by {
                    if n <= high && n < low {
                        lemma_points_monotone(n, low as int);
                    }
                }
            }
            None
        }
    }

    pub fn new(n: u32) -> (r: Self)
        requires
            n <= MAX_N,
        ensures
            r.well_formed(),
            r.n == n,
    {
        let mut row_len: Vec<u32> = Vec::new();
        let mut i: u32 = 0;
        while i < n
            invariant
                i <= n <= MAX_N,
                row_len@.len() == i,
                forall|k: int| 0 <= k < i ==> #[trigger] row_len@[k] == row_points(n as int, k),
            decreases n - i,
        {
            row_len.push(16 + 4 * (i + 1));
            i += 1;
        }
        while i > 0
            invariant
                i <= n <= MAX_N,
                row_len@.len() == 2 * n - i,
                forall|k: int|
                    0 <= k < 2 * n - i ==> #[trigger] row_len@[k] == row_points(n as int, k),
            decreases i,
        {
            row_len.push(16 + 4 * i);
            i -= 1;
        }
        let mut row_off: Vec<u64> = Vec::new();
        let mut acc: u64 = 0;
        let mut j: usize = 0;
        proof {
            assert(polar_points(0) == 0) by (nonlinear_arith);
        }
        while j < row_len.len()
            invariant
                j <= row_len.len(),
                n <= MAX_N,
                row_len@.len() == 2 * n,
                forall|k: int| 0 <= k < 2 * n ==> #[trigger] row_len@[k] == row_points(n as int, k),
                row_off@.len() == j,
                acc == row_start(n as int, j as int),
                forall|k: int| 0 <= k < j ==> #[trigger] row_off@[k] == row_start(n as int, k),
            decreases row_len.len() - j,
        {
            row_off.push(acc);
            proof {
                law_rows_fill_the_array(n as int, j as int);
                lemma_row_start_bounds(n as int, j + 1);
            }
            acc = acc + row_len[j] as u64;
            j += 1;
        }
        row_off.push(acc);
        OctahedralGrid { n, row_len, row_off }
    }

    pub fn total(&self) -> (r: u64)
        requires
            self.well_formed(),
        ensures
            r == points(self.n as int),
    {
        proof {
            if self.n > 0 {
                law_rows_fill_the_array(self.n as int, 0);
            } else {
                assert(points(0) == 0) by (nonlinear_arith);
                assert(polar_points(0) == 0) by (nonlinear_arith);
            }
        }
        self.row_off[self.row_off.len() - 1]
    }

    /// The row closest to a latitude, given how many rows lie north of it and
    /// whether the last of those is at least as close as the row behind it.
    pub fn nearest_row(&self, north: usize, upper_is_closer: bool) -> (r: usize)
        requires
            self.well_formed(),
            north <= 2 * self.n,
        ensures
            r == (if north == 0 {
                0
            } else if north == 2 * self.n {
                2 * self.n - 1
            } else if upper_is_closer {
                north - 1
            } else {
                north as int
            }),
            // One of the two rows around the latitude, or the one at the pole.
            self.n > 0 ==> r < 2 * self.n && (r == north || r + 1 == north),
            0 < north < 2 * self.n ==> (r < north <==> upper_is_closer),
    {
        if north == 0 {
            return 0;
        }
        if north >= self.row_len.len() {
            return self.row_len.len() - 1;
        }
        if upper_is_closer {
            north - 1
        } else {
            north
        }
    }

    /// Index within `row` of the point closest to a longitude that lies
    /// `spacings` spacings of the row, rounded, east of 0 degrees.
    pub fn nearest_in_row(&self, row: usize, spacings: u32) -> (r: u32)
        requires
            self.well_formed(),
            row < 2 * self.n,
        ensures
            r == spacings as int % row_points(self.n as int, row as int),
            r < row_points(self.n as int, row as int),
    {
        let n: u32 = self.row_len[row];
        assert(n == row_points(self.n as int, row as int));
        spacings % n
    }
}

/// The N that a WKT remark such as `REMARK["Reduced Gaussian Grid O1280 (ECMWF)"]` claims.
pub open spec fn claimed_n(wkt: Seq<char>) -> Option<nat> {
    match text::find(wkt, "Gaussian Grid O"@) {
        Some(i) => number::u32_of_text(
            text::leading_digits(wkt.skip(i + "Gaussian Grid O"@.len())),
        ),
        None => None,
    }
}

/// Parse the octahedral N out of a WKT REMARK such as
/// `REMARK["Reduced Gaussian Grid O1280 (ECMWF)"]`.
pub fn parse_octahedral_n(wkt: &str) -> (r: Option<u32>)
    ensures
        match r {
            Some(n) => claimed_n(wkt@) == Some(n as nat),
            None => claimed_n(wkt@) is None,
        },
{
    let c = text::chars_of(wkt);
    let pat = text::chars_of("Gaussian Grid O");
    match text::find_chars(c.as_slice(), pat.as_slice()) {
        Some(i) => {
            let rest = slice_subrange(c.as_slice(), i + pat.len(), c.len());
            assert(rest@ == wkt@.skip(i + pat@.len()));
            let n: usize = number::count_digits(rest);
            let digits = slice_subrange(rest, 0, n);
            assert(digits@ == rest@.take(n as int));
            number::u32_of_chars(digits)
        },
        None => None,
    }
}

/// The number of cells of an array.
pub open spec fn cells(dims: Seq<u64>) -> int
    decreases dims.len(),
{
    if dims.len() == 0 {
        1
    } else {
        cells(dims.drop_last()) * dims.last()
    }
}

/// The cells of the array, and of its leading dimensions, can be counted.
pub open spec fn countable(dims: Seq<u64>) -> bool {
    forall|k: int| 0 <= k <= dims.len() ==> cells(#[trigger] dims.take(k)) <= u64::MAX
}

fn count_cells(dims: &[u64]) -> (r: u64)
    requires
        countable(dims@),
    ensures
        r == cells(dims@),
{
    let mut acc: u64 = 1;
    let mut i: usize = 0;
    assert(dims@.take(0) == Seq::<u64>::empty());
    while i < dims.len()
        invariant
            i <= dims.len(),
            countable(dims@),
            acc == cells(dims@.take(i as int)),
        decreases dims.len() - i,
    {
        assert(dims@.take(i + 1).drop_last() == dims@.take(i as int));
        assert(cells(dims@.take(i + 1)) <= u64::MAX);
        assert(acc * dims@[i as int] >= 0) by (nonlinear_arith);
        acc = acc * dims[i];
        i += 1;
    }
    assert(dims@.take(i as int) == dims@);
    acc
}

/// `n` rows in each hemisphere make a grid of `total` points.
pub open spec fn is_octahedral(n: int, total: int) -> bool {
    n >= 1 && points(n) == total
}

/// There is one N at most for a number of points.
pub proof fn law_point_count_fixes_n(a: int, b: int, total: int)
    requires
        is_octahedral(a, total),
        is_octahedral(b, total),
    ensures
        a == b,
{
    if a < b {
        lemma_points_monotone(a, b);
    } else if b < a {
        lemma_points_monotone(b, a);
    }
}

/// Where the points form a grid, its rows can be held, or its points can be
/// counted where the remark claims another N.
pub open spec fn can_be_held(wkt: Seq<char>, total: int) -> bool {
    forall|n: int| #[trigger]
        is_octahedral(n, total) ==> match claimed_n(wkt) {
            Some(c) => if c == n {
                n <= MAX_N
            } else {
                c <= MAX_COUNTED_N
            },
            None => n <= MAX_N,
        }
}

/// Why an array is no octahedral grid; none where it is one.
pub open spec fn octahedral_error(wkt: Seq<char>, total: int) -> Option<GaussianError> {
    if !(exists|n: int| is_octahedral(n, total)) {
        Some(GaussianError::NotOctahedral(total as u64))
    } else {
        match claimed_n(wkt) {
            Some(c) => if is_octahedral(c as int, total) {
                None
            } else {
                Some(GaussianError::Mismatch(c as u32, total as u64, points(c as int) as u64))
            },
            None => None,
        }
    }
}

impl OctahedralGrid {
    /// Build from `crs_wkt` (REMARK "... O1280 ...") and the array shape.
    pub fn from_crs_wkt(wkt: &str, dims: &[u64]) -> (r: Result<Self, GaussianError>)
        requires
            countable(dims@),
            can_be_held(wkt@, cells(dims@)),
        ensures
            match r {
                Ok(g) => octahedral_error(wkt@, cells(dims@)) is None && g.well_formed()
                    && is_octahedral(g.n as int, cells(dims@)),
                Err(e) => octahedral_error(wkt@, cells(dims@)) == Some(e),
            },
    {
        let total: u64 = count_cells(dims);
        match Self::n_from_total(total) {
            None => {
                assert forall|n: int| !is_octahedral(n, total as int) by {
                    if n >= 1 {
                        assert(points(n) != total);
                    }
                }
                Err(GaussianError::NotOctahedral(total))
            },
            Some(n) => {
                assert(is_octahedral(n as int, total as int));
                if let Some(claimed) = parse_octahedral_n(wkt) {
                    if claimed != n {
                        proof {
                            if is_octahedral(claimed as int, total as int) {
                                law_point_count_fixes_n(claimed as int, n as int, total as int);
                            }
                        }
                        return Err(
                            GaussianError::Mismatch(claimed, total, Self::total_points(claimed)),
                        );
                    }
                }
                Ok(Self::new(n))
            },
        }
    }
}

/// The smallest of the rows.
pub open spec fn lowest(rows: Seq<usize>) -> int
    decreases rows.len(),
{
    if rows.len() <= 1 {
        rows[0] as int
    } else if rows.last() < lowest(rows.drop_last()) {
        rows.last() as int
    } else {
        lowest(rows.drop_last())
    }
}

/// The largest of the rows.
pub open spec fn highest(rows: Seq<usize>) -> int
    decreases rows.len(),
{
    if rows.len() <= 1 {
        rows[0] as int
    } else if rows.last() > highest(rows.drop_last()) {
        rows.last() as int
    } else {
        highest(rows.drop_last())
    }
}

/// The positions in the window of the chosen points of one row. They are held
/// as 32-bit numbers.
pub open spec fn row_positions(off: int, columns: Seq<u32>) -> Seq<u32> {
    columns.map_values(|c: u32| ((off + c) % 0x1_0000_0000) as u32)
}

/// The positions in the window, which starts at `base`, of the chosen points of
/// all rows, row by row.
pub open spec fn positions(n: int, rows: Seq<usize>, columns: Seq<Seq<u32>>, base: int) -> Seq<u32>
    decreases rows.len(),
{
    if rows.len() == 0 {
        Seq::empty()
    } else {
        positions(n, rows.drop_last(), columns.drop_last(), base) + row_positions(
            row_start(n, rows.last() as int) - base,
            columns.last(),
        )
    }
}

pub open spec fn column_views(columns: Seq<Vec<u32>>) -> Seq<Seq<u32>> {
    columns.map_values(|c: Vec<u32>| c@)
}

proof fn lemma_row_range(rows: Seq<usize>)
    requires
        rows.len() > 0,
    ensures
        forall|k: int| 0 <= k < rows.len() ==> lowest(rows) <= #[trigger] rows[k] <= highest(rows),
        exists|k: int| 0 <= k < rows.len() && #[trigger] rows[k] == lowest(rows),
        exists|k: int| 0 <= k < rows.len() && #[trigger] rows[k] == highest(rows),
    decreases rows.len(),
{
    if rows.len() == 1 {
        assert(rows[0] == lowest(rows));
        assert(rows[0] == highest(rows));
    } else {
        let rest = rows.drop_last();
        lemma_row_range(rest);
        let a = choose|k: int| 0 <= k < rest.len() && #[trigger] rest[k] == lowest(rest);
        let b = choose|k: int| 0 <= k < rest.len() && #[trigger] rest[k] == highest(rest);
        assert(rows[a] == rest[a]);
        assert(rows[b] == rest[b]);
        assert(rows[rows.len() - 1] == rows.last());
        assert forall|k: int| 0 <= k < rows.len() implies lowest(rows) <= #[trigger] rows[k]
            <= highest(rows) by {
            if k < rest.len() {
                assert(rest[k] == rows[k]);
            }
        }
    }
}

fn row_range(rows: &[usize]) -> (r: (usize, usize))
    requires
        rows@.len() > 0,
    ensures
        r.0 == lowest(rows@),
        r.1 == highest(rows@),
{
    let mut low: usize = rows[0];
    let mut high: usize = rows[0];
    let mut i: usize = 1;
    while i < rows.len()
        invariant
            1 <= i <= rows.len(),
            low == lowest(rows@.take(i as int)),
            high == highest(rows@.take(i as int)),
        decreases rows.len() - i,
    {
        assert(rows@.take(i + 1).drop_last() == rows@.take(i as int));
        if rows[i] < low {
            low = rows[i];
        }
        if rows[i] > high {
            high = rows[i];
        }
        i += 1;
    }
    assert(rows@.take(i as int) == rows@);
    (low, high)
}

fn push_row(map: &mut Vec<u32>, off: u64, columns: &[u32])
    requires
        off <= u64::MAX - u32::MAX,
    ensures
        final(map)@ == old(map)@ + row_positions(off as int, columns@),
{
    let ghost all = row_positions(off as int, columns@);
    let mut j: usize = 0;
    assert(old(map)@ + all.take(0) == old(map)@);
    while j < columns.len()
        invariant
            j <= columns.len(),
            off <= u64::MAX - u32::MAX,
            all == row_positions(off as int, columns@),
            map@ == old(map)@ + all.take(j as int),
        decreases columns.len() - j,
    {
        let p: u64 = off + columns[j] as u64;
        map.push((p % 0x1_0000_0000) as u32);
        proof {
            assert(all.take(j + 1) == all.take(j as int).push(all[j as int]));
            assert(map@ == old(map)@ + all.take(j + 1));
        }
        j += 1;
    }
    assert(all.take(j as int) == all);
}

impl OctahedralGrid {
    /// Nearest-neighbour sampling plan for a regular target grid, given for
    /// each of its latitudes the nearest row and for each longitude the nearest
    /// point in that row. Returns the contiguous 1-D window to read and, per
    /// target cell (row-major), the index into that window.
    pub fn nearest_plan(&self, rows: &[usize], columns: &[Vec<u32>]) -> (r: (Range<u64>, Vec<u32>))
        requires
            self.well_formed(),
            columns@.len() == rows@.len(),
            forall|k: int| 0 <= k < rows@.len() ==> #[trigger] rows@[k] < 2 * self.n,
        ensures
            rows@.len() == 0 ==> r.0.start == 0 && r.0.end == 0 && r.1@.len() == 0,
            rows@.len() > 0 ==> {
                let n = self.n as int;
                let base = row_start(n, lowest(rows@));
                &&& r.0.start == base
                &&& r.0.end == row_start(n, highest(rows@) + 1)
                &&& r.1@ == positions(n, rows@, column_views(columns@), base)
            },
    {
        let mut map: Vec<u32> = Vec::new();
        if rows.len() == 0 {
            return (Range { start: 0, end: 0 }, map);
        }
        let (low, high) = row_range(rows);
        let ghost n = self.n as int;
        let ghost views = column_views(columns@);
        proof {
            lemma_row_range(rows@);
        }
        let base: u64 = self.row_off[low];
        let end: u64 = self.row_off[high + 1];
        let mut i: usize = 0;
        assert(rows@.take(0).len() == 0);
        while i < rows.len()
            invariant
                i <= rows.len(),
                self.well_formed(),
                n == self.n,
                views == column_views(columns@),
                columns@.len() == rows@.len(),
                forall|k: int| 0 <= k < rows@.len() ==> #[trigger] rows@[k] < 2 * self.n,
                forall|k: int| 0 <= k < rows@.len() ==> low <= #[trigger] rows@[k],
                low < 2 * self.n,
                base == row_start(n, low as int),
                map@ == positions(n, rows@.take(i as int), views.take(i as int), base as int),
            decreases rows.len() - i,
        {
            let row: usize = rows[i];
            proof {
                assert(rows@[i as int] < 2 * self.n);
                assert(low <= rows@[i as int]);
                lemma_row_start_ordered(n, low as int, row as int);
                lemma_row_start_bounds(n, row as int);
                lemma_row_start_bounds(n, low as int);
                assert(points(n) <= 0x4000_0000_0000_0000) by {
                    if n < MAX_N {
                        lemma_points_monotone(n, MAX_N as int);
                    }
                    assert(points(1073741819) <= 0x4000_0000_0000_0000) by (nonlinear_arith);
                }
                assert(rows@.take(i + 1).drop_last() == rows@.take(i as int));
                assert(views.take(i + 1).drop_last() == views.take(i as int));
                assert(self.row_off@[row as int] == row_start(n, row as int));
            }
            let off: u64 = self.row_off[row] - base;
            push_row(&mut map, off, columns[i].as_slice());
            i += 1;
        }
        assert(rows@.take(i as int) == rows@);
        assert(views.take(i as int) == views);
        (Range { start: base, end }, map)
    }
}

proof fn lemma_positions_in_window(
    n: int,
    rows: Seq<usize>,
    columns: Seq<Seq<u32>>,
    base: int,
    end: int,
)
    requires
        columns.len() == rows.len(),
        forall|k: int|
            0 <= k < rows.len() ==> #[trigger] rows[k] < 2 * n && base <= row_start(
                n,
                rows[k] as int,
            ) && row_start(n, rows[k] + 1) <= end,
        forall|k: int, j: int|
            0 <= k < rows.len() && 0 <= j < columns[k].len() ==> #[trigger] columns[k][j]
                < row_points(n, rows[k] as int),
        0 <= base,
        end <= 0x1_0000_0000,
    ensures
        forall|m: int|
            0 <= m < positions(n, rows, columns, base).len() ==> #[trigger] positions(
                n,
                rows,
                columns,
                base,
            )[m] < end - base,
    decreases rows.len(),
{
    if rows.len() > 0 {
        let rest = rows.drop_last();
        let part = columns.drop_last();
        let was = positions(n, rest, part, base);
        let all = positions(n, rows, columns, base);
        let row = rows[rows.len() - 1] as int;
        assert forall|k: int| 0 <= k < rest.len() implies #[trigger] rest[k] < 2 * n && base
            <= row_start(n, rest[k] as int) && row_start(n, rest[k] + 1) <= end by {
            assert(rest[k] == rows[k]);
        }
        assert forall|k: int, j: int|
            0 <= k < rest.len() && 0 <= j < part[k].len() implies #[trigger] part[k][j]
            < row_points(n, rest[k] as int) by {
            assert(columns[k][j] < row_points(n, rows[k] as int));
        }
        lemma_positions_in_window(n, rest, part, base, end);
        law_rows_fill_the_array(n, row);
        let off = row_start(n, row) - base;
        assert forall|m: int| 0 <= m < all.len() implies #[trigger] all[m] < end - base by {
            if m < was.len() {
                assert(all[m] == was[m]);
            } else {
                let j = m - was.len();
                assert(columns[rows.len() - 1][j] < row_points(n, row));
                assert(all[m] == ((off + columns.last()[j]) % 0x1_0000_0000) as u32);
            }
        }
    }
}

/// On a grid whose points can be counted in 32 bits every target cell takes a
/// point out of the window, whatever the target grid is.
pub proof fn law_plan_stays_in_window(n: int, rows: Seq<usize>, columns: Seq<Seq<u32>>)
    requires
        rows.len() > 0,
        columns.len() == rows.len(),
        forall|k: int| 0 <= k < rows.len() ==> #[trigger] rows[k] < 2 * n,
        forall|k: int, j: int|
            0 <= k < rows.len() && 0 <= j < columns[k].len() ==> #[trigger] columns[k][j]
                < row_points(n, rows[k] as int),
        points(n) <= 0x1_0000_0000,
    ensures
        ({
            let base = row_start(n, lowest(rows));
            let end = row_start(n, highest(rows) + 1);
            forall|m: int|
                0 <= m < positions(n, rows, columns, base).len() ==> #[trigger] positions(
                    n,
                    rows,
                    columns,
                    base,
                )[m] < end - base
        }),
{
    let base = row_start(n, lowest(rows));
    let end = row_start(n, highest(rows) + 1);
    lemma_row_range(rows);
    let a = choose|k: int| 0 <= k < rows.len() && #[trigger] rows[k] == lowest(rows);
    let b = choose|k: int| 0 <= k < rows.len() && #[trigger] rows[k] == highest(rows);
    assert(rows[a] < 2 * n && rows[b] < 2 * n);
    lemma_row_start_ordered(n, 0, lowest(rows));
    lemma_row_start_ordered(n, highest(rows) + 1, 2 * n);
    law_rows_fill_the_array(n, 0);
    assert forall|k: int| 0 <= k < rows.len() implies #[trigger] rows[k] < 2 * n && base
        <= row_start(n, rows[k] as int) && row_start(n, rows[k] + 1) <= end by {
        lemma_row_start_ordered(n, lowest(rows), rows[k] as int);
        lemma_row_start_ordered(n, rows[k] + 1, highest(rows) + 1);
    }
    lemma_positions_in_window(n, rows, columns, base, end);
}

/// The position of a chosen point leads to that point: on a grid whose points
/// can be counted in 32 bits, the window holds at it the point `column` of the row.
pub proof fn law_position_leads_to_the_point(n: int, row: int, base: int, columns: Seq<u32>, j: int)
    requires
        0 <= row < 2 * n,
        0 <= base <= row_start(n, row),
        0 <= j < columns.len(),
        columns[j] < row_points(n, row),
        points(n) <= 0x1_0000_0000,
    ensures
        base + row_positions(row_start(n, row) - base, columns)[j] == row_start(n, row)
            + columns[j],
{
    law_rows_fill_the_array(n, row);
    lemma_row_start_ordered(n, row + 1, 2 * n);
}

/// The rows of a hemisphere grow by four points each, from twenty at the pole to the
/// equator, and the other hemisphere mirrors them. With their number all rows have
/// `4 n^2 + 36 n` points.
pub proof fn law_rows_are_octahedral(n: int, i: int)
    requires
        0 <= i < 2 * n,
    ensures
        row_points(n, 0) == 20,
        i + 1 < n ==> row_points(n, i + 1) == row_points(n, i) + 4,
        row_points(n, 2 * n - 1 - i) == row_points(n, i),
        row_start(n, 2 * n) == 4 * (n * n) + 36 * n,
{
    law_rows_fill_the_array(n, i);
    assert(4 * n * n == 4 * (n * n)) by (nonlinear_arith);
}

proof fn lemma_positions_at(
    n: int,
    rows: Seq<usize>,
    columns: Seq<Seq<u32>>,
    base: int,
    width: int,
)
    requires
        columns.len() == rows.len(),
        forall|k: int| 0 <= k < columns.len() ==> (#[trigger] columns[k]).len() == width,
    ensures
        positions(n, rows, columns, base).len() == rows.len() * width,
        forall|k: int, j: int|
            #![trigger rows[k], columns[k][j]]
            0 <= k < rows.len() && 0 <= j < width ==> positions(n, rows, columns, base)[k * width
                + j] == ((row_start(n, rows[k] as int) - base + columns[k][j]) % 0x1_0000_0000)
                as u32,
    decreases rows.len(),
{
    if rows.len() > 0 {
        let rest = rows.drop_last();
        let part = columns.drop_last();
        let was = positions(n, rest, part, base);
        let all = positions(n, rows, columns, base);
        let m = rows.len() - 1;
        assert forall|k: int| 0 <= k < part.len() implies (#[trigger] part[k]).len() == width by {
            assert(part[k] == columns[k]);
        }
        lemma_positions_at(n, rest, part, base, width);
        assert(columns[m].len() == width);
        assert((m + 1) * width == m * width + width) by (nonlinear_arith);
        assert(was.len() == m * width);
        assert forall|k: int, j: int|
            #![trigger rows[k], columns[k][j]]
            0 <= k < rows.len() && 0 <= j < width implies all[k * width + j] == ((row_start(
            n,
            rows[k] as int,
        ) - base + columns[k][j]) % 0x1_0000_0000) as u32 by {
            if k < m {
                assert(rest[k] == rows[k] && part[k] == columns[k]);
                assert(part[k][j] == columns[k][j]);
                assert(0 <= k * width + j < m * width) by (nonlinear_arith)
                    requires
                        0 <= k < m,
                        0 <= j < width,
                ;
                assert(all[k * width + j] == was[k * width + j]);
            } else {
                assert(all[m * width + j] == row_positions(
                    row_start(n, rows.last() as int) - base,
                    columns.last(),
                )[j]);
            }
        }
    } else {
        assert(0 * width == 0) by (nonlinear_arith);
    }
}

/// The target cells take the points that were chosen for them, row by row: on a grid
/// whose points can be counted in 32 bits, cell `j` of row `k` takes the point
/// `columns[k][j]` of the source row `rows[k]`. The window to read holds all of these
/// source rows, and starts and ends with one of them.
pub proof fn law_cells_take_the_chosen_points(
    n: int,
    rows: Seq<usize>,
    columns: Seq<Seq<u32>>,
    width: int,
    k: int,
    j: int,
)
    requires
        columns.len() == rows.len(),
        forall|i: int| 0 <= i < rows.len() ==> #[trigger] rows[i] < 2 * n,
        forall|i: int| 0 <= i < columns.len() ==> (#[trigger] columns[i]).len() == width,
        0 <= k < rows.len(),
        0 <= j < width,
        columns[k][j] < row_points(n, rows[k] as int),
        points(n) <= 0x1_0000_0000,
    ensures
        ({
            let start = row_start(n, lowest(rows));
            let end = row_start(n, highest(rows) + 1);
            let map = positions(n, rows, columns, start);
            &&& map.len() == rows.len() * width
            &&& start + map[k * width + j] == row_start(n, rows[k] as int) + columns[k][j]
            &&& start <= row_start(n, rows[k] as int)
            &&& row_start(n, rows[k] + 1) <= end
            &&& exists|i: int|
                0 <= i < rows.len() && row_start(n, #[trigger] rows[i] as int) == start
            &&& exists|i: int|
                0 <= i < rows.len() && row_start(n, #[trigger] rows[i] + 1) == end
        }),
{
    let base = row_start(n, lowest(rows));
    lemma_row_range(rows);
    let a = choose|i: int| 0 <= i < rows.len() && #[trigger] rows[i] == lowest(rows);
    let b = choose|i: int| 0 <= i < rows.len() && #[trigger] rows[i] == highest(rows);
    assert(rows[a] < 2 * n && rows[b] < 2 * n && rows[k] < 2 * n);
    assert(row_start(n, rows[a] as int) == base);
    assert(row_start(n, rows[b] + 1) == row_start(n, highest(rows) + 1));
    lemma_row_start_ordered(n, 0, lowest(rows));
    lemma_row_start_ordered(n, lowest(rows), rows[k] as int);
    lemma_row_start_ordered(n, rows[k] + 1, highest(rows) + 1);
    lemma_row_start_ordered(n, rows[k] + 1, 2 * n);
    law_rows_fill_the_array(n, rows[k] as int);
    lemma_positions_at(n, rows, columns, base, width);
    let p = row_start(n, rows[k] as int) - base + columns[k][j];
    assert(0 <= p < 0x1_0000_0000);
    assert(positions(n, rows, columns, base)[k * width + j] == p);
}

/// An array is an octahedral grid exactly when `4 n^2 + 36 n` points make it up for
/// some `n` from 1 on, and the remark, if it claims an N, claims this one.
pub proof fn law_octahedral_arrays(wkt: Seq<char>, total: int)
    ensures
        octahedral_error(wkt, total) is None <==> exists|n: int|
            n >= 1 && #[trigger] points(n) == total && (claimed_n(wkt) matches Some(c) ==> c == n),
        forall|n: int| #[trigger] points(n) == 4 * (n * n) + 36 * n,
{
    assert forall|n: int| #[trigger] points(n) == 4 * (n * n) + 36 * n by {
        assert(4 * n * n == 4 * (n * n)) by (nonlinear_arith);
    }
    if octahedral_error(wkt, total) is None {
        let n = choose|n: int| is_octahedral(n, total);
        match claimed_n(wkt) {
            Some(c) => {
                assert(points(c as int) == total);
            },
            None => {
                assert(points(n) == total);
            },
        }
    }
    if exists|n: int|
        n >= 1 && #[trigger] points(n) == total && (claimed_n(wkt) matches Some(c) ==> c == n) {
        let n = choose|n: int|
            n >= 1 && #[trigger] points(n) == total && (claimed_n(wkt) matches Some(c) ==> c == n);
        assert(is_octahedral(n, total));
    }
}

/// The N that a remark claims is the number behind its first `Gaussian Grid O`.
pub proof fn law_claimed_n(wkt: Seq<char>, head: Seq<char>, digits: Seq<char>, tail: Seq<char>)
    requires
        wkt == head + "Gaussian Grid O"@ + digits + tail,
        text::find(wkt, "Gaussian Grid O"@) == Some(head.len() as int),
        digits.len() > 0,
        text::all_digits(digits),
        tail.len() > 0 ==> !text::is_digit(tail[0]),
    ensures
        claimed_n(wkt) == (if text::digits_value(digits) <= u32::MAX {
            Some(text::digits_value(digits))
        } else {
            None
        }),
{
    reveal_strlit("Gaussian Grid O");
    let rest = wkt.skip(head.len() as int + 15);
    assert(rest == digits + tail);
    let n = digits.len() as int;
    assert forall|i: int| 0 <= i < n implies text::is_digit(#[trigger] rest[i]) by {
        assert(rest[i] == digits[i]);
    }
    if n < rest.len() {
        assert(rest[n] == tail[0]);
    }
    number::lemma_leading_digits(rest, n);
    assert(rest.take(n) == digits);
    assert(text::is_digit(digits[0]));
}

} // verus!
