//! Regular latitude/longitude grids, and the way from a source grid to the
//! output grid.
//!
//! Open-Meteo spatial files do not store coordinate arrays. The grid is
//! reconstructed from the `crs_wkt` scalar (its `BBOX[south,west,north,east]`
//! gives the extent of the cell centres) and the array shape `(ny, nx)`.
//! Row 0 is the southernmost latitude, column 0 the westernmost longitude.
//!
//! Degrees are doubles. Where one is compared it is given by its order key: its
//! bits as a signed integer, or minus the bits of its size where it is negative.
//! Of two doubles the larger one has the larger key. Not-a-number has none.
use crate::binary64;
use crate::gaussian;
use crate::gaussian::{GaussianError, OctahedralGrid};
use crate::number;
use crate::om;
use crate::roundtrip;
use crate::text;
use std::ops::Range;
use vstd::arithmetic::power2::*;
use vstd::prelude::*;
use vstd::slice::slice_subrange;
use vstd::string::*;

verus! {

/// The order key of 90.
pub const KEY_90: i64 = 0x4056_8000_0000_0000;

/// The order key of 180.
pub const KEY_180: i64 = 0x4066_8000_0000_0000;

/// The order key of 360.
pub const KEY_360: i64 = 0x4076_8000_0000_0000;

/// The order key of 0.1, the output spacing used for reduced Gaussian grids when
/// none is given. O1280 spacing is about 0.07 degrees at the equator, so 0.1
/// slightly under-samples.
pub const DEFAULT_SPACING: i64 = 0x3fb9_9999_9999_999a;

/// The order key of 10.
pub const KEY_10: i64 = 0x4024_0000_0000_0000;

/// Numbers stand in the errors as they are shown to the user.
#[derive(Debug)]
pub enum GridError {
    NotGeographic(String),
    Rotated,
    NotRegular(Vec<u64>),
    Gaussian(GaussianError),
    BadResolution(String),
    ResolutionNotApplicable(String),
    NoBbox(String),
    BadBbox(String),
    NoOverlap(Extent),
    Antimeridian,
}

/// The latitudes and longitudes that a grid covers, as they are shown.
#[derive(Debug)]
pub struct Extent {
    pub lat_min: String,
    pub lat_max: String,
    pub lon_min: String,
    pub lon_max: String,
}

impl GridError {
    pub open spec fn text(self) -> Seq<char> {
        match self {
            GridError::NotGeographic(kind) => "crs_wkt is not a geographic CRS (starts with "@
                + text::quoted(kind@) + "); projected grids are not supported"@,
            GridError::Rotated => "grid is a rotated lat/lon grid (DERIVINGCONVERSION in crs_wkt); not supported"@,
            GridError::NotRegular(dims) => "grid is neither a regular lat/lon grid nor an octahedral reduced Gaussian grid (shape "@
                + om::shape_text(dims@) + ")"@,
            GridError::Gaussian(e) => e.text(),
            GridError::BadResolution(res) => "--resolution must be > 0 and <= 10 degrees, got "@
                + res@,
            GridError::ResolutionNotApplicable(model) => "--resolution only applies to reduced Gaussian models; "@
                + model@ + " is already a regular grid"@,
            GridError::NoBbox(wkt) => "crs_wkt has no parsable BBOX[...]: "@ + wkt@,
            GridError::BadBbox(s) => "invalid bbox "@ + text::quoted(s@)
                + ": expected west,south,east,north in degrees"@,
            GridError::NoOverlap(x) => "bbox does not intersect the model grid (grid covers lat "@
                + x.lat_min@ + ".."@ + x.lat_max@ + ", lon "@ + x.lon_min@ + ".."@ + x.lon_max@
                + ")"@,
            GridError::Antimeridian => "bbox crosses the antimeridian (west > east after normalisation); not supported"@,
        }
    }

    pub fn message(&self) -> (r: String)
        ensures
            r@ == self.text(),
    {
        match self {
            GridError::NotGeographic(kind) => {
                let mut out = "crs_wkt is not a geographic CRS (starts with ".to_owned();
                out.append(text::quote(kind.as_str()).as_str());
                out.append("); projected grids are not supported");
                out
            },
            GridError::Rotated => "grid is a rotated lat/lon grid (DERIVINGCONVERSION in crs_wkt); not supported".to_owned(),
            GridError::NotRegular(dims) => {
                let mut out = "grid is neither a regular lat/lon grid nor an octahedral reduced Gaussian grid (shape ".to_owned();
                out.append(om::shape(dims.as_slice()).as_str());
                out.append(")");
                out
            },
            GridError::Gaussian(e) => e.message(),
            GridError::BadResolution(res) => {
                let mut out = "--resolution must be > 0 and <= 10 degrees, got ".to_owned();
                out.append(res.as_str());
                out
            },
            GridError::ResolutionNotApplicable(model) => {
                let mut out = "--resolution only applies to reduced Gaussian models; ".to_owned();
                out.append(model.as_str());
                out.append(" is already a regular grid");
                out
            },
            GridError::NoBbox(wkt) => {
                let mut out = "crs_wkt has no parsable BBOX[...]: ".to_owned();
                out.append(wkt.as_str());
                out
            },
            GridError::BadBbox(s) => {
                let mut out = "invalid bbox ".to_owned();
                out.append(text::quote(s.as_str()).as_str());
                out.append(": expected west,south,east,north in degrees");
                out
            },
            GridError::NoOverlap(x) => {
                let mut out = "bbox does not intersect the model grid (grid covers lat ".to_owned();
                out.append(x.lat_min.as_str());
                out.append("..");
                out.append(x.lat_max.as_str());
                out.append(", lon ");
                out.append(x.lon_min.as_str());
                out.append("..");
                out.append(x.lon_max.as_str());
                out.append(")");
                out
            },
            GridError::Antimeridian => "bbox crosses the antimeridian (west > east after normalisation); not supported".to_owned(),
        }
    }
}

/// A letter, a digit or an underscore of ASCII.
pub open spec fn is_word_char(c: char) -> bool {
    'a' <= c <= 'z' || 'A' <= c <= 'Z' || '0' <= c <= '9' || c == '_'
}

/// `s` up to its first character that is no letter, digit or underscore.
pub open spec fn leading_word(s: Seq<char>) -> Seq<char>
    decreases s.len(),
{
    if s.len() > 0 && is_word_char(s[0]) {
        seq![s[0]] + leading_word(s.drop_first())
    } else {
        Seq::empty()
    }
}

/// The keyword that a WKT text starts with.
pub open spec fn wkt_kind(wkt: Seq<char>) -> Seq<char> {
    leading_word(text::trim_start(wkt))
}

/// `s` without the white space around each of the pieces.
pub open spec fn trimmed_pieces(pieces: Seq<Seq<char>>) -> Seq<Seq<char>> {
    pieces.map_values(|p: Seq<char>| text::trimmed(p))
}

/// Four numbers in a list, each as text.
pub open spec fn four_numbers(s: Seq<char>) -> Option<Seq<Seq<char>>> {
    let fields = trimmed_pieces(text::split(s, ','));
    if fields.len() == 4 && (forall|i: int|
        0 <= i < fields.len() ==> number::is_double_text(#[trigger] fields[i])) {
        Some(fields)
    } else {
        None
    }
}

/// The numbers of the first `BBOX[south,west,north,east]` of a WKT text.
pub open spec fn wkt_bbox(wkt: Seq<char>) -> Option<Seq<Seq<char>>> {
    match text::find(wkt, "BBOX["@) {
        Some(i) => {
            let rest = wkt.skip(i + "BBOX["@.len());
            match text::find(rest, "]"@) {
                Some(j) => four_numbers(rest.take(j)),
                None => None,
            }
        },
        None => None,
    }
}

proof fn lemma_leading_word(s: Seq<char>, n: int)
    requires
        0 <= n <= s.len(),
        forall|i: int| 0 <= i < n ==> is_word_char(#[trigger] s[i]),
        n < s.len() ==> !is_word_char(s[n]),
    ensures
        leading_word(s) == s.take(n),
    decreases n,
{
    if n > 0 {
        let t = s.drop_first();
        assert forall|i: int| 0 <= i < n - 1 implies is_word_char(#[trigger] t[i]) by {
            assert(is_word_char(s[i + 1]));
        }
        lemma_leading_word(t, n - 1);
        assert(seq![s[0]] + t.take(n - 1) == s.take(n));
    } else {
        assert(s.take(0) == Seq::<char>::empty());
    }
}

fn kind_of(wkt: &[char]) -> (r: String)
    ensures
        r@ == wkt_kind(wkt@),
{
    let t = text::trim_start_chars(wkt);
    let mut n: usize = 0;
    while n < t.len() && (('a' <= t[n] && t[n] <= 'z') || ('A' <= t[n] && t[n] <= 'Z') || ('0' <= t[n]
        && t[n] <= '9') || t[n] == '_')
        invariant
            n <= t.len(),
            forall|i: int| 0 <= i < n ==> is_word_char(#[trigger] t@[i]),
        decreases t.len() - n,
    {
        n += 1;
    }
    proof {
        lemma_leading_word(t@, n as int);
        assert(t@.subrange(0, n as int) == t@.take(n as int));
    }
    text::string_of(slice_subrange(t, 0, n))
}

fn numbers_of(s: &[char]) -> (r: Option<Vec<String>>)
    ensures
        match r {
            Some(v) => four_numbers(s@) == Some(text::texts(v@)),
            None => four_numbers(s@) is None,
        },
{
    let pieces = text::split_chars(s, ',');
    let ghost fields = trimmed_pieces(text::split(s@, ','));
    if pieces.len() != 4 {
        return None;
    }
    let mut out: Vec<String> = Vec::new();
    let mut i: usize = 0;
    while i < pieces.len()
        invariant
            i <= pieces.len(),
            pieces@.len() == 4,
            fields == trimmed_pieces(text::split(s@, ',')),
            fields.len() == 4,
            forall|k: int|
                0 <= k < pieces@.len() ==> (#[trigger] pieces@[k])@ == text::split(s@, ',')[k],
            out@.len() == i,
            forall|k: int| 0 <= k < i ==> (#[trigger] out@[k])@ == fields[k],
            forall|k: int| 0 <= k < i ==> number::is_double_text(#[trigger] fields[k]),
        decreases pieces.len() - i,
    {
        let t = text::trim_chars(pieces[i].as_slice());
        assert(t@ == fields[i as int]);
        if !number::is_double_chars(t) {
            assert(!number::is_double_text(fields[i as int]));
            return None;
        }
        out.push(text::string_of(t));
        i += 1;
    }
    assert(text::texts(out@) == fields);
    Some(out)
}

fn bbox_of_wkt(wkt: &[char]) -> (r: Option<Vec<String>>)
    ensures
        match r {
            Some(v) => wkt_bbox(wkt@) == Some(text::texts(v@)),
            None => wkt_bbox(wkt@) is None,
        },
{
    let open = text::chars_of("BBOX[");
    let close = text::chars_of("]");
    match text::find_chars(wkt, open.as_slice()) {
        Some(i) => {
            let rest = slice_subrange(wkt, i + open.len(), wkt.len());
            assert(rest@ == wkt@.skip(i + open@.len()));
            match text::find_chars(rest, close.as_slice()) {
                Some(j) => {
                    let list = slice_subrange(rest, 0, j);
                    assert(list@ == rest@.take(j as int));
                    numbers_of(list)
                },
                None => None,
            }
        },
        None => None,
    }
}

/// A regular grid: its shape and the extent of its cell centres, each number as
/// it is written in `crs_wkt`.
#[derive(Debug)]
pub struct RegularGrid {
    pub ny: usize,
    pub nx: usize,
    pub south: String,
    pub west: String,
    pub north: String,
    pub east: String,
}

/// The array has rows and columns, and more than one of each.
pub open spec fn is_regular_shape(dims: Seq<u64>) -> bool {
    dims.len() == 2 && dims[0] >= 2 && dims[1] >= 2
}

pub open spec fn is_geographic(wkt: Seq<char>) -> bool {
    wkt_kind(wkt) == "GEOGCRS"@ || wkt_kind(wkt) == "GEOGCS"@
}

pub open spec fn is_rotated(wkt: Seq<char>) -> bool {
    text::find(wkt, "DERIVINGCONVERSION"@) is Some
}

impl RegularGrid {
    pub open spec fn extent(self) -> Seq<Seq<char>> {
        seq![self.south@, self.west@, self.north@, self.east@]
    }

    pub fn from_crs_wkt(wkt: &str, dims: &[u64]) -> (r: Result<Self, GridError>)
        requires
            forall|i: int| 0 <= i < dims@.len() ==> #[trigger] dims@[i] <= usize::MAX,
        ensures
            match r {
                Ok(g) => {
                    &&& is_geographic(wkt@)
                    &&& !is_rotated(wkt@)
                    &&& is_regular_shape(dims@)
                    &&& g.ny == dims@[0]
                    &&& g.nx == dims@[1]
                    &&& wkt_bbox(wkt@) == Some(g.extent())
                },
                Err(GridError::NotGeographic(kind)) => !is_geographic(wkt@) && kind@ == wkt_kind(
                    wkt@,
                ),
                Err(GridError::Rotated) => is_geographic(wkt@) && is_rotated(wkt@),
                Err(GridError::NotRegular(d)) => is_geographic(wkt@) && !is_rotated(wkt@)
                    && !is_regular_shape(dims@) && d@ == dims@,
                Err(GridError::NoBbox(w)) => is_geographic(wkt@) && !is_rotated(wkt@)
                    && is_regular_shape(dims@) && wkt_bbox(wkt@) is None && w@ == wkt@,
                Err(_) => false,
            },
    {
        let c = text::chars_of(wkt);
        let kind = kind_of(c.as_slice());
        if !text::same(kind.as_str(), "GEOGCRS") && !text::same(kind.as_str(), "GEOGCS") {
            return Err(GridError::NotGeographic(kind));
        }
        let rotated = text::chars_of("DERIVINGCONVERSION");
        if text::find_chars(c.as_slice(), rotated.as_slice()).is_some() {
            return Err(GridError::Rotated);
        }
        if dims.len() != 2 || dims[0] < 2 || dims[1] < 2 {
            return Err(GridError::NotRegular(om::copy_dims(dims)));
        }
        match bbox_of_wkt(c.as_slice()) {
            None => Err(GridError::NoBbox(wkt.to_owned())),
            Some(v) => {
                assert(text::texts(v@).len() == 4);
                let south = v[0].as_str().to_owned();
                let west = v[1].as_str().to_owned();
                let north = v[2].as_str().to_owned();
                let east = v[3].as_str().to_owned();
                assert(dims@[0] <= usize::MAX && dims@[1] <= usize::MAX);
                let g = RegularGrid {
                    ny: dims[0] as usize,
                    nx: dims[1] as usize,
                    south,
                    west,
                    north,
                    east,
                };
                assert(g.extent() == text::texts(v@));
                Ok(g)
            },
        }
    }
}

/// Inclusive index range of the grid points that lie in a box, where the box
/// reaches from the position `lo` to the position `hi` and the grid has `n` points.
pub fn index_window(n: usize, lo: i64, hi: i64) -> (r: Option<Range<usize>>)
    ensures
        match r {
            Some(w) => w.start < w.end <= n && (forall|i: int|
                w.start <= i < w.end <==> 0 <= i < n && #[trigger] in_bounds(lo, hi, i)),
            None => forall|i: int| !(0 <= i < n && #[trigger] in_bounds(lo, hi, i)),
        },
{
    let start: i128 = if lo < 0 {
        0
    } else {
        lo as i128
    };
    let last: i128 = n as i128 - 1;
    let end: i128 = if (hi as i128) < last {
        hi as i128
    } else {
        last
    };
    if start > end {
        return None;
    }
    Some(Range { start: start as usize, end: end as usize + 1 })
}

pub open spec fn in_bounds(lo: i64, hi: i64, i: int) -> bool {
    lo <= i <= hi
}

/// A bounding box, `west,south,east,north`, by the order keys of its degrees.
#[derive(Debug, Clone, Copy, PartialEq, Eq, Structural)]
pub struct BBox {
    pub west: i64,
    pub south: i64,
    pub east: i64,
    pub north: i64,
}

/// The degree with the given order key is there and lies in a range.
pub open spec fn key_between(key: Option<i64>, lo: int, hi: int) -> bool {
    key matches Some(k) && lo <= k <= hi
}

/// The degrees of a box lie in their ranges, and south is not behind north.
pub open spec fn is_bbox(keys: Seq<Option<i64>>) -> bool {
    &&& keys.len() == 4
    &&& key_between(keys[0], -KEY_180 as int, KEY_360 as int)
    &&& key_between(keys[1], -KEY_90 as int, KEY_90 as int)
    &&& key_between(keys[2], -KEY_180 as int, KEY_360 as int)
    &&& key_between(keys[3], -KEY_90 as int, KEY_90 as int)
    &&& keys[1]->0 <= keys[3]->0
}

fn has_key_between(key: Option<i64>, lo: i64, hi: i64) -> (r: bool)
    ensures
        r == key_between(key, lo as int, hi as int),
{
    match key {
        Some(k) => lo <= k && k <= hi,
        None => false,
    }
}

impl BBox {
    /// The four numbers of a bounding box, as text.
    pub fn fields(s: &str) -> (r: Result<Vec<String>, GridError>)
        ensures
            match r {
                Ok(v) => four_numbers(s@) == Some(text::texts(v@)),
                Err(GridError::BadBbox(b)) => four_numbers(s@) is None && b@ == s@,
                Err(_) => false,
            },
    {
        let c = text::chars_of(s);
        match numbers_of(c.as_slice()) {
            Some(v) => Ok(v),
            None => Err(GridError::BadBbox(s.to_owned())),
        }
    }

    /// The bounding box `s` from the order keys of its numbers.
    pub fn from_keys(s: &str, keys: &[Option<i64>]) -> (r: Result<BBox, GridError>)
        ensures
            match r {
                Ok(b) => is_bbox(keys@) && keys@ == seq![
                    Some(b.west),
                    Some(b.south),
                    Some(b.east),
                    Some(b.north),
                ],
                Err(GridError::BadBbox(t)) => !is_bbox(keys@) && t@ == s@,
                Err(_) => false,
            },
    {
        if keys.len() == 4 && has_key_between(keys[0], -KEY_180, KEY_360) && has_key_between(
            keys[1],
            -KEY_90,
            KEY_90,
        ) && has_key_between(keys[2], -KEY_180, KEY_360) && has_key_between(
            keys[3],
            -KEY_90,
            KEY_90,
        ) {
            if let (Some(west), Some(south), Some(east), Some(north)) = (
                keys[0],
                keys[1],
                keys[2],
                keys[3],
            ) {
                if south <= north {
                    let b = BBox { west, south, east, north };
                    assert(keys@ == seq![Some(b.west), Some(b.south), Some(b.east), Some(b.north)]);
                    return Ok(b);
                }
            }
        }
        Err(GridError::BadBbox(s.to_owned()))
    }
}

/// How a box lies on the circle of longitudes.
#[derive(Debug, Clone, Copy, PartialEq, Eq, Structural)]
pub enum Meridians {
    /// It goes from its west to its east, both brought to -180..180.
    Between,
    /// It goes all around.
    All,
}

impl BBox {
    /// It goes over the antimeridian eastwards: it starts at 180 or west of it,
    /// and ends east of it.
    pub open spec fn passes_180(self) -> bool {
        self.west <= KEY_180 < self.east
    }

    /// A box must not cross the antimeridian, unless it goes all around. `west`
    /// and `east` are the order keys of its longitudes brought to -180..180,
    /// where those of a box that passes 180 are in order only if it is a full
    /// circle or longer.
    pub fn meridians(&self, west: i64, east: i64) -> (r: Result<Meridians, GridError>)
        ensures
            match r {
                Ok(m) => west <= east && m == (if self.passes_180() {
                    Meridians::All
                } else {
                    Meridians::Between
                }),
                Err(GridError::Antimeridian) => west > east,
                Err(_) => false,
            },
    {
        if west > east {
            Err(GridError::Antimeridian)
        } else if self.west <= KEY_180 && KEY_180 < self.east {
            Ok(Meridians::All)
        } else {
            Ok(Meridians::Between)
        }
    }
}

/// How to obtain each output slab from a step file.
#[derive(Debug, PartialEq)]
pub enum Sampler {
    /// Crop a 2-D `(ny, nx)` array: rows are latitudes south to north.
    Crop2d { rows: Range<usize>, cols: Range<usize> },
    /// Read `window` of a 1-D array and pick `map[k]` for output cell `k`.
    Nearest1d { window: Range<u64>, map: Vec<u32> },
}

/// A range as it is shown.
pub open spec fn range_text(start: int, end: int) -> Seq<char> {
    text::dec(start as nat) + ".."@ + text::dec(end as nat)
}

impl Sampler {
    pub open spec fn well_formed(self) -> bool {
        self matches Sampler::Nearest1d { window, .. } ==> window.start <= window.end
    }

    pub open spec fn text(self) -> Seq<char> {
        match self {
            Sampler::Crop2d { rows, cols } => "crop rows "@ + range_text(
                rows.start as int,
                rows.end as int,
            ) + " cols "@ + range_text(cols.start as int, cols.end as int),
            Sampler::Nearest1d { window, .. } => "nearest-neighbour from "@ + text::dec(
                (window.end - window.start) as nat,
            ) + " source points"@,
        }
    }

    pub fn describe(&self) -> (r: String)
        requires
            self.well_formed(),
        ensures
            r@ == self.text(),
    {
        match self {
            Sampler::Crop2d { rows, cols } => {
                let mut out = "crop rows ".to_owned();
                push_range(&mut out, rows.start, rows.end);
                out.append(" cols ");
                push_range(&mut out, cols.start, cols.end);
                out
            },
            Sampler::Nearest1d { window, .. } => {
                let mut out = "nearest-neighbour from ".to_owned();
                text::push_dec(&mut out, (window.end - window.start) as u128);
                out.append(" source points");
                out
            },
        }
    }
}

fn push_range(out: &mut String, start: usize, end: usize)
    ensures
        final(out)@ == old(out)@ + range_text(start as int, end as int),
{
    text::push_dec(out, start as u128);
    out.append("..");
    text::push_dec(out, end as u128);
    assert(out@ == old(out)@ + range_text(start as int, end as int));
}

/// A box in the terms of a regular grid: the order keys of its west and east,
/// brought to -180..180, and the positions between which its rows and its
/// columns lie.
#[derive(Debug, Clone, Copy)]
pub struct GridBox {
    pub west: i64,
    pub east: i64,
    pub south_row: i64,
    pub north_row: i64,
    pub west_col: i64,
    pub east_col: i64,
}


impl RegularGrid {
    /// The grid has a point in row `i` and column `j`, and it lies in the box.
    pub open spec fn point_in_box(self, b: GridBox, i: int, j: int) -> bool {
        &&& 0 <= i < self.ny
        &&& 0 <= j < self.nx
        &&& b.south_row <= i <= b.north_row
        &&& b.west_col <= j <= b.east_col
    }

    /// Cell-index window covering a box (or the whole grid when `None`).
    /// `extent` is what the grid covers.
    pub fn subset(&self, bounds: Option<&GridBox>, extent: Extent) -> (r: Result<
        Sampler,
        GridError,
    >)
        ensures
            match r {
                Ok(Sampler::Crop2d { rows, cols }) => match bounds {
                    None => rows.start == 0 && rows.end == self.ny && cols.start == 0 && cols.end
                        == self.nx,
                    Some(b) => {
                        &&& b.west <= b.east
                        &&& rows.start < rows.end <= self.ny
                        &&& cols.start < cols.end <= self.nx
                        &&& forall|i: int, j: int|
                            rows.start <= i < rows.end && cols.start <= j < cols.end
                                <==> #[trigger] self.point_in_box(*b, i, j)
                    },
                },
                Ok(_) => false,
                Err(GridError::Antimeridian) => bounds matches Some(b) && b.west > b.east,
                Err(GridError::NoOverlap(x)) => {
                    &&& x == extent
                    &&& bounds matches Some(b) && b.west <= b.east && (forall|i: int, j: int|
                        !#[trigger] self.point_in_box(*b, i, j))
                },
                Err(_) => false,
            },
    {
        match bounds {
            None => Ok(
                Sampler::Crop2d {
                    rows: Range { start: 0, end: self.ny },
                    cols: Range { start: 0, end: self.nx },
                },
            ),
            Some(b) => {
                if b.west > b.east {
                    return Err(GridError::Antimeridian);
                }
                let rows = match index_window(self.ny, b.south_row, b.north_row) {
                    Some(w) => w,
                    None => {
                        proof {
                            assert forall|i: int, j: int| !#[trigger] self.point_in_box(*b, i, j) by {
                                assert(in_bounds(b.south_row, b.north_row, i) <==> b.south_row <= i
                                    <= b.north_row);
                            }
                        }
                        return Err(GridError::NoOverlap(extent));
                    },
                };
                let cols = match index_window(self.nx, b.west_col, b.east_col) {
                    Some(w) => w,
                    None => {
                        proof {
                            assert forall|i: int, j: int| !#[trigger] self.point_in_box(*b, i, j) by {
                                assert(in_bounds(b.west_col, b.east_col, j) <==> b.west_col <= j
                                    <= b.east_col);
                            }
                        }
                        return Err(GridError::NoOverlap(extent));
                    },
                };
                proof {
                    assert forall|i: int, j: int|
                        rows.start <= i < rows.end && cols.start <= j < cols.end
                            <==> #[trigger] self.point_in_box(*b, i, j) by {
                        assert(in_bounds(b.south_row, b.north_row, i) <==> b.south_row <= i
                            <= b.north_row);
                        assert(in_bounds(b.west_col, b.east_col, j) <==> b.west_col <= j
                            <= b.east_col);
                        if self.point_in_box(*b, i, j) {
                            assert(rows.start <= i < rows.end);
                            assert(cols.start <= j < cols.end);
                        }
                    }
                }
                Ok(Sampler::Crop2d { rows, cols })
            },
        }
    }
}

/// Where the data comes from and how it maps onto the output lat/lon grid.
#[derive(Debug)]
pub enum SourceGrid {
    Regular(RegularGrid),
    ReducedGaussian(OctahedralGrid),
}

/// An array of one row is a reduced Gaussian grid.
pub open spec fn is_one_row(dims: Seq<u64>) -> bool {
    dims.len() == 2 && dims[0] == 1
}

/// A degree given on the command line: its order key, and as it is shown.
#[derive(Debug)]
pub struct Degrees {
    pub key: Option<i64>,
    pub shown: String,
}

impl SourceGrid {
    pub fn detect(wkt: &str, dims: &[u64]) -> (r: Result<Self, GridError>)
        requires
            forall|i: int| 0 <= i < dims@.len() ==> #[trigger] dims@[i] <= usize::MAX,
            is_one_row(dims@) ==> gaussian::can_be_held(wkt@, dims@[1] as int),
        ensures
            match r {
                Ok(SourceGrid::ReducedGaussian(g)) => {
                    &&& is_one_row(dims@)
                    &&& gaussian::octahedral_error(wkt@, dims@[1] as int) is None
                    &&& g.well_formed()
                    &&& gaussian::is_octahedral(g.n as int, dims@[1] as int)
                },
                Ok(SourceGrid::Regular(g)) => {
                    &&& is_geographic(wkt@)
                    &&& !is_rotated(wkt@)
                    &&& is_regular_shape(dims@)
                    &&& g.ny == dims@[0]
                    &&& g.nx == dims@[1]
                    &&& wkt_bbox(wkt@) == Some(g.extent())
                },
                Err(GridError::Gaussian(e)) => is_one_row(dims@) && gaussian::octahedral_error(
                    wkt@,
                    dims@[1] as int,
                ) == Some(e),
                Err(GridError::NotGeographic(kind)) => !is_one_row(dims@) && !is_geographic(wkt@)
                    && kind@ == wkt_kind(wkt@),
                Err(GridError::Rotated) => !is_one_row(dims@) && is_geographic(wkt@) && is_rotated(
                    wkt@,
                ),
                Err(GridError::NotRegular(d)) => !is_one_row(dims@) && is_geographic(wkt@)
                    && !is_rotated(wkt@) && !is_regular_shape(dims@) && d@ == dims@,
                Err(GridError::NoBbox(w)) => is_geographic(wkt@) && !is_rotated(wkt@)
                    && is_regular_shape(dims@) && wkt_bbox(wkt@) is None && w@ == wkt@,
                Err(_) => false,
            },
    {
        if dims.len() == 2 && dims[0] == 1 {
            proof {
                lemma_one_row(dims@);
            }
            return match OctahedralGrid::from_crs_wkt(wkt, dims) {
                Ok(g) => Ok(SourceGrid::ReducedGaussian(g)),
                Err(e) => Err(GridError::Gaussian(e)),
            };
        }
        match RegularGrid::from_crs_wkt(wkt, dims) {
            Ok(g) => Ok(SourceGrid::Regular(g)),
            Err(e) => Err(e),
        }
    }

    /// The grid in words. `dlat` and `dlon` are the spacings of a regular grid.
    pub fn describe(&self, dlat: &str, dlon: &str) -> (r: String)
        requires
            self matches SourceGrid::ReducedGaussian(g) ==> g.well_formed(),
        ensures
            r@ == match self {
                SourceGrid::Regular(g) => "regular "@ + text::dec(g.ny as nat) + "x"@ + text::dec(
                    g.nx as nat,
                ) + " ("@ + dlat@ + "° x "@ + dlon@ + "°)"@,
                SourceGrid::ReducedGaussian(g) => "octahedral reduced Gaussian O"@ + text::dec(
                    g.n as nat,
                ) + " ("@ + text::dec(gaussian::points(g.n as int) as nat) + " points)"@,
            },
    {
        match self {
            SourceGrid::Regular(g) => {
                let mut out = "regular ".to_owned();
                text::push_dec(&mut out, g.ny as u128);
                out.append("x");
                text::push_dec(&mut out, g.nx as u128);
                out.append(" (");
                out.append(dlat);
                out.append("° x ");
                out.append(dlon);
                out.append("°)");
                out
            },
            SourceGrid::ReducedGaussian(g) => {
                let mut out = "octahedral reduced Gaussian O".to_owned();
                text::push_dec(&mut out, g.n as u128);
                out.append(" (");
                text::push_dec(&mut out, g.total() as u128);
                out.append(" points)");
                out
            },
        }
    }

    /// `resolution` is for reduced Gaussian sources only, where it must lie
    /// between 0 and 10 degrees; regular ones are cropped, never resampled. The
    /// result is the order key of the output spacing, where there is resampling.
    pub fn check_resolution(&self, resolution: Option<&Degrees>, model: &str) -> (r: Result<
        Option<i64>,
        GridError,
    >)
        ensures
            match r {
                Ok(spacing) => match (self, resolution) {
                    (SourceGrid::Regular(_), _) => resolution is None && spacing is None,
                    (SourceGrid::ReducedGaussian(_), Some(d)) => key_between(
                        d.key,
                        1,
                        KEY_10 as int,
                    ) && spacing == d.key,
                    (SourceGrid::ReducedGaussian(_), None) => spacing == Some(DEFAULT_SPACING),
                },
                Err(GridError::ResolutionNotApplicable(m)) => self is Regular && resolution is Some
                    && m@ == model@,
                Err(GridError::BadResolution(s)) => self is ReducedGaussian && (
                resolution matches Some(d) && !key_between(d.key, 1, KEY_10 as int) && s@
                    == d.shown@),
                Err(_) => false,
            },
    {
        match (self, resolution) {
            (SourceGrid::Regular(_), None) => Ok(None),
            (SourceGrid::ReducedGaussian(_), None) => Ok(Some(DEFAULT_SPACING)),
            (SourceGrid::Regular(_), Some(_)) => Err(
                GridError::ResolutionNotApplicable(model.to_owned()),
            ),
            (SourceGrid::ReducedGaussian(_), Some(d)) => if has_key_between(d.key, 1, KEY_10) {
                Ok(d.key)
            } else {
                Err(GridError::BadResolution(d.shown.as_str().to_owned()))
            },
        }
    }

    /// The `source_grid` and `regrid_method` attributes of resampled output.
    pub fn regrid_attributes(&self) -> (r: Option<(String, &'static str)>)
        ensures
            match r {
                Some((grid, method)) => self matches SourceGrid::ReducedGaussian(g) && grid@
                    == "octahedral reduced Gaussian O"@ + text::dec(g.n as nat) && method@
                    == "nearest"@,
                None => self is Regular,
            },
    {
        match self {
            SourceGrid::Regular(_) => None,
            SourceGrid::ReducedGaussian(g) => {
                let mut out = "octahedral reduced Gaussian O".to_owned();
                text::push_dec(&mut out, g.n as u128);
                Some((out, "nearest"))
            },
        }
    }
}

proof fn lemma_one_row(dims: Seq<u64>)
    requires
        is_one_row(dims),
    ensures
        gaussian::cells(dims) == dims[1],
        gaussian::countable(dims),
{
    reveal_with_fuel(gaussian::cells, 3);
    assert(dims.drop_last().drop_last().len() == 0);
    assert(dims.drop_last().last() == dims[0]);
    assert(gaussian::cells(dims.drop_last()) == 1 * dims[0]);
    assert(gaussian::cells(dims) == 1 * dims[1]);
    assert forall|k: int| 0 <= k <= dims.len() implies gaussian::cells(#[trigger] dims.take(k))
        <= u64::MAX by {
        if k == 0 {
            assert(gaussian::cells(dims.take(0)) == 1);
        } else if k == 1 {
            assert(dims.take(1) == dims.drop_last());
        } else {
            assert(dims.take(2) == dims);
        }
    }
}

/// The order key of the double `m * 2^e` with all its 53 bits.
pub open spec fn key_of_double(v: (nat, int)) -> int {
    (v.1 + 1074) * 0x10_0000_0000_0000 + v.0
}

/// The spacing that is used when none is given is 0.1 degrees, which could be
/// given as well.
pub proof fn law_the_default_spacing_is_a_tenth()
    ensures
        DEFAULT_SPACING == key_of_double(binary64::nearest_double(1, 10)),
        key_between(Some(DEFAULT_SPACING), 1, KEY_10 as int),
{
    lemma2_to64();
    lemma2_to64_rest();
    assert(binary64::is_last_place(1, 10, -56));
    binary64::lemma_last_place_unique(1, 10, -56);
    let n = pow2(56);
    binary64::lemma_round_half_even(n, 10, 0x19_9999_9999_9999);
}

/// The whole numbers from `lo` to `hi`.
pub open spec fn whole_numbers(lo: int, hi: int) -> Seq<int> {
    Seq::new((if lo <= hi { hi - lo + 1 } else { 0 }) as nat, |k: int| lo + k)
}

/// The multiples of the resolution on one axis, from the first to the last one.
pub fn axis_steps(lo: i64, hi: i64) -> (r: Vec<i64>)
    ensures
        r@.map_values(|x: i64| x as int) == whole_numbers(lo as int, hi as int),
        forall|x: i64| #[trigger] r@.contains(x) <==> lo <= x <= hi,
        forall|i: int, j: int| 0 <= i < j < r@.len() ==> r@[i] < r@[j],
{
    let ghost all = whole_numbers(lo as int, hi as int);
    let mut out: Vec<i64> = Vec::new();
    let mut next: i128 = lo as i128;
    while next <= hi as i128
        invariant
            lo <= next,
            next <= hi + 1 || next == lo,
            all == whole_numbers(lo as int, hi as int),
            out@.len() == next - lo,
            forall|k: int| 0 <= k < out@.len() ==> #[trigger] out@[k] == lo + k,
        decreases hi + 1 - next,
    {
        out.push(next as i64);
        next += 1;
    }
    assert(out@.map_values(|x: i64| x as int) == all);
    assert forall|x: i64| #[trigger] out@.contains(x) <==> lo <= x <= hi by {
        if lo <= x <= hi {
            assert(out@[x - lo] == x);
        }
    }
    out
}

/// The steps of an axis are every whole number from the first to the last one, and
/// no other, ascending: every multiple of the resolution in a box is an output
/// coordinate.
pub proof fn law_axis_holds_what_lies_in_the_box(lo: int, hi: int)
    ensures
        forall|x: int| #[trigger] whole_numbers(lo, hi).contains(x) <==> lo <= x <= hi,
        forall|i: int, j: int|
            0 <= i < j < whole_numbers(lo, hi).len() ==> whole_numbers(lo, hi)[i]
                < whole_numbers(lo, hi)[j],
{
    let all = whole_numbers(lo, hi);
    assert forall|x: int| #[trigger] all.contains(x) <==> lo <= x <= hi by {
        if lo <= x <= hi {
            assert(all[x - lo] == x);
        }
    }
}

/// Degrees make a box exactly when there are four of them, none of them not-a-number,
/// the longitudes within -180 and 360, the latitudes within -90 and 90, and south not
/// north of north.
pub proof fn law_boxes(keys: Seq<Option<i64>>)
    ensures
        is_bbox(keys) <==> keys.len() == 4 && (forall|i: int|
            0 <= i < 4 ==> #[trigger] keys[i] is Some) && (forall|i: int|
            (i == 0 || i == 2) ==> -0x4066_8000_0000_0000 <= (#[trigger] keys[i])->0
                <= 0x4076_8000_0000_0000) && (forall|i: int|
            (i == 1 || i == 3) ==> -0x4056_8000_0000_0000 <= (#[trigger] keys[i])->0
                <= 0x4056_8000_0000_0000) && keys[1]->0 <= keys[3]->0,
{
    if keys.len() == 4 {
        if forall|i: int| 0 <= i < 4 ==> #[trigger] keys[i] is Some {
            assert(keys[0] is Some && keys[1] is Some && keys[2] is Some && keys[3] is Some);
        }
        if is_bbox(keys) {
            assert forall|i: int| 0 <= i < 4 implies #[trigger] keys[i] is Some by {
                assert(i == 0 || i == 1 || i == 2 || i == 3);
            }
        }
    }
}

/// The axes of a resampled box must not be empty. `shown` is the box and
/// `resolution` the spacing.
pub fn check_axes(rows: usize, cols: usize, shown: &str, resolution: &str) -> (r: Result<
    (),
    GridError,
>)
    ensures
        match r {
            Ok(_) => rows > 0 && cols > 0,
            Err(GridError::BadBbox(s)) => (rows == 0 || cols == 0) && s@ == shown@
                + " is narrower than resolution "@ + resolution@,
            Err(_) => false,
        },
{
    if rows == 0 || cols == 0 {
        let mut s = shown.to_owned();
        s.append(" is narrower than resolution ");
        s.append(resolution);
        return Err(GridError::BadBbox(s));
    }
    Ok(())
}

/// A grid point lies in a box exactly when its row and its column do.
pub proof fn law_points_of_a_crop(g: RegularGrid, b: GridBox, i: int, j: int)
    ensures
        g.point_in_box(b, i, j) <==> (0 <= i && b.south_row <= i && i <= b.north_row && i < g.ny)
            && (0 <= j && b.west_col <= j && j <= b.east_col && j < g.nx),
{
}

/// Four numbers, as they are listed with commas and whatever white space, are read in
/// their order.
pub proof fn law_four_numbers(parts: Seq<Seq<char>>)
    requires
        parts.len() == 4,
        forall|k: int, i: int|
            0 <= k < parts.len() && 0 <= i < parts[k].len() ==> #[trigger] parts[k][i] != ',',
        forall|k: int|
            0 <= k < parts.len() ==> number::is_double_text(text::trimmed(#[trigger] parts[k])),
    ensures
        four_numbers(parts[0] + ","@ + parts[1] + ","@ + parts[2] + ","@ + parts[3]) == Some(
            seq![
                text::trimmed(parts[0]),
                text::trimmed(parts[1]),
                text::trimmed(parts[2]),
                text::trimmed(parts[3]),
            ],
        ),
{
    reveal_strlit(",");
    let sep = seq![','];
    assert(","@ == sep);
    roundtrip::lemma_split_joined(parts, ',');
    let s = text::join(parts, sep);
    reveal_with_fuel(text::join, 5);
    assert(parts.drop_last().drop_last().drop_last()[0] == parts[0]);
    assert(parts.drop_last().drop_last().last() == parts[1]);
    assert(parts.drop_last().last() == parts[2]);
    assert(s == parts[0] + ","@ + parts[1] + ","@ + parts[2] + ","@ + parts[3]);
    let fields = trimmed_pieces(text::split(s, ','));
    assert forall|i: int| 0 <= i < fields.len() implies number::is_double_text(
        #[trigger] fields[i],
    ) by {
        assert(number::is_double_text(text::trimmed(parts[i])));
    }
    assert(fields == seq![
        text::trimmed(parts[0]),
        text::trimmed(parts[1]),
        text::trimmed(parts[2]),
        text::trimmed(parts[3]),
    ]);
}

/// The extent of a grid is the list in its first `BBOX[...]`, up to the first closing
/// bracket.
pub proof fn law_extent_of_wkt(wkt: Seq<char>, head: Seq<char>, list: Seq<char>, tail: Seq<char>)
    requires
        wkt == head + "BBOX["@ + list + "]"@ + tail,
        text::find(wkt, "BBOX["@) == Some(head.len() as int),
        forall|i: int| 0 <= i < list.len() ==> #[trigger] list[i] != ']',
    ensures
        wkt_bbox(wkt) == four_numbers(list),
{
    reveal_strlit("BBOX[");
    reveal_strlit("]");
    let rest = wkt.skip(head.len() as int + 5);
    let n = list.len() as int;
    assert(rest == list + "]"@ + tail);
    text::law_find(rest, "]"@);
    assert(text::occurs_at(rest, "]"@, n)) by {
        assert(rest.subrange(n, n + 1) == "]"@);
    }
    assert forall|i: int| 0 <= i < n implies !text::occurs_at(rest, "]"@, i) by {
        assert(list[i] != ']');
        if text::occurs_at(rest, "]"@, i) {
            assert(rest.subrange(i, i + 1)[0] == rest[i]);
        }
    }
    assert(rest.take(n) == list);
}

/// The kind of a coordinate system is the word that its text starts with, behind white
/// space.
pub proof fn law_kind_of_wkt(space: Seq<char>, word: Seq<char>, tail: Seq<char>)
    requires
        forall|i: int| 0 <= i < space.len() ==> text::is_space(#[trigger] space[i]),
        word.len() > 0,
        forall|i: int| 0 <= i < word.len() ==> is_word_char(#[trigger] word[i]),
        tail.len() > 0 ==> !is_word_char(tail[0]),
    ensures
        wkt_kind(space + word + tail) == word,
    decreases space.len(),
{
    let s = space + word + tail;
    if space.len() > 0 {
        assert(s[0] == space[0]);
        let less = space.drop_first();
        assert(s.drop_first() == less + word + tail);
        assert forall|i: int| 0 <= i < less.len() implies text::is_space(#[trigger] less[i]) by {
            assert(less[i] == space[i + 1]);
        }
        law_kind_of_wkt(less, word, tail);
    } else {
        let n = word.len() as int;
        assert(s[0] == word[0]);
        assert(is_word_char(word[0]));
        assert(!text::is_space(s[0]));
        assert forall|i: int| 0 <= i < n implies is_word_char(#[trigger] s[i]) by {
            assert(s[i] == word[i]);
        }
        if n < s.len() {
            assert(s[n] == tail[0]);
        }
        lemma_leading_word(s, n);
        assert(s.take(n) == word);
    }
}

/// Of the arrays of two dimensions that are not empty, those with a single row are
/// reduced Gaussian grids, those with a single column are none of the two kinds, and
/// all others are regular grids.
pub proof fn law_shapes(dims: Seq<u64>)
    ensures
        is_regular_shape(dims) ==> !is_one_row(dims),
        dims.len() != 2 ==> !is_regular_shape(dims) && !is_one_row(dims),
        dims.len() == 2 && dims[0] > 0 && dims[1] > 1 ==> is_regular_shape(dims) || is_one_row(dims),
        dims.len() == 2 && dims[0] != 1 ==> !is_one_row(dims),
        dims.len() == 2 && (dims[0] < 2 || dims[1] < 2) ==> !is_regular_shape(dims),
{
}

/// A coordinate system is rotated exactly when its text holds the keyword somewhere,
/// and geographic exactly when it starts with one of the two keywords.
pub proof fn law_supported_systems(wkt: Seq<char>)
    ensures
        is_rotated(wkt) <==> exists|i: int| #[trigger]
            text::occurs_at(wkt, "DERIVINGCONVERSION"@, i),
        is_geographic(wkt) <==> seq!["GEOGCRS"@, "GEOGCS"@].contains(wkt_kind(wkt)),
{
    text::law_find(wkt, "DERIVINGCONVERSION"@);
    let l = seq!["GEOGCRS"@, "GEOGCS"@];
    assert(l[0] == "GEOGCRS"@ && l[1] == "GEOGCS"@);
    if l.contains(wkt_kind(wkt)) {
        let k = choose|k: int| 0 <= k < l.len() && l[k] == wkt_kind(wkt);
        assert(k == 0 || k == 1);
    }
}

} // verus!
