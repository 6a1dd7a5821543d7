//! CF-1.10 NetCDF-4 output, as a description of the file.
//!
//! Layout: dimensions `time`, `latitude`, `longitude`; coordinate variables
//! `time` (hours since init), `step` (hours), scalar `forecast_reference_time`,
//! a `crs` grid-mapping variable; data variables are `float32` with
//! `(time, latitude, longitude)` chunks of `(1, ny, nx)` and zlib compression.
use crate::cf;
use crate::cf::Reduction;
use crate::order;
use crate::text;
use crate::timefmt;
use crate::timefmt::UtcTime;
use vstd::prelude::*;
use vstd::string::*;

verus! {

#[derive(Debug)]
pub struct VarSpec {
    pub name: String,
    /// Unit string as stored in the .om file.
    pub om_units: String,
    /// Interval semantics (`None` = instantaneous).
    pub reduction: Option<Reduction>,
}

pub struct NcSpec<'a> {
    pub model: &'a str,
    pub init: UtcTime,
    pub steps_minutes: &'a [i64],
    /// Per output step, the interval `[start, end]` in minutes since init that
    /// interval variables (precipitation, radiation, ...) cover. `None` when
    /// the model's native output interval is unknown.
    pub interval_minutes: Option<&'a [(i64, i64)]>,
    /// Free-text description of the interval semantics, written as `comment`.
    pub interval_comment: &'a str,
    /// The number of latitudes.
    pub ny: usize,
    /// The number of longitudes.
    pub nx: usize,
    pub vars: &'a [VarSpec],
    pub crs_wkt: &'a str,
    pub history: &'a str,
    pub source: &'a str,
    /// Set when the data was resampled from a non-regular source grid.
    pub source_grid: Option<&'a str>,
    pub regrid_method: Option<&'a str>,
    pub deflate_level: i32,
}

#[derive(Debug)]
pub struct Attribute {
    pub name: String,
    pub value: String,
}

#[derive(Debug)]
pub struct Dimension {
    pub name: String,
    pub len: usize,
}

/// The type and the values of a variable.
#[derive(Debug)]
pub enum Values {
    /// Doubles: each of the minutes in hours.
    Hours(Vec<i64>),
    /// Doubles: start and end of each interval of minutes, in hours.
    Bounds(Vec<(i64, i64)>),
    /// One double: seconds since 1970-01-01.
    Seconds(i64),
    /// Doubles: the latitudes of the output grid.
    Latitudes,
    /// Doubles: the longitudes of the output grid.
    Longitudes,
    /// One integer, zero.
    Mapping,
    /// Singles in chunks of `(1, ny, nx)`, shuffled and compressed at the given
    /// level, with NaN as the fill value; written slab by slab.
    Slabs { ny: usize, nx: usize, level: i32 },
}

#[derive(Debug)]
pub struct Variable {
    pub name: String,
    pub dims: Vec<String>,
    pub attributes: Vec<Attribute>,
    pub values: Values,
}

/// Everything that defines an output file, each list in the order of definition.
#[derive(Debug)]
pub struct Layout {
    pub attributes: Vec<Attribute>,
    pub dimensions: Vec<Dimension>,
    pub variables: Vec<Variable>,
}

/// What `Values` stands for.
pub enum Content {
    Hours(Seq<i64>),
    Bounds(Seq<(i64, i64)>),
    Seconds(i64),
    Latitudes,
    Longitudes,
    Mapping,
    Slabs { ny: usize, nx: usize, level: i32 },
}

/// A variable with its texts as sequences.
pub struct VariableText {
    pub name: Seq<char>,
    pub dims: Seq<Seq<char>>,
    pub attributes: Seq<(Seq<char>, Seq<char>)>,
    pub content: Content,
}

impl Values {
    pub open spec fn content(self) -> Content {
        match self {
            Values::Hours(v) => Content::Hours(v@),
            Values::Bounds(v) => Content::Bounds(v@),
            Values::Seconds(s) => Content::Seconds(s),
            Values::Latitudes => Content::Latitudes,
            Values::Longitudes => Content::Longitudes,
            Values::Mapping => Content::Mapping,
            Values::Slabs { ny, nx, level } => Content::Slabs { ny, nx, level },
        }
    }
}

pub open spec fn attribute_texts(v: Seq<Attribute>) -> Seq<(Seq<char>, Seq<char>)> {
    Seq::new(v.len(), |i: int| (v[i].name@, v[i].value@))
}

pub open spec fn dimension_texts(v: Seq<Dimension>) -> Seq<(Seq<char>, int)> {
    Seq::new(v.len(), |i: int| (v[i].name@, v[i].len as int))
}

impl Variable {
    pub open spec fn as_text(self) -> VariableText {
        VariableText {
            name: self.name@,
            dims: text::texts(self.dims@),
            attributes: attribute_texts(self.attributes@),
            content: self.values.content(),
        }
    }
}

pub open spec fn variable_texts(v: Seq<Variable>) -> Seq<VariableText> {
    Seq::new(v.len(), |i: int| v[i].as_text())
}

/// An attribute, where there is a value for it.
pub open spec fn optional(name: Seq<char>, value: Option<Seq<char>>) -> Seq<
    (Seq<char>, Seq<char>),
> {
    match value {
        Some(v) => seq![(name, v)],
        None => Seq::empty(),
    }
}

/// What the description of an output file is made from.
pub struct NcText {
    pub model: Seq<char>,
    pub init: UtcTime,
    pub steps: Seq<i64>,
    pub intervals: Option<Seq<(i64, i64)>>,
    pub interval_comment: Seq<char>,
    pub ny: usize,
    pub nx: usize,
    pub vars: Seq<VarSpec>,
    pub crs_wkt: Seq<char>,
    pub history: Seq<char>,
    pub source: Seq<char>,
    pub source_grid: Option<Seq<char>>,
    pub regrid_method: Option<Seq<char>>,
    pub level: i32,
}

pub open spec fn text_view(s: Option<&str>) -> Option<Seq<char>> {
    match s {
        Some(t) => Some(t@),
        None => None,
    }
}

pub open spec fn interval_view(v: Option<&[(i64, i64)]>) -> Option<Seq<(i64, i64)>> {
    match v {
        Some(iv) => Some(iv@),
        None => None,
    }
}

impl<'a> View for NcSpec<'a> {
    type V = NcText;

    open spec fn view(&self) -> NcText {
        NcText {
            model: self.model@,
            init: self.init,
            steps: self.steps_minutes@,
            intervals: interval_view(self.interval_minutes),
            interval_comment: self.interval_comment@,
            ny: self.ny,
            nx: self.nx,
            vars: self.vars@,
            crs_wkt: self.crs_wkt@,
            history: self.history@,
            source: self.source@,
            source_grid: text_view(self.source_grid),
            regrid_method: text_view(self.regrid_method),
            level: self.deflate_level,
        }
    }
}

impl NcText {
    pub open spec fn global_attributes(self) -> Seq<(Seq<char>, Seq<char>)> {
        seq![
            ("Conventions"@, "CF-1.10"@),
            ("title"@, "Open-Meteo "@ + self.model + " forecast"@),
            ("source"@, self.source),
            ("history"@, self.history),
            ("license"@, "CC BY 4.0"@),
            ("attribution"@, cf::attribution_text(self.model)),
            ("references"@, "https://open-meteo.com/en/docs/open-data"@),
            ("model"@, self.model),
            ("forecast_reference_time"@, timefmt::iso_text(self.init)),
        ] + optional("source_grid"@, self.source_grid) + optional(
            "regrid_method"@,
            self.regrid_method,
        )
    }

    pub open spec fn dimension_list(self) -> Seq<(Seq<char>, int)> {
        seq![
            ("time"@, self.steps.len() as int),
            ("latitude"@, self.ny as int),
            ("longitude"@, self.nx as int),
        ] + (if self.intervals is Some {
            seq![("nv"@, 2int)]
        } else {
            Seq::empty()
        })
    }

    pub open spec fn time_units(self) -> Seq<char> {
        "hours since "@ + timefmt::formatted(self.init, "%Y-%m-%d %H:%M:%S"@)
    }

    pub open spec fn time_variable(self) -> VariableText {
        VariableText {
            name: "time"@,
            dims: seq!["time"@],
            attributes: seq![
                ("standard_name"@, "time"@),
                ("long_name"@, "valid time"@),
                ("units"@, self.time_units()),
                ("calendar"@, "standard"@),
                ("axis"@, "T"@),
            ] + (if self.intervals is Some {
                seq![("bounds"@, "time_bnds"@)]
            } else {
                Seq::empty()
            }),
            content: Content::Hours(self.steps),
        }
    }

    pub open spec fn bounds_variable(self, intervals: Seq<(i64, i64)>) -> VariableText {
        VariableText {
            name: "time_bnds"@,
            dims: seq!["time"@, "nv"@],
            attributes: seq![
                (
                    "long_name"@,
                    "interval covered by accumulated/mean/extreme variables (see cell_methods)"@,
                ),
                ("units"@, self.time_units()),
            ],
            content: Content::Bounds(intervals),
        }
    }

    pub open spec fn step_variable(self) -> VariableText {
        VariableText {
            name: "step"@,
            dims: seq!["time"@],
            attributes: seq![
                ("standard_name"@, "forecast_period"@),
                ("long_name"@, "time since forecast_reference_time"@),
                ("units"@, "hours"@),
            ],
            content: Content::Hours(self.steps),
        }
    }

    pub open spec fn reference_variable(self) -> VariableText {
        VariableText {
            name: "forecast_reference_time"@,
            dims: Seq::empty(),
            attributes: seq![
                ("standard_name"@, "forecast_reference_time"@),
                ("long_name"@, "initial time of forecast"@),
                ("units"@, "seconds since 1970-01-01 00:00:00"@),
                ("calendar"@, "standard"@),
            ],
            content: Content::Seconds(self.init.secs),
        }
    }

    pub open spec fn crs_variable(self) -> VariableText {
        VariableText {
            name: "crs"@,
            dims: Seq::empty(),
            attributes: seq![
                ("grid_mapping_name"@, "latitude_longitude"@),
                ("crs_wkt"@, self.crs_wkt),
            ],
            content: Content::Mapping,
        }
    }

    /// The attributes of a data variable.
    pub open spec fn data_attributes(self, var: VarSpec) -> Seq<(Seq<char>, Seq<char>)> {
        let name = var.name@;
        seq![("long_name"@, cf::long_name_text(name))] + (match cf::standard_name_text(name) {
            Some(s) => seq![("standard_name"@, s)],
            None => Seq::empty(),
        }) + seq![
            ("units"@, cf::units_text(var.om_units@)),
            ("open_meteo_units"@, var.om_units@),
            ("open_meteo_variable"@, name),
            ("grid_mapping"@, "crs"@),
            ("coordinates"@, "forecast_reference_time step"@),
        ] + (match var.reduction {
            Some(r) => seq![
                ("cell_methods"@, r.cell_methods_text()),
                ("comment"@, self.interval_comment),
            ],
            None => Seq::empty(),
        })
    }

    pub open spec fn data_variable(self, var: VarSpec) -> VariableText {
        VariableText {
            name: var.name@,
            dims: seq!["time"@, "latitude"@, "longitude"@],
            attributes: self.data_attributes(var),
            content: Content::Slabs { ny: self.ny, nx: self.nx, level: self.level },
        }
    }

    pub open spec fn variable_list(self) -> Seq<VariableText> {
        seq![self.time_variable()] + (match self.intervals {
            Some(iv) => seq![self.bounds_variable(iv)],
            None => Seq::empty(),
        }) + seq![
            self.step_variable(),
            self.reference_variable(),
            axis_variable("latitude"@, "degrees_north"@, "Y"@, Content::Latitudes),
            axis_variable("longitude"@, "degrees_east"@, "X"@, Content::Longitudes),
            self.crs_variable(),
        ] + self.data_variables()
    }

    pub open spec fn data_variables(self) -> Seq<VariableText> {
        Seq::new(self.vars.len(), |i: int| self.data_variable(self.vars[i]))
    }

    /// There is an interval for each step.
    pub open spec fn intervals_match(self) -> bool {
        self.intervals matches Some(iv) ==> iv.len() == self.steps.len()
    }
}

/// A latitude or longitude variable along its own dimension.
pub open spec fn axis_variable(
    name: Seq<char>,
    units: Seq<char>,
    axis: Seq<char>,
    content: Content,
) -> VariableText {
    VariableText {
        name,
        dims: seq![name],
        attributes: seq![
            ("standard_name"@, name),
            ("long_name"@, name),
            ("units"@, units),
            ("axis"@, axis),
        ],
        content,
    }
}

fn put(attributes: &mut Vec<Attribute>, name: &str, value: &str)
    ensures
        attribute_texts(final(attributes)@) == attribute_texts(old(attributes)@).push(
            (name@, value@),
        ),
{
    attributes.push(Attribute { name: name.to_owned(), value: value.to_owned() });
    assert(attribute_texts(attributes@) == attribute_texts(old(attributes)@).push((name@, value@)));
}

fn put_dim(dims: &mut Vec<String>, name: &str)
    ensures
        text::texts(final(dims)@) == text::texts(old(dims)@).push(name@),
{
    dims.push(name.to_owned());
    assert(text::texts(dims@) == text::texts(old(dims)@).push(name@));
}

fn add_dimension(dimensions: &mut Vec<Dimension>, name: &str, len: usize)
    ensures
        dimension_texts(final(dimensions)@) == dimension_texts(old(dimensions)@).push(
            (name@, len as int),
        ),
{
    dimensions.push(Dimension { name: name.to_owned(), len });
    assert(dimension_texts(dimensions@) == dimension_texts(old(dimensions)@).push(
        (name@, len as int),
    ));
}

fn add_variable(
    variables: &mut Vec<Variable>,
    name: &str,
    dims: Vec<String>,
    attributes: Vec<Attribute>,
    values: Values,
)
    ensures
        variable_texts(final(variables)@) == variable_texts(old(variables)@).push(
            (VariableText {
                name: name@,
                dims: text::texts(dims@),
                attributes: attribute_texts(attributes@),
                content: values.content(),
            }),
        ),
{
    let v = Variable { name: name.to_owned(), dims, attributes, values };
    variables.push(v);
    assert(variable_texts(variables@) == variable_texts(old(variables)@).push(v.as_text()));
}

fn no_attributes() -> (r: Vec<Attribute>)
    ensures
        attribute_texts(r@) == Seq::<(Seq<char>, Seq<char>)>::empty(),
{
    let v: Vec<Attribute> = Vec::new();
    assert(attribute_texts(v@) == Seq::<(Seq<char>, Seq<char>)>::empty());
    v
}

fn no_dims() -> (r: Vec<String>)
    ensures
        text::texts(r@) == Seq::<Seq<char>>::empty(),
{
    let v: Vec<String> = Vec::new();
    assert(text::texts(v@) == Seq::<Seq<char>>::empty());
    v
}

fn copy_intervals(v: &[(i64, i64)]) -> (r: Vec<(i64, i64)>)
    ensures
        r@ == v@,
{
    let mut out: Vec<(i64, i64)> = Vec::new();
    let mut i: usize = 0;
    while i < v.len()
        invariant
            i <= v.len(),
            out@ == v@.take(i as int),
        decreases v.len() - i,
    {
        out.push(v[i]);
        i += 1;
        assert(v@.take(i as int) == v@.take(i - 1).push(v@[i - 1]));
    }
    assert(v@.take(i as int) == v@);
    out
}

fn put_optional(attributes: &mut Vec<Attribute>, name: &str, value: Option<&str>)
    ensures
        attribute_texts(final(attributes)@) == attribute_texts(old(attributes)@) + optional(
            name@,
            text_view(value),
        ),
{
    if let Some(v) = value {
        put(attributes, name, v);
    }
    assert(attribute_texts(attributes@) == attribute_texts(old(attributes)@) + optional(
        name@,
        text_view(value),
    ));
}

fn global_attributes(spec: &NcSpec<'_>) -> (r: Vec<Attribute>)
    requires
        spec.init.valid(),
    ensures
        attribute_texts(r@) == spec@.global_attributes(),
{
    let mut a = no_attributes();
    put(&mut a, "Conventions", "CF-1.10");
    let mut title = "Open-Meteo ".to_owned();
    title.append(spec.model);
    title.append(" forecast");
    put(&mut a, "title", title.as_str());
    put(&mut a, "source", spec.source);
    put(&mut a, "history", spec.history);
    put(&mut a, "license", "CC BY 4.0");
    put(&mut a, "attribution", cf::attribution(spec.model).as_str());
    put(&mut a, "references", "https://open-meteo.com/en/docs/open-data");
    put(&mut a, "model", spec.model);
    put(&mut a, "forecast_reference_time", timefmt::iso(spec.init).as_str());
    put_optional(&mut a, "source_grid", spec.source_grid);
    put_optional(&mut a, "regrid_method", spec.regrid_method);
    a
}

fn dimensions(spec: &NcSpec<'_>) -> (r: Vec<Dimension>)
    ensures
        dimension_texts(r@) == spec@.dimension_list(),
{
    let mut d: Vec<Dimension> = Vec::new();
    assert(dimension_texts(d@) == Seq::<(Seq<char>, int)>::empty());
    add_dimension(&mut d, "time", spec.steps_minutes.len());
    add_dimension(&mut d, "latitude", spec.ny);
    add_dimension(&mut d, "longitude", spec.nx);
    if spec.interval_minutes.is_some() {
        add_dimension(&mut d, "nv", 2);
    }
    assert(dimension_texts(d@) == spec@.dimension_list());
    d
}

fn define_time(vars: &mut Vec<Variable>, spec: &NcSpec<'_>, units: &str)
    requires
        units@ == spec@.time_units(),
    ensures
        variable_texts(final(vars)@) == variable_texts(old(vars)@).push(spec@.time_variable()),
{
    let mut dims = no_dims();
    put_dim(&mut dims, "time");
    let mut a = no_attributes();
    put(&mut a, "standard_name", "time");
    put(&mut a, "long_name", "valid time");
    put(&mut a, "units", units);
    put(&mut a, "calendar", "standard");
    put(&mut a, "axis", "T");
    if spec.interval_minutes.is_some() {
        put(&mut a, "bounds", "time_bnds");
    }
    assert(attribute_texts(a@) == spec@.time_variable().attributes);
    assert(text::texts(dims@) == spec@.time_variable().dims);
    add_variable(vars, "time", dims, a, Values::Hours(order::copy(spec.steps_minutes)));
}

fn define_bounds(vars: &mut Vec<Variable>, spec: &NcSpec<'_>, units: &str)
    requires
        units@ == spec@.time_units(),
    ensures
        variable_texts(final(vars)@) == variable_texts(old(vars)@) + match spec@.intervals {
            Some(iv) => seq![spec@.bounds_variable(iv)],
            None => Seq::empty(),
        },
{
    if let Some(iv) = spec.interval_minutes {
        let mut dims = no_dims();
        put_dim(&mut dims, "time");
        put_dim(&mut dims, "nv");
        let mut a = no_attributes();
        put(
            &mut a,
            "long_name",
            "interval covered by accumulated/mean/extreme variables (see cell_methods)",
        );
        put(&mut a, "units", units);
        assert(attribute_texts(a@) == spec@.bounds_variable(iv@).attributes);
        assert(text::texts(dims@) == spec@.bounds_variable(iv@).dims);
        add_variable(vars, "time_bnds", dims, a, Values::Bounds(copy_intervals(iv)));
        assert(variable_texts(vars@) == variable_texts(old(vars)@) + seq![
            spec@.bounds_variable(iv@),
        ]);
    } else {
        assert(variable_texts(vars@) == variable_texts(old(vars)@) + Seq::<VariableText>::empty());
    }
}

fn define_step(vars: &mut Vec<Variable>, spec: &NcSpec<'_>)
    ensures
        variable_texts(final(vars)@) == variable_texts(old(vars)@).push(spec@.step_variable()),
{
    let mut dims = no_dims();
    put_dim(&mut dims, "time");
    let mut a = no_attributes();
    put(&mut a, "standard_name", "forecast_period");
    put(&mut a, "long_name", "time since forecast_reference_time");
    put(&mut a, "units", "hours");
    assert(attribute_texts(a@) == spec@.step_variable().attributes);
    assert(text::texts(dims@) == spec@.step_variable().dims);
    add_variable(vars, "step", dims, a, Values::Hours(order::copy(spec.steps_minutes)));
}

fn define_reference(vars: &mut Vec<Variable>, spec: &NcSpec<'_>)
    ensures
        variable_texts(final(vars)@) == variable_texts(old(vars)@).push(spec@.reference_variable()),
{
    let mut a = no_attributes();
    put(&mut a, "standard_name", "forecast_reference_time");
    put(&mut a, "long_name", "initial time of forecast");
    put(&mut a, "units", "seconds since 1970-01-01 00:00:00");
    put(&mut a, "calendar", "standard");
    assert(attribute_texts(a@) == spec@.reference_variable().attributes);
    add_variable(vars, "forecast_reference_time", no_dims(), a, Values::Seconds(spec.init.secs));
}

fn define_axis(vars: &mut Vec<Variable>, name: &str, units: &str, axis: &str, values: Values)
    ensures
        variable_texts(final(vars)@) == variable_texts(old(vars)@).push(
            axis_variable(name@, units@, axis@, values.content()),
        ),
{
    let ghost want = axis_variable(name@, units@, axis@, values.content());
    let mut dims = no_dims();
    put_dim(&mut dims, name);
    let mut a = no_attributes();
    put(&mut a, "standard_name", name);
    put(&mut a, "long_name", name);
    put(&mut a, "units", units);
    put(&mut a, "axis", axis);
    assert(attribute_texts(a@) == want.attributes);
    assert(text::texts(dims@) == want.dims);
    add_variable(vars, name, dims, a, values);
}

fn define_crs(vars: &mut Vec<Variable>, spec: &NcSpec<'_>)
    ensures
        variable_texts(final(vars)@) == variable_texts(old(vars)@).push(spec@.crs_variable()),
{
    let mut a = no_attributes();
    put(&mut a, "grid_mapping_name", "latitude_longitude");
    put(&mut a, "crs_wkt", spec.crs_wkt);
    assert(attribute_texts(a@) == spec@.crs_variable().attributes);
    add_variable(vars, "crs", no_dims(), a, Values::Mapping);
}

fn data_attributes(spec: &NcSpec<'_>, var: &VarSpec) -> (r: Vec<Attribute>)
    ensures
        attribute_texts(r@) == spec@.data_attributes(*var),
{
    let mut a = no_attributes();
    put(&mut a, "long_name", cf::long_name(var.name.as_str()).as_str());
    if let Some(s) = cf::standard_name(var.name.as_str()) {
        put(&mut a, "standard_name", s);
    }
    put(&mut a, "units", cf::cf_units(var.om_units.as_str()));
    put(&mut a, "open_meteo_units", var.om_units.as_str());
    put(&mut a, "open_meteo_variable", var.name.as_str());
    put(&mut a, "grid_mapping", "crs");
    put(&mut a, "coordinates", "forecast_reference_time step");
    if let Some(r) = var.reduction {
        put(&mut a, "cell_methods", r.cell_methods());
        put(&mut a, "comment", spec.interval_comment);
    }
    assert(attribute_texts(a@) == spec@.data_attributes(*var));
    a
}

fn define_data(vars: &mut Vec<Variable>, spec: &NcSpec<'_>)
    ensures
        variable_texts(final(vars)@) == variable_texts(old(vars)@) + spec@.data_variables(),
{
    let ghost before = variable_texts(vars@);
    let ghost all = spec@.data_variables();
    let mut i: usize = 0;
    assert(before + all.take(0) == before);
    while i < spec.vars.len()
        invariant
            i <= spec.vars.len(),
            all == spec@.data_variables(),
            variable_texts(vars@) == before + all.take(i as int),
        decreases spec.vars.len() - i,
    {
        let var = &spec.vars[i];
        let mut dims = no_dims();
        put_dim(&mut dims, "time");
        put_dim(&mut dims, "latitude");
        put_dim(&mut dims, "longitude");
        let a = data_attributes(spec, var);
        assert(text::texts(dims@) == spec@.data_variable(*var).dims);
        add_variable(
            vars,
            var.name.as_str(),
            dims,
            a,
            Values::Slabs { ny: spec.ny, nx: spec.nx, level: spec.deflate_level },
        );
        proof {
            assert(all[i as int] == spec@.data_variable(*var));
            assert(all.take(i + 1) == all.take(i as int).push(all[i as int]));
            assert(variable_texts(vars@) == before + all.take(i + 1));
        }
        i += 1;
    }
    assert(all.take(i as int) == all);
}

/// Describe the output file.
pub fn layout(spec: &NcSpec<'_>) -> (r: Result<Layout, String>)
    requires
        spec.init.valid(),
    ensures
        match r {
            Ok(l) => {
                &&& spec@.intervals_match()
                &&& attribute_texts(l.attributes@) == spec@.global_attributes()
                &&& dimension_texts(l.dimensions@) == spec@.dimension_list()
                &&& variable_texts(l.variables@) == spec@.variable_list()
            },
            Err(e) => !spec@.intervals_match() && e@ == "interval list length mismatch"@,
        },
{
    if let Some(iv) = spec.interval_minutes {
        if iv.len() != spec.steps_minutes.len() {
            return Err("interval list length mismatch".to_owned());
        }
    }
    let attributes = global_attributes(spec);
    let dimensions = dimensions(spec);
    let mut units = "hours since ".to_owned();
    units.append(timefmt::format_time(spec.init, "%Y-%m-%d %H:%M:%S").as_str());
    let mut vars: Vec<Variable> = Vec::new();
    assert(variable_texts(vars@) == Seq::<VariableText>::empty());
    define_time(&mut vars, spec, units.as_str());
    define_bounds(&mut vars, spec, units.as_str());
    define_step(&mut vars, spec);
    define_reference(&mut vars, spec);
    define_axis(&mut vars, "latitude", "degrees_north", "Y", Values::Latitudes);
    define_axis(&mut vars, "longitude", "degrees_east", "X", Values::Longitudes);
    define_crs(&mut vars, spec);
    define_data(&mut vars, spec);
    assert(variable_texts(vars@) == spec@.variable_list());
    Ok(Layout { attributes, dimensions, variables: vars })
}

/// A slab holds one value for each cell of the output grid.
pub fn check_slab(var: &str, len: usize, ny: usize, nx: usize) -> (r: Result<(), String>)
    requires
        ny * nx <= usize::MAX,
    ensures
        match r {
            Ok(_) => len == ny * nx,
            Err(e) => len != ny * nx && e@ == "slab for "@ + var@ + " has "@ + text::dec(len as nat)
                + " values, expected "@ + text::dec((ny * nx) as nat),
        },
{
    let want: usize = ny * nx;
    if len != want {
        let mut e = "slab for ".to_owned();
        e.append(var);
        e.append(" has ");
        text::push_dec(&mut e, len as u128);
        e.append(" values, expected ");
        text::push_dec(&mut e, want as u128);
        return Err(e);
    }
    Ok(())
}

/// Every dimension that a variable of the file has is declared.
pub proof fn law_dimensions_are_declared(spec: NcText, i: int, j: int)
    requires
        0 <= i < spec.variable_list().len(),
        0 <= j < spec.variable_list()[i].dims.len(),
    ensures
        exists|k: int|
            0 <= k < spec.dimension_list().len() && (#[trigger] spec.dimension_list()[k]).0
                == spec.variable_list()[i].dims[j],
{
    let d = spec.dimension_list();
    let head = (spec.variable_list().len() - spec.vars.len()) as int;
    let name = spec.variable_list()[i].dims[j];
    assert(d[0].0 == "time"@);
    assert(d[1].0 == "latitude"@);
    assert(d[2].0 == "longitude"@);
    if i >= head {
        assert(spec.variable_list()[i] == spec.data_variable(spec.vars[i - head]));
        assert(name == d[j].0);
    } else if spec.intervals is Some {
        assert(d[3].0 == "nv"@);
        assert(head == 7);
        assert(i == 0 || i == 1 || i == 2 || i == 3 || i == 4 || i == 5 || i == 6);
        assert(j == 0 || j == 1);
    } else {
        assert(head == 6);
        assert(i == 0 || i == 1 || i == 2 || i == 3 || i == 4 || i == 5);
    }
}

/// The variable that `time` names as its bounds is there exactly when the
/// intervals are known, and has an interval for each step.
pub proof fn law_bounds_variable(spec: NcText)
    requires
        spec.intervals_match(),
        forall|i: int| 0 <= i < spec.vars.len() ==> (#[trigger] spec.vars[i]).name@ != "time_bnds"@,
    ensures
        spec.time_variable().attributes.contains(("bounds"@, "time_bnds"@)) <==> exists|i: int|
            0 <= i < spec.variable_list().len() && (#[trigger] spec.variable_list()[i]).name
                == "time_bnds"@,
        forall|i: int|
            0 <= i < spec.variable_list().len() && (#[trigger] spec.variable_list()[i]).name
                == "time_bnds"@ ==> (spec.variable_list()[i].content matches Content::Bounds(iv)
                && iv.len() == spec.steps.len()),
{
    reveal_strlit("time_bnds");
    reveal_strlit("time");
    reveal_strlit("step");
    reveal_strlit("forecast_reference_time");
    reveal_strlit("latitude");
    reveal_strlit("longitude");
    reveal_strlit("crs");
    reveal_strlit("bounds");
    reveal_strlit("standard_name");
    reveal_strlit("long_name");
    reveal_strlit("units");
    reveal_strlit("calendar");
    reveal_strlit("axis");
    let l = spec.variable_list();
    let head = (l.len() - spec.vars.len()) as int;
    let a = spec.time_variable().attributes;
    assert forall|i: int| head <= i < l.len() implies (#[trigger] l[i]).name != "time_bnds"@ by {
        assert(l[i] == spec.data_variable(spec.vars[i - head]));
    }
    if spec.intervals is Some {
        assert(a[5] == ("bounds"@, "time_bnds"@));
        assert(l[1].name == "time_bnds"@);
        assert(head == 7);
        assert(l[0].name.len() == 4 && l[2].name.len() == 4 && l[3].name.len() == 23
            && l[4].name.len() == 8 && l[6].name.len() == 3);
        assert(l[5].name[0] == 'l');
        assert("time_bnds"@[0] == 't');
    } else {
        assert(head == 6);
        assert(l[0].name.len() == 4 && l[1].name.len() == 4 && l[2].name.len() == 23
            && l[3].name.len() == 8 && l[5].name.len() == 3);
        assert(l[4].name[0] == 'l');
        assert("time_bnds"@[0] == 't');
        assert(a.len() == 5);
        assert("bounds"@.len() == 6);
        assert(!a.contains(("bounds"@, "time_bnds"@))) by {
            assert(a[0].0.len() == 13 && a[1].0.len() == 9 && a[2].0.len() == 5 && a[3].0.len() == 8
                && a[4].0.len() == 4);
        }
    }
}

/// The dimension of the given name is there and has the given length.
pub open spec fn has_length(dimensions: Seq<(Seq<char>, int)>, name: Seq<char>, len: int) -> bool {
    &&& exists|m: int| 0 <= m < dimensions.len() && (#[trigger] dimensions[m]).0 == name
    &&& forall|m: int|
        0 <= m < dimensions.len() && (#[trigger] dimensions[m]).0 == name ==> dimensions[m].1 == len
}

/// The dimensions have the given lengths, in this order.
pub open spec fn has_shape(
    dimensions: Seq<(Seq<char>, int)>,
    dims: Seq<Seq<char>>,
    shape: Seq<int>,
) -> bool {
    &&& dims.len() == shape.len()
    &&& forall|j: int|
        0 <= j < dims.len() ==> has_length(dimensions, #[trigger] dims[j], shape[j])
}

pub proof fn lemma_lengths(spec: NcText)
    ensures
        has_length(spec.dimension_list(), "time"@, spec.steps.len() as int),
        has_length(spec.dimension_list(), "latitude"@, spec.ny as int),
        has_length(spec.dimension_list(), "longitude"@, spec.nx as int),
        spec.intervals is Some ==> has_length(spec.dimension_list(), "nv"@, 2),
{
    reveal_strlit("time");
    reveal_strlit("latitude");
    reveal_strlit("longitude");
    reveal_strlit("nv");
    let d = spec.dimension_list();
    assert(d[0].0 == "time"@ && d[1].0 == "latitude"@ && d[2].0 == "longitude"@);
    if spec.intervals is Some {
        assert(d[3].0 == "nv"@ && d.len() == 4);
    } else {
        assert(d.len() == 3);
    }
    assert forall|m: int| 0 <= m < d.len() implies (#[trigger] d[m]).0.len() == (if m == 0 {
        4int
    } else if m == 1 {
        8
    } else if m == 2 {
        9
    } else {
        2
    }) by {
        assert(m == 0 || m == 1 || m == 2 || m == 3);
    }
    assert(d[0].1 == spec.steps.len());
    assert(d[1].1 == spec.ny);
    assert(d[2].1 == spec.nx);
}

/// The values of every variable have the shape of its dimensions. Slabs of `ny`
/// rows and `nx` columns go into a variable of time by latitude by longitude.
pub proof fn law_values_fit_their_dimensions(spec: NcText, i: int)
    requires
        spec.intervals_match(),
        0 <= i < spec.variable_list().len(),
    ensures
        ({
            let v = spec.variable_list()[i];
            let times = spec.steps.len() as int;
            has_shape(
                spec.dimension_list(),
                v.dims,
                match v.content {
                    Content::Hours(h) => seq![h.len() as int],
                    Content::Bounds(b) => seq![b.len() as int, 2],
                    Content::Seconds(_) => seq![],
                    Content::Latitudes => seq![spec.ny as int],
                    Content::Longitudes => seq![spec.nx as int],
                    Content::Mapping => seq![],
                    Content::Slabs { ny, nx, .. } => seq![times, ny as int, nx as int],
                },
            )
        }),
{
    lemma_lengths(spec);
    let head = (spec.variable_list().len() - spec.vars.len()) as int;
    let v = spec.variable_list()[i];
    if i >= head {
        assert(v == spec.data_variable(spec.vars[i - head]));
    } else if spec.intervals is Some {
        assert(i == 0 || i == 1 || i == 2 || i == 3 || i == 4 || i == 5 || i == 6);
    } else {
        assert(i == 0 || i == 1 || i == 2 || i == 3 || i == 4 || i == 5);
    }
}

/// Every requested variable is in the file, in order and under its name, over time,
/// latitude and longitude, with slabs of the size of the output grid compressed at
/// the requested level.
pub proof fn law_data_variables(spec: NcText, k: int)
    requires
        0 <= k < spec.vars.len(),
    ensures
        ({
            let l = spec.variable_list();
            let v = l[l.len() - spec.vars.len() + k];
            &&& v.name == spec.vars[k].name@
            &&& v.dims == seq!["time"@, "latitude"@, "longitude"@]
            &&& v.content == Content::Slabs { ny: spec.ny, nx: spec.nx, level: spec.level }
            &&& has_shape(
                spec.dimension_list(),
                v.dims,
                seq![spec.steps.len() as int, spec.ny as int, spec.nx as int],
            )
        }),
{
    let l = spec.variable_list();
    assert(l[l.len() - spec.vars.len() + k] == spec.data_variable(spec.vars[k]));
    lemma_lengths(spec);
}

/// Some variable of the file has this name, along these dimensions, and these values.
pub open spec fn holds_variable(
    spec: NcText,
    name: Seq<char>,
    dims: Seq<Seq<char>>,
    content: Content,
) -> bool {
    exists|i: int|
        0 <= i < spec.variable_list().len() && (#[trigger] spec.variable_list()[i]).name == name
            && spec.variable_list()[i].dims == dims && spec.variable_list()[i].content == content
}

/// The coordinates of the file: the steps as times and as lead times, the reference
/// time, the two axes each along the dimension of its name, the grid mapping, and
/// the intervals where they are known.
pub proof fn law_coordinates(spec: NcText)
    ensures
        holds_variable(spec, "time"@, seq!["time"@], Content::Hours(spec.steps)),
        holds_variable(spec, "step"@, seq!["time"@], Content::Hours(spec.steps)),
        holds_variable(
            spec,
            "forecast_reference_time"@,
            seq![],
            Content::Seconds(spec.init.secs),
        ),
        holds_variable(spec, "latitude"@, seq!["latitude"@], Content::Latitudes),
        holds_variable(spec, "longitude"@, seq!["longitude"@], Content::Longitudes),
        holds_variable(spec, "crs"@, seq![], Content::Mapping),
        spec.intervals matches Some(iv) ==> holds_variable(
            spec,
            "time_bnds"@,
            seq!["time"@, "nv"@],
            Content::Bounds(iv),
        ),
{
    let l = spec.variable_list();
    let n = if spec.intervals is Some {
        1int
    } else {
        0
    };
    assert(l[0] == spec.time_variable());
    assert(l[n + 1] == spec.step_variable());
    assert(l[n + 2] == spec.reference_variable());
    assert(l[n + 3].name == "latitude"@ && l[n + 3].dims == seq!["latitude"@]);
    assert(l[n + 4].name == "longitude"@ && l[n + 4].dims == seq!["longitude"@]);
    assert(l[n + 5] == spec.crs_variable());
    if let Some(iv) = spec.intervals {
        assert(l[1] == spec.bounds_variable(iv));
    }
}

/// There is an attribute of the given name.
pub open spec fn names_attribute(a: Seq<(Seq<char>, Seq<char>)>, name: Seq<char>) -> bool {
    exists|m: int| 0 <= m < a.len() && (#[trigger] a[m]).0 == name
}

/// There is an attribute of the given name, and it has the given value.
pub open spec fn says(
    a: Seq<(Seq<char>, Seq<char>)>,
    name: Seq<char>,
    value: Seq<char>,
) -> bool {
    &&& names_attribute(a, name)
    &&& forall|m: int| 0 <= m < a.len() && (#[trigger] a[m]).0 == name ==> a[m].1 == value
}

/// What the attributes of a data variable say: its unit in the spelling of udunits
/// and as it was, its name, the grid mapping; the standard name where there is one;
/// and how it covers its interval, with the comment on intervals, exactly where it
/// covers one.
pub proof fn law_data_attributes(spec: NcText, var: VarSpec)
    ensures
        ({
            let a = spec.data_attributes(var);
            &&& says(a, "units"@, cf::units_text(var.om_units@))
            &&& says(a, "open_meteo_units"@, var.om_units@)
            &&& says(a, "open_meteo_variable"@, var.name@)
            &&& says(a, "grid_mapping"@, "crs"@)
            &&& says(a, "long_name"@, cf::long_name_text(var.name@))
            &&& match cf::standard_name_text(var.name@) {
                Some(s) => says(a, "standard_name"@, s),
                None => !names_attribute(a, "standard_name"@),
            }
            &&& match var.reduction {
                Some(r) => says(a, "cell_methods"@, r.cell_methods_text()) && says(
                    a,
                    "comment"@,
                    spec.interval_comment,
                ),
                None => !names_attribute(a, "cell_methods"@) && !names_attribute(a, "comment"@),
            }
        }),
{
    reveal_strlit("units");
    reveal_strlit("open_meteo_units");
    reveal_strlit("open_meteo_variable");
    reveal_strlit("grid_mapping");
    reveal_strlit("long_name");
    reveal_strlit("standard_name");
    reveal_strlit("cell_methods");
    reveal_strlit("comment");
    reveal_strlit("coordinates");
    let a = spec.data_attributes(var);
    let n = if cf::standard_name_text(var.name@) is Some {
        assert(a[1].0 == "standard_name"@);
        2int
    } else {
        1
    };
    assert(a[0].0 == "long_name"@);
    assert(a[n].0 == "units"@);
    assert(a[n + 1].0 == "open_meteo_units"@);
    assert(a[n + 2].0 == "open_meteo_variable"@);
    assert(a[n + 3].0 == "grid_mapping"@);
    assert(a[n + 4].0 == "coordinates"@);
    if var.reduction is Some {
        assert(a.len() == n + 7);
        assert(a[n + 5].0 == "cell_methods"@);
        assert(a[n + 6].0 == "comment"@);
    } else {
        assert(a.len() == n + 5);
    }
    // The lengths of the names tell them apart, but for two of them.
    assert forall|m: int| 0 <= m < a.len() implies (#[trigger] a[m]).0.len() == (if m == 0 {
        9int
    } else if m < n {
        13
    } else if m == n {
        5
    } else if m == n + 1 {
        16
    } else if m == n + 2 {
        19
    } else if m == n + 3 {
        12
    } else if m == n + 4 {
        11
    } else if m == n + 5 {
        12
    } else {
        7
    }) by {
        assert(m == 0 || m == 1 || m == n || m == n + 1 || m == n + 2 || m == n + 3 || m == n + 4
            || m == n + 5 || m == n + 6);
    }
    assert("grid_mapping"@[0] == 'g' && "cell_methods"@[0] == 'c');
}

/// What the file says of itself: the conventions, where the data comes from and how
/// the file was made, the model and its run; and how the data was resampled, exactly
/// where it was.
pub proof fn law_global_attributes(spec: NcText)
    ensures
        ({
            let a = spec.global_attributes();
            &&& says(a, "Conventions"@, "CF-1.10"@)
            &&& says(a, "model"@, spec.model)
            &&& says(a, "source"@, spec.source)
            &&& says(a, "history"@, spec.history)
            &&& says(a, "license"@, "CC BY 4.0"@)
            &&& says(a, "attribution"@, cf::attribution_text(spec.model))
            &&& says(a, "forecast_reference_time"@, timefmt::iso_text(spec.init))
            &&& match spec.source_grid {
                Some(g) => says(a, "source_grid"@, g),
                None => !names_attribute(a, "source_grid"@),
            }
            &&& match spec.regrid_method {
                Some(m) => says(a, "regrid_method"@, m),
                None => !names_attribute(a, "regrid_method"@),
            }
        }),
{
    reveal_strlit("Conventions");
    reveal_strlit("title");
    reveal_strlit("source");
    reveal_strlit("history");
    reveal_strlit("license");
    reveal_strlit("attribution");
    reveal_strlit("references");
    reveal_strlit("model");
    reveal_strlit("forecast_reference_time");
    reveal_strlit("source_grid");
    reveal_strlit("regrid_method");
    let a = spec.global_attributes();
    assert(a[0].0 == "Conventions"@ && a[1].0 == "title"@ && a[2].0 == "source"@);
    assert(a[3].0 == "history"@ && a[4].0 == "license"@ && a[5].0 == "attribution"@);
    assert(a[6].0 == "references"@ && a[7].0 == "model"@);
    assert(a[8].0 == "forecast_reference_time"@);
    let n = if spec.source_grid is Some {
        assert(a[9].0 == "source_grid"@);
        10int
    } else {
        9
    };
    if spec.regrid_method is Some {
        assert(a[n].0 == "regrid_method"@);
        assert(a.len() == n + 1);
    } else {
        assert(a.len() == n);
    }
    assert forall|m: int| 0 <= m < a.len() implies (#[trigger] a[m]).0.len() == (if m == 0 {
        11int
    } else if m == 1 {
        5
    } else if m == 2 {
        6
    } else if m == 3 {
        7
    } else if m == 4 {
        7
    } else if m == 5 {
        11
    } else if m == 6 {
        10
    } else if m == 7 {
        5
    } else if m == 8 {
        23
    } else if m < n {
        11
    } else {
        13
    }) by {
        assert(m == 0 || m == 1 || m == 2 || m == 3 || m == 4 || m == 5 || m == 6 || m == 7 || m == 8
            || m == 9 || m == 10);
    }
    assert("Conventions"@[0] == 'C' && "attribution"@[0] == 'a' && "source_grid"@[0] == 's');
    assert("title"@[0] == 't' && "model"@[0] == 'm');
    assert("history"@[0] == 'h' && "license"@[0] == 'l');
}

/// The times of the file are hours since the reference time, the lead times hours,
/// the intervals in the unit of the times, and the times name their bounds exactly
/// where there are intervals.
pub proof fn law_time_attributes(spec: NcText)
    ensures
        says(spec.time_variable().attributes, "units"@, spec.time_units()),
        says(spec.step_variable().attributes, "units"@, "hours"@),
        forall|iv: Seq<(i64, i64)>|
            says((#[trigger] spec.bounds_variable(iv)).attributes, "units"@, spec.time_units()),
        spec.intervals is Some ==> says(spec.time_variable().attributes, "bounds"@, "time_bnds"@),
        spec.intervals is None ==> !names_attribute(spec.time_variable().attributes, "bounds"@),
        says(spec.crs_variable().attributes, "crs_wkt"@, spec.crs_wkt),
        says(spec.crs_variable().attributes, "grid_mapping_name"@, "latitude_longitude"@),
{
    reveal_strlit("standard_name");
    reveal_strlit("long_name");
    reveal_strlit("units");
    reveal_strlit("calendar");
    reveal_strlit("axis");
    reveal_strlit("bounds");
    reveal_strlit("crs_wkt");
    reveal_strlit("grid_mapping_name");
    let a = spec.time_variable().attributes;
    assert(a[0].0 == "standard_name"@ && a[1].0 == "long_name"@ && a[2].0 == "units"@ && a[3].0
        == "calendar"@ && a[4].0 == "axis"@);
    if spec.intervals is Some {
        assert(a[5].0 == "bounds"@ && a.len() == 6);
    } else {
        assert(a.len() == 5);
    }
    let b = spec.step_variable().attributes;
    assert(b[0].0 == "standard_name"@ && b[1].0 == "long_name"@ && b[2].0 == "units"@);
    let c = spec.crs_variable().attributes;
    assert(c[0].0 == "grid_mapping_name"@ && c[1].0 == "crs_wkt"@);
    assert forall|iv: Seq<(i64, i64)>|
        says((#[trigger] spec.bounds_variable(iv)).attributes, "units"@, spec.time_units()) by {
        let d = spec.bounds_variable(iv).attributes;
        assert(d[0].0 == "long_name"@ && d[1].0 == "units"@);
    }
}

/// Some variable of the file has this name, and its attribute has this value.
pub open spec fn holds_attribute(
    spec: NcText,
    variable: Seq<char>,
    name: Seq<char>,
    value: Seq<char>,
) -> bool {
    exists|i: int|
        0 <= i < spec.variable_list().len() && (#[trigger] spec.variable_list()[i]).name == variable
            && says(spec.variable_list()[i].attributes, name, value)
}

/// Latitudes are degrees north on the Y axis, longitudes degrees east on the X axis,
/// the times lie on the T axis, and the reference time is counted from 1970 on.
pub proof fn law_axes(spec: NcText)
    ensures
        holds_attribute(spec, "latitude"@, "units"@, "degrees_north"@),
        holds_attribute(spec, "latitude"@, "axis"@, "Y"@),
        holds_attribute(spec, "latitude"@, "standard_name"@, "latitude"@),
        holds_attribute(spec, "longitude"@, "units"@, "degrees_east"@),
        holds_attribute(spec, "longitude"@, "axis"@, "X"@),
        holds_attribute(spec, "longitude"@, "standard_name"@, "longitude"@),
        holds_attribute(spec, "time"@, "axis"@, "T"@),
        holds_attribute(spec, "time"@, "standard_name"@, "time"@),
        holds_attribute(spec, "time"@, "units"@, spec.time_units()),
        holds_attribute(spec, "step"@, "standard_name"@, "forecast_period"@),
        holds_attribute(spec, "step"@, "units"@, "hours"@),
        holds_attribute(
            spec,
            "forecast_reference_time"@,
            "units"@,
            "seconds since 1970-01-01 00:00:00"@,
        ),
        holds_attribute(
            spec,
            "forecast_reference_time"@,
            "standard_name"@,
            "forecast_reference_time"@,
        ),
        holds_attribute(spec, "crs"@, "grid_mapping_name"@, "latitude_longitude"@),
        holds_attribute(spec, "crs"@, "crs_wkt"@, spec.crs_wkt),
{
    reveal_strlit("standard_name");
    reveal_strlit("long_name");
    reveal_strlit("units");
    reveal_strlit("calendar");
    reveal_strlit("axis");
    reveal_strlit("bounds");
    law_time_attributes(spec);
    let l = spec.variable_list();
    let n = if spec.intervals is Some {
        1int
    } else {
        0
    };
    let time = spec.time_variable().attributes;
    assert(l[0] == spec.time_variable());
    assert(time[0].0 == "standard_name"@ && time[1].0 == "long_name"@ && time[2].0 == "units"@
        && time[3].0 == "calendar"@ && time[4].0 == "axis"@);
    if spec.intervals is Some {
        assert(time[5].0 == "bounds"@);
    }
    assert(says(time, "axis"@, "T"@));
    assert(says(time, "standard_name"@, "time"@));
    let step = spec.step_variable().attributes;
    assert(l[n + 1] == spec.step_variable());
    assert(step[0].0 == "standard_name"@ && step[1].0 == "long_name"@ && step[2].0 == "units"@);
    assert(says(step, "standard_name"@, "forecast_period"@));
    let reference = spec.reference_variable().attributes;
    assert(l[n + 2] == spec.reference_variable());
    assert(reference[0].0 == "standard_name"@ && reference[1].0 == "long_name"@ && reference[2].0
        == "units"@ && reference[3].0 == "calendar"@);
    assert(says(reference, "units"@, "seconds since 1970-01-01 00:00:00"@));
    assert(says(reference, "standard_name"@, "forecast_reference_time"@));
    let lat = axis_variable("latitude"@, "degrees_north"@, "Y"@, Content::Latitudes);
    assert(l[n + 3] == lat);
    lemma_axis("latitude"@, "degrees_north"@, "Y"@, Content::Latitudes);
    let lon = axis_variable("longitude"@, "degrees_east"@, "X"@, Content::Longitudes);
    assert(l[n + 4] == lon);
    lemma_axis("longitude"@, "degrees_east"@, "X"@, Content::Longitudes);
    assert(l[n + 5] == spec.crs_variable());
    assert(l[0].name == "time"@ && l[n + 1].name == "step"@ && l[n + 2].name
        == "forecast_reference_time"@ && l[n + 3].name == "latitude"@ && l[n + 4].name
        == "longitude"@ && l[n + 5].name == "crs"@);
}

proof fn lemma_axis(name: Seq<char>, units: Seq<char>, axis: Seq<char>, content: Content)
    ensures
        says(axis_variable(name, units, axis, content).attributes, "units"@, units),
        says(axis_variable(name, units, axis, content).attributes, "axis"@, axis),
        says(axis_variable(name, units, axis, content).attributes, "standard_name"@, name),
{
    reveal_strlit("standard_name");
    reveal_strlit("long_name");
    reveal_strlit("units");
    reveal_strlit("axis");
    let a = axis_variable(name, units, axis, content).attributes;
    assert(a[0].0 == "standard_name"@ && a[1].0 == "long_name"@ && a[2].0 == "units"@ && a[3].0
        == "axis"@);
}

} // verus!
