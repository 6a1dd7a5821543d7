//! CF metadata: units normalisation, standard names, attribution text.
use crate::number;
use crate::text;
use vstd::prelude::*;
use vstd::slice::slice_subrange;
use vstd::string::*;

verus! {

/// The udunits spelling of an Open-Meteo unit.
pub open spec fn units_text(u: Seq<char>) -> Seq<char> {
    if u == "°C"@ {
        "degC"@
    } else if u == "W/m²"@ {
        "W m-2"@
    } else if u == "kg/m²"@ {
        "kg m-2"@
    } else if u == "m³/m³"@ {
        "m3 m-3"@
    } else if u == "m/s"@ {
        "m s-1"@
    } else if u == "km/h"@ {
        "km h-1"@
    } else if u == "°"@ {
        "degree"@
    } else if u == "wmo code"@
        || u == "undefined"@ {
        "1"@
    } else if u == ""@ {
        "1"@
    } else {
        u
    }
}

/// Map Open-Meteo unit strings to udunits-compatible spellings.
/// Returns the input unchanged when no mapping is needed.
pub fn cf_units(om_units: &str) -> (r: &str)
    ensures
        r@ == units_text(om_units@),
{
    if text::same(om_units, "°C") {
        "degC"
    } else if text::same(om_units, "W/m²") {
        "W m-2"
    } else if text::same(om_units, "kg/m²") {
        "kg m-2"
    } else if text::same(om_units, "m³/m³") {
        "m3 m-3"
    } else if text::same(om_units, "m/s") {
        "m s-1"
    } else if text::same(om_units, "km/h") {
        "km h-1"
    } else if text::same(om_units, "°") {
        "degree"
    } else if text::same(om_units, "wmo code") || text::same(om_units, "undefined") {
        "1"
    } else if text::same(om_units, "") {
        "1"
    } else {
        om_units
    }
}

/// The last position of `c` in `s`, or -1.
pub open spec fn last_position(s: Seq<char>, c: char) -> int
    decreases s.len(),
{
    if s.len() == 0 {
        -1
    } else if s.last() == c {
        s.len() - 1
    } else {
        last_position(s.drop_last(), c)
    }
}

/// A pressure level: `<N>hPa`.
pub open spec fn is_pressure_level(s: Seq<char>) -> bool {
    s.len() >= 3 && s.skip(s.len() - 3) == "hPa"@ && number::u32_of_text(
        s.take(s.len() - 3),
    ) is Some
}

/// The name of a variable without the `_<N>hPa` of a pressure level.
pub open spec fn base_name(var: Seq<char>) -> Seq<char> {
    let i = last_position(var, '_');
    if i >= 0 && is_pressure_level(var.skip(i + 1)) {
        var.take(i)
    } else {
        var
    }
}

/// The CF standard name of a variable that stands on no pressure level.
pub open spec fn base_standard_name(base: Seq<char>) -> Option<Seq<char>> {
    if base == "temperature_2m"@
        || base == "temperature"@ {
        Some("air_temperature"@)
    } else if base == "dew_point_2m"@ {
        Some("dew_point_temperature"@)
    } else if base == "relative_humidity_2m"@
        || base == "relative_humidity"@ {
        Some("relative_humidity"@)
    } else if base == "precipitation"@ {
        Some("precipitation_amount"@)
    } else if base == "rain"@ {
        Some("rainfall_amount"@)
    } else if base == "snowfall_water_equivalent"@ {
        Some("snowfall_amount"@)
    } else if base == "pressure_msl"@ {
        Some("air_pressure_at_mean_sea_level"@)
    } else if base == "surface_pressure"@ {
        Some("surface_air_pressure"@)
    } else if base == "wind_u_component_10m"@
        || base == "wind_u_component_100m"@
        || base == "wind_u_component"@ {
        Some("eastward_wind"@)
    } else if base == "wind_v_component_10m"@
        || base == "wind_v_component_100m"@
        || base == "wind_v_component"@ {
        Some("northward_wind"@)
    } else if base == "wind_gusts_10m"@ {
        Some("wind_speed_of_gust"@)
    } else if base == "cloud_cover"@ {
        Some("cloud_area_fraction"@)
    } else if base == "shortwave_radiation"@ {
        Some("surface_downwelling_shortwave_flux_in_air"@)
    } else if base == "direct_radiation"@ {
        Some("surface_direct_downwelling_shortwave_flux_in_air"@)
    } else if base == "diffuse_radiation"@ {
        Some("surface_diffuse_downwelling_shortwave_flux_in_air"@)
    } else if base == "surface_temperature"@ {
        Some("surface_temperature"@)
    } else if base == "sea_surface_temperature"@ {
        Some("sea_surface_temperature"@)
    } else if base == "snow_depth"@ {
        Some("surface_snow_thickness"@)
    } else if base == "cape"@ {
        Some("atmosphere_convective_available_potential_energy_wrt_surface"@)
    } else if base == "convective_inhibition"@ {
        Some("atmosphere_convective_inhibition_wrt_surface"@)
    } else if base == "boundary_layer_height"@ {
        Some("atmosphere_boundary_layer_thickness"@)
    } else if base == "total_column_integrated_water_vapour"@ {
        Some("atmosphere_mass_content_of_water_vapor"@)
    } else if base == "visibility"@ {
        Some("visibility_in_air"@)
    } else if base == "geopotential_height"@ {
        Some("geopotential_height"@)
    } else if base == "vertical_velocity"@ {
        Some("upward_air_velocity"@)
    } else if base == "latent_heat_flux"@ {
        Some("surface_upward_latent_heat_flux"@)
    } else if base == "sensible_heat_flux"@ {
        Some("surface_upward_sensible_heat_flux"@)
    } else if base == "freezing_level_height"@ {
        Some("freezing_level_altitude"@)
    } else if base == "sea_level_height_msl"@ {
        Some("sea_surface_height_above_mean_sea_level"@)
    } else if base == "ocean_u_current"@ {
        Some("eastward_sea_water_velocity"@)
    } else if base == "ocean_v_current"@ {
        Some("northward_sea_water_velocity"@)
    } else if base == "sea_ice_thickness"@ {
        Some("sea_ice_thickness"@)
    } else if base == "sea_water_salinity"@ {
        Some("sea_water_salinity"@)
    } else {
        None
    }
}

pub open spec fn standard_name_text(var: Seq<char>) -> Option<Seq<char>> {
    base_standard_name(base_name(var))
}

/// The name of a variable without the level, as characters.
fn base_chars(var: &[char]) -> (r: &[char])
    ensures
        r@ == base_name(var@),
{
    let mut i: usize = var.len();
    assert(var@.take(i as int) == var@);
    while i > 0 && var[i - 1] != '_'
        invariant
            i <= var.len(),
            last_position(var@, '_') == last_position(var@.take(i as int), '_'),
        decreases i,
    {
        assert(var@.take(i as int).drop_last() == var@.take(i - 1));
        i -= 1;
    }
    if i == 0 {
        return var;
    }
    let level = slice_subrange(var, i, var.len());
    assert(last_position(var@, '_') == i - 1);
    assert(level@ == var@.skip(i as int));
    let n: usize = level.len();
    let suffix = text::chars_of("hPa");
    if n >= 3 && text::same_chars(slice_subrange(level, n - 3, n), suffix.as_slice())
        && number::u32_of_chars(slice_subrange(level, 0, n - 3)).is_some() {
        assert(level@.subrange(n - 3, n as int) == level@.skip(n - 3));
        assert(level@.subrange(0, n - 3) == level@.take(n - 3));
        let base = slice_subrange(var, 0, i - 1);
        assert(base@ == var@.take(i - 1));
        base
    } else {
        proof {
            if n >= 3 {
                assert(level@.subrange(n - 3, n as int) == level@.skip(n - 3));
                assert(level@.subrange(0, n - 3) == level@.take(n - 3));
            }
        }
        var
    }
}

/// CF standard name for an Open-Meteo variable, when there is a clean match.
pub fn standard_name(var: &str) -> (r: Option<&'static str>)
    ensures
        match r {
            Some(n) => standard_name_text(var@) == Some(n@),
            None => standard_name_text(var@) is None,
        },
{
    let c = text::chars_of(var);
    let b = text::string_of(base_chars(c.as_slice()));
    let base = b.as_str();
    if text::same(base, "temperature_2m") || text::same(base, "temperature") {
        Some("air_temperature")
    } else if text::same(base, "dew_point_2m") {
        Some("dew_point_temperature")
    } else if text::same(base, "relative_humidity_2m") || text::same(base, "relative_humidity") {
        Some("relative_humidity")
    } else if text::same(base, "precipitation") {
        Some("precipitation_amount")
    } else if text::same(base, "rain") {
        Some("rainfall_amount")
    } else if text::same(base, "snowfall_water_equivalent") {
        Some("snowfall_amount")
    } else if text::same(base, "pressure_msl") {
        Some("air_pressure_at_mean_sea_level")
    } else if text::same(base, "surface_pressure") {
        Some("surface_air_pressure")
    } else if text::same(base, "wind_u_component_10m")
        || text::same(base, "wind_u_component_100m")
        || text::same(base, "wind_u_component") {
        Some("eastward_wind")
    } else if text::same(base, "wind_v_component_10m")
        || text::same(base, "wind_v_component_100m")
        || text::same(base, "wind_v_component") {
        Some("northward_wind")
    } else if text::same(base, "wind_gusts_10m") {
        Some("wind_speed_of_gust")
    } else if text::same(base, "cloud_cover") {
        Some("cloud_area_fraction")
    } else if text::same(base, "shortwave_radiation") {
        Some("surface_downwelling_shortwave_flux_in_air")
    } else if text::same(base, "direct_radiation") {
        Some("surface_direct_downwelling_shortwave_flux_in_air")
    } else if text::same(base, "diffuse_radiation") {
        Some("surface_diffuse_downwelling_shortwave_flux_in_air")
    } else if text::same(base, "surface_temperature") {
        Some("surface_temperature")
    } else if text::same(base, "sea_surface_temperature") {
        Some("sea_surface_temperature")
    } else if text::same(base, "snow_depth") {
        Some("surface_snow_thickness")
    } else if text::same(base, "cape") {
        Some("atmosphere_convective_available_potential_energy_wrt_surface")
    } else if text::same(base, "convective_inhibition") {
        Some("atmosphere_convective_inhibition_wrt_surface")
    } else if text::same(base, "boundary_layer_height") {
        Some("atmosphere_boundary_layer_thickness")
    } else if text::same(base, "total_column_integrated_water_vapour") {
        Some("atmosphere_mass_content_of_water_vapor")
    } else if text::same(base, "visibility") {
        Some("visibility_in_air")
    } else if text::same(base, "geopotential_height") {
        Some("geopotential_height")
    } else if text::same(base, "vertical_velocity") {
        Some("upward_air_velocity")
    } else if text::same(base, "latent_heat_flux") {
        Some("surface_upward_latent_heat_flux")
    } else if text::same(base, "sensible_heat_flux") {
        Some("surface_upward_sensible_heat_flux")
    } else if text::same(base, "freezing_level_height") {
        Some("freezing_level_altitude")
    } else if text::same(base, "sea_level_height_msl") {
        Some("sea_surface_height_above_mean_sea_level")
    } else if text::same(base, "ocean_u_current") {
        Some("eastward_sea_water_velocity")
    } else if text::same(base, "ocean_v_current") {
        Some("northward_sea_water_velocity")
    } else if text::same(base, "sea_ice_thickness") {
        Some("sea_ice_thickness")
    } else if text::same(base, "sea_water_salinity") {
        Some("sea_water_salinity")
    } else {
        None
    }
}

/// How a variable relates to the interval since the previous model output time.
#[derive(Debug, Clone, Copy, PartialEq, Eq, Structural)]
pub enum Reduction {
    /// Amount accumulated over the interval (mm); combine sub-intervals by summing.
    Sum,
    /// Mean flux over the interval (W/m2); combine by duration-weighted mean.
    Mean,
    Maximum,
    Minimum,
}

impl Reduction {
    pub open spec fn cell_methods_text(self) -> Seq<char> {
        match self {
            Reduction::Sum => "time: sum"@,
            Reduction::Mean => "time: mean"@,
            Reduction::Maximum => "time: maximum"@,
            Reduction::Minimum => "time: minimum"@,
        }
    }

    pub fn cell_methods(self) -> (r: &'static str)
        ensures
            r@ == self.cell_methods_text(),
    {
        match self {
            Reduction::Sum => "time: sum",
            Reduction::Mean => "time: mean",
            Reduction::Maximum => "time: maximum",
            Reduction::Minimum => "time: minimum",
        }
    }
}

/// Interval semantics of an Open-Meteo variable, `None` for instantaneous fields.
pub open spec fn reduction_of(var: Seq<char>) -> Option<Reduction> {
    if var == "precipitation"@
        || var == "rain"@
        || var == "showers"@
        || var == "snowfall"@
        || var == "snowfall_water_equivalent"@
        || var == "runoff"@
        || var == "evapotranspiration"@
        || var == "et0_fao_evapotranspiration"@ {
        Some(Reduction::Sum)
    } else if var == "shortwave_radiation"@
        || var == "direct_radiation"@
        || var == "diffuse_radiation"@
        || var == "direct_normal_irradiance"@
        || var == "global_tilted_irradiance"@
        || var == "terrestrial_radiation"@
        || var == "shortwave_radiation_clear_sky"@
        || var == "latent_heat_flux"@
        || var == "sensible_heat_flux"@ {
        Some(Reduction::Mean)
    } else if var == "temperature_2m_max"@
        || var == "wind_gusts_10m"@ {
        Some(Reduction::Maximum)
    } else if var == "temperature_2m_min"@ {
        Some(Reduction::Minimum)
    } else {
        None
    }
}

/// Interval semantics of an Open-Meteo variable, `None` for instantaneous fields.
pub fn interval_reduction(var: &str) -> (r: Option<Reduction>)
    ensures
        r == reduction_of(var@),
{
    if text::same(var, "precipitation")
        || text::same(var, "rain")
        || text::same(var, "showers")
        || text::same(var, "snowfall")
        || text::same(var, "snowfall_water_equivalent")
        || text::same(var, "runoff")
        || text::same(var, "evapotranspiration")
        || text::same(var, "et0_fao_evapotranspiration") {
        Some(Reduction::Sum)
    } else if text::same(var, "shortwave_radiation")
        || text::same(var, "direct_radiation")
        || text::same(var, "diffuse_radiation")
        || text::same(var, "direct_normal_irradiance")
        || text::same(var, "global_tilted_irradiance")
        || text::same(var, "terrestrial_radiation")
        || text::same(var, "shortwave_radiation_clear_sky")
        || text::same(var, "latent_heat_flux")
        || text::same(var, "sensible_heat_flux") {
        Some(Reduction::Mean)
    } else if text::same(var, "temperature_2m_max") || text::same(var, "wind_gusts_10m") {
        Some(Reduction::Maximum)
    } else if text::same(var, "temperature_2m_min") {
        Some(Reduction::Minimum)
    } else {
        None
    }
}

pub open spec fn long_name_text(var: Seq<char>) -> Seq<char> {
    Seq::new(
        var.len(),
        |i: int|
            if var[i] == '_' {
                ' '
            } else {
                var[i]
            },
    )
}

/// Human readable name derived from the variable name.
pub fn long_name(var: &str) -> (r: String)
    ensures
        r@ == long_name_text(var@),
{
    let c = text::chars_of(var);
    let mut out = String::new();
    let mut i: usize = 0;
    while i < c.len()
        invariant
            i <= c.len(),
            out@ == long_name_text(c@).take(i as int),
        decreases c.len() - i,
    {
        let x = c[i];
        if x == '_' {
            out.push(' ');
        } else {
            out.push(x);
        }
        i += 1;
        assert(long_name_text(c@).take(i as int) == long_name_text(c@).take(i - 1).push(
            long_name_text(c@)[i - 1],
        ));
    }
    assert(long_name_text(c@).take(i as int) == long_name_text(c@));
    out
}

pub open spec fn starts_with(s: Seq<char>, p: Seq<char>) -> bool {
    s.len() >= p.len() && s.take(p.len() as int) == p
}

/// Data provider behind a model.
pub open spec fn provider_text(model: Seq<char>) -> Seq<char> {
    if starts_with(model, "ecmwf_"@) {
        "ECMWF"@
    } else if starts_with(model, "dwd_"@) {
        "Deutscher Wetterdienst (DWD)"@
    } else if starts_with(model, "ncep_"@) {
        "NOAA NCEP"@
    } else if starts_with(model, "meteofrance_"@) {
        "Météo-France"@
    } else if starts_with(model, "cmc_"@) {
        "Environment and Climate Change Canada (CMC)"@
    } else if starts_with(model, "jma_"@) {
        "Japan Meteorological Agency (JMA)"@
    } else if starts_with(model, "ukmo_"@) {
        "UK Met Office"@
    } else if starts_with(model, "knmi_"@) {
        "KNMI"@
    } else if starts_with(model, "dmi_"@) {
        "Danish Meteorological Institute (DMI)"@
    } else if starts_with(model, "metno_"@) {
        "MET Norway"@
    } else if starts_with(model, "bom_"@) {
        "Australian Bureau of Meteorology (BOM)"@
    } else if starts_with(model, "cma_"@) {
        "China Meteorological Administration (CMA)"@
    } else if starts_with(model, "kma_"@) {
        "Korea Meteorological Administration (KMA)"@
    } else if starts_with(model, "italia_meteo_"@) {
        "ItaliaMeteo / ARPAE"@
    } else if starts_with(model, "geosphere_"@) {
        "GeoSphere Austria"@
    } else if starts_with(model, "chmi_"@) {
        "Czech Hydrometeorological Institute (CHMI)"@
    } else if starts_with(model, "cams_"@) {
        "Copernicus Atmosphere Monitoring Service (CAMS)"@
    } else if starts_with(model, "meteoswiss_"@) {
        "MeteoSwiss"@
    } else {
        "the originating national weather service"@
    }
}

/// Whether `s` starts with `p`.
fn has_prefix(s: &[char], p: &str) -> (r: bool)
    ensures
        r == starts_with(s@, p@),
{
    let c = text::chars_of(p);
    if s.len() < c.len() {
        return false;
    }
    let head = slice_subrange(s, 0, c.len());
    assert(head@ == s@.take(c@.len() as int));
    text::same_chars(head, c.as_slice())
}

/// Data provider behind a model, for the attribution attribute.
pub fn provider(model: &str) -> (r: &'static str)
    ensures
        r@ == provider_text(model@),
{
    let c = text::chars_of(model);
    let m = c.as_slice();
    if has_prefix(m, "ecmwf_") {
        "ECMWF"
    } else if has_prefix(m, "dwd_") {
        "Deutscher Wetterdienst (DWD)"
    } else if has_prefix(m, "ncep_") {
        "NOAA NCEP"
    } else if has_prefix(m, "meteofrance_") {
        "Météo-France"
    } else if has_prefix(m, "cmc_") {
        "Environment and Climate Change Canada (CMC)"
    } else if has_prefix(m, "jma_") {
        "Japan Meteorological Agency (JMA)"
    } else if has_prefix(m, "ukmo_") {
        "UK Met Office"
    } else if has_prefix(m, "knmi_") {
        "KNMI"
    } else if has_prefix(m, "dmi_") {
        "Danish Meteorological Institute (DMI)"
    } else if has_prefix(m, "metno_") {
        "MET Norway"
    } else if has_prefix(m, "bom_") {
        "Australian Bureau of Meteorology (BOM)"
    } else if has_prefix(m, "cma_") {
        "China Meteorological Administration (CMA)"
    } else if has_prefix(m, "kma_") {
        "Korea Meteorological Administration (KMA)"
    } else if has_prefix(m, "italia_meteo_") {
        "ItaliaMeteo / ARPAE"
    } else if has_prefix(m, "geosphere_") {
        "GeoSphere Austria"
    } else if has_prefix(m, "chmi_") {
        "Czech Hydrometeorological Institute (CHMI)"
    } else if has_prefix(m, "cams_") {
        "Copernicus Atmosphere Monitoring Service (CAMS)"
    } else if has_prefix(m, "meteoswiss_") {
        "MeteoSwiss"
    } else {
        "the originating national weather service"
    }
}

pub open spec fn attribution_text(model: Seq<char>) -> Seq<char> {
    "Weather data by Open-Meteo.com (https://open-meteo.com), based on "@ + provider_text(model)
        + " model "@ + model + ". Licensed under CC BY 4.0."@
}

pub fn attribution(model: &str) -> (r: String)
    ensures
        r@ == attribution_text(model@),
{
    let mut out = "Weather data by Open-Meteo.com (https://open-meteo.com), based on ".to_owned();
    out.append(provider(model));
    out.append(" model ");
    out.append(model);
    out.append(". Licensed under CC BY 4.0.");
    out
}

/// The name without a pressure level decides the standard name: a variable has on
/// every level the one that it has without a level.
pub proof fn law_levels_keep_the_standard_name(base: Seq<char>, level: Seq<char>)
    requires
        number::u32_of_text(level) is Some,
    ensures
        standard_name_text(base + "_"@ + level + "hPa"@) == base_standard_name(base),
{
    reveal_strlit("_");
    reveal_strlit("hPa");
    let tail = level + "hPa"@;
    let var = base + "_"@ + level + "hPa"@;
    let n = base.len() as int;
    assert forall|i: int| 0 <= i < tail.len() implies #[trigger] tail[i] != '_' by {
        if i < level.len() {
            assert(tail[i] == level[i]);
            if i > 0 || level[0] != '+' {
                let digits = if level[0] == '+' {
                    level.drop_first()
                } else {
                    level
                };
                let j = if level[0] == '+' {
                    i - 1
                } else {
                    i
                };
                assert(text::is_digit(digits[j]));
            }
        }
    }
    assert(var == base + "_"@ + tail);
    lemma_last_position(base, tail);
    assert(var.skip(n + 1) == tail);
    assert(tail.skip(tail.len() - 3) == "hPa"@);
    assert(tail.take(tail.len() - 3) == level);
    assert(var.take(n) == base);
}

proof fn lemma_last_position(base: Seq<char>, tail: Seq<char>)
    requires
        forall|i: int| 0 <= i < tail.len() ==> #[trigger] tail[i] != '_',
    ensures
        last_position(base + "_"@ + tail, '_') == base.len(),
    decreases tail.len(),
{
    reveal_strlit("_");
    let s = base + "_"@ + tail;
    if tail.len() == 0 {
        assert(s.last() == '_');
    } else {
        let front = tail.drop_last();
        assert(s.last() == tail[tail.len() - 1]);
        assert(s.drop_last() == base + "_"@ + front);
        assert forall|i: int| 0 <= i < front.len() implies #[trigger] front[i] != '_' by {
            assert(front[i] == tail[i]);
        }
        lemma_last_position(base, front);
    }
}

/// The variables that cover an interval, and how they do.
pub proof fn law_interval_variables(var: Seq<char>)
    ensures
        reduction_of(var) == Some(Reduction::Sum) <==> seq![
            "precipitation"@,
            "rain"@,
            "showers"@,
            "snowfall"@,
            "snowfall_water_equivalent"@,
            "runoff"@,
            "evapotranspiration"@,
            "et0_fao_evapotranspiration"@,
        ].contains(var),
        reduction_of(var) == Some(Reduction::Maximum) <==> seq![
            "temperature_2m_max"@,
            "wind_gusts_10m"@,
        ].contains(var),
        reduction_of(var) == Some(Reduction::Minimum) <==> var == "temperature_2m_min"@,
        reduction_of(var) == Some(Reduction::Mean) <==> seq![
            "shortwave_radiation"@,
            "direct_radiation"@,
            "diffuse_radiation"@,
            "direct_normal_irradiance"@,
            "global_tilted_irradiance"@,
            "terrestrial_radiation"@,
            "shortwave_radiation_clear_sky"@,
            "latent_heat_flux"@,
            "sensible_heat_flux"@,
        ].contains(var),
{
    reveal_strlit("precipitation");
    reveal_strlit("rain");
    reveal_strlit("showers");
    reveal_strlit("snowfall");
    reveal_strlit("snowfall_water_equivalent");
    reveal_strlit("runoff");
    reveal_strlit("evapotranspiration");
    reveal_strlit("et0_fao_evapotranspiration");
    reveal_strlit("temperature_2m_max");
    reveal_strlit("wind_gusts_10m");
    reveal_strlit("temperature_2m_min");
    reveal_strlit("shortwave_radiation");
    reveal_strlit("direct_radiation");
    reveal_strlit("diffuse_radiation");
    reveal_strlit("direct_normal_irradiance");
    reveal_strlit("global_tilted_irradiance");
    reveal_strlit("terrestrial_radiation");
    reveal_strlit("shortwave_radiation_clear_sky");
    reveal_strlit("latent_heat_flux");
    reveal_strlit("sensible_heat_flux");
    assert("evapotranspiration"@[0] == 'e' && "temperature_2m_max"@[0] == 't');
    assert("evapotranspiration"@[0] == 'e' && "temperature_2m_min"@[0] == 't');
    assert("evapotranspiration"@[0] == 'e' && "sensible_heat_flux"@[0] == 's');
    assert("temperature_2m_max"@[16] == 'a' && "temperature_2m_min"@[16] == 'i');
    assert("temperature_2m_max"@[0] == 't' && "sensible_heat_flux"@[0] == 's');
    assert("temperature_2m_min"@[0] == 't' && "sensible_heat_flux"@[0] == 's');
    assert("direct_radiation"@[0] == 'd' && "latent_heat_flux"@[0] == 'l');
    assert("direct_normal_irradiance"@[0] == 'd' && "global_tilted_irradiance"@[0] == 'g');
    let sums = seq![
        "precipitation"@,
        "rain"@,
        "showers"@,
        "snowfall"@,
        "snowfall_water_equivalent"@,
        "runoff"@,
        "evapotranspiration"@,
        "et0_fao_evapotranspiration"@,
    ];
    let means = seq![
        "shortwave_radiation"@,
        "direct_radiation"@,
        "diffuse_radiation"@,
        "direct_normal_irradiance"@,
        "global_tilted_irradiance"@,
        "terrestrial_radiation"@,
        "shortwave_radiation_clear_sky"@,
        "latent_heat_flux"@,
        "sensible_heat_flux"@,
    ];
    let maxima = seq!["temperature_2m_max"@, "wind_gusts_10m"@];
    assert(sums[0] == "precipitation"@ && sums[1] == "rain"@ && sums[2] == "showers"@ && sums[3]
        == "snowfall"@ && sums[4] == "snowfall_water_equivalent"@ && sums[5] == "runoff"@
        && sums[6] == "evapotranspiration"@ && sums[7] == "et0_fao_evapotranspiration"@);
    assert(means[0] == "shortwave_radiation"@ && means[1] == "direct_radiation"@ && means[2]
        == "diffuse_radiation"@ && means[3] == "direct_normal_irradiance"@ && means[4]
        == "global_tilted_irradiance"@ && means[5] == "terrestrial_radiation"@ && means[6]
        == "shortwave_radiation_clear_sky"@ && means[7] == "latent_heat_flux"@ && means[8]
        == "sensible_heat_flux"@);
    assert(maxima[0] == "temperature_2m_max"@ && maxima[1] == "wind_gusts_10m"@);
    if sums.contains(var) {
        let k = choose|k: int| 0 <= k < sums.len() && sums[k] == var;
        assert(k == 0 || k == 1 || k == 2 || k == 3 || k == 4 || k == 5 || k == 6 || k == 7);
    }
    if means.contains(var) {
        let k = choose|k: int| 0 <= k < means.len() && means[k] == var;
        assert(k == 0 || k == 1 || k == 2 || k == 3 || k == 4 || k == 5 || k == 6 || k == 7 || k
            == 8);
    }
    if maxima.contains(var) {
        let k = choose|k: int| 0 <= k < maxima.len() && maxima[k] == var;
        assert(k == 0 || k == 1);
    }
}

/// Each reduction is written in its own way.
pub proof fn law_cell_methods_differ(a: Reduction, b: Reduction)
    ensures
        a.cell_methods_text() == b.cell_methods_text() ==> a == b,
{
    reveal_strlit("time: sum");
    reveal_strlit("time: mean");
    reveal_strlit("time: maximum");
    reveal_strlit("time: minimum");
    assert("time: maximum"@[7] == 'a' && "time: minimum"@[7] == 'i');
    assert("time: sum"@.len() == 9 && "time: mean"@.len() == 10 && "time: maximum"@.len() == 13);
    assert("time: minimum"@.len() == 13);
}

/// A unit in the spelling of udunits needs no other spelling, and a unit without a
/// spelling of its own is kept; a variable without a unit has the unit 1.
pub proof fn law_units_are_spelled_once(u: Seq<char>)
    ensures
        units_text(units_text(u)) == units_text(u),
        units_text(u) == u || seq![
            "°C"@,
            "W/m²"@,
            "kg/m²"@,
            "m³/m³"@,
            "m/s"@,
            "km/h"@,
            "°"@,
            "wmo code"@,
            "undefined"@,
            ""@,
        ].contains(u),
        units_text(Seq::empty()) == "1"@,
        u == "°C"@ ==> units_text(u) == "degC"@,
        u == "W/m²"@ ==> units_text(u) == "W m-2"@,
        u == "kg/m²"@ ==> units_text(u) == "kg m-2"@,
        u == "m³/m³"@ ==> units_text(u) == "m3 m-3"@,
        u == "m/s"@ ==> units_text(u) == "m s-1"@,
        u == "km/h"@ ==> units_text(u) == "km h-1"@,
        u == "°"@ ==> units_text(u) == "degree"@,
        u == "wmo code"@ || u == "undefined"@ ==> units_text(u) == "1"@,
{
    reveal_strlit("°C");
    reveal_strlit("W/m²");
    reveal_strlit("kg/m²");
    reveal_strlit("m³/m³");
    reveal_strlit("m/s");
    reveal_strlit("km/h");
    reveal_strlit("°");
    reveal_strlit("wmo code");
    reveal_strlit("undefined");
    reveal_strlit("");
    reveal_strlit("1");
    reveal_strlit("degC");
    reveal_strlit("W m-2");
    reveal_strlit("kg m-2");
    reveal_strlit("m3 m-3");
    reveal_strlit("m s-1");
    reveal_strlit("km h-1");
    reveal_strlit("degree");
    assert("W/m²"@[0] == 'W' && "km/h"@[0] == 'k');
    assert("W/m²"@[0] == 'W' && "degC"@[0] == 'd');
    assert("kg/m²"@[0] == 'k' && "m³/m³"@[0] == 'm');
    assert("kg/m²"@[0] == 'k' && "W m-2"@[0] == 'W');
    assert("kg/m²"@[0] == 'k' && "m s-1"@[0] == 'm');
    assert("m³/m³"@[0] == 'm' && "W m-2"@[0] == 'W');
    assert("m³/m³"@[1] == '³' && "m s-1"@[1] == ' ');
    assert("km/h"@[0] == 'k' && "degC"@[0] == 'd');
    assert("°"@[0] == '°' && "1"@[0] == '1');
    assert("W m-2"@[0] == 'W' && "m s-1"@[0] == 'm');
    assert("kg m-2"@[0] == 'k' && "m3 m-3"@[0] == 'm');
    assert("kg m-2"@[1] == 'g' && "km h-1"@[1] == 'm');
    assert("kg m-2"@[0] == 'k' && "degree"@[0] == 'd');
    assert("m3 m-3"@[0] == 'm' && "km h-1"@[0] == 'k');
    assert("m3 m-3"@[0] == 'm' && "degree"@[0] == 'd');
    assert("km h-1"@[0] == 'k' && "degree"@[0] == 'd');
    let l = seq![
        "°C"@,
        "W/m²"@,
        "kg/m²"@,
        "m³/m³"@,
        "m/s"@,
        "km/h"@,
        "°"@,
        "wmo code"@,
        "undefined"@,
        ""@,
    ];
    assert(l[0] == "°C"@ && l[1] == "W/m²"@ && l[2] == "kg/m²"@ && l[3] == "m³/m³"@ && l[4]
        == "m/s"@ && l[5] == "km/h"@ && l[6] == "°"@ && l[7] == "wmo code"@ && l[8] == "undefined"@
        && l[9] == ""@);
    assert(Seq::<char>::empty() == ""@);
}

/// A long name is the name with its underscores as spaces, and nothing else changed.
pub proof fn law_long_names(var: Seq<char>)
    ensures
        long_name_text(var).len() == var.len(),
        forall|i: int|
            0 <= i < var.len() ==> (#[trigger] long_name_text(var)[i] == var[i] && var[i] != '_')
                || (long_name_text(var)[i] == ' ' && var[i] == '_'),
{
}

/// The variables that have a CF standard name, each with the name.
pub open spec fn standard_name_table() -> Seq<(Seq<char>, Seq<char>)> {
    seq![
        ("temperature_2m"@, "air_temperature"@),
        ("temperature"@, "air_temperature"@),
        ("dew_point_2m"@, "dew_point_temperature"@),
        ("relative_humidity_2m"@, "relative_humidity"@),
        ("relative_humidity"@, "relative_humidity"@),
        ("precipitation"@, "precipitation_amount"@),
        ("rain"@, "rainfall_amount"@),
        ("snowfall_water_equivalent"@, "snowfall_amount"@),
        ("pressure_msl"@, "air_pressure_at_mean_sea_level"@),
        ("surface_pressure"@, "surface_air_pressure"@),
        ("wind_u_component_10m"@, "eastward_wind"@),
        ("wind_u_component_100m"@, "eastward_wind"@),
        ("wind_u_component"@, "eastward_wind"@),
        ("wind_v_component_10m"@, "northward_wind"@),
        ("wind_v_component_100m"@, "northward_wind"@),
        ("wind_v_component"@, "northward_wind"@),
        ("wind_gusts_10m"@, "wind_speed_of_gust"@),
        ("cloud_cover"@, "cloud_area_fraction"@),
        ("shortwave_radiation"@, "surface_downwelling_shortwave_flux_in_air"@),
        ("direct_radiation"@, "surface_direct_downwelling_shortwave_flux_in_air"@),
        ("diffuse_radiation"@, "surface_diffuse_downwelling_shortwave_flux_in_air"@),
        ("surface_temperature"@, "surface_temperature"@),
        ("sea_surface_temperature"@, "sea_surface_temperature"@),
        ("snow_depth"@, "surface_snow_thickness"@),
        ("cape"@, "atmosphere_convective_available_potential_energy_wrt_surface"@),
        ("convective_inhibition"@, "atmosphere_convective_inhibition_wrt_surface"@),
        ("boundary_layer_height"@, "atmosphere_boundary_layer_thickness"@),
        ("total_column_integrated_water_vapour"@, "atmosphere_mass_content_of_water_vapor"@),
        ("visibility"@, "visibility_in_air"@),
        ("geopotential_height"@, "geopotential_height"@),
        ("vertical_velocity"@, "upward_air_velocity"@),
        ("latent_heat_flux"@, "surface_upward_latent_heat_flux"@),
        ("sensible_heat_flux"@, "surface_upward_sensible_heat_flux"@),
        ("freezing_level_height"@, "freezing_level_altitude"@),
        ("sea_level_height_msl"@, "sea_surface_height_above_mean_sea_level"@),
        ("ocean_u_current"@, "eastward_sea_water_velocity"@),
        ("ocean_v_current"@, "northward_sea_water_velocity"@),
        ("sea_ice_thickness"@, "sea_ice_thickness"@),
        ("sea_water_salinity"@, "sea_water_salinity"@),
    ]
}

/// A variable on no pressure level has the standard name of the table, and none where
/// the table does not have it.
pub proof fn law_standard_names(base: Seq<char>)
    ensures
        forall|k: int|
            0 <= k < standard_name_table().len() && (#[trigger] standard_name_table()[k]).0 == base
                ==> base_standard_name(base) == Some(standard_name_table()[k].1),
        (forall|k: int|
            0 <= k < standard_name_table().len() ==> (#[trigger] standard_name_table()[k]).0
                != base) ==> base_standard_name(base) is None,
{
    reveal_strlit("temperature_2m");
    assert("temperature_2m"@.len() == 14);
    reveal_strlit("temperature");
    assert("temperature"@.len() == 11);
    reveal_strlit("dew_point_2m");
    assert("dew_point_2m"@.len() == 12);
    reveal_strlit("relative_humidity_2m");
    assert("relative_humidity_2m"@.len() == 20);
    reveal_strlit("relative_humidity");
    assert("relative_humidity"@.len() == 17);
    reveal_strlit("precipitation");
    assert("precipitation"@.len() == 13);
    reveal_strlit("rain");
    assert("rain"@.len() == 4);
    reveal_strlit("snowfall_water_equivalent");
    assert("snowfall_water_equivalent"@.len() == 25);
    reveal_strlit("pressure_msl");
    assert("pressure_msl"@.len() == 12);
    reveal_strlit("surface_pressure");
    assert("surface_pressure"@.len() == 16);
    reveal_strlit("wind_u_component_10m");
    assert("wind_u_component_10m"@.len() == 20);
    reveal_strlit("wind_u_component_100m");
    assert("wind_u_component_100m"@.len() == 21);
    reveal_strlit("wind_u_component");
    assert("wind_u_component"@.len() == 16);
    reveal_strlit("wind_v_component_10m");
    assert("wind_v_component_10m"@.len() == 20);
    reveal_strlit("wind_v_component_100m");
    assert("wind_v_component_100m"@.len() == 21);
    reveal_strlit("wind_v_component");
    assert("wind_v_component"@.len() == 16);
    reveal_strlit("wind_gusts_10m");
    assert("wind_gusts_10m"@.len() == 14);
    reveal_strlit("cloud_cover");
    assert("cloud_cover"@.len() == 11);
    reveal_strlit("shortwave_radiation");
    assert("shortwave_radiation"@.len() == 19);
    reveal_strlit("direct_radiation");
    assert("direct_radiation"@.len() == 16);
    reveal_strlit("diffuse_radiation");
    assert("diffuse_radiation"@.len() == 17);
    reveal_strlit("surface_temperature");
    assert("surface_temperature"@.len() == 19);
    reveal_strlit("sea_surface_temperature");
    assert("sea_surface_temperature"@.len() == 23);
    reveal_strlit("snow_depth");
    assert("snow_depth"@.len() == 10);
    reveal_strlit("cape");
    assert("cape"@.len() == 4);
    reveal_strlit("convective_inhibition");
    assert("convective_inhibition"@.len() == 21);
    reveal_strlit("boundary_layer_height");
    assert("boundary_layer_height"@.len() == 21);
    reveal_strlit("total_column_integrated_water_vapour");
    assert("total_column_integrated_water_vapour"@.len() == 36);
    reveal_strlit("visibility");
    assert("visibility"@.len() == 10);
    reveal_strlit("geopotential_height");
    assert("geopotential_height"@.len() == 19);
    reveal_strlit("vertical_velocity");
    assert("vertical_velocity"@.len() == 17);
    reveal_strlit("latent_heat_flux");
    assert("latent_heat_flux"@.len() == 16);
    reveal_strlit("sensible_heat_flux");
    assert("sensible_heat_flux"@.len() == 18);
    reveal_strlit("freezing_level_height");
    assert("freezing_level_height"@.len() == 21);
    reveal_strlit("sea_level_height_msl");
    assert("sea_level_height_msl"@.len() == 20);
    reveal_strlit("ocean_u_current");
    assert("ocean_u_current"@.len() == 15);
    reveal_strlit("ocean_v_current");
    assert("ocean_v_current"@.len() == 15);
    reveal_strlit("sea_ice_thickness");
    assert("sea_ice_thickness"@.len() == 17);
    reveal_strlit("sea_water_salinity");
    assert("sea_water_salinity"@.len() == 18);
    assert("temperature_2m"@[0] == 't' && "wind_gusts_10m"@[0] == 'w');
    assert("temperature"@[0] == 't' && "cloud_cover"@[0] == 'c');
    assert("dew_point_2m"@[0] == 'd' && "pressure_msl"@[0] == 'p');
    assert("relative_humidity_2m"@[0] == 'r' && "wind_u_component_10m"@[0] == 'w');
    assert("relative_humidity_2m"@[0] == 'r' && "wind_v_component_10m"@[0] == 'w');
    assert("relative_humidity_2m"@[0] == 'r' && "sea_level_height_msl"@[0] == 's');
    assert("relative_humidity"@[0] == 'r' && "diffuse_radiation"@[0] == 'd');
    assert("relative_humidity"@[0] == 'r' && "vertical_velocity"@[0] == 'v');
    assert("relative_humidity"@[0] == 'r' && "sea_ice_thickness"@[0] == 's');
    assert("rain"@[0] == 'r' && "cape"@[0] == 'c');
    assert("surface_pressure"@[0] == 's' && "wind_u_component"@[0] == 'w');
    assert("surface_pressure"@[0] == 's' && "wind_v_component"@[0] == 'w');
    assert("surface_pressure"@[0] == 's' && "direct_radiation"@[0] == 'd');
    assert("surface_pressure"@[0] == 's' && "latent_heat_flux"@[0] == 'l');
    assert("wind_u_component_10m"@[5] == 'u' && "wind_v_component_10m"@[5] == 'v');
    assert("wind_u_component_10m"@[0] == 'w' && "sea_level_height_msl"@[0] == 's');
    assert("wind_u_component_100m"@[5] == 'u' && "wind_v_component_100m"@[5] == 'v');
    assert("wind_u_component_100m"@[0] == 'w' && "convective_inhibition"@[0] == 'c');
    assert("wind_u_component_100m"@[0] == 'w' && "boundary_layer_height"@[0] == 'b');
    assert("wind_u_component_100m"@[0] == 'w' && "freezing_level_height"@[0] == 'f');
    assert("wind_u_component"@[5] == 'u' && "wind_v_component"@[5] == 'v');
    assert("wind_u_component"@[0] == 'w' && "direct_radiation"@[0] == 'd');
    assert("wind_u_component"@[0] == 'w' && "latent_heat_flux"@[0] == 'l');
    assert("wind_v_component_10m"@[0] == 'w' && "sea_level_height_msl"@[0] == 's');
    assert("wind_v_component_100m"@[0] == 'w' && "convective_inhibition"@[0] == 'c');
    assert("wind_v_component_100m"@[0] == 'w' && "boundary_layer_height"@[0] == 'b');
    assert("wind_v_component_100m"@[0] == 'w' && "freezing_level_height"@[0] == 'f');
    assert("wind_v_component"@[0] == 'w' && "direct_radiation"@[0] == 'd');
    assert("wind_v_component"@[0] == 'w' && "latent_heat_flux"@[0] == 'l');
    assert("shortwave_radiation"@[1] == 'h' && "surface_temperature"@[1] == 'u');
    assert("shortwave_radiation"@[0] == 's' && "geopotential_height"@[0] == 'g');
    assert("direct_radiation"@[0] == 'd' && "latent_heat_flux"@[0] == 'l');
    assert("diffuse_radiation"@[0] == 'd' && "vertical_velocity"@[0] == 'v');
    assert("diffuse_radiation"@[0] == 'd' && "sea_ice_thickness"@[0] == 's');
    assert("surface_temperature"@[0] == 's' && "geopotential_height"@[0] == 'g');
    assert("snow_depth"@[0] == 's' && "visibility"@[0] == 'v');
    assert("convective_inhibition"@[0] == 'c' && "boundary_layer_height"@[0] == 'b');
    assert("convective_inhibition"@[0] == 'c' && "freezing_level_height"@[0] == 'f');
    assert("boundary_layer_height"@[0] == 'b' && "freezing_level_height"@[0] == 'f');
    assert("vertical_velocity"@[0] == 'v' && "sea_ice_thickness"@[0] == 's');
    assert("sensible_heat_flux"@[2] == 'n' && "sea_water_salinity"@[2] == 'a');
    assert("ocean_u_current"@[6] == 'u' && "ocean_v_current"@[6] == 'v');
    let t = standard_name_table();
    assert(t[0] == ("temperature_2m"@, "air_temperature"@));
    assert(t[1] == ("temperature"@, "air_temperature"@));
    assert(t[2] == ("dew_point_2m"@, "dew_point_temperature"@));
    assert(t[3] == ("relative_humidity_2m"@, "relative_humidity"@));
    assert(t[4] == ("relative_humidity"@, "relative_humidity"@));
    assert(t[5] == ("precipitation"@, "precipitation_amount"@));
    assert(t[6] == ("rain"@, "rainfall_amount"@));
    assert(t[7] == ("snowfall_water_equivalent"@, "snowfall_amount"@));
    assert(t[8] == ("pressure_msl"@, "air_pressure_at_mean_sea_level"@));
    assert(t[9] == ("surface_pressure"@, "surface_air_pressure"@));
    assert(t[10] == ("wind_u_component_10m"@, "eastward_wind"@));
    assert(t[11] == ("wind_u_component_100m"@, "eastward_wind"@));
    assert(t[12] == ("wind_u_component"@, "eastward_wind"@));
    assert(t[13] == ("wind_v_component_10m"@, "northward_wind"@));
    assert(t[14] == ("wind_v_component_100m"@, "northward_wind"@));
    assert(t[15] == ("wind_v_component"@, "northward_wind"@));
    assert(t[16] == ("wind_gusts_10m"@, "wind_speed_of_gust"@));
    assert(t[17] == ("cloud_cover"@, "cloud_area_fraction"@));
    assert(t[18] == ("shortwave_radiation"@, "surface_downwelling_shortwave_flux_in_air"@));
    assert(t[19] == ("direct_radiation"@, "surface_direct_downwelling_shortwave_flux_in_air"@));
    assert(t[20] == ("diffuse_radiation"@, "surface_diffuse_downwelling_shortwave_flux_in_air"@));
    assert(t[21] == ("surface_temperature"@, "surface_temperature"@));
    assert(t[22] == ("sea_surface_temperature"@, "sea_surface_temperature"@));
    assert(t[23] == ("snow_depth"@, "surface_snow_thickness"@));
    assert(t[24] == ("cape"@, "atmosphere_convective_available_potential_energy_wrt_surface"@));
    assert(t[25] == ("convective_inhibition"@, "atmosphere_convective_inhibition_wrt_surface"@));
    assert(t[26] == ("boundary_layer_height"@, "atmosphere_boundary_layer_thickness"@));
    assert(t[27] == ("total_column_integrated_water_vapour"@, "atmosphere_mass_content_of_water_vapor"@));
    assert(t[28] == ("visibility"@, "visibility_in_air"@));
    assert(t[29] == ("geopotential_height"@, "geopotential_height"@));
    assert(t[30] == ("vertical_velocity"@, "upward_air_velocity"@));
    assert(t[31] == ("latent_heat_flux"@, "surface_upward_latent_heat_flux"@));
    assert(t[32] == ("sensible_heat_flux"@, "surface_upward_sensible_heat_flux"@));
    assert(t[33] == ("freezing_level_height"@, "freezing_level_altitude"@));
    assert(t[34] == ("sea_level_height_msl"@, "sea_surface_height_above_mean_sea_level"@));
    assert(t[35] == ("ocean_u_current"@, "eastward_sea_water_velocity"@));
    assert(t[36] == ("ocean_v_current"@, "northward_sea_water_velocity"@));
    assert(t[37] == ("sea_ice_thickness"@, "sea_ice_thickness"@));
    assert(t[38] == ("sea_water_salinity"@, "sea_water_salinity"@));
    if base == "temperature_2m"@ {
        assert(base_standard_name(base) == Some("air_temperature"@));
    }
    if base == "temperature"@ {
        assert(base_standard_name(base) == Some("air_temperature"@));
    }
    if base == "dew_point_2m"@ {
        assert(base_standard_name(base) == Some("dew_point_temperature"@));
    }
    if base == "relative_humidity_2m"@ {
        assert(base_standard_name(base) == Some("relative_humidity"@));
    }
    if base == "relative_humidity"@ {
        assert(base_standard_name(base) == Some("relative_humidity"@));
    }
    if base == "precipitation"@ {
        assert(base_standard_name(base) == Some("precipitation_amount"@));
    }
    if base == "rain"@ {
        assert(base_standard_name(base) == Some("rainfall_amount"@));
    }
    if base == "snowfall_water_equivalent"@ {
        assert(base_standard_name(base) == Some("snowfall_amount"@));
    }
    if base == "pressure_msl"@ {
        assert(base_standard_name(base) == Some("air_pressure_at_mean_sea_level"@));
    }
    if base == "surface_pressure"@ {
        assert(base_standard_name(base) == Some("surface_air_pressure"@));
    }
    if base == "wind_u_component_10m"@ {
        assert(base_standard_name(base) == Some("eastward_wind"@));
    }
    if base == "wind_u_component_100m"@ {
        assert(base_standard_name(base) == Some("eastward_wind"@));
    }
    if base == "wind_u_component"@ {
        assert(base_standard_name(base) == Some("eastward_wind"@));
    }
    if base == "wind_v_component_10m"@ {
        assert(base_standard_name(base) == Some("northward_wind"@));
    }
    if base == "wind_v_component_100m"@ {
        assert(base_standard_name(base) == Some("northward_wind"@));
    }
    if base == "wind_v_component"@ {
        assert(base_standard_name(base) == Some("northward_wind"@));
    }
    if base == "wind_gusts_10m"@ {
        assert(base_standard_name(base) == Some("wind_speed_of_gust"@));
    }
    if base == "cloud_cover"@ {
        assert(base_standard_name(base) == Some("cloud_area_fraction"@));
    }
    if base == "shortwave_radiation"@ {
        assert(base_standard_name(base) == Some("surface_downwelling_shortwave_flux_in_air"@));
    }
    if base == "direct_radiation"@ {
        assert(base_standard_name(base) == Some("surface_direct_downwelling_shortwave_flux_in_air"@));
    }
    if base == "diffuse_radiation"@ {
        assert(base_standard_name(base) == Some("surface_diffuse_downwelling_shortwave_flux_in_air"@));
    }
    if base == "surface_temperature"@ {
        assert(base_standard_name(base) == Some("surface_temperature"@));
    }
    if base == "sea_surface_temperature"@ {
        assert(base_standard_name(base) == Some("sea_surface_temperature"@));
    }
    if base == "snow_depth"@ {
        assert(base_standard_name(base) == Some("surface_snow_thickness"@));
    }
    if base == "cape"@ {
        assert(base_standard_name(base) == Some("atmosphere_convective_available_potential_energy_wrt_surface"@));
    }
    if base == "convective_inhibition"@ {
        assert(base_standard_name(base) == Some("atmosphere_convective_inhibition_wrt_surface"@));
    }
    if base == "boundary_layer_height"@ {
        assert(base_standard_name(base) == Some("atmosphere_boundary_layer_thickness"@));
    }
    if base == "total_column_integrated_water_vapour"@ {
        assert(base_standard_name(base) == Some("atmosphere_mass_content_of_water_vapor"@));
    }
    if base == "visibility"@ {
        assert(base_standard_name(base) == Some("visibility_in_air"@));
    }
    if base == "geopotential_height"@ {
        assert(base_standard_name(base) == Some("geopotential_height"@));
    }
    if base == "vertical_velocity"@ {
        assert(base_standard_name(base) == Some("upward_air_velocity"@));
    }
    if base == "latent_heat_flux"@ {
        assert(base_standard_name(base) == Some("surface_upward_latent_heat_flux"@));
    }
    if base == "sensible_heat_flux"@ {
        assert(base_standard_name(base) == Some("surface_upward_sensible_heat_flux"@));
    }
    if base == "freezing_level_height"@ {
        assert(base_standard_name(base) == Some("freezing_level_altitude"@));
    }
    if base == "sea_level_height_msl"@ {
        assert(base_standard_name(base) == Some("sea_surface_height_above_mean_sea_level"@));
    }
    if base == "ocean_u_current"@ {
        assert(base_standard_name(base) == Some("eastward_sea_water_velocity"@));
    }
    if base == "ocean_v_current"@ {
        assert(base_standard_name(base) == Some("northward_sea_water_velocity"@));
    }
    if base == "sea_ice_thickness"@ {
        assert(base_standard_name(base) == Some("sea_ice_thickness"@));
    }
    if base == "sea_water_salinity"@ {
        assert(base_standard_name(base) == Some("sea_water_salinity"@));
    }
    assert forall|k: int| 0 <= k < t.len() && (#[trigger] t[k]).0 == base implies base_standard_name(
        base,
    ) == Some(t[k].1) by {
        assert(k == 0 || k == 1 || k == 2 || k == 3 || k == 4 || k == 5 || k == 6 || k == 7 || k == 8 || k == 9 || k == 10 || k == 11 || k == 12 || k == 13 || k == 14 || k == 15 || k == 16 || k == 17 || k == 18 || k == 19 || k == 20 || k == 21 || k == 22 || k == 23 || k == 24 || k == 25 || k == 26 || k == 27 || k == 28 || k == 29 || k == 30 || k == 31 || k == 32 || k == 33 || k == 34 || k == 35 || k == 36 || k == 37 || k == 38);
    }
}

/// The first part of the name of a model, with the provider of the models of that name.
pub open spec fn provider_table() -> Seq<(Seq<char>, Seq<char>)> {
    seq![
        ("ecmwf_"@, "ECMWF"@),
        ("dwd_"@, "Deutscher Wetterdienst (DWD)"@),
        ("ncep_"@, "NOAA NCEP"@),
        ("meteofrance_"@, "Météo-France"@),
        ("cmc_"@, "Environment and Climate Change Canada (CMC)"@),
        ("jma_"@, "Japan Meteorological Agency (JMA)"@),
        ("ukmo_"@, "UK Met Office"@),
        ("knmi_"@, "KNMI"@),
        ("dmi_"@, "Danish Meteorological Institute (DMI)"@),
        ("metno_"@, "MET Norway"@),
        ("bom_"@, "Australian Bureau of Meteorology (BOM)"@),
        ("cma_"@, "China Meteorological Administration (CMA)"@),
        ("kma_"@, "Korea Meteorological Administration (KMA)"@),
        ("italia_meteo_"@, "ItaliaMeteo / ARPAE"@),
        ("geosphere_"@, "GeoSphere Austria"@),
        ("chmi_"@, "Czech Hydrometeorological Institute (CHMI)"@),
        ("cams_"@, "Copernicus Atmosphere Monitoring Service (CAMS)"@),
        ("meteoswiss_"@, "MeteoSwiss"@),
    ]
}

proof fn lemma_one_prefix(s: Seq<char>, p: Seq<char>, q: Seq<char>, k: int)
    requires
        starts_with(s, p),
        0 <= k < p.len(),
        k < q.len(),
        p[k] != q[k],
    ensures
        !starts_with(s, q),
{
    assert(s.take(p.len() as int)[k] == s[k]);
    if starts_with(s, q) {
        assert(s.take(q.len() as int)[k] == s[k]);
    }
}

/// A model is attributed to the provider by whose name its own begins; where it begins
/// by none of them, no provider is named.
pub proof fn law_providers(model: Seq<char>)
    ensures
        forall|k: int|
            0 <= k < provider_table().len() && starts_with(
                model,
                (#[trigger] provider_table()[k]).0,
            ) ==> provider_text(model) == provider_table()[k].1,
        (forall|k: int|
            0 <= k < provider_table().len() ==> !starts_with(
                model,
                (#[trigger] provider_table()[k]).0,
            )) ==> provider_text(model) == "the originating national weather service"@,
{
    reveal_strlit("ecmwf_");
    reveal_strlit("dwd_");
    reveal_strlit("ncep_");
    reveal_strlit("meteofrance_");
    reveal_strlit("cmc_");
    reveal_strlit("jma_");
    reveal_strlit("ukmo_");
    reveal_strlit("knmi_");
    reveal_strlit("dmi_");
    reveal_strlit("metno_");
    reveal_strlit("bom_");
    reveal_strlit("cma_");
    reveal_strlit("kma_");
    reveal_strlit("italia_meteo_");
    reveal_strlit("geosphere_");
    reveal_strlit("chmi_");
    reveal_strlit("cams_");
    reveal_strlit("meteoswiss_");
    let t = provider_table();
    assert(t[0] == ("ecmwf_"@, "ECMWF"@));
    assert(t[1] == ("dwd_"@, "Deutscher Wetterdienst (DWD)"@));
    assert(t[2] == ("ncep_"@, "NOAA NCEP"@));
    assert(t[3] == ("meteofrance_"@, "Météo-France"@));
    assert(t[4] == ("cmc_"@, "Environment and Climate Change Canada (CMC)"@));
    assert(t[5] == ("jma_"@, "Japan Meteorological Agency (JMA)"@));
    assert(t[6] == ("ukmo_"@, "UK Met Office"@));
    assert(t[7] == ("knmi_"@, "KNMI"@));
    assert(t[8] == ("dmi_"@, "Danish Meteorological Institute (DMI)"@));
    assert(t[9] == ("metno_"@, "MET Norway"@));
    assert(t[10] == ("bom_"@, "Australian Bureau of Meteorology (BOM)"@));
    assert(t[11] == ("cma_"@, "China Meteorological Administration (CMA)"@));
    assert(t[12] == ("kma_"@, "Korea Meteorological Administration (KMA)"@));
    assert(t[13] == ("italia_meteo_"@, "ItaliaMeteo / ARPAE"@));
    assert(t[14] == ("geosphere_"@, "GeoSphere Austria"@));
    assert(t[15] == ("chmi_"@, "Czech Hydrometeorological Institute (CHMI)"@));
    assert(t[16] == ("cams_"@, "Copernicus Atmosphere Monitoring Service (CAMS)"@));
    assert(t[17] == ("meteoswiss_"@, "MeteoSwiss"@));
    if starts_with(model, "dwd_"@) {
        lemma_one_prefix(model, "dwd_"@, "ecmwf_"@, 0);
    }
    if starts_with(model, "ncep_"@) {
        lemma_one_prefix(model, "ncep_"@, "ecmwf_"@, 0);
        lemma_one_prefix(model, "ncep_"@, "dwd_"@, 0);
    }
    if starts_with(model, "meteofrance_"@) {
        lemma_one_prefix(model, "meteofrance_"@, "ecmwf_"@, 0);
        lemma_one_prefix(model, "meteofrance_"@, "dwd_"@, 0);
        lemma_one_prefix(model, "meteofrance_"@, "ncep_"@, 0);
    }
    if starts_with(model, "cmc_"@) {
        lemma_one_prefix(model, "cmc_"@, "ecmwf_"@, 0);
        assert("cmc_"@[0] == 'c' && "dwd_"@[0] == 'd');
        lemma_one_prefix(model, "cmc_"@, "dwd_"@, 0);
        lemma_one_prefix(model, "cmc_"@, "ncep_"@, 0);
        lemma_one_prefix(model, "cmc_"@, "meteofrance_"@, 0);
    }
    if starts_with(model, "jma_"@) {
        lemma_one_prefix(model, "jma_"@, "ecmwf_"@, 0);
        assert("jma_"@[0] == 'j' && "dwd_"@[0] == 'd');
        lemma_one_prefix(model, "jma_"@, "dwd_"@, 0);
        lemma_one_prefix(model, "jma_"@, "ncep_"@, 0);
        lemma_one_prefix(model, "jma_"@, "meteofrance_"@, 0);
        assert("jma_"@[0] == 'j' && "cmc_"@[0] == 'c');
        lemma_one_prefix(model, "jma_"@, "cmc_"@, 0);
    }
    if starts_with(model, "ukmo_"@) {
        lemma_one_prefix(model, "ukmo_"@, "ecmwf_"@, 0);
        lemma_one_prefix(model, "ukmo_"@, "dwd_"@, 0);
        assert("ukmo_"@[0] == 'u' && "ncep_"@[0] == 'n');
        lemma_one_prefix(model, "ukmo_"@, "ncep_"@, 0);
        lemma_one_prefix(model, "ukmo_"@, "meteofrance_"@, 0);
        lemma_one_prefix(model, "ukmo_"@, "cmc_"@, 0);
        lemma_one_prefix(model, "ukmo_"@, "jma_"@, 0);
    }
    if starts_with(model, "knmi_"@) {
        lemma_one_prefix(model, "knmi_"@, "ecmwf_"@, 0);
        lemma_one_prefix(model, "knmi_"@, "dwd_"@, 0);
        assert("knmi_"@[0] == 'k' && "ncep_"@[0] == 'n');
        lemma_one_prefix(model, "knmi_"@, "ncep_"@, 0);
        lemma_one_prefix(model, "knmi_"@, "meteofrance_"@, 0);
        lemma_one_prefix(model, "knmi_"@, "cmc_"@, 0);
        lemma_one_prefix(model, "knmi_"@, "jma_"@, 0);
        assert("knmi_"@[0] == 'k' && "ukmo_"@[0] == 'u');
        lemma_one_prefix(model, "knmi_"@, "ukmo_"@, 0);
    }
    if starts_with(model, "dmi_"@) {
        lemma_one_prefix(model, "dmi_"@, "ecmwf_"@, 0);
        assert("dmi_"@[1] == 'm' && "dwd_"@[1] == 'w');
        lemma_one_prefix(model, "dmi_"@, "dwd_"@, 1);
        lemma_one_prefix(model, "dmi_"@, "ncep_"@, 0);
        lemma_one_prefix(model, "dmi_"@, "meteofrance_"@, 0);
        assert("dmi_"@[0] == 'd' && "cmc_"@[0] == 'c');
        lemma_one_prefix(model, "dmi_"@, "cmc_"@, 0);
        assert("dmi_"@[0] == 'd' && "jma_"@[0] == 'j');
        lemma_one_prefix(model, "dmi_"@, "jma_"@, 0);
        lemma_one_prefix(model, "dmi_"@, "ukmo_"@, 0);
        lemma_one_prefix(model, "dmi_"@, "knmi_"@, 0);
    }
    if starts_with(model, "metno_"@) {
        assert("metno_"@[0] == 'm' && "ecmwf_"@[0] == 'e');
        lemma_one_prefix(model, "metno_"@, "ecmwf_"@, 0);
        lemma_one_prefix(model, "metno_"@, "dwd_"@, 0);
        lemma_one_prefix(model, "metno_"@, "ncep_"@, 0);
        lemma_one_prefix(model, "metno_"@, "meteofrance_"@, 3);
        lemma_one_prefix(model, "metno_"@, "cmc_"@, 0);
        lemma_one_prefix(model, "metno_"@, "jma_"@, 0);
        lemma_one_prefix(model, "metno_"@, "ukmo_"@, 0);
        lemma_one_prefix(model, "metno_"@, "knmi_"@, 0);
        lemma_one_prefix(model, "metno_"@, "dmi_"@, 0);
    }
    if starts_with(model, "bom_"@) {
        lemma_one_prefix(model, "bom_"@, "ecmwf_"@, 0);
        assert("bom_"@[0] == 'b' && "dwd_"@[0] == 'd');
        lemma_one_prefix(model, "bom_"@, "dwd_"@, 0);
        lemma_one_prefix(model, "bom_"@, "ncep_"@, 0);
        lemma_one_prefix(model, "bom_"@, "meteofrance_"@, 0);
        assert("bom_"@[0] == 'b' && "cmc_"@[0] == 'c');
        lemma_one_prefix(model, "bom_"@, "cmc_"@, 0);
        assert("bom_"@[0] == 'b' && "jma_"@[0] == 'j');
        lemma_one_prefix(model, "bom_"@, "jma_"@, 0);
        lemma_one_prefix(model, "bom_"@, "ukmo_"@, 0);
        lemma_one_prefix(model, "bom_"@, "knmi_"@, 0);
        assert("bom_"@[0] == 'b' && "dmi_"@[0] == 'd');
        lemma_one_prefix(model, "bom_"@, "dmi_"@, 0);
        lemma_one_prefix(model, "bom_"@, "metno_"@, 0);
    }
    if starts_with(model, "cma_"@) {
        lemma_one_prefix(model, "cma_"@, "ecmwf_"@, 0);
        assert("cma_"@[0] == 'c' && "dwd_"@[0] == 'd');
        lemma_one_prefix(model, "cma_"@, "dwd_"@, 0);
        lemma_one_prefix(model, "cma_"@, "ncep_"@, 0);
        lemma_one_prefix(model, "cma_"@, "meteofrance_"@, 0);
        assert("cma_"@[2] == 'a' && "cmc_"@[2] == 'c');
        lemma_one_prefix(model, "cma_"@, "cmc_"@, 2);
        assert("cma_"@[0] == 'c' && "jma_"@[0] == 'j');
        lemma_one_prefix(model, "cma_"@, "jma_"@, 0);
        lemma_one_prefix(model, "cma_"@, "ukmo_"@, 0);
        lemma_one_prefix(model, "cma_"@, "knmi_"@, 0);
        assert("cma_"@[0] == 'c' && "dmi_"@[0] == 'd');
        lemma_one_prefix(model, "cma_"@, "dmi_"@, 0);
        lemma_one_prefix(model, "cma_"@, "metno_"@, 0);
        assert("cma_"@[0] == 'c' && "bom_"@[0] == 'b');
        lemma_one_prefix(model, "cma_"@, "bom_"@, 0);
    }
    if starts_with(model, "kma_"@) {
        lemma_one_prefix(model, "kma_"@, "ecmwf_"@, 0);
        assert("kma_"@[0] == 'k' && "dwd_"@[0] == 'd');
        lemma_one_prefix(model, "kma_"@, "dwd_"@, 0);
        lemma_one_prefix(model, "kma_"@, "ncep_"@, 0);
        lemma_one_prefix(model, "kma_"@, "meteofrance_"@, 0);
        assert("kma_"@[0] == 'k' && "cmc_"@[0] == 'c');
        lemma_one_prefix(model, "kma_"@, "cmc_"@, 0);
        assert("kma_"@[0] == 'k' && "jma_"@[0] == 'j');
        lemma_one_prefix(model, "kma_"@, "jma_"@, 0);
        lemma_one_prefix(model, "kma_"@, "ukmo_"@, 0);
        lemma_one_prefix(model, "kma_"@, "knmi_"@, 1);
        assert("kma_"@[0] == 'k' && "dmi_"@[0] == 'd');
        lemma_one_prefix(model, "kma_"@, "dmi_"@, 0);
        lemma_one_prefix(model, "kma_"@, "metno_"@, 0);
        assert("kma_"@[0] == 'k' && "bom_"@[0] == 'b');
        lemma_one_prefix(model, "kma_"@, "bom_"@, 0);
        assert("kma_"@[0] == 'k' && "cma_"@[0] == 'c');
        lemma_one_prefix(model, "kma_"@, "cma_"@, 0);
    }
    if starts_with(model, "italia_meteo_"@) {
        lemma_one_prefix(model, "italia_meteo_"@, "ecmwf_"@, 0);
        lemma_one_prefix(model, "italia_meteo_"@, "dwd_"@, 0);
        lemma_one_prefix(model, "italia_meteo_"@, "ncep_"@, 0);
        lemma_one_prefix(model, "italia_meteo_"@, "meteofrance_"@, 0);
        lemma_one_prefix(model, "italia_meteo_"@, "cmc_"@, 0);
        lemma_one_prefix(model, "italia_meteo_"@, "jma_"@, 0);
        lemma_one_prefix(model, "italia_meteo_"@, "ukmo_"@, 0);
        lemma_one_prefix(model, "italia_meteo_"@, "knmi_"@, 0);
        lemma_one_prefix(model, "italia_meteo_"@, "dmi_"@, 0);
        lemma_one_prefix(model, "italia_meteo_"@, "metno_"@, 0);
        lemma_one_prefix(model, "italia_meteo_"@, "bom_"@, 0);
        lemma_one_prefix(model, "italia_meteo_"@, "cma_"@, 0);
        lemma_one_prefix(model, "italia_meteo_"@, "kma_"@, 0);
    }
    if starts_with(model, "geosphere_"@) {
        lemma_one_prefix(model, "geosphere_"@, "ecmwf_"@, 0);
        lemma_one_prefix(model, "geosphere_"@, "dwd_"@, 0);
        lemma_one_prefix(model, "geosphere_"@, "ncep_"@, 0);
        lemma_one_prefix(model, "geosphere_"@, "meteofrance_"@, 0);
        lemma_one_prefix(model, "geosphere_"@, "cmc_"@, 0);
        lemma_one_prefix(model, "geosphere_"@, "jma_"@, 0);
        lemma_one_prefix(model, "geosphere_"@, "ukmo_"@, 0);
        lemma_one_prefix(model, "geosphere_"@, "knmi_"@, 0);
        lemma_one_prefix(model, "geosphere_"@, "dmi_"@, 0);
        lemma_one_prefix(model, "geosphere_"@, "metno_"@, 0);
        lemma_one_prefix(model, "geosphere_"@, "bom_"@, 0);
        lemma_one_prefix(model, "geosphere_"@, "cma_"@, 0);
        lemma_one_prefix(model, "geosphere_"@, "kma_"@, 0);
        lemma_one_prefix(model, "geosphere_"@, "italia_meteo_"@, 0);
    }
    if starts_with(model, "chmi_"@) {
        lemma_one_prefix(model, "chmi_"@, "ecmwf_"@, 0);
        lemma_one_prefix(model, "chmi_"@, "dwd_"@, 0);
        assert("chmi_"@[0] == 'c' && "ncep_"@[0] == 'n');
        lemma_one_prefix(model, "chmi_"@, "ncep_"@, 0);
        lemma_one_prefix(model, "chmi_"@, "meteofrance_"@, 0);
        lemma_one_prefix(model, "chmi_"@, "cmc_"@, 1);
        lemma_one_prefix(model, "chmi_"@, "jma_"@, 0);
        assert("chmi_"@[0] == 'c' && "ukmo_"@[0] == 'u');
        lemma_one_prefix(model, "chmi_"@, "ukmo_"@, 0);
        assert("chmi_"@[0] == 'c' && "knmi_"@[0] == 'k');
        lemma_one_prefix(model, "chmi_"@, "knmi_"@, 0);
        lemma_one_prefix(model, "chmi_"@, "dmi_"@, 0);
        lemma_one_prefix(model, "chmi_"@, "metno_"@, 0);
        lemma_one_prefix(model, "chmi_"@, "bom_"@, 0);
        lemma_one_prefix(model, "chmi_"@, "cma_"@, 1);
        lemma_one_prefix(model, "chmi_"@, "kma_"@, 0);
        lemma_one_prefix(model, "chmi_"@, "italia_meteo_"@, 0);
        lemma_one_prefix(model, "chmi_"@, "geosphere_"@, 0);
    }
    if starts_with(model, "cams_"@) {
        lemma_one_prefix(model, "cams_"@, "ecmwf_"@, 0);
        lemma_one_prefix(model, "cams_"@, "dwd_"@, 0);
        assert("cams_"@[0] == 'c' && "ncep_"@[0] == 'n');
        lemma_one_prefix(model, "cams_"@, "ncep_"@, 0);
        lemma_one_prefix(model, "cams_"@, "meteofrance_"@, 0);
        lemma_one_prefix(model, "cams_"@, "cmc_"@, 1);
        lemma_one_prefix(model, "cams_"@, "jma_"@, 0);
        assert("cams_"@[0] == 'c' && "ukmo_"@[0] == 'u');
        lemma_one_prefix(model, "cams_"@, "ukmo_"@, 0);
        assert("cams_"@[0] == 'c' && "knmi_"@[0] == 'k');
        lemma_one_prefix(model, "cams_"@, "knmi_"@, 0);
        lemma_one_prefix(model, "cams_"@, "dmi_"@, 0);
        lemma_one_prefix(model, "cams_"@, "metno_"@, 0);
        lemma_one_prefix(model, "cams_"@, "bom_"@, 0);
        lemma_one_prefix(model, "cams_"@, "cma_"@, 1);
        lemma_one_prefix(model, "cams_"@, "kma_"@, 0);
        lemma_one_prefix(model, "cams_"@, "italia_meteo_"@, 0);
        lemma_one_prefix(model, "cams_"@, "geosphere_"@, 0);
        assert("cams_"@[1] == 'a' && "chmi_"@[1] == 'h');
        lemma_one_prefix(model, "cams_"@, "chmi_"@, 1);
    }
    if starts_with(model, "meteoswiss_"@) {
        lemma_one_prefix(model, "meteoswiss_"@, "ecmwf_"@, 0);
        lemma_one_prefix(model, "meteoswiss_"@, "dwd_"@, 0);
        lemma_one_prefix(model, "meteoswiss_"@, "ncep_"@, 0);
        lemma_one_prefix(model, "meteoswiss_"@, "meteofrance_"@, 5);
        lemma_one_prefix(model, "meteoswiss_"@, "cmc_"@, 0);
        lemma_one_prefix(model, "meteoswiss_"@, "jma_"@, 0);
        lemma_one_prefix(model, "meteoswiss_"@, "ukmo_"@, 0);
        lemma_one_prefix(model, "meteoswiss_"@, "knmi_"@, 0);
        lemma_one_prefix(model, "meteoswiss_"@, "dmi_"@, 0);
        lemma_one_prefix(model, "meteoswiss_"@, "metno_"@, 3);
        lemma_one_prefix(model, "meteoswiss_"@, "bom_"@, 0);
        lemma_one_prefix(model, "meteoswiss_"@, "cma_"@, 0);
        lemma_one_prefix(model, "meteoswiss_"@, "kma_"@, 0);
        lemma_one_prefix(model, "meteoswiss_"@, "italia_meteo_"@, 0);
        lemma_one_prefix(model, "meteoswiss_"@, "geosphere_"@, 0);
        lemma_one_prefix(model, "meteoswiss_"@, "chmi_"@, 0);
        lemma_one_prefix(model, "meteoswiss_"@, "cams_"@, 0);
    }
    assert forall|k: int|
        0 <= k < t.len() && starts_with(model, (#[trigger] t[k]).0) implies provider_text(model)
        == t[k].1 by {
        assert(k == 0 || k == 1 || k == 2 || k == 3 || k == 4 || k == 5 || k == 6 || k == 7 || k == 8 || k == 9 || k == 10 || k == 11 || k == 12 || k == 13 || k == 14 || k == 15 || k == 16 || k == 17);
    }
}

/// The attribution names the provider and the model.
pub proof fn law_attribution_names_the_source(model: Seq<char>)
    ensures
        exists|i: int| #[trigger] text::occurs_at(attribution_text(model), provider_text(model), i),
        exists|i: int| #[trigger] text::occurs_at(attribution_text(model), model, i),
{
    let a = "Weather data by Open-Meteo.com (https://open-meteo.com), based on "@;
    let p = provider_text(model);
    let b = " model "@;
    let c = ". Licensed under CC BY 4.0."@;
    let t = attribution_text(model);
    let i = a.len() as int;
    let j = i + p.len() + b.len();
    assert(t.subrange(i, i + p.len()) == p);
    assert(text::occurs_at(t, p, i));
    assert(t.subrange(j, j + model.len()) == model);
    assert(text::occurs_at(t, model, j));
}

} // verus!
