use om2nc::cf::{Reduction, attribution, cf_units, interval_reduction, long_name, provider, standard_name};

#[test]
fn units() {
    assert_eq!(cf_units("°C"), "degC");
    assert_eq!(cf_units("mm"), "mm");
    assert_eq!(cf_units(""), "1");
}

#[test]
fn names() {
    assert_eq!(standard_name("temperature_2m"), Some("air_temperature"));
    assert_eq!(standard_name("temperature_850hPa"), Some("air_temperature"));
    assert_eq!(standard_name("wind_u_component_500hPa"), Some("eastward_wind"));
    assert_eq!(standard_name("temperature_2m_max"), None);
    assert_eq!(standard_name("soil_moisture_0_to_7cm"), None);
    assert_eq!(long_name("wind_gusts_10m"), "wind gusts 10m");
}

#[test]
fn reductions() {
    assert_eq!(interval_reduction("precipitation"), Some(Reduction::Sum));
    assert_eq!(interval_reduction("shortwave_radiation"), Some(Reduction::Mean));
    assert_eq!(interval_reduction("temperature_2m_min"), Some(Reduction::Minimum));
    assert_eq!(interval_reduction("temperature_2m"), None);
    assert_eq!(Reduction::Sum.cell_methods(), "time: sum");
}

#[test]
fn providers() {
    assert_eq!(provider("ecmwf_ifs025"), "ECMWF");
    assert!(attribution("dwd_icon").contains("DWD"));
}

#[test]
fn all_units() {
    for (from, to) in [
        ("W/m²", "W m-2"),
        ("kg/m²", "kg m-2"),
        ("m³/m³", "m3 m-3"),
        ("m/s", "m s-1"),
        ("km/h", "km h-1"),
        ("°", "degree"),
        ("wmo code", "1"),
        ("undefined", "1"),
        ("hPa", "hPa"),
    ] {
        assert_eq!(cf_units(from), to);
    }
}

#[test]
fn pressure_levels_are_plain_numbers() {
    assert_eq!(standard_name("relative_humidity_+850hPa"), Some("relative_humidity"));
    assert_eq!(standard_name("relative_humidity_hPa"), None);
    assert_eq!(standard_name("relative_humidity_-850hPa"), None);
    assert_eq!(standard_name("relative_humidity_4294967295hPa"), Some("relative_humidity"));
    assert_eq!(standard_name("relative_humidity_4294967296hPa"), None);
    assert_eq!(standard_name("850hPa"), None);
    assert_eq!(standard_name("temperature_2m_850hPa"), Some("air_temperature"));
    assert_eq!(standard_name("sea_water_salinity"), Some("sea_water_salinity"));
    assert_eq!(standard_name("vertical_velocity_1000hPa"), Some("upward_air_velocity"));
}

#[test]
fn every_interval_variable() {
    for v in [
        "precipitation",
        "rain",
        "showers",
        "snowfall",
        "snowfall_water_equivalent",
        "runoff",
        "evapotranspiration",
        "et0_fao_evapotranspiration",
    ] {
        assert_eq!(interval_reduction(v), Some(Reduction::Sum));
    }
    for v in [
        "shortwave_radiation",
        "direct_radiation",
        "diffuse_radiation",
        "direct_normal_irradiance",
        "global_tilted_irradiance",
        "terrestrial_radiation",
        "shortwave_radiation_clear_sky",
        "latent_heat_flux",
        "sensible_heat_flux",
    ] {
        assert_eq!(interval_reduction(v), Some(Reduction::Mean));
    }
    assert_eq!(interval_reduction("temperature_2m_max"), Some(Reduction::Maximum));
    assert_eq!(interval_reduction("wind_gusts_10m"), Some(Reduction::Maximum));
    assert_eq!(Reduction::Mean.cell_methods(), "time: mean");
    assert_eq!(Reduction::Maximum.cell_methods(), "time: maximum");
    assert_eq!(Reduction::Minimum.cell_methods(), "time: minimum");
}

#[test]
fn provider_by_prefix() {
    assert_eq!(provider("meteofrance_arome"), "Météo-France");
    assert_eq!(provider("meteoswiss_icon"), "MeteoSwiss");
    assert_eq!(provider("ecmwf"), "the originating national weather service");
    assert_eq!(
        attribution("jma_msm"),
        "Weather data by Open-Meteo.com (https://open-meteo.com), based on Japan Meteorological Agency (JMA) model jma_msm. Licensed under CC BY 4.0."
    );
}
