//! Cities and their recorded data.
use crate::geo::Geometry;
use vstd::prelude::*;

verus! {

/// The data recorded for one city.
#[derive(Clone, Debug)]
pub struct CityData {
    /// Latitude and longitude, each as the bit pattern of its `f64` value.
    pub coordinates: [u64; 2],
    pub cou_name_en: Option<String>,
    pub label_en: Option<String>,
    pub feature_code: String,
    pub population: i64,
    pub dem: i64,
    pub geoname_id: String,
    pub name: String,
    pub admin1_code: Option<String>,
    pub admin2_code: Option<String>,
    pub admin3_code: Option<String>,
    pub admin4_code: Option<String>,
    pub feature_class: String,
    pub country_code: String,
    pub timezone: String,
    pub modification_date: String,
}

/// One record of the city data set.
#[derive(Clone, Debug)]
pub struct City {
    pub datasetid: String,
    pub recordid: String,
    pub fields: CityData,
    pub record_timestamp: String,
    pub geometry: Geometry,
}

/// The English name of the city's country, or its country code where the
/// record has no such name.
pub open spec fn country_name_of(city: City) -> Seq<char> {
    match city.fields.cou_name_en {
        Some(name) => name@,
        None => city.fields.country_code@,
    }
}

impl City {
    /// The English name of the city's country; the country code where the
    /// record has none.
    pub fn country_name_eng(&self) -> (name: &str)
        ensures
            name@ == country_name_of(*self),
    {
        match &self.fields.cou_name_en {
            Some(x) => x.as_str(),
            None => self.fields.country_code.as_str(),
        }
    }
}


/// A city's country name is its English country name, whenever the record
/// has one, whatever characters it is written in; only a record without
/// one falls back to its country code.
pub proof fn law_country_name_is_english_name(city: City)
    ensures
        city.fields.cou_name_en matches Some(name) ==> country_name_of(city) == name@,
        city.fields.cou_name_en is None ==> country_name_of(city) == city.fields.country_code@,
{
}

/// Two cities with the same English country name have the same country
/// name, whatever their country codes.
pub proof fn law_country_name_ignores_code_when_named(a: City, b: City)
    requires
        a.fields.cou_name_en is Some,
        b.fields.cou_name_en is Some,
        a.fields.cou_name_en->0@ == b.fields.cou_name_en->0@,
    ensures
        country_name_of(a) == country_name_of(b),
{
}

} // verus!
