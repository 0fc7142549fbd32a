use rustdemo::geo::outline_positions;
use rustdemo::group::{cities_by_country_name, cities_by_state, largest_city_per_country, CityGroup};
use rustdemo::{City, CityData, Coordinate, Feature, FeatureCollection, GeoMultiPolygon, GeoPoint, Geometry};
use std::collections::HashMap;

fn city(name: &str, code: &str, english: Option<&str>, state: Option<&str>, population: i64) -> City {
    City {
        datasetid: "geonames".to_string(),
        recordid: format!("record-{}", name),
        fields: CityData {
            coordinates: [0.0f64.to_bits(), 0.0f64.to_bits()],
            cou_name_en: english.map(|s| s.to_string()),
            label_en: None,
            feature_code: "PPL".to_string(),
            population,
            dem: 0,
            geoname_id: "1".to_string(),
            name: name.to_string(),
            admin1_code: state.map(|s| s.to_string()),
            admin2_code: None,
            admin3_code: None,
            admin4_code: None,
            feature_class: "P".to_string(),
            country_code: code.to_string(),
            timezone: "UTC".to_string(),
            modification_date: "2020-01-01".to_string(),
        },
        record_timestamp: "2022-10-10".to_string(),
        geometry: Geometry::Point(GeoPoint { coordinates: Coordinate { lon_bits: 0, lat_bits: 0 } }),
    }
}

fn summary(groups: &[CityGroup]) -> Vec<(String, Vec<usize>)> {
    groups.iter().map(|g| (g.key.clone(), g.cities.clone())).collect()
}

fn sample() -> Vec<City> {
    vec![
        city("Sacramento", "US", Some("United States"), Some("CA"), 490_712),
        city("Stockholm", "SE", Some("Sweden"), Some("26"), 975_551),
        city("Los Angeles", "US", Some("United States"), Some("CA"), 3_971_883),
        city("Austin", "US", Some("United States"), Some("TX"), 931_830),
        city("Pristina", "XK", None, None, 161_751),
        city("Uppsala", "SE", Some("Sweden"), Some("21"), 133_117),
        city("Houston", "US", Some("United States"), Some("TX"), 2_296_224),
        city("Nome", "US", Some("United States"), None, 3_866),
        city("Oakland", "US", Some("United States"), Some("CA"), 490_712),
    ]
}

#[test]
fn groups_by_country_name_most_populous_first() {
    let cities = sample();
    let groups = cities_by_country_name(&cities);
    assert_eq!(
        summary(&groups),
        vec![
            ("United States".to_string(), vec![2, 6, 3, 0, 8, 7]),
            ("Sweden".to_string(), vec![1, 5]),
            ("XK".to_string(), vec![4]),
        ]
    );
}

#[test]
fn equal_populations_keep_data_set_order() {
    let cities = vec![
        city("B", "NO", Some("Norway"), None, 50),
        city("A", "NO", Some("Norway"), None, 50),
        city("C", "NO", Some("Norway"), None, 70),
    ];
    let groups = cities_by_country_name(&cities);
    assert_eq!(summary(&groups), vec![("Norway".to_string(), vec![2, 0, 1])]);
}

#[test]
fn groups_by_state_within_a_country() {
    let cities = sample();
    let groups = cities_by_state(&cities, "US");
    assert_eq!(
        summary(&groups),
        vec![("CA".to_string(), vec![2, 0, 8]), ("TX".to_string(), vec![6, 3])]
    );
    let largest: Vec<&str> = groups.iter().map(|g| cities[g.cities[0]].fields.name.as_str()).collect();
    assert_eq!(largest, vec!["Los Angeles", "Houston"]);
}

#[test]
fn group_head_is_the_largest() {
    let cities = sample();
    for group in cities_by_state(&cities, "US") {
        let head = cities[group.cities[0]].fields.population;
        for &i in &group.cities {
            assert!(cities[i].fields.population <= head);
        }
    }
}

#[test]
fn groups_by_state_of_a_missing_country() {
    let cities = sample();
    assert!(cities_by_state(&cities, "UZ").is_empty());
    assert!(cities_by_country_name(&Vec::new()).is_empty());
}

#[test]
fn largest_city_per_country_in_first_seen_order() {
    let cities = sample();
    assert_eq!(largest_city_per_country(&cities), vec![2, 1, 4]);
}

#[test]
fn largest_city_per_country_takes_last_of_equals() {
    let cities = vec![
        city("A", "FI", None, None, 100),
        city("B", "FI", None, None, 300),
        city("C", "EE", None, None, 5),
        city("D", "FI", None, None, 300),
        city("E", "FI", None, None, 200),
    ];
    assert_eq!(largest_city_per_country(&cities), vec![3, 2]);
    assert!(largest_city_per_country(&Vec::new()).is_empty());
}

#[test]
fn outlines_skip_points() {
    let c = Coordinate { lon_bits: 1.0f64.to_bits(), lat_bits: 2.0f64.to_bits() };
    let countries = FeatureCollection {
        features: vec![
            Feature {
                geometry: Geometry::MultiPolygon(GeoMultiPolygon { coordinates: vec![vec![vec![c, c, c]]] }),
                properties: HashMap::new(),
            },
            Feature { geometry: Geometry::Point(GeoPoint { coordinates: c }), properties: HashMap::new() },
            Feature {
                geometry: Geometry::MultiPolygon(GeoMultiPolygon { coordinates: vec![] }),
                properties: HashMap::new(),
            },
        ],
    };
    assert_eq!(outline_positions(&countries), vec![0, 2]);
}

#[test]
fn first_and_last_largest_share_population() {
    let cities = vec![
        city("A", "FI", None, None, 300),
        city("B", "FI", None, None, 100),
        city("C", "FI", None, None, 300),
    ];
    let first = rustdemo::largest_city(&cities, "FI").unwrap();
    let last = largest_city_per_country(&cities)[0];
    assert_eq!((first, last), (0, 2));
    assert_eq!(cities[first].fields.population, cities[last].fields.population);
}

#[test]
fn every_city_in_exactly_one_group() {
    let cities = sample();
    let groups = cities_by_country_name(&cities);
    let mut seen: Vec<usize> = groups.iter().flat_map(|g| g.cities.iter().copied()).collect();
    seen.sort();
    assert_eq!(seen, (0..cities.len()).collect::<Vec<usize>>());
}
