use rustdemo::select::{cities_in_state, filter_cities, get_population, largest_city, matches_filter};
use rustdemo::{City, CityData, Coordinate, Filter, GeoPoint, Geometry};

fn city(name: &str, code: &str, english: Option<&str>, state: Option<&str>, zone: &str, population: i64) -> City {
    City {
        datasetid: "geonames".to_string(),
        recordid: format!("record-{}", name),
        fields: CityData {
            coordinates: [51.5f64.to_bits(), 9.9f64.to_bits()],
            cou_name_en: english.map(|s| s.to_string()),
            label_en: english.map(|s| s.to_string()),
            feature_code: "PPL".to_string(),
            population,
            dem: 100,
            geoname_id: "1".to_string(),
            name: name.to_string(),
            admin1_code: state.map(|s| s.to_string()),
            admin2_code: None,
            admin3_code: None,
            admin4_code: None,
            feature_class: "P".to_string(),
            country_code: code.to_string(),
            timezone: zone.to_string(),
            modification_date: "2019-09-05".to_string(),
        },
        record_timestamp: "2022-10-10T08:00:01.602+02:00".to_string(),
        geometry: Geometry::Point(GeoPoint {
            coordinates: Coordinate { lon_bits: 9.9f64.to_bits(), lat_bits: 51.5f64.to_bits() },
        }),
    }
}

fn sample() -> Vec<City> {
    vec![
        city("Los Angeles", "US", Some("United States"), Some("CA"), "America/Los_Angeles", 3_971_883),
        city("Göttingen", "DE", Some("Germany"), Some("06"), "Europe/Berlin", 122_149),
        city("San Diego", "US", Some("United States"), Some("CA"), "America/Los_Angeles", 1_394_928),
        city("Fresno", "US", Some("United States"), Some("CA"), "America/Los_Angeles", 520_052),
        city("Houston", "US", Some("United States"), Some("TX"), "America/Chicago", 2_296_224),
        city("Berlin", "DE", Some("Germany"), Some("16"), "Europe/Berlin", 3_426_354),
        city("Nowhere", "US", None, None, "America/Chicago", 5_000_000),
    ]
}

#[test]
fn country_name_prefers_english_name() {
    let c = city("Göttingen", "DE", Some("Germany"), None, "Europe/Berlin", 1);
    assert_eq!(c.country_name_eng(), "Germany");
}

#[test]
fn country_name_falls_back_to_code() {
    let c = city("Somewhere", "XK", None, None, "Europe/Belgrade", 1);
    assert_eq!(c.country_name_eng(), "XK");
}

#[test]
fn filter_by_country_code_keeps_order() {
    let cities = sample();
    assert_eq!(filter_cities(&cities, Filter::CountryCode("DE".to_string())), vec![1, 5]);
    assert_eq!(filter_cities(&cities, Filter::CountryCode("US".to_string())), vec![0, 2, 3, 4, 6]);
}

#[test]
fn filter_by_admin1_skips_cities_without_state() {
    let cities = sample();
    assert_eq!(filter_cities(&cities, Filter::Admin1Code("CA".to_string())), vec![0, 2, 3]);
    assert!(!matches_filter(&cities[6], &Filter::Admin1Code("".to_string())));
}

#[test]
fn filter_by_time_zone() {
    let cities = sample();
    assert_eq!(filter_cities(&cities, Filter::TimeZone("America/Chicago".to_string())), vec![4, 6]);
    assert_eq!(filter_cities(&cities, Filter::TimeZone("Asia/Tokyo".to_string())), Vec::<usize>::new());
}

#[test]
fn filter_on_empty_list() {
    let cities: Vec<City> = Vec::new();
    assert!(filter_cities(&cities, Filter::CountryCode("US".to_string())).is_empty());
}

#[test]
fn large_californian_cities() {
    let cities = sample();
    assert_eq!(cities_in_state(&cities, "US", "CA", 1_000_000), vec![0, 2]);
    assert_eq!(cities_in_state(&cities, "US", "CA", 0), vec![0, 2, 3]);
    assert_eq!(cities_in_state(&cities, "DE", "CA", 0), Vec::<usize>::new());
}

#[test]
fn largest_city_of_a_country() {
    let cities = sample();
    assert_eq!(largest_city(&cities, "DE"), Some(5));
    assert_eq!(largest_city(&cities, "US"), Some(6));
}

#[test]
fn largest_city_takes_first_of_equals() {
    let cities = vec![
        city("A", "SE", None, None, "Europe/Stockholm", 10),
        city("B", "SE", None, None, "Europe/Stockholm", 30),
        city("C", "SE", None, None, "Europe/Stockholm", 30),
    ];
    assert_eq!(largest_city(&cities, "SE"), Some(1));
}

#[test]
fn largest_city_of_uninhabited_country() {
    let cities = vec![
        city("A", "SE", None, None, "Europe/Stockholm", 0),
        city("B", "SE", None, None, "Europe/Stockholm", -5),
        city("C", "SE", None, None, "Europe/Stockholm", 0),
    ];
    assert_eq!(largest_city(&cities, "SE"), Some(0));
    let single = vec![city("D", "NO", None, None, "Europe/Oslo", 0)];
    assert_eq!(largest_city(&single, "NO"), Some(0));
}

#[test]
fn largest_city_none_without_cities_of_country() {
    assert_eq!(largest_city(&sample(), "UZ"), None);
    assert_eq!(largest_city(&Vec::new(), "SE"), None);
}

#[test]
fn population_key_is_negated() {
    let c = city("A", "SE", None, None, "Europe/Stockholm", 975_551);
    assert_eq!(get_population(&c), -975_551);
    let d = city("B", "SE", None, None, "Europe/Stockholm", i64::MAX);
    assert_eq!(get_population(&d), -i64::MAX);
}

#[test]
fn country_filter_keeps_the_country_s_cities() {
    let cities = sample();
    let kept = filter_cities(&cities, Filter::CountryCode("US".to_string()));
    let expected: Vec<usize> = (0..cities.len()).filter(|&i| cities[i].fields.country_code == "US").collect();
    assert_eq!(kept, expected);
    assert!(kept.contains(&largest_city(&cities, "US").unwrap()));
}

#[test]
fn filtering_a_concatenation() {
    let a = sample();
    let b = vec![
        city("Oakland", "US", None, Some("CA"), "America/Los_Angeles", 440_646),
        city("Oslo", "NO", None, Some("12"), "Europe/Oslo", 580_000),
    ];
    let f = || Filter::Admin1Code("CA".to_string());
    let mut both = a.clone();
    both.extend(b.clone());
    let mut expected = filter_cities(&a, f());
    expected.extend(filter_cities(&b, f()).into_iter().map(|i| i + a.len()));
    assert_eq!(filter_cities(&both, f()), expected);
    assert_eq!(expected, vec![0, 2, 3, 7]);
}

#[test]
fn filtering_again_keeps_all() {
    let cities = sample();
    let kept: Vec<City> = filter_cities(&cities, Filter::TimeZone("Europe/Berlin".to_string()))
        .into_iter()
        .map(|i| cities[i].clone())
        .collect();
    assert_eq!(filter_cities(&kept, Filter::TimeZone("Europe/Berlin".to_string())), vec![0, 1]);
}

#[test]
fn removing_a_city_without_state_leaves_state_filter() {
    let mut cities = sample();
    let before = filter_cities(&cities, Filter::Admin1Code("TX".to_string()));
    cities.remove(6);
    assert_eq!(filter_cities(&cities, Filter::Admin1Code("TX".to_string())), before);
    let mut cities = sample();
    cities.insert(0, city("Nowhere", "US", None, None, "UTC", 9));
    let shifted: Vec<usize> = before.iter().map(|i| i + 1).collect();
    assert_eq!(filter_cities(&cities, Filter::Admin1Code("TX".to_string())), shifted);
    cities.remove(0);
    assert_eq!(filter_cities(&cities, Filter::Admin1Code("TX".to_string())), before);
}

#[test]
fn other_countries_do_not_change_largest_city() {
    let mut cities = sample();
    let before = largest_city(&cities, "DE");
    cities.push(city("Huge", "CN", None, None, "Asia/Shanghai", 20_000_000));
    assert_eq!(largest_city(&cities, "DE"), before);
    assert_eq!(largest_city(&cities, "FR"), None);
}
