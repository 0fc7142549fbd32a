use rustdemo::client::{DisplayState, GameState};
use rustdemo::protocol::{ClientMessage, ServerMessage};
use rustdemo::server::{Client, GameServer, SocketEvent};
use rustdemo::{City, CityData, Coordinate, GeoPoint, Geometry};

fn city(name: &str) -> City {
    City {
        datasetid: "geonames".to_string(),
        recordid: name.to_string(),
        fields: CityData {
            coordinates: [0, 0],
            cou_name_en: None,
            label_en: None,
            feature_code: "PPL".to_string(),
            population: 1000,
            dem: 0,
            geoname_id: name.to_string(),
            name: name.to_string(),
            admin1_code: None,
            admin2_code: None,
            admin3_code: None,
            admin4_code: None,
            feature_class: "P".to_string(),
            country_code: "SE".to_string(),
            timezone: "Europe/Stockholm".to_string(),
            modification_date: "2020-01-01".to_string(),
        },
        record_timestamp: "2022-10-10".to_string(),
        geometry: Geometry::Point(GeoPoint { coordinates: Coordinate { lon_bits: 0, lat_bits: 0 } }),
    }
}

fn coord(lon: f64, lat: f64) -> Coordinate {
    Coordinate { lon_bits: lon.to_bits(), lat_bits: lat.to_bits() }
}

#[test]
fn server_round_is_on_one_of_the_cities() {
    let cities = vec![city("Lund"), city("Malmö"), city("Umeå")];
    for _ in 0..20 {
        let server = GameServer::new("Test server".to_string(), &cities);
        assert!(cities.iter().any(|c| c.recordid == server.current_city.recordid));
        assert!(server.clients.is_empty());
    }
    let single = vec![city("Kiruna")];
    let server = GameServer::new("Test server".to_string(), &single);
    assert_eq!(server.current_city.fields.name, "Kiruna");
}

#[test]
fn hello_is_answered_with_welcome() {
    let cities = vec![city("Lund")];
    let mut server = GameServer::new("Emil's excellent server".to_string(), &cities);
    assert!(server.handle(SocketEvent::Connect(4)).is_none());
    assert!(server.clients.contains_key(&4));
    assert!(server.clients[&4].guess.is_none());
    let reply = server.handle(SocketEvent::Message(4, ClientMessage::Hello { name: "Emil".to_string() }));
    match reply {
        Some((4, ServerMessage::Welcome { server_name })) => assert_eq!(server_name, "Emil's excellent server"),
        other => panic!("unexpected reply {:?}", other),
    }
}

#[test]
fn guesses_are_not_answered() {
    let cities = vec![city("Lund")];
    let mut server = GameServer::new("s".to_string(), &cities);
    server.handle(SocketEvent::Connect(1));
    assert!(server.handle(SocketEvent::Message(1, ClientMessage::Guess(coord(1.0, 2.0)))).is_none());
    assert!(server.clients[&1].guess.is_none());
}

#[test]
fn server_connect_then_disconnect_restores_clients() {
    let cities = vec![city("Lund")];
    let mut server = GameServer::new("s".to_string(), &cities);
    server.handle(SocketEvent::Connect(1));
    server.handle(SocketEvent::Connect(2));
    assert!(server.handle(SocketEvent::Disconnect(2)).is_none());
    assert_eq!(server.clients.len(), 1);
    assert!(server.clients.contains_key(&1));
    assert!(Client::new().guess.is_none());
}

#[test]
fn click_while_waiting_for_guess_sends_it() {
    let mut state = GameState::new("Göttingen".to_string());
    let here = coord(9.9, 51.5);
    let sent = state.handle_click(here);
    assert!(matches!(sent, Some(ClientMessage::Guess(c)) if c == here));
    assert_eq!(state.display, DisplayState::WaitForServer { guess: here });
}

#[test]
fn clicks_ignored_while_waiting_for_server() {
    let mut state = GameState::new("Göttingen".to_string());
    let here = coord(9.9, 51.5);
    state.handle_click(here);
    assert!(state.handle_click(coord(0.0, 0.0)).is_none());
    assert_eq!(state.display, DisplayState::WaitForServer { guess: here });
}

#[test]
fn round_trip_returns_to_waiting_for_guess() {
    let mut state = GameState::new("Göttingen".to_string());
    let here = coord(9.9, 51.5);
    let actual = coord(9.93228, 51.53443);
    state.handle_click(here);
    state.handle_server_message(ServerMessage::RoundResults { actual_location: actual });
    assert_eq!(state.display, DisplayState::WaitForContinue { guess: here, actual });
    assert!(state.handle_click(coord(3.0, 4.0)).is_none());
    assert_eq!(state.display, DisplayState::WaitForGuess);
}

#[test]
fn new_round_names_the_city() {
    let mut state = GameState::new("Göttingen".to_string());
    state.handle_server_message(ServerMessage::Welcome { server_name: "s".to_string() });
    assert_eq!(state.current_city, "Göttingen");
    state.handle_server_message(ServerMessage::NewRound { city_name: "Lund".to_string() });
    assert_eq!(state.current_city, "Lund");
    assert_eq!(state.display, DisplayState::WaitForGuess);
}
