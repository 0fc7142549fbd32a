//! A city data set and the small multiplayer geography game built on it:
//! selecting, grouping and ranking cities, the chat and game servers'
//! decisions, and the game client's display states.

pub mod chat;
pub mod city;
pub mod client;
pub mod geo;
pub mod group;
pub mod protocol;
pub mod select;
pub mod server;

pub use city::{City, CityData};
pub use geo::{Coordinate, Feature, FeatureCollection, GeoMultiPolygon, GeoPoint, Geometry};
pub use select::{filter_cities, largest_city, Filter};
