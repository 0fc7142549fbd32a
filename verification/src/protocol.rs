//! The messages that the game server and its clients exchange.
use crate::geo::Coordinate;
use vstd::prelude::*;

verus! {

/// What the server tells a client.
#[derive(Clone, Debug)]
pub enum ServerMessage {
    Welcome { server_name: String },
    NewRound { city_name: String },
    RoundResults { actual_location: Coordinate },
}

/// What a client tells the server.
#[derive(Clone, Debug)]
pub enum ClientMessage {
    Hello { name: String },
    Guess(Coordinate),
}

} // verus!
