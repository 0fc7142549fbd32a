//! The game server's decisions: which clients are connected, and what it
//! answers each message with.
use crate::city::City;
use crate::geo::Coordinate;
use crate::protocol::{ClientMessage, ServerMessage};
use rand::seq::SliceRandom;
use std::collections::HashMap;
use vstd::prelude::*;

verus! {

broadcast use vstd::std_specs::hash::group_hash_axioms;

/// What the server knows of one connected player.
pub struct Client {
    pub guess: Option<Coordinate>,
}

impl Client {
    /// A player who has not guessed yet.
    pub fn new() -> (client: Client)
        ensures
            client.guess is None,
    {
        Client { guess: None }
    }
}

/// What happens on the game server's connections, each known by its number.
pub enum SocketEvent {
    Connect(u32),
    Message(u32, ClientMessage),
    Disconnect(u32),
}

/// Calls `rand::seq::SliceRandom::choose` on `cities` with the thread's
/// random number generator (`rand::thread_rng`). Claimed: nothing comes
/// back exactly when there are no cities, and otherwise one of the cities.
/// Which one is chance. `thread_rng` panics where the system cannot seed
/// its generator, and the generator panics where the system cannot reseed
/// it; neither is stated.
#[verifier::external_body]
fn choose_city<'a>(cities: &'a Vec<City>) -> (chosen: Option<&'a City>)
    ensures
        chosen is None <==> cities@.len() == 0,
        chosen matches Some(c) ==> cities@.contains(*c),
{
    cities.choose(&mut rand::thread_rng())
}

/// The server's state: its name, the city of the current round, and the
/// connected players by connection number.
pub struct GameServer<'a> {
    pub server_name: String,
    pub current_city: &'a City,
    pub clients: HashMap<u32, Client>,
}

/// The players after `event`: a connection adds a player who has not
/// guessed (replacing one on the same number), a disconnection removes
/// one, messages change nobody.
pub open spec fn clients_after(clients: Map<u32, Client>, event: SocketEvent) -> Map<u32, Client> {
    match event {
        SocketEvent::Connect(id) => clients.insert(id, Client { guess: None }),
        SocketEvent::Message(_, _) => clients,
        SocketEvent::Disconnect(id) => clients.remove(id),
    }
}

/// The answer to `event`: a welcome with the server's name to a player who
/// says hello; nothing otherwise.
pub open spec fn reply_to(server_name: Seq<char>, event: SocketEvent, reply: Option<(u32, ServerMessage)>) -> bool {
    match event {
        SocketEvent::Message(id, ClientMessage::Hello { .. }) => match reply {
            Some((to, ServerMessage::Welcome { server_name: name })) => to == id && name@ == server_name,
            _ => false,
        },
        _ => reply is None,
    }
}

impl<'a> GameServer<'a> {
    /// A server named `server_name` with no players, whose round is on a
    /// city picked at random from `cities`.
    pub fn new(server_name: String, cities: &'a Vec<City>) -> (server: GameServer<'a>)
        requires
            cities@.len() > 0,
        ensures
            server.server_name == server_name,
            cities@.contains(*server.current_city),
            server.clients@ == Map::<u32, Client>::empty(),
    {
        let current_city = match choose_city(cities) {
            Some(c) => c,
            None => {
                assert(false);
                &cities[0]
            },
        };
        GameServer { server_name, current_city, clients: HashMap::new() }
    }

    /// Applies `event` and returns the answer to send, and to whom. A hello
    /// may only come from a connected player.
    pub fn handle(&mut self, event: SocketEvent) -> (reply: Option<(u32, ServerMessage)>)
        requires
            event matches SocketEvent::Message(id, ClientMessage::Hello { .. }) ==> old(
                self,
            ).clients@.contains_key(id),
        ensures
            final(self).clients@ == clients_after(old(self).clients@, event),
            final(self).server_name == old(self).server_name,
            final(self).current_city == old(self).current_city,
            reply_to(old(self).server_name@, event, reply),
    {
        match event {
            SocketEvent::Connect(id) => {
                self.clients.insert(id, Client::new());
                None
            },
            SocketEvent::Message(id, ClientMessage::Hello { name: _ }) => {
                Some((id, ServerMessage::Welcome { server_name: self.server_name.clone() }))
            },
            SocketEvent::Message(_, ClientMessage::Guess(_)) => None,
            SocketEvent::Disconnect(id) => {
                self.clients.remove(&id);
                None
            },
        }
    }
}

/// Connecting a new player and disconnecting it again leaves the players
/// as they were.
pub proof fn law_connect_then_disconnect(clients: Map<u32, Client>, id: u32)
    requires
        !clients.contains_key(id),
    ensures
        clients_after(clients_after(clients, SocketEvent::Connect(id)), SocketEvent::Disconnect(id))
            == clients,
{
    assert(clients.insert(id, Client { guess: None }).remove(id) =~= clients);
}


/// After a connection, the player is there with no guess, whatever players
/// there were, and every other player is there exactly as before.
pub proof fn law_connect_adds_player(clients: Map<u32, Client>, id: u32, other: u32)
    requires
        other != id,
    ensures
        clients_after(clients, SocketEvent::Connect(id)).contains_key(id),
        clients_after(clients, SocketEvent::Connect(id))[id].guess is None,
        clients_after(clients, SocketEvent::Connect(id)).contains_key(other)
            == clients.contains_key(other),
        clients.contains_key(other) ==> clients_after(clients, SocketEvent::Connect(id))[other]
            == clients[other],
{
}

/// After a disconnection, the player is gone, and every other player is
/// there exactly as before.
pub proof fn law_disconnect_removes_player(clients: Map<u32, Client>, id: u32, other: u32)
    requires
        other != id,
    ensures
        !clients_after(clients, SocketEvent::Disconnect(id)).contains_key(id),
        clients_after(clients, SocketEvent::Disconnect(id)).contains_key(other)
            == clients.contains_key(other),
        clients.contains_key(other) ==> clients_after(clients, SocketEvent::Disconnect(id))[other]
            == clients[other],
{
}

/// Messages change no player.
pub proof fn law_message_keeps_players(clients: Map<u32, Client>, id: u32, msg: ClientMessage)
    ensures
        clients_after(clients, SocketEvent::Message(id, msg)) == clients,
{
}

} // verus!
