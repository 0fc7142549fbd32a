//! The game client's decisions: what a click does and what the server's
//! messages do to the display.
use crate::geo::Coordinate;
use crate::protocol::{ClientMessage, ServerMessage};
use vstd::prelude::*;

verus! {

/// What the client shows: waiting for the player's guess, waiting for the
/// server's answer to it, or showing the guess beside the actual place.
#[derive(Clone, Copy, Debug, PartialEq, Eq, Structural)]
pub enum DisplayState {
    WaitForGuess,
    WaitForServer { guess: Coordinate },
    WaitForContinue { guess: Coordinate, actual: Coordinate },
}

/// The client's state: the city to find and the display.
pub struct GameState {
    pub current_city: String,
    pub display: DisplayState,
}

/// The display after a click on `clicked`: a click places the guess while
/// the client waits for one and dismisses the results; it does nothing
/// while the server's answer is awaited.
pub open spec fn display_after_click(display: DisplayState, clicked: Coordinate) -> DisplayState {
    match display {
        DisplayState::WaitForGuess => DisplayState::WaitForServer { guess: clicked },
        DisplayState::WaitForServer { .. } => display,
        DisplayState::WaitForContinue { .. } => DisplayState::WaitForGuess,
    }
}

/// What a click on `clicked` sends: the guess, where one is awaited.
pub open spec fn sent_on_click(display: DisplayState, clicked: Coordinate) -> Option<ClientMessage> {
    match display {
        DisplayState::WaitForGuess => Some(ClientMessage::Guess(clicked)),
        _ => None,
    }
}

/// Whether the client can take `msg` in `display`: round results only come
/// while it waits for them.
pub open spec fn accepts(display: DisplayState, msg: ServerMessage) -> bool {
    msg is RoundResults ==> display is WaitForServer
}

/// The display after `msg`: round results turn the awaited guess into the
/// guess beside the actual place; other messages leave it.
pub open spec fn display_after_message(display: DisplayState, msg: ServerMessage) -> DisplayState {
    match msg {
        ServerMessage::RoundResults { actual_location } => match display {
            DisplayState::WaitForServer { guess } => DisplayState::WaitForContinue {
                guess,
                actual: actual_location,
            },
            _ => display,
        },
        _ => display,
    }
}

impl GameState {
    /// A client asked to find `current_city`, waiting for a guess.
    pub fn new(current_city: String) -> (state: GameState)
        ensures
            state.current_city == current_city,
            state.display == DisplayState::WaitForGuess,
    {
        GameState { current_city, display: DisplayState::WaitForGuess }
    }

    /// Handles a click on the map at `clicked`; returns the message to send
    /// to the server, if any.
    pub fn handle_click(&mut self, clicked: Coordinate) -> (sent: Option<ClientMessage>)
        ensures
            final(self).display == display_after_click(old(self).display, clicked),
            final(self).current_city == old(self).current_city,
            sent == sent_on_click(old(self).display, clicked),
    {
        match self.display {
            DisplayState::WaitForGuess => {
                self.display = DisplayState::WaitForServer { guess: clicked };
                Some(ClientMessage::Guess(clicked))
            },
            DisplayState::WaitForServer { .. } => None,
            DisplayState::WaitForContinue { .. } => {
                self.display = DisplayState::WaitForGuess;
                None
            },
        }
    }

    /// Handles a message from the server: a new round names the city to
    /// find, round results show the guess beside the actual place.
    pub fn handle_server_message(&mut self, msg: ServerMessage)
        requires
            accepts(old(self).display, msg),
        ensures
            final(self).display == display_after_message(old(self).display, msg),
            final(self).current_city == match msg {
                ServerMessage::NewRound { city_name } => city_name,
                _ => old(self).current_city,
            },
    {
        match msg {
            ServerMessage::Welcome { server_name: _ } => {},
            ServerMessage::NewRound { city_name } => {
                self.current_city = city_name;
            },
            ServerMessage::RoundResults { actual_location } => {
                let guess = match self.display {
                    DisplayState::WaitForServer { guess } => guess,
                    _ => {
                        assert(false);
                        actual_location
                    },
                };
                self.display = DisplayState::WaitForContinue { guess, actual: actual_location };
            },
        }
    }
}

/// The display once a guess placed at `clicked` has been answered with
/// the results `actual`.
pub open spec fn shown_after_round(clicked: Coordinate, actual: Coordinate) -> DisplayState {
    display_after_message(
        display_after_click(DisplayState::WaitForGuess, clicked),
        ServerMessage::RoundResults { actual_location: actual },
    )
}

/// A round comes full circle: from waiting for a guess, a click on
/// `clicked` sends it as the guess, the client then accepts the results,
/// which show it beside `actual`, and the next click brings the client back
/// to waiting for a guess, sending nothing more.
pub proof fn law_round_trip(clicked: Coordinate, actual: Coordinate, next_click: Coordinate)
    ensures
        sent_on_click(DisplayState::WaitForGuess, clicked) == Some(ClientMessage::Guess(clicked)),
        accepts(
            display_after_click(DisplayState::WaitForGuess, clicked),
            ServerMessage::RoundResults { actual_location: actual },
        ),
        shown_after_round(clicked, actual) == (DisplayState::WaitForContinue {
            guess: clicked,
            actual,
        }),
        sent_on_click(shown_after_round(clicked, actual), next_click) == None::<ClientMessage>,
        display_after_click(shown_after_round(clicked, actual), next_click)
            == DisplayState::WaitForGuess,
{
}

/// While the server's answer is awaited, clicks neither send anything nor
/// change the display.
pub proof fn law_clicks_ignored_while_waiting(guess: Coordinate, clicked: Coordinate)
    ensures
        sent_on_click((DisplayState::WaitForServer { guess }), clicked) == None::<ClientMessage>,
        display_after_click((DisplayState::WaitForServer { guess }), clicked) == (
        DisplayState::WaitForServer { guess }),
{
}


/// Only round results change the display: a welcome or a new round leaves
/// whatever is shown, results on screen included, as it was.
pub proof fn law_only_results_change_display(display: DisplayState, msg: ServerMessage)
    requires
        !(msg is RoundResults),
    ensures
        display_after_message(display, msg) == display,
{
}

/// Round results, taken while a guess is awaited, show that same guess
/// beside the actual place.
pub proof fn law_results_show_guess(guess: Coordinate, actual: Coordinate)
    ensures
        display_after_message(
            DisplayState::WaitForServer { guess },
            ServerMessage::RoundResults { actual_location: actual },
        ) == (DisplayState::WaitForContinue { guess, actual }),
{
}

} // verus!
