//! The roster of a session: who sits at which handle.
//!
//! A session starts once an endpoint is known for every player. Players take
//! the handles from 0 in the order in which they are listed; spectators
//! follow them.
use vstd::prelude::*;
use crate::rollback::{config_valid, validate, SessionConfig, SessionError};

verus! {

/// Whether the application is still gathering players or runs the game.
#[derive(Clone, Copy, Debug, PartialEq, Eq, Structural)]
pub enum AppState {
    Waiting,
    InGame,
}

/// How an endpoint takes part.
#[derive(Clone, Copy, Debug, PartialEq, Eq, Structural)]
pub enum PlayerKind {
    /// A player on this machine.
    Local,
    /// A player on another machine.
    Remote,
    /// An onlooker: receives the commands and gives none.
    Spectator,
}

/// One seat of the session.
#[derive(Clone, Copy, Debug, PartialEq, Eq, Structural)]
pub struct Seat {
    /// The handle of the endpoint in the session.
    pub handle: usize,
    pub kind: PlayerKind,
    /// The place of the endpoint in its list: that of the players for a
    /// player, that of the spectators for a spectator.
    pub entry: usize,
}

/// The name that marks a player of this machine.
pub open spec fn local_name() -> Seq<char> {
    "localhost"@
}

/// The seat at `handle`, for players named `players` followed by spectators.
pub open spec fn seat_at(players: Seq<Seq<char>>, handle: int) -> Seat {
    if handle < players.len() {
        Seat {
            handle: handle as usize,
            kind: if players[handle] == local_name() {
                PlayerKind::Local
            } else {
                PlayerKind::Remote
            },
            entry: handle as usize,
        }
    } else {
        Seat {
            handle: handle as usize,
            kind: PlayerKind::Spectator,
            entry: (handle - players.len()) as usize,
        }
    }
}

/// The seats of a session with the given players and `spectators`
/// spectators.
pub open spec fn seating(players: Seq<Seq<char>>, spectators: int) -> Seq<Seat> {
    Seq::new((players.len() + spectators) as nat, |handle: int| seat_at(players, handle))
}

/// The names of the players as sequences of characters.
pub open spec fn names(players: Seq<String>) -> Seq<Seq<char>> {
    Seq::new(players.len(), |i: int| players[i]@)
}

/// Decides whether the session can start, and who sits where.
///
/// - Parameters that describe no session, more players than the session
///   has, or more seats than can be counted: `ConfigurationError`.
/// - Fewer players than the session has: `None`. This is no error; the
///   caller keeps waiting.
/// - Else the seats: a player named `localhost` is local, any other player
///   is remote, and the spectators follow the players.
pub fn wait_for_players(config: &SessionConfig, players: &Vec<String>, spectators: usize) -> (r:
    Result<Option<Vec<Seat>>, SessionError>)
    ensures
        r is Err <==> (!config_valid(*config) || players.len() > config.num_players
            || players.len() == config.num_players && players.len() + spectators > usize::MAX),
        r is Err ==> r->Err_0 == SessionError::ConfigurationError,
        r is Ok ==> (r->Ok_0 is None <==> players.len() < config.num_players),
        r is Ok && r->Ok_0 is Some ==> (r->Ok_0->0)@ == seating(
            names(players@),
            spectators as int,
        ),
{
    if validate(config).is_err() {
        return Err(SessionError::ConfigurationError);
    }
    let n: usize = players.len();
    if n < config.num_players {
        return Ok(None);
    }
    if n > config.num_players || spectators > usize::MAX - n {
        return Err(SessionError::ConfigurationError);
    }
    let local: String = "localhost".to_owned();
    let mut seats: Vec<Seat> = Vec::new();
    let mut handle: usize = 0;
    while handle < n
        invariant
            handle <= n,
            n == players.len(),
            local@ == local_name(),
            seats.len() == handle,
            forall|h: int| 0 <= h < handle ==> seats@[h] == seat_at(names(players@), h),
        decreases n - handle,
    {
        let kind: PlayerKind = if players[handle] == local {
            PlayerKind::Local
        } else {
            PlayerKind::Remote
        };
        seats.push(Seat { handle, kind, entry: handle });
        handle = handle + 1;
    }
    let mut entry: usize = 0;
    while entry < spectators
        invariant
            entry <= spectators,
            n == players.len(),
            n + spectators <= usize::MAX,
            seats.len() == n + entry,
            forall|h: int| 0 <= h < n + entry ==> seats@[h] == seat_at(names(players@), h),
        decreases spectators - entry,
    {
        seats.push(Seat { handle: n + entry, kind: PlayerKind::Spectator, entry });
        entry = entry + 1;
    }
    assert(seats@ =~= seating(names(players@), spectators as int));
    Ok(Some(seats))
}

/// The state of the application after a look at the roster: the game starts
/// once the seats are known and the transport is up, and never stops
/// here.
pub fn next_app_state(state: AppState, seated: bool, transport_up: bool) -> (next: AppState)
    ensures
        next == if state == AppState::InGame || (seated && transport_up) {
            AppState::InGame
        } else {
            AppState::Waiting
        },
{
    match state {
        AppState::InGame => AppState::InGame,
        AppState::Waiting => if seated && transport_up {
            AppState::InGame
        } else {
            AppState::Waiting
        },
    }
}

} // verus!
