//! Value types of the match judge: game results, player configuration,
//! and the in-memory recording of a game's requests.

use vstd::prelude::*;

verus! {

/// How one game ended.
pub enum GameResult {
    /// The named player won by card count.
    WonByPlayer { player_idx: usize },
    /// Both players won the same number of cards.
    Tie,
    /// The named player lost by playing an illegal move.
    IllegalMoveByPlayer { player_idx: usize, err: crate::errors::IllegalMove },
}

/// How to start a player process: a display name and a command line.
#[derive(Clone, Debug)]
pub struct PlayerConfig {
    pub nick: String,
    pub cmd: Vec<String>,
}

/// One request sent to a player, with its response, both as the JSON
/// text that went over the wire.
#[derive(Clone, Debug)]
pub struct RequestToPlayer {
    pub player: String,
    pub request: String,
    pub response: String,
}

/// A whole game's worth of requests.
#[derive(Clone, Debug)]
pub struct GameRecording {
    pub requests: Vec<RequestToPlayer>,
}

/// Collects the requests of the game in play; writing them out is the
/// caller's business.
pub struct Recorder {
    /// The number of the game being recorded, starting at 1.
    pub num: usize,
    /// The directory the recordings are meant for.
    pub directory: String,
    /// The requests of the game in play, oldest first.
    pub requests: Vec<RequestToPlayer>,
}

impl Recorder {
    /// A recorder for the given directory, starting with game 1.
    pub fn new(directory: String) -> (r: Recorder)
        ensures
            r.num == 1,
            r.requests@.len() == 0,
    {
        Recorder { num: 1, directory, requests: Vec::new() }
    }

    /// Appends one request/response pair to the game in play.
    pub fn store_request(&mut self, player: String, request: String, response: String)
        ensures
            final (self).requests@.len() == old(self).requests@.len() + 1,
            final (self).requests@[old(self).requests@.len() as int].request == request,
            final (self).requests@[old(self).requests@.len() as int].response == response,
            forall|k: int|
                0 <= k < old(self).requests@.len() ==> final (self).requests@[k] == old(
                    self,
                ).requests@[k],
            final (self).num == old(self).num,
            final (self).directory == old(self).directory,
    {
        self.requests.push(RequestToPlayer { player, request, response });
    }

    /// Takes the finished game's requests out and moves on to the next
    /// game number.
    pub fn finish_game(&mut self) -> (r: GameRecording)
        requires
            old(self).num < usize::MAX,
        ensures
            r.requests@ == old(self).requests@,
            final (self).requests@.len() == 0,
            final (self).num == old(self).num + 1,
    {
        let mut requests: Vec<RequestToPlayer> = Vec::new();
        core::mem::swap(&mut requests, &mut self.requests);
        self.num = self.num + 1;
        GameRecording { requests }
    }
}

} // verus!
