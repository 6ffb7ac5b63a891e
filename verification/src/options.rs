//! The settings that a player is started with.

use vstd::prelude::*;

verus! {

/// The settings of a player.
#[derive(Clone, Debug)]
pub struct Opts {
    /// The port of the game server.
    pub port: u16,
    /// The host of the game server.
    pub host: String,
    /// The name under which the player registers.
    pub name: String,
    /// With this many cells empty or fewer, the game is read out to its end.
    pub ending_turns: u32,
    /// Whether the read-out takes the opponent to play at its best.
    pub ending_opt: bool,
    /// How many moves the search looks ahead.
    pub depth: u32,
    /// Whether the program plays against itself.
    pub selfmatch: bool,
}

} // verus!
