//! The interfaces between a game, its players and the arena.

use vstd::prelude::*;

verus! {

/// Index of a player in the game (0, 1, 2, ...).
pub type PlayerIndex = usize;

/// The outcome of a completed game.
#[derive(Debug, Clone, Copy, PartialEq, Eq, Structural)]
pub enum GameOutcome {
    /// A player won.
    Winner(PlayerIndex),
    /// The game ended in a draw.
    Draw,
}

/// A command issued by an agent to the game. Opaque to the arena.
pub trait GameCommand: core::fmt::Debug + Clone {}

impl<T: core::fmt::Debug + Clone> GameCommand for T {}

/// What the game exposes to one player each turn.
pub trait GameView: core::fmt::Debug + Clone {
    /// Which player is this view for?
    fn viewer(&self) -> PlayerIndex;

    /// What turn number is it?
    fn turn(&self) -> u32;
}

/// The game interface: views per player, command application, end of game.
pub trait GameState: core::fmt::Debug {
    /// The command type this game accepts.
    type Command: GameCommand;
    /// The view type this game provides to agents.
    type View: GameView;

    /// The current view for a specific player.
    fn view_for(&self, player: PlayerIndex) -> Self::View;

    /// Apply a command from a player: `Ok` if valid, `Err` with a reason if not.
    fn apply_command(&mut self, player: PlayerIndex, command: Self::Command) -> Result<(), String>;

    /// Is the game over?
    fn is_terminal(&self) -> bool;

    /// The outcome, if the game is over.
    fn outcome(&self) -> Option<GameOutcome>;

    /// Current turn/tick number.
    fn turn_number(&self) -> u32;

    /// How many players are in this game?
    fn num_players(&self) -> usize;
}

} // verus!
