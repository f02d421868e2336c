//! Evaluation arena: game interfaces and per-game bookkeeping.

pub mod game;
pub mod multiplayer;
