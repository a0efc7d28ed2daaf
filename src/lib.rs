//! A deterministic, turn-based engine for the Ants game: a grid world in which
//! the colonies of several players move, fight, raze hills and harvest food.

pub mod entities;
pub mod game;
pub mod grid;
pub mod laws;
pub mod outside;
pub mod replay;
pub mod simulation;

pub use entities::{Ant, Entity, Food, Hill, Water};
pub use game::{Action, Direction, FinishedReason, Game, GameState, PlayerAnt, StateEntity};
pub use grid::{Grid, MapError};
pub use replay::{create_replay_logger, Event, JsonReplayLogger, ReplayLogger};
pub use simulation::Simulation;
