//! Shared per-tick state: the queue of pending directional inputs, the queue
//! of outgoing notifications, and the gameplay record (move counter and state
//! label).

use vstd::prelude::*;
use crate::events::Event;

verus! {

/// A directional input. Non-directional keys are filtered out by the external
/// input collector before they reach the queue.
#[derive(Debug, Clone, Copy, PartialEq, Eq, Structural)]
pub enum Direction {
    Up,
    Down,
    Left,
    Right,
}

/// Pending directional inputs, oldest first. The simulation consumes at most
/// one entry per tick, in first-in-first-out order, so rapid key sequences
/// are processed in the order they were produced.
#[derive(Debug, Clone)]
pub struct InputQueue {
    pub keys_pressed: Vec<Direction>,
}

impl InputQueue {
    pub fn new() -> (r: Self)
        ensures
            r.keys_pressed@.len() == 0,
    {
        InputQueue { keys_pressed: Vec::new() }
    }
}

/// Notifications produced by the movement applier for external consumers.
#[derive(Debug, Clone)]
pub struct EventQueue {
    pub events: Vec<Event>,
}

impl EventQueue {
    pub fn new() -> (r: Self)
        ensures
            r.events@.len() == 0,
    {
        EventQueue { events: Vec::new() }
    }
}

/// Whether the game is still being played or has been won. The win check
/// itself is outside this core.
#[derive(Debug, Clone, Copy, PartialEq, Eq, Structural)]
pub enum GameplayState {
    Playing,
    Won,
}

impl GameplayState {
    /// The state's display label.
    pub fn label(&self) -> (r: String)
        ensures
            self == GameplayState::Playing ==> r@ == "Playing"@,
            self == GameplayState::Won ==> r@ == "Won"@,
    {
        match self {
            GameplayState::Playing => "Playing".to_string(),
            GameplayState::Won => "Won".to_string(),
        }
    }
}

/// The shared gameplay record: how many move events have been applied, and
/// the current state label.
#[derive(Debug, Clone, Copy, PartialEq, Eq, Structural)]
pub struct Gameplay {
    pub moves_count: u64,
    pub state: GameplayState,
}

impl Gameplay {
    pub fn new() -> (r: Self)
        ensures
            r.moves_count == 0,
            r.state == GameplayState::Playing,
    {
        Gameplay { moves_count: 0, state: GameplayState::Playing }
    }
}

} // verus!
