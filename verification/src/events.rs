//! Notifications raised by the movement applier: one per moved entity, and
//! one when the player's push is stopped by an immovable entity.

use vstd::prelude::*;

verus! {

/// An entity changed its position this tick.
#[derive(Debug, Clone, Copy, PartialEq, Eq, Structural)]
pub struct EntityMoved {
    pub id: u64,
}

/// A notification for external consumers (win check, audio, UI).
#[derive(Debug, Clone, Copy, PartialEq, Eq, Structural)]
pub enum Event {
    EntityMoved(EntityMoved),
    PlayerHitObstacle,
}

} // verus!
