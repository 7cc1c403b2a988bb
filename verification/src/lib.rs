//! Simulation core of a tile-based push-puzzle game: a player entity moves on
//! a discrete grid and pushes chains of movable entities until blocked by an
//! immovable entity or the grid boundary. The crate verifies the movement
//! resolution and application algorithm, the move counter and event emission,
//! and the layered render-batching and animation-frame selection pipeline.

pub mod components;
pub mod events;
pub mod input_system;
pub mod rendering_system;
pub mod resources;
pub mod spatial;
