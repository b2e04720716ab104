//! A beat-driven grid simulation: teams send blobs along shortest routes from their spawners to
//! their goals, and pads fire triggers that capture blobs standing on them.
//!
//! - [`grid`]: the tile grid, its occupancy and pixel geometry;
//! - [`pathfind`]: the route search over the grid;
//! - [`beat`]: the fixed-period beat clock;
//! - [`components`] and [`world`]: the entities and the store that holds them;
//! - [`systems`]: the per-beat and per-frame rules over the store;
//! - [`game`]: the level and the order in which a frame runs the systems.

pub mod beat;
pub mod components;
pub mod game;
pub mod grid;
pub mod pathfind;
pub mod systems;
pub mod world;
