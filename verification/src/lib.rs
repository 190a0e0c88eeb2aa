//! A small runtime for terminal arcade games: a character grid with
//! one-frame-delayed occupancy, per-entity attribute bags, and a scheduler
//! that starts each entity once and updates it every tick.

pub mod attributes;
pub mod grid;
pub mod input;
pub mod pacer;
pub mod schedule;
pub mod world;

pub use crate::grid::DrawCall;
pub use crate::grid::Grid;
pub use crate::grid::MapTile;
pub use crate::input::Input;
pub use crate::world::Entity;
pub use crate::world::EntityData;
pub use crate::world::World;
