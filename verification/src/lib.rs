//! A chunked, bit-packed engine for Conway's Game of Life on the plane of
//! `i32` coordinates, with its rules and data structures proved in Verus.
pub mod chunks;
pub mod coords;
pub mod engine;
pub mod life_rule;
pub mod morton;
pub mod pattern;
pub mod world;

pub use chunks::{Chunk, CHUNK_SIZE};
pub use coords::Coord;
pub use engine::{Engine, EngineCommand, EngineState, TickAction};
pub use life_rule::LifeRule;
pub use world::World;
