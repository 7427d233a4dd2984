//! Turn-based simulation core of a dungeon-crawling roguelike: procedural
//! level generation, field-of-view computation, entity state (combat, AI,
//! inventory, items), turn resolution, and a persistable world snapshot.
//!
//! Rendering, raw input capture and file handling are left to the caller;
//! the core exposes the map, the entity list, the message log and a
//! serialize/deserialize pair over plain bytes.

pub mod actions;
pub mod codec;
pub mod color;
pub mod fov;
pub mod game;
pub mod mapgen;
pub mod object;
pub mod rng;
pub mod text;
