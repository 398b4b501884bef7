//! Deterministic terrain generation and chunk streaming for a square tile world.
//!
//! Real-valued quantities (elevation, temperature, moisture, noise readings) are
//! held as integers counting millionths, so every rule of the generator is a
//! statement about integers and is proved as such.

pub mod biome;
pub mod generator;
pub mod fields;
pub mod classify;
pub mod resources;
pub mod world;
pub mod tiling;
pub mod blocks;
pub mod generation;
pub mod assembly;
pub mod compressed;
pub mod chunks;
pub mod keys;
pub mod lists;
pub mod streaming;
pub mod spatial;
pub mod progress;
