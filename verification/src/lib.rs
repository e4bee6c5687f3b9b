//! Core of a streaming, procedurally generated 2-D tile world.
//!
//! The world is an infinite grid of 32x32-tile chunks around a moving
//! observer.  This crate holds the chunk coordinate model, the deterministic
//! terrain and feature generator, the insert-once terrain store, the
//! visibility-driven entity cache with exact evict/restore, and the
//! movement/collision resolver.  Rendering, input polling and noise sampling
//! live outside the library and talk to it through plain values.

pub mod brightness;
pub mod chunk_map;
pub mod chunk_terrain;
pub mod coords;
pub mod entities;
pub mod generator;
pub mod player;
pub mod tile_types;
pub mod world;

pub use coords::CHUNK_SIZE;
