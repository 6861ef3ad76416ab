//! A fixed-block, in-memory keyed storage engine.
//!
//! A [`store::Chunk`] owns a single growable byte buffer (the arena), split
//! into blocks of a fixed size chosen at construction.  Values inserted under
//! a key are cut into blocks, the last one zero-padded; blocks freed by
//! removing a key are reused, in order, before the arena grows.

pub mod laws;
pub mod layout;
pub mod store;

pub use store::Chunk;
pub use store::Index;
