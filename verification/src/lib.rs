//! A leveled associative container.
//!
//! Every entry lives at an integer level; every entry below level 0 carries a
//! link to the parent entry that produced it one level up (for example
//! country, then state, then city).  Keys are unique within a level globally,
//! not merely among siblings.  Lookups and mutations are addressed by a *key
//! chain*: an ordered sequence of keys, one per level, optionally starting at
//! a non-zero level.  Keys are plain 64-bit identifiers; a caller that keys
//! its data by richer values is expected to intern them.

pub mod engine;
pub mod errors;
pub mod laws;
pub mod model;

pub use engine::LeveledHashMap;
pub use errors::LeveledHashMapError;
