//! A hierarchical repository of named patches: slash-delimited logical names
//! map onto JSON files under a root directory, while an in-memory registry
//! tracks which names are currently open in the engine.
//!
//! The library decides; the host performs the file-system and engine work and
//! reports back what it observed.

pub mod autostart;
pub mod entries;
pub mod events;
pub mod names;
pub mod patch;
pub mod registry;
pub mod repo;
pub mod text;
