//! A verified todo-list state manager.
//!
//! The library owns an ordered list of todo records together with two draft
//! input fields, applies the add / toggle / remove operations, and provides a
//! byte codec so that the whole list can be handed to a persistent key-value
//! store and reloaded unchanged.

pub mod codec;
pub mod state;
