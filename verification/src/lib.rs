//! A small library behind a command-line "random picker": it keeps a
//! configured list of items per named group, tracks which items were already
//! chosen in an append-only history, picks a random not-yet-chosen item, and
//! resets the history once every item has been chosen.

pub mod dirs;
pub mod errors;
pub mod laws;
pub mod setting;
pub mod store;
pub mod text;
