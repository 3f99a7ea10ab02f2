//! Core of an application launcher: desktop-entry parsing, an application
//! index with per-file invalidation, a usage store, ranking of candidates,
//! a global hotkey state machine and flattening of a window-manager tree.

pub mod desktop_entry;
pub mod entry;
pub mod hotkey;
pub mod index;
pub mod rank;
pub mod text;
pub mod usage;
pub mod view;
pub mod windows;
