//! The line editor's pure halves: the text with its cursor, and where its cells land.

pub mod buffer;
pub mod keymap;
pub mod layout;
pub mod session;
