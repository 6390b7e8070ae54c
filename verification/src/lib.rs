//! The editing core of a modal hex editor: multi-selections, a byte rope with
//! reversible edits, undo history and the keystroke-driven modes.

pub mod buffer;
pub mod byte_properties;
pub mod byte_rope;
pub mod cmd_count;
pub mod delta;
pub mod hex_view;
pub mod history;
pub mod keymap;
pub mod modes;
pub mod operations;
pub mod selection;
pub mod subset;
pub mod text;
pub mod view;
