//! The contract between the editing core and the presentation.

pub mod view_options;
pub mod style;
pub mod prompt;
