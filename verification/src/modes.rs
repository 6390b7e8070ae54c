//! The modes of the editor. The mode on top of the stack takes each event
//! and says what becomes of it.

pub mod collapse;
pub mod command;
pub mod insert;
pub mod jumpto;
pub mod mode;
pub mod normal;
pub mod quitting;
pub mod replace;
pub mod search;
pub mod split;
