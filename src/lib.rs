//! Plans empty placeholder files named after a directory, one for each
//! requested extension, and says how a run creates or lists them.
pub mod path;
pub mod touchdir;

pub use touchdir::{Action, Touchdir, TouchdirError, TouchdirMode};
