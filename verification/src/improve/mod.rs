//! The improve pass: the knowledge bank feeding back into the user's own
//! configuration. It decides whether a run is due, what it may touch, what it
//! is told, how its result is read, whether its changes stand, and what is
//! recorded of it.

pub mod checks;
pub mod outcome;
pub mod prompt;
pub mod result;
pub mod targets;
pub mod vcs;
pub mod verify;
