//! Laws that tie the operations to what they are for: what was written reads
//! back, nothing that was given gets lost, nothing comes out that was not given.

pub mod basics;
pub mod changes;
pub mod checks;
pub mod eval;
pub mod export;
pub mod health;
pub mod improve;
pub mod ingest;
pub mod job;
pub mod modules;
pub mod note;
pub mod path;
pub mod projects;
pub mod prompt;
pub mod reply;
pub mod result;
pub mod scope;
pub mod secrets;
pub mod stages;
pub mod summary;
pub mod text;
pub mod vcs;
pub mod writes;
