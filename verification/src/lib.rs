//! A personal knowledge bank's decision logic: what to index, what to keep out,
//! how replies are read back, and when a run may act.

pub mod assistant;
pub mod b64;
pub mod code_index;
pub mod embed;
pub mod error;
pub mod eval;
pub mod export;
pub mod health;
pub mod improve;
pub mod ingest;
pub mod json;
pub mod laws;
pub mod letters;
pub mod memory;
pub mod note;
pub mod numeral;
pub mod order;
pub mod path;
pub mod projects;
pub mod text;
pub mod textmap;
pub mod width;
