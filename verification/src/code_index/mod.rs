//! The code index: which files enter it, how they are described, and how their
//! descriptions are kept in step with the code.

pub mod changes;
pub mod job;
pub mod modules;
pub mod reply;
pub mod rerun;
pub mod rows;
pub mod scope;
pub mod secrets;
pub mod stages;
pub mod summary;
pub mod writes;
