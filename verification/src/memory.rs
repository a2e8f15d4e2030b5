//! Memories, as far as the library reads them.

use vstd::prelude::*;

verus! {

/// One memory of the bank.
#[derive(Debug, Clone, PartialEq, Eq)]
pub struct Memory {
    pub id: i64,
    pub content: String,
    pub source: Option<String>,
    pub project: Option<String>,
    pub created_at: String,
}

} // verus!
