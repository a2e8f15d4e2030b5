//! The error that the library's operations report.

use vstd::prelude::*;

verus! {

/// Why an operation was refused.
#[derive(Debug, Clone)]
pub enum KbError {
    /// The embedding service gave nothing of use.
    Embed(String),
    /// A refusal in words.
    Other(String),
}

impl View for KbError {
    type V = Seq<char>;

    /// The words of the refusal.
    open spec fn view(&self) -> Seq<char> {
        match self {
            KbError::Embed(s) => s@,
            KbError::Other(s) => s@,
        }
    }
}

impl KbError {
    /// The words of the refusal.
    pub fn message(&self) -> (r: String)
        ensures
            r@ == self@,
    {
        match self {
            KbError::Embed(s) => s.clone(),
            KbError::Other(s) => s.clone(),
        }
    }
}

} // verus!
