//! Error kinds of the index pipeline and query engine.

use vstd::prelude::*;

verus! {

/// How an index operation fails.
///
/// `CorruptArtifact` is fatal to the enclosing phase: a spill file, merged
/// stream, or binary artifact failed to decode and must be rebuilt.
/// `UnknownTerm` is the non-fatal "zero results for this term" outcome of a
/// lexicon lookup.
#[derive(Clone, Copy, PartialEq, Eq, Structural, Debug)]
pub enum IndexError {
    CorruptArtifact,
    UnknownTerm,
}

impl IndexError {
    /// A short description, for callers that print errors.
    pub fn describe(&self) -> (r: &'static str)
        ensures
            *self is CorruptArtifact ==> r@ == "corrupt artifact"@,
            *self is UnknownTerm ==> r@ == "unknown term"@,
    {
        match self {
            IndexError::CorruptArtifact => "corrupt artifact",
            IndexError::UnknownTerm => "unknown term",
        }
    }
}

} // verus!
