//! Errors of the classification engine.

use vstd::prelude::*;

verus! {

/// What can go wrong while classifying a file name.
#[derive(Debug, Clone, PartialEq, Eq)]
pub enum FOError {
    /// The pattern mini-language rejected an import rule's pattern, or the
    /// regular expression it compiled to was itself rejected.
    PatternError(String),
    /// None of the import rules' patterns matched the input file name.
    NoPatternMatch,
}

} // verus!
