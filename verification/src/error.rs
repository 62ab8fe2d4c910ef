//! The error taxonomy of the analysis pipeline.
//!
//! Structure-local failures (`MalformedDefinition`, `UnknownType`) are
//! recoverable: the affected block or structure is skipped and analysis
//! continues. Corpus-level failures (`DuplicateDefinition`,
//! `CyclicDependency`) abort a run, since they invalidate the soundness
//! of the dependency order. The remaining variants report invalid
//! external configuration, rejected before the core runs.

use vstd::prelude::*;

verus! {

/// An error that can occur during structure analysis.
#[derive(Debug)]
pub enum Error {
    /// A structure block with no discoverable name or an unterminated
    /// brace span. Recoverable: the block is skipped.
    MalformedDefinition(String),
    /// A field references a type that is neither a registered primitive
    /// nor an analyzed structure. Recoverable: the structure is skipped.
    /// Carries the field name and the unresolved type text.
    UnknownType(String, String),
    /// Two structures share a name across the corpus. Fatal.
    DuplicateDefinition(String),
    /// Structures mutually embed each other by value. Fatal. Carries the
    /// names of the cycle's member structures.
    CyclicDependency(Vec<String>),
    /// Invalid override configuration supplied at the boundary.
    Overrides(String),
    /// Invalid working directory supplied at the boundary.
    Directory(String),
    /// Invalid comma-separated pattern list supplied at the boundary.
    CommaSeparated(String),
}

} // verus!
