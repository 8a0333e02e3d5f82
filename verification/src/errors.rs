use vstd::prelude::*;

verus! {

/// The error taxonomy of the engine.
///
/// Every failure is a typed value surfaced to the caller; the engine
/// performs no silent retries except the bounded substitution fixpoint,
/// which is a transformation loop, not error recovery.
#[derive(Clone, Copy, Debug, PartialEq, Eq, Structural)]
pub enum Error {
    /// The source could not be read at all.
    Read,
    /// The query was malformed or did not fit the grammar; surfaced at
    /// compile time, never at match time.
    Compile,
    /// No tree could be produced for the source, or a capture record
    /// was inconsistent with the query it came from; an internal,
    /// unexpected condition.
    Parse,
    /// A capture's byte range does not denote valid text in the buffer.
    Decode,
    /// The substitution fixpoint was not reached within the iteration
    /// bound.
    RewriteDivergence,
}

} // verus!
