//! What can be wrong with a pattern.

use vstd::prelude::*;

verus! {

/// The reason why a pattern does not compile.
#[derive(Debug, PartialEq, Eq, Clone, Copy)]
pub enum CompileError {
    /// `%` before a letter or digit that names no class.
    UnsupportedEscape,
    /// The pattern ends with `%`.
    EmptyEscape,
    /// A tenth `(`.
    TooManyCaptures,
    /// `)` with no group open.
    UnmatchedClose,
    /// The pattern ends with a group still open.
    UnterminatedGroup,
    /// `[` with no `]` after it.
    UnterminatedSet,
    /// `%b` that two different characters do not follow.
    MalformedBorder,
    /// `%f` that `[` does not follow.
    MalformedFrontier,
    /// A quantifier after an element that cannot be repeated.
    StrayQuantifier,
}

} // verus!
