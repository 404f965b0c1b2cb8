use vstd::prelude::*;

verus! {

/// A parse failure, carrying where in the input it happened.
#[derive(Debug, PartialEq, Eq, Clone)]
pub enum Error {
    /// An unexpected end-of-line has been found.
    EndOfLine,
    /// A syntax error at the indicated cursor position has been found.
    Character(usize),
}

} // verus!
