use vstd::prelude::*;

pub mod error;
pub mod lexer;

verus! {

/// A half-open byte-offset span `[start, end)` into the original input.
#[derive(Debug, Clone, Copy, PartialEq, Eq, Structural, Hash)]
pub struct Loc(pub usize, pub usize);

impl Loc {
    /// A span is well formed when its start does not lie past its end.
    pub open spec fn wf(self) -> bool {
        self.0 <= self.1
    }
}

/// A payload paired with the span of input it came from; carries both
/// tokens and lexical errors.
#[derive(Debug, Clone, PartialEq, Eq, Structural, Hash)]
pub struct Annot<T> {
    pub value: T,
    pub loc: Loc,
}

impl<T> Annot<T> {
    pub fn new(value: T, loc: Loc) -> (r: Self)
        ensures
            r == (Annot { value, loc }),
    {
        Self { value, loc }
    }
}

} // verus!
