//! Source locations and the two error kinds of the language: lexical or
//! grammatical failures (`SyntaxError`) and closedness violations
//! (`CExprError`).
use vstd::prelude::*;

verus! {

/// A 1-based (line, column) source position.
#[derive(Clone, Copy, Debug, PartialEq, Eq, Structural)]
pub struct Loc {
    pub line: u64,
    pub col: u64,
}

impl Loc {
    /// The position of the very first character of a source text.
    pub fn new() -> (r: Loc)
        ensures
            r.line == 1,
            r.col == 1,
    {
        Loc { line: 1, col: 1 }
    }

    /// Move to the start of the next line.
    pub fn new_line(&mut self)
        requires
            old(self).line < u64::MAX,
        ensures
            final(self).line == old(self).line + 1,
            final(self).col == 1,
    {
        self.line = self.line + 1;
        self.col = 1;
    }

    /// Move one column to the right.
    pub fn col(&mut self)
        requires
            old(self).col < u64::MAX,
        ensures
            final(self).line == old(self).line,
            final(self).col == old(self).col + 1,
    {
        self.col = self.col + 1;
    }
}

impl Default for Loc {
    fn default() -> (r: Self)
        ensures
            r.line == 1,
            r.col == 1,
    {
        Loc::new()
    }
}

/// Which of the two error kinds an [`Error`] carries.
#[derive(Clone, Copy, Debug, PartialEq, Eq, Structural)]
pub enum ErrorTy {
    SyntaxError,
    CExprError,
}

/// An error produced while loading a rule set or parsing an expression:
/// its kind, where it arose, and a human-readable description.
#[derive(Clone, Debug)]
pub struct Error {
    pub loc: Loc,
    pub ty: ErrorTy,
    pub desc: String,
}

} // verus!
