//! The three kinds of failure: scanning, parsing and code generation.

use vstd::prelude::*;

verus! {

/// Why the scanner gave up. Positions count characters from 1.
#[derive(Debug, PartialEq, Eq, Clone, Copy, Structural)]
pub enum TokenizeError {
    /// No token rule matches the character `ch` at `pos`.
    UnexpectedChar { pos: usize, ch: char },
    /// The digits that start at `pos` exceed the largest 32-bit signed integer.
    NumberOutOfRange { pos: usize },
}

/// What the parser was looking for when it failed.
#[derive(Debug, PartialEq, Eq, Clone, Copy, Structural)]
pub enum ParseErrorKind {
    /// A given symbol was required.
    ExpectedSymbol,
    /// An integer literal was required.
    ExpectedNumber,
    /// An integer token was found, but it carries no value.
    MissingValue,
}

/// A mismatch between the token stream and the grammar.
#[derive(Debug, PartialEq, Eq)]
pub struct ParseError {
    /// What was required.
    pub kind: ParseErrorKind,
    /// The required symbol for `ExpectedSymbol`, empty otherwise.
    pub expected: String,
    /// The characters of the token found instead; empty at the end of the
    /// input and when no token is left.
    pub found: String,
    /// Where the token found instead starts; `None` when no token is left.
    pub pos: Option<usize>,
}

/// The mathematical content of a [`ParseError`].
pub struct ParseErrorView {
    pub kind: ParseErrorKind,
    pub expected: Seq<char>,
    pub found: Seq<char>,
    pub pos: Option<nat>,
}

impl View for ParseError {
    type V = ParseErrorView;

    open spec fn view(&self) -> ParseErrorView {
        ParseErrorView {
            kind: self.kind,
            expected: self.expected@,
            found: self.found@,
            pos: match self.pos {
                Some(p) => Some(p as nat),
                None => None,
            },
        }
    }
}

/// Why no code can be generated for a tree.
#[derive(Debug, PartialEq, Eq, Clone, Copy, Structural)]
pub enum GenError {
    /// The left side of an assignment is not a variable.
    NotAnLvalue,
    /// A node lacks an operand, its literal or its offset.
    InvalidNode,
}

} // verus!
