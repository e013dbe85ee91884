//! How a parse can fail.

use vstd::prelude::*;

verus! {

/// The ways in which a piece of module text can fail to be what a parser
/// was asked to read.
#[derive(Debug, Clone, Copy, PartialEq, Eq, Structural)]
pub enum ErrorKind {
    /// The text does not begin with the character that opens the item:
    /// `[` for a question, `<` for a tag, `//` for a comment. Nothing has
    /// been read. Where a sequence of items is read this is no failure: it
    /// ends the sequence.
    NoMatch,
    /// A header was opened with `[` and no `]` follows.
    UnterminatedHeader,
    /// A tag was opened with `<` and its name is neither `grid` nor `loop`.
    /// Like [`ErrorKind::NoMatch`], this ends a sequence of items without
    /// failing it: no item has begun.
    UnknownTag,
    /// A tag name was read and no `>` follows.
    UnterminatedTagAttributes,
    /// A `<grid ..>` or `<loop ..>` was opened and its closing tag never
    /// follows.
    UnterminatedGroup,
}

/// A failed parse: what went wrong and where.
#[derive(Debug, Clone, Copy, PartialEq, Eq, Structural)]
pub struct ParseError {
    pub kind: ErrorKind,
    /// The index, counted in characters from the start of the text that was
    /// handed to the parser, at which the match that failed was attempted.
    pub position: usize,
}

/// The mathematical counterpart of [`ParseError`].
pub struct Failure {
    pub kind: ErrorKind,
    pub at: int,
}

impl View for ParseError {
    type V = Failure;

    open spec fn view(&self) -> Failure {
        Failure { kind: self.kind, at: self.position as int }
    }
}

impl ErrorKind {
    /// An item had begun when the parse failed, so the failure is final. The
    /// other kinds only say that no item begins here.
    pub open spec fn is_fatal(self) -> bool {
        self != ErrorKind::NoMatch && self != ErrorKind::UnknownTag
    }

    /// Whether an item had begun when the parse failed.
    pub fn fatal(&self) -> (r: bool)
        ensures
            r == self.is_fatal(),
    {
        match self {
            ErrorKind::NoMatch => false,
            ErrorKind::UnknownTag => false,
            _ => true,
        }
    }
}

impl ParseError {
    /// The same failure, seen from a text that begins `by` characters
    /// earlier.
    pub fn shifted(self, by: usize) -> (r: ParseError)
        requires
            self.position + by <= usize::MAX,
        ensures
            r@ == self@.shifted(by as int),
    {
        ParseError { kind: self.kind, position: self.position + by }
    }
}

impl Failure {
    /// The same failure, seen from a text that begins `by` characters
    /// earlier.
    pub open spec fn shifted(self, by: int) -> Failure {
        Failure { kind: self.kind, at: self.at + by }
    }
}

} // verus!
