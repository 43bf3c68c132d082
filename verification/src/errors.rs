//! The errors of building an interpolator and of rendering a key.
use vstd::prelude::*;

verus! {

/// Errors produced while parsing a format string and constructing an
/// [`Interpolator`](crate::Interpolator).
#[derive(Debug, Clone, PartialEq, Eq)]
pub enum ParseError {
    /// A brace was unmatched in the format string (an unescaped `{` or `}`);
    /// holds the whole format string.
    UnmatchedBrace(String),
    /// The pad specifier after `:` was not a valid padding number; holds the
    /// text after the `:`.
    InvalidNumberFormat(String),
    /// An index could not be parsed as an integer; holds the index text.
    InvalidIndex(String),
    /// The same index was referenced by more than one placeholder.
    DuplicateIndex(isize),
    /// A catch-all placeholder (`{*}`) was used without supplying a separator.
    CatchAllNeedsSeparator,
    /// More than one catch-all placeholder (`{*}`) appeared in the format.
    MultipleCatchAll,
}

/// A [`ParseError`] with its text as a sequence of characters.
pub enum ParseErrorView {
    UnmatchedBrace(Seq<char>),
    InvalidNumberFormat(Seq<char>),
    InvalidIndex(Seq<char>),
    DuplicateIndex(isize),
    CatchAllNeedsSeparator,
    MultipleCatchAll,
}

impl View for ParseError {
    type V = ParseErrorView;

    open spec fn view(&self) -> ParseErrorView {
        match self {
            ParseError::UnmatchedBrace(s) => ParseErrorView::UnmatchedBrace(s@),
            ParseError::InvalidNumberFormat(s) => ParseErrorView::InvalidNumberFormat(s@),
            ParseError::InvalidIndex(s) => ParseErrorView::InvalidIndex(s@),
            ParseError::DuplicateIndex(i) => ParseErrorView::DuplicateIndex(*i),
            ParseError::CatchAllNeedsSeparator => ParseErrorView::CatchAllNeedsSeparator,
            ParseError::MultipleCatchAll => ParseErrorView::MultipleCatchAll,
        }
    }
}

/// Errors produced while interpolating chunk indices into a format string.
#[derive(Debug, Clone, Copy, PartialEq, Eq, Structural)]
pub enum InterpolateError {
    /// A referenced index was out of bounds for the given chunk indices:
    /// the index as written (wrapped to `isize`) and the number of chunk
    /// indices.
    IndexOutOfBounds(isize, usize),
}

} // verus!
