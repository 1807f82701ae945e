//! The two ways in which the front end fails. Both report the first failure
//! only.

use vstd::prelude::*;

use crate::lexer::TokenType;

verus! {

/// A character that begins no token.
#[derive(Debug, Clone, Copy, PartialEq, Eq, Structural)]
pub struct LexError {
    /// The offending character.
    pub character: char,
    /// Its offset in the source, counted in characters.
    pub position: usize,
}

/// A token that the grammar does not allow where it stands, or the end of the
/// tokens where one was due.
#[derive(Debug, PartialEq, Eq)]
pub struct ParseError {
    /// What was expected, for a human reader.
    pub message: String,
    /// The kind of the token that stood there, if one did.
    pub found: Option<TokenType>,
}

/// What a `ParseError` holds, as mathematical values.
pub struct ParseErrorView {
    pub message: Seq<char>,
    pub found: Option<TokenType>,
}

impl View for ParseError {
    type V = ParseErrorView;

    open spec fn view(&self) -> ParseErrorView {
        ParseErrorView { message: self.message@, found: self.found }
    }
}

/// The outcome of a step that may fail, set against what it should be: the
/// same value on success, an error with the same content on failure.
pub open spec fn agrees<T>(
    result: Result<T, ParseError>,
    model: Result<T, ParseErrorView>,
) -> bool {
    match result {
        Ok(value) => model == Ok::<T, ParseErrorView>(value),
        Err(error) => model == Err::<T, ParseErrorView>(error@),
    }
}

/// As `agrees`, for a value that is set against its view.
pub open spec fn agrees_in_view<T: View>(
    result: Result<T, ParseError>,
    model: Result<T::V, ParseErrorView>,
) -> bool {
    match result {
        Ok(value) => model == Ok::<T::V, ParseErrorView>(value@),
        Err(error) => model == Err::<T::V, ParseErrorView>(error@),
    }
}

impl ParseErrorView {
    /// The tokens ended where one was due; `message` says what was due.
    pub open spec fn at_end(message: Seq<char>) -> ParseErrorView {
        ParseErrorView { message, found: None }
    }

    /// A token of kind `found` stood where `message` says what was due.
    pub open spec fn at_token(message: Seq<char>, found: TokenType) -> ParseErrorView {
        ParseErrorView { message, found: Some(found) }
    }
}

impl ParseError {
    /// The error for the end of the tokens where one was due.
    pub fn at_end(message: &str) -> (error: ParseError)
        ensures
            error@ == ParseErrorView::at_end(message@),
    {
        ParseError { message: message.to_owned(), found: None }
    }

    /// The error for a token of kind `found` that stood where another was due.
    pub fn at_token(message: String, found: TokenType) -> (error: ParseError)
        ensures
            error@ == ParseErrorView::at_token(message@, found),
    {
        ParseError { message, found: Some(found) }
    }
}

} // verus!
