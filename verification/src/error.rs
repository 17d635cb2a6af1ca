//! What can go wrong while reading reference text, from characters to
//! declarations.
use crate::token::{views, Token, TokenView};
use vstd::prelude::*;
use vstd::slice::slice_to_vec;

verus! {

/// A failure to turn characters into tokens.
#[derive(Debug, Clone, Copy, PartialEq, Eq, Hash)]
pub enum LexError<'source> {
    /// No token starts with `character`, found at index `position` of the
    /// text, counted in characters.
    UnexpectedCharacter { character: char, position: usize },
    /// The run of digits that starts at index `position` denotes a number
    /// above `u64::MAX`.
    NumberOutOfRange { digits: &'source str, position: usize },
}

/// A lexing error, with digits taken by their characters.
pub enum LexErrorView {
    UnexpectedCharacter { character: char, position: int },
    NumberOutOfRange { digits: Seq<char>, position: int },
}

impl<'source> View for LexError<'source> {
    type V = LexErrorView;

    open spec fn view(&self) -> LexErrorView {
        match *self {
            LexError::UnexpectedCharacter { character, position } => {
                LexErrorView::UnexpectedCharacter { character, position: position as int }
            },
            LexError::NumberOutOfRange { digits, position } => {
                LexErrorView::NumberOutOfRange { digits: digits@, position: position as int }
            },
        }
    }
}

/// What a parser was looking for when it met tokens of another shape.
#[derive(Debug, Clone, Copy, PartialEq, Eq, Hash)]
pub enum Expected {
    /// A parameter: `type name`, `type * name` or `const type * name`.
    Parameter,
    /// A return type: `const type *`, `type *` or `type`.
    ReturnType,
    /// A function's name and the opening parenthesis behind it.
    FunctionName,
    /// The name of an enumeration group, before its colon.
    GroupName,
    /// A variant: a name, a named group, or a group in brackets.
    Variant,
}

/// A token that closes or separates a part of a declaration.
#[derive(Debug, Clone, Copy, PartialEq, Eq, Hash)]
pub enum Delimiter {
    ClosingParenthesis,
    Colon,
}

/// A failure to read a declaration. Each one ends the parse: nothing is
/// skipped, and no part of a value is returned.
#[allow(inconsistent_fields)]
#[derive(Debug, Clone, PartialEq, Eq, Hash)]
pub enum ParseError<'source> {
    /// The text could not be split into tokens.
    Lex(LexError<'source>),
    /// The tokens `found` have none of the shapes of what was `expected`.
    UnexpectedTokenShape { expected: Expected, found: Vec<Token<'source>> },
    /// Among the tokens `found` a group is closed that was not opened, or is
    /// left open at the end.
    UnbalancedNesting { found: Vec<Token<'source>> },
    /// The tokens that `remaining` holds lack the delimiter that was
    /// `expected` among them.
    MissingDelimiter { expected: Delimiter, remaining: Vec<Token<'source>> },
}

/// A parse error, with tokens taken by their views.
#[allow(inconsistent_fields)]
pub enum ParseErrorView {
    Lex(LexErrorView),
    UnexpectedTokenShape { expected: Expected, found: Seq<TokenView> },
    UnbalancedNesting { found: Seq<TokenView> },
    MissingDelimiter { expected: Delimiter, remaining: Seq<TokenView> },
}

impl<'source> View for ParseError<'source> {
    type V = ParseErrorView;

    open spec fn view(&self) -> ParseErrorView {
        match *self {
            ParseError::Lex(e) => ParseErrorView::Lex(e@),
            ParseError::UnexpectedTokenShape { expected, found } => {
                ParseErrorView::UnexpectedTokenShape { expected, found: views(found@) }
            },
            ParseError::UnbalancedNesting { found } => {
                ParseErrorView::UnbalancedNesting { found: views(found@) }
            },
            ParseError::MissingDelimiter { expected, remaining } => {
                ParseErrorView::MissingDelimiter { expected, remaining: views(remaining@) }
            },
        }
    }
}

/// The error for tokens of an unexpected shape, with a copy of the tokens.
pub fn unexpected_shape<'source>(expected: Expected, found: &[Token<'source>]) -> (error:
    ParseError<'source>)
    ensures
        error@ == (ParseErrorView::UnexpectedTokenShape { expected, found: views(found@) }),
{
    ParseError::UnexpectedTokenShape { expected, found: slice_to_vec(found) }
}

/// The error for groups that do not balance, with a copy of the tokens
/// among which they stand.
pub fn unbalanced_nesting<'source>(found: &[Token<'source>]) -> (error: ParseError<'source>)
    ensures
        error@ == (ParseErrorView::UnbalancedNesting { found: views(found@) }),
{
    ParseError::UnbalancedNesting { found: slice_to_vec(found) }
}

/// The error for a delimiter that is missing, with a copy of the tokens
/// that lack it.
pub fn missing_delimiter<'source>(expected: Delimiter, remaining: &[Token<'source>]) -> (error:
    ParseError<'source>)
    ensures
        error@ == (ParseErrorView::MissingDelimiter { expected, remaining: views(remaining@) }),
{
    ParseError::MissingDelimiter { expected, remaining: slice_to_vec(remaining) }
}

} // verus!
