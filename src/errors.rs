//! What goes wrong while reading malformed input.

use crate::chars::CharErrorEnum;
use crate::pos::{Position, Span};
use vstd::prelude::*;

verus! {

/// An error in the input, reported with the place where it was found.
#[derive(Debug, Clone, PartialEq, Eq)]
pub enum ParserError {
    IllegalChar(Position, char),
    /// An unexpected character, with the characters that could have stood there.
    IllegalChar2(Position, char, Vec<char>),
    IllegalCharMsg(Position, char, String),
    /// A construct that was opened and never closed, with the closer it lacks.
    MissingTerminator(Position, char),
    MissingLocalName(Position),
    IllegalEscapeSequence(Position, String),
    IllegalNumber(Span, String),
    /// A token stood where an attribute value was expected.
    NotAttributeValue(Span, String),
    /// An end tag with no open tag to close, or one that closes another name.
    MismatchedEnd(Span, String),
    /// A token that cannot start a tag, such as an attribute outside of one.
    UnexpectedToken(Span, String),
    /// The bytes are not well-formed UTF-8.
    CharError(CharErrorEnum),
    EndOfInput,
    /// No token has been read yet.
    NotReadyYet,
}

} // verus!
