//! The error taxonomy of the front end.
//!
//! Lexical and syntax errors carry the offending location; the first error
//! encountered terminates the current tokenize or parse call. `UnknownFile`
//! and `OffsetOutOfRange` mark misuse of the source map by a caller, not a
//! defect in the source text.

use vstd::prelude::*;
use crate::loc::Loc;
use crate::token::TokenKind;

verus! {

/// The way a literal is malformed.
#[derive(Clone, Copy, Debug, PartialEq, Eq, Structural)]
pub enum LitDefect {
    /// A string literal with no closing quote before the end of the input.
    UnterminatedString,
    /// A string literal with an escape sequence that the language does not define.
    InvalidEscape,
    /// A numeric literal followed immediately by identifier characters.
    MalformedNumber,
    /// A numeric literal whose value does not fit in 64 bits.
    NumberTooLarge,
}

/// What the parser was prepared to accept when it found something else.
#[derive(Clone, Copy, Debug, PartialEq, Eq, Structural)]
pub enum Expected {
    /// Exactly one token class.
    Tok(TokenKind),
    /// The start of a top-level item (the keyword `fn`).
    ItemStart,
    /// A parameter name or the closing parenthesis of a parameter list.
    ParamOrCloseParen,
    /// The start of an expression.
    ExprStart,
}

/// A typed failure of the front end, carrying the offending location.
#[derive(Clone, Copy, Debug, PartialEq, Eq, Structural)]
pub enum Error {
    /// A byte sequence that starts no token.
    UnexpectedCharacter {
        /// The location of the offending byte.
        loc: Loc,
    },
    /// A literal that is lexically ill formed.
    MalformedLiteral {
        /// The location of the offending literal, from its first byte.
        loc: Loc,
        /// The way the literal is malformed.
        defect: LitDefect,
    },
    /// A token that cannot extend or close the production being parsed.
    SyntaxError {
        /// What the parser was prepared to accept.
        expected: Expected,
        /// The class of the token actually found.
        found: TokenKind,
        /// The location of the token actually found.
        loc: Loc,
    },
    /// Input exhausted where more tokens are grammatically required.
    UnexpectedEndOfInput {
        /// The location of the end-of-input token.
        loc: Loc,
    },
    /// A file identity that was never registered with the source map.
    UnknownFile {
        /// The offending file identity.
        file: u32,
    },
    /// A byte offset beyond the length of the referenced file.
    OffsetOutOfRange {
        /// The file identity the offset refers to.
        file: u32,
        /// The offending byte offset.
        offset: usize,
    },
}

} // verus!
