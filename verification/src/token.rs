//! Tokens produced by the lexer.

use vstd::prelude::*;
use crate::loc::Loc;

verus! {

/// The class of a token.
#[derive(Clone, Copy, Debug, PartialEq, Eq, Structural)]
pub enum TokenKind {
    /// The keyword `fn`.
    KwFn,
    /// The keyword `let`.
    KwLet,
    /// The keyword `return`.
    KwReturn,
    /// An identifier; the token's text holds its bytes.
    Ident,
    /// An integer literal; the token's value holds its numeric value.
    Int,
    /// A string literal; the token's text holds its decoded bytes.
    Str,
    /// The operator `+`.
    Plus,
    /// The operator `-`.
    Minus,
    /// The operator `*`.
    Star,
    /// The operator `/`.
    Slash,
    /// The sign `=`.
    Assign,
    /// The delimiter `(`.
    LParen,
    /// The delimiter `)`.
    RParen,
    /// The delimiter `{`.
    LBrace,
    /// The delimiter `}`.
    RBrace,
    /// The separator `,`.
    Comma,
    /// The terminator `;`.
    Semi,
    /// The end of the input, produced exactly once as the final token.
    Eof,
}

/// One token: its class, its text or literal value, and its location.
///
/// `text` holds the identifier's bytes for `Ident` and the decoded contents
/// for `Str`; it is empty for every other class. `value` holds the numeric
/// value for `Int` and is zero for every other class.
#[derive(Debug)]
pub struct Token {
    /// The class of the token.
    pub kind: TokenKind,
    /// The text of the token, where the class carries text.
    pub text: Vec<u8>,
    /// The literal value of the token, where the class carries a value.
    pub value: u64,
    /// The location of the token.
    pub loc: Loc,
}

} // verus!
