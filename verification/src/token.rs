//! Tokens: the pieces that the scanner cuts the source text into.

use vstd::prelude::*;
use crate::position::{Position, Span};

verus! {

/// What kind of lexeme a token holds.
#[derive(Debug, Clone, Copy, PartialEq, Eq, Structural)]
pub enum TokenType {
    /// A run of letters, digits, `_` and `-`: a tag or attribute name.
    Text,
    /// A quoted string, with its delimiters.
    String,
    /// `=`
    Equal,
    /// `{`
    LeftBrace,
    /// `}`
    RightBrace,
    /// A balanced `<...>` block, kept verbatim.
    Html,
    /// `;`
    Semicolon,
    /// An opaque `js{...}` block.
    Js,
    /// An opaque `css{...}` block.
    Css,
}

/// One token: its kind, the exact source text it covers, and where that text lies.
#[derive(Debug, PartialEq, Eq)]
pub struct Token {
    pub ty: TokenType,
    pub lexeme: String,
    pub pos: Position,
}

/// The mathematical content of a [`Token`].
pub struct TokenView {
    pub ty: TokenType,
    pub lexeme: Seq<char>,
    pub pos: Span,
}

impl View for Token {
    type V = TokenView;

    open spec fn view(&self) -> TokenView {
        TokenView { ty: self.ty, lexeme: self.lexeme@, pos: self.pos@ }
    }
}

} // verus!
