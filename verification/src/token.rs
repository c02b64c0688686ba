//! Tokens: the flat, ordered output of the lexer and input of the parser.

use vstd::prelude::*;
use crate::ops::BinaryOp;

verus! {

/// One lexical token. Tokens form a flat ordered sequence; there is no
/// nesting at this layer.
#[derive(Debug, Clone, PartialEq, Eq)]
pub enum Token {
    /// `(`: opens a group.
    OpenBracket,
    /// `)`: closes a group.
    CloseBracket,
    /// `!`: unary negation marker.
    Invert,
    /// An opaque tag identifier: the literal run of non-delimiter,
    /// non-whitespace characters, case preserved. Never empty.
    Name { text: String },
    /// A recognized infix connective.
    BinaryOp(BinaryOp),
}

/// The mathematical value of a token: as [`Token`], with the name text
/// abstracted to its character sequence.
#[verifier::ext_equal]
pub enum TokenView {
    OpenBracket,
    CloseBracket,
    Invert,
    Name(Seq<char>),
    BinaryOp(BinaryOp),
}

impl View for Token {
    type V = TokenView;

    open spec fn view(&self) -> TokenView {
        match self {
            Token::OpenBracket => TokenView::OpenBracket,
            Token::CloseBracket => TokenView::CloseBracket,
            Token::Invert => TokenView::Invert,
            Token::Name { text } => TokenView::Name(text@),
            Token::BinaryOp(op) => TokenView::BinaryOp(*op),
        }
    }
}

/// The values of a sequence of tokens.
pub open spec fn token_views(ts: Seq<Token>) -> Seq<TokenView> {
    ts.map_values(|t: Token| t@)
}

/// The lexer's error type. Lexing is total in the current grammar (every
/// character is classified), so no value of this type is ever returned; the
/// channel exists so that callers are ready for future grammar growth.
#[derive(Debug, Copy, Clone, PartialEq, Eq, Structural)]
pub struct LexError;

} // verus!
