//! The public entry point: a parsed filter expression.

use vstd::prelude::*;
use vstd::pervasive::unreached;
use crate::lexer::lex;
use crate::lexer::spec_lex;
use crate::parser::AstNode;
use crate::parser::AstView;
use crate::parser::ParseError;
use crate::parser::spec_munch;
use crate::token::token_views;

verus! {

/// What an expression wraps: either no nodes at all (an empty or
/// all-whitespace source), or a single root node. The empty variant is
/// distinct from every tree and must be handled explicitly by consumers; its
/// truth value is the evaluator's decision, not fixed here.
#[derive(Debug, PartialEq, Eq)]
pub enum ExprData {
    Empty,
    HasNodes(AstNode),
}

/// The mathematical value of an expression.
#[verifier::ext_equal]
pub enum ExprView {
    Empty,
    HasNodes(AstView),
}

impl View for ExprData {
    type V = ExprView;

    open spec fn view(&self) -> ExprView {
        match self {
            ExprData::Empty => ExprView::Empty,
            ExprData::HasNodes(node) => ExprView::HasNodes(node@),
        }
    }
}

/// A parsed, immutable filter expression: a thin wrapper that hides the
/// token and tree representations behind the single entry point
/// [`Expr::from_string`].
#[derive(Debug, PartialEq, Eq)]
pub struct Expr(ExprData);

impl View for Expr {
    type V = ExprView;

    closed spec fn view(&self) -> ExprView {
        self.0@
    }
}

/// The whole pipeline on a source text: lex, then parse, demanding that the
/// parser drain the token sequence completely. An empty token sequence is the
/// empty expression, not an error.
pub open spec fn spec_parse(s: Seq<char>) -> Result<ExprView, ParseError> {
    let toks = spec_lex(s);
    if toks.len() == 0 {
        Ok(ExprView::Empty)
    } else {
        match spec_munch(toks) {
            Ok(p) => if p.1.len() == 0 {
                Ok(ExprView::HasNodes(p.0))
            } else {
                Err(ParseError::TrailingTokens)
            },
            Err(e) => Err(e),
        }
    }
}

impl Expr {
    /// Parse a source text into an expression, or fail with a descriptive
    /// syntax error. The result is exactly [`spec_parse`] of the input.
    pub fn from_string(s: &str) -> (r: Result<Self, ParseError>)
        ensures
            match r {
                Ok(e) => spec_parse(s@) == Ok::<_, ParseError>(e@),
                Err(pe) => spec_parse(s@) == Err::<ExprView, _>(pe),
            },
    {
        let tokens = match lex(s) {
            Ok(t) => t,
            Err(_) => unreached(),
        };
        if tokens.len() == 0 {
            return Ok(Expr(ExprData::Empty));
        }
        proof {
            assert(token_views(tokens@).skip(0) =~= token_views(tokens@));
        }
        let (ast, upto) = match AstNode::munch_tokens(&tokens, 0) {
            Ok(p) => p,
            Err(e) => {
                return Err(e);
            },
        };
        if upto != tokens.len() {
            return Err(ParseError::TrailingTokens);
        }
        Ok(Expr(ExprData::HasNodes(ast)))
    }

    /// Surrender the parsed form, for a consumer (such as an evaluator) that
    /// walks the variant set.
    pub fn into_data(self) -> (d: ExprData)
        ensures
            d@ == self@,
    {
        self.0
    }
}

} // verus!
