//! The parser: turns the token sequence into an abstract syntax tree.
//!
//! The grammar is recursive descent over the front of the remaining token
//! sequence. A leading name or inverted name that is followed by a connective
//! is grouped implicitly: `!name OP rest` parses as `(!name) OP rest`, and
//! `name OP rest` as `(name) OP rest`, so every binary construction is
//! `(left operand) OP (parse of the entire remainder)` — the grammar is flat,
//! with no precedence distinction between `&` and `|`.
//!
//! The spec parser [`spec_munch`] is stated with an explicit recursion bound
//! (`fuel`), because the grammar's remainder recursion is not structural;
//! [`lemma_munch_at`] shows that any bound larger than the sequence length
//! gives the same, defined, result. The executable [`AstNode::munch_tokens`]
//! is proved to return exactly [`spec_munch`] of the tokens it was given.

use vstd::prelude::*;
use crate::ops::BinaryOp;
use crate::token::Token;
use crate::token::TokenView;
use crate::token::token_views;

verus! {

/// One node of the abstract syntax tree. Each node owns its children
/// exclusively: the tree has no sharing and no cycles.
#[derive(Debug, PartialEq, Eq)]
pub enum AstNode {
    /// Logical negation of the child.
    Invert(Box<AstNode>),
    /// Two children joined by a connective.
    Binary(BinaryOp, Box<AstNode>, Box<AstNode>),
    /// A leaf referencing a tag by name.
    Name(String),
}

/// The mathematical value of a tree: as [`AstNode`], with name text
/// abstracted to its character sequence.
#[verifier::ext_equal]
pub enum AstView {
    Invert(Box<AstView>),
    Binary(BinaryOp, Box<AstView>, Box<AstView>),
    Name(Seq<char>),
}

/// The value of a tree.
pub open spec fn ast_view(n: AstNode) -> AstView
    decreases n,
{
    match n {
        AstNode::Invert(child) => AstView::Invert(Box::new(ast_view(*child))),
        AstNode::Binary(op, left, right) => AstView::Binary(
            op,
            Box::new(ast_view(*left)),
            Box::new(ast_view(*right)),
        ),
        AstNode::Name(text) => AstView::Name(text@),
    }
}

impl View for AstNode {
    type V = AstView;

    open spec fn view(&self) -> AstView {
        ast_view(*self)
    }
}

/// A syntax error: static, descriptive, with no partial-success mode.
#[derive(Debug, Copy, Clone, PartialEq, Eq, Structural)]
pub enum ParseError {
    /// The input ended while an operand was still awaited.
    UnexpectedEnd,
    /// A closing bracket with no sub-expression before it.
    UnexpectedCloseBracket,
    /// The input ended directly after a negation marker.
    EndAfterInvert,
    /// Two negation markers in a row: rejected, not simplified.
    DoubleInvert,
    /// An inverted name followed by something other than a connective, a
    /// closing bracket or the end of the input.
    InvalidAfterInvertedName,
    /// A negation marker followed by a token that cannot start an operand.
    ExpectedExpression,
    /// An opened group that is never closed.
    MissingCloseBracket,
    /// A closed group followed by something other than a connective, a
    /// closing bracket or the end of the input.
    InvalidAfterGroup,
    /// A connective where an operand was expected.
    UnexpectedBinaryOp,
    /// A name followed by something other than a connective, a closing
    /// bracket or the end of the input.
    InvalidAfterName,
    /// Tokens left over after a complete expression was parsed.
    TrailingTokens,
}

impl ParseError {
    /// A human-readable description of the grammar violation.
    pub fn message(&self) -> (m: &'static str)
        ensures
            m@ == match self {
                ParseError::UnexpectedEnd => "unexpected end of expression"@,
                ParseError::UnexpectedCloseBracket => "unexpected closing bracket"@,
                ParseError::EndAfterInvert => "expected token to invert, got end of expression"@,
                ParseError::DoubleInvert => "can't double invert, that would be pointless"@,
                ParseError::InvalidAfterInvertedName => "invalid token after inverted name"@,
                ParseError::ExpectedExpression => "expected expression"@,
                ParseError::MissingCloseBracket => "expected closing bracket"@,
                ParseError::InvalidAfterGroup => "invalid token after closing bracket"@,
                ParseError::UnexpectedBinaryOp => "unexpected binary operator"@,
                ParseError::InvalidAfterName => "name followed by invalid token"@,
                ParseError::TrailingTokens => "expected end of input, found extra tokens"@,
            },
    {
        match self {
            ParseError::UnexpectedEnd => "unexpected end of expression",
            ParseError::UnexpectedCloseBracket => "unexpected closing bracket",
            ParseError::EndAfterInvert => "expected token to invert, got end of expression",
            ParseError::DoubleInvert => "can't double invert, that would be pointless",
            ParseError::InvalidAfterInvertedName => "invalid token after inverted name",
            ParseError::ExpectedExpression => "expected expression",
            ParseError::MissingCloseBracket => "expected closing bracket",
            ParseError::InvalidAfterGroup => "invalid token after closing bracket",
            ParseError::UnexpectedBinaryOp => "unexpected binary operator",
            ParseError::InvalidAfterName => "name followed by invalid token",
            ParseError::TrailingTokens => "expected end of input, found extra tokens",
        }
    }
}

/// The spec parser, with an explicit recursion bound. `None` means the bound
/// ran out; [`lemma_munch_at`] shows that never happens for a bound larger
/// than the sequence length. On success the result pairs the tree with the
/// tokens not yet consumed (always a strict suffix).
pub open spec fn munch_rec(ts: Seq<TokenView>, fuel: nat) -> Option<
    Result<(AstView, Seq<TokenView>), ParseError>,
>
    decreases fuel,
{
    if fuel == 0 {
        None
    } else if ts.len() == 0 {
        Some(Err(ParseError::UnexpectedEnd))
    } else {
        match ts[0] {
            TokenView::CloseBracket => Some(Err(ParseError::UnexpectedCloseBracket)),
            TokenView::BinaryOp(_) => Some(Err(ParseError::UnexpectedBinaryOp)),
            TokenView::Invert => {
                let rest = ts.skip(1);
                if rest.len() == 0 {
                    Some(Err(ParseError::EndAfterInvert))
                } else {
                    match rest[0] {
                        TokenView::OpenBracket => match munch_rec(rest, (fuel - 1) as nat) {
                            None => None,
                            Some(Err(e)) => Some(Err(e)),
                            Some(Ok(p)) => Some(
                                Ok((AstView::Invert(Box::new(p.0)), p.1)),
                            ),
                        },
                        TokenView::Name(text) => {
                            if rest.len() == 1 {
                                Some(
                                    Ok(
                                        (
                                            AstView::Invert(Box::new(AstView::Name(text))),
                                            rest.skip(1),
                                        ),
                                    ),
                                )
                            } else {
                                match rest[1] {
                                    TokenView::BinaryOp(op) => match munch_rec(
                                        rest.skip(2),
                                        (fuel - 1) as nat,
                                    ) {
                                        None => None,
                                        Some(Err(e)) => Some(Err(e)),
                                        Some(Ok(p)) => Some(
                                            Ok(
                                                (
                                                    AstView::Binary(
                                                        op,
                                                        Box::new(
                                                            AstView::Invert(
                                                                Box::new(AstView::Name(text)),
                                                            ),
                                                        ),
                                                        Box::new(p.0),
                                                    ),
                                                    p.1,
                                                ),
                                            ),
                                        ),
                                    },
                                    TokenView::CloseBracket => Some(
                                        Ok(
                                            (
                                                AstView::Invert(Box::new(AstView::Name(text))),
                                                rest.skip(1),
                                            ),
                                        ),
                                    ),
                                    _ => Some(Err(ParseError::InvalidAfterInvertedName)),
                                }
                            }
                        },
                        TokenView::Invert => Some(Err(ParseError::DoubleInvert)),
                        _ => Some(Err(ParseError::ExpectedExpression)),
                    }
                }
            },
            TokenView::OpenBracket => match munch_rec(ts.skip(1), (fuel - 1) as nat) {
                None => None,
                Some(Err(e)) => Some(Err(e)),
                Some(Ok(p)) => {
                    let inner = p.0;
                    let rem = p.1;
                    if rem.len() == 0 || !(rem[0] is CloseBracket) {
                        Some(Err(ParseError::MissingCloseBracket))
                    } else {
                        let rem2 = rem.skip(1);
                        if rem2.len() == 0 {
                            Some(Ok((inner, rem2)))
                        } else {
                            match rem2[0] {
                                TokenView::BinaryOp(op) => match munch_rec(
                                    rem2.skip(1),
                                    (fuel - 1) as nat,
                                ) {
                                    None => None,
                                    Some(Err(e)) => Some(Err(e)),
                                    Some(Ok(q)) => Some(
                                        Ok(
                                            (
                                                AstView::Binary(
                                                    op,
                                                    Box::new(inner),
                                                    Box::new(q.0),
                                                ),
                                                q.1,
                                            ),
                                        ),
                                    ),
                                },
                                TokenView::CloseBracket => Some(Ok((inner, rem2))),
                                _ => Some(Err(ParseError::InvalidAfterGroup)),
                            }
                        }
                    }
                },
            },
            TokenView::Name(text) => {
                if ts.len() == 1 {
                    Some(Ok((AstView::Name(text), ts.skip(1))))
                } else {
                    match ts[1] {
                        TokenView::BinaryOp(op) => match munch_rec(ts.skip(2), (fuel - 1) as nat) {
                            None => None,
                            Some(Err(e)) => Some(Err(e)),
                            Some(Ok(p)) => Some(
                                Ok(
                                    (
                                        AstView::Binary(
                                            op,
                                            Box::new(AstView::Name(text)),
                                            Box::new(p.0),
                                        ),
                                        p.1,
                                    ),
                                ),
                            ),
                        },
                        TokenView::CloseBracket => Some(Ok((AstView::Name(text), ts.skip(1)))),
                        _ => Some(Err(ParseError::InvalidAfterName)),
                    }
                }
            },
        }
    }
}

/// With any bound larger than the sequence length the spec parser is defined,
/// and on success it consumes at least one token.
pub proof fn lemma_munch_defined(ts: Seq<TokenView>, fuel: nat)
    requires
        fuel > ts.len(),
    ensures
        munch_rec(ts, fuel) is Some,
        munch_rec(ts, fuel) matches Some(Ok(p)) ==> p.1.len() < ts.len(),
    decreases ts.len(),
{
    if ts.len() == 0 {
    } else {
        match ts[0] {
            TokenView::Invert => {
                let rest = ts.skip(1);
                if rest.len() > 0 {
                    match rest[0] {
                        TokenView::OpenBracket => {
                            lemma_munch_defined(rest, (fuel - 1) as nat);
                        },
                        TokenView::Name(_) => {
                            if rest.len() > 1 && rest[1] is BinaryOp {
                                lemma_munch_defined(rest.skip(2), (fuel - 1) as nat);
                            }
                        },
                        _ => {},
                    }
                }
            },
            TokenView::OpenBracket => {
                lemma_munch_defined(ts.skip(1), (fuel - 1) as nat);
                match munch_rec(ts.skip(1), (fuel - 1) as nat) {
                    Some(Ok(p)) => {
                        let rem = p.1;
                        if rem.len() > 0 && rem[0] is CloseBracket {
                            let rem2 = rem.skip(1);
                            if rem2.len() > 0 && rem2[0] is BinaryOp {
                                lemma_munch_defined(rem2.skip(1), (fuel - 1) as nat);
                            }
                        }
                    },
                    _ => {},
                }
            },
            TokenView::Name(_) => {
                if ts.len() > 1 && ts[1] is BinaryOp {
                    lemma_munch_defined(ts.skip(2), (fuel - 1) as nat);
                }
            },
            _ => {},
        }
    }
}

/// The spec parser does not depend on the bound, as long as the bound is
/// larger than the sequence length.
pub proof fn lemma_munch_fuel(ts: Seq<TokenView>, f1: nat, f2: nat)
    requires
        f1 > ts.len(),
        f2 > ts.len(),
    ensures
        munch_rec(ts, f1) == munch_rec(ts, f2),
    decreases ts.len(),
{
    if ts.len() == 0 {
    } else {
        match ts[0] {
            TokenView::Invert => {
                let rest = ts.skip(1);
                if rest.len() > 0 {
                    match rest[0] {
                        TokenView::OpenBracket => {
                            lemma_munch_fuel(rest, (f1 - 1) as nat, (f2 - 1) as nat);
                        },
                        TokenView::Name(_) => {
                            if rest.len() > 1 && rest[1] is BinaryOp {
                                lemma_munch_fuel(rest.skip(2), (f1 - 1) as nat, (f2 - 1) as nat);
                            }
                        },
                        _ => {},
                    }
                }
            },
            TokenView::OpenBracket => {
                lemma_munch_defined(ts.skip(1), (f1 - 1) as nat);
                lemma_munch_fuel(ts.skip(1), (f1 - 1) as nat, (f2 - 1) as nat);
                match munch_rec(ts.skip(1), (f1 - 1) as nat) {
                    Some(Ok(p)) => {
                        let rem = p.1;
                        if rem.len() > 0 && rem[0] is CloseBracket {
                            let rem2 = rem.skip(1);
                            if rem2.len() > 0 && rem2[0] is BinaryOp {
                                lemma_munch_fuel(rem2.skip(1), (f1 - 1) as nat, (f2 - 1) as nat);
                            }
                        }
                    },
                    _ => {},
                }
            },
            TokenView::Name(_) => {
                if ts.len() > 1 && ts[1] is BinaryOp {
                    lemma_munch_fuel(ts.skip(2), (f1 - 1) as nat, (f2 - 1) as nat);
                }
            },
            _ => {},
        }
    }
}

/// What the parser returns on a token sequence: the tree and the unconsumed
/// strict suffix, or the first grammar violation.
pub open spec fn spec_munch(ts: Seq<TokenView>) -> Result<(AstView, Seq<TokenView>), ParseError> {
    match munch_rec(ts, (ts.len() + 1) as nat) {
        Some(r) => r,
        None => Err(ParseError::UnexpectedEnd),
    }
}

/// The spec parser at any large enough bound equals [`spec_munch`].
pub proof fn lemma_munch_at(ts: Seq<TokenView>, fuel: nat)
    requires
        fuel > ts.len(),
    ensures
        munch_rec(ts, fuel) == Some(spec_munch(ts)),
{
    lemma_munch_defined(ts, (ts.len() + 1) as nat);
    lemma_munch_fuel(ts, fuel, (ts.len() + 1) as nat);
}

/// One unfolding of the grammar, free of the recursion bound: what
/// [`spec_munch`] does on a sequence, phrased over [`spec_munch`] of the
/// strictly shorter sub-sequences. [`lemma_munch_unfold`] proves the two
/// agree everywhere.
pub open spec fn munch_head(ts: Seq<TokenView>) -> Result<(AstView, Seq<TokenView>), ParseError> {
    if ts.len() == 0 {
        Err(ParseError::UnexpectedEnd)
    } else {
        match ts[0] {
            TokenView::CloseBracket => Err(ParseError::UnexpectedCloseBracket),
            TokenView::BinaryOp(_) => Err(ParseError::UnexpectedBinaryOp),
            TokenView::Invert => {
                let rest = ts.skip(1);
                if rest.len() == 0 {
                    Err(ParseError::EndAfterInvert)
                } else {
                    match rest[0] {
                        TokenView::OpenBracket => match spec_munch(rest) {
                            Err(e) => Err(e),
                            Ok(p) => Ok((AstView::Invert(Box::new(p.0)), p.1)),
                        },
                        TokenView::Name(text) => {
                            if rest.len() == 1 {
                                Ok((AstView::Invert(Box::new(AstView::Name(text))), rest.skip(1)))
                            } else {
                                match rest[1] {
                                    TokenView::BinaryOp(op) => match spec_munch(rest.skip(2)) {
                                        Err(e) => Err(e),
                                        Ok(p) => Ok(
                                            (
                                                AstView::Binary(
                                                    op,
                                                    Box::new(
                                                        AstView::Invert(
                                                            Box::new(AstView::Name(text)),
                                                        ),
                                                    ),
                                                    Box::new(p.0),
                                                ),
                                                p.1,
                                            ),
                                        ),
                                    },
                                    TokenView::CloseBracket => Ok(
                                        (
                                            AstView::Invert(Box::new(AstView::Name(text))),
                                            rest.skip(1),
                                        ),
                                    ),
                                    _ => Err(ParseError::InvalidAfterInvertedName),
                                }
                            }
                        },
                        TokenView::Invert => Err(ParseError::DoubleInvert),
                        _ => Err(ParseError::ExpectedExpression),
                    }
                }
            },
            TokenView::OpenBracket => match spec_munch(ts.skip(1)) {
                Err(e) => Err(e),
                Ok(p) => {
                    let inner = p.0;
                    let rem = p.1;
                    if rem.len() == 0 || !(rem[0] is CloseBracket) {
                        Err(ParseError::MissingCloseBracket)
                    } else {
                        let rem2 = rem.skip(1);
                        if rem2.len() == 0 {
                            Ok((inner, rem2))
                        } else {
                            match rem2[0] {
                                TokenView::BinaryOp(op) => match spec_munch(rem2.skip(1)) {
                                    Err(e) => Err(e),
                                    Ok(q) => Ok(
                                        (
                                            AstView::Binary(op, Box::new(inner), Box::new(q.0)),
                                            q.1,
                                        ),
                                    ),
                                },
                                TokenView::CloseBracket => Ok((inner, rem2)),
                                _ => Err(ParseError::InvalidAfterGroup),
                            }
                        }
                    }
                },
            },
            TokenView::Name(text) => {
                if ts.len() == 1 {
                    Ok((AstView::Name(text), ts.skip(1)))
                } else {
                    match ts[1] {
                        TokenView::BinaryOp(op) => match spec_munch(ts.skip(2)) {
                            Err(e) => Err(e),
                            Ok(p) => Ok(
                                (
                                    AstView::Binary(op, Box::new(AstView::Name(text)), Box::new(p.0)),
                                    p.1,
                                ),
                            ),
                        },
                        TokenView::CloseBracket => Ok((AstView::Name(text), ts.skip(1))),
                        _ => Err(ParseError::InvalidAfterName),
                    }
                }
            },
        }
    }
}

/// The spec parser satisfies its grammar equation: [`spec_munch`] equals
/// [`munch_head`] on every token sequence.
pub proof fn lemma_munch_unfold(ts: Seq<TokenView>)
    ensures
        spec_munch(ts) == munch_head(ts),
{
    let fuel = (ts.len() + 1) as nat;
    if ts.len() > 0 {
        match ts[0] {
            TokenView::Invert => {
                let rest = ts.skip(1);
                if rest.len() > 0 {
                    match rest[0] {
                        TokenView::OpenBracket => {
                            lemma_munch_at(rest, (fuel - 1) as nat);
                        },
                        TokenView::Name(_) => {
                            if rest.len() > 1 && rest[1] is BinaryOp {
                                lemma_munch_at(rest.skip(2), (fuel - 1) as nat);
                            }
                        },
                        _ => {},
                    }
                }
            },
            TokenView::OpenBracket => {
                lemma_munch_at(ts.skip(1), (fuel - 1) as nat);
                lemma_munch_consumes(ts.skip(1));
                match spec_munch(ts.skip(1)) {
                    Ok(p) => {
                        let rem = p.1;
                        if rem.len() > 0 && rem[0] is CloseBracket {
                            let rem2 = rem.skip(1);
                            if rem2.len() > 0 && rem2[0] is BinaryOp {
                                lemma_munch_at(rem2.skip(1), (fuel - 1) as nat);
                            }
                        }
                    },
                    _ => {},
                }
            },
            TokenView::Name(_) => {
                if ts.len() > 1 && ts[1] is BinaryOp {
                    lemma_munch_at(ts.skip(2), (fuel - 1) as nat);
                }
            },
            _ => {},
        }
    }
}

/// On success the parser consumes at least one token.
pub proof fn lemma_munch_consumes(ts: Seq<TokenView>)
    ensures
        spec_munch(ts) matches Ok(p) ==> p.1.len() < ts.len(),
{
    lemma_munch_defined(ts, (ts.len() + 1) as nat);
}

/// The parser stops only at a closing bracket or at the end of the input, so
/// a closing bracket appended behind a successful parse is simply left over,
/// and changes neither the tree nor what else was unconsumed.
pub proof fn lemma_munch_append_close(ts: Seq<TokenView>)
    ensures
        spec_munch(ts) matches Ok(p) ==> spec_munch(ts.push(TokenView::CloseBracket)) == Ok::<
            _,
            ParseError,
        >((p.0, p.1.push(TokenView::CloseBracket))),
    decreases ts.len(),
{
    let close = TokenView::CloseBracket;
    let ts2 = ts.push(close);
    lemma_munch_unfold(ts);
    lemma_munch_unfold(ts2);
    if spec_munch(ts) is Ok {
        assert(ts.len() > 0);
        assert(ts2[0] == ts[0]);
        match ts[0] {
            TokenView::Invert => {
                let rest = ts.skip(1);
                let rest2 = ts2.skip(1);
                assert(rest2 =~= rest.push(close));
                assert(rest.len() > 0);
                assert(rest2[0] == rest[0]);
                match rest[0] {
                    TokenView::OpenBracket => {
                        lemma_munch_append_close(rest);
                    },
                    TokenView::Name(_) => {
                        if rest.len() == 1 {
                            assert(rest2[1] == close);
                            assert(rest2.skip(1) =~= rest.skip(1).push(close));
                        } else {
                            match rest[1] {
                                TokenView::BinaryOp(_) => {
                                    assert(rest2[1] == rest[1]);
                                    assert(rest2.skip(2) =~= rest.skip(2).push(close));
                                    lemma_munch_append_close(rest.skip(2));
                                },
                                TokenView::CloseBracket => {
                                    assert(rest2[1] == rest[1]);
                                    assert(rest2.skip(1) =~= rest.skip(1).push(close));
                                },
                                _ => {},
                            }
                        }
                    },
                    _ => {},
                }
            },
            TokenView::OpenBracket => {
                let rest = ts.skip(1);
                let rest2 = ts2.skip(1);
                assert(rest2 =~= rest.push(close));
                lemma_munch_append_close(rest);
                lemma_munch_consumes(rest);
                match spec_munch(rest) {
                    Ok(p) => {
                        let rem = p.1;
                        let rem2 = rem.skip(1);
                        let remx = rem.push(close);
                        if rem.len() > 0 && rem[0] is CloseBracket {
                            assert(remx[0] == rem[0]);
                            assert(remx.skip(1) =~= rem2.push(close));
                            if rem2.len() == 0 {
                                assert(rem2.push(close)[0] == close);
                            } else {
                                match rem2[0] {
                                    TokenView::BinaryOp(_) => {
                                        assert(rem2.push(close)[0] == rem2[0]);
                                        assert(rem2.push(close).skip(1) =~= rem2.skip(1).push(
                                            close,
                                        ));
                                        lemma_munch_append_close(rem2.skip(1));
                                    },
                                    TokenView::CloseBracket => {
                                        assert(rem2.push(close)[0] == rem2[0]);
                                    },
                                    _ => {},
                                }
                            }
                        }
                    },
                    _ => {},
                }
            },
            TokenView::Name(_) => {
                if ts.len() == 1 {
                    assert(ts2[1] == close);
                    assert(ts2.skip(1) =~= ts.skip(1).push(close));
                } else {
                    match ts[1] {
                        TokenView::BinaryOp(_) => {
                            assert(ts2[1] == ts[1]);
                            assert(ts2.skip(2) =~= ts.skip(2).push(close));
                            lemma_munch_append_close(ts.skip(2));
                        },
                        TokenView::CloseBracket => {
                            assert(ts2[1] == ts[1]);
                            assert(ts2.skip(1) =~= ts.skip(1).push(close));
                        },
                        _ => {},
                    }
                }
            },
            _ => {},
        }
    }
}

impl AstNode {
    /// Parse one expression from `tokens`, starting at position `from`.
    ///
    /// On success, returns the tree and the position of the first unconsumed
    /// token; at least one token is consumed. The result is exactly
    /// [`spec_munch`] of the token values from `from` on.
    #[verifier::rlimit(100)]
    pub fn munch_tokens(tokens: &Vec<Token>, from: usize) -> (r: Result<
        (AstNode, usize),
        ParseError,
    >)
        requires
            from <= tokens@.len(),
        ensures
            match r {
                Ok(p) => from < p.1 <= tokens@.len() && spec_munch(
                    token_views(tokens@).skip(from as int),
                ) == Ok::<_, ParseError>((p.0@, token_views(tokens@).skip(p.1 as int))),
                Err(e) => spec_munch(token_views(tokens@).skip(from as int)) == Err::<
                    (AstView, Seq<TokenView>),
                    _,
                >(e),
            },
        decreases tokens@.len() - from,
    {
        proof {
            reveal_with_fuel(ast_view, 4);
        }
        let ghost tv = token_views(tokens@);
        let ghost ts = tv.skip(from as int);
        let ghost fuel = (ts.len() + 1) as nat;
        let n = tokens.len();
        if from == n {
            return Err(ParseError::UnexpectedEnd);
        }
        proof {
            assert(ts[0] == tokens@[from as int]@);
        }
        match &tokens[from] {
            Token::CloseBracket => Err(ParseError::UnexpectedCloseBracket),
            Token::BinaryOp(_) => Err(ParseError::UnexpectedBinaryOp),
            Token::Invert => {
                proof {
                    assert(ts.skip(1) =~= tv.skip(from + 1 as int));
                }
                if from + 1 == n {
                    return Err(ParseError::EndAfterInvert);
                }
                proof {
                    assert(ts.skip(1)[0] == tokens@[from + 1 as int]@);
                }
                match &tokens[from + 1] {
                    Token::OpenBracket => {
                        proof {
                            lemma_munch_at(ts.skip(1), (fuel - 1) as nat);
                        }
                        match Self::munch_tokens(tokens, from + 1) {
                            Ok((inner, upto)) => Ok((AstNode::Invert(Box::new(inner)), upto)),
                            Err(e) => Err(e),
                        }
                    },
                    Token::Name { text } => {
                        if from + 2 == n {
                            proof {
                                assert(ts.skip(1).skip(1) =~= tv.skip(from + 2 as int));
                            }
                            return Ok(
                                (AstNode::Invert(Box::new(AstNode::Name(text.clone()))), from + 2),
                            );
                        }
                        proof {
                            assert(ts.skip(1)[1] == tokens@[from + 2 as int]@);
                        }
                        match &tokens[from + 2] {
                            Token::BinaryOp(op) => {
                                proof {
                                    assert(ts.skip(1).skip(2) =~= tv.skip(from + 3 as int));
                                    lemma_munch_at(ts.skip(1).skip(2), (fuel - 1) as nat);
                                }
                                match Self::munch_tokens(tokens, from + 3) {
                                    Ok((right, upto)) => Ok(
                                        (
                                            AstNode::Binary(
                                                *op,
                                                Box::new(
                                                    AstNode::Invert(
                                                        Box::new(AstNode::Name(text.clone())),
                                                    ),
                                                ),
                                                Box::new(right),
                                            ),
                                            upto,
                                        ),
                                    ),
                                    Err(e) => Err(e),
                                }
                            },
                            Token::CloseBracket => {
                                proof {
                                    assert(ts.skip(1).skip(1) =~= tv.skip(from + 2 as int));
                                }
                                Ok((AstNode::Invert(Box::new(AstNode::Name(text.clone()))), from + 2))
                            },
                            _ => Err(ParseError::InvalidAfterInvertedName),
                        }
                    },
                    Token::Invert => Err(ParseError::DoubleInvert),
                    _ => Err(ParseError::ExpectedExpression),
                }
            },
            Token::OpenBracket => {
                proof {
                    assert(ts.skip(1) =~= tv.skip(from + 1 as int));
                    lemma_munch_at(ts.skip(1), (fuel - 1) as nat);
                }
                let (inner, mid) = match Self::munch_tokens(tokens, from + 1) {
                    Ok(p) => p,
                    Err(e) => {
                        return Err(e);
                    },
                };
                if mid == n {
                    return Err(ParseError::MissingCloseBracket);
                }
                proof {
                    assert(tv.skip(mid as int)[0] == tokens@[mid as int]@);
                }
                match &tokens[mid] {
                    Token::CloseBracket => {},
                    _ => {
                        return Err(ParseError::MissingCloseBracket);
                    },
                }
                proof {
                    assert(tv.skip(mid as int).skip(1) =~= tv.skip(mid + 1 as int));
                }
                if mid + 1 == n {
                    return Ok((inner, mid + 1));
                }
                proof {
                    assert(tv.skip(mid + 1 as int)[0] == tokens@[mid + 1 as int]@);
                }
                match &tokens[mid + 1] {
                    Token::BinaryOp(op) => {
                        proof {
                            assert(tv.skip(mid + 1 as int).skip(1) =~= tv.skip(mid + 2 as int));
                            lemma_munch_at(tv.skip(mid + 1 as int).skip(1), (fuel - 1) as nat);
                        }
                        match Self::munch_tokens(tokens, mid + 2) {
                            Ok((right, upto)) => Ok(
                                (
                                    AstNode::Binary(*op, Box::new(inner), Box::new(right)),
                                    upto,
                                ),
                            ),
                            Err(e) => Err(e),
                        }
                    },
                    Token::CloseBracket => Ok((inner, mid + 1)),
                    _ => Err(ParseError::InvalidAfterGroup),
                }
            },
            Token::Name { text } => {
                if from + 1 == n {
                    proof {
                        assert(ts.skip(1) =~= tv.skip(from + 1 as int));
                    }
                    return Ok((AstNode::Name(text.clone()), from + 1));
                }
                proof {
                    assert(ts[1] == tokens@[from + 1 as int]@);
                }
                match &tokens[from + 1] {
                    Token::BinaryOp(op) => {
                        proof {
                            assert(ts.skip(2) =~= tv.skip(from + 2 as int));
                            lemma_munch_at(ts.skip(2), (fuel - 1) as nat);
                        }
                        match Self::munch_tokens(tokens, from + 2) {
                            Ok((right, upto)) => Ok(
                                (
                                    AstNode::Binary(
                                        *op,
                                        Box::new(AstNode::Name(text.clone())),
                                        Box::new(right),
                                    ),
                                    upto,
                                ),
                            ),
                            Err(e) => Err(e),
                        }
                    },
                    Token::CloseBracket => {
                        proof {
                            assert(ts.skip(1) =~= tv.skip(from + 1 as int));
                        }
                        Ok((AstNode::Name(text.clone()), from + 1))
                    },
                    _ => Err(ParseError::InvalidAfterName),
                }
            },
        }
    }
}

} // verus!
