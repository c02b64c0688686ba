//! The lexer: turns raw text into an ordered token sequence.
//!
//! The executable lexer walks the input one character at a time, left to
//! right, with a three-state machine: ready for any token, inside a name run,
//! or just past a symbolic connective (absorbing a doubled `&` or `|`). The
//! spec functions [`lex_step`], [`lex_run`] and [`spec_lex`] state the same
//! machine mathematically; [`lex`] is proved to return exactly [`spec_lex`]
//! of its input, for every input.

use vstd::prelude::*;
use crate::ops::BinaryOp;
use crate::ops::symbol_char;
use crate::token::LexError;
use crate::token::Token;
use crate::token::TokenView;
use crate::token::token_views;

verus! {

/// The characters the lexer discards between tokens: the Unicode
/// `White_Space` set.
pub open spec fn whitespace(c: char) -> bool {
    c == ' ' || c == '\t' || c == '\n' || c == '\u{0B}' || c == '\u{0C}' || c == '\r'
        || c == '\u{85}' || c == '\u{A0}' || c == '\u{1680}' || c == '\u{2000}' || c == '\u{2001}'
        || c == '\u{2002}' || c == '\u{2003}' || c == '\u{2004}' || c == '\u{2005}' || c == '\u{2006}'
        || c == '\u{2007}' || c == '\u{2008}' || c == '\u{2009}' || c == '\u{200A}' || c == '\u{2028}'
        || c == '\u{2029}' || c == '\u{202F}' || c == '\u{205F}' || c == '\u{3000}'
}

/// The characters that always stand for a token of their own and terminate a
/// name run: `( ) & | !`.
pub open spec fn delimiter(c: char) -> bool {
    c == '(' || c == ')' || c == '&' || c == '|' || c == '!'
}

/// Does this name run spell the keyword `and`, in any case?
pub open spec fn is_and_word(t: Seq<char>) -> bool {
    t.len() == 3 && (t[0] == 'a' || t[0] == 'A') && (t[1] == 'n' || t[1] == 'N') && (t[2] == 'd'
        || t[2] == 'D')
}

/// Does this name run spell the keyword `or`, in any case?
pub open spec fn is_or_word(t: Seq<char>) -> bool {
    t.len() == 2 && (t[0] == 'o' || t[0] == 'O') && (t[1] == 'r' || t[1] == 'R')
}

/// The connective a name run denotes as a case-insensitive keyword, if any.
pub open spec fn spec_keyword(t: Seq<char>) -> Option<BinaryOp> {
    if is_and_word(t) {
        Some(BinaryOp::And)
    } else if is_or_word(t) {
        Some(BinaryOp::Or)
    } else {
        None
    }
}

/// The token a terminated name run turns into: a connective when the run is
/// one of the keywords, the (case-preserved) name otherwise.
pub open spec fn name_token(name: Seq<char>) -> TokenView {
    match spec_keyword(name) {
        Some(op) => TokenView::BinaryOp(op),
        None => TokenView::Name(name),
    }
}

/// The lexer's state between two characters.
#[verifier::ext_equal]
pub enum LexStateView {
    /// Ready for any token.
    AnyExpected,
    /// Inside a name run; the field holds the characters read so far.
    InName(Seq<char>),
    /// Just emitted a symbolic connective; an immediately repeated symbol is
    /// absorbed.
    InSymbolBinOp(BinaryOp),
}

/// One step of the machine from the ready state.
pub open spec fn step_any(toks: Seq<TokenView>, c: char) -> (LexStateView, Seq<TokenView>) {
    if c == '(' {
        (LexStateView::AnyExpected, toks.push(TokenView::OpenBracket))
    } else if c == ')' {
        (LexStateView::AnyExpected, toks.push(TokenView::CloseBracket))
    } else if c == '!' {
        (LexStateView::AnyExpected, toks.push(TokenView::Invert))
    } else if c == '&' {
        (LexStateView::InSymbolBinOp(BinaryOp::And), toks.push(TokenView::BinaryOp(BinaryOp::And)))
    } else if c == '|' {
        (LexStateView::InSymbolBinOp(BinaryOp::Or), toks.push(TokenView::BinaryOp(BinaryOp::Or)))
    } else if whitespace(c) {
        (LexStateView::AnyExpected, toks)
    } else {
        (LexStateView::InName(seq![c]), toks)
    }
}

/// One step of the machine from any state.
pub open spec fn lex_step(st: LexStateView, toks: Seq<TokenView>, c: char) -> (
    LexStateView,
    Seq<TokenView>,
) {
    match st {
        LexStateView::InSymbolBinOp(op) => if c == symbol_char(op) {
            (LexStateView::AnyExpected, toks)
        } else {
            step_any(toks, c)
        },
        LexStateView::InName(name) => if delimiter(c) || whitespace(c) {
            step_any(toks.push(name_token(name)), c)
        } else {
            (LexStateView::InName(name.push(c)), toks)
        },
        LexStateView::AnyExpected => step_any(toks, c),
    }
}

/// The machine run over a whole character sequence.
pub open spec fn lex_run(st: LexStateView, toks: Seq<TokenView>, s: Seq<char>) -> (
    LexStateView,
    Seq<TokenView>,
)
    decreases s.len(),
{
    if s.len() == 0 {
        (st, toks)
    } else {
        let stepped = lex_step(st, toks, s[0]);
        lex_run(stepped.0, stepped.1, s.skip(1))
    }
}

/// End of input: a still-pending name run is flushed exactly as a delimiter
/// would flush it.
pub open spec fn lex_finish(st: LexStateView, toks: Seq<TokenView>) -> Seq<TokenView> {
    match st {
        LexStateView::InName(name) => toks.push(name_token(name)),
        _ => toks,
    }
}

/// The token sequence of a source text: what [`lex`] returns.
pub open spec fn spec_lex(s: Seq<char>) -> Seq<TokenView> {
    let run = lex_run(LexStateView::AnyExpected, Seq::empty(), s);
    lex_finish(run.0, run.1)
}

/// Running the machine over `a + b` is running it over `a`, then over `b`.
pub proof fn lemma_lex_run_app(st: LexStateView, toks: Seq<TokenView>, a: Seq<char>, b: Seq<char>)
    ensures
        lex_run(st, toks, a + b) == lex_run(lex_run(st, toks, a).0, lex_run(st, toks, a).1, b),
    decreases a.len(),
{
    if a.len() == 0 {
        assert(a + b =~= b);
    } else {
        assert((a + b)[0] == a[0]);
        assert((a + b).skip(1) =~= a.skip(1) + b);
        let stepped = lex_step(st, toks, a[0]);
        lemma_lex_run_app(stepped.0, stepped.1, a.skip(1), b);
    }
}

/// Tokens already emitted only accumulate: running the machine with a
/// non-empty output prefix appends to that prefix exactly what a run from an
/// empty output would emit, and lands in the same state.
pub proof fn lemma_lex_run_acc(st: LexStateView, toks: Seq<TokenView>, s: Seq<char>)
    ensures
        lex_run(st, toks, s).0 == lex_run(st, Seq::<TokenView>::empty(), s).0,
        lex_run(st, toks, s).1 == toks + lex_run(st, Seq::<TokenView>::empty(), s).1,
    decreases s.len(),
{
    if s.len() == 0 {
        assert(lex_run(st, toks, s).1 =~= toks + Seq::<TokenView>::empty());
    } else {
        let c = s[0];
        let stepped = lex_step(st, toks, c);
        let stepped0 = lex_step(st, Seq::<TokenView>::empty(), c);
        assert(stepped.0 == stepped0.0);
        assert(stepped.1 =~= toks + stepped0.1);
        lemma_lex_run_acc(stepped.0, stepped.1, s.skip(1));
        lemma_lex_run_acc(stepped0.0, stepped0.1, s.skip(1));
        assert(lex_run(st, toks, s).1 =~= toks + lex_run(st, Seq::<TokenView>::empty(), s).1);
    }
}

/// The executable lexer's state between two characters; a name run is
/// remembered by where it starts in the input.
#[derive(Debug, Copy, Clone, PartialEq, Eq, Structural)]
enum LexState {
    AnyExpected,
    InName { start: usize },
    InSymbolBinOp(BinaryOp),
}

/// The value of the executable state, with a name run read back from the
/// input `s` up to the cursor `i`.
spec fn state_view(st: LexState, s: Seq<char>, i: int) -> LexStateView {
    match st {
        LexState::AnyExpected => LexStateView::AnyExpected,
        LexState::InName { start } => LexStateView::InName(s.subrange(start as int, i)),
        LexState::InSymbolBinOp(op) => LexStateView::InSymbolBinOp(op),
    }
}

/// A name run in progress starts before the cursor.
spec fn state_wf(st: LexState, i: int) -> bool {
    match st {
        LexState::InName { start } => start < i,
        _ => true,
    }
}

/// Is `c` one of the Unicode `White_Space` characters?
pub fn is_whitespace_char(c: char) -> (r: bool)
    ensures
        r == whitespace(c),
{
    c == ' ' || c == '\t' || c == '\n' || c == '\u{0B}' || c == '\u{0C}' || c == '\r'
        || c == '\u{85}' || c == '\u{A0}' || c == '\u{1680}' || c == '\u{2000}' || c == '\u{2001}'
        || c == '\u{2002}' || c == '\u{2003}' || c == '\u{2004}' || c == '\u{2005}' || c == '\u{2006}'
        || c == '\u{2007}' || c == '\u{2008}' || c == '\u{2009}' || c == '\u{200A}' || c == '\u{2028}'
        || c == '\u{2029}' || c == '\u{202F}' || c == '\u{205F}' || c == '\u{3000}'
}

/// Is `c` one of the delimiter characters `( ) & | !`?
pub fn is_delimiter(c: char) -> (r: bool)
    ensures
        r == delimiter(c),
{
    c == '(' || c == ')' || c == '&' || c == '|' || c == '!'
}

/// The connective a name run denotes as a case-insensitive keyword, if any.
fn keyword_of(text: &str) -> (r: Option<BinaryOp>)
    ensures
        r == spec_keyword(text@),
{
    let n = text.unicode_len();
    if n == 3 {
        let c0 = text.get_char(0);
        let c1 = text.get_char(1);
        let c2 = text.get_char(2);
        if (c0 == 'a' || c0 == 'A') && (c1 == 'n' || c1 == 'N') && (c2 == 'd' || c2 == 'D') {
            Some(BinaryOp::And)
        } else {
            None
        }
    } else if n == 2 {
        let c0 = text.get_char(0);
        let c1 = text.get_char(1);
        if (c0 == 'o' || c0 == 'O') && (c1 == 'r' || c1 == 'R') {
            Some(BinaryOp::Or)
        } else {
            None
        }
    } else {
        None
    }
}

/// The token a terminated name run `s[start..upto]` turns into.
fn word_token(s: &str, start: usize, upto: usize) -> (t: Token)
    requires
        start <= upto <= s@.len(),
    ensures
        t@ == name_token(s@.subrange(start as int, upto as int)),
{
    let text = s.substring_char(start, upto);
    match keyword_of(text) {
        Some(op) => Token::BinaryOp(op),
        None => Token::Name { text: text.to_owned() },
    }
}

/// Turn a source text into its token sequence.
///
/// Lexing is total: every character is classified, so the result is always
/// `Ok` and holds exactly [`spec_lex`] of the input.
pub fn lex(s: &str) -> (r: Result<Vec<Token>, LexError>)
    ensures
        r matches Ok(tokens) && token_views(tokens@) == spec_lex(s@),
{
    let n = s.unicode_len();
    let mut tokens: Vec<Token> = Vec::new();
    let mut state = LexState::AnyExpected;
    let mut i: usize = 0;
    while i < n
        invariant
            n == s@.len(),
            i <= n,
            state_wf(state, i as int),
            state_view(state, s@, i as int) == lex_run(
                LexStateView::AnyExpected,
                Seq::<TokenView>::empty(),
                s@.take(i as int),
            ).0,
            token_views(tokens@) == lex_run(
                LexStateView::AnyExpected,
                Seq::<TokenView>::empty(),
                s@.take(i as int),
            ).1,
        decreases n - i,
    {
        let ghost pre_state = state_view(state, s@, i as int);
        let ghost pre_toks = token_views(tokens@);
        let c = s.get_char(i);
        proof {
            assert(s@.take(i as int) + seq![s@[i as int]] =~= s@.take(i + 1 as int));
            lemma_lex_run_app(
                LexStateView::AnyExpected,
                Seq::<TokenView>::empty(),
                s@.take(i as int),
                seq![s@[i as int]],
            );
            assert(seq![s@[i as int]].skip(1) =~= Seq::<char>::empty());
            assert(lex_run(LexStateView::AnyExpected, Seq::<TokenView>::empty(), s@.take(i + 1 as int))
                == lex_run(pre_state, pre_toks, seq![s@[i as int]]));
            assert(lex_run(pre_state, pre_toks, seq![s@[i as int]]) == lex_step(
                pre_state,
                pre_toks,
                s@[i as int],
            )) by {
                reveal_with_fuel(lex_run, 2);
            }
        }
        let ghost goal = lex_step(pre_state, pre_toks, c);
        let mut absorbed = false;
        if let LexState::InSymbolBinOp(op) = state {
            state = LexState::AnyExpected;
            if c == op.as_char() {
                absorbed = true;
            }
        }
        if !absorbed {
            let mut in_name = false;
            if let LexState::InName { start } = state {
                let ends = is_delimiter(c) || is_whitespace_char(c);
                if ends {
                    let tok = word_token(s, start, i);
                    tokens.push(tok);
                    proof {
                        assert(token_views(tokens@) =~= pre_toks.push(
                            name_token(s@.subrange(start as int, i as int)),
                        ));
                    }
                    state = LexState::AnyExpected;
                } else {
                    in_name = true;
                    proof {
                        assert(s@.subrange(start as int, i as int).push(s@[i as int]) =~= s@
                            .subrange(start as int, i + 1 as int));
                    }
                }
            }
            if !in_name {
                let ghost mid_toks = token_views(tokens@);
                if c == '(' {
                    tokens.push(Token::OpenBracket);
                } else if c == ')' {
                    tokens.push(Token::CloseBracket);
                } else if c == '!' {
                    tokens.push(Token::Invert);
                } else if c == '&' {
                    tokens.push(Token::BinaryOp(BinaryOp::And));
                    state = LexState::InSymbolBinOp(BinaryOp::And);
                } else if c == '|' {
                    tokens.push(Token::BinaryOp(BinaryOp::Or));
                    state = LexState::InSymbolBinOp(BinaryOp::Or);
                } else if is_whitespace_char(c) {
                } else {
                    state = LexState::InName { start: i };
                    proof {
                        assert(s@.subrange(i as int, i + 1 as int) =~= seq![s@[i as int]]);
                    }
                }
                proof {
                    if token_views(tokens@).len() == mid_toks.len() + 1 {
                        assert(token_views(tokens@) =~= mid_toks.push(
                            tokens@[tokens@.len() - 1]@,
                        ));
                    }
                }
            }
        }
        proof {
            assert(state_view(state, s@, i + 1 as int) == goal.0);
            assert(token_views(tokens@) == goal.1);
        }
        i = i + 1;
    }
    proof {
        assert(s@.take(n as int) =~= s@);
    }
    if let LexState::InName { start } = state {
        let tok = word_token(s, start, n);
        tokens.push(tok);
        proof {
            assert(token_views(tokens@) =~= spec_lex(s@));
        }
    }
    Ok(tokens)
}

} // verus!
