//! Laws of the pipeline, stated and proved once and for all inputs:
//! whitespace between tokens is immaterial, the symbol and keyword spellings
//! of a connective are interchangeable, and redundant brackets around a
//! complete expression change nothing.

use vstd::prelude::*;
use crate::lexer::delimiter;
use crate::lexer::lex_finish;
use crate::lexer::lex_run;
use crate::lexer::lex_step;
use crate::lexer::lemma_lex_run_acc;
use crate::lexer::lemma_lex_run_app;
use crate::lexer::is_and_word;
use crate::lexer::is_or_word;
use crate::lexer::name_token;
use crate::lexer::spec_keyword;
use crate::lexer::spec_lex;
use crate::lexer::whitespace;
use crate::lexer::LexStateView;
use crate::expr::spec_parse;
use crate::expr::ExprView;
use crate::ops::symbol_char;
use crate::ops::BinaryOp;
use crate::parser::lemma_munch_append_close;
use crate::parser::lemma_munch_unfold;
use crate::parser::spec_munch;
use crate::parser::AstView;
use crate::parser::ParseError;
use crate::token::TokenView;

verus! {

/// From the ready state, whitespace is discarded without a trace.
proof fn lemma_ws_run(toks: Seq<TokenView>, ws: Seq<char>)
    requires
        forall|k: int| 0 <= k < ws.len() ==> whitespace(#[trigger] ws[k]),
    ensures
        lex_run(LexStateView::AnyExpected, toks, ws) == (LexStateView::AnyExpected, toks),
    decreases ws.len(),
{
    if ws.len() > 0 {
        let c = ws[0];
        assert(whitespace(c));
        assert(!delimiter(c));
        assert(lex_step(LexStateView::AnyExpected, toks, c) == (
            LexStateView::AnyExpected,
            toks,
        ));
        lemma_ws_run(toks, ws.skip(1));
    }
}

/// Whitespace invariance: inserting (equivalently, removing) a run of
/// whitespace at a point where the lexer is between tokens — not inside a
/// name run and not directly after a symbolic connective — changes neither
/// the token sequence nor the parse. (Inside a name run whitespace splits the
/// name, and between the two characters of `&&` it splits the doubled symbol
/// into two connectives, so those insertion points are excluded.)
pub proof fn lemma_whitespace_insertion(s1: Seq<char>, ws: Seq<char>, s2: Seq<char>)
    requires
        forall|k: int| 0 <= k < ws.len() ==> whitespace(#[trigger] ws[k]),
        lex_run(LexStateView::AnyExpected, Seq::<TokenView>::empty(), s1).0
            is AnyExpected,
    ensures
        spec_lex(s1 + ws + s2) == spec_lex(s1 + s2),
        crate::expr::spec_parse(s1 + ws + s2) == crate::expr::spec_parse(s1 + s2),
{
    let init = LexStateView::AnyExpected;
    let none = Seq::<TokenView>::empty();
    let r1 = lex_run(init, none, s1);
    assert(s1 + ws + s2 =~= s1 + (ws + s2));
    lemma_lex_run_app(init, none, s1, ws + s2);
    lemma_lex_run_app(r1.0, r1.1, ws, s2);
    lemma_ws_run(r1.1, ws);
    lemma_lex_run_app(init, none, s1, s2);
    assert(lex_run(init, none, s1 + ws + s2) == lex_run(init, none, s1 + s2));
}

/// Directly after a symbolic connective, any character other than that same
/// symbol is read exactly as it would be from the ready state.
proof fn lemma_after_symbol(op: BinaryOp, toks: Seq<TokenView>, s2: Seq<char>)
    requires
        s2.len() > 0 ==> s2[0] != symbol_char(op),
    ensures
        ({
            let ra = lex_run(LexStateView::InSymbolBinOp(op), toks, s2);
            let rb = lex_run(LexStateView::AnyExpected, toks, s2);
            lex_finish(ra.0, ra.1) == lex_finish(rb.0, rb.1)
        }),
{
    if s2.len() > 0 {
        let c = s2[0];
        assert(lex_step(LexStateView::InSymbolBinOp(op), toks, c) == lex_step(
            LexStateView::AnyExpected,
            toks,
            c,
        ));
    }
}

/// Doubling a symbolic connective changes nothing: `&&` lexes and parses as
/// `&`, and `||` as `|`. The insertion point must not already sit directly
/// after the same symbol (where the first copy would itself be absorbed), and
/// what follows must not begin with that symbol (which the doubled form would
/// absorb).
pub proof fn lemma_doubled_symbol(s1: Seq<char>, op: BinaryOp, s2: Seq<char>)
    requires
        !(lex_run(LexStateView::AnyExpected, Seq::<TokenView>::empty(), s1).0
            is InSymbolBinOp),
        s2.len() > 0 ==> s2[0] != symbol_char(op),
    ensures
        spec_lex(s1 + seq![symbol_char(op), symbol_char(op)] + s2) == spec_lex(
            s1 + seq![symbol_char(op)] + s2,
        ),
        crate::expr::spec_parse(s1 + seq![symbol_char(op), symbol_char(op)] + s2)
            == crate::expr::spec_parse(s1 + seq![symbol_char(op)] + s2),
{
    let c = symbol_char(op);
    let init = LexStateView::AnyExpected;
    let none = Seq::<TokenView>::empty();
    let r1 = lex_run(init, none, s1);
    let after1 = lex_step(r1.0, r1.1, c);
    assert(after1.0 == LexStateView::InSymbolBinOp(op));
    assert(s1 + seq![c, c] + s2 =~= s1 + (seq![c, c] + s2));
    lemma_lex_run_app(init, none, s1, seq![c, c] + s2);
    assert((seq![c, c] + s2)[0] == c);
    assert((seq![c, c] + s2).skip(1) =~= seq![c] + s2);
    assert((seq![c] + s2)[0] == c);
    assert((seq![c] + s2).skip(1) =~= s2);
    assert(lex_run(r1.0, r1.1, seq![c, c] + s2) == lex_run(
        LexStateView::AnyExpected,
        after1.1,
        s2,
    )) by {
        reveal_with_fuel(lex_run, 3);
    }
    assert(s1 + seq![c] + s2 =~= s1 + (seq![c] + s2));
    lemma_lex_run_app(init, none, s1, seq![c] + s2);
    assert(lex_run(r1.0, r1.1, seq![c] + s2) == lex_run(
        LexStateView::InSymbolBinOp(op),
        after1.1,
        s2,
    )) by {
        reveal_with_fuel(lex_run, 2);
    }
    lemma_after_symbol(op, after1.1, s2);
}

/// Inside a name run, characters that are neither delimiters nor whitespace
/// only extend the run.
proof fn lemma_run_word(name: Seq<char>, w: Seq<char>, toks: Seq<TokenView>, s2: Seq<char>)
    requires
        forall|k: int| 0 <= k < w.len() ==> !delimiter(#[trigger] w[k]) && !whitespace(w[k]),
    ensures
        lex_run(LexStateView::InName(name), toks, w + s2) == lex_run(
            LexStateView::InName(name + w),
            toks,
            s2,
        ),
    decreases w.len(),
{
    if w.len() == 0 {
        assert(w + s2 =~= s2);
        assert(name + w =~= name);
    } else {
        let c = w[0];
        assert((w + s2)[0] == c);
        assert((w + s2).skip(1) =~= w.skip(1) + s2);
        assert(lex_step(LexStateView::InName(name), toks, c) == (
            LexStateView::InName(name.push(c)),
            toks,
        ));
        lemma_run_word(name.push(c), w.skip(1), toks, s2);
        assert(name.push(c) + w.skip(1) =~= name + w);
    }
}

/// A connective keyword (`and`/`or`, any case) lexes and parses exactly as
/// its symbol. The keyword must start at a point where the lexer is ready for
/// any token, must be terminated by a delimiter, whitespace or the end of the
/// input (otherwise it would merge with what follows into one name), and what
/// follows must not begin with the connective's own symbol (which the symbol
/// spelling would absorb).
pub proof fn lemma_keyword_symbol(s1: Seq<char>, op: BinaryOp, w: Seq<char>, s2: Seq<char>)
    requires
        lex_run(LexStateView::AnyExpected, Seq::<TokenView>::empty(), s1).0
            is AnyExpected,
        spec_keyword(w) == Some(op),
        s2.len() > 0 ==> delimiter(s2[0]) || whitespace(s2[0]),
        s2.len() > 0 ==> s2[0] != symbol_char(op),
    ensures
        spec_lex(s1 + w + s2) == spec_lex(s1 + seq![symbol_char(op)] + s2),
        crate::expr::spec_parse(s1 + w + s2) == crate::expr::spec_parse(
            s1 + seq![symbol_char(op)] + s2,
        ),
{
    let c = symbol_char(op);
    let init = LexStateView::AnyExpected;
    let none = Seq::<TokenView>::empty();
    let r1 = lex_run(init, none, s1);
    let toks = r1.1;
    assert(is_and_word(w) || is_or_word(w));
    assert(forall|k: int| 0 <= k < w.len() ==> !delimiter(#[trigger] w[k]) && !whitespace(w[k]))
        by {
        assert forall|k: int| 0 <= k < w.len() implies !delimiter(#[trigger] w[k]) && !whitespace(
            w[k],
        ) by {
            if is_and_word(w) {
                assert(k == 0 || k == 1 || k == 2);
            } else {
                assert(k == 0 || k == 1);
            }
        }
    }
    assert(s1 + w + s2 =~= s1 + (w + s2));
    lemma_lex_run_app(init, none, s1, w + s2);
    assert((w + s2)[0] == w[0]);
    assert((w + s2).skip(1) =~= w.skip(1) + s2);
    assert(lex_step(r1.0, toks, w[0]) == (LexStateView::InName(seq![w[0]]), toks));
    lemma_run_word(seq![w[0]], w.skip(1), toks, s2);
    assert(seq![w[0]] + w.skip(1) =~= w);
    assert(lex_run(r1.0, toks, w + s2) == lex_run(LexStateView::InName(w), toks, s2)) by {
        reveal_with_fuel(lex_run, 2);
    }
    assert(s1 + seq![c] + s2 =~= s1 + (seq![c] + s2));
    lemma_lex_run_app(init, none, s1, seq![c] + s2);
    assert((seq![c] + s2)[0] == c);
    assert((seq![c] + s2).skip(1) =~= s2);
    let pushed = toks.push(TokenView::BinaryOp(op));
    assert(lex_step(r1.0, toks, c) == (LexStateView::InSymbolBinOp(op), pushed));
    assert(lex_run(r1.0, toks, seq![c] + s2) == lex_run(
        LexStateView::InSymbolBinOp(op),
        pushed,
        s2,
    )) by {
        reveal_with_fuel(lex_run, 2);
    }
    assert(name_token(w) == TokenView::BinaryOp(op));
    if s2.len() == 0 {
    } else {
        let d = s2[0];
        assert(lex_step(LexStateView::InName(w), toks, d) == lex_step(
            LexStateView::InSymbolBinOp(op),
            pushed,
            d,
        ));
        assert(lex_run(LexStateView::InName(w), toks, s2) == lex_run(
            LexStateView::InSymbolBinOp(op),
            pushed,
            s2,
        )) by {
            reveal_with_fuel(lex_run, 2);
        }
    }
}

/// Wrapping a fully-consumed successful parse in one more bracket pair
/// yields the same tree, with nothing left over.
pub proof fn lemma_bracket_wrap(ts: Seq<TokenView>, ast: AstView)
    requires
        spec_munch(ts) == Ok::<_, ParseError>((ast, Seq::<TokenView>::empty())),
    ensures
        spec_munch(seq![TokenView::OpenBracket] + ts + seq![TokenView::CloseBracket]) == Ok::<
            _,
            ParseError,
        >((ast, Seq::<TokenView>::empty())),
{
    let open = TokenView::OpenBracket;
    let close = TokenView::CloseBracket;
    let full = seq![open] + ts + seq![close];
    lemma_munch_unfold(full);
    assert(full[0] == open);
    assert(full.skip(1) =~= ts.push(close));
    lemma_munch_append_close(ts);
    assert(Seq::<TokenView>::empty().push(close) =~= seq![close]);
    assert(seq![close].skip(1) =~= Seq::<TokenView>::empty());
}

/// Idempotence of double-bracketing: a source that parses to a tree still
/// parses to that very tree when the whole source is wrapped in one more
/// bracket pair. (An empty source is excluded: brackets around nothing are a
/// syntax error, not the empty expression.)
pub proof fn lemma_double_bracketing(s: Seq<char>, ast: AstView)
    requires
        spec_parse(s) == Ok::<ExprView, ParseError>(ExprView::HasNodes(ast)),
    ensures
        spec_parse(seq!['('] + s + seq![')']) == Ok::<ExprView, ParseError>(
            ExprView::HasNodes(ast),
        ),
{
    let open = TokenView::OpenBracket;
    let close = TokenView::CloseBracket;
    let init = LexStateView::AnyExpected;
    let none = Seq::<TokenView>::empty();
    let full = seq!['('] + s + seq![')'];
    let run0 = lex_run(init, none, s);
    assert(full =~= (seq!['('] + s) + seq![')']);
    lemma_lex_run_app(init, none, seq!['('] + s, seq![')']);
    assert((seq!['('] + s)[0] == '(');
    assert((seq!['('] + s).skip(1) =~= s);
    assert(lex_step(init, none, '(') == (LexStateView::AnyExpected, seq![open]));
    assert(lex_run(init, none, seq!['('] + s) == lex_run(
        LexStateView::AnyExpected,
        seq![open],
        s,
    )) by {
        reveal_with_fuel(lex_run, 2);
    }
    lemma_lex_run_acc(LexStateView::AnyExpected, seq![open], s);
    let st = run0.0;
    let toks1 = seq![open] + run0.1;
    assert(lex_step(st, toks1, ')') == (
        LexStateView::AnyExpected,
        lex_finish(st, toks1).push(close),
    ));
    assert(seq![')'][0] == ')');
    assert(seq![')'].skip(1) =~= Seq::<char>::empty());
    assert(lex_run(st, toks1, seq![')']) == (
        LexStateView::AnyExpected,
        lex_finish(st, toks1).push(close),
    )) by {
        reveal_with_fuel(lex_run, 2);
    }
    assert(lex_finish(st, toks1) =~= seq![open] + lex_finish(st, run0.1));
    assert(spec_lex(full) =~= seq![open] + spec_lex(s) + seq![close]);
    let toks = spec_lex(s);
    assert(toks.len() > 0);
    let p = spec_munch(toks)->Ok_0;
    assert(p.1 =~= Seq::<TokenView>::empty());
    assert(p.0 == ast);
    lemma_bracket_wrap(toks, ast);
    assert(spec_lex(full).len() > 0);
}

/// Every name token in the sequence carries at least one character.
pub open spec fn names_nonempty(toks: Seq<TokenView>) -> bool {
    forall|k: int|
        0 <= k < toks.len() ==> ((#[trigger] toks[k]) matches TokenView::Name(t) ==> t.len() > 0)
}

/// Appending a token that is not an empty name keeps every name non-empty.
proof fn lemma_push_names(toks: Seq<TokenView>, t: TokenView)
    requires
        names_nonempty(toks),
        t matches TokenView::Name(nm) ==> nm.len() > 0,
    ensures
        names_nonempty(toks.push(t)),
{
    assert forall|k: int|
        0 <= k < toks.push(t).len() implies ((#[trigger] toks.push(t)[k])
        matches TokenView::Name(nm) ==> nm.len() > 0) by {
        if k < toks.len() {
            assert(toks.push(t)[k] == toks[k]);
        } else {
            assert(toks.push(t)[k] == t);
        }
    }
}

/// The machine never holds an empty name run and never emits an empty name.
proof fn lemma_lex_run_names(st: LexStateView, toks: Seq<TokenView>, s: Seq<char>)
    requires
        names_nonempty(toks),
        st matches LexStateView::InName(nm) ==> nm.len() > 0,
    ensures
        ({
            let r = lex_run(st, toks, s);
            names_nonempty(r.1) && (r.0 matches LexStateView::InName(nm) ==> nm.len() > 0)
        }),
    decreases s.len(),
{
    if s.len() > 0 {
        let c = s[0];
        let stepped = lex_step(st, toks, c);
        match st {
            LexStateView::InName(nm) => {
                if delimiter(c) || whitespace(c) {
                    lemma_push_names(toks, name_token(nm));
                    lemma_push_names(toks.push(name_token(nm)), step_any_token(c));
                }
            },
            _ => {
                lemma_push_names(toks, step_any_token(c));
            },
        }
        lemma_lex_run_names(stepped.0, stepped.1, s.skip(1));
    }
}

/// A helper naming what the ready state would push for a character, so that
/// [`lemma_lex_run_names`] can speak of it uniformly; for a character that
/// pushes nothing it names an arbitrary harmless token.
spec fn step_any_token(c: char) -> TokenView {
    if c == '(' {
        TokenView::OpenBracket
    } else if c == ')' {
        TokenView::CloseBracket
    } else if c == '!' {
        TokenView::Invert
    } else if c == '&' {
        TokenView::BinaryOp(BinaryOp::And)
    } else if c == '|' {
        TokenView::BinaryOp(BinaryOp::Or)
    } else {
        TokenView::Invert
    }
}

/// Empty runs are never emitted as names: every name token the lexer
/// produces, on any input, carries at least one character.
pub proof fn lemma_lex_names_nonempty(s: Seq<char>)
    ensures
        names_nonempty(spec_lex(s)),
{
    let init = LexStateView::AnyExpected;
    let none = Seq::<TokenView>::empty();
    lemma_lex_run_names(init, none, s);
    let r = lex_run(init, none, s);
    match r.0 {
        LexStateView::InName(nm) => {
            lemma_push_names(r.1, name_token(nm));
        },
        _ => {},
    }
}

} // verus!
