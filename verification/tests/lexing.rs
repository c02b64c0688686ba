use taglogic::lexer::lex;
use taglogic::ops::BinaryOp;
use taglogic::token::Token;

fn name(text: &str) -> Token {
    Token::Name { text: text.to_string() }
}

#[test]
fn nested_lex() {
    let tokens = lex("abc & !(( ! xyz || dwf) | (!abc or dwp) & (dwp and r   ) )  ");
    assert_eq!(
        tokens,
        Ok(vec![
            Token::Name { text: "abc".to_string() },
            Token::BinaryOp(BinaryOp::And),
            Token::Invert,
            Token::OpenBracket,
            Token::OpenBracket,
            Token::Invert,
            Token::Name { text: "xyz".to_string() },
            Token::BinaryOp(BinaryOp::Or),
            Token::Name { text: "dwf".to_string() },
            Token::CloseBracket,
            Token::BinaryOp(BinaryOp::Or),
            Token::OpenBracket,
            Token::Invert,
            Token::Name { text: "abc".to_string() },
            Token::BinaryOp(BinaryOp::Or),
            Token::Name { text: "dwp".to_string() },
            Token::CloseBracket,
            Token::BinaryOp(BinaryOp::And),
            Token::OpenBracket,
            Token::Name { text: "dwp".to_string() },
            Token::BinaryOp(BinaryOp::And),
            Token::Name { text: "r".to_string() },
            Token::CloseBracket,
            Token::CloseBracket,
        ])
    );
}

#[test]
fn empty_and_whitespace_lex_to_nothing() {
    assert_eq!(lex(""), Ok(vec![]));
    assert_eq!(lex(" \t\r\n "), Ok(vec![]));
}

#[test]
fn trailing_name_is_flushed_at_end_of_input() {
    assert_eq!(lex("abc"), Ok(vec![name("abc")]));
    assert_eq!(lex("  abc"), Ok(vec![name("abc")]));
    assert_eq!(lex("and"), Ok(vec![Token::BinaryOp(BinaryOp::And)]));
}

#[test]
fn whitespace_between_tokens_is_immaterial() {
    assert_eq!(lex("a&b"), lex("  a  &  b "));
    assert_eq!(lex("!(a|b)"), lex(" ! ( a | b ) "));
}

#[test]
fn whitespace_splits_names() {
    assert_eq!(lex("ab"), Ok(vec![name("ab")]));
    assert_eq!(lex("a b"), Ok(vec![name("a"), name("b")]));
}

#[test]
fn symbol_and_keyword_spellings_match() {
    let and_expected = Ok(vec![name("a"), Token::BinaryOp(BinaryOp::And), name("b")]);
    assert_eq!(lex("a & b"), and_expected);
    assert_eq!(lex("a && b"), and_expected);
    assert_eq!(lex("a and b"), and_expected);
    assert_eq!(lex("a AND b"), and_expected);
    assert_eq!(lex("a AnD b"), and_expected);
    let or_expected = Ok(vec![name("a"), Token::BinaryOp(BinaryOp::Or), name("b")]);
    assert_eq!(lex("a | b"), or_expected);
    assert_eq!(lex("a || b"), or_expected);
    assert_eq!(lex("a or b"), or_expected);
    assert_eq!(lex("a OR b"), or_expected);
}

#[test]
fn only_the_same_symbol_is_absorbed() {
    // `&|` is two connectives: the doubling rule only absorbs a repeat of
    // the same symbol.
    assert_eq!(
        lex("a &| b"),
        Ok(vec![
            name("a"),
            Token::BinaryOp(BinaryOp::And),
            Token::BinaryOp(BinaryOp::Or),
            name("b"),
        ])
    );
    // A space between the two symbols splits them into two connectives.
    assert_eq!(
        lex("a & & b"),
        Ok(vec![
            name("a"),
            Token::BinaryOp(BinaryOp::And),
            Token::BinaryOp(BinaryOp::And),
            name("b"),
        ])
    );
}

#[test]
fn name_case_is_preserved() {
    assert_eq!(lex("AbC"), Ok(vec![name("AbC")]));
    // Keywords are recognized case-insensitively, but only as whole runs.
    assert_eq!(lex("andy"), Ok(vec![name("andy")]));
    assert_eq!(lex("orchid"), Ok(vec![name("orchid")]));
}

#[test]
fn delimiters_terminate_names() {
    assert_eq!(
        lex("a!b"),
        Ok(vec![name("a"), Token::Invert, name("b")])
    );
    assert_eq!(
        lex("a(b)"),
        Ok(vec![name("a"), Token::OpenBracket, name("b"), Token::CloseBracket])
    );
}

#[test]
fn lexing_handles_arbitrary_text() {
    // Names may hold any non-delimiter, non-whitespace characters, and
    // whitespace beyond ASCII is discarded all the same.
    assert_eq!(
        lex("日本\u{3000}&\u{00A0}ñandú"),
        Ok(vec![
            name("日本"),
            Token::BinaryOp(BinaryOp::And),
            name("ñandú"),
        ])
    );
}

#[test]
fn keyword_directly_before_a_symbol_is_two_connectives() {
    // `and&` is not `&&`: the keyword is flushed by the delimiter, which then
    // stands as a connective of its own.
    assert_eq!(
        lex("a and& b"),
        Ok(vec![
            name("a"),
            Token::BinaryOp(BinaryOp::And),
            Token::BinaryOp(BinaryOp::And),
            name("b"),
        ])
    );
}

#[test]
fn binary_op_helpers() {
    assert_eq!(BinaryOp::And.as_char(), '&');
    assert_eq!(BinaryOp::Or.as_char(), '|');
    assert_eq!(BinaryOp::from_char('&'), Some(BinaryOp::And));
    assert_eq!(BinaryOp::from_char('|'), Some(BinaryOp::Or));
    assert_eq!(BinaryOp::from_char('!'), None);
    assert_eq!(BinaryOp::from_text("and"), Some(BinaryOp::And));
    assert_eq!(BinaryOp::from_text("or"), Some(BinaryOp::Or));
    // from_text matches the exact lowercase keyword only.
    assert_eq!(BinaryOp::from_text("AND"), None);
    assert_eq!(BinaryOp::from_text("nor"), None);
    assert_eq!(BinaryOp::from_text(""), None);
}
