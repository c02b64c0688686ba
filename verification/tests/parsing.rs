use taglogic::expr::Expr;
use taglogic::expr::ExprData;
use taglogic::ops::BinaryOp;
use taglogic::parser::AstNode;
use taglogic::parser::ParseError;

fn name(text: &str) -> AstNode {
    AstNode::Name(text.to_string())
}

fn invert(child: AstNode) -> AstNode {
    AstNode::Invert(Box::new(child))
}

fn binary(op: BinaryOp, left: AstNode, right: AstNode) -> AstNode {
    AstNode::Binary(op, Box::new(left), Box::new(right))
}

fn parsed(source: &str) -> AstNode {
    match Expr::from_string(source) {
        Ok(expr) => match expr.into_data() {
            ExprData::HasNodes(node) => node,
            ExprData::Empty => panic!("expected a tree for {:?}, got the empty expression", source),
        },
        Err(e) => panic!("expected a tree for {:?}, got {:?}", source, e),
    }
}

#[test]
fn lone_name_round_trip() {
    assert_eq!(parsed("a"), name("a"));
}

#[test]
fn inverted_name_round_trip() {
    assert_eq!(parsed("!a"), invert(name("a")));
    assert_eq!(parsed("! a"), invert(name("a")));
}

#[test]
fn empty_input_is_the_empty_expression() {
    assert_eq!(Expr::from_string("").unwrap().into_data(), ExprData::Empty);
    assert_eq!(Expr::from_string("   ").unwrap().into_data(), ExprData::Empty);
}

#[test]
fn missing_closing_bracket_is_reported() {
    assert_eq!(Expr::from_string("(a"), Err(ParseError::MissingCloseBracket));
    assert_eq!(Expr::from_string("!(a"), Err(ParseError::MissingCloseBracket));
}

#[test]
fn unexpected_closing_bracket_is_reported() {
    assert_eq!(Expr::from_string(")a"), Err(ParseError::UnexpectedCloseBracket));
    assert_eq!(Expr::from_string("()"), Err(ParseError::UnexpectedCloseBracket));
}

#[test]
fn double_negation_is_rejected() {
    assert_eq!(Expr::from_string("!!a"), Err(ParseError::DoubleInvert));
}

#[test]
fn premature_end_of_input_is_reported() {
    assert_eq!(Expr::from_string("a &"), Err(ParseError::UnexpectedEnd));
    assert_eq!(Expr::from_string("a & ("), Err(ParseError::UnexpectedEnd));
    assert_eq!(Expr::from_string("!"), Err(ParseError::EndAfterInvert));
}

#[test]
fn operator_in_operand_position_is_reported() {
    assert_eq!(Expr::from_string("& a"), Err(ParseError::UnexpectedBinaryOp));
    assert_eq!(Expr::from_string("a & | b"), Err(ParseError::UnexpectedBinaryOp));
    assert_eq!(Expr::from_string("!& a"), Err(ParseError::ExpectedExpression));
}

#[test]
fn invalid_token_after_a_complete_piece_is_reported() {
    assert_eq!(Expr::from_string("a b"), Err(ParseError::InvalidAfterName));
    assert_eq!(Expr::from_string("!a b"), Err(ParseError::InvalidAfterInvertedName));
    assert_eq!(Expr::from_string("(a) b"), Err(ParseError::InvalidAfterGroup));
}

#[test]
fn trailing_tokens_are_reported() {
    assert_eq!(Expr::from_string("a)b"), Err(ParseError::TrailingTokens));
    assert_eq!(Expr::from_string("(a))"), Err(ParseError::TrailingTokens));
}

#[test]
fn double_bracketing_changes_nothing() {
    assert_eq!(parsed("(((a)))"), parsed("a"));
    assert_eq!(parsed("((!a & b))"), parsed("!a & b"));
}

#[test]
fn negation_binds_to_the_name_alone() {
    assert_eq!(
        parsed("!abc & xyz"),
        binary(BinaryOp::And, invert(name("abc")), name("xyz"))
    );
}

#[test]
fn negated_group_takes_the_whole_remainder() {
    // `!(...)` wraps the parse of the bracketed group and whatever connective
    // chain follows it.
    assert_eq!(
        parsed("!(a) & b"),
        invert(binary(BinaryOp::And, name("a"), name("b")))
    );
}

#[test]
fn connective_chains_nest_to_the_right() {
    assert_eq!(
        parsed("a & b | c"),
        binary(
            BinaryOp::And,
            name("a"),
            binary(BinaryOp::Or, name("b"), name("c"))
        )
    );
}

#[test]
fn spellings_of_a_connective_parse_alike() {
    let expected = binary(BinaryOp::And, name("a"), name("b"));
    assert_eq!(parsed("a & b"), expected);
    assert_eq!(parsed("a && b"), expected);
    assert_eq!(parsed("a and b"), expected);
    assert_eq!(parsed("a AND b"), expected);
    let expected = binary(BinaryOp::Or, name("a"), name("b"));
    assert_eq!(parsed("a | b"), expected);
    assert_eq!(parsed("a || b"), expected);
    assert_eq!(parsed("a or b"), expected);
}

#[test]
fn deep_expression_parses_like_its_respelling() {
    let original = parsed("abc & !(( ! xyz || dwf) | (!abc or dwp) & (dwp and r   ) )  ");
    let respelled = parsed("abc and !((!xyz or dwf) || (!abc | dwp) AND (dwp && r))");
    assert_eq!(original, respelled);
}

#[test]
fn deep_expression_has_the_expected_shape() {
    assert_eq!(
        parsed("abc & !(!xyz | dwf)"),
        binary(
            BinaryOp::And,
            name("abc"),
            invert(binary(BinaryOp::Or, invert(name("xyz")), name("dwf")))
        )
    );
}

#[test]
fn error_messages_describe_the_violation() {
    assert_eq!(
        ParseError::MissingCloseBracket.message(),
        "expected closing bracket"
    );
    assert_eq!(
        ParseError::UnexpectedCloseBracket.message(),
        "unexpected closing bracket"
    );
    assert_eq!(
        ParseError::DoubleInvert.message(),
        "can't double invert, that would be pointless"
    );
    assert_eq!(
        ParseError::TrailingTokens.message(),
        "expected end of input, found extra tokens"
    );
    assert_eq!(
        ParseError::UnexpectedEnd.message(),
        "unexpected end of expression"
    );
}
