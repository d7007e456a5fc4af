use regex_vm::parser::{parse, ParseError, AST};

fn chars(s: &str) -> AST {
    AST::Concat(s.chars().map(AST::Char).collect())
}

#[test]
fn literal_pattern_parses_to_sequence_of_chars() {
    assert_eq!(parse("abc").unwrap(), chars("abc"));
    assert_eq!(parse("x").unwrap(), chars("x"));
}

#[test]
fn empty_pattern_is_rejected() {
    assert_eq!(parse("").unwrap_err(), ParseError::Empty);
}

#[test]
fn empty_group_alone_is_rejected() {
    assert_eq!(parse("()").unwrap_err(), ParseError::Empty);
    assert_eq!(parse("(())").unwrap_err(), ParseError::Empty);
}

#[test]
fn operator_without_operand_is_rejected() {
    assert_eq!(parse("|a").unwrap_err(), ParseError::NoPrev(0));
    assert_eq!(parse("*a").unwrap_err(), ParseError::NoPrev(0));
    assert_eq!(parse("*").unwrap_err(), ParseError::NoPrev(0));
    assert_eq!(parse("+").unwrap_err(), ParseError::NoPrev(0));
    assert_eq!(parse("?").unwrap_err(), ParseError::NoPrev(0));
    assert_eq!(parse("a||b").unwrap_err(), ParseError::NoPrev(2));
    assert_eq!(parse("(|a)").unwrap_err(), ParseError::NoPrev(1));
}

#[test]
fn trailing_bar_closes_one_alternative() {
    // The bar moves the sequence before it into the alternatives; nothing
    // after it adds no alternative, so one remains.
    assert_eq!(parse("a|").unwrap(), chars("a"));
}

#[test]
fn repeated_star_applies_to_previous_star() {
    let star_a = AST::Star(Box::new(AST::Char('a')));
    assert_eq!(
        parse("a**").unwrap(),
        AST::Concat(vec![AST::Star(Box::new(star_a))])
    );
}

#[test]
fn unclosed_group_is_rejected() {
    assert_eq!(parse("(a").unwrap_err(), ParseError::NoRightParen);
}

#[test]
fn unopened_group_is_rejected() {
    assert_eq!(parse("a)").unwrap_err(), ParseError::InvalidRightParen(1));
    assert_eq!(parse(")").unwrap_err(), ParseError::InvalidRightParen(0));
}

#[test]
fn invalid_escape_is_rejected() {
    assert_eq!(parse("a\\b").unwrap_err(), ParseError::InvalidEscape(2, 'b'));
}

#[test]
fn escaped_star_is_literal() {
    assert_eq!(parse("\\*").unwrap(), chars("*"));
    assert_eq!(parse("\\\\\\(\\)\\|\\.\\+\\?").unwrap(), chars("\\()|.+?"));
}

#[test]
fn alternation_folds_to_the_right() {
    let expected = AST::Or(
        Box::new(chars("a")),
        Box::new(AST::Or(Box::new(chars("b")), Box::new(chars("c")))),
    );
    assert_eq!(parse("a|b|c").unwrap(), expected);
}

#[test]
fn postfix_operators_wrap_the_previous_node() {
    let expected = AST::Concat(vec![
        AST::Plus(Box::new(AST::Char('a'))),
        AST::Question(Box::new(AST::Dot)),
        AST::Star(Box::new(AST::Char('c'))),
    ]);
    assert_eq!(parse("a+.?c*").unwrap(), expected);
}

#[test]
fn groups_nest_and_empty_groups_vanish() {
    let group = AST::Or(Box::new(chars("b")), Box::new(chars("c")));
    let expected = AST::Concat(vec![AST::Char('a'), AST::Star(Box::new(group)), AST::Char('d')]);
    assert_eq!(parse("a(b|c)*()d").unwrap(), expected);
}

#[test]
fn empty_group_before_star_leaves_nothing_to_repeat() {
    assert_eq!(parse("()*").unwrap_err(), ParseError::NoPrev(2));
}
