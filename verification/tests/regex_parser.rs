use fsm::error::RegexError;
use fsm::regex_parser::{parse, Expression};

fn lit(c: char) -> Box<Expression> {
    Box::new(Expression::Literal(c))
}

fn eps() -> Box<Expression> {
    Box::new(Expression::Epsilon)
}

fn concat(left: Box<Expression>, right: Box<Expression>) -> Box<Expression> {
    Box::new(Expression::Concat(left, right))
}

fn alt(left: Box<Expression>, right: Box<Expression>) -> Box<Expression> {
    Box::new(Expression::Alternate(left, right))
}

fn star(expr: Box<Expression>) -> Box<Expression> {
    Box::new(Expression::Star(expr))
}

#[test]
fn test_parse_literal() {
    let expr = parse("a").unwrap();
    assert_eq!(*lit('a'), expr);
}

#[test]
fn test_parse_concatenation() {
    let expr = parse("ab").unwrap();
    assert_eq!(*concat(lit('a'), lit('b')), expr);
}

#[test]
fn test_parse_alternation() {
    let expr = parse("a|b").unwrap();
    assert_eq!(*alt(lit('a'), lit('b')), expr);
}

#[test]
fn test_parse_kleene_star() {
    let expr = parse("a*").unwrap();
    assert_eq!(*star(lit('a')), expr);
}

#[test]
fn test_parse_grouping() {
    let expr = parse("(a|b)*").unwrap();
    let inner = alt(lit('a'), lit('b'));
    assert_eq!(*star(inner), expr);
}

#[test]
fn test_parse_plus() {
    let expr = parse("a+").unwrap();
    let expected = concat(lit('a'), star(lit('a')));
    assert_eq!(*expected, expr);
}

#[test]
fn test_parse_optional() {
    let expr = parse("a?").unwrap();
    let expected = alt(lit('a'), eps());
    assert_eq!(*expected, expr);
}

#[test]
fn test_parse_complex_concatenation() {
    let expr = parse("a(b|c)d").unwrap();
    let b_or_c = alt(lit('b'), lit('c'));
    let a_then_rest = concat(lit('a'), b_or_c);
    let final_expr = concat(a_then_rest, lit('d'));
    assert_eq!(*final_expr, expr);
}

#[test]
fn test_parse_complex_alternation() {
    let expr = parse("ab|cd").unwrap();
    let ab = concat(lit('a'), lit('b'));
    let cd = concat(lit('c'), lit('d'));
    assert_eq!(*alt(ab, cd), expr);
}

#[test]
fn test_parse_nested_groups() {
    let expr = parse("(a(b|c)*)+").unwrap();
    let b_or_c_star = star(alt(lit('b'), lit('c')));
    let inner = concat(lit('a'), b_or_c_star);
    let expected = concat(inner.clone(), star(inner));
    assert_eq!(*expected, expr);
}

#[test]
fn test_parse_exponentiation() {
    let expr = parse("(ab)^3").unwrap();
    let ab = concat(lit('a'), lit('b'));
    let ab3 = concat(concat(ab.clone(), ab.clone()), ab);
    assert_eq!(*ab3, expr);
}

#[test]
fn parse_ignores_whitespace() {
    assert_eq!(parse(" a \t| b\n").unwrap(), *alt(lit('a'), lit('b')));
}

#[test]
fn parse_exponent_of_one_leaves_the_operand() {
    assert_eq!(parse("a^1").unwrap(), *lit('a'));
    assert_eq!(parse("a^01").unwrap(), *lit('a'));
    assert_eq!(parse("a^2").unwrap(), *concat(lit('a'), lit('a')));
}

#[test]
fn parse_postfix_operators_chain() {
    assert_eq!(parse("a*?").unwrap(), *alt(star(lit('a')), eps()));
    assert_eq!(
        parse("a^2*").unwrap(),
        *star(concat(lit('a'), lit('a')))
    );
}

#[test]
fn parse_rejects_malformed_patterns() {
    assert_eq!(parse(""), Err(RegexError::EmptyPattern));
    assert_eq!(parse("   "), Err(RegexError::UnexpectedEnd));
    assert_eq!(parse("(a"), Err(RegexError::MissingCloseParen));
    assert_eq!(parse("(a|"), Err(RegexError::UnexpectedEnd));
    assert_eq!(parse(")"), Err(RegexError::UnexpectedCloseParen));
    assert_eq!(parse("a|*"), Err(RegexError::UnexpectedOperator('*')));
    assert_eq!(parse("+a"), Err(RegexError::UnexpectedOperator('+')));
    assert_eq!(parse("a)"), Err(RegexError::TrailingInput));
    assert_eq!(parse("a^"), Err(RegexError::MissingExponent));
    assert_eq!(parse("a^b"), Err(RegexError::MissingExponent));
    assert_eq!(parse("a^0"), Err(RegexError::ZeroExponent));
    assert_eq!(parse("a^4294967296"), Err(RegexError::ExponentTooLarge));
    assert_eq!(
        parse("a^99999999999999999999999999"),
        Err(RegexError::ExponentTooLarge)
    );
}
