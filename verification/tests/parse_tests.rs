use solver::parse;
use solver::parse::{lex, Token};
use solver::Connective;
use solver::ParseError;

fn var(name: &str) -> Connective {
    Connective::Var(name.to_string())
}

fn not(a: Connective) -> Connective {
    Connective::Not(Box::new(a))
}

fn and(a: Connective, b: Connective) -> Connective {
    Connective::And(Box::new(a), Box::new(b))
}

fn or(a: Connective, b: Connective) -> Connective {
    Connective::Or(Box::new(a), Box::new(b))
}

fn implies(a: Connective, b: Connective) -> Connective {
    Connective::Implicate(Box::new(a), Box::new(b))
}

fn iff(a: Connective, b: Connective) -> Connective {
    Connective::Biimplicate(Box::new(a), Box::new(b))
}

fn predicate(name: &str, args: &[&str]) -> Connective {
    Connective::Predicate(name.to_string(), args.iter().map(|a| a.to_string()).collect())
}

#[test]
fn out_of_bounds_index() {
    assert!(parse(".c (.a a > b)").is_ok())
}

#[test]
fn quantifier_binds_the_innermost_level_only() {
    let parsed = parse(".c (.a a > b)").unwrap();
    let expected = Connective::Exists(
        "c".to_string(),
        Box::new(implies(Connective::Exists("a".to_string(), Box::new(var("a"))), var("b"))),
    );
    assert_eq!(parsed, expected);
}

#[test]
fn parses_right_associative_levels() {
    let parsed = parse("a & b > c | d > e").unwrap();
    let expected = implies(and(var("a"), var("b")), implies(or(var("c"), var("d")), var("e")));
    assert_eq!(parsed, expected);
}

#[test]
fn conjunction_and_disjunction_share_a_level() {
    assert_eq!(parse("a & b | c").unwrap(), and(var("a"), or(var("b"), var("c"))));
    assert_eq!(parse("a | b & c").unwrap(), or(var("a"), and(var("b"), var("c"))));
}

#[test]
fn every_spelling_of_an_operator_is_read() {
    assert_eq!(parse("¬a").unwrap(), parse("!a").unwrap());
    assert_eq!(parse("a ∧ b").unwrap(), parse("a & b").unwrap());
    assert_eq!(parse("a ∪ b").unwrap(), and(var("a"), var("b")));
    assert_eq!(parse("a ∨ b").unwrap(), parse("a | b").unwrap());
    assert_eq!(parse("a ∩ b").unwrap(), or(var("a"), var("b")));
    assert_eq!(parse("a → b").unwrap(), parse("a > b").unwrap());
    assert_eq!(parse("a ↔ b").unwrap(), iff(var("a"), var("b")));
    assert_eq!(parse("a = b").unwrap(), iff(var("a"), var("b")));
}

#[test]
fn parses_predicates_and_quantifiers() {
    let parsed = parse(r#"\x .y P(x, y, z)"#).unwrap();
    let expected = Connective::ForAll(
        "x".to_string(),
        Box::new(Connective::Exists("y".to_string(), Box::new(predicate("P", &["x", "y", "z"])))),
    );
    assert_eq!(parsed, expected);
}

#[test]
fn what_follows_the_formula_is_ignored() {
    assert_eq!(parse("a b").unwrap(), var("a"));
    assert_eq!(parse("(a) )").unwrap(), var("a"));
}

#[test]
fn lexer_skips_spaces_and_names_other_characters() {
    let tokens = lex(" a,/ Z");
    assert_eq!(tokens.len(), 4);
    assert!(matches!(&tokens[0], Token::Var(name) if name == "a"));
    assert!(matches!(&tokens[1], Token::Comma));
    assert!(matches!(&tokens[2], Token::Slash));
    assert!(matches!(&tokens[3], Token::Var(name) if name == "Z"));
}

#[test]
fn empty_text_is_an_unexpected_end() {
    assert!(matches!(parse(""), Err(ParseError::UnexpectedToken(None))));
    assert!(matches!(parse("   "), Err(ParseError::UnexpectedToken(None))));
    assert!(matches!(parse("a &"), Err(ParseError::UnexpectedToken(None))));
}

#[test]
fn operator_where_a_formula_starts_is_unexpected() {
    assert!(matches!(parse("& a"), Err(ParseError::UnexpectedToken(Some(Token::And)))));
    assert!(matches!(parse("a > )"), Err(ParseError::UnexpectedToken(Some(Token::CloseParen)))));
    assert!(matches!(parse(","), Err(ParseError::UnexpectedToken(Some(Token::Comma)))));
}

#[test]
fn quantifier_needs_a_name() {
    assert!(matches!(parse(r#"\(a)"#), Err(ParseError::UnexpectedToken(Some(Token::OpenParen)))));
    assert!(matches!(parse("."), Err(ParseError::UnexpectedToken(Some(Token::Exists)))));
    assert!(matches!(parse(r#"\"#), Err(ParseError::UnexpectedToken(Some(Token::ForAll)))));
}

#[test]
fn unclosed_bracket_is_reported() {
    assert!(matches!(parse("(a & b"), Err(ParseError::UncosedParen(None))));
    assert!(matches!(parse("(a b)"), Err(ParseError::UncosedParen(Some(Token::Var(name)))) if name == "b"));
}

#[test]
fn broken_argument_list_is_reported() {
    assert!(matches!(parse("P(x"), Err(ParseError::InvalidArgumentList(None))));
    assert!(matches!(parse("P(x y)"), Err(ParseError::InvalidArgumentList(Some(Token::Var(name)))) if name == "y"));
    assert!(matches!(parse("P(x,)"), Err(ParseError::InvalidArgumentList(Some(Token::Comma)))));
}

#[test]
fn predicate_without_arguments_is_a_name() {
    assert_eq!(parse("P()").unwrap(), var("P"));
}

#[test]
fn pretty_brackets_by_precedence() {
    let f = parse("(a > b) > !(c & d)").unwrap();
    assert_eq!(f.pretty(), "(a → b) → ¬(c ∧ d)");
    assert_eq!(f.pretty_latex(), "(a \\to b) \\to \\neg (c \\land d)");
}

#[test]
fn pretty_then_parse_gives_the_formula_back() {
    let formulas = vec![
        var("a"),
        not(not(var("a"))),
        and(var("a"), and(var("b"), var("c"))),
        or(var("a"), and(var("b"), var("c"))),
        implies(and(var("a"), var("b")), or(var("c"), var("d"))),
        implies(implies(var("a"), var("b")), iff(var("c"), var("d"))),
        not(implies(var("a"), predicate("P", &["x", "y"]))),
        and(not(var("a")), or(var("b"), not(var("c")))),
    ];
    for f in formulas {
        assert_eq!(parse(&f.pretty()).unwrap(), f);
    }
}

#[test]
fn pretty_then_parse_regroups_a_left_nested_conjunction() {
    let f = and(and(var("a"), var("b")), var("c"));
    assert_eq!(f.pretty(), "a ∧ b ∧ c");
    assert_eq!(parse(&f.pretty()).unwrap(), and(var("a"), and(var("b"), var("c"))));
}
