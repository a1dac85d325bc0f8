use indexmap::IndexMap;
use solver::parse;
use solver::Connective;

fn var(name: &str) -> Connective {
    Connective::Var(name.to_string())
}

fn predicate(name: &str, args: &[&str]) -> Connective {
    Connective::Predicate(name.to_string(), args.iter().map(|a| a.to_string()).collect())
}

fn for_all(name: &str, body: Connective) -> Connective {
    Connective::ForAll(name.to_string(), Box::new(body))
}

fn there_is(name: &str, body: Connective) -> Connective {
    Connective::Exists(name.to_string(), Box::new(body))
}

fn and(a: Connective, b: Connective) -> Connective {
    Connective::And(Box::new(a), Box::new(b))
}

fn strings(names: &[&str]) -> Vec<String> {
    names.iter().map(|n| n.to_string()).collect()
}

fn assignment(entries: &[(&str, bool)]) -> IndexMap<String, bool> {
    let mut map = IndexMap::new();
    for (name, value) in entries {
        map.insert(name.to_string(), *value);
    }
    map
}

#[test]
fn free_variables_come_in_reading_order_once() {
    let f = parse("(b | a) & (c > b) & P(d, a, e)").unwrap();
    assert_eq!(f.all_variables(), strings(&["b", "a", "c", "d", "e"]));
}

#[test]
fn bound_names_are_not_free_inside_their_quantifier() {
    let f = parse(r#"x & (\x (x | y)) & .y P(x, y, z)"#).unwrap();
    assert_eq!(f.all_variables(), strings(&["x", "y", "z"]));
    let g = parse(r#"\x .y P(x, y, z)"#).unwrap();
    assert_eq!(g.all_variables(), strings(&["z"]));
    let h = parse(r#"(\x x) & x"#).unwrap();
    assert_eq!(h.all_variables(), strings(&["x"]));
}

#[test]
fn predicate_name_is_no_variable() {
    assert_eq!(predicate("P", &["x"]).all_variables(), strings(&["x"]));
    assert_eq!(var("P").all_variables(), strings(&["P"]));
}

#[test]
fn atomics_come_in_reading_order_once() {
    let f = parse("(b | P(x)) & (b > a) & P(x) & P(y)").unwrap();
    assert_eq!(
        f.all_atomics(),
        vec![var("b"), predicate("P", &["x"]), var("a"), predicate("P", &["y"])]
    );
}

#[test]
fn atomics_leave_out_bound_variables_and_keep_predicates() {
    let f = parse(r#"\x (x | y | P(x))"#).unwrap();
    assert_eq!(f.all_atomics(), vec![var("y"), predicate("P", &["x"])]);
}

#[test]
fn sub_connectives_list_parts_before_the_whole() {
    let f = parse("(a & b) > (c | a)").unwrap();
    let subs = f.all_sub_connectives(true);
    assert_eq!(
        subs,
        vec![parse("a & b").unwrap(), parse("c | a").unwrap(), f.clone()]
    );
}

#[test]
fn negation_is_listed_only_at_the_top() {
    let f = parse("!(a & !b)").unwrap();
    assert_eq!(f.all_sub_connectives(true), vec![parse("a & !b").unwrap(), f.clone()]);
    assert_eq!(f.all_sub_connectives(false), vec![parse("a & !b").unwrap()]);
    let g = parse("!!a").unwrap();
    assert_eq!(g.all_sub_connectives(true), vec![g.clone()]);
    assert_eq!(var("a").all_sub_connectives(true), Vec::<Connective>::new());
}

#[test]
fn sub_connectives_descend_below_quantifiers() {
    let f = parse(r#"\x (P(x) > a)"#).unwrap();
    assert_eq!(f.all_sub_connectives(true), vec![parse("P(x) > a").unwrap(), f.clone()]);
}

#[test]
fn solve_follows_the_truth_tables() {
    let cases = [(true, true), (true, false), (false, true), (false, false)];
    for (a, b) in cases {
        let values = assignment(&[("a", a), ("b", b)]);
        assert_eq!(parse("!a").unwrap().solve(&values), !a);
        assert_eq!(parse("a & b").unwrap().solve(&values), a && b);
        assert_eq!(parse("a | b").unwrap().solve(&values), a || b);
        assert_eq!(parse("a > b").unwrap().solve(&values), !a || b);
        assert_eq!(parse("a = b").unwrap().solve(&values), a == b);
    }
}

#[test]
fn solve_counts_what_it_cannot_value_as_false() {
    let values = assignment(&[("a", true), ("x", true)]);
    assert!(!var("b").solve(&values));
    assert!(!predicate("P", &["x"]).solve(&values));
    assert!(!for_all("x", var("a")).solve(&values));
    assert!(!there_is("x", var("a")).solve(&values));
    assert!(parse(r#"!(\x a)"#).unwrap().solve(&values));
}

#[test]
fn substitution_replaces_free_occurrences_only() {
    let f = parse(r#"x & P(x, y, x) & (\x (x | y)) & (.z (x > z))"#).unwrap();
    let expected = parse(r#"c & P(c, y, c) & (\x (x | y)) & (.z (c > z))"#).unwrap();
    assert_eq!(f.substitude("x", "c"), expected);
}

#[test]
fn substitution_leaves_predicate_names_and_binders() {
    let f = and(predicate("x", &["x"]), for_all("y", there_is("x", var("x"))));
    let expected = and(predicate("x", &["c"]), for_all("y", there_is("x", var("x"))));
    assert_eq!(f.substitude("x", "c"), expected);
}

#[test]
fn substitution_with_a_fresh_name_can_be_undone() {
    let f = parse(r#"x & (\y (P(x, y) > .x x)) & z"#).unwrap();
    assert_eq!(f.substitude("x", "n").substitude("n", "x"), f);
    assert_ne!(f.substitude("x", "n"), f);
}

#[test]
fn substitution_of_an_absent_name_changes_nothing() {
    let f = parse(r#"\x P(x, y)"#).unwrap();
    assert_eq!(f.substitude("x", "c"), f);
    assert_eq!(f.substitude("q", "c"), f);
}

#[test]
fn classification_of_the_outermost_operator() {
    let samples = [
        ("a", true, 0, true),
        ("P(x)", true, 0, true),
        (r#"\x a"#, false, 1, false),
        (".x a", false, 1, false),
        ("!a", false, 2, true),
        ("a & b", false, 3, true),
        ("a | b", false, 4, true),
        ("a > b", false, 5, false),
        ("a = b", false, 5, false),
    ];
    for (text, atomic, precedence, associative) in samples {
        let f = parse(text).unwrap();
        assert_eq!(f.is_atomic(), atomic);
        assert_eq!(f.precedence(), precedence);
        assert_eq!(f.associative(), associative);
    }
}

#[test]
fn symbols_of_the_operators() {
    let samples = [
        ("a", "", ""),
        ("!a", "¬", "\\neg"),
        ("a & b", "∧", "\\land"),
        ("a | b", "∨", "\\lor"),
        ("a > b", "→", "\\to"),
        ("a = b", "↔", "\\leftrightarrow"),
        (r#"\x a"#, "∀", "\\forall"),
        (".x a", "∃", "\\exists"),
    ];
    for (text, plain, latex) in samples {
        let f = parse(text).unwrap();
        assert_eq!(f.symbol(), plain);
        assert_eq!(f.latex_symbol(), latex);
    }
}

#[test]
fn pretty_prints_quantifiers_and_predicates() {
    let f = parse(r#"\x .y (P(x, y) > Q(y))"#).unwrap();
    assert_eq!(f.pretty(), "∀x (∃y (P(x, y) → Q(y)))");
    assert_eq!(f.pretty_latex(), "\\forallx (\\existsy (P(x, y) \\to Q(y)))");
}

#[test]
fn pretty_brackets_equal_precedence_only_where_needed() {
    assert_eq!(parse("a & (b & c)").unwrap().pretty(), "a ∧ b ∧ c");
    assert_eq!(parse("a | (b & c)").unwrap().pretty(), "a ∨ b ∧ c");
    assert_eq!(parse("a & (b | c)").unwrap().pretty(), "a ∧ (b ∨ c)");
    assert_eq!(parse("a > (b > c)").unwrap().pretty(), "a → (b → c)");
    assert_eq!(parse("(a = b) > c").unwrap().pretty(), "(a ↔ b) → c");
    assert_eq!(parse("!!a").unwrap().pretty(), "¬¬a");
    assert_eq!(parse("!(a > b)").unwrap().pretty(), "¬(a → b)");
    assert_eq!(parse(r#"!(\x a)"#).unwrap().pretty(), "¬∀x a");
    assert_eq!(parse(r#"\x (a & b)"#).unwrap().pretty(), "∀x (a ∧ b)");
    assert_eq!(parse("!a").unwrap().pretty_latex(), "\\neg a");
}

#[test]
fn equality_is_structural() {
    assert_eq!(parse("a & b").unwrap(), parse("(a) & (b)").unwrap());
    assert_ne!(parse("a & b").unwrap(), parse("b & a").unwrap());
    assert_ne!(predicate("P", &["x"]), predicate("P", &["x", "x"]));
    assert_ne!(for_all("x", var("a")), there_is("x", var("a")));
    assert!(parse("a > b").unwrap().same(&parse("a → b").unwrap()));
}
