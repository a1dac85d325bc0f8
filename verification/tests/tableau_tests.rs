use solver::parse;
use solver::tableau::Tableau;
use solver::Connective;

fn run(src: &str, expect: bool) -> Tableau {
    let con = parse(src).unwrap();
    Tableau::new(vec![(con, expect)])
}

fn leaves(tableau: &Tableau) -> Vec<usize> {
    let mut inner = vec![false; tableau.node_count()];
    for i in 0..tableau.edge_count() {
        let (from, _, _) = tableau.edge(i).unwrap();
        inner[from] = true;
    }
    (0..tableau.node_count()).filter(|n| !inner[*n]).collect()
}

fn closed(tableau: &Tableau, node: usize) -> bool {
    tableau.node_closed(node).unwrap()
}

fn holds(tableau: &Tableau, node: usize, formula: &Connective, expect: bool) -> bool {
    tableau
        .node_facts(node)
        .unwrap()
        .iter()
        .any(|fact| fact.formula == *formula && fact.expect == expect)
}

fn path(tableau: &Tableau, node: usize) -> Vec<usize> {
    let mut nodes = vec![node];
    let mut at = node;
    while at != 0 {
        let (from, _, _) = tableau.edge(at - 1).unwrap();
        nodes.push(from);
        at = from;
    }
    nodes
}

fn names(formula: &Connective, found: &mut Vec<String>) {
    match formula {
        Connective::Var(x) => found.push(x.clone()),
        Connective::Predicate(_, args) => found.extend(args.iter().cloned()),
        Connective::Not(a) => names(a, found),
        Connective::And(a, b)
        | Connective::Or(a, b)
        | Connective::Implicate(a, b)
        | Connective::Biimplicate(a, b) => {
            names(a, found);
            names(b, found);
        }
        Connective::ForAll(x, a) | Connective::Exists(x, a) => {
            found.push(x.clone());
            names(a, found);
        }
    }
}

fn check_shape(tableau: &Tableau) {
    assert_eq!(tableau.edge_count() + 1, tableau.node_count());
    let mut ids: Vec<usize> = Vec::new();
    for n in 0..tableau.node_count() {
        for fact in tableau.node_facts(n).unwrap() {
            ids.push(fact.id);
        }
    }
    ids.sort();
    assert_eq!(ids, (0..tableau.fact_count()).collect::<Vec<usize>>());
    for i in 0..tableau.edge_count() {
        let (from, fact, to) = tableau.edge(i).unwrap();
        assert!(from < to);
        assert_eq!(to, i + 1);
        assert!(to < tableau.node_count());
        assert!(ids.contains(&fact));
    }
    for i in 0..tableau.edge_count() {
        let (from, fact, _) = tableau.edge(i).unwrap();
        assert!(path(tableau, from)
            .iter()
            .any(|a| tableau.node_facts(*a).unwrap().iter().any(|f| f.id == fact)));
    }
    for n in 0..tableau.node_count() {
        if closed(tableau, n) {
            let mut seen: Vec<(Connective, bool)> = Vec::new();
            for a in path(tableau, n) {
                for fact in tableau.node_facts(a).unwrap() {
                    seen.push((fact.formula.clone(), fact.expect));
                }
            }
            assert!(seen.iter().any(|(f, b)| seen.iter().any(|(g, c)| f == g && b != c)));
            assert!(tableau
                .node_facts(n)
                .unwrap()
                .iter()
                .any(|fact| seen.iter().any(|(g, c)| fact.formula == *g && fact.expect != *c)));
            assert!(leaves(tableau).contains(&n));
        }
    }
    let mut given: Vec<String> = Vec::new();
    for fact in tableau.node_facts(0).unwrap() {
        names(&fact.formula, &mut given);
    }
    let fresh: Vec<String> = (0..tableau.fresh_constants()).map(|k| format!("C{}", k)).collect();
    for n in 0..tableau.node_count() {
        for fact in tableau.node_facts(n).unwrap() {
            let mut found: Vec<String> = Vec::new();
            names(&fact.formula, &mut found);
            assert!(found.iter().all(|x| given.contains(x) || fresh.contains(x)));
        }
    }
    assert!(tableau.steps() <= 300);
    assert!(tableau.fresh_constants() <= 100);
    assert!(tableau.node_count() <= 201);
}

#[test]
fn simple_or() {
    println!(
        "{}",
        run(
            "(b ∨ h) ∧ (h → ¬b) ∧ (¬h → ¬a) ∧ (l → k) ∧ (k → ¬b ∧ ¬a)",
            false
        )
        .generate_dot()
    );
}

#[test]
fn other_test() {
    let a = parse(r#"(\x(\y(P(x,y) > P(y,x))))"#).unwrap();
    println!("{}", Tableau::new(vec![(a, true)]).generate_dot());
}

#[test]
fn contradiction_closes_the_only_branch() {
    let tableau = run("a ∧ ¬a", true);
    check_shape(&tableau);
    assert_eq!(tableau.node_count(), 3);
    assert_eq!(leaves(&tableau), vec![2]);
    assert!(closed(&tableau, 2));
    assert!(!closed(&tableau, 0));
    assert!(!closed(&tableau, 1));
    assert!(holds(&tableau, 1, &parse("a").unwrap(), true));
    assert!(holds(&tableau, 2, &parse("a").unwrap(), false));
    assert_eq!(tableau.steps(), 4);
    let expected = "digraph A {\n\t0 [label=\"[1] a ∧ ¬a: true\"];\n\t1 [label=\"[2] a: true\\n[3] ¬a: true\"];\n\t2 [label=\"[4] a: false\\nx\"];\n\n\t0 -> 1 [label=\"1\"];\n\t1 -> 2 [label=\"3\"];\t\n}";
    assert_eq!(tableau.generate_dot(), expected);
}

#[test]
fn disjunction_leaves_two_open_branches() {
    let tableau = run("a ∨ b", true);
    check_shape(&tableau);
    assert_eq!(tableau.node_count(), 3);
    assert_eq!(leaves(&tableau), vec![1, 2]);
    assert!(!closed(&tableau, 1));
    assert!(!closed(&tableau, 2));
    assert!(holds(&tableau, 1, &parse("a").unwrap(), true));
    assert!(holds(&tableau, 2, &parse("b").unwrap(), true));
    assert_eq!(tableau.edge(0), Some((0, 0, 1)));
    assert_eq!(tableau.edge(1), Some((0, 0, 2)));
    assert_eq!(tableau.edge(2), None);
}

#[test]
fn entailment_closes_every_branch() {
    let a = parse("(p & q) > r").unwrap();
    let b = parse("p > r").unwrap();
    let c = parse("q > r").unwrap();
    let tableau = Tableau::new(vec![(a, true), (b, false), (c, false)]);
    check_shape(&tableau);
    let ends = leaves(&tableau);
    assert!(!ends.is_empty());
    assert!(ends.iter().all(|n| closed(&tableau, *n)));
    assert_eq!(tableau.node_facts(0).unwrap().len(), 3);
}

#[test]
fn usage_example_closes_every_branch() {
    let a = parse("(p & q) > r").unwrap();
    let b = parse("!(p > r)").unwrap();
    let c = parse("q > r").unwrap();
    let tableau = Tableau::new(vec![(a, true), (b, true), (c, false)]);
    check_shape(&tableau);
    assert!(leaves(&tableau).iter().all(|n| closed(&tableau, *n)));
}

#[test]
fn satisfiable_formula_keeps_an_open_branch() {
    let tableau = run("(b ∨ h) ∧ (h → ¬b) ∧ (¬h → ¬a) ∧ (l → k) ∧ (k → ¬b ∧ ¬a)", false);
    check_shape(&tableau);
    assert!(leaves(&tableau).iter().any(|n| !closed(&tableau, *n)));
}

#[test]
fn universal_without_constants_stays_at_the_root() {
    let tableau = run(r#"\x \y (P(x,y) > P(y,x))"#, true);
    check_shape(&tableau);
    assert_eq!(tableau.node_count(), 1);
    assert_eq!(tableau.edge_count(), 0);
    assert!(!closed(&tableau, 0));
    assert_eq!(tableau.fresh_constants(), 0);
    assert_eq!(
        tableau.generate_dot(),
        "digraph A {\n\t0 [label=\"[1] ∀x (∀y (P(x, y) → P(y, x))): true\"];\n\n\t\t\n}"
    );
}

#[test]
fn quantifier_shift_closes_with_fresh_constants() {
    let tableau = run(r#"(.x \y P(x,y)) > (\y .x P(x,y))"#, false);
    check_shape(&tableau);
    let ends = leaves(&tableau);
    assert_eq!(ends.len(), 1);
    assert!(closed(&tableau, ends[0]));
    assert_eq!(tableau.fresh_constants(), 2);
    let c0 = Connective::Predicate("P".to_string(), vec!["C0".to_string(), "C1".to_string()]);
    assert!(path(&tableau, ends[0]).iter().any(|n| holds(&tableau, *n, &c0, true)));
    assert!(holds(&tableau, ends[0], &c0, false));
}

#[test]
fn free_names_are_used_for_instantiation() {
    let a = parse(r#"\x P(x)"#).unwrap();
    let b = parse("P(c)").unwrap();
    let tableau = Tableau::new(vec![(a, true), (b, false)]);
    check_shape(&tableau);
    let ends = leaves(&tableau);
    assert_eq!(ends.len(), 1);
    assert!(closed(&tableau, ends[0]));
    assert_eq!(tableau.fresh_constants(), 0);
}

#[test]
fn root_with_both_signs_closes_at_once() {
    let a = parse("a").unwrap();
    let tableau = Tableau::new(vec![(a.clone(), true), (a, false)]);
    check_shape(&tableau);
    assert_eq!(tableau.node_count(), 1);
    assert!(closed(&tableau, 0));
    assert_eq!(tableau.steps(), 1);
}

#[test]
fn empty_start_gives_an_empty_root() {
    let tableau = Tableau::new(vec![]);
    check_shape(&tableau);
    assert_eq!(tableau.node_count(), 1);
    assert_eq!(tableau.fact_count(), 0);
    assert_eq!(tableau.node_facts(0).unwrap().len(), 0);
    assert_eq!(tableau.node_facts(1).map(|f| f.len()), None);
    assert_eq!(tableau.node_closed(1), None);
    assert_eq!(tableau.generate_dot(), "digraph A {\n\t0 [label=\"\"];\n\n\t\t\n}");
}

#[test]
fn a_repeated_start_formula_is_queued_once() {
    let a = parse("a | b").unwrap();
    let tableau = Tableau::new(vec![(a.clone(), true), (a, true)]);
    check_shape(&tableau);
    assert_eq!(tableau.node_count(), 3);
}

#[test]
fn start_with_more_facts_than_the_limit_is_not_searched() {
    let mut start = Vec::new();
    for _ in 0..101 {
        start.push((parse("a & b").unwrap(), true));
    }
    let tableau = Tableau::new(start);
    check_shape(&tableau);
    assert_eq!(tableau.node_count(), 1);
    assert_eq!(tableau.fact_count(), 101);
    assert_eq!(tableau.steps(), 0);
}

#[test]
fn search_stops_at_the_fact_limit() {
    let mut text = String::from("a");
    for _ in 0..150 {
        text = format!("({}) | a", text);
    }
    let tableau = run(&text, true);
    check_shape(&tableau);
    assert!(tableau.fact_count() > 100);
    assert!(tableau.fact_count() <= 301);
    assert!(tableau.steps() < 300);
}

#[test]
fn search_stops_at_the_constant_limit() {
    let tableau = run(r#"\x .y P(x, y)"#, true);
    check_shape(&tableau);
    assert_eq!(tableau.node_count(), 1);
    let a = parse(r#"\x .y P(x, y)"#).unwrap();
    let b = parse("Q(c)").unwrap();
    let tableau = Tableau::new(vec![(a, true), (b, true)]);
    check_shape(&tableau);
    assert!(tableau.fresh_constants() <= 100);
    assert!(tableau.fresh_constants() > 1);
    assert!(leaves(&tableau).iter().all(|n| !closed(&tableau, *n)));
}

#[test]
fn dot_graph_of_a_single_formula() {
    let text = parse("a | b").unwrap().tableau_dot_graph(true);
    let expected = "digraph A {\n\t0 [label=\"[1] a ∨ b: true\"];\n\t1 [label=\"[2] a: true\"];\n\t2 [label=\"[3] b: true\"];\n\n\t0 -> 1 [label=\"1\"];\n\t0 -> 2 [label=\"1\"];\t\n}";
    assert_eq!(text, expected);
}

#[test]
fn biconditional_branches_on_both_signs() {
    let tableau = run("a = b", true);
    check_shape(&tableau);
    assert_eq!(tableau.node_count(), 3);
    assert!(holds(&tableau, 1, &parse("a").unwrap(), false));
    assert!(holds(&tableau, 1, &parse("b").unwrap(), false));
    assert!(holds(&tableau, 2, &parse("a").unwrap(), true));
    assert!(holds(&tableau, 2, &parse("b").unwrap(), true));
    let tableau = run("a = b", false);
    assert!(holds(&tableau, 1, &parse("a").unwrap(), false));
    assert!(holds(&tableau, 1, &parse("b").unwrap(), true));
    assert!(holds(&tableau, 2, &parse("a").unwrap(), true));
    assert!(holds(&tableau, 2, &parse("b").unwrap(), false));
}

#[test]
fn contradicting_work_is_taken_first() {
    let a = parse("a").unwrap();
    let b = parse("c | d").unwrap();
    let c = parse("a > e").unwrap();
    let tableau = Tableau::new(vec![(a, true), (b, true), (c, true)]);
    check_shape(&tableau);
    assert_eq!(tableau.edge(0), Some((0, 2, 1)));
    assert!(closed(&tableau, 1));
}

#[test]
fn dot_numbers_have_several_digits() {
    let mut start = Vec::new();
    for name in ["a", "b", "c", "d", "e", "f", "g", "h", "i", "j", "k", "l"] {
        start.push((parse(name).unwrap(), true));
    }
    let text = Tableau::new(start).generate_dot();
    assert!(text.starts_with("digraph A {\n\t0 [label=\"[1] a: true\\n[2] b: true"));
    assert!(text.contains("\\n[9] i: true\\n[10] j: true\\n[11] k: true\\n[12] l: true\"];"));
}

#[test]
fn a_repeater_is_used_on_each_name_once() {
    let a = parse(r#"\x P(x)"#).unwrap();
    let b = parse("Q(c, d)").unwrap();
    let tableau = Tableau::new(vec![(a, true), (b, true)]);
    check_shape(&tableau);
    assert_eq!(tableau.node_count(), 3);
    assert_eq!(leaves(&tableau), vec![2]);
    let on_c = Connective::Predicate("P".to_string(), vec!["c".to_string()]);
    let on_d = Connective::Predicate("P".to_string(), vec!["d".to_string()]);
    assert!(holds(&tableau, 1, &on_c, true));
    assert!(holds(&tableau, 2, &on_d, true));
    assert_eq!(tableau.edge(0), Some((0, 0, 1)));
    assert_eq!(tableau.edge(1), Some((1, 0, 2)));
}

#[test]
fn fresh_constants_are_numbered_from_zero() {
    let a = parse(".x .y P(x, y)").unwrap();
    let tableau = Tableau::new(vec![(a, true)]);
    check_shape(&tableau);
    assert_eq!(tableau.fresh_constants(), 2);
    let named = Connective::Predicate("P".to_string(), vec!["C0".to_string(), "C1".to_string()]);
    assert!(holds(&tableau, 2, &named, true));
    let text = tableau.generate_dot();
    assert!(text.contains("2 [label=\"[3] P(C0, C1): true\"];"));
}

#[test]
fn a_tableau_can_be_copied() {
    let tableau = run("a ∨ b", true);
    let copy = tableau.clone();
    assert_eq!(copy.generate_dot(), tableau.generate_dot());
}

#[test]
fn witnesses_are_named_below_the_count_of_fresh_constants() {
    let a = parse(r#"\x .y P(x, y)"#).unwrap();
    let b = parse("Q(c)").unwrap();
    let tableau = Tableau::new(vec![(a, true), (b, true)]);
    check_shape(&tableau);
    let count = tableau.fresh_constants();
    assert!(count > 1);
    let last = format!("C{}", count - 1);
    let beyond = format!("C{}", count);
    let mut found: Vec<String> = Vec::new();
    for n in 0..tableau.node_count() {
        for fact in tableau.node_facts(n).unwrap() {
            names(&fact.formula, &mut found);
        }
    }
    assert!(found.contains(&last));
    assert!(!found.contains(&beyond));
}
