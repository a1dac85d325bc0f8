use solver::all_permutations;
use solver::parse;
use solver::Connective;

fn strings(names: &[&str]) -> Vec<String> {
    names.iter().map(|n| n.to_string()).collect()
}

#[test]
fn table_of_an_implication() {
    let table = parse("a > b").unwrap().generate_table();
    assert_eq!(table.headers, strings(&["a", "b", "a → b"]));
    assert_eq!(
        table.rows,
        vec![
            vec![true, true, true],
            vec![true, false, false],
            vec![false, true, true],
            vec![false, false, true],
        ]
    );
}

#[test]
fn table_lists_parts_before_the_whole() {
    let table = parse("!(c & a)").unwrap().generate_table();
    assert_eq!(table.headers, strings(&["c", "a", "c ∧ a", "¬(c ∧ a)"]));
    assert_eq!(
        table.rows,
        vec![
            vec![true, true, true, false],
            vec![true, false, false, true],
            vec![false, true, false, true],
            vec![false, false, false, true],
        ]
    );
}

#[test]
fn table_without_variables_has_one_row() {
    let table = parse(r#"\x P(x)"#).unwrap().generate_table();
    assert_eq!(table.headers, strings(&["∀x P(x)"]));
    assert_eq!(table.rows, vec![vec![false]]);
}

#[test]
fn table_of_three_variables_has_eight_rows() {
    let table = parse("a & b > c").unwrap().generate_table();
    assert_eq!(table.headers, strings(&["a", "b", "c", "a ∧ b", "a ∧ b → c"]));
    assert_eq!(table.rows.len(), 8);
    assert_eq!(table.rows[0], vec![true, true, true, true, true]);
    assert_eq!(table.rows[1], vec![true, true, false, true, false]);
    assert_eq!(table.rows[2], vec![true, false, true, false, true]);
    assert_eq!(table.rows[7], vec![false, false, false, false, true]);
}

#[test]
fn latex_table_headers_are_markup() {
    let table = parse("a > b").unwrap().generate_table_latex();
    assert_eq!(table.headers, strings(&["a", "b", "a \\to b"]));
    assert_eq!(table.rows.len(), 4);
}

#[test]
fn generic_table_takes_any_header_writer() {
    let table = parse("a | b").unwrap().generate_table_generic(|p: &Connective| format!("<{}>", p.pretty()));
    assert_eq!(table.headers, strings(&["a", "b", "<a ∨ b>"]));
    assert_eq!(table.rows[3], vec![false, false, false]);
}

#[test]
fn permutations_put_the_first_variable_last_and_vary_it_fastest() {
    let variables = strings(&["a", "b"]);
    let permutations = all_permutations(&variables);
    assert_eq!(permutations.len(), 4);
    let listed: Vec<Vec<(String, bool)>> = permutations
        .iter()
        .map(|p| p.iter().map(|(k, v)| (k.clone(), *v)).collect())
        .collect();
    let entry = |b: bool, a: bool| vec![("b".to_string(), b), ("a".to_string(), a)];
    assert_eq!(
        listed,
        vec![entry(true, true), entry(true, false), entry(false, true), entry(false, false)]
    );
}

#[test]
fn permutations_of_nothing_are_one_empty_assignment() {
    let permutations = all_permutations(&[]);
    assert_eq!(permutations.len(), 1);
    assert!(permutations[0].is_empty());
}

#[test]
fn permutations_of_a_repeated_variable_keep_one_entry() {
    let variables = strings(&["a", "a"]);
    let permutations = all_permutations(&variables);
    assert_eq!(permutations.len(), 4);
    let values: Vec<Vec<bool>> =
        permutations.iter().map(|p| p.values().cloned().collect()).collect();
    assert_eq!(values, vec![vec![true], vec![false], vec![true], vec![false]]);
}

#[test]
fn latex_tabular_of_a_negation() {
    let text = parse("!a").unwrap().table();
    let expected = "\\begin{tabular}{|c|c|} \\hline\n\t$a$ & $\\neg a$ \\\\ \\hline\n\tT & F \\\\ \\hline\n\tF & T \\\\ \\hline\n\\end{tabular}";
    assert_eq!(text, expected);
}
