//! Truth tables: every assignment of the free variables, with the value
//! of the formula and of its parts under each.

use crate::ast::{names_of, Connective, Formula, Name};
use crate::formula::{assignment_of, formulas_of, insert_all};
use crate::ordered::{
    assignment_clone, assignment_entries, assignment_insert, assignment_keys, assignment_new,
    assignment_values, position, put,
};
use crate::text::{chars_of, join, join_strings, push_char};
use indexmap::IndexMap;
use vstd::prelude::*;
use vstd::string::*;

verus! {

/// A truth table. The first cells of a row are the values of the
/// variables, in the order of the first headers; the others are the
/// values of the sub-formulas that the other headers name.
#[derive(Debug, Clone)]
pub struct Table {
    pub headers: Vec<String>,
    pub rows: Vec<Vec<bool>>,
}

/// The keys of a list of entries, in order.
pub open spec fn keys_of(entries: Seq<(Name, bool)>) -> Seq<Name> {
    Seq::new(entries.len(), |i: int| entries[i].0)
}

/// The values of a list of entries, in order.
pub open spec fn values_of(entries: Seq<(Name, bool)>) -> Seq<bool> {
    Seq::new(entries.len(), |i: int| entries[i].1)
}

/// All assignments of the variables, each a list of entries. The
/// assignments of the variables after the first come in their order, each
/// twice: with the first variable true, then with it false. The entry of a
/// new variable comes last, so that the first variable varies fastest and
/// stands last in each assignment.
pub open spec fn all_assignments(variables: Seq<Name>) -> Seq<Seq<(Name, bool)>>
    decreases variables.len(),
{
    if variables.len() == 0 {
        seq![Seq::empty()]
    } else {
        let rest = all_assignments(variables.drop_first());
        Seq::new(2 * rest.len(), |i: int| put(rest[i / 2], variables.first(), i % 2 == 0))
    }
}

/// The row of the table for one assignment: the values of the variables,
/// then the value of each sub-formula.
pub open spec fn table_row(parts: Seq<Formula>, entries: Seq<(Name, bool)>) -> Seq<bool> {
    values_of(entries) + Seq::new(parts.len(), |i: int| parts[i].eval(assignment_of(entries)))
}

/// The rows of the truth table of a formula: one for each assignment of
/// its free variables; the variable met last in reading varies fastest.
pub open spec fn table_rows(f: Formula) -> Seq<Seq<bool>> {
    let assignments = all_assignments(f.free_vars().reverse());
    Seq::new(assignments.len(), |i: int| table_row(f.sub_connectives(true), assignments[i]))
}

/// The plain texts of formulas.
pub open spec fn pretty_titles(parts: Seq<Formula>) -> Seq<Seq<char>> {
    Seq::new(parts.len(), |i: int| parts[i].pretty())
}

/// The LaTeX markups of formulas.
pub open spec fn latex_titles(parts: Seq<Formula>) -> Seq<Seq<char>> {
    Seq::new(parts.len(), |i: int| parts[i].pretty_latex())
}

/// Whether `title` is what `f` may write for some value of the formula `part`.
pub open spec fn titled<F: Fn(&Connective) -> String>(f: F, part: Formula, title: String) -> bool {
    exists|c: Connective| c@ == part && #[trigger] call_ensures(f, (&c,), title)
}

/// The rows that a sequence of vectors stands for.
pub open spec fn rows_of(rows: Seq<Vec<bool>>) -> Seq<Seq<bool>> {
    Seq::new(rows.len(), |i: int| rows[i]@)
}

/// A text with a tab before each of its lines.
pub open spec fn indented(text: Seq<char>) -> Seq<char>
    decreases text.len(),
{
    if text.len() == 0 {
        seq!['\t']
    } else if text.last() == '\n' {
        indented(text.drop_last()) + seq!['\n', '\t']
    } else {
        indented(text.drop_last()).push(text.last())
    }
}

/// `T` or `F`.
pub open spec fn truth_letter(b: bool) -> Seq<char> {
    if b {
        "T"@
    } else {
        "F"@
    }
}

/// The cells of a row, separated by ` & `.
pub open spec fn row_text(row: Seq<bool>) -> Seq<char> {
    join(Seq::new(row.len(), |i: int| truth_letter(row[i])), " & "@)
}

/// The table as a LaTeX `tabular`: a centred column for each header, the
/// headers in math mode, then the rows, with a rule after each line.
pub open spec fn latex_table(headers: Seq<Seq<char>>, rows: Seq<Seq<bool>>) -> Seq<char> {
    "\\begin{tabular}{|"@ + join(Seq::new(headers.len(), |i: int| "c"@), "|"@) + "|} \\hline\n"@
        + indented(join(Seq::new(headers.len(), |i: int| "$"@ + headers[i] + "$"@), " & "@))
        + " \\\\ \\hline\n"@ + indented(
        join(Seq::new(rows.len(), |i: int| row_text(rows[i])), " \\\\ \\hline\n"@),
    ) + " \\\\ \\hline\n\\end{tabular}"@
}

/// A key that no entry has is put last.
pub proof fn lemma_position_absent(entries: Seq<(Name, bool)>, key: Name)
    requires
        !keys_of(entries).contains(key),
    ensures
        position(entries, key) == entries.len(),
    decreases entries.len(),
{
    if entries.len() > 0 {
        assert(keys_of(entries)[0] == entries[0].0);
        assert forall|i: int| 0 <= i < entries.drop_first().len() implies keys_of(
            entries.drop_first(),
        )[i] != key by {
            assert(keys_of(entries)[i + 1] == entries[i + 1].0);
        }
        lemma_position_absent(entries.drop_first(), key);
    }
}

/// There is an assignment, and where no variable occurs twice the keys of
/// every assignment are the variables, the first one last.
pub proof fn lemma_all_assignments_keys(variables: Seq<Name>)
    requires
        variables.no_duplicates(),
    ensures
        all_assignments(variables).len() >= 1,
        forall|i: int|
            0 <= i < all_assignments(variables).len() ==> keys_of(
                #[trigger] all_assignments(variables)[i],
            ) == variables.reverse(),
    decreases variables.len(),
{
    if variables.len() == 0 {
        assert(keys_of(Seq::<(Name, bool)>::empty()) =~= variables.reverse());
    } else {
        let tail = variables.drop_first();
        let rest = all_assignments(tail);
        lemma_all_assignments_keys(tail);
        assert forall|i: int| 0 <= i < all_assignments(variables).len() implies keys_of(
            #[trigger] all_assignments(variables)[i],
        ) == variables.reverse() by {
            let entries = rest[i / 2];
            assert(keys_of(entries) == tail.reverse());
            if keys_of(entries).contains(variables.first()) {
                let k = choose|k: int|
                    0 <= k < keys_of(entries).len() && keys_of(entries)[k] == variables.first();
                assert(tail.reverse()[k] == tail[tail.len() - 1 - k]);
                assert(variables[tail.len() - k] == variables[0]);
            }
            lemma_position_absent(entries, variables.first());
            let grown = entries.push((variables.first(), i % 2 == 0));
            assert(keys_of(grown).len() == variables.reverse().len());
            assert forall|j: int| 0 <= j < keys_of(grown).len() implies keys_of(grown)[j]
                == variables.reverse()[j] by {
                if j < entries.len() {
                    assert(keys_of(entries)[j] == tail.reverse()[j]);
                    assert(tail.reverse()[j] == tail[tail.len() - 1 - j]);
                    assert(tail[tail.len() - 1 - j] == variables[tail.len() - j]);
                }
            }
            assert(keys_of(grown) =~= variables.reverse());
        }
    }
}

/// There are two assignments for each variable: 2 to the power of their
/// number in all.
pub proof fn law_assignment_count(variables: Seq<Name>)
    ensures
        all_assignments(variables).len() == vstd::arithmetic::power2::pow2(variables.len()),
    decreases variables.len(),
{
    if variables.len() == 0 {
        vstd::arithmetic::power2::lemma2_to64();
    } else {
        law_assignment_count(variables.drop_first());
        vstd::arithmetic::power2::lemma_pow2_unfold(variables.len());
    }
}

/// Offering items to a sequence without repeats leaves it without repeats.
pub proof fn lemma_insert_all_no_duplicates<A>(base: Seq<A>, items: Seq<A>)
    requires
        base.no_duplicates(),
    ensures
        insert_all(base, items).no_duplicates(),
    decreases items.len(),
{
    if items.len() > 0 {
        lemma_insert_all_no_duplicates(base, items.drop_last());
    }
}

/// The free variables of a formula are listed without repeats.
pub proof fn lemma_free_vars_no_duplicates(f: Formula)
    ensures
        f.free_vars().no_duplicates(),
{
    lemma_insert_all_no_duplicates(Seq::<Name>::empty(), f.free_occurrences(Seq::empty()));
}

/// Puts a tab before each line of a text.
fn indent(s: &str) -> (r: String)
    ensures
        r@ == indented(s@),
{
    let chars = chars_of(s);
    let mut r = String::new();
    push_char(&mut r, '\t');
    let mut i: usize = 0;
    assert(s@.take(0) =~= Seq::empty());
    assert(r@ =~= seq!['\t']);
    while i < chars.len()
        invariant
            i <= chars.len(),
            chars@ == s@,
            r@ == indented(s@.take(i as int)),
        decreases chars.len() - i,
    {
        proof {
            assert(s@.take(i + 1).drop_last() =~= s@.take(i as int));
            assert(s@.take(i + 1).last() == chars@[i as int]);
        }
        let ghost before = r@;
        push_char(&mut r, chars[i]);
        if chars[i] == '\n' {
            push_char(&mut r, '\t');
            assert(r@ =~= before + seq!['\n', '\t']);
        }
        i += 1;
    }
    assert(s@.take(chars.len() as int) =~= s@);
    r
}

/// All assignments of the variables from the place `start` on.
fn permutations_from(variables: &[String], start: usize) -> (r: Vec<IndexMap<String, bool>>)
    requires
        start <= variables@.len(),
    ensures
        r@.len() == all_assignments(names_of(variables@).skip(start as int)).len(),
        forall|i: int|
            0 <= i < r@.len() ==> assignment_entries(#[trigger] r@[i]) == all_assignments(
                names_of(variables@).skip(start as int),
            )[i],
    decreases variables@.len() - start,
{
    let ghost names = names_of(variables@).skip(start as int);
    let mut permutations: Vec<IndexMap<String, bool>> = Vec::new();
    if start == variables.len() {
        permutations.push(assignment_new());
        return permutations;
    }
    let variable = variables[start].clone();
    let rest = permutations_from(variables, start + 1);
    let ghost tail = all_assignments(names.drop_first());
    assert(names.drop_first() =~= names_of(variables@).skip(start + 1));
    assert(names.first() == variable@);
    let mut i: usize = 0;
    while i < rest.len()
        invariant
            i <= rest.len(),
            rest@.len() == tail.len(),
            forall|k: int| 0 <= k < rest@.len() ==> assignment_entries(#[trigger] rest@[k]) == tail[k],
            permutations@.len() == 2 * i,
            forall|k: int|
                0 <= k < 2 * i ==> assignment_entries(#[trigger] permutations@[k]) == put(
                    tail[k / 2],
                    variable@,
                    k % 2 == 0,
                ),
        decreases rest.len() - i,
    {
        let mut a = assignment_clone(&rest[i]);
        let mut b = assignment_clone(&rest[i]);
        assignment_insert(&mut a, variable.clone(), true);
        assignment_insert(&mut b, variable.clone(), false);
        permutations.push(a);
        permutations.push(b);
        i += 1;
    }
    permutations
}

/// All assignments of the variables, each an insertion-ordered map. The
/// assignments of the variables after the first come in their order, each
/// twice: with the first variable true, then with it false.
pub fn all_permutations(variables: &[String]) -> (r: Vec<IndexMap<String, bool>>)
    ensures
        r@.len() == all_assignments(names_of(variables@)).len(),
        forall|i: int|
            0 <= i < r@.len() ==> assignment_entries(#[trigger] r@[i]) == all_assignments(
                names_of(variables@),
            )[i],
{
    assert(names_of(variables@).skip(0) =~= names_of(variables@));
    permutations_from(variables, 0)
}

/// The names in the opposite order.
fn reversed(names: &Vec<String>) -> (r: Vec<String>)
    ensures
        names_of(r@) == names_of(names@).reverse(),
{
    let mut r: Vec<String> = Vec::new();
    let mut i: usize = names.len();
    while i > 0
        invariant
            i <= names.len(),
            r@.len() == names.len() - i,
            forall|k: int| 0 <= k < r@.len() ==> (#[trigger] r@[k])@ == names@[names.len() - 1 - k]@,
        decreases i,
    {
        i -= 1;
        r.push(names[i].clone());
    }
    assert(names_of(r@) =~= names_of(names@).reverse());
    r
}

impl Connective {
    /// The truth table of the formula, with the headers of the
    /// sub-formulas written by `f`. The headers are the free variables in
    /// reading order, then one for each sub-formula that is not atomic,
    /// parts before the whole. There is a row for every assignment of the
    /// variables; the variable met last varies fastest, and true comes
    /// before false.
    pub fn generate_table_generic<F: Fn(&Connective) -> String>(&self, f: F) -> (t: Table)
        requires
            forall|c: &Connective| call_requires(f, (c,)),
        ensures
            rows_of(t.rows@) == table_rows(self@),
            t.headers@.len() == self@.free_vars().len() + self@.sub_connectives(true).len(),
            names_of(t.headers@).take(self@.free_vars().len() as int) == self@.free_vars(),
            forall|k: int|
                0 <= k < self@.sub_connectives(true).len() ==> #[trigger] titled(
                    f,
                    self@.sub_connectives(true)[k],
                    t.headers@[self@.free_vars().len() + k],
                ),
    {
        let variables = reversed(&self.all_variables());
        let permutations = all_permutations(variables.as_slice());
        let sub_connectives = self.all_sub_connectives(true);
        let ghost vars = self@.free_vars();
        let ghost parts = self@.sub_connectives(true);
        let ghost assignments = all_assignments(vars.reverse());
        proof {
            lemma_free_vars_no_duplicates(self@);
            assert(vars.reverse().no_duplicates()) by {
                assert forall|i: int, j: int|
                    0 <= i < vars.reverse().len() && 0 <= j < vars.reverse().len() && i
                        != j implies vars.reverse()[i] != vars.reverse()[j] by {
                    assert(vars.reverse()[i] == vars[vars.len() - 1 - i]);
                    assert(vars.reverse()[j] == vars[vars.len() - 1 - j]);
                }
            }
            lemma_all_assignments_keys(vars.reverse());
            assert(vars.reverse().reverse() =~= vars);
        }
        if permutations.len() == 0 {
            return Table { headers: Vec::new(), rows: Vec::new() };
        }
        let mut headers = assignment_keys(&permutations[0]);
        proof {
            assert(names_of(headers@) == keys_of(assignments[0]));
            assert(names_of(headers@).len() == vars.len());
        }
        let mut k: usize = 0;
        while k < sub_connectives.len()
            invariant
                k <= sub_connectives.len(),
                forall|c: &Connective| call_requires(f, (c,)),
                formulas_of(sub_connectives@) == parts,
                sub_connectives@.len() == parts.len(),
                headers@.len() == vars.len() + k,
                names_of(headers@).take(vars.len() as int) == vars,
                forall|j: int|
                    0 <= j < k ==> call_ensures(
                        f,
                        (&sub_connectives@[j],),
                        #[trigger] headers@[vars.len() + j],
                    ),
            decreases sub_connectives.len() - k,
        {
            let ghost before = headers@;
            let title = f(&sub_connectives[k]);
            headers.push(title);
            assert(names_of(headers@).take(vars.len() as int) =~= names_of(before).take(
                vars.len() as int,
            ));
            k += 1;
        }
        let mut rows: Vec<Vec<bool>> = Vec::new();
        let mut i: usize = 0;
        while i < permutations.len()
            invariant
                i <= permutations.len(),
                parts == self@.sub_connectives(true),
                formulas_of(sub_connectives@) == parts,
                sub_connectives@.len() == parts.len(),
                permutations@.len() == assignments.len(),
                assignments == all_assignments(self@.free_vars().reverse()),
                forall|j: int|
                    0 <= j < permutations@.len() ==> assignment_entries(
                        #[trigger] permutations@[j],
                    ) == assignments[j],
                rows@.len() == i,
                forall|j: int| 0 <= j < i ==> (#[trigger] rows@[j])@ == table_row(parts, assignments[j]),
            decreases permutations.len() - i,
        {
            let perm = &permutations[i];
            let ghost entries = assignments[i as int];
            let mut row = assignment_values(perm);
            let mut k: usize = 0;
            assert(row@ =~= values_of(entries));
            while k < sub_connectives.len()
                invariant
                    k <= sub_connectives.len(),
                    formulas_of(sub_connectives@) == parts,
                    sub_connectives@.len() == parts.len(),
                    assignment_entries(*perm) == entries,
                    row@.len() == entries.len() + k,
                    forall|j: int| 0 <= j < entries.len() ==> row@[j] == entries[j].1,
                    forall|j: int|
                        0 <= j < k ==> row@[entries.len() + j] == parts[j].eval(
                            assignment_of(entries),
                        ),
                decreases sub_connectives.len() - k,
            {
                proof {
                    assert(parts[k as int] == sub_connectives@[k as int]@);
                }
                row.push(sub_connectives[k].solve(perm));
                k += 1;
            }
            assert(row@ =~= table_row(parts, entries));
            rows.push(row);
            i += 1;
        }
        proof {
            assert(rows_of(rows@) =~= table_rows(self@));
            assert forall|k: int| 0 <= k < parts.len() implies #[trigger] titled(
                f,
                parts[k],
                headers@[vars.len() + k],
            ) by {
                let c = sub_connectives@[k];
                assert(c@ == parts[k]);
                assert(call_ensures(f, (&c,), headers@[vars.len() + k]));
            }
        }
        Table { headers, rows }
    }

    /// The truth table with the sub-formulas as LaTeX markup in its headers.
    pub fn generate_table_latex(&self) -> (t: Table)
        ensures
            names_of(t.headers@) == self@.free_vars() + latex_titles(self@.sub_connectives(true)),
            rows_of(t.rows@) == table_rows(self@),
    {
        let t = self.generate_table_generic(Connective::pretty_latex);
        proof {
            let vars = self@.free_vars();
            let parts = self@.sub_connectives(true);
            assert forall|i: int| 0 <= i < t.headers@.len() implies names_of(t.headers@)[i] == (vars
                + latex_titles(parts))[i] by {
                if i < vars.len() {
                    assert(names_of(t.headers@).take(vars.len() as int)[i] == vars[i]);
                } else {
                    let k = i - vars.len();
                    assert(titled(Connective::pretty_latex, parts[k], t.headers@[vars.len() + k]));
                }
            }
            assert(names_of(t.headers@) =~= vars + latex_titles(parts));
        }
        t
    }

    /// The truth table with the sub-formulas as plain text in its headers.
    pub fn generate_table(&self) -> (t: Table)
        ensures
            names_of(t.headers@) == self@.free_vars() + pretty_titles(self@.sub_connectives(true)),
            rows_of(t.rows@) == table_rows(self@),
    {
        let t = self.generate_table_generic(Connective::pretty);
        proof {
            let vars = self@.free_vars();
            let parts = self@.sub_connectives(true);
            assert forall|i: int| 0 <= i < t.headers@.len() implies names_of(t.headers@)[i] == (vars
                + pretty_titles(parts))[i] by {
                if i < vars.len() {
                    assert(names_of(t.headers@).take(vars.len() as int)[i] == vars[i]);
                } else {
                    let k = i - vars.len();
                    assert(titled(Connective::pretty, parts[k], t.headers@[vars.len() + k]));
                }
            }
            assert(names_of(t.headers@) =~= vars + pretty_titles(parts));
        }
        t
    }

    /// The truth table as a LaTeX `tabular`.
    pub fn table(&self) -> (r: String)
        ensures
            r@ == latex_table(
                self@.free_vars() + latex_titles(self@.sub_connectives(true)),
                table_rows(self@),
            ),
    {
        let table = self.generate_table_latex();
        let ghost headers = names_of(table.headers@);
        let ghost rows = rows_of(table.rows@);
        let mut columns: Vec<String> = Vec::new();
        let mut titles: Vec<String> = Vec::new();
        let mut i: usize = 0;
        while i < table.headers.len()
            invariant
                i <= table.headers.len(),
                headers == names_of(table.headers@),
                columns@.len() == i,
                titles@.len() == i,
                forall|j: int| 0 <= j < i ==> (#[trigger] columns@[j])@ == "c"@,
                forall|j: int| 0 <= j < i ==> (#[trigger] titles@[j])@ == "$"@ + headers[j] + "$"@,
            decreases table.headers.len() - i,
        {
            columns.push("c".to_owned());
            let mut title = String::new();
            title.append("$");
            title.append(table.headers[i].as_str());
            title.append("$");
            assert(title@ =~= "$"@ + headers[i as int] + "$"@);
            titles.push(title);
            i += 1;
        }
        assert(names_of(columns@) =~= Seq::new(headers.len(), |i: int| "c"@));
        assert(names_of(titles@) =~= Seq::new(headers.len(), |i: int| "$"@ + headers[i] + "$"@));
        let mut lines: Vec<String> = Vec::new();
        let mut i: usize = 0;
        while i < table.rows.len()
            invariant
                i <= table.rows.len(),
                rows == rows_of(table.rows@),
                lines@.len() == i,
                forall|j: int| 0 <= j < i ==> (#[trigger] lines@[j])@ == row_text(rows[j]),
            decreases table.rows.len() - i,
        {
            let row = &table.rows[i];
            let mut cells: Vec<String> = Vec::new();
            let mut k: usize = 0;
            while k < row.len()
                invariant
                    k <= row.len(),
                    cells@.len() == k,
                    forall|j: int| 0 <= j < k ==> (#[trigger] cells@[j])@ == truth_letter(row@[j]),
                decreases row.len() - k,
            {
                if row[k] {
                    cells.push("T".to_owned());
                } else {
                    cells.push("F".to_owned());
                }
                k += 1;
            }
            assert(names_of(cells@) =~= Seq::new(row@.len(), |j: int| truth_letter(row@[j])));
            lines.push(join_strings(&cells, " & "));
            i += 1;
        }
        assert(names_of(lines@) =~= Seq::new(rows.len(), |i: int| row_text(rows[i])));
        let mut r = String::new();
        r.append("\\begin{tabular}{|");
        r.append(join_strings(&columns, "|").as_str());
        r.append("|} \\hline\n");
        r.append(indent(join_strings(&titles, " & ").as_str()).as_str());
        r.append(" \\\\ \\hline\n");
        r.append(indent(join_strings(&lines, " \\\\ \\hline\n").as_str()).as_str());
        r.append(" \\\\ \\hline\n\\end{tabular}");
        assert(r@ =~= latex_table(headers, rows));
        r
    }
}

} // verus!
