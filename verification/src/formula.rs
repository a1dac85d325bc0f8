//! What a formula is made of: its free names, its atomic parts, its
//! sub-formulas, its value under an assignment, and substitution.

use crate::ast::{clone_names, names_of, same_name, Connective, Formula, Name};
use crate::ordered::{
    assignment_entries, assignment_get, formula_set_insert, formula_set_items, formula_set_new,
    formula_set_to_vec, insert_last, lookup,
};
use indexmap::{IndexMap, IndexSet};
use vstd::prelude::*;

verus! {

/// The names of `names` that `bound` does not hold, in order.
pub open spec fn unbound(names: Seq<Name>, bound: Seq<Name>) -> Seq<Name>
    decreases names.len(),
{
    if names.len() == 0 {
        Seq::empty()
    } else if bound.contains(names.last()) {
        unbound(names.drop_last(), bound)
    } else {
        unbound(names.drop_last(), bound).push(names.last())
    }
}

/// `base` after each of `items` was offered to it in turn.
pub open spec fn insert_all<A>(base: Seq<A>, items: Seq<A>) -> Seq<A>
    decreases items.len(),
{
    if items.len() == 0 {
        base
    } else {
        insert_last(insert_all(base, items.drop_last()), items.last())
    }
}

/// The items of a sequence, each at the place of its first occurrence.
pub open spec fn first_occurrences<A>(items: Seq<A>) -> Seq<A> {
    insert_all(Seq::empty(), items)
}

/// The formulas that a sequence of values stands for.
pub open spec fn formulas_of(v: Seq<Connective>) -> Seq<Formula> {
    Seq::new(v.len(), |i: int| v[i]@)
}

/// The assignment that a list of entries stands for: a name is bound to the
/// value of the first entry that has it.
pub open spec fn assignment_of(entries: Seq<(Name, bool)>) -> Map<Name, bool> {
    Map::new(|k: Name| lookup(entries, k) is Some, |k: Name| lookup(entries, k)->0)
}

impl Formula {
    /// A variable or a predicate.
    pub open spec fn is_atomic(self) -> bool {
        self is Var || self is Predicate
    }

    /// How loosely the outermost operator binds: atomic formulas 0,
    /// quantifiers 1, negation 2, conjunction 3, disjunction 4, implication
    /// and biconditional 5.
    pub open spec fn precedence(self) -> nat {
        match self {
            Formula::Var(_) | Formula::Predicate(_, _) => 0,
            Formula::ForAll(_, _) | Formula::Exists(_, _) => 1,
            Formula::Not(_) => 2,
            Formula::And(_, _) => 3,
            Formula::Or(_, _) => 4,
            Formula::Implicate(_, _) | Formula::Biimplicate(_, _) => 5,
        }
    }

    /// Whether a part of equal precedence may stand inside without brackets.
    pub open spec fn associative(self) -> bool {
        match self {
            Formula::Var(_) | Formula::Predicate(_, _) => true,
            Formula::Not(_) | Formula::And(_, _) | Formula::Or(_, _) => true,
            _ => false,
        }
    }

    /// The names at the free occurrences, in reading order, repeats kept.
    /// `bound` holds the names that enclosing quantifiers bind.
    pub open spec fn free_occurrences(self, bound: Seq<Name>) -> Seq<Name>
        decreases self,
    {
        match self {
            Formula::Var(x) => unbound(seq![x], bound),
            Formula::Predicate(_, args) => unbound(args, bound),
            Formula::Not(a) => a.free_occurrences(bound),
            Formula::And(a, b)
            | Formula::Or(a, b)
            | Formula::Implicate(a, b)
            | Formula::Biimplicate(a, b) => a.free_occurrences(bound) + b.free_occurrences(bound),
            Formula::ForAll(x, a) | Formula::Exists(x, a) => a.free_occurrences(bound.push(x)),
        }
    }

    /// The free names, each once, in the order in which they are first met.
    pub open spec fn free_vars(self) -> Seq<Name> {
        first_occurrences(self.free_occurrences(Seq::empty()))
    }

    /// The names that a quantifier binds somewhere in the formula, in reading order.
    pub open spec fn bound_names(self) -> Seq<Name>
        decreases self,
    {
        match self {
            Formula::Var(_) | Formula::Predicate(_, _) => Seq::empty(),
            Formula::Not(a) => a.bound_names(),
            Formula::And(a, b)
            | Formula::Or(a, b)
            | Formula::Implicate(a, b)
            | Formula::Biimplicate(a, b) => a.bound_names() + b.bound_names(),
            Formula::ForAll(x, a) | Formula::Exists(x, a) => seq![x] + a.bound_names(),
        }
    }

    /// The atomic parts in reading order, repeats kept. A variable counts
    /// where no enclosing quantifier binds it; a predicate always counts.
    pub open spec fn atomic_occurrences(self, bound: Seq<Name>) -> Seq<Formula>
        decreases self,
    {
        match self {
            Formula::Var(x) => if bound.contains(x) {
                Seq::empty()
            } else {
                seq![self]
            },
            Formula::Predicate(_, _) => seq![self],
            Formula::Not(a) => a.atomic_occurrences(bound),
            Formula::And(a, b)
            | Formula::Or(a, b)
            | Formula::Implicate(a, b)
            | Formula::Biimplicate(a, b) => a.atomic_occurrences(bound) + b.atomic_occurrences(
                bound,
            ),
            Formula::ForAll(x, a) | Formula::Exists(x, a) => a.atomic_occurrences(bound.push(x)),
        }
    }

    /// The atomic parts, each once, in the order in which they are first met.
    pub open spec fn atomics(self) -> Seq<Formula> {
        first_occurrences(self.atomic_occurrences(Seq::empty()))
    }

    /// The sub-formulas that are not atomic, parts before the whole. A
    /// negation is listed only where it is the formula asked about
    /// (`is_first`); below another operator it is passed over, its part is not.
    pub open spec fn sub_connectives(self, is_first: bool) -> Seq<Formula>
        decreases self,
    {
        match self {
            Formula::Var(_) | Formula::Predicate(_, _) => Seq::empty(),
            Formula::Not(a) => if is_first {
                a.sub_connectives(false).push(self)
            } else {
                a.sub_connectives(false)
            },
            Formula::And(a, b)
            | Formula::Or(a, b)
            | Formula::Implicate(a, b)
            | Formula::Biimplicate(a, b) => (a.sub_connectives(false) + b.sub_connectives(
                false,
            )).push(self),
            Formula::ForAll(_, a) | Formula::Exists(_, a) => a.sub_connectives(false).push(self),
        }
    }

    /// The truth value under an assignment of the variables. A variable
    /// that the assignment leaves out is false; predicates and quantified
    /// formulas have no value of their own and count as false.
    pub open spec fn eval(self, assignment: Map<Name, bool>) -> bool
        decreases self,
    {
        match self {
            Formula::Var(x) => assignment.contains_key(x) && assignment[x],
            Formula::Predicate(_, _) => false,
            Formula::Not(a) => !a.eval(assignment),
            Formula::And(a, b) => a.eval(assignment) && b.eval(assignment),
            Formula::Or(a, b) => a.eval(assignment) || b.eval(assignment),
            Formula::Implicate(a, b) => a.eval(assignment) ==> b.eval(assignment),
            Formula::Biimplicate(a, b) => a.eval(assignment) <==> b.eval(assignment),
            Formula::ForAll(_, _) | Formula::Exists(_, _) => false,
        }
    }

    /// The formula with `y` at every free occurrence of `x`. Below a
    /// quantifier that binds `x` nothing changes; bound names are never renamed.
    pub open spec fn substitute(self, x: Name, y: Name) -> Formula
        decreases self,
    {
        match self {
            Formula::Var(v) => if v == x {
                Formula::Var(y)
            } else {
                self
            },
            Formula::Predicate(p, args) => Formula::Predicate(p, rename(args, x, y)),
            Formula::Not(a) => Formula::Not(Box::new(a.substitute(x, y))),
            Formula::And(a, b) => Formula::And(
                Box::new(a.substitute(x, y)),
                Box::new(b.substitute(x, y)),
            ),
            Formula::Or(a, b) => Formula::Or(
                Box::new(a.substitute(x, y)),
                Box::new(b.substitute(x, y)),
            ),
            Formula::Implicate(a, b) => Formula::Implicate(
                Box::new(a.substitute(x, y)),
                Box::new(b.substitute(x, y)),
            ),
            Formula::Biimplicate(a, b) => Formula::Biimplicate(
                Box::new(a.substitute(x, y)),
                Box::new(b.substitute(x, y)),
            ),
            Formula::ForAll(v, a) => if v == x {
                self
            } else {
                Formula::ForAll(v, Box::new(a.substitute(x, y)))
            },
            Formula::Exists(v, a) => if v == x {
                self
            } else {
                Formula::Exists(v, Box::new(a.substitute(x, y)))
            },
        }
    }
}

/// The names with `y` in place of each `x`.
pub open spec fn rename(names: Seq<Name>, x: Name, y: Name) -> Seq<Name> {
    Seq::new(names.len(), |i: int| if names[i] == x { y } else { names[i] })
}

/// Offering the items of two sequences in turn is offering those of their
/// concatenation.
pub proof fn lemma_insert_all_concat<A>(base: Seq<A>, first: Seq<A>, second: Seq<A>)
    ensures
        insert_all(insert_all(base, first), second) == insert_all(base, first + second),
    decreases second.len(),
{
    if second.len() == 0 {
        assert(first + second =~= first);
    } else {
        lemma_insert_all_concat(base, first, second.drop_last());
        assert((first + second).drop_last() =~= first + second.drop_last());
        assert((first + second).last() == second.last());
    }
}

/// Offering one item.
pub proof fn lemma_insert_all_push<A>(base: Seq<A>, items: Seq<A>, item: A)
    ensures
        insert_all(base, items.push(item)) == insert_last(insert_all(base, items), item),
{
    assert(items.push(item).drop_last() =~= items);
}

/// Whether all formulas of a sequence are variables.
pub open spec fn only_vars(items: Seq<Formula>) -> bool {
    forall|i: int| 0 <= i < items.len() ==> #[trigger] items[i] is Var
}

/// The names of a sequence of variables.
pub open spec fn var_names(items: Seq<Formula>) -> Seq<Name> {
    Seq::new(items.len(), |i: int| items[i]->Var_0)
}

/// Offering a variable to variables is offering its name to their names.
pub proof fn lemma_insert_var(items: Seq<Formula>, x: Name)
    requires
        only_vars(items),
    ensures
        only_vars(insert_last(items, Formula::Var(x))),
        var_names(insert_last(items, Formula::Var(x))) == insert_last(var_names(items), x),
{
    let names = var_names(items);
    if items.contains(Formula::Var(x)) {
        let i = choose|i: int| 0 <= i < items.len() && items[i] == Formula::Var(x);
        assert(names[i] == x);
    }
    if names.contains(x) {
        let i = choose|i: int| 0 <= i < names.len() && names[i] == x;
        assert(items[i] is Var);
        assert(items[i] == Formula::Var(x));
    }
    if !items.contains(Formula::Var(x)) {
        let grown = items.push(Formula::Var(x));
        assert forall|i: int| 0 <= i < grown.len() implies #[trigger] grown[i] is Var by {
            if i < items.len() {
                assert(items[i] is Var);
            }
        }
        assert(var_names(grown) =~= names.push(x));
    }
}

/// Whether a list holds a name.
pub fn contains_name(names: &Vec<String>, name: &String) -> (r: bool)
    ensures
        r == names_of(names@).contains(name@),
{
    let mut i: usize = 0;
    while i < names.len()
        invariant
            i <= names.len(),
            forall|j: int| 0 <= j < i ==> names_of(names@)[j] != name@,
        decreases names.len() - i,
    {
        if same_name(&names[i], name) {
            assert(names_of(names@)[i as int] == name@);
            return true;
        }
        i += 1;
    }
    false
}

impl Connective {
    /// The free names of the formula, each once, in the order in which a
    /// reading from left to right first meets them. Both variables and the
    /// arguments of predicates count; a name counts as free where no
    /// enclosing quantifier binds it.
    pub fn all_variables(&self) -> (r: Vec<String>)
        ensures
            names_of(r@) == self@.free_vars(),
    {
        let mut set = formula_set_new();
        let ignore: Vec<String> = Vec::new();
        assert(names_of(ignore@) =~= Seq::empty());
        assert(var_names(formula_set_items(set)) =~= Seq::empty());
        self.all_variables_helper(&ignore, &mut set);
        let found = formula_set_to_vec(&set);
        let ghost items = formula_set_items(set);
        assert(formulas_of(found@) == items);
        assert forall|j: int| 0 <= j < found@.len() implies (#[trigger] found@[j])@ == items[j] by {
            assert(formulas_of(found@)[j] == items[j]);
        }
        let mut r: Vec<String> = Vec::new();
        let mut i: usize = 0;
        while i < found.len()
            invariant
                i <= found.len(),
                found@.len() == items.len(),
                only_vars(items),
                forall|j: int| 0 <= j < found@.len() ==> (#[trigger] found@[j])@ == items[j],
                r@.len() == i,
                forall|j: int| 0 <= j < i ==> (#[trigger] r@[j])@ == var_names(items)[j],
            decreases found.len() - i,
        {
            assert(items[i as int] is Var);
            match &found[i] {
                Connective::Var(x) => {
                    r.push(x.clone());
                },
                _ => {},
            }
            i += 1;
        }
        assert(names_of(r@) =~= var_names(items));
        r
    }

    /// Offers the free names of the formula to a set of variables in
    /// reading order. `ignore` holds the names that enclosing quantifiers bind.
    fn all_variables_helper(&self, ignore: &Vec<String>, set: &mut IndexSet<Connective>)
        requires
            only_vars(formula_set_items(*old(set))),
        ensures
            only_vars(formula_set_items(*final(set))),
            var_names(formula_set_items(*final(set))) == insert_all(
                var_names(formula_set_items(*old(set))),
                self@.free_occurrences(names_of(ignore@)),
            ),
        decreases self,
    {
        let ghost bound = names_of(ignore@);
        let ghost base = var_names(formula_set_items(*set));
        match self {
            Connective::Not(x) => x.all_variables_helper(ignore, set),
            Connective::ForAll(r, x) | Connective::Exists(r, x) => {
                let mut inner = clone_names(ignore);
                inner.push(r.clone());
                assert(names_of(inner@) =~= bound.push(r@));
                x.all_variables_helper(&inner, set)
            },
            Connective::Var(x) => {
                proof {
                    assert(seq![x@].drop_last() =~= Seq::<Name>::empty());
                    assert(unbound(Seq::<Name>::empty(), bound) =~= Seq::<Name>::empty());
                    lemma_insert_all_push(base, Seq::empty(), x@);
                    lemma_insert_var(formula_set_items(*set), x@);
                }
                if !contains_name(ignore, x) {
                    formula_set_insert(set, Connective::Var(x.clone()));
                }
            },
            Connective::Predicate(_, args) => {
                let mut i: usize = 0;
                assert(names_of(args@).take(0) =~= Seq::<Name>::empty());
                while i < args.len()
                    invariant
                        i <= args.len(),
                        bound == names_of(ignore@),
                        only_vars(formula_set_items(*set)),
                        var_names(formula_set_items(*set)) == insert_all(
                            base,
                            unbound(names_of(args@).take(i as int), bound),
                        ),
                    decreases args.len() - i,
                {
                    proof {
                        let all = names_of(args@);
                        assert(all.take(i + 1).drop_last() =~= all.take(i as int));
                        assert(all.take(i + 1).last() == args@[i as int]@);
                        lemma_insert_all_push(
                            base,
                            unbound(all.take(i as int), bound),
                            args@[i as int]@,
                        );
                        lemma_insert_var(formula_set_items(*set), args@[i as int]@);
                    }
                    if !contains_name(ignore, &args[i]) {
                        formula_set_insert(set, Connective::Var(args[i].clone()));
                    }
                    i += 1;
                }
                assert(names_of(args@).take(args.len() as int) =~= names_of(args@));
            },
            Connective::And(a, b)
            | Connective::Or(a, b)
            | Connective::Implicate(a, b)
            | Connective::Biimplicate(a, b) => {
                a.all_variables_helper(ignore, set);
                b.all_variables_helper(ignore, set);
                proof {
                    lemma_insert_all_concat(
                        base,
                        a@.free_occurrences(bound),
                        b@.free_occurrences(bound),
                    );
                }
            },
        }
    }

    /// The atomic parts of the formula, each once, in the order in which a
    /// reading from left to right first meets them. A variable counts where
    /// no enclosing quantifier binds its name; a predicate always counts.
    pub fn all_atomics(&self) -> (r: Vec<Connective>)
        ensures
            formulas_of(r@) == self@.atomics(),
    {
        let mut set = formula_set_new();
        let ignore: Vec<String> = Vec::new();
        assert(names_of(ignore@) =~= Seq::empty());
        self.all_atomics_helper(&ignore, &mut set);
        let r = formula_set_to_vec(&set);
        assert(formulas_of(r@) =~= formula_set_items(set));
        r
    }

    /// Offers the atomic parts of the formula to a set in reading order.
    /// `ignore` holds the names that enclosing quantifiers bind.
    fn all_atomics_helper(&self, ignore: &Vec<String>, set: &mut IndexSet<Connective>)
        ensures
            formula_set_items(*final(set)) == insert_all(
                formula_set_items(*old(set)),
                self@.atomic_occurrences(names_of(ignore@)),
            ),
        decreases self,
    {
        let ghost bound = names_of(ignore@);
        let ghost base = formula_set_items(*set);
        match self {
            Connective::Not(x) => x.all_atomics_helper(ignore, set),
            Connective::ForAll(r, x) | Connective::Exists(r, x) => {
                let mut inner = clone_names(ignore);
                inner.push(r.clone());
                assert(names_of(inner@) =~= bound.push(r@));
                x.all_atomics_helper(&inner, set)
            },
            Connective::Var(x) => {
                proof {
                    lemma_insert_all_push(base, Seq::empty(), self@);
                    assert(Seq::<Formula>::empty().push(self@) =~= seq![self@]);
                }
                if !contains_name(ignore, x) {
                    formula_set_insert(set, self.clone());
                }
            },
            Connective::Predicate(_, _) => {
                proof {
                    lemma_insert_all_push(base, Seq::empty(), self@);
                    assert(Seq::<Formula>::empty().push(self@) =~= seq![self@]);
                }
                formula_set_insert(set, self.clone());
            },
            Connective::And(a, b)
            | Connective::Or(a, b)
            | Connective::Implicate(a, b)
            | Connective::Biimplicate(a, b) => {
                a.all_atomics_helper(ignore, set);
                b.all_atomics_helper(ignore, set);
                proof {
                    lemma_insert_all_concat(
                        base,
                        a@.atomic_occurrences(bound),
                        b@.atomic_occurrences(bound),
                    );
                }
            },
        }
    }

    /// The sub-formulas that are not atomic, parts before the whole. A
    /// negation is listed only where it is the formula asked about
    /// (`is_first`); below another operator only what stands under it is listed.
    pub fn all_sub_connectives(&self, is_first: bool) -> (r: Vec<Connective>)
        ensures
            formulas_of(r@) == self@.sub_connectives(is_first),
        decreases self,
    {
        match self {
            Connective::Not(x) => {
                let mut x_s = x.all_sub_connectives(false);
                if is_first {
                    let ghost before = x_s@;
                    x_s.push(self.clone());
                    assert(formulas_of(x_s@) =~= formulas_of(before).push(self@));
                }
                x_s
            },
            Connective::Var(_) => {
                let r: Vec<Connective> = Vec::new();
                assert(formulas_of(r@) =~= Seq::empty());
                r
            },
            Connective::Predicate(_, _) => {
                let r: Vec<Connective> = Vec::new();
                assert(formulas_of(r@) =~= Seq::empty());
                r
            },
            Connective::And(a, b)
            | Connective::Or(a, b)
            | Connective::Implicate(a, b)
            | Connective::Biimplicate(a, b) => {
                let mut a_s = a.all_sub_connectives(false);
                let mut b_s = b.all_sub_connectives(false);
                let ghost left = a_s@;
                let ghost right = b_s@;
                a_s.append(&mut b_s);
                a_s.push(self.clone());
                assert(formulas_of(a_s@) =~= (formulas_of(left) + formulas_of(right)).push(self@));
                a_s
            },
            Connective::ForAll(_, a) | Connective::Exists(_, a) => {
                let mut sub = a.all_sub_connectives(false);
                let ghost before = sub@;
                sub.push(self.clone());
                assert(formulas_of(sub@) =~= formulas_of(before).push(self@));
                sub
            },
        }
    }

    /// The formula with `y` at every free occurrence of the name `x`, in
    /// variables and in the arguments of predicates. Below a quantifier that
    /// binds `x` nothing changes; below any other quantifier the body is
    /// rewritten. Bound names are never renamed.
    pub fn substitude(&self, x: &str, y: &str) -> (r: Connective)
        ensures
            r@ == self@.substitute(x@, y@),
    {
        let from = x.to_owned();
        let to = y.to_owned();
        self.replace_name(&from, &to)
    }

    /// The formula with the name `y` at every free occurrence of `x`.
    fn replace_name(&self, x: &String, y: &String) -> (r: Connective)
        ensures
            r@ == self@.substitute(x@, y@),
        decreases self,
    {
        match self {
            Connective::Var(v) => if same_name(v, x) {
                Connective::Var(y.clone())
            } else {
                self.clone()
            },
            Connective::Predicate(p, args) => {
                let mut renamed: Vec<String> = Vec::new();
                let mut i: usize = 0;
                while i < args.len()
                    invariant
                        i <= args.len(),
                        renamed@.len() == i,
                        forall|j: int|
                            0 <= j < i ==> renamed@[j]@ == rename(names_of(args@), x@, y@)[j],
                    decreases args.len() - i,
                {
                    if same_name(&args[i], x) {
                        renamed.push(y.clone());
                    } else {
                        renamed.push(args[i].clone());
                    }
                    i += 1;
                }
                assert(names_of(renamed@) =~= rename(names_of(args@), x@, y@));
                Connective::Predicate(p.clone(), renamed)
            },
            Connective::Not(a) => Connective::Not(Box::new(a.replace_name(x, y))),
            Connective::And(a, b) => Connective::And(
                Box::new(a.replace_name(x, y)),
                Box::new(b.replace_name(x, y)),
            ),
            Connective::Or(a, b) => Connective::Or(
                Box::new(a.replace_name(x, y)),
                Box::new(b.replace_name(x, y)),
            ),
            Connective::Implicate(a, b) => Connective::Implicate(
                Box::new(a.replace_name(x, y)),
                Box::new(b.replace_name(x, y)),
            ),
            Connective::Biimplicate(a, b) => Connective::Biimplicate(
                Box::new(a.replace_name(x, y)),
                Box::new(b.replace_name(x, y)),
            ),
            Connective::ForAll(v, a) => if same_name(v, x) {
                self.clone()
            } else {
                Connective::ForAll(v.clone(), Box::new(a.replace_name(x, y)))
            },
            Connective::Exists(v, a) => if same_name(v, x) {
                self.clone()
            } else {
                Connective::Exists(v.clone(), Box::new(a.replace_name(x, y)))
            },
        }
    }

    /// The truth value of the formula under an assignment of its variables:
    /// a variable without an entry is false, and so is every predicate and
    /// every quantified formula.
    pub fn solve(&self, variables: &IndexMap<String, bool>) -> (r: bool)
        ensures
            r == self@.eval(assignment_of(assignment_entries(*variables))),
        decreases self,
    {
        match self {
            Connective::Not(x) => !x.solve(variables),
            Connective::Var(x) => match assignment_get(variables, x) {
                Some(value) => value,
                None => false,
            },
            Connective::Predicate(_, _) => false,
            Connective::And(a, b) => a.solve(variables) && b.solve(variables),
            Connective::Or(a, b) => a.solve(variables) || b.solve(variables),
            Connective::Implicate(a, b) => (!a.solve(variables)) || b.solve(variables),
            Connective::Biimplicate(a, b) => a.solve(variables) == b.solve(variables),
            Connective::ForAll(_, _) => false,
            Connective::Exists(_, _) => false,
        }
    }

    /// Whether the formula is a variable or a predicate.
    pub fn is_atomic(&self) -> (r: bool)
        ensures
            r == self@.is_atomic(),
    {
        match self {
            Connective::Var(_) | Connective::Predicate(_, _) => true,
            _ => false,
        }
    }

    /// How loosely the outermost operator binds.
    pub fn precedence(&self) -> (r: usize)
        ensures
            r == self@.precedence(),
    {
        match self {
            Connective::Var(_) | Connective::Predicate(_, _) => 0,
            Connective::ForAll(_, _) => 1,
            Connective::Exists(_, _) => 1,
            Connective::Not(_) => 2,
            Connective::And(_, _) => 3,
            Connective::Or(_, _) => 4,
            Connective::Implicate(_, _) => 5,
            Connective::Biimplicate(_, _) => 5,
        }
    }

    /// Whether a part of equal precedence may stand inside without brackets.
    pub fn associative(&self) -> (r: bool)
        ensures
            r == self@.associative(),
    {
        match self {
            Connective::Var(_) | Connective::Predicate(_, _) => true,
            Connective::Not(_) => true,
            Connective::And(_, _) => true,
            Connective::Or(_, _) => true,
            Connective::Implicate(_, _) => false,
            Connective::Biimplicate(_, _) => false,
            Connective::ForAll(_, _) => false,
            Connective::Exists(_, _) => false,
        }
    }
}

} // verus!
