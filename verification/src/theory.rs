//! Laws of substitution and of valuation.

use crate::ast::{Formula, Name};
use crate::formula::{insert_all, rename, unbound};
use crate::ordered::insert_last;
use vstd::prelude::*;

verus! {

impl Formula {
    /// Whether the name occurs in the formula at all: as a variable, as
    /// an argument of a predicate, or as the name that a quantifier binds.
    pub open spec fn mentions(self, n: Name) -> bool
        decreases self,
    {
        match self {
            Formula::Var(v) => v == n,
            Formula::Predicate(_, args) => args.contains(n),
            Formula::Not(a) => a.mentions(n),
            Formula::And(a, b)
            | Formula::Or(a, b)
            | Formula::Implicate(a, b)
            | Formula::Biimplicate(a, b) => a.mentions(n) || b.mentions(n),
            Formula::ForAll(v, a) | Formula::Exists(v, a) => v == n || a.mentions(n),
        }
    }

    /// Whether the name has a free occurrence in the formula.
    pub open spec fn has_free(self, n: Name) -> bool {
        self.free_vars().contains(n)
    }

    /// Whether some quantifier of the formula binds the name.
    pub open spec fn binds(self, n: Name) -> bool {
        self.bound_names().contains(n)
    }

    /// Whether the formula is propositional: built from variables by the
    /// connectives alone.
    pub open spec fn propositional(self) -> bool
        decreases self,
    {
        match self {
            Formula::Var(_) => true,
            Formula::Predicate(_, _) => false,
            Formula::Not(a) => a.propositional(),
            Formula::And(a, b)
            | Formula::Or(a, b)
            | Formula::Implicate(a, b)
            | Formula::Biimplicate(a, b) => a.propositional() && b.propositional(),
            Formula::ForAll(_, _) | Formula::Exists(_, _) => false,
        }
    }
}

/// The value that an assignment gives to a variable; false where it gives none.
pub open spec fn value_at(assignment: Map<Name, bool>, n: Name) -> bool {
    assignment.contains_key(n) && assignment[n]
}

/// A concatenation holds what one of its parts holds.
pub proof fn lemma_contains_concat<A>(a: Seq<A>, b: Seq<A>, x: A)
    ensures
        (a + b).contains(x) <==> a.contains(x) || b.contains(x),
{
    if a.contains(x) {
        let i = choose|i: int| 0 <= i < a.len() && a[i] == x;
        assert((a + b)[i] == x);
    }
    if b.contains(x) {
        let i = choose|i: int| 0 <= i < b.len() && b[i] == x;
        assert((a + b)[a.len() + i] == x);
    }
    if (a + b).contains(x) {
        let i = choose|i: int| 0 <= i < (a + b).len() && (a + b)[i] == x;
        if i < a.len() {
            assert(a[i] == x);
        } else {
            assert(b[i - a.len()] == x);
        }
    }
}

/// Offering items adds exactly the items to what a sequence holds.
pub proof fn lemma_insert_all_contains<A>(base: Seq<A>, items: Seq<A>, x: A)
    ensures
        insert_all(base, items).contains(x) <==> base.contains(x) || items.contains(x),
    decreases items.len(),
{
    if items.len() > 0 {
        let init = items.drop_last();
        lemma_insert_all_contains(base, init, x);
        let before = insert_all(base, init);
        let after = insert_last(before, items.last());
        if before.contains(x) {
            let i = choose|i: int| 0 <= i < before.len() && before[i] == x;
            assert(after[i] == x);
        }
        if after.contains(x) && !before.contains(x) {
            let i = choose|i: int| 0 <= i < after.len() && after[i] == x;
            if i < before.len() {
                assert(before[i] == x);
            }
            assert(x == items.last());
        }
        if items.contains(x) {
            let i = choose|i: int| 0 <= i < items.len() && items[i] == x;
            if i < init.len() {
                assert(init[i] == x);
            } else {
                if !before.contains(x) {
                    assert(after[before.len() as int] == x);
                }
            }
        }
        if init.contains(x) {
            let i = choose|i: int| 0 <= i < init.len() && init[i] == x;
            assert(items[i] == x);
        }
        if x == items.last() {
            assert(items[items.len() - 1] == x);
        }
    } else {
        assert(!items.contains(x));
    }
}

/// A name is among the free variables exactly when it has a free occurrence.
pub proof fn lemma_has_free(f: Formula, n: Name)
    ensures
        f.has_free(n) <==> f.free_occurrences(Seq::empty()).contains(n),
{
    lemma_insert_all_contains(Seq::<Name>::empty(), f.free_occurrences(Seq::empty()), n);
}

/// What `unbound` keeps: the names that `bound` does not hold.
pub proof fn lemma_unbound_contains(names: Seq<Name>, bound: Seq<Name>, n: Name)
    ensures
        unbound(names, bound).contains(n) <==> names.contains(n) && !bound.contains(n),
    decreases names.len(),
{
    if names.len() > 0 {
        let init = names.drop_last();
        lemma_unbound_contains(init, bound, n);
        let kept = unbound(init, bound);
        if names.contains(n) {
            let i = choose|i: int| 0 <= i < names.len() && names[i] == n;
            if i < init.len() {
                assert(init[i] == n);
            }
        }
        if init.contains(n) {
            let i = choose|i: int| 0 <= i < init.len() && init[i] == n;
            assert(names[i] == n);
        }
        assert(names[names.len() - 1] == names.last());
        if !bound.contains(names.last()) {
            let all = kept.push(names.last());
            if kept.contains(n) {
                let i = choose|i: int| 0 <= i < kept.len() && kept[i] == n;
                assert(all[i] == n);
            }
            if all.contains(n) {
                let i = choose|i: int| 0 <= i < all.len() && all[i] == n;
                if i < kept.len() {
                    assert(kept[i] == n);
                }
            }
            assert(all[kept.len() as int] == names.last());
        }
    } else {
        assert(!names.contains(n));
    }
}

/// Renaming after leaving out bound names is leaving them out after
/// renaming, where neither name is bound.
pub proof fn lemma_unbound_rename(names: Seq<Name>, bound: Seq<Name>, x: Name, y: Name)
    requires
        !bound.contains(x),
        !bound.contains(y),
    ensures
        unbound(rename(names, x, y), bound) == rename(unbound(names, bound), x, y),
    decreases names.len(),
{
    if names.len() > 0 {
        let init = names.drop_last();
        lemma_unbound_rename(init, bound, x, y);
        assert(rename(names, x, y).drop_last() =~= rename(init, x, y));
        let kept = unbound(init, bound);
        if !bound.contains(names.last()) {
            assert(rename(kept.push(names.last()), x, y) =~= rename(kept, x, y).push(
                rename(names, x, y).last(),
            ));
        }
    } else {
        assert(rename(names, x, y) =~= Seq::<Name>::empty());
        assert(rename(Seq::<Name>::empty(), x, y) =~= Seq::<Name>::empty());
    }
}

/// Renaming a name that a sequence does not hold changes nothing.
pub proof fn lemma_rename_absent(names: Seq<Name>, x: Name, y: Name)
    requires
        !names.contains(x),
    ensures
        rename(names, x, y) == names,
{
    assert forall|i: int| 0 <= i < names.len() implies rename(names, x, y)[i] == names[i] by {
        assert(names[i] != x);
    }
    assert(rename(names, x, y) =~= names);
}

/// A renamed sequence holds `n` exactly where the sequence held it and it
/// was not renamed, or it is the new name of a name that the sequence held.
pub proof fn lemma_rename_contains(names: Seq<Name>, x: Name, y: Name, n: Name)
    ensures
        rename(names, x, y).contains(n) <==> (n != x && names.contains(n)) || (n == y
            && names.contains(x)),
{
    let renamed = rename(names, x, y);
    if renamed.contains(n) {
        let i = choose|i: int| 0 <= i < renamed.len() && renamed[i] == n;
        assert(names[i] == x || names[i] == n);
    }
    if n != x && names.contains(n) {
        let i = choose|i: int| 0 <= i < names.len() && names[i] == n;
        assert(renamed[i] == n);
    }
    if n == y && names.contains(x) {
        let i = choose|i: int| 0 <= i < names.len() && names[i] == x;
        assert(renamed[i] == n);
    }
}

impl Formula {
    /// No free occurrence is of a name that an enclosing quantifier binds.
    pub proof fn lemma_free_occurrences_unbound(self, bound: Seq<Name>, n: Name)
        requires
            bound.contains(n),
        ensures
            !self.free_occurrences(bound).contains(n),
        decreases self,
    {
        match self {
            Formula::Var(v) => {
                lemma_unbound_contains(seq![v], bound, n);
            },
            Formula::Predicate(_, args) => {
                lemma_unbound_contains(args, bound, n);
            },
            Formula::Not(a) => {
                a.lemma_free_occurrences_unbound(bound, n);
            },
            Formula::And(a, b)
            | Formula::Or(a, b)
            | Formula::Implicate(a, b)
            | Formula::Biimplicate(a, b) => {
                a.lemma_free_occurrences_unbound(bound, n);
                b.lemma_free_occurrences_unbound(bound, n);
                lemma_contains_concat(a.free_occurrences(bound), b.free_occurrences(bound), n);
            },
            Formula::ForAll(v, a) | Formula::Exists(v, a) => {
                let i = choose|i: int| 0 <= i < bound.len() && bound[i] == n;
                assert(bound.push(v)[i] == n);
                a.lemma_free_occurrences_unbound(bound.push(v), n);
            },
        }
    }

    /// A name that the formula does not mention has no free occurrence and
    /// is not bound in it.
    pub proof fn lemma_unmentioned(self, bound: Seq<Name>, n: Name)
        requires
            !self.mentions(n),
        ensures
            !self.free_occurrences(bound).contains(n),
            !self.bound_names().contains(n),
        decreases self,
    {
        match self {
            Formula::Var(v) => {
                lemma_unbound_contains(seq![v], bound, n);
                if seq![v].contains(n) {
                    let i = choose|i: int| 0 <= i < seq![v].len() && seq![v][i] == n;
                }
            },
            Formula::Predicate(_, args) => {
                lemma_unbound_contains(args, bound, n);
            },
            Formula::Not(a) => {
                a.lemma_unmentioned(bound, n);
            },
            Formula::And(a, b)
            | Formula::Or(a, b)
            | Formula::Implicate(a, b)
            | Formula::Biimplicate(a, b) => {
                a.lemma_unmentioned(bound, n);
                b.lemma_unmentioned(bound, n);
                lemma_contains_concat(a.free_occurrences(bound), b.free_occurrences(bound), n);
                lemma_contains_concat(a.bound_names(), b.bound_names(), n);
            },
            Formula::ForAll(v, a) | Formula::Exists(v, a) => {
                a.lemma_unmentioned(bound.push(v), n);
                lemma_contains_concat(seq![v], a.bound_names(), n);
                if seq![v].contains(n) {
                    let i = choose|i: int| 0 <= i < seq![v].len() && seq![v][i] == n;
                }
            },
        }
    }

    /// A name in a formula after a substitution was in it before, or is
    /// the name that was put in.
    pub proof fn lemma_substitute_mentions(self, x: Name, y: Name, n: Name)
        requires
            self.substitute(x, y).mentions(n),
        ensures
            self.mentions(n) || n == y,
        decreases self,
    {
        match self {
            Formula::Var(_) => {},
            Formula::Predicate(_, args) => {
                lemma_rename_contains(args, x, y, n);
            },
            Formula::Not(a) => {
                a.lemma_substitute_mentions(x, y, n);
            },
            Formula::And(a, b)
            | Formula::Or(a, b)
            | Formula::Implicate(a, b)
            | Formula::Biimplicate(a, b) => {
                if a.substitute(x, y).mentions(n) {
                    a.lemma_substitute_mentions(x, y, n);
                } else {
                    b.lemma_substitute_mentions(x, y, n);
                }
            },
            Formula::ForAll(v, a) | Formula::Exists(v, a) => {
                if v != x && v != n {
                    a.lemma_substitute_mentions(x, y, n);
                }
            },
        }
    }

    /// A name with a free occurrence is a name of the formula.
    pub proof fn lemma_free_is_mentioned(self, bound: Seq<Name>, n: Name)
        requires
            self.free_occurrences(bound).contains(n),
        ensures
            self.mentions(n),
        decreases self,
    {
        match self {
            Formula::Var(v) => {
                lemma_unbound_contains(seq![v], bound, n);
                let i = choose|i: int| 0 <= i < seq![v].len() && seq![v][i] == n;
            },
            Formula::Predicate(_, args) => {
                lemma_unbound_contains(args, bound, n);
            },
            Formula::Not(a) => {
                a.lemma_free_is_mentioned(bound, n);
            },
            Formula::And(a, b)
            | Formula::Or(a, b)
            | Formula::Implicate(a, b)
            | Formula::Biimplicate(a, b) => {
                lemma_contains_concat(a.free_occurrences(bound), b.free_occurrences(bound), n);
                if a.free_occurrences(bound).contains(n) {
                    a.lemma_free_is_mentioned(bound, n);
                } else {
                    b.lemma_free_is_mentioned(bound, n);
                }
            },
            Formula::ForAll(v, a) | Formula::Exists(v, a) => {
                a.lemma_free_is_mentioned(bound.push(v), n);
            },
        }
    }

    /// Substitution never changes which names the quantifiers bind.
    pub proof fn law_substitute_keeps_bound_names(self, x: Name, y: Name)
        ensures
            self.substitute(x, y).bound_names() == self.bound_names(),
        decreases self,
    {
        match self {
            Formula::Var(_) | Formula::Predicate(_, _) => {},
            Formula::Not(a) => {
                a.law_substitute_keeps_bound_names(x, y);
            },
            Formula::And(a, b)
            | Formula::Or(a, b)
            | Formula::Implicate(a, b)
            | Formula::Biimplicate(a, b) => {
                a.law_substitute_keeps_bound_names(x, y);
                b.law_substitute_keeps_bound_names(x, y);
            },
            Formula::ForAll(_, a) | Formula::Exists(_, a) => {
                a.law_substitute_keeps_bound_names(x, y);
            },
        }
    }

    /// Substitution for a name without a free occurrence changes nothing.
    /// (`bound` holds names that enclosing quantifiers bind; `x` is not
    /// among them.)
    pub proof fn lemma_substitute_not_free(self, bound: Seq<Name>, x: Name, y: Name)
        requires
            !bound.contains(x),
            !self.free_occurrences(bound).contains(x),
        ensures
            self.substitute(x, y) == self,
        decreases self,
    {
        match self {
            Formula::Var(v) => {
                lemma_unbound_contains(seq![v], bound, x);
                if v == x {
                    assert(seq![v][0] == x);
                }
            },
            Formula::Predicate(_, args) => {
                lemma_unbound_contains(args, bound, x);
                lemma_rename_absent(args, x, y);
            },
            Formula::Not(a) => {
                a.lemma_substitute_not_free(bound, x, y);
            },
            Formula::And(a, b)
            | Formula::Or(a, b)
            | Formula::Implicate(a, b)
            | Formula::Biimplicate(a, b) => {
                lemma_contains_concat(a.free_occurrences(bound), b.free_occurrences(bound), x);
                a.lemma_substitute_not_free(bound, x, y);
                b.lemma_substitute_not_free(bound, x, y);
            },
            Formula::ForAll(v, a) | Formula::Exists(v, a) => {
                if v != x {
                    if bound.push(v).contains(x) {
                        let i = choose|i: int|
                            0 <= i < bound.push(v).len() && bound.push(v)[i] == x;
                        if i < bound.len() {
                            assert(bound[i] == x);
                        }
                    }
                    a.lemma_substitute_not_free(bound.push(v), x, y);
                }
            },
        }
    }

    /// The free occurrences after a substitution are the free occurrences
    /// before it, renamed, where no quantifier of the formula binds the
    /// new name. (`bound` holds names that enclosing quantifiers bind;
    /// neither name is among them.)
    pub proof fn lemma_substitute_free_occurrences(self, bound: Seq<Name>, x: Name, y: Name)
        requires
            !bound.contains(x),
            !bound.contains(y),
            !self.bound_names().contains(y),
        ensures
            self.substitute(x, y).free_occurrences(bound) == rename(
                self.free_occurrences(bound),
                x,
                y,
            ),
        decreases self,
    {
        match self {
            Formula::Var(v) => {
                lemma_unbound_rename(seq![v], bound, x, y);
                assert(rename(seq![v], x, y) =~= seq![if v == x {
                    y
                } else {
                    v
                }]);
            },
            Formula::Predicate(_, args) => {
                lemma_unbound_rename(args, bound, x, y);
            },
            Formula::Not(a) => {
                a.lemma_substitute_free_occurrences(bound, x, y);
            },
            Formula::And(a, b)
            | Formula::Or(a, b)
            | Formula::Implicate(a, b)
            | Formula::Biimplicate(a, b) => {
                lemma_contains_concat(a.bound_names(), b.bound_names(), y);
                a.lemma_substitute_free_occurrences(bound, x, y);
                b.lemma_substitute_free_occurrences(bound, x, y);
                assert(rename(a.free_occurrences(bound) + b.free_occurrences(bound), x, y)
                    =~= rename(a.free_occurrences(bound), x, y) + rename(
                    b.free_occurrences(bound),
                    x,
                    y,
                ));
            },
            Formula::ForAll(v, a) | Formula::Exists(v, a) => {
                lemma_contains_concat(seq![v], a.bound_names(), y);
                assert(seq![v][0] == v);
                assert(v != y);
                let inner = bound.push(v);
                if v == x {
                    assert(inner[bound.len() as int] == x);
                    a.lemma_free_occurrences_unbound(inner, x);
                    lemma_rename_absent(a.free_occurrences(inner), x, y);
                } else {
                    assert(!inner.contains(x)) by {
                        if inner.contains(x) {
                            let i = choose|i: int| 0 <= i < inner.len() && inner[i] == x;
                            if i < bound.len() {
                                assert(bound[i] == x);
                            }
                        }
                    }
                    assert(!inner.contains(y)) by {
                        if inner.contains(y) {
                            let i = choose|i: int| 0 <= i < inner.len() && inner[i] == y;
                            if i < bound.len() {
                                assert(bound[i] == y);
                            }
                        }
                    }
                    a.lemma_substitute_free_occurrences(inner, x, y);
                }
            },
        }
    }

    /// Substitution for a name that the formula does not mention changes nothing.
    pub proof fn lemma_substitute_unmentioned(self, x: Name, y: Name)
        requires
            !self.mentions(x),
        ensures
            self.substitute(x, y) == self,
        decreases self,
    {
        match self {
            Formula::Var(_) => {},
            Formula::Predicate(_, args) => {
                lemma_rename_absent(args, x, y);
            },
            Formula::Not(a) => {
                a.lemma_substitute_unmentioned(x, y);
            },
            Formula::And(a, b)
            | Formula::Or(a, b)
            | Formula::Implicate(a, b)
            | Formula::Biimplicate(a, b) => {
                a.lemma_substitute_unmentioned(x, y);
                b.lemma_substitute_unmentioned(x, y);
            },
            Formula::ForAll(_, a) | Formula::Exists(_, a) => {
                a.lemma_substitute_unmentioned(x, y);
            },
        }
    }

    /// Substitution changes the free occurrences of `x` and nothing else:
    /// the quantifiers bind the names that they bound; a formula in which
    /// `x` is not free stays as it is; and where no quantifier binds `y`,
    /// the free occurrences are the former ones with `y` for `x`.
    pub proof fn law_substitute_changes_free_occurrences_only(self, x: Name, y: Name)
        ensures
            self.substitute(x, y).bound_names() == self.bound_names(),
            !self.has_free(x) ==> self.substitute(x, y) == self,
            !self.binds(y) ==> self.substitute(x, y).free_occurrences(Seq::empty()) == rename(
                self.free_occurrences(Seq::empty()),
                x,
                y,
            ),
    {
        self.law_substitute_keeps_bound_names(x, y);
        lemma_has_free(self, x);
        let none = Seq::<Name>::empty();
        if !self.has_free(x) {
            self.lemma_substitute_not_free(none, x, y);
        }
        if !self.binds(y) {
            self.lemma_substitute_free_occurrences(none, x, y);
        }
    }

    /// Substituting a name that the formula does not mention, and then the
    /// former name back, gives the formula itself (and so a formula that
    /// is equivalent up to the names of bound variables).
    pub proof fn law_substitute_round_trip(self, x: Name, y: Name)
        requires
            !self.mentions(y),
        ensures
            self.substitute(x, y).substitute(y, x) == self,
        decreases self,
    {
        match self {
            Formula::Var(_) => {},
            Formula::Predicate(_, args) => {
                assert forall|i: int| 0 <= i < args.len() implies rename(rename(args, x, y), y, x)[i]
                    == args[i] by {
                    assert(args[i] != y);
                }
                assert(rename(rename(args, x, y), y, x) =~= args);
            },
            Formula::Not(a) => {
                a.law_substitute_round_trip(x, y);
            },
            Formula::And(a, b)
            | Formula::Or(a, b)
            | Formula::Implicate(a, b)
            | Formula::Biimplicate(a, b) => {
                a.law_substitute_round_trip(x, y);
                b.law_substitute_round_trip(x, y);
            },
            Formula::ForAll(v, a) | Formula::Exists(v, a) => {
                if v == x {
                    a.lemma_substitute_unmentioned(y, x);
                } else {
                    a.law_substitute_round_trip(x, y);
                }
            },
        }
    }

    /// After a substitution of a name that the formula does not mention,
    /// a name is both free and bound exactly if it was so before and is
    /// not the name that was replaced. So where `x` was the only name both
    /// free and bound, or there was none, no name is both afterwards.
    pub proof fn law_substitute_separates_free_and_bound(self, x: Name, y: Name, n: Name)
        requires
            !self.mentions(y),
        ensures
            self.substitute(x, y).has_free(n) && self.substitute(x, y).binds(n) <==> self.has_free(
                n,
            ) && self.binds(n) && n != x,
    {
        let none = Seq::<Name>::empty();
        let after = self.substitute(x, y);
        self.lemma_unmentioned(none, y);
        self.law_substitute_keeps_bound_names(x, y);
        self.lemma_substitute_free_occurrences(none, x, y);
        lemma_has_free(self, n);
        lemma_has_free(after, n);
        lemma_rename_contains(self.free_occurrences(none), x, y, n);
    }

    /// The value of a formula depends on the values of its free variables
    /// only.
    pub proof fn law_eval_depends_on_free_vars(self, a: Map<Name, bool>, b: Map<Name, bool>)
        requires
            forall|n: Name| self.has_free(n) ==> value_at(a, n) == value_at(b, n),
        ensures
            self.eval(a) == self.eval(b),
    {
        assert forall|n: Name| self.free_occurrences(Seq::empty()).contains(n) implies value_at(
            a,
            n,
        ) == value_at(b, n) by {
            lemma_has_free(self, n);
        }
        self.lemma_eval_agrees(a, b);
    }

    /// Two assignments that agree on the names with a free occurrence give
    /// the formula the same value.
    pub proof fn lemma_eval_agrees(self, a: Map<Name, bool>, b: Map<Name, bool>)
        requires
            forall|n: Name|
                self.free_occurrences(Seq::empty()).contains(n) ==> value_at(a, n) == value_at(
                    b,
                    n,
                ),
        ensures
            self.eval(a) == self.eval(b),
        decreases self,
    {
        let none = Seq::<Name>::empty();
        match self {
            Formula::Var(v) => {
                lemma_unbound_contains(seq![v], none, v);
                assert(seq![v][0] == v);
                assert(seq![v].contains(v));
                assert(!none.contains(v));
                assert(self.free_occurrences(none).contains(v));
                assert(value_at(a, v) == value_at(b, v));
            },
            Formula::Not(x) => {
                x.lemma_eval_agrees(a, b);
            },
            Formula::And(x, y)
            | Formula::Or(x, y)
            | Formula::Implicate(x, y)
            | Formula::Biimplicate(x, y) => {
                assert forall|n: Name| x.free_occurrences(none).contains(n) implies value_at(a, n)
                    == value_at(b, n) by {
                    lemma_contains_concat(x.free_occurrences(none), y.free_occurrences(none), n);
                }
                assert forall|n: Name| y.free_occurrences(none).contains(n) implies value_at(a, n)
                    == value_at(b, n) by {
                    lemma_contains_concat(x.free_occurrences(none), y.free_occurrences(none), n);
                }
                x.lemma_eval_agrees(a, b);
                y.lemma_eval_agrees(a, b);
            },
            _ => {},
        }
    }

    /// The value of a propositional formula is its classical truth value:
    /// a variable has the value that the assignment gives it, and each
    /// connective follows its truth table.
    pub proof fn law_eval_is_classical(self, a: Map<Name, bool>)
        requires
            self.propositional(),
        ensures
            match self {
                Formula::Var(x) => self.eval(a) == value_at(a, x),
                Formula::Not(p) => self.eval(a) == !p.eval(a),
                Formula::And(p, q) => self.eval(a) == (p.eval(a) && q.eval(a)),
                Formula::Or(p, q) => self.eval(a) == (p.eval(a) || q.eval(a)),
                Formula::Implicate(p, q) => self.eval(a) == (!p.eval(a) || q.eval(a)),
                Formula::Biimplicate(p, q) => self.eval(a) == (p.eval(a) == q.eval(a)),
                _ => false,
            },
    {
    }
}

} // verus!
