//! The formula type, its mathematical model and structural equality.

use vstd::prelude::*;

verus! {

/// A name as contracts see it: the characters of a `String`.
pub type Name = Seq<char>;

/// The mathematical model of a formula. Contracts speak of this type; the
/// executable `Connective` is viewed as one.
pub enum Formula {
    Var(Name),
    Predicate(Name, Seq<Name>),
    Not(Box<Formula>),
    And(Box<Formula>, Box<Formula>),
    Or(Box<Formula>, Box<Formula>),
    Implicate(Box<Formula>, Box<Formula>),
    Biimplicate(Box<Formula>, Box<Formula>),
    ForAll(Name, Box<Formula>),
    Exists(Name, Box<Formula>),
}

/// A logical expression: a propositional variable or term name, a predicate
/// over term names, one of the connectives, or a quantifier binding a name.
#[derive(Debug, Hash)]
pub enum Connective {
    Var(String),
    Predicate(String, Vec<String>),
    Not(Box<Connective>),
    And(Box<Connective>, Box<Connective>),
    Or(Box<Connective>, Box<Connective>),
    Implicate(Box<Connective>, Box<Connective>),
    Biimplicate(Box<Connective>, Box<Connective>),
    ForAll(String, Box<Connective>),
    Exists(String, Box<Connective>),
}

/// The names that a sequence of strings holds, in order.
pub open spec fn names_of(v: Seq<String>) -> Seq<Name> {
    Seq::new(v.len(), |i: int| v[i]@)
}

impl Connective {
    /// The formula that this value stands for.
    pub open spec fn model(self) -> Formula
        decreases self,
    {
        match self {
            Connective::Var(x) => Formula::Var(x@),
            Connective::Predicate(p, args) => Formula::Predicate(p@, names_of(args@)),
            Connective::Not(a) => Formula::Not(Box::new((*a).model())),
            Connective::And(a, b) => Formula::And(Box::new((*a).model()), Box::new((*b).model())),
            Connective::Or(a, b) => Formula::Or(Box::new((*a).model()), Box::new((*b).model())),
            Connective::Implicate(a, b) => Formula::Implicate(
                Box::new((*a).model()),
                Box::new((*b).model()),
            ),
            Connective::Biimplicate(a, b) => Formula::Biimplicate(
                Box::new((*a).model()),
                Box::new((*b).model()),
            ),
            Connective::ForAll(x, a) => Formula::ForAll(x@, Box::new((*a).model())),
            Connective::Exists(x, a) => Formula::Exists(x@, Box::new((*a).model())),
        }
    }
}

impl View for Connective {
    type V = Formula;

    open spec fn view(&self) -> Formula {
        self.model()
    }
}

/// Two sequences of strings hold the same names exactly when they agree in
/// length and character for character.
pub proof fn lemma_names_of_equal(a: Seq<String>, b: Seq<String>)
    ensures
        (names_of(a) == names_of(b)) <==> (a.len() == b.len() && forall|i: int|
            0 <= i < a.len() ==> a[i]@ == b[i]@),
{
    if names_of(a) == names_of(b) {
        assert(names_of(a).len() == names_of(b).len());
        assert forall|i: int| 0 <= i < a.len() implies a[i]@ == b[i]@ by {
            assert(names_of(a)[i] == names_of(b)[i]);
        }
    }
    if a.len() == b.len() && forall|i: int| 0 <= i < a.len() ==> a[i]@ == b[i]@ {
        assert(names_of(a) =~= names_of(b));
    }
}

/// Copies a list of names.
pub fn clone_names(v: &Vec<String>) -> (r: Vec<String>)
    ensures
        names_of(r@) == names_of(v@),
        r@.len() == v@.len(),
{
    let mut r: Vec<String> = Vec::new();
    let mut i: usize = 0;
    while i < v.len()
        invariant
            i <= v.len(),
            r@.len() == i,
            forall|j: int| 0 <= j < i ==> r@[j]@ == v@[j]@,
        decreases v.len() - i,
    {
        r.push(v[i].clone());
        i += 1;
    }
    proof {
        lemma_names_of_equal(r@, v@);
    }
    r
}

/// Whether two strings hold the same name.
pub fn same_name(a: &String, b: &String) -> (r: bool)
    ensures
        r == (a@ == b@),
{
    *a == *b
}

/// Whether two lists hold the same names in the same order.
pub fn same_names(a: &Vec<String>, b: &Vec<String>) -> (r: bool)
    ensures
        r == (names_of(a@) == names_of(b@)),
{
    if a.len() != b.len() {
        proof {
            lemma_names_of_equal(a@, b@);
        }
        return false;
    }
    let mut i: usize = 0;
    while i < a.len()
        invariant
            i <= a.len(),
            a.len() == b.len(),
            forall|j: int| 0 <= j < i ==> a@[j]@ == b@[j]@,
        decreases a.len() - i,
    {
        if !same_name(&a[i], &b[i]) {
            proof {
                lemma_names_of_equal(a@, b@);
            }
            return false;
        }
        i += 1;
    }
    proof {
        lemma_names_of_equal(a@, b@);
    }
    true
}

impl Connective {
    /// Structural equality: the two formulas have the same shape and the same
    /// names at every place.
    pub fn same(&self, other: &Connective) -> (r: bool)
        ensures
            r == (self@ == other@),
        decreases self,
    {
        match (self, other) {
            (Connective::Var(x), Connective::Var(y)) => same_name(x, y),
            (Connective::Predicate(p, a), Connective::Predicate(q, b)) => same_name(p, q) && same_names(
                a,
                b,
            ),
            (Connective::Not(a), Connective::Not(b)) => a.same(b),
            (Connective::And(a, b), Connective::And(c, d)) => a.same(c) && b.same(d),
            (Connective::Or(a, b), Connective::Or(c, d)) => a.same(c) && b.same(d),
            (Connective::Implicate(a, b), Connective::Implicate(c, d)) => a.same(c) && b.same(d),
            (Connective::Biimplicate(a, b), Connective::Biimplicate(c, d)) => a.same(c) && b.same(
                d,
            ),
            (Connective::ForAll(x, a), Connective::ForAll(y, b)) => same_name(x, y) && a.same(b),
            (Connective::Exists(x, a), Connective::Exists(y, b)) => same_name(x, y) && a.same(b),
            _ => false,
        }
    }
}

impl Clone for Connective {
    fn clone(&self) -> (res: Connective)
        ensures
            res@ == self@,
        decreases self,
    {
        match self {
            Connective::Var(x) => Connective::Var(x.clone()),
            Connective::Predicate(p, args) => Connective::Predicate(p.clone(), clone_names(args)),
            Connective::Not(a) => Connective::Not(Box::new((&**a).clone())),
            Connective::And(a, b) => Connective::And(
                Box::new((&**a).clone()),
                Box::new((&**b).clone()),
            ),
            Connective::Or(a, b) => Connective::Or(
                Box::new((&**a).clone()),
                Box::new((&**b).clone()),
            ),
            Connective::Implicate(a, b) => Connective::Implicate(
                Box::new((&**a).clone()),
                Box::new((&**b).clone()),
            ),
            Connective::Biimplicate(a, b) => Connective::Biimplicate(
                Box::new((&**a).clone()),
                Box::new((&**b).clone()),
            ),
            Connective::ForAll(x, a) => Connective::ForAll(x.clone(), Box::new((&**a).clone())),
            Connective::Exists(x, a) => Connective::Exists(x.clone(), Box::new((&**a).clone())),
        }
    }
}

impl PartialEq for Connective {
    fn eq(&self, other: &Connective) -> (r: bool) {
        self.same(other)
    }
}

impl vstd::std_specs::cmp::PartialEqSpecImpl for Connective {
    open spec fn obeys_eq_spec() -> bool {
        true
    }

    open spec fn eq_spec(&self, other: &Connective) -> bool {
        self@ == other@
    }
}

impl Eq for Connective {

}

} // verus!
