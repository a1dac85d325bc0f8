//! Rendering of formulas as text, plain and as LaTeX markup.

use crate::ast::{Connective, Formula};
use crate::text::{join, join_strings};
use vstd::prelude::*;
use vstd::string::*;

verus! {

/// The precedence that the whole formula is rendered inside: looser than
/// every operator, so that the outermost one is never bracketed.
pub const OUTERMOST: usize = 9999;

/// `text` as it stands inside an operator of precedence `outer`: in brackets
/// where `f` binds more loosely than `outer`, or as loosely while it does
/// not tolerate an equal neighbour.
pub open spec fn bracketed(text: Seq<char>, f: Formula, outer: nat) -> Seq<char> {
    if (f.associative() && f.precedence() <= outer) || f.precedence() < outer {
        text
    } else {
        "("@ + text + ")"@
    }
}

impl Formula {
    /// The sign of the outermost operator; empty for atomic formulas.
    pub open spec fn symbol(self) -> Seq<char> {
        match self {
            Formula::Var(_) | Formula::Predicate(_, _) => ""@,
            Formula::Not(_) => "¬"@,
            Formula::And(_, _) => "∧"@,
            Formula::Or(_, _) => "∨"@,
            Formula::Implicate(_, _) => "→"@,
            Formula::Biimplicate(_, _) => "↔"@,
            Formula::ForAll(_, _) => "∀"@,
            Formula::Exists(_, _) => "∃"@,
        }
    }

    /// The LaTeX command of the outermost operator; empty for atomic formulas.
    pub open spec fn latex_symbol(self) -> Seq<char> {
        match self {
            Formula::Var(_) | Formula::Predicate(_, _) => ""@,
            Formula::Not(_) => "\\neg"@,
            Formula::And(_, _) => "\\land"@,
            Formula::Or(_, _) => "\\lor"@,
            Formula::Implicate(_, _) => "\\to"@,
            Formula::Biimplicate(_, _) => "\\leftrightarrow"@,
            Formula::ForAll(_, _) => "\\forall"@,
            Formula::Exists(_, _) => "\\exists"@,
        }
    }

    /// The plain text of the formula inside an operator of precedence `outer`.
    pub open spec fn pretty_inside(self, outer: nat) -> Seq<char>
        decreases self,
    {
        let own = self.precedence();
        let text = match self {
            Formula::Not(a) => self.symbol() + a.pretty_inside(own),
            Formula::Predicate(p, args) => p + "("@ + join(args, ", "@) + ")"@,
            Formula::Var(x) => x,
            Formula::And(a, b)
            | Formula::Or(a, b)
            | Formula::Implicate(a, b)
            | Formula::Biimplicate(a, b) => a.pretty_inside(own) + " "@ + self.symbol() + " "@
                + b.pretty_inside(own),
            Formula::ForAll(x, a) | Formula::Exists(x, a) => self.symbol() + x + " "@
                + a.pretty_inside(own),
        };
        bracketed(text, self, outer)
    }

    /// The plain text of the formula.
    pub open spec fn pretty(self) -> Seq<char> {
        self.pretty_inside(OUTERMOST as nat)
    }

    /// The LaTeX markup of the formula inside an operator of precedence `outer`.
    pub open spec fn pretty_latex_inside(self, outer: nat) -> Seq<char>
        decreases self,
    {
        let own = self.precedence();
        let text = match self {
            Formula::Not(a) => self.latex_symbol() + " "@ + a.pretty_latex_inside(own),
            Formula::Var(x) => x,
            Formula::Predicate(p, args) => p + "("@ + join(args, ", "@) + ")"@,
            Formula::And(a, b)
            | Formula::Or(a, b)
            | Formula::Implicate(a, b)
            | Formula::Biimplicate(a, b) => a.pretty_latex_inside(own) + " "@ + self.latex_symbol()
                + " "@ + b.pretty_latex_inside(own),
            Formula::ForAll(x, a) | Formula::Exists(x, a) => self.latex_symbol() + x + " "@
                + a.pretty_latex_inside(own),
        };
        bracketed(text, self, outer)
    }

    /// The LaTeX markup of the formula.
    pub open spec fn pretty_latex(self) -> Seq<char> {
        self.pretty_latex_inside(OUTERMOST as nat)
    }
}

impl Connective {
    /// The sign of the outermost operator; empty for atomic formulas.
    pub fn symbol(&self) -> (r: &'static str)
        ensures
            r@ == self@.symbol(),
    {
        match self {
            Connective::Var(_) | Connective::Predicate(_, _) => "",
            Connective::Not(_) => "¬",
            Connective::And(_, _) => "∧",
            Connective::Or(_, _) => "∨",
            Connective::Implicate(_, _) => "→",
            Connective::Biimplicate(_, _) => "↔",
            Connective::ForAll(_, _) => "∀",
            Connective::Exists(_, _) => "∃",
        }
    }

    /// The LaTeX command of the outermost operator; empty for atomic formulas.
    pub fn latex_symbol(&self) -> (r: &'static str)
        ensures
            r@ == self@.latex_symbol(),
    {
        match self {
            Connective::Var(_) | Connective::Predicate(_, _) => "",
            Connective::Not(_) => "\\neg",
            Connective::And(_, _) => "\\land",
            Connective::Or(_, _) => "\\lor",
            Connective::Implicate(_, _) => "\\to",
            Connective::Biimplicate(_, _) => "\\leftrightarrow",
            Connective::ForAll(_, _) => "\\forall",
            Connective::Exists(_, _) => "\\exists",
        }
    }

    /// The formula as plain text. A part stands in brackets where it binds
    /// more loosely than the operator around it, or as loosely while it
    /// does not tolerate an equal neighbour (implication, biconditional
    /// and the quantifiers do not).
    pub fn pretty(&self) -> (r: String)
        ensures
            r@ == self@.pretty(),
    {
        self.pretty_helper(OUTERMOST)
    }

    /// Puts the text of the formula in brackets where an operator of the
    /// given precedence around it asks for them.
    fn bracket(&self, text: String, precedence: usize) -> (r: String)
        ensures
            r@ == bracketed(text@, self@, precedence as nat),
    {
        let own_precedence = self.precedence();
        if self.associative() && own_precedence <= precedence || own_precedence < precedence {
            text
        } else {
            let mut r = String::new();
            r.append("(");
            r.append(text.as_str());
            r.append(")");
            assert(r@ =~= "("@ + text@ + ")"@);
            r
        }
    }

    /// The plain text of the formula inside an operator of the given precedence.
    fn pretty_helper(&self, precedence: usize) -> (r: String)
        ensures
            r@ == self@.pretty_inside(precedence as nat),
        decreases self,
    {
        let own_precedence = self.precedence();
        let mut s = String::new();
        match self {
            Connective::Not(x) => {
                s.append(self.symbol());
                s.append(x.pretty_helper(own_precedence).as_str());
                assert(s@ =~= self@.symbol() + x@.pretty_inside(own_precedence as nat));
            },
            Connective::Predicate(x, y) => {
                s.append(x.as_str());
                s.append("(");
                s.append(join_strings(y, ", ").as_str());
                s.append(")");
                assert(s@ =~= x@ + "("@ + join(crate::ast::names_of(y@), ", "@) + ")"@);
            },
            Connective::Var(x) => {
                s.append(x.as_str());
                assert(s@ =~= x@);
            },
            Connective::And(a, b)
            | Connective::Or(a, b)
            | Connective::Implicate(a, b)
            | Connective::Biimplicate(a, b) => {
                s.append(a.pretty_helper(own_precedence).as_str());
                s.append(" ");
                s.append(self.symbol());
                s.append(" ");
                s.append(b.pretty_helper(own_precedence).as_str());
                assert(s@ =~= a@.pretty_inside(own_precedence as nat) + " "@ + self@.symbol() + " "@
                    + b@.pretty_inside(own_precedence as nat));
            },
            Connective::ForAll(a, b) | Connective::Exists(a, b) => {
                s.append(self.symbol());
                s.append(a.as_str());
                s.append(" ");
                s.append(b.pretty_helper(own_precedence).as_str());
                assert(s@ =~= self@.symbol() + a@ + " "@ + b@.pretty_inside(
                    own_precedence as nat,
                ));
            },
        }
        self.bracket(s, precedence)
    }

    /// The formula as LaTeX markup, bracketed as the plain text is.
    pub fn pretty_latex(&self) -> (r: String)
        ensures
            r@ == self@.pretty_latex(),
    {
        self.pretty_latex_helper(OUTERMOST)
    }

    /// The LaTeX markup of the formula inside an operator of the given precedence.
    fn pretty_latex_helper(&self, precedence: usize) -> (r: String)
        ensures
            r@ == self@.pretty_latex_inside(precedence as nat),
        decreases self,
    {
        let own_precedence = self.precedence();
        let mut s = String::new();
        match self {
            Connective::Not(x) => {
                s.append(self.latex_symbol());
                s.append(" ");
                s.append(x.pretty_latex_helper(own_precedence).as_str());
                assert(s@ =~= self@.latex_symbol() + " "@ + x@.pretty_latex_inside(
                    own_precedence as nat,
                ));
            },
            Connective::Var(x) => {
                s.append(x.as_str());
                assert(s@ =~= x@);
            },
            Connective::Predicate(x, y) => {
                s.append(x.as_str());
                s.append("(");
                s.append(join_strings(y, ", ").as_str());
                s.append(")");
                assert(s@ =~= x@ + "("@ + join(crate::ast::names_of(y@), ", "@) + ")"@);
            },
            Connective::And(a, b)
            | Connective::Or(a, b)
            | Connective::Implicate(a, b)
            | Connective::Biimplicate(a, b) => {
                s.append(a.pretty_latex_helper(own_precedence).as_str());
                s.append(" ");
                s.append(self.latex_symbol());
                s.append(" ");
                s.append(b.pretty_latex_helper(own_precedence).as_str());
                assert(s@ =~= a@.pretty_latex_inside(own_precedence as nat) + " "@
                    + self@.latex_symbol() + " "@ + b@.pretty_latex_inside(own_precedence as nat));
            },
            Connective::ForAll(a, b) | Connective::Exists(a, b) => {
                s.append(self.latex_symbol());
                s.append(a.as_str());
                s.append(" ");
                s.append(b.pretty_latex_helper(own_precedence).as_str());
                assert(s@ =~= self@.latex_symbol() + a@ + " "@ + b@.pretty_latex_inside(
                    own_precedence as nat,
                ));
            },
        }
        self.bracket(s, precedence)
    }
}

} // verus!
