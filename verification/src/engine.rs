//! The tableau procedure as mathematics: the proof tree, the rule for
//! each connective and sign, and the run of the search, step by step.

use crate::ast::{Formula, Name};
use crate::formula::insert_all;
use crate::knowledge::{FactModel, KnowledgeModel, Signed};
use crate::text::{decimal, law_decimal_is_injective};
use vstd::prelude::*;

verus! {

/// The search stops once this many steps were taken.
pub const STEP_LIMIT: usize = 300;

/// The search stops once this many fresh constants were introduced.
pub const CONSTANT_LIMIT: usize = 100;

/// The search stops once this many facts were numbered.
pub const FACT_LIMIT: usize = 100;

/// A node of the proof tree: the facts that it adds to its branch, and
/// whether the branch is refuted there.
pub struct NodeModel {
    pub facts: Seq<FactModel>,
    pub closed: bool,
}

/// An edge of the proof tree, labelled with the fact whose expansion led
/// from the one node to the other.
pub struct EdgeModel {
    pub from: nat,
    pub fact: nat,
    pub to: nat,
}

/// The engine: three counters, the knowledge of the branch that is being
/// extended, and the tree built so far.
pub struct TableauModel {
    pub facts_counter: nat,
    pub constant_counter: nat,
    pub process_counter: nat,
    pub knowledge: KnowledgeModel,
    pub nodes: Seq<NodeModel>,
    pub edges: Seq<EdgeModel>,
}

/// What the rule for a signed formula asks for.
pub enum Expansion {
    /// Atomic: nothing to expand.
    Nothing,
    /// The branch goes on with these signed formulas.
    Straight(Seq<Signed>),
    /// The branch forks: the one side goes on with the first list, the
    /// other with the second.
    Branch(Seq<Signed>, Seq<Signed>),
    /// The body is to be instantiated for every known name.
    Repeat(Name, Formula),
    /// The body is to be instantiated once, for a fresh constant.
    Witness(Name, Formula),
}

/// The tableau rule for a formula that is assumed to be `expect`.
pub open spec fn expansion(f: Formula, expect: bool) -> Expansion {
    match f {
        Formula::Var(_) | Formula::Predicate(_, _) => Expansion::Nothing,
        Formula::Not(a) => Expansion::Straight(seq![(*a, !expect)]),
        Formula::And(a, b) => if expect {
            Expansion::Straight(seq![(*a, true), (*b, true)])
        } else {
            Expansion::Branch(seq![(*a, false)], seq![(*b, false)])
        },
        Formula::Or(a, b) => if expect {
            Expansion::Branch(seq![(*a, true)], seq![(*b, true)])
        } else {
            Expansion::Straight(seq![(*a, false), (*b, false)])
        },
        Formula::Implicate(a, b) => if expect {
            Expansion::Branch(seq![(*a, false)], seq![(*b, true)])
        } else {
            Expansion::Straight(seq![(*a, true), (*b, false)])
        },
        Formula::Biimplicate(a, b) => if expect {
            Expansion::Branch(seq![(*a, false), (*b, false)], seq![(*a, true), (*b, true)])
        } else {
            Expansion::Branch(seq![(*a, false), (*b, true)], seq![(*a, true), (*b, false)])
        },
        Formula::ForAll(x, a) => if expect {
            Expansion::Repeat(x, *a)
        } else {
            Expansion::Witness(x, *a)
        },
        Formula::Exists(x, a) => if expect {
            Expansion::Witness(x, *a)
        } else {
            Expansion::Repeat(x, *a)
        },
    }
}

/// The signed formulas as facts, numbered from `first` on.
pub open spec fn numbered(cons: Seq<Signed>, first: nat) -> Seq<FactModel> {
    Seq::new(
        cons.len(),
        |i: int| FactModel { id: (first + i) as nat, formula: cons[i].0, expect: cons[i].1 },
    )
}

/// The name of the fresh constant with this number: `C0`, `C1`, ...
pub open spec fn constant_name(n: nat) -> Name {
    seq!['C'] + decimal(n)
}

/// Fresh constants with different numbers have different names.
pub proof fn law_fresh_names_differ(n: nat, m: nat)
    requires
        n != m,
    ensures
        constant_name(n) != constant_name(m),
{
    if constant_name(n) == constant_name(m) {
        assert(constant_name(n).skip(1) =~= decimal(n));
        assert(constant_name(m).skip(1) =~= decimal(m));
        law_decimal_is_injective(n, m);
    }
}

/// The names that the search starts with: the free names of the given
/// formulas, formula by formula, each once.
pub open spec fn seed_constants(start: Seq<Signed>) -> Seq<Name>
    decreases start.len(),
{
    if start.len() == 0 {
        Seq::empty()
    } else {
        insert_all(seed_constants(start.drop_last()), start.last().0.free_vars())
    }
}

impl TableauModel {
    /// The engine before anything was given to it.
    pub open spec fn initial(constants: Seq<Name>) -> TableauModel {
        TableauModel {
            facts_counter: 0,
            constant_counter: 0,
            process_counter: 0,
            knowledge: KnowledgeModel::initial(constants),
            nodes: Seq::empty(),
            edges: Seq::empty(),
        }
    }

    /// The engine with other knowledge in place of its own.
    pub open spec fn with_knowledge(self, knowledge: KnowledgeModel) -> TableauModel {
        TableauModel { knowledge, ..self }
    }

    /// One more node, open, that holds the signed formulas as new facts.
    pub open spec fn alloc_node(self, cons: Seq<Signed>) -> TableauModel {
        TableauModel {
            facts_counter: self.facts_counter + cons.len(),
            nodes: self.nodes.push(
                NodeModel { facts: numbered(cons, self.facts_counter), closed: false },
            ),
            ..self
        }
    }

    /// One more edge.
    pub open spec fn create_edge(self, from: nat, fact: nat, to: nat) -> TableauModel {
        TableauModel { edges: self.edges.push(EdgeModel { from, fact, to }), ..self }
    }

    /// The node is marked as closed.
    pub open spec fn close(self, node: nat) -> TableauModel {
        TableauModel {
            nodes: self.nodes.update(
                node as int,
                NodeModel { closed: true, ..self.nodes[node as int] },
            ),
            ..self
        }
    }

    /// A fresh constant is named and made known.
    pub open spec fn alloc_constant(self) -> (TableauModel, Name) {
        let name = constant_name(self.constant_counter);
        (
            TableauModel {
                constant_counter: self.constant_counter + 1,
                knowledge: self.knowledge.register_constant(name),
                ..self
            },
            name,
        )
    }

    /// How many steps may still be taken.
    pub open spec fn steps_left(self) -> nat {
        if self.process_counter >= STEP_LIMIT {
            0
        } else {
            (STEP_LIMIT - self.process_counter) as nat
        }
    }

    /// Whether one of the three limits is reached.
    pub open spec fn exhausted(self) -> bool {
        ||| self.process_counter >= STEP_LIMIT
        ||| self.constant_counter >= CONSTANT_LIMIT
        ||| self.facts_counter >= FACT_LIMIT
    }

    /// One step at the node `from`. Past a limit nothing happens. Else the
    /// step is counted; a branch that `closes` is marked at its node and
    /// ends; an open branch takes the most urgent pending work, goes on
    /// with an instance of a repeater as it stands and with anything else
    /// by its rule, and ends where nothing is pending.
    pub open spec fn process_next(self, from: nat, closes: bool) -> TableauModel
        decreases self.steps_left(), 0nat,
    {
        if self.exhausted() {
            self
        } else {
            let s = TableauModel { process_counter: self.process_counter + 1, ..self };
            if closes {
                s.close(from)
            } else {
                match s.knowledge.pop() {
                    None => s,
                    Some((knowledge, picked)) => if picked.repeated {
                        s.with_knowledge(knowledge).straight(
                            from,
                            picked.fact.id,
                            seq![(picked.fact.formula, picked.fact.expect)],
                        )
                    } else {
                        s.with_knowledge(knowledge).process(from, picked.fact)
                    },
                }
            }
        }
    }

    /// Applies the rule of a fact at the node `from`.
    pub open spec fn process(self, from: nat, fact: FactModel) -> TableauModel
        decreases self.steps_left(), 3nat,
    {
        match expansion(fact.formula, fact.expect) {
            Expansion::Nothing => self.process_next(from, false),
            Expansion::Straight(next) => self.straight(from, fact.id, next),
            Expansion::Branch(left, right) => self.branch(from, fact.id, left, right),
            Expansion::Repeat(name, body) => self.with_knowledge(
                self.knowledge.add_repeater(fact.id, name, body, fact.expect),
            ).straight(from, fact.id, Seq::empty()),
            Expansion::Witness(name, body) => {
                let (s, constant) = self.alloc_constant();
                s.straight(from, fact.id, seq![(body.substitute(name, constant), fact.expect)])
            },
        }
    }

    /// Extends the branch at `from`. A list that is not empty becomes a
    /// new node below `from`, with an edge that names the expanded fact;
    /// its facts are taken into the knowledge, and the search goes on at
    /// the new node. An empty list changes nothing in the tree, and the
    /// search goes on at `from`.
    pub open spec fn straight(self, from: nat, fact: nat, cons: Seq<Signed>) -> TableauModel
        decreases self.steps_left(), 1nat,
    {
        if cons.len() > 0 {
            let node = self.nodes.len();
            let s = self.alloc_node(cons).create_edge(from, fact, node);
            let (knowledge, closes) = s.knowledge.queue_facts(s.nodes[node as int].facts);
            s.with_knowledge(knowledge).process_next(node, closes)
        } else {
            self.process_next(from, false)
        }
    }

    /// Forks the branch at `from`: the one side is searched to its end,
    /// then the other. Each side starts from the knowledge as it was at
    /// the fork, and that knowledge is back in place at the end. (The
    /// count of steps never falls: see `lemma_straight`; the test on it
    /// makes the definition well-founded.)
    pub open spec fn branch(
        self,
        from: nat,
        fact: nat,
        left: Seq<Signed>,
        right: Seq<Signed>,
    ) -> TableauModel
        decreases self.steps_left(), 2nat,
    {
        let first = self.straight(from, fact, left).with_knowledge(self.knowledge);
        if first.process_counter < self.process_counter {
            first
        } else {
            first.straight(from, fact, right).with_knowledge(self.knowledge)
        }
    }
}

/// The finished tableau for a list of signed formulas: the root holds
/// them as the facts 0, 1, ...; the names known at first are their free
/// names; then the search runs until nothing is pending on any branch or
/// a limit is reached.
pub open spec fn tableau_of(start: Seq<Signed>) -> TableauModel {
    let root = TableauModel::initial(seed_constants(start)).alloc_node(start);
    let (knowledge, closes) = root.knowledge.queue_facts(root.nodes[0].facts);
    root.with_knowledge(knowledge).process_next(0, closes)
}

} // verus!
