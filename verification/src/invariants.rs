//! What holds of the proof tree at every step of the search, and hence
//! of every finished tableau: the shape of the tree, the meaning of a
//! closed node, where the names in it come from, and the bounds on its
//! size.

use crate::ast::{Formula, Name};
use crate::engine::{
    constant_name, expansion, numbered, seed_constants, tableau_of, EdgeModel, Expansion,
    NodeModel, TableauModel, CONSTANT_LIMIT, FACT_LIMIT, STEP_LIMIT,
};
use crate::theory::{lemma_has_free, lemma_insert_all_contains};
use crate::knowledge::{
    first_minimum, lemma_first_minimum, lemma_repeated_in_range, repeated_candidates, scores,
    standard_candidates, FactModel, KnowledgeModel, Signed,
};
use vstd::prelude::*;

verus! {

/// No tableau has more nodes than this.
pub const NODE_BOUND: usize = 201;

/// No tableau has more facts than this, unless it was given more to start with.
pub const FACT_BOUND: usize = 301;

/// Whether the facts hold `f` with the sign `expect`.
pub open spec fn holds(facts: Seq<FactModel>, f: Formula, expect: bool) -> bool {
    exists|i: int|
        0 <= i < facts.len() && (#[trigger] facts[i]).formula == f && facts[i].expect == expect
}

/// Whether the node `a` lies on the path from the root to the node `n`
/// (`n` itself included). The parent of the node `n > 0` is where the
/// edge `n - 1` comes from.
pub open spec fn on_path(edges: Seq<EdgeModel>, a: nat, n: nat) -> bool
    decreases n,
{
    a == n || (0 < n <= edges.len() && edges[n - 1].from < n && on_path(
        edges,
        a,
        edges[n - 1].from,
    ))
}

/// Whether a node on the path from the root to `n` holds `f` with the sign `expect`.
pub open spec fn witnessed(
    nodes: Seq<NodeModel>,
    edges: Seq<EdgeModel>,
    n: nat,
    f: Formula,
    expect: bool,
) -> bool {
    exists|a: nat| #[trigger]
        on_path(edges, a, n) && a < nodes.len() && holds(nodes[a as int].facts, f, expect)
}

/// Whether the path from the root to `n` holds some formula with both signs.
pub open spec fn contradictory(nodes: Seq<NodeModel>, edges: Seq<EdgeModel>, n: nat) -> bool {
    exists|f: Formula| #[trigger]
        witnessed(nodes, edges, n, f, true) && witnessed(nodes, edges, n, f, false)
}

/// Whether the node `n` holds some formula whose opposite stands on the
/// path from the root to `n`.
pub open spec fn refuted_at(nodes: Seq<NodeModel>, edges: Seq<EdgeModel>, n: nat) -> bool {
    exists|f: Formula, expect: bool|
        n < nodes.len() && #[trigger] holds(nodes[n as int].facts, f, expect) && witnessed(
            nodes,
            edges,
            n,
            f,
            !expect,
        )
}

/// A node that holds the opposite of what its path holds has a formula
/// with both signs on its path.
pub proof fn lemma_refuted_is_contradictory(
    nodes: Seq<NodeModel>,
    edges: Seq<EdgeModel>,
    n: nat,
)
    requires
        refuted_at(nodes, edges, n),
    ensures
        contradictory(nodes, edges, n),
{
    let (f, expect) = choose|f: Formula, expect: bool|
        n < nodes.len() && #[trigger] holds(nodes[n as int].facts, f, expect) && witnessed(
            nodes,
            edges,
            n,
            f,
            !expect,
        );
    assert(on_path(edges, n, n));
    assert(witnessed(nodes, edges, n, f, expect));
    assert(witnessed(nodes, edges, n, f, true) && witnessed(nodes, edges, n, f, false));
}

/// Whether some node holds the fact with this number.
pub open spec fn id_held(nodes: Seq<NodeModel>, id: nat) -> bool {
    exists|n: int, i: int|
        0 <= n < nodes.len() && 0 <= i < nodes[n].facts.len() && (#[trigger] nodes[n].facts[
            i
        ]).id == id
}

/// Whether no number is given to two facts of the tree.
pub open spec fn ids_distinct(nodes: Seq<NodeModel>) -> bool {
    forall|n: int, i: int, m: int, j: int|
        0 <= n < nodes.len() && 0 <= i < nodes[n].facts.len() && 0 <= m < nodes.len() && 0 <= j
            < nodes[m].facts.len() && (#[trigger] nodes[n].facts[i]).id == (
        #[trigger] nodes[m].facts[j]).id ==> n == m && i == j
}

/// Whether all pending work names facts below `bound`.
pub open spec fn ids_below(k: KnowledgeModel, bound: nat) -> bool {
    &&& forall|i: int| 0 <= i < k.queue.len() ==> (#[trigger] k.queue[i]).id < bound
    &&& forall|i: int| 0 <= i < k.repeaters.len() ==> (#[trigger] k.repeaters[i]).fact < bound
}

/// Whether the facts hold one with this number.
pub open spec fn holds_id(facts: Seq<FactModel>, id: nat) -> bool {
    exists|i: int| 0 <= i < facts.len() && (#[trigger] facts[i]).id == id
}

/// Whether a node on the path from the root to `n` holds the fact with
/// this number.
pub open spec fn id_on_path(nodes: Seq<NodeModel>, edges: Seq<EdgeModel>, n: nat, id: nat) -> bool {
    exists|a: nat| #[trigger]
        on_path(edges, a, n) && a < nodes.len() && holds_id(nodes[a as int].facts, id)
}

/// Whether all pending work names facts that stand on the path to `n`.
pub open spec fn ids_grounded(
    nodes: Seq<NodeModel>,
    edges: Seq<EdgeModel>,
    n: nat,
    k: KnowledgeModel,
) -> bool {
    &&& forall|i: int|
        0 <= i < k.queue.len() ==> id_on_path(nodes, edges, n, (#[trigger] k.queue[i]).id)
    &&& forall|i: int|
        0 <= i < k.repeaters.len() ==> id_on_path(
            nodes,
            edges,
            n,
            (#[trigger] k.repeaters[i]).fact,
        )
}

/// Whether every established fact stands in a node on the path to `n`.
pub open spec fn grounded(
    nodes: Seq<NodeModel>,
    edges: Seq<EdgeModel>,
    n: nat,
    facts: Map<Formula, bool>,
) -> bool {
    forall|f: Formula| #[trigger] facts.contains_key(f) ==> witnessed(nodes, edges, n, f, facts[f])
}

/// Whether the name is a name of one of the facts `given`, or the name of
/// a fresh constant with a number below `fresh`.
pub open spec fn accounted(given: Seq<FactModel>, fresh: nat, x: Name) -> bool {
    ||| exists|i: int| 0 <= i < given.len() && (#[trigger] given[i]).formula.mentions(x)
    ||| exists|k: nat| k < fresh && x == #[trigger] constant_name(k)
}

/// Whether every name of the formula is accounted for.
pub open spec fn names_known(given: Seq<FactModel>, fresh: nat, f: Formula) -> bool {
    forall|x: Name| #[trigger] f.mentions(x) ==> accounted(given, fresh, x)
}

/// Whether every name in a node is a name of the root or the name of a
/// fresh constant with a number below `fresh`.
pub open spec fn nodes_named(nodes: Seq<NodeModel>, fresh: nat) -> bool {
    forall|n: int, i: int|
        0 <= n < nodes.len() && 0 <= i < nodes[n].facts.len() ==> names_known(
            nodes[0].facts,
            fresh,
            (#[trigger] nodes[n].facts[i]).formula,
        )
}

/// Whether every name that the knowledge holds is accounted for: the
/// names for instantiation, those of the queued formulas and those of
/// the bodies of the repeaters.
pub open spec fn knowledge_named(given: Seq<FactModel>, fresh: nat, k: KnowledgeModel) -> bool {
    &&& forall|i: int|
        0 <= i < k.constants.len() ==> accounted(given, fresh, #[trigger] k.constants[i])
    &&& forall|i: int|
        0 <= i < k.queue.len() ==> names_known(given, fresh, (#[trigger] k.queue[i]).formula)
    &&& forall|i: int|
        0 <= i < k.repeaters.len() ==> names_known(given, fresh, (#[trigger] k.repeaters[i]).body)
}

/// Whether every name of the signed formulas is accounted for.
pub open spec fn list_named(given: Seq<FactModel>, fresh: nat, cons: Seq<Signed>) -> bool {
    forall|i: int| 0 <= i < cons.len() ==> names_known(given, fresh, (#[trigger] cons[i]).0)
}

/// What is accounted for stays so when more constants are fresh.
pub proof fn lemma_names_grow(given: Seq<FactModel>, fresh: nat, more: nat)
    requires
        fresh <= more,
    ensures
        forall|x: Name| accounted(given, fresh, x) ==> #[trigger] accounted(given, more, x),
        forall|f: Formula| names_known(given, fresh, f) ==> #[trigger] names_known(given, more, f),
        forall|k: KnowledgeModel|
            knowledge_named(given, fresh, k) ==> #[trigger] knowledge_named(given, more, k),
        forall|cons: Seq<Signed>|
            list_named(given, fresh, cons) ==> #[trigger] list_named(given, more, cons),
{
    assert forall|x: Name| accounted(given, fresh, x) implies #[trigger] accounted(
        given,
        more,
        x,
    ) by {
        if exists|k: nat| k < fresh && x == #[trigger] constant_name(k) {
            let k = choose|k: nat| k < fresh && x == #[trigger] constant_name(k);
            assert(k < more && x == constant_name(k));
        }
    }
    assert forall|f: Formula| names_known(given, fresh, f) implies #[trigger] names_known(
        given,
        more,
        f,
    ) by {
        assert forall|x: Name| #[trigger] f.mentions(x) implies accounted(given, more, x) by {
            assert(accounted(given, fresh, x));
        }
    }
    assert forall|k: KnowledgeModel| knowledge_named(given, fresh, k) implies #[trigger] knowledge_named(
        given,
        more,
        k,
    ) by {
        assert forall|i: int| 0 <= i < k.constants.len() implies accounted(
            given,
            more,
            #[trigger] k.constants[i],
        ) by {
            assert(accounted(given, fresh, k.constants[i]));
        }
        assert forall|i: int| 0 <= i < k.queue.len() implies names_known(
            given,
            more,
            (#[trigger] k.queue[i]).formula,
        ) by {
            assert(names_known(given, fresh, k.queue[i].formula));
        }
        assert forall|i: int| 0 <= i < k.repeaters.len() implies names_known(
            given,
            more,
            (#[trigger] k.repeaters[i]).body,
        ) by {
            assert(names_known(given, fresh, k.repeaters[i].body));
        }
    }
    assert forall|cons: Seq<Signed>| list_named(given, fresh, cons) implies #[trigger] list_named(
        given,
        more,
        cons,
    ) by {
        assert forall|i: int| 0 <= i < cons.len() implies names_known(
            given,
            more,
            (#[trigger] cons[i]).0,
        ) by {
            assert(names_known(given, fresh, cons[i].0));
        }
    }
}

/// The names in the nodes stay accounted for when more constants are fresh.
pub proof fn lemma_nodes_named_grow(nodes: Seq<NodeModel>, fresh: nat, more: nat)
    requires
        fresh <= more,
        nodes_named(nodes, fresh),
    ensures
        nodes_named(nodes, more),
{
    lemma_names_grow(nodes[0].facts, fresh, more);
    assert forall|n: int, i: int|
        0 <= n < nodes.len() && 0 <= i < nodes[n].facts.len() implies names_known(
        nodes[0].facts,
        more,
        (#[trigger] nodes[n].facts[i]).formula,
    ) by {
        assert(names_known(nodes[0].facts, fresh, nodes[n].facts[i].formula));
    }
}

/// Taking in facts whose names are accounted for leaves the names of the
/// knowledge accounted for.
pub proof fn lemma_queue_facts_names(
    k: KnowledgeModel,
    facts: Seq<FactModel>,
    given: Seq<FactModel>,
    fresh: nat,
)
    requires
        knowledge_named(given, fresh, k),
        forall|i: int|
            0 <= i < facts.len() ==> names_known(given, fresh, (#[trigger] facts[i]).formula),
    ensures
        knowledge_named(given, fresh, k.queue_facts(facts).0),
    decreases facts.len(),
{
    if facts.len() > 0 {
        let f = facts.first();
        let rest = facts.drop_first();
        assert(f == facts[0]);
        assert forall|i: int| 0 <= i < rest.len() implies names_known(
            given,
            fresh,
            (#[trigger] rest[i]).formula,
        ) by {
            assert(rest[i] == facts[i + 1]);
        }
        if !k.facts.contains_key(f.formula) {
            let k1 = k.learn(f);
            assert forall|i: int| 0 <= i < k1.queue.len() implies names_known(
                given,
                fresh,
                (#[trigger] k1.queue[i]).formula,
            ) by {
                if i < k.queue.len() {
                    assert(k1.queue[i] == k.queue[i]);
                }
            }
            lemma_queue_facts_names(k1, rest, given, fresh);
        } else if k.facts[f.formula] == f.expect {
            lemma_queue_facts_names(k, rest, given, fresh);
        }
    }
}

/// Taking pending work: the names of what is taken and of what stays are
/// accounted for.
pub proof fn lemma_pop_names(k: KnowledgeModel, given: Seq<FactModel>, fresh: nat)
    requires
        knowledge_named(given, fresh, k),
    ensures
        k.pop() matches Some((after, picked)) ==> knowledge_named(given, fresh, after)
            && names_known(given, fresh, picked.fact.formula),
{
    let candidates = k.candidates();
    if candidates.len() > 0 {
        lemma_first_minimum(scores(k.facts, candidates));
        let at = first_minimum(scores(k.facts, candidates));
        let taken = candidates[at];
        let after = k.after(taken);
        lemma_repeated_in_range(k.repeaters, k.constants);
        let standard = standard_candidates(k.queue);
        let repeated = repeated_candidates(k.repeaters, k.constants);
        if at < standard.len() {
            assert(taken == standard[at]);
            let index = taken->Standard_index;
            assert(names_known(given, fresh, k.queue[index].formula));
            assert forall|i: int| 0 <= i < after.queue.len() implies names_known(
                given,
                fresh,
                (#[trigger] after.queue[i]).formula,
            ) by {
                if i < index {
                    assert(after.queue[i] == k.queue[i]);
                } else {
                    assert(after.queue[i] == k.queue[i + 1]);
                }
            }
        } else {
            assert(taken == repeated[at - standard.len()]);
            let index = taken->Repeated_index;
            let constant = taken->Repeated_constant;
            let rep = k.repeaters[index];
            let c = choose|c: int| 0 <= c < k.constants.len() && k.constants[c] == constant;
            assert(accounted(given, fresh, k.constants[c]));
            assert(names_known(given, fresh, rep.body));
            assert forall|x: Name| #[trigger]
                rep.body.substitute(rep.name, constant).mentions(x) implies accounted(
                given,
                fresh,
                x,
            ) by {
                rep.body.lemma_substitute_mentions(rep.name, constant, x);
            }
            assert forall|i: int| 0 <= i < after.repeaters.len() implies names_known(
                given,
                fresh,
                (#[trigger] after.repeaters[i]).body,
            ) by {
                assert(names_known(given, fresh, k.repeaters[i].body));
            }
        }
    }
}

/// The names of what a rule asks for are names of the formula, but for
/// the fresh constant of a witness.
pub proof fn lemma_expansion_names(given: Seq<FactModel>, fresh: nat, f: Formula, expect: bool)
    requires
        names_known(given, fresh, f),
    ensures
        match expansion(f, expect) {
            Expansion::Nothing => true,
            Expansion::Straight(next) => list_named(given, fresh, next),
            Expansion::Branch(left, right) => list_named(given, fresh, left) && list_named(
                given,
                fresh,
                right,
            ),
            Expansion::Repeat(_, body) => names_known(given, fresh, body),
            Expansion::Witness(name, body) => list_named(
                given,
                fresh + 1,
                seq![(body.substitute(name, constant_name(fresh)), expect)],
            ),
        },
{
    match expansion(f, expect) {
        Expansion::Nothing => {},
        Expansion::Straight(next) => {
            assert forall|i: int| 0 <= i < next.len() implies names_known(
                given,
                fresh,
                (#[trigger] next[i]).0,
            ) by {
                assert forall|x: Name| #[trigger] next[i].0.mentions(x) implies accounted(
                    given,
                    fresh,
                    x,
                ) by {
                    assert(f.mentions(x));
                }
            }
        },
        Expansion::Branch(left, right) => {
            assert forall|i: int| 0 <= i < left.len() implies names_known(
                given,
                fresh,
                (#[trigger] left[i]).0,
            ) by {
                assert forall|x: Name| #[trigger] left[i].0.mentions(x) implies accounted(
                    given,
                    fresh,
                    x,
                ) by {
                    assert(f.mentions(x));
                }
            }
            assert forall|i: int| 0 <= i < right.len() implies names_known(
                given,
                fresh,
                (#[trigger] right[i]).0,
            ) by {
                assert forall|x: Name| #[trigger] right[i].0.mentions(x) implies accounted(
                    given,
                    fresh,
                    x,
                ) by {
                    assert(f.mentions(x));
                }
            }
        },
        Expansion::Repeat(_, body) => {
            assert forall|x: Name| #[trigger] body.mentions(x) implies accounted(given, fresh, x) by {
                assert(f.mentions(x));
            }
        },
        Expansion::Witness(name, body) => {
            let c = constant_name(fresh);
            let made = body.substitute(name, c);
            lemma_names_grow(given, fresh, fresh + 1);
            assert forall|x: Name| #[trigger] made.mentions(x) implies accounted(
                given,
                fresh + 1,
                x,
            ) by {
                body.lemma_substitute_mentions(name, c, x);
                if x == c {
                    assert(fresh < fresh + 1 && x == constant_name(fresh));
                } else {
                    assert(body.mentions(x));
                    assert(f.mentions(x));
                    assert(accounted(given, fresh, x));
                }
            }
            assert(seq![(made, expect)][0].0 == made);
        },
    }
}

/// The names that the search starts with are names of the given formulas.
pub proof fn lemma_seed_names(start: Seq<Signed>, x: Name)
    requires
        seed_constants(start).contains(x),
    ensures
        exists|i: int| 0 <= i < start.len() && (#[trigger] start[i]).0.mentions(x),
    decreases start.len(),
{
    if start.len() > 0 {
        let init = start.drop_last();
        let f = start.last().0;
        lemma_insert_all_contains(seed_constants(init), f.free_vars(), x);
        if seed_constants(init).contains(x) {
            lemma_seed_names(init, x);
            let i = choose|i: int| 0 <= i < init.len() && (#[trigger] init[i]).0.mentions(x);
            assert(start[i] == init[i]);
        } else {
            lemma_has_free(f, x);
            f.lemma_free_is_mentioned(Seq::empty(), x);
            assert(start[start.len() - 1].0.mentions(x));
        }
    }
}

/// Whether `t` is `s` grown: the nodes and edges of `s` are still there,
/// with the same facts; closed nodes stay closed; no counter fell.
pub open spec fn extends(s: TableauModel, t: TableauModel) -> bool {
    &&& s.nodes.len() <= t.nodes.len()
    &&& s.edges.len() <= t.edges.len()
    &&& forall|n: int|
        0 <= n < s.nodes.len() ==> (#[trigger] t.nodes[n]).facts == s.nodes[n].facts && (
        s.nodes[n].closed ==> t.nodes[n].closed)
    &&& forall|i: int| 0 <= i < s.edges.len() ==> #[trigger] t.edges[i] == s.edges[i]
    &&& s.facts_counter <= t.facts_counter
    &&& s.process_counter <= t.process_counter
    &&& s.constant_counter <= t.constant_counter
}

/// Whether the nodes of `s` are open or closed in `t` as they were in
/// `s`, but perhaps for the node `except`.
pub open spec fn flags_kept(s: TableauModel, t: TableauModel, except: Option<nat>) -> bool {
    forall|n: int|
        0 <= n < s.nodes.len() && n < t.nodes.len() && Some(n as nat) != except ==> (
        #[trigger] t.nodes[n]).closed == s.nodes[n].closed
}

impl TableauModel {
    /// The shape of the tree. Every node but the root has one edge that
    /// leads to it, from an older node that is open; the facts are
    /// numbered below the counter, no number is given twice, every number
    /// below the counter stands in some node, and the label of every
    /// edge stands on the path to the node that the edge comes from; a closed node holds a formula whose opposite stands on
    /// its path; every name in a node is a name of the root or the name
    /// of a fresh constant with a number below the counter.
    pub open spec fn structured(self) -> bool {
        &&& self.nodes.len() == self.edges.len() + 1
        &&& self.nodes.len() <= self.facts_counter + 1
        &&& forall|i: int|
            0 <= i < self.edges.len() ==> (#[trigger] self.edges[i]).to == i + 1
                && self.edges[i].from <= i && self.edges[i].fact < self.facts_counter
        &&& forall|n: int, i: int|
            0 <= n < self.nodes.len() && 0 <= i < self.nodes[n].facts.len() ==> (
            #[trigger] self.nodes[n].facts[i]).id < self.facts_counter
        &&& forall|id: nat| id < self.facts_counter ==> #[trigger] id_held(self.nodes, id)
        &&& ids_distinct(self.nodes)
        &&& nodes_named(self.nodes, self.constant_counter)
        &&& forall|i: int|
            0 <= i < self.edges.len() ==> !self.nodes[(#[trigger] self.edges[i]).from as int].closed
        &&& forall|i: int|
            0 <= i < self.edges.len() ==> id_on_path(
                self.nodes,
                self.edges,
                (#[trigger] self.edges[i]).from,
                self.edges[i].fact,
            )
        &&& forall|n: int|
            0 <= n < self.nodes.len() && (#[trigger] self.nodes[n]).closed ==> refuted_at(
                self.nodes,
                self.edges,
                n as nat,
            )
    }

    /// The bound on the number of facts: `FACT_BOUND`, or the number of
    /// facts in the root where that is larger.
    pub open spec fn fact_bound(self) -> nat {
        if self.nodes.len() > 0 && self.nodes[0].facts.len() > FACT_BOUND {
            self.nodes[0].facts.len()
        } else {
            FACT_BOUND as nat
        }
    }

    /// What holds whenever a step begins at the node `from`, while
    /// `pending` forks above wait for their second side.
    pub open spec fn steady(self, from: nat, pending: nat) -> bool {
        &&& self.structured()
        &&& from < self.nodes.len()
        &&& !self.nodes[from as int].closed
        &&& ids_below(self.knowledge, self.facts_counter)
        &&& ids_grounded(self.nodes, self.edges, from, self.knowledge)
        &&& grounded(self.nodes, self.edges, from, self.knowledge.facts)
        &&& knowledge_named(self.nodes[0].facts, self.constant_counter, self.knowledge)
        &&& pending < self.nodes.len()
        &&& self.facts_counter + 2 * pending <= self.fact_bound()
        &&& self.nodes.len() + pending <= NODE_BOUND
        &&& self.process_counter <= STEP_LIMIT
        &&& self.constant_counter <= CONSTANT_LIMIT
    }

    /// What holds when the rule of `fact` is applied at `from`.
    pub open spec fn process_ready(self, from: nat, fact: FactModel, pending: nat) -> bool {
        &&& self.steady(from, pending)
        &&& self.facts_counter < FACT_LIMIT
        &&& self.constant_counter < CONSTANT_LIMIT
        &&& fact.id < self.facts_counter
        &&& id_on_path(self.nodes, self.edges, from, fact.id)
        &&& names_known(self.nodes[0].facts, self.constant_counter, fact.formula)
    }

    /// What holds when the branch at `from` is extended by `cons`.
    pub open spec fn straight_ready(
        self,
        from: nat,
        fact: nat,
        cons: Seq<Signed>,
        pending: nat,
    ) -> bool {
        &&& self.structured()
        &&& from < self.nodes.len()
        &&& !self.nodes[from as int].closed
        &&& fact < self.facts_counter
        &&& id_on_path(self.nodes, self.edges, from, fact)
        &&& ids_below(self.knowledge, self.facts_counter)
        &&& ids_grounded(self.nodes, self.edges, from, self.knowledge)
        &&& grounded(self.nodes, self.edges, from, self.knowledge.facts)
        &&& knowledge_named(self.nodes[0].facts, self.constant_counter, self.knowledge)
        &&& list_named(self.nodes[0].facts, self.constant_counter, cons)
        &&& self.process_counter <= STEP_LIMIT
        &&& self.constant_counter <= CONSTANT_LIMIT
        &&& if cons.len() > 0 {
            &&& pending <= self.nodes.len()
            &&& self.facts_counter + cons.len() + 2 * pending <= self.fact_bound()
            &&& self.nodes.len() + 1 + pending <= NODE_BOUND
        } else {
            &&& pending < self.nodes.len()
            &&& self.facts_counter + 2 * pending <= self.fact_bound()
            &&& self.nodes.len() + pending <= NODE_BOUND
        }
    }

    /// What holds when the branch at `from` forks.
    pub open spec fn branch_ready(
        self,
        from: nat,
        fact: nat,
        left: Seq<Signed>,
        right: Seq<Signed>,
        pending: nat,
    ) -> bool {
        &&& self.structured()
        &&& from < self.nodes.len()
        &&& !self.nodes[from as int].closed
        &&& fact < self.facts_counter
        &&& id_on_path(self.nodes, self.edges, from, fact)
        &&& ids_below(self.knowledge, self.facts_counter)
        &&& ids_grounded(self.nodes, self.edges, from, self.knowledge)
        &&& grounded(self.nodes, self.edges, from, self.knowledge.facts)
        &&& knowledge_named(self.nodes[0].facts, self.constant_counter, self.knowledge)
        &&& list_named(self.nodes[0].facts, self.constant_counter, left)
        &&& list_named(self.nodes[0].facts, self.constant_counter, right)
        &&& self.process_counter <= STEP_LIMIT
        &&& self.constant_counter <= CONSTANT_LIMIT
        &&& 1 <= left.len() <= 2
        &&& 1 <= right.len() <= 2
        &&& pending < self.nodes.len()
        &&& self.facts_counter + left.len() + 2 + 2 * pending <= self.fact_bound()
        &&& self.nodes.len() + 2 + pending <= NODE_BOUND
    }
}

/// What holds of the engine `t` that a part of the search leaves behind,
/// having begun with `s`.
pub open spec fn settled(s: TableauModel, t: TableauModel, pending: nat) -> bool {
    &&& extends(s, t)
    &&& t.structured()
    &&& t.nodes.len() + pending <= NODE_BOUND
    &&& t.facts_counter + 2 * pending <= t.fact_bound()
    &&& t.process_counter <= STEP_LIMIT
    &&& t.constant_counter <= CONSTANT_LIMIT
}

/// More edges change no path to a node that was there before.
pub proof fn lemma_on_path_extends(old: Seq<EdgeModel>, new: Seq<EdgeModel>, a: nat, n: nat)
    requires
        old.len() <= new.len(),
        forall|i: int| 0 <= i < old.len() ==> #[trigger] new[i] == old[i],
        n <= old.len(),
        on_path(old, a, n),
    ensures
        on_path(new, a, n),
    decreases n,
{
    if a != n {
        assert(new[n - 1] == old[n - 1]);
        lemma_on_path_extends(old, new, a, old[n - 1].from);
    }
}

/// What a path shows in a tree, it shows in the tree grown.
pub proof fn lemma_witnessed_extends(
    s: TableauModel,
    t: TableauModel,
    n: nat,
    f: Formula,
    expect: bool,
)
    requires
        extends(s, t),
        s.nodes.len() == s.edges.len() + 1,
        n < s.nodes.len(),
        witnessed(s.nodes, s.edges, n, f, expect),
    ensures
        witnessed(t.nodes, t.edges, n, f, expect),
{
    let a = choose|a: nat| #[trigger]
        on_path(s.edges, a, n) && a < s.nodes.len() && holds(s.nodes[a as int].facts, f, expect);
    lemma_on_path_extends(s.edges, t.edges, a, n);
    assert(t.nodes[a as int].facts == s.nodes[a as int].facts);
    assert(on_path(t.edges, a, n) && a < t.nodes.len() && holds(
        t.nodes[a as int].facts,
        f,
        expect,
    ));
}

/// A fact that stands on a path stands on it in the tree grown.
pub proof fn lemma_id_on_path_extends(s: TableauModel, t: TableauModel, n: nat, id: nat)
    requires
        extends(s, t),
        s.nodes.len() == s.edges.len() + 1,
        n < s.nodes.len(),
        id_on_path(s.nodes, s.edges, n, id),
    ensures
        id_on_path(t.nodes, t.edges, n, id),
{
    let a = choose|a: nat| #[trigger]
        on_path(s.edges, a, n) && a < s.nodes.len() && holds_id(s.nodes[a as int].facts, id);
    lemma_on_path_extends(s.edges, t.edges, a, n);
    assert(t.nodes[a as int].facts == s.nodes[a as int].facts);
    assert(on_path(t.edges, a, n) && a < t.nodes.len() && holds_id(t.nodes[a as int].facts, id));
}

/// Pending work that names facts of a path names them in the tree grown.
pub proof fn lemma_ids_grounded_extends(
    s: TableauModel,
    t: TableauModel,
    n: nat,
    k: KnowledgeModel,
)
    requires
        extends(s, t),
        s.nodes.len() == s.edges.len() + 1,
        n < s.nodes.len(),
        ids_grounded(s.nodes, s.edges, n, k),
    ensures
        ids_grounded(t.nodes, t.edges, n, k),
{
    assert forall|i: int| 0 <= i < k.queue.len() implies id_on_path(
        t.nodes,
        t.edges,
        n,
        (#[trigger] k.queue[i]).id,
    ) by {
        lemma_id_on_path_extends(s, t, n, k.queue[i].id);
    }
    assert forall|i: int| 0 <= i < k.repeaters.len() implies id_on_path(
        t.nodes,
        t.edges,
        n,
        (#[trigger] k.repeaters[i]).fact,
    ) by {
        lemma_id_on_path_extends(s, t, n, k.repeaters[i].fact);
    }
}

/// Taking in facts of the node `node`: pending work names facts that
/// stand on its path.
pub proof fn lemma_queue_facts_ids(
    k: KnowledgeModel,
    facts: Seq<FactModel>,
    nodes: Seq<NodeModel>,
    edges: Seq<EdgeModel>,
    node: nat,
)
    requires
        node < nodes.len(),
        ids_grounded(nodes, edges, node, k),
        forall|i: int|
            0 <= i < facts.len() ==> holds_id(nodes[node as int].facts, (#[trigger] facts[i]).id),
    ensures
        ids_grounded(nodes, edges, node, k.queue_facts(facts).0),
    decreases facts.len(),
{
    if facts.len() > 0 {
        let f = facts.first();
        let rest = facts.drop_first();
        assert(f == facts[0]);
        assert forall|i: int| 0 <= i < rest.len() implies holds_id(
            nodes[node as int].facts,
            (#[trigger] rest[i]).id,
        ) by {
            assert(rest[i] == facts[i + 1]);
        }
        if !k.facts.contains_key(f.formula) {
            let k1 = k.learn(f);
            assert(on_path(edges, node, node));
            assert(id_on_path(nodes, edges, node, f.id));
            assert forall|i: int| 0 <= i < k1.queue.len() implies id_on_path(
                nodes,
                edges,
                node,
                (#[trigger] k1.queue[i]).id,
            ) by {
                if i < k.queue.len() {
                    assert(k1.queue[i] == k.queue[i]);
                }
            }
            lemma_queue_facts_ids(k1, rest, nodes, edges, node);
        } else if k.facts[f.formula] == f.expect {
            lemma_queue_facts_ids(k, rest, nodes, edges, node);
        }
    }
}

/// Taking pending work: what is taken and what stays pending name facts
/// that stand on the path.
pub proof fn lemma_pop_ids(k: KnowledgeModel, nodes: Seq<NodeModel>, edges: Seq<EdgeModel>, n: nat)
    requires
        ids_grounded(nodes, edges, n, k),
    ensures
        k.pop() matches Some((after, picked)) ==> ids_grounded(nodes, edges, n, after)
            && id_on_path(nodes, edges, n, picked.fact.id),
{
    let candidates = k.candidates();
    if candidates.len() > 0 {
        lemma_first_minimum(scores(k.facts, candidates));
        let at = first_minimum(scores(k.facts, candidates));
        let taken = candidates[at];
        let after = k.after(taken);
        lemma_repeated_in_range(k.repeaters, k.constants);
        let standard = standard_candidates(k.queue);
        let repeated = repeated_candidates(k.repeaters, k.constants);
        if at < standard.len() {
            assert(taken == standard[at]);
            let index = taken->Standard_index;
            assert(id_on_path(nodes, edges, n, k.queue[index].id));
            assert forall|i: int| 0 <= i < after.queue.len() implies id_on_path(
                nodes,
                edges,
                n,
                (#[trigger] after.queue[i]).id,
            ) by {
                if i < index {
                    assert(after.queue[i] == k.queue[i]);
                } else {
                    assert(after.queue[i] == k.queue[i + 1]);
                }
            }
        } else {
            assert(taken == repeated[at - standard.len()]);
            let index = taken->Repeated_index;
            assert(id_on_path(nodes, edges, n, k.repeaters[index].fact));
            assert forall|i: int| 0 <= i < after.repeaters.len() implies id_on_path(
                nodes,
                edges,
                n,
                (#[trigger] after.repeaters[i]).fact,
            ) by {
                assert(id_on_path(nodes, edges, n, k.repeaters[i].fact));
            }
        }
    }
}

/// A node that is refuted stays refuted in the tree grown.
pub proof fn lemma_refuted_extends(s: TableauModel, t: TableauModel, n: nat)
    requires
        extends(s, t),
        s.nodes.len() == s.edges.len() + 1,
        n < s.nodes.len(),
        refuted_at(s.nodes, s.edges, n),
    ensures
        refuted_at(t.nodes, t.edges, n),
{
    let (f, expect) = choose|f: Formula, expect: bool|
        n < s.nodes.len() && #[trigger] holds(s.nodes[n as int].facts, f, expect) && witnessed(
            s.nodes,
            s.edges,
            n,
            f,
            !expect,
        );
    lemma_witnessed_extends(s, t, n, f, !expect);
    assert(t.nodes[n as int].facts == s.nodes[n as int].facts);
    assert(holds(t.nodes[n as int].facts, f, expect));
}

/// Established facts stay grounded in the tree grown.
pub proof fn lemma_grounded_extends(
    s: TableauModel,
    t: TableauModel,
    n: nat,
    facts: Map<Formula, bool>,
)
    requires
        extends(s, t),
        s.nodes.len() == s.edges.len() + 1,
        n < s.nodes.len(),
        grounded(s.nodes, s.edges, n, facts),
    ensures
        grounded(t.nodes, t.edges, n, facts),
{
    assert forall|f: Formula| #[trigger] facts.contains_key(f) implies witnessed(
        t.nodes,
        t.edges,
        n,
        f,
        facts[f],
    ) by {
        lemma_witnessed_extends(s, t, n, f, facts[f]);
    }
}

/// Growing is transitive, and what was settled after a later beginning is
/// settled after an earlier one.
pub proof fn lemma_settled_after(s: TableauModel, m: TableauModel, t: TableauModel, pending: nat)
    requires
        extends(s, m),
        settled(m, t, pending),
    ensures
        settled(s, t, pending),
{
    assert forall|n: int| 0 <= n < s.nodes.len() implies (#[trigger] t.nodes[n]).facts
        == s.nodes[n].facts && (s.nodes[n].closed ==> t.nodes[n].closed) by {
        assert(m.nodes[n].facts == s.nodes[n].facts);
    }
    assert forall|i: int| 0 <= i < s.edges.len() implies #[trigger] t.edges[i] == s.edges[i] by {
        assert(m.edges[i] == s.edges[i]);
    }
}

/// What is kept from `s` to `m` and from `m` to `t` is kept from `s` to
/// `t`, where `m` has the nodes of `s` and `t` those of `m`.
pub proof fn lemma_flags_kept_after(
    s: TableauModel,
    m: TableauModel,
    t: TableauModel,
    except: Option<nat>,
)
    requires
        flags_kept(s, m, None),
        flags_kept(m, t, except),
        s.nodes.len() <= m.nodes.len() <= t.nodes.len(),
    ensures
        flags_kept(s, t, except),
        except matches Some(n) && n >= s.nodes.len() ==> flags_kept(s, t, None),
{
    assert forall|n: int|
        0 <= n < s.nodes.len() && n < t.nodes.len() && Some(n as nat) != except implies (
    #[trigger] t.nodes[n]).closed == s.nodes[n].closed by {
        assert(m.nodes[n].closed == s.nodes[n].closed);
    }
    if except matches Some(x) && x >= s.nodes.len() {
        assert forall|n: int| 0 <= n < s.nodes.len() && n < t.nodes.len() implies (
        #[trigger] t.nodes[n]).closed == s.nodes[n].closed by {
            assert(m.nodes[n].closed == s.nodes[n].closed);
        }
    }
}

/// A tree with other knowledge in place of its own is settled all the same.
pub proof fn lemma_settled_with_knowledge(
    s: TableauModel,
    t: TableauModel,
    k: KnowledgeModel,
    pending: nat,
)
    requires
        settled(s, t, pending),
    ensures
        settled(s, t.with_knowledge(k), pending),
{
    let u = t.with_knowledge(k);
    assert forall|n: int| 0 <= n < s.nodes.len() implies (#[trigger] u.nodes[n]).facts
        == s.nodes[n].facts && (s.nodes[n].closed ==> u.nodes[n].closed) by {
        assert(t.nodes[n].facts == s.nodes[n].facts);
    }
    assert forall|i: int| 0 <= i < s.edges.len() implies #[trigger] u.edges[i] == s.edges[i] by {
        assert(t.edges[i] == s.edges[i]);
    }
    assert(u.nodes == t.nodes);
    assert(u.edges == t.edges);
}

/// A new node below `from`, with its edge: the tree keeps its shape.
pub proof fn lemma_grow(s: TableauModel, from: nat, fact: nat, cons: Seq<Signed>)
    requires
        s.structured(),
        from < s.nodes.len(),
        !s.nodes[from as int].closed,
        fact < s.facts_counter,
        id_on_path(s.nodes, s.edges, from, fact),
        list_named(s.nodes[0].facts, s.constant_counter, cons),
        cons.len() > 0,
    ensures
        ({
            let t = s.alloc_node(cons).create_edge(from, fact, s.nodes.len());
            &&& extends(s, t)
            &&& flags_kept(s, t, None)
            &&& t.structured()
            &&& forall|a: nat| on_path(s.edges, a, from) ==> #[trigger] on_path(
                t.edges,
                a,
                s.nodes.len(),
            )
        }),
{
    let t = s.alloc_node(cons).create_edge(from, fact, s.nodes.len());
    let node = s.nodes.len() as int;
    assert(extends(s, t));
    assert forall|i: int| 0 <= i < t.edges.len() implies (#[trigger] t.edges[i]).to == i + 1
        && t.edges[i].from <= i && t.edges[i].fact < t.facts_counter by {
        if i < s.edges.len() {
            assert(t.edges[i] == s.edges[i]);
        }
    }
    assert forall|i: int| 0 <= i < t.edges.len() implies !t.nodes[(
    #[trigger] t.edges[i]).from as int].closed by {
        if i < s.edges.len() {
            assert(t.edges[i] == s.edges[i]);
            assert(t.nodes[s.edges[i].from as int] == s.nodes[s.edges[i].from as int]);
        } else {
            assert(t.nodes[from as int] == s.nodes[from as int]);
        }
    }
    assert forall|n: int, i: int|
        0 <= n < t.nodes.len() && 0 <= i < t.nodes[n].facts.len() implies names_known(
        t.nodes[0].facts,
        t.constant_counter,
        (#[trigger] t.nodes[n].facts[i]).formula,
    ) by {
        assert(t.nodes[0] == s.nodes[0]);
        if n < node {
            assert(t.nodes[n] == s.nodes[n]);
            assert(names_known(s.nodes[0].facts, s.constant_counter, s.nodes[n].facts[i].formula));
        } else {
            assert(t.nodes[n].facts[i].formula == cons[i].0);
            assert(names_known(s.nodes[0].facts, s.constant_counter, cons[i].0));
        }
    }
    assert forall|i: int| 0 <= i < t.edges.len() implies id_on_path(
        t.nodes,
        t.edges,
        (#[trigger] t.edges[i]).from,
        t.edges[i].fact,
    ) by {
        if i < s.edges.len() {
            assert(t.edges[i] == s.edges[i]);
            assert(s.edges[i].from <= i);
            lemma_id_on_path_extends(s, t, s.edges[i].from, s.edges[i].fact);
        } else {
            lemma_id_on_path_extends(s, t, from, fact);
        }
    }
    assert forall|n: int, i: int|
        0 <= n < t.nodes.len() && 0 <= i < t.nodes[n].facts.len() implies (
    #[trigger] t.nodes[n].facts[i]).id < t.facts_counter by {
        if n < node {
            assert(t.nodes[n] == s.nodes[n]);
            assert(s.nodes[n].facts[i].id < s.facts_counter);
        }
    }
    assert forall|id: nat| id < t.facts_counter implies #[trigger] id_held(t.nodes, id) by {
        if id < s.facts_counter {
            assert(id_held(s.nodes, id));
            let (n, i) = choose|n: int, i: int|
                0 <= n < s.nodes.len() && 0 <= i < s.nodes[n].facts.len() && (
                #[trigger] s.nodes[n].facts[i]).id == id;
            assert(t.nodes[n] == s.nodes[n]);
            assert(t.nodes[n].facts[i].id == id);
        } else {
            let i = id - s.facts_counter;
            assert(t.nodes[node].facts[i].id == id);
        }
    }
    assert forall|n: int, i: int, m: int, j: int|
        0 <= n < t.nodes.len() && 0 <= i < t.nodes[n].facts.len() && 0 <= m < t.nodes.len() && 0
            <= j < t.nodes[m].facts.len() && (#[trigger] t.nodes[n].facts[i]).id == (
        #[trigger] t.nodes[m].facts[j]).id implies n == m && i == j by {
        if n < node {
            assert(t.nodes[n] == s.nodes[n]);
            assert(s.nodes[n].facts[i].id < s.facts_counter);
        }
        if m < node {
            assert(t.nodes[m] == s.nodes[m]);
            assert(s.nodes[m].facts[j].id < s.facts_counter);
        }
    }
    assert forall|n: int| 0 <= n < t.nodes.len() && (#[trigger] t.nodes[n]).closed implies refuted_at(
        t.nodes,
        t.edges,
        n as nat,
    ) by {
        assert(n < node);
        assert(t.nodes[n] == s.nodes[n]);
        assert(s.nodes[n].closed);
        lemma_refuted_extends(s, t, n as nat);
    }
    assert forall|a: nat| on_path(s.edges, a, from) implies #[trigger] on_path(
        t.edges,
        a,
        s.nodes.len(),
    ) by {
        lemma_on_path_extends(s.edges, t.edges, a, from);
        assert(t.edges[node - 1].from == from);
    }
}

/// Taking in the facts of the node `node`: what is established stays
/// grounded on its path, pending work names known facts, and where the
/// branch closes the path holds a formula with both signs.
pub proof fn lemma_queue_facts(
    k: KnowledgeModel,
    facts: Seq<FactModel>,
    nodes: Seq<NodeModel>,
    edges: Seq<EdgeModel>,
    node: nat,
    bound: nat,
)
    requires
        node < nodes.len(),
        ids_below(k, bound),
        grounded(nodes, edges, node, k.facts),
        forall|i: int|
            0 <= i < facts.len() ==> holds(
                nodes[node as int].facts,
                (#[trigger] facts[i]).formula,
                facts[i].expect,
            ) && facts[i].id < bound,
    ensures
        ids_below(k.queue_facts(facts).0, bound),
        grounded(nodes, edges, node, k.queue_facts(facts).0.facts),
        k.queue_facts(facts).1 ==> refuted_at(nodes, edges, node),
    decreases facts.len(),
{
    if facts.len() > 0 {
        let f = facts.first();
        let rest = facts.drop_first();
        assert(f == facts[0]);
        assert forall|i: int| 0 <= i < rest.len() implies holds(
            nodes[node as int].facts,
            (#[trigger] rest[i]).formula,
            rest[i].expect,
        ) && rest[i].id < bound by {
            assert(rest[i] == facts[i + 1]);
        }
        assert(on_path(edges, node, node));
        assert(witnessed(nodes, edges, node, f.formula, f.expect));
        if !k.facts.contains_key(f.formula) {
            let k1 = k.learn(f);
            assert forall|i: int| 0 <= i < k1.queue.len() implies (#[trigger] k1.queue[i]).id
                < bound by {
                if i < k.queue.len() {
                    assert(k1.queue[i] == k.queue[i]);
                }
            }
            assert forall|g: Formula| #[trigger] k1.facts.contains_key(g) implies witnessed(
                nodes,
                edges,
                node,
                g,
                k1.facts[g],
            ) by {
                if g != f.formula {
                    assert(k.facts.contains_key(g));
                }
            }
            lemma_queue_facts(k1, rest, nodes, edges, node, bound);
        } else if k.facts[f.formula] == f.expect {
            lemma_queue_facts(k, rest, nodes, edges, node, bound);
        } else {
            assert(witnessed(nodes, edges, node, f.formula, k.facts[f.formula]));
            assert(holds(nodes[node as int].facts, f.formula, f.expect) && witnessed(
                nodes,
                edges,
                node,
                f.formula,
                !f.expect,
            ));
        }
    }
}

/// Taking pending work changes nothing that is established, and what is
/// taken and what stays pending name known facts.
pub proof fn lemma_pop(k: KnowledgeModel, bound: nat)
    requires
        ids_below(k, bound),
    ensures
        k.pop() matches Some((after, picked)) ==> after.facts == k.facts && ids_below(
            after,
            bound,
        ) && picked.fact.id < bound,
{
    let candidates = k.candidates();
    if candidates.len() > 0 {
        lemma_first_minimum(scores(k.facts, candidates));
        let at = first_minimum(scores(k.facts, candidates));
        let taken = candidates[at];
        let after = k.after(taken);
        lemma_repeated_in_range(k.repeaters, k.constants);
        let standard = standard_candidates(k.queue);
        let repeated = repeated_candidates(k.repeaters, k.constants);
        if at < standard.len() {
            assert(taken == standard[at]);
            let index = taken->Standard_index;
            assert forall|i: int| 0 <= i < after.queue.len() implies (#[trigger] after.queue[i]).id
                < bound by {
                if i < index {
                    assert(after.queue[i] == k.queue[i]);
                } else {
                    assert(after.queue[i] == k.queue[i + 1]);
                }
            }
        } else {
            assert(taken == repeated[at - standard.len()]);
            let index = taken->Repeated_index;
            assert forall|i: int| 0 <= i < after.repeaters.len() implies (
            #[trigger] after.repeaters[i]).fact < bound by {
                assert(k.repeaters[i].fact < bound);
            }
        }
    }
}

/// The step at `from` begins: the next piece of work can be carried out.
pub proof fn lemma_pop_step(s: TableauModel, from: nat, pending: nat)
    requires
        s.steady(from, pending),
        !s.exhausted(),
    ensures
        ({
            let counted = TableauModel { process_counter: s.process_counter + 1, ..s };
            &&& counted.steady(from, pending)
            &&& extends(s, counted)
            &&& flags_kept(s, counted, None)
            &&& counted.knowledge.pop() matches Some((k, picked)) ==> {
                let taken = counted.with_knowledge(k);
                &&& extends(s, taken)
                &&& flags_kept(s, taken, None)
                &&& taken.process_ready(from, picked.fact, pending)
                &&& taken.straight_ready(
                    from,
                    picked.fact.id,
                    seq![(picked.fact.formula, picked.fact.expect)],
                    pending,
                )
            }
        }),
{
    let counted = TableauModel { process_counter: s.process_counter + 1, ..s };
    lemma_pop(counted.knowledge, counted.facts_counter);
    lemma_pop_ids(counted.knowledge, counted.nodes, counted.edges, from);
    lemma_pop_names(counted.knowledge, counted.nodes[0].facts, counted.constant_counter);
    match counted.knowledge.pop() {
        Some((k, picked)) => {
            assert(seq![(picked.fact.formula, picked.fact.expect)][0].0 == picked.fact.formula);
        },
        None => {},
    }
}

/// The node `from`, whose path holds a contradiction, is closed.
pub proof fn lemma_close_step(s: TableauModel, from: nat, pending: nat)
    requires
        s.steady(from, pending),
        refuted_at(s.nodes, s.edges, from),
        from + 1 == s.nodes.len(),
    ensures
        settled(s, s.close(from), pending),
        flags_kept(s, s.close(from), Some(from)),
{
    let t = s.close(from);
    assert(extends(s, t));
    assert forall|i: int| 0 <= i < t.edges.len() implies !t.nodes[(
    #[trigger] t.edges[i]).from as int].closed by {
        assert(s.edges[i].from <= i);
        assert(t.nodes[s.edges[i].from as int] == s.nodes[s.edges[i].from as int]);
    }
    assert forall|i: int| 0 <= i < t.edges.len() implies id_on_path(
        t.nodes,
        t.edges,
        (#[trigger] t.edges[i]).from,
        t.edges[i].fact,
    ) by {
        assert(s.edges[i].from <= i);
        lemma_id_on_path_extends(s, t, s.edges[i].from, s.edges[i].fact);
    }
    assert forall|n: int, i: int|
        0 <= n < t.nodes.len() && 0 <= i < t.nodes[n].facts.len() implies names_known(
        t.nodes[0].facts,
        t.constant_counter,
        (#[trigger] t.nodes[n].facts[i]).formula,
    ) by {
        assert(t.nodes[0].facts == s.nodes[0].facts);
        assert(t.nodes[n].facts == s.nodes[n].facts);
        assert(names_known(s.nodes[0].facts, s.constant_counter, s.nodes[n].facts[i].formula));
    }
    assert forall|n: int, i: int|
        0 <= n < t.nodes.len() && 0 <= i < t.nodes[n].facts.len() implies (
    #[trigger] t.nodes[n].facts[i]).id < t.facts_counter by {
        assert(t.nodes[n].facts == s.nodes[n].facts);
        assert(s.nodes[n].facts[i].id < s.facts_counter);
    }
    assert forall|id: nat| id < t.facts_counter implies #[trigger] id_held(t.nodes, id) by {
        assert(id_held(s.nodes, id));
        let (n, i) = choose|n: int, i: int|
            0 <= n < s.nodes.len() && 0 <= i < s.nodes[n].facts.len() && (
            #[trigger] s.nodes[n].facts[i]).id == id;
        assert(t.nodes[n].facts == s.nodes[n].facts);
        assert(t.nodes[n].facts[i].id == id);
    }
    assert forall|n: int, i: int, m: int, j: int|
        0 <= n < t.nodes.len() && 0 <= i < t.nodes[n].facts.len() && 0 <= m < t.nodes.len() && 0
            <= j < t.nodes[m].facts.len() && (#[trigger] t.nodes[n].facts[i]).id == (
        #[trigger] t.nodes[m].facts[j]).id implies n == m && i == j by {
        assert(t.nodes[n].facts == s.nodes[n].facts);
        assert(t.nodes[m].facts == s.nodes[m].facts);
        assert(s.nodes[n].facts[i].id == s.nodes[m].facts[j].id);
    }
    assert forall|n: int| 0 <= n < t.nodes.len() && (#[trigger] t.nodes[n]).closed implies refuted_at(
        t.nodes,
        t.edges,
        n as nat,
    ) by {
        if n != from {
            assert(t.nodes[n] == s.nodes[n]);
            assert(s.nodes[n].closed);
        }
        lemma_refuted_extends(s, t, n as nat);
    }
    assert(t.nodes[0].facts == s.nodes[0].facts);
}

/// The rule of a fact can be carried out.
pub proof fn lemma_process_step(s: TableauModel, from: nat, fact: FactModel, pending: nat)
    requires
        s.process_ready(from, fact, pending),
    ensures
        match expansion(fact.formula, fact.expect) {
            Expansion::Nothing => s.steady(from, pending),
            Expansion::Straight(next) => s.straight_ready(from, fact.id, next, pending),
            Expansion::Branch(left, right) => s.branch_ready(from, fact.id, left, right, pending),
            Expansion::Repeat(name, body) => {
                let t = s.with_knowledge(
                    s.knowledge.add_repeater(fact.id, name, body, fact.expect),
                );
                extends(s, t) && flags_kept(s, t, None) && t.straight_ready(
                    from,
                    fact.id,
                    Seq::empty(),
                    pending,
                )
            },
            Expansion::Witness(name, body) => {
                let (t, constant) = s.alloc_constant();
                extends(s, t) && flags_kept(s, t, None) && t.straight_ready(
                    from,
                    fact.id,
                    seq![(body.substitute(name, constant), fact.expect)],
                    pending,
                )
            },
        },
{
    let given = s.nodes[0].facts;
    lemma_expansion_names(given, s.constant_counter, fact.formula, fact.expect);
    match expansion(fact.formula, fact.expect) {
        Expansion::Witness(name, body) => {
            let (t, constant) = s.alloc_constant();
            lemma_names_grow(given, s.constant_counter, t.constant_counter);
            lemma_nodes_named_grow(s.nodes, s.constant_counter, t.constant_counter);
            assert forall|i: int| 0 <= i < t.knowledge.constants.len() implies accounted(
                given,
                t.constant_counter,
                #[trigger] t.knowledge.constants[i],
            ) by {
                if i < s.knowledge.constants.len() {
                    assert(t.knowledge.constants[i] == s.knowledge.constants[i]);
                    assert(accounted(given, s.constant_counter, s.knowledge.constants[i]));
                } else {
                    assert(t.knowledge.constants[i] == constant_name(s.constant_counter));
                }
            }
            assert(knowledge_named(given, s.constant_counter, s.knowledge));
            assert(knowledge_named(given, t.constant_counter, t.knowledge));
            assert(t.structured());
        },
        Expansion::Repeat(name, body) => {
            let k = s.knowledge.add_repeater(fact.id, name, body, fact.expect);
            assert forall|i: int| 0 <= i < k.repeaters.len() implies names_known(
                given,
                s.constant_counter,
                (#[trigger] k.repeaters[i]).body,
            ) by {
                if i < s.knowledge.repeaters.len() {
                    assert(k.repeaters[i] == s.knowledge.repeaters[i]);
                }
            }
            assert forall|i: int| 0 <= i < k.repeaters.len() implies (#[trigger] k.repeaters[i]).fact
                < s.facts_counter && id_on_path(s.nodes, s.edges, from, k.repeaters[i].fact) by {
                if i < s.knowledge.repeaters.len() {
                    assert(k.repeaters[i] == s.knowledge.repeaters[i]);
                }
            }
        },
        _ => {},
    }
}

/// The branch is extended: the step at the new node can begin.
pub proof fn lemma_straight_step(
    s: TableauModel,
    from: nat,
    fact: nat,
    cons: Seq<Signed>,
    pending: nat,
)
    requires
        s.straight_ready(from, fact, cons, pending),
    ensures
        cons.len() == 0 ==> s.steady(from, pending),
        cons.len() > 0 ==> ({
            let node = s.nodes.len();
            let t = s.alloc_node(cons).create_edge(from, fact, node);
            let (knowledge, closes) = t.knowledge.queue_facts(t.nodes[node as int].facts);
            let u = t.with_knowledge(knowledge);
            &&& extends(s, u)
            &&& flags_kept(s, u, None)
            &&& u.nodes.len() == node + 1
            &&& u.steady(node, pending)
            &&& closes ==> refuted_at(u.nodes, u.edges, node)
        }),
{
    if cons.len() > 0 {
        let node = s.nodes.len();
        let t = s.alloc_node(cons).create_edge(from, fact, node);
        lemma_grow(s, from, fact, cons);
        let facts = t.nodes[node as int].facts;
        assert(facts == numbered(cons, s.facts_counter));
        assert forall|f: Formula| #[trigger] t.knowledge.facts.contains_key(f) implies witnessed(
            t.nodes,
            t.edges,
            node,
            f,
            t.knowledge.facts[f],
        ) by {
            assert(witnessed(s.nodes, s.edges, from, f, s.knowledge.facts[f]));
            let a = choose|a: nat| #[trigger]
                on_path(s.edges, a, from) && a < s.nodes.len() && holds(
                    s.nodes[a as int].facts,
                    f,
                    s.knowledge.facts[f],
                );
            assert(on_path(t.edges, a, node));
            assert(t.nodes[a as int].facts == s.nodes[a as int].facts);
        }
        assert forall|i: int| 0 <= i < facts.len() implies holds(
            t.nodes[node as int].facts,
            (#[trigger] facts[i]).formula,
            facts[i].expect,
        ) && facts[i].id < t.facts_counter by {}
        lemma_queue_facts(t.knowledge, facts, t.nodes, t.edges, node, t.facts_counter);
        lemma_ids_grounded_extends(s, t, from, s.knowledge);
        assert(ids_grounded(t.nodes, t.edges, node, t.knowledge)) by {
            assert forall|id: nat| id_on_path(t.nodes, t.edges, from, id) implies id_on_path(
                t.nodes,
                t.edges,
                node,
                id,
            ) by {
                let a = choose|a: nat| #[trigger]
                    on_path(t.edges, a, from) && a < t.nodes.len() && holds_id(
                        t.nodes[a as int].facts,
                        id,
                    );
                assert(t.edges[node - 1].from == from);
                assert(on_path(t.edges, a, node));
            }
        }
        assert forall|i: int| 0 <= i < facts.len() implies holds_id(
            t.nodes[node as int].facts,
            (#[trigger] facts[i]).id,
        ) by {}
        lemma_queue_facts_ids(t.knowledge, facts, t.nodes, t.edges, node);
        assert(t.nodes[0] == s.nodes[0]);
        assert forall|i: int| 0 <= i < facts.len() implies names_known(
            t.nodes[0].facts,
            t.constant_counter,
            (#[trigger] facts[i]).formula,
        ) by {
            assert(facts[i].formula == cons[i].0);
        }
        lemma_queue_facts_names(t.knowledge, facts, t.nodes[0].facts, t.constant_counter);
        let u = t.with_knowledge(t.knowledge.queue_facts(facts).0);
        assert(u.nodes == t.nodes);
        assert(u.edges == t.edges);
        assert(t.nodes[0].facts == s.nodes[0].facts);
        assert(u.structured());
        assert(extends(s, u));
    }
}

/// The fork begins: its first side can be searched.
pub proof fn lemma_branch_first(
    s: TableauModel,
    from: nat,
    fact: nat,
    left: Seq<Signed>,
    right: Seq<Signed>,
    pending: nat,
)
    requires
        s.branch_ready(from, fact, left, right, pending),
    ensures
        s.straight_ready(from, fact, left, pending + 1),
{
}

/// The first side of the fork is done: its second side can be searched,
/// from the knowledge as it was at the fork.
pub proof fn lemma_branch_second(
    s: TableauModel,
    m: TableauModel,
    from: nat,
    fact: nat,
    left: Seq<Signed>,
    right: Seq<Signed>,
    pending: nat,
)
    requires
        s.branch_ready(from, fact, left, right, pending),
        settled(s, m, pending + 1),
        flags_kept(s, m, None),
    ensures
        extends(s, m.with_knowledge(s.knowledge)),
        flags_kept(s, m.with_knowledge(s.knowledge), None),
        m.with_knowledge(s.knowledge).straight_ready(from, fact, right, pending),
        m.process_counter >= s.process_counter,
{
    let first = m.with_knowledge(s.knowledge);
    lemma_settled_with_knowledge(s, m, s.knowledge, pending + 1);
    lemma_grounded_extends(s, first, from, s.knowledge.facts);
    lemma_ids_grounded_extends(s, first, from, s.knowledge);
    lemma_id_on_path_extends(s, first, from, fact);
    lemma_names_grow(s.nodes[0].facts, s.constant_counter, m.constant_counter);
    assert(first.nodes[0].facts == s.nodes[0].facts);
    assert(first.nodes == m.nodes);
    assert(first.edges == m.edges);
    assert(first.structured());
}

impl TableauModel {
    /// A step leaves the tree settled.
    pub proof fn lemma_process_next(self, from: nat, closes: bool, pending: nat)
        requires
            self.steady(from, pending),
            closes ==> refuted_at(self.nodes, self.edges, from),
            closes ==> from + 1 == self.nodes.len(),
        ensures
            settled(self, self.process_next(from, closes), pending),
            flags_kept(
                self,
                self.process_next(from, closes),
                if closes {
                    Some(from)
                } else {
                    None
                },
            ),
        decreases self.steps_left(), 0nat,
    {
        if self.exhausted() {
            assert(extends(self, self));
        } else {
            let s = TableauModel { process_counter: self.process_counter + 1, ..self };
            lemma_pop_step(self, from, pending);
            if closes {
                assert(s.nodes == self.nodes);
                assert(s.edges == self.edges);
                lemma_close_step(s, from, pending);
                lemma_settled_after(self, s, s.close(from), pending);
            } else {
                match s.knowledge.pop() {
                    None => {
                        assert(s.nodes[0].facts == self.nodes[0].facts);
                    },
                    Some((knowledge, picked)) => {
                        let taken = s.with_knowledge(knowledge);
                        if picked.repeated {
                            let cons = seq![(picked.fact.formula, picked.fact.expect)];
                            taken.lemma_straight(from, picked.fact.id, cons, pending);
                            lemma_settled_after(
                                self,
                                taken,
                                taken.straight(from, picked.fact.id, cons),
                                pending,
                            );
                            lemma_flags_kept_after(
                                self,
                                taken,
                                taken.straight(from, picked.fact.id, cons),
                                None,
                            );
                        } else {
                            taken.lemma_process(from, picked.fact, pending);
                            lemma_settled_after(self, taken, taken.process(from, picked.fact), pending);
                            lemma_flags_kept_after(
                                self,
                                taken,
                                taken.process(from, picked.fact),
                                None,
                            );
                        }
                    },
                }
            }
        }
    }

    /// Applying a rule leaves the tree settled.
    pub proof fn lemma_process(self, from: nat, fact: FactModel, pending: nat)
        requires
            self.process_ready(from, fact, pending),
        ensures
            settled(self, self.process(from, fact), pending),
            flags_kept(self, self.process(from, fact), None),
        decreases self.steps_left(), 3nat,
    {
        lemma_process_step(self, from, fact, pending);
        match expansion(fact.formula, fact.expect) {
            Expansion::Nothing => {
                self.lemma_process_next(from, false, pending);
            },
            Expansion::Straight(next) => {
                self.lemma_straight(from, fact.id, next, pending);
            },
            Expansion::Branch(left, right) => {
                self.lemma_branch(from, fact.id, left, right, pending);
            },
            Expansion::Repeat(name, body) => {
                let t = self.with_knowledge(
                    self.knowledge.add_repeater(fact.id, name, body, fact.expect),
                );
                t.lemma_straight(from, fact.id, Seq::empty(), pending);
                lemma_settled_after(self, t, t.straight(from, fact.id, Seq::empty()), pending);
                lemma_flags_kept_after(self, t, t.straight(from, fact.id, Seq::empty()), None);
            },
            Expansion::Witness(name, body) => {
                let (t, constant) = self.alloc_constant();
                let cons = seq![(body.substitute(name, constant), fact.expect)];
                t.lemma_straight(from, fact.id, cons, pending);
                lemma_settled_after(self, t, t.straight(from, fact.id, cons), pending);
                lemma_flags_kept_after(self, t, t.straight(from, fact.id, cons), None);
            },
        }
    }

    /// Extending a branch leaves the tree settled; in particular the count
    /// of steps does not fall.
    pub proof fn lemma_straight(self, from: nat, fact: nat, cons: Seq<Signed>, pending: nat)
        requires
            self.straight_ready(from, fact, cons, pending),
        ensures
            settled(self, self.straight(from, fact, cons), pending),
            flags_kept(self, self.straight(from, fact, cons), None),
        decreases self.steps_left(), 1nat,
    {
        lemma_straight_step(self, from, fact, cons, pending);
        if cons.len() > 0 {
            let node = self.nodes.len();
            let t = self.alloc_node(cons).create_edge(from, fact, node);
            let (knowledge, closes) = t.knowledge.queue_facts(t.nodes[node as int].facts);
            let u = t.with_knowledge(knowledge);
            u.lemma_process_next(node, closes, pending);
            lemma_settled_after(self, u, u.process_next(node, closes), pending);
            lemma_flags_kept_after(
                self,
                u,
                u.process_next(node, closes),
                if closes {
                    Some(node)
                } else {
                    None
                },
            );
        } else {
            self.lemma_process_next(from, false, pending);
        }
    }

    /// A fork leaves the tree settled.
    pub proof fn lemma_branch(
        self,
        from: nat,
        fact: nat,
        left: Seq<Signed>,
        right: Seq<Signed>,
        pending: nat,
    )
        requires
            self.branch_ready(from, fact, left, right, pending),
        ensures
            settled(self, self.branch(from, fact, left, right), pending),
            flags_kept(self, self.branch(from, fact, left, right), None),
        decreases self.steps_left(), 2nat,
    {
        lemma_branch_first(self, from, fact, left, right, pending);
        self.lemma_straight(from, fact, left, pending + 1);
        let m = self.straight(from, fact, left);
        lemma_branch_second(self, m, from, fact, left, right, pending);
        let first = m.with_knowledge(self.knowledge);
        first.lemma_straight(from, fact, right, pending);
        let t = first.straight(from, fact, right);
        lemma_settled_after(self, first, t, pending);
        lemma_settled_with_knowledge(self, t, self.knowledge, pending);
        lemma_flags_kept_after(self, first, t, None);
        assert(t.with_knowledge(self.knowledge).nodes == t.nodes);
    }
}

/// The names in the root and the names that the search starts with are
/// names of the given formulas.
pub proof fn lemma_root_names(start: Seq<Signed>)
    ensures
        ({
            let root = TableauModel::initial(seed_constants(start)).alloc_node(start);
            &&& nodes_named(root.nodes, 0)
            &&& knowledge_named(root.nodes[0].facts, 0, root.knowledge)
            &&& forall|i: int|
                0 <= i < root.nodes[0].facts.len() ==> names_known(
                    root.nodes[0].facts,
                    0,
                    (#[trigger] root.nodes[0].facts[i]).formula,
                )
        }),
{
    let root = TableauModel::initial(seed_constants(start)).alloc_node(start);
    let facts = root.nodes[0].facts;
    assert(facts == numbered(start, 0));
    assert forall|i: int| 0 <= i < facts.len() implies names_known(
        facts,
        0,
        (#[trigger] facts[i]).formula,
    ) by {
        assert forall|x: Name| #[trigger] facts[i].formula.mentions(x) implies accounted(
            facts,
            0,
            x,
        ) by {
            assert(0 <= i < facts.len() && facts[i].formula.mentions(x));
        }
    }
    assert forall|n: int, i: int|
        0 <= n < root.nodes.len() && 0 <= i < root.nodes[n].facts.len() implies names_known(
        root.nodes[0].facts,
        0,
        (#[trigger] root.nodes[n].facts[i]).formula,
    ) by {
        assert(n == 0);
        assert(names_known(facts, 0, facts[i].formula));
    }
    assert forall|i: int| 0 <= i < root.knowledge.constants.len() implies accounted(
        facts,
        0,
        #[trigger] root.knowledge.constants[i],
    ) by {
        let x = root.knowledge.constants[i];
        assert(seed_constants(start)[i] == x);
        lemma_seed_names(start, x);
        let j = choose|j: int| 0 <= j < start.len() && (#[trigger] start[j]).0.mentions(x);
        assert(facts[j].formula == start[j].0);
        assert(0 <= j < facts.len() && facts[j].formula.mentions(x));
    }
}

/// The root with the given formulas: the search can begin there.
pub proof fn lemma_root(start: Seq<Signed>)
    ensures
        ({
            let root = TableauModel::initial(seed_constants(start)).alloc_node(
                start,
            );
            let (knowledge, closes) = root.knowledge.queue_facts(root.nodes[0].facts);
            let u = root.with_knowledge(knowledge);
            &&& u.steady(0, 0)
            &&& closes ==> refuted_at(u.nodes, u.edges, 0)
            &&& u.nodes.len() == 1
            &&& u.nodes[0].facts == numbered(start, 0)
            &&& u.facts_counter == start.len()
        }),
{
    let root = TableauModel::initial(seed_constants(start)).alloc_node(start);
    let facts = root.nodes[0].facts;
    assert(facts == numbered(start, 0));
    assert forall|id: nat| id < root.facts_counter implies #[trigger] id_held(root.nodes, id) by {
        assert(root.nodes[0].facts[id as int].id == id);
    }
    lemma_root_names(start);
    assert(root.structured());
    lemma_queue_facts_names(root.knowledge, facts, facts, 0);
    assert forall|i: int| 0 <= i < facts.len() implies holds(
        root.nodes[0].facts,
        (#[trigger] facts[i]).formula,
        facts[i].expect,
    ) && facts[i].id < root.facts_counter by {}
    lemma_queue_facts(root.knowledge, facts, root.nodes, root.edges, 0, root.facts_counter);
    assert forall|i: int| 0 <= i < facts.len() implies holds_id(
        root.nodes[0].facts,
        (#[trigger] facts[i]).id,
    ) by {}
    lemma_queue_facts_ids(root.knowledge, facts, root.nodes, root.edges, 0);
    let u = root.with_knowledge(root.knowledge.queue_facts(facts).0);
    assert(u.nodes == root.nodes);
    assert(u.edges == root.edges);
    assert(u.structured());
}

/// The shape of every finished tableau: each edge leads from an open
/// node of the tree to a younger one, so that a closed node is a leaf,
/// and is labelled with a fact that stands in a node on the path from
/// the root to the node that the edge comes from; no two facts have one
/// number; the root holds the given formulas as the facts 0, 1, ...
pub proof fn law_tree_is_well_formed(start: Seq<Signed>)
    ensures
        ({
            let t = tableau_of(start);
            &&& t.structured()
            &&& t.nodes.len() >= 1
            &&& t.nodes[0].facts == numbered(start, 0)
            &&& ids_distinct(t.nodes)
            &&& forall|i: int|
                0 <= i < t.edges.len() ==> (#[trigger] t.edges[i]).from < t.edges[i].to
                    < t.nodes.len() && id_held(t.nodes, t.edges[i].fact)
                    && !t.nodes[t.edges[i].from as int].closed && id_on_path(
                    t.nodes,
                    t.edges,
                    t.edges[i].from,
                    t.edges[i].fact,
                )
        }),
{
    lemma_root(start);
    let root = TableauModel::initial(seed_constants(start)).alloc_node(start);
    let (knowledge, closes) = root.knowledge.queue_facts(root.nodes[0].facts);
    let u = root.with_knowledge(knowledge);
    u.lemma_process_next(0, closes, 0);
    let t = tableau_of(start);
    assert(t.nodes[0].facts == u.nodes[0].facts);
    assert forall|i: int| 0 <= i < t.edges.len() implies (#[trigger] t.edges[i]).from
        < t.edges[i].to < t.nodes.len() && id_held(t.nodes, t.edges[i].fact) by {
        assert(t.edges[i].fact < t.facts_counter);
    }
}

/// The path from the root to a closed node of a finished tableau holds
/// some formula with both signs, and one of the two stands in the closed
/// node itself.
pub proof fn law_closed_means_contradiction(start: Seq<Signed>, n: nat)
    requires
        n < tableau_of(start).nodes.len(),
        tableau_of(start).nodes[n as int].closed,
    ensures
        contradictory(tableau_of(start).nodes, tableau_of(start).edges, n),
        refuted_at(tableau_of(start).nodes, tableau_of(start).edges, n),
{
    law_tree_is_well_formed(start);
    lemma_refuted_is_contradictory(tableau_of(start).nodes, tableau_of(start).edges, n);
}

/// Every name in a node of a finished tableau is a name of the given
/// formulas, or the name of a fresh constant whose number is below the
/// count of the fresh constants.
pub proof fn law_names_are_accounted(start: Seq<Signed>, n: int, i: int, x: Name)
    requires
        0 <= n < tableau_of(start).nodes.len(),
        0 <= i < tableau_of(start).nodes[n].facts.len(),
        tableau_of(start).nodes[n].facts[i].formula.mentions(x),
    ensures
        (exists|j: int| 0 <= j < start.len() && (#[trigger] start[j]).0.mentions(x)) || (exists|
            k: nat,
        |
            k < tableau_of(start).constant_counter && x == #[trigger] constant_name(k)),
{
    law_tree_is_well_formed(start);
    let t = tableau_of(start);
    let given = t.nodes[0].facts;
    assert(names_known(given, t.constant_counter, t.nodes[n].facts[i].formula));
    assert(accounted(given, t.constant_counter, x));
    if exists|j: int| 0 <= j < given.len() && (#[trigger] given[j]).formula.mentions(x) {
        let j = choose|j: int| 0 <= j < given.len() && (#[trigger] given[j]).formula.mentions(x);
        assert(given[j].formula == start[j].0);
        assert(0 <= j < start.len() && start[j].0.mentions(x));
    }
}

/// The size of every finished tableau: at most `STEP_LIMIT` steps were
/// taken and at most `CONSTANT_LIMIT` fresh constants introduced; there
/// are at most `NODE_BOUND` nodes, one edge less, and at most
/// `FACT_BOUND` facts, or as many as were given where that is more.
pub proof fn law_size_is_bounded(start: Seq<Signed>)
    ensures
        ({
            let t = tableau_of(start);
            &&& t.process_counter <= STEP_LIMIT
            &&& t.constant_counter <= CONSTANT_LIMIT
            &&& t.nodes.len() <= NODE_BOUND
            &&& t.edges.len() + 1 == t.nodes.len()
            &&& t.facts_counter <= FACT_BOUND || t.facts_counter <= start.len()
        }),
{
    lemma_root(start);
    let root = TableauModel::initial(seed_constants(start)).alloc_node(start);
    let (knowledge, closes) = root.knowledge.queue_facts(root.nodes[0].facts);
    let u = root.with_knowledge(knowledge);
    u.lemma_process_next(0, closes, 0);
    let t = tableau_of(start);
    assert(t.nodes[0].facts == u.nodes[0].facts);
}

} // verus!
