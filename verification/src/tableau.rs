//! The tableau engine: it builds the proof tree for a list of signed
//! formulas and hands it out as a graph.

use crate::ast::{names_of, Connective};
use crate::dot::{
    dot_text, edge_line, edge_lines, fact_label, fact_labels, node_label, node_line, node_lines,
};
use crate::engine::{
    constant_name, expansion, numbered, seed_constants, tableau_of, EdgeModel, NodeModel,
    TableauModel, CONSTANT_LIMIT, FACT_LIMIT, STEP_LIMIT,
};
use crate::formula::{contains_name, insert_all, lemma_insert_all_push};
use crate::invariants::{
    lemma_branch_first, lemma_branch_second, lemma_pop_step, lemma_process_step, lemma_root,
    lemma_straight_step, refuted_at,
};
use crate::knowledge::{
    clone_facts, facts_of, signed_of, Fact, FactModel, FactResult, Knowledge, KnowledgeModel,
    Picked,
};
use crate::text::{decimal_string, join_strings, push_char};
use vstd::prelude::*;
use vstd::string::*;

verus! {

#[derive(Debug, Clone)]
struct Node {
    connectives: Vec<Fact>,
    closed: bool,
}

#[derive(Debug, Clone)]
struct Edge {
    origin_node: usize,
    fact: usize,
    to: usize,
}

impl View for Node {
    type V = NodeModel;

    closed spec fn view(&self) -> NodeModel {
        NodeModel { facts: facts_of(self.connectives@), closed: self.closed }
    }
}

impl View for Edge {
    type V = EdgeModel;

    closed spec fn view(&self) -> EdgeModel {
        EdgeModel { from: self.origin_node as nat, fact: self.fact as nat, to: self.to as nat }
    }
}

/// The nodes that a sequence of values stands for.
spec fn nodes_of(v: Seq<Node>) -> Seq<NodeModel> {
    Seq::new(v.len(), |i: int| v[i]@)
}

/// The edges that a sequence of values stands for.
spec fn edges_of(v: Seq<Edge>) -> Seq<EdgeModel> {
    Seq::new(v.len(), |i: int| v[i]@)
}

/// An analytic tableau: the proof tree for a list of signed formulas,
/// built by `new` and read-only afterwards.
#[derive(Debug, Clone)]
pub struct Tableau {
    facts_counter: usize,
    constant_counter: usize,
    process_counter: usize,
    knowledge: Knowledge,
    knowledge_stack: Vec<Knowledge>,
    nodes: Vec<Node>,
    edges: Vec<Edge>,
}

impl View for Tableau {
    type V = TableauModel;

    closed spec fn view(&self) -> TableauModel {
        TableauModel {
            facts_counter: self.facts_counter as nat,
            constant_counter: self.constant_counter as nat,
            process_counter: self.process_counter as nat,
            knowledge: self.knowledge@,
            nodes: nodes_of(self.nodes@),
            edges: edges_of(self.edges@),
        }
    }
}

/// The names that the search starts with.
fn seed(start: &Vec<(Connective, bool)>) -> (r: Vec<String>)
    ensures
        names_of(r@) == seed_constants(signed_of(start@)),
{
    let ghost all = signed_of(start@);
    let mut r: Vec<String> = Vec::new();
    let mut i: usize = 0;
    assert(all.take(0) =~= Seq::empty());
    assert(names_of(r@) =~= Seq::empty());
    while i < start.len()
        invariant
            i <= start.len(),
            all == signed_of(start@),
            names_of(r@) == seed_constants(all.take(i as int)),
        decreases start.len() - i,
    {
        let variables = start[i].0.all_variables();
        let ghost base = names_of(r@);
        let ghost names = names_of(variables@);
        let mut j: usize = 0;
        assert(names.take(0) =~= Seq::empty());
        while j < variables.len()
            invariant
                j <= variables.len(),
                names == names_of(variables@),
                names_of(r@) == insert_all(base, names.take(j as int)),
            decreases variables.len() - j,
        {
            proof {
                assert(names.take(j + 1) =~= names.take(j as int).push(variables@[j as int]@));
                lemma_insert_all_push(base, names.take(j as int), variables@[j as int]@);
            }
            if !contains_name(&r, &variables[j]) {
                let ghost before = r@;
                r.push(variables[j].clone());
                assert(names_of(r@) =~= names_of(before).push(variables@[j as int]@));
            }
            j += 1;
        }
        proof {
            assert(names.take(variables.len() as int) =~= names);
            assert(all.take(i + 1).drop_last() =~= all.take(i as int));
            assert(all.take(i + 1).last().0 == start@[i as int].0@);
        }
        i += 1;
    }
    assert(all.take(start.len() as int) =~= all);
    r
}

impl Tableau {
    /// The snapshots of the knowledge that wait to be restored, oldest first.
    pub closed spec fn stack_view(&self) -> Seq<KnowledgeModel> {
        Seq::new(self.knowledge_stack@.len(), |i: int| self.knowledge_stack@[i]@)
    }

    /// Builds the tableau for a list of signed formulas and runs the
    /// search to its end. The root, node 0, holds the formulas as the
    /// facts 0, 1, ...; the names known at first are their free names.
    pub fn new(start: Vec<(Connective, bool)>) -> (r: Tableau)
        ensures
            r@ == tableau_of(signed_of(start@)),
            r@.structured(),
            r.stack_view() == Seq::<KnowledgeModel>::empty(),
    {
        let known_constants = seed(&start);
        let mut tableau = Tableau {
            facts_counter: 0,
            constant_counter: 0,
            process_counter: 0,
            knowledge: Knowledge::new(known_constants),
            knowledge_stack: Vec::new(),
            nodes: Vec::new(),
            edges: Vec::new(),
        };
        assert(nodes_of(tableau.nodes@) =~= Seq::empty());
        assert(edges_of(tableau.edges@) =~= Seq::empty());
        assert(tableau.stack_view() =~= Seq::empty());
        assert(tableau@ == TableauModel::initial(seed_constants(signed_of(start@))));
        let starting_node_id = tableau.alloc_node(&start);
        let connectives = clone_facts(&tableau.nodes[starting_node_id].connectives);
        let result = tableau.queue_facts(connectives);
        proof {
            lemma_root(signed_of(start@));
        }
        let ghost ready = tableau@;
        tableau.process_next(starting_node_id, result, Ghost(0));
        proof {
            ready.lemma_process_next(0, result is Err, 0);
        }
        tableau
    }

    /// Takes the facts into the knowledge one after another, up to the
    /// first whose opposite is established; that one closes the branch.
    fn queue_facts(&mut self, connectives: Vec<Fact>) -> (r: Result<(), FactResult>)
        ensures
            final(self)@ == old(self)@.with_knowledge(
                old(self)@.knowledge.queue_facts(facts_of(connectives@)).0,
            ),
            (r is Err) == old(self)@.knowledge.queue_facts(facts_of(connectives@)).1,
            final(self).stack_view() == old(self).stack_view(),
    {
        let ghost all = facts_of(connectives@);
        let ghost goal = self@.knowledge.queue_facts(all);
        let mut i: usize = 0;
        assert(all.skip(0) =~= all);
        while i < connectives.len()
            invariant
                i <= connectives.len(),
                all == facts_of(connectives@),
                goal == old(self)@.knowledge.queue_facts(all),
                goal == self@.knowledge.queue_facts(all.skip(i as int)),
                self@ == old(self)@.with_knowledge(self@.knowledge),
                self.stack_view() == old(self).stack_view(),
            decreases connectives.len() - i,
        {
            let fact = &connectives[i];
            proof {
                assert(all.skip(i as int).first() == fact@);
                assert(all.skip(i as int).drop_first() =~= all.skip(i + 1));
            }
            match self.knowledge.fact(fact.formula.clone(), fact.expect) {
                Ok(is_new) => {
                    if is_new {
                        self.knowledge.queue(fact.id, fact.formula.clone(), fact.expect);
                    }
                },
                Err(e) => {
                    return Err(e);
                },
            }
            i += 1;
        }
        Ok(())
    }

    /// Takes the most urgent pending work.
    fn pop_queue(&mut self) -> (r: Option<(Fact, bool)>)
        ensures
            match r {
                Some((fact, repeated)) => old(self)@.knowledge.pop() == Some(
                    (final(self)@.knowledge, Picked { fact: fact@, repeated }),
                ),
                None => old(self)@.knowledge.pop().is_none() && final(self)@.knowledge == old(
                    self,
                )@.knowledge,
            },
            final(self)@ == old(self)@.with_knowledge(final(self)@.knowledge),
            final(self).stack_view() == old(self).stack_view(),
    {
        self.knowledge.pop()
    }

    /// Adds an edge.
    fn create_edge(&mut self, origin_node: usize, fact: usize, to: usize)
        ensures
            final(self)@ == old(self)@.create_edge(origin_node as nat, fact as nat, to as nat),
            final(self).stack_view() == old(self).stack_view(),
            final(self).nodes == old(self).nodes,
    {
        let ghost before = self.edges@;
        self.edges.push(Edge { origin_node, fact, to });
        assert(edges_of(self.edges@) =~= edges_of(before).push(
            EdgeModel { from: origin_node as nat, fact: fact as nat, to: to as nat },
        ));
    }

    /// Puts a copy of the knowledge on the stack.
    fn save_knowledge(&mut self)
        ensures
            final(self)@ == old(self)@,
            final(self).stack_view() == old(self).stack_view().push(old(self)@.knowledge),
    {
        let save_point = self.knowledge.clone();
        self.knowledge_stack.push(save_point);
        assert(self.stack_view() =~= old(self).stack_view().push(old(self)@.knowledge));
    }

    /// Takes the youngest copy from the stack and puts it in place of the
    /// knowledge.
    fn restore_knowledge(&mut self)
        requires
            old(self).stack_view().len() > 0,
        ensures
            final(self)@ == old(self)@.with_knowledge(old(self).stack_view().last()),
            final(self).stack_view() == old(self).stack_view().drop_last(),
    {
        match self.knowledge_stack.pop() {
            Some(knowledge) => {
                self.knowledge = knowledge;
            },
            None => {},
        }
        assert(self.stack_view() =~= old(self).stack_view().drop_last());
    }

    /// Adds an open node that holds the signed formulas as new facts, and
    /// gives its index.
    fn alloc_node(&mut self, connectives: &Vec<(Connective, bool)>) -> (node_id: usize)
        requires
            old(self).facts_counter + connectives.len() <= usize::MAX,
        ensures
            final(self)@ == old(self)@.alloc_node(signed_of(connectives@)),
            node_id == old(self)@.nodes.len(),
            node_id < final(self).nodes.len(),
            final(self).stack_view() == old(self).stack_view(),
            facts_of(final(self).nodes[node_id as int].connectives@) == numbered(
                signed_of(connectives@),
                old(self)@.facts_counter,
            ),
    {
        let ghost cons = signed_of(connectives@);
        let ghost first = self.facts_counter as nat;
        let mut facts: Vec<Fact> = Vec::new();
        let mut i: usize = 0;
        while i < connectives.len()
            invariant
                i <= connectives.len(),
                cons == signed_of(connectives@),
                first + connectives.len() <= usize::MAX,
                self.facts_counter == first + i,
                facts@.len() == i,
                forall|j: int| 0 <= j < i ==> (#[trigger] facts@[j])@ == numbered(cons, first)[j],
                self.knowledge == old(self).knowledge,
                self.knowledge_stack == old(self).knowledge_stack,
                self.nodes == old(self).nodes,
                self.edges == old(self).edges,
                self.constant_counter == old(self).constant_counter,
                self.process_counter == old(self).process_counter,
            decreases connectives.len() - i,
        {
            let fact_id = self.facts_counter;
            self.facts_counter += 1;
            facts.push(
                Fact { id: fact_id, formula: connectives[i].0.clone(), expect: connectives[i].1 },
            );
            i += 1;
        }
        assert(facts_of(facts@) =~= numbered(cons, first));
        let node_id = self.nodes.len();
        let ghost before = self.nodes@;
        self.nodes.push(Node { connectives: facts, closed: false });
        assert(nodes_of(self.nodes@) =~= nodes_of(before).push(
            NodeModel { facts: numbered(cons, first), closed: false },
        ));
        node_id
    }

    /// Names a fresh constant and makes it known.
    fn alloc_constant(&mut self) -> (con: String)
        requires
            old(self).constant_counter < usize::MAX,
        ensures
            con@ == old(self)@.alloc_constant().1,
            final(self)@ == old(self)@.alloc_constant().0,
            final(self).stack_view() == old(self).stack_view(),
    {
        let mut con = String::new();
        push_char(&mut con, 'C');
        con.append(decimal_string(self.constant_counter).as_str());
        assert(con@ =~= constant_name(self.constant_counter as nat));
        self.knowledge.register_constant(con.clone());
        self.constant_counter += 1;
        con
    }

    /// The bound on the number of facts fits a machine word.
    proof fn lemma_fact_bound_fits(&self)
        ensures
            self@.fact_bound() <= usize::MAX,
    {
        if self.nodes@.len() > 0 {
            assert(nodes_of(self.nodes@)[0].facts.len() == self.nodes@[0].connectives.len());
        }
    }

    /// Marks a node as closed.
    fn close_node(&mut self, node: usize)
        requires
            node < old(self)@.nodes.len(),
        ensures
            final(self)@ == old(self)@.close(node as nat),
            final(self).stack_view() == old(self).stack_view(),
    {
        let ghost before = self.nodes@;
        let connectives = clone_facts(&self.nodes[node].connectives);
        self.nodes.set(node, Node { connectives, closed: true });
        assert(nodes_of(self.nodes@) =~= nodes_of(before).update(
            node as int,
            NodeModel { closed: true, ..nodes_of(before)[node as int] },
        ));
    }

    /// One step of the search at the node `from`: stops past a limit,
    /// closes a refuted branch, or carries out the most urgent pending work.
    /// `pending` counts the forks above that wait for their second side.
    fn process_next(
        &mut self,
        from: usize,
        last_result: Result<(), FactResult>,
        Ghost(pending): Ghost<nat>,
    ) -> (r: bool)
        requires
            old(self)@.steady(from as nat, pending),
            last_result is Err ==> refuted_at(old(self)@.nodes, old(self)@.edges, from as nat),
            last_result is Err ==> from + 1 == old(self)@.nodes.len(),
        ensures
            final(self)@ == old(self)@.process_next(from as nat, last_result is Err),
            final(self).stack_view() == old(self).stack_view(),
            r == !old(self)@.exhausted(),
        decreases old(self)@.steps_left(), 0nat,
    {
        if self.process_counter >= STEP_LIMIT {
            return false;
        }
        if self.constant_counter >= CONSTANT_LIMIT {
            return false;
        }
        if self.facts_counter >= FACT_LIMIT {
            return false;
        }
        proof {
            lemma_pop_step(self@, from as nat, pending);
        }
        self.process_counter += 1;
        match last_result {
            Ok(()) => {
                match self.pop_queue() {
                    Some((fact, was_repeated)) => {
                        if was_repeated {
                            let cons = vec![(fact.formula, fact.expect)];
                            assert(signed_of(cons@) =~= seq![(fact@.formula, fact@.expect)]);
                            self.straight(from, fact.id, cons, Ghost(pending));
                        } else {
                            self.process(from, fact.id, fact.formula, fact.expect, Ghost(pending));
                        }
                    },
                    None => {},
                }
            },
            Err(_) => {
                self.close_node(from);
            },
        }
        true
    }

    /// Applies the rule of a fact.
    fn process(
        &mut self,
        from: usize,
        fact_id: usize,
        connective: Connective,
        expect: bool,
        Ghost(pending): Ghost<nat>,
    ) -> (r: bool)
        requires
            old(self)@.process_ready(
                from as nat,
                FactModel { id: fact_id as nat, formula: connective@, expect },
                pending,
            ),
        ensures
            final(self)@ == old(self)@.process(
                from as nat,
                FactModel { id: fact_id as nat, formula: connective@, expect },
            ),
            final(self).stack_view() == old(self).stack_view(),
            r == (expansion(connective@, expect) is Nothing ==> !old(self)@.exhausted()),
        decreases old(self)@.steps_left(), 3nat,
    {
        proof {
            lemma_process_step(
                self@,
                from as nat,
                FactModel { id: fact_id as nat, formula: connective@, expect },
                pending,
            );
        }
        match connective {
            Connective::Var(_) | Connective::Predicate(_, _) => self.process_next(
                from,
                Ok(()),
                Ghost(pending),
            ),
            Connective::And(left, right) => {
                if expect {
                    let cons = vec![(*left, true), (*right, true)];
                    assert(signed_of(cons@) =~= seq![(left@, true), (right@, true)]);
                    self.straight(from, fact_id, cons, Ghost(pending))
                } else {
                    let l = vec![(*left, false)];
                    let r = vec![(*right, false)];
                    assert(signed_of(l@) =~= seq![(left@, false)]);
                    assert(signed_of(r@) =~= seq![(right@, false)]);
                    self.branch(from, fact_id, l, r, Ghost(pending))
                }
            },
            Connective::Or(left, right) => {
                if expect {
                    let l = vec![(*left, true)];
                    let r = vec![(*right, true)];
                    assert(signed_of(l@) =~= seq![(left@, true)]);
                    assert(signed_of(r@) =~= seq![(right@, true)]);
                    self.branch(from, fact_id, l, r, Ghost(pending))
                } else {
                    let cons = vec![(*left, false), (*right, false)];
                    assert(signed_of(cons@) =~= seq![(left@, false), (right@, false)]);
                    self.straight(from, fact_id, cons, Ghost(pending))
                }
            },
            Connective::Implicate(left, right) => {
                if expect {
                    let l = vec![(*left, false)];
                    let r = vec![(*right, true)];
                    assert(signed_of(l@) =~= seq![(left@, false)]);
                    assert(signed_of(r@) =~= seq![(right@, true)]);
                    self.branch(from, fact_id, l, r, Ghost(pending))
                } else {
                    let cons = vec![(*left, true), (*right, false)];
                    assert(signed_of(cons@) =~= seq![(left@, true), (right@, false)]);
                    self.straight(from, fact_id, cons, Ghost(pending))
                }
            },
            Connective::Biimplicate(left, right) => {
                if expect {
                    let l = vec![((*left).clone(), false), ((*right).clone(), false)];
                    let r = vec![(*left, true), (*right, true)];
                    assert(signed_of(l@) =~= seq![(left@, false), (right@, false)]);
                    assert(signed_of(r@) =~= seq![(left@, true), (right@, true)]);
                    self.branch(from, fact_id, l, r, Ghost(pending))
                } else {
                    let l = vec![((*left).clone(), false), ((*right).clone(), true)];
                    let r = vec![(*left, true), (*right, false)];
                    assert(signed_of(l@) =~= seq![(left@, false), (right@, true)]);
                    assert(signed_of(r@) =~= seq![(left@, true), (right@, false)]);
                    self.branch(from, fact_id, l, r, Ghost(pending))
                }
            },
            Connective::Not(con) => {
                let cons = vec![(*con, !expect)];
                assert(signed_of(cons@) =~= seq![(con@, !expect)]);
                self.straight(from, fact_id, cons, Ghost(pending))
            },
            Connective::Exists(var, con) => {
                if expect {
                    let new_const = self.alloc_constant();
                    let new_con = con.substitude(var.as_str(), new_const.as_str());
                    let cons = vec![(new_con, expect)];
                    assert(signed_of(cons@) =~= seq![(con@.substitute(var@, new_const@), expect)]);
                    self.straight(from, fact_id, cons, Ghost(pending))
                } else {
                    self.knowledge.add_repeater(fact_id, var, *con, expect);
                    let cons: Vec<(Connective, bool)> = Vec::new();
                    assert(signed_of(cons@) =~= Seq::empty());
                    self.straight(from, fact_id, cons, Ghost(pending))
                }
            },
            Connective::ForAll(var, con) => {
                if expect {
                    self.knowledge.add_repeater(fact_id, var, *con, expect);
                    let cons: Vec<(Connective, bool)> = Vec::new();
                    assert(signed_of(cons@) =~= Seq::empty());
                    self.straight(from, fact_id, cons, Ghost(pending))
                } else {
                    let new_const = self.alloc_constant();
                    let new_con = con.substitude(var.as_str(), new_const.as_str());
                    let cons = vec![(new_con, expect)];
                    assert(signed_of(cons@) =~= seq![(con@.substitute(var@, new_const@), expect)]);
                    self.straight(from, fact_id, cons, Ghost(pending))
                }
            },
        }
    }

    /// Extends the branch at `from` by a node with the signed formulas, and
    /// goes on there; an empty list leaves the tree as it is.
    fn straight(
        &mut self,
        from: usize,
        fact_id: usize,
        cons: Vec<(Connective, bool)>,
        Ghost(pending): Ghost<nat>,
    ) -> (r: bool)
        requires
            old(self)@.straight_ready(from as nat, fact_id as nat, signed_of(cons@), pending),
        ensures
            final(self)@ == old(self)@.straight(from as nat, fact_id as nat, signed_of(cons@)),
            final(self).stack_view() == old(self).stack_view(),
            r,
        decreases old(self)@.steps_left(), 1nat,
    {
        proof {
            lemma_straight_step(self@, from as nat, fact_id as nat, signed_of(cons@), pending);
            self.lemma_fact_bound_fits();
        }
        if cons.len() > 0 {
            let node_id = self.alloc_node(&cons);
            let connectives = clone_facts(&self.nodes[node_id].connectives);
            self.create_edge(from, fact_id, node_id);
            let result = self.queue_facts(connectives);
            self.process_next(node_id, result, Ghost(pending));
        } else {
            self.process_next(from, Ok(()), Ghost(pending));
        }
        true
    }

    /// Forks the branch at `from`: searches the one side, then the other,
    /// each from the knowledge as it is now.
    fn branch(
        &mut self,
        from: usize,
        fact_id: usize,
        left: Vec<(Connective, bool)>,
        right: Vec<(Connective, bool)>,
        Ghost(pending): Ghost<nat>,
    ) -> (r: bool)
        requires
            old(self)@.branch_ready(
                from as nat,
                fact_id as nat,
                signed_of(left@),
                signed_of(right@),
                pending,
            ),
        ensures
            final(self)@ == old(self)@.branch(
                from as nat,
                fact_id as nat,
                signed_of(left@),
                signed_of(right@),
            ),
            final(self).stack_view() == old(self).stack_view(),
            r,
        decreases old(self)@.steps_left(), 2nat,
    {
        let ghost s = self@;
        let ghost l = signed_of(left@);
        let ghost r = signed_of(right@);
        proof {
            lemma_branch_first(s, from as nat, fact_id as nat, l, r, pending);
        }
        self.save_knowledge();
        self.straight(from, fact_id, left, Ghost(pending + 1));
        proof {
            s.lemma_straight(from as nat, fact_id as nat, l, pending + 1);
            lemma_branch_second(s, self@, from as nat, fact_id as nat, l, r, pending);
        }
        self.restore_knowledge();
        self.save_knowledge();
        self.straight(from, fact_id, right, Ghost(pending));
        self.restore_knowledge();
        true
    }

    /// The text of one fact in a label.
    fn fact_text(fact: &Fact) -> (r: String)
        requires
            fact.id < usize::MAX,
        ensures
            r@ == fact_label(fact@),
    {
        let mut label = String::new();
        label.append("[");
        label.append(decimal_string(fact.id + 1).as_str());
        label.append("] ");
        label.append(fact.formula.pretty().as_str());
        label.append(": ");
        if fact.expect {
            label.append("true");
        } else {
            label.append("false");
        }
        assert(label@ =~= fact_label(fact@));
        label
    }

    /// The line of one node.
    fn node_text(&self, id: usize) -> (r: String)
        requires
            self@.structured(),
            id < self@.nodes.len(),
        ensures
            r@ == node_line(id as nat, self@.nodes[id as int]),
    {
        let node = &self.nodes[id];
        let ghost facts = self@.nodes[id as int].facts;
        let mut labels: Vec<String> = Vec::new();
        let mut j: usize = 0;
        assert(names_of(labels@) =~= fact_labels(facts, 0));
        while j < node.connectives.len()
            invariant
                j <= node.connectives.len(),
                self@.structured(),
                id < self@.nodes.len(),
                node == &self.nodes[id as int],
                facts == self@.nodes[id as int].facts,
                facts == facts_of(node.connectives@),
                labels@.len() == j,
                names_of(labels@) == fact_labels(facts, j as int),
            decreases node.connectives.len() - j,
        {
            proof {
                assert(facts[j as int].id < self@.facts_counter);
            }
            let ghost before = labels@;
            let label = Self::fact_text(&node.connectives[j]);
            labels.push(label);
            assert forall|k: int| 0 <= k < j + 1 implies names_of(labels@)[k] == fact_labels(
                facts,
                j + 1,
            )[k] by {
                if k < j {
                    assert(names_of(before)[k] == fact_labels(facts, j as int)[k]);
                } else {
                    assert(facts[k] == node.connectives@[k]@);
                }
            }
            assert(names_of(labels@) =~= fact_labels(facts, j + 1));
            j += 1;
        }
        let mut label = join_strings(&labels, "\\n");
        if node.closed {
            label.append("\\nx");
        }
        proof {
            reveal_strlit("");
            assert(label@ =~= node_label(self@.nodes[id as int]));
        }
        let mut line = decimal_string(id);
        line.append(" [label=\"");
        line.append(label.as_str());
        line.append("\"];");
        assert(line@ =~= node_line(id as nat, self@.nodes[id as int]));
        line
    }

    /// The line of one edge.
    fn edge_text(edge: &Edge) -> (r: String)
        requires
            edge.fact < usize::MAX,
        ensures
            r@ == edge_line(edge@),
    {
        let mut line = decimal_string(edge.origin_node);
        line.append(" -> ");
        line.append(decimal_string(edge.to).as_str());
        line.append(" [label=\"");
        line.append(decimal_string(edge.fact + 1).as_str());
        line.append("\"];");
        assert(line@ =~= edge_line(edge@));
        line
    }

    /// The proof tree as a graph in the DOT language. Each node is a line
    /// with its index and, as label, its facts: the number of the fact
    /// counted from 1, the formula and the sign; a closed node is marked
    /// with an `x`. Each edge is a line with the indices of its nodes and
    /// the number of the expanded fact, counted from 1.
    pub fn generate_dot(&self) -> (r: String)
        requires
            self@.structured(),
        ensures
            r@ == dot_text(self@),
    {
        let mut nodes: Vec<String> = Vec::new();
        let mut i: usize = 0;
        assert(names_of(nodes@) =~= node_lines(self@.nodes, 0));
        while i < self.nodes.len()
            invariant
                i <= self.nodes.len(),
                self@.structured(),
                self.nodes.len() == self@.nodes.len(),
                nodes@.len() == i,
                names_of(nodes@) == node_lines(self@.nodes, i as int),
            decreases self.nodes.len() - i,
        {
            let ghost before = nodes@;
            let line = self.node_text(i);
            nodes.push(line);
            assert forall|k: int| 0 <= k < i + 1 implies names_of(nodes@)[k] == node_lines(
                self@.nodes,
                i + 1,
            )[k] by {
                if k < i {
                    assert(names_of(before)[k] == node_lines(self@.nodes, i as int)[k]);
                }
            }
            assert(names_of(nodes@) =~= node_lines(self@.nodes, i + 1));
            i += 1;
        }
        let mut edges: Vec<String> = Vec::new();
        let mut i: usize = 0;
        assert(names_of(edges@) =~= edge_lines(self@.edges, 0));
        while i < self.edges.len()
            invariant
                i <= self.edges.len(),
                self@.structured(),
                self.edges.len() == self@.edges.len(),
                edges@.len() == i,
                names_of(edges@) == edge_lines(self@.edges, i as int),
            decreases self.edges.len() - i,
        {
            proof {
                assert(self@.edges[i as int].fact < self@.facts_counter);
                assert(self@.edges[i as int] == self.edges@[i as int]@);
            }
            let ghost before = edges@;
            let line = Self::edge_text(&self.edges[i]);
            edges.push(line);
            assert forall|k: int| 0 <= k < i + 1 implies names_of(edges@)[k] == edge_lines(
                self@.edges,
                i + 1,
            )[k] by {
                if k < i {
                    assert(names_of(before)[k] == edge_lines(self@.edges, i as int)[k]);
                }
            }
            assert(names_of(edges@) =~= edge_lines(self@.edges, i + 1));
            i += 1;
        }
        let mut r = String::new();
        r.append("digraph A {\n\t");
        r.append(join_strings(&nodes, "\n\t").as_str());
        r.append("\n\n\t");
        r.append(join_strings(&edges, "\n\t").as_str());
        r.append("\t\n}");
        assert(r@ =~= dot_text(self@));
        r
    }

    /// How many nodes the tree has.
    pub fn node_count(&self) -> (r: usize)
        ensures
            r == self@.nodes.len(),
    {
        self.nodes.len()
    }

    /// How many edges the tree has.
    pub fn edge_count(&self) -> (r: usize)
        ensures
            r == self@.edges.len(),
    {
        self.edges.len()
    }

    /// Whether a node is closed; `None` where there is no such node.
    pub fn node_closed(&self, node: usize) -> (r: Option<bool>)
        ensures
            r == if node < self@.nodes.len() {
                Some(self@.nodes[node as int].closed)
            } else {
                None
            },
    {
        if node < self.nodes.len() {
            Some(self.nodes[node].closed)
        } else {
            None
        }
    }

    /// The facts of a node, as copies; `None` where there is no such node.
    pub fn node_facts(&self, node: usize) -> (r: Option<Vec<Fact>>)
        ensures
            match r {
                Some(facts) => node < self@.nodes.len() && facts_of(facts@)
                    == self@.nodes[node as int].facts,
                None => node >= self@.nodes.len(),
            },
    {
        if node < self.nodes.len() {
            Some(clone_facts(&self.nodes[node].connectives))
        } else {
            None
        }
    }

    /// An edge: the node it comes from, the number of the fact whose
    /// expansion it records, the node it leads to; `None` where there is
    /// no such edge.
    pub fn edge(&self, index: usize) -> (r: Option<(usize, usize, usize)>)
        ensures
            match r {
                Some((from, fact, to)) => index < self@.edges.len() && self@.edges[index as int]
                    == (EdgeModel { from: from as nat, fact: fact as nat, to: to as nat }),
                None => index >= self@.edges.len(),
            },
    {
        if index < self.edges.len() {
            let edge = &self.edges[index];
            Some((edge.origin_node, edge.fact, edge.to))
        } else {
            None
        }
    }

    /// How many steps the search took.
    pub fn steps(&self) -> (r: usize)
        ensures
            r == self@.process_counter,
    {
        self.process_counter
    }

    /// How many fresh constants the search introduced.
    pub fn fresh_constants(&self) -> (r: usize)
        ensures
            r == self@.constant_counter,
    {
        self.constant_counter
    }

    /// How many facts the tree holds.
    pub fn fact_count(&self) -> (r: usize)
        ensures
            r == self@.facts_counter,
    {
        self.facts_counter
    }
}

impl Connective {
    /// The tableau for this formula alone, assumed to be `expect`, as a
    /// graph in the DOT language.
    pub fn tableau_dot_graph(self, expect: bool) -> (r: String)
        ensures
            r@ == dot_text(tableau_of(seq![(self@, expect)])),
    {
        let start = vec![(self, expect)];
        assert(signed_of(start@) =~= seq![(self@, expect)]);
        Tableau::new(start).generate_dot()
    }
}

} // verus!
