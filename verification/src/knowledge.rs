//! What is known on one branch of a tableau: the signed formulas
//! established so far, the work that is pending, the names that
//! quantifiers may be instantiated with, and the quantifiers that are
//! instantiated once for every such name.

use crate::ast::{clone_names, names_of, Connective, Formula, Name};
use crate::formula::contains_name;
use crate::ordered::insert_last;
use std::collections::VecDeque;
use vstd::prelude::*;

verus! {

/// A formula with the truth value that is assumed of it.
pub type Signed = (Formula, bool);

/// A signed formula with the number under which the tree introduced it.
pub struct FactModel {
    pub id: nat,
    pub formula: Formula,
    pub expect: bool,
}

/// A quantifier that is instantiated once for each known name: the
/// formula `body` with the name in place of `name`, assumed `expect`.
/// `done` holds the names that were used already.
pub struct RepeaterModel {
    pub fact: nat,
    pub name: Name,
    pub body: Formula,
    pub expect: bool,
    pub done: Set<Name>,
}

/// The knowledge of one branch.
pub struct KnowledgeModel {
    pub facts: Map<Formula, bool>,
    pub queue: Seq<FactModel>,
    pub constants: Seq<Name>,
    pub repeaters: Seq<RepeaterModel>,
}

/// One piece of work that may be taken next: an entry of the queue, or an
/// instance of a repeater for a name that it was not yet used on.
pub enum Candidate {
    Repeated { index: int, fact: FactModel, constant: Name },
    Standard { index: int, fact: FactModel },
}

/// The work that was taken, and whether it is an instance of a repeater.
pub struct Picked {
    pub fact: FactModel,
    pub repeated: bool,
}

impl Candidate {
    /// The signed formula that is to be worked on, with the number of the
    /// fact that it comes from.
    pub open spec fn fact(self) -> FactModel {
        match self {
            Candidate::Repeated { fact, .. } => fact,
            Candidate::Standard { fact, .. } => fact,
        }
    }
}

/// Whether the opposite of `(f, expect)` is established.
pub open spec fn refuted(facts: Map<Formula, bool>, f: Formula, expect: bool) -> bool {
    facts.contains_key(f) && facts[f] == !expect
}

/// How urgent a signed formula is; the smallest number is taken first.
///
/// 0: it contradicts what is established, or its expansion does at once:
/// an atomic formula whose opposite is established, a true conjunction
/// with a false part, a false disjunction with a true part, a false
/// implication whose antecedent is false or whose consequent is true, a
/// true implication whose antecedent is true or whose consequent is false.
/// 1: a variable. 2: expansions that do not branch (true conjunction,
/// false disjunction, false implication). 3: expansions that branch
/// (true implication, false conjunction, true disjunction). 100: the rest.
pub open spec fn priority(facts: Map<Formula, bool>, f: Formula, expect: bool) -> nat {
    match f {
        Formula::Var(_) => if refuted(facts, f, expect) {
            0
        } else {
            1
        },
        Formula::Predicate(_, _) => if refuted(facts, f, expect) {
            0
        } else {
            100
        },
        Formula::And(a, b) => if !expect {
            3
        } else if refuted(facts, *a, true) || refuted(facts, *b, true) {
            0
        } else {
            2
        },
        Formula::Or(a, b) => if expect {
            3
        } else if refuted(facts, *a, false) || refuted(facts, *b, false) {
            0
        } else {
            2
        },
        Formula::Implicate(a, b) => if expect {
            if refuted(facts, *a, false) || refuted(facts, *b, true) {
                0
            } else {
                3
            }
        } else {
            if refuted(facts, *a, true) || refuted(facts, *b, false) {
                0
            } else {
                2
            }
        },
        _ => 100,
    }
}

/// The place of the smallest number; of several equal ones, the first.
pub open spec fn first_minimum(scores: Seq<nat>) -> int
    decreases scores.len(),
{
    if scores.len() <= 1 {
        0
    } else {
        let best = first_minimum(scores.drop_last());
        if scores.last() < scores[best] {
            scores.len() - 1
        } else {
            best
        }
    }
}

/// The instances of one repeater, for the names of `constants` in order
/// that it was not used on.
pub open spec fn instances(rep: RepeaterModel, index: int, constants: Seq<Name>) -> Seq<Candidate>
    decreases constants.len(),
{
    if constants.len() == 0 {
        Seq::empty()
    } else {
        let c = constants.last();
        let init = instances(rep, index, constants.drop_last());
        if rep.done.contains(c) {
            init
        } else {
            init.push(
                Candidate::Repeated {
                    index,
                    fact: FactModel {
                        id: rep.fact,
                        formula: rep.body.substitute(rep.name, c),
                        expect: rep.expect,
                    },
                    constant: c,
                },
            )
        }
    }
}

/// The instances of all repeaters, repeater by repeater.
pub open spec fn repeated_candidates(reps: Seq<RepeaterModel>, constants: Seq<Name>) -> Seq<
    Candidate,
>
    decreases reps.len(),
{
    if reps.len() == 0 {
        Seq::empty()
    } else {
        repeated_candidates(reps.drop_last(), constants) + instances(
            reps.last(),
            reps.len() - 1,
            constants,
        )
    }
}

/// The entries of the queue as candidates.
pub open spec fn standard_candidates(queue: Seq<FactModel>) -> Seq<Candidate> {
    Seq::new(queue.len(), |i: int| Candidate::Standard { index: i, fact: queue[i] })
}

/// The scores of candidates.
pub open spec fn scores(facts: Map<Formula, bool>, candidates: Seq<Candidate>) -> Seq<nat> {
    Seq::new(
        candidates.len(),
        |i: int| priority(facts, candidates[i].fact().formula, candidates[i].fact().expect),
    )
}

/// The mapping that a list of entries stands for; of two entries for one
/// formula the later counts.
pub open spec fn facts_map(entries: Seq<Signed>) -> Map<Formula, bool>
    decreases entries.len(),
{
    if entries.len() == 0 {
        Map::empty()
    } else {
        facts_map(entries.drop_last()).insert(entries.last().0, entries.last().1)
    }
}

/// The set of the names in a list.
pub open spec fn name_set(names: Seq<Name>) -> Set<Name> {
    Set::new(|n: Name| names.contains(n))
}

impl KnowledgeModel {
    /// Knowledge of nothing but the names.
    pub open spec fn initial(constants: Seq<Name>) -> KnowledgeModel {
        KnowledgeModel {
            facts: Map::empty(),
            queue: Seq::empty(),
            constants,
            repeaters: Seq::empty(),
        }
    }

    /// All that may be taken next: the queue in its order, then the
    /// instances of the repeaters.
    pub open spec fn candidates(self) -> Seq<Candidate> {
        standard_candidates(self.queue) + repeated_candidates(self.repeaters, self.constants)
    }

    /// The knowledge once a candidate was taken: an entry leaves the queue
    /// (a place that the queue does not have leaves it as it is); a
    /// repeater stays and notes the name.
    pub open spec fn after(self, taken: Candidate) -> KnowledgeModel {
        match taken {
            Candidate::Standard { index, .. } => if 0 <= index < self.queue.len() {
                KnowledgeModel { queue: self.queue.remove(index), ..self }
            } else {
                self
            },
            Candidate::Repeated { index, constant, .. } => KnowledgeModel {
                repeaters: self.repeaters.update(
                    index,
                    RepeaterModel {
                        done: self.repeaters[index].done.insert(constant),
                        ..self.repeaters[index]
                    },
                ),
                ..self
            },
        }
    }

    /// Takes the most urgent candidate, the first of equally urgent ones:
    /// the knowledge after it and what was taken; `None` where nothing is
    /// pending.
    pub open spec fn pop(self) -> Option<(KnowledgeModel, Picked)> {
        let candidates = self.candidates();
        if candidates.len() == 0 {
            None
        } else {
            let taken = candidates[first_minimum(scores(self.facts, candidates))];
            Some((self.after(taken), Picked { fact: taken.fact(), repeated: taken is Repeated }))
        }
    }

    /// The knowledge with one more established fact, which is also queued.
    pub open spec fn learn(self, fact: FactModel) -> KnowledgeModel {
        KnowledgeModel {
            facts: self.facts.insert(fact.formula, fact.expect),
            queue: self.queue.push(fact),
            ..self
        }
    }

    /// Takes in the facts one after another: one that is established
    /// already is dropped, a new one is learned, and at the first one whose
    /// opposite is established the branch closes and the rest is not
    /// looked at. Gives the knowledge and whether the branch closes.
    pub open spec fn queue_facts(self, facts: Seq<FactModel>) -> (KnowledgeModel, bool)
        decreases facts.len(),
    {
        if facts.len() == 0 {
            (self, false)
        } else {
            let f = facts.first();
            if !self.facts.contains_key(f.formula) {
                self.learn(f).queue_facts(facts.drop_first())
            } else if self.facts[f.formula] == f.expect {
                self.queue_facts(facts.drop_first())
            } else {
                (self, true)
            }
        }
    }

    /// The knowledge with one more repeater, not yet used on any name.
    pub open spec fn add_repeater(self, fact: nat, name: Name, body: Formula, expect: bool) -> KnowledgeModel {
        KnowledgeModel {
            repeaters: self.repeaters.push(
                RepeaterModel { fact, name, body, expect, done: Set::empty() },
            ),
            ..self
        }
    }

    /// The knowledge with one more name, if it is new.
    pub open spec fn register_constant(self, constant: Name) -> KnowledgeModel {
        KnowledgeModel { constants: insert_last(self.constants, constant), ..self }
    }
}

/// A formula with an entry that no later entry overrides is mapped to that
/// entry's value.
pub proof fn lemma_facts_map_known(entries: Seq<Signed>, f: Formula, i: int)
    requires
        0 <= i < entries.len(),
        entries[i].0 == f,
        forall|j: int| i < j < entries.len() ==> entries[j].0 != f,
    ensures
        facts_map(entries).contains_key(f),
        facts_map(entries)[f] == entries[i].1,
    decreases entries.len(),
{
    if i < entries.len() - 1 {
        lemma_facts_map_known(entries.drop_last(), f, i);
    }
}

/// A formula without an entry is not mapped.
pub proof fn lemma_facts_map_unknown(entries: Seq<Signed>, f: Formula)
    requires
        forall|j: int| 0 <= j < entries.len() ==> entries[j].0 != f,
    ensures
        !facts_map(entries).contains_key(f),
    decreases entries.len(),
{
    if entries.len() > 0 {
        lemma_facts_map_unknown(entries.drop_last(), f);
    }
}

/// The first minimum is a place of the sequence, nothing is smaller than
/// what stands there, and everything before it is larger.
pub proof fn lemma_first_minimum(s: Seq<nat>)
    requires
        s.len() > 0,
    ensures
        0 <= first_minimum(s) < s.len(),
        forall|j: int| 0 <= j < s.len() ==> s[first_minimum(s)] <= #[trigger] s[j],
        forall|j: int| 0 <= j < first_minimum(s) ==> s[first_minimum(s)] < #[trigger] s[j],
    decreases s.len(),
{
    if s.len() > 1 {
        lemma_first_minimum(s.drop_last());
        assert(forall|j: int| 0 <= j < s.len() - 1 ==> s.drop_last()[j] == s[j]);
    }
}

/// A numbered signed formula.
#[derive(Debug)]
pub struct Fact {
    pub id: usize,
    pub formula: Connective,
    pub expect: bool,
}

impl View for Fact {
    type V = FactModel;

    open spec fn view(&self) -> FactModel {
        FactModel { id: self.id as nat, formula: self.formula@, expect: self.expect }
    }
}

impl Clone for Fact {
    fn clone(&self) -> (r: Fact)
        ensures
            r@ == self@,
    {
        Fact { id: self.id, formula: self.formula.clone(), expect: self.expect }
    }
}

/// The facts that a sequence of values stands for.
pub open spec fn facts_of(v: Seq<Fact>) -> Seq<FactModel> {
    Seq::new(v.len(), |i: int| v[i]@)
}

/// The signed formulas that a sequence of values stands for.
pub open spec fn signed_of(v: Seq<(Connective, bool)>) -> Seq<Signed> {
    Seq::new(v.len(), |i: int| (v[i].0@, v[i].1))
}

/// Copies a list of facts.
pub fn clone_facts(v: &Vec<Fact>) -> (r: Vec<Fact>)
    ensures
        facts_of(r@) == facts_of(v@),
{
    let mut r: Vec<Fact> = Vec::new();
    let mut i: usize = 0;
    while i < v.len()
        invariant
            i <= v.len(),
            r@.len() == i,
            forall|j: int| 0 <= j < i ==> r@[j]@ == v@[j]@,
        decreases v.len() - i,
    {
        r.push(v[i].clone());
        i += 1;
    }
    assert(facts_of(r@) =~= facts_of(v@));
    r
}

/// Copies a queue of facts.
pub fn clone_queue(v: &VecDeque<Fact>) -> (r: VecDeque<Fact>)
    ensures
        facts_of(r@) == facts_of(v@),
{
    let mut r: VecDeque<Fact> = VecDeque::new();
    let mut i: usize = 0;
    while i < v.len()
        invariant
            i <= v.len(),
            r@.len() == i,
            forall|j: int| 0 <= j < i ==> r@[j]@ == v@[j]@,
        decreases v.len() - i,
    {
        r.push_back(v[i].clone());
        i += 1;
    }
    assert(facts_of(r@) =~= facts_of(v@));
    r
}

/// A quantifier that is instantiated once for each known name.
#[derive(Debug)]
pub struct Repeater {
    fact: usize,
    name: String,
    body: Connective,
    expect: bool,
    done: Vec<String>,
}

impl View for Repeater {
    type V = RepeaterModel;

    closed spec fn view(&self) -> RepeaterModel {
        RepeaterModel {
            fact: self.fact as nat,
            name: self.name@,
            body: self.body@,
            expect: self.expect,
            done: name_set(names_of(self.done@)),
        }
    }
}

impl Clone for Repeater {
    fn clone(&self) -> (r: Repeater)
        ensures
            r@ == self@,
    {
        Repeater {
            fact: self.fact,
            name: self.name.clone(),
            body: self.body.clone(),
            expect: self.expect,
            done: clone_names(&self.done),
        }
    }
}

/// The repeaters that a sequence of values stands for.
pub open spec fn repeaters_of(v: Seq<Repeater>) -> Seq<RepeaterModel> {
    Seq::new(v.len(), |i: int| v[i]@)
}

/// One piece of work that may be taken next, with its place in the queue
/// or among the repeaters.
#[derive(Debug)]
pub enum QueueEntry {
    Repeated(usize, Fact, String),
    Standard(usize, Fact),
}

impl View for QueueEntry {
    type V = Candidate;

    open spec fn view(&self) -> Candidate {
        match self {
            QueueEntry::Repeated(index, fact, constant) => Candidate::Repeated {
                index: *index as int,
                fact: fact@,
                constant: constant@,
            },
            QueueEntry::Standard(index, fact) => Candidate::Standard {
                index: *index as int,
                fact: fact@,
            },
        }
    }
}

impl QueueEntry {
    /// The formula of the entry and its sign.
    pub fn extract(&self) -> (r: (&Connective, bool))
        ensures
            r.0@ == self@.fact().formula,
            r.1 == self@.fact().expect,
    {
        match self {
            QueueEntry::Standard(_, fact) => (&fact.formula, fact.expect),
            QueueEntry::Repeated(_, fact, _) => (&fact.formula, fact.expect),
        }
    }
}

/// The candidates that a sequence of entries stands for.
pub open spec fn candidates_of(v: Seq<QueueEntry>) -> Seq<Candidate> {
    Seq::new(v.len(), |i: int| v[i]@)
}

/// The outcome of a fact that cannot be taken in.
#[derive(Debug)]
pub enum FactResult {
    /// Its opposite is established: the branch is refuted.
    Closes,
}

/// The knowledge of one branch.
#[derive(Debug)]
pub struct Knowledge {
    facts: Vec<(Connective, bool)>,
    queue: VecDeque<Fact>,
    known_constants: Vec<String>,
    repeaters: Vec<Repeater>,
}

impl View for Knowledge {
    type V = KnowledgeModel;

    closed spec fn view(&self) -> KnowledgeModel {
        KnowledgeModel {
            facts: facts_map(signed_of(self.facts@)),
            queue: facts_of(self.queue@),
            constants: names_of(self.known_constants@),
            repeaters: repeaters_of(self.repeaters@),
        }
    }
}

impl Clone for Knowledge {
    fn clone(&self) -> (r: Knowledge)
        ensures
            r@ == self@,
    {
        let mut facts: Vec<(Connective, bool)> = Vec::new();
        let mut i: usize = 0;
        while i < self.facts.len()
            invariant
                i <= self.facts.len(),
                facts@.len() == i,
                forall|j: int| 0 <= j < i ==> facts@[j].0@ == self.facts@[j].0@ && facts@[j].1 == self.facts@[j].1,
            decreases self.facts.len() - i,
        {
            facts.push((self.facts[i].0.clone(), self.facts[i].1));
            i += 1;
        }
        assert(signed_of(facts@) =~= signed_of(self.facts@));
        let mut repeaters: Vec<Repeater> = Vec::new();
        let mut i: usize = 0;
        while i < self.repeaters.len()
            invariant
                i <= self.repeaters.len(),
                repeaters@.len() == i,
                forall|j: int| 0 <= j < i ==> repeaters@[j]@ == self.repeaters@[j]@,
            decreases self.repeaters.len() - i,
        {
            repeaters.push(self.repeaters[i].clone());
            i += 1;
        }
        assert(repeaters_of(repeaters@) =~= repeaters_of(self.repeaters@));
        Knowledge {
            facts,
            queue: clone_queue(&self.queue),
            known_constants: clone_names(&self.known_constants),
            repeaters,
        }
    }
}

impl Knowledge {
    /// Knowledge of nothing but the names that quantifiers may use.
    pub fn new(known_constants: Vec<String>) -> (r: Knowledge)
        ensures
            r@ == KnowledgeModel::initial(names_of(known_constants@)),
    {
        let r = Knowledge {
            queue: VecDeque::new(),
            facts: Vec::new(),
            known_constants,
            repeaters: Vec::new(),
        };
        assert(facts_of(r.queue@) =~= Seq::empty());
        assert(repeaters_of(r.repeaters@) =~= Seq::empty());
        assert(signed_of(r.facts@) =~= Seq::empty());
        r
    }

    /// The truth value that is established of a formula, if any is.
    pub fn known(&self, con: &Connective) -> (r: Option<bool>)
        ensures
            r == if self@.facts.contains_key(con@) {
                Some(self@.facts[con@])
            } else {
                None
            },
    {
        let ghost entries = signed_of(self.facts@);
        let mut i: usize = self.facts.len();
        while i > 0
            invariant
                i <= self.facts.len(),
                entries == signed_of(self.facts@),
                forall|j: int| i <= j < entries.len() ==> entries[j].0 != con@,
            decreases i,
        {
            i -= 1;
            if self.facts[i].0.same(con) {
                proof {
                    lemma_facts_map_known(entries, con@, i as int);
                }
                return Some(self.facts[i].1);
            }
        }
        proof {
            lemma_facts_map_unknown(entries, con@);
        }
        None
    }

    /// Whether the opposite of a signed formula is established.
    pub fn contra(&self, con: &Connective, expect: bool) -> (r: bool)
        ensures
            r == refuted(self@.facts, con@, expect),
    {
        match self.known(con) {
            Some(b) => b != expect,
            None => false,
        }
    }

    /// How urgent an entry is; the smallest number is taken first.
    pub fn score(&self, entry: &QueueEntry) -> (r: usize)
        ensures
            r == priority(self@.facts, entry@.fact().formula, entry@.fact().expect),
    {
        let (con, expect) = entry.extract();
        match con {
            Connective::Var(_) => if self.contra(con, expect) {
                0
            } else {
                1
            },
            Connective::Predicate(_, _) => if self.contra(con, expect) {
                0
            } else {
                100
            },
            Connective::And(a, b) => if !expect {
                3
            } else if self.contra(a, true) || self.contra(b, true) {
                0
            } else {
                2
            },
            Connective::Or(a, b) => if expect {
                3
            } else if self.contra(a, false) || self.contra(b, false) {
                0
            } else {
                2
            },
            Connective::Implicate(a, b) => if expect {
                if self.contra(a, false) || self.contra(b, true) {
                    0
                } else {
                    3
                }
            } else {
                if self.contra(a, true) || self.contra(b, false) {
                    0
                } else {
                    2
                }
            },
            _ => 100,
        }
    }

    /// All that may be taken next: the queue in its order, then for each
    /// repeater its instances for the names it was not used on.
    pub fn generate_queue(&self) -> (r: Vec<QueueEntry>)
        ensures
            candidates_of(r@) == self@.candidates(),
    {
        let mut r: Vec<QueueEntry> = Vec::new();
        let mut i: usize = 0;
        while i < self.queue.len()
            invariant
                i <= self.queue.len(),
                r@.len() == i,
                forall|j: int| 0 <= j < i ==> r@[j]@ == standard_candidates(self@.queue)[j],
            decreases self.queue.len() - i,
        {
            r.push(QueueEntry::Standard(i, self.queue[i].clone()));
            i += 1;
        }
        assert(candidates_of(r@) =~= standard_candidates(self@.queue));
        let ghost reps = self@.repeaters;
        let ghost constants = self@.constants;
        let ghost standard = standard_candidates(self@.queue);
        let mut i: usize = 0;
        assert(reps.take(0) =~= Seq::empty());
        assert(standard + Seq::<Candidate>::empty() =~= standard);
        while i < self.repeaters.len()
            invariant
                i <= self.repeaters.len(),
                reps == self@.repeaters,
                reps.len() == self.repeaters.len(),
                constants == self@.constants,
                standard == standard_candidates(self@.queue),
                candidates_of(r@) == standard + repeated_candidates(reps.take(i as int), constants),
            decreases self.repeaters.len() - i,
        {
            let rep = &self.repeaters[i];
            let ghost before = candidates_of(r@);
            let mut j: usize = 0;
            assert(constants.take(0) =~= Seq::empty());
            assert(before + Seq::<Candidate>::empty() =~= before);
            while j < self.known_constants.len()
                invariant
                    j <= self.known_constants.len(),
                    constants == self@.constants,
                    constants.len() == self.known_constants.len(),
                    i < self.repeaters.len(),
                    rep == &self.repeaters[i as int],
                    candidates_of(r@) == before + instances(
                        rep@,
                        i as int,
                        constants.take(j as int),
                    ),
                decreases self.known_constants.len() - j,
            {
                let constant = &self.known_constants[j];
                proof {
                    assert(constants.take(j + 1).drop_last() =~= constants.take(j as int));
                    assert(constants.take(j + 1).last() == constant@);
                }
                if !contains_name(&rep.done, constant) {
                    let ghost so_far = r@;
                    let entry = QueueEntry::Repeated(
                        i,
                        Fact {
                            id: rep.fact,
                            formula: rep.body.substitude(rep.name.as_str(), constant.as_str()),
                            expect: rep.expect,
                        },
                        constant.clone(),
                    );
                    r.push(entry);
                    assert(candidates_of(r@) =~= candidates_of(so_far).push(entry@));
                    assert(candidates_of(r@) =~= before + instances(
                        rep@,
                        i as int,
                        constants.take(j + 1),
                    ));
                }
                j += 1;
            }
            proof {
                assert(constants.take(self.known_constants.len() as int) =~= constants);
                assert(reps.take(i + 1).drop_last() =~= reps.take(i as int));
                assert(reps.take(i + 1).last() == rep@);
                assert(candidates_of(r@) =~= standard + repeated_candidates(
                    reps.take(i + 1),
                    constants,
                ));
            }
            i += 1;
        }
        assert(reps.take(self.repeaters.len() as int) =~= reps);
        r
    }

    /// Takes an entry: one of the queue leaves the queue, and where the
    /// queue has no such place nothing changes; for an instance of a
    /// repeater, which must exist, the repeater notes the name. Gives the
    /// fact and whether it is an instance of a repeater.
    pub fn process_queue_entry(&mut self, entry: QueueEntry) -> (r: (Fact, bool))
        requires
            entry@ matches Candidate::Repeated { index, .. } ==> 0 <= index < old(
                self,
            )@.repeaters.len(),
        ensures
            final(self)@ == old(self)@.after(entry@),
            entry@ matches Candidate::Standard { index, .. } && index >= old(self)@.queue.len()
                ==> final(self)@ == old(self)@,
            r.0@ == entry@.fact(),
            r.1 == (entry@ is Repeated),
    {
        match entry {
            QueueEntry::Repeated(index, fact, constant) => {
                let ghost before = self.repeaters@;
                let mut repeater = self.repeaters[index].clone();
                let ghost names = names_of(repeater.done@);
                repeater.done.push(constant);
                proof {
                    assert(names_of(repeater.done@) =~= names.push(constant@));
                    assert(name_set(names.push(constant@)) =~= name_set(names).insert(constant@))
                        by {
                        assert forall|n: Name|
                            name_set(names.push(constant@)).contains(n) == name_set(names).insert(
                                constant@,
                            ).contains(n) by {
                            if names.push(constant@).contains(n) {
                                let k = choose|k: int|
                                    0 <= k < names.push(constant@).len() && names.push(
                                        constant@,
                                    )[k] == n;
                                if k < names.len() {
                                    assert(names[k] == n);
                                }
                            }
                            if names.contains(n) {
                                let k = choose|k: int| 0 <= k < names.len() && names[k] == n;
                                assert(names.push(constant@)[k] == n);
                            }
                            if n == constant@ {
                                assert(names.push(constant@)[names.len() as int] == n);
                            }
                        }
                    }
                }
                self.repeaters.set(index, repeater);
                assert(repeaters_of(self.repeaters@) =~= repeaters_of(before).update(
                    index as int,
                    repeater@,
                ));
                (fact, true)
            },
            QueueEntry::Standard(index, fact) => {
                let ghost before = self.queue@;
                let removed = self.queue.remove(index);
                proof {
                    if removed is Some {
                        assert(facts_of(self.queue@) =~= facts_of(before).remove(index as int));
                    }
                }
                (fact, false)
            },
        }
    }

    /// Takes the most urgent piece of work, the first of equally urgent
    /// ones; `None` where nothing is pending.
    pub fn pop(&mut self) -> (r: Option<(Fact, bool)>)
        ensures
            match r {
                Some((fact, repeated)) => old(self)@.pop() == Some(
                    (final(self)@, Picked { fact: fact@, repeated }),
                ),
                None => old(self)@.pop().is_none() && final(self)@ == old(self)@,
            },
    {
        let mut queue = self.generate_queue();
        if queue.len() == 0 {
            return None;
        }
        let ghost candidates = self@.candidates();
        let ghost all = scores(self@.facts, candidates);
        let mut best: usize = 0;
        let mut best_score: usize = self.score(&queue[0]);
        let mut i: usize = 1;
        assert(all.take(1).drop_last() =~= Seq::empty());
        while i < queue.len()
            invariant
                1 <= i <= queue.len(),
                candidates == self@.candidates(),
                candidates_of(queue@) == candidates,
                all == scores(self@.facts, candidates),
                best as int == first_minimum(all.take(i as int)),
                0 <= best < i,
                best_score == all[best as int],
            decreases queue.len() - i,
        {
            let score = self.score(&queue[i]);
            proof {
                assert(candidates[i as int] == queue@[i as int]@);
                assert(all.take(i + 1).drop_last() =~= all.take(i as int));
                assert(all.take(i + 1).last() == all[i as int]);
            }
            if score < best_score {
                best = i;
                best_score = score;
            }
            i += 1;
        }
        proof {
            assert(all.take(queue.len() as int) =~= all);
            self@.lemma_candidates_in_range();
            assert(candidates[best as int] == queue@[best as int]@);
        }
        let entry = queue.remove(best);
        Some(self.process_queue_entry(entry))
    }

    /// Takes in a signed formula. `Ok(true)`: it is new and now
    /// established. `Ok(false)`: it was established already. `Err`: its
    /// opposite is established, and nothing changes.
    pub fn fact(&mut self, connective: Connective, expect: bool) -> (r: Result<bool, FactResult>)
        ensures
            final(self)@.queue == old(self)@.queue,
            final(self)@.constants == old(self)@.constants,
            final(self)@.repeaters == old(self)@.repeaters,
            match r {
                Ok(true) => !old(self)@.facts.contains_key(connective@) && final(self)@.facts
                    == old(self)@.facts.insert(connective@, expect),
                Ok(false) => old(self)@.facts.contains_key(connective@) && old(
                    self,
                )@.facts[connective@] == expect && final(self)@ == old(self)@,
                Err(_) => refuted(old(self)@.facts, connective@, expect) && final(self)@ == old(
                    self,
                )@,
            },
    {
        match self.known(&connective) {
            Some(fact) => {
                if expect == fact {
                    Ok(false)
                } else {
                    Err(FactResult::Closes)
                }
            },
            None => {
                let ghost before = self.facts@;
                self.facts.push((connective, expect));
                assert(signed_of(self.facts@).drop_last() =~= signed_of(before));
                Ok(true)
            },
        }
    }

    /// Puts a fact at the end of the queue.
    pub fn queue(&mut self, fact_id: usize, connective: Connective, expect: bool)
        ensures
            final(self)@ == (KnowledgeModel {
                queue: old(self)@.queue.push(
                    FactModel { id: fact_id as nat, formula: connective@, expect },
                ),
                ..old(self)@
            }),
    {
        let ghost before = self.queue@;
        self.queue.push_back(Fact { id: fact_id, formula: connective, expect });
        assert(facts_of(self.queue@) =~= facts_of(before).push(
            FactModel { id: fact_id as nat, formula: connective@, expect },
        ));
    }

    /// Adds a repeater that was not yet used on any name.
    pub fn add_repeater(
        &mut self,
        fact_id: usize,
        to_replace: String,
        connective: Connective,
        expect: bool,
    )
        ensures
            final(self)@ == old(self)@.add_repeater(
                fact_id as nat,
                to_replace@,
                connective@,
                expect,
            ),
    {
        let ghost before = self.repeaters@;
        let repeater = Repeater {
            fact: fact_id,
            name: to_replace,
            body: connective,
            expect,
            done: Vec::new(),
        };
        assert(name_set(names_of(repeater.done@)) =~= Set::empty());
        self.repeaters.push(repeater);
        assert(repeaters_of(self.repeaters@) =~= repeaters_of(before).push(repeater@));
    }

    /// Makes a name known, if it is not yet.
    pub fn register_constant(&mut self, constant: String)
        ensures
            final(self)@ == old(self)@.register_constant(constant@),
    {
        if !contains_name(&self.known_constants, &constant) {
            let ghost before = self.known_constants@;
            self.known_constants.push(constant);
            assert(names_of(self.known_constants@) =~= names_of(before).push(constant@));
        }
    }
}

impl KnowledgeModel {
    /// Every candidate names a place of the queue or a repeater that exists.
    pub proof fn lemma_candidates_in_range(self)
        ensures
            forall|i: int|
                0 <= i < self.candidates().len() ==> match #[trigger] self.candidates()[i] {
                    Candidate::Standard { index, .. } => 0 <= index < self.queue.len(),
                    Candidate::Repeated { index, .. } => 0 <= index < self.repeaters.len(),
                },
    {
        lemma_repeated_in_range(self.repeaters, self.constants);
    }
}

/// An instance names the repeater that it is an instance of, the fact of
/// that repeater, and a known name that the repeater was not used on; its
/// formula is the body of the repeater with that name.
pub proof fn lemma_instances_index(rep: RepeaterModel, index: int, constants: Seq<Name>)
    ensures
        forall|i: int|
            0 <= i < instances(rep, index, constants).len() ==> (#[trigger] instances(
                rep,
                index,
                constants,
            )[i] matches Candidate::Repeated { index: at, fact, constant } && at == index
                && fact.id == rep.fact && fact.formula == rep.body.substitute(rep.name, constant)
                && constants.contains(constant) && !rep.done.contains(constant)),
    decreases constants.len(),
{
    if constants.len() > 0 {
        let init = constants.drop_last();
        lemma_instances_index(rep, index, init);
        assert forall|c: Name| init.contains(c) implies constants.contains(c) by {
            let i = choose|i: int| 0 <= i < init.len() && init[i] == c;
            assert(constants[i] == c);
        }
        assert(constants[constants.len() - 1] == constants.last());
    }
}

/// The instances of the repeaters name repeaters that exist, their facts,
/// and known names that they were not used on; the formula of each is
/// the body of its repeater with that name.
pub proof fn lemma_repeated_in_range(reps: Seq<RepeaterModel>, constants: Seq<Name>)
    ensures
        forall|i: int|
            0 <= i < repeated_candidates(reps, constants).len() ==> (
            #[trigger] repeated_candidates(reps, constants)[i] matches Candidate::Repeated {
                index,
                fact,
                constant,
            } && 0 <= index < reps.len() && fact.id == reps[index].fact && fact.formula
                == reps[index].body.substitute(reps[index].name, constant) && constants.contains(
                constant,
            ) && !reps[index].done.contains(constant)),
    decreases reps.len(),
{
    if reps.len() > 0 {
        lemma_repeated_in_range(reps.drop_last(), constants);
        lemma_instances_index(reps.last(), reps.len() - 1, constants);
    }
}

/// A repeater is used on a name at most once: what may be taken for a
/// repeater is an instance for a known name that it was not used on, and
/// once the instance is taken the repeater has noted the name.
pub proof fn law_repeater_fires_once(k: KnowledgeModel, i: int)
    requires
        0 <= i < k.candidates().len(),
        k.candidates()[i] is Repeated,
    ensures
        ({
            let taken = k.candidates()[i];
            let index = taken->Repeated_index;
            let constant = taken->Repeated_constant;
            &&& 0 <= index < k.repeaters.len()
            &&& k.constants.contains(constant)
            &&& !k.repeaters[index].done.contains(constant)
            &&& k.after(taken).repeaters[index].done.contains(constant)
            &&& k.after(taken).repeaters.len() == k.repeaters.len()
        }),
{
    lemma_repeated_in_range(k.repeaters, k.constants);
    let standard = standard_candidates(k.queue);
    if i < standard.len() {
        assert(k.candidates()[i] == standard[i]);
    } else {
        assert(k.candidates()[i] == repeated_candidates(k.repeaters, k.constants)[i
            - standard.len()]);
    }
}

} // verus!
