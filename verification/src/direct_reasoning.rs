use vstd::prelude::*;

use crate::engine::Engine;
use crate::fact::{clone_rules, rules_eq, CoreRule};
use crate::idset::IdSet;

verus! {

/// Presentation state of one fact, as the excluded rendering layer reads it.
#[derive(Debug, Clone, Copy, PartialEq, Eq, Structural)]
pub enum FactState {
    Unvisited,
    Starting,
    Target,
    TargetVisited,
    TargetNotPossible,
    Visited,
    VisitedPath,
    DeadEnd,
}

/// Presentation state of one rule.
#[derive(Debug, Clone, Copy, PartialEq, Eq, Structural)]
pub enum RuleState {
    Unvisited,
    Visited,
    VisitedPath,
    DeadEnd,
}

/// A whole-snapshot presentation export: one state per fact and one per
/// rule, indexed by the arena indices of the knowledge base.
#[derive(Debug, PartialEq, Eq)]
pub struct NodeColoring {
    pub facts: Vec<FactState>,
    pub rules: Vec<RuleState>,
}

/// A fact index paired with its presentation state, the payload of a fact
/// node in the rendered graph.
#[derive(Debug, Clone, Copy, PartialEq, Eq, Structural)]
pub struct StatedFact {
    pub fact: usize,
    pub state: FactState,
}

/// A rule index paired with its presentation state, the payload of a rule
/// node in the rendered graph.
#[derive(Debug, Clone, Copy, PartialEq, Eq, Structural)]
pub struct StatedRule {
    pub rule: usize,
    pub state: RuleState,
}

/// A node of the rendered fact/rule graph.
#[derive(Debug, Clone, Copy, PartialEq, Eq, Structural)]
pub enum GraphNode {
    Rule(StatedRule),
    Fact(StatedFact),
}

/// Outcome of one forward-chaining step.
#[derive(Debug, Clone, Copy, PartialEq, Eq, Structural)]
pub enum StepResult {
    FoundAfter(usize, usize),
    Found,
    Applied(usize),
    NotProved,
}

/// The set of facts output by the rules whose indices occur in `used`.
pub open spec fn rule_outputs(rules: Seq<CoreRule>, used: Seq<usize>) -> Set<usize> {
    Set::new(
        |f: usize|
            exists|j: int|
                0 <= j < used.len() && (#[trigger] used[j]) < rules.len()
                    && rules[used[j] as int].out == f,
    )
}

proof fn lemma_push_contains<T>(s: Seq<T>, x: T, y: T)
    ensures
        s.push(x).contains(y) <==> (s.contains(y) || y == x),
{
    if s.push(x).contains(y) {
        let j = choose|j: int| 0 <= j < s.push(x).len() && s.push(x)[j] == y;
        if j < s.len() {
            assert(s[j] == y);
        }
    }
    if s.contains(y) {
        let j = choose|j: int| 0 <= j < s.len() && s[j] == y;
        assert(s.push(x)[j] == y);
    }
    assert(s.push(x)[s.len() as int] == x);
}

proof fn lemma_outputs_push(rules: Seq<CoreRule>, used: Seq<usize>, r: usize)
    requires
        r < rules.len(),
    ensures
        rule_outputs(rules, used.push(r)) == rule_outputs(rules, used).insert(
            rules[r as int].out,
        ),
{
    let lhs = rule_outputs(rules, used.push(r));
    let rhs = rule_outputs(rules, used).insert(rules[r as int].out);
    assert forall|f: usize| lhs.contains(f) implies rhs.contains(f) by {
        let j = choose|j: int|
            0 <= j < used.push(r).len() && (#[trigger] used.push(r)[j]) < rules.len()
                && rules[used.push(r)[j] as int].out == f;
        if j < used.len() {
            assert(used[j] == used.push(r)[j]);
            assert(rule_outputs(rules, used).contains(f));
        } else {
            assert(used.push(r)[j] == r);
        }
    }
    assert forall|f: usize| rhs.contains(f) implies lhs.contains(f) by {
        if f == rules[r as int].out {
            assert(used.push(r)[used.len() as int] == r);
        } else {
            let j = choose|j: int|
                0 <= j < used.len() && (#[trigger] used[j]) < rules.len()
                    && rules[used[j] as int].out == f;
            assert(used.push(r)[j] == used[j]);
        }
    }
    assert(lhs =~= rhs);
}

proof fn lemma_used_len_bound(used: Seq<usize>, n: int)
    requires
        used.no_duplicates(),
        forall|j: int| 0 <= j < used.len() ==> (#[trigger] used[j]) < n,
        0 <= n,
    ensures
        used.len() <= n,
{
    let f = |x: usize| x as int;
    assert(vstd::relations::injective(f)) by {
        assert forall|a: usize, b: usize| #[trigger] f(a) == #[trigger] f(b) implies a == b by {}
    }
    used.lemma_no_duplicates_injective(f);
    let mapped = used.map_values(f);
    mapped.unique_seq_to_set();
    vstd::seq_lib::seq_to_set_is_finite(mapped);
    assert forall|x: int| mapped.to_set().contains(x) implies vstd::set_lib::set_int_range(
        0,
        n,
    ).contains(x) by {
        let j = choose|j: int| 0 <= j < mapped.len() && mapped[j] == x;
        assert(mapped[j] == f(used[j]));
    }
    vstd::set_lib::lemma_int_range(0, n);
    vstd::set_lib::lemma_len_subset(mapped.to_set(), vstd::set_lib::set_int_range(0, n));
}

/// Forward (direct) chaining: starting from the chosen facts, greedily fire
/// any rule whose requirements are already satisfied until the target fact
/// appears or no rule can fire. Owns a private working copy of the
/// knowledge base's rules and fact set.
#[derive(Debug)]
pub struct DirectReasoning {
    pub n_facts: usize,
    pub starting_facts: IdSet,
    pub all_rules: Vec<CoreRule>,
    pub current_facts: IdSet,
    pub target_fact: usize,
    pub used_rules: Vec<usize>,
    pub unused_rules: IdSet,
}

impl DirectReasoning {
    /// Structural invariant: the fact sets range over the fact arena, the
    /// rule sets range over the rule list, the used and unused rules
    /// partition the rule list, and the current facts are exactly the
    /// starting facts plus the outputs of the used rules.
    pub open spec fn wf(&self) -> bool {
        &&& self.starting_facts.capacity() == self.n_facts
        &&& self.current_facts.capacity() == self.n_facts
        &&& self.target_fact < self.n_facts
        &&& self.unused_rules.capacity() == self.all_rules@.len()
        &&& forall|r: int|
            0 <= r < self.all_rules@.len() ==> (#[trigger] self.all_rules@[r]).wf(
                self.n_facts as nat,
            )
        &&& forall|j: int|
            0 <= j < self.used_rules@.len() ==> (#[trigger] self.used_rules@[j])
                < self.all_rules@.len()
        &&& self.used_rules@.no_duplicates()
        &&& forall|r: usize|
            r < self.all_rules@.len() ==> ((#[trigger] self.unused_rules@.contains(r))
                <==> !self.used_rules@.contains(r))
        &&& self.current_facts@ == self.starting_facts@.union(
            rule_outputs(self.all_rules@, self.used_rules@),
        )
    }

    /// The first still-unused rule at index `i` or later whose requirements
    /// are all in the current facts, if any; the selection policy of `step`.
    pub open spec fn first_applicable_from(&self, i: int) -> Option<int>
        decreases self.all_rules@.len() - i,
    {
        if i >= self.all_rules@.len() {
            None
        } else if self.unused_rules@.contains(i as usize) && self.all_rules@[i].matches(
            self.current_facts@,
        ) {
            Some(i)
        } else {
            self.first_applicable_from(i + 1)
        }
    }

    /// The rule `step` would fire next, if any.
    pub open spec fn first_applicable(&self) -> Option<int> {
        self.first_applicable_from(0)
    }

    pub fn new(rules: &Engine, target_fact: usize) -> (r: Self)
        requires
            rules.wf(),
            target_fact < rules.n_facts(),
        ensures
            r.wf(),
            r.n_facts == rules.n_facts(),
            r.starting_facts@ == rules.starting_facts@,
            rules_eq(r.all_rules@, rules.rules@),
            r.current_facts@ == rules.starting_facts@,
            r.target_fact == target_fact,
            r.used_rules@ == Seq::<usize>::empty(),
            r.unused_rules@ == Set::new(|i: usize| i < rules.rules@.len()),
    {
        let r = DirectReasoning {
            n_facts: rules.all_possible_facts.len(),
            starting_facts: rules.starting_facts.clone(),
            all_rules: clone_rules(&rules.rules),
            current_facts: rules.starting_facts.clone(),
            target_fact,
            used_rules: Vec::new(),
            unused_rules: IdSet::full(rules.rules.len()),
        };
        proof {
            assert(rule_outputs(r.all_rules@, r.used_rules@) =~= Set::<usize>::empty());
            assert(r.current_facts@ =~= r.starting_facts@.union(
                rule_outputs(r.all_rules@, r.used_rules@),
            ));
        }
        r
    }

    /// Index of the first unused rule whose requirements are met, the rule
    /// `step` fires; `None` when forward chaining is stuck.
    fn find_applicable(&self) -> (r: Option<usize>)
        ensures
            match r {
                Some(i) => self.first_applicable() == Some(i as int) && i < self.all_rules@.len()
                    && self.unused_rules@.contains(i) && self.all_rules@[i as int].matches(
                    self.current_facts@,
                ),
                None => self.first_applicable() is None,
            },
    {
        let mut i: usize = 0;
        let n = self.all_rules.len();
        while i < n
            invariant
                i <= n,
                n == self.all_rules@.len(),
                self.first_applicable() == self.first_applicable_from(i as int),
            decreases n - i,
        {
            if self.unused_rules.contains(i) && self.all_rules[i].match_requirement(
                &self.current_facts,
            ) {
                return Some(i);
            }
            i = i + 1;
        }
        None
    }

    /// Whether the target could still be reached: it is already known, or
    /// some unused rule can still fire. A pessimistic, non-look-ahead check.
    pub fn is_target_still_possible(&self) -> (b: bool)
        ensures
            b == (self.current_facts@.contains(self.target_fact) || self.first_applicable()
                is Some),
    {
        self.current_facts.contains(self.target_fact) || self.find_applicable().is_some()
    }

    /// Perform at most one rule application: report `Found` if the target is
    /// already known, otherwise fire the first unused rule whose
    /// requirements are met (`FoundAfter` if it produced the target,
    /// `Applied` otherwise), otherwise report the stable terminal
    /// `NotProved` without changing anything.
    pub fn step(&mut self) -> (r: StepResult)
        requires
            old(self).wf(),
        ensures
            final(self).wf(),
            final(self).n_facts == old(self).n_facts,
            final(self).target_fact == old(self).target_fact,
            final(self).all_rules@ == old(self).all_rules@,
            final(self).starting_facts@ == old(self).starting_facts@,
            old(self).current_facts@.subset_of(final(self).current_facts@),
            old(self).current_facts@.contains(old(self).target_fact) ==> r == StepResult::Found
                && *final(self) == *old(self),
            !old(self).current_facts@.contains(old(self).target_fact) ==> match old(
                self,
            ).first_applicable() {
                Some(i) => {
                    &&& 0 <= i < old(self).all_rules@.len()
                    &&& old(self).unused_rules@.contains(i as usize)
                    &&& old(self).all_rules@[i].matches(old(self).current_facts@)
                    &&& final(self).used_rules@ == old(self).used_rules@.push(i as usize)
                    &&& final(self).unused_rules@ == old(self).unused_rules@.remove(i as usize)
                    &&& final(self).current_facts@ == old(self).current_facts@.insert(
                        old(self).all_rules@[i].out,
                    )
                    &&& r == (if old(self).all_rules@[i].out == old(self).target_fact {
                        StepResult::FoundAfter(i as usize, old(self).all_rules@[i].out)
                    } else {
                        StepResult::Applied(i as usize)
                    })
                },
                None => r == StepResult::NotProved && *final(self) == *old(self),
            },
    {
        if self.current_facts.contains(self.target_fact) {
            return StepResult::Found;
        }
        match self.find_applicable() {
            Some(i) => {
                let out = self.all_rules[i].out;
                self.current_facts.insert(out);
                self.unused_rules.remove(i);
                self.used_rules.push(i);
                proof {
                    let s0 = *old(self);
                    lemma_outputs_push(s0.all_rules@, s0.used_rules@, i);
                    assert(self.current_facts@ =~= self.starting_facts@.union(
                        rule_outputs(self.all_rules@, self.used_rules@),
                    ));
                    assert forall|q: usize| q < self.all_rules@.len() implies ((
                    #[trigger] self.unused_rules@.contains(q)) <==> !self.used_rules@.contains(
                        q,
                    )) by {
                        lemma_push_contains(s0.used_rules@, i, q);
                    }
                    assert(!s0.used_rules@.contains(i));
                    assert forall|a: int, b: int|
                        0 <= a < self.used_rules@.len() && 0 <= b < self.used_rules@.len() && a
                            != b implies self.used_rules@[a] != self.used_rules@[b] by {
                        if a < s0.used_rules@.len() && b < s0.used_rules@.len() {
                            assert(s0.used_rules@[a] == self.used_rules@[a]);
                            assert(s0.used_rules@[b] == self.used_rules@[b]);
                        } else if a < s0.used_rules@.len() {
                            assert(s0.used_rules@.contains(s0.used_rules@[a]));
                        } else {
                            assert(s0.used_rules@.contains(s0.used_rules@[b]));
                        }
                    }
                }
                if out == self.target_fact {
                    StepResult::FoundAfter(i, out)
                } else {
                    StepResult::Applied(i)
                }
            },
            None => StepResult::NotProved,
        }
    }

    /// Run forward chaining to exhaustion or success: call `step` until it
    /// reports something other than `Applied`. Since every `Applied` step
    /// consumes one unused rule, this takes at most one call per rule plus
    /// one final call.
    pub fn try_find(&mut self) -> (r: StepResult)
        requires
            old(self).wf(),
        ensures
            final(self).wf(),
            final(self).n_facts == old(self).n_facts,
            final(self).target_fact == old(self).target_fact,
            final(self).all_rules@ == old(self).all_rules@,
            final(self).starting_facts@ == old(self).starting_facts@,
            old(self).current_facts@.subset_of(final(self).current_facts@),
            !(r matches StepResult::Applied(_)),
            r == StepResult::Found <==> old(self).current_facts@.contains(
                old(self).target_fact,
            ),
            r == StepResult::Found ==> *final(self) == *old(self),
            r matches StepResult::FoundAfter(i, f) ==> f == old(self).target_fact
                && i < old(self).all_rules@.len()
                && old(self).all_rules@[i as int].out == old(self).target_fact,
            (r == StepResult::Found || (r matches StepResult::FoundAfter(_, _)))
                <==> final(self).current_facts@.contains(old(self).target_fact),
            r == StepResult::NotProved ==> !final(self).current_facts@.contains(
                old(self).target_fact,
            ) && final(self).first_applicable() is None,
    {
        let ghost s0 = *old(self);
        let mut t = self.step();
        proof {
            vstd::std_specs::vec::axiom_spec_len(&self.all_rules);
            lemma_used_len_bound(self.used_rules@, self.all_rules@.len() as int);
        }
        while matches!(t, StepResult::Applied(_))
            invariant
                self.wf(),
                self.used_rules@.len() <= self.all_rules@.len(),
                self.n_facts == s0.n_facts,
                self.target_fact == s0.target_fact,
                self.all_rules@ == s0.all_rules@,
                self.starting_facts@ == s0.starting_facts@,
                s0.current_facts@.subset_of(self.current_facts@),
                (t matches StepResult::Applied(_)) ==> !self.current_facts@.contains(
                    self.target_fact,
                ),
                t == StepResult::Found ==> *self == s0 && s0.current_facts@.contains(
                    s0.target_fact,
                ),
                t matches StepResult::FoundAfter(i, f) ==> f == s0.target_fact,
                t matches StepResult::FoundAfter(i, f) ==> i < s0.all_rules@.len(),
                t matches StepResult::FoundAfter(i, f) ==> i < s0.all_rules@.len()
                    && s0.all_rules@[i as int].out == s0.target_fact,
                t matches StepResult::FoundAfter(i, f) ==> self.current_facts@.contains(
                    s0.target_fact,
                ),
                !(t == StepResult::Found || (t matches StepResult::FoundAfter(_, _)))
                    ==> !self.current_facts@.contains(s0.target_fact),
                t == StepResult::NotProved ==> self.first_applicable() is None,
                (t matches StepResult::FoundAfter(_, _)) ==> !s0.current_facts@.contains(
                    s0.target_fact,
                ),
                t == StepResult::NotProved ==> !s0.current_facts@.contains(s0.target_fact),
            decreases
                    self.all_rules@.len() - self.used_rules@.len(),
                    (if t matches StepResult::Applied(_) {
                        1int
                    } else {
                        0int
                    }),
        {
            t = self.step();
            proof {
                vstd::std_specs::vec::axiom_spec_len(&self.all_rules);
                lemma_used_len_bound(self.used_rules@, self.all_rules@.len() as int);
            }
        }
        t
    }

    /// Law: forward partition. In any well-formed forward search the used
    /// and unused rules partition the rule set: every rule is in exactly
    /// one of the two, and rules only ever move from unused to used (see
    /// the contract of `step`, which also keeps the current facts growing).
    pub proof fn lemma_forward_partition(&self)
        requires
            self.wf(),
        ensures
            forall|r: usize|
                r < self.all_rules@.len() ==> ((#[trigger] self.unused_rules@.contains(r))
                    <==> !self.used_rules@.contains(r)),
            self.starting_facts@.subset_of(self.current_facts@),
    {
    }

    /// Law: forward termination bound. The used rules are distinct, so a
    /// well-formed search holds at most one used rule per rule of the
    /// knowledge base; since every `Applied` step of `try_find` uses one
    /// more rule, `try_find` settles within one `step` per rule plus one
    /// final call.
    pub proof fn lemma_forward_step_bound(&self)
        requires
            self.wf(),
        ensures
            self.used_rules@.len() <= self.all_rules@.len(),
    {
        lemma_used_len_bound(self.used_rules@, self.all_rules@.len() as int);
    }

    /// The fact states of the forward search's presentation snapshot, as a
    /// pure function of the search state: starting facts, then facts
    /// derived so far, then everything else unvisited; the target fact
    /// instead carries one of the three target states, pessimistically
    /// marked unreachable once the search is stuck without it.
    pub open spec fn fact_coloring_spec(&self) -> Seq<FactState> {
        Seq::new(
            self.n_facts as nat,
            |i: int|
                if i == self.target_fact {
                    if self.current_facts@.contains(self.target_fact) {
                        FactState::TargetVisited
                    } else if self.first_applicable() is None {
                        FactState::TargetNotPossible
                    } else {
                        FactState::Target
                    }
                } else if self.starting_facts@.contains(i as usize) {
                    FactState::Starting
                } else if self.current_facts@.contains(i as usize) {
                    FactState::Visited
                } else {
                    FactState::Unvisited
                },
        )
    }

    /// The rule states of the snapshot: exactly the fired rules are marked
    /// visited.
    pub open spec fn rule_coloring_spec(&self) -> Seq<RuleState> {
        Seq::new(
            self.all_rules@.len(),
            |j: int|
                if self.used_rules@.contains(j as usize) {
                    RuleState::Visited
                } else {
                    RuleState::Unvisited
                },
        )
    }

    /// The presentation snapshot of the forward search. The result is
    /// pinned to a pure function of the state, so exporting twice without
    /// an intervening `step` yields identical snapshots.
    pub fn update_hashmap(&self) -> (c: NodeColoring)
        requires
            self.wf(),
        ensures
            c.facts@ == self.fact_coloring_spec(),
            c.rules@ == self.rule_coloring_spec(),
    {
        let target_state = if self.current_facts.contains(self.target_fact) {
            FactState::TargetVisited
        } else if self.find_applicable().is_none() {
            FactState::TargetNotPossible
        } else {
            FactState::Target
        };
        let mut facts: Vec<FactState> = Vec::new();
        let mut i: usize = 0;
        while i < self.n_facts
            invariant
                i <= self.n_facts,
                facts@.len() == i,
                target_state == (if self.current_facts@.contains(self.target_fact) {
                    FactState::TargetVisited
                } else if self.first_applicable() is None {
                    FactState::TargetNotPossible
                } else {
                    FactState::Target
                }),
                forall|k: usize|
                    k < i && k != self.target_fact ==> facts@[k as int] == (
                    if self.starting_facts@.contains(k) {
                        FactState::Starting
                    } else if self.current_facts@.contains(k) {
                        FactState::Visited
                    } else {
                        FactState::Unvisited
                    }),
                forall|k: usize| k < i && k == self.target_fact ==> facts@[k as int] == target_state,
            decreases self.n_facts - i,
        {
            let st = if i == self.target_fact {
                target_state
            } else if self.starting_facts.contains(i) {
                FactState::Starting
            } else if self.current_facts.contains(i) {
                FactState::Visited
            } else {
                FactState::Unvisited
            };
            facts.push(st);
            i = i + 1;
        }
        let mut rules: Vec<RuleState> = Vec::new();
        let mut j: usize = 0;
        while j < self.all_rules.len()
            invariant
                j <= self.all_rules@.len(),
                rules@.len() == j,
                forall|k: usize|
                    k < j ==> rules@[k as int] == (if self.used_rules@.contains(k) {
                        RuleState::Visited
                    } else {
                        RuleState::Unvisited
                    }),
            decreases self.all_rules@.len() - j,
        {
            let st = if self.rule_was_used(j) {
                RuleState::Visited
            } else {
                RuleState::Unvisited
            };
            rules.push(st);
            j = j + 1;
        }
        proof {
            assert(facts@ =~= self.fact_coloring_spec());
            assert(rules@ =~= self.rule_coloring_spec());
        }
        NodeColoring { facts, rules }
    }

    /// Whether rule `j` has fired in this search.
    fn rule_was_used(&self, j: usize) -> (b: bool)
        ensures
            b == self.used_rules@.contains(j),
    {
        let mut k: usize = 0;
        while k < self.used_rules.len()
            invariant
                k <= self.used_rules@.len(),
                forall|m: int| 0 <= m < k ==> self.used_rules@[m] != j,
            decreases self.used_rules@.len() - k,
        {
            if self.used_rules[k] == j {
                return true;
            }
            k = k + 1;
        }
        false
    }
}

} // verus!
