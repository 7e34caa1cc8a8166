use vstd::prelude::*;
use vstd::string::StringExecFns;

use crate::direct_reasoning::{FactState, NodeColoring, RuleState};
use crate::fact::{CoreFact, CoreRule};
use crate::idset::IdSet;

verus! {

/// The knowledge base: the enumerated arena of facts, the chosen starting
/// facts, and the rule set. Rules refer to facts by their arena index.
#[derive(Debug)]
pub struct Engine {
    pub starting_facts: IdSet,
    pub all_possible_facts: Vec<CoreFact>,
    pub rules: Vec<CoreRule>,
}

impl Engine {
    /// Number of facts in the arena.
    pub open spec fn n_facts(&self) -> usize {
        self.all_possible_facts@.len() as usize
    }

    /// Every fact referenced by any rule or by the starting set lies inside
    /// the arena.
    pub open spec fn wf(&self) -> bool {
        &&& self.starting_facts.capacity() == self.n_facts()
        &&& forall|r: int|
            0 <= r < self.rules@.len() ==> (#[trigger] self.rules@[r]).wf(self.n_facts() as nat)
    }

    pub fn new(all_facts: Vec<CoreFact>, starting_facts: IdSet, rules: Vec<CoreRule>) -> (r: Self)
        ensures
            r.all_possible_facts == all_facts,
            r.starting_facts == starting_facts,
            r.rules == rules,
    {
        Self { starting_facts, all_possible_facts: all_facts, rules }
    }

    /// The built-in crafting example: plank, wood, stick and pickaxe facts,
    /// three rules, and wood as the one starting fact.
    pub fn primitive_engine() -> (r: Self)
        ensures
            r.wf(),
            r.all_possible_facts@.len() == 4,
            (match r.all_possible_facts@[0] {
                CoreFact::Symbol(s) => s@ == "oak_planks"@,
                _ => false,
            }),
            (match r.all_possible_facts@[1] {
                CoreFact::Symbol(s) => s@ == "oak_wood"@,
                _ => false,
            }),
            (match r.all_possible_facts@[2] {
                CoreFact::Symbol(s) => s@ == "stick"@,
                _ => false,
            }),
            (match r.all_possible_facts@[3] {
                CoreFact::Symbol(s) => s@ == "wooden_pickaxe"@,
                _ => false,
            }),
            r.starting_facts@ == set![1usize],
            r.rules@.len() == 3,
            r.rules@[0].reqs@ == seq![1usize] && r.rules@[0].out == 0,
            r.rules@[1].reqs@ == seq![0usize] && r.rules@[1].out == 2,
            r.rules@[2].reqs@ == seq![0usize, 2usize] && r.rules@[2].out == 3,
    {
        let planks = CoreFact::new(String::from_str("oak_planks"));
        let wood = CoreFact::new(String::from_str("oak_wood"));
        let stick = CoreFact::new(String::from_str("stick"));
        let pickaxe = CoreFact::new(String::from_str("wooden_pickaxe"));
        let mut possible: Vec<CoreFact> = Vec::new();
        possible.push(planks);
        possible.push(wood);
        possible.push(stick);
        possible.push(pickaxe);
        let mut starting = IdSet::empty(4);
        starting.insert(1);
        let mut reqs0: Vec<usize> = Vec::new();
        reqs0.push(1);
        let mut reqs1: Vec<usize> = Vec::new();
        reqs1.push(0);
        let mut reqs2: Vec<usize> = Vec::new();
        reqs2.push(0);
        reqs2.push(2);
        let mut rules: Vec<CoreRule> = Vec::new();
        rules.push(CoreRule::new(reqs0, 0));
        rules.push(CoreRule::new(reqs1, 2));
        rules.push(CoreRule::new(reqs2, 3));
        let r = Self::new(possible, starting, rules);
        proof {
            assert(r.starting_facts@ =~= set![1usize]);
            assert(r.rules@[0].reqs@ =~= seq![1usize]);
            assert(r.rules@[1].reqs@ =~= seq![0usize]);
            assert(r.rules@[2].reqs@ =~= seq![0usize, 2usize]);
        }
        r
    }

    /// A fresh, neutral presentation snapshot: every fact unvisited except
    /// the starting facts, the optional pending target marked as such, and
    /// every rule unvisited. A pure function of the knowledge base and the
    /// chosen target.
    pub fn recolor_node(&self, target: Option<usize>) -> (c: NodeColoring)
        requires
            target matches Some(t) ==> t < self.n_facts(),
        ensures
            c.facts@.len() == self.n_facts(),
            c.rules@.len() == self.rules@.len(),
            forall|i: usize|
                i < self.n_facts() ==> c.facts@[i as int] == (if target == Some(i) {
                    FactState::Target
                } else if self.starting_facts@.contains(i) {
                    FactState::Starting
                } else {
                    FactState::Unvisited
                }),
            forall|j: int| 0 <= j < self.rules@.len() ==> c.rules@[j] == RuleState::Unvisited,
    {
        let n = self.all_possible_facts.len();
        let mut facts: Vec<FactState> = Vec::new();
        let mut i: usize = 0;
        while i < n
            invariant
                i <= n,
                n == self.n_facts(),
                facts@.len() == i,
                forall|k: usize|
                    k < i ==> facts@[k as int] == (if self.starting_facts@.contains(k) {
                        FactState::Starting
                    } else {
                        FactState::Unvisited
                    }),
            decreases n - i,
        {
            let st = if self.starting_facts.contains(i) {
                FactState::Starting
            } else {
                FactState::Unvisited
            };
            facts.push(st);
            i = i + 1;
        }
        if let Some(t) = target {
            facts.set(t, FactState::Target);
        }
        let mut rules: Vec<RuleState> = Vec::new();
        let mut j: usize = 0;
        while j < self.rules.len()
            invariant
                j <= self.rules@.len(),
                rules@.len() == j,
                forall|k: int| 0 <= k < j ==> rules@[k] == RuleState::Unvisited,
            decreases self.rules@.len() - j,
        {
            rules.push(RuleState::Unvisited);
            j = j + 1;
        }
        NodeColoring { facts, rules }
    }
}

} // verus!
