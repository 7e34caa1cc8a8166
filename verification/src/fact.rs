use vstd::prelude::*;

use crate::idset::IdSet;

verus! {

/// An atomic, immutable proposition: either a named symbol or an ordered
/// tuple of facts. Facts live in the knowledge base's arena and are referred
/// to everywhere else by their index in that arena, so identity is index
/// equality and the value here only carries the presentation name.
#[derive(Debug)]
pub enum CoreFact {
    Symbol(String),
    Symbols(Vec<CoreFact>),
}

impl CoreFact {
    /// A fresh symbol fact with the given name.
    pub fn new(symbol: String) -> (r: CoreFact)
        ensures
            r == CoreFact::Symbol(symbol),
    {
        CoreFact::Symbol(symbol)
    }
}

/// A derivation rule: consuming the required facts `reqs` produces the one
/// output fact `out`. Both sides are indices into the arena of facts.
#[derive(Debug)]
#[verifier::ext_equal]
pub struct CoreRule {
    pub reqs: Vec<usize>,
    pub out: usize,
}

/// Two rules with the same requirements and the same output. Rule values
/// carry a `Vec`, whose equality Verus tracks only through its view, so
/// copies of a rule are related by this predicate rather than by `==`.
pub open spec fn rule_eq(a: CoreRule, b: CoreRule) -> bool {
    a.reqs@ == b.reqs@ && a.out == b.out
}

/// Pointwise `rule_eq` over two rule sequences.
pub open spec fn rules_eq(a: Seq<CoreRule>, b: Seq<CoreRule>) -> bool {
    a.len() == b.len() && forall|i: int| 0 <= i < a.len() ==> rule_eq(#[trigger] a[i], b[i])
}

impl CoreRule {
    /// The rule matches a fact set iff every required fact is a member.
    pub open spec fn matches(&self, facts: Set<usize>) -> bool {
        forall|j: int| 0 <= j < self.reqs@.len() ==> facts.contains(#[trigger] self.reqs@[j])
    }

    /// Every fact the rule mentions lies inside an arena of `n_facts` facts.
    pub open spec fn wf(&self, n_facts: nat) -> bool {
        &&& self.out < n_facts
        &&& forall|j: int| 0 <= j < self.reqs@.len() ==> #[trigger] self.reqs@[j] < n_facts
    }

    pub fn match_requirement(&self, facts: &IdSet) -> (r: bool)
        ensures
            r == self.matches(facts@),
    {
        let mut j: usize = 0;
        while j < self.reqs.len()
            invariant
                j <= self.reqs@.len(),
                forall|k: int| 0 <= k < j ==> facts@.contains(#[trigger] self.reqs@[k]),
            decreases self.reqs@.len() - j,
        {
            if !facts.contains(self.reqs[j]) {
                return false;
            }
            j = j + 1;
        }
        true
    }

    pub fn new(reqs: Vec<usize>, out: usize) -> (r: CoreRule)
        ensures
            r.reqs == reqs,
            r.out == out,
    {
        CoreRule { reqs, out }
    }
}

impl Clone for CoreRule {
    fn clone(&self) -> (r: Self)
        ensures
            rule_eq(r, *self),
    {
        let mut reqs: Vec<usize> = Vec::new();
        let mut j: usize = 0;
        while j < self.reqs.len()
            invariant
                j <= self.reqs@.len(),
                reqs@.len() == j,
                forall|k: int| 0 <= k < j ==> reqs@[k] == self.reqs@[k],
            decreases self.reqs@.len() - j,
        {
            reqs.push(self.reqs[j]);
            j = j + 1;
        }
        let r = CoreRule { reqs, out: self.out };
        proof {
            assert(r.reqs@ =~= self.reqs@);
        }
        r
    }
}

/// A working copy of a rule list, equal to the input under `rules_eq`.
pub fn clone_rules(rules: &Vec<CoreRule>) -> (r: Vec<CoreRule>)
    ensures
        rules_eq(r@, rules@),
{
    let mut r: Vec<CoreRule> = Vec::new();
    let mut i: usize = 0;
    while i < rules.len()
        invariant
            i <= rules@.len(),
            r@.len() == i,
            forall|k: int| 0 <= k < i ==> rule_eq(#[trigger] r@[k], rules@[k]),
        decreases rules@.len() - i,
    {
        r.push(rules[i].clone());
        i = i + 1;
    }
    r
}

} // verus!
