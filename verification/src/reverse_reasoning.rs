use vstd::prelude::*;

use crate::direct_reasoning::{FactState, NodeColoring, RuleState};
use crate::engine::Engine;
use crate::fact::{clone_rules, rules_eq, CoreRule};
use crate::idset::IdSet;
use crate::ruletree::{RuleTree, Source};

verus! {

/// Status of a subtree of the proof search: still being explored, resolved
/// to a complete proof, or refuted.
#[derive(Debug, Clone, Copy, PartialEq, Eq, Structural)]
pub enum RecResult {
    Potential,
    Found,
    DeadEnd,
}

/// Outcome of one whole-tree evaluation pass.
#[derive(Debug, Clone, Copy, PartialEq, Eq, Structural)]
pub enum RevStepResult {
    Found,
    Iterated,
    NotProved,
}

/// One node of the AND/OR proof-search tree, carrying the set of rules
/// still usable on this branch.
#[derive(Debug)]
pub struct Node {
    pub available_rules: IdSet,
    pub node_info: NodeInfo,
}

/// The variants of a search-tree node. An `Or` proves its fact if any one
/// child (an `And` for one candidate rule) succeeds; an `And` proves its
/// fact via its rule if every child (one goal per requirement) succeeds;
/// `FactToProve` is an unexpanded goal; `ProvenFact` a goal grounded in the
/// starting facts; `DeadEnd` a refuted goal; `Empty` only a transient
/// placeholder during in-place tree rewriting, never a resting state.
#[derive(Debug)]
pub enum NodeInfo {
    Or(usize, Vec<Node>, RecResult),
    And(usize, usize, Vec<Node>, RecResult),
    FactToProve(usize),
    ProvenFact(usize),
    DeadEnd(usize),
    Empty,
}

impl Node {
    /// The goal fact this node is about.
    pub open spec fn fact(&self) -> usize {
        match self.node_info {
            NodeInfo::Or(f, _, _) => f,
            NodeInfo::And(f, _, _, _) => f,
            NodeInfo::FactToProve(f) => f,
            NodeInfo::ProvenFact(f) => f,
            NodeInfo::DeadEnd(f) => f,
            NodeInfo::Empty => 0,
        }
    }

    /// The resting status of this node: `Or` and `And` store theirs,
    /// `ProvenFact` is settled `Found`, a `DeadEnd` leaf is settled
    /// `DeadEnd`, and an unexpanded goal is still `Potential`.
    pub open spec fn status(&self) -> RecResult {
        match self.node_info {
            NodeInfo::Or(_, _, s) => s,
            NodeInfo::And(_, _, _, s) => s,
            NodeInfo::FactToProve(_) => RecResult::Potential,
            NodeInfo::ProvenFact(_) => RecResult::Found,
            NodeInfo::DeadEnd(_) => RecResult::DeadEnd,
            NodeInfo::Empty => RecResult::Potential,
        }
    }

    /// Whether this node is an `And` node.
    pub open spec fn is_and(&self) -> bool {
        self.node_info matches NodeInfo::And(_, _, _, _)
    }

    /// Whether this node is an `Or` node.
    pub open spec fn is_or(&self) -> bool {
        self.node_info matches NodeInfo::Or(_, _, _)
    }

    /// The rule of an `And` node.
    pub open spec fn and_rule(&self) -> usize {
        match self.node_info {
            NodeInfo::And(_, r, _, _) => r,
            _ => 0,
        }
    }

    /// The children of an `Or` or `And` node.
    pub open spec fn children(&self) -> Seq<Node> {
        match self.node_info {
            NodeInfo::Or(_, cs, _) => cs@,
            NodeInfo::And(_, _, cs, _) => cs@,
            _ => Seq::empty(),
        }
    }
}

/// Well-formedness of a search-tree node, relative to the rule list, the
/// size of the fact arena, the starting facts, and `bound`: the rules that
/// were still available where this subtree was grown. It captures the
/// shape the search maintains:
/// - available-rule sets only shrink downward (every node's set lies
///   inside `bound`, and an `And` node bounds its own subtree);
/// - an `And` node's rule was removed from its own available set, so no
///   rule recurs on one root-to-leaf path;
/// - an `Or` node's children are `And` nodes for rules producing its fact,
///   drawn from `bound`;
/// - an `And` node for rule `r` has one child goal per requirement of `r`,
///   in order;
/// - a `ProvenFact` leaf really is a starting fact;
/// - a node marked `Found` has the children that prove it: the single
///   surviving `Found` child of an `Or`, or every child of an `And`.
pub open spec fn wf_node(
    n: Node,
    rules: Seq<CoreRule>,
    n_facts: nat,
    starting: Set<usize>,
    bound: Set<usize>,
) -> bool
    decreases n,
{
    &&& n.available_rules.capacity() == rules.len()
    &&& n.available_rules@.subset_of(bound)
    &&& match n.node_info {
        NodeInfo::Empty => false,
        NodeInfo::FactToProve(f) => f < n_facts,
        NodeInfo::ProvenFact(f) => f < n_facts && starting.contains(f),
        NodeInfo::DeadEnd(f) => f < n_facts,
        NodeInfo::Or(f, cs, st) => {
            &&& f < n_facts
            &&& cs@.len() >= 1
            &&& forall|i: int|
                0 <= i < cs@.len() ==> wf_node(#[trigger] cs@[i], rules, n_facts, starting, bound)
            &&& forall|i: int|
                0 <= i < cs@.len() ==> (#[trigger] cs@[i]).is_and() && cs@[i].fact() == f
                    && bound.contains(cs@[i].and_rule())
            &&& (st == RecResult::Found ==> cs@.len() == 1 && cs@[0].status() == RecResult::Found)
        },
        NodeInfo::And(f, r, cs, st) => {
            &&& f < n_facts
            &&& r < rules.len()
            &&& rules[r as int].out == f
            &&& !n.available_rules@.contains(r)
            &&& cs@.len() == rules[r as int].reqs@.len()
            &&& forall|i: int|
                0 <= i < cs@.len() ==> wf_node(
                    #[trigger] cs@[i],
                    rules,
                    n_facts,
                    starting,
                    n.available_rules@,
                )
            &&& forall|i: int|
                0 <= i < cs@.len() ==> (#[trigger] cs@[i]).fact() == rules[r as int].reqs@[i]
                    && !cs@[i].is_and()
            &&& (st == RecResult::Found ==> forall|i: int|
                0 <= i < cs@.len() ==> (#[trigger] cs@[i]).status() == RecResult::Found)
        },
    }
}

/// Well-formedness of the output-fact index: entry `f` lists, in increasing
/// order, exactly the rules whose output is `f`.
pub open spec fn reversed_index_wf(
    reversed: Seq<Vec<usize>>,
    rules: Seq<CoreRule>,
    n_facts: nat,
) -> bool {
    &&& reversed.len() == n_facts
    &&& forall|f: int, j: int|
        0 <= f < reversed.len() && 0 <= j < reversed[f]@.len() ==> (#[trigger] reversed[f]@[j])
            < rules.len() && rules[reversed[f]@[j] as int].out == f
    &&& forall|f: int, j: int, k: int|
        #![trigger reversed[f]@[j], reversed[f]@[k]]
        0 <= f < reversed.len() && 0 <= j < k < reversed[f]@.len() ==> reversed[f]@[j]
            < reversed[f]@[k]
    &&& forall|r: int|
        0 <= r < rules.len() && rules[r].out < n_facts ==> reversed[rules[r].out as int]@.contains(
            r as usize,
        )
}

/// Whether the rule of an `And` node with status `q` belongs to the
/// extracted rule path: settled-`Found` rules always, still-`Potential`
/// rules only while the whole search is not yet settled, refuted rules
/// never.
pub open spec fn keep_rule(q: RecResult, is_final: bool) -> bool {
    match q {
        RecResult::Potential => !is_final,
        RecResult::Found => true,
        RecResult::DeadEnd => false,
    }
}

/// The rule indices collected from a subtree in post order: each `And`
/// node contributes its children's rules first and then, if `keep_rule`
/// says so, its own rule.
pub open spec fn collected(n: Node, is_final: bool) -> Seq<usize>
    decreases n,
{
    match n.node_info {
        NodeInfo::Or(_, cs, _) => collected_children(cs@, is_final),
        NodeInfo::And(_, r, cs, q) => collected_children(cs@, is_final) + (if keep_rule(
            q,
            is_final,
        ) {
            seq![r]
        } else {
            Seq::empty()
        }),
        _ => Seq::empty(),
    }
}

/// `collected` over a child list, left to right.
pub open spec fn collected_children(cs: Seq<Node>, is_final: bool) -> Seq<usize>
    decreases cs,
{
    if cs.len() == 0 {
        Seq::empty()
    } else {
        collected(cs[0], is_final) + collected_children(cs.drop_first(), is_final)
    }
}

proof fn lemma_collected_children_snoc(cs: Seq<Node>, b: bool)
    requires
        cs.len() >= 1,
    ensures
        collected_children(cs, b) == collected_children(cs.drop_last(), b) + collected(
            cs.last(),
            b,
        ),
    decreases cs.len(),
{
    if cs.len() == 1 {
        assert(cs.drop_last() =~= Seq::<Node>::empty());
        assert(cs.drop_first() =~= Seq::<Node>::empty());
        assert(collected_children(cs, b) =~= collected_children(cs.drop_last(), b) + collected(
            cs.last(),
            b,
        ));
    } else {
        lemma_collected_children_snoc(cs.drop_first(), b);
        assert(cs.drop_first().drop_last() =~= cs.drop_last().drop_first());
        assert(cs.drop_first().last() == cs.last());
        assert(cs.drop_last()[0] == cs[0]);
        assert(cs.drop_last().len() >= 1);
        assert(collected_children(cs, b) =~= collected_children(cs.drop_last(), b) + collected(
            cs.last(),
            b,
        ));
    }
}

/// The collected rule sequence with later repetitions of a rule removed:
/// the first occurrence of each rule survives, rules in `seen` are dropped
/// altogether.
pub open spec fn dedup(seen: Set<usize>, q: Seq<usize>) -> Seq<usize>
    decreases q.len(),
{
    if q.len() == 0 {
        Seq::empty()
    } else if seen.contains(q[0]) {
        dedup(seen, q.drop_first())
    } else {
        seq![q[0]] + dedup(seen.insert(q[0]), q.drop_first())
    }
}

proof fn lemma_collected_in_range(
    n: Node,
    rules: Seq<CoreRule>,
    n_facts: nat,
    starting: Set<usize>,
    bound: Set<usize>,
    b: bool,
)
    requires
        wf_node(n, rules, n_facts, starting, bound),
    ensures
        forall|j: int|
            0 <= j < collected(n, b).len() ==> (#[trigger] collected(n, b)[j]) < rules.len(),
    decreases n,
{
    match n.node_info {
        NodeInfo::Or(_, cs, _) => {
            lemma_collected_children_in_range(cs@, rules, n_facts, starting, bound, b);
            assert forall|j: int|
                0 <= j < collected(n, b).len() implies (#[trigger] collected(n, b)[j])
                < rules.len() by {
                assert(collected(n, b)[j] == collected_children(cs@, b)[j]);
            }
        },
        NodeInfo::And(_, r, cs, q) => {
            lemma_collected_children_in_range(
                cs@,
                rules,
                n_facts,
                starting,
                n.available_rules@,
                b,
            );
            let tail: Seq<usize> = if keep_rule(q, b) {
                seq![r]
            } else {
                Seq::empty()
            };
            assert forall|j: int|
                0 <= j < collected(n, b).len() implies (#[trigger] collected(n, b)[j])
                < rules.len() by {
                if j < collected_children(cs@, b).len() {
                    assert(collected(n, b)[j] == collected_children(cs@, b)[j]);
                } else {
                    assert(collected(n, b)[j] == tail[j - collected_children(cs@, b).len()]);
                }
            }
        },
        _ => {},
    }
}

proof fn lemma_collected_children_in_range(
    cs: Seq<Node>,
    rules: Seq<CoreRule>,
    n_facts: nat,
    starting: Set<usize>,
    bound: Set<usize>,
    b: bool,
)
    requires
        forall|i: int|
            0 <= i < cs.len() ==> wf_node(#[trigger] cs[i], rules, n_facts, starting, bound),
    ensures
        forall|j: int|
            0 <= j < collected_children(cs, b).len() ==> (#[trigger] collected_children(cs, b)[j])
                < rules.len(),
    decreases cs,
{
    if cs.len() > 0 {
        lemma_collected_in_range(cs[0], rules, n_facts, starting, bound, b);
        assert forall|i: int|
            0 <= i < cs.drop_first().len() implies wf_node(
            #[trigger] cs.drop_first()[i],
            rules,
            n_facts,
            starting,
            bound,
        ) by {
            assert(cs.drop_first()[i] == cs[i + 1]);
        }
        lemma_collected_children_in_range(cs.drop_first(), rules, n_facts, starting, bound, b);
        assert forall|j: int|
            0 <= j < collected_children(cs, b).len() implies (#[trigger] collected_children(
            cs,
            b,
        )[j]) < rules.len() by {
            if j < collected(cs[0], b).len() {
                assert(collected_children(cs, b)[j] == collected(cs[0], b)[j]);
            } else {
                assert(collected_children(cs, b)[j] == collected_children(cs.drop_first(), b)[j
                    - collected(cs[0], b).len()]);
            }
        }
    }
}

/// Number of set bits: the size of an available-rule set, read off its
/// bitmap.
pub open spec fn popcount(s: Seq<bool>) -> nat
    decreases s.len(),
{
    if s.len() == 0 {
        0
    } else {
        (if s[0] {
            1nat
        } else {
            0nat
        }) + popcount(s.drop_first())
    }
}

proof fn lemma_popcount_update_false(s: Seq<bool>, i: int)
    requires
        0 <= i < s.len(),
    ensures
        s[i] ==> popcount(s.update(i, false)) + 1 == popcount(s),
        !s[i] ==> popcount(s.update(i, false)) == popcount(s),
    decreases s.len(),
{
    if i == 0 {
        assert(s.update(0, false).drop_first() =~= s.drop_first());
    } else {
        lemma_popcount_update_false(s.drop_first(), i - 1);
        assert(s.update(i, false).drop_first() =~= s.drop_first().update(i - 1, false));
        assert(s.update(i, false)[0] == s[0]);
    }
}

/// The weight a rule contributes to the branching bound: its requirement
/// count plus one for the `And` node itself.
pub open spec fn rule_weight(r: CoreRule) -> nat {
    r.reqs@.len() + 1
}

/// Total weight of the first `k` rules.
pub open spec fn wsum(rules: Seq<CoreRule>, k: int) -> nat
    decreases k,
{
    if k <= 0 {
        0
    } else {
        wsum(rules, k - 1) + rule_weight(rules[k - 1])
    }
}

proof fn lemma_wsum_mono(rules: Seq<CoreRule>, k1: int, k2: int)
    requires
        k1 <= k2,
    ensures
        wsum(rules, k1) <= wsum(rules, k2),
    decreases k2,
{
    if k1 < k2 && 0 < k2 {
        lemma_wsum_mono(rules, k1, k2 - 1);
    }
}

/// Total weight of a strictly increasing selection of rule indices below
/// `k`, summed from the back.
pub open spec fn cand_wsum(rules: Seq<CoreRule>, cands: Seq<usize>) -> nat
    decreases cands.len(),
{
    if cands.len() == 0 {
        0
    } else {
        cand_wsum(rules, cands.drop_last()) + rule_weight(rules[cands.last() as int])
    }
}

proof fn lemma_cand_wsum_bound(rules: Seq<CoreRule>, cands: Seq<usize>, k: int)
    requires
        forall|j: int, m: int|
            #![trigger cands[j], cands[m]]
            0 <= j < m < cands.len() ==> cands[j] < cands[m],
        forall|j: int| 0 <= j < cands.len() ==> (#[trigger] cands[j]) < k,
        0 <= k,
    ensures
        cand_wsum(rules, cands) <= wsum(rules, k),
    decreases cands.len(),
{
    if cands.len() == 0 {
        lemma_wsum_mono(rules, 0, k);
    } else {
        let last = cands.last();
        assert forall|j: int| 0 <= j < cands.drop_last().len() implies (
        #[trigger] cands.drop_last()[j]) < last as int by {
            assert(cands.drop_last()[j] == cands[j]);
        }
        lemma_cand_wsum_bound(rules, cands.drop_last(), last as int);
        lemma_wsum_mono(rules, last as int + 1, k);
    }
}

/// The branching base: two more than the total rule weight, so that one
/// expansion of a goal node, over any candidate set, weighs strictly less
/// than the goal it replaces.
pub open spec fn branch_base(rules: Seq<CoreRule>) -> nat {
    wsum(rules, rules.len() as int) + 2
}

/// `b` to the power `e`.
pub open spec fn pow_nat(b: nat, e: nat) -> nat
    decreases e,
{
    if e == 0 {
        1
    } else {
        b * pow_nat(b, (e - 1) as nat)
    }
}

proof fn lemma_pow_nat_pos(b: nat, e: nat)
    requires
        b >= 1,
    ensures
        pow_nat(b, e) >= 1,
    decreases e,
{
    if e > 0 {
        lemma_pow_nat_pos(b, (e - 1) as nat);
        assert(b * pow_nat(b, (e - 1) as nat) >= 1) by (nonlinear_arith)
            requires
                b >= 1,
                pow_nat(b, (e - 1) as nat) >= 1,
        ;
    }
}

proof fn lemma_pow_nat_mono(b: nat, e1: nat, e2: nat)
    requires
        b >= 1,
        e1 <= e2,
    ensures
        pow_nat(b, e1) <= pow_nat(b, e2),
    decreases e2,
{
    if e1 < e2 {
        lemma_pow_nat_mono(b, e1, (e2 - 1) as nat);
        lemma_pow_nat_pos(b, e1);
        assert(pow_nat(b, (e2 - 1) as nat) <= b * pow_nat(b, (e2 - 1) as nat)) by (
        nonlinear_arith)
            requires
                b >= 1,
                pow_nat(b, (e2 - 1) as nat) >= 0,
        ;
        lemma_pow_nat_pos(b, (e2 - 1) as nat);
    }
}

/// Termination measure of a subtree: an unexpanded goal weighs
/// exponentially in the size of its available-rule set, so that expanding
/// it, which strictly shrinks that set for the whole new subtree, strictly
/// shrinks the measure; every settled leaf weighs one; an inner node
/// weighs one more than its children.
pub open spec fn measure_node(n: Node, rules: Seq<CoreRule>) -> nat
    decreases n,
{
    match n.node_info {
        NodeInfo::Or(_, cs, _) => 1 + measure_children(cs@, rules),
        NodeInfo::And(_, _, cs, _) => 1 + measure_children(cs@, rules),
        NodeInfo::FactToProve(_) => pow_nat(
            branch_base(rules),
            popcount(n.available_rules.bits@) + 1,
        ),
        _ => 1,
    }
}

/// `measure_node` summed over a child list.
pub open spec fn measure_children(cs: Seq<Node>, rules: Seq<CoreRule>) -> nat
    decreases cs,
{
    if cs.len() == 0 {
        0
    } else {
        measure_node(cs[0], rules) + measure_children(cs.drop_first(), rules)
    }
}

proof fn lemma_measure_children_snoc(cs: Seq<Node>, rules: Seq<CoreRule>)
    requires
        cs.len() >= 1,
    ensures
        measure_children(cs, rules) == measure_children(cs.drop_last(), rules) + measure_node(
            cs.last(),
            rules,
        ),
    decreases cs.len(),
{
    if cs.len() == 1 {
        assert(cs.drop_last() =~= Seq::<Node>::empty());
        assert(cs.drop_first() =~= Seq::<Node>::empty());
    } else {
        lemma_measure_children_snoc(cs.drop_first(), rules);
        assert(cs.drop_first().drop_last() =~= cs.drop_last().drop_first());
        assert(cs.drop_first().last() == cs.last());
        assert(cs.drop_last()[0] == cs[0]);
        assert(cs.drop_last().len() >= 1);
    }
}

proof fn lemma_measure_children_split(cs: Seq<Node>, rules: Seq<CoreRule>, i: int)
    requires
        0 <= i <= cs.len(),
    ensures
        measure_children(cs, rules) == measure_children(cs.subrange(0, i), rules)
            + measure_children(cs.subrange(i, cs.len() as int), rules),
    decreases cs.len() - i,
{
    if i == cs.len() {
        assert(cs.subrange(0, i) =~= cs);
        assert(cs.subrange(i, cs.len() as int) =~= Seq::<Node>::empty());
    } else {
        lemma_measure_children_split(cs, rules, i + 1);
        let pref = cs.subrange(0, i + 1);
        assert(pref.drop_last() =~= cs.subrange(0, i));
        assert(pref.last() == cs[i]);
        lemma_measure_children_snoc(pref, rules);
        let suf = cs.subrange(i, cs.len() as int);
        assert(suf[0] == cs[i]);
        assert(suf.drop_first() =~= cs.subrange(i + 1, cs.len() as int));
    }
}

proof fn lemma_measure_children_element(cs: Seq<Node>, rules: Seq<CoreRule>, i: int)
    requires
        0 <= i < cs.len(),
    ensures
        measure_node(cs[i], rules) <= measure_children(cs, rules),
    decreases cs.len(),
{
    if i == 0 {
    } else {
        lemma_measure_children_element(cs.drop_first(), rules, i - 1);
        assert(cs.drop_first()[i - 1] == cs[i]);
    }
}

proof fn lemma_measure_children_const(cs: Seq<Node>, rules: Seq<CoreRule>, w: nat)
    requires
        forall|j: int| 0 <= j < cs.len() ==> measure_node(#[trigger] cs[j], rules) == w,
    ensures
        measure_children(cs, rules) == cs.len() * w,
    decreases cs.len(),
{
    if cs.len() == 0 {
    } else {
        assert forall|j: int| 0 <= j < cs.drop_first().len() implies measure_node(
            #[trigger] cs.drop_first()[j],
            rules,
        ) == w by {
            assert(cs.drop_first()[j] == cs[j + 1]);
        }
        lemma_measure_children_const(cs.drop_first(), rules, w);
        assert(w + (cs.len() - 1) * w == cs.len() * w) by (nonlinear_arith)
            requires
                cs.len() >= 1,
        ;
    }
}

/// The rules a derivation uses: its own rule and those of its nested
/// sources.
pub open spec fn deriv_rules(d: RuleTree) -> Set<usize>
    decreases d,
{
    sources_rules(d.sources@).insert(d.rule)
}

/// The rules one source contributes.
pub open spec fn source_rules(s: Source) -> Set<usize>
    decreases s,
{
    match s {
        Source::Rule(sub) => deriv_rules(*sub),
        Source::BasicFact(_) => Set::empty(),
    }
}

/// `source_rules` unioned over a source list.
pub open spec fn sources_rules(ss: Seq<Source>) -> Set<usize>
    decreases ss,
{
    if ss.len() == 0 {
        Set::empty()
    } else {
        source_rules(ss[0]).union(sources_rules(ss.drop_first()))
    }
}

/// A valid derivation of `goal` from the starting facts: the derivation's
/// rule outputs `goal`, and each requirement is fed either by a starting
/// fact or by a nested derivation of it. `forbidden` collects the facts
/// already under derivation on the path above, and no nested derivation
/// may target one of them again: the derivation re-derives no fact along
/// any path, the shape a derivation with an acyclic requirement graph
/// always has.
pub open spec fn deriv_ok(
    d: RuleTree,
    rules: Seq<CoreRule>,
    starting: Set<usize>,
    goal: usize,
    forbidden: Set<usize>,
) -> bool
    decreases d,
{
    &&& d.rule < rules.len()
    &&& rules[d.rule as int].out == goal
    &&& d.sources@.len() == rules[d.rule as int].reqs@.len()
    &&& forall|i: int|
        0 <= i < d.sources@.len() ==> source_ok(
            #[trigger] d.sources@[i],
            rules,
            starting,
            rules[d.rule as int].reqs@[i],
            forbidden.insert(goal),
        )
}

/// One source validly feeds `goal`: it is `goal` as a starting fact, or a
/// nested derivation of `goal`, which must not be a fact already under
/// derivation above.
pub open spec fn source_ok(
    s: Source,
    rules: Seq<CoreRule>,
    starting: Set<usize>,
    goal: usize,
    forbidden: Set<usize>,
) -> bool
    decreases s,
{
    match s {
        Source::BasicFact(f) => f == goal && starting.contains(f),
        Source::Rule(sub) => !forbidden.contains(goal) && deriv_ok(
            *sub,
            rules,
            starting,
            goal,
            forbidden,
        ),
    }
}

proof fn lemma_deriv_mono(
    d: RuleTree,
    rules: Seq<CoreRule>,
    starting: Set<usize>,
    goal: usize,
    f1: Set<usize>,
    f2: Set<usize>,
)
    requires
        deriv_ok(d, rules, starting, goal, f1),
        f2.subset_of(f1),
    ensures
        deriv_ok(d, rules, starting, goal, f2),
    decreases d,
{
    assert forall|i: int| 0 <= i < d.sources@.len() implies source_ok(
        #[trigger] d.sources@[i],
        rules,
        starting,
        rules[d.rule as int].reqs@[i],
        f2.insert(goal),
    ) by {
        lemma_source_mono(
            d.sources@[i],
            rules,
            starting,
            rules[d.rule as int].reqs@[i],
            f1.insert(goal),
            f2.insert(goal),
        );
    }
}

proof fn lemma_source_mono(
    s: Source,
    rules: Seq<CoreRule>,
    starting: Set<usize>,
    goal: usize,
    f1: Set<usize>,
    f2: Set<usize>,
)
    requires
        source_ok(s, rules, starting, goal, f1),
        f2.subset_of(f1),
    ensures
        source_ok(s, rules, starting, goal, f2),
    decreases s,
{
    match s {
        Source::BasicFact(_) => {},
        Source::Rule(sub) => {
            lemma_deriv_mono(*sub, rules, starting, goal, f1, f2);
        },
    }
}

proof fn lemma_sources_rules_member(ss: Seq<Source>, x: usize)
    requires
        sources_rules(ss).contains(x),
    ensures
        exists|i: int| 0 <= i < ss.len() && (#[trigger] source_rules(ss[i])).contains(x),
    decreases ss.len(),
{
    if ss.len() > 0 {
        if source_rules(ss[0]).contains(x) {
            assert(source_rules(ss[0]).contains(x));
        } else {
            lemma_sources_rules_member(ss.drop_first(), x);
            let i = choose|i: int|
                0 <= i < ss.drop_first().len() && (#[trigger] source_rules(
                    ss.drop_first()[i],
                )).contains(x);
            assert(ss.drop_first()[i] == ss[i + 1]);
            assert(source_rules(ss[i + 1]).contains(x));
        }
    }
}

proof fn lemma_sources_rules_element(ss: Seq<Source>, i: int)
    requires
        0 <= i < ss.len(),
    ensures
        source_rules(ss[i]).subset_of(sources_rules(ss)),
    decreases ss.len(),
{
    if i > 0 {
        lemma_sources_rules_element(ss.drop_first(), i - 1);
        assert(ss.drop_first()[i - 1] == ss[i]);
    }
}

proof fn lemma_deriv_outputs(
    d: RuleTree,
    rules: Seq<CoreRule>,
    starting: Set<usize>,
    goal: usize,
    forbidden: Set<usize>,
)
    requires
        deriv_ok(d, rules, starting, goal, forbidden),
        !forbidden.contains(goal),
    ensures
        forall|x: usize|
            #[trigger] deriv_rules(d).contains(x) ==> x < rules.len() && !forbidden.contains(
                rules[x as int].out,
            ),
    decreases d,
{
    assert forall|x: usize| #[trigger] deriv_rules(d).contains(x) implies x < rules.len()
        && !forbidden.contains(rules[x as int].out) by {
        if x == d.rule {
        } else {
            assert(sources_rules(d.sources@).contains(x));
            lemma_sources_rules_member(d.sources@, x);
            let i = choose|i: int|
                0 <= i < d.sources@.len() && (#[trigger] source_rules(d.sources@[i])).contains(x);
            lemma_source_outputs(
                d.sources@[i],
                rules,
                starting,
                rules[d.rule as int].reqs@[i],
                forbidden.insert(goal),
            );
        }
    }
}

proof fn lemma_source_outputs(
    s: Source,
    rules: Seq<CoreRule>,
    starting: Set<usize>,
    goal: usize,
    forbidden: Set<usize>,
)
    requires
        source_ok(s, rules, starting, goal, forbidden),
    ensures
        forall|x: usize|
            #[trigger] source_rules(s).contains(x) ==> x < rules.len() && !forbidden.contains(
                rules[x as int].out,
            ),
    decreases s,
{
    match s {
        Source::BasicFact(_) => {},
        Source::Rule(sub) => {
            lemma_deriv_outputs(*sub, rules, starting, goal, forbidden);
            assert(source_rules(s) == deriv_rules(*sub));
        },
    }
}

/// The search can still succeed from this subtree: a settled `Found` node,
/// a grounded or groundable goal (a starting fact, or a fact with a
/// re-derivation-free derivation whose rules are all still available on
/// this branch), an open `Or` with some such child, or an open `And` with
/// only such children.
pub open spec fn realizable(n: Node, rules: Seq<CoreRule>, starting: Set<usize>) -> bool
    decreases n,
{
    match n.node_info {
        NodeInfo::FactToProve(f) => starting.contains(f) || exists|d: RuleTree|
            #[trigger] deriv_ok(d, rules, starting, f, Set::empty()) && deriv_rules(d).subset_of(
                n.available_rules@,
            ),
        NodeInfo::ProvenFact(_) => true,
        NodeInfo::DeadEnd(_) => false,
        NodeInfo::Or(_, cs, st) => st == RecResult::Found || (st == RecResult::Potential
            && exists|i: int| 0 <= i < cs@.len() && realizable(#[trigger] cs@[i], rules, starting)),
        NodeInfo::And(_, _, cs, st) => st == RecResult::Found || (st == RecResult::Potential
            && forall|i: int|
            0 <= i < cs@.len() ==> realizable(#[trigger] cs@[i], rules, starting)),
        NodeInfo::Empty => false,
    }
}

/// One forward application: if `r` is a rule whose requirements all lie in
/// `s`, add its output; otherwise leave `s` unchanged.
pub open spec fn apply_rule(rules: Seq<CoreRule>, s: Set<usize>, r: usize) -> Set<usize> {
    if r < rules.len() && rules[r as int].matches(s) {
        s.insert(rules[r as int].out)
    } else {
        s
    }
}

/// Forward replay of a rule sequence over a fact set, left to right.
pub open spec fn replay(rules: Seq<CoreRule>, s: Set<usize>, q: Seq<usize>) -> Set<usize>
    decreases q.len(),
{
    if q.len() == 0 {
        s
    } else {
        replay(rules, apply_rule(rules, s, q[0]), q.drop_first())
    }
}

/// Every rule of `q` is in range and has its requirements met at the
/// moment the replay reaches it.
pub open spec fn all_enabled(rules: Seq<CoreRule>, s: Set<usize>, q: Seq<usize>) -> bool
    decreases q.len(),
{
    q.len() == 0 || (q[0] < rules.len() && rules[q[0] as int].matches(s) && all_enabled(
        rules,
        apply_rule(rules, s, q[0]),
        q.drop_first(),
    ))
}

proof fn lemma_replay_grows(rules: Seq<CoreRule>, s: Set<usize>, q: Seq<usize>)
    ensures
        s.subset_of(replay(rules, s, q)),
    decreases q.len(),
{
    if q.len() > 0 {
        lemma_replay_grows(rules, apply_rule(rules, s, q[0]), q.drop_first());
    }
}

proof fn lemma_replay_concat(rules: Seq<CoreRule>, s: Set<usize>, q1: Seq<usize>, q2: Seq<usize>)
    ensures
        replay(rules, s, q1 + q2) == replay(rules, replay(rules, s, q1), q2),
        all_enabled(rules, s, q1) && all_enabled(rules, replay(rules, s, q1), q2) ==> all_enabled(
            rules,
            s,
            q1 + q2,
        ),
    decreases q1.len(),
{
    if q1.len() == 0 {
        assert(q1 + q2 =~= q2);
    } else {
        let s2 = apply_rule(rules, s, q1[0]);
        lemma_replay_concat(rules, s2, q1.drop_first(), q2);
        assert((q1 + q2)[0] == q1[0]);
        assert((q1 + q2).drop_first() =~= q1.drop_first() + q2);
    }
}

/// All rules attached to `And` nodes anywhere in a subtree.
pub open spec fn and_rules_in(n: Node) -> Set<usize>
    decreases n,
{
    match n.node_info {
        NodeInfo::Or(_, cs, _) => and_rules_children(cs@),
        NodeInfo::And(_, r, cs, _) => and_rules_children(cs@).insert(r),
        _ => Set::empty(),
    }
}

/// `and_rules_in` unioned over a child list.
pub open spec fn and_rules_children(cs: Seq<Node>) -> Set<usize>
    decreases cs,
{
    if cs.len() == 0 {
        Set::empty()
    } else {
        and_rules_in(cs[0]).union(and_rules_children(cs.drop_first()))
    }
}

/// No rule recurs along any root-to-leaf path of a subtree: every `And`
/// node's rule is absent from the whole subtree below it. Since a path
/// meets a rule only at an `And` node, this is exactly the guarantee that
/// no rule fires twice on one proof path.
pub open spec fn acyclic(n: Node) -> bool
    decreases n,
{
    match n.node_info {
        NodeInfo::Or(_, cs, _) => forall|i: int| 0 <= i < cs@.len() ==> acyclic(#[trigger] cs@[i]),
        NodeInfo::And(_, r, cs, _) => (forall|i: int|
            0 <= i < cs@.len() ==> acyclic(#[trigger] cs@[i])) && !and_rules_children(
            cs@,
        ).contains(r),
        _ => true,
    }
}

proof fn lemma_and_rules_children_member(cs: Seq<Node>, x: usize)
    requires
        and_rules_children(cs).contains(x),
    ensures
        exists|i: int| 0 <= i < cs.len() && (#[trigger] and_rules_in(cs[i])).contains(x),
    decreases cs.len(),
{
    if cs.len() > 0 {
        if and_rules_in(cs[0]).contains(x) {
            assert(and_rules_in(cs[0]).contains(x));
        } else {
            lemma_and_rules_children_member(cs.drop_first(), x);
            let i = choose|i: int|
                0 <= i < cs.drop_first().len() && (#[trigger] and_rules_in(
                    cs.drop_first()[i],
                )).contains(x);
            assert(cs.drop_first()[i] == cs[i + 1]);
            assert(and_rules_in(cs[i + 1]).contains(x));
        }
    }
}

proof fn lemma_wf_acyclic(
    n: Node,
    rules: Seq<CoreRule>,
    n_facts: nat,
    starting: Set<usize>,
    bound: Set<usize>,
)
    requires
        wf_node(n, rules, n_facts, starting, bound),
    ensures
        acyclic(n),
        forall|x: usize|
            #[trigger] and_rules_in(n).contains(x) ==> bound.contains(x) || (n.is_and() && x
                == n.and_rule()),
    decreases n,
{
    match n.node_info {
        NodeInfo::Or(f, cs, st) => {
            assert forall|i: int| 0 <= i < cs@.len() implies acyclic(#[trigger] cs@[i]) by {
                lemma_wf_acyclic(cs@[i], rules, n_facts, starting, bound);
            }
            assert forall|x: usize| #[trigger] and_rules_in(n).contains(x) implies bound.contains(
                x,
            ) by {
                lemma_and_rules_children_member(cs@, x);
                let i = choose|i: int|
                    0 <= i < cs@.len() && (#[trigger] and_rules_in(cs@[i])).contains(x);
                lemma_wf_acyclic(cs@[i], rules, n_facts, starting, bound);
            }
        },
        NodeInfo::And(f, r, cs, st) => {
            assert forall|i: int| 0 <= i < cs@.len() implies acyclic(#[trigger] cs@[i]) by {
                lemma_wf_acyclic(cs@[i], rules, n_facts, starting, n.available_rules@);
            }
            assert forall|x: usize|
                #[trigger] and_rules_children(cs@).contains(x) implies n.available_rules@.contains(
                x,
            ) by {
                lemma_and_rules_children_member(cs@, x);
                let i = choose|i: int|
                    0 <= i < cs@.len() && (#[trigger] and_rules_in(cs@[i])).contains(x);
                lemma_wf_acyclic(cs@[i], rules, n_facts, starting, n.available_rules@);
            }
            assert(!and_rules_children(cs@).contains(r));
        },
        _ => {},
    }
}

proof fn lemma_found_replay(
    n: Node,
    rules: Seq<CoreRule>,
    n_facts: nat,
    starting: Set<usize>,
    bound: Set<usize>,
    s: Set<usize>,
)
    requires
        wf_node(n, rules, n_facts, starting, bound),
        n.status() == RecResult::Found,
        starting.subset_of(s),
    ensures
        all_enabled(rules, s, collected(n, true)),
        s.subset_of(replay(rules, s, collected(n, true))),
        replay(rules, s, collected(n, true)).contains(n.fact()),
    decreases n,
{
    lemma_replay_grows(rules, s, collected(n, true));
    match n.node_info {
        NodeInfo::ProvenFact(f) => {},
        NodeInfo::Or(f, cs, st) => {
            lemma_found_replay(cs@[0], rules, n_facts, starting, bound, s);
            assert(cs@.drop_first() =~= Seq::<Node>::empty());
            assert(collected_children(Seq::<Node>::empty(), true) =~= Seq::<usize>::empty());
            assert(collected(cs@[0], true) + Seq::<usize>::empty() =~= collected(cs@[0], true));
            assert(collected(n, true) == collected(cs@[0], true));
        },
        NodeInfo::And(f, r, cs, st) => {
            lemma_found_replay_children(cs@, rules, n_facts, starting, n.available_rules@, s);
            let body = collected_children(cs@, true);
            let fset = replay(rules, s, body);
            assert forall|j: int|
                0 <= j < rules[r as int].reqs@.len() implies fset.contains(
                #[trigger] rules[r as int].reqs@[j],
            ) by {
                assert(cs@[j].fact() == rules[r as int].reqs@[j]);
                assert(fset.contains(cs@[j].fact()));
            }
            assert(rules[r as int].matches(fset));
            let tail: Seq<usize> = seq![r];
            assert(collected(n, true) == body + tail);
            lemma_replay_concat(rules, s, body, tail);
            assert(tail.drop_first() =~= Seq::<usize>::empty());
            assert(tail[0] == r);
            assert(replay(rules, apply_rule(rules, fset, r), Seq::<usize>::empty()) == apply_rule(
                rules,
                fset,
                r,
            ));
            assert(replay(rules, fset, tail) == apply_rule(rules, fset, r));
            assert(all_enabled(rules, apply_rule(rules, fset, r), Seq::<usize>::empty()));
            assert(all_enabled(rules, fset, tail));
        },
        _ => {
            assert(false);
        },
    }
}

proof fn lemma_found_replay_children(
    cs: Seq<Node>,
    rules: Seq<CoreRule>,
    n_facts: nat,
    starting: Set<usize>,
    bound: Set<usize>,
    s: Set<usize>,
)
    requires
        forall|i: int|
            0 <= i < cs.len() ==> wf_node(#[trigger] cs[i], rules, n_facts, starting, bound),
        forall|i: int| 0 <= i < cs.len() ==> (#[trigger] cs[i]).status() == RecResult::Found,
        starting.subset_of(s),
    ensures
        all_enabled(rules, s, collected_children(cs, true)),
        s.subset_of(replay(rules, s, collected_children(cs, true))),
        forall|i: int|
            0 <= i < cs.len() ==> replay(rules, s, collected_children(cs, true)).contains(
                (#[trigger] cs[i]).fact(),
            ),
    decreases cs,
{
    if cs.len() == 0 {
    } else {
        lemma_found_replay(cs[0], rules, n_facts, starting, bound, s);
        let s1 = replay(rules, s, collected(cs[0], true));
        assert forall|i: int| 0 <= i < cs.drop_first().len() implies wf_node(
            #[trigger] cs.drop_first()[i],
            rules,
            n_facts,
            starting,
            bound,
        ) && cs.drop_first()[i].status() == RecResult::Found by {
            assert(cs.drop_first()[i] == cs[i + 1]);
        }
        lemma_found_replay_children(cs.drop_first(), rules, n_facts, starting, bound, s1);
        lemma_replay_concat(rules, s, collected(cs[0], true), collected_children(
            cs.drop_first(),
            true,
        ));
        assert(collected_children(cs, true) == collected(cs[0], true) + collected_children(
            cs.drop_first(),
            true,
        ));
        let whole = replay(rules, s, collected_children(cs, true));
        assert forall|i: int| 0 <= i < cs.len() implies whole.contains(
            (#[trigger] cs[i]).fact(),
        ) by {
            if i == 0 {
                assert(s1.contains(cs[0].fact()));
                assert(s1.subset_of(whole));
            } else {
                assert(cs.drop_first()[i - 1] == cs[i]);
            }
        }
    }
}

/// Every rule in `seen` has already fired: its requirements and its output
/// are all in `s`.
pub open spec fn seen_applied(rules: Seq<CoreRule>, s: Set<usize>, seen: Set<usize>) -> bool {
    forall|r: usize|
        #[trigger] seen.contains(r) ==> r < rules.len() && rules[r as int].matches(s)
            && s.contains(rules[r as int].out)
}

proof fn lemma_dedup_replay(rules: Seq<CoreRule>, s: Set<usize>, q: Seq<usize>, seen: Set<usize>)
    requires
        all_enabled(rules, s, q),
        seen_applied(rules, s, seen),
    ensures
        all_enabled(rules, s, dedup(seen, q)),
        replay(rules, s, dedup(seen, q)) == replay(rules, s, q),
    decreases q.len(),
{
    if q.len() > 0 {
        let r0 = q[0];
        let s2 = apply_rule(rules, s, r0);
        if seen.contains(r0) {
            assert(s2 =~= s);
            lemma_dedup_replay(rules, s, q.drop_first(), seen);
        } else {
            assert forall|r: usize| #[trigger] seen.insert(r0).contains(r) implies r < rules.len()
                && rules[r as int].matches(s2) && s2.contains(rules[r as int].out) by {
                if r == r0 {
                    assert(rules[r0 as int].matches(s));
                } else {
                    assert(seen.contains(r));
                    assert(rules[r as int].matches(s));
                }
                assert forall|j: int|
                    0 <= j < rules[r as int].reqs@.len() implies s2.contains(
                    #[trigger] rules[r as int].reqs@[j],
                ) by {
                    assert(s.contains(rules[r as int].reqs@[j]));
                }
            }
            lemma_dedup_replay(rules, s2, q.drop_first(), seen.insert(r0));
            let d = dedup(seen.insert(r0), q.drop_first());
            assert(dedup(seen, q) == seq![r0] + d);
            assert((seq![r0] + d)[0] == r0);
            assert((seq![r0] + d).drop_first() =~= d);
            assert(replay(rules, s, seq![r0] + d) == replay(rules, s2, d));
        }
    }
}

/// The fact state a node with status `q` paints its goal fact with.
pub open spec fn fact_state_of(q: RecResult) -> FactState {
    match q {
        RecResult::Potential => FactState::Visited,
        RecResult::Found => FactState::VisitedPath,
        RecResult::DeadEnd => FactState::DeadEnd,
    }
}

/// The rule state an `And` node with status `q` paints its rule with.
pub open spec fn rule_state_of(q: RecResult) -> RuleState {
    match q {
        RecResult::Potential => RuleState::Visited,
        RecResult::Found => RuleState::VisitedPath,
        RecResult::DeadEnd => RuleState::DeadEnd,
    }
}

/// One recursive recoloring walk over a subtree: children first, then the
/// node's own fact (and, for an `And` node, its rule) is painted by its
/// status; an unexpanded goal is painted visited, a grounded goal not at
/// all, a refuted goal as a dead end.
pub open spec fn rec_recolor(n: Node, fc: Seq<FactState>, rc: Seq<RuleState>) -> (
    Seq<FactState>,
    Seq<RuleState>,
)
    decreases n,
{
    match n.node_info {
        NodeInfo::Or(t, cs, q) => {
            let p = rec_recolor_children(cs@, fc, rc);
            (p.0.update(t as int, fact_state_of(q)), p.1)
        },
        NodeInfo::And(f, r, cs, q) => {
            let p = rec_recolor_children(cs@, fc, rc);
            (p.0.update(f as int, fact_state_of(q)), p.1.update(r as int, rule_state_of(q)))
        },
        NodeInfo::FactToProve(f) => (fc.update(f as int, FactState::Visited), rc),
        NodeInfo::ProvenFact(_) => (fc, rc),
        NodeInfo::DeadEnd(f) => (fc.update(f as int, FactState::DeadEnd), rc),
        NodeInfo::Empty => (fc, rc),
    }
}

/// `rec_recolor` folded over a child list, left to right.
pub open spec fn rec_recolor_children(cs: Seq<Node>, fc: Seq<FactState>, rc: Seq<RuleState>) -> (
    Seq<FactState>,
    Seq<RuleState>,
)
    decreases cs,
{
    if cs.len() == 0 {
        (fc, rc)
    } else {
        let p = rec_recolor(cs[0], fc, rc);
        rec_recolor_children(cs.drop_first(), p.0, p.1)
    }
}

proof fn lemma_recolor_children_snoc(cs: Seq<Node>, fc: Seq<FactState>, rc: Seq<RuleState>)
    requires
        cs.len() >= 1,
    ensures
        rec_recolor_children(cs, fc, rc).0 == rec_recolor(
            cs.last(),
            rec_recolor_children(cs.drop_last(), fc, rc).0,
            rec_recolor_children(cs.drop_last(), fc, rc).1,
        ).0,
        rec_recolor_children(cs, fc, rc).1 == rec_recolor(
            cs.last(),
            rec_recolor_children(cs.drop_last(), fc, rc).0,
            rec_recolor_children(cs.drop_last(), fc, rc).1,
        ).1,
    decreases cs.len(),
{
    let p = rec_recolor(cs[0], fc, rc);
    if cs.len() == 1 {
        assert(cs.drop_last() =~= Seq::<Node>::empty());
        assert(cs.drop_first() =~= Seq::<Node>::empty());
        assert(rec_recolor_children(cs.drop_first(), p.0, p.1).0 == p.0);
        assert(rec_recolor_children(cs.drop_first(), p.0, p.1).1 == p.1);
        assert(rec_recolor_children(cs.drop_last(), fc, rc).0 == fc);
        assert(rec_recolor_children(cs.drop_last(), fc, rc).1 == rc);
    } else {
        lemma_recolor_children_snoc(cs.drop_first(), p.0, p.1);
        assert(cs.drop_first().drop_last() =~= cs.drop_last().drop_first());
        assert(cs.drop_first().last() == cs.last());
        assert(cs.drop_last()[0] == cs[0]);
        assert(cs.drop_last().len() >= 1);
    }
}

/// The rules, still available in `avail`, whose output is `f`: the
/// candidates a goal node for `f` expands into.
pub open spec fn candidate_rules(rules: Seq<CoreRule>, avail: Set<usize>, f: usize) -> Set<usize> {
    Set::new(|r: usize| r < rules.len() && avail.contains(r) && rules[r as int].out == f)
}

/// Well-formedness of the whole knowledge-base environment the search
/// walks: the rules range over the fact arena and the reversed index
/// matches the rule list. The arena size is the capacity of `starting`.
pub open spec fn env_wf(starting: IdSet, reversed: Seq<Vec<usize>>, rules: Seq<CoreRule>) -> bool {
    &&& reversed_index_wf(reversed, rules, starting.capacity())
    &&& forall|r: int| 0 <= r < rules.len() ==> (#[trigger] rules[r]).wf(starting.capacity())
}

/// Backward (reverse) chaining: an AND/OR proof-search tree rooted at the
/// target fact, expanded one whole-tree pass at a time. Owns a private
/// working copy of the knowledge base.
#[derive(Debug)]
pub struct ReverseReasoning {
    pub n_facts: usize,
    pub target_fact: usize,
    pub all_rules: Vec<CoreRule>,
    pub root: Node,
    pub starting_facts: IdSet,
    pub reversed_rules: Vec<Vec<usize>>,
}

impl ReverseReasoning {
    /// The set of all rule indices; the root's initial available set.
    pub open spec fn all_rule_ids(&self) -> Set<usize> {
        Set::new(|r: usize| r < self.all_rules@.len())
    }

    /// Structural invariant: the copied knowledge base is well formed, the
    /// reversed index matches the rule list, and the tree is well formed
    /// with the full rule set as the root bound and the target as the root
    /// goal.
    pub open spec fn wf(&self) -> bool {
        &&& self.starting_facts.capacity() == self.n_facts
        &&& self.target_fact < self.n_facts
        &&& forall|r: int|
            0 <= r < self.all_rules@.len() ==> (#[trigger] self.all_rules@[r]).wf(
                self.n_facts as nat,
            )
        &&& reversed_index_wf(self.reversed_rules@, self.all_rules@, self.n_facts as nat)
        &&& wf_node(
            self.root,
            self.all_rules@,
            self.n_facts as nat,
            self.starting_facts@,
            self.all_rule_ids(),
        )
        &&& self.root.fact() == self.target_fact
    }

    pub fn new(rules: &Engine, target_fact: usize) -> (r: Self)
        requires
            rules.wf(),
            target_fact < rules.n_facts(),
        ensures
            r.wf(),
            r.n_facts == rules.n_facts(),
            r.target_fact == target_fact,
            rules_eq(r.all_rules@, rules.rules@),
            r.starting_facts@ == rules.starting_facts@,
            r.root.node_info matches NodeInfo::FactToProve(f) && f == target_fact,
            r.root.available_rules@ == r.all_rule_ids(),
    {
        let n_facts = rules.all_possible_facts.len();
        let all_rules = clone_rules(&rules.rules);
        let mut reversed_rules: Vec<Vec<usize>> = Vec::new();
        let mut f: usize = 0;
        while f < n_facts
            invariant
                f <= n_facts,
                reversed_rules@.len() == f,
                forall|g: int, j: int|
                    0 <= g < f && 0 <= j < reversed_rules@[g]@.len() ==> (
                    #[trigger] reversed_rules@[g]@[j]) < all_rules@.len()
                        && all_rules@[reversed_rules@[g]@[j] as int].out == g,
                forall|g: int, j: int, k: int|
                    #![trigger reversed_rules@[g]@[j], reversed_rules@[g]@[k]]
                    0 <= g < f && 0 <= j < k < reversed_rules@[g]@.len() ==> reversed_rules@[g]@[j]
                        < reversed_rules@[g]@[k],
                forall|r: int|
                    0 <= r < all_rules@.len() && all_rules@[r].out < f
                        ==> #[trigger] reversed_rules@[all_rules@[r].out as int]@.contains(
                        r as usize,
                    ),
            decreases n_facts - f,
        {
            let mut producers: Vec<usize> = Vec::new();
            let mut r: usize = 0;
            while r < all_rules.len()
                invariant
                    r <= all_rules@.len(),
                    forall|j: int|
                        0 <= j < producers@.len() ==> (#[trigger] producers@[j]) < r
                            && all_rules@[producers@[j] as int].out == f,
                    forall|j: int, k: int|
                        #![trigger producers@[j], producers@[k]]
                        0 <= j < k < producers@.len() ==> producers@[j] < producers@[k],
                    forall|q: int|
                        0 <= q < r && all_rules@[q].out == f ==> producers@.contains(q as usize),
                decreases all_rules@.len() - r,
            {
                let ghost pre = producers@;
                if all_rules[r].out == f {
                    producers.push(r);
                    proof {
                        assert forall|q: int|
                            0 <= q < r + 1 && all_rules@[q].out == f implies producers@.contains(
                            q as usize,
                        ) by {
                            if q < r {
                                let j = choose|j: int| 0 <= j < pre.len() && pre[j] == q as usize;
                                assert(producers@[j] == q as usize);
                            } else {
                                assert(producers@[pre.len() as int] == r);
                            }
                        }
                    }
                }
                r = r + 1;
            }
            reversed_rules.push(producers);
            f = f + 1;
        }
        let root = Node {
            available_rules: IdSet::full(all_rules.len()),
            node_info: NodeInfo::FactToProve(target_fact),
        };
        let r = ReverseReasoning {
            n_facts,
            target_fact,
            all_rules,
            root,
            starting_facts: rules.starting_facts.clone(),
            reversed_rules,
        };
        proof {
            assert(r.root.available_rules@ =~= r.all_rule_ids());
        }
        r
    }

    /// One recursive re-evaluation pass over a subtree, per the search's
    /// rules: a settled node is returned unchanged; an `Or` node iterates
    /// its children in order and, on the first `Found` child, prunes to
    /// that single child; an `And` node iterates its children and fails
    /// outright on the first `DeadEnd` child; an unexpanded goal becomes a
    /// `ProvenFact` leaf (a starting fact), stays put as a refuted goal (no
    /// available candidate rule), or expands into an `Or` node over one
    /// `And` child per candidate rule, with every candidate removed from
    /// the whole new subtree's available sets.
    #[verifier::loop_isolation(false)]
    #[verifier::rlimit(100)]
    fn rec_iterate(
        starting: &IdSet,
        reversed: &Vec<Vec<usize>>,
        rules: &Vec<CoreRule>,
        node: Node,
        Ghost(bound): Ghost<Set<usize>>,
    ) -> (res: (Node, RecResult))
        requires
            env_wf(*starting, reversed@, rules@),
            wf_node(node, rules@, starting.capacity(), starting@, bound),
        ensures
            wf_node(res.0, rules@, starting.capacity(), starting@, bound),
            res.0.fact() == node.fact(),
            res.0.is_and() == node.is_and(),
            node.is_and() ==> res.0.and_rule() == node.and_rule(),
            res.1 == RecResult::Found ==> res.0.status() == RecResult::Found,
            node.status() == RecResult::Found ==> res.0 == node && res.1 == RecResult::Found,
            node.status() == RecResult::DeadEnd ==> res.0 == node && res.1 == RecResult::DeadEnd,
            node.node_info matches NodeInfo::FactToProve(f) ==> {
                let cands = candidate_rules(rules@, node.available_rules@, f);
                &&& (starting@.contains(f) ==> res.0.node_info == NodeInfo::ProvenFact(f)
                    && res.0.available_rules@ == node.available_rules@ && res.1
                    == RecResult::Found)
                &&& (!starting@.contains(f) && cands.is_empty() ==> res.0 == node && res.1
                    == RecResult::DeadEnd)
                &&& (!starting@.contains(f) && !cands.is_empty() ==> {
                    &&& res.1 == RecResult::Potential
                    &&& res.0.is_or()
                    &&& res.0.status() == RecResult::Potential
                    &&& res.0.available_rules@ == node.available_rules@.difference(cands)
                    &&& res.0.children().len() >= 1
                    &&& forall|i: int|
                        0 <= i < res.0.children().len() ==> cands.contains(
                            (#[trigger] res.0.children()[i]).and_rule(),
                        ) && res.0.children()[i].status() == RecResult::Potential
                            && res.0.children()[i].available_rules@
                            == node.available_rules@.difference(cands)
                    &&& forall|r: usize|
                        cands.contains(r) ==> exists|i: int|
                            0 <= i < res.0.children().len() && (
                            #[trigger] res.0.children()[i].and_rule()) == r
                })
            },
            measure_node(res.0, rules@) <= measure_node(node, rules@),
            res.1 == RecResult::Potential ==> measure_node(res.0, rules@) < measure_node(
                node,
                rules@,
            ),
            realizable(node, rules@, starting@) ==> realizable(res.0, rules@, starting@) && res.1
                != RecResult::DeadEnd,
        decreases node,
    {
        let ghost node0 = node;
        let ghost nf = starting.capacity();
        let Node { available_rules, node_info } = node;
        match node_info {
            NodeInfo::Or(f, mut cs, st) => {
                if st != RecResult::Potential {
                    let n2 = Node { available_rules, node_info: NodeInfo::Or(f, cs, st) };
                    proof {
                        assert(n2 == node0);
                    }
                    return (n2, st);
                }
                let ghost orig = cs@;
                proof {
                    assert(measure_node(node0, rules@) == 1 + measure_children(orig, rules@));
                }
                let n_children = cs.len();
                let mut i: usize = 0;
                let mut dead_count: usize = 0;
                while i < n_children
                    invariant
                        i <= n_children,
                        cs@.len() == n_children,
                        dead_count <= i,
                        forall|j: int| i <= j < n_children ==> cs@[j] == orig[j],
                        forall|j: int|
                            0 <= j < i ==> wf_node(
                                #[trigger] cs@[j],
                                rules@,
                                nf,
                                starting@,
                                bound,
                            ) && cs@[j].is_and() && cs@[j].fact() == f && bound.contains(
                                cs@[j].and_rule(),
                            ),
                        measure_children(cs@.subrange(0, i as int), rules@) + (if dead_count < i {
                            1nat
                        } else {
                            0nat
                        }) <= measure_children(orig.subrange(0, i as int), rules@),
                        realizable(node0, rules@, starting@) ==> exists|j: int|
                            0 <= j < n_children && realizable(#[trigger] cs@[j], rules@, starting@),
                        realizable(node0, rules@, starting@) ==> (dead_count < i || exists|j: int|
                            i <= j < n_children && realizable(#[trigger] orig[j], rules@, starting@)),
                    decreases n_children - i,
                {
                    let ghost cs_entry = cs@;
                    let ghost dead_entry = dead_count;
                    let mut c = Self::placeholder_node();
                    cs.set_and_swap(i, &mut c);
                    proof {
                        assert(c == orig[i as int]);
                        assert(decreases_to!(node0 => c));
                    }
                    let (c2, rr) = Self::rec_iterate(starting, reversed, rules, c, Ghost(bound));
                    if matches!(rr, RecResult::Found) {
                        let mut one: Vec<Node> = Vec::new();
                        one.push(c2);
                        proof {
                            lemma_measure_children_element(orig, rules@, i as int);
                            assert(one@.drop_first() =~= Seq::<Node>::empty());
                            assert(measure_children(Seq::<Node>::empty(), rules@) == 0);
                            assert(measure_children(one@, rules@) == measure_node(c2, rules@));
                        }
                        let n2 = Node {
                            available_rules,
                            node_info: NodeInfo::Or(f, one, RecResult::Found),
                        };
                        return (n2, RecResult::Found);
                    }
                    cs.set(i, c2);
                    if matches!(rr, RecResult::DeadEnd) {
                        dead_count = dead_count + 1;
                    }
                    i = i + 1;
                    proof {
                        assert(cs@.subrange(0, (i - 1) as int) =~= cs_entry.subrange(
                            0,
                            (i - 1) as int,
                        ));
                        let pn = cs@.subrange(0, i as int);
                        assert(pn.drop_last() =~= cs@.subrange(0, (i - 1) as int));
                        assert(pn.last() == c2);
                        lemma_measure_children_snoc(pn, rules@);
                        let po = orig.subrange(0, i as int);
                        assert(po.drop_last() =~= orig.subrange(0, (i - 1) as int));
                        assert(po.last() == orig[(i - 1) as int]);
                        lemma_measure_children_snoc(po, rules@);
                        if realizable(node0, rules@, starting@) {
                            let j0 = choose|j: int|
                                0 <= j < n_children && realizable(
                                    #[trigger] cs_entry[j],
                                    rules@,
                                    starting@,
                                );
                            if j0 == i - 1 {
                                assert(cs_entry[j0] == orig[j0]);
                                assert(realizable(c, rules@, starting@));
                                assert(realizable(cs@[j0], rules@, starting@));
                            } else {
                                assert(cs@[j0] == cs_entry[j0]);
                            }
                            if dead_entry < i - 1 {
                                assert(dead_count < i);
                            } else {
                                let jr = choose|j: int|
                                    i - 1 <= j < n_children && realizable(
                                        #[trigger] orig[j],
                                        rules@,
                                        starting@,
                                    );
                                if jr == i - 1 {
                                    assert(realizable(c, rules@, starting@));
                                    assert(rr != RecResult::DeadEnd);
                                    assert(dead_count == dead_entry);
                                    assert(dead_count < i);
                                }
                            }
                        }
                    }
                }
                proof {
                    assert(cs@.subrange(0, n_children as int) =~= cs@);
                    assert(orig.subrange(0, n_children as int) =~= orig);
                    if realizable(node0, rules@, starting@) {
                        assert(dead_count < n_children);
                    }
                }
                let st2 = if dead_count == n_children {
                    RecResult::DeadEnd
                } else {
                    RecResult::Potential
                };
                let n2 = Node { available_rules, node_info: NodeInfo::Or(f, cs, st2) };
                (n2, st2)
            },
            NodeInfo::And(f, r, mut cs, st) => {
                if st != RecResult::Potential {
                    let n2 = Node { available_rules, node_info: NodeInfo::And(f, r, cs, st) };
                    proof {
                        assert(n2 == node0);
                    }
                    return (n2, st);
                }
                let ghost orig = cs@;
                let ghost child_bound = available_rules@;
                proof {
                    assert(measure_node(node0, rules@) == 1 + measure_children(orig, rules@));
                }
                let n_children = cs.len();
                let mut i: usize = 0;
                let mut count_found: usize = 0;
                while i < n_children
                    invariant
                        i <= n_children,
                        cs@.len() == n_children,
                        count_found <= i,
                        forall|j: int| i <= j < n_children ==> cs@[j] == orig[j],
                        forall|j: int|
                            0 <= j < i ==> wf_node(
                                #[trigger] cs@[j],
                                rules@,
                                nf,
                                starting@,
                                child_bound,
                            ) && cs@[j].fact() == rules@[r as int].reqs@[j] && !cs@[j].is_and(),
                        count_found == i ==> forall|j: int|
                            0 <= j < i ==> (#[trigger] cs@[j]).status() == RecResult::Found,
                        measure_children(cs@.subrange(0, i as int), rules@) + (if count_found < i {
                            1nat
                        } else {
                            0nat
                        }) <= measure_children(orig.subrange(0, i as int), rules@),
                        realizable(node0, rules@, starting@) ==> forall|j: int|
                            0 <= j < n_children ==> realizable(
                                #[trigger] cs@[j],
                                rules@,
                                starting@,
                            ),
                    decreases n_children - i,
                {
                    let ghost cs_entry = cs@;
                    let mut c = Self::placeholder_node();
                    cs.set_and_swap(i, &mut c);
                    proof {
                        assert(c == orig[i as int]);
                        assert(decreases_to!(node0 => c));
                    }
                    let (c2, rr) = Self::rec_iterate(
                        starting,
                        reversed,
                        rules,
                        c,
                        Ghost(child_bound),
                    );
                    cs.set(i, c2);
                    if matches!(rr, RecResult::DeadEnd) {
                        proof {
                            assert forall|j: int| 0 <= j < n_children implies wf_node(
                                #[trigger] cs@[j],
                                rules@,
                                nf,
                                starting@,
                                child_bound,
                            ) && cs@[j].fact() == rules@[r as int].reqs@[j] && !cs@[j].is_and() by {
                                if j > i {
                                    assert(cs@[j] == orig[j]);
                                }
                            }
                        }
                        proof {
                            assert(cs@.subrange(0, i as int) =~= cs_entry.subrange(0, i as int));
                            lemma_measure_children_split(cs@, rules@, i as int);
                            lemma_measure_children_split(orig, rules@, i as int);
                            let sn = cs@.subrange(i as int, n_children as int);
                            let so = orig.subrange(i as int, n_children as int);
                            assert(sn[0] == c2);
                            assert(so[0] == orig[i as int]);
                            assert(sn.drop_first() =~= orig.subrange(
                                i as int + 1,
                                n_children as int,
                            ));
                            assert(so.drop_first() =~= orig.subrange(
                                i as int + 1,
                                n_children as int,
                            ));
                        }
                        let n2 = Node {
                            available_rules,
                            node_info: NodeInfo::And(f, r, cs, RecResult::DeadEnd),
                        };
                        proof {
                            assert(wf_node(n2, rules@, nf, starting@, bound));
                            assert(measure_node(n2, rules@) <= measure_node(node0, rules@));
                        }
                        return (n2, RecResult::DeadEnd);
                    }
                    if matches!(rr, RecResult::Found) {
                        count_found = count_found + 1;
                    }
                    i = i + 1;
                    proof {
                        assert(cs@.subrange(0, (i - 1) as int) =~= cs_entry.subrange(
                            0,
                            (i - 1) as int,
                        ));
                        let pn = cs@.subrange(0, i as int);
                        assert(pn.drop_last() =~= cs@.subrange(0, (i - 1) as int));
                        assert(pn.last() == c2);
                        lemma_measure_children_snoc(pn, rules@);
                        let po = orig.subrange(0, i as int);
                        assert(po.drop_last() =~= orig.subrange(0, (i - 1) as int));
                        assert(po.last() == orig[(i - 1) as int]);
                        lemma_measure_children_snoc(po, rules@);
                        if realizable(node0, rules@, starting@) {
                            assert forall|j: int| 0 <= j < n_children implies realizable(
                                #[trigger] cs@[j],
                                rules@,
                                starting@,
                            ) by {
                                if j == i - 1 {
                                    assert(realizable(c, rules@, starting@));
                                } else {
                                    assert(cs@[j] == cs_entry[j]);
                                }
                            }
                        }
                    }
                }
                proof {
                    assert(cs@.subrange(0, n_children as int) =~= cs@);
                    assert(orig.subrange(0, n_children as int) =~= orig);
                }
                let st2 = if count_found == n_children {
                    RecResult::Found
                } else {
                    RecResult::Potential
                };
                let n2 = Node { available_rules, node_info: NodeInfo::And(f, r, cs, st2) };
                (n2, st2)
            },
            NodeInfo::FactToProve(f) => {
                proof {
                    if realizable(node0, rules@, starting@) && !starting@.contains(f) {
                        let d = choose|d: RuleTree|
                            #[trigger] deriv_ok(d, rules@, starting@, f, Set::empty())
                                && deriv_rules(d).subset_of(node0.available_rules@);
                        assert(deriv_ok(d, rules@, starting@, f, Set::empty()) && deriv_rules(
                            d,
                        ).subset_of(available_rules@));
                    }
                }
                let r2 = Self::expand_goal(
                    starting,
                    reversed,
                    rules,
                    f,
                    available_rules,
                    Ghost(bound),
                );
                proof {
                    if !starting@.contains(f) && candidate_rules(
                        rules@,
                        node0.available_rules@,
                        f,
                    ).is_empty() {
                        assert(r2.0 == node0);
                    }
                }
                r2
            },
            NodeInfo::ProvenFact(f) => {
                let n2 = Node { available_rules, node_info: NodeInfo::ProvenFact(f) };
                proof {
                    assert(n2 == node0);
                }
                (n2, RecResult::Found)
            },
            NodeInfo::DeadEnd(f) => {
                let n2 = Node { available_rules, node_info: NodeInfo::DeadEnd(f) };
                proof {
                    assert(n2 == node0);
                }
                (n2, RecResult::DeadEnd)
            },
            NodeInfo::Empty => {
                proof {
                    assert(false);
                }
                (Node { available_rules, node_info: NodeInfo::Empty }, RecResult::Potential)
            },
        }
    }


    /// Evaluate one unexpanded goal for fact `f` on a branch with the
    /// given available rules: ground it when `f` is a starting fact,
    /// refute it when no available rule produces `f`, and otherwise expand
    /// it into an `Or` node over one `And` child per candidate rule, with
    /// every candidate removed from the whole new subtree's available
    /// sets.
    #[verifier::loop_isolation(false)]
    #[verifier::rlimit(100)]
    fn expand_goal(
        starting: &IdSet,
        reversed: &Vec<Vec<usize>>,
        rules: &Vec<CoreRule>,
        f: usize,
        available_rules: IdSet,
        Ghost(bound): Ghost<Set<usize>>,
    ) -> (res: (Node, RecResult))
        requires
            env_wf(*starting, reversed@, rules@),
            f < starting.capacity(),
            available_rules.capacity() == rules@.len(),
            available_rules@.subset_of(bound),
        ensures
            wf_node(res.0, rules@, starting.capacity(), starting@, bound),
            res.0.fact() == f,
            !res.0.is_and(),
            res.1 == RecResult::Found ==> res.0.status() == RecResult::Found,
            ({
                let cands = candidate_rules(rules@, available_rules@, f);
                &&& (starting@.contains(f) ==> res.0.node_info == NodeInfo::ProvenFact(f)
                    && res.0.available_rules@ == available_rules@ && res.1 == RecResult::Found)
                &&& (!starting@.contains(f) && cands.is_empty() ==> res.0.node_info
                    == NodeInfo::FactToProve(f) && res.0.available_rules == available_rules
                    && res.1 == RecResult::DeadEnd)
                &&& (!starting@.contains(f) && !cands.is_empty() ==> {
                    &&& res.1 == RecResult::Potential
                    &&& res.0.is_or()
                    &&& res.0.status() == RecResult::Potential
                    &&& res.0.available_rules@ == available_rules@.difference(cands)
                    &&& res.0.children().len() >= 1
                    &&& forall|i: int|
                        0 <= i < res.0.children().len() ==> cands.contains(
                            (#[trigger] res.0.children()[i]).and_rule(),
                        ) && res.0.children()[i].status() == RecResult::Potential
                            && res.0.children()[i].available_rules@
                            == available_rules@.difference(cands)
                    &&& forall|r: usize|
                        cands.contains(r) ==> exists|i: int|
                            0 <= i < res.0.children().len() && (
                            #[trigger] res.0.children()[i].and_rule()) == r
                })
            }),
            measure_node(res.0, rules@) <= pow_nat(
                branch_base(rules@),
                popcount(available_rules.bits@) + 1,
            ),
            res.1 == RecResult::Potential ==> measure_node(res.0, rules@) < pow_nat(
                branch_base(rules@),
                popcount(available_rules.bits@) + 1,
            ),
            (starting@.contains(f) || exists|d: RuleTree|
                #[trigger] deriv_ok(d, rules@, starting@, f, Set::empty())
                    && deriv_rules(d).subset_of(available_rules@)) ==> realizable(
                res.0,
                rules@,
                starting@,
            ) && res.1 != RecResult::DeadEnd,
    {
        let ghost nf = starting.capacity();
                proof {
                    lemma_pow_nat_pos(
                        branch_base(rules@),
                        popcount(available_rules.bits@) + 1,
                    );
                }
                if starting.contains(f) {
                    let n2 = Node { available_rules, node_info: NodeInfo::ProvenFact(f) };
                    return (n2, RecResult::Found);
                }
                let ghost cands_spec = candidate_rules(rules@, available_rules@, f);
                let producers = &reversed[f];
                let mut cands: Vec<usize> = Vec::new();
                let mut j: usize = 0;
                while j < producers.len()
                    invariant
                        j <= producers@.len(),
                        forall|k: int|
                            0 <= k < cands@.len() ==> cands_spec.contains(#[trigger] cands@[k]),
                        forall|k: int|
                            0 <= k < j && available_rules@.contains(#[trigger] producers@[k])
                                ==> cands@.contains(producers@[k]),
                        forall|a: int, b: int|
                            #![trigger cands@[a], cands@[b]]
                            0 <= a < b < cands@.len() ==> cands@[a] < cands@[b],
                        cands@.len() > 0 ==> exists|j2: int|
                            0 <= j2 < j && producers@[j2] == cands@.last(),
                    decreases producers@.len() - j,
                {
                    let ghost pre = cands@;
                    let cand = producers[j];
                    if available_rules.contains(cand) {
                        cands.push(cand);
                        proof {
                            if pre.len() > 0 {
                                let j2 = choose|j2: int|
                                    0 <= j2 < j && producers@[j2] == pre.last();
                                assert(producers@[j2] < producers@[j as int]);
                                assert forall|a: int, b: int|
                                    #![trigger cands@[a], cands@[b]]
                                    0 <= a < b < cands@.len() implies cands@[a] < cands@[b] by {
                                    if b < cands@.len() - 1 {
                                        assert(cands@[a] == pre[a] && cands@[b] == pre[b]);
                                    } else {
                                        assert(cands@[b] == cand);
                                        assert(cands@[a] == pre[a]);
                                        if a < pre.len() - 1 {
                                            assert(pre[a] < pre[pre.len() - 1]);
                                        }
                                    }
                                }
                            }
                            assert(cands@.last() == producers@[j as int]);
                        }
                    }
                    j = j + 1;
                    proof {
                        assert forall|k: int|
                            0 <= k < j && available_rules@.contains(#[trigger] producers@[k])
                                implies cands@.contains(producers@[k]) by {
                            if k + 1 < j {
                                let m = choose|m: int|
                                    0 <= m < pre.len() && pre[m] == producers@[k];
                                assert(cands@[m] == producers@[k]);
                            } else if available_rules@.contains(producers@[k]) {
                                assert(cands@[cands@.len() - 1] == producers@[k]);
                            }
                        }
                    }
                }
                if cands.len() == 0 {
                    proof {
                        assert forall|r: usize| !cands_spec.contains(r) by {
                            if cands_spec.contains(r) {
                                assert(reversed@[f as int]@.contains(r));
                                let k = choose|k: int|
                                    0 <= k < reversed@[f as int]@.len() && reversed@[f as int]@[k]
                                        == r;
                                assert(cands@.contains(producers@[k]));
                            }
                        }
                        assert(cands_spec.is_empty()) by {
                            assert(cands_spec =~= Set::<usize>::empty());
                        }
                    }
                    proof {
                        if exists|d: RuleTree|
                            #[trigger] deriv_ok(d, rules@, starting@, f, Set::empty())
                                && deriv_rules(d).subset_of(available_rules@) {
                            let d = choose|d: RuleTree|
                                #[trigger] deriv_ok(d, rules@, starting@, f, Set::empty())
                                    && deriv_rules(d).subset_of(available_rules@);
                            assert(deriv_rules(d).contains(d.rule));
                            assert(cands_spec.contains(d.rule));
                        }
                    }
                    let n2 = Node { available_rules, node_info: NodeInfo::FactToProve(f) };
                    return (n2, RecResult::DeadEnd);
                }
                proof {
                    assert(cands_spec.contains(cands@[0]));
                    assert(!cands_spec.is_empty());
                }
                let mut new_avail = available_rules.clone();
                let mut k: usize = 0;
                while k < cands.len()
                    invariant
                        k <= cands@.len(),
                        new_avail.capacity() == available_rules.capacity(),
                        forall|x: usize|
                            #[trigger] new_avail@.contains(x) <==> (available_rules@.contains(x)
                                && !cands@.subrange(0, k as int).contains(x)),
                        new_avail.bits@.len() == available_rules.bits@.len(),
                        k == 0 ==> new_avail.bits@ == available_rules.bits@,
                        popcount(new_avail.bits@) <= popcount(available_rules.bits@),
                        k >= 1 ==> popcount(new_avail.bits@) + 1 <= popcount(
                            available_rules.bits@,
                        ),
                    decreases cands@.len() - k,
                {
                    let ghost pre_avail = new_avail@;
                    let ghost pre_bits = new_avail.bits@;
                    proof {
                        if k == 0 {
                            assert(available_rules@.contains(cands@[0]));
                            assert(pre_bits[cands@[0] as int]);
                        }
                        lemma_popcount_update_false(pre_bits, cands@[k as int] as int);
                    }
                    new_avail.remove(cands[k]);
                    k = k + 1;
                    proof {
                        assert forall|x: usize| #[trigger] new_avail@.contains(x) implies (
                        available_rules@.contains(x) && !cands@.subrange(0, k as int).contains(
                            x,
                        )) by {
                            if cands@.subrange(0, k as int).contains(x) {
                                let m = choose|m: int|
                                    0 <= m < k && (#[trigger] cands@.subrange(0, k as int)[m])
                                        == x;
                                if m < k - 1 {
                                    assert(cands@.subrange(0, (k - 1) as int)[m] == x);
                                }
                            }
                        }
                        assert(cands@.subrange(0, k as int)[(k - 1) as int] == cands@[(k
                            - 1) as int]);
                        assert(cands@.subrange(0, k as int).contains(cands@[(k - 1) as int]));
                        assert forall|x: usize|
                            (available_rules@.contains(x) && !cands@.subrange(0, k as int).contains(
                                x,
                            )) implies #[trigger] new_avail@.contains(x) by {
                            if cands@.subrange(0, (k - 1) as int).contains(x) {
                                let m = choose|m: int|
                                    0 <= m < k - 1 && (#[trigger] cands@.subrange(
                                        0,
                                        (k - 1) as int,
                                    )[m]) == x;
                                assert(cands@.subrange(0, k as int)[m] == x);
                            }
                        }
                    }
                }
                proof {
                    assert(new_avail@ =~= available_rules@.difference(cands_spec)) by {
                        assert(cands@.subrange(0, cands@.len() as int) =~= cands@);
                        assert forall|x: usize| cands@.contains(x) implies cands_spec.contains(
                            x,
                        ) by {
                            let m = choose|m: int| 0 <= m < cands@.len() && cands@[m] == x;
                        }
                        assert forall|x: usize|
                            cands_spec.contains(x) implies cands@.contains(x) by {
                            assert(reversed@[f as int]@.contains(x));
                            let m = choose|m: int|
                                0 <= m < reversed@[f as int]@.len() && reversed@[f as int]@[m]
                                    == x;
                            assert(cands@.contains(producers@[m]));
                        }
                    }
                }
                let ghost bb = branch_base(rules@);
                let ghost pp = pow_nat(bb, popcount(new_avail.bits@) + 1);
                proof {
                    lemma_pow_nat_pos(bb, popcount(new_avail.bits@) + 1);
                }
                let mut and_children: Vec<Node> = Vec::new();
                let mut m: usize = 0;
                while m < cands.len()
                    invariant
                        m <= cands@.len(),
                        and_children@.len() == m,
                        new_avail@ == available_rules@.difference(cands_spec),
                        new_avail.capacity() == rules@.len(),
                        forall|i: int|
                            0 <= i < m ==> wf_node(
                                #[trigger] and_children@[i],
                                rules@,
                                nf,
                                starting@,
                                bound,
                            ) && and_children@[i].is_and() && and_children@[i].and_rule()
                                == cands@[i] && and_children@[i].fact() == f
                                && and_children@[i].status() == RecResult::Potential
                                && and_children@[i].available_rules@ == new_avail@,
                        measure_children(and_children@, rules@) <= cand_wsum(
                            rules@,
                            cands@.subrange(0, m as int),
                        ) * pp,
                        forall|i: int|
                            0 <= i < m ==> (#[trigger] and_children@[i]).children().len()
                                == rules@[cands@[i] as int].reqs@.len(),
                        forall|i: int, q: int|
                            #![trigger and_children@[i].children()[q]]
                            0 <= i < m && 0 <= q < and_children@[i].children().len()
                                ==> and_children@[i].children()[q].node_info
                                == NodeInfo::FactToProve(rules@[cands@[i] as int].reqs@[q])
                                && and_children@[i].children()[q].available_rules@ == new_avail@,
                    decreases cands@.len() - m,
                {
                    let rule_id = cands[m];
                    let reqs_len = rules[rule_id].reqs.len();
                    let mut goals: Vec<Node> = Vec::new();
                    let mut q: usize = 0;
                    while q < reqs_len
                        invariant
                            q <= reqs_len,
                            goals@.len() == q,
                            rule_id == cands@[m as int],
                            reqs_len == rules@[rule_id as int].reqs@.len(),
                            forall|x: int|
                                0 <= x < q ==> (#[trigger] goals@[x]).node_info
                                    == NodeInfo::FactToProve(rules@[rule_id as int].reqs@[x])
                                    && goals@[x].available_rules@ == new_avail@
                                    && goals@[x].available_rules.capacity()
                                    == new_avail.capacity() && goals@[x].available_rules.bits@
                                    == new_avail.bits@,
                        decreases reqs_len - q,
                    {
                        goals.push(
                            Node {
                                available_rules: new_avail.clone(),
                                node_info: NodeInfo::FactToProve(rules[rule_id].reqs[q]),
                            },
                        );
                        q = q + 1;
                    }
                    proof {
                        assert forall|x: int| 0 <= x < goals@.len() implies measure_node(
                            #[trigger] goals@[x],
                            rules@,
                        ) == pp by {}
                        lemma_measure_children_const(goals@, rules@, pp);
                    }
                    let and_node = Node {
                        available_rules: new_avail.clone(),
                        node_info: NodeInfo::And(f, rule_id, goals, RecResult::Potential),
                    };
                    proof {
                        assert(cands_spec.contains(rule_id));
                        assert(measure_node(and_node, rules@) == 1 + reqs_len * pp);
                        assert(1 + reqs_len * pp <= (reqs_len + 1) * pp) by (nonlinear_arith)
                            requires
                                pp >= 1,
                                reqs_len >= 0,
                        ;
                        assert(rule_weight(rules@[rule_id as int]) == reqs_len + 1);
                        assert forall|x: int|
                            0 <= x < and_node.children().len() implies wf_node(
                            #[trigger] and_node.children()[x],
                            rules@,
                            nf,
                            starting@,
                            and_node.available_rules@,
                        ) by {
                            assert(rules@[rule_id as int].wf(nf));
                        }
                        assert(wf_node(and_node, rules@, nf, starting@, bound));
                    }
                    let ghost prev_children = and_children@;
                    let ghost prev_w = cand_wsum(rules@, cands@.subrange(0, m as int));
                    and_children.push(and_node);
                    m = m + 1;
                    proof {
                        assert(and_children@.drop_last() =~= prev_children);
                        assert(and_children@.last() == and_node);
                        lemma_measure_children_snoc(and_children@, rules@);
                        let pc = cands@.subrange(0, m as int);
                        assert(pc.drop_last() =~= cands@.subrange(0, (m - 1) as int));
                        assert(pc.last() == cands@[(m - 1) as int]);
                        assert(cand_wsum(rules@, pc) == prev_w + rule_weight(
                            rules@[rule_id as int],
                        ));
                        assert(measure_children(prev_children, rules@) + (reqs_len + 1) * pp <= (
                        prev_w + (reqs_len + 1)) * pp) by (nonlinear_arith)
                            requires
                                measure_children(prev_children, rules@) <= prev_w * pp,
                                pp >= 1,
                                reqs_len >= 0,
                                prev_w >= 0,
                        ;
                    }
                }
                let ghost diff = new_avail@;
                let ghost pc2 = popcount(new_avail.bits@);
                let ghost pc1 = popcount(available_rules.bits@);
                let ghost total = wsum(rules@, rules@.len() as int);
                proof {
                    assert(cands@.subrange(0, cands@.len() as int) =~= cands@);
                    lemma_cand_wsum_bound(rules@, cands@, rules@.len() as int);
                    assert(measure_children(and_children@, rules@) <= total * pp) by (
                    nonlinear_arith)
                        requires
                            measure_children(and_children@, rules@) <= cand_wsum(rules@, cands@)
                                * pp,
                            cand_wsum(rules@, cands@) <= total,
                            pp >= 0,
                    ;
                }
                let or_node = Node {
                    available_rules: new_avail,
                    node_info: NodeInfo::Or(f, and_children, RecResult::Potential),
                };
                proof {
                    assert(wf_node(or_node, rules@, nf, starting@, bound));
                    assert(measure_node(or_node, rules@) == 1 + measure_children(
                        or_node.children(),
                        rules@,
                    ));
                    assert(1 + total * pp < bb * pp) by (nonlinear_arith)
                        requires
                            bb == total + 2,
                            pp >= 1,
                            total >= 0,
                    ;
                    assert(pow_nat(bb, pc2 + 2) == bb * pow_nat(bb, pc2 + 1));
                    lemma_pow_nat_mono(bb, pc2 + 2, pc1 + 1);
                    assert(measure_node(or_node, rules@) < pow_nat(bb, pc1 + 1));
                    assert forall|r: usize| cands_spec.contains(r) implies exists|i: int|
                        0 <= i < or_node.children().len() && (
                        #[trigger] or_node.children()[i].and_rule()) == r by {
                        assert(cands@.contains(r));
                        let m = choose|m: int| 0 <= m < cands@.len() && cands@[m] == r;
                        assert(or_node.children()[m].and_rule() == r);
                    }
                }
                proof {
                    if exists|d: RuleTree|
                        #[trigger] deriv_ok(d, rules@, starting@, f, Set::empty())
                            && deriv_rules(d).subset_of(available_rules@) {
                        let d = choose|d: RuleTree|
                            #[trigger] deriv_ok(d, rules@, starting@, f, Set::empty())
                                && deriv_rules(d).subset_of(available_rules@);
                        assert(deriv_rules(d).contains(d.rule));
                        assert(cands_spec.contains(d.rule));
                        assert(reversed@[f as int]@.contains(d.rule));
                        let mi = choose|mi: int|
                            0 <= mi < reversed@[f as int]@.len() && reversed@[f as int]@[mi]
                                == d.rule;
                        assert(cands@.contains(producers@[mi]));
                        let m0 = choose|m0: int| 0 <= m0 < cands@.len() && cands@[m0] == d.rule;
                        let ac = or_node.children()[m0];
                        assert(ac.is_and() && ac.and_rule() == d.rule && ac.status()
                            == RecResult::Potential);
                        assert(ac.children().len() == rules@[d.rule as int].reqs@.len());
                        let forb = Set::<usize>::empty().insert(f);
                        assert forall|q: int|
                            0 <= q < ac.children().len() implies realizable(
                            #[trigger] ac.children()[q],
                            rules@,
                            starting@,
                        ) by {
                            let goal_q = rules@[d.rule as int].reqs@[q];
                            assert(ac.children()[q].node_info == NodeInfo::FactToProve(goal_q));
                            assert(ac.children()[q].available_rules@ == diff);
                            let sq = d.sources@[q];
                            assert(source_ok(sq, rules@, starting@, goal_q, forb));
                            match sq {
                                Source::BasicFact(bf) => {
                                    assert(starting@.contains(goal_q));
                                },
                                Source::Rule(sub) => {
                                    lemma_source_mono(
                                        sq,
                                        rules@,
                                        starting@,
                                        goal_q,
                                        forb,
                                        Set::empty(),
                                    );
                                    assert(deriv_ok(*sub, rules@, starting@, goal_q, Set::empty()));
                                    lemma_sources_rules_element(d.sources@, q);
                                    lemma_source_outputs(sq, rules@, starting@, goal_q, forb);
                                    assert forall|x: usize|
                                        #[trigger] deriv_rules(*sub).contains(x) implies
                                        diff.contains(x) by {
                                        assert(source_rules(sq).contains(x));
                                        assert(sources_rules(d.sources@).contains(x));
                                        assert(deriv_rules(d).contains(x));
                                        assert(available_rules@.contains(x));
                                        assert(!forb.contains(rules@[x as int].out));
                                        assert(rules@[x as int].out != f);
                                        assert(!cands_spec.contains(x));
                                    }
                                    assert(deriv_rules(*sub).subset_of(
                                        ac.children()[q].available_rules@,
                                    ));
                                },
                            }
                        }
                        assert(realizable(ac, rules@, starting@));
                        assert(realizable(or_node, rules@, starting@));
                    }
                }
                (or_node, RecResult::Potential)
    }

    /// The transient placeholder swapped into a tree slot while the node
    /// that was there is being rewritten.
    fn placeholder_node() -> (n: Node)
        ensures
            n.node_info == NodeInfo::Empty,
    {
        Node { available_rules: IdSet::empty(0), node_info: NodeInfo::Empty }
    }

    /// One whole-tree evaluation pass: `Found` when the root resolved to a
    /// complete proof, `NotProved` when it is refuted, `Iterated` when the
    /// search made progress and the root is still open.
    pub fn step(&mut self) -> (r: RevStepResult)
        requires
            old(self).wf(),
        ensures
            final(self).wf(),
            final(self).n_facts == old(self).n_facts,
            final(self).target_fact == old(self).target_fact,
            final(self).all_rules@ == old(self).all_rules@,
            final(self).starting_facts@ == old(self).starting_facts@,
            final(self).reversed_rules@ == old(self).reversed_rules@,
            r == RevStepResult::Found ==> final(self).root.status() == RecResult::Found,
            old(self).root.status() == RecResult::Found ==> r == RevStepResult::Found
                && final(self).root == old(self).root,
            old(self).root.status() == RecResult::DeadEnd ==> r == RevStepResult::NotProved
                && final(self).root == old(self).root,
            old(self).root.node_info matches NodeInfo::FactToProve(f) ==> {
                let cands = candidate_rules(
                    old(self).all_rules@,
                    old(self).root.available_rules@,
                    f,
                );
                &&& (old(self).starting_facts@.contains(f) ==> r == RevStepResult::Found
                    && final(self).root.node_info == NodeInfo::ProvenFact(f))
                &&& (!old(self).starting_facts@.contains(f) && cands.is_empty() ==> r
                    == RevStepResult::NotProved && final(self).root == old(self).root)
                &&& (!old(self).starting_facts@.contains(f) && !cands.is_empty() ==> r
                    == RevStepResult::Iterated)
            },
            measure_node(final(self).root, final(self).all_rules@) <= measure_node(
                old(self).root,
                old(self).all_rules@,
            ),
            r == RevStepResult::Iterated ==> measure_node(final(self).root, final(self).all_rules@)
                < measure_node(old(self).root, old(self).all_rules@),
            realizable(old(self).root, old(self).all_rules@, old(self).starting_facts@)
                ==> r != RevStepResult::NotProved && realizable(
                final(self).root,
                final(self).all_rules@,
                final(self).starting_facts@,
            ),
    {
        let mut work = Self::placeholder_node();
        core::mem::swap(&mut work, &mut self.root);
        let (n2, t) = Self::rec_iterate(
            &self.starting_facts,
            &self.reversed_rules,
            &self.all_rules,
            work,
            Ghost(old(self).all_rule_ids()),
        );
        self.root = n2;
        match t {
            RecResult::Potential => RevStepResult::Iterated,
            RecResult::Found => RevStepResult::Found,
            RecResult::DeadEnd => RevStepResult::NotProved,
        }
    }

    /// The all-unvisited fact states the recoloring starts from.
    pub open spec fn base_fact_states(&self) -> Seq<FactState> {
        Seq::new(self.n_facts as nat, |i: int| FactState::Unvisited)
    }

    /// The all-unvisited rule states the recoloring starts from.
    pub open spec fn base_rule_states(&self) -> Seq<RuleState> {
        Seq::new(self.all_rules@.len(), |i: int| RuleState::Unvisited)
    }

    /// The state the target fact is finally painted with: target-visited
    /// when the root settled on a proof of the target, else plain target.
    pub open spec fn target_mark(&self) -> FactState {
        match self.root.node_info {
            NodeInfo::Or(f, _, s) => if s == RecResult::Found && f == self.target_fact {
                FactState::TargetVisited
            } else {
                FactState::Target
            },
            NodeInfo::And(f, _, _, s) => if s == RecResult::Found && f == self.target_fact {
                FactState::TargetVisited
            } else {
                FactState::Target
            },
            NodeInfo::ProvenFact(f) => if f == self.target_fact {
                FactState::TargetVisited
            } else {
                FactState::Target
            },
            _ => FactState::Target,
        }
    }

    /// The whole presentation snapshot as a function of the search state:
    /// everything unvisited, then the recursive tree recoloring, then the
    /// starting facts re-marked, then the target fact marked.
    pub open spec fn recolor_spec(&self) -> (Seq<FactState>, Seq<RuleState>) {
        let p = rec_recolor(self.root, self.base_fact_states(), self.base_rule_states());
        let with_start = Seq::new(
            self.n_facts as nat,
            |i: int|
                if self.starting_facts@.contains(i as usize) {
                    FactState::Starting
                } else {
                    p.0[i]
                },
        );
        (with_start.update(self.target_fact as int, self.target_mark()), p.1)
    }

    #[verifier::loop_isolation(false)]
    fn rec_recoloring(
        node: &Node,
        fc: &mut Vec<FactState>,
        rc: &mut Vec<RuleState>,
        Ghost(rules): Ghost<Seq<CoreRule>>,
        Ghost(nf): Ghost<nat>,
        Ghost(starting): Ghost<Set<usize>>,
        Ghost(bound): Ghost<Set<usize>>,
    )
        requires
            wf_node(*node, rules, nf, starting, bound),
            old(fc)@.len() == nf,
            old(rc)@.len() == rules.len(),
        ensures
            final(fc)@ == rec_recolor(*node, old(fc)@, old(rc)@).0,
            final(rc)@ == rec_recolor(*node, old(fc)@, old(rc)@).1,
            final(fc)@.len() == nf,
            final(rc)@.len() == rules.len(),
        decreases *node,
    {
        match &node.node_info {
            NodeInfo::Or(t, cs, q) => {
                let ghost fc0 = fc@;
                let ghost rc0 = rc@;
                let mut i: usize = 0;
                while i < cs.len()
                    invariant
                        i <= cs@.len(),
                        fc@ == rec_recolor_children(cs@.subrange(0, i as int), fc0, rc0).0,
                        rc@ == rec_recolor_children(cs@.subrange(0, i as int), fc0, rc0).1,
                        fc@.len() == nf,
                        rc@.len() == rules.len(),
                    decreases cs@.len() - i,
                {
                    proof {
                        assert(decreases_to!(*node => cs@[i as int]));
                    }
                    Self::rec_recoloring(
                        &cs[i],
                        fc,
                        rc,
                        Ghost(rules),
                        Ghost(nf),
                        Ghost(starting),
                        Ghost(bound),
                    );
                    i = i + 1;
                    proof {
                        let pref = cs@.subrange(0, i as int);
                        assert(pref.drop_last() =~= cs@.subrange(0, (i - 1) as int));
                        assert(pref.last() == cs@[(i - 1) as int]);
                        lemma_recolor_children_snoc(pref, fc0, rc0);
                    }
                }
                proof {
                    assert(cs@.subrange(0, cs@.len() as int) =~= cs@);
                }
                let st = match q {
                    RecResult::Potential => FactState::Visited,
                    RecResult::Found => FactState::VisitedPath,
                    RecResult::DeadEnd => FactState::DeadEnd,
                };
                fc.set(*t, st);
            },
            NodeInfo::And(f, r, cs, q) => {
                let ghost fc0 = fc@;
                let ghost rc0 = rc@;
                let mut i: usize = 0;
                while i < cs.len()
                    invariant
                        i <= cs@.len(),
                        fc@ == rec_recolor_children(cs@.subrange(0, i as int), fc0, rc0).0,
                        rc@ == rec_recolor_children(cs@.subrange(0, i as int), fc0, rc0).1,
                        fc@.len() == nf,
                        rc@.len() == rules.len(),
                    decreases cs@.len() - i,
                {
                    proof {
                        assert(decreases_to!(*node => cs@[i as int]));
                    }
                    Self::rec_recoloring(
                        &cs[i],
                        fc,
                        rc,
                        Ghost(rules),
                        Ghost(nf),
                        Ghost(starting),
                        Ghost(node.available_rules@),
                    );
                    i = i + 1;
                    proof {
                        let pref = cs@.subrange(0, i as int);
                        assert(pref.drop_last() =~= cs@.subrange(0, (i - 1) as int));
                        assert(pref.last() == cs@[(i - 1) as int]);
                        lemma_recolor_children_snoc(pref, fc0, rc0);
                    }
                }
                proof {
                    assert(cs@.subrange(0, cs@.len() as int) =~= cs@);
                }
                let rst = match q {
                    RecResult::Potential => RuleState::Visited,
                    RecResult::Found => RuleState::VisitedPath,
                    RecResult::DeadEnd => RuleState::DeadEnd,
                };
                rc.set(*r, rst);
                let st = match q {
                    RecResult::Potential => FactState::Visited,
                    RecResult::Found => FactState::VisitedPath,
                    RecResult::DeadEnd => FactState::DeadEnd,
                };
                fc.set(*f, st);
            },
            NodeInfo::FactToProve(f) => {
                fc.set(*f, FactState::Visited);
            },
            NodeInfo::ProvenFact(_) => {},
            NodeInfo::DeadEnd(f) => {
                fc.set(*f, FactState::DeadEnd);
            },
            NodeInfo::Empty => {
                proof {
                    assert(false);
                }
            },
        }
    }

    /// The presentation snapshot of the backward search: every fact and
    /// rule reset, the tree recoloring applied, the starting facts
    /// re-marked, and the target fact marked by whether the root settled on
    /// a proof of it.
    #[verifier::loop_isolation(false)]
    pub fn recolor(&self) -> (c: NodeColoring)
        requires
            self.wf(),
        ensures
            c.facts@ == self.recolor_spec().0,
            c.rules@ == self.recolor_spec().1,
    {
        let mut fc: Vec<FactState> = Vec::new();
        let mut i: usize = 0;
        while i < self.n_facts
            invariant
                i <= self.n_facts,
                fc@.len() == i,
                forall|k: int| 0 <= k < i ==> fc@[k] == FactState::Unvisited,
            decreases self.n_facts - i,
        {
            fc.push(FactState::Unvisited);
            i = i + 1;
        }
        let mut rc: Vec<RuleState> = Vec::new();
        let mut j: usize = 0;
        while j < self.all_rules.len()
            invariant
                j <= self.all_rules@.len(),
                rc@.len() == j,
                forall|k: int| 0 <= k < j ==> rc@[k] == RuleState::Unvisited,
            decreases self.all_rules@.len() - j,
        {
            rc.push(RuleState::Unvisited);
            j = j + 1;
        }
        proof {
            assert(fc@ =~= self.base_fact_states());
            assert(rc@ =~= self.base_rule_states());
        }
        Self::rec_recoloring(
            &self.root,
            &mut fc,
            &mut rc,
            Ghost(self.all_rules@),
            Ghost(self.n_facts as nat),
            Ghost(self.starting_facts@),
            Ghost(self.all_rule_ids()),
        );
        let ghost f1 = fc@;
        let mut k: usize = 0;
        while k < self.n_facts
            invariant
                k <= self.n_facts,
                fc@.len() == self.n_facts,
                forall|m: int|
                    0 <= m < self.n_facts ==> fc@[m] == (if m < k && self.starting_facts@.contains(
                        m as usize,
                    ) {
                        FactState::Starting
                    } else {
                        f1[m]
                    }),
            decreases self.n_facts - k,
        {
            if self.starting_facts.contains(k) {
                fc.set(k, FactState::Starting);
            }
            k = k + 1;
        }
        proof {
            assert(fc@ =~= Seq::new(
                self.n_facts as nat,
                |i: int|
                    if self.starting_facts@.contains(i as usize) {
                        FactState::Starting
                    } else {
                        f1[i]
                    },
            ));
        }
        let tm = match &self.root.node_info {
            NodeInfo::Or(f, _, s) => if *s == RecResult::Found && *f == self.target_fact {
                FactState::TargetVisited
            } else {
                FactState::Target
            },
            NodeInfo::And(f, _, _, s) => if *s == RecResult::Found && *f == self.target_fact {
                FactState::TargetVisited
            } else {
                FactState::Target
            },
            NodeInfo::ProvenFact(f) => if *f == self.target_fact {
                FactState::TargetVisited
            } else {
                FactState::Target
            },
            _ => FactState::Target,
        };
        fc.set(self.target_fact, tm);
        NodeColoring { facts: fc, rules: rc }
    }

    /// Drive the search to completion: call `step` until it reports
    /// something other than `Iterated`, then export the presentation
    /// snapshot of the final tree.
    #[verifier::loop_isolation(false)]
    pub fn build_tree(&mut self) -> (res: (RevStepResult, NodeColoring))
        requires
            old(self).wf(),
        ensures
            final(self).wf(),
            final(self).n_facts == old(self).n_facts,
            final(self).target_fact == old(self).target_fact,
            final(self).all_rules@ == old(self).all_rules@,
            final(self).starting_facts@ == old(self).starting_facts@,
            final(self).reversed_rules@ == old(self).reversed_rules@,
            res.0 != RevStepResult::Iterated,
            res.0 == RevStepResult::Found ==> final(self).root.status() == RecResult::Found
                && final(self).root.fact() == final(self).target_fact,
            res.1.facts@ == final(self).recolor_spec().0,
            res.1.rules@ == final(self).recolor_spec().1,
            realizable(old(self).root, old(self).all_rules@, old(self).starting_facts@) ==> res.0
                == RevStepResult::Found,
    {
        let mut t = self.step();
        while t == RevStepResult::Iterated
            invariant
                self.wf(),
                self.n_facts == old(self).n_facts,
                self.target_fact == old(self).target_fact,
                self.all_rules@ == old(self).all_rules@,
                self.starting_facts@ == old(self).starting_facts@,
                self.reversed_rules@ == old(self).reversed_rules@,
                t == RevStepResult::Found ==> self.root.status() == RecResult::Found,
                realizable(old(self).root, old(self).all_rules@, old(self).starting_facts@) ==> t
                    != RevStepResult::NotProved && realizable(
                    self.root,
                    self.all_rules@,
                    self.starting_facts@,
                ),
            decreases
                    measure_node(self.root, self.all_rules@),
                    (if t == RevStepResult::Iterated {
                        1int
                    } else {
                        0int
                    }),
        {
            t = self.step();
        }
        let c = self.recolor();
        (t, c)
    }


    /// Law: the search tree never uses a rule twice along one proof path.
    /// In any well-formed search state, every `And` node's rule is absent
    /// from the entire subtree below that node, because expanding a goal
    /// removes all the candidate rules just considered from the new
    /// subtree's available sets and those sets only ever shrink downward.
    pub proof fn lemma_backward_acyclic(&self)
        requires
            self.wf(),
        ensures
            acyclic(self.root),
    {
        lemma_wf_acyclic(
            self.root,
            self.all_rules@,
            self.n_facts as nat,
            self.starting_facts@,
            self.all_rule_ids(),
        );
    }

    /// Law: backward completeness, bounded. A search whose root is still
    /// the unexpanded target goal is realizable as soon as some derivation
    /// of the target exists that re-derives no fact along any of its paths
    /// (the shape every derivation over an acyclic, finite requirement
    /// graph has) and uses only rules still available at the root; and
    /// `build_tree` ensures that a realizable search always settles on
    /// `Found`.
    pub proof fn lemma_backward_completeness(&self, d: RuleTree)
        requires
            self.root.node_info == NodeInfo::FactToProve(self.target_fact),
            deriv_ok(
                d,
                self.all_rules@,
                self.starting_facts@,
                self.target_fact,
                Set::empty(),
            ),
            deriv_rules(d).subset_of(self.root.available_rules@),
        ensures
            realizable(self.root, self.all_rules@, self.starting_facts@),
    {
    }

    /// Law: backward soundness. When the search settles on a proof of the
    /// target, replaying the reported applied-rule path forward from the
    /// starting facts fires every rule with its requirements already met
    /// and derives the target fact.
    pub proof fn lemma_backward_soundness(&self)
        requires
            self.wf(),
            self.root.status() == RecResult::Found,
        ensures
            all_enabled(self.all_rules@, self.starting_facts@, self.applied_rules_spec()),
            replay(
                self.all_rules@,
                self.starting_facts@,
                self.applied_rules_spec(),
            ).contains(self.target_fact),
    {
        let rules = self.all_rules@;
        let s0 = self.starting_facts@;
        match self.root.node_info {
            NodeInfo::ProvenFact(f) => {
                assert(collected(self.root, self.root_is_final()) =~= Seq::<usize>::empty());
                assert(self.applied_rules_spec() =~= Seq::<usize>::empty());
                assert(replay(rules, s0, self.applied_rules_spec()) == s0);
                assert(s0.contains(f));
            },
            NodeInfo::Or(f, _, _) => {
                assert(self.root_is_final());
                lemma_found_replay(
                    self.root,
                    rules,
                    self.n_facts as nat,
                    s0,
                    self.all_rule_ids(),
                    s0,
                );
                lemma_dedup_replay(rules, s0, collected(self.root, true), Set::empty());
            },
            NodeInfo::And(f, _, _, _) => {
                assert(self.root_is_final());
                lemma_found_replay(
                    self.root,
                    rules,
                    self.n_facts as nat,
                    s0,
                    self.all_rule_ids(),
                    s0,
                );
                lemma_dedup_replay(rules, s0, collected(self.root, true), Set::empty());
            },
            _ => {
                assert(false);
            },
        }
    }

    /// Whether the tree is settled on a proof of the target: the root is a
    /// `Found` `Or` or `And` for the target fact. Rule extraction then keeps
    /// only the surviving proof path.
    pub open spec fn root_is_final(&self) -> bool {
        match self.root.node_info {
            NodeInfo::Or(f, _, s) => s == RecResult::Found && f == self.target_fact,
            NodeInfo::And(f, _, _, s) => s == RecResult::Found && f == self.target_fact,
            _ => false,
        }
    }

    /// The rule path `get_applied_rules` reports: the post-order collected
    /// rules of the tree, first occurrences only.
    pub open spec fn applied_rules_spec(&self) -> Seq<usize> {
        dedup(Set::empty(), collected(self.root, self.root_is_final()))
    }

    #[verifier::loop_isolation(false)]
    fn get_applied_rules_rec(node: &Node, is_final: bool) -> (v: Vec<usize>)
        ensures
            v@ == collected(*node, is_final),
        decreases *node,
    {
        let mut v: Vec<usize> = Vec::new();
        match &node.node_info {
            NodeInfo::Or(_, cs, _) => {
                let mut i: usize = 0;
                while i < cs.len()
                    invariant
                        i <= cs@.len(),
                        v@ == collected_children(cs@.subrange(0, i as int), is_final),
                    decreases cs@.len() - i,
                {
                    proof {
                        assert(decreases_to!(*node => cs@[i as int]));
                    }
                    let sub = Self::get_applied_rules_rec(&cs[i], is_final);
                    let mut k: usize = 0;
                    while k < sub.len()
                        invariant
                            k <= sub@.len(),
                            v@ == collected_children(cs@.subrange(0, i as int), is_final)
                                + sub@.subrange(0, k as int),
                        decreases sub@.len() - k,
                    {
                        let ghost pre = v@;
                        v.push(sub[k]);
                        k = k + 1;
                        proof {
                            assert(sub@.subrange(0, k as int) =~= sub@.subrange(
                                0,
                                (k - 1) as int,
                            ).push(sub@[(k - 1) as int]));
                            assert(v@ =~= collected_children(cs@.subrange(0, i as int), is_final)
                                + sub@.subrange(0, k as int));
                        }
                    }
                    i = i + 1;
                    proof {
                        assert(sub@.subrange(0, sub@.len() as int) =~= sub@);
                        let pref = cs@.subrange(0, i as int);
                        assert(pref.drop_last() =~= cs@.subrange(0, (i - 1) as int));
                        assert(pref.last() == cs@[(i - 1) as int]);
                        lemma_collected_children_snoc(pref, is_final);
                    }
                }
                proof {
                    assert(cs@.subrange(0, cs@.len() as int) =~= cs@);
                }
            },
            NodeInfo::And(_, r, cs, q) => {
                let mut i: usize = 0;
                while i < cs.len()
                    invariant
                        i <= cs@.len(),
                        v@ == collected_children(cs@.subrange(0, i as int), is_final),
                    decreases cs@.len() - i,
                {
                    proof {
                        assert(decreases_to!(*node => cs@[i as int]));
                    }
                    let sub = Self::get_applied_rules_rec(&cs[i], is_final);
                    let mut k: usize = 0;
                    while k < sub.len()
                        invariant
                            k <= sub@.len(),
                            v@ == collected_children(cs@.subrange(0, i as int), is_final)
                                + sub@.subrange(0, k as int),
                        decreases sub@.len() - k,
                    {
                        v.push(sub[k]);
                        k = k + 1;
                        proof {
                            assert(sub@.subrange(0, k as int) =~= sub@.subrange(
                                0,
                                (k - 1) as int,
                            ).push(sub@[(k - 1) as int]));
                            assert(v@ =~= collected_children(cs@.subrange(0, i as int), is_final)
                                + sub@.subrange(0, k as int));
                        }
                    }
                    i = i + 1;
                    proof {
                        assert(sub@.subrange(0, sub@.len() as int) =~= sub@);
                        let pref = cs@.subrange(0, i as int);
                        assert(pref.drop_last() =~= cs@.subrange(0, (i - 1) as int));
                        assert(pref.last() == cs@[(i - 1) as int]);
                        lemma_collected_children_snoc(pref, is_final);
                    }
                }
                let keep = match q {
                    RecResult::Potential => !is_final,
                    RecResult::Found => true,
                    RecResult::DeadEnd => false,
                };
                if keep {
                    v.push(*r);
                }
                proof {
                    assert(cs@.subrange(0, cs@.len() as int) =~= cs@);
                    if keep_rule(*q, is_final) {
                        assert(v@ =~= collected_children(cs@, is_final) + seq![*r]);
                    } else {
                        assert(v@ =~= collected_children(cs@, is_final) + Seq::<usize>::empty());
                    }
                }
            },
            _ => {},
        }
        v
    }

    /// The rule path through the whole tree: along the surviving proof when
    /// the root is settled `Found` for the target, otherwise along every
    /// branch not yet refuted.
    pub fn get_applied_rules_unfiltered(&self) -> (v: Vec<usize>)
        ensures
            v@ == collected(self.root, self.root_is_final()),
    {
        let is_final = match &self.root.node_info {
            NodeInfo::Or(f, _, s) => *s == RecResult::Found && *f == self.target_fact,
            NodeInfo::And(f, _, _, s) => *s == RecResult::Found && *f == self.target_fact,
            _ => false,
        };
        Self::get_applied_rules_rec(&self.root, is_final)
    }

    /// The rule path with duplicates dropped, first occurrences kept in
    /// order; what the presentation layer shows as the applied rules.
    #[verifier::loop_isolation(false)]
    pub fn get_applied_rules(&self) -> (v: Vec<usize>)
        requires
            self.wf(),
        ensures
            v@ == self.applied_rules_spec(),
    {
        let t = self.get_applied_rules_unfiltered();
        proof {
            lemma_collected_in_range(
                self.root,
                self.all_rules@,
                self.n_facts as nat,
                self.starting_facts@,
                self.all_rule_ids(),
                self.root_is_final(),
            );
        }
        let mut mentioned = IdSet::empty(self.all_rules.len());
        let mut v: Vec<usize> = Vec::new();
        let mut i: usize = 0;
        proof {
            assert(t@.subrange(0, t@.len() as int) =~= t@);
            assert(Seq::<usize>::empty() + dedup(Set::empty(), t@) =~= dedup(Set::empty(), t@));
        }
        while i < t.len()
            invariant
                i <= t@.len(),
                t@ == collected(self.root, self.root_is_final()),
                mentioned.capacity() == self.all_rules@.len(),
                forall|j: int| 0 <= j < t@.len() ==> (#[trigger] t@[j]) < self.all_rules@.len(),
                self.applied_rules_spec() == v@ + dedup(mentioned@, t@.subrange(i as int, t@.len() as int)),
            decreases t@.len() - i,
        {
            let ghost rest = t@.subrange(i as int, t@.len() as int);
            let ghost rest2 = t@.subrange(i as int + 1, t@.len() as int);
            proof {
                assert(rest[0] == t@[i as int]);
                assert(rest.drop_first() =~= rest2);
            }
            let x = t[i];
            if !mentioned.contains(x) {
                let ghost pre_m = mentioned@;
                let ghost pre_v = v@;
                mentioned.insert(x);
                v.push(x);
                proof {
                    assert(dedup(pre_m, rest) == seq![x] + dedup(pre_m.insert(x), rest2));
                    assert(v@ =~= pre_v + seq![x]);
                    assert(pre_v + (seq![x] + dedup(mentioned@, rest2)) =~= (pre_v + seq![x])
                        + dedup(mentioned@, rest2));
                }
            } else {
                proof {
                    assert(dedup(mentioned@, rest) == dedup(mentioned@, rest2));
                }
            }
            i = i + 1;
        }
        proof {
            assert(t@.subrange(t@.len() as int, t@.len() as int) =~= Seq::<usize>::empty());
            assert(v@ + dedup(mentioned@, Seq::empty()) =~= v@);
        }
        v
    }
}

} // verus!
