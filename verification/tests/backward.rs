use inference_engine::direct_reasoning::{FactState, RuleState};
use inference_engine::engine::Engine;
use inference_engine::fact::{CoreFact, CoreRule};
use inference_engine::idset::IdSet;
use inference_engine::reverse_reasoning::{NodeInfo, ReverseReasoning, RevStepResult};

fn crafting_kb() -> Engine {
    Engine::primitive_engine()
}

// goal(0) is produced by {alpha}->goal and {beta}->goal; beta(2) by
// {gamma}->beta; alpha(1) and gamma(3) by nothing.
fn branching_kb(starting: &[usize]) -> Engine {
    let facts = vec![
        CoreFact::new("goal".to_string()),
        CoreFact::new("alpha".to_string()),
        CoreFact::new("beta".to_string()),
        CoreFact::new("gamma".to_string()),
    ];
    let mut s = IdSet::empty(4);
    for &i in starting {
        s.insert(i);
    }
    let rules = vec![
        CoreRule::new(vec![1], 0),
        CoreRule::new(vec![2], 0),
        CoreRule::new(vec![3], 2),
    ];
    Engine::new(facts, s, rules)
}

#[test]
fn crafting_backward_found() {
    let e = crafting_kb();
    let mut rr = ReverseReasoning::new(&e, 3);
    let (res, _) = rr.build_tree();
    assert_eq!(res, RevStepResult::Found);
    assert_eq!(rr.get_applied_rules(), vec![0, 1, 2]);
}

#[test]
fn crafting_backward_steps() {
    let e = crafting_kb();
    let mut rr = ReverseReasoning::new(&e, 3);
    assert_eq!(rr.step(), RevStepResult::Iterated);
    assert_eq!(rr.step(), RevStepResult::Iterated);
    assert_eq!(rr.step(), RevStepResult::Iterated);
    assert_eq!(rr.step(), RevStepResult::Found);
    assert_eq!(rr.step(), RevStepResult::Found);
}

#[test]
fn crafting_backward_coloring() {
    let e = crafting_kb();
    let mut rr = ReverseReasoning::new(&e, 3);
    let (res, c) = rr.build_tree();
    assert_eq!(res, RevStepResult::Found);
    assert_eq!(c.facts[0], FactState::VisitedPath);
    assert_eq!(c.facts[1], FactState::Starting);
    assert_eq!(c.facts[2], FactState::VisitedPath);
    assert_eq!(c.facts[3], FactState::TargetVisited);
    assert_eq!(c.rules, vec![RuleState::VisitedPath; 3]);
}

#[test]
fn backward_no_producer_dead_end() {
    // The target has no producing rule and is not a starting fact: refuted
    // on the very first pass.
    let e = branching_kb(&[2]);
    let mut rr = ReverseReasoning::new(&e, 1);
    assert_eq!(rr.step(), RevStepResult::NotProved);
    assert!(matches!(rr.root.node_info, NodeInfo::FactToProve(1)));
}

#[test]
fn backward_target_is_starting_fact() {
    let e = branching_kb(&[2]);
    let mut rr = ReverseReasoning::new(&e, 2);
    assert_eq!(rr.step(), RevStepResult::Found);
    assert!(matches!(rr.root.node_info, NodeInfo::ProvenFact(2)));
}

#[test]
fn backward_dead_branch_is_pruned_away() {
    // goal via alpha is a dead end, goal via beta succeeds; only the
    // surviving rule is reported.
    let e = branching_kb(&[2]);
    let mut rr = ReverseReasoning::new(&e, 0);
    let (res, c) = rr.build_tree();
    assert_eq!(res, RevStepResult::Found);
    assert_eq!(rr.get_applied_rules(), vec![1]);
    assert_eq!(c.facts[0], FactState::TargetVisited);
    assert_eq!(c.facts[2], FactState::Starting);
    assert_eq!(c.rules[1], RuleState::VisitedPath);
}

#[test]
fn backward_exhausted_search_not_proved() {
    // Nothing is a starting fact: every branch is refuted.
    let e = branching_kb(&[]);
    let mut rr = ReverseReasoning::new(&e, 0);
    let (res, c) = rr.build_tree();
    assert_eq!(res, RevStepResult::NotProved);
    // The unexpandable goals stay plain visited goals; the refuted
    // alternatives and the target are marked accordingly.
    assert_eq!(c.facts[0], FactState::Target);
    assert_eq!(c.facts[1], FactState::Visited);
    assert_eq!(c.facts[2], FactState::DeadEnd);
    assert_eq!(c.facts[3], FactState::Visited);
    assert_eq!(
        c.rules,
        vec![RuleState::DeadEnd, RuleState::DeadEnd, RuleState::DeadEnd]
    );
}

#[test]
fn backward_terminal_state_is_stable() {
    let e = branching_kb(&[]);
    let mut rr = ReverseReasoning::new(&e, 0);
    let (res, _) = rr.build_tree();
    assert_eq!(res, RevStepResult::NotProved);
    assert_eq!(rr.step(), RevStepResult::NotProved);
    assert_eq!(rr.step(), RevStepResult::NotProved);
}

#[test]
fn backward_export_is_idempotent() {
    let e = crafting_kb();
    let mut rr = ReverseReasoning::new(&e, 3);
    rr.step();
    rr.step();
    let c1 = rr.recolor();
    let c2 = rr.recolor();
    assert_eq!(c1, c2);
}

#[test]
fn backward_rule_not_reused_on_one_path() {
    // Proving loop_fact(0) needs loop_fact itself below the same path; the
    // only rule was removed from the branch, so the search is refuted
    // instead of looping.
    let facts = vec![
        CoreFact::new("loop_fact".to_string()),
        CoreFact::new("seed".to_string()),
    ];
    let s = IdSet::empty(2);
    let rules = vec![CoreRule::new(vec![0], 0)];
    let e = Engine::new(facts, s, rules);
    let mut rr = ReverseReasoning::new(&e, 0);
    let (res, _) = rr.build_tree();
    assert_eq!(res, RevStepResult::NotProved);
}

#[test]
fn backward_rule_reused_across_independent_branches() {
    // Both requirements of the final rule need the same plank rule, once in
    // each independent subtree; the path still reports it once.
    let e = crafting_kb();
    let mut rr = ReverseReasoning::new(&e, 3);
    let (res, _) = rr.build_tree();
    assert_eq!(res, RevStepResult::Found);
    let applied = rr.get_applied_rules();
    assert_eq!(applied.iter().filter(|&&r| r == 0).count(), 1);
}

#[test]
fn backward_partial_search_best_effort_path() {
    // After one pass the target goal has expanded into its one candidate
    // rule; the reported path shows the still-open branch.
    let e = crafting_kb();
    let mut rr = ReverseReasoning::new(&e, 3);
    assert_eq!(rr.get_applied_rules(), Vec::<usize>::new());
    rr.step();
    assert_eq!(rr.get_applied_rules(), vec![2]);
}

#[test]
fn backward_soundness_replay() {
    // Replaying the reported rules forward from the starting facts derives
    // the target.
    let e = crafting_kb();
    let mut rr = ReverseReasoning::new(&e, 3);
    let (res, _) = rr.build_tree();
    assert_eq!(res, RevStepResult::Found);
    let applied = rr.get_applied_rules();
    let mut known = vec![false, true, false, false];
    for r in applied {
        let rule = &e.rules[r];
        assert!(rule.reqs.iter().all(|&q| known[q]));
        known[rule.out] = true;
    }
    assert!(known[3]);
}
