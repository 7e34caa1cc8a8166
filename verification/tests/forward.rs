use inference_engine::direct_reasoning::{DirectReasoning, FactState, RuleState, StepResult};
use inference_engine::engine::Engine;
use inference_engine::fact::{CoreFact, CoreRule};
use inference_engine::idset::IdSet;

// The crafting example: facts oak_planks(0), oak_wood(1), stick(2),
// wooden_pickaxe(3); rules {wood}->planks, {planks}->stick,
// {planks, stick}->pickaxe; starting {wood}.
fn crafting_engine() -> Engine {
    Engine::primitive_engine()
}

#[test]
fn crafting_forward_steps() {
    let e = crafting_engine();
    let mut dr = DirectReasoning::new(&e, 3);
    assert_eq!(dr.step(), StepResult::Applied(0));
    assert_eq!(dr.step(), StepResult::Applied(1));
    assert_eq!(dr.step(), StepResult::FoundAfter(2, 3));
    assert_eq!(dr.step(), StepResult::Found);
}

#[test]
fn crafting_forward_try_find() {
    let e = crafting_engine();
    let mut dr = DirectReasoning::new(&e, 3);
    assert_eq!(dr.try_find(), StepResult::FoundAfter(2, 3));
    assert_eq!(dr.try_find(), StepResult::Found);
}

#[test]
fn forward_facts_grow_monotonically() {
    let e = crafting_engine();
    let mut dr = DirectReasoning::new(&e, 3);
    assert!(dr.current_facts.contains(1));
    assert!(!dr.current_facts.contains(0));
    dr.step();
    assert!(dr.current_facts.contains(1));
    assert!(dr.current_facts.contains(0));
    dr.step();
    assert!(dr.current_facts.contains(1));
    assert!(dr.current_facts.contains(0));
    assert!(dr.current_facts.contains(2));
}

#[test]
fn forward_target_already_known() {
    let e = crafting_engine();
    let mut dr = DirectReasoning::new(&e, 1);
    assert_eq!(dr.step(), StepResult::Found);
    assert_eq!(dr.try_find(), StepResult::Found);
}

#[test]
fn forward_not_proved_is_stable() {
    // No rule produces fact 0 and it is not a starting fact.
    let facts = vec![
        CoreFact::new("goal".to_string()),
        CoreFact::new("base".to_string()),
    ];
    let mut starting = IdSet::empty(2);
    starting.insert(1);
    let rules = vec![CoreRule::new(vec![0], 1)];
    let e = Engine::new(facts, starting, rules);
    let mut dr = DirectReasoning::new(&e, 0);
    assert_eq!(dr.step(), StepResult::NotProved);
    assert_eq!(dr.step(), StepResult::NotProved);
    assert_eq!(dr.try_find(), StepResult::NotProved);
}

#[test]
fn forward_coloring_after_search() {
    let e = crafting_engine();
    let mut dr = DirectReasoning::new(&e, 3);
    dr.try_find();
    let c = dr.update_hashmap();
    assert_eq!(c.facts[0], FactState::Visited);
    assert_eq!(c.facts[1], FactState::Starting);
    assert_eq!(c.facts[2], FactState::Visited);
    assert_eq!(c.facts[3], FactState::TargetVisited);
    assert_eq!(c.rules, vec![RuleState::Visited; 3]);
}

#[test]
fn forward_target_not_possible() {
    // Fact 0 has no producing rule and is not starting; the one rule cannot
    // fire either.
    let facts = vec![
        CoreFact::new("goal".to_string()),
        CoreFact::new("base".to_string()),
        CoreFact::new("other".to_string()),
    ];
    let mut starting = IdSet::empty(3);
    starting.insert(1);
    let rules = vec![CoreRule::new(vec![2], 1)];
    let e = Engine::new(facts, starting, rules);
    let mut dr = DirectReasoning::new(&e, 0);
    assert!(!dr.is_target_still_possible());
    let c = dr.update_hashmap();
    assert_eq!(c.facts[0], FactState::TargetNotPossible);
    assert_eq!(c.facts[1], FactState::Starting);
    assert_eq!(c.facts[2], FactState::Unvisited);
    assert_eq!(c.rules, vec![RuleState::Unvisited]);
}

#[test]
fn forward_export_is_idempotent() {
    let e = crafting_engine();
    let mut dr = DirectReasoning::new(&e, 3);
    dr.step();
    let c1 = dr.update_hashmap();
    let c2 = dr.update_hashmap();
    assert_eq!(c1, c2);
}

#[test]
fn forward_first_applicable_rule_wins() {
    // Two rules are applicable at once; the first in enumeration order
    // fires first.
    let facts = vec![
        CoreFact::new("base".to_string()),
        CoreFact::new("left".to_string()),
        CoreFact::new("right".to_string()),
    ];
    let mut starting = IdSet::empty(3);
    starting.insert(0);
    let rules = vec![CoreRule::new(vec![0], 1), CoreRule::new(vec![0], 2)];
    let e = Engine::new(facts, starting, rules);
    let mut dr = DirectReasoning::new(&e, 2);
    assert_eq!(dr.step(), StepResult::Applied(0));
    assert_eq!(dr.step(), StepResult::FoundAfter(1, 2));
}
