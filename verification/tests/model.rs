use inference_engine::direct_reasoning::{FactState, RuleState};
use inference_engine::engine::Engine;
use inference_engine::fact::{CoreFact, CoreRule};
use inference_engine::idset::IdSet;

#[test]
fn idset_membership() {
    let mut s = IdSet::empty(5);
    assert!(!s.contains(3));
    s.insert(3);
    assert!(s.contains(3));
    assert!(!s.contains(2));
    assert!(!s.contains(7));
    s.remove(3);
    assert!(!s.contains(3));
    let f = IdSet::full(3);
    assert!(f.contains(0) && f.contains(1) && f.contains(2));
    assert!(!f.contains(3));
}

#[test]
fn idset_clone_is_independent() {
    let mut s = IdSet::empty(4);
    s.insert(1);
    let mut t = s.clone();
    t.insert(2);
    assert!(s.contains(1) && !s.contains(2));
    assert!(t.contains(1) && t.contains(2));
}

#[test]
fn rule_matches_requirements() {
    let rule = CoreRule::new(vec![0, 2], 3);
    let mut facts = IdSet::empty(4);
    facts.insert(0);
    assert!(!rule.match_requirement(&facts));
    facts.insert(2);
    assert!(rule.match_requirement(&facts));
    facts.insert(1);
    assert!(rule.match_requirement(&facts));
}

#[test]
fn rule_with_no_requirements_always_matches() {
    let rule = CoreRule::new(vec![], 0);
    let facts = IdSet::empty(1);
    assert!(rule.match_requirement(&facts));
}

#[test]
fn fact_symbol_name() {
    let f = CoreFact::new("water".to_string());
    match f {
        CoreFact::Symbol(s) => assert_eq!(s, "water"),
        CoreFact::Symbols(_) => panic!("expected a plain symbol"),
    }
}

#[test]
fn fact_tuple_shape() {
    let pair = CoreFact::Symbols(vec![
        CoreFact::new("left".to_string()),
        CoreFact::new("right".to_string()),
    ]);
    match pair {
        CoreFact::Symbols(v) => {
            assert_eq!(v.len(), 2);
            assert!(matches!(&v[0], CoreFact::Symbol(s) if s == "left"));
        }
        CoreFact::Symbol(_) => panic!("expected a tuple of facts"),
    }
}

#[test]
fn crafting_example_contents() {
    let e = Engine::primitive_engine();
    let names: Vec<String> = e
        .all_possible_facts
        .iter()
        .map(|f| match f {
            CoreFact::Symbol(s) => s.clone(),
            CoreFact::Symbols(_) => panic!("expected plain symbols"),
        })
        .collect();
    assert_eq!(names, vec!["oak_planks", "oak_wood", "stick", "wooden_pickaxe"]);
    assert!(e.starting_facts.contains(1));
    assert!(!e.starting_facts.contains(0));
    assert_eq!(e.rules.len(), 3);
    assert_eq!(e.rules[0].reqs, vec![1]);
    assert_eq!(e.rules[0].out, 0);
    assert_eq!(e.rules[1].reqs, vec![0]);
    assert_eq!(e.rules[1].out, 2);
    assert_eq!(e.rules[2].reqs, vec![0, 2]);
    assert_eq!(e.rules[2].out, 3);
}

#[test]
fn reset_coloring_marks_start_and_target() {
    let e = Engine::primitive_engine();
    let c = e.recolor_node(Some(3));
    assert_eq!(c.facts[0], FactState::Unvisited);
    assert_eq!(c.facts[1], FactState::Starting);
    assert_eq!(c.facts[2], FactState::Unvisited);
    assert_eq!(c.facts[3], FactState::Target);
    assert_eq!(c.rules, vec![RuleState::Unvisited; 3]);
}

#[test]
fn reset_coloring_without_target() {
    let e = Engine::primitive_engine();
    let c = e.recolor_node(None);
    assert_eq!(c.facts[1], FactState::Starting);
    assert_eq!(c.facts[3], FactState::Unvisited);
}

#[test]
fn reset_coloring_target_overrides_starting() {
    let e = Engine::primitive_engine();
    let c = e.recolor_node(Some(1));
    assert_eq!(c.facts[1], FactState::Target);
}

#[test]
fn reset_coloring_is_idempotent() {
    let e = Engine::primitive_engine();
    let c1 = e.recolor_node(Some(3));
    let c2 = e.recolor_node(Some(3));
    assert_eq!(c1, c2);
}
