use vstd::prelude::*;

verus! {

/// A grounded derivation: one rule application whose sources are, for each
/// requirement, either a basic fact or a further derivation.
#[derive(Debug)]
pub struct RuleTree {
    pub sources: Vec<Source>,
    pub rule: usize,
}

/// One source feeding a derivation: a fact taken as given, or the output
/// of a nested rule application.
#[derive(Debug)]
pub enum Source {
    Rule(Box<RuleTree>),
    BasicFact(usize),
}

} // verus!
