pub mod direct_reasoning;
pub mod engine;
pub mod fact;
pub mod idset;
pub mod reverse_reasoning;
pub mod ruletree;
