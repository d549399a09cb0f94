//! The grammar model: symbols, alternatives, productions, rules, the
//! raw (parsed) and checked (validated) grammar forms, the reference
//! graph, and the per-derivation state.

pub mod alt;
pub mod checked;
pub mod graph;
pub mod rule;
pub mod production;
pub mod raw;
pub mod state;
pub mod symbol;
