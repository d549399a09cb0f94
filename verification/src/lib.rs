//! A BNF-based random string generator.
//!
//! The library parses an extended Backus-Naur Form grammar from text,
//! validates it (undefined references, invalid invoke-limit ranges,
//! duplicate rules, and — in strict mode — unreachable rules and trap
//! loops), and derives random strings or parse trees from it using
//! weighted alternation, per-alternative invoke limits, pattern-based
//! terminal synthesis, and typed non-terminals.

pub mod error;
pub mod generator;
pub mod grammar;
pub mod laws;
pub mod lexer;
pub mod parse_tree;
pub mod regex;
pub mod report;
pub mod rng;
pub mod service;
pub mod token;
pub mod span;

pub use error::{Error, Result};
pub use generator::{Generator, TreeGenerator};
pub use grammar::checked::CheckedGrammar;
pub use grammar::graph::GrammarGraph;
pub use grammar::raw::RawGrammar;
pub use grammar::raw::RawGrammar as Grammar;
pub use grammar::symbol::{NonTerminal, SymbolKind, Terminal, Ty};
pub use report::{Reporter, Style};


