//! Multi-pattern keyword matching with boolean term formulas.
//!
//! A pattern is a conjunction of required terms, optionally followed by
//! clauses whose joint presence disqualifies it. All terms of all patterns are
//! indexed by one automaton, a text is scanned once, and every pattern is then
//! judged against the set of terms that the scan observed.

pub mod automaton;
pub mod error;
pub mod evaluator;
pub mod laws;
pub mod matcher;
pub mod observed;
pub mod parallel;
pub mod pattern;
pub mod text;
pub mod textset;

pub use error::MatcherError;
pub use automaton::TermAutomaton;
pub use evaluator::evaluate;
pub use matcher::AhoMatcher;
pub use observed::ObservedTerms;
pub use pattern::{compile, Pattern};
