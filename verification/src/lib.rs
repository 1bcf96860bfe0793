//! A streaming profiler for SMT solver instantiation traces.
//!
//! The library ingests a line-oriented instrumentation trace emitted by a
//! solver during quantifier-heavy proof search and reconstructs a causal
//! dependency graph over quantifier instantiations, attributing a relative
//! cost weight to every instantiation and quantifier.
//!
//! The trace is consumed one record at a time (`runner`), dispatching on
//! the record tag into the handlers that build terms and quantifiers
//! (`construct`), record justification steps and produced terms
//! (`matching`), and drive the two-phase instantiation life cycle
//! (`firing`). Entities live in identifier-keyed stores (`ident`, `store`,
//! `tables`, `items`). After a parse, `costs` attributes an exact rational
//! weight (`rational`) backwards over the dependency graph, `graph` ranks
//! and restricts the result, `eqchain` reconstructs equality-justification
//! chains, and `laws` states the library's standing guarantees.

pub mod construct;
pub mod continue_agent;
pub mod costs;
pub mod eqchain;
pub mod firing;
pub mod graph;
pub mod ident;
pub mod items;
pub mod laws;
pub mod matching;
pub mod parser;
pub mod pretty;
pub mod rational;
pub mod render;
pub mod runner;
pub mod store;
pub mod tables;
pub mod text;
pub mod varnames;
