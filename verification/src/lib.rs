//! A small CDCL SAT solver with a DIMACS reader.
pub mod lit;
pub mod assignment;
pub mod variables;
pub mod clause_db;
pub mod watchers;
pub mod analysis;
pub mod conflict;
pub mod solver;
pub mod progress;
pub mod text;
pub mod semantics;
pub mod dimacs_parser;

pub use solver::{to_lits, ClauseDb, Lit, SolveResult, Solver};
