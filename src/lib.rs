//! A conflict-driven clause-learning (CDCL) satisfiability solver for
//! formulas in conjunctive normal form, with a DIMACS reader.
pub mod state;
pub mod node;
pub mod cnf;
pub mod solver;
pub mod parser;
