//! A DPLL solver for propositional formulas in conjunctive normal form.
//!
//! The heart of the crate is an incremental CNF engine ([`expression::Expression`])
//! whose destructive mutations are recorded on an action log so that branching
//! decisions can be rolled back, and a recursive DPLL driver
//! ([`dpll::solve_dpll`]) built on top of it. The driver is proved sound and
//! complete: it returns an assignment satisfying the formula exactly when the
//! formula is satisfiable. [`dimacs_parser::parse_dimacs`] reads the DIMACS
//! CNF format from bytes, and [`solver::solve`] ties parsing output, search
//! and the independent assignment verifier together.

pub mod assignment;
pub mod cnf;
pub mod dimacs_parser;
pub mod dpll;
pub mod expression;
pub mod solver;
pub mod stack;
