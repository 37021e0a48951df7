//! Parsing of Boolean satisfiability problems written in the DIMACS CNF format.
pub mod grammar;
pub mod dimacs;
pub mod locality;
pub mod laws;
