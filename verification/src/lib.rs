//! Finite-state acceptors: regular expressions and declarative automaton
//! descriptions are lowered to a nondeterministic automaton, determinized by
//! the subset construction, and run as a dense transition table.

pub mod charset;
pub mod determinism;
pub mod determinize;
pub mod dfa;
pub mod dot_generator;
pub mod error;
pub mod indexing;
pub mod language;
pub mod nfa;
pub mod parser;
pub mod regex_parser;
pub mod stateset;
pub mod symbols;
pub mod table;
pub mod text;
pub mod thompson;
