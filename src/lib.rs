//! A regular-expression engine. A pattern is split into tokens, parsed into a
//! syntax tree, compiled into a Thompson automaton, and run against a whole input
//! line by tracking every active state at once.
//!
//! - `tokenizer`, `parser`: the front end and its grammar, stated over token sequences.
//! - `language`: the language of a syntax tree.
//! - `nfa`: the automaton, its construction and its simulation.
//! - `thompson`: the layout of a compiled automaton, and the proof that it accepts
//!   exactly the language of its tree.
//! - `simulation`: the proof that the simulation decides the automaton's paths.
//! - `concat`: the language of two automata joined one after the other.
//! - `laws`: general properties of compiled patterns.

pub mod tokenizer;
pub mod parser;
pub mod language;
pub mod nfa;
pub mod thompson;
pub mod simulation;
pub mod concat;
pub mod laws;
