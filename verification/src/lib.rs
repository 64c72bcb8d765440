//! Finite automata over string-labelled states: nondeterministic word
//! acceptance and subset-construction determinization, with machine-checked
//! contracts.

pub mod model;
pub mod names;
pub mod label;
pub mod automata;
pub mod determinize;
pub mod laws;
