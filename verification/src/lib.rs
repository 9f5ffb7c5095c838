//! A finite-automaton construction and execution engine for regular-language
//! fragments.
//!
//! Nondeterministic finite automata are built from primitive operators
//! (literal symbol, concatenation, alternation, repetition), executed against
//! input strings, flattened into transition tables, and converted into
//! equivalent deterministic automata by subset construction.
//!
//! States live in an arena (`Vec<State>`) owned by each automaton value and
//! refer to each other by index, so the cycles introduced by repetition are
//! ordinary index back-references.

pub mod dfa;
pub mod equiv;
pub mod lang;
pub mod laws;
pub mod nfa;
pub mod state;
