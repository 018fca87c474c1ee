//! Conversion of nondeterministic finite automata (NFA) to deterministic
//! finite automata (DFA) by subset construction, together with a membership
//! test on the resulting DFA.
//!
//! The converter explores, with an explicit work list, every subset of NFA
//! states reachable from the start state, interning each subset in canonical
//! (sorted, duplicate-free) form; the index in the interning table is the
//! identity of the corresponding DFA state.  The conversion is proved to
//! produce a deterministic transition table whose accept/reject behaviour
//! agrees with a direct set-based simulation of the NFA.

pub mod convert;
pub mod dfa;
pub mod nfa;
pub mod node;

pub use dfa::DFA;
pub use nfa::NFA;
pub use node::Node;
