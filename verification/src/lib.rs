//! A small algebra of nondeterministic finite-state transducers.
//!
//! Combinators build automata that emit output fragments while they consume
//! input symbols; the simulator runs a string through an automaton and
//! reports the output of every accepting path.
//!
//! The automaton and what it does:
//!
//! * `model` is the mathematical automaton and the constructions on it.
//! * `semantics` says what running an automaton on an input yields.
//! * `paths` says what an automaton accepts by its paths, and that a run
//!   yields just that.
//! * `text` is the listing of an automaton.
//! * `fst` is the executable automaton, proved against all of these.
//!
//! What holds of the constructions:
//!
//! * `language`, `labels`, `folds` and `repetition` say what each
//!   construction accepts in terms of what its operands accept.
//! * `settle` and `acyclic` are about automata without a cycle of epsilon
//!   edges, on which the epsilon closure is never cut short.
//! * `properties` gathers these for each construction.
//! * `laws` holds the identities of concatenation and alternation; `embed`
//!   and `sink` carry their proofs.

pub mod acyclic;
pub mod embed;
pub mod folds;
pub mod fst;
pub mod labels;
pub mod language;
pub mod laws;
pub mod model;
pub mod paths;
pub mod properties;
pub mod repetition;
pub mod semantics;
pub mod settle;
pub mod sink;
pub mod text;

pub use fst::FST;
