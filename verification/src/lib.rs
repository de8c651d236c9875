//! A verified compiler from textual regular-expression patterns to
//! nondeterministic finite automata (NFAs).
//!
//! The pipeline has three stages, each the sole consumer of the previous
//! one's output:
//!
//! * [`regex::regex_lexer`] turns pattern text into a flat token sequence,
//! * [`regex::regex_parser`] turns the token sequence into a [`regex::Regex`]
//!   syntax tree, encoding the usual operator precedence, and
//! * [`nfa`] compiles a syntax tree into an automaton fragment by
//!   Thompson's construction.
//!
//! Automaton states live in an arena ([`nfa::NFA::states`]) and are
//! addressed by stable indices ([`nfa::state::StatePtr`]), so the cyclic
//! transition graph needs no shared-ownership cells and state identity is
//! index equality.

pub mod nfa;
pub mod regex;
