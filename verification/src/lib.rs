//! A small regular-expression engine. An infix pattern over alphanumeric
//! literals, concatenation, alternation (`|`), repetition (`*`, `+`, `?`)
//! and grouping parentheses is rewritten to postfix form, compiled into a
//! nondeterministic finite automaton by Thompson's construction, and
//! matched against input strings by epsilon-closure simulation.

pub mod laws;
pub mod model;
pub mod nfa;
