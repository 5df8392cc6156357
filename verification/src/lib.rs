//! A small dataflow language: machines transforming infinite streams of
//! values, together with a pull-driven evaluation engine.
//!
//! `syntax` holds the abstract syntax (programs, machine definitions,
//! statements, streams, machines, builtin operators) and the runtime
//! `Value` type. `host` declares the capabilities the embedding program
//! must supply: numeric arithmetic over IEEE-754 bit patterns and the
//! sink that the `Print` builtin writes to. `node` defines the arena of
//! stream handles the engine evaluates, with its well-formedness
//! invariant; `semantics` gives the mathematical model of one pull;
//! `laws` proves the laws of the combinators over that model; `engine`
//! builds handles from the syntax and drives them tick by tick.

use vstd::prelude::*;

pub mod engine;
pub mod host;
pub mod laws;
pub mod node;
pub mod semantics;
pub mod syntax;

verus! {

} // verus!
