//! The capabilities the embedding program supplies to the engine.

use vstd::prelude::*;

use crate::syntax::Value;

verus! {

/// What the engine cannot do for itself and the host must provide:
/// IEEE-754 double arithmetic over bit patterns, and the append-only
/// sink that the `Print` builtin writes values to.
///
/// The engine moves numbers around as the bit patterns of doubles
/// (`f64::to_bits`); every arithmetic builtin hands the operand bits to
/// one of these methods and wraps the returned bits. No contract
/// constrains the results: the engine is verified for every behaviour
/// of the host, and what `2.0 + 3.0` is remains the host's business.
/// The `Mod` builtin forwards to `modulo`, so what a zero divisor
/// yields is also the host's policy (with hardware doubles, the IEEE
/// remainder rules make it NaN, a value, not an error).
pub trait Host {
    /// The sum of the doubles with bit patterns `a` and `b`, as bits.
    fn add(&mut self, a: u64, b: u64) -> u64;

    /// The product, as bits.
    fn mul(&mut self, a: u64, b: u64) -> u64;

    /// The remainder of `a` by `b`, as bits.
    fn modulo(&mut self, a: u64, b: u64) -> u64;

    /// `a` raised to `b`, as bits.
    fn pow(&mut self, a: u64, b: u64) -> u64;

    /// The square root of `a`, as bits; negative `a` yields NaN's bits,
    /// not an error.
    fn sqrt(&mut self, a: u64) -> u64;

    /// Whether the double `a` is at least the double `b`.
    fn gte(&mut self, a: u64, b: u64) -> bool;

    /// Whether the double `a` is below the double `b`.
    fn lt(&mut self, a: u64, b: u64) -> bool;

    /// Write one value to the sink, in whatever textual form the host
    /// chooses; `false` reports a sink failure, which the engine turns
    /// into a fatal error.
    fn emit(&mut self, v: &Value) -> bool;
}

} // verus!
