//! Arithmetic coding over exact fractions.
//!
//! A `Model` assigns each symbol of a finite alphabet a sub-interval of the
//! unit interval, proportional to its probability; `encode` narrows the unit
//! interval along a symbol sequence, and `decode` recovers the sequence from
//! the resulting interval by greedy containment search.  All interval
//! arithmetic is exact: probabilities are weights counted in units of
//! `1/unit`, and interval bounds are integer numerators over powers of
//! `unit`, so the narrowing and its inverse are verified to be exact
//! inverses of each other.

pub mod model;
pub mod interval;
pub mod codec;
pub mod greedy;
pub mod laws;

pub use codec::{decode, encode, Fraction, UnknownSymbolError};
pub use model::{Model, ModelError, Probability, Range, SymbolEntry};
