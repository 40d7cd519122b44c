//! An embedded vector-similarity store.
//!
//! The crate keeps a registry of named, dimension-typed collections of
//! fixed-point vector records and answers nearest-neighbour queries over
//! them.  Vector components are signed 16-bit fixed-point values (the caller
//! picks the scale); every score the store hands back is computed in exact
//! integer arithmetic, so queries are deterministic and fully specified.
//!
//! The state of the whole registry can be serialized to a byte buffer and
//! restored losslessly across process restarts.

use vstd::prelude::*;

pub mod codec;
pub mod collection;
pub mod db;
pub mod embedding;
pub mod error;
pub mod index;
pub mod similarity;
pub mod users;

verus! {

/// Largest collection dimension the store accepts.
///
/// The cap guarantees that every intermediate value of the exact integer
/// scoring pipeline (dot products, squared norms, and the scaled cosine
/// numerator) stays inside the machine types used to compute it.
pub const MAX_DIMENSION: usize = 8192;

} // verus!
