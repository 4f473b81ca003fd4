//! Matches an unlabeled bag of numeric values against a corpus of known
//! numeric distributions, each distribution being the values that one
//! (type, property) pair takes across a knowledge base, and ranks the corpus
//! by the two-sample Kolmogorov-Smirnov (KS) distance.
//!
//! Numeric values are carried as `i64` keys; callers that start from
//! floating-point data map each number to a key through an order- and
//! equality-preserving encoding before handing it to this library, so the
//! KS statistic, which only reads order and equality, is unaffected.

pub mod codec;
pub mod delim;
pub mod index;
pub mod ingest;
pub mod ks;
pub mod numfmt;
pub mod rank;
pub mod strutil;

use vstd::prelude::*;

verus! {

/// Errors reported by the matching library.
#[derive(Clone, Copy, Debug, PartialEq, Eq, Structural)]
pub enum Error {
    /// A sample handed to the KS engine was empty.
    EmptySample,
    /// A persisted record could not be decoded; holds the offending line index.
    BadRecord(usize),
    /// A comparison pattern lacks the `:` separator.
    BadPattern,
}

} // verus!
