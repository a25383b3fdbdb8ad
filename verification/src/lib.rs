//! MinHash sketches of sets, and a banded locality-sensitive index over them.
//!
//! A [`MinHash`] summarises a set by a signature of fixed length; the share of
//! positions on which two signatures agree estimates the Jaccard similarity of
//! the two sets. A [`MinHashLsh`] cuts each signature into bands and files the
//! key of a sketch under every band, so that a query finds the keys that share
//! at least one band with it.
//!
//! Elements are hashed with the standard library's `DefaultHasher`, of which
//! the low 32 bits are kept. Thresholds, weights and errors are real numbers
//! and stay with the caller: the library takes what the caller found of them,
//! and the errors as integers of the same order.

pub mod band_table;
pub mod chain;
pub mod error;
pub mod key_table;
pub mod minhash;
pub mod minhash_lsh;
pub mod params;

pub use crate::band_table::HashValuePart;
pub use crate::error::MinHashingError;
pub use crate::minhash::{HashValues, JaccardEstimate, MinHash, MAX_HASH, MERSENNE_PRIME};
pub use crate::minhash_lsh::{MinHashLsh, Threshold, Weights};
pub use crate::params::{LshParams, NO_SCORE};
