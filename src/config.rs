//! Dimensional constants of the decoder.
use vstd::prelude::*;

verus! {

/// Width of one input feature vector.
pub const HIDDEN: usize = 48;

/// Number of output symbols: blank followed by the four bases.
pub const ALPHABET_SIZE: usize = 5;

/// Number of non-blank symbols.
pub const BASES: usize = 4;

/// Number of distinct context states: the modulus of the state update.
pub const STATE_COUNT: usize = 1024;

/// Largest emitted-symbol count that has a bucket of its own.
pub const BUCKET_CAP: usize = 5;

/// The emitted-symbol count that stands for "more than `BUCKET_CAP`".
pub const OVERFLOW_BUCKET: usize = 6;

/// Number of weight tables: one per count `0..=BUCKET_CAP`, plus overflow.
pub const TABLE_COUNT: usize = 7;

/// Values in one table row: `HIDDEN * ALPHABET_SIZE` weights, then the biases.
pub const ROW_WIDTH: usize = HIDDEN * ALPHABET_SIZE + ALPHABET_SIZE;

/// Offset of the biases within a table row.
pub const BIAS_OFFSET: usize = HIDDEN * ALPHABET_SIZE;

} // verus!
