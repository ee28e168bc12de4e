//! Scores in ordered integer form, and the choices made from them.
//!
//! The numeric kernel produces single-precision scores; it hands each one in
//! as its IEEE 754 bit pattern. For every pattern that is not a NaN, the order
//! of the numbers is the order of their signed magnitudes (sign bit applied to
//! the other 31 bits), and `+0.0` and `-0.0` share the magnitude 0. A key is
//! that signed magnitude shifted into `u32`, so that comparing keys compares
//! the scores.
use vstd::prelude::*;
use crate::config::ALPHABET_SIZE;

verus! {

/// The bit that carries the sign of a single-precision number.
pub const SIGN_BIT: u32 = 0x8000_0000;

/// The signed magnitude of a single-precision bit pattern.
pub open spec fn signed_magnitude(bits: u32) -> int {
    if bits >= SIGN_BIT {
        -((bits - SIGN_BIT) as int)
    } else {
        bits as int
    }
}

/// The order key of a single-precision bit pattern.
pub open spec fn key_of(bits: u32) -> int {
    signed_magnitude(bits) + SIGN_BIT
}

/// Maps a bit pattern to its order key.
pub fn order_key(bits: u32) -> (r: u32)
    ensures
        r == key_of(bits),
{
    if bits >= SIGN_BIT {
        SIGN_BIT - (bits - SIGN_BIT)
    } else {
        SIGN_BIT + bits
    }
}

/// `i` is the first index that holds the largest key of `k`.
pub open spec fn is_first_max(k: Seq<u32>, i: int) -> bool {
    &&& 0 <= i < k.len()
    &&& forall|j: int| 0 <= j < k.len() ==> #[trigger] k[j] <= k[i]
    &&& forall|j: int| 0 <= j < i ==> #[trigger] k[j] < k[i]
}

/// The greedy choice is determined by the keys: a sequence of keys has one
/// first maximum at most.
pub proof fn lemma_first_max_unique(k: Seq<u32>, a: int, b: int)
    requires
        is_first_max(k, a),
        is_first_max(k, b),
    ensures
        a == b,
{
    if a < b {
        assert(k[a] < k[b]);
    } else if b < a {
        assert(k[b] < k[a]);
    }
}

/// The index of the largest of five keys; on a tie the lowest index wins.
pub fn first_max(keys: &[u32; 5]) -> (r: usize)
    ensures
        is_first_max(keys@, r as int),
{
    let mut top: usize = 0;
    let mut i: usize = 1;
    while i < ALPHABET_SIZE
        invariant
            1 <= i <= ALPHABET_SIZE,
            keys@.len() == ALPHABET_SIZE,
            top < i,
            forall|j: int| 0 <= j < i ==> #[trigger] keys@[j] <= keys@[top as int],
            forall|j: int| 0 <= j < top ==> #[trigger] keys@[j] < keys@[top as int],
        decreases ALPHABET_SIZE - i,
    {
        if keys[top] < keys[i] {
            top = i;
        }
        i = i + 1;
    }
    top
}

/// Whether a symbol with probability key `p` passes the cut at key `cut`:
/// the blank (symbol 0) must lie strictly above the cut, a base may equal it.
pub open spec fn passes_cut(symbol: int, p: u32, cut: u32) -> bool {
    if symbol == 0 {
        p > cut
    } else {
        p >= cut
    }
}

} // verus!
