//! Discrete core of a context-conditioned beam-search decoder that turns
//! per-timestep feature vectors into symbols over the alphabet
//! {blank, A, C, G, T}.
//!
//! The numeric kernel (projection and normalisation in single precision)
//! lives outside this crate. What it hands in are scores and masses in their
//! ordered integer form (see [`order`]); what this crate decides from them is
//! verified:
//! - [`context`]: the emitted-base bucket and base-4 context state of a path;
//! - [`tables`]: shape validation of the weight tables and row lookup;
//! - [`greedy`]: one best symbol per timestep;
//! - [`trellis`]: the append-only forest of partial base sequences;
//! - [`beam`]: cutting, expanding, merging and ranking beams, and the result;
//! - [`text`]: symbols and quality scores as characters.
use vstd::prelude::*;

pub mod config;
pub mod context;
pub mod tables;
pub mod order;
pub mod text;
pub mod greedy;
pub mod trellis;
pub mod beam;

verus! {

} // verus!
