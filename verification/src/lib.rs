//! A hybrid search memory: short text records stored under caller
//! chosen keys and recalled by free-form queries, ranking a lexical
//! token-match signal and a dense-vector cosine signal fused with
//! configurable weights. The engine owns the record table, a bounded
//! embedding cache with least-recently-used eviction, and the ranking
//! pipeline; embedding vectors themselves are computed outside and
//! handed in as values.
//!
//! Real-valued quantities — similarity scores, fusion weights, vector
//! components — are fixed-point integers counted in millionths of a
//! unit ([`SCALE`]), which keeps every ranking rule inside provable
//! integer arithmetic.

use vstd::prelude::*;

pub mod embed;
pub mod engine;
pub mod fusion;
pub mod hash;
pub mod manager;
pub mod sandbox;
pub mod text;
pub mod vector;

verus! {

/// Number of fixed-point units that stand for the real value 1.0.
/// Scores and vector components throughout the crate are integers
/// counted in millionths.
pub const SCALE: u64 = 1_000_000;

} // verus!
