//! A stochastic, discrete-time, agent-based epidemic simulator on a
//! static three-layer contact graph (family, workplace, world), with
//! hospital capacity, non-pharmaceutical interventions, and
//! contact-tracing through a bounded, priority-layered test queue.
//!
//! Probabilities are fixed-point fractions of [`SCALE`]; randomness
//! enters only through one uniform draw on a seedable generator, so
//! every decision made on a draw is verified.

use vstd::prelude::*;

pub mod averager;
pub mod config;
pub mod chainset;
pub mod counter;
pub mod graph;
pub mod rng;
pub mod sample;
pub mod sim;
pub mod state;
pub mod testqueue;

verus! {

/// Probabilities are stored as fixed-point fractions of `SCALE`
/// (parts per billion).
pub const SCALE: u64 = 1_000_000_000;

/// Clamped lookup into a finite hazard profile: `v[i]` when `i` is in
/// range, else the last entry (profiles behave as constant tails).
pub fn sat_index(v: &Vec<u64>, i: usize) -> (r: u64)
    requires
        v@.len() > 0,
    ensures
        r == sat_index_spec(v@, i as int),
{
    if i < v.len() {
        v[i]
    } else {
        v[v.len() - 1]
    }
}

pub open spec fn sat_index_spec(v: Seq<u64>, i: int) -> u64 {
    if i < v.len() {
        v[i]
    } else {
        v[v.len() - 1]
    }
}

} // verus!
