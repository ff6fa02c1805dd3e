//! Uniform-random scoring: exploration, diversity, and a fallback when no
//! graph data favors any peer.

use vstd::prelude::*;

use rand::Rng;

use crate::graph::Graph;
use crate::SCALE;

verus! {

/// Relies on `Rng::random_range`: a uniform draw from `0..=bound`.
#[verifier::external_body]
fn random_upto(bound: u64) -> (r: u64)
    ensures
        r <= bound,
{
    rand::rng().random_range(0..=bound)
}

/// A uniform random score in `[0, SCALE]` for every requested peer.
pub fn get_node_scores(_graph: &Graph, peers: &Vec<u64>) -> (r: Vec<u64>)
    ensures
        r@.len() == peers@.len(),
        forall|i: int| 0 <= i < r@.len() ==> (#[trigger] r@[i]) <= SCALE,
{
    let mut out: Vec<u64> = Vec::new();
    let mut i: usize = 0;
    while i < peers.len()
        invariant
            i <= peers@.len(),
            out@.len() == i,
            forall|t: int| 0 <= t < i ==> (#[trigger] out@[t]) <= SCALE,
        decreases peers@.len() - i,
    {
        out.push(random_upto(SCALE));
        i = i + 1;
    }
    out
}

} // verus!
