//! Weighted combination of the configured heuristics' scores.

use vstd::prelude::*;

use crate::centrality::{centrality_degenerate, centrality_scores_ok, CentralityError};
use crate::config::{Heuristic, HeuristicConfig, HeuristicItem};
use crate::graph::{node_idx, Graph};
use crate::heuristics::richness::richness_scores_ok;
use crate::{cap_add, spec_cap_add, SCALE};

verus! {

/// Clamp of a combined score into the weight range.
pub open spec fn to_u64_sat(x: u128) -> u64 {
    if x > u64::MAX {
        u64::MAX
    } else {
        x as u64
    }
}

/// Weighted sum of the per-heuristic scores of one peer, each term scaled
/// down by [`SCALE`] (a weight of `SCALE` stands for 1.0), accumulated with
/// capped addition.
pub open spec fn combined_score(weights: Seq<u64>, subs: Seq<Seq<u64>>, i: int) -> u128
    decreases weights.len(),
{
    if weights.len() == 0 {
        0
    } else {
        let term = (weights.last() as int) * (subs.last()[i] as int) / (SCALE as int);
        spec_cap_add(combined_score(weights.drop_last(), subs.drop_last(), i), term as u128)
    }
}

/// The configured weights, in configuration order.
pub open spec fn weights_of(items: Seq<HeuristicItem>) -> Seq<u64> {
    items.map_values(|it: HeuristicItem| it.weight)
}

/// Whether any configured heuristic is the centrality scorer.
pub open spec fn config_has_centrality(items: Seq<HeuristicItem>) -> bool {
    exists|j: int| 0 <= j < items.len() && (#[trigger] items[j]).heuristic == Heuristic::Centrality
}

/// What one heuristic's score vector satisfies: the random scorer promises
/// only the range, the other two their exact formulas.
pub open spec fn heuristic_scores_ok(
    h: Heuristic,
    graph: Graph,
    peers: Seq<u64>,
    scores: Seq<u64>,
) -> bool {
    &&& scores.len() == peers.len()
    &&& match h {
        Heuristic::Random => forall|i: int|
            0 <= i < scores.len() ==> (#[trigger] scores[i]) <= SCALE,
        Heuristic::Centrality => centrality_scores_ok(
            graph.spec_nodes(),
            graph.spec_channels(),
            peers,
            scores,
        ),
        Heuristic::Richness => richness_scores_ok(graph.spec_channels(), peers, scores),
    }
}

/// The combiner's result explained: one score vector per configured
/// heuristic, each within that heuristic's contract, and the output is
/// their weighted sum per peer.
pub open spec fn combined_from(
    config: HeuristicConfig,
    graph: Graph,
    peers: Seq<u64>,
    subs: Seq<Seq<u64>>,
    out: Seq<u64>,
) -> bool {
    &&& subs.len() == config.heuristics@.len()
    &&& forall|j: int|
        0 <= j < subs.len() ==> heuristic_scores_ok(
            config.heuristics@[j].heuristic,
            graph,
            peers,
            #[trigger] subs[j],
        )
    &&& out.len() == peers.len()
    &&& forall|i: int|
        0 <= i < out.len() ==> (#[trigger] out[i]) == to_u64_sat(
            combined_score(weights_of(config.heuristics@), subs, i),
        )
}

/// With a single configured heuristic at full weight, the combined score
/// equals that heuristic's score exactly.
pub proof fn lemma_single_full_weight(weights: Seq<u64>, subs: Seq<Seq<u64>>, i: int)
    requires
        weights.len() == 1,
        subs.len() == 1,
        weights[0] == SCALE,
        0 <= i < subs[0].len(),
    ensures
        to_u64_sat(combined_score(weights, subs, i)) == subs[0][i],
{
    let s = subs[0][i];
    assert(weights.last() == weights[0] && subs.last() == subs[0]);
    assert((SCALE as int) * (s as int) / (SCALE as int) == s as int) by {
        vstd::arithmetic::div_mod::lemma_div_by_multiple(s as int, SCALE as int);
        vstd::arithmetic::mul::lemma_mul_is_commutative(SCALE as int, s as int);
    }
    assert(combined_score(weights.drop_last(), subs.drop_last(), i) == 0);
}

/// Exec weighted sum: one combined score per peer slot.
pub fn combine_scores(weights: &Vec<u64>, subs: &Vec<Vec<u64>>, len: usize) -> (r: Vec<u64>)
    requires
        weights@.len() == subs@.len(),
        forall|j: int| 0 <= j < subs@.len() ==> (#[trigger] subs@[j])@.len() == len,
    ensures
        r@.len() == len,
        forall|i: int|
            0 <= i < len ==> (#[trigger] r@[i]) == to_u64_sat(
                combined_score(weights@, subs@.map_values(|v: Vec<u64>| v@), i),
            ),
{
    let ghost model = subs@.map_values(|v: Vec<u64>| v@);
    let k = weights.len();
    let mut out: Vec<u64> = Vec::new();
    let mut i: usize = 0;
    while i < len
        invariant
            k == weights@.len(),
            weights@.len() == subs@.len(),
            model == subs@.map_values(|v: Vec<u64>| v@),
            model.len() == k,
            forall|j: int| 0 <= j < subs@.len() ==> (#[trigger] subs@[j])@.len() == len,
            i <= len,
            out@.len() == i,
            forall|t: int|
                0 <= t < i ==> (#[trigger] out@[t]) == to_u64_sat(
                    combined_score(weights@, model, t),
                ),
        decreases len - i,
    {
        let mut acc: u128 = 0;
        let mut j: usize = 0;
        proof {
            assert(weights@.take(0) =~= Seq::<u64>::empty());
        }
        while j < k
            invariant
                k == weights@.len(),
                weights@.len() == subs@.len(),
                model == subs@.map_values(|v: Vec<u64>| v@),
                model.len() == k,
                forall|t: int| 0 <= t < subs@.len() ==> (#[trigger] subs@[t])@.len() == len,
                i < len,
                j <= k,
                acc == combined_score(weights@.take(j as int), model.take(j as int), i as int),
            decreases k - j,
        {
            proof {
                assert(weights@.take(j as int + 1).drop_last() =~= weights@.take(j as int));
                assert(model.take(j as int + 1).drop_last() =~= model.take(j as int));
                assert(weights@.take(j as int + 1).last() == weights@[j as int]);
                assert(model.take(j as int + 1).last() == model[j as int]);
                assert(model[j as int] == subs@[j as int]@);
                assert((weights@[j as int] as int) * (subs@[j as int]@[i as int] as int) <= (
                u64::MAX as int) * (u64::MAX as int)) by {
                    vstd::arithmetic::mul::lemma_mul_upper_bound(
                        weights@[j as int] as int,
                        u64::MAX as int,
                        subs@[j as int]@[i as int] as int,
                        u64::MAX as int,
                    );
                }
                vstd::arithmetic::mul::lemma_mul_nonnegative(
                    weights@[j as int] as int,
                    subs@[j as int]@[i as int] as int,
                );
                vstd::arithmetic::div_mod::lemma_div_nonincreasing(
                    (weights@[j as int] as int) * (subs@[j as int]@[i as int] as int),
                    SCALE as int,
                );
            }
            let w = weights[j];
            let s = subs[j][i];
            let term = (w as u128) * (s as u128) / (SCALE as u128);
            acc = cap_add(acc, term);
            j = j + 1;
        }
        proof {
            assert(weights@.take(k as int) =~= weights@);
            assert(model.take(k as int) =~= model);
        }
        let clamped: u64 = if acc > u64::MAX as u128 {
            u64::MAX
        } else {
            acc as u64
        };
        out.push(clamped);
        i = i + 1;
    }
    out
}

/// Scores every requested peer by each configured heuristic over the same
/// graph and returns the weighted sum per peer. Every requested peer gets
/// an entry. Fails exactly when a centrality heuristic is configured and
/// the graph's centrality distribution is degenerate, so the caller can
/// fall back or retry.
pub fn get_node_scores(config: &HeuristicConfig, graph: &Graph, peers: &Vec<u64>) -> (r: Result<
    Vec<u64>,
    CentralityError,
>)
    requires
        graph.wf(),
        forall|i: int|
            0 <= i < peers@.len() ==> node_idx(graph.spec_nodes(), #[trigger] peers@[i]) is Some,
    ensures
        r is Err <==> config_has_centrality(config.heuristics@) && centrality_degenerate(
            graph.spec_nodes(),
            graph.spec_channels(),
        ),
        (match r {
            Ok(v) => v@.len() == peers@.len() && exists|subs: Seq<Seq<u64>>|
                #[trigger] combined_from(*config, *graph, peers@, subs, v@),
            Err(e) => e == CentralityError::Degenerate,
        }),
{
    let ghost deg = centrality_degenerate(graph.spec_nodes(), graph.spec_channels());
    let k = config.heuristics.len();
    let mut weights: Vec<u64> = Vec::new();
    let mut subs: Vec<Vec<u64>> = Vec::new();
    let mut j: usize = 0;
    while j < k
        invariant
            k == config.heuristics@.len(),
            graph.wf(),
            deg == centrality_degenerate(graph.spec_nodes(), graph.spec_channels()),
            forall|i: int|
                0 <= i < peers@.len() ==> node_idx(graph.spec_nodes(), #[trigger] peers@[i]) is Some,
            j <= k,
            weights@.len() == j,
            subs@.len() == j,
            forall|t: int| 0 <= t < j ==> (#[trigger] subs@[t])@.len() == peers@.len(),
            forall|t: int| 0 <= t < j ==> weights@[t] == (#[trigger] config.heuristics@[t]).weight,
            forall|t: int|
                0 <= t < j ==> heuristic_scores_ok(
                    (#[trigger] config.heuristics@[t]).heuristic,
                    *graph,
                    peers@,
                    subs@[t]@,
                ),
            forall|t: int|
                0 <= t < j ==> !((#[trigger] config.heuristics@[t]).heuristic
                    == Heuristic::Centrality && deg),
        decreases k - j,
    {
        let item = config.heuristics[j];
        let scores = match item.heuristic {
            Heuristic::Centrality => {
                match crate::centrality::get_node_scores(graph, peers) {
                    Ok(v) => v,
                    Err(_) => {
                        proof {
                            assert((#[trigger] config.heuristics@[j as int]).heuristic
                                == Heuristic::Centrality);
                            assert(config_has_centrality(config.heuristics@));
                        }
                        return Err(CentralityError::Degenerate);
                    },
                }
            },
            Heuristic::Random => crate::heuristics::random::get_node_scores(graph, peers),
            Heuristic::Richness => crate::heuristics::richness::get_node_scores(graph, peers),
        };
        weights.push(item.weight);
        subs.push(scores);
        j = j + 1;
    }
    proof {
        if config_has_centrality(config.heuristics@) && deg {
            let t = choose|t: int|
                0 <= t < config.heuristics@.len() && (#[trigger] config.heuristics@[t]).heuristic
                    == Heuristic::Centrality;
            assert(false);
        }
    }
    let combined = combine_scores(&weights, &subs, peers.len());
    proof {
        let model = subs@.map_values(|v: Vec<u64>| v@);
        assert(weights@ =~= weights_of(config.heuristics@));
        assert forall|t: int|
            0 <= t < model.len() implies heuristic_scores_ok(
            config.heuristics@[t].heuristic,
            *graph,
            peers@,
            #[trigger] model[t],
        ) by {
            assert(model[t] == subs@[t]@);
        }
        assert(combined_from(*config, *graph, peers@, model, combined@));
    }
    Ok(combined)
}

} // verus!
