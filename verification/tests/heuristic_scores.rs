use fiber_autopilot::config::{Heuristic, HeuristicConfig, HeuristicItem};
use fiber_autopilot::graph::{ChannelInfo, Graph, NodeRecord};
use fiber_autopilot::heuristics::combine;
use fiber_autopilot::heuristics::random;
use fiber_autopilot::heuristics::richness;
use fiber_autopilot::SCALE;

fn node(id: u64) -> NodeRecord {
    NodeRecord {
        node_id: id,
        node_name: String::new(),
        timestamp: 0,
        addresses: vec![1],
        auto_accept_min_ckb_funding_amount: 0,
        udt_cfg_infos: Vec::new(),
    }
}

fn chan(a: u64, b: u64, cap: u128) -> ChannelInfo {
    ChannelInfo {
        node1: a,
        node2: b,
        capacity: cap,
        created_timestamp: 0,
        udt_type_script: None,
    }
}

fn richness_graph() -> Graph {
    // Capacities [10, 10, 10, 100]: median 10, small-capacity floor 10/4.
    Graph::build(
        vec![node(1), node(2), node(3), node(4), node(5)],
        vec![chan(1, 2, 10), chan(1, 3, 10), chan(2, 3, 10), chan(3, 4, 100)],
    )
}

#[test]
fn richness_two_good_channels_score_full() {
    let g = richness_graph();
    // Peer 1 has two channels at the median and none below the floor; peer
    // 5 has no channels at all.
    let scores = richness::get_node_scores(&g, &vec![1, 5]);
    assert_eq!(scores, vec![SCALE, 0]);
}

#[test]
fn richness_below_floor_counts_negative() {
    // Capacities [1, 100, 100, 100]: median 100, floor 25; the 1-capacity
    // channel drags peer 1 below peer 2.
    let g = Graph::build(
        vec![node(1), node(2), node(3), node(4)],
        vec![chan(1, 2, 100), chan(1, 3, 1), chan(2, 4, 100), chan(3, 4, 100)],
    );
    let scores = richness::get_node_scores(&g, &vec![1, 2]);
    // Peer 1: one channel above, one below, net 0, scores 0; peer 2: two
    // above, net 2, the maximum.
    assert_eq!(scores, vec![0, SCALE]);
}

#[test]
fn richness_no_channels_all_zero() {
    let g = Graph::build(vec![node(1), node(2)], Vec::new());
    let scores = richness::get_node_scores(&g, &vec![1, 2]);
    assert_eq!(scores, vec![0, 0]);
}

#[test]
fn random_scores_in_range() {
    let g = Graph::build(vec![node(1), node(2), node(3)], Vec::new());
    let scores = random::get_node_scores(&g, &vec![1, 2, 3]);
    assert_eq!(scores.len(), 3);
    for s in scores {
        assert!(s <= SCALE);
    }
}

#[test]
fn combine_single_full_weight_is_identity() {
    let weights = vec![SCALE];
    let subs = vec![vec![0u64, 123_456, SCALE]];
    let out = combine::combine_scores(&weights, &subs, 3);
    assert_eq!(out, subs[0]);
}

#[test]
fn combine_single_full_weight_matches_richness() {
    let g = richness_graph();
    let cfg = HeuristicConfig {
        heuristics: vec![HeuristicItem { heuristic: Heuristic::Richness, weight: SCALE }],
    };
    let combined = combine::get_node_scores(&cfg, &g, &vec![1, 5]).expect("deterministic");
    let direct = richness::get_node_scores(&g, &vec![1, 5]);
    assert_eq!(combined, direct);
}

#[test]
fn combine_half_weights_average() {
    let weights = vec![SCALE / 2, SCALE / 2];
    let subs = vec![vec![SCALE, 0], vec![0u64, SCALE]];
    let out = combine::combine_scores(&weights, &subs, 2);
    assert_eq!(out, vec![SCALE / 2, SCALE / 2]);
}

#[test]
fn combine_weights_are_not_renormalized() {
    // A misconfigured total (2.0 instead of 1.0) is used as given.
    let weights = vec![SCALE, SCALE];
    let subs = vec![vec![100u64], vec![200u64]];
    let out = combine::combine_scores(&weights, &subs, 1);
    assert_eq!(out, vec![300]);
}

#[test]
fn combiner_without_centrality_tolerates_degenerate_graph() {
    // A channel-less graph has all-equal centrality, but a configuration
    // without the centrality heuristic never computes it.
    let g = Graph::build(vec![node(1), node(2)], Vec::new());
    let cfg = HeuristicConfig {
        heuristics: vec![HeuristicItem { heuristic: Heuristic::Richness, weight: SCALE }],
    };
    assert!(combine::get_node_scores(&cfg, &g, &vec![1, 2]).is_ok());
}

#[test]
fn combiner_with_centrality_reports_degenerate_graph() {
    let g = Graph::build(vec![node(1), node(2)], Vec::new());
    let cfg = HeuristicConfig {
        heuristics: vec![HeuristicItem { heuristic: Heuristic::Centrality, weight: SCALE }],
    };
    assert!(combine::get_node_scores(&cfg, &g, &vec![1, 2]).is_err());
}

#[test]
fn combine_empty_heuristics_zero() {
    let out = combine::combine_scores(&Vec::new(), &Vec::new(), 2);
    assert_eq!(out, vec![0, 0]);
}
