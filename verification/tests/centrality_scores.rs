use fiber_autopilot::centrality::{centrality, BetweennessCentrality, CentralityError};
use fiber_autopilot::graph::{ChannelInfo, Graph, NodeRecord};
use fiber_autopilot::SCALE;

fn node(id: u64) -> NodeRecord {
    NodeRecord {
        node_id: id,
        node_name: String::new(),
        timestamp: 0,
        addresses: vec![1],
        auto_accept_min_ckb_funding_amount: 0,
        udt_cfg_infos: Vec::new(),
    }
}

fn chan(a: u64, b: u64) -> ChannelInfo {
    ChannelInfo {
        node1: a,
        node2: b,
        capacity: 1,
        created_timestamp: 0,
        udt_type_script: None,
    }
}

fn path_graph() -> Graph {
    // 1 - 2 - 3: only the middle node lies on a shortest path.
    Graph::build(vec![node(1), node(2), node(3)], vec![chan(1, 2), chan(2, 3)])
}

#[test]
fn path_graph_normalized_extremes() {
    let bc = BetweennessCentrality::build(&path_graph());
    let scores = bc.get(true).expect("normalizable");
    // The middle node carries all shortest paths, the leaves none: the
    // normalized output attains 0 and SCALE.
    assert_eq!(scores, vec![0u128, SCALE as u128, 0u128]);
}

#[test]
fn raw_values_halve_double_counting() {
    let bc = BetweennessCentrality::build(&path_graph());
    let raw = bc.get(false).expect("raw values");
    // The one dependent pair is seen from both endpoints and halved back.
    assert_eq!(raw, vec![0u128, SCALE as u128, 0u128]);
}

#[test]
fn single_node_is_degenerate() {
    let bc = BetweennessCentrality::build(&Graph::build(vec![node(1)], Vec::new()));
    assert_eq!(bc.get(true), Err(CentralityError::Degenerate));
}

#[test]
fn no_edges_is_degenerate() {
    let g = Graph::build(vec![node(1), node(2), node(3)], Vec::new());
    let bc = BetweennessCentrality::build(&g);
    assert_eq!(bc.get(true), Err(CentralityError::Degenerate));
}

#[test]
fn two_nodes_one_edge_is_degenerate() {
    // No node lies between any pair, so all centralities are equal and
    // normalization has nothing to stretch.
    let g = Graph::build(vec![node(1), node(2)], vec![chan(1, 2)]);
    let bc = BetweennessCentrality::build(&g);
    assert_eq!(bc.get(true), Err(CentralityError::Degenerate));
}

#[test]
fn degenerate_only_when_normalizing() {
    let g = Graph::build(vec![node(1), node(2)], vec![chan(1, 2)]);
    let bc = BetweennessCentrality::build(&g);
    assert_eq!(bc.get(false), Ok(vec![0u128, 0u128]));
}

#[test]
fn from_partials_checks_lengths() {
    let short = vec![vec![0u128; 2], vec![0u128; 3], vec![0u128; 3]];
    assert_eq!(
        BetweennessCentrality::from_partials(3, &short).err(),
        Some(CentralityError::PartialLength)
    );
}

#[test]
fn from_partials_matches_sequential_build() {
    let g = path_graph();
    let n = g.nodes().len();
    let mut partials = Vec::new();
    for s in 0..n {
        partials.push(centrality(n, g.edges(), s));
    }
    let bc = BetweennessCentrality::from_partials(n, &partials).expect("lengths match");
    let seq_bc = BetweennessCentrality::build(&g);
    assert_eq!(bc.get(true), seq_bc.get(true));
}

#[test]
fn single_source_excludes_the_source() {
    let g = path_graph();
    for s in 0..3 {
        let part = centrality(3, g.edges(), s);
        assert_eq!(part.len(), 3);
        assert_eq!(part[s], 0);
    }
}

#[test]
fn star_graph_center_dominates() {
    // 1 is the hub of 2, 3, 4: every pair of leaves routes through it.
    let g = Graph::build(
        vec![node(1), node(2), node(3), node(4)],
        vec![chan(1, 2), chan(1, 3), chan(1, 4)],
    );
    let bc = BetweennessCentrality::build(&g);
    let scores = bc.get(true).expect("normalizable");
    assert_eq!(scores[0], SCALE as u128);
    assert_eq!(&scores[1..], &[0u128, 0u128, 0u128]);
}

#[test]
fn scorer_requires_peers_from_the_graph() {
    let g = path_graph();
    let scores = fiber_autopilot::centrality::get_node_scores(&g, &vec![2, 1]).expect("scores");
    assert_eq!(scores, vec![SCALE, 0]);
}
