use fiber_autopilot::graph::{ChannelInfo, Graph, NodeRecord, UdtCfgInfo};

fn node(id: u64, addrs: Vec<u64>) -> NodeRecord {
    NodeRecord {
        node_id: id,
        node_name: String::new(),
        timestamp: 0,
        addresses: addrs,
        auto_accept_min_ckb_funding_amount: 0,
        udt_cfg_infos: Vec::new(),
    }
}

fn chan(a: u64, b: u64, cap: u128) -> ChannelInfo {
    ChannelInfo {
        node1: a,
        node2: b,
        capacity: cap,
        created_timestamp: 0,
        udt_type_script: None,
    }
}

fn cfg(script: u64, amount: Option<u128>) -> UdtCfgInfo {
    UdtCfgInfo { script, auto_accept_amount: amount }
}

#[test]
fn build_empty_graph() {
    let g = Graph::build(Vec::new(), Vec::new());
    assert_eq!(g.nodes().len(), 0);
    assert_eq!(g.channels().len(), 0);
    assert_eq!(g.edges().len(), 0);
    assert_eq!(g.skipped_channels(), 0);
}

#[test]
fn build_skips_unknown_endpoints() {
    let nodes = vec![node(1, vec![10]), node(2, vec![20])];
    let channels = vec![chan(1, 2, 100), chan(1, 99, 100), chan(98, 97, 5)];
    let g = Graph::build(nodes, channels);
    // One skip per channel with an unknown endpoint, even if both are unknown.
    assert_eq!(g.skipped_channels(), 2);
    // A valid channel contributes exactly one adjacency entry per endpoint.
    let total: usize = g.edges().iter().map(|row| row.len()).sum();
    assert_eq!(total, 2);
    assert_eq!(g.edges()[0], vec![1usize]);
    assert_eq!(g.edges()[1], vec![0usize]);
    // Skipped channels stay in the channel list for capacity heuristics.
    assert_eq!(g.channels().len(), 3);
}

#[test]
fn build_adjacency_is_symmetric() {
    let nodes = vec![node(1, vec![]), node(2, vec![]), node(3, vec![])];
    let channels = vec![chan(1, 2, 1), chan(2, 3, 1), chan(1, 3, 1), chan(2, 1, 7)];
    let g = Graph::build(nodes, channels);
    assert_eq!(g.skipped_channels(), 0);
    let total: usize = g.edges().iter().map(|row| row.len()).sum();
    assert_eq!(total, 8);
    for (i, row) in g.edges().iter().enumerate() {
        for &j in row {
            assert!(g.edges()[j].contains(&i));
        }
    }
}

#[test]
fn build_self_loop_counts_twice() {
    let nodes = vec![node(1, vec![])];
    let channels = vec![chan(1, 1, 4)];
    let g = Graph::build(nodes, channels);
    assert_eq!(g.skipped_channels(), 0);
    assert_eq!(g.edges()[0], vec![0usize, 0usize]);
}

#[test]
fn duplicate_node_identity_last_wins() {
    // Two records share an identity: the channel resolves to the later one.
    let nodes = vec![node(5, vec![]), node(5, vec![]), node(6, vec![])];
    let channels = vec![chan(5, 6, 1)];
    let g = Graph::build(nodes, channels);
    assert_eq!(g.skipped_channels(), 0);
    assert_eq!(g.edges()[0].len(), 0);
    assert_eq!(g.edges()[1], vec![2usize]);
    assert_eq!(g.edges()[2], vec![1usize]);
}

#[test]
fn udt_cfg_holds_plain_fields() {
    let c = cfg(9, Some(1000));
    assert_eq!(c.script, 9);
    assert_eq!(c.auto_accept_amount, Some(1000));
}
