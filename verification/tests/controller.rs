use fiber_autopilot::agent::{get_min_funding_amount, Agent, AgentError};
use fiber_autopilot::config::{
    AgentConfig, ExternalPeer, Heuristic, HeuristicConfig, HeuristicItem, TokenType,
};
use fiber_autopilot::graph::{ChannelInfo, Graph, LocalChannel, NodeRecord, UdtCfgInfo};
use fiber_autopilot::SCALE;

fn node(id: u64, addrs: Vec<u64>, min_ckb: u64) -> NodeRecord {
    NodeRecord {
        node_id: id,
        node_name: String::new(),
        timestamp: 0,
        addresses: addrs,
        auto_accept_min_ckb_funding_amount: min_ckb,
        udt_cfg_infos: Vec::new(),
    }
}

fn local(peer: u64, script: Option<u64>) -> LocalChannel {
    LocalChannel { peer_id: peer, channel_id: 0, local_balance: 0, funding_udt_type_script: script }
}

fn config(min_chan_funds: u128, max_chan_funds: u128, max_pending: usize) -> AgentConfig {
    AgentConfig {
        token: TokenType::Ckb,
        external_nodes: Vec::new(),
        max_chan_num: 100,
        interval: 60,
        max_pending,
        min_chan_funds,
        max_chan_funds,
        heuristics: HeuristicConfig {
            heuristics: vec![HeuristicItem { heuristic: Heuristic::Richness, weight: SCALE }],
        },
    }
}

fn three_peer_graph() -> Graph {
    Graph::build(
        vec![node(1, vec![11], 0), node(2, vec![22], 0), node(3, vec![33], 0)],
        Vec::new(),
    )
}

#[test]
fn budget_funds_exactly_two_channels() {
    // available 100, min 30, max 40: 40 + 40 are granted, the remaining 20
    // is below the minimum, so the third candidate is discarded.
    let mut agent = Agent::new(0, config(30, 40, 10));
    let cmds = agent
        .open_channels(100, 10, &three_peer_graph(), &Vec::new())
        .expect("cycle succeeds");
    assert_eq!(cmds.len(), 2);
    for cmd in &cmds {
        assert_eq!(cmd.funds, 40);
        assert_eq!(cmd.udt_script, None);
        assert!(!cmd.addresses.is_empty());
    }
    assert_ne!(cmds[0].peer, cmds[1].peer);
    assert_eq!(agent.pending.len(), 2);
}

#[test]
fn insufficient_funds_fails_the_cycle() {
    let mut agent = Agent::new(0, config(30, 40, 10));
    let err = agent
        .open_channels(10, 10, &three_peer_graph(), &Vec::new())
        .expect_err("10 < 30");
    assert_eq!(err, AgentError::InsufficientFunds { available: 10, required: 30 });
}

#[test]
fn pending_peers_are_never_reselected() {
    let mut agent = Agent::new(0, config(30, 40, 10));
    let g = three_peer_graph();
    let first = agent.open_channels(100, 10, &g, &Vec::new()).expect("first cycle");
    let taken: Vec<u64> = first.iter().map(|c| c.peer).collect();
    assert_eq!(taken.len(), 2);
    // Next cycle: both funded peers are still pending and must not come up
    // again; only the remaining third peer is eligible.
    let second = agent.open_channels(100, 10, &g, &Vec::new()).expect("second cycle");
    assert_eq!(second.len(), 1);
    assert!(!taken.contains(&second[0].peer));
    assert_eq!(agent.pending.len(), 3);
}

#[test]
fn failed_open_frees_the_peer() {
    let mut agent = Agent::new(0, config(30, 40, 10));
    let g = three_peer_graph();
    let cmds = agent.open_channels(100, 10, &g, &Vec::new()).expect("cycle");
    let failed = cmds[0].peer;
    let kept = cmds[1].peer;
    agent.resolve_open(failed, false);
    agent.resolve_open(kept, true);
    assert!(!agent.pending.contains(&failed));
    assert!(agent.pending.contains(&kept));
}

#[test]
fn local_channel_confirms_pending_peer() {
    let mut agent = Agent::new(0, config(30, 40, 10));
    let g = three_peer_graph();
    let cmds = agent.open_channels(100, 10, &g, &Vec::new()).expect("cycle");
    let confirmed = cmds[0].peer;
    // The next cycle's local listing shows the channel: the peer leaves the
    // pending set and, holding a same-asset channel, is not selected again.
    let locals = vec![local(confirmed, None)];
    let next = agent.open_channels(100, 10, &g, &locals).expect("cycle");
    assert!(!agent.pending.contains(&confirmed));
    assert!(next.iter().all(|c| c.peer != confirmed));
}

#[test]
fn max_pending_stops_new_opens() {
    let mut agent = Agent::new(0, config(30, 40, 2));
    let g = three_peer_graph();
    let first = agent.open_channels(1000, 10, &g, &Vec::new()).expect("cycle");
    assert_eq!(first.len(), 2);
    let second = agent.open_channels(1000, 10, &g, &Vec::new()).expect("cycle");
    assert_eq!(second.len(), 0);
}

#[test]
fn self_identity_is_ignored() {
    let mut agent = Agent::new(2, config(30, 40, 10));
    let g = three_peer_graph();
    let cmds = agent.open_channels(1000, 10, &g, &Vec::new()).expect("cycle");
    assert!(cmds.iter().all(|c| c.peer != 2));
    assert_eq!(cmds.len(), 2);
}

#[test]
fn nodes_without_addresses_are_skipped() {
    let g = Graph::build(vec![node(1, Vec::new(), 0), node(2, vec![22], 0)], Vec::new());
    let mut agent = Agent::new(0, config(30, 40, 10));
    let cmds = agent.open_channels(1000, 10, &g, &Vec::new()).expect("cycle");
    assert_eq!(cmds.len(), 1);
    assert_eq!(cmds[0].peer, 2);
}

#[test]
fn high_minimum_funding_is_skipped() {
    // Peer 1 insists on more than the per-channel cap of 40.
    let g = Graph::build(vec![node(1, vec![11], 50), node(2, vec![22], 40)], Vec::new());
    let mut agent = Agent::new(0, config(30, 40, 10));
    let cmds = agent.open_channels(1000, 10, &g, &Vec::new()).expect("cycle");
    assert_eq!(cmds.len(), 1);
    assert_eq!(cmds[0].peer, 2);
}

#[test]
fn external_peer_scores_full_and_wins() {
    let mut cfg = config(30, 40, 10);
    cfg.external_nodes = vec![ExternalPeer { addr: 777, peer: Some(99) }];
    let mut agent = Agent::new(0, cfg);
    // All graph candidates score 0 (no channels), the external peer scores
    // 1.0: with one slot it must be drawn.
    let cmds = agent.open_channels(40, 1, &three_peer_graph(), &Vec::new()).expect("cycle");
    assert_eq!(cmds.len(), 1);
    assert_eq!(cmds[0].peer, 99);
    assert_eq!(cmds[0].addresses, vec![777]);
}

#[test]
fn external_peer_without_identity_is_dropped() {
    let mut cfg = config(30, 40, 10);
    cfg.external_nodes = vec![ExternalPeer { addr: 777, peer: None }];
    let mut agent = Agent::new(0, cfg);
    let cmds = agent.open_channels(1000, 10, &three_peer_graph(), &Vec::new()).expect("cycle");
    assert!(cmds.iter().all(|c| c.peer != 99));
}

#[test]
fn degenerate_centrality_aborts_the_cycle() {
    let mut cfg = config(30, 40, 10);
    cfg.heuristics = HeuristicConfig {
        heuristics: vec![HeuristicItem { heuristic: Heuristic::Centrality, weight: SCALE }],
    };
    let mut agent = Agent::new(0, cfg);
    // No channels at all: every centrality is zero, min equals max.
    let err = agent
        .open_channels(1000, 10, &three_peer_graph(), &Vec::new())
        .expect_err("degenerate");
    assert_eq!(err, AgentError::DegenerateScores);
    assert_eq!(agent.pending.len(), 0);
}

#[test]
fn run_cycle_caps_slots_by_channel_budget() {
    let mut cfg = config(30, 40, 10);
    cfg.max_chan_num = 1;
    let mut agent = Agent::new(0, cfg);
    let nodes = vec![node(1, vec![11], 0), node(2, vec![22], 0), node(3, vec![33], 0)];
    let cmds = agent.run_cycle(nodes, Vec::new(), &Vec::new(), 1000).expect("cycle");
    assert_eq!(cmds.len(), 1);
}

#[test]
fn min_funding_native_asset() {
    let n = node(1, vec![11], 500);
    assert_eq!(get_min_funding_amount(&TokenType::Ckb, &n), Some(500));
}

#[test]
fn min_funding_token_lookup() {
    let mut n = node(1, vec![11], 500);
    n.udt_cfg_infos = vec![
        UdtCfgInfo { script: 7, auto_accept_amount: None },
        UdtCfgInfo { script: 9, auto_accept_amount: Some(123) },
        UdtCfgInfo { script: 7, auto_accept_amount: Some(456) },
    ];
    let token = TokenType::Udt { name: "tok".to_string(), script: 7 };
    // The first matching entry without an amount is passed over.
    assert_eq!(get_min_funding_amount(&token, &n), Some(456));
    let other = TokenType::Udt { name: "tok".to_string(), script: 8 };
    assert_eq!(get_min_funding_amount(&other, &n), None);
}

#[test]
fn token_matching_rules() {
    let ckb = TokenType::Ckb;
    let udt = TokenType::Udt { name: "tok".to_string(), script: 7 };
    assert!(ckb.is_token(None));
    assert!(!ckb.is_token(Some(7)));
    assert!(udt.is_token(Some(7)));
    assert!(!udt.is_token(Some(8)));
    assert!(!udt.is_token(None));
    assert_eq!(ckb.name(), "ckb");
    assert_eq!(udt.name(), "tok");
}

#[test]
fn same_token_rule_scopes_the_ignore_set() {
    // A local channel of a different asset type does not block the peer.
    let udt = TokenType::Udt { name: "tok".to_string(), script: 7 };
    let mut cfg = config(30, 40, 10);
    cfg.token = udt;
    let mut agent = Agent::new(0, cfg);
    let mut n1 = node(1, vec![11], 0);
    n1.udt_cfg_infos = vec![UdtCfgInfo { script: 7, auto_accept_amount: Some(1) }];
    let g = Graph::build(vec![n1], Vec::new());
    // Peer 1 has a native-asset channel, not a token one: still eligible.
    let locals = vec![local(1, None)];
    let cmds = agent.open_channels(1000, 10, &g, &locals).expect("cycle");
    assert_eq!(cmds.len(), 1);
    assert_eq!(cmds[0].peer, 1);
    assert_eq!(cmds[0].udt_script, Some(7));
}

#[test]
fn top_level_config_holds_endpoints() {
    let cfg = fiber_autopilot::config::Config {
        fiber: fiber_autopilot::config::FiberConfig { url: "http://127.0.0.1:8227".to_string() },
        ckb: fiber_autopilot::config::CkbConfig { url: "http://127.0.0.1:8114".to_string() },
        agents: vec![config(30, 40, 10)],
    };
    assert_eq!(cfg.fiber.url, "http://127.0.0.1:8227");
    assert_eq!(cfg.ckb.url, "http://127.0.0.1:8114");
    assert_eq!(cfg.agents.len(), 1);
}

#[test]
fn default_heuristics_single_centrality() {
    let d = HeuristicConfig::default();
    assert_eq!(d.heuristics.len(), 1);
    assert_eq!(d.heuristics[0].heuristic, Heuristic::Centrality);
    assert_eq!(d.heuristics[0].weight, SCALE);
}
