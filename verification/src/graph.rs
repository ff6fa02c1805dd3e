//! Per-cycle snapshot of the network topology: node records, channel edges,
//! and the derived adjacency lists.
//!
//! A channel whose endpoints are both present in the node list contributes
//! one adjacency entry at each endpoint; a channel referencing an unknown
//! endpoint contributes none and is counted in `skipped_channels`.

use vstd::prelude::*;

verus! {

/// A token accepted by a node, with the minimum funding amount the node
/// auto-accepts for it, if advertised.
#[derive(Clone, Copy, Debug)]
pub struct UdtCfgInfo {
    pub script: u64,
    pub auto_accept_amount: Option<u128>,
}

/// One node of the network graph as reported by the data source.
#[derive(Clone, Debug)]
pub struct NodeRecord {
    /// Identity of the node.
    pub node_id: u64,
    /// Human label.
    pub node_name: String,
    /// When the node was last seen.
    pub timestamp: u64,
    /// Known network addresses.
    pub addresses: Vec<u64>,
    /// Minimum funding the node auto-accepts for native-asset channels.
    pub auto_accept_min_ckb_funding_amount: u64,
    /// Tokens the node accepts channels for.
    pub udt_cfg_infos: Vec<UdtCfgInfo>,
}

/// One channel of the network graph.
#[derive(Clone, Copy, Debug)]
pub struct ChannelInfo {
    pub node1: u64,
    pub node2: u64,
    pub capacity: u128,
    pub created_timestamp: u64,
    /// Token script of the channel's asset, `None` for the native asset.
    pub udt_type_script: Option<u64>,
}

/// A channel of the local node, as reported by the data source.
#[derive(Clone, Copy, Debug)]
pub struct LocalChannel {
    pub peer_id: u64,
    pub channel_id: u64,
    pub local_balance: u128,
    /// Token script the channel was funded with, `None` for the native asset.
    pub funding_udt_type_script: Option<u64>,
}

/// Index of the node with identity `id`; when several nodes carry the same
/// identity, the last one wins.
pub open spec fn node_idx(nodes: Seq<NodeRecord>, id: u64) -> Option<int>
    decreases nodes.len(),
{
    if nodes.len() == 0 {
        Option::None
    } else if nodes.last().node_id == id {
        Option::Some(nodes.len() - 1)
    } else {
        node_idx(nodes.drop_last(), id)
    }
}

pub proof fn lemma_node_idx(nodes: Seq<NodeRecord>, id: u64)
    ensures
        match node_idx(nodes, id) {
            Option::Some(i) => 0 <= i < nodes.len() && nodes[i].node_id == id,
            Option::None => forall|j: int|
                0 <= j < nodes.len() ==> (#[trigger] nodes[j]).node_id != id,
        },
    decreases nodes.len(),
{
    if nodes.len() > 0 && nodes.last().node_id != id {
        lemma_node_idx(nodes.drop_last(), id);
        if node_idx(nodes, id) is None {
            assert forall|j: int| 0 <= j < nodes.len() implies (#[trigger] nodes[j]).node_id != id by {
                if j < nodes.len() - 1 {
                    assert(nodes.drop_last()[j] == nodes[j]);
                }
            }
        }
    }
}

/// Exec lookup of a node index by identity.
pub fn find_node_idx(nodes: &Vec<NodeRecord>, id: u64) -> (r: Option<usize>)
    ensures
        match r {
            Option::Some(i) => node_idx(nodes@, id) == Option::Some(i as int),
            Option::None => node_idx(nodes@, id) is None,
        },
{
    let mut i: usize = nodes.len();
    proof {
        assert(nodes@.take(i as int) =~= nodes@);
    }
    while i > 0
        invariant
            i <= nodes@.len(),
            node_idx(nodes@, id) == node_idx(nodes@.take(i as int), id),
        decreases i,
    {
        i = i - 1;
        if nodes[i].node_id == id {
            proof {
                assert(nodes@.take(i as int + 1).last() == nodes@[i as int]);
            }
            return Some(i);
        }
        proof {
            assert(nodes@.take(i as int + 1).drop_last() =~= nodes@.take(i as int));
        }
    }
    proof {
        assert(nodes@.take(0) =~= Seq::<NodeRecord>::empty());
    }
    None
}

/// Whether both endpoints of `c` are present in the node list.
pub open spec fn channel_valid(nodes: Seq<NodeRecord>, c: ChannelInfo) -> bool {
    node_idx(nodes, c.node1) is Some && node_idx(nodes, c.node2) is Some
}

/// The endpoint indices of `c`, when both endpoints are known.
pub open spec fn resolved_endpoints(nodes: Seq<NodeRecord>, c: ChannelInfo) -> Option<(int, int)> {
    match (node_idx(nodes, c.node1), node_idx(nodes, c.node2)) {
        (Option::Some(a), Option::Some(b)) => Option::Some((a, b)),
        _ => Option::None,
    }
}

/// How many channels reference an unknown endpoint (each counted once).
pub open spec fn invalid_count(nodes: Seq<NodeRecord>, channels: Seq<ChannelInfo>) -> int
    decreases channels.len(),
{
    if channels.len() == 0 {
        0
    } else {
        invalid_count(nodes, channels.drop_last()) + if channel_valid(nodes, channels.last()) {
            0int
        } else {
            1int
        }
    }
}

pub proof fn lemma_invalid_count_bounds(nodes: Seq<NodeRecord>, channels: Seq<ChannelInfo>)
    ensures
        0 <= invalid_count(nodes, channels) <= channels.len(),
    decreases channels.len(),
{
    if channels.len() > 0 {
        lemma_invalid_count_bounds(nodes, channels.drop_last());
    }
}

/// Adjacency list of node index `i`: for every channel in order, first the
/// opposite endpoint seen from `node1`, then the one seen from `node2`.
pub open spec fn adj_of(nodes: Seq<NodeRecord>, channels: Seq<ChannelInfo>, i: int) -> Seq<usize>
    decreases channels.len(),
{
    if channels.len() == 0 {
        Seq::empty()
    } else {
        let prefix = adj_of(nodes, channels.drop_last(), i);
        match resolved_endpoints(nodes, channels.last()) {
            Option::Some(ab) => {
                let with1 = if ab.0 == i {
                    prefix.push(ab.1 as usize)
                } else {
                    prefix
                };
                if ab.1 == i {
                    with1.push(ab.0 as usize)
                } else {
                    with1
                }
            },
            Option::None => prefix,
        }
    }
}

/// Every adjacency entry is a valid node index.
pub proof fn lemma_adj_entries_bound(nodes: Seq<NodeRecord>, channels: Seq<ChannelInfo>, i: int)
    ensures
        forall|k: int|
            0 <= k < adj_of(nodes, channels, i).len() ==> (#[trigger] adj_of(nodes, channels, i)[k])
                < nodes.len(),
    decreases channels.len(),
{
    if channels.len() > 0 {
        lemma_adj_entries_bound(nodes, channels.drop_last(), i);
        let c = channels.last();
        lemma_node_idx(nodes, c.node1);
        lemma_node_idx(nodes, c.node2);
        let prefix = adj_of(nodes, channels.drop_last(), i);
        let whole = adj_of(nodes, channels, i);
        assert forall|k: int| 0 <= k < whole.len() implies (#[trigger] whole[k]) < nodes.len() by {
            if k < prefix.len() {
                assert(whole[k] == prefix[k]);
            } else {
                if resolved_endpoints(nodes, c) is Some {
                    let ab = resolved_endpoints(nodes, c)->0;
                    assert(0 <= ab.0 < nodes.len() && 0 <= ab.1 < nodes.len());
                    assert(whole[k] == ab.0 as usize || whole[k] == ab.1 as usize);
                }
            }
        }
    }
}

/// Every adjacency entry is below `n`.
pub open spec fn edges_in_bounds(edges: Seq<Vec<usize>>, n: int) -> bool {
    forall|v: int, k: int|
        0 <= v < edges.len() && 0 <= k < edges[v]@.len() ==> (#[trigger] edges[v]@[k] as int) < n
}

/// The adjacency lists as plain sequences.
pub open spec fn edge_views(edges: Seq<Vec<usize>>) -> Seq<Seq<usize>> {
    edges.map_values(|row: Vec<usize>| row@)
}

/// The adjacency lists a node/channel snapshot derives, as plain
/// sequences.
pub open spec fn adj_views(nodes: Seq<NodeRecord>, channels: Seq<ChannelInfo>) -> Seq<Seq<usize>> {
    Seq::new(nodes.len(), |i: int| adj_of(nodes, channels, i))
}

/// No adjacency entries at all.
pub open spec fn edges_all_empty(edges: Seq<Vec<usize>>) -> bool {
    forall|v: int| 0 <= v < edges.len() ==> (#[trigger] edges[v])@.len() == 0
}

/// Sum of the adjacency-list lengths of the node indices below `k`.
pub open spec fn adj_len_sum(nodes: Seq<NodeRecord>, channels: Seq<ChannelInfo>, k: int) -> int
    decreases k,
{
    if k <= 0 {
        0
    } else {
        adj_len_sum(nodes, channels, k - 1) + adj_of(nodes, channels, k - 1).len()
    }
}

proof fn lemma_adj_len_sum_empty(nodes: Seq<NodeRecord>, channels: Seq<ChannelInfo>, k: int)
    requires
        channels.len() == 0,
    ensures
        adj_len_sum(nodes, channels, k) == 0,
    decreases k,
{
    if k > 0 {
        lemma_adj_len_sum_empty(nodes, channels, k - 1);
    }
}

proof fn lemma_adj_len_sum_step(nodes: Seq<NodeRecord>, channels: Seq<ChannelInfo>, k: int)
    requires
        channels.len() > 0,
    ensures
        adj_len_sum(nodes, channels, k) == adj_len_sum(nodes, channels.drop_last(), k) + (
        match resolved_endpoints(nodes, channels.last()) {
            Option::Some(ab) => (if 0 <= ab.0 < k {
                1int
            } else {
                0int
            }) + (if 0 <= ab.1 < k {
                1int
            } else {
                0int
            }),
            Option::None => 0int,
        }),
    decreases k,
{
    if k > 0 {
        lemma_adj_len_sum_step(nodes, channels, k - 1);
    }
}

/// Total adjacency entries equal twice the number of channels with both
/// endpoints known.
pub proof fn lemma_total_adjacency(nodes: Seq<NodeRecord>, channels: Seq<ChannelInfo>)
    ensures
        adj_len_sum(nodes, channels, nodes.len() as int) == 2 * (channels.len() - invalid_count(
            nodes,
            channels,
        )),
    decreases channels.len(),
{
    if channels.len() == 0 {
        lemma_adj_len_sum_empty(nodes, channels, nodes.len() as int);
    } else {
        lemma_total_adjacency(nodes, channels.drop_last());
        lemma_adj_len_sum_step(nodes, channels, nodes.len() as int);
        let c = channels.last();
        lemma_node_idx(nodes, c.node1);
        lemma_node_idx(nodes, c.node2);
    }
}

/// Immutable per-cycle topology snapshot.
pub struct Graph {
    pub nodes: Vec<NodeRecord>,
    pub channels: Vec<ChannelInfo>,
    pub edges: Vec<Vec<usize>>,
    pub skipped_channels: usize,
}

impl Graph {
    /// The node list as reported by the data source.
    pub open spec fn spec_nodes(&self) -> Seq<NodeRecord> {
        self.nodes@
    }

    /// The channel list as reported by the data source.
    pub open spec fn spec_channels(&self) -> Seq<ChannelInfo> {
        self.channels@
    }

    /// The derived adjacency lists.
    pub open spec fn spec_edges(&self) -> Seq<Vec<usize>> {
        self.edges@
    }

    /// How many channels were skipped during adjacency construction.
    pub open spec fn spec_skipped(&self) -> int {
        self.skipped_channels as int
    }

    /// The adjacency lists are exactly the derived ones, every entry is a
    /// valid node index, and the skip counter counts the channels with an
    /// unknown endpoint.
    pub open spec fn wf(&self) -> bool {
        &&& self.edges@.len() == self.nodes@.len()
        &&& forall|i: int|
            0 <= i < self.edges@.len() ==> (#[trigger] self.edges@[i])@ == adj_of(
                self.nodes@,
                self.channels@,
                i,
            )
        &&& edges_in_bounds(self.edges@, self.nodes@.len() as int)
        &&& self.skipped_channels as int == invalid_count(self.nodes@, self.channels@)
    }

    /// Builds the snapshot: derives one adjacency list per node, skipping
    /// (and counting) every channel that references an unknown endpoint.
    /// Total over any input, including an empty node list.
    pub fn build(nodes: Vec<NodeRecord>, channels: Vec<ChannelInfo>) -> (g: Graph)
        ensures
            g.wf(),
            g.spec_nodes() == nodes@,
            g.spec_channels() == channels@,
    {
        let m = channels.len();
        // Resolve every channel's endpoints once.
        let mut resolved: Vec<Option<(usize, usize)>> = Vec::new();
        let mut skipped: usize = 0;
        let mut k: usize = 0;
        while k < m
            invariant
                m == channels@.len(),
                k <= m,
                resolved@.len() == k,
                forall|j: int|
                    0 <= j < k ==> ((#[trigger] resolved@[j]) is Some <==> resolved_endpoints(
                        nodes@,
                        channels@[j],
                    ) is Some),
                forall|j: int|
                    0 <= j < k && resolved@[j] is Some ==> resolved_endpoints(nodes@, channels@[j])
                        == Option::Some(
                        (((#[trigger] resolved@[j])->0).0 as int, (resolved@[j]->0).1 as int),
                    ),
                skipped <= k,
                skipped as int == invalid_count(nodes@, channels@.take(k as int)),
            decreases m - k,
        {
            let r1 = find_node_idx(&nodes, channels[k].node1);
            let r2 = find_node_idx(&nodes, channels[k].node2);
            proof {
                assert(channels@.take(k as int + 1).drop_last() =~= channels@.take(k as int));
                assert(channels@.take(k as int + 1).last() == channels@[k as int]);
            }
            match (r1, r2) {
                (Option::Some(a), Option::Some(b)) => {
                    resolved.push(Some((a, b)));
                },
                _ => {
                    resolved.push(None);
                    skipped = skipped + 1;
                },
            }
            k = k + 1;
        }
        proof {
            assert(channels@.take(m as int) =~= channels@);
            lemma_invalid_count_bounds(nodes@, channels@);
        }
        // Build one adjacency row per node.
        let n = nodes.len();
        let mut edges: Vec<Vec<usize>> = Vec::new();
        let mut i: usize = 0;
        while i < n
            invariant
                n == nodes@.len(),
                m == channels@.len(),
                i <= n,
                edges@.len() == i,
                resolved@.len() == m,
                forall|j: int|
                    0 <= j < m ==> ((#[trigger] resolved@[j]) is Some <==> resolved_endpoints(
                        nodes@,
                        channels@[j],
                    ) is Some),
                forall|j: int|
                    0 <= j < m && resolved@[j] is Some ==> resolved_endpoints(nodes@, channels@[j])
                        == Option::Some(
                        (((#[trigger] resolved@[j])->0).0 as int, (resolved@[j]->0).1 as int),
                    ),
                forall|v: int|
                    0 <= v < i ==> (#[trigger] edges@[v])@ == adj_of(nodes@, channels@, v),
            decreases n - i,
        {
            let mut row: Vec<usize> = Vec::new();
            let mut k: usize = 0;
            while k < m
                invariant
                    n == nodes@.len(),
                    m == channels@.len(),
                    i < n,
                    k <= m,
                    resolved@.len() == m,
                    forall|j: int|
                        0 <= j < m ==> ((#[trigger] resolved@[j]) is Some <==> resolved_endpoints(
                            nodes@,
                            channels@[j],
                        ) is Some),
                    forall|j: int|
                        0 <= j < m && resolved@[j] is Some ==> resolved_endpoints(
                            nodes@,
                            channels@[j],
                        ) == Option::Some(
                            (((#[trigger] resolved@[j])->0).0 as int, (resolved@[j]->0).1 as int),
                        ),
                    row@ == adj_of(nodes@, channels@.take(k as int), i as int),
                decreases m - k,
            {
                proof {
                    assert(channels@.take(k as int + 1).drop_last() =~= channels@.take(k as int));
                    assert(channels@.take(k as int + 1).last() == channels@[k as int]);
                }
                match resolved[k] {
                    Option::Some(ab) => {
                        if ab.0 == i {
                            row.push(ab.1);
                        }
                        if ab.1 == i {
                            row.push(ab.0);
                        }
                    },
                    Option::None => {},
                }
                k = k + 1;
            }
            proof {
                assert(channels@.take(m as int) =~= channels@);
            }
            edges.push(row);
            i = i + 1;
        }
        proof {
            assert forall|v: int, k: int|
                0 <= v < edges@.len() && 0 <= k < edges@[v]@.len() implies (
            #[trigger] edges@[v]@[k] as int) < nodes@.len() by {
                lemma_adj_entries_bound(nodes@, channels@, v);
            }
        }
        Graph { nodes, channels, edges, skipped_channels: skipped }
    }

    pub fn nodes(&self) -> (r: &Vec<NodeRecord>)
        ensures
            r@ == self.spec_nodes(),
    {
        &self.nodes
    }

    pub fn channels(&self) -> (r: &Vec<ChannelInfo>)
        ensures
            r@ == self.spec_channels(),
    {
        &self.channels
    }

    pub fn edges(&self) -> (r: &Vec<Vec<usize>>)
        ensures
            r@ == self.spec_edges(),
    {
        &self.edges
    }

    /// How many channels were skipped during adjacency construction.
    pub fn skipped_channels(&self) -> (r: usize)
        ensures
            r as int == self.spec_skipped(),
    {
        self.skipped_channels
    }
}

} // verus!
