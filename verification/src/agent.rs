//! The autopilot controller: owns the per-peer pending state and the
//! funding budget for one asset type, and turns each cycle's topology
//! snapshot into funded channel-opening commands.
//!
//! The controller itself performs no I/O: the caller fetches the snapshot
//! and balance, executes the returned commands (connect, wait, open), and
//! reports each outcome back through [`Agent::resolve_open`].

use vstd::prelude::*;

use crate::config::{AgentConfig, TokenType};
use crate::graph::{node_idx, ChannelInfo, Graph, LocalChannel, NodeRecord, UdtCfgInfo};
use crate::centrality::centrality_degenerate;
use crate::heuristics::combine::config_has_centrality;
use crate::utils::{choice_n, sampled_from};
use crate::{min_u128, min_usize, spec_min128, SCALE};

verus! {

/// Hard cap on channels opened in one cycle, regardless of configuration.
pub const MAX_CHANNELS_PER_CYCLE: usize = 20;

/// Failure of one cycle; the caller logs it and retries next interval.
#[derive(Clone, Copy, Debug, PartialEq, Eq, Structural)]
pub enum AgentError {
    /// Spendable funds are below the configured per-channel minimum.
    InsufficientFunds { available: u128, required: u128 },
    /// Scoring failed on a degenerate centrality distribution.
    DegenerateScores,
}

/// A funded channel-opening command for one peer: the caller connects to
/// the first address, waits a grace period, then requests the open.
#[derive(Clone, Debug)]
pub struct OpenChannelCmd {
    pub peer: u64,
    pub funds: u128,
    /// Token script to fund with, `None` for the native asset.
    pub udt_script: Option<u64>,
    pub addresses: Vec<u64>,
}

/// Whether `p` is the peer of some local channel.
pub open spec fn is_local_peer(locals: Seq<LocalChannel>, p: u64) -> bool {
    exists|j: int| 0 <= j < locals.len() && (#[trigger] locals[j]).peer_id == p
}

/// Whether some local channel with peer `p` carries this asset type.
pub open spec fn has_same_token_channel(locals: Seq<LocalChannel>, token: TokenType, p: u64) -> bool {
    exists|j: int|
        0 <= j < locals.len() && (#[trigger] locals[j]).peer_id == p && token.matches_script(
            locals[j].funding_udt_type_script,
        )
}

/// The pending set after reconciliation: every pending peer that now has a
/// local channel is confirmed and leaves the set; order is kept.
pub open spec fn reconciled(pending: Seq<u64>, locals: Seq<LocalChannel>) -> Seq<u64>
    decreases pending.len(),
{
    if pending.len() == 0 {
        pending
    } else {
        let prefix = reconciled(pending.drop_last(), locals);
        if !is_local_peer(locals, pending.last()) {
            prefix.push(pending.last())
        } else {
            prefix
        }
    }
}

pub proof fn lemma_reconciled(pending: Seq<u64>, locals: Seq<LocalChannel>)
    ensures
        reconciled(pending, locals).len() <= pending.len(),
        forall|p: u64|
            #[trigger] reconciled(pending, locals).contains(p) ==> pending.contains(p)
                && !is_local_peer(locals, p),
        pending.no_duplicates() ==> reconciled(pending, locals).no_duplicates(),
    decreases pending.len(),
{
    if pending.len() > 0 {
        lemma_reconciled(pending.drop_last(), locals);
        let rec = reconciled(pending, locals);
        let prefix = reconciled(pending.drop_last(), locals);
        assert forall|p: u64| #[trigger] rec.contains(p) implies pending.contains(p)
            && !is_local_peer(locals, p) by {
            let i = choose|i: int| 0 <= i < rec.len() && rec[i] == p;
            if !is_local_peer(locals, pending.last()) && i == rec.len() - 1 {
                assert(p == pending.last());
                assert(pending[pending.len() - 1] == p);
            } else {
                assert(prefix[i] == p);
                assert(prefix.contains(p));
                let j = choose|j: int|
                    0 <= j < pending.drop_last().len() && pending.drop_last()[j] == p;
                assert(pending[j] == p);
            }
        }
        if pending.no_duplicates() {
            assert(pending.drop_last().no_duplicates()) by {
                assert forall|i: int, j: int|
                    0 <= i < pending.drop_last().len() && 0 <= j < pending.drop_last().len() && i
                        != j implies pending.drop_last()[i] != pending.drop_last()[j] by {
                    assert(pending[i] != pending[j]);
                }
            }
            if !is_local_peer(locals, pending.last()) {
                assert(!prefix.contains(pending.last())) by {
                    if prefix.contains(pending.last()) {
                        assert(pending.drop_last().contains(pending.last()));
                        let j = choose|j: int|
                            0 <= j < pending.drop_last().len() && pending.drop_last()[j]
                                == pending.last();
                        assert(pending[j] == pending[pending.len() - 1]);
                    }
                }
                assert forall|i: int, j: int|
                    0 <= i < rec.len() && 0 <= j < rec.len() && i != j implies rec[i] != rec[j] by {
                    if i < rec.len() - 1 && j < rec.len() - 1 {
                        assert(prefix[i] != prefix[j]);
                    } else if i == rec.len() - 1 && j < rec.len() - 1 {
                        assert(prefix[j] == rec[j]);
                        assert(prefix.contains(prefix[j]));
                    } else if j == rec.len() - 1 && i < rec.len() - 1 {
                        assert(prefix[i] == rec[i]);
                        assert(prefix.contains(prefix[i]));
                    }
                }
            }
        }
    }
}

/// Peers this agent will not open a channel with: itself, peers with an
/// existing local channel of the same asset type, and peers already
/// pending.
pub open spec fn spec_ignored(
    self_id: u64,
    token: TokenType,
    locals: Seq<LocalChannel>,
    pending: Seq<u64>,
    p: u64,
) -> bool {
    ||| p == self_id
    ||| pending.contains(p)
    ||| has_same_token_channel(locals, token, p)
}

/// First advertised amount for this token in the node's token list:
/// entries that match the token but advertise no amount are passed over.
pub open spec fn first_udt_amount(cfgs: Seq<UdtCfgInfo>, token: TokenType) -> Option<u128>
    decreases cfgs.len(),
{
    if cfgs.len() == 0 {
        Option::None
    } else if token.matches_script(Option::Some(cfgs[0].script)) && cfgs[0].auto_accept_amount
        is Some {
        cfgs[0].auto_accept_amount
    } else {
        first_udt_amount(cfgs.skip(1), token)
    }
}

/// Minimum funding amount `node` advertises for `token`, if any: the
/// native asset uses the node-level minimum; a token matches only nodes
/// listing that token's script with its own minimum.
pub open spec fn spec_min_funding(token: TokenType, node: NodeRecord) -> Option<u128> {
    match token {
        TokenType::Ckb => Option::Some(node.auto_accept_min_ckb_funding_amount as u128),
        TokenType::Udt { .. } => first_udt_amount(node.udt_cfg_infos@, token),
    }
}

/// Whether some graph node with identity `p` has a known address and
/// advertises a minimum funding amount within `funds_cap` for `token`.
pub open spec fn eligible_node(nodes: Seq<NodeRecord>, token: TokenType, funds_cap: u128, p: u64) -> bool {
    exists|t: int|
        0 <= t < nodes.len() && (#[trigger] nodes[t]).node_id == p && nodes[t].addresses@.len() > 0
            && (spec_min_funding(token, nodes[t]) matches Option::Some(a) && a <= funds_cap)
}

/// Whether `p` is a configured always-consider peer.
pub open spec fn is_external_peer(config: AgentConfig, p: u64) -> bool {
    exists|t: int|
        0 <= t < config.external_nodes@.len() && (#[trigger] config.external_nodes@[t]).peer
            == Option::Some(p)
}

/// Sum of the funds of the commands.
pub open spec fn sum_cmd_funds(cmds: Seq<OpenChannelCmd>) -> int
    decreases cmds.len(),
{
    if cmds.len() == 0 {
        0
    } else {
        sum_cmd_funds(cmds.drop_last()) + cmds.last().funds
    }
}

/// Sum of allocated amounts.
pub open spec fn sum_alloc(allocs: Seq<(u64, u128)>) -> int
    decreases allocs.len(),
{
    if allocs.len() == 0 {
        0
    } else {
        sum_alloc(allocs.drop_last()) + allocs.last().1
    }
}

/// Greedy allocation in selection order: each peer receives the lesser of
/// the remaining budget and `cap`; allocation stops for good the moment
/// that amount falls below `lo`, discarding the rest of the selection.
pub open spec fn alloc_spec(peers: Seq<u64>, available: u128, cap: u128, lo: u128) -> Seq<(u64, u128)>
    decreases peers.len(),
{
    if peers.len() == 0 {
        Seq::empty()
    } else {
        let f = spec_min128(available, cap);
        if f < lo {
            Seq::empty()
        } else {
            seq![(peers[0], f)] + alloc_spec(peers.skip(1), (available - f) as u128, cap, lo)
        }
    }
}

/// The peer of each scored item.
pub open spec fn item_peers(items: Seq<(u64, u64)>) -> Seq<u64> {
    items.map_values(|it: (u64, u64)| it.0)
}

/// The peer of each command.
pub open spec fn cmd_peers(cmds: Seq<OpenChannelCmd>) -> Seq<u64> {
    cmds.map_values(|c: OpenChannelCmd| c.peer)
}

/// Exec test for membership in a peer list.
fn contains_u64(v: &Vec<u64>, x: u64) -> (r: bool)
    ensures
        r == v@.contains(x),
{
    let mut i: usize = 0;
    while i < v.len()
        invariant
            i <= v@.len(),
            forall|j: int| 0 <= j < i ==> v@[j] != x,
        decreases v@.len() - i,
    {
        if v[i] == x {
            return true;
        }
        i = i + 1;
    }
    false
}

/// Exec search for a peer's slot.
fn find_u64_idx(v: &Vec<u64>, x: u64) -> (r: Option<usize>)
    ensures
        (match r {
            Option::Some(i) => i < v@.len() && v@[i as int] == x,
            Option::None => !v@.contains(x),
        }),
{
    let mut i: usize = 0;
    while i < v.len()
        invariant
            i <= v@.len(),
            forall|j: int| 0 <= j < i ==> v@[j] != x,
        decreases v@.len() - i,
    {
        if v[i] == x {
            return Some(i);
        }
        i = i + 1;
    }
    None
}

/// Exec copy of an address list.
fn copy_u64_vec(v: &Vec<u64>) -> (r: Vec<u64>)
    ensures
        r@ == v@,
{
    let mut out: Vec<u64> = Vec::new();
    let mut i: usize = 0;
    while i < v.len()
        invariant
            i <= v@.len(),
            out@ == v@.take(i as int),
        decreases v@.len() - i,
    {
        out.push(v[i]);
        proof {
            assert(out@ =~= v@.take(i as int + 1));
        }
        i = i + 1;
    }
    proof {
        assert(v@.take(v@.len() as int) =~= v@);
    }
    out
}

fn is_local_peer_exec(locals: &Vec<LocalChannel>, p: u64) -> (r: bool)
    ensures
        r == is_local_peer(locals@, p),
{
    let mut i: usize = 0;
    while i < locals.len()
        invariant
            i <= locals@.len(),
            forall|j: int| 0 <= j < i ==> (#[trigger] locals@[j]).peer_id != p,
        decreases locals@.len() - i,
    {
        if locals[i].peer_id == p {
            return true;
        }
        i = i + 1;
    }
    false
}

fn has_same_token_channel_exec(locals: &Vec<LocalChannel>, token: &TokenType, p: u64) -> (r: bool)
    ensures
        r == has_same_token_channel(locals@, *token, p),
{
    let mut i: usize = 0;
    while i < locals.len()
        invariant
            i <= locals@.len(),
            forall|j: int|
                0 <= j < i ==> !((#[trigger] locals@[j]).peer_id == p && token.matches_script(
                    locals@[j].funding_udt_type_script,
                )),
        decreases locals@.len() - i,
    {
        let c = locals[i];
        if c.peer_id == p && token.is_token(c.funding_udt_type_script) {
            return true;
        }
        i = i + 1;
    }
    false
}

fn is_ignored_exec(
    self_id: u64,
    token: &TokenType,
    locals: &Vec<LocalChannel>,
    pending: &Vec<u64>,
    p: u64,
) -> (r: bool)
    ensures
        r == spec_ignored(self_id, *token, locals@, pending@, p),
{
    if p == self_id {
        return true;
    }
    if contains_u64(pending, p) {
        return true;
    }
    has_same_token_channel_exec(locals, token, p)
}

/// Minimum funding amount `node` advertises for `token`, if any.
pub fn get_min_funding_amount(token: &TokenType, node: &NodeRecord) -> (r: Option<u128>)
    ensures
        r == spec_min_funding(*token, *node),
{
    match token {
        TokenType::Ckb => Some(node.auto_accept_min_ckb_funding_amount as u128),
        TokenType::Udt { .. } => {
            let cfgs = &node.udt_cfg_infos;
            let len = cfgs.len();
            let mut i: usize = 0;
            proof {
                assert(cfgs@.skip(0) =~= cfgs@);
            }
            while i < len
                invariant
                    len == cfgs@.len(),
                    cfgs@ == node.udt_cfg_infos@,
                    i <= len,
                    token is Udt,
                    first_udt_amount(cfgs@, *token) == first_udt_amount(
                        cfgs@.skip(i as int),
                        *token,
                    ),
                decreases len - i,
            {
                proof {
                    assert(cfgs@.skip(i as int)[0] == cfgs@[i as int]);
                    assert(cfgs@.skip(i as int).skip(1) =~= cfgs@.skip(i as int + 1));
                }
                let cfg = cfgs[i];
                if token.is_token(Some(cfg.script)) {
                    if let Some(a) = cfg.auto_accept_amount {
                        proof {
                            assert(first_udt_amount(cfgs@.skip(i as int), *token)
                                == cfg.auto_accept_amount);
                        }
                        return Some(a);
                    }
                }
                i = i + 1;
            }
            proof {
                assert(cfgs@.skip(len as int) =~= Seq::<UdtCfgInfo>::empty());
            }
            None
        },
    }
}

/// Greedy funding allocation over the sampled peers, in sampler order.
pub fn allocate_funds(
    selected: &Vec<(u64, u64)>,
    available_funds: u128,
    chan_funds: u128,
    min_chan_funds: u128,
) -> (r: Vec<(u64, u128)>)
    ensures
        r@ == alloc_spec(item_peers(selected@), available_funds, chan_funds, min_chan_funds),
        r@.len() <= selected@.len(),
        forall|t: int|
            0 <= t < r@.len() ==> (#[trigger] r@[t]).0 == selected@[t].0 && min_chan_funds
                <= r@[t].1 <= chan_funds,
        sum_alloc(r@) <= available_funds,
{
    let ghost peers = item_peers(selected@);
    let n = selected.len();
    let mut out: Vec<(u64, u128)> = Vec::new();
    let mut available = available_funds;
    let mut i: usize = 0;
    let mut stop = false;
    proof {
        assert(peers.skip(0) =~= peers);
    }
    while i < n && !stop
        invariant
            n == selected@.len(),
            peers == item_peers(selected@),
            peers.len() == n,
            i <= n,
            out@.len() == i,
            available <= available_funds,
            available_funds - available == sum_alloc(out@),
            forall|t: int|
                0 <= t < i ==> (#[trigger] out@[t]).0 == selected@[t].0 && min_chan_funds
                    <= out@[t].1 <= chan_funds,
            alloc_spec(peers, available_funds, chan_funds, min_chan_funds) == out@ + (if stop {
                Seq::<(u64, u128)>::empty()
            } else {
                alloc_spec(peers.skip(i as int), available, chan_funds, min_chan_funds)
            }),
        decreases n - i, (if stop {
            0int
        } else {
            1int
        }),
    {
        proof {
            assert(peers.skip(i as int)[0] == peers[i as int]);
            assert(peers[i as int] == selected@[i as int].0);
            assert(peers.skip(i as int).skip(1) =~= peers.skip(i as int + 1));
        }
        let f = min_u128(available, chan_funds);
        if f < min_chan_funds {
            stop = true;
            proof {
                assert(alloc_spec(peers.skip(i as int), available, chan_funds, min_chan_funds)
                    =~= Seq::<(u64, u128)>::empty());
                assert(out@ + Seq::<(u64, u128)>::empty() =~= out@);
            }
        } else {
            available = available - f;
            let p = selected[i].0;
            let ghost out_old = out@;
            let ghost tail = alloc_spec(
                peers.skip(i as int + 1),
                (available - f + chan_funds - chan_funds) as u128,
                chan_funds,
                min_chan_funds,
            );
            out.push((p, f));
            proof {
                let tail2 = alloc_spec(peers.skip(i as int + 1), available, chan_funds, min_chan_funds);
                assert(out@.drop_last() =~= out_old);
                assert(out@.last() == (p, f));
                assert(sum_alloc(out@) == sum_alloc(out_old) + f);
                assert(out@ =~= out_old + seq![(p, f)]);
                assert(out_old + seq![(p, f)] + tail2 =~= out_old + (seq![(p, f)] + tail2));
            }
            i = i + 1;
        }
    }
    proof {
        if !stop {
            assert(peers.skip(n as int) =~= Seq::<u64>::empty());
            assert(alloc_spec(peers.skip(n as int), available, chan_funds, min_chan_funds)
                =~= Seq::<(u64, u128)>::empty());
        }
        assert(out@ + Seq::<(u64, u128)>::empty() =~= out@);
    }
    out
}


/// Saturating subtraction of channel counts.
pub fn sat_sub_usize(a: usize, b: usize) -> (r: usize)
    ensures
        r as int == if a >= b {
            a - b
        } else {
            0int
        },
{
    if a >= b {
        a - b
    } else {
        0
    }
}

/// The number of channel-opening slots one cycle may use: the remaining
/// configured channel capacity, hard capped at
/// [`MAX_CHANNELS_PER_CYCLE`].
pub open spec fn spec_cycle_slots(config: AgentConfig, locals: int) -> int {
    let avail = if config.max_chan_num as int >= locals {
        config.max_chan_num - locals
    } else {
        0int
    };
    if avail <= MAX_CHANNELS_PER_CYCLE as int {
        avail
    } else {
        MAX_CHANNELS_PER_CYCLE as int
    }
}


/// Whether a graph node passes the candidate filter: not ignored, at least
/// one known address, and a minimum funding amount within the cap.
pub open spec fn passes_filter(
    node: NodeRecord,
    self_id: u64,
    token: TokenType,
    locals: Seq<LocalChannel>,
    pending: Seq<u64>,
    funds_cap: u128,
) -> bool {
    &&& !spec_ignored(self_id, token, locals, pending, node.node_id)
    &&& node.addresses@.len() > 0
    &&& (spec_min_funding(token, node) matches Option::Some(a) && a <= funds_cap)
}

/// The candidate identities in graph order, each kept once.
pub open spec fn candidate_ids(
    nodes: Seq<NodeRecord>,
    self_id: u64,
    token: TokenType,
    locals: Seq<LocalChannel>,
    pending: Seq<u64>,
    funds_cap: u128,
) -> Seq<u64>
    decreases nodes.len(),
{
    if nodes.len() == 0 {
        Seq::empty()
    } else {
        let pre = candidate_ids(nodes.drop_last(), self_id, token, locals, pending, funds_cap);
        let nd = nodes.last();
        if passes_filter(nd, self_id, token, locals, pending, funds_cap) && !pre.contains(
            nd.node_id,
        ) {
            pre.push(nd.node_id)
        } else {
            pre
        }
    }
}

/// The always-consider peers appended to the scored list, in configuration
/// order; entries without a derived identity, or already ignored, are
/// dropped (duplicates stay, as configured).
pub open spec fn external_entries(
    externals: Seq<crate::config::ExternalPeer>,
    self_id: u64,
    token: TokenType,
    locals: Seq<LocalChannel>,
    pending: Seq<u64>,
) -> Seq<u64>
    decreases externals.len(),
{
    if externals.len() == 0 {
        Seq::empty()
    } else {
        let pre = external_entries(externals.drop_last(), self_id, token, locals, pending);
        match externals.last().peer {
            Option::Some(p) => if !spec_ignored(self_id, token, locals, pending, p) {
                pre.push(p)
            } else {
                pre
            },
            Option::None => pre,
        }
    }
}

/// The peer of each allocation entry.
pub open spec fn alloc_peer_seq(allocs: Seq<(u64, u128)>) -> Seq<u64> {
    allocs.map_values(|a: (u64, u128)| a.0)
}

/// The (peer, funds) projection of a command list.
pub open spec fn cmd_pairs(cmds: Seq<OpenChannelCmd>) -> Seq<(u64, u128)> {
    cmds.map_values(|c: OpenChannelCmd| (c.peer, c.funds))
}

/// The (peer, funds) pairs a cycle emits from its allocation: an entry
/// whose peer is already pending, or already emitted this cycle, is
/// skipped (its budget was spent by the allocation above).
pub open spec fn emit_spec(allocs: Seq<(u64, u128)>, pending: Seq<u64>) -> Seq<(u64, u128)>
    decreases allocs.len(),
{
    if allocs.len() == 0 {
        Seq::empty()
    } else {
        let pre = emit_spec(allocs.drop_last(), pending);
        let a = allocs.last();
        if pending.contains(a.0) || alloc_peer_seq(pre).contains(a.0) {
            pre
        } else {
            pre.push(a)
        }
    }
}

/// The scored list one cycle samples from: every candidate paired with its
/// combined score, then every always-consider peer at full score.
pub open spec fn scored_list(cands: Seq<u64>, scores: Seq<u64>, exts: Seq<u64>) -> Seq<(u64, u64)> {
    Seq::new(cands.len(), |i: int| (cands[i], scores[i])) + Seq::new(
        exts.len(),
        |i: int| (exts[i], SCALE),
    )
}

/// One pair of witnesses for the selection law: `scores` are the combined
/// per-candidate scores and `sel` the drawn sample; the commands' peers
/// and funds are exactly the greedy allocation of that sample with pending
/// duplicates skipped, in order.
pub open spec fn selection_witness(
    pre: Agent,
    locals: Seq<LocalChannel>,
    nodes: Seq<NodeRecord>,
    available_funds: u128,
    num: int,
    cmds: Seq<OpenChannelCmd>,
    scores: Seq<u64>,
    sel: Seq<(u64, u64)>,
) -> bool {
    let rec = reconciled(pre.pending@, locals);
    let cap = spec_min128(pre.config.max_chan_funds, available_funds);
    let cands = candidate_ids(nodes, pre.self_id, pre.config.token, locals, rec, cap);
    let exts = external_entries(
        pre.config.external_nodes@,
        pre.self_id,
        pre.config.token,
        locals,
        rec,
    );
    let slots = if num <= pre.config.max_pending - rec.len() {
        num
    } else {
        pre.config.max_pending - rec.len()
    };
    &&& scores.len() == cands.len()
    &&& sampled_from(scored_list(cands, scores, exts), sel, slots)
    &&& cmd_pairs(cmds) == emit_spec(
        alloc_spec(item_peers(sel), available_funds, cap, pre.config.min_chan_funds),
        rec,
    )
}

/// The selection law of one cycle: the scored list holds every candidate
/// with some per-heuristic combined score and every always-consider peer at
/// full score; a sample of `min(num, max_pending - |pending|)` items is
/// drawn from it by the sampler's law; the commands' peers and funds are
/// exactly the greedy allocation of that sample with pending duplicates
/// skipped, in order.
pub open spec fn selection_post(
    pre: Agent,
    locals: Seq<LocalChannel>,
    nodes: Seq<NodeRecord>,
    available_funds: u128,
    num: int,
    cmds: Seq<OpenChannelCmd>,
) -> bool {
    exists|scores: Seq<u64>, sel: Seq<(u64, u64)>| #[trigger] selection_witness(
        pre,
        locals,
        nodes,
        available_funds,
        num,
        cmds,
        scores,
        sel,
    )
}

/// What every cycle outcome guarantees: the controller state over the
/// reconciled pending set and the per-channel funding cap, each error
/// exactly characterized, and the commands tied to the candidate filter,
/// the sampler's law and the greedy allocation.
pub open spec fn cycle_post(
    pre: Agent,
    post: Agent,
    locals: Seq<LocalChannel>,
    nodes: Seq<NodeRecord>,
    channels: Seq<ChannelInfo>,
    available_funds: u128,
    num: int,
    r: Result<Vec<OpenChannelCmd>, AgentError>,
) -> bool {
    let rec = reconciled(pre.pending@, locals);
    let funds_cap = spec_min128(pre.config.max_chan_funds, available_funds);
    &&& post.self_id == pre.self_id
    &&& post.config == pre.config
    &&& ((r matches Result::Err(AgentError::InsufficientFunds { .. })) <==> funds_cap
        < pre.config.min_chan_funds)
    &&& ((r matches Result::Err(AgentError::DegenerateScores)) <==> (funds_cap
        >= pre.config.min_chan_funds && rec.len() < pre.config.max_pending
        && config_has_centrality(pre.config.heuristics.heuristics@) && centrality_degenerate(
        nodes,
        channels,
    )))
    &&& match r {
        Result::Err(e) => {
            &&& post.pending@ == rec
            &&& (e matches AgentError::InsufficientFunds { available, required } ==> available
                == available_funds && required == pre.config.min_chan_funds)
        },
        Result::Ok(cmds) => {
            &&& funds_cap >= pre.config.min_chan_funds
            &&& post.pending@ == rec + cmd_peers(cmds@)
            &&& cmd_peers(cmds@).no_duplicates()
            &&& forall|t: int|
                0 <= t < cmds@.len() ==> !spec_ignored(
                    pre.self_id,
                    pre.config.token,
                    locals,
                    rec,
                    (#[trigger] cmds@[t]).peer,
                )
            &&& forall|t: int|
                0 <= t < cmds@.len() ==> eligible_node(
                    nodes,
                    pre.config.token,
                    funds_cap,
                    (#[trigger] cmds@[t]).peer,
                ) || is_external_peer(pre.config, cmds@[t].peer)
            &&& forall|t: int|
                0 <= t < cmds@.len() ==> pre.config.min_chan_funds <= (#[trigger] cmds@[t]).funds
                    <= funds_cap
            &&& forall|t: int|
                0 <= t < cmds@.len() ==> (#[trigger] cmds@[t]).udt_script
                    == pre.config.token.script_handle()
            &&& forall|t: int| 0 <= t < cmds@.len() ==> (#[trigger] cmds@[t]).addresses@.len() > 0
            &&& sum_cmd_funds(cmds@) <= available_funds
            &&& (rec.len() >= pre.config.max_pending ==> cmds@.len() == 0)
            &&& (rec.len() < pre.config.max_pending ==> selection_post(
                pre,
                locals,
                nodes,
                available_funds,
                num,
                cmds@,
            ))
            &&& cmds@.len() <= num
            &&& cmds@.len() + rec.len() <= pre.config.max_pending || rec.len()
                >= pre.config.max_pending
        },
    }
}

/// A peer that is still pending after reconciliation is never among the
/// commands a cycle emits: it must first be confirmed or fail.
pub proof fn lemma_pending_never_selected(
    pre: Agent,
    post: Agent,
    locals: Seq<LocalChannel>,
    nodes: Seq<NodeRecord>,
    channels: Seq<ChannelInfo>,
    available_funds: u128,
    num: int,
    cmds: Vec<OpenChannelCmd>,
    t: int,
)
    requires
        cycle_post(pre, post, locals, nodes, channels, available_funds, num, Result::Ok(cmds)),
        0 <= t < cmds@.len(),
    ensures
        !reconciled(pre.pending@, locals).contains(cmds@[t].peer),
{
    assert(!spec_ignored(pre.self_id, pre.config.token, locals, reconciled(pre.pending@, locals), cmds@[t].peer));
}

/// The autopilot controller for one asset type.
pub struct Agent {
    /// Identity of the local node.
    pub self_id: u64,
    pub config: AgentConfig,
    /// Peers with a channel-opening attempt currently in flight.
    pub pending: Vec<u64>,
}

impl Agent {
    /// The pending set holds each peer at most once.
    pub open spec fn wf(&self) -> bool {
        self.pending@.no_duplicates()
    }

    /// A controller with an empty pending set.
    pub fn new(self_id: u64, config: AgentConfig) -> (a: Agent)
        ensures
            a.wf(),
            a.self_id == self_id,
            a.config == config,
            a.pending@ == Seq::<u64>::empty(),
    {
        Agent { self_id, config, pending: Vec::new() }
    }

    /// Confirms pending opens: every pending peer that now has a local
    /// channel leaves the pending set.
    fn reconcile(&mut self, locals: &Vec<LocalChannel>)
        requires
            old(self).wf(),
        ensures
            final(self).wf(),
            final(self).pending@ == reconciled(old(self).pending@, locals@),
            final(self).self_id == old(self).self_id,
            final(self).config == old(self).config,
    {
        let len = self.pending.len();
        let mut kept: Vec<u64> = Vec::new();
        let mut i: usize = 0;
        proof {
            assert(old(self).pending@.take(0) =~= Seq::<u64>::empty());
        }
        while i < len
            invariant
                self.pending@ == old(self).pending@,
                len == self.pending@.len(),
                i <= len,
                kept@ == reconciled(old(self).pending@.take(i as int), locals@),
            decreases len - i,
        {
            proof {
                assert(old(self).pending@.take(i as int + 1).drop_last() =~= old(
                    self,
                ).pending@.take(i as int));
                assert(old(self).pending@.take(i as int + 1).last() == old(self).pending@[i as int]);
            }
            let p = self.pending[i];
            if !is_local_peer_exec(locals, p) {
                kept.push(p);
            }
            i = i + 1;
        }
        proof {
            assert(old(self).pending@.take(len as int) =~= old(self).pending@);
            lemma_reconciled(old(self).pending@, locals@);
        }
        self.pending = kept;
    }


    /// One decision cycle over fetched data: reconciles confirmed
    /// channels, checks the funding budget, filters the graph to eligible
    /// candidates, scores and samples them, allocates funds greedily in
    /// sampling order, marks each funded peer pending, and returns its
    /// channel-opening command for the caller to execute.
    pub fn open_channels(
        &mut self,
        available_funds: u128,
        num: usize,
        graph: &Graph,
        local_channels: &Vec<LocalChannel>,
    ) -> (r: Result<Vec<OpenChannelCmd>, AgentError>)
        requires
            old(self).wf(),
            graph.wf(),
        ensures
            final(self).wf(),
            cycle_post(
                *old(self),
                *final(self),
                local_channels@,
                graph.spec_nodes(),
                graph.spec_channels(),
                available_funds,
                num as int,
                r,
            ),
    {
        let ghost pre = *old(self);
        // Confirm pending opens that now have a local channel.
        self.reconcile(local_channels);
        let ghost rec = self.pending@;
        let ghost sid = self.self_id;
        let ghost cfg = self.config;
        proof {
            lemma_reconciled(pre.pending@, local_channels@);
        }
        // Per-channel funding cap; the cycle fails below the minimum.
        let chan_funds = min_u128(self.config.max_chan_funds, available_funds);
        if chan_funds < self.config.min_chan_funds {
            return Err(AgentError::InsufficientFunds {
                available: available_funds,
                required: self.config.min_chan_funds,
            });
        }
        // Cap on concurrently pending attempts.
        if self.pending.len() >= self.config.max_pending {
            let cmds: Vec<OpenChannelCmd> = Vec::new();
            proof {
                assert(cmd_peers(cmds@) =~= Seq::<u64>::empty());
                assert(rec + cmd_peers(cmds@) =~= rec);
            }
            return Ok(cmds);
        }
        let slots = min_usize(num, self.config.max_pending - self.pending.len());
        // Filter graph nodes to candidates; nodes sharing an identity have
        // their addresses merged under one candidate.
        let nodes = graph.nodes();
        let n_nodes = nodes.len();
        let mut cand_ids: Vec<u64> = Vec::new();
        let mut cand_addrs: Vec<Vec<u64>> = Vec::new();
        let mut i: usize = 0;
        while i < n_nodes
            invariant
                n_nodes == graph.spec_nodes().len(),
                nodes@ == graph.spec_nodes(),
                graph.wf(),
                self.self_id == sid,
                self.config == cfg,
                self.pending@ == rec,
                i <= n_nodes,
                cand_ids@.len() == cand_addrs@.len(),
                cand_ids@.no_duplicates(),
                forall|j: int|
                    0 <= j < cand_ids@.len() ==> !spec_ignored(
                        sid,
                        cfg.token,
                        local_channels@,
                        rec,
                        #[trigger] cand_ids@[j],
                    ),
                forall|j: int|
                    0 <= j < cand_ids@.len() ==> eligible_node(
                        graph.spec_nodes(),
                        cfg.token,
                        chan_funds,
                        #[trigger] cand_ids@[j],
                    ),
                forall|j: int|
                    0 <= j < cand_ids@.len() ==> node_idx(
                        graph.spec_nodes(),
                        #[trigger] cand_ids@[j],
                    ) is Some,
                forall|j: int| 0 <= j < cand_addrs@.len() ==> (#[trigger] cand_addrs@[j])@.len() > 0,
                cand_ids@ == candidate_ids(
                    graph.spec_nodes().take(i as int),
                    sid,
                    cfg.token,
                    local_channels@,
                    rec,
                    chan_funds,
                ),
            decreases n_nodes - i,
        {
            let node = &nodes[i];
            let p = node.node_id;
            proof {
                assert(graph.spec_nodes()[i as int] == nodes@[i as int]);
            }
            let ignored = is_ignored_exec(
                self.self_id,
                &self.config.token,
                local_channels,
                &self.pending,
                p,
            );
            let passes: bool = if ignored || node.addresses.len() == 0 {
                false
            } else {
                match get_min_funding_amount(&self.config.token, node) {
                    Option::Some(mf) => mf <= chan_funds,
                    Option::None => false,
                }
            };
            proof {
                assert(passes == passes_filter(
                    nodes@[i as int],
                    sid,
                    cfg.token,
                    local_channels@,
                    rec,
                    chan_funds,
                ));
            }
            if passes {
                proof {
                    assert(eligible_node(graph.spec_nodes(), cfg.token, chan_funds, p)) by {
                        assert((#[trigger] graph.spec_nodes()[i as int]).node_id == p);
                    }
                    if node_idx(graph.spec_nodes(), p) is None {
                        crate::graph::lemma_node_idx(graph.spec_nodes(), p);
                        assert(graph.spec_nodes()[i as int].node_id != p);
                        assert(false);
                    }
                }
                match find_u64_idx(&cand_ids, p) {
                    Option::Some(j) => {
                        proof {
                            assert(cand_ids@.contains(p));
                        }
                        let mut merged = copy_u64_vec(&cand_addrs[j]);
                        let n_addr = node.addresses.len();
                        let mut t: usize = 0;
                        while t < n_addr
                            invariant
                                t <= n_addr,
                                merged@.len() >= cand_addrs@[j as int]@.len(),
                                j < cand_addrs@.len(),
                                cand_addrs@[j as int]@.len() > 0,
                                n_addr == node.addresses@.len(),
                            decreases n_addr - t,
                        {
                            merged.push(node.addresses[t]);
                            t = t + 1;
                        }
                        cand_addrs.set(j, merged);
                    },
                    Option::None => {
                        let ghost ids_old = cand_ids@;
                        cand_ids.push(p);
                        cand_addrs.push(copy_u64_vec(&node.addresses));
                        proof {
                            assert forall|a: int, b: int|
                                0 <= a < cand_ids@.len() && 0 <= b < cand_ids@.len() && a
                                    != b implies cand_ids@[a] != cand_ids@[b] by {
                                if a < cand_ids@.len() - 1 && b < cand_ids@.len() - 1 {
                                    assert(ids_old[a] != ids_old[b]);
                                } else if a == cand_ids@.len() - 1 {
                                    assert(ids_old[b] == cand_ids@[b]);
                                    assert(ids_old.contains(ids_old[b]));
                                } else {
                                    assert(ids_old[a] == cand_ids@[a]);
                                    assert(ids_old.contains(ids_old[a]));
                                }
                            }
                        }
                    },
                }
            }
            proof {
                assert(graph.spec_nodes().take(i as int + 1).drop_last() =~= graph.spec_nodes()
                    .take(i as int));
                assert(graph.spec_nodes().take(i as int + 1).last() == graph.spec_nodes()[i as int]);
            }
            i = i + 1;
        }
        // Score the candidates with the configured heuristics.
        let combined = match crate::heuristics::combine::get_node_scores(
            &self.config.heuristics,
            graph,
            &cand_ids,
        ) {
            Ok(v) => v,
            Err(_) => {
                return Err(AgentError::DegenerateScores);
            },
        };
        let mut scored: Vec<(u64, u64)> = Vec::new();
        let n_cand = cand_ids.len();
        let mut j: usize = 0;
        while j < n_cand
            invariant
                n_cand == cand_ids@.len(),
                combined@.len() == n_cand,
                j <= n_cand,
                scored@.len() == j,
                forall|t: int|
                    0 <= t < cand_ids@.len() ==> !spec_ignored(
                        sid,
                        cfg.token,
                        local_channels@,
                        rec,
                        #[trigger] cand_ids@[t],
                    ),
                forall|t: int|
                    0 <= t < cand_ids@.len() ==> eligible_node(
                        graph.spec_nodes(),
                        cfg.token,
                        chan_funds,
                        #[trigger] cand_ids@[t],
                    ),
                forall|t: int|
                    0 <= t < j ==> !spec_ignored(
                        sid,
                        cfg.token,
                        local_channels@,
                        rec,
                        (#[trigger] scored@[t]).0,
                    ),
                forall|t: int|
                    0 <= t < j ==> eligible_node(
                        graph.spec_nodes(),
                        cfg.token,
                        chan_funds,
                        (#[trigger] scored@[t]).0,
                    ) || is_external_peer(cfg, scored@[t].0),
                forall|t: int| 0 <= t < j ==> cand_ids@.contains((#[trigger] scored@[t]).0),
                forall|t: int|
                    0 <= t < j ==> (#[trigger] scored@[t]) == (cand_ids@[t], combined@[t]),
            decreases n_cand - j,
        {
            let p = cand_ids[j];
            scored.push((p, combined[j]));
            proof {
                assert(cand_ids@[j as int] == p);
                assert(cand_ids@.contains(p));
            }
            j = j + 1;
        }
        // Externally configured always-consider peers at full score.
        let ghost base = scored@;
        let mut ext_ids: Vec<u64> = Vec::new();
        let mut ext_addrs: Vec<u64> = Vec::new();
        let ext_n = self.config.external_nodes.len();
        let mut e: usize = 0;
        proof {
            assert(external_entries(
                cfg.external_nodes@.take(0),
                sid,
                cfg.token,
                local_channels@,
                rec,
            ) =~= Seq::<u64>::empty());
        }
        while e < ext_n
            invariant
                ext_n == self.config.external_nodes@.len(),
                base.len() == cand_ids@.len(),
                forall|t: int| 0 <= t < base.len() ==> (#[trigger] scored@[t]) == base[t],
                scored@.len() == base.len() + external_entries(
                    cfg.external_nodes@.take(e as int),
                    sid,
                    cfg.token,
                    local_channels@,
                    rec,
                ).len(),
                forall|t: int|
                    base.len() <= t < scored@.len() ==> (#[trigger] scored@[t]) == (
                    external_entries(
                        cfg.external_nodes@.take(e as int),
                        sid,
                        cfg.token,
                        local_channels@,
                        rec,
                    )[t - base.len()], SCALE),
                self.self_id == sid,
                self.config == cfg,
                self.pending@ == rec,
                e <= ext_n,
                ext_ids@.len() == ext_addrs@.len(),
                forall|t: int|
                    0 <= t < scored@.len() ==> !spec_ignored(
                        sid,
                        cfg.token,
                        local_channels@,
                        rec,
                        (#[trigger] scored@[t]).0,
                    ),
                forall|t: int|
                    0 <= t < scored@.len() ==> eligible_node(
                        graph.spec_nodes(),
                        cfg.token,
                        chan_funds,
                        (#[trigger] scored@[t]).0,
                    ) || is_external_peer(cfg, scored@[t].0),
                forall|t: int|
                    0 <= t < scored@.len() ==> cand_ids@.contains((#[trigger] scored@[t]).0)
                        || ext_ids@.contains(scored@[t].0),
                forall|t: int|
                    0 <= t < cand_ids@.len() ==> node_idx(
                        graph.spec_nodes(),
                        #[trigger] cand_ids@[t],
                    ) is Some,
                cand_ids@.len() == cand_addrs@.len(),
                forall|t: int| 0 <= t < cand_addrs@.len() ==> (#[trigger] cand_addrs@[t])@.len() > 0,
            decreases ext_n - e,
        {
            let entry = self.config.external_nodes[e];
            match entry.peer {
                Option::Some(p) => {
                    if !is_ignored_exec(
                        self.self_id,
                        &self.config.token,
                        local_channels,
                        &self.pending,
                        p,
                    ) {
                        let ghost ext_old = ext_ids@;
                        proof {
                            assert((#[trigger] cfg.external_nodes@[e as int]).peer
                                == Option::Some(p));
                            assert(is_external_peer(cfg, p));
                        }
                        match find_u64_idx(&ext_ids, p) {
                            Option::Some(k) => {
                                ext_addrs.set(k, entry.addr);
                            },
                            Option::None => {
                                ext_ids.push(p);
                                ext_addrs.push(entry.addr);
                            },
                        }
                        proof {
                            assert forall|t: int|
                                0 <= t < scored@.len() && (cand_ids@.contains(
                                    (#[trigger] scored@[t]).0,
                                ) || ext_old.contains(scored@[t].0)) implies cand_ids@.contains(
                                scored@[t].0,
                            ) || ext_ids@.contains(scored@[t].0) by {
                                if ext_old.contains(scored@[t].0) {
                                    let w = choose|w: int|
                                        0 <= w < ext_old.len() && ext_old[w] == scored@[t].0;
                                    assert(ext_ids@[w] == scored@[t].0);
                                }
                            }
                            assert(ext_ids@.contains(p)) by {
                                if ext_old.contains(p) {
                                    let w = choose|w: int|
                                        0 <= w < ext_old.len() && ext_old[w] == p;
                                    assert(ext_ids@[w] == p);
                                } else {
                                    assert(ext_ids@[ext_ids@.len() - 1] == p);
                                }
                            }
                        }
                        scored.push((p, SCALE));
                    }
                },
                Option::None => {},
            }
            proof {
                assert(cfg.external_nodes@.take(e as int + 1).drop_last() =~= cfg.external_nodes@
                    .take(e as int));
                assert(cfg.external_nodes@.take(e as int + 1).last() == cfg.external_nodes@[e as int]);
            }
            e = e + 1;
        }
        let ghost cands = candidate_ids(
            graph.spec_nodes(),
            sid,
            cfg.token,
            local_channels@,
            rec,
            chan_funds,
        );
        let ghost exts = external_entries(
            cfg.external_nodes@,
            sid,
            cfg.token,
            local_channels@,
            rec,
        );
        proof {
            assert(graph.spec_nodes().take(n_nodes as int) =~= graph.spec_nodes());
            assert(cfg.external_nodes@.take(ext_n as int) =~= cfg.external_nodes@);
            assert(cand_ids@ == cands);
            assert forall|x: int|
                0 <= x < scored@.len() implies scored@[x] == scored_list(cands, combined@, exts)[x] by {
                if x < cands.len() {
                    assert(scored@[x] == base[x]);
                }
            }
            assert(scored@ =~= scored_list(cands, combined@, exts));
        }
        // Sample up to `slots` peers, weighted by score.
        let ghost scored_seq = scored@;
        let selected = choice_n(scored, slots);
        proof {
            assert forall|t: int|
                0 <= t < selected@.len() implies !spec_ignored(
                sid,
                cfg.token,
                local_channels@,
                rec,
                (#[trigger] selected@[t]).0,
            ) && (eligible_node(graph.spec_nodes(), cfg.token, chan_funds, selected@[t].0)
                || is_external_peer(cfg, selected@[t].0)) && (cand_ids@.contains(selected@[t].0)
                || ext_ids@.contains(selected@[t].0)) by {
                if scored_seq.len() < slots {
                    assert(selected@[t] == scored_seq[t]);
                } else {
                    let x = selected@[t];
                    vstd::seq_lib::to_multiset_contains(selected@, x);
                    assert(selected@.contains(x));
                    assert(selected@.to_multiset().count(x) > 0);
                    vstd::seq_lib::to_multiset_contains(scored_seq, x);
                    assert(scored_seq.contains(x));
                    let w = choose|w: int| 0 <= w < scored_seq.len() && scored_seq[w] == x;
                    assert(scored_seq[w].0 == x.0);
                }
            }
            if scored_seq.len() < slots {
                assert(selected@.len() == scored_seq.len());
            }
            assert(selected@.len() <= slots);
        }
        // Allocate funds greedily in sampling order.
        let allocated = allocate_funds(
            &selected,
            available_funds,
            chan_funds,
            self.config.min_chan_funds,
        );
        // Mark each funded peer pending and emit its command; a peer
        // selected twice (scored and always-consider) is funded once, its
        // duplicate's budget already spent by the allocation above.
        let udt_script = self.config.token.udt_script();
        let n_alloc = allocated.len();
        let mut cmds: Vec<OpenChannelCmd> = Vec::new();
        let mut t: usize = 0;
        proof {
            assert(cmd_peers(cmds@) =~= Seq::<u64>::empty());
            assert(rec + cmd_peers(cmds@) =~= rec);
            assert(sum_alloc(allocated@.take(0)) == 0);
        }
        while t < n_alloc
            invariant
                n_alloc == allocated@.len(),
                udt_script == cfg.token.script_handle(),
                allocated@.len() <= selected@.len(),
                self.self_id == sid,
                self.config == cfg,
                t <= n_alloc,
                cmds@.len() <= t,
                self.pending@ == rec + cmd_peers(cmds@),
                self.pending@.no_duplicates(),
                sum_cmd_funds(cmds@) <= sum_alloc(allocated@.take(t as int)),
                forall|w: int|
                    0 <= w < allocated@.len() ==> cfg.min_chan_funds <= (
                    #[trigger] allocated@[w]).1 <= chan_funds,
                forall|w: int|
                    0 <= w < allocated@.len() ==> !spec_ignored(
                        sid,
                        cfg.token,
                        local_channels@,
                        rec,
                        (#[trigger] allocated@[w]).0,
                    ),
                forall|w: int|
                    0 <= w < allocated@.len() ==> eligible_node(
                        graph.spec_nodes(),
                        cfg.token,
                        chan_funds,
                        (#[trigger] allocated@[w]).0,
                    ) || is_external_peer(cfg, allocated@[w].0),
                forall|w: int|
                    0 <= w < allocated@.len() ==> cand_ids@.contains((#[trigger] allocated@[w]).0)
                        || ext_ids@.contains(allocated@[w].0),
                cand_ids@.len() == cand_addrs@.len(),
                ext_ids@.len() == ext_addrs@.len(),
                forall|w: int| 0 <= w < cand_addrs@.len() ==> (#[trigger] cand_addrs@[w])@.len() > 0,
                forall|w: int|
                    0 <= w < cmds@.len() ==> cfg.min_chan_funds <= (#[trigger] cmds@[w]).funds
                        <= chan_funds,
                forall|w: int|
                    0 <= w < cmds@.len() ==> (#[trigger] cmds@[w]).udt_script
                        == cfg.token.script_handle(),
                forall|w: int| 0 <= w < cmds@.len() ==> (#[trigger] cmds@[w]).addresses@.len() > 0,
                forall|w: int|
                    0 <= w < cmds@.len() ==> !spec_ignored(
                        sid,
                        cfg.token,
                        local_channels@,
                        rec,
                        (#[trigger] cmds@[w]).peer,
                    ),
                forall|w: int|
                    0 <= w < cmds@.len() ==> eligible_node(
                        graph.spec_nodes(),
                        cfg.token,
                        chan_funds,
                        (#[trigger] cmds@[w]).peer,
                    ) || is_external_peer(cfg, cmds@[w].peer),
                cmd_pairs(cmds@) == emit_spec(allocated@.take(t as int), rec),
            decreases n_alloc - t,
        {
            let p = allocated[t].0;
            let funds = allocated[t].1;
            let ghost pairs_old = cmd_pairs(cmds@);
            proof {
                assert(alloc_peer_seq(pairs_old) =~= cmd_peers(cmds@));
            }
            if !contains_u64(&self.pending, p) {
                proof {
                    if rec.contains(p) {
                        let w = choose|w: int| 0 <= w < rec.len() && rec[w] == p;
                        assert((rec + cmd_peers(cmds@))[w] == p);
                        assert(self.pending@.contains(p));
                    }
                }
                let addrs: Vec<u64> = match find_u64_idx(&ext_ids, p) {
                    Option::Some(k) => {
                        let mut v: Vec<u64> = Vec::new();
                        v.push(ext_addrs[k]);
                        v
                    },
                    Option::None => {
                        match find_u64_idx(&cand_ids, p) {
                            Option::Some(k) => copy_u64_vec(&cand_addrs[k]),
                            Option::None => {
                                proof {
                                    assert(false);
                                }
                                Vec::new()
                            },
                        }
                    },
                };
                let ghost cmds_old = cmds@;
                let ghost pend_old = self.pending@;
                self.pending.push(p);
                cmds.push(
                    OpenChannelCmd { peer: p, funds, udt_script, addresses: addrs },
                );
                proof {
                    assert(cmds@.drop_last() =~= cmds_old);
                    assert(cmd_peers(cmds@) =~= cmd_peers(cmds_old).push(p));
                    assert(self.pending@ =~= rec + cmd_peers(cmds@));
                    assert forall|a: int, b: int|
                        0 <= a < self.pending@.len() && 0 <= b < self.pending@.len() && a
                            != b implies self.pending@[a] != self.pending@[b] by {
                        if a < self.pending@.len() - 1 && b < self.pending@.len() - 1 {
                            assert(pend_old[a] != pend_old[b]);
                        } else if a == self.pending@.len() - 1 {
                            assert(pend_old[b] == self.pending@[b]);
                            assert(pend_old.contains(pend_old[b]));
                        } else {
                            assert(pend_old[a] == self.pending@[a]);
                            assert(pend_old.contains(pend_old[a]));
                        }
                    }
                    assert(sum_cmd_funds(cmds@) == sum_cmd_funds(cmds_old) + funds);
                    assert(allocated@.take(t as int + 1).drop_last() =~= allocated@.take(t as int));
                    assert(allocated@.take(t as int + 1).last() == allocated@[t as int]);
                    if cmd_peers(cmds_old).contains(p) {
                        let w = choose|w: int|
                            0 <= w < cmd_peers(cmds_old).len() && cmd_peers(cmds_old)[w] == p;
                        assert(pend_old[rec.len() + w] == p);
                        assert(pend_old.contains(p));
                    }
                    assert(!alloc_peer_seq(pairs_old).contains(p));
                    assert(cmd_pairs(cmds@) =~= pairs_old.push((p, funds)));
                    assert(cmd_pairs(cmds@) == emit_spec(allocated@.take(t as int + 1), rec));
                }
            } else {
                proof {
                    assert(allocated@.take(t as int + 1).drop_last() =~= allocated@.take(t as int));
                    assert(allocated@.take(t as int + 1).last() == allocated@[t as int]);
                    assert(self.pending@.contains(p));
                    let w = choose|w: int| 0 <= w < self.pending@.len() && self.pending@[w] == p;
                    if w < rec.len() {
                        assert(rec[w] == p);
                        assert(rec.contains(p));
                    } else {
                        assert(cmd_peers(cmds@)[w - rec.len()] == p);
                        assert(cmd_peers(cmds@).contains(p));
                        assert(alloc_peer_seq(pairs_old).contains(p));
                    }
                    assert(cmd_pairs(cmds@) == emit_spec(allocated@.take(t as int + 1), rec));
                }
            }
            t = t + 1;
        }
        proof {
            assert(allocated@.take(n_alloc as int) =~= allocated@);
            assert(cmd_peers(cmds@).no_duplicates()) by {
                assert forall|a: int, b: int|
                    0 <= a < cmd_peers(cmds@).len() && 0 <= b < cmd_peers(cmds@).len() && a
                        != b implies cmd_peers(cmds@)[a] != cmd_peers(cmds@)[b] by {
                    let off = rec.len() as int;
                    assert(self.pending@[off + a] == cmd_peers(cmds@)[a]);
                    assert(self.pending@[off + b] == cmd_peers(cmds@)[b]);
                }
            }
            let pre0 = *old(self);
            let rec0 = reconciled(pre0.pending@, local_channels@);
            let cap0 = spec_min128(pre0.config.max_chan_funds, available_funds);
            let cands0 = candidate_ids(
                graph.spec_nodes(),
                pre0.self_id,
                pre0.config.token,
                local_channels@,
                rec0,
                cap0,
            );
            let exts0 = external_entries(
                pre0.config.external_nodes@,
                pre0.self_id,
                pre0.config.token,
                local_channels@,
                rec0,
            );
            let slots0 = if num as int <= pre0.config.max_pending - rec0.len() {
                num as int
            } else {
                pre0.config.max_pending - rec0.len()
            };
            assert(rec0 == rec);
            assert(cap0 == chan_funds);
            assert(cands0 == cands);
            assert(exts0 == exts);
            assert(slots0 == slots as int);
            assert(combined@.len() == cands0.len());
            assert(sampled_from(scored_list(cands0, combined@, exts0), selected@, slots0));
            assert(cmd_pairs(cmds@) == emit_spec(
                alloc_spec(item_peers(selected@), available_funds, cap0, pre0.config.min_chan_funds),
                rec0,
            ));
            assert(selection_witness(
                pre0,
                local_channels@,
                graph.spec_nodes(),
                available_funds,
                num as int,
                cmds@,
                combined@,
                selected@,
            ));
            assert(selection_post(
                pre0,
                local_channels@,
                graph.spec_nodes(),
                available_funds,
                num as int,
                cmds@,
            ));
        }
        Ok(cmds)
    }

    /// One full cycle from fetched inputs: builds the topology snapshot,
    /// derives the per-cycle slot budget (remaining channel capacity, hard
    /// capped per cycle), and opens channels.
    pub fn run_cycle(
        &mut self,
        nodes: Vec<NodeRecord>,
        channels: Vec<ChannelInfo>,
        local_channels: &Vec<LocalChannel>,
        available_funds: u128,
    ) -> (r: Result<Vec<OpenChannelCmd>, AgentError>)
        requires
            old(self).wf(),
        ensures
            final(self).wf(),
            cycle_post(
                *old(self),
                *final(self),
                local_channels@,
                nodes@,
                channels@,
                available_funds,
                spec_cycle_slots(old(self).config, local_channels@.len() as int),
                r,
            ),
    {
        let graph = Graph::build(nodes, channels);
        let num = min_usize(
            sat_sub_usize(self.config.max_chan_num, local_channels.len()),
            MAX_CHANNELS_PER_CYCLE,
        );
        self.open_channels(available_funds, num, &graph, local_channels)
    }

    /// Folds one finished open attempt back into the pending set: a failed
    /// peer leaves immediately and becomes selectable again next cycle; a
    /// successful one stays pending until a later cycle's reconciliation
    /// observes its channel.
    pub fn resolve_open(&mut self, peer: u64, success: bool)
        requires
            old(self).wf(),
        ensures
            final(self).wf(),
            final(self).self_id == old(self).self_id,
            final(self).config == old(self).config,
            success ==> final(self).pending@ == old(self).pending@,
            !success ==> !final(self).pending@.contains(peer),
            !success ==> forall|p: u64|
                p != peer ==> (#[trigger] final(self).pending@.contains(p) <==> old(
                    self,
                ).pending@.contains(p)),
    {
        if success {
            return ;
        }
        let idx = match find_u64_idx(&self.pending, peer) {
            Some(i) => i,
            None => {
                return ;
            },
        };
        let ghost pend = self.pending@;
        self.pending.remove(idx);
        proof {
            assert(self.pending@ == pend.remove(idx as int));
            assert forall|i: int, j: int|
                0 <= i < self.pending@.len() && 0 <= j < self.pending@.len() && i != j implies self
                .pending@[i] != self.pending@[j] by {
                let ii = if i < idx as int {
                    i
                } else {
                    i + 1
                };
                let jj = if j < idx as int {
                    j
                } else {
                    j + 1
                };
                assert(pend[ii] == self.pending@[i] && pend[jj] == self.pending@[j]);
            }
            assert forall|i: int| 0 <= i < self.pending@.len() implies self.pending@[i] != peer by {
                let ii = if i < idx as int {
                    i
                } else {
                    i + 1
                };
                assert(pend[ii] == self.pending@[i]);
                if ii != idx as int {
                    assert(pend[ii] != pend[idx as int]);
                }
            }
            assert forall|p: u64|
                p != peer implies (#[trigger] self.pending@.contains(p) <==> pend.contains(
                p,
            )) by {
                if self.pending@.contains(p) {
                    let i = choose|i: int| 0 <= i < self.pending@.len() && self.pending@[i] == p;
                    let ii = if i < idx as int {
                        i
                    } else {
                        i + 1
                    };
                    assert(pend[ii] == p);
                }
                if pend.contains(p) {
                    let i = choose|i: int| 0 <= i < pend.len() && pend[i] == p;
                    if i < idx as int {
                        assert(self.pending@[i] == p);
                    } else {
                        assert(i != idx as int);
                        assert(self.pending@[i - 1] == p);
                    }
                }
            }
        }
    }
}

} // verus!
