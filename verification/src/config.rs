//! Configuration of the autopilot: data-source endpoints, per-agent budgets,
//! the asset type an agent funds channels with, and the scoring heuristics.

use vstd::prelude::*;

use crate::SCALE;

verus! {

/// Top-level configuration: the two data-source endpoints and one entry per
/// agent.
pub struct Config {
    pub fiber: FiberConfig,
    pub ckb: CkbConfig,
    pub agents: Vec<AgentConfig>,
}

/// Endpoint of the channel-network node.
pub struct FiberConfig {
    pub url: String,
}

/// Endpoint of the ledger indexer.
pub struct CkbConfig {
    pub url: String,
}

/// The scoring strategies an agent can combine.
#[derive(Clone, Copy, Debug, PartialEq, Eq, Structural)]
pub enum Heuristic {
    Random,
    Centrality,
    Richness,
}

/// One configured heuristic with its weight, a fixed-point fraction of
/// [`SCALE`] (`SCALE` stands for 1.0).
#[derive(Clone, Copy, Debug, PartialEq, Eq, Structural)]
pub struct HeuristicItem {
    pub heuristic: Heuristic,
    pub weight: u64,
}

/// The ordered list of configured heuristics.
#[derive(Clone, Debug)]
pub struct HeuristicConfig {
    pub heuristics: Vec<HeuristicItem>,
}

impl Default for HeuristicConfig {
    /// A single centrality heuristic at full weight.
    fn default() -> (r: Self)
        ensures
            r.heuristics@ =~= seq![
                HeuristicItem { heuristic: Heuristic::Centrality, weight: SCALE },
            ],
    {
        let mut heuristics: Vec<HeuristicItem> = Vec::new();
        heuristics.push(HeuristicItem { heuristic: Heuristic::Centrality, weight: SCALE });
        Self { heuristics }
    }
}

/// The asset type an agent opens channels for: the native asset, or a
/// user-defined token identified by its contract script handle.
#[derive(Clone, Debug)]
pub enum TokenType {
    Ckb,
    Udt { name: String, script: u64 },
}

impl TokenType {
    /// Whether a channel or node entry carrying `script` is of this asset
    /// type: the native asset matches only the absence of a script, a token
    /// only its own script.
    pub open spec fn matches_script(&self, script: Option<u64>) -> bool {
        match (self, script) {
            (TokenType::Ckb, Option::None) => true,
            (TokenType::Udt { script: own, .. }, Option::Some(other)) => own == other,
            _ => false,
        }
    }

    /// The script handle of this asset type, if it is a token.
    pub open spec fn script_handle(&self) -> Option<u64> {
        match self {
            TokenType::Ckb => Option::None,
            TokenType::Udt { script, .. } => Option::Some(*script),
        }
    }

    /// Human label of the asset type.
    pub fn name(&self) -> (r: &str)
        ensures
            (match self {
                TokenType::Ckb => r@ == "ckb"@,
                TokenType::Udt { name, .. } => r@ == name@,
            }),
    {
        match self {
            TokenType::Ckb => "ckb",
            TokenType::Udt { name, .. } => name.as_str(),
        }
    }

    /// The script handle to fund with, `None` for the native asset.
    pub fn udt_script(&self) -> (r: Option<u64>)
        ensures
            r == self.script_handle(),
    {
        match self {
            TokenType::Ckb => None,
            TokenType::Udt { script, .. } => Some(*script),
        }
    }

    pub fn is_token(&self, script: Option<u64>) -> (r: bool)
        ensures
            r == self.matches_script(script),
    {
        match (self, script) {
            (TokenType::Ckb, Option::None) => true,
            (TokenType::Udt { script: own, .. }, Option::Some(other)) => *own == other,
            _ => false,
        }
    }
}

/// An externally configured always-consider peer: the handle of its network
/// address, and its identity if one could be derived from that address.
#[derive(Clone, Copy, Debug, PartialEq, Eq, Structural)]
pub struct ExternalPeer {
    pub addr: u64,
    pub peer: Option<u64>,
}

/// Per-agent configuration.
#[derive(Clone, Debug)]
pub struct AgentConfig {
    /// Asset type this agent funds channels with.
    pub token: TokenType,
    /// Peers to consider at full score without scoring them.
    pub external_nodes: Vec<ExternalPeer>,
    /// Maximum number of local channels to hold.
    pub max_chan_num: usize,
    /// Seconds between cycles.
    pub interval: u64,
    /// Maximum number of concurrently pending channel-opening attempts.
    pub max_pending: usize,
    /// Minimum funding amount of one channel.
    pub min_chan_funds: u128,
    /// Maximum funding amount of one channel.
    pub max_chan_funds: u128,
    /// The scoring heuristics and their weights.
    pub heuristics: HeuristicConfig,
}

} // verus!
