//! "Richness" scoring: a peer's channels at or above a fraction of the
//! median channel capacity count for it, channels below count against it,
//! and the net count is normalized by the best net count among the
//! requested peers.

use vstd::prelude::*;

use crate::graph::{ChannelInfo, Graph};
use crate::SCALE;

verus! {

/// A channel below the median capacity divided by this fraction counts
/// against a peer.
pub const MIN_MEDIAN_CHAN_CAP_FRACTION: u128 = 4;

/// Non-decreasing order.
pub open spec fn sorted(s: Seq<u128>) -> bool {
    forall|p: int, q: int| 0 <= p <= q < s.len() ==> s[p] <= s[q]
}

/// How many elements lie strictly below `x`.
pub open spec fn count_lt(s: Seq<u128>, x: u128) -> int
    decreases s.len(),
{
    if s.len() == 0 {
        0
    } else {
        count_lt(s.drop_last(), x) + if s.last() < x {
            1int
        } else {
            0int
        }
    }
}

/// How many elements lie at or below `x`.
pub open spec fn count_le(s: Seq<u128>, x: u128) -> int
    decreases s.len(),
{
    if s.len() == 0 {
        0
    } else {
        count_le(s.drop_last(), x) + if s.last() <= x {
            1int
        } else {
            0int
        }
    }
}

/// The capacity of each channel, in channel order.
pub open spec fn capacities_of(channels: Seq<ChannelInfo>) -> Seq<u128> {
    channels.map_values(|c: ChannelInfo| c.capacity)
}

/// `m` is the element a sorted copy of `caps` holds at its middle index
/// (zero when the list is empty).
pub open spec fn is_median_cap(caps: Seq<u128>, m: u128) -> bool {
    if caps.len() == 0 {
        m == 0
    } else {
        &&& caps.contains(m)
        &&& count_lt(caps, m) <= caps.len() as int / 2
        &&& count_le(caps, m) > caps.len() as int / 2
    }
}

proof fn lemma_count_bounds(s: Seq<u128>, x: u128)
    ensures
        0 <= count_lt(s, x) <= s.len(),
        0 <= count_le(s, x) <= s.len(),
    decreases s.len(),
{
    if s.len() > 0 {
        lemma_count_bounds(s.drop_last(), x);
    }
}

proof fn lemma_count_le_all(s: Seq<u128>, x: u128)
    requires
        forall|i: int| 0 <= i < s.len() ==> (#[trigger] s[i]) <= x,
    ensures
        count_le(s, x) == s.len(),
    decreases s.len(),
{
    if s.len() > 0 {
        assert forall|i: int| 0 <= i < s.drop_last().len() implies (#[trigger] s.drop_last()[i])
            <= x by {
            assert(s.drop_last()[i] == s[i]);
        }
        lemma_count_le_all(s.drop_last(), x);
        assert(s.last() <= x);
    }
}

/// In a sorted list, the element at index `k` has at most `k` elements
/// strictly below it and at least `k + 1` at or below it.
proof fn lemma_sorted_counts(s: Seq<u128>, k: int)
    requires
        sorted(s),
        0 <= k < s.len(),
    ensures
        count_lt(s, s[k]) <= k,
        count_le(s, s[k]) >= k + 1,
    decreases s.len(),
{
    if k == s.len() - 1 {
        lemma_count_bounds(s.drop_last(), s[k]);
        assert forall|i: int| 0 <= i < s.drop_last().len() implies (#[trigger] s.drop_last()[i])
            <= s[k] by {
            assert(s.drop_last()[i] == s[i]);
        }
        lemma_count_le_all(s.drop_last(), s[k]);
        assert(!(s.last() < s[k]));
    } else {
        assert(sorted(s.drop_last())) by {
            assert forall|p: int, q: int|
                0 <= p <= q < s.drop_last().len() implies s.drop_last()[p] <= s.drop_last()[q] by {
                assert(s.drop_last()[p] == s[p] && s.drop_last()[q] == s[q]);
            }
        }
        assert(s.drop_last()[k] == s[k]);
        lemma_sorted_counts(s.drop_last(), k);
        assert(s.last() >= s[k]);
    }
}

proof fn lemma_count_lt_remove(s: Seq<u128>, i: int, x: u128)
    requires
        0 <= i < s.len(),
    ensures
        count_lt(s.remove(i), x) == count_lt(s, x) - (if s[i] < x {
            1int
        } else {
            0int
        }),
        count_le(s.remove(i), x) == count_le(s, x) - (if s[i] <= x {
            1int
        } else {
            0int
        }),
    decreases s.len(),
{
    if i == s.len() - 1 {
        assert(s.remove(i) =~= s.drop_last());
    } else {
        assert(s.remove(i).drop_last() =~= s.drop_last().remove(i));
        assert(s.remove(i).last() == s.last());
        lemma_count_lt_remove(s.drop_last(), i, x);
    }
}

/// Lists with equal multisets have equal order-statistic counts.
proof fn lemma_counts_permutation(s1: Seq<u128>, s2: Seq<u128>, x: u128)
    requires
        s1.to_multiset() == s2.to_multiset(),
    ensures
        count_lt(s1, x) == count_lt(s2, x),
        count_le(s1, x) == count_le(s2, x),
    decreases s1.len(),
{
    broadcast use vstd::multiset::group_multiset_axioms;

    vstd::seq_lib::to_multiset_len(s1);
    vstd::seq_lib::to_multiset_len(s2);
    if s1.len() > 0 {
        let e = s1.last();
        vstd::seq_lib::to_multiset_contains(s1, e);
        vstd::seq_lib::to_multiset_contains(s2, e);
        assert(s1[s1.len() - 1] == e);
        assert(s1.contains(e));
        assert(s2.contains(e));
        let i = choose|i: int| 0 <= i < s2.len() && s2[i] == e;
        assert(s1.drop_last() =~= s1.remove(s1.len() - 1));
        vstd::seq_lib::to_multiset_remove(s1, s1.len() - 1);
        vstd::seq_lib::to_multiset_remove(s2, i);
        assert(s1.drop_last().to_multiset() == s2.remove(i).to_multiset());
        lemma_counts_permutation(s1.drop_last(), s2.remove(i), x);
        lemma_count_lt_remove(s2, i, x);
    }
}

/// Insertion sort of the capacity list.
fn sort_caps(v: Vec<u128>) -> (r: Vec<u128>)
    ensures
        sorted(r@),
        r@.to_multiset() == v@.to_multiset(),
        r@.len() == v@.len(),
{
    let mut a = v;
    if a.len() < 2 {
        return a;
    }
    let ghost orig = a@;
    let mut i: usize = 1;
    while i < a.len()
        invariant
            1 <= i <= a@.len(),
            a@.len() == orig.len(),
            a@.to_multiset() == orig.to_multiset(),
            forall|p: int, q: int| 0 <= p <= q < i ==> a@[p] <= a@[q],
        decreases a@.len() - i,
    {
        let mut j: usize = i;
        while j > 0 && a[j - 1] > a[j]
            invariant
                0 <= j <= i < a@.len(),
                a@.len() == orig.len(),
                a@.to_multiset() == orig.to_multiset(),
                forall|p: int, q: int| 0 <= p <= q <= i && q != j ==> a@[p] <= a@[q],
            decreases j,
        {
            let ghost before = a@;
            let x = a[j - 1];
            let y = a[j];
            a.set(j - 1, y);
            a.set(j, x);
            proof {
                broadcast use vstd::multiset::group_multiset_axioms;

                let mid = before.update(j - 1, y);
                vstd::seq_lib::to_multiset_update(before, j - 1, y);
                vstd::seq_lib::to_multiset_update(mid, j as int, x);
                assert(before.to_multiset().count(x) > 0) by {
                    vstd::seq_lib::to_multiset_contains(before, x);
                    assert(before[j - 1] == x);
                    assert(before.contains(x));
                }
                assert(mid[j as int] == y);
                assert(mid.to_multiset() == before.to_multiset().remove(x).insert(y));
                assert(a@.to_multiset() == mid.to_multiset().remove(y).insert(x));
                assert(a@.to_multiset() =~= before.to_multiset());
            }
            j = j - 1;
        }
        proof {
            assert forall|p: int, q: int| 0 <= p <= q <= i implies a@[p] <= a@[q] by {
                if q == j {
                    if p < q {
                        assert(a@[p] <= a@[q - 1]);
                    }
                }
            }
        }
        i = i + 1;
    }
    a
}

/// Signed contribution of one channel to the net count of peer `p`: +1 for
/// each endpoint equal to `p` when the capacity is at or above `floor`, -1
/// when below.
pub open spec fn chan_contrib(c: ChannelInfo, p: u64, floor: u128) -> int {
    (if c.node1 == p {
        if c.capacity < floor {
            -1int
        } else {
            1int
        }
    } else {
        0int
    }) + (if c.node2 == p {
        if c.capacity < floor {
            -1int
        } else {
            1int
        }
    } else {
        0int
    })
}

/// Net channel count of peer `p`.
pub open spec fn net_count(channels: Seq<ChannelInfo>, p: u64, floor: u128) -> int
    decreases channels.len(),
{
    if channels.len() == 0 {
        0
    } else {
        net_count(channels.drop_last(), p, floor) + chan_contrib(channels.last(), p, floor)
    }
}

/// Greatest net count among the requested peers, at least zero.
pub open spec fn max_net(channels: Seq<ChannelInfo>, peers: Seq<u64>, floor: u128) -> int
    decreases peers.len(),
{
    if peers.len() == 0 {
        0
    } else {
        let rest = max_net(channels, peers.drop_last(), floor);
        let x = net_count(channels, peers.last(), floor);
        if x > rest {
            x
        } else {
            rest
        }
    }
}

/// Richness score of the `i`-th requested peer: its positive net count
/// scaled against the best net count, zero otherwise.
pub open spec fn richness_score(channels: Seq<ChannelInfo>, peers: Seq<u64>, m: u128, i: int) -> int {
    let floor = m / MIN_MEDIAN_CHAN_CAP_FRACTION;
    let net = net_count(channels, peers[i], floor);
    let mx = max_net(channels, peers, floor);
    if net > 0 {
        net * (SCALE as int) / mx
    } else {
        0
    }
}

proof fn lemma_net_bounds(channels: Seq<ChannelInfo>, p: u64, floor: u128)
    ensures
        -2 * channels.len() <= net_count(channels, p, floor) <= 2 * channels.len(),
    decreases channels.len(),
{
    if channels.len() > 0 {
        lemma_net_bounds(channels.drop_last(), p, floor);
    }
}

proof fn lemma_max_net_ge(channels: Seq<ChannelInfo>, peers: Seq<u64>, floor: u128, j: int)
    requires
        0 <= j < peers.len(),
    ensures
        net_count(channels, peers[j], floor) <= max_net(channels, peers, floor),
        max_net(channels, peers, floor) >= 0,
    decreases peers.len(),
{
    if j == peers.len() - 1 {
        lemma_max_net_nonneg(channels, peers.drop_last(), floor);
    } else {
        assert(peers.drop_last()[j] == peers[j]);
        lemma_max_net_ge(channels, peers.drop_last(), floor, j);
    }
}

proof fn lemma_max_net_nonneg(channels: Seq<ChannelInfo>, peers: Seq<u64>, floor: u128)
    ensures
        max_net(channels, peers, floor) >= 0,
    decreases peers.len(),
{
    if peers.len() > 0 {
        lemma_max_net_nonneg(channels, peers.drop_last(), floor);
    }
}

/// What the richness scorer returns: one score per requested peer, each
/// within `[0, SCALE]`, following the score formula at the median channel
/// capacity.
pub open spec fn richness_scores_ok(
    channels: Seq<ChannelInfo>,
    peers: Seq<u64>,
    scores: Seq<u64>,
) -> bool {
    &&& scores.len() == peers.len()
    &&& forall|i: int| 0 <= i < scores.len() ==> (#[trigger] scores[i]) <= SCALE
    &&& exists|m: u128|
        #[trigger] is_median_cap(capacities_of(channels), m) && forall|i: int|
            0 <= i < peers.len() ==> (#[trigger] scores[i]) as int == richness_score(
                channels,
                peers,
                m,
                i,
            )
}

/// Richness score in `[0, SCALE]` for every requested peer, computed from
/// the median channel capacity of the whole graph.
pub fn get_node_scores(graph: &Graph, peers: &Vec<u64>) -> (r: Vec<u64>)
    ensures
        richness_scores_ok(graph.spec_channels(), peers@, r@),
        r@.len() == peers@.len(),
        forall|i: int| 0 <= i < r@.len() ==> (#[trigger] r@[i]) <= SCALE,
{
    let channels = graph.channels();
    let m_chan = channels.len();
    let mut caps: Vec<u128> = Vec::new();
    let mut k: usize = 0;
    while k < m_chan
        invariant
            m_chan == channels@.len(),
            k <= m_chan,
            caps@.len() == k,
            forall|t: int| 0 <= t < k ==> (#[trigger] caps@[t]) == channels@[t].capacity,
        decreases m_chan - k,
    {
        caps.push(channels[k].capacity);
        k = k + 1;
    }
    let ghost caps_seq = caps@;
    proof {
        assert(caps_seq =~= capacities_of(graph.spec_channels()));
    }
    let sorted_caps = sort_caps(caps);
    let med: u128 = if sorted_caps.len() > 0 {
        sorted_caps[sorted_caps.len() / 2]
    } else {
        0u128
    };
    proof {
        if sorted_caps@.len() > 0 {
            let mid = sorted_caps@.len() as int / 2;
            lemma_sorted_counts(sorted_caps@, mid);
            lemma_counts_permutation(caps_seq, sorted_caps@, med);
            vstd::seq_lib::to_multiset_contains(sorted_caps@, med);
            vstd::seq_lib::to_multiset_contains(caps_seq, med);
            assert(sorted_caps@.contains(med));
            assert(caps_seq.contains(med));
        }
        assert(is_median_cap(caps_seq, med));
    }
    let floor = med / MIN_MEDIAN_CHAN_CAP_FRACTION;
    // Net channel count per requested peer.
    let n_peers = peers.len();
    let mut nets: Vec<i128> = Vec::new();
    let mut i: usize = 0;
    while i < n_peers
        invariant
            n_peers == peers@.len(),
            m_chan == channels@.len(),
            channels@ == graph.spec_channels(),
            i <= n_peers,
            nets@.len() == i,
            forall|t: int|
                0 <= t < i ==> (#[trigger] nets@[t]) as int == net_count(
                    channels@,
                    peers@[t],
                    floor,
                ),
        decreases n_peers - i,
    {
        let p = peers[i];
        let mut acc: i128 = 0;
        let mut k: usize = 0;
        while k < m_chan
            invariant
                m_chan == channels@.len(),
                k <= m_chan,
                acc as int == net_count(channels@.take(k as int), p, floor),
                -2 * (k as int) <= acc as int <= 2 * (k as int),
            decreases m_chan - k,
        {
            proof {
                assert(channels@.take(k as int + 1).drop_last() =~= channels@.take(k as int));
                assert(channels@.take(k as int + 1).last() == channels@[k as int]);
            }
            let c = channels[k];
            if c.node1 == p {
                if c.capacity < floor {
                    acc = acc - 1;
                } else {
                    acc = acc + 1;
                }
            }
            if c.node2 == p {
                if c.capacity < floor {
                    acc = acc - 1;
                } else {
                    acc = acc + 1;
                }
            }
            k = k + 1;
        }
        proof {
            assert(channels@.take(m_chan as int) =~= channels@);
        }
        nets.push(acc);
        i = i + 1;
    }
    // Best net count, floored at zero.
    let mut mx: i128 = 0;
    let mut i: usize = 0;
    proof {
        assert(peers@.take(0) =~= Seq::<u64>::empty());
    }
    while i < n_peers
        invariant
            n_peers == peers@.len(),
            i <= n_peers,
            nets@.len() == n_peers,
            forall|t: int|
                0 <= t < n_peers ==> (#[trigger] nets@[t]) as int == net_count(
                    channels@,
                    peers@[t],
                    floor,
                ),
            channels@ == graph.spec_channels(),
            mx as int == max_net(channels@, peers@.take(i as int), floor),
        decreases n_peers - i,
    {
        proof {
            assert(peers@.take(i as int + 1).drop_last() =~= peers@.take(i as int));
            assert(peers@.take(i as int + 1).last() == peers@[i as int]);
        }
        let x = nets[i];
        if x > mx {
            mx = x;
        }
        i = i + 1;
    }
    proof {
        assert(peers@.take(n_peers as int) =~= peers@);
    }
    // Scores.
    let mut out: Vec<u64> = Vec::new();
    let mut i: usize = 0;
    while i < n_peers
        invariant
            n_peers == peers@.len(),
            i <= n_peers,
            nets@.len() == n_peers,
            out@.len() == i,
            forall|t: int|
                0 <= t < n_peers ==> (#[trigger] nets@[t]) as int == net_count(
                    channels@,
                    peers@[t],
                    floor,
                ),
            channels@ == graph.spec_channels(),
            m_chan == channels@.len(),
            mx as int == max_net(channels@, peers@, floor),
            floor == med / MIN_MEDIAN_CHAN_CAP_FRACTION,
            forall|t: int| 0 <= t < i ==> (#[trigger] out@[t]) <= SCALE,
            forall|t: int|
                0 <= t < i ==> (#[trigger] out@[t]) as int == richness_score(
                    channels@,
                    peers@,
                    med,
                    t,
                ),
        decreases n_peers - i,
    {
        let net = nets[i];
        if net > 0 {
            proof {
                lemma_max_net_ge(channels@, peers@, floor, i as int);
                lemma_net_bounds(channels@, peers@[i as int], floor);
                crate::lemma_scaled_ratio_bounds(net as int, mx as int);
                assert(net as int <= 2 * (m_chan as int));
                assert(m_chan as int <= u64::MAX as int);
                vstd::arithmetic::mul::lemma_mul_inequality(
                    net as int,
                    2 * (u64::MAX as int),
                    SCALE as int,
                );
            }
            let num = (net as u128) * (SCALE as u128);
            let score = num / (mx as u128);
            out.push(score as u64);
        } else {
            out.push(0u64);
        }
        i = i + 1;
    }
    proof {
        assert(is_median_cap(caps_seq, med));
    }
    out
}

} // verus!
