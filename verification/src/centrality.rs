//! Betweenness centrality over the topology graph.
//!
//! For every source node a breadth-first pass counts shortest paths, and a
//! reverse pass accumulates each node's dependency, in fixed-point
//! arithmetic with denominator [`SCALE`] and all accumulators capped at
//! [`CENT_CAP`]. The per-source results are summed element-wise and halved
//! (each undirected channel is walked from both endpoints), and the
//! minimum and maximum of the halved values drive min-max normalization.

use vstd::prelude::*;

use crate::graph::{adj_views, edge_views, edges_all_empty, edges_in_bounds, find_node_idx, node_idx, Graph};
use crate::{cap_add, cap_mul, spec_cap_add, spec_cap_mul, CENT_CAP, SCALE};

verus! {

/// Failure of the centrality engine, surfaced to the caller instead of
/// panicking.
#[derive(Clone, Copy, Debug, PartialEq, Eq, Structural)]
pub enum CentralityError {
    /// All values are equal, so min-max normalization is undefined.
    Degenerate,
    /// A partial result vector does not have one entry per node.
    PartialLength,
}

/// A vector holding `val` at each of `n` slots.
fn vec_fill<T: Copy>(n: usize, val: T) -> (r: Vec<T>)
    ensures
        r@.len() == n,
        forall|i: int| 0 <= i < n ==> r@[i] == val,
{
    let mut r: Vec<T> = Vec::new();
    let mut i: usize = 0;
    while i < n
        invariant
            i <= n,
            r@.len() == i,
            forall|j: int| 0 <= j < i ==> r@[j] == val,
        decreases n - i,
    {
        r.push(val);
        i = i + 1;
    }
    r
}

/// A sequence of distinct values below `n` has at most `n` elements.
proof fn lemma_distinct_bounded_len(s: Seq<usize>, n: int)
    requires
        0 <= n,
        s.no_duplicates(),
        forall|t: int| 0 <= t < s.len() ==> (#[trigger] s[t] as int) < n,
    ensures
        s.len() <= n,
{
    broadcast use vstd::set::group_set_axioms;

    let si = s.map_values(|x: usize| x as int);
    assert(si.len() == s.len());
    assert forall|i: int, j: int| 0 <= i < si.len() && 0 <= j < si.len() && i != j implies si[i]
        != si[j] by {
        assert(s[i] != s[j]);
    }
    assert(si.no_duplicates());
    si.unique_seq_to_set();
    let range = vstd::set_lib::set_int_range(0, n);
    vstd::set_lib::lemma_int_range(0, n);
    assert forall|x: int| si.to_set().contains(x) implies range.contains(x) by {
        assert(si.contains(x));
        let t = choose|t: int| 0 <= t < si.len() && si[t] == x;
        assert((s[t] as int) < n);
        assert(x == s[t] as int);
    }
    assert(si.to_set().subset_of(range));
    vstd::set_lib::lemma_len_subset(si.to_set(), range);
}


/// One neighbor step of the discovery pass: a first visit fixes the
/// distance and joins the order; a neighbor on the next level adds the
/// current node's path count.
pub open spec fn bfs_step(
    dist: Seq<i128>,
    sigma: Seq<u64>,
    order: Seq<usize>,
    v: int,
    dv: i128,
    w: int,
) -> (Seq<i128>, Seq<u64>, Seq<usize>) {
    let nd = ((dv as int) + 1) as i128;
    let dist1 = if dist[w] == -1i128 {
        dist.update(w, nd)
    } else {
        dist
    };
    let order1 = if dist[w] == -1i128 {
        order.push(w as usize)
    } else {
        order
    };
    let sigma1 = if dist1[w] == nd {
        sigma.update(w, crate::spec_sat_add_u64(sigma[w], sigma[v]))
    } else {
        sigma
    };
    (dist1, sigma1, order1)
}

/// The discovery step applied to each neighbor of `v` from slot `k` on.
pub open spec fn bfs_inner(
    dist: Seq<i128>,
    sigma: Seq<u64>,
    order: Seq<usize>,
    v: int,
    dv: i128,
    row: Seq<usize>,
    k: int,
) -> (Seq<i128>, Seq<u64>, Seq<usize>)
    decreases row.len() - k,
{
    if k < 0 || k >= row.len() {
        (dist, sigma, order)
    } else {
        let st = bfs_step(dist, sigma, order, v, dv, row[k] as int);
        bfs_inner(st.0, st.1, st.2, v, dv, row, k + 1)
    }
}

/// The discovery pass from worklist position `head` on; the order list is
/// both queue and stack, so the pass ends when `head` catches up with it.
pub open spec fn bfs_loop(
    dist: Seq<i128>,
    sigma: Seq<u64>,
    order: Seq<usize>,
    head: int,
    edges: Seq<Seq<usize>>,
    n: int,
) -> (Seq<i128>, Seq<u64>, Seq<usize>)
    decreases n - head,
{
    if !(0 <= head && head < order.len() && order.len() <= n && head < n) {
        (dist, sigma, order)
    } else {
        let v = order[head] as int;
        let dv = dist[v];
        let st = bfs_inner(dist, sigma, order, v, dv, edges[v], 0);
        bfs_loop(st.0, st.1, st.2, head + 1, edges, n)
    }
}

/// One neighbor step of the dependency pass: a neighbor one level closer
/// to the source is a shortest-path predecessor and accumulates its share.
pub open spec fn dep_step(
    delta: Seq<u128>,
    dist: Seq<i128>,
    sigma: Seq<u64>,
    w: int,
    dw: i128,
    sw: u64,
    u: int,
) -> Seq<u128> {
    if dist[u] as int >= 0 && dist[u] as int == dw as int - 1 && sw as int > 0 {
        let num = spec_cap_mul(sigma[u] as u128, spec_cap_add(SCALE as u128, delta[w]));
        let term = ((num as int) / (sw as int)) as u128;
        delta.update(u, spec_cap_add(delta[u], term))
    } else {
        delta
    }
}

/// The dependency step applied to each neighbor of `w` from slot `k` on.
pub open spec fn dep_inner(
    delta: Seq<u128>,
    dist: Seq<i128>,
    sigma: Seq<u64>,
    w: int,
    dw: i128,
    sw: u64,
    row: Seq<usize>,
    k: int,
) -> Seq<u128>
    decreases row.len() - k,
{
    if k < 0 || k >= row.len() {
        delta
    } else {
        let d1 = dep_step(delta, dist, sigma, w, dw, sw, row[k] as int);
        dep_inner(d1, dist, sigma, w, dw, sw, row, k + 1)
    }
}

/// The dependency pass over the first `t` discovered nodes, walked in
/// reverse discovery order; every node but the source banks its
/// accumulated dependency.
pub open spec fn dep_loop(
    delta: Seq<u128>,
    cent: Seq<u128>,
    dist: Seq<i128>,
    sigma: Seq<u64>,
    order: Seq<usize>,
    edges: Seq<Seq<usize>>,
    s: int,
    t: int,
) -> (Seq<u128>, Seq<u128>)
    decreases t,
{
    if t <= 0 || t > order.len() {
        (delta, cent)
    } else {
        let w = order[t - 1] as int;
        let dw = dist[w];
        let sw = sigma[w];
        let delta1 = dep_inner(delta, dist, sigma, w, dw, sw, edges[w], 0);
        let cent1 = if w != s {
            cent.update(w, spec_cap_add(cent[w], delta1[w]))
        } else {
            cent
        };
        dep_loop(delta1, cent1, dist, sigma, order, edges, s, t - 1)
    }
}

/// Distances before discovery: zero at the source, undiscovered elsewhere.
pub open spec fn init_dist(n: int, s: int) -> Seq<i128> {
    Seq::new(n as nat, |i: int| if i == s { 0i128 } else { -1i128 })
}

/// Path counts before discovery: one at the source, zero elsewhere.
pub open spec fn init_sigma(n: int, s: int) -> Seq<u64> {
    Seq::new(n as nat, |i: int| if i == s { 1u64 } else { 0u64 })
}

/// An all-zero accumulator vector.
pub open spec fn zero_accs(n: int) -> Seq<u128> {
    Seq::new(n as nat, |i: int| 0u128)
}

/// The dependency accumulator vector of the single-source pass from `s`:
/// discovery from the source alone, then the dependency pass over the
/// discovered nodes in reverse.
pub open spec fn spec_centrality(n: int, edges: Seq<Seq<usize>>, s: int) -> Seq<u128> {
    let bfs = bfs_loop(init_dist(n, s), init_sigma(n, s), seq![s as usize], 0, edges, n);
    dep_loop(zero_accs(n), zero_accs(n), bfs.0, bfs.1, bfs.2, edges, s, bfs.2.len() as int).1
}

/// Single-source pass of the centrality computation: breadth-first shortest
/// path counting from `s`, then dependency accumulation in reverse
/// discovery order. Returns one fixed-point dependency accumulator per
/// node; the source's own entry is zero, and a graph without adjacency
/// entries yields all zeros.
pub fn centrality(n: usize, edges: &Vec<Vec<usize>>, s: usize) -> (r: Vec<u128>)
    requires
        s < n,
        edges@.len() == n,
        edges_in_bounds(edges@, n as int),
    ensures
        r@ == spec_centrality(n as int, edge_views(edges@), s as int),
        r@.len() == n,
        r@[s as int] == 0,
        forall|i: int| 0 <= i < n ==> (#[trigger] r@[i]) <= CENT_CAP,
        edges_all_empty(edges@) ==> forall|i: int| 0 <= i < n ==> (#[trigger] r@[i]) == 0,
{
    // Distance from `s` (-1 while undiscovered), shortest-path counts, and
    // the discovery order, which doubles as queue and reverse-pass stack.
    let mut dist: Vec<i128> = vec_fill(n, -1i128);
    let mut sigma: Vec<u64> = vec_fill(n, 0u64);
    let mut order: Vec<usize> = Vec::new();
    dist.set(s, 0);
    sigma.set(s, 1);
    order.push(s);
    let mut head: usize = 0;
    let ghost ev = edge_views(edges@);
    let ghost d0 = dist@;
    let ghost s0 = sigma@;
    let ghost o0 = order@;
    proof {
        assert(ev.len() == n);
        assert(d0 =~= init_dist(n as int, s as int));
        assert(s0 =~= init_sigma(n as int, s as int));
        assert(o0 =~= seq![s]);
        assert(order@.len() == 1);
        assert(order@[0] == s);
        assert forall|v: int|
            0 <= v < n implies ((#[trigger] dist@[v]) >= 0 <==> exists|t: int|
                0 <= t < order@.len() && #[trigger] order@[t] as int == v) by {
            if dist@[v] >= 0 {
                assert(v == s as int);
                assert(order@[0] as int == v);
            }
            if exists|t: int| 0 <= t < order@.len() && #[trigger] order@[t] as int == v {
                let t = choose|t: int| 0 <= t < order@.len() && #[trigger] order@[t] as int == v;
                assert(t == 0);
                assert(v == s as int);
            }
        }
    }
    while head < order.len()
        invariant
            n == edges@.len(),
            edges_in_bounds(edges@, n as int),
            s < n,
            dist@.len() == n,
            sigma@.len() == n,
            head <= order@.len(),
            order@.len() <= n,
            forall|t: int| 0 <= t < order@.len() ==> (#[trigger] order@[t] as int) < n,
            order@.no_duplicates(),
            forall|v: int|
                0 <= v < n ==> ((#[trigger] dist@[v]) >= 0 <==> exists|t: int|
                    0 <= t < order@.len() && #[trigger] order@[t] as int == v),
            forall|v: int| 0 <= v < n ==> -1 <= (#[trigger] dist@[v]) <= n,
            forall|t: int| 0 <= t < order@.len() ==> dist@[#[trigger] order@[t] as int] <= t,
            forall|t: int| 0 <= t < order@.len() ==> sigma@[#[trigger] order@[t] as int] >= 1,
            edges_all_empty(edges@) ==> order@ =~= seq![s],
            ev == edge_views(edges@),
            bfs_loop(d0, s0, o0, 0, ev, n as int) == bfs_loop(
                dist@,
                sigma@,
                order@,
                head as int,
                ev,
                n as int,
            ),
        decreases n - head,
    {
        let v = order[head];
        let dv = dist[v];
        proof {
            assert(order@[head as int] as int == v as int);
            assert(dv >= 0);
            assert(dv <= head as int);
        }
        let ghost di = dist@;
        let ghost si = sigma@;
        let ghost oi = order@;
        let ghost hi = head as int;
        let row_len = edges[v].len();
        proof {
            assert(ev[v as int] == edges@[v as int]@);
        }
        let mut k: usize = 0;
        while k < row_len
            invariant
                n == edges@.len(),
                edges_in_bounds(edges@, n as int),
                s < n,
                v < n,
                row_len == edges@[v as int]@.len(),
                k <= row_len,
                head < order@.len(),
                order@[head as int] == v,
                dist@[v as int] == dv,
                0 <= dv <= head,
                dist@.len() == n,
                sigma@.len() == n,
                order@.len() <= n,
                forall|t: int| 0 <= t < order@.len() ==> (#[trigger] order@[t] as int) < n,
                order@.no_duplicates(),
                forall|w: int|
                    0 <= w < n ==> ((#[trigger] dist@[w]) >= 0 <==> exists|t: int|
                        0 <= t < order@.len() && #[trigger] order@[t] as int == w),
                forall|w: int| 0 <= w < n ==> -1 <= (#[trigger] dist@[w]) <= n,
                forall|t: int| 0 <= t < order@.len() ==> dist@[#[trigger] order@[t] as int] <= t,
                forall|t: int| 0 <= t < order@.len() ==> sigma@[#[trigger] order@[t] as int] >= 1,
                edges_all_empty(edges@) ==> order@ =~= seq![s],
                ev == edge_views(edges@),
                ev[v as int] == edges@[v as int]@,
                bfs_inner(di, si, oi, v as int, dv, ev[v as int], 0) == bfs_inner(
                    dist@,
                    sigma@,
                    order@,
                    v as int,
                    dv,
                    ev[v as int],
                    k as int,
                ),
            decreases row_len - k,
        {
            let w = edges[v][k];
            let ghost db = dist@;
            let ghost sb = sigma@;
            let ghost ob = order@;
            proof {
                assert(edges@[v as int]@[k as int] == w);
                assert(ev[v as int][k as int] == w);
                assert((w as int) < n);
            }
            if dist[w] == -1 {
                let ghost order_old = order@;
                let ghost dist_old = dist@;
                dist.set(w, dv + 1);
                proof {
                    assert(forall|t: int|
                        0 <= t < order_old.len() ==> (#[trigger] order_old[t] as int) != w as int);
                }
                order.push(w);
                proof {
                    assert(order@ == order_old.push(w));
                    assert(order@.last() == w);
                    assert forall|t1: int, t2: int|
                        0 <= t1 < order@.len() && 0 <= t2 < order@.len() && t1 != t2 implies order@[t1]
                        != order@[t2] by {
                        if t1 < order@.len() - 1 && t2 < order@.len() - 1 {
                            assert(order_old[t1] != order_old[t2]);
                        }
                    }
                    assert(order@.no_duplicates());
                    lemma_distinct_bounded_len(order@, n as int);
                    assert forall|x: int|
                        0 <= x < n implies ((#[trigger] dist@[x]) >= 0 <==> exists|t: int|
                            0 <= t < order@.len() && #[trigger] order@[t] as int == x) by {
                        if x == w as int {
                            assert(order@[order@.len() - 1] as int == x);
                        } else {
                            assert(dist@[x] == dist_old[x]);
                            if dist_old[x] >= 0 {
                                let t = choose|t: int|
                                    0 <= t < order_old.len() && #[trigger] order_old[t] as int == x;
                                assert(order@[t] as int == x);
                            }
                            if exists|t: int|
                                0 <= t < order@.len() && #[trigger] order@[t] as int == x {
                                let t = choose|t: int|
                                    0 <= t < order@.len() && #[trigger] order@[t] as int == x;
                                assert(t < order@.len() - 1);
                                assert(order_old[t] as int == x);
                            }
                        }
                    }
                    if edges_all_empty(edges@) {
                        assert(edges@[v as int]@.len() == 0);
                        assert(false);
                    }
                }
            }
            if dist[w] == dv + 1 {
                let sv = sigma[v];
                let sw = sigma[w];
                sigma.set(w, crate::sat_add_u64(sw, sv));
                proof {
                    assert forall|t: int|
                        0 <= t < order@.len() implies sigma@[#[trigger] order@[t] as int]
                        >= 1 by {
                        if order@[t] as int != w as int {
                            assert(sigma@[order@[t] as int] >= 1);
                        } else {
                            assert(sigma@[v as int] >= 1);
                        }
                    }
                }
            }
            proof {
                let st = bfs_step(db, sb, ob, v as int, dv, w as int);
                assert(dist@ == st.0);
                assert(sigma@ == st.1);
                assert(order@ == st.2);
                assert(bfs_inner(db, sb, ob, v as int, dv, ev[v as int], k as int) == bfs_inner(
                    st.0,
                    st.1,
                    st.2,
                    v as int,
                    dv,
                    ev[v as int],
                    k as int + 1,
                ));
            }
            k = k + 1;
        }
        proof {
            assert(bfs_inner(di, si, oi, v as int, dv, ev[v as int], 0) == (
                dist@,
                sigma@,
                order@,
            ));
            assert(bfs_loop(di, si, oi, hi, ev, n as int) == bfs_loop(
                dist@,
                sigma@,
                order@,
                hi + 1,
                ev,
                n as int,
            ));
        }
        head = head + 1;
    }
    let ghost df = dist@;
    let ghost sf = sigma@;
    let ghost of = order@;
    proof {
        assert(bfs_loop(d0, s0, o0, 0, ev, n as int) == (df, sf, of));
    }
    // Reverse pass: accumulate dependencies in reverse discovery order. A
    // neighbor one level closer to the source is a shortest-path
    // predecessor.
    let mut delta: Vec<u128> = vec_fill(n, 0u128);
    let mut cent: Vec<u128> = vec_fill(n, 0u128);
    let mut t: usize = order.len();
    let ghost dl0 = delta@;
    let ghost c0 = cent@;
    while t > 0
        invariant
            n == edges@.len(),
            edges_in_bounds(edges@, n as int),
            s < n,
            t <= order@.len(),
            order@.len() <= n,
            dist@.len() == n,
            sigma@.len() == n,
            delta@.len() == n,
            cent@.len() == n,
            forall|u: int| 0 <= u < order@.len() ==> (#[trigger] order@[u] as int) < n,
            forall|u: int| 0 <= u < order@.len() ==> sigma@[#[trigger] order@[u] as int] >= 1,
            forall|i: int| 0 <= i < n ==> -1 <= (#[trigger] dist@[i]) <= n,
            forall|i: int| 0 <= i < n ==> (#[trigger] delta@[i]) <= CENT_CAP,
            forall|i: int| 0 <= i < n ==> (#[trigger] cent@[i]) <= CENT_CAP,
            cent@[s as int] == 0,
            edges_all_empty(edges@) ==> forall|i: int| 0 <= i < n ==> (#[trigger] cent@[i]) == 0,
            edges_all_empty(edges@) ==> forall|i: int| 0 <= i < n ==> (#[trigger] delta@[i]) == 0,
            ev == edge_views(edges@),
            dist@ == df,
            sigma@ == sf,
            order@ == of,
            dep_loop(dl0, c0, df, sf, of, ev, s as int, of.len() as int) == dep_loop(
                delta@,
                cent@,
                df,
                sf,
                of,
                ev,
                s as int,
                t as int,
            ),
        decreases t,
    {
        t = t - 1;
        let w = order[t];
        let dw = dist[w];
        let sw = sigma[w];
        let ghost dli = delta@;
        let ghost ci = cent@;
        let ghost ti = t as int;
        proof {
            assert(order@[t as int] == w);
            assert(sw >= 1);
            assert(ev[w as int] == edges@[w as int]@);
        }
        let row_len = edges[w].len();
        let mut k: usize = 0;
        while k < row_len
            invariant
                n == edges@.len(),
                edges_in_bounds(edges@, n as int),
                w < n,
                row_len == edges@[w as int]@.len(),
                k <= row_len,
                sw >= 1,
                dist@.len() == n,
                sigma@.len() == n,
                delta@.len() == n,
                forall|i: int| 0 <= i < n ==> -1 <= (#[trigger] dist@[i]) <= n,
                dist@[w as int] == dw,
                sigma@[w as int] == sw,
                forall|i: int| 0 <= i < n ==> (#[trigger] delta@[i]) <= CENT_CAP,
                edges_all_empty(edges@) ==> forall|i: int|
                    0 <= i < n ==> (#[trigger] delta@[i]) == 0,
                ev == edge_views(edges@),
                ev[w as int] == edges@[w as int]@,
                dist@ == df,
                sigma@ == sf,
                dep_inner(dli, df, sf, w as int, dw, sw, ev[w as int], 0) == dep_inner(
                    delta@,
                    df,
                    sf,
                    w as int,
                    dw,
                    sw,
                    ev[w as int],
                    k as int,
                ),
            decreases row_len - k,
        {
            let u = edges[w][k];
            let ghost dbb = delta@;
            proof {
                assert(edges@[w as int]@[k as int] == u);
                assert(ev[w as int][k as int] == u);
                assert((u as int) < n);
            }
            let du = dist[u];
            if du >= 0 && du == dw - 1 {
                let num = cap_mul(sigma[u] as u128, cap_add(SCALE as u128, delta[w]));
                let term = num / (sw as u128);
                proof {
                    vstd::arithmetic::div_mod::lemma_div_nonincreasing(num as int, sw as int);
                }
                let dd = cap_add(delta[u], term);
                delta.set(u, dd);
            }
            proof {
                let d1 = dep_step(dbb, df, sf, w as int, dw, sw, u as int);
                assert(delta@ == d1);
                assert(dep_inner(dbb, df, sf, w as int, dw, sw, ev[w as int], k as int)
                    == dep_inner(d1, df, sf, w as int, dw, sw, ev[w as int], k as int + 1));
            }
            k = k + 1;
        }
        proof {
            assert(dep_inner(dli, df, sf, w as int, dw, sw, ev[w as int], 0) == delta@);
        }
        if w != s {
            let c = cap_add(cent[w], delta[w]);
            cent.set(w, c);
        }
        proof {
            let delta1 = dep_inner(dli, df, sf, w as int, dw, sw, ev[w as int], 0);
            let cent1 = if w as int != s as int {
                ci.update(w as int, spec_cap_add(ci[w as int], delta1[w as int]))
            } else {
                ci
            };
            assert(delta@ == delta1);
            assert(cent@ == cent1);
            assert(dep_loop(dli, ci, df, sf, of, ev, s as int, ti + 1) == dep_loop(
                delta@,
                cent@,
                df,
                sf,
                of,
                ev,
                s as int,
                ti,
            ));
        }
    }
    proof {
        assert(dep_loop(dl0, c0, df, sf, of, ev, s as int, of.len() as int) == (delta@, cent@));
        assert(init_dist(n as int, s as int) =~= d0);
        assert(init_sigma(n as int, s as int) =~= s0);
        assert(seq![s] =~= o0);
        assert(zero_accs(n as int) =~= dl0);
        assert(zero_accs(n as int) =~= c0);
        assert(cent@ == spec_centrality(n as int, ev, s as int));
    }
    cent
}


/// The per-source partial vectors of a graph's centrality computation.
pub open spec fn spec_partials(n: int, edges: Seq<Seq<usize>>) -> Seq<Seq<u128>> {
    Seq::new(n as nat, |src: int| spec_centrality(n, edges, src))
}

/// Capped element-wise sum of plain partial vectors at index `i`.
pub open spec fn cap_sum_seq(partials: Seq<Seq<u128>>, i: int) -> u128
    decreases partials.len(),
{
    if partials.len() == 0 {
        0
    } else {
        spec_cap_add(cap_sum_seq(partials.drop_last(), i), partials.last()[i])
    }
}

/// The halved centrality value the engine stores per node index.
pub open spec fn spec_build_values(n: int, edges: Seq<Seq<usize>>) -> Seq<u128> {
    Seq::new(n as nat, |i: int| (cap_sum_seq(spec_partials(n, edges), i) / 2) as u128)
}

/// The least element (zero for an empty list).
pub open spec fn seq_min_u128(s: Seq<u128>) -> u128
    decreases s.len(),
{
    if s.len() == 0 {
        0
    } else if s.len() == 1 {
        s[0]
    } else {
        let m = seq_min_u128(s.drop_last());
        if s.last() < m {
            s.last()
        } else {
            m
        }
    }
}

/// The greatest element (zero for an empty list).
pub open spec fn seq_max_u128(s: Seq<u128>) -> u128
    decreases s.len(),
{
    if s.len() == 0 {
        0
    } else if s.len() == 1 {
        s[0]
    } else {
        let m = seq_max_u128(s.drop_last());
        if s.last() > m {
            s.last()
        } else {
            m
        }
    }
}

pub proof fn lemma_seq_extremes(s: Seq<u128>)
    ensures
        is_min_of(s, seq_min_u128(s)),
        is_max_of(s, seq_max_u128(s)),
    decreases s.len(),
{
    if s.len() > 1 {
        lemma_seq_extremes(s.drop_last());
        assert forall|i: int| 0 <= i < s.len() implies seq_min_u128(s) <= #[trigger] s[i]
            && #[trigger] s[i] <= seq_max_u128(s) by {
            if i < s.len() - 1 {
                assert(s.drop_last()[i] == s[i]);
            }
        }
        if !(s.last() < seq_min_u128(s.drop_last())) {
            let j = choose|j: int|
                0 <= j < s.drop_last().len() && s.drop_last()[j] == seq_min_u128(s.drop_last());
            assert(s[j] == seq_min_u128(s));
        } else {
            assert(s[s.len() - 1] == seq_min_u128(s));
        }
        if !(s.last() > seq_max_u128(s.drop_last())) {
            let j = choose|j: int|
                0 <= j < s.drop_last().len() && s.drop_last()[j] == seq_max_u128(s.drop_last());
            assert(s[j] == seq_max_u128(s));
        } else {
            assert(s[s.len() - 1] == seq_max_u128(s));
        }
    }
}

/// Attained extremes are unique, so the engine's tracked extremes are the
/// functions above.
pub proof fn lemma_extremes_unique(s: Seq<u128>, lo: u128, hi: u128)
    requires
        is_min_of(s, lo),
        is_max_of(s, hi),
    ensures
        lo == seq_min_u128(s),
        hi == seq_max_u128(s),
{
    lemma_seq_extremes(s);
    if s.len() > 0 {
        let i = choose|i: int| 0 <= i < s.len() && s[i] == lo;
        let j = choose|j: int| 0 <= j < s.len() && s[j] == seq_min_u128(s);
        assert(lo <= s[j] && seq_min_u128(s) <= s[i]);
        let a = choose|a: int| 0 <= a < s.len() && s[a] == hi;
        let b = choose|b: int| 0 <= b < s.len() && s[b] == seq_max_u128(s);
        assert(s[a] <= seq_max_u128(s) && s[b] <= hi);
    }
}

proof fn lemma_cap_sum_views(partials: Seq<Vec<u128>>, model: Seq<Seq<u128>>, i: int)
    requires
        partials.len() == model.len(),
        forall|j: int| 0 <= j < partials.len() ==> (#[trigger] partials[j])@ == model[j],
    ensures
        cap_sum_at(partials, i) == cap_sum_seq(model, i),
    decreases partials.len(),
{
    if partials.len() > 0 {
        assert forall|j: int|
            0 <= j < partials.drop_last().len() implies (#[trigger] partials.drop_last()[j])@
            == model.drop_last()[j] by {
            assert(partials.drop_last()[j] == partials[j]);
            assert(model.drop_last()[j] == model[j]);
        }
        lemma_cap_sum_views(partials.drop_last(), model.drop_last(), i);
        assert(partials.last()@ == model.last());
    }
}

/// Whether the graph's centrality distribution is degenerate: every stored
/// value equal, so min-max normalization has nothing to stretch (a single
/// node, or no usable channels).
pub open spec fn centrality_degenerate(
    nodes: Seq<crate::graph::NodeRecord>,
    channels: Seq<crate::graph::ChannelInfo>,
) -> bool {
    let values = spec_build_values(nodes.len() as int, adj_views(nodes, channels));
    seq_min_u128(values) == seq_max_u128(values)
}

/// What the centrality scorer returns on success: each requested peer's
/// stored value, min-max normalized over the whole graph.
pub open spec fn centrality_scores_ok(
    nodes: Seq<crate::graph::NodeRecord>,
    channels: Seq<crate::graph::ChannelInfo>,
    peers: Seq<u64>,
    scores: Seq<u64>,
) -> bool {
    let values = spec_build_values(nodes.len() as int, adj_views(nodes, channels));
    let lo = seq_min_u128(values);
    let hi = seq_max_u128(values);
    &&& scores.len() == peers.len()
    &&& lo < hi
    &&& forall|i: int|
        0 <= i < peers.len() ==> (#[trigger] scores[i]) as int == norm_spec(
            values[node_idx(nodes, peers[i])->0],
            lo,
            hi,
        )
}

/// The capped element-wise sum of the partial vectors at index `i`.
pub open spec fn cap_sum_at(partials: Seq<Vec<u128>>, i: int) -> u128
    decreases partials.len(),
{
    if partials.len() == 0 {
        0
    } else {
        spec_cap_add(cap_sum_at(partials.drop_last(), i), partials.last()@[i])
    }
}

proof fn lemma_cap_sum_zero(partials: Seq<Vec<u128>>, i: int)
    requires
        forall|j: int| 0 <= j < partials.len() ==> (#[trigger] partials[j])@[i] == 0,
    ensures
        cap_sum_at(partials, i) == 0,
    decreases partials.len(),
{
    if partials.len() > 0 {
        assert forall|j: int|
            0 <= j < partials.drop_last().len() implies (#[trigger] partials.drop_last()[j])@[i]
            == 0 by {
            assert(partials.drop_last()[j] == partials[j]);
        }
        lemma_cap_sum_zero(partials.drop_last(), i);
        assert(partials.last()@[i] == 0);
    }
}

proof fn lemma_cap_sum_bounded(partials: Seq<Vec<u128>>, i: int)
    ensures
        cap_sum_at(partials, i) <= CENT_CAP,
    decreases partials.len(),
{
    if partials.len() > 0 {
        lemma_cap_sum_bounded(partials.drop_last(), i);
    }
}

/// `m` is the least of `values` (zero for an empty list).
pub open spec fn is_min_of(values: Seq<u128>, m: u128) -> bool {
    &&& values.len() == 0 ==> m == 0
    &&& values.len() > 0 ==> values.contains(m)
    &&& forall|i: int| 0 <= i < values.len() ==> m <= #[trigger] values[i]
}

/// `m` is the greatest of `values` (zero for an empty list).
pub open spec fn is_max_of(values: Seq<u128>, m: u128) -> bool {
    &&& values.len() == 0 ==> m == 0
    &&& values.len() > 0 ==> values.contains(m)
    &&& forall|i: int| 0 <= i < values.len() ==> #[trigger] values[i] <= m
}

/// Min-max normalization of `v` to a fixed-point fraction of [`SCALE`].
pub open spec fn norm_spec(v: u128, lo: u128, hi: u128) -> int {
    (v - lo) * (SCALE as int) / (hi - lo)
}

/// Min-max normalization of a non-degenerate value set stays within
/// `[0, SCALE]`, reaches 0 at a minimum and `SCALE` at a maximum.
pub proof fn lemma_normalization_extremes(values: Seq<u128>, lo: u128, hi: u128)
    requires
        is_min_of(values, lo),
        is_max_of(values, hi),
        lo < hi,
    ensures
        forall|i: int|
            0 <= i < values.len() ==> 0 <= #[trigger] norm_spec(values[i], lo, hi) <= SCALE as int,
        exists|i: int| 0 <= i < values.len() && #[trigger] norm_spec(values[i], lo, hi) == 0,
        exists|i: int|
            0 <= i < values.len() && #[trigger] norm_spec(values[i], lo, hi) == SCALE as int,
{
    assert forall|i: int|
        0 <= i < values.len() implies 0 <= #[trigger] norm_spec(values[i], lo, hi)
        <= SCALE as int by {
        crate::lemma_scaled_ratio_bounds(values[i] - lo, hi - lo);
    }
    let i0 = choose|i: int| 0 <= i < values.len() && values[i] == lo;
    assert(norm_spec(values[i0], lo, hi) == 0) by {
        vstd::arithmetic::mul::lemma_mul_by_zero_is_zero(SCALE as int);
        vstd::arithmetic::div_mod::lemma_div_of0((hi - lo) as int);
    }
    let i1 = choose|i: int| 0 <= i < values.len() && values[i] == hi;
    assert(norm_spec(values[i1], lo, hi) == SCALE as int) by {
        crate::lemma_scaled_ratio_bounds(hi - lo, hi - lo);
    }
}

/// Betweenness centrality of every node, with the extremes of the halved
/// per-node accumulators.
pub struct BetweennessCentrality {
    /// Halved fixed-point centrality accumulator per node index.
    pub centrality: Vec<u128>,
    pub min: u128,
    pub max: u128,
}

impl BetweennessCentrality {
    /// `min` and `max` are the attained extremes of the stored values, and
    /// every value is capped.
    pub open spec fn wf(&self) -> bool {
        &&& is_min_of(self.centrality@, self.min)
        &&& is_max_of(self.centrality@, self.max)
        &&& self.min <= self.max
        &&& forall|i: int|
            0 <= i < self.centrality@.len() ==> (#[trigger] self.centrality@[i]) <= CENT_CAP
    }

    /// Aggregates externally computed per-source partial results: sums them
    /// element-wise with capping, halves each slot (each undirected channel
    /// is walked from both of its endpoints), and records min and max.
    /// Fails when a partial vector does not hold one entry per node.
    pub fn from_partials(n: usize, partials: &Vec<Vec<u128>>) -> (r: Result<Self, CentralityError>)
        ensures
            (match r {
                Ok(bc) => (forall|j: int|
                    0 <= j < partials@.len() ==> (#[trigger] partials@[j])@.len() == n) && bc.wf()
                    && bc.centrality@.len() == n && (forall|i: int|
                    0 <= i < n ==> (#[trigger] bc.centrality@[i]) == cap_sum_at(partials@, i) / 2),
                Err(e) => e == CentralityError::PartialLength && exists|j: int|
                    0 <= j < partials@.len() && (#[trigger] partials@[j])@.len() != n,
            }),
    {
        let m = partials.len();
        let mut j: usize = 0;
        while j < m
            invariant
                m == partials@.len(),
                j <= m,
                forall|t: int| 0 <= t < j ==> (#[trigger] partials@[t])@.len() == n,
            decreases m - j,
        {
            if partials[j].len() != n {
                return Err(CentralityError::PartialLength);
            }
            j = j + 1;
        }
        let mut acc: Vec<u128> = vec_fill(n, 0u128);
        proof {
            assert forall|i: int| 0 <= i < n implies acc@[i] == cap_sum_at(partials@.take(0), i) by {
                assert(partials@.take(0) =~= Seq::<Vec<u128>>::empty());
            }
        }
        let mut j: usize = 0;
        while j < m
            invariant
                m == partials@.len(),
                j <= m,
                acc@.len() == n,
                forall|t: int| 0 <= t < m ==> (#[trigger] partials@[t])@.len() == n,
                forall|i: int|
                    0 <= i < n ==> (#[trigger] acc@[i]) == cap_sum_at(partials@.take(j as int), i),
            decreases m - j,
        {
            let mut i: usize = 0;
            while i < n
                invariant
                    m == partials@.len(),
                    j < m,
                    i <= n,
                    acc@.len() == n,
                    forall|t: int| 0 <= t < m ==> (#[trigger] partials@[t])@.len() == n,
                    forall|t: int|
                        i <= t < n ==> (#[trigger] acc@[t]) == cap_sum_at(
                            partials@.take(j as int),
                            t,
                        ),
                    forall|t: int|
                        0 <= t < i ==> (#[trigger] acc@[t]) == cap_sum_at(
                            partials@.take(j as int + 1),
                            t,
                        ),
                decreases n - i,
            {
                proof {
                    assert(partials@.take(j as int + 1).drop_last() =~= partials@.take(j as int));
                    assert(partials@.take(j as int + 1).last() == partials@[j as int]);
                }
                let a = cap_add(acc[i], partials[j][i]);
                acc.set(i, a);
                i = i + 1;
            }
            j = j + 1;
        }
        proof {
            assert(partials@.take(m as int) =~= partials@);
        }
        // Halve: each undirected channel was counted from both endpoints.
        let mut values: Vec<u128> = Vec::new();
        let mut i: usize = 0;
        while i < n
            invariant
                i <= n,
                acc@.len() == n,
                values@.len() == i,
                forall|t: int| 0 <= t < n ==> (#[trigger] acc@[t]) == cap_sum_at(partials@, t),
                forall|t: int| 0 <= t < i ==> (#[trigger] values@[t]) == cap_sum_at(partials@, t) / 2,
                forall|t: int| 0 <= t < i ==> (#[trigger] values@[t]) <= CENT_CAP,
            decreases n - i,
        {
            let v = acc[i] / 2;
            proof {
                lemma_cap_sum_bounded(partials@, i as int);
                vstd::arithmetic::div_mod::lemma_div_nonincreasing(acc@[i as int] as int, 2);
            }
            values.push(v);
            i = i + 1;
        }
        // Track the attained extremes.
        let mut lo: u128 = 0;
        let mut hi: u128 = 0;
        if values.len() > 0 {
            lo = values[0];
            hi = values[0];
            let mut i: usize = 1;
            while i < values.len()
                invariant
                    1 <= i <= values@.len(),
                    values@.contains(lo),
                    values@.contains(hi),
                    lo <= hi,
                    forall|t: int| 0 <= t < i ==> lo <= (#[trigger] values@[t]) <= hi,
                decreases values@.len() - i,
            {
                let x = values[i];
                if x < lo {
                    lo = x;
                }
                if x > hi {
                    hi = x;
                }
                proof {
                    assert(values@[i as int] == x);
                }
                i = i + 1;
            }
        }
        Ok(BetweennessCentrality { centrality: values, min: lo, max: hi })
    }

    /// Runs the single-source pass from every node in turn and aggregates
    /// the partial results. A graph with at most one node, or one without
    /// any adjacency entries, yields equal extremes, on which normalization
    /// later reports the degenerate condition.
    pub fn build(graph: &Graph) -> (bc: Self)
        requires
            graph.wf(),
        ensures
            bc.wf(),
            bc.centrality@.len() == graph.spec_nodes().len(),
            bc.centrality@ == spec_build_values(
                graph.spec_nodes().len() as int,
                adj_views(graph.spec_nodes(), graph.spec_channels()),
            ),
            bc.min == seq_min_u128(bc.centrality@),
            bc.max == seq_max_u128(bc.centrality@),
            (bc.min == bc.max <==> centrality_degenerate(
                graph.spec_nodes(),
                graph.spec_channels(),
            )),
            graph.spec_nodes().len() <= 1 || edges_all_empty(graph.spec_edges()) ==> bc.min
                == bc.max,
    {
        let n = graph.nodes().len();
        let ghost ev = edge_views(graph.spec_edges());
        proof {
            assert(ev =~= adj_views(graph.spec_nodes(), graph.spec_channels()));
        }
        let mut partials: Vec<Vec<u128>> = Vec::new();
        let mut src: usize = 0;
        while src < n
            invariant
                n == graph.spec_nodes().len(),
                graph.wf(),
                ev == edge_views(graph.spec_edges()),
                src <= n,
                partials@.len() == src,
                forall|j: int| 0 <= j < src ==> (#[trigger] partials@[j])@.len() == n,
                forall|j: int| 0 <= j < src ==> (#[trigger] partials@[j])@[j] == 0,
                forall|j: int|
                    0 <= j < src ==> (#[trigger] partials@[j])@ == spec_centrality(
                        n as int,
                        ev,
                        j,
                    ),
                edges_all_empty(graph.spec_edges()) ==> forall|j: int, i: int|
                    0 <= j < src && 0 <= i < n ==> (#[trigger] partials@[j]@[i]) == 0,
            decreases n - src,
        {
            let part = centrality(n, graph.edges(), src);
            partials.push(part);
            src = src + 1;
        }
        match Self::from_partials(n, &partials) {
            Ok(bc) => {
                proof {
                    assert forall|j: int|
                        0 <= j < n implies (#[trigger] partials@[j])@ == spec_partials(
                        n as int,
                        ev,
                    )[j] by {}
                    assert forall|i: int|
                        0 <= i < n implies (#[trigger] bc.centrality@[i]) == spec_build_values(
                        n as int,
                        ev,
                    )[i] by {
                        lemma_cap_sum_views(partials@, spec_partials(n as int, ev), i);
                    }
                    assert(bc.centrality@ =~= spec_build_values(n as int, ev));
                    lemma_extremes_unique(bc.centrality@, bc.min, bc.max);
                    if n <= 1 || edges_all_empty(graph.spec_edges()) {
                        if n == 0 {
                            assert(bc.centrality@.len() == 0);
                        } else {
                            assert forall|i: int| 0 <= i < n implies (#[trigger] bc.centrality@[i])
                                == 0 by {
                                assert forall|j: int|
                                    0 <= j < partials@.len() implies (#[trigger] partials@[j])@[i]
                                    == 0 by {
                                    if n == 1 {
                                        assert(i == 0 && j == 0);
                                    }
                                }
                                lemma_cap_sum_zero(partials@, i);
                            }
                            let jm = choose|i: int|
                                0 <= i < bc.centrality@.len() && bc.centrality@[i] == bc.min;
                            let jx = choose|i: int|
                                0 <= i < bc.centrality@.len() && bc.centrality@[i] == bc.max;
                            assert(bc.centrality@[jm] == 0 && bc.centrality@[jx] == 0);
                        }
                    }
                }
                bc
            },
            Err(_) => {
                proof {
                    assert(false);
                }
                BetweennessCentrality { centrality: Vec::new(), min: 0, max: 0 }
            },
        }
    }

    /// The per-node scores, min-max normalized to `[0, SCALE]` when
    /// `normalize` is set. Normalization of an all-equal value set (a
    /// single node, or a graph without usable channels) is undefined and
    /// reports [`CentralityError::Degenerate`] instead of dividing by zero.
    pub fn get(&self, normalize: bool) -> (r: Result<Vec<u128>, CentralityError>)
        requires
            self.wf(),
        ensures
            (match r {
                Ok(v) => v@.len() == self.centrality@.len() && (normalize ==> self.max > self.min
                    && forall|i: int|
                    0 <= i < v@.len() ==> (#[trigger] v@[i]) as int == norm_spec(
                        self.centrality@[i],
                        self.min,
                        self.max,
                    )) && (!normalize ==> v@ == self.centrality@),
                Err(e) => normalize && self.max == self.min && e == CentralityError::Degenerate,
            }),
    {
        if normalize && self.max == self.min {
            return Err(CentralityError::Degenerate);
        }
        let len = self.centrality.len();
        let mut out: Vec<u128> = Vec::new();
        let mut i: usize = 0;
        while i < len
            invariant
                self.wf(),
                len == self.centrality@.len(),
                i <= len,
                out@.len() == i,
                normalize ==> self.max > self.min,
                normalize ==> forall|t: int|
                    0 <= t < i ==> (#[trigger] out@[t]) as int == norm_spec(
                        self.centrality@[t],
                        self.min,
                        self.max,
                    ),
                !normalize ==> forall|t: int| 0 <= t < i ==> (#[trigger] out@[t]) == self.centrality@[t],
            decreases len - i,
        {
            let v = self.centrality[i];
            if normalize {
                let d = self.max - self.min;
                let base = v - self.min;
                proof {
                    let s = SCALE as int;
                    let cap = CENT_CAP as int;
                    assert(base <= cap);
                    vstd::arithmetic::mul::lemma_mul_inequality(base as int, cap, s);
                    vstd::arithmetic::div_mod::lemma_fundamental_div_mod(u128::MAX as int, s);
                    vstd::arithmetic::div_mod::lemma_remainder_lower(u128::MAX as int, s);
                    assert(cap * s == s * cap) by {
                        vstd::arithmetic::mul::lemma_mul_is_commutative(cap, s);
                    }
                }
                let num = base * (SCALE as u128);
                out.push(num / d);
            } else {
                out.push(v);
            }
            i = i + 1;
        }
        proof {
            if !normalize {
                assert(out@ =~= self.centrality@);
            }
        }
        Ok(out)
    }
}

/// Normalized centrality score for each requested peer.
///
/// Every requested peer must be a node of the graph; a peer without a graph
/// entry would have no centrality, which callers rule out by construction.
/// Fails exactly when the graph's centrality distribution is degenerate.
pub fn get_node_scores(graph: &Graph, peers: &Vec<u64>) -> (r: Result<Vec<u64>, CentralityError>)
    requires
        graph.wf(),
        forall|i: int|
            0 <= i < peers@.len() ==> node_idx(graph.spec_nodes(), #[trigger] peers@[i]) is Some,
    ensures
        r is Err <==> centrality_degenerate(graph.spec_nodes(), graph.spec_channels()),
        (match r {
            Ok(v) => centrality_scores_ok(graph.spec_nodes(), graph.spec_channels(), peers@, v@)
                && forall|i: int| 0 <= i < v@.len() ==> (#[trigger] v@[i]) <= SCALE,
            Err(e) => e == CentralityError::Degenerate,
        }),
{
    let bc = BetweennessCentrality::build(graph);
    let scores = match bc.get(true) {
        Ok(v) => v,
        Err(_) => {
            return Err(CentralityError::Degenerate);
        },
    };
    let ghost values = spec_build_values(
        graph.spec_nodes().len() as int,
        adj_views(graph.spec_nodes(), graph.spec_channels()),
    );
    let ghost lo = seq_min_u128(values);
    let ghost hi = seq_max_u128(values);
    proof {
        lemma_normalization_extremes(bc.centrality@, bc.min, bc.max);
        assert(bc.centrality@ == values && bc.min == lo && bc.max == hi);
    }
    let mut out: Vec<u64> = Vec::new();
    let mut i: usize = 0;
    while i < peers.len()
        invariant
            graph.wf(),
            forall|t: int|
                0 <= t < peers@.len() ==> node_idx(graph.spec_nodes(), #[trigger] peers@[t]) is Some,
            scores@.len() == graph.spec_nodes().len(),
            values == spec_build_values(
                graph.spec_nodes().len() as int,
                adj_views(graph.spec_nodes(), graph.spec_channels()),
            ),
            lo == seq_min_u128(values),
            hi == seq_max_u128(values),
            lo < hi,
            forall|t: int|
                0 <= t < scores@.len() ==> (#[trigger] scores@[t]) as int == norm_spec(
                    values[t],
                    lo,
                    hi,
                ),
            forall|t: int| 0 <= t < scores@.len() ==> (#[trigger] scores@[t]) <= SCALE,
            i <= peers@.len(),
            out@.len() == i,
            forall|t: int| 0 <= t < i ==> (#[trigger] out@[t]) <= SCALE,
            forall|t: int|
                0 <= t < i ==> (#[trigger] out@[t]) as int == norm_spec(
                    values[node_idx(graph.spec_nodes(), peers@[t])->0],
                    lo,
                    hi,
                ),
        decreases peers@.len() - i,
    {
        let idx = match find_node_idx(graph.nodes(), peers[i]) {
            Some(ix) => ix,
            None => {
                proof {
                    assert(node_idx(graph.spec_nodes(), peers@[i as int]) is Some);
                    assert(false);
                }
                0
            },
        };
        proof {
            crate::graph::lemma_node_idx(graph.spec_nodes(), peers@[i as int]);
        }
        out.push(scores[idx] as u64);
        i = i + 1;
    }
    Ok(out)
}


} // verus!
