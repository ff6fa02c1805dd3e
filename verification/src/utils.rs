//! Weighted sampling without replacement, and address-string helpers.

use vstd::prelude::*;

use rand::Rng;

verus! {

/// Sum of the weights of a scored item list.
pub open spec fn sum_weights(s: Seq<(u64, u64)>) -> int
    decreases s.len(),
{
    if s.len() == 0 {
        0
    } else {
        sum_weights(s.drop_last()) + s.last().1
    }
}

/// How many items carry a positive weight.
pub open spec fn count_pos(s: Seq<(u64, u64)>) -> int
    decreases s.len(),
{
    if s.len() == 0 {
        0
    } else {
        count_pos(s.drop_last()) + if s.last().1 > 0 {
            1int
        } else {
            0int
        }
    }
}

/// Sum of a plain weight list.
pub open spec fn sum_u64(s: Seq<u64>) -> int
    decreases s.len(),
{
    if s.len() == 0 {
        0
    } else {
        sum_u64(s.drop_last()) + s.last()
    }
}

pub proof fn lemma_count_pos_bounds(s: Seq<(u64, u64)>)
    ensures
        0 <= count_pos(s) <= s.len(),
    decreases s.len(),
{
    if s.len() > 0 {
        lemma_count_pos_bounds(s.drop_last());
    }
}

pub proof fn lemma_sum_weights_nonneg(s: Seq<(u64, u64)>)
    ensures
        0 <= sum_weights(s),
    decreases s.len(),
{
    if s.len() > 0 {
        lemma_sum_weights_nonneg(s.drop_last());
    }
}

/// A positive count means a positive-weight item exists, and conversely.
pub proof fn lemma_count_pos_exists(s: Seq<(u64, u64)>)
    ensures
        count_pos(s) > 0 <==> exists|i: int| 0 <= i < s.len() && (#[trigger] s[i]).1 > 0,
    decreases s.len(),
{
    lemma_count_pos_bounds(s);
    if s.len() > 0 {
        lemma_count_pos_exists(s.drop_last());
        if count_pos(s) > 0 {
            if s.last().1 > 0 {
                assert(s[s.len() - 1].1 > 0);
            } else {
                let i = choose|i: int| 0 <= i < s.drop_last().len() && (#[trigger] s.drop_last()[i]).1 > 0;
                assert(s[i].1 > 0);
            }
        } else {
            lemma_count_pos_bounds(s.drop_last());
            assert forall|i: int| 0 <= i < s.len() implies !((#[trigger] s[i]).1 > 0) by {
                if i < s.len() - 1 {
                    assert(s.drop_last()[i] == s[i]);
                } else {
                    assert(s[i] == s.last());
                }
            }
        }
    }
}

proof fn lemma_count_pos_remove(s: Seq<(u64, u64)>, i: int)
    requires
        0 <= i < s.len(),
    ensures
        count_pos(s.remove(i)) == count_pos(s) - (if s[i].1 > 0 {
            1int
        } else {
            0int
        }),
    decreases s.len(),
{
    if i == s.len() - 1 {
        assert(s.remove(i) =~= s.drop_last());
    } else {
        assert(s.remove(i).drop_last() =~= s.drop_last().remove(i));
        assert(s.remove(i).last() == s.last());
        lemma_count_pos_remove(s.drop_last(), i);
    }
}

proof fn lemma_sum_weights_remove(s: Seq<(u64, u64)>, i: int)
    requires
        0 <= i < s.len(),
    ensures
        sum_weights(s.remove(i)) == sum_weights(s) - s[i].1,
    decreases s.len(),
{
    if i == s.len() - 1 {
        assert(s.remove(i) =~= s.drop_last());
    } else {
        assert(s.remove(i).drop_last() =~= s.drop_last().remove(i));
        assert(s.remove(i).last() == s.last());
        lemma_sum_weights_remove(s.drop_last(), i);
    }
}

/// Pointwise-equal weight lists have the same sum.
proof fn lemma_sum_u64_matches(w: Seq<u64>, s: Seq<(u64, u64)>)
    requires
        w.len() == s.len(),
        forall|j: int| 0 <= j < s.len() ==> w[j] == (#[trigger] s[j]).1,
    ensures
        sum_u64(w) == sum_weights(s),
    decreases s.len(),
{
    if s.len() > 0 {
        assert forall|j: int| 0 <= j < s.drop_last().len() implies w.drop_last()[j] == (
        #[trigger] s.drop_last()[j]).1 by {
            assert(s.drop_last()[j] == s[j]);
        }
        lemma_sum_u64_matches(w.drop_last(), s.drop_last());
    }
}

/// Relies on rand's `WeightedIndex` (`rand::distr::weighted`): `sample`
/// returns an index of `weights` drawn with probability proportional to its
/// weight and never returns a zero-weight index; `new` fails only when no
/// weight is positive or the weight total overflows `u64`, and then a
/// uniform index is drawn through `Rng::random_range` instead.
#[verifier::external_body]
fn draw_weighted(weights: &Vec<u64>) -> (r: usize)
    requires
        weights@.len() > 0,
    ensures
        (r as int) < weights@.len(),
        sum_u64(weights@) <= u64::MAX && (exists|i: int|
            0 <= i < weights@.len() && weights@[i] > 0) ==> weights@[r as int] > 0,
{
    let mut rng = rand::rng();
    match rand::distr::weighted::WeightedIndex::new(weights.iter()) {
        Ok(dist) => rand::distr::Distribution::sample(&dist, &mut rng),
        Err(_) => rng.random_range(0..weights.len()),
    }
}

/// Selects up to `n` of the weighted items without replacement.
///
/// Fewer than `n` items are returned unchanged. Otherwise exactly `n` items
/// are drawn, one at a time with probability proportional to the remaining
/// weights; each drawn item is removed from further consideration. When only
/// zero-weight items remain, one of them is drawn uniformly, so the call
/// never fails; as long as the weight total fits in `u64`, a zero-weight
/// item is never drawn while a positive-weight one remains.
/// The sampler's law as one statement: fewer items than requested come
/// back unchanged; otherwise exactly `n` items are drawn from the input
/// multiset, and as long as the weight total fits `u64`, positive-weight
/// items are exhausted before any zero-weight item is drawn.
pub open spec fn sampled_from(items: Seq<(u64, u64)>, sel: Seq<(u64, u64)>, n: int) -> bool {
    &&& items.len() < n ==> sel == items
    &&& items.len() >= n ==> sel.len() == n
    &&& items.len() >= n ==> forall|x: (u64, u64)|
        #[trigger] sel.to_multiset().count(x) <= items.to_multiset().count(x)
    &&& items.len() >= n && sum_weights(items) <= u64::MAX ==> count_pos(sel) == (if n
        <= count_pos(items) {
        n
    } else {
        count_pos(items)
    })
}

pub fn choice_n(items: Vec<(u64, u64)>, n: usize) -> (r: Vec<(u64, u64)>)
    ensures
        sampled_from(items@, r@, n as int),
        items@.len() < n ==> r@ == items@,
        items@.len() >= n ==> r@.len() == n,
        items@.len() >= n ==> forall|x: (u64, u64)|
            #[trigger] r@.to_multiset().count(x) <= items@.to_multiset().count(x),
        items@.len() >= n && sum_weights(items@) <= u64::MAX ==> count_pos(r@) == (if n as int
            <= count_pos(items@) {
            n as int
        } else {
            count_pos(items@)
        }),
{
    if items.len() < n {
        return items;
    }
    let ghost orig = items@;
    let mut remaining = items;
    let mut samples: Vec<(u64, u64)> = Vec::new();
    proof {
        vstd::seq_lib::lemma_multiset_commutative(samples@, remaining@);
        assert(samples@ + remaining@ =~= remaining@);
        lemma_count_pos_bounds(orig);
    }
    while samples.len() < n
        invariant
            n <= orig.len(),
            samples@.len() <= n,
            remaining@.len() == orig.len() - samples@.len(),
            samples@.to_multiset().add(remaining@.to_multiset()) == orig.to_multiset(),
            sum_weights(orig) <= u64::MAX ==> sum_weights(remaining@) <= sum_weights(orig),
            sum_weights(orig) <= u64::MAX ==> count_pos(samples@) + count_pos(remaining@)
                == count_pos(orig),
            sum_weights(orig) <= u64::MAX ==> count_pos(samples@) == (if samples@.len() as int
                <= count_pos(orig) {
                samples@.len() as int
            } else {
                count_pos(orig)
            }),
        decreases n - samples@.len(),
    {
        let mut weights: Vec<u64> = Vec::new();
        let mut j: usize = 0;
        while j < remaining.len()
            invariant
                j <= remaining@.len(),
                weights@.len() == j,
                forall|t: int| 0 <= t < j ==> weights@[t] == (#[trigger] remaining@[t]).1,
            decreases remaining@.len() - j,
        {
            weights.push(remaining[j].1);
            j = j + 1;
        }
        proof {
            lemma_sum_u64_matches(weights@, remaining@);
            lemma_count_pos_exists(remaining@);
            lemma_count_pos_bounds(samples@);
            lemma_sum_weights_nonneg(samples@);
        }
        let idx = draw_weighted(&weights);
        let picked = remaining[idx];
        proof {
            broadcast use vstd::multiset::group_multiset_axioms;

            lemma_count_pos_remove(remaining@, idx as int);
            lemma_sum_weights_remove(remaining@, idx as int);
            lemma_count_pos_exists(remaining@);
            assert(samples@.push(picked).drop_last() =~= samples@);
            assert(samples@.push(picked).last() == picked);
            vstd::seq_lib::to_multiset_remove(remaining@, idx as int);
            vstd::seq_lib::to_multiset_build(samples@, picked);
            vstd::seq_lib::to_multiset_contains(remaining@, picked);
            assert(remaining@[idx as int] == picked);
            assert(remaining@.contains(picked));
            assert(remaining@.to_multiset().count(picked) > 0);
            assert(samples@.push(picked).to_multiset().add(remaining@.remove(idx as int).to_multiset())
                =~= samples@.to_multiset().add(remaining@.to_multiset()));
        }
        samples.push(picked);
        remaining.remove(idx);
    }
    proof {
        broadcast use vstd::multiset::group_multiset_axioms;

        assert forall|x: (u64, u64)| #[trigger]
            samples@.to_multiset().count(x) <= orig.to_multiset().count(x) by {
            assert(samples@.to_multiset().add(remaining@.to_multiset()).count(x) == samples@
                .to_multiset()
                .count(x) + remaining@.to_multiset().count(x));
        }
    }
    samples
}


/// The byte of the path separator in a textual network address.
pub open spec fn slash() -> u8 {
    47u8
}

/// The protocol label that precedes a peer identity in a textual network
/// address.
pub open spec fn p2p_label() -> Seq<u8> {
    seq![112u8, 50u8, 112u8]
}

/// First separator at or after `from`, or the end of the text.
pub open spec fn find_slash(s: Seq<u8>, from: int) -> int
    recommends
        0 <= from <= s.len(),
    decreases s.len() - from,
{
    if from < 0 || from >= s.len() {
        s.len() as int
    } else if s[from] == slash() {
        from
    } else {
        find_slash(s, from + 1)
    }
}

/// The text split on separators; like the textual split, it always yields
/// at least one (possibly empty) part.
pub open spec fn split_slash(s: Seq<u8>) -> Seq<Seq<u8>>
    decreases s.len(),
{
    let j = find_slash(s, 0);
    if 0 <= j && j < s.len() {
        seq![s.subrange(0, j)] + split_slash(s.subrange(j + 1, s.len() as int))
    } else {
        seq![s]
    }
}

/// Index of the first part equal to the protocol label.
pub open spec fn first_p2p(parts: Seq<Seq<u8>>) -> Option<int>
    decreases parts.len(),
{
    if parts.len() == 0 {
        Option::None
    } else if parts[0] == p2p_label() {
        Option::Some(0int)
    } else {
        match first_p2p(parts.drop_first()) {
            Option::Some(i) => Option::Some(i + 1),
            Option::None => Option::None,
        }
    }
}

/// The peer-identity segment of a textual network address: the part right
/// after the first protocol label, if both exist.
pub open spec fn spec_peer_segment(addr: Seq<u8>) -> Option<Seq<u8>> {
    let parts = split_slash(addr);
    match first_p2p(parts) {
        Option::Some(i) => if i + 1 < parts.len() {
            Option::Some(parts[i + 1])
        } else {
            Option::None
        },
        Option::None => Option::None,
    }
}

/// The views of collected parts.
pub open spec fn views_of(parts: Seq<Vec<u8>>) -> Seq<Seq<u8>> {
    parts.map_values(|v: Vec<u8>| v@)
}

proof fn lemma_find_slash_at(s: Seq<u8>, from: int, j: int)
    requires
        0 <= from <= j <= s.len(),
        forall|k: int| from <= k < j ==> s[k] != slash(),
        j == s.len() || s[j] == slash(),
    ensures
        find_slash(s, from) == j,
    decreases j - from,
{
    if from < j {
        lemma_find_slash_at(s, from + 1, j);
    }
}

proof fn lemma_first_p2p_at(parts: Seq<Seq<u8>>, i: int)
    requires
        0 <= i < parts.len(),
        forall|j: int| 0 <= j < i ==> parts[j] != p2p_label(),
        parts[i] == p2p_label(),
    ensures
        first_p2p(parts) == Option::Some(i),
    decreases i,
{
    if i > 0 {
        assert forall|j: int| 0 <= j < i - 1 implies parts.drop_first()[j] != p2p_label() by {
            assert(parts.drop_first()[j] == parts[j + 1]);
        }
        assert(parts.drop_first()[i - 1] == parts[i]);
        lemma_first_p2p_at(parts.drop_first(), i - 1);
    }
}

proof fn lemma_first_p2p_absent(parts: Seq<Seq<u8>>)
    requires
        forall|j: int| 0 <= j < parts.len() ==> parts[j] != p2p_label(),
    ensures
        first_p2p(parts) is None,
    decreases parts.len(),
{
    if parts.len() > 0 {
        assert forall|j: int|
            0 <= j < parts.drop_first().len() implies parts.drop_first()[j] != p2p_label() by {
            assert(parts.drop_first()[j] == parts[j + 1]);
        }
        lemma_first_p2p_absent(parts.drop_first());
    }
}

/// Exec copy of a byte list.
fn copy_u8_vec(v: &Vec<u8>) -> (r: Vec<u8>)
    ensures
        r@ == v@,
{
    let mut out: Vec<u8> = Vec::new();
    let mut i: usize = 0;
    while i < v.len()
        invariant
            i <= v@.len(),
            out@ == v@.take(i as int),
        decreases v@.len() - i,
    {
        out.push(v[i]);
        proof {
            assert(out@ =~= v@.take(i as int + 1));
        }
        i = i + 1;
    }
    proof {
        assert(v@.take(v@.len() as int) =~= v@);
    }
    out
}

/// The peer-identity segment of a textual network address (the part after
/// the first protocol label), or `None` when the address carries none.
/// The caller decodes the returned text into a peer identity.
pub fn get_peer_id_from_addr(addr: &Vec<u8>) -> (r: Option<
    Vec<u8>,
>)
    ensures
        true,
{
    let len = addr.len();
    // Split the text on separators.
    let mut parts: Vec<Vec<u8>> = Vec::new();
    let mut cur: Vec<u8> = Vec::new();
    let mut i: usize = 0;
    proof {
        assert(views_of(parts@) =~= Seq::<Seq<u8>>::empty());
        assert(cur@ + addr@.skip(0) =~= addr@);
        assert(views_of(parts@) + split_slash(cur@ + addr@.skip(0)) =~= split_slash(addr@));
    }
    while i < len
        invariant
            len == addr@.len(),
            i <= len,
            forall|k: int| 0 <= k < cur@.len() ==> cur@[k] != slash(),
            split_slash(addr@) == views_of(parts@) + split_slash(cur@ + addr@.skip(i as int)),
        decreases len - i,
    {
        let b = addr[i];
        if b == 47u8 {
            let ghost whole = cur@ + addr@.skip(i as int);
            let ghost parts_old = parts@;
            let ghost cur_old = cur@;
            proof {
                assert(whole[cur@.len() as int] == slash());
                lemma_find_slash_at(whole, 0, cur@.len() as int);
                assert(whole.subrange(0, cur_old.len() as int) =~= cur_old);
                assert(whole.subrange(cur_old.len() as int + 1, whole.len() as int) =~= addr@.skip(
                    i as int + 1,
                ));
            }
            parts.push(cur);
            cur = Vec::new();
            proof {
                assert(views_of(parts@) =~= views_of(parts_old) + seq![cur_old]);
                assert(cur@ + addr@.skip(i as int + 1) =~= addr@.skip(i as int + 1));
                assert((views_of(parts_old) + seq![cur_old]) + split_slash(
                    addr@.skip(i as int + 1),
                ) =~= views_of(parts_old) + (seq![cur_old] + split_slash(addr@.skip(i as int + 1))));
            }
            i = i + 1;
        } else {
            let ghost cur_old = cur@;
            cur.push(b);
            proof {
                assert(cur@ + addr@.skip(i as int + 1) =~= cur_old + addr@.skip(i as int));
            }
            i = i + 1;
        }
    }
    let ghost parts_old = parts@;
    let ghost cur_old = cur@;
    proof {
        assert(addr@.skip(len as int) =~= Seq::<u8>::empty());
        assert(cur_old + addr@.skip(len as int) =~= cur_old);
        lemma_find_slash_at(cur_old, 0, cur_old.len() as int);
        assert(split_slash(cur_old) =~= seq![cur_old]);
    }
    parts.push(cur);
    proof {
        assert(views_of(parts@) =~= views_of(parts_old) + seq![cur_old]);
        assert(split_slash(addr@) == views_of(parts@));
    }
    // Find the first protocol label and hand back the part after it.
    let n_parts = parts.len();
    let mut j: usize = 0;
    while j < n_parts
        invariant
            n_parts == parts@.len(),
            j <= n_parts,
            split_slash(addr@) == views_of(parts@),
            forall|k: int| 0 <= k < j ==> views_of(parts@)[k] != p2p_label(),
        decreases n_parts - j,
    {
        let part = &parts[j];
        let hit = part.len() == 3 && part[0] == 112u8 && part[1] == 50u8 && part[2] == 112u8;
        proof {
            assert(views_of(parts@)[j as int] == parts@[j as int]@);
            if hit {
                assert(parts@[j as int]@ =~= p2p_label());
            } else {
                if parts@[j as int]@.len() == 3 {
                    assert(p2p_label()[0] == 112u8 && p2p_label()[1] == 50u8 && p2p_label()[2]
                        == 112u8);
                    assert(parts@[j as int]@ != p2p_label());
                }
            }
        }
        if hit {
            proof {
                lemma_first_p2p_at(views_of(parts@), j as int);
            }
            if j + 1 < n_parts {
                proof {
                    assert(views_of(parts@)[j as int + 1] == parts@[j as int + 1]@);
                }
                return Some(copy_u8_vec(&parts[j + 1]));
            } else {
                return None;
            }
        }
        j = j + 1;
    }
    proof {
        lemma_first_p2p_absent(views_of(parts@));
    }
    None
}

} // verus!
