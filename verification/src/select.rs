//! Randomized selection: find the key at a given sorted rank without fully
//! sorting, by repeated Lomuto partitioning around a random pivot
//! (quickselect), and the median built on top of it.

use vstd::prelude::*;
use vstd::relations::{reflexive, sorted_by, total_ordering};
use vstd::seq_lib::lemma_sorted_unique;

verus! {

/// The order on sample keys, as a spec-level relation.
pub open spec fn key_order() -> spec_fn(u64, u64) -> bool {
    |a: u64, b: u64| a <= b
}

/// The sorted rearrangement of a key sequence. Selection never builds it;
/// contracts use it to say which value stands at a rank.
pub open spec fn sorted_of(s: Seq<u64>) -> Seq<u64> {
    s.sort_by(key_order())
}

pub proof fn lemma_key_order_total()
    ensures
        total_ordering(key_order()),
{
    assert(reflexive(key_order())) by {
        assert(forall|x: u64| #[trigger] key_order()(x, x));
    }
}

pub proof fn lemma_sorted_of_ensures(s: Seq<u64>)
    ensures
        sorted_of(s).to_multiset() == s.to_multiset(),
        sorted_by(sorted_of(s), key_order()),
        sorted_of(s).len() == s.len(),
        forall|i: int, j: int|
            0 <= i <= j < sorted_of(s).len() ==> sorted_of(s)[i] <= sorted_of(s)[j],
{
    broadcast use vstd::seq_lib::group_to_multiset_ensures;
    broadcast use vstd::multiset::group_multiset_axioms;

    lemma_key_order_total();
    s.lemma_sort_by_ensures(key_order());
    assert(sorted_of(s).to_multiset() == s.to_multiset());
    assert(sorted_of(s).len() == sorted_of(s).to_multiset().len());
    assert(s.len() == s.to_multiset().len());
    assert forall|i: int, j: int|
        0 <= i <= j < sorted_of(s).len() implies sorted_of(s)[i] <= sorted_of(s)[j] by {
        if i < j {
            assert(key_order()(sorted_of(s)[i], sorted_of(s)[j]));
        }
    }
}

/// Sequences with the same keys, in whatever order, sort to the same thing.
pub proof fn lemma_sorted_of_congruence(s1: Seq<u64>, s2: Seq<u64>)
    requires
        s1.to_multiset() == s2.to_multiset(),
    ensures
        sorted_of(s1) == sorted_of(s2),
{
    lemma_key_order_total();
    lemma_sorted_of_ensures(s1);
    lemma_sorted_of_ensures(s2);
    lemma_sorted_unique(sorted_of(s1), sorted_of(s2), key_order());
}

/// Keys at least `c` stay at least `c` under any rearrangement.
pub(crate) proof fn lemma_lower_bound_preserved(s: Seq<u64>, t: Seq<u64>, c: u64)
    requires
        s.to_multiset() == t.to_multiset(),
        forall|i: int| 0 <= i < s.len() ==> c <= s[i],
    ensures
        forall|i: int| 0 <= i < t.len() ==> c <= t[i],
{
    broadcast use vstd::seq_lib::group_to_multiset_ensures;

    assert forall|i: int| 0 <= i < t.len() implies c <= t[i] by {
        assert(t.contains(t[i]));
        assert(t.to_multiset().count(t[i]) > 0);
        assert(s.to_multiset().count(t[i]) > 0);
        assert(s.contains(t[i]));
        let j = choose|j: int| 0 <= j < s.len() && s[j] == t[i];
        assert(c <= s[j]);
    }
}

/// Keys at most `c` stay at most `c` under any rearrangement.
pub(crate) proof fn lemma_upper_bound_preserved(s: Seq<u64>, t: Seq<u64>, c: u64)
    requires
        s.to_multiset() == t.to_multiset(),
        forall|i: int| 0 <= i < s.len() ==> s[i] <= c,
    ensures
        forall|i: int| 0 <= i < t.len() ==> t[i] <= c,
{
    broadcast use vstd::seq_lib::group_to_multiset_ensures;

    assert forall|i: int| 0 <= i < t.len() implies t[i] <= c by {
        assert(t.contains(t[i]));
        assert(t.to_multiset().count(t[i]) > 0);
        assert(s.to_multiset().count(t[i]) > 0);
        assert(s.contains(t[i]));
        let j = choose|j: int| 0 <= j < s.len() && s[j] == t[i];
        assert(s[j] <= c);
    }
}

/// A position that splits the keys — everything before it at most the value
/// there, everything after it at least that value — holds exactly what the
/// fully sorted sequence holds at that position.
pub proof fn lemma_partition_point_is_rank(s: Seq<u64>, k: int)
    requires
        0 <= k < s.len(),
        forall|i: int| 0 <= i <= k ==> s[i] <= s[k],
        forall|i: int| k <= i < s.len() ==> s[k] <= s[i],
    ensures
        sorted_of(s)[k] == s[k],
{
    broadcast use vstd::seq_lib::group_to_multiset_ensures;
    broadcast use vstd::multiset::group_multiset_axioms;
    broadcast use vstd::seq_lib::lemma_multiset_commutative;

    let left = s.subrange(0, k);
    let right = s.subrange(k + 1, s.len() as int);
    let mid = seq![s[k]];
    let sleft = sorted_of(left);
    let sright = sorted_of(right);
    let u = sleft + mid + sright;
    lemma_sorted_of_ensures(left);
    lemma_sorted_of_ensures(right);
    lemma_sorted_of_ensures(s);
    lemma_key_order_total();

    assert(s =~= left + mid + right);
    assert(u.to_multiset() == s.to_multiset()) by {
        assert((left + mid + right).to_multiset() == left.to_multiset().add(
            mid.to_multiset(),
        ).add(right.to_multiset())) by {
            assert((left + mid).to_multiset() == left.to_multiset().add(mid.to_multiset()));
        }
        assert((sleft + mid + sright).to_multiset() == sleft.to_multiset().add(
            mid.to_multiset(),
        ).add(sright.to_multiset())) by {
            assert((sleft + mid).to_multiset() == sleft.to_multiset().add(mid.to_multiset()));
        }
    }
    lemma_upper_bound_preserved(left, sleft, s[k]);
    lemma_lower_bound_preserved(right, sright, s[k]);
    assert(sorted_by(u, key_order())) by {
        assert forall|i: int, j: int| 0 <= i < j < u.len() implies key_order()(u[i], u[j]) by {
            assert(u[i] <= s[k] || u[i] == s[k] || s[k] <= u[i]);
            if j < k {
                assert(u[i] == sleft[i] && u[j] == sleft[j]);
                assert(key_order()(sleft[i], sleft[j]));
            } else if j == k {
                assert(u[i] == sleft[i] && u[j] == s[k]);
            } else if i < k {
                assert(u[i] == sleft[i] && u[i] <= s[k]);
                assert(s[k] <= u[j]);
            } else if i == k {
                assert(u[i] == s[k]);
                assert(u[j] == sright[j - k - 1]);
                assert(s[k] <= u[j]);
            } else {
                assert(u[i] == sright[i - k - 1] && u[j] == sright[j - k - 1]);
                assert(key_order()(sright[i - k - 1], sright[j - k - 1]));
            }
        }
    }
    lemma_sorted_unique(u, sorted_of(s), key_order());
    assert(u[k] == s[k]);
}

/// A sorted rearrangement starts at the least key and ends at the greatest.
pub(crate) proof fn lemma_sorted_extremes(s: Seq<u64>, lo: u64, hi: u64)
    requires
        s.len() >= 1,
        s.contains(lo),
        s.contains(hi),
        forall|i: int| 0 <= i < s.len() ==> lo <= #[trigger] s[i] <= hi,
    ensures
        sorted_of(s).first() == lo,
        sorted_of(s).last() == hi,
{
    broadcast use vstd::seq_lib::group_to_multiset_ensures;

    lemma_sorted_of_ensures(s);
    let t = sorted_of(s);
    assert(s.to_multiset().count(lo) > 0);
    assert(t.to_multiset().count(lo) > 0);
    assert(t.contains(lo));
    let j = choose|j: int| 0 <= j < t.len() && t[j] == lo;
    assert(t[0] <= t[j]);
    assert(t.contains(t[0]));
    assert(t.to_multiset().count(t[0]) > 0);
    assert(s.to_multiset().count(t[0]) > 0);
    assert(s.contains(t[0]));
    let q = choose|q: int| 0 <= q < s.len() && s[q] == t[0];
    assert(lo <= s[q]);

    assert(s.to_multiset().count(hi) > 0);
    assert(t.to_multiset().count(hi) > 0);
    assert(t.contains(hi));
    let j2 = choose|j2: int| 0 <= j2 < t.len() && t[j2] == hi;
    assert(t[j2] <= t[t.len() - 1]);
    assert(t.contains(t[t.len() - 1]));
    assert(t.to_multiset().count(t[t.len() - 1]) > 0);
    assert(s.to_multiset().count(t[t.len() - 1]) > 0);
    assert(s.contains(t[t.len() - 1]));
    let q2 = choose|q2: int| 0 <= q2 < s.len() && s[q2] == t[t.len() - 1];
    assert(s[q2] <= hi);
}

/// The selected rank is determined by the data alone: whatever rearrangement
/// `post` of the keys `pre` a run of the selection leaves behind, the key at
/// a split position `k` is the one the sorted sequence of `pre` has at `k` —
/// so it does not depend on the random pivot choices.
pub proof fn lemma_selected_rank(pre: Seq<u64>, post: Seq<u64>, k: int)
    requires
        post.to_multiset() == pre.to_multiset(),
        0 <= k < post.len(),
        forall|i: int| 0 <= i <= k ==> post[i] <= post[k],
        forall|i: int| k <= i < post.len() ==> post[k] <= post[i],
    ensures
        post[k] == sorted_of(pre)[k],
{
    lemma_partition_point_is_rank(post, k);
    lemma_sorted_of_congruence(post, pre);
}

/// Exchanging two positions of a sequence keeps its keys.
proof fn lemma_swap_multiset(s: Seq<u64>, a: int, b: int)
    requires
        0 <= a < s.len(),
        0 <= b < s.len(),
    ensures
        s.update(a, s[b]).update(b, s[a]).to_multiset() == s.to_multiset(),
{
    broadcast use vstd::seq_lib::group_to_multiset_ensures;
    broadcast use vstd::seq_lib::to_multiset_update;
    broadcast use vstd::multiset::group_multiset_axioms;

    if a == b {
        assert(s.update(a, s[b]).update(b, s[a]) =~= s);
    } else {
        let t = s.update(a, s[b]);
        assert(s.contains(s[a]));
        assert(s.to_multiset().count(s[a]) > 0);
        assert(t.to_multiset() == s.to_multiset().insert(s[b]).remove(s[a]));
        assert(t[b] == s[b]);
        assert(t.update(b, s[a]).to_multiset() == t.to_multiset().insert(s[a]).remove(t[b]));
        assert(t.update(b, s[a]).to_multiset() =~= s.to_multiset());
    }
}

/// A swap inside `[start, stop)` keeps the keys of that range and touches
/// nothing outside it.
proof fn lemma_swap_subrange_multiset(pre: Seq<u64>, post: Seq<u64>, start: int, stop: int, a: int, b: int)
    requires
        0 <= start <= a < stop <= pre.len(),
        start <= b < stop,
        post == pre.update(a, pre[b]).update(b, pre[a]),
    ensures
        post.subrange(start, stop).to_multiset() == pre.subrange(start, stop).to_multiset(),
{
    assert(post.subrange(start, stop) =~= pre.subrange(start, stop).update(
        a - start,
        pre[b],
    ).update(b - start, pre[a]));
    lemma_swap_multiset(pre.subrange(start, stop), a - start, b - start);
}

/// Exchange the keys at positions `a` and `b`.
fn swap_keys(v: &mut Vec<u64>, a: usize, b: usize)
    requires
        a < old(v).len(),
        b < old(v).len(),
    ensures
        final(v)@ == old(v)@.update(a as int, old(v)@[b as int]).update(
            b as int,
            old(v)@[a as int],
        ),
        final(v)@.len() == old(v)@.len(),
{
    let x = v[a];
    let y = v[b];
    v[a] = y;
    v[b] = x;
}

/// Relies on `rand`'s `RngExt::random_range` over the thread-local generator:
/// a pivot index drawn from the half-open range, which panics only when the
/// range is empty — ruled out here — or if the generator cannot be seeded.
/// Nothing is assumed about which index comes back beyond its bounds.
#[verifier::external_body]
fn random_index(lo: usize, hi: usize) -> (r: usize)
    requires
        lo < hi,
    ensures
        lo <= r < hi,
{
    let mut rng = rand::rng();
    rand::RngExt::random_range(&mut rng, lo..hi)
}

/// Lomuto partition of `[start, stop)` around the key at `pivot`: keys
/// strictly below the pivot key move to the front, the pivot key lands at
/// the returned position, everything at or above it follows.
fn partition(start: usize, stop: usize, pivot: usize, v: &mut Vec<u64>) -> (i: usize)
    requires
        start <= pivot < stop <= old(v).len(),
    ensures
        start <= i < stop,
        final(v)@.len() == old(v)@.len(),
        forall|j: int| 0 <= j < start ==> final(v)@[j] == old(v)@[j],
        forall|j: int| stop <= j < final(v)@.len() ==> final(v)@[j] == old(v)@[j],
        final(v)@.subrange(start as int, stop as int).to_multiset() == old(v)@.subrange(
            start as int,
            stop as int,
        ).to_multiset(),
        final(v)@[i as int] == old(v)@[pivot as int],
        forall|j: int| start <= j < i ==> final(v)@[j] < final(v)@[i as int],
        forall|j: int| i < j < stop ==> final(v)@[i as int] <= final(v)@[j],
{
    let pivot_val = v[pivot];
    swap_keys(v, pivot, stop - 1);
    proof {
        lemma_swap_subrange_multiset(
            old(v)@,
            v@,
            start as int,
            stop as int,
            pivot as int,
            stop - 1,
        );
    }
    let mut i = start;
    let mut j = start;
    while j < stop - 1
        invariant
            start <= i <= j <= stop - 1 < stop <= v@.len(),
            v@.len() == old(v)@.len(),
            forall|q: int| 0 <= q < start ==> v@[q] == old(v)@[q],
            forall|q: int| stop <= q < v@.len() ==> v@[q] == old(v)@[q],
            v@.subrange(start as int, stop as int).to_multiset() == old(v)@.subrange(
                start as int,
                stop as int,
            ).to_multiset(),
            v@[stop - 1] == pivot_val,
            forall|q: int| start <= q < i ==> v@[q] < pivot_val,
            forall|q: int| i <= q < j ==> pivot_val <= v@[q],
        decreases stop - 1 - j,
    {
        if v[j] < pivot_val {
            let ghost pre = v@;
            swap_keys(v, i, j);
            proof {
                lemma_swap_subrange_multiset(
                    pre,
                    v@,
                    start as int,
                    stop as int,
                    i as int,
                    j as int,
                );
            }
            i = i + 1;
        }
        j = j + 1;
    }
    let ghost pre = v@;
    swap_keys(v, stop - 1, i);
    proof {
        lemma_swap_subrange_multiset(pre, v@, start as int, stop as int, stop - 1, i as int);
    }
    i
}

/// The key at sorted rank `target` of the range `[start, stop)` (`stop`
/// exclusive), found by partitioning around random pivots and recursing into
/// the side that still holds the rank. The range is reordered in place and
/// keeps its keys; the rest of the vector is untouched. The returned key is
/// the one a full sort would put at `target`, whatever pivots were drawn.
pub fn find_nth(start: usize, stop: usize, target: usize, v: &mut Vec<u64>) -> (r: u64)
    requires
        start <= target < stop <= old(v).len(),
    ensures
        final(v)@.len() == old(v)@.len(),
        forall|j: int| 0 <= j < start ==> final(v)@[j] == old(v)@[j],
        forall|j: int| stop <= j < final(v)@.len() ==> final(v)@[j] == old(v)@[j],
        final(v)@.subrange(start as int, stop as int).to_multiset() == old(v)@.subrange(
            start as int,
            stop as int,
        ).to_multiset(),
        r == final(v)@[target as int],
        forall|j: int| start <= j <= target ==> final(v)@[j] <= r,
        forall|j: int| target <= j < stop ==> r <= final(v)@[j],
        r == sorted_of(old(v)@.subrange(start as int, stop as int))[target - start],
    decreases stop - start,
{
    broadcast use vstd::seq_lib::lemma_multiset_commutative;

    let pivot = random_index(start, stop);
    let i = partition(start, stop, pivot, v);
    let ghost v1 = v@;
    let r: u64;
    if i == target {
        r = v[i];
    } else if i < target {
        r = find_nth(i + 1, stop, target, v);
        proof {
            lemma_lower_bound_preserved(
                v1.subrange(i + 1, stop as int),
                v@.subrange(i + 1, stop as int),
                v1[i as int],
            );
            assert(v@.subrange(i + 1, stop as int)[target - i - 1] == v@[target as int]);
            assert(v1[i as int] <= r);
            assert(forall|j: int| start <= j <= i ==> v@[j] == v1[j]);
            assert forall|j: int| start <= j <= target implies v@[j] <= r by {
                if j <= i {
                    assert(v@[j] <= v1[i as int]);
                }
            }
            assert(v@.subrange(start as int, stop as int) =~= v@.subrange(start as int, i + 1)
                + v@.subrange(i + 1, stop as int));
            assert(v1.subrange(start as int, stop as int) =~= v1.subrange(start as int, i + 1)
                + v1.subrange(i + 1, stop as int));
            assert(v@.subrange(start as int, i + 1) =~= v1.subrange(start as int, i + 1));
            assert(v@.subrange(start as int, stop as int).to_multiset() == v1.subrange(
                start as int,
                stop as int,
            ).to_multiset());
        }
    } else {
        r = find_nth(start, i, target, v);
        proof {
            lemma_upper_bound_preserved(
                v1.subrange(start as int, i as int),
                v@.subrange(start as int, i as int),
                v1[i as int],
            );
            assert(v@.subrange(start as int, i as int)[target - start] == v@[target as int]);
            assert(r <= v1[i as int]);
            assert(forall|j: int| i <= j < stop ==> v@[j] == v1[j]);
            assert forall|j: int| target <= j < stop implies r <= v@[j] by {
                if j >= i {
                    assert(v1[i as int] <= v1[j]);
                }
            }
            assert(v@.subrange(start as int, stop as int) =~= v@.subrange(start as int, i as int)
                + v@.subrange(i as int, stop as int));
            assert(v1.subrange(start as int, stop as int) =~= v1.subrange(start as int, i as int)
                + v1.subrange(i as int, stop as int));
            assert(v@.subrange(i as int, stop as int) =~= v1.subrange(i as int, stop as int));
            assert(v@.subrange(start as int, stop as int).to_multiset() == v1.subrange(
                start as int,
                stop as int,
            ).to_multiset());
        }
    }
    proof {
        let s_old = old(v)@.subrange(start as int, stop as int);
        let s_new = v@.subrange(start as int, stop as int);
        let k = target - start;
        assert forall|q: int| 0 <= q <= k implies s_new[q] <= s_new[k] by {
            assert(s_new[q] == v@[start + q]);
        }
        assert forall|q: int| k <= q < s_new.len() implies s_new[k] <= s_new[q] by {
            assert(s_new[q] == v@[start + q]);
        }
        lemma_selected_rank(s_old, s_new, k);
    }
    r
}

/// The middle key of an odd-length dataset, or the two middle keys of an
/// even-length one, whose decoded values the caller averages.
#[derive(Clone, Copy, Debug, PartialEq, Eq, Structural)]
pub enum MedianKeys {
    One(u64),
    Two(u64, u64),
}

/// What median selection must return: the middle of the sorted keys.
pub open spec fn spec_median_keys(s: Seq<u64>) -> MedianKeys
    recommends
        s.len() >= 1,
{
    if s.len() % 2 == 0 {
        MedianKeys::Two(sorted_of(s)[s.len() as int / 2 - 1], sorted_of(s)[s.len() as int / 2])
    } else {
        MedianKeys::One(sorted_of(s)[s.len() as int / 2])
    }
}

/// The median keys of the whole vector, through incomplete quicksort: one
/// selection for an odd length; for an even length two independent
/// selections, ranks `n/2 - 1` and `n/2`, the second reusing whatever
/// partial order the first left behind. The keys are reordered in place but
/// all kept.
pub fn find_median(v: &mut Vec<u64>) -> (m: MedianKeys)
    requires
        old(v).len() >= 1,
    ensures
        final(v)@.len() == old(v)@.len(),
        final(v)@.to_multiset() == old(v)@.to_multiset(),
        m == spec_median_keys(old(v)@),
{
    let len = v.len();
    let ghost orig = v@;
    if len % 2 == 0 {
        let low = find_nth(0, len, len / 2 - 1, v);
        let ghost v1 = v@;
        proof {
            assert(orig.subrange(0, len as int) =~= orig);
            assert(v1.subrange(0, len as int) =~= v1);
            lemma_sorted_of_congruence(v1, orig);
        }
        let high = find_nth(0, len, len / 2, v);
        proof {
            assert(v@.subrange(0, len as int) =~= v@);
        }
        MedianKeys::Two(low, high)
    } else {
        let r = find_nth(0, len, len / 2, v);
        proof {
            assert(orig.subrange(0, len as int) =~= orig);
            assert(v@.subrange(0, len as int) =~= v@);
        }
        MedianKeys::One(r)
    }
}

} // verus!
