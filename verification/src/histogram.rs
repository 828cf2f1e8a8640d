//! Fixed-width bucketing of a dataset and the integer scaling that keeps the
//! rendered bars inside a bounded display width.
//!
//! The equal-width interval arithmetic that turns a sample into a raw bucket
//! index is the caller's: it happens in the value domain. This module decides
//! which bucket each sample is finally counted in — the raw index, except
//! that the greatest sample always lands in the last bucket — and everything
//! that is counting: bucket totals, the block scale, bar lengths, and the
//! column width for the sample counts.

use vstd::prelude::*;

use crate::data::Data;
use crate::select::{lemma_sorted_of_ensures, sorted_of};

verus! {

/// Width, in blocks, of the widest bar the display may use.
pub const BAR_WIDTH: usize = 75;

/// The bucket a sample is counted in: its raw index from the equal-width
/// interval computation, except that a sample whose key equals the greatest
/// key always goes to the last bucket, whatever rounding did to its raw
/// index.
pub open spec fn bucket_of(key: u64, max_key: u64, raw: int, num_buckets: int) -> int {
    if key == max_key {
        num_buckets - 1
    } else {
        raw
    }
}

/// How many of the samples land in bucket `b`.
pub open spec fn bucket_count(
    keys: Seq<u64>,
    raws: Seq<usize>,
    max_key: u64,
    num_buckets: int,
    b: int,
) -> int
    recommends
        keys.len() == raws.len(),
    decreases keys.len(),
{
    if keys.len() == 0 {
        0
    } else {
        bucket_count(keys.drop_last(), raws.drop_last(), max_key, num_buckets, b) + (
        if bucket_of(keys.last(), max_key, raws.last() as int, num_buckets) == b {
            1int
        } else {
            0
        })
    }
}

/// The sum of a sequence of counts.
pub open spec fn sum_of(s: Seq<usize>) -> int
    decreases s.len(),
{
    if s.len() == 0 {
        0
    } else {
        sum_of(s.drop_last()) + s.last()
    }
}

/// The greatest of a sequence of counts, 0 for an empty one.
pub open spec fn max_of(s: Seq<usize>) -> int
    decreases s.len(),
{
    if s.len() == 0 {
        0
    } else if s.last() >= max_of(s.drop_last()) {
        s.last() as int
    } else {
        max_of(s.drop_last())
    }
}

/// How long a bar is drawn: the bucket count scaled down by
/// `samples_per_block`, except that a scale of zero — every bucket smaller
/// than the display width — means one block per sample.
pub open spec fn spec_bar_len(count: int, samples_per_block: int) -> int {
    if samples_per_block == 0 {
        count
    } else {
        count / samples_per_block
    }
}

proof fn lemma_sum_nonneg(s: Seq<usize>)
    ensures
        sum_of(s) >= 0,
    decreases s.len(),
{
    if s.len() > 0 {
        lemma_sum_nonneg(s.drop_last());
    }
}

/// No single count exceeds the sum of all of them.
proof fn lemma_elem_le_sum(s: Seq<usize>, i: int)
    requires
        0 <= i < s.len(),
    ensures
        s[i] <= sum_of(s),
    decreases s.len(),
{
    lemma_sum_nonneg(s.drop_last());
    if i < s.len() - 1 {
        lemma_elem_le_sum(s.drop_last(), i);
    }
}

/// Raising one count by one raises the sum by one.
proof fn lemma_sum_update(s: Seq<usize>, i: int, v: usize)
    requires
        0 <= i < s.len(),
    ensures
        sum_of(s.update(i, v)) == sum_of(s) - s[i] + v,
    decreases s.len(),
{
    if i == s.len() - 1 {
        assert(s.update(i, v).drop_last() =~= s.drop_last());
    } else {
        assert(s.update(i, v).drop_last() =~= s.drop_last().update(i, v));
        lemma_sum_update(s.drop_last(), i, v);
    }
}

/// A bucket some sample lands in counts at least that sample.
proof fn lemma_bucket_count_witness(
    keys: Seq<u64>,
    raws: Seq<usize>,
    max_key: u64,
    num_buckets: int,
    i: int,
)
    requires
        keys.len() == raws.len(),
        0 <= i < keys.len(),
    ensures
        bucket_count(
            keys,
            raws,
            max_key,
            num_buckets,
            bucket_of(keys[i], max_key, raws[i] as int, num_buckets),
        ) >= 1,
    decreases keys.len(),
{
    lemma_bucket_count_nonneg(
        keys.drop_last(),
        raws.drop_last(),
        max_key,
        num_buckets,
        bucket_of(keys[i], max_key, raws[i] as int, num_buckets),
    );
    if i < keys.len() - 1 {
        lemma_bucket_count_witness(keys.drop_last(), raws.drop_last(), max_key, num_buckets, i);
    }
}

proof fn lemma_bucket_count_nonneg(
    keys: Seq<u64>,
    raws: Seq<usize>,
    max_key: u64,
    num_buckets: int,
    b: int,
)
    ensures
        bucket_count(keys, raws, max_key, num_buckets, b) >= 0,
    decreases keys.len(),
{
    if keys.len() > 0 {
        lemma_bucket_count_nonneg(keys.drop_last(), raws.drop_last(), max_key, num_buckets, b);
    }
}

/// A sample equal to the greatest one is always counted in the last bucket,
/// whatever raw index interval arithmetic computed for it.
pub proof fn lemma_max_in_last_bucket(key: u64, max_key: u64, raw: int, num_buckets: int)
    requires
        key == max_key,
    ensures
        bucket_of(key, max_key, raw, num_buckets) == num_buckets - 1,
{
}

/// How many decimal digits a count has.
pub open spec fn digits10(n: int) -> int
    recommends
        n >= 0,
    decreases n,
{
    if n < 10 {
        1
    } else {
        1 + digits10(n / 10)
    }
}

spec fn pow10(k: nat) -> int
    decreases k,
{
    if k == 0 {
        1
    } else {
        10 * pow10((k - 1) as nat)
    }
}

proof fn lemma_digits10_pos(n: int)
    ensures
        digits10(n) >= 1,
    decreases n,
{
    if n >= 10 {
        lemma_digits10_pos(n / 10);
    }
}

proof fn lemma_digits10_bound(n: int, k: nat)
    requires
        1 <= n < pow10(k),
    ensures
        digits10(n) <= k,
    decreases k,
{
    if k == 0 {
        assert(pow10(0) == 1);
    } else if n < 10 {
    } else {
        assert(n / 10 < pow10((k - 1) as nat));
        lemma_digits10_bound(n / 10, (k - 1) as nat);
    }
}

proof fn lemma_digits10_usize(n: int)
    requires
        1 <= n <= usize::MAX,
    ensures
        digits10(n) <= 20,
{
    assert(pow10(20) == 100000000000000000000) by {
        reveal_with_fuel(pow10, 21);
    }
    lemma_digits10_bound(n, 20);
}

/// The column width counts are right-aligned to: one more than the digit
/// count of the number of samples.
pub fn digit_width(num_samples: usize) -> (w: usize)
    requires
        num_samples >= 1,
    ensures
        w == digits10(num_samples as int) + 1,
{
    proof {
        lemma_digits10_usize(num_samples as int);
        lemma_digits10_pos(num_samples as int);
    }
    let mut m = num_samples;
    let mut d: usize = 1;
    while m >= 10
        invariant
            m >= 1,
            1 <= d,
            digits10(num_samples as int) == digits10(m as int) + d - 1,
            digits10(num_samples as int) <= 20,
            digits10(m as int) >= 1,
        decreases m,
    {
        proof {
            assert(digits10(m as int) == 1 + digits10(m as int / 10));
            lemma_digits10_pos(m as int / 10);
        }
        m = m / 10;
        d = d + 1;
    }
    d + 1
}

/// The bucket counts, kept apart from the rendering so the counting can be
/// stated on its own.
pub struct Buckets {
    pub buckets: Vec<usize>,
}

impl Buckets {
    /// `num_buckets` empty buckets.
    pub fn new(num_buckets: usize) -> (b: Buckets)
        requires
            num_buckets >= 1,
        ensures
            b.buckets@.len() == num_buckets,
            forall|i: int| 0 <= i < num_buckets ==> b.buckets@[i] == 0,
            sum_of(b.buckets@) == 0,
    {
        let mut buckets: Vec<usize> = Vec::with_capacity(num_buckets);
        let mut k: usize = 0;
        while k < num_buckets
            invariant
                buckets@.len() == k,
                k <= num_buckets,
                forall|i: int| 0 <= i < k ==> buckets@[i] == 0,
                sum_of(buckets@) == 0,
            decreases num_buckets - k,
        {
            let ghost pre = buckets@;
            buckets.push(0);
            proof {
                assert(buckets@.drop_last() =~= pre);
            }
            k += 1;
        }
        Buckets { buckets }
    }

    /// Count one sample into the bucket `bucket_of` picks for it.
    pub fn insert(&mut self, key: u64, max_key: u64, raw_index: usize)
        requires
            old(self).buckets@.len() >= 1,
            key == max_key || raw_index < old(self).buckets@.len(),
            sum_of(old(self).buckets@) < usize::MAX,
        ensures
            final(self).buckets@ == old(self).buckets@.update(
                bucket_of(key, max_key, raw_index as int, old(self).buckets@.len() as int),
                (old(self).buckets@[bucket_of(
                    key,
                    max_key,
                    raw_index as int,
                    old(self).buckets@.len() as int,
                )] + 1) as usize,
            ),
            sum_of(final(self).buckets@) == sum_of(old(self).buckets@) + 1,
    {
        let bucket_index = if key == max_key {
            self.buckets.len() - 1
        } else {
            raw_index
        };
        proof {
            lemma_elem_le_sum(self.buckets@, bucket_index as int);
        }
        let c = self.buckets[bucket_index];
        self.buckets[bucket_index] = c + 1;
        proof {
            lemma_sum_update(old(self).buckets@, bucket_index as int, (c + 1) as usize);
        }
    }

    /// The block scale: how many samples one drawn block stands for, chosen
    /// so the fullest bucket fits in `BAR_WIDTH` blocks. Zero when every
    /// bucket is smaller than the display width.
    pub fn get_samples_per_block(&self) -> (r: usize)
        ensures
            r == max_of(self.buckets@) / (BAR_WIDTH as int),
    {
        let mut acc: usize = 0;
        let mut k: usize = 0;
        while k < self.buckets.len()
            invariant
                k <= self.buckets@.len(),
                acc == max_of(self.buckets@.take(k as int)),
            decreases self.buckets@.len() - k,
        {
            let c = self.buckets[k];
            if c > acc {
                acc = c;
            }
            proof {
                assert(self.buckets@.take(k + 1).drop_last() =~= self.buckets@.take(k as int));
            }
            k += 1;
        }
        proof {
            assert(self.buckets@.take(self.buckets@.len() as int) =~= self.buckets@);
        }
        acc / BAR_WIDTH
    }
}

/// A dataset bucketed for display.
pub struct Histogram {
    pub buckets: Buckets,
    pub num_samples: usize,
}

impl Histogram {
    /// Count every sample of the dataset into its bucket. `raw_indices`
    /// holds, for each sample, the raw equal-width interval index the caller
    /// computed in the value domain; a sample equal to the greatest one is
    /// counted in the last bucket regardless of it. Every sample is counted
    /// exactly once: the bucket totals are the per-bucket sample counts and
    /// they add up to the dataset size, the greatest sample's bucket among
    /// them.
    pub fn new(data: &Data, raw_indices: &Vec<usize>, num_buckets: usize) -> (h: Histogram)
        requires
            data.valid(),
            raw_indices@.len() == data.data@.len(),
            num_buckets >= 1,
            forall|i: int|
                0 <= i < data.data@.len() && data.data@[i] != data.max
                    ==> #[trigger] raw_indices@[i] < num_buckets,
        ensures
            h.num_samples == data.data@.len(),
            h.buckets.buckets@.len() == num_buckets,
            forall|b: int|
                0 <= b < num_buckets ==> h.buckets.buckets@[b] == bucket_count(
                    data.data@,
                    raw_indices@,
                    data.max,
                    num_buckets as int,
                    b,
                ),
            sum_of(h.buckets.buckets@) == data.data@.len(),
            h.buckets.buckets@[num_buckets - 1] >= 1,
    {
        let n = data.len();
        let mut buckets = Buckets::new(num_buckets);
        let mut i: usize = 0;
        while i < n
            invariant
                data.valid(),
                n == data.data@.len(),
                raw_indices@.len() == n,
                i <= n,
                num_buckets >= 1,
                buckets.buckets@.len() == num_buckets,
                forall|q: int|
                    0 <= q < n && data.data@[q] != data.max ==> #[trigger] raw_indices@[q]
                        < num_buckets,
                sum_of(buckets.buckets@) == i,
                forall|b: int|
                    0 <= b < num_buckets ==> buckets.buckets@[b] == bucket_count(
                        data.data@.take(i as int),
                        raw_indices@.take(i as int),
                        data.max,
                        num_buckets as int,
                        b,
                    ),
            decreases n - i,
        {
            let key = data.data[i];
            let raw = raw_indices[i];
            let ghost pre = buckets.buckets@;
            buckets.insert(key, data.max, raw);
            proof {
                let ki = data.data@.take(i + 1);
                let ri = raw_indices@.take(i + 1);
                assert(ki.drop_last() =~= data.data@.take(i as int));
                assert(ri.drop_last() =~= raw_indices@.take(i as int));
                assert(ki.last() == data.data@[i as int]);
                assert(ri.last() == raw_indices@[i as int]);
                let nb = num_buckets as int;
                let idx = bucket_of(key, data.max, raw as int, nb);
                assert forall|b: int|
                    0 <= b < num_buckets implies buckets.buckets@[b] == bucket_count(
                    ki,
                    ri,
                    data.max,
                    nb,
                    b,
                ) by {
                    assert(bucket_count(ki, ri, data.max, nb, b) == bucket_count(
                        data.data@.take(i as int),
                        raw_indices@.take(i as int),
                        data.max,
                        nb,
                        b,
                    ) + (if bucket_of(ki.last(), data.max, ri.last() as int, nb) == b {
                        1int
                    } else {
                        0
                    }));
                    if b == idx {
                        lemma_elem_le_sum(pre, idx);
                        assert(pre[idx] + 1 <= usize::MAX);
                        assert(buckets.buckets@[b] == pre[b] + 1);
                    } else {
                        assert(buckets.buckets@[b] == pre[b]);
                    }
                }
            }
            i += 1;
        }
        proof {
            assert(data.data@.take(n as int) =~= data.data@);
            assert(raw_indices@.take(n as int) =~= raw_indices@);
            broadcast use vstd::seq_lib::group_to_multiset_ensures;

            lemma_sorted_of_ensures(data.data@);
            let t = sorted_of(data.data@);
            assert(t.contains(t[t.len() - 1]));
            assert(t.to_multiset().count(data.max) > 0);
            assert(data.data@.to_multiset().count(data.max) > 0);
            assert(data.data@.contains(data.max));
            let w = choose|w: int| 0 <= w < data.data@.len() && data.data@[w] == data.max;
            lemma_bucket_count_witness(
                data.data@,
                raw_indices@,
                data.max,
                num_buckets as int,
                w,
            );
        }
        Histogram { buckets, num_samples: n }
    }

    /// The drawn length of every bar: each bucket count scaled down by the
    /// block scale, one block per sample when the scale is zero.
    pub fn bar_lengths(&self) -> (bars: Vec<usize>)
        ensures
            bars@.len() == self.buckets.buckets@.len(),
            forall|b: int|
                0 <= b < bars@.len() ==> bars@[b] == spec_bar_len(
                    self.buckets.buckets@[b] as int,
                    max_of(self.buckets.buckets@) / (BAR_WIDTH as int),
                ),
    {
        let spb = self.buckets.get_samples_per_block();
        let mut bars: Vec<usize> = Vec::new();
        let mut k: usize = 0;
        while k < self.buckets.buckets.len()
            invariant
                k <= self.buckets.buckets@.len(),
                bars@.len() == k,
                spb == max_of(self.buckets.buckets@) / (BAR_WIDTH as int),
                forall|b: int|
                    0 <= b < k ==> bars@[b] == spec_bar_len(
                        self.buckets.buckets@[b] as int,
                        max_of(self.buckets.buckets@) / (BAR_WIDTH as int),
                    ),
            decreases self.buckets.buckets@.len() - k,
        {
            let c = self.buckets.buckets[k];
            if spb == 0 {
                bars.push(c);
            } else {
                bars.push(c / spb);
            }
            k += 1;
        }
        bars
    }
}

} // verus!
