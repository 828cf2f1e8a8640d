//! The dataset summary: the sample keys together with their extremes and
//! median, composed in one immutable value.

use vstd::prelude::*;

use crate::select::{
    find_median, lemma_lower_bound_preserved, lemma_sorted_extremes, lemma_sorted_of_congruence,
    lemma_upper_bound_preserved, sorted_of, spec_median_keys, MedianKeys,
};

verus! {

/// One dataset: the sample keys — reordered by median selection, but exactly
/// the keys the caller handed in — and the summary computed of them.
pub struct Data {
    pub data: Vec<u64>,
    pub min: u64,
    pub max: u64,
    pub median: MedianKeys,
}

impl Data {
    /// The summary fields describe the stored keys.
    pub open spec fn valid(self) -> bool {
        &&& self.data@.len() >= 1
        &&& self.min == sorted_of(self.data@).first()
        &&& self.max == sorted_of(self.data@).last()
        &&& forall|i: int|
            0 <= i < self.data@.len() ==> self.min <= #[trigger] self.data@[i] <= self.max
        &&& self.median == spec_median_keys(self.data@)
    }

    /// Build the summary from a sample sequence: one linear scan for the
    /// extremes, then median selection, which reorders the keys in place
    /// before they are stored. An empty sequence is rejected; everything
    /// else succeeds, with the extremes bounding every sample and the median
    /// taken from the middle of the sorted keys.
    pub fn new(data: Vec<u64>) -> (r: Option<Data>)
        ensures
            r is Some <==> data@.len() >= 1,
            r matches Some(d) ==> d.valid(),
            r matches Some(d) ==> d.data@.to_multiset() == data@.to_multiset(),
            r matches Some(d) ==> d.data@.len() == data@.len(),
            r matches Some(d) ==> forall|i: int|
                0 <= i < data@.len() ==> d.min <= #[trigger] data@[i] <= d.max,
            r matches Some(d) ==> d.min == sorted_of(data@).first(),
            r matches Some(d) ==> d.max == sorted_of(data@).last(),
            r matches Some(d) ==> d.median == spec_median_keys(data@),
    {
        let mut data = data;
        let n = data.len();
        if n == 0 {
            return None;
        }
        let mut min: u64 = u64::MAX;
        let mut max: u64 = 0;
        let mut idx: usize = 0;
        while idx < n
            invariant
                n == data@.len(),
                idx <= n,
                idx == 0 ==> min == u64::MAX && max == 0,
                forall|k: int| 0 <= k < idx ==> min <= #[trigger] data@[k] <= max,
                idx > 0 ==> exists|k: int| 0 <= k < idx && data@[k] == min,
                idx > 0 ==> exists|k: int| 0 <= k < idx && data@[k] == max,
            decreases n - idx,
        {
            let val = data[idx];
            let ghost pre_min = min;
            let ghost pre_max = max;
            if val > max {
                max = val;
            }
            if val < min {
                min = val;
            }
            proof {
                if min == val {
                    assert(data@[idx as int] == min);
                } else {
                    assert(min == pre_min && val >= pre_min);
                    if idx == 0 {
                        assert(val == u64::MAX);
                    }
                    let k0 = choose|k: int| 0 <= k < idx && data@[k] == pre_min;
                    assert(0 <= k0 < idx + 1 && data@[k0] == min);
                }
                if max == val {
                    assert(data@[idx as int] == max);
                } else {
                    assert(max == pre_max && val <= pre_max);
                    if idx == 0 {
                        assert(val == 0);
                    }
                    let k1 = choose|k: int| 0 <= k < idx && data@[k] == pre_max;
                    assert(0 <= k1 < idx + 1 && data@[k1] == max);
                }
            }
            idx += 1;
        }
        let ghost pre = data@;
        let median = find_median(&mut data);
        proof {
            lemma_sorted_of_congruence(data@, pre);
            lemma_lower_bound_preserved(pre, data@, min);
            lemma_upper_bound_preserved(pre, data@, max);
            lemma_sorted_extremes(pre, min, max);
        }
        Some(Data { data, min, max, median })
    }

    /// How many samples the dataset holds.
    pub fn len(&self) -> (n: usize)
        ensures
            n == self.data@.len(),
    {
        self.data.len()
    }
}

} // verus!
