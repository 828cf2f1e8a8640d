// Dataset summaries and histograms on concrete data.

use dhacks::data::Data;
use dhacks::histogram::{digit_width, Histogram};
use dhacks::select::MedianKeys;

fn key(x: f64) -> u64 {
    let x = if x == 0.0 { 0.0 } else { x };
    let bits = x.to_bits();
    if bits >> 63 == 1 {
        !bits
    } else {
        bits | 0x8000_0000_0000_0000
    }
}

fn val(k: u64) -> f64 {
    let bits = if k >> 63 == 1 {
        k & 0x7fff_ffff_ffff_ffff
    } else {
        !k
    };
    f64::from_bits(bits)
}

fn keys_of(values: &[f64]) -> Vec<u64> {
    values.iter().map(|&x| key(x)).collect()
}

/// Raw equal-width bucket indices for a dataset's stored samples, computed
/// in the value domain the way the report does it.
fn raw_indices(d: &Data, num_buckets: usize) -> Vec<usize> {
    let min = val(d.min);
    let max = val(d.max);
    let width = (max - min) / num_buckets as f64;
    d.data
        .iter()
        .map(|&k| {
            if k == d.max {
                0
            } else {
                ((val(k) - min) / width).floor() as usize
            }
        })
        .collect()
}

#[test]
fn extremes_bound_every_sample() {
    let d = Data::new(keys_of(&[3., 1., 4., 1., 5., 9., 2., 6.])).unwrap();
    assert_eq!(val(d.min), 1.);
    assert_eq!(val(d.max), 9.);
    for &k in d.data.iter() {
        assert!(d.min <= k && k <= d.max);
    }
}

#[test]
fn empty_dataset_rejected() {
    assert!(Data::new(Vec::new()).is_none());
}

#[test]
fn single_sample_summary() {
    let d = Data::new(keys_of(&[7.5])).unwrap();
    assert_eq!(d.len(), 1);
    assert_eq!(val(d.min), 7.5);
    assert_eq!(val(d.max), 7.5);
    assert_eq!(d.median, MedianKeys::One(key(7.5)));
}

#[test]
fn five_line_summary_scenario() {
    let d = Data::new(keys_of(&[1., 2., 3., 4., 5.])).unwrap();
    assert_eq!(d.len(), 5);
    assert_eq!(val(d.min), 1.);
    assert_eq!(val(d.max), 5.);
    assert_eq!(d.median, MedianKeys::One(key(3.)));
}

#[test]
fn histogram_counts_sum_to_sample_count() {
    let values: Vec<f64> = (1..=10).map(|i| i as f64).collect();
    let d = Data::new(keys_of(&values)).unwrap();
    let num_buckets = 3;
    let raws = raw_indices(&d, num_buckets);
    let h = Histogram::new(&d, &raws, num_buckets);
    assert_eq!(h.num_samples, 10);
    let counts = &h.buckets.buckets;
    assert_eq!(counts.iter().sum::<usize>(), 10);
    assert_eq!(counts, &vec![3, 3, 4]);
}

#[test]
fn histogram_max_lands_in_last_bucket() {
    let d = Data::new(keys_of(&[0., 10.])).unwrap();
    let num_buckets = 5;
    let raws = raw_indices(&d, num_buckets);
    let h = Histogram::new(&d, &raws, num_buckets);
    assert_eq!(h.buckets.buckets, vec![1, 0, 0, 0, 1]);
    assert!(*h.buckets.buckets.last().unwrap() >= 1);
}

#[test]
fn bars_unscaled_below_display_width() {
    let values: Vec<f64> = (1..=10).map(|i| i as f64).collect();
    let d = Data::new(keys_of(&values)).unwrap();
    let raws = raw_indices(&d, 3);
    let h = Histogram::new(&d, &raws, 3);
    // fullest bucket is under the display width: one block per sample
    assert_eq!(h.buckets.get_samples_per_block(), 0);
    assert_eq!(h.bar_lengths(), vec![3, 3, 4]);
}

#[test]
fn bars_scaled_down_to_display_width() {
    let mut values: Vec<f64> = vec![1.0; 150];
    values.push(2.0);
    let d = Data::new(keys_of(&values)).unwrap();
    let raws = raw_indices(&d, 2);
    let h = Histogram::new(&d, &raws, 2);
    assert_eq!(h.buckets.buckets, vec![150, 1]);
    assert_eq!(h.buckets.get_samples_per_block(), 2);
    assert_eq!(h.bar_lengths(), vec![75, 0]);
}

#[test]
fn digit_width_values() {
    assert_eq!(digit_width(1), 2);
    assert_eq!(digit_width(5), 2);
    assert_eq!(digit_width(9), 2);
    assert_eq!(digit_width(10), 3);
    assert_eq!(digit_width(99), 3);
    assert_eq!(digit_width(100), 4);
    assert_eq!(digit_width(10_000), 6);
}

#[test]
fn dataset_keeps_sample_multiset() {
    let values: Vec<f64> = vec![5., 5., 1., 3., 3., 3.];
    let d = Data::new(keys_of(&values)).unwrap();
    let mut stored: Vec<f64> = d.data.iter().map(|&k| val(k)).collect();
    stored.sort_by(|a, b| a.partial_cmp(b).unwrap());
    assert_eq!(stored, vec![1., 3., 3., 3., 5., 5.]);
    assert_eq!(d.median, MedianKeys::Two(key(3.), key(3.)));
}
