// Selection and median behaviour, driven through the order-preserving key
// encoding a caller of the library uses for floating-point samples.

use dhacks::select::{find_median, find_nth, MedianKeys};

fn key(x: f64) -> u64 {
    let x = if x == 0.0 { 0.0 } else { x };
    let bits = x.to_bits();
    if bits >> 63 == 1 {
        !bits
    } else {
        bits | 0x8000_0000_0000_0000
    }
}

fn val(k: u64) -> f64 {
    let bits = if k >> 63 == 1 {
        k & 0x7fff_ffff_ffff_ffff
    } else {
        !k
    };
    f64::from_bits(bits)
}

fn median_value(m: MedianKeys) -> f64 {
    match m {
        MedianKeys::One(k) => val(k),
        MedianKeys::Two(a, b) => (val(a) + val(b)) / 2.,
    }
}

#[test]
fn test_find_nth() {
    let mut v: Vec<f64> = vec![1., 2., 3., 4., 5.];
    let permutations = permutohedron::Heap::new(&mut v);
    for vp in permutations {
        let mut keys: Vec<u64> = vp.iter().map(|&x| key(x)).collect();
        for i in 0..5 {
            for _ in 0..100 {
                assert_eq!(val(find_nth(0, keys.len(), i, &mut keys)), i as f64 + 1.);
            }
        }
    }
}

#[test]
fn median_even() {
    for _ in 0..1000 {
        let v: Vec<f64> = vec![1., 2., 3., 4.];
        let mut keys: Vec<u64> = v.iter().map(|&x| key(x)).collect();
        assert_eq!(median_value(find_median(&mut keys)), 2.5);
    }
}

#[test]
fn median_odd() {
    for _ in 0..1000 {
        let v: Vec<f64> = vec![1., 2., 3.];
        let mut keys: Vec<u64> = v.iter().map(|&x| key(x)).collect();
        assert_eq!(median_value(find_median(&mut keys)), 2.);
    }
}

#[test]
fn find_nth_reorders_but_keeps_samples() {
    let values: Vec<f64> = vec![9., 2., 7., 2., 5.];
    let mut keys: Vec<u64> = values.iter().map(|&x| key(x)).collect();
    let before = {
        let mut s = keys.clone();
        s.sort();
        s
    };
    let r = find_nth(0, keys.len(), 3, &mut keys);
    assert_eq!(val(r), 7.);
    assert_eq!(keys[3], r);
    let mut after = keys.clone();
    after.sort();
    assert_eq!(after, before);
}

#[test]
fn find_nth_ties_select_correctly() {
    let values: Vec<f64> = vec![2., 2., 1., 2., 1.];
    for target in 0..values.len() {
        let expected = [1., 1., 2., 2., 2.][target];
        for _ in 0..100 {
            let mut keys: Vec<u64> = values.iter().map(|&x| key(x)).collect();
            assert_eq!(val(find_nth(0, keys.len(), target, &mut keys)), expected);
        }
    }
}
