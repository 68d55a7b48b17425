use rforests::histogram::{best_bin, count_histogram};
use rforests::threshold::{sorted_keys, ThresholdMap, INF_KEY};

/// Order key of a real: the order of keys is the order of the reals.
fn key(v: f64) -> u64 {
    let b = v.to_bits();
    if b >> 63 == 1 {
        !b
    } else {
        b | (1 << 63)
    }
}

fn keys(values: &[f64]) -> Vec<u64> {
    values.iter().map(|v| key(*v)).collect()
}

fn even_cuts(values: &[f64], max_bins: usize) -> Vec<u64> {
    let min = values.iter().cloned().fold(f64::INFINITY, f64::min);
    let max = values.iter().cloned().fold(f64::NEG_INFINITY, f64::max);
    let step = (max - min) / max_bins as f64;
    (0..max_bins).map(|i| key(min + i as f64 * step)).collect()
}

const VALUES: [f64; 9] = [5.0, 7.0, 3.0, 2.0, 1.0, 8.0, 9.0, 4.0, 6.0];

#[test]
fn threshold_map_pre_discretization() {
    let map = ThresholdMap::new(&keys(&VALUES), 3, even_cuts(&VALUES, 3));
    assert_eq!(
        map.thresholds,
        vec![key(1.0), key(1.0 + 1.0 * 8.0 / 3.0), key(1.0 + 2.0 * 8.0 / 3.0), INF_KEY]
    );
    assert_eq!(map.bin_of, vec![2, 3, 1, 1, 0, 3, 3, 2, 2]);
    assert_eq!(map.len(), 4);
}

#[test]
fn threshold_map_invariants_hold() {
    let values = keys(&VALUES);
    let map = ThresholdMap::new(&values, 3, even_cuts(&VALUES, 3));
    for w in map.thresholds.windows(2) {
        assert!(w[0] < w[1]);
    }
    assert_eq!(*map.thresholds.last().unwrap(), INF_KEY);
    for (i, b) in map.bin_of.iter().enumerate() {
        assert!(*b < map.thresholds.len());
        assert!(values[i] <= map.thresholds[*b]);
        if *b > 0 {
            assert!(map.thresholds[*b - 1] < values[i]);
        }
    }
}

#[test]
fn threshold_map_small_feature_keeps_sorted_values() {
    let values = keys(&[2.0, 0.5, 2.0]);
    let map = ThresholdMap::new(&values, 256, Vec::new());
    assert_eq!(map.thresholds, vec![key(0.5), key(2.0), key(2.0), INF_KEY]);
    assert_eq!(map.bin_of, vec![1, 0, 1]);
}

#[test]
fn sorted_keys_keeps_duplicates() {
    assert_eq!(sorted_keys(&vec![5, 1, 5, 0]), vec![0, 1, 5, 5]);
}

#[test]
fn test_feature_histogram() {
    let map = ThresholdMap::new(&keys(&VALUES), 3, even_cuts(&VALUES, 3));
    let sample: Vec<usize> = (0..9).collect();
    let counts = count_histogram(&map.bin_of, &sample, map.len());
    assert_eq!(counts, vec![1, 3, 6, 9]);
}

#[test]
fn count_histogram_on_a_subset() {
    let map = ThresholdMap::new(&keys(&VALUES), 3, even_cuts(&VALUES, 3));
    let sample: Vec<usize> = vec![1, 4, 6];
    assert_eq!(count_histogram(&map.bin_of, &sample, map.len()), vec![1, 1, 1, 3]);
}

#[test]
fn best_bin_picks_highest_admissible_score() {
    let counts = vec![1, 3, 6, 9];
    let scores = vec![90, 10, 20, 99];
    assert_eq!(best_bin(&counts, &scores, 3), Some(2));
    assert_eq!(best_bin(&counts, &scores, 1), Some(0));
    assert_eq!(best_bin(&counts, &scores, 4), None);
}

#[test]
fn best_bin_prefers_first_on_ties() {
    let counts = vec![2, 4, 6, 8];
    let scores = vec![5, 7, 7, 7];
    assert_eq!(best_bin(&counts, &scores, 1), Some(1));
}
