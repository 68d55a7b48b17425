use rforests::ensemble::Ensemble;
use rforests::split::partition;
use rforests::threshold::ThresholdMap;
use rforests::tree::{find_split, select_split, Node, NodeData, RegressionTree};

fn key(v: f64) -> u64 {
    let b = v.to_bits();
    if b >> 63 == 1 {
        !b
    } else {
        b | (1 << 63)
    }
}

fn even_cuts(values: &[f64], max_bins: usize) -> Vec<u64> {
    let min = values.iter().cloned().fold(f64::INFINITY, f64::min);
    let max = values.iter().cloned().fold(f64::NEG_INFINITY, f64::max);
    let step = (max - min) / max_bins as f64;
    (0..max_bins).map(|i| key(min + i as f64 * step)).collect()
}

/// One threshold map per feature; `columns[f][i]` is feature `f` of instance `i`.
fn maps_of(columns: &[Vec<f64>], max_bins: usize) -> Vec<ThresholdMap> {
    columns
        .iter()
        .map(|c| {
            let ks: Vec<u64> = c.iter().map(|v| key(*v)).collect();
            let cuts = if c.len() > max_bins { even_cuts(c, max_bins) } else { Vec::new() };
            ThresholdMap::new(&ks, max_bins, cuts)
        })
        .collect()
}

/// Split quality `sum_L²/n_L + sum_R²/n_R` of each bin, as order keys.
fn split_scores(map: &ThresholdMap, targets: &[f64], sample: &Vec<usize>, counts: &Vec<usize>) -> Vec<u64> {
    let mut sums = vec![0.0; map.len()];
    for &i in sample {
        sums[map.bin_of[i]] += targets[i];
    }
    for b in 1..sums.len() {
        sums[b] += sums[b - 1];
    }
    let total_sum = *sums.last().unwrap();
    let total = *counts.last().unwrap();
    (0..sums.len())
        .map(|b| {
            let (nl, nr) = (counts[b], total - counts[b]);
            if nl == 0 || nr == 0 {
                return key(0.0);
            }
            let (sl, sr) = (sums[b], total_sum - sums[b]);
            key(sl * sl / nl as f64 + sr * sr / nr as f64)
        })
        .collect()
}

fn variance(targets: &[f64], sample: &Vec<usize>) -> u64 {
    if sample.is_empty() {
        return key(0.0);
    }
    let s: f64 = sample.iter().map(|&i| targets[i]).sum();
    let sq: f64 = sample.iter().map(|&i| targets[i] * targets[i]).sum();
    key(sq - s * s / sample.len() as f64)
}

const VALUES: [f64; 9] = [5.0, 7.0, 3.0, 2.0, 1.0, 8.0, 9.0, 4.0, 6.0];
const LABELS: [f64; 9] = [3.0, 2.0, 3.0, 1.0, 0.0, 2.0, 4.0, 1.0, 0.0];

#[test]
fn first_split_on_single_query_data_set() {
    let maps = maps_of(&[VALUES.to_vec()], 3);
    let sample: Vec<usize> = (0..9).collect();
    let scores = |f: usize, s: &Vec<usize>, c: &Vec<usize>| split_scores(&maps[f], &LABELS, s, c);
    let (split, tables) = find_split(&maps, &sample, 3, &scores);
    assert_eq!(split, Some((0, 2)));
    assert_eq!(tables[0][2], key(32.0));
    assert_eq!(maps[0].thresholds[2], key(1.0 + 16.0 / 3.0));
    let s = split_scores(&maps[0], &LABELS, &sample, &vec![1, 3, 6, 9]);
    assert_eq!(s[2], key(32.0));
    let (left, right) = partition(&sample, &maps[0].bin_of, 2);
    assert_eq!(left, vec![0, 2, 3, 4, 7, 8]);
    assert_eq!(right, vec![1, 5, 6]);
    assert_eq!(find_split(&maps, &sample, 4, &scores).0, None);
    assert_eq!(find_split(&maps, &sample, 5, &scores).0, None);
}

#[test]
fn single_valued_feature_has_no_split() {
    let maps = maps_of(&[vec![2.5; 6]], 3);
    let sample: Vec<usize> = (0..6).collect();
    let targets = [1.0, 0.0, 3.0, 2.0, 0.0, 1.0];
    let scores = |f: usize, s: &Vec<usize>, c: &Vec<usize>| split_scores(&maps[f], &targets, s, c);
    assert_eq!(find_split(&maps, &sample, 1, &scores).0, None);
}

#[test]
fn first_feature_wins_ties() {
    let maps = maps_of(&[VALUES.to_vec(), VALUES.to_vec()], 3);
    let sample: Vec<usize> = (0..9).collect();
    let scores = |f: usize, s: &Vec<usize>, c: &Vec<usize>| split_scores(&maps[f], &LABELS, s, c);
    assert_eq!(find_split(&maps, &sample, 3, &scores).0, Some((0, 2)));
}

fn check_tree(tree: &RegressionTree, leaves: &[Vec<usize>], n: usize, rows: &[Vec<u64>]) {
    assert!(leaves.len() >= 1 && leaves.len() <= tree.max_leaves);
    assert_eq!(tree.n_leaves, leaves.len());
    let mut seen = vec![0; n];
    for (k, leaf) in leaves.iter().enumerate() {
        for &i in leaf {
            seen[i] += 1;
            assert_eq!(tree.leaf_of(&rows[i], key(0.0)), k);
        }
    }
    assert!(seen.iter().all(|c| *c == 1));
    let mut internal = 0;
    for node in &tree.nodes {
        match node {
            Node::Internal { left, right, .. } => {
                internal += 1;
                assert!(*left < tree.nodes.len() && *right < tree.nodes.len());
            }
            Node::Leaf { .. } => {}
            Node::Frontier => panic!("node left on the frontier"),
        }
    }
    assert_eq!(internal + 1, leaves.len());
}

#[test]
fn fit_respects_leaf_budget() {
    let maps = maps_of(&[VALUES.to_vec()], 3);
    let rows: Vec<Vec<u64>> = VALUES.iter().map(|v| vec![key(*v)]).collect();
    for max_leaves in 1..6 {
        let mut tree = RegressionTree::new(max_leaves, 1);
        let leaves = tree.fit(
            &maps,
            9,
            |s: &Vec<usize>| variance(&LABELS, s),
            |f: usize, s: &Vec<usize>, c: &Vec<usize>| split_scores(&maps[f], &LABELS, s, c),
        );
        check_tree(&tree, &leaves, 9, &rows);
        assert!(leaves.len() <= max_leaves);
    }
}

#[test]
fn fit_with_large_minimum_gives_one_leaf() {
    let maps = maps_of(&[VALUES.to_vec()], 3);
    let rows: Vec<Vec<u64>> = VALUES.iter().map(|v| vec![key(*v)]).collect();
    let mut tree = RegressionTree::new(10, 4);
    let leaves = tree.fit(
        &maps,
        9,
        |s: &Vec<usize>| variance(&LABELS, s),
        |f: usize, s: &Vec<usize>, c: &Vec<usize>| split_scores(&maps[f], &LABELS, s, c),
    );
    assert_eq!(leaves, vec![(0..9).collect::<Vec<usize>>()]);
    check_tree(&tree, &leaves, 9, &rows);
}

#[test]
fn regression_tree_test_tree_fitting() {
    // (label, qid, feature_values)
    let data = vec![
        (3.0, 1, vec![3.0, 0.0]),
        (2.0, 1, vec![2.0, 0.0]),
        (1.0, 1, vec![1.0, 0.0]),
        (1.0, 1, vec![1.0, 0.0]),
        (3.0, 1, vec![3.0, 0.0]),
        (2.0, 1, vec![2.0, 0.0]),
    ];
    let labels: Vec<f64> = data.iter().map(|d| d.0).collect();
    let columns: Vec<Vec<f64>> = (0..2).map(|f| data.iter().map(|d| d.2[f]).collect()).collect();
    let rows: Vec<Vec<u64>> = data.iter().map(|d| d.2.iter().map(|v| key(*v)).collect()).collect();
    let maps = maps_of(&columns, 3);
    let mut tree = RegressionTree::new(10, 1);
    let leaves = tree.fit(
        &maps,
        6,
        |s: &Vec<usize>| variance(&labels, s),
        |f: usize, s: &Vec<usize>, c: &Vec<usize>| split_scores(&maps[f], &labels, s, c),
    );
    check_tree(&tree, &leaves, 6, &rows);
    // The three distinct values of the first feature end in three leaves.
    assert_eq!(leaves.len(), 3);
    for leaf in &leaves {
        let l = labels[leaf[0]];
        assert!(leaf.iter().all(|&i| labels[i] == l));
    }
}

#[test]
fn empty_ensemble_reaches_no_leaf() {
    let ensemble = Ensemble::new();
    assert_eq!(ensemble.len(), 0);
    assert!(ensemble.leaves_of(&vec![key(1.0)], key(0.0)).is_empty());
}

#[test]
fn ensemble_walks_every_tree() {
    let maps = maps_of(&[VALUES.to_vec()], 3);
    let mut ensemble = Ensemble::new();
    for max_leaves in [1, 2] {
        let mut tree = RegressionTree::new(max_leaves, 3);
        tree.fit(
            &maps,
            9,
            |s: &Vec<usize>| variance(&LABELS, s),
            |f: usize, s: &Vec<usize>, c: &Vec<usize>| split_scores(&maps[f], &LABELS, s, c),
        );
        ensemble.push(tree);
    }
    // 7.0 lies above the threshold 1 + 16/3 of the split tree.
    assert_eq!(ensemble.leaves_of(&vec![key(7.0)], key(0.0)), vec![0, 1]);
    assert_eq!(ensemble.leaves_of(&vec![key(2.0)], key(0.0)), vec![0, 0]);
    // A missing feature reads as 0, which goes left.
    assert_eq!(ensemble.leaves_of(&Vec::new(), key(0.0)), vec![0, 0]);
}

#[test]
fn node_data_new_keeps_its_parts() {
    let d = NodeData::new(4, vec![1, 2], 9);
    assert_eq!(d.index, 4);
    assert_eq!(d.sample, vec![1, 2]);
    assert_eq!(d.variance, 9);
}

#[test]
fn select_split_takes_highest_offer() {
    let counts = vec![vec![1, 3, 6, 9], vec![2, 4, 9]];
    let scores = vec![vec![0, 29, 32, 0], vec![40, 10, 0]];
    assert_eq!(select_split(&counts, &scores, 3), Some((0, 2)));
    assert_eq!(select_split(&counts, &scores, 2), Some((1, 0)));
    assert_eq!(select_split(&counts, &scores, 5), None);
    assert_eq!(select_split(&Vec::new(), &Vec::new(), 1), None);
}

#[test]
fn select_split_prefers_first_feature_on_ties() {
    let counts = vec![vec![2, 5], vec![1, 3, 5], vec![2, 5]];
    let scores = vec![vec![7, 0], vec![7, 7, 0], vec![9, 0]];
    assert_eq!(select_split(&counts[..2].to_vec(), &scores[..2].to_vec(), 1), Some((0, 0)));
    assert_eq!(select_split(&counts, &scores, 1), Some((2, 0)));
}

#[test]
fn fit_first_split_on_single_query_data_set() {
    let maps = maps_of(&[VALUES.to_vec()], 3);
    let mut tree = RegressionTree::new(2, 3);
    let leaves = tree.fit(
        &maps,
        9,
        |s: &Vec<usize>| variance(&LABELS, s),
        |f: usize, s: &Vec<usize>, c: &Vec<usize>| split_scores(&maps[f], &LABELS, s, c),
    );
    match tree.nodes[0] {
        Node::Internal { fid, bin, threshold, left, right } => {
            assert_eq!((fid, bin, left, right), (0, 2, 1, 2));
            assert_eq!(threshold, key(1.0 + 16.0 / 3.0));
        }
        _ => panic!("the root should split"),
    }
    assert_eq!(leaves, vec![vec![0, 2, 3, 4, 7, 8], vec![1, 5, 6]]);
}
