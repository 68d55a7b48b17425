use rforests::query::{max_feature_count, query_segments};
use rforests::lambda::label_pairs;
use rforests::rank::rank_desc;

#[test]
fn test_generate_queries() {
    // qids and stored feature counts of the three lines
    // "0 qid:3864 1:1.0 2:0.0 3:0.0 4:0.0 5:0.0",
    // "2 qid:3864 1:1.0 2:0.007042 3:0.0 4:0.0 5:0.221591",
    // "0 qid:3865 1:0.289474 2:0.014085 3:0.4 4:0.0 5:0.085227".
    let qids: Vec<u64> = vec![3864, 3864, 3865];
    let lengths: Vec<usize> = vec![5, 5, 5];
    assert_eq!(max_feature_count(&lengths), 5);
    let queries = query_segments(&qids);
    assert_eq!(queries[0], (0, 2));
    assert_eq!(queries[1], (2, 1));
    assert_eq!(queries.len(), 2);
}

#[test]
fn query_iter_groups_contiguous_runs() {
    let qids: Vec<u64> = vec![1, 1, 2, 5];
    assert_eq!(query_segments(&qids), vec![(0, 2), (2, 1), (3, 1)]);
}

#[test]
fn query_segments_keep_input_order() {
    // A qid that comes back later starts a new run.
    let qids: Vec<u64> = vec![7, 7, 3, 7];
    assert_eq!(query_segments(&qids), vec![(0, 2), (2, 1), (3, 1)]);
}

#[test]
fn query_segments_of_empty_data_set() {
    let qids: Vec<u64> = Vec::new();
    assert!(query_segments(&qids).is_empty());
}

#[test]
fn max_feature_count_takes_longest_instance() {
    assert_eq!(max_feature_count(&vec![2, 7, 3]), 7);
    assert_eq!(max_feature_count(&Vec::new()), 0);
}

#[test]
fn rank_desc_orders_by_descending_key() {
    let keys: Vec<u64> = vec![3, 9, 1, 9, 5];
    assert_eq!(rank_desc(&keys), vec![1, 3, 4, 0, 2]);
}

#[test]
fn rank_desc_is_stable_on_ties() {
    let keys: Vec<u64> = vec![4, 4, 4];
    assert_eq!(rank_desc(&keys), vec![0, 1, 2]);
    assert!(rank_desc(&Vec::new()).is_empty());
}

#[test]
fn ranking_twice_gives_same_order_and_pairs() {
    let scores: Vec<u64> = vec![10, 30, 20, 30, 0];
    let labels: Vec<u64> = vec![1, 0, 2, 2, 1];
    let first = rank_desc(&scores);
    let second = rank_desc(&scores);
    assert_eq!(first, second);
    let by_rank: Vec<u64> = first.iter().map(|&i| labels[i]).collect();
    assert_eq!(label_pairs(&by_rank), label_pairs(&by_rank));
    assert_eq!(by_rank, vec![0, 2, 2, 1, 1]);
    assert_eq!(label_pairs(&by_rank), vec![(1, 0), (1, 3), (1, 4), (2, 0), (2, 3), (2, 4), (3, 0), (4, 0)]);
}
