use rforests::lambda::label_pairs;
use rforests::lambdamart::{Config, ConfigError};
use rforests::metric::{self, DCGScorer, Metric, NDCGScorer};
use rforests::ranknet::RankNet;
use rforests::stats::SampleStats;
use rforests::svmlight::{QidError, SvmLightFile};

#[test]
fn metric_new_by_name() {
    match metric::new("NDCG", 10) {
        Some(Metric::Ndcg(s)) => assert_eq!(s.get_k(), 10),
        _ => panic!("NDCG expected"),
    }
    match metric::new("DCG", 5) {
        Some(Metric::Dcg(s)) => assert_eq!(s.get_k(), 5),
        _ => panic!("DCG expected"),
    }
    assert!(metric::new("MAP", 10).is_none());
    assert!(metric::new("ndcg", 10).is_none());
}

#[test]
fn ndcg_scorer_new_sets_truncation() {
    let s = NDCGScorer::new(2);
    assert_eq!(s.truncation_level, 2);
    assert_eq!(s.dcg.truncation_level, 2);
    assert_eq!(DCGScorer::new(7).get_k(), 7);
}

#[test]
fn metric_cutoff_is_min_of_length_and_k() {
    let m = Metric::Ndcg(NDCGScorer::new(10));
    assert_eq!(m.cutoff(3), 3);
    assert_eq!(m.cutoff(12), 10);
    assert!(m.is_normalized());
    assert!(!Metric::Dcg(DCGScorer::new(10)).is_normalized());
}

#[test]
fn label_pairs_for_listwise_lambdas() {
    // labels [3, 2, 4] in predicted order
    let pairs = label_pairs(&vec![3, 2, 4]);
    assert_eq!(pairs, vec![(0, 1), (2, 0), (2, 1)]);
}

#[test]
fn equal_labels_give_no_pairs() {
    assert!(label_pairs(&vec![0, 0, 0]).is_empty());
    assert!(label_pairs(&Vec::new()).is_empty());
}

#[test]
fn parse_qid_reads_number() {
    assert!(matches!(SvmLightFile::parse_qid("qid:3864"), Ok(3864)));
    assert!(matches!(SvmLightFile::parse_qid("qid:+7"), Ok(7)));
    assert!(matches!(SvmLightFile::parse_qid("qid:0"), Ok(0)));
}

#[test]
fn parse_qid_errors() {
    assert!(matches!(SvmLightFile::parse_qid("qid3864"), Err(QidError::FieldCount)));
    assert!(matches!(SvmLightFile::parse_qid("qid:1:2"), Err(QidError::FieldCount)));
    assert!(matches!(SvmLightFile::parse_qid("id:3"), Err(QidError::Name)));
    assert!(matches!(SvmLightFile::parse_qid("qix:3"), Err(QidError::Name)));
    assert!(matches!(SvmLightFile::parse_qid("qid:"), Err(QidError::Number)));
    assert!(matches!(SvmLightFile::parse_qid("qid:+"), Err(QidError::Number)));
    assert!(matches!(SvmLightFile::parse_qid("qid:12a"), Err(QidError::Number)));
    assert!(matches!(SvmLightFile::parse_qid("qid:-1"), Err(QidError::Number)));
    assert!(matches!(
        SvmLightFile::parse_qid("qid:99999999999999999999999999"),
        Err(QidError::Number)
    ));
}

#[test]
fn config_accepts_defaults() {
    match Config::new(1000, 10, 1, 256, "NDCG", 10, 100) {
        Ok(c) => {
            assert_eq!(c.trees, 1000);
            assert_eq!(c.max_leaves, 10);
            assert_eq!(c.thresholds, 256);
            assert_eq!(c.metric.get_k(), 10);
            assert!(c.metric.is_normalized());
        }
        Err(_) => panic!("valid configuration refused"),
    }
}

#[test]
fn config_errors() {
    assert!(matches!(Config::new(10, 10, 1, 0, "NDCG", 10, 100), Err(ConfigError::Thresholds)));
    assert!(matches!(Config::new(10, 0, 1, 256, "NDCG", 10, 100), Err(ConfigError::MaxLeaves)));
    assert!(matches!(Config::new(10, 10, 0, 256, "NDCG", 10, 100), Err(ConfigError::MinLeafSamples)));
    assert!(matches!(Config::new(10, 10, 1, 256, "ERR", 10, 100), Err(ConfigError::Metric)));
    assert!(matches!(Config::new(0, 10, 1, 256, "DCG", 10, 100), Ok(_)));
}

#[test]
fn ranknet_has_nothing_to_learn() {
    let net = RankNet::new();
    net.init();
    net.learn();
}

#[test]
fn test_generate_statistics() {
    // Feature values, as order keys, of the lines
    // "0 qid:1 1:3 2:9" and "2 qid:1 2:4 5:1"; the key of 0 is 100.
    let zero = 100;
    let lines: Vec<Vec<(u32, u64)>> = vec![vec![(1, 103), (2, 109)], vec![(2, 104), (5, 101)]];
    let mut stats = SampleStats::new();
    for line in &lines {
        for &(id, value) in line {
            stats.update(id, value, zero);
        }
    }
    assert_eq!(stats.min_feature_id, 1);
    assert_eq!(stats.max_feature_id, 5);
    let ranges: Vec<(u32, u64, u64)> = stats.feature_stat.iter().map(|s| (s.id, s.min, s.max)).collect();
    assert_eq!(ranges, vec![(1, 100, 103), (2, 100, 109), (5, 100, 101)]);
    stats.update(2, 50, zero);
    assert_eq!(stats.feature_stat[1].min, 50);
}
