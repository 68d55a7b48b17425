use rforests::svmlight::{dense_slots, LineError, LineFields, QidError, SvmLightFile};

fn text(s: &str, from: usize, to: usize) -> String {
    s.chars().skip(from).take(to - from).collect()
}

/// The label, the qid and the `(id, value)` pairs of a line, reals read here.
fn read(s: &str) -> Result<(f64, usize, Vec<(usize, f64)>), String> {
    let fields: LineFields = SvmLightFile::split_line(s).map_err(|_| "refused".to_string())?;
    let label = text(s, fields.label.0, fields.label.1).parse::<f64>().map_err(|e| e.to_string())?;
    let mut pairs = Vec::new();
    for &(id, from, to) in &fields.features {
        pairs.push((id, text(s, from, to).parse::<f64>().map_err(|e| e.to_string())?));
    }
    Ok((label, fields.qid, pairs))
}

/// The single feature field of a line `0 qid:1 <field>`.
fn feature(field: &str) -> Result<(usize, f64), String> {
    let (_, _, pairs) = read(&format!("0 qid:1 {}", field))?;
    Ok(pairs[0])
}

#[test]
fn svmlight_test_line_parse() {
    let s = "3.0 qid:3864 1:3.000000 2:9.000000 4:3.0 # 3:10.0";
    let (label, qid, pairs) = read(s).unwrap();
    assert_eq!(label, 3.0);
    assert_eq!(qid, 3864);
    assert_eq!(pairs, vec![(1, 3.0), (2, 9.0), (4, 3.0)]);
    assert_eq!(dense(&pairs), vec![3.0, 9.0, 0.0, 3.0]);
}

/// Dense feature values: absent features read as 0, a repeated id keeps
/// its last value.
fn dense(pairs: &[(usize, f64)]) -> Vec<f64> {
    let ids: Vec<usize> = pairs.iter().map(|p| p.0).collect();
    dense_slots(&ids).iter().map(|slot| slot.map_or(0.0, |k| pairs[k].1)).collect()
}

#[test]
fn dense_slots_last_field_wins() {
    assert_eq!(dense_slots(&vec![3, 1, 3]), vec![Some(1), None, Some(2)]);
    assert!(dense_slots(&Vec::new()).is_empty());
    assert_eq!(dense(&[(2, 5.0), (2, 7.0)]), vec![0.0, 7.0]);
}

#[test]
fn parse_test_line_parse() {
    let s = "0 qid:3864 1:3.000000 2:9.000000 # 3:10.0";
    let (label, qid, pairs) = read(s).unwrap();
    assert_eq!(label, 0.0);
    assert_eq!(qid, 3864);
    assert_eq!(pairs, vec![(1, 3.0), (2, 9.0)]);
    assert_eq!(dense(&pairs), vec![3.0, 9.0]);
}

#[test]
fn parse_test_line_meta() {
    assert!(matches!(SvmLightFile::split_line("@feature"), Err(LineError::TooFewFields)));
}

#[test]
fn parse_test_pair_new() {
    assert_eq!(feature("1:3").unwrap(), (1, 3.0));
}

#[test]
fn test_pair_only_id() {
    assert!(feature("1:").is_err());
}

#[test]
fn test_pair_only_index() {
    assert!(feature("7:").is_err());
}

#[test]
fn parse_test_pair_only_value() {
    assert!(matches!(SvmLightFile::split_line("0 qid:1 :3"), Err(LineError::FeatureId)));
}

#[test]
fn parse_test_pair_too_many_colons() {
    assert!(matches!(SvmLightFile::split_line("0 qid:1 1:2:3"), Err(LineError::FieldCount)));
}

#[test]
fn parse_test_pair_no_colons() {
    assert!(matches!(SvmLightFile::split_line("0 qid:1 1"), Err(LineError::FieldCount)));
}

#[test]
fn split_line_positions_count_characters() {
    let s = "\t2  qid:5\t10:-1.5   # é";
    let fields = SvmLightFile::split_line(s).ok().unwrap();
    assert_eq!(fields.label, (1, 2));
    assert_eq!(fields.qid, 5);
    assert_eq!(fields.features, vec![(10, 13, 17)]);
    assert_eq!(text(s, 13, 17), "-1.5");
}

#[test]
fn split_line_blank_and_comment_lines() {
    assert!(matches!(SvmLightFile::split_line(""), Err(LineError::Blank)));
    assert!(matches!(SvmLightFile::split_line("   \t "), Err(LineError::Blank)));
    assert!(matches!(SvmLightFile::split_line("  # 1 qid:2 3:4"), Err(LineError::Blank)));
    assert!(matches!(SvmLightFile::split_line("1"), Err(LineError::TooFewFields)));
}

#[test]
fn split_line_errors_come_in_field_order() {
    assert!(matches!(SvmLightFile::split_line("1 id:2 0:1"), Err(LineError::Qid(QidError::Name))));
    assert!(matches!(SvmLightFile::split_line("1 qid:2 0:1 5"), Err(LineError::FeatureId)));
    assert!(matches!(SvmLightFile::split_line("1 qid:2 3:1 5 x:1"), Err(LineError::FieldCount)));
    assert!(matches!(SvmLightFile::split_line("1 qid:2"), Ok(_)));
}
