use kimi::construct_lines;
use kimi::normalize_first_category;
use kimi::parse_categories;

#[test]
fn test_simple_merge() {
    let text = "中国共产党机关\n负责人\n中国共产党基层\n组织负责人";
    let result = construct_lines(text);
    let expected = vec![
        "中国共产党机关负责人".to_string(),
        "中国共产党基层组织负责人".to_string(),
    ];
    assert_eq!(result, expected);
}

#[test]
fn test_empty_lines() {
    let text = "国家权力机关负\n责人\n\n国家行政机关负\n责人";
    let result = construct_lines(text);
    let expected = vec![
        "国家权力机关负责人".to_string(),
        "国家行政机关负责人".to_string(),
    ];
    assert_eq!(result, expected);
}

#[test]
fn test_mixed_lines() {
    let text = "中国共产党机关\n负责人\n国家权力机关负\n责人\n民主党派负责人";
    let result = construct_lines(text);
    let expected = vec![
        "中国共产党机关负责人".to_string(),
        "国家权力机关负责人".to_string(),
        "民主党派负责人".to_string(),
    ];
    assert_eq!(result, expected);
}

#[test]
fn test_with_code() {
    let chunks = vec!["1-01(GBM10100)中国共产党机关负责人".to_string()];
    let result = parse_categories(&chunks);
    assert_eq!(result.len(), 1);
    assert_eq!(result[0].id, "1-01");
    assert_eq!(result[0].code.as_deref(), Some("GBM10100"));
    assert_eq!(result[0].desc.as_deref(), Some("中国共产党机关负责人"));
}

#[test]
fn test_without_code() {
    let chunks = vec!["1-03 民主党派负责人".to_string()];
    let result = parse_categories(&chunks);
    assert_eq!(result.len(), 1);
    assert_eq!(result[0].id, "1-03");
    assert!(result[0].code.is_none());
    assert_eq!(result[0].desc.as_deref(), Some("民主党派负责人"));
}

#[test]
fn test_multiple_level_id() {
    let chunks = vec!["1-02-01-00 国家权力机关负责人".to_string()];
    let result = parse_categories(&chunks);
    assert_eq!(result.len(), 1);
    assert_eq!(result[0].id, "1-02-01-00");
    assert!(result[0].code.is_none());
    assert_eq!(result[0].desc.as_deref(), Some("国家权力机关负责人"));
}

#[test]
fn test_only_id() {
    let chunks = vec!["1-04-00-00".to_string()];
    let result = parse_categories(&chunks);
    assert_eq!(result.len(), 1);
    assert_eq!(result[0].id, "1-04-00-00");
    assert!(result[0].code.is_none());
}

#[test]
fn test_mixed_chunks() {
    let chunks = vec![
        "1-01(GBM10100)中国共产党机关负责人".to_string(),
        "1-02-01-00国家权力机关负责人".to_string(),
        "1-03民主党派负责人".to_string(),
    ];
    let result = parse_categories(&chunks);
    assert_eq!(result.len(), 3);
    assert_eq!(result[0].id, "1-01");
    assert_eq!(result[1].id, "1-02-01-00");
    assert_eq!(result[2].id, "1-03");
}

#[test]
fn test_normalize_basic() {
    let input = "第一大类1(GBM10)党的机关、国家机关、群众团体和社会组织、企事业单位负责人";
    let expected = "1(GBM10) 第一大类党的机关、国家机关、群众团体和社会组织、企事业单位负责人";
    assert_eq!(normalize_first_category(input).unwrap(), expected);
}

#[test]
fn test_normalize_basic_two() {
    let input = "第一大类 1(GBM10) 党的机关、国家机关、群众团体和社会组织、企事业单位负责人";
    let expected = "1(GBM10) 第一大类党的机关、国家机关、群众团体和社会组织、企事业单位负责人";
    assert_eq!(normalize_first_category(input).unwrap(), expected);
}
