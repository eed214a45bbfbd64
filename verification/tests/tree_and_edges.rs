use kimi::Category;
use kimi::CategoryTree;
use kimi::construct_lines;
use kimi::normalize_first_category;
use kimi::parse_categories;

fn cat(id: &str, code: Option<&str>, desc: &str) -> Category {
    Category {
        id: id.to_string(),
        code: code.map(|c| c.to_string()),
        desc: Some(desc.to_string()),
    }
}

#[test]
fn test_tree_shape_three_ids() {
    let mut tree = CategoryTree::new();
    tree.insert("1-01".to_string(), cat("1-01", Some("GBM10100"), "a"));
    tree.insert("1-02-01-00".to_string(), cat("1-02-01-00", None, "b"));
    tree.insert("1-03".to_string(), cat("1-03", None, "c"));

    assert_eq!(tree.child_count(), 1);
    assert_eq!(tree.child_key(0).as_str(), "1");
    let one = tree.child("1").unwrap();
    assert_eq!(one.child_count(), 3);
    assert_eq!(one.child_key(0).as_str(), "01");
    assert_eq!(one.child_key(1).as_str(), "02");
    assert_eq!(one.child_key(2).as_str(), "03");

    let leaf01 = one.child("01").unwrap();
    assert_eq!(leaf01.categories().len(), 1);
    assert_eq!(leaf01.categories()[0].id, "1-01");
    assert_eq!(leaf01.child_count(), 0);

    let two = one.child("02").unwrap();
    let leaf = two.child("01").unwrap().child("00").unwrap();
    assert_eq!(leaf.categories().len(), 1);
    assert_eq!(leaf.categories()[0].id, "1-02-01-00");

    let leaf03 = one.child("03").unwrap();
    assert_eq!(leaf03.categories()[0].id, "1-03");
    assert!(one.child("04").is_none());
}

#[test]
fn test_insert_order_per_path_preserved() {
    // Two interleavings that keep, for each id path, the relative order of
    // its records: per-node record lists must agree.
    let mut t1 = CategoryTree::new();
    t1.insert("1-01".to_string(), cat("1-01", None, "a"));
    t1.insert("1-02".to_string(), cat("1-02", None, "b"));
    t1.insert("1-01".to_string(), cat("1-01", None, "c"));

    let mut t2 = CategoryTree::new();
    t2.insert("1-02".to_string(), cat("1-02", None, "b"));
    t2.insert("1-01".to_string(), cat("1-01", None, "a"));
    t2.insert("1-01".to_string(), cat("1-01", None, "c"));

    for t in [&t1, &t2] {
        let node = t.child("1").unwrap().child("01").unwrap();
        let descs: Vec<&str> = node.categories().iter().map(|c| c.desc.as_deref().unwrap()).collect();
        assert_eq!(descs, vec!["a", "c"]);
        let node2 = t.child("1").unwrap().child("02").unwrap();
        assert_eq!(node2.categories()[0].desc.as_deref(), Some("b"));
    }
}

#[test]
fn test_duplicate_ids_append() {
    let mut tree = CategoryTree::new();
    tree.insert("2".to_string(), cat("2", None, "x"));
    tree.insert("2".to_string(), cat("2", None, "x"));
    let node = tree.child("2").unwrap();
    assert_eq!(node.categories().len(), 2);
}

#[test]
fn test_empty_id_attaches_under_empty_segment() {
    let mut tree = CategoryTree::new();
    tree.insert(String::new(), cat("", None, "r"));
    let node = tree.child("").unwrap();
    assert_eq!(node.categories().len(), 1);
}

#[test]
fn test_reconstruct_idempotent_on_segmented_input() {
    let text = "中国共产党机关负责人\n国家权力机关负责人";
    let once = construct_lines(text);
    assert_eq!(once, vec!["中国共产党机关负责人", "国家权力机关负责人"]);
    let again = construct_lines(&once.join("\n"));
    assert_eq!(again, once);
}

#[test]
fn test_noise_characters_removed() {
    let result = construct_lines("L中S国/共产党机关负责人");
    assert_eq!(result, vec!["中国共产党机关负责人"]);
}

#[test]
fn test_three_dash_line_is_terminal() {
    let result = construct_lines("1-02-01-00\n国家权力");
    assert_eq!(result, vec!["1-02-01-00", "国家权力"]);
}

#[test]
fn test_worker_suffix_lookahead() {
    // "worker" suffix followed by a "technical personnel" line continues
    let merged = construct_lines("电工\n技术人员若干");
    assert_eq!(merged, vec!["电工技术人员若干"]);
    // otherwise the "worker" suffix ends the entry
    let split = construct_lines("电工\n别的内容");
    assert_eq!(split, vec!["电工", "别的内容"]);
}

#[test]
fn test_construct_lines_empty_text() {
    assert_eq!(construct_lines(""), Vec::<String>::new());
}

#[test]
fn test_parse_code_with_inner_whitespace() {
    let chunks = vec!["1-01 ( GBM 10100 ) 中国 共产党".to_string()];
    let result = parse_categories(&chunks);
    assert_eq!(result.len(), 1);
    assert_eq!(result[0].code.as_deref(), Some("GBM10100"));
    assert_eq!(result[0].desc.as_deref(), Some("中国共产党"));
}

#[test]
fn test_parse_non_matching_entry_dropped() {
    let chunks = vec![
        "没有编号的行".to_string(),
        "1-05 说明".to_string(),
    ];
    let result = parse_categories(&chunks);
    assert_eq!(result.len(), 1);
    assert_eq!(result[0].id, "1-05");
}

#[test]
fn test_ideographic_space_stripped() {
    let chunks = vec!["1-03　民主党派\u{3000}负责人".to_string()];
    let result = parse_categories(&chunks);
    assert_eq!(result[0].desc.as_deref(), Some("民主党派负责人"));
}

#[test]
fn test_only_id_has_empty_description() {
    let chunks = vec!["1-04-00-00".to_string()];
    let result = parse_categories(&chunks);
    assert_eq!(result[0].desc.as_deref(), Some(""));
}

#[test]
fn test_normalize_not_applicable() {
    assert!(normalize_first_category("没有数字的行").is_none());
    assert!(normalize_first_category("名字1没有右括号").is_none());
    assert!(normalize_first_category("1(GBM10)名字在前才能修").is_none());
}

#[test]
fn test_parse_one_column_end_to_end() {
    let mut tree = CategoryTree::new();
    tree.parse_one_column("1-01(GBM10100)中国共产党机关\n负责人\n\n1-03 民主党派负责人");
    let one = tree.child("1").unwrap();
    assert_eq!(one.child_count(), 2);
    assert_eq!(one.child_key(0).as_str(), "01");
    assert_eq!(one.child_key(1).as_str(), "03");
    let a = one.child("01").unwrap();
    assert_eq!(a.categories()[0].code.as_deref(), Some("GBM10100"));
    assert_eq!(a.categories()[0].desc.as_deref(), Some("中国共产党机关负责人"));
    let b = one.child("03").unwrap();
    assert_eq!(b.categories()[0].desc.as_deref(), Some("民主党派负责人"));
}

#[test]
fn test_parse_two_columns_pairs_and_counts_dropped() {
    let mut tree = CategoryTree::new();
    let dropped = tree.parse_two_columns(
        "1-01\n\n1-02\n\n1-03",
        "中国共产党机关负责人\n国家权力机关负责人",
    );
    assert_eq!(dropped, 1);
    let one = tree.child("1").unwrap();
    assert_eq!(one.child_count(), 2);
    assert_eq!(
        one.child("01").unwrap().categories()[0].desc.as_deref(),
        Some("中国共产党机关负责人")
    );
    assert_eq!(
        one.child("02").unwrap().categories()[0].desc.as_deref(),
        Some("国家权力机关负责人")
    );
    assert!(one.child("03").is_none());
}

#[test]
fn test_build_from_grid_column_convention() {
    let grid = vec![vec![
        "第一大类1(GBM10)负责人".to_string(),
        "忽略的第二列".to_string(),
        "1-01(GBM10100)中国共产党机关负责人".to_string(),
        "忽略的第四列".to_string(),
        "1-01-01".to_string(),
        "中国共产党中央机关负责人".to_string(),
    ]];
    let mut tree = CategoryTree::new();
    tree.build_from_grid(&grid);
    let one = tree.child("1").unwrap();
    // column 1 normalized: id "1", code GBM10
    assert_eq!(one.categories()[0].code.as_deref(), Some("GBM10"));
    // column 3
    assert_eq!(
        one.child("01").unwrap().categories()[0].id,
        "1-01"
    );
    // columns 5 and 6 combined
    let leaf = one.child("01").unwrap().child("01").unwrap();
    assert_eq!(
        leaf.categories()[0].desc.as_deref(),
        Some("中国共产党中央机关负责人")
    );
}

#[test]
fn test_render_lines_small_tree() {
    let mut tree = CategoryTree::new();
    tree.insert("1".to_string(), cat("1", None, "x"));
    let lines = tree.render_lines();
    assert_eq!(lines, vec!["└── 1".to_string(), "    └── 1 [x]".to_string()]);
}

#[test]
fn test_render_lines_with_code() {
    let mut tree = CategoryTree::new();
    tree.insert("1".to_string(), cat("1", Some("GBM10"), "y"));
    tree.insert("2".to_string(), cat("2", None, "z"));
    let lines = tree.render_lines();
    assert_eq!(
        lines,
        vec![
            "└── 1".to_string(),
            "    └── 1 [GBM10, y]".to_string(),
            "└── 2".to_string(),
            "    └── 2 [z]".to_string(),
        ]
    );
}
