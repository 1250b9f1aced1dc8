use xtask::md::{extract_link_path, h1_of, md_files_in, read_meta_str, sort_key, split_topics};
use xtask::tree::SrcTree;

#[test]
fn extracts_link_path() {
    assert_eq!(
        extract_link_path("  - [所有权](./rust/所有权.md)").as_deref(),
        Some("rust/所有权.md")
    );
}

#[test]
fn extracts_link_path_with_special_title() {
    assert_eq!(
        extract_link_path("  - [ref 和 &](./rust/ref和&.md)").as_deref(),
        Some("rust/ref和&.md")
    );
    assert_eq!(
        extract_link_path("  - [a]b](./rust/x.md)").as_deref(),
        Some("rust/x.md")
    );
}

#[test]
fn extracts_link_path_with_trailing_desc() {
    assert_eq!(
        extract_link_path("- [导论](./导论.md) —— 哲学是什么").as_deref(),
        Some("导论.md")
    );
}

#[test]
fn ignores_non_link_lines() {
    assert_eq!(extract_link_path("# Rust"), None);
    assert_eq!(extract_link_path(""), None);
}

#[test]
fn reads_meta_comments() {
    let content = "<!-- topic: 倒装结构 -->\n<!-- desc: 一句话说明 -->\n# 标题\n正文\n";
    assert_eq!(read_meta_str(content, "topic").as_deref(), Some("倒装结构"));
    assert_eq!(read_meta_str(content, "desc").as_deref(), Some("一句话说明"));
    assert_eq!(read_meta_str(content, "label"), None);
    assert_eq!(h1_of(content).as_deref(), Some("标题"));
}

#[test]
fn splits_multiple_topics() {
    assert_eq!(split_topics("倒装结构"), vec!["倒装结构"]);
    assert_eq!(
        split_topics("倒装结构, 从句结构，比较结构"),
        vec!["倒装结构", "从句结构", "比较结构"]
    );
    assert_eq!(split_topics("倒装结构,,倒装结构"), vec!["倒装结构"]);
    assert!(split_topics("").is_empty());
    assert_eq!(
        split_topics("非谓语动词（分词 / 动名词）"),
        vec!["非谓语动词（分词 / 动名词）"]
    );
}

#[test]
fn sorts_numeric_prefixes_by_value() {
    let mut names = vec![
        "100-c.md".to_string(),
        "9-a.md".to_string(),
        "11-b.md".to_string(),
        "02-z.md".to_string(),
    ];
    names.sort_by(|a, b| sort_key(a).cmp(&sort_key(b)));
    assert_eq!(names, vec!["02-z.md", "9-a.md", "11-b.md", "100-c.md"]);
}

#[test]
fn sorts_unnumbered_after_numbered() {
    let mut names = vec![
        "closure.md".to_string(),
        "01-a.md".to_string(),
        "atomic.md".to_string(),
    ];
    names.sort_by(|a, b| sort_key(a).cmp(&sort_key(b)));
    assert_eq!(names, vec!["01-a.md", "atomic.md", "closure.md"]);
}

#[test]
fn ignores_meta_far_into_body() {
    let mut content = String::from("# 标题\n");
    for _ in 0..20 {
        content.push_str("正文\n");
    }
    content.push_str("<!-- topic: 迟到的主题 -->\n");
    assert_eq!(read_meta_str(&content, "topic"), None);
}

#[test]
fn listing_sorts_and_excludes() {
    let mut tree = SrcTree::new();
    for name in ["100-c.md", "9-a.md", "closure.md", "02-z.md", "index.md", "README.md", "SUMMARY.md", "notes.txt", "sub/x.md"] {
        tree.add_file(&format!("d/{name}"), "");
    }
    assert_eq!(
        md_files_in(&tree, "d"),
        vec!["02-z.md", "9-a.md", "100-c.md", "closure.md"]
    );
}

#[test]
fn sort_key_of_huge_number_sorts_last() {
    assert_eq!(sort_key("99999999999999999999999-x.md").0, u64::MAX);
    assert_eq!(sort_key("007-x.md").0, 7);
    assert_eq!(sort_key("x.md").0, u64::MAX);
}

#[test]
fn split_topics_never_yields_blank_or_repeated_topics() {
    let t = split_topics(" a ，, a,b , ,b");
    assert_eq!(t, vec!["a", "b"]);
}

#[test]
fn extracts_a_path_with_parentheses() {
    assert_eq!(
        extract_link_path("  - [A](./rust/a(1).md)").as_deref(),
        Some("rust/a(1).md")
    );
    assert_eq!(
        extract_link_path("- [A](./a(b).md) —— 说明 (x)").as_deref(),
        Some("a(b).md")
    );
    assert_eq!(extract_link_path("- [A](./a(b.md)").as_deref(), Some("a(b.md"));
    assert_eq!(extract_link_path("- [A](./a(b.md) (x").as_deref(), Some("a(b.md"));
    assert_eq!(extract_link_path("- [A](./a(b.md"), None);
}

#[test]
fn split_topics_keeps_each_trimmed_piece_once() {
    assert_eq!(split_topics(" b ，, a,b，  ,a "), vec!["b", "a"]);
    assert!(split_topics(" , ，").is_empty());
}
