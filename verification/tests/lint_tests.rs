use xtask::lint::{
    book_link_queries, check_links, extract_targets, link_queries, ready_count, fix_content, lint_book, lint_book_ready, lint_file,
    links_are_decodable, local_path,
};
use xtask::tree::SrcTree;

#[test]
fn flags_bad_bullet_markers() {
    let content = "# T\n\n· 一\n  · 二\n\\* 三\n_ 四\n- 正常\n";
    let f = lint_file("a.md", content);
    let bullets: Vec<_> = f.iter().filter(|x| x.rule == "bullet").collect();
    assert_eq!(bullets.len(), 4);
    assert_eq!(bullets[0].line, 3);
    assert_eq!(bullets[1].line, 4);
}

#[test]
fn ignores_interpunct_inside_text() {
    let content = "# T\n\n就像阿瑟·叔本华所说\n《圣经·出埃及记》\n";
    assert!(lint_file("a.md", content).is_empty());
}

#[test]
fn ignores_emphasis_underscore() {
    let content = "# T\n\n_强调_ 文本\n";
    assert!(lint_file("a.md", content).is_empty());
}

#[test]
fn skips_code_fences() {
    let content = "# T\n\n```rust\n# fn hidden() {}\n· not a bullet\n```\n";
    assert!(lint_file("a.md", content).is_empty());
}

#[test]
fn flags_h1_count() {
    let one = lint_file("a.md", "# T\n\n## 二级\n");
    assert!(one.is_empty());

    let none = lint_file("a.md", "## 只有二级\n");
    assert_eq!(none.len(), 1);
    assert_eq!(none[0].rule, "h1");

    let many = lint_file("a.md", "# 一\n\n# 二\n\n# 三\n");
    assert_eq!(many.len(), 2, "第一个之外的都要报");
    assert_eq!(many[0].line, 3);
    assert_eq!(many[1].line, 5);
}

#[test]
fn flags_html_block_without_blank_line() {
    let bad = lint_file("a.md", "# T\n\n<div class=\"x\">y</div>\n> 引用\n");
    assert_eq!(bad.len(), 1);
    assert_eq!(bad[0].rule, "html-blank");

    let good = lint_file("a.md", "# T\n\n<div class=\"x\">y</div>\n\n> 引用\n");
    assert!(good.is_empty());
}

#[test]
fn ignores_html_inside_blockquote() {
    let content = "# T\n\n> 正文\n> <p align=\"right\">2023</p>\n> 结尾\n";
    assert!(lint_file("a.md", content).is_empty());
}

#[test]
fn ignores_html_comment_metadata() {
    let content = "<!-- topic: 倒装结构 -->\n<!-- label: 短 -->\n# 标题\n\n正文\n";
    assert!(lint_file("a.md", content).is_empty());
}

#[test]
fn fix_preserves_indent_and_trailing_newline() {
    let content = "# T\n\n· 一\n   · 嵌套\n- 正常\n";
    let fixed = fix_content(content).expect("应有改动");
    assert_eq!(fixed, "# T\n\n- 一\n   - 嵌套\n- 正常\n");
    assert!(lint_file("a.md", &fixed).is_empty());
    assert!(fix_content(&fixed).is_none());
}

#[test]
fn fix_leaves_code_fences_alone() {
    let content = "# T\n\n```\n· 代码里的点\n```\n";
    assert!(fix_content(content).is_none());
}

fn link_fixture() -> SrcTree {
    let mut tree = SrcTree::new();
    tree.add_file("rust/存在.md", "# 存在\n");
    tree.add_file("english/index.md", "# 索引\n");
    tree
}

#[test]
fn flags_only_missing_local_links() {
    let tree = link_fixture();
    let content = "# T\n\n\
[在](./存在.md)\n\
[不在](./缺失.md)\n\
[跨目录](../english/index.md)\n\
[带锚点](./存在.md#小节)\n\
[外链](https://example.com/x.md)\n\
[邮件](mailto:a@b.c)\n\
[本页锚点](#小节)\n";
    let f = check_links("rust/a.md", content, &tree, &none());
    assert_eq!(f.len(), 1, "只有 ./缺失.md 应该报错：{f:?}");
    assert_eq!(f[0].line, 4);
    assert_eq!(f[0].rule, "link");
}

#[test]
fn resolves_percent_encoded_paths() {
    let tree = link_fixture();
    let content = "# T\n\n[编码](./%E5%AD%98%E5%9C%A8.md)\n";
    assert!(check_links("rust/a.md", content, &tree, &none()).is_empty());
}

#[test]
fn ignores_links_inside_code_fences() {
    let tree = link_fixture();
    let content = "# T\n\n```md\n[示例](./完全不存在.md)\n```\n";
    assert!(check_links("rust/a.md", content, &tree, &none()).is_empty());
}

#[test]
fn resolves_root_relative_from_src() {
    let tree = link_fixture();
    let content = "# T\n\n[根相对](/english/index.md)\n";
    assert!(check_links("rust/a.md", content, &tree, &none()).is_empty());
}

#[test]
fn handles_parens_and_titles_in_targets() {
    assert_eq!(
        extract_targets(r#"见 [a](./x.md "标题") 与 [b](./y_(1).md)"#),
        vec!["./x.md \"标题\"", "./y_(1).md"]
    );
    assert_eq!(local_path("./x.md \"标题\"").unwrap(), "./x.md");
}

#[test]
fn checks_image_links() {
    let tree = link_fixture();
    let content = "# T\n\n![图](./没有这张图.png)\n";
    let f = check_links("rust/a.md", content, &tree, &none());
    assert_eq!(f.len(), 1);
}

#[test]
fn fix_then_lint_reports_no_bullets() {
    let content = "# T\n\n• a\n‧ b\n\t_ c\n";
    let fixed = fix_content(content).unwrap();
    assert_eq!(fixed, "# T\n\n- a\n- b\n\t- c\n");
    assert!(lint_file("a.md", &fixed).iter().all(|f| f.rule != "bullet"));
    assert!(fix_content(&fixed).is_none());
}

#[test]
fn fix_without_final_newline_keeps_none() {
    assert_eq!(fix_content("· a").unwrap(), "- a");
    assert!(fix_content("no bullets here").is_none());
}

#[test]
fn bullet_message_names_the_marker() {
    let f = lint_file("a.md", "# T\n\\* x\n");
    assert_eq!(f.len(), 1);
    assert_eq!(f[0].msg, "行首的 `\\*` 不是列表标记，会渲染成字面符号，应改用 `-`");
}

#[test]
fn h1_messages_are_exact() {
    let none = lint_file("b.md", "text\n");
    assert_eq!(none[0].msg, "缺少一级标题（`# 标题`）");
    assert_eq!(none[0].line, 1);
    assert_eq!(none[0].rel, "b.md");
    let many = lint_file("b.md", "# a\n# b\n# c\n# d\n");
    assert_eq!(many.len(), 3);
    assert_eq!(many[0].msg, "文件有 4 个一级标题，只应保留一个，其余下沉为 `##`");
}

#[test]
fn external_schemes_are_case_insensitive() {
    assert_eq!(local_path("HTTPS://example.com/a.md"), None);
    assert_eq!(local_path("JavaScript:alert(1)"), None);
    assert_eq!(local_path("#anchor"), None);
    assert_eq!(local_path("   "), None);
    assert_eq!(local_path("?q=1"), None);
    assert_eq!(local_path("./a.md?x=1#y").unwrap(), "./a.md");
}

#[test]
fn percent_decoding_keeps_invalid_utf8_escapes_as_written() {
    // %FF alone is no valid UTF-8: the path is kept as written
    assert_eq!(local_path("./%FF.md").unwrap(), "./%FF.md");
    // `+` and one digit is read as an escape, as `u8::from_str_radix` reads it
    assert_eq!(local_path("./%+41.md").unwrap(), "./\u{4}1.md");
    // a non-hex pair is left alone
    assert_eq!(local_path("./%zz.md").unwrap(), "./%zz.md");
}

#[test]
fn link_findings_carry_the_target() {
    let tree = link_fixture();
    let f = check_links("rust/a.md", "[x](./nope.md \"t\")\n", &tree, &none());
    assert_eq!(f.len(), 1);
    assert_eq!(f[0].msg, "链接指向的文件不存在：./nope.md \"t\"");
}

#[test]
fn dot_dot_inside_the_source_root_walks_the_tree() {
    let tree = link_fixture();
    assert!(check_links("rust/a.md", "[x](./)\n[y](../rust/./存在.md)\n", &tree, &none()).is_empty());
    assert_eq!(check_links("rust/a.md", "[x](./存在.md/)\n", &tree, &none()).len(), 1);
    assert_eq!(check_links("rust/a.md", "[x](./nope/../存在.md)\n", &tree, &none()).len(), 1);
}

#[test]
fn undecodable_links_are_detected() {
    assert!(links_are_decodable("[x](./%E5%AD%98.md)\n"));
    assert!(!links_are_decodable("[x](./%a中.md)\n"));
    assert!(links_are_decodable("```\n[x](./%a中.md)\n```\n"));
}

#[test]
fn lint_book_fixes_and_reports() {
    let mut tree = SrcTree::new();
    tree.add_file("SUMMARY.md", "· not checked\n");
    tree.add_file("a.md", "# A\n· x\n[l](./b.md)\n");
    tree.add_file("b.md", "no heading\n");
    let rels: Vec<String> = vec!["SUMMARY.md".into(), "a.md".into(), "b.md".into()];
    assert!(lint_book_ready(&tree, &rels, true));
    let r = lint_book(&tree, &rels, true, &none());
    assert_eq!(r.written.len(), 1);
    assert_eq!(r.written[0].0, "a.md");
    assert_eq!(r.written[0].1, "# A\n- x\n[l](./b.md)\n");
    assert_eq!(r.written[0].2, 1);
    assert_eq!(r.findings.len(), 1);
    assert_eq!(r.findings[0].rel, "b.md");
    assert_eq!(r.findings[0].rule, "h1");

    let r2 = lint_book(&tree, &rels, false, &none());
    assert!(r2.written.is_empty());
    assert_eq!(r2.findings.len(), 2);
}

fn none() -> Vec<String> {
    Vec::new()
}

#[test]
fn links_above_the_source_root_ask_the_file_system() {
    let tree = link_fixture();
    let content = "[x](../README.md)\n[y](/../book.toml)\n[z](../rust/../../x/)\n";
    assert_eq!(
        link_queries("a.md", content, &tree),
        vec!["../README.md", "../book.toml", "../rust/../../x/"]
    );
    let f = check_links("a.md", content, &tree, &none());
    assert_eq!(f.len(), 3);
    let outside = vec!["../README.md".to_string(), "../rust/../../x/".to_string()];
    let f = check_links("a.md", content, &tree, &outside);
    assert_eq!(f.len(), 1);
    assert_eq!(f[0].msg, "链接指向的文件不存在：/../book.toml");
    assert!(link_queries("rust/a.md", "[a](../rust/存在.md)\n", &tree).is_empty());
}

#[test]
fn book_link_queries_follow_the_files_in_order() {
    let mut tree = SrcTree::new();
    tree.add_file("a.md", "# A\n\n[r](../README.md)\n");
    tree.add_file("SUMMARY.md", "[s](../skip.md)\n");
    tree.add_file("b/c.md", "# C\n\n[r](../../c.toml)\n");
    let rels = vec!["a.md".to_string(), "SUMMARY.md".to_string(), "b/c.md".to_string()];
    assert!(lint_book_ready(&tree, &rels, false));
    assert_eq!(book_link_queries(&tree, &rels, false), vec!["../README.md", "../c.toml"]);
    let r = lint_book(&tree, &rels, false, &vec!["../README.md".to_string()]);
    assert_eq!(r.findings.len(), 1);
    assert_eq!(r.findings[0].rel, "b/c.md");
}

#[test]
fn ready_count_stops_at_the_first_undecodable_file_but_not_the_sidebar() {
    let mut tree = SrcTree::new();
    tree.add_file("a.md", "# A\n");
    tree.add_file("SUMMARY.md", "[x](./%中中.md)\n");
    tree.add_file("b.md", "# B\n\n[x](./%中中.md)\n");
    tree.add_file("c.md", "# C\n");
    let rels: Vec<String> = vec!["a.md".into(), "SUMMARY.md".into(), "b.md".into(), "c.md".into()];
    assert_eq!(ready_count(&tree, &rels, false), 2);
    assert!(!lint_book_ready(&tree, &rels, false));
    let first_two: Vec<String> = rels[..2].to_vec();
    assert!(lint_book_ready(&tree, &first_two, false));
}

#[test]
fn h1_findings_skip_fenced_headings_and_mark_the_extra_ones() {
    let c = "# A\n```\n# not a heading\n```\n# B\ntext\n# C\n";
    let h1: Vec<usize> = lint_file("a.md", c).iter().filter(|f| f.rule == "h1").map(|f| f.line).collect();
    assert_eq!(h1, vec![5, 7]);
    assert!(lint_file("a.md", c).iter().all(|f| f.rel == "a.md"));
    let one = "```\n# in a fence\n```\n# Only\n";
    assert!(lint_file("b.md", one).iter().all(|f| f.rule != "h1"));
}

#[test]
fn fixing_touches_only_wrong_markers_outside_fences() {
    let c = "  · a\n```\n· b\n```\n• c";
    assert_eq!(fix_content(c), Some("  - a\n```\n· b\n```\n- c".to_string()));
    let crlf = "_ x\r\ny\r\n";
    assert_eq!(fix_content(crlf), Some("- x\ny\n".to_string()));
}
