use xtask::gen::{existing_order, merge_order, plan, scan, stale, GenError, Item, Plan};
use xtask::meta::BookMeta;
use xtask::tree::SrcTree;

fn meta() -> BookMeta {
    BookMeta::parse(
        r#"
[[section]]
dir = "english"
part = "English"
title = "English"

[[topic_index]]
index = "english/analysis.md"
dir = "english/analysis"
title = "句子分析"
intro = "导语。"
topics = ["倒装结构", "比较结构"]
"#,
    )
    .unwrap()
}

fn file<'a>(plan: &'a Plan, rel: &str) -> &'a String {
    &plan.files.iter().find(|(r, _)| r == rel).unwrap().1
}

/// Writes the stale files of a plan into the tree, as applying it does.
fn apply(tree: &mut SrcTree, plan: &Plan) -> bool {
    let stale = stale(tree, plan);
    for (rel, content) in &plan.files {
        if stale.contains(rel) {
            tree.add_file(rel, content);
        }
    }
    stale.is_empty()
}

#[test]
fn preserves_manual_order() {
    let summary = "\
# Rust

- [Rust](./rust/index.md)
  - [Tips](./rust/tips.md)
  - [所有权](./rust/所有权.md)
";
    assert_eq!(
        existing_order(summary, "rust"),
        vec!["rust/tips.md", "rust/所有权.md"]
    );
}

#[test]
fn skips_index_in_order() {
    let summary = "- [Rust](./rust/index.md)\n  - [Tips](./rust/tips.md)\n";
    assert_eq!(existing_order(summary, "rust"), vec!["rust/tips.md"]);
}

#[test]
fn scan_nests_subdir_files_under_parent() {
    let mut src = SrcTree::new();
    src.add_file("english/analysis.md", "# 句子分析\n");
    src.add_file("english/analysis/01-a.md", "# A\n");
    src.add_file("english/analysis/02-b.md", "# B\n");
    src.add_file("english/phonetics.md", "# 发音\n");

    let items = scan(&src, "english");
    assert_eq!(
        items,
        vec![
            Item { rel: "english/analysis.md".into(), depth: 0 },
            Item { rel: "english/analysis/01-a.md".into(), depth: 1 },
            Item { rel: "english/analysis/02-b.md".into(), depth: 1 },
            Item { rel: "english/phonetics.md".into(), depth: 0 },
        ]
    );
}

#[test]
fn builds_nested_summary() {
    let mut src = SrcTree::new();
    src.add_file("english/index.md", "# English\n");
    src.add_file("english/analysis.md", "# 旧标题\n");
    src.add_file("english/analysis/01-a.md", "<!-- topic: 倒装结构 -->\n# 倒装 A\n");
    src.add_file("english/analysis/02-b.md", "<!-- topic: 比较结构 -->\n# 比较 B\n");

    let plan = plan(&src, &meta(), "").unwrap();
    let summary = file(&plan, "SUMMARY.md");
    assert!(summary.contains("- [English](./english/index.md)"));
    assert!(summary.contains("  - [句子分析](./english/analysis.md)"));
    assert!(summary.contains("    - [倒装 A](./english/analysis/01-a.md)"));
    assert!(!summary.contains("旧标题"));
    assert!(plan.added.contains(&"english/analysis/01-a.md".to_string()));
}

#[test]
fn preserves_child_order_and_syncs() {
    let mut src = SrcTree::new();
    src.add_file("english/index.md", "# English\n");
    src.add_file("english/analysis.md", "# 句子分析\n");
    src.add_file("english/analysis/01-a.md", "<!-- topic: 倒装结构 -->\n# A\n");
    src.add_file("english/analysis/03-c.md", "<!-- topic: 倒装结构 -->\n# C\n");

    let current = "\
# English

- [English](./english/index.md)
  - [句子分析](./english/analysis.md)
    - [C](./english/analysis/03-c.md)
    - [B](./english/analysis/02-b.md)
    - [A](./english/analysis/01-a.md)
";
    let plan = plan(&src, &meta(), current).unwrap();
    let summary = file(&plan, "SUMMARY.md");
    let pos_c = summary.find("03-c.md").unwrap();
    let pos_a = summary.find("01-a.md").unwrap();
    assert!(pos_c < pos_a, "应保留手工顺序");
    assert!(!summary.contains("02-b.md"));
    assert!(plan.removed.contains(&"english/analysis/02-b.md".to_string()));
}

#[test]
fn topic_index_groups_in_declared_order_and_prefers_label() {
    let mut src = SrcTree::new();
    src.add_file("english/index.md", "# English\n");
    src.add_file("english/analysis.md", "# 句子分析\n");
    src.add_file("english/analysis/01-x.md", "<!-- topic: 倒装结构 -->\n# 倒装 X\n");
    src.add_file("english/analysis/02-y.md", "<!-- topic: 比较结构 -->\n# 比较 Y\n");
    src.add_file(
        "english/analysis/03-z.md",
        "<!-- topic: 倒装结构 -->\n<!-- label: 短标题 -->\n# 一个很长很长的原句作为 H1\n",
    );

    let plan = plan(&src, &meta(), "").unwrap();
    let idx = file(&plan, "english/analysis.md");

    assert!(idx.starts_with("# 句子分析\n\n导语。\n"));
    let p_inv = idx.find("## 倒装结构").unwrap();
    let p_cmp = idx.find("## 比较结构").unwrap();
    assert!(p_inv < p_cmp, "应按 topics 声明序分组");
    let p01 = idx.find("[倒装 X](./analysis/01-x.md)").unwrap();
    let p03 = idx.find("[短标题](./analysis/03-z.md)").unwrap();
    assert!(p01 < p03 && p03 < p_cmp, "组内应按文件名序");
    assert!(!idx.contains("一个很长很长的原句"));
}

#[test]
fn multi_topic_entry_appears_in_each_group() {
    let mut src = SrcTree::new();
    src.add_file("english/index.md", "# English\n");
    src.add_file("english/analysis.md", "# 句子分析\n");
    src.add_file(
        "english/analysis/01-x.md",
        "<!-- topic: 倒装结构, 比较结构 -->\n# 让步倒装\n",
    );

    let plan = plan(&src, &meta(), "").unwrap();
    let idx = file(&plan, "english/analysis.md");
    assert_eq!(
        idx.matches("[让步倒装](./analysis/01-x.md)").count(),
        2,
        "两个主题下都应出现"
    );

    let summary = file(&plan, "SUMMARY.md");
    assert_eq!(
        summary.matches("english/analysis/01-x.md").count(),
        1,
        "侧边栏不应重复"
    );
}

#[test]
fn orders_entries_numerically_past_ninety_nine() {
    let mut src = SrcTree::new();
    src.add_file("english/index.md", "# English\n");
    src.add_file("english/analysis.md", "# 句子分析\n");
    for n in ["09", "11", "100"] {
        src.add_file(
            &format!("english/analysis/{n}-x.md"),
            "<!-- topic: 倒装结构 -->\n# T\n",
        );
    }

    let plan = plan(&src, &meta(), "").unwrap();
    let summary = file(&plan, "SUMMARY.md");
    let p09 = summary.find("09-x.md").unwrap();
    let p11 = summary.find("11-x.md").unwrap();
    let p100 = summary.find("100-x.md").unwrap();
    assert!(p09 < p11 && p11 < p100, "100 应排在 11 之后");
}

#[test]
fn generates_section_index_with_desc() {
    let mut src = SrcTree::new();
    src.add_file("english/index.md", "# 过期的手写内容\n");
    src.add_file("english/analysis.md", "# 句子分析\n");
    src.add_file(
        "english/phonetics.md",
        "<!-- desc: 元音与辅音 -->\n# 英语发音规则\n",
    );

    let plan = plan(&src, &meta(), "").unwrap();
    let idx = file(&plan, "english/index.md");
    assert_eq!(
        idx,
        "# English\n\n- [句子分析](./analysis.md)\n- [英语发音规则](./phonetics.md) —— 元音与辅音\n"
    );
}

#[test]
fn section_index_renders_intro() {
    let mut src = SrcTree::new();
    src.add_file("philosophy/index.md", "");
    src.add_file("philosophy/导论.md", "# 导论\n");
    let m = BookMeta::parse(
        "[[section]]\ndir = \"philosophy\"\npart = \"Philosophy\"\ntitle = \"Philosophy\"\nintro = \"按时间线组织。\"\n",
    )
    .unwrap();

    let plan = plan(&src, &m, "").unwrap();
    let idx = file(&plan, "philosophy/index.md");
    assert_eq!(idx, "# Philosophy\n\n按时间线组织。\n\n- [导论](./导论.md)\n");
}

#[test]
fn rejects_missing_and_undeclared_topics() {
    let mut src = SrcTree::new();
    src.add_file("english/index.md", "# English\n");
    src.add_file("english/analysis.md", "# 句子分析\n");
    src.add_file("english/analysis/01-x.md", "# 没有主题\n");
    src.add_file("english/analysis/02-y.md", "<!-- topic: 未声明的主题 -->\n# Y\n");

    let err = plan(&src, &meta(), "").unwrap_err();
    let GenError::Invalid(problems) = err else {
        panic!("应为内容校验错误");
    };
    assert_eq!(problems.len(), 2);
    assert!(problems[0].contains("01-x.md") && problems[0].contains("缺少"));
    assert!(problems[1].contains("02-y.md") && problems[1].contains("未在 book-meta.toml"));
}

#[test]
fn apply_is_idempotent() {
    let mut src = SrcTree::new();
    src.add_file("english/index.md", "");
    src.add_file("english/analysis.md", "");
    src.add_file("english/analysis/01-a.md", "<!-- topic: 倒装结构 -->\n# A\n");

    let m = meta();
    let p1 = plan(&src, &m, "").unwrap();
    assert!(!apply(&mut src, &p1), "首次应有写入");

    let current = src.read("SUMMARY.md").unwrap();
    let p2 = plan(&src, &m, &current).unwrap();
    assert!(apply(&mut src, &p2), "二次应无变化");
}

#[test]
fn merge_keeps_manual_order_and_appends_new_entries() {
    let manual: Vec<String> = vec!["b".into(), "gone".into(), "a".into()];
    let disk: Vec<String> = vec!["a".into(), "b".into(), "c".into()];
    let (order, removed) = merge_order(&manual, &disk);
    assert_eq!(order, vec!["b", "a", "c"]);
    assert_eq!(removed, vec!["gone"]);
}

#[test]
fn merge_is_idempotent_on_concrete_order() {
    let manual: Vec<String> = vec!["z".into(), "x".into()];
    let disk: Vec<String> = vec!["x".into(), "y".into(), "z".into()];
    let (once, _) = merge_order(&manual, &disk);
    let (twice, removed) = merge_order(&once, &disk);
    assert_eq!(once, twice);
    assert!(removed.is_empty());
}

#[test]
fn existing_order_lists_each_entry_once() {
    let summary = "- [A](./rust/a.md)\n- [A again](./rust/a.md)\n- [Other](./go/b.md)\n";
    assert_eq!(existing_order(summary, "rust"), vec!["rust/a.md"]);
}

#[test]
fn stale_lists_only_changed_files() {
    let mut src = SrcTree::new();
    src.add_file("english/index.md", "# English\n");
    src.add_file("english/analysis.md", "# 句子分析\n");
    src.add_file("english/analysis/01-a.md", "<!-- topic: 倒装结构 -->\n# A\n");
    let p = plan(&src, &meta(), "").unwrap();
    let s = stale(&src, &p);
    assert!(s.contains(&"SUMMARY.md".to_string()));
    assert!(s.contains(&"english/analysis.md".to_string()));
}

#[test]
fn invalid_error_message_lists_each_problem() {
    let e = GenError::Invalid(vec!["a 缺少".to_string(), "b".to_string()]);
    assert_eq!(
        e.message(),
        "内容校验未通过，共 2 处：\n  × a 缺少\n  × b\n\n补齐上述元信息后重新运行；主题需与 book-meta.toml 中声明的一致。"
    );
    assert_eq!(GenError::Io("disk".to_string()).message(), "disk");
}

#[test]
fn replanning_from_written_sidebar_changes_nothing() {
    let mut src = SrcTree::new();
    src.add_file("english/index.md", "# English\n");
    src.add_file("english/analysis.md", "# 句子分析\n");
    src.add_file("english/analysis/01-a.md", "<!-- topic: 倒装结构 -->\n# A\n");
    src.add_file("english/analysis/03-c.md", "<!-- topic: 比较结构 -->\n# C\n");
    src.add_file("english/words.md", "# Words\n");

    let current = "\
- [English](./english/index.md)
  - [Words](./english/words.md)
  - [句子分析](./english/analysis.md)
    - [C](./english/analysis/03-c.md)
    - [Gone](./english/gone.md)
";
    let m = meta();
    let p1 = plan(&src, &m, current).unwrap();
    assert_eq!(p1.added, vec!["english/analysis/01-a.md"]);
    assert_eq!(p1.removed, vec!["english/gone.md"]);
    apply(&mut src, &p1);

    let written = src.read("SUMMARY.md").unwrap();
    let p2 = plan(&src, &m, &written).unwrap();
    assert_eq!(p2.files, p1.files);
    assert!(p2.added.is_empty());
    assert!(p2.removed.is_empty());
    assert!(stale(&src, &p2).is_empty());
    let words = written.find("english/words.md").unwrap();
    let analysis = written.find("english/analysis.md").unwrap();
    let c = written.find("03-c.md").unwrap();
    let a = written.find("01-a.md").unwrap();
    assert!(words < analysis && c < a);
}

#[test]
fn sidebar_lists_each_entry_on_disk_once() {
    let mut src = SrcTree::new();
    src.add_file("english/index.md", "# English\n");
    src.add_file("english/analysis.md", "# 句子分析\n");
    src.add_file("english/analysis/01-a.md", "<!-- topic: 倒装结构 -->\n# A\n");
    src.add_file("english/words.md", "# Words\n");
    let current = "\
- [Words](./english/words.md)
- [Words again](./english/words.md)
- [Old](./english/old.md)
";
    let p = plan(&src, &meta(), current).unwrap();
    let summary = file(&p, "SUMMARY.md");
    let order = existing_order(summary, "english");
    assert_eq!(
        order,
        vec!["english/words.md", "english/analysis.md", "english/analysis/01-a.md"]
    );
    assert_eq!(p.added, vec!["english/analysis.md", "english/analysis/01-a.md"]);
    assert_eq!(p.removed, vec!["english/old.md"]);
}

#[test]
fn section_page_lists_entries_in_sidebar_order() {
    let mut src = SrcTree::new();
    src.add_file("english/index.md", "# English\n");
    src.add_file("english/analysis.md", "# 句子分析\n");
    src.add_file("english/analysis/01-a.md", "<!-- topic: 倒装结构 -->\n# A\n");
    src.add_file("english/words.md", "# Words\n");
    let current = "- [Words](./english/words.md)\n- [句子分析](./english/analysis.md)\n";
    let p = plan(&src, &meta(), current).unwrap();
    let page = file(&p, "english/index.md");
    assert_eq!(
        page,
        "# English\n\n- [Words](./words.md)\n- [句子分析](./analysis.md)\n"
    );
    let order = existing_order(file(&p, "SUMMARY.md"), "english");
    assert_eq!(order[0], "english/words.md");
    assert_eq!(order[1], "english/analysis.md");
}

#[test]
fn replanning_keeps_entries_with_parentheses() {
    let mut src = SrcTree::new();
    src.add_file("english/index.md", "# English\n");
    src.add_file("english/a(1).md", "# A1\n");
    src.add_file("english/b.md", "# B\n");
    let current = "- [B](./english/b.md)\n- [A1](./english/a(1).md)\n";
    let m = meta();
    let p1 = plan(&src, &m, current).unwrap();
    assert_eq!(p1.added, vec!["english/analysis.md".to_string()]);
    assert!(p1.removed.is_empty());
    apply(&mut src, &p1);
    let written = src.read("SUMMARY.md").unwrap();
    assert_eq!(
        existing_order(&written, "english"),
        vec!["english/b.md", "english/a(1).md", "english/analysis.md"]
    );
    let p2 = plan(&src, &m, &written).unwrap();
    assert_eq!(p2.files, p1.files);
    assert!(p2.added.is_empty() && p2.removed.is_empty());
}

#[test]
fn first_run_lists_a_topic_index_page_it_creates() {
    let mut src = SrcTree::new();
    src.add_file("english/index.md", "# English\n");
    src.add_file("english/analysis/01-a.md", "<!-- topic: 倒装结构 -->\n# A\n");
    let m = meta();
    let p1 = plan(&src, &m, "").unwrap();
    assert!(file(&p1, "SUMMARY.md").contains("  - [句子分析](./english/analysis.md)\n"));
    assert!(file(&p1, "SUMMARY.md").contains("    - [A](./english/analysis/01-a.md)\n"));
    assert!(!apply(&mut src, &p1));
    let written = src.read("SUMMARY.md").unwrap();
    let p2 = plan(&src, &m, &written).unwrap();
    assert_eq!(p2.files, p1.files);
    assert!(p2.added.is_empty() && p2.removed.is_empty());
    assert!(apply(&mut src, &p2));
}

#[test]
fn merge_order_keeps_manual_then_adds_new_in_disk_order() {
    let s = |v: &[&str]| v.iter().map(|x| x.to_string()).collect::<Vec<String>>();
    let manual = s(&["c", "gone", "a"]);
    let disk = s(&["a", "b", "c", "d"]);
    let (order, removed) = merge_order(&manual, &disk);
    assert_eq!(order, s(&["c", "a", "b", "d"]));
    assert_eq!(removed, s(&["gone"]));
}

#[test]
fn plan_fails_only_for_topic_trouble() {
    let mut src = SrcTree::new();
    src.add_file("english/index.md", "# English\n");
    src.add_file("english/analysis/01-a.md", "<!-- topic: 倒装结构，比较结构 -->\n# A\n");
    src.add_file("english/analysis/notes.txt", "");
    assert!(plan(&src, &meta(), "").is_ok());
    src.add_file("english/analysis/02-b.md", "<!-- topic: 倒装结构, 别的 -->\n# B\n");
    let GenError::Invalid(problems) = plan(&src, &meta(), "").unwrap_err() else {
        panic!("应为内容校验错误");
    };
    assert_eq!(problems.len(), 1);
    assert!(problems[0].contains("02-b.md") && problems[0].contains("别的"));
}

#[test]
fn stale_lists_files_whose_text_differs() {
    let mut src = SrcTree::new();
    src.add_file("a.md", "x");
    let files = |a: &str| vec![("a.md".to_string(), a.to_string()), ("new.md".to_string(), String::new())];
    let same = Plan { files: files("x"), added: vec![], removed: vec![] };
    assert!(stale(&src, &same).is_empty());
    let changed = Plan { files: files("y"), added: vec![], removed: vec![] };
    assert_eq!(stale(&src, &changed), vec!["a.md".to_string()]);
    apply(&mut src, &changed);
    assert!(stale(&src, &changed).is_empty());
}

#[test]
fn replanning_is_stable_when_a_topic_index_page_had_a_desc() {
    let mut src = SrcTree::new();
    src.add_file("english/index.md", "# English\n");
    src.add_file("english/analysis.md", "<!-- desc: 旧的说明 -->\n# 句子分析\n");
    src.add_file("english/analysis/01-a.md", "<!-- topic: 比较结构 -->\n# A\n");
    let m = meta();
    let p1 = plan(&src, &m, "").unwrap();
    assert!(!file(&p1, "english/index.md").contains("旧的说明"));
    assert!(!apply(&mut src, &p1));
    let written = src.read("SUMMARY.md").unwrap();
    let p2 = plan(&src, &m, &written).unwrap();
    assert_eq!(p2.files, p1.files);
    assert!(p2.added.is_empty() && p2.removed.is_empty());
}

#[test]
fn planning_again_on_an_unchanged_tree_is_stable() {
    let mut src = SrcTree::new();
    src.add_file("english/index.md", "# English\n");
    src.add_file("english/analysis.md", "# 句子分析\n");
    src.add_file("english/analysis/01-a.md", "<!-- topic: 比较结构 -->\n# A\n");
    src.add_file("english/words.md", "# Words\n");
    let m = meta();
    let p1 = plan(&src, &m, "- [Words](./english/words.md)\n").unwrap();
    let p2 = plan(&src, &m, file(&p1, "SUMMARY.md")).unwrap();
    assert_eq!(p2.files, p1.files);
    assert!(p2.added.is_empty() && p2.removed.is_empty());
}

#[test]
fn titles_and_parts_with_line_breaks_regenerate_the_same() {
    let m = BookMeta::parse(
        "[[section]]\ndir = \"english\"\npart = \"English\\n见 ](./ 第二行\"\ntitle = \"English\\nGuide\"\n\n[[topic_index]]\nindex = \"english/analysis.md\"\ndir = \"english/analysis\"\ntitle = \"句子\\n分析\"\ntopics = [\"倒装结构\"]\n",
    )
    .unwrap();
    let mut src = SrcTree::new();
    src.add_file("english/index.md", "# English\n");
    src.add_file("english/words.md", "# Words\n");
    src.add_file("english/analysis/01-a.md", "<!-- topic: 倒装结构 -->\n# A\n");
    let p1 = plan(&src, &m, "").unwrap();
    apply(&mut src, &p1);
    let written = src.read("SUMMARY.md").unwrap();
    assert_eq!(
        existing_order(&written, "english"),
        vec!["english/analysis.md", "english/analysis/01-a.md", "english/words.md"]
    );
    let p2 = plan(&src, &m, &written).unwrap();
    assert_eq!(p2.files, p1.files);
    assert!(p2.added.is_empty() && p2.removed.is_empty());
    let p3 = plan(&src, &m, file(&p1, "SUMMARY.md")).unwrap();
    assert_eq!(p3.files, p1.files);
}
