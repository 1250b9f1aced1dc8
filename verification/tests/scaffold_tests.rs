use xtask::meta::BookMeta;
use xtask::scaffold::{new_number_fits, parse_args, run_new, slugify};
use xtask::tree::SrcTree;

fn meta() -> BookMeta {
    BookMeta::parse(
        r#"
[[section]]
dir = "english"
part = "English"
title = "English"

[[section]]
dir = "rust"
part = "Rust"
title = "Rust"

[[topic_index]]
index = "english/analysis.md"
dir = "english/analysis"
title = "句子分析"
topics = ["倒装结构", "比较结构"]
"#,
    )
    .unwrap()
}

fn args(list: &[&str]) -> Vec<String> {
    list.iter().map(|s| s.to_string()).collect()
}

#[test]
fn slugify_takes_english_words() {
    assert_eq!(slugify("Had one not come into existence", 5), "had-one-not-come-into");
    assert_eq!(slugify("The harm that is produced", 5), "harm-produced");
    assert_eq!(slugify("虚拟语气倒装", 5), "");
}

#[test]
fn creates_numbered_entry_in_topic_dir() {
    let mut src = SrcTree::new();
    src.add_file("english/analysis/01-a.md", "<!-- topic: 倒装结构 -->\n# A\n");
    src.add_file("english/analysis/07-b.md", "<!-- topic: 倒装结构 -->\n# B\n");

    let a = args(&[
        "english/analysis",
        "--topic",
        "倒装结构",
        "--title",
        "否定前置倒装",
        "--quote",
        "Nor is the harm produced",
    ]);
    assert!(new_number_fits(&src, &meta(), &a));
    let entry = run_new(&src, &meta(), &a).unwrap();

    assert_eq!(entry.rel, "english/analysis/08-nor-harm-produced.md");
    assert_eq!(entry.path, "english/analysis/08-nor-harm-produced.md");
    assert_eq!(
        entry.content,
        "<!-- topic: 倒装结构 -->\n# 否定前置倒装\n\n> Nor is the harm produced\n\n- \n"
    );
}

#[test]
fn creates_plain_entry_with_desc() {
    let mut src = SrcTree::new();
    src.add_dir("rust");

    let entry = run_new(
        &src,
        &meta(),
        &args(&["rust", "--title", "闭包", "--slug", "closure", "--desc", "捕获环境"]),
    )
    .unwrap();

    assert_eq!(entry.rel, "rust/closure.md");
    assert_eq!(entry.content, "<!-- desc: 捕获环境 -->\n# 闭包\n\n");
}

#[test]
fn creates_entry_with_multiple_topics() {
    let mut src = SrcTree::new();
    src.add_dir("english/analysis");

    let entry = run_new(
        &src,
        &meta(),
        &args(&[
            "english/analysis",
            "--topic",
            "倒装结构",
            "--topic",
            "比较结构",
            "--title",
            "X",
            "--slug",
            "x",
        ]),
    )
    .unwrap();
    let body = entry.content;
    assert!(body.starts_with("<!-- topic: 倒装结构, 比较结构 -->\n"), "{body}");

    let a = parse_args(&args(&["english/analysis", "--title", "X", "--topic", "倒装结构, 比较结构"]))
        .unwrap();
    assert_eq!(a.topics, vec!["倒装结构", "比较结构"]);
}

#[test]
fn rejects_undeclared_or_missing_topic() {
    let mut src = SrcTree::new();
    src.add_dir("english/analysis");

    let err = run_new(
        &src,
        &meta(),
        &args(&["english/analysis", "--title", "X", "--slug", "x", "--topic", "不存在"]),
    )
    .unwrap_err();
    assert!(err.contains("未在 book-meta.toml 中声明"), "{err}");

    let err = run_new(
        &src,
        &meta(),
        &args(&["english/analysis", "--title", "X", "--slug", "x"]),
    )
    .unwrap_err();
    assert!(err.contains("必须用 --topic") && err.contains("倒装结构"), "{err}");
}

#[test]
fn refuses_to_overwrite() {
    let mut src = SrcTree::new();
    src.add_file("rust/closure.md", "# 已存在\n");

    let err = run_new(
        &src,
        &meta(),
        &args(&["rust", "--title", "闭包", "--slug", "closure"]),
    )
    .unwrap_err();
    assert!(err.contains("已存在"), "{err}");
}

#[test]
fn requires_slug_when_title_has_no_ascii() {
    let mut src = SrcTree::new();
    src.add_dir("rust");

    let err = run_new(&src, &meta(), &args(&["rust", "--title", "所有权"])).unwrap_err();
    assert!(err.contains("--slug"), "{err}");
}

#[test]
fn parses_flag_forms_and_rejects_unknown() {
    let a = parse_args(&args(&["rust", "--title=闭包", "--slug", "closure"])).unwrap();
    assert_eq!(a.dir, "rust");
    assert_eq!(a.title, "闭包");
    assert_eq!(a.slug.as_deref(), Some("closure"));

    assert!(parse_args(&args(&["rust", "--title", "x", "--bogus", "1"])).is_err());
    assert!(parse_args(&args(&["rust"])).is_err(), "缺 --title 应报错");
    assert!(parse_args(&args(&["--title", "x"])).is_err(), "缺目录应报错");
    assert!(parse_args(&args(&["rust", "--title"])).is_err(), "flag 缺值应报错");
}

#[test]
fn parse_errors_are_exact() {
    assert_eq!(parse_args(&args(&["rust", "--title"])).unwrap_err(), "--title 缺少取值");
    assert_eq!(parse_args(&args(&["rust", "--bogus=1"])).unwrap_err(), "未知参数 --bogus");
    assert_eq!(parse_args(&args(&["a", "b"])).unwrap_err(), "多余的参数 `b`");
    assert_eq!(parse_args(&args(&["--title", "x"])).unwrap_err(), "缺少目标目录，例如: cargo xtask new english/analysis");
    assert_eq!(parse_args(&args(&["rust"])).unwrap_err(), "缺少 --title");
    let a = parse_args(&args(&["/rust/", "--title", "t", "--title", "u"])).unwrap();
    assert_eq!(a.dir, "rust");
    assert_eq!(a.title, "u");
}

#[test]
fn wrong_directory_kinds_are_refused() {
    let mut src = SrcTree::new();
    src.add_dir("rust");
    let err = run_new(&src, &meta(), &args(&["nowhere", "--title", "x", "--slug", "x"])).unwrap_err();
    assert_eq!(err, "目录不存在：src/nowhere");
    let err = run_new(&src, &meta(), &args(&["rust", "--title", "x", "--topic", "倒装结构"])).unwrap_err();
    assert_eq!(err, "src/rust 不是主题索引目录，不支持 --topic");
}

#[test]
fn numbering_widens_past_two_digits() {
    let mut src = SrcTree::new();
    src.add_file("english/analysis/099-a.md", "");
    src.add_file("english/analysis/5-b.md", "");
    let entry = run_new(
        &src,
        &meta(),
        &args(&["english/analysis", "--topic", "比较结构", "--title", "Title Words"]),
    )
    .unwrap();
    assert_eq!(entry.rel, "english/analysis/100-title-words.md");
    assert_eq!(entry.content, "<!-- topic: 比较结构 -->\n# Title Words\n\n> \n\n- \n");
}

#[test]
fn slug_respects_the_word_limit_and_lowercases() {
    assert_eq!(slugify("A B C D E F G", 3), "b-c-d");
    assert_eq!(slugify("Rust's OWNERSHIP rules", 5), "rust-s-ownership-rules");
    assert_eq!(slugify("x", 0), "");
}

#[test]
fn resolves_the_directory_as_the_file_system_does() {
    let mut src = SrcTree::new();
    src.add_file("rust/tips.md", "# Tips\n");
    let a = args(&["./rust", "--title", "Closure", "--slug", "closure"]);
    let entry = run_new(&src, &meta(), &a).unwrap();
    assert_eq!(entry.rel, "./rust/closure.md");
    assert_eq!(entry.path, "rust/closure.md");

    let a = args(&["rust/../rust", "--title", "Tips", "--slug", "tips"]);
    assert_eq!(run_new(&src, &meta(), &a).unwrap_err(), "文件已存在：src/rust/../rust/tips.md");

    let a = args(&["rust/nope/..", "--title", "X", "--slug", "x"]);
    assert_eq!(run_new(&src, &meta(), &a).unwrap_err(), "目录不存在：src/rust/nope/..");
}

#[test]
fn accepts_exactly_one_directory_known_flags_and_a_title() {
    let a = parse_args(&args(&["/english/x/", "--title", "T1", "--topic=a, b", "--title=T2", "--topic", "b，c"])).unwrap();
    assert_eq!(a.dir, "english/x");
    assert_eq!(a.title, "T2");
    assert_eq!(a.topics, vec!["a".to_string(), "b".to_string(), "c".to_string()]);
    assert!(parse_args(&args(&["d", "--title", "T", "--label"])).is_err());
    assert!(parse_args(&args(&["d", "e", "--title", "T"])).is_err());
    assert!(parse_args(&args(&["--title", "T"])).is_err());
    assert!(parse_args(&args(&["d", "--title", "T", "--title="])).is_err());
    assert!(parse_args(&args(&["d", "--title", "T", "--color", "red"])).is_err());
}
