use xtask::meta::BookMeta;

const SAMPLE: &str = r#"
[[section]]
dir = "english"
part = "English"
title = "English"

[[section]]
dir = "rust"
part = "Rust"
title = "Rust"
intro = "学习笔记。"

[[topic_index]]
index = "english/analysis.md"
dir = "english/analysis"
title = "句子分析"
intro = "导语。"
topics = ["倒装结构", "比较结构"]
"#;

#[test]
fn parses_sample_config() {
    let meta = BookMeta::parse(SAMPLE).unwrap();
    assert_eq!(meta.sections.len(), 2);
    assert_eq!(meta.sections[0].dir, "english");
    assert_eq!(meta.sections[0].intro, "");
    assert_eq!(meta.sections[1].intro, "学习笔记。");

    let ti = meta.topic_index_for("english/analysis").unwrap();
    assert_eq!(ti.title, "句子分析");
    assert_eq!(ti.topics, vec!["倒装结构", "比较结构"]);
}

#[test]
fn rejects_index_not_matching_dir() {
    let src = SAMPLE.replace(
        r#"index = "english/analysis.md""#,
        r#"index = "english/other.md""#,
    );
    let err = BookMeta::parse(&src).unwrap_err();
    assert!(err.contains("必须与子目录同名"), "{err}");
}

#[test]
fn rejects_topic_index_in_unknown_section() {
    let src = SAMPLE.replace(r#"dir = "english/analysis""#, r#"dir = "ghost/analysis""#);
    let src = src.replace(
        r#"index = "english/analysis.md""#,
        r#"index = "ghost/analysis.md""#,
    );
    let err = BookMeta::parse(&src).unwrap_err();
    assert!(err.contains("未定义"), "{err}");
}

#[test]
fn rejects_duplicates_and_empties() {
    let dup = format!("{SAMPLE}\n[[section]]\ndir = \"rust\"\npart = \"R\"\ntitle = \"R\"\n");
    assert!(BookMeta::parse(&dup).unwrap_err().contains("重复"));

    let empty_topics = SAMPLE.replace(r#"topics = ["倒装结构", "比较结构"]"#, "topics = []");
    assert!(BookMeta::parse(&empty_topics)
        .unwrap_err()
        .contains("不能为空"));

    let dup_topic = SAMPLE.replace(
        r#"topics = ["倒装结构", "比较结构"]"#,
        r#"topics = ["倒装结构", "倒装结构"]"#,
    );
    assert!(BookMeta::parse(&dup_topic).unwrap_err().contains("重复"));
}

#[test]
fn rejects_missing_required_keys() {
    let err = BookMeta::parse("[[section]]\ndir = \"x\"\n").unwrap_err();
    assert!(err.contains("part"), "{err}");
}

#[test]
fn rejects_unknown_tables_and_empty_config() {
    assert_eq!(BookMeta::parse("[[other]]\na = \"b\"\n").unwrap_err(), "未知的表 `[[other]]`");
    assert_eq!(BookMeta::parse("").unwrap_err(), "至少需要一个 `[[section]]`");
    let nested = "[[section]]\ndir = \"a/b\"\npart = \"P\"\ntitle = \"T\"\n";
    assert_eq!(
        BookMeta::parse(nested).unwrap_err(),
        "第 1 个 [[section]]：`dir` 应是 src/ 下的一级目录名"
    );
}

#[test]
fn topic_index_lookup_is_exact() {
    let meta = BookMeta::parse(SAMPLE).unwrap();
    assert!(meta.topic_index_for("english").is_none());
    assert!(meta.topic_index_for("english/analysis/").is_none());
}

#[test]
fn accepts_exactly_the_valid_configurations() {
    let ok = "[[section]]\ndir = \"a\"\npart = \"A\"\ntitle = \"A\"\n\n[[topic_index]]\nindex = \"a/t.md\"\ndir = \"a/t\"\ntitle = \"T\"\ntopics = [\"x\", \"y\"]\n";
    let m = BookMeta::parse(ok).unwrap();
    assert_eq!(m.sections.len(), 1);
    assert_eq!(m.sections[0].intro, "");
    assert_eq!(m.topic_indexes[0].topics, vec!["x".to_string(), "y".to_string()]);
    assert!(BookMeta::parse(&ok.replace("topics = [\"x\", \"y\"]", "topics = [\"x\", \"x\"]")).is_err());
    assert!(BookMeta::parse(&ok.replace("a/t.md", "a/u.md")).is_err());
    assert!(BookMeta::parse(&ok.replace("dir = \"a/t\"", "dir = \"b/t\"").replace("a/t.md", "b/t.md")).is_err());
    assert!(BookMeta::parse(&ok.replace("dir = \"a\"", "dir = \"a/b\"")).is_err());
    assert!(BookMeta::parse(&format!("{ok}\n[[other]]\n")).is_err());
    assert!(BookMeta::parse("[[topic_index]]\nindex = \"a/t.md\"\ndir = \"a/t\"\ntitle = \"T\"\ntopics = [\"x\"]\n").is_err());
}
