use xtask::toml_lite::parse;

#[test]
fn parses_tables_and_scalars() {
    let src = r#"
# 注释
[[section]]
dir = "english"
title = "English"

[[section]]
dir = "rust"
title = "Rust"
"#;
    let tables = parse(src).unwrap();
    assert_eq!(tables.len(), 2);
    assert_eq!(tables[0].0, "section");
    assert_eq!(tables[0].1.opt_str("dir"), Some("english"));
    assert_eq!(tables[1].1.opt_str("title"), Some("Rust"));
}

#[test]
fn parses_inline_and_multiline_arrays() {
    let src = r#"
[[topic_index]]
a = ["x", "y"]
b = [
  "第一",
  "第二",
]
"#;
    let tables = parse(src).unwrap();
    let t = &tables[0].1;
    assert_eq!(t.req_arr("a", "ctx").unwrap(), vec!["x", "y"]);
    assert_eq!(t.req_arr("b", "ctx").unwrap(), vec!["第一", "第二"]);
}

#[test]
fn handles_escapes() {
    let tables = parse("[[t]]\nintro = \"第一段\\n\\n第二段\"\n").unwrap();
    assert_eq!(tables[0].1.opt_str("intro"), Some("第一段\n\n第二段"));
}

#[test]
fn does_not_break_on_hash_or_comma_inside_string() {
    let tables = parse("[[t]]\na = \"C# 与 Rust, 以及别的\"  # 真注释\n").unwrap();
    assert_eq!(tables[0].1.opt_str("a"), Some("C# 与 Rust, 以及别的"));

    let tables = parse("[[t]]\na = [\"x, y\", \"z\"]\n").unwrap();
    assert_eq!(tables[0].1.req_arr("a", "c").unwrap(), vec!["x, y", "z"]);
}

#[test]
fn rejects_unsupported_syntax() {
    assert!(parse("[section]\na = \"b\"\n").is_err());
    assert!(parse("[[t]]\na = 1\n").is_err());
    assert!(parse("a = \"b\"\n").is_err());
    assert!(parse("[[t]\n").is_err());
    assert!(parse("[[t]]\na = [\"x\",\n").is_err());
    assert!(parse("[[t]]\na = \"\\q\"\n").is_err());
    assert!(parse("[[t]]\na = \"1\"\na = \"2\"\n").is_err());
}

#[test]
fn required_accessors_report_context() {
    let tables = parse("[[t]]\na = \"1\"\n").unwrap();
    let t = &tables[0].1;
    assert_eq!(t.req_str("a", "ctx").unwrap(), "1");
    let err = t.req_str("missing", "ctx").unwrap_err();
    assert!(err.contains("ctx") && err.contains("missing"));
    assert!(t.req_arr("a", "ctx").is_err());
}

#[test]
fn duplicate_key_error_names_the_line() {
    let err = parse("[[t]]\na = \"1\"\na = \"2\"\n").unwrap_err();
    assert_eq!(err, "第 3 行：键 `a` 重复");
}

#[test]
fn same_key_in_two_tables_is_fine() {
    let tables = parse("[[t]]\na = \"1\"\n[[t]]\na = \"2\"\n").unwrap();
    assert_eq!(tables.len(), 2);
    assert_eq!(tables[1].1.opt_str("a"), Some("2"));
}

#[test]
fn rejects_a_bare_quote_inside_a_string() {
    let e = parse("[[t]]\na = \"x\" \"y\"\n").unwrap_err();
    assert!(e.contains("第 2 行") && e.contains("未转义的双引号"));
    assert!(parse("[[t]]\na = [\"x\" \"y\"]\n").is_err());
    assert!(parse("[[t]]\na = \"say \\\"hi\\\"\"\n").is_ok());
}

#[test]
fn escaped_strings_read_back() {
    for s in ["", "plain", "a \"quoted\" # not a comment", "back\\slash", "line\nbreak\ttab", "中文，#\\\""] {
        let e = s.replace('\\', "\\\\").replace('"', "\\\"").replace('\n', "\\n").replace('\t', "\\t");
        let tables = parse(&format!("[[t]]\nk = \"{e}\"\n")).unwrap();
        assert_eq!(tables.len(), 1);
        assert_eq!(tables[0].0, "t");
        assert_eq!(tables[0].1.opt_str("k"), Some(s));
    }
}
