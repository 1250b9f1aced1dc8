use xtask::prep::mark_ignored;

#[test]
fn marks_main_tag() {
    let html = r#"<body><main class="x">hi</main></body>"#;
    let out = mark_ignored(html).expect("应插入属性");
    assert!(out.contains(r#"<main data-pagefind-ignore="all" class="x">"#));
}

#[test]
fn mark_is_idempotent() {
    let html = r#"<main data-pagefind-ignore="all">hi</main>"#;
    assert!(mark_ignored(html).is_none());
}

#[test]
fn does_not_match_similar_tag() {
    assert!(mark_ignored("<mainframe>x</mainframe>").is_none());
}

#[test]
fn marking_twice_changes_nothing() {
    let once = mark_ignored("<main>\nhi</main>").unwrap();
    assert_eq!(once, "<main data-pagefind-ignore=\"all\">\nhi</main>");
    assert!(mark_ignored(&once).is_none());
}

#[test]
fn main_at_end_of_page_is_left_alone() {
    assert!(mark_ignored("<main").is_none());
    assert!(mark_ignored("no tag").is_none());
}

#[test]
fn marks_the_main_tag_after_a_similar_one() {
    let out = mark_ignored("<mainframe></mainframe><main>x</main>").unwrap();
    assert_eq!(out, "<mainframe></mainframe><main data-pagefind-ignore=\"all\">x</main>");
}
