use xtask::serve::{content_type, found_head, inside_root, missing_head, percent_decode, request_path, request_rel};

#[test]
fn decodes_percent_encoding() {
    assert_eq!(
        percent_decode("/rust/%E6%89%80%E6%9C%89%E6%9D%83.html"),
        "/rust/所有权.html"
    );
    assert_eq!(percent_decode("/plain.html"), "/plain.html");
}

#[test]
fn maps_pagefind_content_types() {
    assert_eq!(content_type("a.pf_index"), "application/octet-stream");
    assert_eq!(content_type("a.html"), "text/html; charset=utf-8");
    assert_eq!(content_type("a.js"), "text/javascript; charset=utf-8");
}

#[test]
fn invalid_utf8_escapes_become_replacement_characters() {
    assert_eq!(percent_decode("/%FF.html"), "/\u{FFFD}.html");
}

#[test]
fn request_paths_default_to_index() {
    assert_eq!(request_path("GET / HTTP/1.1\r\n"), "index.html");
    assert_eq!(request_path("GET /rust/ HTTP/1.1\r\n"), "rust/index.html");
    assert_eq!(request_path("GET /a.html?x=1 HTTP/1.1"), "a.html");
    assert_eq!(request_path("GET"), "index.html");
    assert_eq!(request_path("GET /%E6%89%80.html HTTP/1.1"), "所.html");
    assert_eq!(request_rel("//x/"), "x/index.html");
}

#[test]
fn content_types_by_extension() {
    assert_eq!(content_type("/book/style.css"), "text/css; charset=utf-8");
    assert_eq!(content_type("/book/x.mjs"), "text/javascript; charset=utf-8");
    assert_eq!(content_type("/book/pic.JPG"), "application/octet-stream");
    assert_eq!(content_type("/book/pic.jpeg"), "image/jpeg");
    assert_eq!(content_type("/book/.hidden"), "application/octet-stream");
    assert_eq!(content_type("/book/pagefind.wasm"), "application/wasm");
    assert_eq!(content_type("/book.d/noext"), "application/octet-stream");
}

#[test]
fn response_heads_carry_type_and_length() {
    assert_eq!(
        found_head("text/html; charset=utf-8", 1234),
        "HTTP/1.1 200 OK\r\nContent-Type: text/html; charset=utf-8\r\nContent-Length: 1234\r\nCache-Control: no-cache\r\n\r\n"
    );
    assert_eq!(
        found_head("font/woff2", 0),
        "HTTP/1.1 200 OK\r\nContent-Type: font/woff2\r\nContent-Length: 0\r\nCache-Control: no-cache\r\n\r\n"
    );
    assert_eq!(
        missing_head(13),
        "HTTP/1.1 404 Not Found\r\nContent-Type: text/plain; charset=utf-8\r\nContent-Length: 13\r\n\r\n"
    );
}

#[test]
fn content_type_reads_the_last_named_component() {
    assert_eq!(content_type("a/b.html/"), "text/html; charset=utf-8");
    assert_eq!(content_type("a/b.css/."), "text/css; charset=utf-8");
    assert_eq!(content_type("a/b.css//./"), "text/css; charset=utf-8");
    assert_eq!(content_type("a.html/.."), "application/octet-stream");
    assert_eq!(content_type("dir/.hidden"), "application/octet-stream");
    assert_eq!(content_type("/"), "application/octet-stream");
    assert_eq!(content_type("x.tar.gz.js"), "text/javascript; charset=utf-8");
}

#[test]
fn only_paths_inside_the_root_are_served() {
    assert!(inside_root(b"/srv/book/a/b.html", b"/srv/book"));
    assert!(inside_root(b"/srv/book", b"/srv/book/"));
    assert!(inside_root(b"/srv//book/./x", b"/srv/book"));
    assert!(!inside_root(b"/srv/bookish/x", b"/srv/book"));
    assert!(!inside_root(b"/srv", b"/srv/book"));
    assert!(!inside_root(b"srv/book/x", b"/srv/book"));
    assert!(inside_root(b"./a/b", b"."));
    assert!(!inside_root(b"a/b", b"./a"));
    assert!(inside_root(b"/anything", b""));
}
