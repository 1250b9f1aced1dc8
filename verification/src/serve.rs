//! The request handling of the local preview server: which file a request
//! asks for, the content type it is served with, and the head of the
//! response.
use vstd::prelude::*;

use crate::text::{
    chars_of, decimal, eq_str, ends_with_str, is_ws, push_decimal, push_str, rfind, rfind_str, skip, slice_of, string_of,
};

verus! {

/// What `String::from_utf8_lossy` makes of `bytes`: their text, with each
/// invalid sequence replaced by U+FFFD.
pub uninterp spec fn utf8_lossy(bytes: Seq<u8>) -> Seq<char>;

/// `String::from_utf8_lossy(bytes).into_owned()`. Its result is named
/// `utf8_lossy`; for valid UTF-8 the documentation promises the text itself.
#[verifier::external_body]
fn lossy_string(bytes: &[u8]) -> (r: String)
    ensures
        r@ == utf8_lossy(bytes@),
        vstd::utf8::valid_utf8(bytes@) ==> r@ == vstd::utf8::decode_utf8(bytes@),
{
    String::from_utf8_lossy(bytes).into_owned()
}

/// Decodes the `%XX` escapes of a URL path (needed for Chinese file
/// names); bytes that are no valid UTF-8 become U+FFFD.
///
/// An escape is read as two hexadecimal digits, or a `+` and one digit,
/// as `u8::from_str_radix` reads them; such a pair is ASCII and so always
/// valid UTF-8 on its own.
pub fn percent_decode(s: &str) -> (r: String)
    ensures
        r@ == utf8_lossy(crate::lint::pct_bytes(vstd::utf8::encode_utf8(s@), 0)),
        vstd::utf8::valid_utf8(crate::lint::pct_bytes(vstd::utf8::encode_utf8(s@), 0)) ==> r@
            == vstd::utf8::decode_utf8(crate::lint::pct_bytes(vstd::utf8::encode_utf8(s@), 0)),
{
    let out = crate::lint::pct_decode_bytes(s);
    lossy_string(out.as_slice())
}

/// `s` without its leading `/`s.
pub open spec fn strip_slashes(s: Seq<char>) -> Seq<char>
    decreases s.len(),
{
    if s.len() > 0 && s[0] == '/' {
        strip_slashes(s.drop_first())
    } else {
        s
    }
}

/// The file asked for by a decoded request path, relative to the book's
/// root: leading `/`s dropped, and `index.html` for a directory.
pub open spec fn request_rel_model(decoded: Seq<char>) -> Seq<char> {
    let rel = strip_slashes(decoded);
    if rel.len() == 0 || rel.last() == '/' {
        rel + "index.html"@
    } else {
        rel
    }
}

/// The file asked for by a decoded request path.
pub fn request_rel(decoded: &str) -> (r: String)
    ensures
        r@ == request_rel_model(decoded@),
{
    let v = chars_of(decoded);
    let mut a: usize = 0;
    assert(v@.skip(0) =~= v@);
    while a < v.len() && v[a] == '/'
        invariant
            a <= v.len(),
            v@ == decoded@,
            strip_slashes(decoded@) == strip_slashes(v@.skip(a as int)),
        decreases v.len() - a,
    {
        assert(v@.skip(a as int).drop_first() =~= v@.skip(a + 1));
        a = a + 1;
    }
    let mut rel = skip(&v, a);
    if rel.len() == 0 || rel[rel.len() - 1] == '/' {
        push_str(&mut rel, "index.html");
    }
    string_of(&rel)
}

/// The whitespace-separated words of `s`, after a partial word `cur`
/// (`str::split_whitespace`).
pub open spec fn words_from(s: Seq<char>, cur: Seq<char>) -> Seq<Seq<char>>
    decreases s.len(),
{
    if s.len() == 0 {
        if cur.len() > 0 {
            seq![cur]
        } else {
            Seq::empty()
        }
    } else if is_ws(s[0]) {
        (if cur.len() > 0 {
            seq![cur]
        } else {
            Seq::empty()
        }) + words_from(s.drop_first(), Seq::empty())
    } else {
        words_from(s.drop_first(), cur.push(s[0]))
    }
}

/// The part of `s` before its first `?`.
pub open spec fn before_query(s: Seq<char>) -> Seq<char> {
    match crate::text::find(s, "?"@) {
        Some(i) => s.take(i),
        None => s,
    }
}

/// The path of a request line (its second word, `/` when there is none),
/// without its query, before decoding.
pub open spec fn request_target(line: Seq<char>) -> Seq<char> {
    let ws = words_from(line, Seq::empty());
    before_query(
        if ws.len() >= 2 {
            ws[1]
        } else {
            "/"@
        },
    )
}

fn words_exec(s: &Vec<char>) -> (r: Vec<Vec<char>>)
    ensures
        crate::text::views(r@) == words_from(s@, Seq::empty()),
{
    let mut out: Vec<Vec<char>> = Vec::new();
    let mut cur: Vec<char> = Vec::new();
    let mut i: usize = 0;
    assert(s@.skip(0) =~= s@);
    assert(crate::text::views(out@) + words_from(s@, cur@) =~= words_from(s@, cur@));
    while i < s.len()
        invariant
            i <= s.len(),
            words_from(s@, Seq::empty()) == crate::text::views(out@) + words_from(s@.skip(i as int), cur@),
        decreases s.len() - i,
    {
        let ghost rest = s@.skip(i as int);
        assert(rest.drop_first() == s@.skip(i + 1));
        if crate::text::is_whitespace(s[i]) {
            let ghost before = crate::text::views(out@);
            let ghost cv = cur@;
            if cur.len() > 0 {
                out.push(cur);
                assert(crate::text::views(out@) =~= before + seq![cv]);
            } else {
                assert(crate::text::views(out@) =~= before + Seq::<Seq<char>>::empty());
            }
            cur = Vec::new();
            assert(cur@ =~= Seq::<char>::empty());
            assert(words_from(s@, Seq::empty()) =~= crate::text::views(out@) + words_from(s@.skip(i + 1), cur@));
        } else {
            cur.push(s[i]);
        }
        i = i + 1;
    }
    assert(s@.skip(s.len() as int) =~= Seq::<char>::empty());
    let ghost before = crate::text::views(out@);
    let ghost cv = cur@;
    if cur.len() > 0 {
        out.push(cur);
        assert(crate::text::views(out@) =~= before + seq![cv]);
    } else {
        assert(crate::text::views(out@) =~= before + words_from(Seq::empty(), cv));
    }
    out
}

/// The file a request line asks for, relative to the book's root.
pub fn request_path(line: &str) -> (r: String)
    ensures
        r@ == request_rel_model(
            utf8_lossy(crate::lint::pct_bytes(vstd::utf8::encode_utf8(request_target(line@)), 0)),
        ),
{
    let lv = chars_of(line);
    let ws = words_exec(&lv);
    let target: Vec<char> = if ws.len() >= 2 {
        let t = slice_of(&ws[1], 0, ws[1].len());
        assert(t@ =~= ws@[1]@);
        t
    } else {
        chars_of("/")
    };
    assert(before_query(target@) == request_target(line@));
    let cut = match crate::text::find_str(&target, "?") {
        Some(i) => {
            proof {
                reveal_strlit("?");
                crate::text::lemma_find_from_bounds(target@, "?"@, 0);
            }
            slice_of(&target, 0, i)
        },
        None => target,
    };
    assert(cut@ == request_target(line@));
    let ts = string_of(&cut);
    let decoded = percent_decode(ts.as_str());
    request_rel(decoded.as_str())
}

/// The name of the last component of `path.take(end)`, as
/// `Path::file_name` gives it: the last piece between `/`s that is neither
/// empty nor `.`; none when that piece is `..` or there is no piece.
pub open spec fn name_before(path: Seq<char>, end: int) -> Option<Seq<char>>
    decreases end,
{
    if end < 0 || end > path.len() {
        None
    } else {
        let p = path.take(end);
        match rfind(p, "/"@) {
            Some(i) => {
                let name = p.skip(i + 1);
                if name.len() == 0 || name == "."@ {
                    if 0 <= i < end {
                        name_before(path, i)
                    } else {
                        None
                    }
                } else if name == ".."@ {
                    None
                } else {
                    Some(name)
                }
            },
            None => if p.len() == 0 || p == "."@ || p == ".."@ {
                None
            } else {
                Some(p)
            },
        }
    }
}

/// The extension of `path`, as `Path::extension` gives it: what follows the
/// last `.` of its file name, unless that `.` starts the name.
pub open spec fn extension(path: Seq<char>) -> Option<Seq<char>> {
    match name_before(path, path.len() as int) {
        Some(name) => match rfind(name, "."@) {
            Some(j) => if j > 0 {
                Some(name.skip(j + 1))
            } else {
                None
            },
            None => None,
        },
        None => None,
    }
}

/// The content type a file is served with, by its extension; the search
/// index fragments and anything unknown are binary.
pub open spec fn content_type_model(path: Seq<char>) -> Seq<char> {
    match extension(path) {
        Some(e) => if e == "html"@ {
            "text/html; charset=utf-8"@
        } else if e == "css"@ {
            "text/css; charset=utf-8"@
        } else if e == "js"@ || e == "mjs"@ {
            "text/javascript; charset=utf-8"@
        } else if e == "json"@ {
            "application/json; charset=utf-8"@
        } else if e == "svg"@ {
            "image/svg+xml"@
        } else if e == "png"@ {
            "image/png"@
        } else if e == "jpg"@ || e == "jpeg"@ {
            "image/jpeg"@
        } else if e == "woff2"@ {
            "font/woff2"@
        } else if e == "woff"@ {
            "font/woff"@
        } else if e == "ttf"@ {
            "font/ttf"@
        } else if e == "wasm"@ {
            "application/wasm"@
        } else {
            "application/octet-stream"@
        },
        None => "application/octet-stream"@,
    }
}

fn file_name_exec(path: &Vec<char>) -> (r: Option<Vec<char>>)
    ensures
        crate::md::opt_view(r) == name_before(path@, path@.len() as int),
{
    let mut end = path.len();
    loop
        invariant
            end <= path.len(),
            name_before(path@, end as int) == name_before(path@, path@.len() as int),
        decreases end,
    {
        let p = slice_of(path, 0, end);
        assert(p@ =~= path@.take(end as int));
        match rfind_str(&p, "/") {
            Some(i) => {
                proof {
                    reveal_strlit("/");
                    crate::text::lemma_rfind_upto_bounds(p@, "/"@, p@.len() - 1);
                }
                let name = skip(&p, i + 1);
                if name.len() == 0 || eq_str(&name, ".") {
                    end = i;
                } else if eq_str(&name, "..") {
                    return None;
                } else {
                    return Some(name);
                }
            },
            None => {
                if p.len() == 0 || eq_str(&p, ".") || eq_str(&p, "..") {
                    return None;
                } else {
                    return Some(p);
                }
            },
        }
    }
}

fn extension_exec(path: &Vec<char>) -> (r: Option<Vec<char>>)
    ensures
        crate::md::opt_view(r) == extension(path@),
{
    match file_name_exec(path) {
        Some(name) => match rfind_str(&name, ".") {
            Some(j) => {
                proof {
                    reveal_strlit(".");
                    crate::text::lemma_rfind_upto_bounds(name@, "."@, name@.len() - 1);
                }
                let nl = name.len();
                assert(j + 1 <= nl);
                if j > 0 {
                    Some(skip(&name, j + 1))
                } else {
                    None
                }
            },
            None => None,
        },
        None => None,
    }
}

/// The content type to serve the file at `path` with.
pub fn content_type(path: &str) -> (r: &'static str)
    ensures
        r@ == content_type_model(path@),
{
    let pv = chars_of(path);
    match extension_exec(&pv) {
        Some(e) => {
            if eq_str(&e, "html") {
                "text/html; charset=utf-8"
            } else if eq_str(&e, "css") {
                "text/css; charset=utf-8"
            } else if eq_str(&e, "js") || eq_str(&e, "mjs") {
                "text/javascript; charset=utf-8"
            } else if eq_str(&e, "json") {
                "application/json; charset=utf-8"
            } else if eq_str(&e, "svg") {
                "image/svg+xml"
            } else if eq_str(&e, "png") {
                "image/png"
            } else if eq_str(&e, "jpg") || eq_str(&e, "jpeg") {
                "image/jpeg"
            } else if eq_str(&e, "woff2") {
                "font/woff2"
            } else if eq_str(&e, "woff") {
                "font/woff"
            } else if eq_str(&e, "ttf") {
                "font/ttf"
            } else if eq_str(&e, "wasm") {
                "application/wasm"
            } else {
                "application/octet-stream"
            }
        },
        None => "application/octet-stream",
    }
}

/// The head of the response that serves a file of `len` bytes with the
/// content type `ctype`.
pub open spec fn found_head_model(ctype: Seq<char>, len: nat) -> Seq<char> {
    "HTTP/1.1 200 OK\r\nContent-Type: "@ + ctype + "\r\nContent-Length: "@ + decimal(len)
        + "\r\nCache-Control: no-cache\r\n\r\n"@
}

/// The head of the response that serves a file of `len` bytes with the
/// content type `ctype`.
pub fn found_head(ctype: &str, len: usize) -> (r: String)
    ensures
        r@ == found_head_model(ctype@, len as nat),
{
    let mut v: Vec<char> = Vec::new();
    push_str(&mut v, "HTTP/1.1 200 OK\r\nContent-Type: ");
    push_str(&mut v, ctype);
    push_str(&mut v, "\r\nContent-Length: ");
    push_decimal(&mut v, len);
    push_str(&mut v, "\r\nCache-Control: no-cache\r\n\r\n");
    string_of(&v)
}

/// The head of the response that answers a request for no file of the book
/// with a plain text body of `len` bytes.
pub open spec fn missing_head_model(len: nat) -> Seq<char> {
    "HTTP/1.1 404 Not Found\r\nContent-Type: text/plain; charset=utf-8\r\nContent-Length: "@ + decimal(len)
        + "\r\n\r\n"@
}

/// The head of the response that answers a request for no file of the book
/// with a plain text body of `len` bytes.
pub fn missing_head(len: usize) -> (r: String)
    ensures
        r@ == missing_head_model(len as nat),
{
    let mut v: Vec<char> = Vec::new();
    push_str(&mut v, "HTTP/1.1 404 Not Found\r\nContent-Type: text/plain; charset=utf-8\r\nContent-Length: ");
    push_decimal(&mut v, len);
    push_str(&mut v, "\r\n\r\n");
    string_of(&v)
}

proof fn lemma_no_later(s: Seq<char>, c: char, from: int)
    requires
        0 <= from,
        forall|q: int| from <= q < s.len() ==> s[q] != c,
    ensures
        forall|q: int| from <= q <= s.len() - 1 ==> !#[trigger] crate::text::occurs_at(s, seq![c], q),
{
    assert forall|q: int| from <= q <= s.len() - 1 implies !#[trigger] crate::text::occurs_at(s, seq![c], q) by {
        if crate::text::occurs_at(s, seq![c], q) {
            assert(s.subrange(q, q + 1)[0] == s[q]);
        }
    }
}

/// The last component of a name, alone or after a directory, is the name.
proof fn lemma_name_of(d: Seq<char>, name: Seq<char>)
    requires
        name.len() > 0,
        !crate::text::has_char(name, '/'),
        name != "."@,
        name != ".."@,
    ensures
        name_before(name, name.len() as int) == Some(name),
        name_before(d + "/"@ + name, (d + "/"@ + name).len() as int) == Some(name),
{
    reveal_strlit("/");
    // a name alone
    lemma_no_later(name, '/', 0);
    assert("/"@ =~= seq!['/']);
    crate::text::lemma_rfind_upto_bounds(name, "/"@, name.len() - 1);
    assert(name.take(name.len() as int) =~= name);
    assert(name_before(name, name.len() as int) == Some(name));
    // after a directory
    let path = d + "/"@ + name;
    assert(path.subrange(d.len() as int, d.len() + 1 as int) =~= seq!['/']);
    assert forall|q: int| d.len() + 1 <= q < path.len() implies path[q] != '/' by {
        assert(path[q] == name[q - d.len() - 1]);
    }
    lemma_no_later(path, '/', d.len() + 1 as int);
    crate::regen::lemma_rfind_at(path, "/"@, path.len() - 1, d.len() as int);
    assert(path.take(path.len() as int) =~= path);
    assert(path.skip(d.len() + 1 as int) =~= name);
}

/// The name `s.e` of a file has the extension `e`, after a directory or not.
proof fn lemma_extension_of(d: Seq<char>, s: Seq<char>, e: Seq<char>)
    requires
        s.len() > 0,
        !crate::text::has_char(s, '/'),
        e.len() > 0,
        !crate::text::has_char(e, '/'),
        !crate::text::has_char(e, '.'),
    ensures
        extension(d + "/"@ + s + "."@ + e) == Some(e),
        extension(s + "."@ + e) == Some(e),
{
    reveal_strlit("/");
    reveal_strlit(".");
    reveal_strlit("..");
    let name = s + "."@ + e;
    // the extension of the name
    assert(name.subrange(s.len() as int, s.len() + 1 as int) =~= seq!['.']);
    assert forall|q: int| s.len() + 1 <= q < name.len() implies name[q] != '.' by {
        assert(name[q] == e[q - s.len() - 1]);
    }
    lemma_no_later(name, '.', s.len() + 1 as int);
    assert("."@ =~= seq!['.']);
    crate::regen::lemma_rfind_at(name, "."@, name.len() - 1, s.len() as int);
    assert(name.skip(s.len() + 1 as int) =~= e);
    assert(name != "."@ && name != ".."@) by {
        assert(name.len() >= 3);
    }
    assert(!crate::text::has_char(name, '/')) by {
        if crate::text::has_char(name, '/') {
            let i = choose|i: int| 0 <= i < name.len() && name[i] == '/';
            if i < s.len() {
                assert(s[i] == '/');
            } else if i > s.len() {
                assert(e[i - s.len() - 1] == '/');
            }
        }
    }
    lemma_name_of(d, name);
    assert(d + "/"@ + s + "."@ + e =~= d + "/"@ + name);
}

/// A file is served with the type that its extension names: for a file
/// `name.ext` (a name of at least one character), alone or in any
/// directory, each known extension gives its own type and any other
/// extension gives `application/octet-stream`.
pub proof fn content_type_by_extension(d: Seq<char>, s: Seq<char>, e: Seq<char>)
    requires
        s.len() > 0,
        !crate::text::has_char(s, '/'),
        e.len() > 0,
        !crate::text::has_char(e, '/'),
        !crate::text::has_char(e, '.'),
    ensures
        ({
            let a = content_type_model(d + "/"@ + s + "."@ + e);
            let b = content_type_model(s + "."@ + e);
            &&& a == b
            &&& e == "html"@ ==> a == "text/html; charset=utf-8"@
            &&& e == "css"@ ==> a == "text/css; charset=utf-8"@
            &&& e == "js"@ || e == "mjs"@ ==> a == "text/javascript; charset=utf-8"@
            &&& e == "json"@ ==> a == "application/json; charset=utf-8"@
            &&& e == "svg"@ ==> a == "image/svg+xml"@
            &&& e == "png"@ ==> a == "image/png"@
            &&& e == "jpg"@ || e == "jpeg"@ ==> a == "image/jpeg"@
            &&& e == "woff2"@ ==> a == "font/woff2"@
            &&& e == "woff"@ ==> a == "font/woff"@
            &&& e == "ttf"@ ==> a == "font/ttf"@
            &&& e == "wasm"@ ==> a == "application/wasm"@
            &&& e == "pf_index"@ || e == "pf_fragment"@ || e == "pf_meta"@ ==> a == "application/octet-stream"@
            &&& e != "html"@ && e != "css"@ && e != "js"@ && e != "mjs"@ && e != "json"@ && e != "svg"@ && e
                != "png"@ && e != "jpg"@ && e != "jpeg"@ && e != "woff2"@ && e != "woff"@ && e != "ttf"@ && e
                != "wasm"@ ==> a == "application/octet-stream"@
        }),
{
    lemma_extension_of(d, s, e);
    reveal_strlit("html");
    reveal_strlit("css");
    reveal_strlit("js");
    reveal_strlit("mjs");
    reveal_strlit("json");
    reveal_strlit("svg");
    reveal_strlit("png");
    reveal_strlit("jpg");
    reveal_strlit("jpeg");
    reveal_strlit("woff2");
    reveal_strlit("woff");
    reveal_strlit("ttf");
    reveal_strlit("wasm");
    reveal_strlit("pf_index");
    reveal_strlit("pf_fragment");
    reveal_strlit("pf_meta");
    // the known extensions are pairwise different
    let known: Seq<Seq<char>> = seq!["html"@, "css"@, "js"@, "mjs"@, "json"@, "svg"@, "png"@, "jpg"@, "jpeg"@, "woff2"@, "woff"@, "ttf"@, "wasm"@, "pf_index"@, "pf_fragment"@, "pf_meta"@];
    assert forall|i: int, j: int| 0 <= i < j < known.len() implies known[i] != known[j] by {
        if known[i] == known[j] {
            assert(known[i].len() == known[j].len());
            assert(known[i][0] == known[j][0]);
            assert(known[i][1] == known[j][1]);
        }
    }
    assert(known[0] == "html"@);
    assert(known[1] == "css"@);
    assert(known[2] == "js"@);
    assert(known[3] == "mjs"@);
    assert(known[4] == "json"@);
    assert(known[5] == "svg"@);
    assert(known[6] == "png"@);
    assert(known[7] == "jpg"@);
    assert(known[8] == "jpeg"@);
    assert(known[9] == "woff2"@);
    assert(known[10] == "woff"@);
    assert(known[11] == "ttf"@);
    assert(known[12] == "wasm"@);
    assert(known[13] == "pf_index"@);
    assert(known[14] == "pf_fragment"@);
    assert(known[15] == "pf_meta"@);
}

/// A file whose name has no extension (no `.` but, it may be, the first
/// character) is served as `application/octet-stream`, alone or in any
/// directory.
pub proof fn content_type_without_extension(d: Seq<char>, s: Seq<char>)
    requires
        s.len() > 0,
        !crate::text::has_char(s, '/'),
        s != "."@,
        s != ".."@,
        forall|q: int| 0 < q < s.len() ==> s[q] != '.',
    ensures
        content_type_model(d + "/"@ + s) == "application/octet-stream"@,
        content_type_model(s) == "application/octet-stream"@,
{
    reveal_strlit(".");
    lemma_name_of(d, s);
    assert("."@ =~= seq!['.']);
    lemma_no_later(s, '.', 1);
    crate::text::lemma_rfind_upto_bounds(s, "."@, s.len() - 1);
}

/// A piece between `/`s that names a component: neither empty nor `.`.
pub open spec fn keep_piece(c: Seq<u8>) -> Seq<Seq<u8>> {
    if c.len() == 0 || c == seq![46u8] {
        Seq::empty()
    } else {
        seq![c]
    }
}

/// The named components of `p`, after the partial piece `cur`: the pieces
/// between `/`s, without empty and `.` pieces.
pub open spec fn pieces_from(p: Seq<u8>, cur: Seq<u8>) -> Seq<Seq<u8>>
    decreases p.len(),
{
    if p.len() == 0 {
        keep_piece(cur)
    } else if p[0] == 47u8 {
        keep_piece(cur) + pieces_from(p.drop_first(), Seq::empty())
    } else {
        pieces_from(p.drop_first(), cur.push(p[0]))
    }
}

/// The components of the Unix path `p`, as `Path::components` reads them:
/// the root (written `/`) or a leading `.` (written `.`) first, then the
/// named pieces; repeated `/`s, inner `.`s and a final `/` are no
/// components.
pub open spec fn path_components(p: Seq<u8>) -> Seq<Seq<u8>> {
    if p.len() > 0 && p[0] == 47u8 {
        seq![seq![47u8]] + pieces_from(p, Seq::empty())
    } else if (p.len() == 1 && p[0] == 46u8) || (p.len() >= 2 && p[0] == 46u8 && p[1] == 47u8) {
        seq![seq![46u8]] + pieces_from(p, Seq::empty())
    } else {
        pieces_from(p, Seq::empty())
    }
}

/// `target` lies in `root`, as `Path::starts_with` decides it: the
/// components of `root` begin the components of `target`.
pub open spec fn inside_model(target: Seq<u8>, root: Seq<u8>) -> bool {
    let a = path_components(target);
    let b = path_components(root);
    b.len() <= a.len() && a.take(b.len() as int) == b
}

/// The views of a list of byte strings.
pub open spec fn byte_views(v: Seq<Vec<u8>>) -> Seq<Seq<u8>> {
    Seq::new(v.len(), |k: int| v[k]@)
}

fn keep_piece_exec(out: &mut Vec<Vec<u8>>, cur: Vec<u8>)
    ensures
        byte_views(final(out)@) == byte_views(old(out)@) + keep_piece(cur@),
{
    let dot = cur.len() == 1 && cur[0] == 46u8;
    if cur.len() == 0 || dot {
        assert(dot ==> cur@ =~= seq![46u8]);
        assert(byte_views(out@) =~= byte_views(out@) + keep_piece(cur@));
    } else {
        assert(cur@ != seq![46u8]) by {
            if cur@ == seq![46u8] {
                assert(cur@.len() == 1 && cur@[0] == 46u8);
            }
        }
        let ghost before = byte_views(out@);
        out.push(cur);
        assert(byte_views(out@) =~= before + keep_piece(cur@));
    }
}

fn components_exec(p: &[u8]) -> (r: Vec<Vec<u8>>)
    ensures
        byte_views(r@) == path_components(p@),
{
    let mut out: Vec<Vec<u8>> = Vec::new();
    let n = p.len();
    if n > 0 && p[0] == 47u8 {
        let mut v: Vec<u8> = Vec::new();
        v.push(47u8);
        assert(v@ =~= seq![47u8]);
        out.push(v);
    } else if (n == 1 && p[0] == 46u8) || (n >= 2 && p[0] == 46u8 && p[1] == 47u8) {
        let mut v: Vec<u8> = Vec::new();
        v.push(46u8);
        assert(v@ =~= seq![46u8]);
        out.push(v);
    }
    let ghost lead = byte_views(out@);
    assert(lead + pieces_from(p@, Seq::empty()) == path_components(p@)) by {
        if n > 0 && p[0] == 47u8 {
            assert(lead =~= seq![seq![47u8]]);
        } else if (n == 1 && p[0] == 46u8) || (n >= 2 && p[0] == 46u8 && p[1] == 47u8) {
            assert(lead =~= seq![seq![46u8]]);
        } else {
            assert(lead =~= Seq::<Seq<u8>>::empty());
        }
    }
    let mut cur: Vec<u8> = Vec::new();
    let mut i: usize = 0;
    assert(p@.skip(0) =~= p@);
    assert(cur@ =~= Seq::<u8>::empty());
    while i < n
        invariant
            n == p.len(),
            i <= n,
            byte_views(out@) + pieces_from(p@.skip(i as int), cur@) == path_components(p@),
        decreases n - i,
    {
        let ghost rest = p@.skip(i as int);
        assert(rest.drop_first() =~= p@.skip(i + 1));
        assert(rest[0] == p@[i as int]);
        if p[i] == 47u8 {
            let c = cur;
            cur = Vec::new();
            let ghost o0 = byte_views(out@);
            keep_piece_exec(&mut out, c);
            assert(byte_views(out@) + pieces_from(p@.skip(i + 1), cur@) =~= o0 + (keep_piece(c@) + pieces_from(
                rest.drop_first(),
                Seq::empty(),
            )));
        } else {
            let ghost c0 = cur@;
            cur.push(p[i]);
            assert(cur@ == c0.push(p@[i as int]));
        }
        i = i + 1;
    }
    assert(p@.skip(n as int) =~= Seq::<u8>::empty());
    let ghost o0 = byte_views(out@);
    keep_piece_exec(&mut out, cur);
    out
}

fn same_bytes(a: &Vec<u8>, b: &Vec<u8>) -> (r: bool)
    ensures
        r == (a@ == b@),
{
    if a.len() != b.len() {
        return false;
    }
    let mut i: usize = 0;
    while i < a.len()
        invariant
            a.len() == b.len(),
            i <= a.len(),
            forall|k: int| 0 <= k < i ==> a@[k] == b@[k],
        decreases a.len() - i,
    {
        if a[i] != b[i] {
            return false;
        }
        i = i + 1;
    }
    assert(a@ =~= b@);
    true
}

/// Whether the canonical path `target` lies inside the canonical `root` of
/// the book, component by component (`Path::starts_with`): only such a
/// file is served.
pub fn inside_root(target: &[u8], root: &[u8]) -> (r: bool)
    ensures
        r == inside_model(target@, root@),
{
    let a = components_exec(target);
    let b = components_exec(root);
    if b.len() > a.len() {
        return false;
    }
    let mut k: usize = 0;
    while k < b.len()
        invariant
            b.len() <= a.len(),
            k <= b.len(),
            byte_views(a@) == path_components(target@),
            byte_views(b@) == path_components(root@),
            forall|j: int| 0 <= j < k ==> byte_views(a@)[j] == byte_views(b@)[j],
        decreases b.len() - k,
    {
        if !same_bytes(&a[k], &b[k]) {
            assert(byte_views(a@).take(b.len() as int)[k as int] != byte_views(b@)[k as int]);
            return false;
        }
        k = k + 1;
    }
    assert(byte_views(a@).take(b.len() as int) =~= byte_views(b@));
    true
}

} // verus!
