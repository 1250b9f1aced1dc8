//! Reading Markdown files: the first-level heading, the `<!-- key: value -->`
//! metadata comments at the top of a file, topic lists, and link targets.
//!
//! Metadata lives in HTML comments because the book renderer does not read
//! front matter: the comments stay invisible in the output.
use vstd::prelude::*;

use crate::text::{
    chars_of, ends_with, find, find_str, lines, lines_of_str, rfind, rfind_str, skip, slice_of,
    starts_with, starts_with_exec, starts_with_str, string_of, trim, trim_exec, ends_with_str,
    push_str, views, is_ws, trim_start, trim_end, str_views, eq, find_exec, is_digit, has_char,
};
use crate::tree::{SrcTree, TreeModel, distinct, file_text, has_path, join};

verus! {

/// How many lines at the top of a file may hold metadata comments.
pub const META_SCAN_LINES: usize = 8;

// ---------------------------------------------------------------------------
// Specifications
// ---------------------------------------------------------------------------

/// The heading text of the first of `ls` that reads `# text` once trimmed.
pub open spec fn h1_from(ls: Seq<Seq<char>>) -> Option<Seq<char>>
    decreases ls.len(),
{
    if ls.len() == 0 {
        None
    } else {
        let l = trim(ls[0]);
        if starts_with(l, "# "@) {
            Some(trim(l.skip(2)))
        } else {
            h1_from(ls.drop_first())
        }
    }
}

/// The first-level heading of a document.
pub open spec fn spec_h1_of(content: Seq<char>) -> Option<Seq<char>> {
    h1_from(lines(content))
}

/// `s` with every trailing repetition of `p` removed (`str::trim_end_matches`).
pub open spec fn trim_end_matches(s: Seq<char>, p: Seq<char>) -> Seq<char>
    decreases s.len(),
{
    if p.len() > 0 && ends_with(s, p) {
        trim_end_matches(s.take(s.len() - p.len()), p)
    } else {
        s
    }
}

/// The value of metadata `key` in one trimmed line, if the line is such a comment.
pub open spec fn meta_in_line(line: Seq<char>, key: Seq<char>) -> Option<Seq<char>> {
    if starts_with(line, "<!--"@) {
        let inner = trim(trim_end_matches(line.skip(4), "-->"@));
        let want = key + seq![':'];
        if starts_with(inner, want) {
            Some(trim(inner.skip(want.len() as int)))
        } else {
            None
        }
    } else {
        None
    }
}

/// The first value of metadata `key` among `ls`.
pub open spec fn meta_from(ls: Seq<Seq<char>>, key: Seq<char>) -> Option<Seq<char>>
    decreases ls.len(),
{
    if ls.len() == 0 {
        None
    } else {
        match meta_in_line(trim(ls[0]), key) {
            Some(v) => Some(v),
            None => meta_from(ls.drop_first(), key),
        }
    }
}

/// The value of `<!-- key: value -->` among the first lines of a document.
pub open spec fn spec_read_meta_str(content: Seq<char>, key: Seq<char>) -> Option<Seq<char>> {
    let ls = lines(content);
    meta_from(ls.take(if ls.len() < 8 { ls.len() as int } else { 8 }), key)
}

/// A topic separator: an ASCII or a full-width comma.
pub open spec fn is_topic_sep(c: char) -> bool {
    c == ',' || c == '\u{ff0c}'
}

/// The distinct, non-blank, trimmed pieces, in first-seen order, after `acc`.
pub open spec fn distinct_topics(pieces: Seq<Seq<char>>, acc: Seq<Seq<char>>) -> Seq<Seq<char>>
    decreases pieces.len(),
{
    if pieces.len() == 0 {
        acc
    } else {
        let t = trim(pieces[0]);
        if t.len() == 0 || acc.contains(t) {
            distinct_topics(pieces.drop_first(), acc)
        } else {
            distinct_topics(pieces.drop_first(), acc.push(t))
        }
    }
}

/// The pieces of `s` between topic separators, after a partial piece `cur`.
pub open spec fn topic_pieces(s: Seq<char>, cur: Seq<char>) -> Seq<Seq<char>>
    decreases s.len(),
{
    if s.len() == 0 {
        seq![cur]
    } else if is_topic_sep(s[0]) {
        seq![cur] + topic_pieces(s.drop_first(), Seq::empty())
    } else {
        topic_pieces(s.drop_first(), cur.push(s[0]))
    }
}

/// `split_topics`: the topics named in a comma-separated list.
pub open spec fn spec_split_topics(raw: Seq<char>) -> Seq<Seq<char>> {
    distinct_topics(topic_pieces(raw, Seq::empty()), Seq::empty())
}

/// The path inside the last `](./path)` of a line: up to the `)` that
/// closes the link, so a path may hold balanced parentheses; where no `)`
/// closes it, up to the first `)`.
pub open spec fn spec_extract_link_path(line: Seq<char>) -> Option<Seq<char>> {
    match rfind(line, "](./"@) {
        None => None,
        Some(i) => match crate::text::close_paren(line, i + 4, 1) {
            Some(j) => Some(line.subrange(i + 4, j)),
            None => match crate::text::find_from(line, ")"@, i + 4) {
                Some(k) => Some(line.subrange(i + 4, k)),
                None => None,
            },
        },
    }
}

// ---------------------------------------------------------------------------
// Lemmas
// ---------------------------------------------------------------------------

proof fn lemma_skip_first<A>(s: Seq<A>, j: int)
    requires
        0 <= j < s.len(),
    ensures
        s.skip(j).drop_first() == s.skip(j + 1),
        s.skip(j)[0] == s[j],
{
    assert(s.skip(j).drop_first() =~= s.skip(j + 1));
}

// ---------------------------------------------------------------------------
// Executable code
// ---------------------------------------------------------------------------

/// The model of an optional buffer.
pub open spec fn opt_view(o: Option<Vec<char>>) -> Option<Seq<char>> {
    match o {
        Some(v) => Some(v@),
        None => None,
    }
}

/// The model of an optional string.
pub open spec fn opt_str_view(o: Option<String>) -> Option<Seq<char>> {
    match o {
        Some(v) => Some(v@),
        None => None,
    }
}

fn h1_chars(content: &Vec<char>) -> (r: Option<Vec<char>>)
    ensures
        opt_view(r) == spec_h1_of(content@),
{
    let ls = crate::text::lines_exec(content);
    let ghost lv = views(ls@);
    let mut i: usize = 0;
    assert(lv.skip(0) =~= lv);
    while i < ls.len()
        invariant
            i <= ls.len(),
            lv == views(ls@),
            spec_h1_of(content@) == h1_from(lv.skip(i as int)),
        decreases ls.len() - i,
    {
        proof {
            lemma_skip_first(lv, i as int);
        }
        assert(lv[i as int] == ls@[i as int]@);
        let l = trim_exec(&ls[i]);
        if starts_with_str(&l, "# ") {
            proof {
                reveal_strlit("# ");
            }
            let rest = skip(&l, 2);
            return Some(trim_exec(&rest));
        }
        i = i + 1;
    }
    assert(lv.skip(ls.len() as int) =~= Seq::<Seq<char>>::empty());
    None
}

/// The text of the first `# heading` line of a document.
pub fn h1_of(content: &str) -> (r: Option<String>)
    ensures
        opt_str_view(r) == spec_h1_of(content@),
{
    let c = chars_of(content);
    match h1_chars(&c) {
        Some(v) => Some(string_of(&v)),
        None => None,
    }
}

/// Removes every trailing repetition of `p` (`str::trim_end_matches`).
pub fn trim_end_matches_exec(s: &Vec<char>, p: &str) -> (r: Vec<char>)
    ensures
        r@ == trim_end_matches(s@, p@),
{
    let pv = chars_of(p);
    if pv.len() == 0 {
        return s.clone();
    }
    let mut cur = s.clone();
    while crate::text::ends_with_exec(&cur, &pv)
        invariant
            pv@ == p@,
            pv@.len() > 0,
            trim_end_matches(s@, p@) == trim_end_matches(cur@, p@),
        decreases cur.len(),
    {
        let n = cur.len() - pv.len();
        let next = slice_of(&cur, 0, n);
        assert(next@ =~= cur@.take(cur@.len() - p@.len()));
        cur = next;
    }
    cur
}

/// The value of metadata `key` in one trimmed line.
fn meta_in_line_exec(line: &Vec<char>, key: &Vec<char>) -> (r: Option<Vec<char>>)
    ensures
        opt_view(r) == meta_in_line(line@, key@),
{
    if !starts_with_str(line, "<!--") {
        return None;
    }
    proof {
        reveal_strlit("<!--");
    }
    let rest = skip(line, 4);
    let t = trim_end_matches_exec(&rest, "-->");
    let inner = trim_exec(&t);
    let mut want = key.clone();
    want.push(':');
    assert(want@ =~= key@ + seq![':']);
    if starts_with_exec(&inner, &want) {
        let v = skip(&inner, want.len());
        Some(trim_exec(&v))
    } else {
        None
    }
}

fn read_meta_chars(content: &Vec<char>, key: &Vec<char>) -> (r: Option<Vec<char>>)
    ensures
        opt_view(r) == spec_read_meta_str(content@, key@),
{
    let ls = crate::text::lines_exec(content);
    let ghost lv = views(ls@);
    let n = if ls.len() < META_SCAN_LINES {
        ls.len()
    } else {
        META_SCAN_LINES
    };
    let ghost top = lv.take(n as int);
    let mut i: usize = 0;
    assert(top.skip(0) =~= top);
    while i < n
        invariant
            i <= n <= ls.len(),
            lv == views(ls@),
            top == lv.take(n as int),
            spec_read_meta_str(content@, key@) == meta_from(top.skip(i as int), key@),
        decreases n - i,
    {
        proof {
            lemma_skip_first(top, i as int);
        }
        assert(top[i as int] == ls@[i as int]@);
        let l = trim_exec(&ls[i]);
        match meta_in_line_exec(&l, key) {
            Some(v) => {
                return Some(v);
            },
            None => {},
        }
        i = i + 1;
    }
    assert(top.skip(n as int) =~= Seq::<Seq<char>>::empty());
    None
}

/// The value of the `<!-- key: value -->` comment among the first
/// `META_SCAN_LINES` lines; comments deeper in the body are ignored.
pub fn read_meta_str(content: &str, key: &str) -> (r: Option<String>)
    ensures
        opt_str_view(r) == spec_read_meta_str(content@, key@),
{
    let c = chars_of(content);
    let k = chars_of(key);
    match read_meta_chars(&c, &k) {
        Some(v) => Some(string_of(&v)),
        None => None,
    }
}

/// Whether `acc` holds `t`.
fn contains_piece(acc: &Vec<Vec<char>>, t: &Vec<char>) -> (r: bool)
    ensures
        r == views(acc@).contains(t@),
{
    let mut i: usize = 0;
    while i < acc.len()
        invariant
            i <= acc.len(),
            forall|j: int| 0 <= j < i ==> acc@[j]@ != t@,
        decreases acc.len() - i,
    {
        if eq(&acc[i], t) {
            assert(views(acc@)[i as int] == t@);
            return true;
        }
        i = i + 1;
    }
    assert forall|j: int| 0 <= j < views(acc@).len() implies views(acc@)[j] != t@ by {
        assert(views(acc@)[j] == acc@[j]@);
    }
    false
}

/// Splits a topic list at ASCII and full-width commas, keeping each
/// non-blank trimmed topic once, in first-seen order.
pub fn split_topics(raw: &str) -> (r: Vec<String>)
    ensures
        str_views(r@) == spec_split_topics(raw@),
{
    let s = chars_of(raw);
    let mut out: Vec<Vec<char>> = Vec::new();
    let mut cur: Vec<char> = Vec::new();
    let mut i: usize = 0;
    assert(s@.skip(0) =~= s@);
    assert(views(out@) =~= Seq::<Seq<char>>::empty());
    // The pieces still to come are those of the rest of the text, after the
    // partial piece `cur`.
    while i < s.len()
        invariant
            i <= s.len(),
            s@ == raw@,
            spec_split_topics(raw@) == distinct_topics(
                topic_pieces(s@.skip(i as int), cur@),
                views(out@),
            ),
        decreases s.len() - i,
    {
        proof {
            lemma_skip_first(s@, i as int);
        }
        let c = s[i];
        if c == ',' || c == '\u{ff0c}' {
            let t = trim_exec(&cur);
            if t.len() > 0 && !contains_piece(&out, &t) {
                let ghost before = views(out@);
                out.push(t);
                assert(views(out@) =~= before.push(t@));
            }
            assert(topic_pieces(s@.skip(i as int), cur@) == seq![cur@]
                + topic_pieces(s@.skip(i + 1), Seq::empty()));
            assert((seq![cur@] + topic_pieces(s@.skip(i + 1), Seq::empty())).drop_first()
                =~= topic_pieces(s@.skip(i + 1), Seq::empty()));
            cur = Vec::new();
            assert(cur@ =~= Seq::<char>::empty());
        } else {
            cur.push(c);
        }
        i = i + 1;
    }
    assert(s@.skip(s.len() as int) =~= Seq::<char>::empty());
    let ghost last = seq![cur@];
    let ghost acc0 = views(out@);
    assert(spec_split_topics(raw@) == distinct_topics(last, acc0));
    assert(last.drop_first() =~= Seq::<Seq<char>>::empty());
    let t = trim_exec(&cur);
    if t.len() > 0 && !contains_piece(&out, &t) {
        out.push(t);
        assert(views(out@) =~= acc0.push(t@));
        assert(distinct_topics(Seq::empty(), acc0.push(t@)) == acc0.push(t@));
    } else {
        assert(views(out@) =~= acc0);
        assert(distinct_topics(Seq::empty(), acc0) == acc0);
    }
    crate::text::strings_of(&out)
}

/// The path inside the last `](./path)` of a line; titles may contain `]`,
/// so the link is located from the right, and the path ends at the `)`
/// that closes the link, or at the first `)` where none closes it.
pub fn extract_link_path(line: &str) -> (r: Option<String>)
    ensures
        opt_str_view(r) == spec_extract_link_path(line@),
{
    let l = chars_of(line);
    let n = l.len();
    let i = match rfind_str(&l, "](./") {
        None => {
            return None;
        },
        Some(i) => i,
    };
    proof {
        reveal_strlit("](./");
        assert("](./"@.len() == 4);
        crate::text::lemma_rfind_upto_bounds(l@, "](./"@, l@.len() - 4);
        assert(crate::text::occurs_at(l@, "](./"@, i as int));
        assert(i + 4 <= n);
    }
    let start = i + 4;
    let mut depth: usize = 1;
    let mut j = start;
    while j < n && !(l[j] == ')' && depth == 1)
        invariant
            n == l.len(),
            l@ == line@,
            start >= 4,
            start <= j <= n,
            1 <= depth <= j - start + 1,
            crate::text::close_paren(line@, start as int, 1) == crate::text::close_paren(line@, j as int, depth as int),
        decreases n - j,
    {
        if l[j] == '(' {
            depth = depth + 1;
        } else if l[j] == ')' {
            depth = depth - 1;
        }
        j = j + 1;
    }
    if j >= n {
        let mut k = start;
        while k < n && l[k] != ')'
            invariant
                n == l.len(),
                l@ == line@,
                start <= k <= n,
                crate::text::find_from(line@, ")"@, start as int) == crate::text::find_from(line@, ")"@, k as int),
            decreases n - k,
        {
            proof {
                reveal_strlit(")");
                assert(line@.subrange(k as int, k + 1) =~= seq![l@[k as int]]);
                assert(")"@ =~= seq![')']);
                assert(line@.subrange(k as int, k + 1)[0] != ")"@[0]);
                assert(line@.subrange(k as int, k + 1) != ")"@);
            }
            k = k + 1;
        }
        proof {
            reveal_strlit(")");
        }
        if k >= n {
            return None;
        }
        assert(line@.subrange(k as int, k + 1) =~= ")"@);
        let p = slice_of(&l, start, k);
        return Some(string_of(&p));
    }
    let p = slice_of(&l, start, j);
    Some(string_of(&p))
}

// ---------------------------------------------------------------------------
// Listing order
// ---------------------------------------------------------------------------

/// Files that are not chapters of their own.
pub open spec fn excluded(name: Seq<char>) -> bool {
    name == "SUMMARY.md"@ || name == "README.md"@ || name == "index.md"@
}

/// The file name has the extension `md` (a name `.md` alone has none).
pub open spec fn is_md_name(name: Seq<char>) -> bool {
    name.len() >= 4 && ends_with(name, ".md"@)
}

/// `name` is listed for `dir`: a Markdown file directly in it, not excluded.
pub open spec fn listed(t: TreeModel, dir: Seq<char>, name: Seq<char>) -> bool {
    has_path(t, join(dir, name)) && !has_char(name, '/') && is_md_name(name) && !excluded(name)
}

/// How many ASCII digits `s` starts with.
pub open spec fn leading_digits(s: Seq<char>) -> nat
    decreases s.len(),
{
    if s.len() > 0 && is_digit(s[0]) {
        1 + leading_digits(s.drop_first())
    } else {
        0
    }
}

/// The value of a string of decimal digits.
pub open spec fn digits_value(d: Seq<char>) -> nat
    decreases d.len(),
{
    if d.len() == 0 {
        0
    } else {
        digits_value(d.drop_last()) * 10 + ((d.last() as int - '0' as int) as nat)
    }
}

/// The numeric part of a file's sort key: its leading number, or
/// `u64::MAX` when it has none (or it does not fit), so that unnumbered
/// files come after numbered ones.
pub open spec fn sort_number(name: Seq<char>) -> nat {
    let d = name.take(leading_digits(name) as int);
    if d.len() > 0 && digits_value(d) <= u64::MAX {
        digits_value(d)
    } else {
        u64::MAX as nat
    }
}

/// Lexicographic order of characters (the order of `str` comparison).
pub open spec fn lex_lt(a: Seq<char>, b: Seq<char>) -> bool
    decreases a.len(),
{
    if a.len() == 0 {
        b.len() > 0
    } else if b.len() == 0 {
        false
    } else if a[0] != b[0] {
        a[0] < b[0]
    } else {
        lex_lt(a.drop_first(), b.drop_first())
    }
}

/// The listing order: by leading number, then by name.
pub open spec fn key_lt(a: Seq<char>, b: Seq<char>) -> bool {
    sort_number(a) < sort_number(b) || (sort_number(a) == sort_number(b) && lex_lt(a, b))
}

/// `s` is strictly increasing in the listing order.
pub open spec fn sorted_keys(s: Seq<Seq<char>>) -> bool {
    forall|i: int, j: int| 0 <= i < j < s.len() ==> key_lt(s[i], s[j])
}

proof fn lemma_lex_irreflexive(a: Seq<char>)
    ensures
        !lex_lt(a, a),
    decreases a.len(),
{
    if a.len() > 0 {
        lemma_lex_irreflexive(a.drop_first());
    }
}

proof fn lemma_lex_transitive(a: Seq<char>, b: Seq<char>, c: Seq<char>)
    requires
        lex_lt(a, b),
        lex_lt(b, c),
    ensures
        lex_lt(a, c),
    decreases a.len(),
{
    if a.len() > 0 && b.len() > 0 && c.len() > 0 && a[0] == b[0] && b[0] == c[0] {
        lemma_lex_transitive(a.drop_first(), b.drop_first(), c.drop_first());
    }
}

proof fn lemma_lex_total(a: Seq<char>, b: Seq<char>)
    requires
        a != b,
    ensures
        lex_lt(a, b) || lex_lt(b, a),
    decreases a.len(),
{
    if a.len() > 0 && b.len() > 0 && a[0] == b[0] {
        if a.drop_first() == b.drop_first() {
            assert(a =~= seq![a[0]] + a.drop_first());
            assert(b =~= seq![b[0]] + b.drop_first());
        }
        lemma_lex_total(a.drop_first(), b.drop_first());
    } else if a.len() == 0 && b.len() == 0 {
        assert(a =~= b);
    }
}

proof fn lemma_lex_asymmetric(a: Seq<char>, b: Seq<char>)
    requires
        lex_lt(a, b),
    ensures
        !lex_lt(b, a),
{
    if lex_lt(b, a) {
        lemma_lex_transitive(a, b, a);
        lemma_lex_irreflexive(a);
    }
}

/// The listing order is a strict total order.
pub proof fn lemma_key_order(a: Seq<char>, b: Seq<char>, c: Seq<char>)
    ensures
        !key_lt(a, a),
        key_lt(a, b) ==> !key_lt(b, a),
        key_lt(a, b) && key_lt(b, c) ==> key_lt(a, c),
        a != b ==> key_lt(a, b) || key_lt(b, a),
{
    lemma_lex_irreflexive(a);
    if key_lt(a, b) && lex_lt(a, b) {
        lemma_lex_asymmetric(a, b);
    }
    if key_lt(a, b) && key_lt(b, c) && lex_lt(a, b) && lex_lt(b, c) {
        lemma_lex_transitive(a, b, c);
    }
    if a != b {
        lemma_lex_total(a, b);
    }
}

/// The leading number of `name`, as `sort_number` states.
fn sort_number_exec(name: &Vec<char>) -> (r: u64)
    ensures
        r as nat == sort_number(name@),
{
    let mut i: usize = 0;
    let mut v: u64 = 0;
    let mut overflow = false;
    assert(name@.take(0) =~= Seq::<char>::empty());
    assert(name@.skip(0) =~= name@);
    while i < name.len() && '0' <= name[i] && name[i] <= '9'
        invariant
            i <= name.len(),
            leading_digits(name@) == i + leading_digits(name@.skip(i as int)),
            forall|j: int| 0 <= j < i ==> is_digit(name@[j]),
            overflow ==> digits_value(name@.take(i as int)) > u64::MAX,
            !overflow ==> v == digits_value(name@.take(i as int)),
        decreases name.len() - i,
    {
        let d = (name[i] as u32 - '0' as u32) as u64;
        assert(name@.take(i + 1).drop_last() =~= name@.take(i as int));
        assert(name@.skip(i as int).drop_first() =~= name@.skip(i + 1));
        if !overflow {
            if v > (u64::MAX - d) / 10 {
                overflow = true;
                assert(v * 10 + d > u64::MAX) by (nonlinear_arith)
                    requires
                        v > (u64::MAX - d) / 10,
                        d <= 9,
                ;
            } else {
                assert(v * 10 + d <= u64::MAX) by (nonlinear_arith)
                    requires
                        v <= (u64::MAX - d) / 10,
                        d <= 9,
                ;
                v = v * 10 + d;
            }
        }
        i = i + 1;
    }
    assert(leading_digits(name@.skip(i as int)) == 0);
    if i == 0 || overflow {
        u64::MAX
    } else {
        v
    }
}

/// The sort key of a file name: its leading number by value (`u64::MAX`
/// when it has none or it does not fit), then the name itself. Comparing
/// keys gives the listing order.
pub fn sort_key(name: &str) -> (r: (u64, &str))
    ensures
        r.0 as nat == sort_number(name@),
        r.1@ == name@,
{
    let v = chars_of(name);
    (sort_number_exec(&v), name)
}

/// `a` comes before `b` in lexicographic character order.
fn lex_less(a: &Vec<char>, b: &Vec<char>) -> (r: bool)
    ensures
        r == lex_lt(a@, b@),
{
    let mut i: usize = 0;
    assert(a@.skip(0) =~= a@);
    assert(b@.skip(0) =~= b@);
    while i < a.len() && i < b.len() && a[i] == b[i]
        invariant
            i <= a.len(),
            i <= b.len(),
            lex_lt(a@, b@) == lex_lt(a@.skip(i as int), b@.skip(i as int)),
        decreases a.len() - i,
    {
        assert(a@.skip(i as int).drop_first() =~= a@.skip(i + 1));
        assert(b@.skip(i as int).drop_first() =~= b@.skip(i + 1));
        i = i + 1;
    }
    if i == a.len() {
        i < b.len()
    } else if i == b.len() {
        false
    } else {
        a[i] < b[i]
    }
}

/// `a` comes before `b` in the listing order.
fn key_less(a: &Vec<char>, b: &Vec<char>) -> (r: bool)
    ensures
        r == key_lt(a@, b@),
{
    let x = sort_number_exec(a);
    let y = sort_number_exec(b);
    x < y || (x == y && lex_less(a, b))
}

/// Sorts distinct names into the listing order.
fn sort_names(v: Vec<Vec<char>>) -> (r: Vec<Vec<char>>)
    requires
        distinct(views(v@)),
    ensures
        sorted_keys(views(r@)),
        forall|n: Seq<char>| views(r@).contains(n) <==> views(v@).contains(n),
{
    let mut out: Vec<Vec<char>> = Vec::new();
    let mut i: usize = 0;
    while i < v.len()
        invariant
            i <= v.len(),
            distinct(views(v@)),
            sorted_keys(views(out@)),
            forall|n: Seq<char>|
                #![trigger views(out@).contains(n)]
                #![trigger views(v@).take(i as int).contains(n)]
                views(out@).contains(n) <==> views(v@).take(i as int).contains(n),
        decreases v.len() - i,
    {
        let x = v[i].clone();
        assert(x@ == views(v@)[i as int]);
        let mut p: usize = 0;
        while p < out.len() && key_less(&out[p], &x)
            invariant
                p <= out.len(),
                forall|q: int| 0 <= q < p ==> key_lt(#[trigger] views(out@)[q], x@),
            decreases out.len() - p,
        {
            p = p + 1;
        }
        let ghost o = views(out@);
        proof {
            // x is new: the names before index i differ from it
            crate::text::lemma_distinct_prefix(views(v@), i as int);
            assert(!o.contains(x@));
            assert forall|q: int| p <= q < o.len() implies key_lt(x@, #[trigger] o[q]) by {
                lemma_key_order(o[p as int], x@, x@);
                lemma_key_order(x@, o[p as int], o[q]);
                if q > p {
                    assert(key_lt(o[p as int], o[q]));
                }
            }
        }
        out.insert(p, x);
        assert(views(out@) =~= o.insert(p as int, x@));
        proof {
            let o2 = views(out@);
            assert forall|a: int, b: int| 0 <= a < b < o2.len() implies key_lt(o2[a], o2[b]) by {
                if a < p && b < p {
                } else if a < p && b == p {
                } else if a < p && b > p {
                    lemma_key_order(o[a], x@, o[b - 1]);
                } else if a == p {
                } else {
                }
            }
            assert forall|n: Seq<char>| o2.contains(n) <==> views(v@).take(i + 1).contains(n) by {
                crate::text::lemma_insert_contains(o, p as int, x@, n);
                crate::text::lemma_take_succ_contains(views(v@), i as int, n);
            }
        }
        i = i + 1;
    }
    assert(views(v@).take(v.len() as int) =~= views(v@));
    out
}

/// The listing of `dir`: its listed names in listing order.
pub open spec fn listing(t: TreeModel, dir: Seq<char>) -> Seq<Seq<char>> {
    choose|s: Seq<Seq<char>>|
        sorted_keys(s) && forall|n: Seq<char>| #[trigger] s.contains(n) <==> listed(t, dir, n)
}

/// Two sequences in listing order with the same elements are equal.
pub proof fn lemma_sorted_unique(a: Seq<Seq<char>>, b: Seq<Seq<char>>)
    requires
        sorted_keys(a),
        sorted_keys(b),
        forall|n: Seq<char>| a.contains(n) <==> b.contains(n),
    ensures
        a == b,
    decreases a.len(),
{
    if a.len() == 0 {
        if b.len() > 0 {
            assert(b.contains(b[0]));
        }
        assert(a =~= b);
    } else {
        assert(a.contains(a[0]));
        assert(b.len() > 0);
        assert(b.contains(b[0]));
        let ka = choose|k: int| 0 <= k < a.len() && a[k] == b[0];
        let kb = choose|k: int| 0 <= k < b.len() && b[k] == a[0];
        if a[0] != b[0] {
            lemma_key_order(a[0], b[0], a[0]);
            if ka > 0 {
                assert(key_lt(a[0], a[ka]));
            }
            if kb > 0 {
                assert(key_lt(b[0], b[kb]));
            }
        }
        let a1 = a.drop_first();
        let b1 = b.drop_first();
        assert forall|n: Seq<char>| a1.contains(n) <==> b1.contains(n) by {
            if a1.contains(n) {
                let k = choose|k: int| 0 <= k < a1.len() && a1[k] == n;
                assert(key_lt(a[0], a[k + 1]));
                lemma_key_order(a[0], a[0], a[0]);
                assert(b.contains(n));
                let j = choose|j: int| 0 <= j < b.len() && b[j] == n;
                assert(j != 0);
                assert(b1[j - 1] == n);
            }
            if b1.contains(n) {
                let k = choose|k: int| 0 <= k < b1.len() && b1[k] == n;
                assert(key_lt(b[0], b[k + 1]));
                lemma_key_order(b[0], b[0], b[0]);
                assert(a.contains(n));
                let j = choose|j: int| 0 <= j < a.len() && a[j] == n;
                assert(j != 0);
                assert(a1[j - 1] == n);
            }
        }
        lemma_sorted_unique(a1, b1);
        assert(a =~= seq![a[0]] + a1);
        assert(b =~= seq![b[0]] + b1);
    }
}

/// The Markdown files directly in `dir`, without `SUMMARY.md`,
/// `README.md` and `index.md`, in listing order: leading numbers by value,
/// unnumbered files last, ties by name.
pub fn md_files_in(tree: &SrcTree, dir: &str) -> (r: Vec<String>)
    ensures
        sorted_keys(str_views(r@)),
        forall|n: Seq<char>| str_views(r@).contains(n) <==> listed(tree@, dir@, n),
        str_views(r@) == listing(tree@, dir@),
{
    let names = tree.file_names(dir);
    let mut keep: Vec<Vec<char>> = Vec::new();
    let mut i: usize = 0;
    while i < names.len()
        invariant
            i <= names.len(),
            distinct(str_views(names@)),
            forall|n: Seq<char>|
                #![trigger str_views(names@).contains(n)]
                #![trigger has_path(tree@, join(dir@, n))]
                str_views(names@).contains(n) <==> (has_path(tree@, join(dir@, n)) && !has_char(n, '/')),
            distinct(views(keep@)),
            forall|n: Seq<char>|
                #![trigger views(keep@).contains(n)]
                #![trigger str_views(names@).take(i as int).contains(n)]
                views(keep@).contains(n) <==> (str_views(names@).take(i as int).contains(n) && is_md_name(n)
                    && !excluded(n)),
        decreases names.len() - i,
    {
        let n = chars_of(names[i].as_str());
        assert(n@ == str_views(names@)[i as int]);
        assert(str_views(names@).take(i + 1) =~= str_views(names@).take(i as int).push(n@));
        let md = n.len() >= 4 && ends_with_str(&n, ".md");
        let ex = crate::text::eq_str(&n, "SUMMARY.md") || crate::text::eq_str(&n, "README.md")
            || crate::text::eq_str(&n, "index.md");
        let ghost k0 = views(keep@);
        proof {
            crate::text::lemma_distinct_prefix(str_views(names@), i as int);
        }
        if md && !ex {
            keep.push(n);
            assert(views(keep@) =~= k0.push(n@));
            proof {
                assert(!str_views(names@).take(i as int).contains(n@));
                assert(k0.contains(n@) ==> str_views(names@).take(i as int).contains(n@));
                assert(!k0.contains(n@));
                assert forall|a: int, b: int|
                    0 <= a < views(keep@).len() && 0 <= b < views(keep@).len() && a != b implies views(
                    keep@,
                )[a] != views(keep@)[b] by {
                    if a == k0.len() {
                        assert(k0.contains(views(keep@)[b]));
                    } else if b == k0.len() {
                        assert(k0.contains(views(keep@)[a]));
                    }
                }
            }
        }
        assert forall|m: Seq<char>|
            #![trigger views(keep@).contains(m)]
            #![trigger str_views(names@).take(i + 1).contains(m)]
            views(keep@).contains(m) <==> (str_views(names@).take(i + 1).contains(m) && is_md_name(m)
                && !excluded(m)) by {
            crate::text::lemma_take_succ_contains(str_views(names@), i as int, m);
            crate::text::lemma_push_contains(k0, n@, m);
        }
        i = i + 1;
    }
    assert(str_views(names@).take(names.len() as int) =~= str_views(names@));
    let sorted = sort_names(keep);
    let r = crate::text::strings_of(&sorted);
    assert forall|n: Seq<char>| str_views(r@).contains(n) <==> listed(tree@, dir@, n) by {
        assert(str_views(r@) == views(sorted@));
        assert(views(sorted@).contains(n) <==> views(keep@).contains(n));
        assert(views(keep@).contains(n) <==> (str_views(names@).take(names.len() as int).contains(n)
            && is_md_name(n) && !excluded(n)));
        assert(str_views(names@).contains(n) <==> (has_path(tree@, join(dir@, n)) && !has_char(n, '/')));
    }
    proof {
        let l = listing(tree@, dir@);
        assert(sorted_keys(l) && forall|n: Seq<char>| #[trigger] l.contains(n) <==> listed(tree@, dir@, n));
        lemma_sorted_unique(str_views(r@), l);
    }
    r
}

// ---------------------------------------------------------------------------
// Reading files of a snapshot
// ---------------------------------------------------------------------------

/// The heading of the file at `path`; `None` when it has none or is missing.
pub open spec fn spec_read_h1(t: TreeModel, path: Seq<char>) -> Option<Seq<char>> {
    match file_text(t, path) {
        Some(c) => spec_h1_of(c),
        None => None,
    }
}

/// The last `/`-separated component of a path.
pub open spec fn file_name(path: Seq<char>) -> Seq<char> {
    match rfind(path, "/"@) {
        Some(i) => path.skip(i + 1),
        None => path,
    }
}

/// `Path::file_stem`: the file name without its final extension; a name
/// that starts with its only `.` keeps it, and `..` has no stem.
pub open spec fn file_stem(path: Seq<char>) -> Seq<char> {
    let n = file_name(path);
    if n == ".."@ {
        Seq::empty()
    } else {
        match rfind(n, "."@) {
            Some(j) => if j > 0 {
                n.take(j)
            } else {
                n
            },
            None => n,
        }
    }
}

/// The title shown for a chapter: its heading, else its file stem.
pub open spec fn spec_display_title(t: TreeModel, path: Seq<char>) -> Seq<char> {
    match spec_read_h1(t, path) {
        Some(h) => h,
        None => file_stem(path),
    }
}

/// The value of metadata `key` in the file at `path`.
pub open spec fn spec_read_meta(t: TreeModel, path: Seq<char>, key: Seq<char>) -> Option<Seq<char>> {
    match file_text(t, path) {
        Some(c) => spec_read_meta_str(c, key),
        None => None,
    }
}

/// The topics declared by the file at `path`.
pub open spec fn spec_read_topics(t: TreeModel, path: Seq<char>) -> Seq<Seq<char>> {
    match spec_read_meta(t, path, "topic"@) {
        Some(s) => spec_split_topics(s),
        None => Seq::empty(),
    }
}

/// The non-empty `desc` of the file at `path`.
pub open spec fn spec_read_desc(t: TreeModel, path: Seq<char>) -> Option<Seq<char>> {
    match spec_read_meta(t, path, "desc"@) {
        Some(s) => if s.len() > 0 {
            Some(s)
        } else {
            None
        },
        None => None,
    }
}

/// The link text on a topic index: the non-empty `label`, else the title.
pub open spec fn spec_index_label(t: TreeModel, path: Seq<char>) -> Seq<char> {
    match spec_read_meta(t, path, "label"@) {
        Some(s) => if s.len() > 0 {
            s
        } else {
            spec_display_title(t, path)
        },
        None => spec_display_title(t, path),
    }
}

/// The first-level heading of the file at `path`.
pub fn read_h1(tree: &SrcTree, path: &str) -> (r: Option<String>)
    ensures
        opt_str_view(r) == spec_read_h1(tree@, path@),
{
    match tree.read(path) {
        Some(c) => h1_of(c.as_str()),
        None => None,
    }
}

/// The last `/`-separated component of a path.
pub fn file_name_exec(path: &Vec<char>) -> (r: Vec<char>)
    ensures
        r@ == file_name(path@),
{
    match rfind_str(path, "/") {
        Some(i) => {
            proof {
                reveal_strlit("/");
                crate::text::lemma_rfind_upto_bounds(path@, "/"@, path@.len() - 1);
            }
            let n = path.len();
            assert(i + 1 <= n);
            skip(path, i + 1)
        },
        None => path.clone(),
    }
}

/// `Path::file_stem` of a `/`-separated path.
fn file_stem_exec(path: &Vec<char>) -> (r: Vec<char>)
    ensures
        r@ == file_stem(path@),
{
    let name = file_name_exec(path);
    if crate::text::eq_str(&name, "..") {
        return Vec::new();
    }
    match rfind_str(&name, ".") {
        Some(j) => if j > 0 {
            proof {
                reveal_strlit(".");
                crate::text::lemma_rfind_upto_bounds(name@, "."@, name@.len() - 1);
            }
            let s = slice_of(&name, 0, j);
            assert(s@ =~= name@.take(j as int));
            s
        } else {
            name
        },
        None => name,
    }
}

/// The chapter title: the file's heading, falling back to its file stem.
pub fn display_title(tree: &SrcTree, path: &str) -> (r: String)
    ensures
        r@ == spec_display_title(tree@, path@),
{
    match read_h1(tree, path) {
        Some(h) => h,
        None => {
            let p = chars_of(path);
            string_of(&file_stem_exec(&p))
        },
    }
}

/// The value of metadata `key` at the top of the file at `path`.
pub fn read_meta(tree: &SrcTree, path: &str, key: &str) -> (r: Option<String>)
    ensures
        opt_str_view(r) == spec_read_meta(tree@, path@, key@),
{
    match tree.read(path) {
        Some(c) => read_meta_str(c.as_str(), key),
        None => None,
    }
}

/// The topics a file declares with `<!-- topic: a, b -->`; none when absent.
pub fn read_topics(tree: &SrcTree, path: &str) -> (r: Vec<String>)
    ensures
        str_views(r@) == spec_read_topics(tree@, path@),
{
    match read_meta(tree, path, "topic") {
        Some(s) => split_topics(s.as_str()),
        None => {
            let v: Vec<String> = Vec::new();
            assert(str_views(v@) =~= Seq::<Seq<char>>::empty());
            v
        },
    }
}

/// The one-line description a file gives with `<!-- desc: ... -->`, if not empty.
pub fn read_desc(tree: &SrcTree, path: &str) -> (r: Option<String>)
    ensures
        opt_str_view(r) == spec_read_desc(tree@, path@),
{
    match read_meta(tree, path, "desc") {
        Some(s) => if !s.as_str().is_empty() {
            Some(s)
        } else {
            None
        },
        None => None,
    }
}

/// The link text for a topic index: `<!-- label: ... -->` when not empty,
/// else the chapter title.
pub fn index_label(tree: &SrcTree, path: &str) -> (r: String)
    ensures
        r@ == spec_index_label(tree@, path@),
{
    match read_meta(tree, path, "label") {
        Some(s) => if !s.as_str().is_empty() {
            s
        } else {
            display_title(tree, path)
        },
        None => display_title(tree, path),
    }
}

// ---------------------------------------------------------------------------
// Listings exist
// ---------------------------------------------------------------------------

/// `x` inserted into `s` before the first element it precedes.
pub open spec fn insert_key(s: Seq<Seq<char>>, x: Seq<char>) -> Seq<Seq<char>>
    decreases s.len(),
{
    if s.len() == 0 {
        seq![x]
    } else if key_lt(x, s[0]) {
        seq![x] + s
    } else {
        seq![s[0]] + insert_key(s.drop_first(), x)
    }
}

proof fn lemma_insert_key(s: Seq<Seq<char>>, x: Seq<char>)
    requires
        sorted_keys(s),
        !s.contains(x),
    ensures
        sorted_keys(insert_key(s, x)),
        forall|n: Seq<char>| #[trigger] insert_key(s, x).contains(n) <==> (s.contains(n) || n == x),
    decreases s.len(),
{
    let r = insert_key(s, x);
    if s.len() == 0 {
        assert(r =~= seq![x]);
        assert forall|n: Seq<char>| #[trigger] r.contains(n) <==> (s.contains(n) || n == x) by {
            if r.contains(n) {
                assert(r[0] == n);
            }
            if n == x {
                assert(r[0] == n);
            }
        }
    } else if key_lt(x, s[0]) {
        assert forall|a: int, b: int| 0 <= a < b < r.len() implies key_lt(r[a], r[b]) by {
            if a == 0 {
                if b > 1 {
                    lemma_key_order(x, s[0], s[b - 1]);
                    assert(key_lt(s[0], s[b - 1]));
                }
            } else {
                assert(r[a] == s[a - 1] && r[b] == s[b - 1]);
            }
        }
        assert forall|n: Seq<char>| #[trigger] r.contains(n) <==> (s.contains(n) || n == x) by {
            if r.contains(n) {
                let i = choose|i: int| 0 <= i < r.len() && r[i] == n;
                if i > 0 {
                    assert(s[i - 1] == n);
                }
            }
            if s.contains(n) {
                let i = choose|i: int| 0 <= i < s.len() && s[i] == n;
                assert(r[i + 1] == n);
            }
            if n == x {
                assert(r[0] == n);
            }
        }
    } else {
        let t = s.drop_first();
        assert(sorted_keys(t)) by {
            assert forall|a: int, b: int| 0 <= a < b < t.len() implies key_lt(t[a], t[b]) by {
                assert(t[a] == s[a + 1] && t[b] == s[b + 1]);
            }
        }
        assert(!t.contains(x)) by {
            if t.contains(x) {
                let i = choose|i: int| 0 <= i < t.len() && t[i] == x;
                assert(s[i + 1] == x);
            }
        }
        lemma_insert_key(t, x);
        let rt = insert_key(t, x);
        assert(r == seq![s[0]] + rt);
        assert(s[0] != x) by {
            assert(s.contains(s[0]));
        }
        lemma_key_order(s[0], x, x);
        assert forall|a: int, b: int| 0 <= a < b < r.len() implies key_lt(r[a], r[b]) by {
            if a == 0 {
                assert(r[b] == rt[b - 1]);
                assert(rt.contains(rt[b - 1]));
                if rt[b - 1] != x {
                    let i = choose|i: int| 0 <= i < t.len() && t[i] == rt[b - 1];
                    assert(key_lt(s[0], s[i + 1]));
                }
            } else {
                assert(r[a] == rt[a - 1] && r[b] == rt[b - 1]);
            }
        }
        assert forall|n: Seq<char>| #[trigger] r.contains(n) <==> (s.contains(n) || n == x) by {
            if r.contains(n) {
                let i = choose|i: int| 0 <= i < r.len() && r[i] == n;
                if i > 0 {
                    assert(rt[i - 1] == n);
                    assert(rt.contains(n));
                    if n != x {
                        let j = choose|j: int| 0 <= j < t.len() && t[j] == n;
                        assert(s[j + 1] == n);
                    }
                } else {
                    assert(s[0] == n);
                }
            }
            if s.contains(n) {
                let i = choose|i: int| 0 <= i < s.len() && s[i] == n;
                if i == 0 {
                    assert(r[0] == n);
                } else {
                    assert(t[i - 1] == n);
                    assert(rt.contains(n));
                    let j = choose|j: int| 0 <= j < rt.len() && rt[j] == n;
                    assert(r[j + 1] == n);
                }
            }
            if n == x {
                assert(rt.contains(x));
                let j = choose|j: int| 0 <= j < rt.len() && rt[j] == x;
                assert(r[j + 1] == x);
            }
        }
    }
}

/// The listed names of `dir` among the first `k` files, in listing order.
pub open spec fn listed_upto(t: TreeModel, dir: Seq<char>, k: int) -> Seq<Seq<char>>
    decreases k,
{
    if k <= 0 {
        Seq::empty()
    } else {
        let s = listed_upto(t, dir, k - 1);
        match crate::tree::child_name(dir, t.files[k - 1].0) {
            Some(n) => if listed(t, dir, n) && !s.contains(n) {
                insert_key(s, n)
            } else {
                s
            },
            None => s,
        }
    }
}

proof fn lemma_listed_upto(t: TreeModel, dir: Seq<char>, k: int)
    requires
        0 <= k <= t.files.len(),
    ensures
        sorted_keys(listed_upto(t, dir, k)),
        forall|n: Seq<char>|
            #[trigger] listed_upto(t, dir, k).contains(n) <==> (listed(t, dir, n) && exists|j: int|
                0 <= j < k && t.files[j].0 == join(dir, n)),
    decreases k,
{
    if k > 0 {
        lemma_listed_upto(t, dir, k - 1);
        let s = listed_upto(t, dir, k - 1);
        let f = t.files[k - 1].0;
        if let Some(n) = crate::tree::child_name(dir, f) {
            crate::tree::lemma_child_name(dir, f, n);
            if listed(t, dir, n) && !s.contains(n) {
                lemma_insert_key(s, n);
            }
        }
        assert forall|n: Seq<char>|
            #[trigger] listed_upto(t, dir, k).contains(n) <==> (listed(t, dir, n) && exists|j: int|
                0 <= j < k && t.files[j].0 == join(dir, n)) by {
            crate::tree::lemma_child_name(dir, f, n);
            if listed(t, dir, n) && f == join(dir, n) {
                assert(0 <= k - 1 < k && t.files[k - 1].0 == join(dir, n));
            }
            if listed(t, dir, n) && (exists|j: int| 0 <= j < k - 1 && t.files[j].0 == join(dir, n)) {
                let j = choose|j: int| 0 <= j < k - 1 && t.files[j].0 == join(dir, n);
                assert(0 <= j < k && t.files[j].0 == join(dir, n));
            }
            if listed(t, dir, n) && (exists|j: int| 0 <= j < k && t.files[j].0 == join(dir, n)) {
                let j = choose|j: int| 0 <= j < k && t.files[j].0 == join(dir, n);
                if j < k - 1 {
                    assert(s.contains(n));
                }
            }
        }
    }
}

/// Every directory has a listing: its listed names in listing order.
pub proof fn lemma_listing(t: TreeModel, dir: Seq<char>)
    ensures
        sorted_keys(listing(t, dir)),
        forall|n: Seq<char>| #[trigger] listing(t, dir).contains(n) <==> listed(t, dir, n),
{
    let k = t.files.len() as int;
    lemma_listed_upto(t, dir, k);
    let s = listed_upto(t, dir, k);
    assert forall|n: Seq<char>| #[trigger] s.contains(n) <==> listed(t, dir, n) by {
        if listed(t, dir, n) {
            let j = choose|j: int| 0 <= j < t.files.len() && t.files[j].0 == join(dir, n);
        }
    }
    assert(sorted_keys(s) && forall|n: Seq<char>| #[trigger] s.contains(n) <==> listed(t, dir, n));
}

/// Two snapshots that list the same names in a directory have the same listing of it.
pub proof fn lemma_listing_same(t: TreeModel, t2: TreeModel, dir: Seq<char>)
    requires
        forall|n: Seq<char>| listed(t, dir, n) == listed(t2, dir, n),
    ensures
        listing(t, dir) == listing(t2, dir),
{
    lemma_listing(t, dir);
    lemma_listing(t2, dir);
    assert forall|n: Seq<char>| listing(t, dir).contains(n) <==> listing(t2, dir).contains(n) by {
        assert(listed(t, dir, n) == listed(t2, dir, n));
    }
    lemma_sorted_unique(listing(t, dir), listing(t2, dir));
}

// ---------------------------------------------------------------------------
// Laws
// ---------------------------------------------------------------------------

proof fn lemma_distinct_topics(pieces: Seq<Seq<char>>, acc: Seq<Seq<char>>)
    requires
        distinct(acc),
        forall|k: int| 0 <= k < acc.len() ==> (#[trigger] acc[k]).len() > 0 && trim(acc[k]) == acc[k],
    ensures
        distinct(distinct_topics(pieces, acc)),
        forall|k: int|
            0 <= k < distinct_topics(pieces, acc).len() ==> (#[trigger] distinct_topics(pieces, acc)[k]).len()
                > 0 && trim(distinct_topics(pieces, acc)[k]) == distinct_topics(pieces, acc)[k],
    decreases pieces.len(),
{
    if pieces.len() > 0 {
        let t = trim(pieces[0]);
        if t.len() == 0 || acc.contains(t) {
            lemma_distinct_topics(pieces.drop_first(), acc);
        } else {
            let a2 = acc.push(t);
            crate::text::lemma_trim_idempotent(pieces[0]);
            assert forall|i: int, j: int| 0 <= i < a2.len() && 0 <= j < a2.len() && i != j implies a2[i] != a2[j] by {
                if i == acc.len() {
                    assert(acc.contains(a2[j]));
                } else if j == acc.len() {
                    assert(acc.contains(a2[i]));
                }
            }
            lemma_distinct_topics(pieces.drop_first(), a2);
        }
    }
}

/// The topics of a list are named once each, and none is blank or padded.
pub proof fn split_topics_are_clean(raw: Seq<char>)
    ensures
        distinct(spec_split_topics(raw)),
        forall|k: int|
            0 <= k < spec_split_topics(raw).len() ==> (#[trigger] spec_split_topics(raw)[k]).len() > 0
                && trim(spec_split_topics(raw)[k]) == spec_split_topics(raw)[k],
{
    lemma_distinct_topics(topic_pieces(raw, Seq::empty()), Seq::empty());
}

proof fn lemma_topics_members(pieces: Seq<Seq<char>>, acc: Seq<Seq<char>>)
    ensures
        forall|x: Seq<char>|
            #[trigger] distinct_topics(pieces, acc).contains(x) <==> acc.contains(x) || exists|i: int|
                0 <= i < pieces.len() && trim(#[trigger] pieces[i]) == x && x.len() > 0,
    decreases pieces.len(),
{
    if pieces.len() > 0 {
        let r = pieces.drop_first();
        let t = trim(pieces[0]);
        let next = if t.len() == 0 || acc.contains(t) {
            acc
        } else {
            acc.push(t)
        };
        lemma_topics_members(r, next);
        assert(distinct_topics(pieces, acc) == distinct_topics(r, next));
        assert forall|x: Seq<char>|
            #[trigger] distinct_topics(pieces, acc).contains(x) <==> acc.contains(x) || exists|i: int|
                0 <= i < pieces.len() && trim(#[trigger] pieces[i]) == x && x.len() > 0 by {
            assert(next.contains(x) <==> acc.contains(x) || (x == t && t.len() > 0 && !acc.contains(t))) by {
                if next.contains(x) && next != acc {
                    let k = choose|k: int| 0 <= k < next.len() && next[k] == x;
                    if k < acc.len() {
                        assert(acc[k] == x);
                    }
                }
                if acc.contains(x) && next != acc {
                    let k = choose|k: int| 0 <= k < acc.len() && acc[k] == x;
                    assert(next[k] == x);
                }
                if x == t && t.len() > 0 && !acc.contains(t) {
                    assert(next[acc.len() as int] == x);
                }
            }
            if exists|i: int| 0 <= i < r.len() && trim(#[trigger] r[i]) == x && x.len() > 0 {
                let i = choose|i: int| 0 <= i < r.len() && trim(#[trigger] r[i]) == x && x.len() > 0;
                assert(pieces[i + 1] == r[i]);
            }
            if x == t && t.len() > 0 {
                assert(trim(pieces[0]) == x);
            }
            if exists|i: int| 0 <= i < pieces.len() && trim(#[trigger] pieces[i]) == x && x.len() > 0 {
                let i = choose|i: int| 0 <= i < pieces.len() && trim(#[trigger] pieces[i]) == x && x.len() > 0;
                if i > 0 {
                    assert(r[i - 1] == pieces[i]);
                }
            }
        }
    }
}

proof fn lemma_pieces_no_sep(s: Seq<char>, cur: Seq<char>)
    requires
        forall|j: int| 0 <= j < cur.len() ==> !is_topic_sep(#[trigger] cur[j]),
    ensures
        forall|i: int, j: int|
            0 <= i < topic_pieces(s, cur).len() && 0 <= j < topic_pieces(s, cur)[i].len() ==> !is_topic_sep(
                #[trigger] topic_pieces(s, cur)[i][j],
            ),
    decreases s.len(),
{
    if s.len() == 0 {
        assert forall|i: int, j: int|
            0 <= i < topic_pieces(s, cur).len() && 0 <= j < topic_pieces(s, cur)[i].len() implies !is_topic_sep(
            #[trigger] topic_pieces(s, cur)[i][j],
        ) by {
            assert(topic_pieces(s, cur)[i] == cur);
        }
    } else {
        if is_topic_sep(s[0]) {
            lemma_pieces_no_sep(s.drop_first(), Seq::empty());
            let r = topic_pieces(s.drop_first(), Seq::empty());
            assert forall|i: int, j: int|
                0 <= i < topic_pieces(s, cur).len() && 0 <= j < topic_pieces(s, cur)[i].len() implies !is_topic_sep(
                #[trigger] topic_pieces(s, cur)[i][j],
            ) by {
                if i > 0 {
                    assert(topic_pieces(s, cur)[i] == r[i - 1]);
                } else {
                    assert(topic_pieces(s, cur)[i] == cur);
                }
            }
        } else {
            let c2 = cur.push(s[0]);
            assert forall|j: int| 0 <= j < c2.len() implies !is_topic_sep(#[trigger] c2[j]) by {
                if j < cur.len() {
                    assert(c2[j] == cur[j]);
                }
            }
            lemma_pieces_no_sep(s.drop_first(), c2);
            assert(topic_pieces(s, cur) == topic_pieces(s.drop_first(), c2));
        }
    }
}

/// The topics of a list are its pieces between commas (`,` or `，`),
/// trimmed, with the blank ones left out; each is named once.
pub proof fn split_topics_are_the_pieces(raw: Seq<char>)
    ensures
        forall|i: int, j: int|
            0 <= i < topic_pieces(raw, Seq::empty()).len() && 0 <= j < topic_pieces(raw, Seq::empty())[i].len()
                ==> !is_topic_sep(#[trigger] topic_pieces(raw, Seq::empty())[i][j]),
        forall|x: Seq<char>|
            #[trigger] spec_split_topics(raw).contains(x) <==> exists|i: int|
                0 <= i < topic_pieces(raw, Seq::empty()).len() && trim(#[trigger] topic_pieces(raw, Seq::empty())[i])
                    == x && x.len() > 0,
        distinct(spec_split_topics(raw)),
{
    lemma_pieces_no_sep(raw, Seq::empty());
    lemma_topics_members(topic_pieces(raw, Seq::empty()), Seq::empty());
    split_topics_are_clean(raw);
}

} // verus!
