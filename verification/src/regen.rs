//! Regenerating is idempotent.
//!
//! Writing the files that `plan` computes and planning again, from the
//! sidebar just written, gives the same files: the generator keeps the order
//! it wrote, so a second run changes nothing.
use vstd::prelude::*;

use crate::md::{
    excluded, file_name, lemma_listing_same, listed, listing, spec_display_title, spec_index_label,
    spec_read_desc, spec_read_h1, spec_read_meta, spec_read_topics,
};
use crate::gen::{
    all_problems, first_of, group_items, group_rows, groups_from, problems_from, topic_files,
    topic_index_text, topic_pages, topic_problems, with_topic,
};
use crate::meta::TopicIndexModel;
use crate::gen::{
    ItemModel, append_new, child_items, child_prefix, children_of, disk_children, disk_parents, entry_line,
    order_from, prior_parents, prior_under, scan_names, slashes, spec_scan,
};
use crate::md::spec_extract_link_path;
use crate::text::{contains, ends_with, find, find_from, has_char, occurs_at, rfind, rfind_upto, starts_with};
use crate::tree::{TreeModel, distinct, file_text, has_path, is_dir, join};

verus! {

// ---------------------------------------------------------------------------
// Writing files into a snapshot
// ---------------------------------------------------------------------------

/// `fs` holds a file at `p`.
pub open spec fn plans_path(fs: Seq<(Seq<char>, Seq<char>)>, p: Seq<char>) -> bool {
    exists|i: int| 0 <= i < fs.len() && fs[i].0 == p
}

/// `t2` is `t` with the files `fs` written: the same directories, the
/// written files present with their new text, every other file unchanged.
pub open spec fn written(t: TreeModel, t2: TreeModel, fs: Seq<(Seq<char>, Seq<char>)>) -> bool {
    &&& t2.dirs == t.dirs
    &&& forall|p: Seq<char>| #[trigger] has_path(t2, p) <==> (has_path(t, p) || plans_path(fs, p))
    &&& forall|i: int| 0 <= i < fs.len() ==> file_text(t2, #[trigger] fs[i].0) == Some(fs[i].1)
    &&& forall|p: Seq<char>| !plans_path(fs, p) ==> #[trigger] file_text(t2, p) == file_text(t, p)
}

/// Writing `fs` into `t` creates no directory, and adds no file that a
/// listing would show.
pub open spec fn safe_writes(t: TreeModel, fs: Seq<(Seq<char>, Seq<char>)>) -> bool {
    &&& forall|i: int, x: Seq<char>|
        0 <= i < fs.len() && #[trigger] starts_with(fs[i].0, x + seq!['/']) ==> is_dir(t, x)
    &&& forall|i: int, d: Seq<char>, n: Seq<char>|
        0 <= i < fs.len() && #[trigger] fs[i].0 == #[trigger] join(d, n) && !has_char(n, '/') ==> has_path(
            t,
            fs[i].0,
        ) || excluded(n)
}

/// A name without `/` is the last component of any join that ends in it.
pub proof fn lemma_join_name(d1: Seq<char>, n1: Seq<char>, d2: Seq<char>, n2: Seq<char>)
    requires
        !has_char(n1, '/'),
        !has_char(n2, '/'),
        join(d1, n1) == join(d2, n2),
    ensures
        n1 == n2,
{
    let x = join(d1, n1);
    if d1.len() == 0 && d2.len() > 0 {
        assert(x[d2.len() as int] == '/');
        assert(n1[d2.len() as int] == '/');
    } else if d1.len() > 0 && d2.len() == 0 {
        assert(x[d1.len() as int] == '/');
        assert(n2[d1.len() as int] == '/');
    } else if d1.len() > 0 && d2.len() > 0 {
        if n1.len() < n2.len() {
            let k = x.len() - n1.len() - 1;
            assert(x[k] == '/');
            assert(n2[k - (x.len() - n2.len())] == '/');
        } else if n2.len() < n1.len() {
            let k = x.len() - n2.len() - 1;
            assert(x[k] == '/');
            assert(n1[k - (x.len() - n1.len())] == '/');
        } else {
            assert(n1 =~= x.skip(x.len() - n1.len()));
            assert(n2 =~= x.skip(x.len() - n2.len()));
        }
    }
}

/// After safe writes, the same paths are directories and every directory
/// lists the same names.
pub proof fn lemma_same_dirs(t: TreeModel, t2: TreeModel, fs: Seq<(Seq<char>, Seq<char>)>)
    requires
        written(t, t2, fs),
        safe_writes(t, fs),
    ensures
        forall|x: Seq<char>| #[trigger] is_dir(t2, x) == is_dir(t, x),
        forall|d: Seq<char>, n: Seq<char>| #[trigger] listed(t2, d, n) == listed(t, d, n),
        forall|d: Seq<char>| #[trigger] listing(t2, d) == listing(t, d),
{
    assert forall|x: Seq<char>| #[trigger] is_dir(t2, x) == is_dir(t, x) by {
        if is_dir(t2, x) && !is_dir(t, x) {
            let p = choose|p: Seq<char>| has_path(t2, p) && starts_with(p, x + seq!['/']);
            assert(has_path(t2, p));
            if !has_path(t, p) {
                let i = choose|i: int| 0 <= i < fs.len() && fs[i].0 == p;
                assert(starts_with(fs[i].0, x + seq!['/']));
            }
        }
        if is_dir(t, x) && x.len() > 0 && !(exists|i: int| 0 <= i < t.dirs.len() && t.dirs[i] == x) && !(
        exists|i: int| 0 <= i < t.dirs.len() && starts_with(t.dirs[i], x + seq!['/'])) {
            let p = choose|p: Seq<char>| has_path(t, p) && starts_with(p, x + seq!['/']);
            assert(has_path(t2, p));
        }
    }
    assert forall|d: Seq<char>, n: Seq<char>| #[trigger] listed(t2, d, n) == listed(t, d, n) by {
        let w = join(d, n);
        if !has_char(n, '/') && has_path(t2, w) && !has_path(t, w) {
            let i = choose|i: int| 0 <= i < fs.len() && fs[i].0 == w;
            assert(fs[i].0 == join(d, n));
        }
    }
    assert forall|d: Seq<char>| #[trigger] listing(t2, d) == listing(t, d) by {
        assert forall|n: Seq<char>| listed(t, d, n) == listed(t2, d, n) by {
            assert(listed(t2, d, n) == listed(t, d, n));
        }
        lemma_listing_same(t, t2, d);
    }
}

/// Reading a file that is not written gives what it gave before.
pub proof fn lemma_same_reads(t: TreeModel, t2: TreeModel, fs: Seq<(Seq<char>, Seq<char>)>, p: Seq<char>)
    requires
        written(t, t2, fs),
        !plans_path(fs, p),
    ensures
        spec_read_h1(t2, p) == spec_read_h1(t, p),
        spec_display_title(t2, p) == spec_display_title(t, p),
        forall|k: Seq<char>| #[trigger] spec_read_meta(t2, p, k) == spec_read_meta(t, p, k),
        spec_read_topics(t2, p) == spec_read_topics(t, p),
        spec_read_desc(t2, p) == spec_read_desc(t, p),
        spec_index_label(t2, p) == spec_index_label(t, p),
{
    assert(file_text(t2, p) == file_text(t, p));
}

// ---------------------------------------------------------------------------
// Topic index pages read only their entries
// ---------------------------------------------------------------------------

/// No entry file of topic index `ti` is written.
pub open spec fn entries_kept(t: TreeModel, fs: Seq<(Seq<char>, Seq<char>)>, ti: TopicIndexModel) -> bool {
    forall|f: Seq<char>| #[trigger] listing(t, ti.dir).contains(f) ==> !plans_path(fs, join(ti.dir, f))
}

proof fn lemma_with_topic(
    t: TreeModel,
    t2: TreeModel,
    fs: Seq<(Seq<char>, Seq<char>)>,
    dir: Seq<char>,
    names: Seq<Seq<char>>,
    topic: Seq<char>,
)
    requires
        written(t, t2, fs),
        forall|k: int| 0 <= k < names.len() ==> !plans_path(fs, join(dir, #[trigger] names[k])),
    ensures
        with_topic(t2, dir, names, topic) == with_topic(t, dir, names, topic),
        forall|k: int|
            0 <= k < with_topic(t, dir, names, topic).len() ==> names.contains(
                #[trigger] with_topic(t, dir, names, topic)[k],
            ),
    decreases names.len(),
{
    if names.len() > 0 {
        let r = names.drop_first();
        assert forall|k: int| 0 <= k < r.len() implies !plans_path(fs, join(dir, #[trigger] r[k])) by {
            assert(r[k] == names[k + 1]);
        }
        lemma_with_topic(t, t2, fs, dir, r, topic);
        assert(!plans_path(fs, join(dir, names[0])));
        lemma_same_reads(t, t2, fs, join(dir, names[0]));
        let w = with_topic(t, dir, names, topic);
        let wr = with_topic(t, dir, r, topic);
        assert forall|k: int| 0 <= k < w.len() implies names.contains(#[trigger] w[k]) by {
            if spec_read_topics(t, join(dir, names[0])).contains(topic) {
                if k == 0 {
                    assert(names[0] == w[0]);
                } else {
                    assert(w[k] == wr[k - 1]);
                    assert(r.contains(w[k]));
                    let q = choose|q: int| 0 <= q < r.len() && r[q] == w[k];
                    assert(names[q + 1] == w[k]);
                }
            } else {
                assert(r.contains(w[k]));
                let q = choose|q: int| 0 <= q < r.len() && r[q] == w[k];
                assert(names[q + 1] == w[k]);
            }
        }
    }
}

proof fn lemma_problems_from(
    t: TreeModel,
    t2: TreeModel,
    fs: Seq<(Seq<char>, Seq<char>)>,
    ti: TopicIndexModel,
    names: Seq<Seq<char>>,
)
    requires
        written(t, t2, fs),
        forall|k: int| 0 <= k < names.len() ==> !plans_path(fs, join(ti.dir, #[trigger] names[k])),
    ensures
        problems_from(t2, ti, names) == problems_from(t, ti, names),
    decreases names.len(),
{
    if names.len() > 0 {
        let r = names.drop_first();
        assert forall|k: int| 0 <= k < r.len() implies !plans_path(fs, join(ti.dir, #[trigger] r[k])) by {
            assert(r[k] == names[k + 1]);
        }
        lemma_problems_from(t, t2, fs, ti, r);
        assert(!plans_path(fs, join(ti.dir, names[0])));
        lemma_same_reads(t, t2, fs, join(ti.dir, names[0]));
    }
}

proof fn lemma_group_rows(
    t: TreeModel,
    t2: TreeModel,
    fs: Seq<(Seq<char>, Seq<char>)>,
    ti: TopicIndexModel,
    items: Seq<Seq<char>>,
)
    requires
        written(t, t2, fs),
        forall|k: int| 0 <= k < items.len() ==> !plans_path(fs, join(ti.dir, #[trigger] items[k])),
    ensures
        group_rows(t2, ti, items) == group_rows(t, ti, items),
    decreases items.len(),
{
    if items.len() > 0 {
        let r = items.drop_first();
        assert forall|k: int| 0 <= k < r.len() implies !plans_path(fs, join(ti.dir, #[trigger] r[k])) by {
            assert(r[k] == items[k + 1]);
        }
        lemma_group_rows(t, t2, fs, ti, r);
        assert(!plans_path(fs, join(ti.dir, items[0])));
        lemma_same_reads(t, t2, fs, join(ti.dir, items[0]));
    }
}

proof fn lemma_topic_files(t: TreeModel, t2: TreeModel, fs: Seq<(Seq<char>, Seq<char>)>, ti: TopicIndexModel)
    requires
        written(t, t2, fs),
        topic_files(t2, ti) == topic_files(t, ti),
        entries_kept(t, fs, ti),
    ensures
        topic_files(t2, ti) == topic_files(t, ti),
        forall|k: int|
            0 <= k < topic_files(t, ti).len() ==> !plans_path(fs, join(ti.dir, #[trigger] topic_files(t, ti)[k])),
{
    let tf = topic_files(t, ti);
    assert forall|k: int| 0 <= k < tf.len() implies !plans_path(fs, join(ti.dir, #[trigger] tf[k])) by {
        assert(listing(t, ti.dir).contains(tf[k]));
    }
}

proof fn lemma_groups_from(
    t: TreeModel,
    t2: TreeModel,
    fs: Seq<(Seq<char>, Seq<char>)>,
    ti: TopicIndexModel,
    j: int,
)
    requires
        written(t, t2, fs),
        topic_files(t2, ti) == topic_files(t, ti),
        entries_kept(t, fs, ti),
    ensures
        groups_from(t2, ti, j) == groups_from(t, ti, j),
    decreases ti.topics.len() - j,
{
    if 0 <= j < ti.topics.len() {
        lemma_groups_from(t, t2, fs, ti, j + 1);
        lemma_topic_files(t, t2, fs, ti);
        let tf = topic_files(t, ti);
        if first_of(ti.topics, j) {
            lemma_with_topic(t, t2, fs, ti.dir, tf, ti.topics[j]);
            let items = with_topic(t, ti.dir, tf, ti.topics[j]);
            assert forall|k: int| 0 <= k < items.len() implies !plans_path(fs, join(ti.dir, #[trigger] items[k])) by {
                assert(tf.contains(items[k]));
                let q = choose|q: int| 0 <= q < tf.len() && tf[q] == items[k];
                assert(!plans_path(fs, join(ti.dir, tf[q])));
            }
            lemma_group_rows(t, t2, fs, ti, items);
        }
        assert(group_items(t2, ti, j) == group_items(t, ti, j));
    }
}

/// A topic index page reads only its entry files, so writing other files
/// does not change it, nor its problems.
proof fn lemma_topic_page(t: TreeModel, t2: TreeModel, fs: Seq<(Seq<char>, Seq<char>)>, ti: TopicIndexModel)
    requires
        written(t, t2, fs),
        topic_files(t2, ti) == topic_files(t, ti),
        entries_kept(t, fs, ti),
    ensures
        topic_index_text(t2, ti) == topic_index_text(t, ti),
        topic_problems(t2, ti) == topic_problems(t, ti),
{
    lemma_groups_from(t, t2, fs, ti, 0);
    lemma_topic_files(t, t2, fs, ti);
    lemma_problems_from(t, t2, fs, ti, topic_files(t, ti));
}

proof fn lemma_topic_pages(t: TreeModel, t2: TreeModel, fs: Seq<(Seq<char>, Seq<char>)>, tis: Seq<TopicIndexModel>)
    requires
        written(t, t2, fs),
        forall|k: int| 0 <= k < tis.len() ==> topic_files(t2, #[trigger] tis[k]) == topic_files(t, tis[k]),
        forall|k: int| 0 <= k < tis.len() ==> entries_kept(t, fs, #[trigger] tis[k]),
    ensures
        topic_pages(t2, tis) == topic_pages(t, tis),
        all_problems(t2, tis) == all_problems(t, tis),
    decreases tis.len(),
{
    if tis.len() > 0 {
        let r = tis.drop_first();
        assert forall|k: int| 0 <= k < r.len() implies entries_kept(t, fs, #[trigger] r[k]) by {
            assert(r[k] == tis[k + 1]);
        }
        assert forall|k: int| 0 <= k < r.len() implies topic_files(t2, #[trigger] r[k]) == topic_files(t, r[k]) by {
            assert(r[k] == tis[k + 1]);
        }
        assert(topic_files(t2, tis[0]) == topic_files(t, tis[0]));
        lemma_topic_pages(t, t2, fs, r);
        assert(entries_kept(t, fs, tis[0]));
        lemma_topic_page(t, t2, fs, tis[0]);
    }
}

// ---------------------------------------------------------------------------
// Reading links back from generated lines
// ---------------------------------------------------------------------------

/// `p` occurs nowhere in `s`.
pub open spec fn lacks(s: Seq<char>, p: Seq<char>) -> bool {
    forall|q: int| !#[trigger] occurs_at(s, p, q)
}

proof fn lemma_lacks(s: Seq<char>, p: Seq<char>)
    requires
        !contains(s, p),
    ensures
        lacks(s, p),
{
    crate::text::lemma_find_from_bounds(s, p, 0);
}

pub proof fn lemma_rfind_at(s: Seq<char>, p: Seq<char>, i: int, j: int)
    requires
        0 <= j <= i,
        occurs_at(s, p, j),
        forall|q: int| j < q <= i ==> !#[trigger] occurs_at(s, p, q),
    ensures
        rfind_upto(s, p, i) == Some(j),
    decreases i,
{
    if i > j {
        lemma_rfind_at(s, p, i - 1, j);
    }
}

proof fn lemma_find_at(s: Seq<char>, p: Seq<char>, i: int, j: int)
    requires
        0 <= i <= j,
        p.len() > 0,
        occurs_at(s, p, j),
        forall|q: int| i <= q < j ==> !#[trigger] occurs_at(s, p, q),
    ensures
        find_from(s, p, i) == Some(j),
    decreases j - i,
{
    if i < j {
        assert(!occurs_at(s, p, i));
        lemma_find_at(s, p, i + 1, j);
    }
}

/// The `)` that follows `p` closes a link opened before `p`: every `(` of
/// `p` is closed within `p`, and no `)` of `p` closes more than it opened.
pub open spec fn balanced(p: Seq<char>) -> bool {
    crate::text::close_paren(p + ")"@, 0, 1) == Some(p.len() as int)
}

/// Scanning for a closing `)` in a text after a prefix is scanning the text.
proof fn lemma_close_shift(a: Seq<char>, b: Seq<char>, j: int, d: int)
    requires
        0 <= j,
    ensures
        crate::text::close_paren(a + b, a.len() + j, d) == match crate::text::close_paren(b, j, d) {
            Some(k) => Some(a.len() + k),
            None => None::<int>,
        },
    decreases b.len() - j,
{
    if j < b.len() {
        assert((a + b)[a.len() + j] == b[j]);
        if b[j] == '(' {
            lemma_close_shift(a, b, j + 1, d + 1);
        } else if b[j] == ')' {
            if d != 1 {
                lemma_close_shift(a, b, j + 1, d - 1);
            }
        } else {
            lemma_close_shift(a, b, j + 1, d);
        }
    }
}

/// The `)` found by `close_paren` is a `)`.
proof fn lemma_close_is_paren(s: Seq<char>, j: int, d: int)
    ensures
        crate::text::close_paren(s, j, d) matches Some(k) ==> j <= k < s.len() && s[k] == ')',
    decreases s.len() - j,
{
    if 0 <= j < s.len() {
        if s[j] == '(' {
            lemma_close_is_paren(s, j + 1, d + 1);
        } else if s[j] == ')' {
            if d != 1 {
                lemma_close_is_paren(s, j + 1, d - 1);
            }
        } else {
            lemma_close_is_paren(s, j + 1, d);
        }
    }
}

/// A link path reads back unchanged: its parentheses balance, or it has
/// no `)`, so that the first `)` after it closes the link.
pub open spec fn reads_back(p: Seq<char>) -> bool {
    balanced(p) || !has_char(p, ')')
}

/// A path without parentheses is balanced.
proof fn lemma_no_parens_balanced(p: Seq<char>, j: int)
    requires
        0 <= j <= p.len(),
        !has_char(p, ')'),
        !has_char(p, '('),
    ensures
        crate::text::close_paren(p + ")"@, j, 1) == Some(p.len() as int),
    decreases p.len() - j,
{
    reveal_strlit(")");
    let e = p + ")"@;
    if j < p.len() {
        assert(e[j] == p[j]);
        lemma_no_parens_balanced(p, j + 1);
    } else {
        assert(e[j] == ')');
    }
}

/// In a line `head](./path)`, the last `](./` is the one after `head`.
proof fn lemma_link_start(head: Seq<char>, path: Seq<char>)
    requires
        lacks(path, "](./"@),
    ensures
        rfind(head + "](./"@ + path + ")"@, "](./"@) == Some(head.len() as int),
{
    reveal_strlit("](./");
    reveal_strlit(")");
    let p = "](./"@;
    let e = head + "](./"@ + path + ")"@;
    let pos: int = head.len() as int;
    assert(e.subrange(pos, pos + 4) =~= p);
    assert forall|q: int| pos < q <= e.len() - 4 implies !#[trigger] occurs_at(e, p, q) by {
        if occurs_at(e, p, q) {
            let w = e.subrange(q, q + 4);
            assert(w[0] == e[q]);
            if q <= pos + 3 {
                assert(e[q] != ']');
            } else if q + 4 <= pos + 4 + path.len() {
                assert(path.subrange(q - pos - 4, q - pos) =~= w);
                assert(occurs_at(path, p, q - pos - 4));
            } else {
                assert(w[3] == e[q + 3]);
                assert(e[q + 3] == ')');
            }
        }
    }
    lemma_rfind_at(e, p, e.len() - 4, pos);
}

/// A line `head](./path)` gives back its path.
pub proof fn lemma_extract_link(head: Seq<char>, path: Seq<char>)
    requires
        reads_back(path),
        lacks(path, "](./"@),
    ensures
        spec_extract_link_path(head + "](./"@ + path + ")"@) == Some(path),
{
    lemma_link_start(head, path);
    reveal_strlit("](./");
    reveal_strlit(")");
    let e = head + "](./"@ + path + ")"@;
    let a = head + "](./"@;
    let pos: int = head.len() as int;
    assert(e =~= a + (path + ")"@));
    assert(a.len() == pos + 4);
    lemma_close_shift(a, path + ")"@, 0, 1);
    assert(e.subrange(pos + 4, pos + 4 + path.len()) =~= path);
    if !balanced(path) {
        let q = path + ")"@;
        lemma_close_is_paren(q, 0, 1);
        if crate::text::close_paren(q, 0, 1) is Some {
            let k = crate::text::close_paren(q, 0, 1)->0;
            if k < path.len() {
                assert(q[k] == path[k]);
            }
        }
        assert(crate::text::close_paren(e, pos + 4, 1) is None);
        let c = ")"@;
        assert forall|x: int| pos + 4 <= x < pos + 4 + path.len() implies !#[trigger] occurs_at(e, c, x) by {
            if occurs_at(e, c, x) {
                assert(e.subrange(x, x + 1)[0] == e[x]);
                assert(e[x] == path[x - pos - 4]);
            }
        }
        assert(e.subrange(pos + 4 + path.len(), pos + 5 + path.len()) =~= c);
        lemma_find_at(e, c, pos + 4, pos + 4 + path.len());
    }
}

/// A generated link line gives back its path.
pub proof fn lemma_extract_entry(indent: Seq<char>, title: Seq<char>, path: Seq<char>)
    requires
        reads_back(path),
        lacks(path, "](./"@),
    ensures
        spec_extract_link_path(entry_line(indent, title, path)) == Some(path),
{
    reveal_strlit("- [");
    lemma_extract_link(indent + "- ["@ + title, path);
    assert(entry_line(indent, title, path) =~= indent + "- ["@ + title + "](./"@ + path + ")"@);
}

/// A line without `](./` links nothing.
pub proof fn lemma_extract_none(l: Seq<char>)
    requires
        lacks(l, "](./"@),
    ensures
        spec_extract_link_path(l) is None,
{
    reveal_strlit("](./");
    crate::text::lemma_rfind_upto_bounds(l, "](./"@, l.len() - 4);
}

/// A prefix of a text without `p` has no `p` either.
proof fn lemma_lacks_prefix(s: Seq<char>, p: Seq<char>, k: int)
    requires
        lacks(s, p),
        0 <= k <= s.len(),
    ensures
        lacks(s.take(k), p),
{
    assert forall|q: int| !#[trigger] occurs_at(s.take(k), p, q) by {
        if occurs_at(s.take(k), p, q) {
            assert(s.subrange(q, q + p.len()) =~= s.take(k).subrange(q, q + p.len()));
            assert(occurs_at(s, p, q));
        }
    }
}

// ---------------------------------------------------------------------------
// The order read back from the sidebar
// ---------------------------------------------------------------------------

/// The paths of a section that the lines `ls` link, in order, the section
/// page left out.
pub open spec fn picks(ls: Seq<Seq<char>>, prefix: Seq<char>, index_path: Seq<char>) -> Seq<Seq<char>>
    decreases ls.len(),
{
    if ls.len() == 0 {
        Seq::empty()
    } else {
        (match spec_extract_link_path(ls[0]) {
            Some(rel) => if starts_with(rel, prefix) && rel != index_path {
                seq![rel]
            } else {
                Seq::empty()
            },
            None => Seq::empty(),
        }) + picks(ls.drop_first(), prefix, index_path)
    }
}

proof fn lemma_order_picks(ls: Seq<Seq<char>>, prefix: Seq<char>, index_path: Seq<char>, acc: Seq<Seq<char>>)
    ensures
        order_from(ls, prefix, index_path, acc) == append_new(acc, picks(ls, prefix, index_path)),
    decreases ls.len(),
{
    if ls.len() > 0 {
        lemma_order_picks(ls.drop_first(), prefix, index_path, acc);
        let rest = picks(ls.drop_first(), prefix, index_path);
        match spec_extract_link_path(ls[0]) {
            Some(rel) => if starts_with(rel, prefix) && rel != index_path {
                let next = if acc.contains(rel) {
                    acc
                } else {
                    acc.push(rel)
                };
                lemma_order_picks(ls.drop_first(), prefix, index_path, next);
                let d = seq![rel] + rest;
                assert(picks(ls, prefix, index_path) == d);
                assert(d[0] == rel);
                assert(d.drop_first() =~= rest);
            } else {
                assert(picks(ls, prefix, index_path) =~= rest);
            },
            None => {
                assert(picks(ls, prefix, index_path) =~= rest);
            },
        }
    }
}

proof fn lemma_picks_concat(a: Seq<Seq<char>>, b: Seq<Seq<char>>, prefix: Seq<char>, index_path: Seq<char>)
    ensures
        picks(a + b, prefix, index_path) == picks(a, prefix, index_path) + picks(b, prefix, index_path),
    decreases a.len(),
{
    if a.len() == 0 {
        assert(a + b =~= b);
    } else {
        assert((a + b).drop_first() =~= a.drop_first() + b);
        assert((a + b)[0] == a[0]);
        lemma_picks_concat(a.drop_first(), b, prefix, index_path);
        let x = match spec_extract_link_path(a[0]) {
            Some(rel) => if starts_with(rel, prefix) && rel != index_path {
                seq![rel]
            } else {
                Seq::empty()
            },
            None => Seq::empty(),
        };
        assert(x + (picks(a.drop_first(), prefix, index_path) + picks(b, prefix, index_path)) =~= (x + picks(
            a.drop_first(),
            prefix,
            index_path,
        )) + picks(b, prefix, index_path));
    }
}

/// Lines that link the same things pick the same paths.
proof fn lemma_picks_same(a: Seq<Seq<char>>, b: Seq<Seq<char>>, prefix: Seq<char>, index_path: Seq<char>)
    requires
        a.len() == b.len(),
        forall|k: int| 0 <= k < a.len() ==> spec_extract_link_path(#[trigger] a[k]) == spec_extract_link_path(b[k]),
    ensures
        picks(a, prefix, index_path) == picks(b, prefix, index_path),
    decreases a.len(),
{
    if a.len() > 0 {
        assert(spec_extract_link_path(a[0]) == spec_extract_link_path(b[0]));
        assert forall|k: int| 0 <= k < a.drop_first().len() implies spec_extract_link_path(
            #[trigger] a.drop_first()[k],
        ) == spec_extract_link_path(b.drop_first()[k]) by {
            assert(a.drop_first()[k] == a[k + 1]);
            assert(b.drop_first()[k] == b[k + 1]);
        }
        lemma_picks_same(a.drop_first(), b.drop_first(), prefix, index_path);
    }
}

/// Lines that link nothing of the section pick nothing.
proof fn lemma_picks_none(a: Seq<Seq<char>>, prefix: Seq<char>, index_path: Seq<char>)
    requires
        forall|k: int|
            0 <= k < a.len() ==> (#[trigger] spec_extract_link_path(a[k]) matches Some(rel) ==> !starts_with(
                rel,
                prefix,
            ) || rel == index_path),
    ensures
        picks(a, prefix, index_path) == Seq::<Seq<char>>::empty(),
    decreases a.len(),
{
    if a.len() > 0 {
        assert(spec_extract_link_path(a[0]) matches Some(rel) ==> !starts_with(rel, prefix) || rel == index_path);
        assert forall|k: int| 0 <= k < a.drop_first().len() implies (#[trigger] spec_extract_link_path(
            a.drop_first()[k],
        ) matches Some(rel) ==> !starts_with(rel, prefix) || rel == index_path) by {
            assert(a.drop_first()[k] == a[k + 1]);
        }
        lemma_picks_none(a.drop_first(), prefix, index_path);
        assert(picks(a, prefix, index_path) =~= picks(a.drop_first(), prefix, index_path));
    }
}

/// Appending distinct new entries appends them all.
proof fn lemma_append_all(acc: Seq<Seq<char>>, f: Seq<Seq<char>>)
    requires
        distinct(f),
        forall|k: int| 0 <= k < f.len() ==> !acc.contains(#[trigger] f[k]),
    ensures
        append_new(acc, f) == acc + f,
    decreases f.len(),
{
    if f.len() == 0 {
        assert(acc + f =~= acc);
    } else {
        let a2 = acc.push(f[0]);
        let r = f.drop_first();
        assert(distinct(r)) by {
            assert forall|i: int, j: int| 0 <= i < r.len() && 0 <= j < r.len() && i != j implies r[i] != r[j] by {
                assert(r[i] == f[i + 1] && r[j] == f[j + 1]);
            }
        }
        assert forall|k: int| 0 <= k < r.len() implies !a2.contains(#[trigger] r[k]) by {
            assert(r[k] == f[k + 1]);
            assert(!acc.contains(f[k + 1]));
            if a2.contains(r[k]) {
                let i = choose|i: int| 0 <= i < a2.len() && a2[i] == r[k];
                if i < acc.len() {
                    assert(acc[i] == r[k]);
                } else {
                    assert(f[0] == f[k + 1]);
                }
            }
        }
        lemma_append_all(a2, r);
        assert(a2 + r =~= acc + f);
    }
}

// ---------------------------------------------------------------------------
// The shape of entry paths
// ---------------------------------------------------------------------------

/// A path that a link line gives back unchanged: balanced parentheses or
/// no `)`, no newline, no `](./`.
pub open spec fn clean(rel: Seq<char>) -> bool {
    reads_back(rel) && !has_char(rel, '\n') && !contains(rel, "](./"@)
}

proof fn lemma_slashes_concat(a: Seq<char>, b: Seq<char>)
    ensures
        slashes(a + b) == slashes(a) + slashes(b),
    decreases a.len(),
{
    if a.len() == 0 {
        assert(a + b =~= b);
    } else {
        assert((a + b).drop_first() =~= a.drop_first() + b);
        assert((a + b)[0] == a[0]);
        lemma_slashes_concat(a.drop_first(), b);
    }
}

proof fn lemma_slashes_zero(a: Seq<char>)
    ensures
        (slashes(a) == 0) == !has_char(a, '/'),
    decreases a.len(),
{
    if a.len() > 0 {
        lemma_slashes_zero(a.drop_first());
        if has_char(a.drop_first(), '/') {
            let i = choose|i: int| 0 <= i < a.drop_first().len() && a.drop_first()[i] == '/';
            assert(a[i + 1] == '/');
        }
        if has_char(a, '/') && a[0] != '/' {
            let i = choose|i: int| 0 <= i < a.len() && a[i] == '/';
            assert(a.drop_first()[i - 1] == '/');
        }
    }
}

pub proof fn lemma_slashes_prefix(x: Seq<char>, pre: Seq<char>)
    requires
        starts_with(x, pre),
    ensures
        slashes(pre) <= slashes(x),
{
    assert(x =~= pre + x.skip(pre.len() as int));
    lemma_slashes_concat(pre, x.skip(pre.len() as int));
}

/// `sec/name` with neither part holding `/` has one `/`.
proof fn lemma_slashes_join(a: Seq<char>, b: Seq<char>)
    requires
        !has_char(a, '/'),
        !has_char(b, '/'),
    ensures
        slashes(a + "/"@ + b) == 1,
        slashes(a + "/"@) == 1,
{
    reveal_strlit("/");
    lemma_slashes_zero(a);
    lemma_slashes_zero(b);
    lemma_slashes_concat(a, "/"@);
    lemma_slashes_concat(a + "/"@, b);
    assert("/"@.drop_first() =~= Seq::<char>::empty());
    assert(slashes(Seq::<char>::empty()) == 0);
    assert(slashes("/"@) == 1);
}

/// Trimming `.md` endings removes no `/`.
proof fn lemma_slashes_trim_md(x: Seq<char>)
    ensures
        slashes(crate::md::trim_end_matches(x, ".md"@)) == slashes(x),
        starts_with(x, crate::md::trim_end_matches(x, ".md"@)),
    decreases x.len(),
{
    reveal_strlit(".md");
    if ends_with(x, ".md"@) {
        let y = x.take(x.len() - 3);
        lemma_slashes_trim_md(y);
        assert(x =~= y + ".md"@);
        lemma_slashes_concat(y, ".md"@);
        lemma_slashes_zero(".md"@);
        assert(!has_char(".md"@, '/')) by {
            if has_char(".md"@, '/') {
                let i = choose|i: int| 0 <= i < 3 && ".md"@[i] == '/';
            }
        }
        let t = crate::md::trim_end_matches(y, ".md"@);
        assert(x.subrange(0, t.len() as int) =~= y.subrange(0, t.len() as int));
    } else {
        assert(x.subrange(0, x.len() as int) =~= x);
    }
}

/// Two prefixes `a/` and `b/` of one path with as many `/` in `a` as in `b` are equal.
proof fn lemma_same_dir_prefix(x: Seq<char>, a: Seq<char>, b: Seq<char>)
    requires
        starts_with(x, a + "/"@),
        starts_with(x, b + "/"@),
        slashes(a) == slashes(b),
    ensures
        a == b,
{
    reveal_strlit("/");
    let pa = a + "/"@;
    let pb = b + "/"@;
    if a.len() < b.len() {
        assert(x[a.len() as int] == pa[a.len() as int]);
        assert(b[a.len() as int] == pb[a.len() as int]);
        assert(b[a.len() as int] == '/');
        assert(starts_with(b, pa)) by {
            assert(b.subrange(0, pa.len() as int) =~= x.subrange(0, pa.len() as int));
        }
        lemma_slashes_prefix(b, pa);
        lemma_slashes_concat(a, "/"@);
        lemma_slashes_zero("/"@.drop_first());
    } else if b.len() < a.len() {
        assert(x[b.len() as int] == pb[b.len() as int]);
        assert(a[b.len() as int] == '/');
        assert(starts_with(a, pb)) by {
            assert(a.subrange(0, pb.len() as int) =~= x.subrange(0, pb.len() as int));
        }
        lemma_slashes_prefix(a, pb);
        lemma_slashes_concat(b, "/"@);
    } else {
        assert(a =~= x.subrange(0, a.len() as int));
        assert(b =~= x.subrange(0, b.len() as int));
    }
}

/// An entry of section `sec`: a page (depth 0, one `/`) or a page under a
/// parent (depth 1, two `/`), inside `sec/`.
pub open spec fn item_ok(it: ItemModel, sec: Seq<char>) -> bool {
    &&& it.depth <= 1
    &&& slashes(it.rel) == it.depth + 1
    &&& starts_with(it.rel, sec + "/"@)
    &&& it.rel != sec + "/index.md"@
}

/// A section page path has one `/`.
proof fn lemma_index_slashes(sec: Seq<char>)
    requires
        !has_char(sec, '/'),
    ensures
        slashes(sec + "/index.md"@) == 1,
{
    reveal_strlit("/index.md");
    reveal_strlit("index.md");
    reveal_strlit("/");
    assert("/index.md"@ =~= "/"@ + "index.md"@);
    assert(!has_char("index.md"@, '/')) by {
        if has_char("index.md"@, '/') {
            let i = choose|i: int| 0 <= i < 8 && "index.md"@[i] == '/';
        }
    }
    lemma_slashes_join(sec, "index.md"@);
    assert(sec + "/index.md"@ =~= sec + "/"@ + "index.md"@);
}

proof fn lemma_all_ok_concat(a: Seq<ItemModel>, b: Seq<ItemModel>, sec: Seq<char>)
    requires
        forall|j: int| 0 <= j < a.len() ==> item_ok(#[trigger] a[j], sec),
        forall|j: int| 0 <= j < b.len() ==> item_ok(#[trigger] b[j], sec),
    ensures
        forall|j: int| 0 <= j < (a + b).len() ==> item_ok(#[trigger] (a + b)[j], sec),
{
    assert forall|j: int| 0 <= j < (a + b).len() implies item_ok(#[trigger] (a + b)[j], sec) by {
        if j < a.len() {
            assert((a + b)[j] == a[j]);
        } else {
            assert((a + b)[j] == b[j - a.len()]);
        }
    }
}

proof fn lemma_prefix_of_join(sec: Seq<char>, rest: Seq<char>)
    ensures
        starts_with(sec + "/"@ + rest, sec + "/"@),
{
    assert((sec + "/"@ + rest).subrange(0, (sec + "/"@).len() as int) =~= sec + "/"@);
}

proof fn lemma_child_items_ok(sec: Seq<char>, stem: Seq<char>, cs: Seq<Seq<char>>)
    requires
        !has_char(sec, '/'),
        !has_char(stem, '/'),
        forall|k: int| 0 <= k < cs.len() ==> !has_char(#[trigger] cs[k], '/'),
    ensures
        forall|j: int|
            0 <= j < child_items(sec + "/"@ + stem, cs).len() ==> item_ok(
                #[trigger] child_items(sec + "/"@ + stem, cs)[j],
                sec,
            ),
    decreases cs.len(),
{
    let dir = sec + "/"@ + stem;
    if cs.len() > 0 {
        let r = cs.drop_first();
        assert forall|k: int| 0 <= k < r.len() implies !has_char(#[trigger] r[k], '/') by {
            assert(r[k] == cs[k + 1]);
        }
        lemma_child_items_ok(sec, stem, r);
        let it = ItemModel { rel: dir + "/"@ + cs[0], depth: 1 };
        lemma_slashes_join(sec, stem);
        lemma_slashes_join(Seq::<char>::empty(), cs[0]);
        assert(Seq::<char>::empty() + "/"@ + cs[0] =~= "/"@ + cs[0]);
        assert(dir + "/"@ + cs[0] =~= dir + ("/"@ + cs[0]));
        lemma_slashes_concat(dir, "/"@ + cs[0]);
        assert(it.rel =~= sec + "/"@ + (stem + "/"@ + cs[0]));
        lemma_prefix_of_join(sec, stem + "/"@ + cs[0]);
        lemma_index_slashes(sec);
        assert(item_ok(it, sec));
        lemma_all_ok_concat(seq![it], child_items(dir, r), sec);
    }
}

proof fn lemma_scan_names_ok(t: TreeModel, sec: Seq<char>, names: Seq<Seq<char>>)
    requires
        !has_char(sec, '/'),
        forall|k: int| 0 <= k < names.len() ==> !has_char(#[trigger] names[k], '/') && names[k] != "index.md"@,
    ensures
        forall|j: int| 0 <= j < scan_names(t, sec, names).len() ==> item_ok(#[trigger] scan_names(t, sec, names)[j], sec),
    decreases names.len(),
{
    if names.len() > 0 {
        let r = names.drop_first();
        assert forall|k: int| 0 <= k < r.len() implies !has_char(#[trigger] r[k], '/') && r[k] != "index.md"@ by {
            assert(r[k] == names[k + 1]);
        }
        lemma_scan_names_ok(t, sec, r);
        let name = names[0];
        let stem = crate::md::trim_end_matches(name, ".md"@);
        lemma_slashes_trim_md(name);
        lemma_slashes_zero(name);
        lemma_slashes_zero(stem);
        let sub = join(sec, stem);
        let children = if is_dir(t, sub) {
            child_items(sec + "/"@ + stem, listing(t, sub))
        } else {
            Seq::empty()
        };
        if is_dir(t, sub) {
            crate::md::lemma_listing(t, sub);
            let l = listing(t, sub);
            assert forall|k: int| 0 <= k < l.len() implies !has_char(#[trigger] l[k], '/') by {
                assert(l.contains(l[k]));
            }
            lemma_child_items_ok(sec, stem, l);
        }
        let it = ItemModel { rel: sec + "/"@ + name, depth: 0 };
        lemma_slashes_join(sec, name);
        lemma_prefix_of_join(sec, name);
        assert(it.rel != sec + "/index.md"@) by {
            reveal_strlit("/index.md");
            reveal_strlit("index.md");
            reveal_strlit("/");
            assert("/index.md"@ =~= "/"@ + "index.md"@);
            if it.rel == sec + "/index.md"@ {
                assert(name =~= it.rel.skip((sec.len() + 1) as int));
                assert(sec + "/index.md"@ =~= sec + "/"@ + "index.md"@);
                assert("index.md"@ =~= (sec + "/"@ + "index.md"@).skip((sec.len() + 1) as int));
            }
        }
        assert(item_ok(it, sec));
        lemma_all_ok_concat(seq![it], children, sec);
        lemma_all_ok_concat(seq![it] + children, scan_names(t, sec, r), sec);
    }
}

/// Every entry that `scan` finds is a page or a page under a parent, inside the section.
pub proof fn lemma_scan_ok(t: TreeModel, sec: Seq<char>)
    requires
        !has_char(sec, '/'),
    ensures
        forall|j: int| 0 <= j < spec_scan(t, sec).len() ==> item_ok(#[trigger] spec_scan(t, sec)[j], sec),
{
    if is_dir(t, sec) {
        crate::md::lemma_listing(t, sec);
        let l = listing(t, sec);
        assert forall|k: int| 0 <= k < l.len() implies !has_char(#[trigger] l[k], '/') && l[k] != "index.md"@ by {
            assert(l.contains(l[k]));
            assert(listed(t, sec, l[k]));
        }
        lemma_scan_names_ok(t, sec, l);
    }
}

// ---------------------------------------------------------------------------
// The paths of one section's block
// ---------------------------------------------------------------------------

/// The paths of a section's sidebar block in order: each parent, then its children.
pub open spec fn block_paths(on_disk: Seq<ItemModel>, prior: Seq<Seq<char>>, ps: Seq<Seq<char>>) -> Seq<Seq<char>>
    decreases ps.len(),
{
    if ps.len() == 0 {
        Seq::empty()
    } else {
        seq![ps[0]] + children_of(on_disk, prior, ps[0]).0 + block_paths(on_disk, prior, ps.drop_first())
    }
}

/// The children written under parent `q`.
pub open spec fn kids(on_disk: Seq<ItemModel>, prior: Seq<Seq<char>>, q: Seq<char>) -> Seq<Seq<char>> {
    children_of(on_disk, prior, q).0
}

/// What the block of the parents `ps` needs: distinct parents with one `/`
/// and distinct child prefixes, each parent's children distinct, with two
/// `/`, under its prefix.
pub open spec fn parents_ok(on_disk: Seq<ItemModel>, prior: Seq<Seq<char>>, ps: Seq<Seq<char>>) -> bool {
    &&& distinct(ps)
    &&& forall|k: int| 0 <= k < ps.len() ==> slashes(#[trigger] ps[k]) == 1
    &&& forall|k: int, j: int|
        0 <= k < ps.len() && 0 <= j < ps.len() && k != j ==> child_prefix(#[trigger] ps[k]) != child_prefix(
            #[trigger] ps[j],
        )
    &&& forall|k: int| 0 <= k < ps.len() ==> distinct(kids(on_disk, prior, #[trigger] ps[k]))
    &&& forall|k: int, x: Seq<char>|
        0 <= k < ps.len() && #[trigger] kids(on_disk, prior, ps[k]).contains(x) ==> slashes(x) == 2
            && starts_with(x, child_prefix(#[trigger] ps[k]))
}

proof fn lemma_parents_ok_rest(on_disk: Seq<ItemModel>, prior: Seq<Seq<char>>, ps: Seq<Seq<char>>)
    requires
        parents_ok(on_disk, prior, ps),
        ps.len() > 0,
    ensures
        parents_ok(on_disk, prior, ps.drop_first()),
{
    let r = ps.drop_first();
    assert forall|k: int| 0 <= k < r.len() implies r[k] == ps[k + 1] by {}
    assert(distinct(r)) by {
        assert forall|i: int, j: int| 0 <= i < r.len() && 0 <= j < r.len() && i != j implies r[i] != r[j] by {
            assert(r[i] == ps[i + 1] && r[j] == ps[j + 1]);
        }
    }
    assert forall|k: int| 0 <= k < r.len() implies slashes(#[trigger] r[k]) == 1 by {
        assert(r[k] == ps[k + 1]);
    }
    assert forall|k: int, j: int|
        0 <= k < r.len() && 0 <= j < r.len() && k != j implies child_prefix(#[trigger] r[k]) != child_prefix(
        #[trigger] r[j],
    ) by {
        assert(r[k] == ps[k + 1] && r[j] == ps[j + 1]);
    }
    assert forall|k: int| 0 <= k < r.len() implies distinct(kids(on_disk, prior, #[trigger] r[k])) by {
        assert(r[k] == ps[k + 1]);
    }
    assert forall|k: int, x: Seq<char>|
        0 <= k < r.len() && #[trigger] kids(on_disk, prior, r[k]).contains(x) implies slashes(x) == 2
        && starts_with(x, child_prefix(#[trigger] r[k])) by {
        assert(r[k] == ps[k + 1]);
    }
}

proof fn lemma_prior_parents_concat(a: Seq<Seq<char>>, b: Seq<Seq<char>>)
    ensures
        prior_parents(a + b) == prior_parents(a) + prior_parents(b),
    decreases a.len(),
{
    if a.len() == 0 {
        assert(a + b =~= b);
    } else {
        assert((a + b).drop_first() =~= a.drop_first() + b);
        assert((a + b)[0] == a[0]);
        lemma_prior_parents_concat(a.drop_first(), b);
        if slashes(a[0]) == 1 {
            assert(seq![a[0]] + (prior_parents(a.drop_first()) + prior_parents(b)) =~= (seq![a[0]]
                + prior_parents(a.drop_first())) + prior_parents(b));
        }
    }
}

proof fn lemma_prior_under_concat(a: Seq<Seq<char>>, b: Seq<Seq<char>>, pre: Seq<char>)
    ensures
        prior_under(a + b, pre) == prior_under(a, pre) + prior_under(b, pre),
    decreases a.len(),
{
    if a.len() == 0 {
        assert(a + b =~= b);
    } else {
        assert((a + b).drop_first() =~= a.drop_first() + b);
        assert((a + b)[0] == a[0]);
        lemma_prior_under_concat(a.drop_first(), b, pre);
        if starts_with(a[0], pre) {
            assert(seq![a[0]] + (prior_under(a.drop_first(), pre) + prior_under(b, pre)) =~= (seq![a[0]]
                + prior_under(a.drop_first(), pre)) + prior_under(b, pre));
        }
    }
}

/// Keeping the elements with one `/` of a list whose elements all have two keeps none.
proof fn lemma_prior_parents_none(a: Seq<Seq<char>>)
    requires
        forall|x: Seq<char>| #[trigger] a.contains(x) ==> slashes(x) == 2,
    ensures
        prior_parents(a) == Seq::<Seq<char>>::empty(),
    decreases a.len(),
{
    if a.len() > 0 {
        assert(a.contains(a[0]));
        assert forall|x: Seq<char>| #[trigger] a.drop_first().contains(x) implies slashes(x) == 2 by {
            let i = choose|i: int| 0 <= i < a.drop_first().len() && a.drop_first()[i] == x;
            assert(a[i + 1] == x);
            assert(a.contains(x));
        }
        lemma_prior_parents_none(a.drop_first());
    }
}

proof fn lemma_prior_under_all(a: Seq<Seq<char>>, pre: Seq<char>)
    requires
        forall|x: Seq<char>| #[trigger] a.contains(x) ==> starts_with(x, pre),
    ensures
        prior_under(a, pre) == a,
    decreases a.len(),
{
    if a.len() > 0 {
        assert(a.contains(a[0]));
        assert forall|x: Seq<char>| #[trigger] a.drop_first().contains(x) implies starts_with(x, pre) by {
            let i = choose|i: int| 0 <= i < a.drop_first().len() && a.drop_first()[i] == x;
            assert(a[i + 1] == x);
            assert(a.contains(x));
        }
        lemma_prior_under_all(a.drop_first(), pre);
        assert(a =~= seq![a[0]] + a.drop_first());
    }
}

proof fn lemma_prior_under_none(a: Seq<Seq<char>>, pre: Seq<char>)
    requires
        forall|x: Seq<char>| #[trigger] a.contains(x) ==> !starts_with(x, pre),
    ensures
        prior_under(a, pre) == Seq::<Seq<char>>::empty(),
    decreases a.len(),
{
    if a.len() > 0 {
        assert(a.contains(a[0]));
        assert forall|x: Seq<char>| #[trigger] a.drop_first().contains(x) implies !starts_with(x, pre) by {
            let i = choose|i: int| 0 <= i < a.drop_first().len() && a.drop_first()[i] == x;
            assert(a[i + 1] == x);
            assert(a.contains(x));
        }
        lemma_prior_under_none(a.drop_first(), pre);
    }
}

/// A parent's child prefix has two `/`.
pub proof fn lemma_child_prefix_slashes(q: Seq<char>)
    requires
        slashes(q) == 1,
    ensures
        slashes(child_prefix(q)) == 2,
        slashes(crate::md::trim_end_matches(q, ".md"@)) == 1,
{
    reveal_strlit("/");
    lemma_slashes_trim_md(q);
    lemma_slashes_concat(crate::md::trim_end_matches(q, ".md"@), "/"@);
    assert("/"@.drop_first() =~= Seq::<char>::empty());
    assert(slashes(Seq::<char>::empty()) == 0);
    assert(slashes("/"@) == 1);
}

/// The parents of a block are its elements with one `/`.
pub proof fn lemma_block_parents(on_disk: Seq<ItemModel>, prior: Seq<Seq<char>>, ps: Seq<Seq<char>>)
    requires
        parents_ok(on_disk, prior, ps),
    ensures
        prior_parents(block_paths(on_disk, prior, ps)) == ps,
    decreases ps.len(),
{
    if ps.len() > 0 {
        lemma_parents_ok_rest(on_disk, prior, ps);
        lemma_block_parents(on_disk, prior, ps.drop_first());
        let q = ps[0];
        let cs = kids(on_disk, prior, q);
        assert forall|x: Seq<char>| #[trigger] cs.contains(x) implies slashes(x) == 2 by {
            assert(kids(on_disk, prior, ps[0]).contains(x));
        }
        lemma_prior_parents_none(cs);
        lemma_prior_parents_concat(seq![q], cs);
        lemma_prior_parents_concat(seq![q] + cs, block_paths(on_disk, prior, ps.drop_first()));
        assert(slashes(ps[0]) == 1);
        assert(seq![q].drop_first() =~= Seq::<Seq<char>>::empty());
        assert(prior_parents(Seq::<Seq<char>>::empty()) == Seq::<Seq<char>>::empty());
        assert(prior_parents(seq![q]) =~= seq![q]);
        assert(ps =~= seq![q] + ps.drop_first());
    }
}

/// Under a parent's prefix, a block holds exactly that parent's children.
pub proof fn lemma_block_under(on_disk: Seq<ItemModel>, prior: Seq<Seq<char>>, ps: Seq<Seq<char>>, p: Seq<char>)
    requires
        parents_ok(on_disk, prior, ps),
        slashes(p) == 1,
        forall|k: int| 0 <= k < ps.len() && child_prefix(#[trigger] ps[k]) == child_prefix(p) ==> ps[k] == p,
    ensures
        prior_under(block_paths(on_disk, prior, ps), child_prefix(p)) == if ps.contains(p) {
            kids(on_disk, prior, p)
        } else {
            Seq::<Seq<char>>::empty()
        },
    decreases ps.len(),
{
    lemma_child_prefix_slashes(p);
    if ps.len() == 0 {
    } else {
        lemma_parents_ok_rest(on_disk, prior, ps);
        let r = ps.drop_first();
        assert forall|k: int| 0 <= k < r.len() && child_prefix(#[trigger] r[k]) == child_prefix(p) implies r[k] == p by {
            assert(r[k] == ps[k + 1]);
        }
        lemma_block_under(on_disk, prior, r, p);
        let q = ps[0];
        let cs = kids(on_disk, prior, q);
        let rest = block_paths(on_disk, prior, r);
        lemma_prior_under_concat(seq![q], cs, child_prefix(p));
        lemma_prior_under_concat(seq![q] + cs, rest, child_prefix(p));
        assert(slashes(ps[0]) == 1);
        if starts_with(q, child_prefix(p)) {
            lemma_slashes_prefix(q, child_prefix(p));
        }
        assert(seq![q].drop_first() =~= Seq::<Seq<char>>::empty());
        assert(prior_under(Seq::<Seq<char>>::empty(), child_prefix(p)) == Seq::<Seq<char>>::empty());
        assert(prior_under(seq![q], child_prefix(p)) =~= Seq::<Seq<char>>::empty());
        lemma_child_prefix_slashes(q);
        if q == p {
            assert forall|x: Seq<char>| #[trigger] cs.contains(x) implies starts_with(x, child_prefix(p)) by {
                assert(kids(on_disk, prior, ps[0]).contains(x));
            }
            lemma_prior_under_all(cs, child_prefix(p));
            assert(!r.contains(p)) by {
                if r.contains(p) {
                    let i = choose|i: int| 0 <= i < r.len() && r[i] == p;
                    assert(ps[i + 1] == ps[0]);
                }
            }
        } else {
            assert(child_prefix(q) != child_prefix(p));
            assert forall|x: Seq<char>| #[trigger] cs.contains(x) implies !starts_with(x, child_prefix(p)) by {
                assert(kids(on_disk, prior, ps[0]).contains(x));
                assert(starts_with(x, child_prefix(q)));
                if starts_with(x, child_prefix(p)) {
                    lemma_same_dir_prefix(
                        x,
                        crate::md::trim_end_matches(q, ".md"@),
                        crate::md::trim_end_matches(p, ".md"@),
                    );
                }
            }
            lemma_prior_under_none(cs, child_prefix(p));
            assert(ps.contains(p) == r.contains(p)) by {
                if r.contains(p) {
                    let i = choose|i: int| 0 <= i < r.len() && r[i] == p;
                    assert(ps[i + 1] == p);
                }
                if ps.contains(p) {
                    let i = choose|i: int| 0 <= i < ps.len() && ps[i] == p;
                    assert(i != 0);
                    assert(r[i - 1] == p);
                }
            }
        }
    }
}

proof fn lemma_distinct_concat(a: Seq<Seq<char>>, b: Seq<Seq<char>>)
    requires
        distinct(a),
        distinct(b),
        forall|x: Seq<char>| #[trigger] a.contains(x) ==> !b.contains(x),
    ensures
        distinct(a + b),
        forall|x: Seq<char>| #[trigger] (a + b).contains(x) <==> (a.contains(x) || b.contains(x)),
{
    let c = a + b;
    assert forall|i: int, j: int| 0 <= i < c.len() && 0 <= j < c.len() && i != j implies c[i] != c[j] by {
        if i < a.len() && j >= a.len() {
            assert(a.contains(c[i]));
            assert(b[j - a.len()] == c[j]);
            if c[i] == c[j] {
                assert(b.contains(c[j]));
            }
        } else if j < a.len() && i >= a.len() {
            assert(a.contains(c[j]));
            assert(b[i - a.len()] == c[i]);
            if c[i] == c[j] {
                assert(b.contains(c[i]));
            }
        } else if i >= a.len() && j >= a.len() {
            assert(c[i] == b[i - a.len()] && c[j] == b[j - a.len()]);
        }
    }
    assert forall|x: Seq<char>| #[trigger] (a + b).contains(x) <==> (a.contains(x) || b.contains(x)) by {
        if (a + b).contains(x) {
            let i = choose|i: int| 0 <= i < c.len() && c[i] == x;
            if i >= a.len() {
                assert(b[i - a.len()] == x);
            }
        }
        if a.contains(x) {
            let i = choose|i: int| 0 <= i < a.len() && a[i] == x;
            assert(c[i] == x);
        }
        if b.contains(x) {
            let i = choose|i: int| 0 <= i < b.len() && b[i] == x;
            assert(c[i + a.len()] == x);
        }
    }
}

/// A block names each path once: every element is a parent or a child of one.
pub proof fn lemma_block_distinct(on_disk: Seq<ItemModel>, prior: Seq<Seq<char>>, ps: Seq<Seq<char>>)
    requires
        parents_ok(on_disk, prior, ps),
    ensures
        distinct(block_paths(on_disk, prior, ps)),
        forall|x: Seq<char>|
            #[trigger] block_paths(on_disk, prior, ps).contains(x) ==> ps.contains(x) || exists|k: int|
                0 <= k < ps.len() && kids(on_disk, prior, ps[k]).contains(x),
    decreases ps.len(),
{
    if ps.len() > 0 {
        lemma_parents_ok_rest(on_disk, prior, ps);
        let r = ps.drop_first();
        lemma_block_distinct(on_disk, prior, r);
        let q = ps[0];
        let cs = kids(on_disk, prior, q);
        let rest = block_paths(on_disk, prior, r);
        assert(slashes(ps[0]) == 1);
        lemma_child_prefix_slashes(q);
        assert(distinct(seq![q])) by {
            assert forall|i: int, j: int| 0 <= i < 1 && 0 <= j < 1 && i != j implies seq![q][i] != seq![q][j] by {}
        }
        assert(distinct(cs)) by {
            assert(distinct(kids(on_disk, prior, ps[0])));
        }
        assert forall|x: Seq<char>| #[trigger] seq![q].contains(x) implies !cs.contains(x) by {
            assert(seq![q][0] == x);
            if cs.contains(x) {
                assert(kids(on_disk, prior, ps[0]).contains(x));
            }
        }
        lemma_distinct_concat(seq![q], cs);
        let head = seq![q] + cs;
        assert forall|x: Seq<char>| #[trigger] head.contains(x) implies !rest.contains(x) by {
            if rest.contains(x) {
                if r.contains(x) {
                    let i = choose|i: int| 0 <= i < r.len() && r[i] == x;
                    assert(slashes(r[i]) == 1);
                    assert(ps[i + 1] == x);
                    if x == q {
                        assert(ps[0] == ps[i + 1]);
                    } else {
                        assert(cs.contains(x));
                        assert(kids(on_disk, prior, ps[0]).contains(x));
                    }
                } else {
                    let k = choose|k: int| 0 <= k < r.len() && kids(on_disk, prior, r[k]).contains(x);
                    assert(r[k] == ps[k + 1]);
                    assert(kids(on_disk, prior, ps[k + 1]).contains(x));
                    assert(slashes(x) == 2 && starts_with(x, child_prefix(ps[k + 1])));
                    if x == q {
                    } else {
                        assert(cs.contains(x));
                        assert(kids(on_disk, prior, ps[0]).contains(x));
                        assert(starts_with(x, child_prefix(ps[0])));
                        assert(child_prefix(ps[0]) != child_prefix(ps[k + 1]));
                        lemma_child_prefix_slashes(ps[k + 1]);
                        lemma_same_dir_prefix(
                            x,
                            crate::md::trim_end_matches(ps[0], ".md"@),
                            crate::md::trim_end_matches(ps[k + 1], ".md"@),
                        );
                    }
                }
            }
        }
        lemma_distinct_concat(head, rest);
        assert(block_paths(on_disk, prior, ps) == head + rest);
        assert forall|x: Seq<char>|
            #[trigger] block_paths(on_disk, prior, ps).contains(x) implies ps.contains(x) || exists|k: int|
                0 <= k < ps.len() && kids(on_disk, prior, ps[k]).contains(x) by {
            if x == q {
                assert(ps[0] == x);
            } else if cs.contains(x) {
                assert(kids(on_disk, prior, ps[0]).contains(x));
            } else {
                assert(rest.contains(x));
                if r.contains(x) {
                    let i = choose|i: int| 0 <= i < r.len() && r[i] == x;
                    assert(ps[i + 1] == x);
                } else {
                    let k = choose|k: int| 0 <= k < r.len() && kids(on_disk, prior, r[k]).contains(x);
                    assert(r[k] == ps[k + 1]);
                }
            }
        }
    }
}

// ---------------------------------------------------------------------------
// What a section's lines link
// ---------------------------------------------------------------------------

pub proof fn lemma_disk_parents_from(on_disk: Seq<ItemModel>)
    ensures
        forall|x: Seq<char>|
            #[trigger] disk_parents(on_disk).contains(x) ==> exists|j: int|
                0 <= j < on_disk.len() && on_disk[j].depth == 0 && on_disk[j].rel == x,
    decreases on_disk.len(),
{
    if on_disk.len() > 0 {
        let r = on_disk.drop_first();
        lemma_disk_parents_from(r);
        assert forall|x: Seq<char>|
            #[trigger] disk_parents(on_disk).contains(x) implies exists|j: int|
                0 <= j < on_disk.len() && on_disk[j].depth == 0 && on_disk[j].rel == x by {
            let d = disk_parents(on_disk);
            let i = choose|i: int| 0 <= i < d.len() && d[i] == x;
            if on_disk[0].depth == 0 && i == 0 {
                assert(on_disk[0].rel == x);
            } else {
                let dr = disk_parents(r);
                if on_disk[0].depth == 0 {
                    assert(dr[i - 1] == x);
                } else {
                    assert(dr[i] == x);
                }
                assert(dr.contains(x));
                let j = choose|j: int| 0 <= j < r.len() && r[j].depth == 0 && r[j].rel == x;
                assert(on_disk[j + 1] == r[j]);
            }
        }
    }
}

pub proof fn lemma_disk_children_from(on_disk: Seq<ItemModel>, pre: Seq<char>)
    ensures
        forall|x: Seq<char>|
            #[trigger] disk_children(on_disk, pre).contains(x) ==> starts_with(x, pre) && exists|j: int|
                0 <= j < on_disk.len() && on_disk[j].depth == 1 && on_disk[j].rel == x,
    decreases on_disk.len(),
{
    if on_disk.len() > 0 {
        let r = on_disk.drop_first();
        lemma_disk_children_from(r, pre);
        assert forall|x: Seq<char>|
            #[trigger] disk_children(on_disk, pre).contains(x) implies starts_with(x, pre) && exists|j: int|
                0 <= j < on_disk.len() && on_disk[j].depth == 1 && on_disk[j].rel == x by {
            let d = disk_children(on_disk, pre);
            let i = choose|i: int| 0 <= i < d.len() && d[i] == x;
            let here = on_disk[0].depth == 1 && starts_with(on_disk[0].rel, pre);
            if here && i == 0 {
                assert(on_disk[0].rel == x);
            } else {
                let dr = disk_children(r, pre);
                if here {
                    assert(dr[i - 1] == x);
                } else {
                    assert(dr[i] == x);
                }
                assert(dr.contains(x));
                let j = choose|j: int| 0 <= j < r.len() && r[j].depth == 1 && r[j].rel == x;
                assert(on_disk[j + 1] == r[j]);
            }
        }
    }
}

/// The children written under `q` are children on disk under its prefix.
pub proof fn lemma_kids_from(on_disk: Seq<ItemModel>, prior: Seq<Seq<char>>, q: Seq<char>)
    ensures
        forall|x: Seq<char>|
            #[trigger] kids(on_disk, prior, q).contains(x) ==> disk_children(on_disk, child_prefix(q)).contains(x),
{
    let dc = disk_children(on_disk, child_prefix(q));
    if dc.len() > 0 {
        crate::gen::merge_keeps_disk_entries(prior_under(prior, child_prefix(q)), dc);
    }
}

// ---------------------------------------------------------------------------
// Characters of generated lines
// ---------------------------------------------------------------------------

proof fn lemma_no_char_concat(a: Seq<char>, b: Seq<char>, c: char)
    requires
        !has_char(a, c),
        !has_char(b, c),
    ensures
        !has_char(a + b, c),
{
    if has_char(a + b, c) {
        let i = choose|i: int| 0 <= i < (a + b).len() && (a + b)[i] == c;
        if i < a.len() {
            assert(a[i] == c);
        } else {
            assert(b[i - a.len()] == c);
        }
    }
}

proof fn lemma_no_char_sub(s: Seq<char>, lo: int, hi: int, c: char)
    requires
        !has_char(s, c),
        0 <= lo <= hi <= s.len(),
    ensures
        !has_char(s.subrange(lo, hi), c),
{
    if has_char(s.subrange(lo, hi), c) {
        let i = choose|i: int| 0 <= i < s.subrange(lo, hi).len() && s.subrange(lo, hi)[i] == c;
        assert(s[lo + i] == c);
    }
}

proof fn lemma_no_char_trim(s: Seq<char>, c: char)
    requires
        !has_char(s, c),
    ensures
        !has_char(crate::text::trim(s), c),
{
    let a = crate::text::trim_start(s);
    crate::text::lemma_trim_start_suffix(s);
    lemma_no_char_sub(s, s.len() - a.len(), s.len() as int, c);
    assert(a =~= s.subrange(s.len() - a.len(), s.len() as int));
    crate::text::lemma_trim_end_prefix(a);
    let b = crate::text::trim_end(a);
    lemma_no_char_sub(a, 0, b.len() as int, c);
    assert(b =~= a.subrange(0, b.len() as int));
}

/// A heading read from lines without a newline has none.
proof fn lemma_h1_clean(ls: Seq<Seq<char>>)
    requires
        forall|k: int| 0 <= k < ls.len() ==> !has_char(#[trigger] ls[k], '\n'),
    ensures
        crate::md::h1_from(ls) matches Some(h) ==> !has_char(h, '\n'),
    decreases ls.len(),
{
    if ls.len() > 0 {
        let l = crate::text::trim(ls[0]);
        lemma_no_char_trim(ls[0], '\n');
        if starts_with(l, "# "@) {
            reveal_strlit("# ");
            lemma_no_char_sub(l, 2, l.len() as int, '\n');
            assert(l.skip(2) =~= l.subrange(2, l.len() as int));
            lemma_no_char_trim(l.skip(2), '\n');
        } else {
            assert forall|k: int| 0 <= k < ls.drop_first().len() implies !has_char(
                #[trigger] ls.drop_first()[k],
                '\n',
            ) by {
                assert(ls.drop_first()[k] == ls[k + 1]);
            }
            lemma_h1_clean(ls.drop_first());
        }
    }
}

/// A file stem of a path without a newline has none.
proof fn lemma_stem_clean(p: Seq<char>)
    requires
        !has_char(p, '\n'),
    ensures
        !has_char(crate::md::file_stem(p), '\n'),
{
    let n = file_name(p);
    match rfind(p, "/"@) {
        Some(i) => {
            crate::text::lemma_rfind_upto_bounds(p, "/"@, p.len() - 1);
            reveal_strlit("/");
            lemma_no_char_sub(p, i + 1, p.len() as int, '\n');
            assert(n =~= p.subrange(i + 1, p.len() as int));
        },
        None => {},
    }
    if n != ".."@ {
        match rfind(n, "."@) {
            Some(j) => {
                reveal_strlit(".");
                crate::text::lemma_rfind_upto_bounds(n, "."@, n.len() - 1);
                if j > 0 {
                    lemma_no_char_sub(n, 0, j, '\n');
                    assert(n.take(j) =~= n.subrange(0, j));
                }
            },
            None => {},
        }
    }
}

/// The configured title of a page is one of the configured titles.
pub proof fn lemma_title_for_clean(tis: Seq<TopicIndexModel>, rel: Seq<char>)
    requires
        forall|k: int| 0 <= k < tis.len() ==> lines_link_free(#[trigger] tis[k].title),
    ensures
        crate::gen::title_for(tis, rel) matches Some(x) ==> lines_link_free(x),
        crate::gen::title_for(tis, rel) is None ==> forall|k: int| 0 <= k < tis.len() ==> #[trigger] tis[k].index != rel,
        crate::gen::title_for(tis, rel) is Some ==> exists|k: int| 0 <= k < tis.len() && #[trigger] tis[k].index == rel,
    decreases tis.len(),
{
    if tis.len() > 0 {
        assert(tis.last() == tis[tis.len() - 1]);
        if tis.last().index != rel {
            assert forall|k: int| 0 <= k < tis.drop_last().len() implies lines_link_free(
                #[trigger] tis.drop_last()[k].title,
            ) by {
                assert(tis.drop_last()[k] == tis[k]);
            }
            lemma_title_for_clean(tis.drop_last(), rel);
            if crate::gen::title_for(tis, rel) is None {
                assert forall|k: int| 0 <= k < tis.len() implies #[trigger] tis[k].index != rel by {
                    if k < tis.len() - 1 {
                        assert(tis.drop_last()[k] == tis[k]);
                    }
                }
            } else {
                let k = choose|k: int| 0 <= k < tis.drop_last().len() && #[trigger] tis.drop_last()[k].index == rel;
                assert(tis.drop_last()[k] == tis[k]);
            }
        }
    }
}

/// The title shown for a page breaks no line that links something.
proof fn lemma_title_clean(t: TreeModel, tis: Seq<TopicIndexModel>, rel: Seq<char>)
    requires
        !has_char(rel, '\n'),
        forall|k: int| 0 <= k < tis.len() ==> lines_link_free(#[trigger] tis[k].title),
    ensures
        lines_link_free(crate::gen::spec_title_of(t, tis, rel)),
{
    lemma_title_for_clean(tis, rel);
    if crate::gen::title_for(tis, rel) is None {
        match file_text(t, rel) {
            Some(c) => {
                crate::text::lemma_lines_shape(c, Seq::empty());
                lemma_h1_clean(crate::text::lines(c));
            },
            None => {},
        }
        lemma_stem_clean(rel);
        assert(!has_char(crate::gen::spec_title_of(t, tis, rel), '\n'));
        lemma_broken_none(crate::gen::spec_title_of(t, tis, rel), Seq::empty());
    }
}

// ---------------------------------------------------------------------------
// Reading the written sidebar back
// ---------------------------------------------------------------------------

/// The paths that the lines `ls` link, in order.
pub open spec fn links_of(ls: Seq<Seq<char>>) -> Seq<Seq<char>>
    decreases ls.len(),
{
    if ls.len() == 0 {
        Seq::empty()
    } else {
        (match spec_extract_link_path(ls[0]) {
            Some(x) => seq![x],
            None => Seq::empty(),
        }) + links_of(ls.drop_first())
    }
}

/// A sidebar line that reads back as written: split again at its newlines,
/// with a final newline, its lines link exactly what it links.
pub open spec fn line_ok(l: Seq<char>) -> bool {
    links_of(crate::text::lines(l + seq!['\n'])) == links_of(seq![l])
}

/// The lines of `t` that a newline ends, after the partial line `cur`: each,
/// read without its `\r`, links nothing.
pub open spec fn broken_free(t: Seq<char>, cur: Seq<char>) -> bool
    decreases t.len(),
{
    if t.len() == 0 {
        true
    } else if t[0] == '\n' {
        spec_extract_link_path(crate::text::line_body(cur)) is None && broken_free(t.drop_first(), Seq::empty())
    } else {
        broken_free(t.drop_first(), cur.push(t[0]))
    }
}

/// No line of `t` but the last reads as a link: a title or part with line
/// breaks writes sidebar lines that read back as the one line it fills.
pub open spec fn lines_link_free(t: Seq<char>) -> bool {
    broken_free(t, Seq::empty())
}

/// Every line of `ls` reads back as written.
pub open spec fn lines_ok(ls: Seq<Seq<char>>) -> bool {
    forall|k: int| 0 <= k < ls.len() ==> line_ok(#[trigger] ls[k])
}

proof fn lemma_lines_ok_concat(a: Seq<Seq<char>>, b: Seq<Seq<char>>)
    requires
        lines_ok(a),
        lines_ok(b),
    ensures
        lines_ok(a + b),
{
    assert forall|k: int| 0 <= k < (a + b).len() implies line_ok(#[trigger] (a + b)[k]) by {
        if k < a.len() {
            assert((a + b)[k] == a[k]);
        } else {
            assert((a + b)[k] == b[k - a.len()]);
        }
    }
}

proof fn lemma_links_single(l: Seq<char>)
    ensures
        links_of(seq![l]) == match spec_extract_link_path(l) {
            Some(x) => seq![x],
            None => Seq::<Seq<char>>::empty(),
        },
{
    assert(seq![l].drop_first() =~= Seq::<Seq<char>>::empty());
    assert(seq![l][0] == l);
    assert(links_of(Seq::<Seq<char>>::empty()) == Seq::<Seq<char>>::empty());
    match spec_extract_link_path(l) {
        Some(x) => {
            assert(seq![x] + Seq::<Seq<char>>::empty() =~= seq![x]);
        },
        None => {
            assert(Seq::<Seq<char>>::empty() + Seq::<Seq<char>>::empty() =~= Seq::<Seq<char>>::empty());
        },
    }
}

proof fn lemma_links_concat(a: Seq<Seq<char>>, b: Seq<Seq<char>>)
    ensures
        links_of(a + b) == links_of(a) + links_of(b),
    decreases a.len(),
{
    if a.len() == 0 {
        assert(a + b =~= b);
    } else {
        assert((a + b).drop_first() =~= a.drop_first() + b);
        assert((a + b)[0] == a[0]);
        lemma_links_concat(a.drop_first(), b);
        let x: Seq<Seq<char>> = match spec_extract_link_path(a[0]) {
            Some(y) => seq![y],
            None => Seq::empty(),
        };
        assert(x + (links_of(a.drop_first()) + links_of(b)) =~= (x + links_of(a.drop_first())) + links_of(b));
    }
}

/// What lines pick under a section is what their links pick.
proof fn lemma_picks_links(ls: Seq<Seq<char>>, prefix: Seq<char>, index_path: Seq<char>)
    ensures
        picks(ls, prefix, index_path) == sel(links_of(ls), prefix, index_path),
    decreases ls.len(),
{
    if ls.len() > 0 {
        lemma_picks_links(ls.drop_first(), prefix, index_path);
        let r = links_of(ls.drop_first());
        match spec_extract_link_path(ls[0]) {
            Some(x) => {
                assert((seq![x] + r).drop_first() =~= r);
                assert((seq![x] + r)[0] == x);
            },
            None => {
                assert(Seq::<Seq<char>>::empty() + r =~= r);
            },
        }
    }
}

/// The lines of `l`s joined, each followed by a newline.
pub open spec fn read_lines(g: Seq<Seq<char>>) -> Seq<Seq<char>>
    decreases g.len(),
{
    if g.len() == 0 {
        Seq::empty()
    } else {
        read_lines(g.drop_last()) + crate::text::lines(g.last() + seq!['\n'])
    }
}

proof fn lemma_lines_read(g: Seq<Seq<char>>)
    requires
        g.len() > 0,
    ensures
        crate::text::lines(crate::text::join_nl(g) + seq!['\n']) == read_lines(g),
    decreases g.len(),
{
    reveal_strlit("\n");
    if g.len() == 1 {
        assert(read_lines(g.drop_last()) =~= Seq::<Seq<char>>::empty());
        assert(g.last() == g[0]);
        assert(read_lines(g) =~= crate::text::lines(g[0] + seq!['\n']));
    } else {
        let dl = g.drop_last();
        lemma_lines_read(dl);
        let a = crate::text::join_nl(dl) + seq!['\n'];
        let b = g.last() + seq!['\n'];
        assert(crate::text::join_nl(g) == crate::text::join_nl(dl) + "\n"@ + g.last());
        assert(crate::text::join_nl(g) + seq!['\n'] =~= a + b);
        assert(a.last() == '\n');
        crate::text::lemma_lines_concat(a, b, Seq::empty());
    }
}

proof fn lemma_links_read(g: Seq<Seq<char>>)
    requires
        lines_ok(g),
    ensures
        links_of(read_lines(g)) == links_of(g),
    decreases g.len(),
{
    if g.len() > 0 {
        let dl = g.drop_last();
        assert forall|k: int| 0 <= k < dl.len() implies line_ok(#[trigger] dl[k]) by {
            assert(dl[k] == g[k]);
        }
        lemma_links_read(dl);
        assert(line_ok(g[g.len() - 1]));
        lemma_links_concat(read_lines(dl), crate::text::lines(g.last() + seq!['\n']));
        assert(g =~= dl + seq![g.last()]);
        lemma_links_concat(dl, seq![g.last()]);
    }
}

/// A line that reads back as the same line links what it links.
proof fn lemma_line_ok_single(l: Seq<char>)
    requires
        crate::text::lines(l + seq!['\n']) == seq![crate::text::line_body(l)],
        spec_extract_link_path(crate::text::line_body(l)) == spec_extract_link_path(l),
    ensures
        line_ok(l),
{
    let b = crate::text::line_body(l);
    assert(seq![b].drop_first() =~= Seq::<Seq<char>>::empty());
    assert(seq![l].drop_first() =~= Seq::<Seq<char>>::empty());
    assert(seq![b][0] == b);
    assert(seq![l][0] == l);
}

/// A line without newline that ends with `)` or has no `](./` reads back
/// as written.
proof fn lemma_line_ok_plain(l: Seq<char>)
    requires
        !has_char(l, '\n'),
        (l.len() > 0 && l.last() == ')') || lacks(l, "](./"@),
    ensures
        line_ok(l),
{
    crate::text::lemma_lines_newline(l, Seq::empty());
    assert(Seq::<char>::empty() + l =~= l);
    if !(l.len() > 0 && l.last() == ')') {
        if l.len() > 0 && l.last() == '\r' {
            lemma_lacks_prefix(l, "](./"@, l.len() - 1);
            assert(l.drop_last() =~= l.take(l.len() - 1));
            lemma_extract_none(l.drop_last());
        }
        lemma_extract_none(l);
    }
    lemma_line_ok_single(l);
}

/// A suffix of a text without `p` has no `p` either.
proof fn lemma_lacks_suffix(s: Seq<char>, p: Seq<char>, k: int)
    requires
        lacks(s, p),
        0 <= k <= s.len(),
    ensures
        lacks(s.skip(k), p),
{
    assert forall|q: int| !#[trigger] occurs_at(s.skip(k), p, q) by {
        if occurs_at(s.skip(k), p, q) {
            assert(s.subrange(q + k, q + k + p.len()) =~= s.skip(k).subrange(q, q + p.len()));
            assert(occurs_at(s, p, q + k));
        }
    }
}

/// The lines of a text without `](./` link nothing.
proof fn lemma_lines_lacks(s: Seq<char>, cur: Seq<char>)
    requires
        lacks(cur + s, "](./"@),
    ensures
        links_of(crate::text::lines_from(s, cur)) == Seq::<Seq<char>>::empty(),
    decreases s.len(),
{
    reveal_strlit("](./");
    if s.len() == 0 {
        assert(cur + s =~= cur);
        if cur.len() > 0 {
            lemma_extract_none(cur);
            assert(seq![cur].drop_first() =~= Seq::<Seq<char>>::empty());
            lemma_links_single(cur);
        } else {
            assert(crate::text::lines_from(s, cur) =~= Seq::<Seq<char>>::empty());
        }
    } else if s[0] == '\n' {
        lemma_lacks_prefix(cur + s, "](./"@, cur.len() as int);
        assert((cur + s).take(cur.len() as int) =~= cur);
        let b = crate::text::line_body(cur);
        if cur.len() > 0 && cur.last() == '\r' {
            lemma_lacks_prefix(cur, "](./"@, cur.len() - 1);
            assert(cur.drop_last() =~= cur.take(cur.len() - 1));
        }
        assert(lacks(b, "](./"@));
        lemma_extract_none(b);
        lemma_lacks_suffix(cur + s, "](./"@, cur.len() + 1 as int);
        assert((cur + s).skip(cur.len() + 1 as int) =~= Seq::<char>::empty() + s.drop_first());
        lemma_lines_lacks(s.drop_first(), Seq::empty());
        let r = crate::text::lines_from(s.drop_first(), Seq::empty());
        assert(crate::text::lines_from(s, cur) == seq![b] + r);
        assert((seq![b] + r).drop_first() =~= r);
        assert((seq![b] + r)[0] == b);
        assert(links_of(seq![b] + r) == Seq::<Seq<char>>::empty() + links_of(r));
        assert(Seq::<Seq<char>>::empty() + links_of(r) =~= Seq::<Seq<char>>::empty());
    } else {
        assert(cur.push(s[0]) + s.drop_first() =~= cur + s);
        lemma_lines_lacks(s.drop_first(), cur.push(s[0]));
    }
}

/// A line without `](./` reads back as written, whatever newlines it holds.
proof fn lemma_line_ok_lacks(l: Seq<char>)
    requires
        lacks(l, "](./"@),
    ensures
        line_ok(l),
{
    reveal_strlit("](./");
    let s = l + seq!['\n'];
    assert forall|q: int| !#[trigger] occurs_at(s, "](./"@, q) by {
        if occurs_at(s, "](./"@, q) {
            if q + 4 <= l.len() {
                assert(l.subrange(q, q + 4) =~= s.subrange(q, q + 4));
                assert(occurs_at(l, "](./"@, q));
            } else {
                assert(s.subrange(q, q + 4)[l.len() - q] == s[l.len() as int]);
                assert(s[l.len() as int] == '\n');
            }
        }
    }
    assert(Seq::<char>::empty() + s =~= s);
    lemma_lines_lacks(s, Seq::empty());
    lemma_extract_none(l);
    assert(seq![l].drop_first() =~= Seq::<Seq<char>>::empty());
    lemma_links_single(l);
}

/// Reading the characters of a newline-free `h` just extends the partial line.
proof fn lemma_lines_prefix(h: Seq<char>, x: Seq<char>, cur: Seq<char>)
    requires
        !has_char(h, '\n'),
    ensures
        crate::text::lines_from(h + x, cur) == crate::text::lines_from(x, cur + h),
    decreases h.len(),
{
    if h.len() == 0 {
        assert(h + x =~= x);
        assert(cur + h =~= cur);
    } else {
        assert(h[0] != '\n');
        assert(!has_char(h.drop_first(), '\n')) by {
            if has_char(h.drop_first(), '\n') {
                let i = choose|i: int| 0 <= i < h.drop_first().len() && h.drop_first()[i] == '\n';
                assert(h[i + 1] == '\n');
            }
        }
        assert((h + x).drop_first() =~= h.drop_first() + x);
        assert((h + x)[0] == h[0]);
        lemma_lines_prefix(h.drop_first(), x, cur.push(h[0]));
        assert(cur.push(h[0]) + h.drop_first() =~= cur + h);
    }
}

/// No `](./` starts inside a head without `]`.
proof fn lemma_rfind_head(h: Seq<char>, x: Seq<char>, q: int)
    requires
        !has_char(h, ']'),
        q < h.len(),
    ensures
        rfind_upto(h + x, "](./"@, q) is None,
    decreases q + 1,
{
    reveal_strlit("](./");
    if q >= 0 {
        if occurs_at(h + x, "](./"@, q) {
            assert((h + x).subrange(q, q + 4)[0] == (h + x)[q]);
            assert((h + x)[q] == h[q]);
        }
        lemma_rfind_head(h, x, q - 1);
    }
}

proof fn lemma_rfind_shift(h: Seq<char>, x: Seq<char>, i: int)
    requires
        !has_char(h, ']'),
        i >= -1,
    ensures
        rfind_upto(h + x, "](./"@, h.len() + i) == crate::toml_lite::shift(rfind_upto(x, "](./"@, i), h.len() as int),
    decreases i + 1,
{
    reveal_strlit("](./");
    if i == -1 {
        lemma_rfind_head(h, x, h.len() - 1);
    } else {
        let p = "](./"@;
        let j = h.len() + i;
        if 0 <= i && i + 4 <= x.len() {
            assert((h + x).subrange(j, j + 4) =~= x.subrange(i, i + 4));
        }
        assert(occurs_at(h + x, p, j) == occurs_at(x, p, i));
        lemma_rfind_shift(h, x, i - 1);
    }
}

proof fn lemma_find_shift(h: Seq<char>, x: Seq<char>, j: int)
    requires
        j >= 0,
    ensures
        find_from(h + x, ")"@, h.len() + j) == crate::toml_lite::shift(find_from(x, ")"@, j), h.len() as int),
    decreases x.len() - j,
{
    reveal_strlit(")");
    if j + 1 <= x.len() {
        assert((h + x).subrange(h.len() + j, h.len() + j + 1) =~= x.subrange(j, j + 1));
        lemma_find_shift(h, x, j + 1);
    }
}

/// A head without `]` before a line changes nothing of what it links.
proof fn lemma_extract_shift(h: Seq<char>, x: Seq<char>)
    requires
        !has_char(h, ']'),
    ensures
        spec_extract_link_path(h + x) == spec_extract_link_path(x),
{
    reveal_strlit("](./");
    let p = "](./"@;
    let s = h + x;
    if x.len() >= 3 {
        lemma_rfind_shift(h, x, x.len() - 4);
        assert(rfind(s, p) == rfind_upto(s, p, h.len() + (x.len() - 4)));
    } else {
        lemma_rfind_head(h, x, s.len() - 4);
        crate::text::lemma_rfind_upto_bounds(x, p, x.len() - 4);
    }
    match rfind(x, p) {
        Some(i) => {
            crate::text::lemma_rfind_upto_bounds(x, p, x.len() - 4);
            assert(i >= 0);
            lemma_close_shift(h, x, i + 4, 1);
            lemma_find_shift(h, x, i + 4);
            crate::text::lemma_close_paren(x, i + 4, 1);
            crate::text::lemma_find_from_bounds(x, ")"@, i + 4);
            reveal_strlit(")");
            match crate::text::close_paren(x, i + 4, 1) {
                Some(jj) => {
                    assert(s.subrange(h.len() + i + 4, h.len() + jj) =~= x.subrange(i + 4, jj));
                },
                None => {
                    match find_from(x, ")"@, i + 4) {
                        Some(kk) => {
                            assert(s.subrange(h.len() + i + 4, h.len() + kk) =~= x.subrange(i + 4, kk));
                        },
                        None => {},
                    }
                },
            }
        },
        None => {},
    }
}

/// A head without `]` or a final `\r` before the lines of a text does not
/// change which of them link something.
proof fn lemma_broken_shift(t: Seq<char>, h: Seq<char>, c: Seq<char>)
    requires
        !has_char(h, ']'),
        h.len() > 0,
        h.last() != '\r',
    ensures
        broken_free(t, h + c) == broken_free(t, c),
    decreases t.len(),
{
    if t.len() > 0 {
        if t[0] == '\n' {
            let b = crate::text::line_body(c);
            if c.len() > 0 {
                assert((h + c).last() == c.last());
                if c.last() == '\r' {
                    assert((h + c).drop_last() =~= h + c.drop_last());
                }
            } else {
                assert(h + c =~= h);
                assert(b =~= Seq::<char>::empty());
                assert(h + b =~= h);
            }
            assert(crate::text::line_body(h + c) == h + b);
            lemma_extract_shift(h, b);
        } else {
            assert((h + c).push(t[0]) =~= h + c.push(t[0]));
            lemma_broken_shift(t.drop_first(), h, c.push(t[0]));
        }
    }
}

/// A text without newline breaks no line.
proof fn lemma_broken_none(t: Seq<char>, cur: Seq<char>)
    requires
        !has_char(t, '\n'),
    ensures
        broken_free(t, cur),
    decreases t.len(),
{
    if t.len() > 0 {
        assert(t[0] != '\n');
        assert(!has_char(t.drop_first(), '\n')) by {
            if has_char(t.drop_first(), '\n') {
                let i = choose|i: int| 0 <= i < t.drop_first().len() && t.drop_first()[i] == '\n';
                assert(t[i + 1] == '\n');
            }
        }
        lemma_broken_none(t.drop_first(), cur.push(t[0]));
    }
}

/// Lines that a newline ends, none of which reads as a link, link nothing.
proof fn lemma_broken_links(t: Seq<char>, cur: Seq<char>)
    requires
        broken_free(t, cur),
        t.len() > 0,
        t.last() == '\n',
    ensures
        links_of(crate::text::lines_from(t, cur)) == Seq::<Seq<char>>::empty(),
    decreases t.len(),
{
    let r = t.drop_first();
    if t[0] == '\n' {
        let b = crate::text::line_body(cur);
        let rest = crate::text::lines_from(r, Seq::empty());
        if r.len() == 0 {
            assert(rest =~= Seq::<Seq<char>>::empty());
        } else {
            assert(r.last() == t.last());
            lemma_broken_links(r, Seq::empty());
        }
        assert(crate::text::lines_from(t, cur) == seq![b] + rest);
        lemma_links_concat(seq![b], rest);
        lemma_links_single(b);
    } else {
        assert(r.len() > 0 && r.last() == t.last());
        lemma_broken_links(r, cur.push(t[0]));
    }
}

/// No line of `part` reads as a link, nor does the part as a whole: its
/// sidebar line `# part` links nothing, written or read back.
pub open spec fn part_free(part: Seq<char>) -> bool {
    &&& broken_free(part + seq!['\n'], Seq::empty())
    &&& spec_extract_link_path(part) is None
}

/// A part line whose part links nothing reads back as written and links
/// nothing.
proof fn lemma_part_ok(part: Seq<char>)
    requires
        part_free(part),
    ensures
        line_ok("# "@ + part),
        spec_extract_link_path("# "@ + part) is None,
{
    reveal_strlit("# ");
    let h = "# "@;
    assert(!has_char(h, ']')) by {
        if has_char(h, ']') {
            let i = choose|i: int| 0 <= i < h.len() && h[i] == ']';
        }
    }
    assert(!has_char(h, '\n')) by {
        if has_char(h, '\n') {
            let i = choose|i: int| 0 <= i < h.len() && h[i] == '\n';
        }
    }
    lemma_extract_shift(h, part);
    let l = h + part;
    let t = part + seq!['\n'];
    assert(l + seq!['\n'] =~= h + t);
    lemma_lines_prefix(h, t, Seq::empty());
    assert(Seq::<char>::empty() + h =~= h);
    assert(h + Seq::<char>::empty() =~= h);
    lemma_broken_shift(t, h, Seq::empty());
    lemma_broken_links(t, h);
    lemma_links_single(l);
}

/// The lines of a link line whose title breaks lines that link nothing link
/// only its path.
proof fn lemma_title_line(t: Seq<char>, cur: Seq<char>, path: Seq<char>)
    requires
        broken_free(t, cur),
        clean(path),
    ensures
        links_of(crate::text::lines_from(t + ("](./"@ + path + ")"@) + seq!['\n'], cur)) == seq![path],
    decreases t.len(),
{
    let tail = "](./"@ + path + ")"@;
    reveal_strlit("](./");
    reveal_strlit(")");
    if t.len() == 0 {
        assert(t + tail + seq!['\n'] =~= tail + seq!['\n']);
        lemma_lit_lines();
        lemma_no_char_concat("](./"@, path, '\n');
        lemma_no_char_concat("](./"@ + path, ")"@, '\n');
        crate::text::lemma_lines_newline(tail, cur);
        let l = cur + tail;
        assert(l.last() == ')');
        assert(crate::text::line_body(l) == l);
        lemma_lacks(path, "](./"@);
        lemma_extract_link(cur, path);
        assert(cur + "](./"@ + path + ")"@ =~= l);
        lemma_links_single(l);
    } else {
        let s = t + tail + seq!['\n'];
        assert(s.drop_first() =~= t.drop_first() + tail + seq!['\n']);
        assert(s[0] == t[0]);
        if t[0] == '\n' {
            lemma_title_line(t.drop_first(), Seq::empty(), path);
            let b = crate::text::line_body(cur);
            let r = crate::text::lines_from(s.drop_first(), Seq::empty());
            assert(crate::text::lines_from(s, cur) == seq![b] + r);
            assert((seq![b] + r).drop_first() =~= r);
            assert((seq![b] + r)[0] == b);
        } else {
            lemma_title_line(t.drop_first(), cur.push(t[0]), path);
        }
    }
}

/// Dropping trailing empty lines keeps a prefix; what it drops is empty.
proof fn lemma_dte(ls: Seq<Seq<char>>)
    ensures
        crate::gen::drop_trailing_empty(ls).len() <= ls.len(),
        crate::gen::drop_trailing_empty(ls) == ls.take(crate::gen::drop_trailing_empty(ls).len() as int),
        forall|k: int|
            crate::gen::drop_trailing_empty(ls).len() <= k < ls.len() ==> (#[trigger] ls[k]).len() == 0,
        ls.len() > 0 && ls[0].len() > 0 ==> crate::gen::drop_trailing_empty(ls).len() > 0,
    decreases ls.len(),
{
    if ls.len() > 0 && ls.last().len() == 0 {
        lemma_dte(ls.drop_last());
        let g = crate::gen::drop_trailing_empty(ls.drop_last());
        assert(ls.drop_last().take(g.len() as int) =~= ls.take(g.len() as int));
        assert forall|k: int| g.len() <= k < ls.len() implies (#[trigger] ls[k]).len() == 0 by {
            if k < ls.len() - 1 {
                assert(ls.drop_last()[k] == ls[k]);
            }
        }
        if ls.len() == 1 {
            assert(ls[0] == ls.last());
        } else if ls[0].len() > 0 {
            assert(ls.drop_last()[0] == ls[0]);
        }
    } else {
        assert(ls.take(ls.len() as int) =~= ls);
    }
}

/// An empty line links nothing.
proof fn lemma_extract_empty(l: Seq<char>)
    requires
        l.len() == 0,
    ensures
        spec_extract_link_path(l) is None,
        lacks(l, "](./"@),
{
    reveal_strlit("](./");
    lemma_extract_none(l);
}

/// The written sidebar, read back line by line, links what its lines link.
proof fn lemma_summary_picks(ls: Seq<Seq<char>>, prefix: Seq<char>, index_path: Seq<char>)
    requires
        lines_ok(ls),
        ls.len() > 0,
        ls[0].len() > 0,
    ensures
        picks(crate::text::lines(crate::gen::summary_text(ls)), prefix, index_path) == picks(ls, prefix, index_path),
{
    let g = crate::gen::drop_trailing_empty(ls);
    lemma_dte(ls);
    let rest = ls.skip(g.len() as int);
    assert(ls =~= g + rest);
    lemma_picks_concat(g, rest, prefix, index_path);
    assert forall|k: int| 0 <= k < rest.len() implies (#[trigger] spec_extract_link_path(rest[k]) matches Some(
        rel,
    ) ==> !starts_with(rel, prefix) || rel == index_path) by {
        assert(rest[k] == ls[k + g.len()]);
        lemma_extract_empty(rest[k]);
    }
    lemma_picks_none(rest, prefix, index_path);
    assert(g + rest == ls);
    assert(picks(ls, prefix, index_path) =~= picks(g, prefix, index_path));
    let e = Seq::<char>::empty();
    let gp = g.push(e);
    assert(gp.drop_last() =~= g);
    assert(crate::gen::summary_text(ls) == crate::text::join_nl(gp));
    assert(crate::text::join_nl(gp) == crate::text::join_nl(g) + "\n"@ + e);
    reveal_strlit("\n");
    assert(crate::text::join_nl(gp) =~= crate::text::join_nl(g) + seq!['\n']);
    assert forall|k: int| 0 <= k < g.len() implies line_ok(#[trigger] g[k]) by {
        assert(g[k] == ls[k]);
    }
    assert(g.len() > 0) by {
        if g.len() == 0 {
            assert(ls[0].len() == 0);
        }
    }
    lemma_lines_read(g);
    lemma_links_read(g);
    lemma_picks_links(read_lines(g), prefix, index_path);
    lemma_picks_links(g, prefix, index_path);
}

// ---------------------------------------------------------------------------
// What one section writes
// ---------------------------------------------------------------------------

/// A path of section `sec` that its link line gives back: inside `sec/`,
/// not the section page, and clean.
pub open spec fn path_good(x: Seq<char>, sec: Seq<char>) -> bool {
    &&& starts_with(x, sec + "/"@)
    &&& x != sec + "/index.md"@
    &&& clean(x)
}

/// Distinct top entries on disk have distinct child directories.
pub open spec fn child_prefixes_differ(on_disk: Seq<ItemModel>) -> bool {
    forall|i: int, j: int|
        0 <= i < on_disk.len() && 0 <= j < on_disk.len() && on_disk[i].depth == 0 && on_disk[j].depth == 0
            && on_disk[i].rel != on_disk[j].rel ==> child_prefix(#[trigger] on_disk[i].rel) != child_prefix(
            #[trigger] on_disk[j].rel,
        )
}

/// The parents a section writes, in order.
pub open spec fn sec_parents(t: TreeModel, cur: Seq<char>, sec: crate::meta::SectionModel) -> Seq<Seq<char>> {
    crate::gen::section_parents(t, cur, sec).0
}

/// The paths of a section's block in the sidebar, in order.
pub open spec fn sec_block(t: TreeModel, cur: Seq<char>, sec: crate::meta::SectionModel) -> Seq<Seq<char>> {
    block_paths(
        spec_scan(t, sec.dir),
        crate::gen::spec_existing_order(cur, sec.dir),
        sec_parents(t, cur, sec),
    )
}

pub proof fn lemma_prior_parents_sub(a: Seq<Seq<char>>)
    ensures
        forall|x: Seq<char>| #[trigger] prior_parents(a).contains(x) ==> a.contains(x),
        distinct(a) ==> distinct(prior_parents(a)),
    decreases a.len(),
{
    if a.len() > 0 {
        let r = a.drop_first();
        lemma_prior_parents_sub(r);
        assert(a =~= seq![a[0]] + r);
        assert forall|x: Seq<char>| #[trigger] prior_parents(a).contains(x) implies a.contains(x) by {
            if x != a[0] {
                let i = choose|i: int| 0 <= i < prior_parents(a).len() && prior_parents(a)[i] == x;
                if slashes(a[0]) == 1 {
                    assert(prior_parents(r)[i - 1] == x);
                } else {
                    assert(prior_parents(r)[i] == x);
                }
                assert(prior_parents(r).contains(x));
                let j = choose|j: int| 0 <= j < r.len() && r[j] == x;
                assert(a[j + 1] == x);
            } else {
                assert(a[0] == x);
            }
        }
        if distinct(a) {
            assert forall|i: int, j: int| 0 <= i < r.len() && 0 <= j < r.len() && i != j implies r[i] != r[j] by {
                assert(a[i + 1] == r[i] && a[j + 1] == r[j]);
            }
            if slashes(a[0]) == 1 {
                assert forall|x: Seq<char>| #[trigger] seq![a[0]].contains(x) implies !prior_parents(r).contains(x) by {
                    assert(seq![a[0]][0] == a[0]);
                    if prior_parents(r).contains(x) {
                        let j = choose|j: int| 0 <= j < r.len() && r[j] == x;
                        assert(a[j + 1] == a[0]);
                    }
                }
                lemma_distinct_concat(seq![a[0]], prior_parents(r));
            }
        }
    }
}

pub proof fn lemma_prior_under_sub(a: Seq<Seq<char>>, pre: Seq<char>)
    ensures
        forall|x: Seq<char>| #[trigger] prior_under(a, pre).contains(x) ==> a.contains(x),
        distinct(a) ==> distinct(prior_under(a, pre)),
    decreases a.len(),
{
    if a.len() > 0 {
        let r = a.drop_first();
        lemma_prior_under_sub(r, pre);
        assert forall|x: Seq<char>| #[trigger] prior_under(a, pre).contains(x) implies a.contains(x) by {
            if x != a[0] {
                let i = choose|i: int| 0 <= i < prior_under(a, pre).len() && prior_under(a, pre)[i] == x;
                if starts_with(a[0], pre) {
                    assert(prior_under(r, pre)[i - 1] == x);
                } else {
                    assert(prior_under(r, pre)[i] == x);
                }
                assert(prior_under(r, pre).contains(x));
                let j = choose|j: int| 0 <= j < r.len() && r[j] == x;
                assert(a[j + 1] == x);
            } else {
                assert(a[0] == x);
            }
        }
        if distinct(a) {
            assert forall|i: int, j: int| 0 <= i < r.len() && 0 <= j < r.len() && i != j implies r[i] != r[j] by {
                assert(a[i + 1] == r[i] && a[j + 1] == r[j]);
            }
            if starts_with(a[0], pre) {
                assert forall|x: Seq<char>| #[trigger] seq![a[0]].contains(x) implies !prior_under(r, pre).contains(x) by {
                    assert(seq![a[0]][0] == a[0]);
                    if prior_under(r, pre).contains(x) {
                        let j = choose|j: int| 0 <= j < r.len() && r[j] == x;
                        assert(a[j + 1] == a[0]);
                    }
                }
                lemma_distinct_concat(seq![a[0]], prior_under(r, pre));
            }
        }
    }
}

/// What a section writes is well shaped: its parents and their children
/// are distinct entries on disk inside the section, and clean.
pub proof fn lemma_section_facts(t: TreeModel, cur: Seq<char>, sec: crate::meta::SectionModel)
    requires
        !has_char(sec.dir, '/'),
        forall|j: int| 0 <= j < spec_scan(t, sec.dir).len() ==> clean(#[trigger] spec_scan(t, sec.dir)[j].rel),
        child_prefixes_differ(spec_scan(t, sec.dir)),
    ensures
        parents_ok(spec_scan(t, sec.dir), crate::gen::spec_existing_order(cur, sec.dir), sec_parents(t, cur, sec)),
        forall|k: int|
            0 <= k < sec_parents(t, cur, sec).len() ==> path_good(#[trigger] sec_parents(t, cur, sec)[k], sec.dir),
        forall|k: int, x: Seq<char>|
            0 <= k < sec_parents(t, cur, sec).len() && #[trigger] kids(
                spec_scan(t, sec.dir),
                crate::gen::spec_existing_order(cur, sec.dir),
                sec_parents(t, cur, sec)[k],
            ).contains(x) ==> path_good(x, sec.dir),
{
    let on_disk = spec_scan(t, sec.dir);
    let prior = crate::gen::spec_existing_order(cur, sec.dir);
    let ps = sec_parents(t, cur, sec);
    let dp = disk_parents(on_disk);
    crate::gen::existing_order_is_clean(cur, sec.dir);
    lemma_prior_parents_sub(prior);
    crate::gen::merge_keeps_distinct(prior_parents(prior), dp);
    crate::gen::merge_keeps_disk_entries(prior_parents(prior), dp);
    lemma_disk_parents_from(on_disk);
    lemma_scan_ok(t, sec.dir);
    assert forall|k: int| 0 <= k < ps.len() implies slashes(#[trigger] ps[k]) == 1 && path_good(ps[k], sec.dir)
        && exists|j: int| 0 <= j < on_disk.len() && on_disk[j].depth == 0 && on_disk[j].rel == ps[k] by {
        assert(ps.contains(ps[k]));
        assert(dp.contains(ps[k]));
        let j = choose|j: int| 0 <= j < on_disk.len() && on_disk[j].depth == 0 && on_disk[j].rel == ps[k];
        assert(item_ok(on_disk[j], sec.dir));
    }
    assert forall|k: int, j: int|
        0 <= k < ps.len() && 0 <= j < ps.len() && k != j implies child_prefix(#[trigger] ps[k]) != child_prefix(
        #[trigger] ps[j],
    ) by {
        let a = choose|a: int| 0 <= a < on_disk.len() && on_disk[a].depth == 0 && on_disk[a].rel == ps[k];
        let b = choose|b: int| 0 <= b < on_disk.len() && on_disk[b].depth == 0 && on_disk[b].rel == ps[j];
        assert(child_prefix(on_disk[a].rel) != child_prefix(on_disk[b].rel));
    }
    assert forall|k: int| 0 <= k < ps.len() implies distinct(kids(on_disk, prior, #[trigger] ps[k])) by {
        let cp = child_prefix(ps[k]);
        lemma_prior_under_sub(prior, cp);
        let dc = disk_children(on_disk, cp);
        if dc.len() > 0 {
            crate::gen::merge_keeps_distinct(prior_under(prior, cp), dc);
        }
    }
    assert forall|k: int, x: Seq<char>|
        0 <= k < ps.len() && #[trigger] kids(on_disk, prior, ps[k]).contains(x) implies slashes(x) == 2
        && starts_with(x, child_prefix(#[trigger] ps[k])) && path_good(x, sec.dir) by {
        let cp = child_prefix(ps[k]);
        lemma_kids_from(on_disk, prior, ps[k]);
        lemma_disk_children_from(on_disk, cp);
        let j = choose|j: int| 0 <= j < on_disk.len() && on_disk[j].depth == 1 && on_disk[j].rel == x;
        assert(item_ok(on_disk[j], sec.dir));
    }
}

// ---------------------------------------------------------------------------
// What the lines of a block link
// ---------------------------------------------------------------------------

/// The paths of `xs` inside `prefix`, the page `index_path` left out.
pub open spec fn sel(xs: Seq<Seq<char>>, prefix: Seq<char>, index_path: Seq<char>) -> Seq<Seq<char>>
    decreases xs.len(),
{
    if xs.len() == 0 {
        Seq::empty()
    } else {
        (if starts_with(xs[0], prefix) && xs[0] != index_path {
            seq![xs[0]]
        } else {
            Seq::empty()
        }) + sel(xs.drop_first(), prefix, index_path)
    }
}

proof fn lemma_sel_concat(a: Seq<Seq<char>>, b: Seq<Seq<char>>, prefix: Seq<char>, index_path: Seq<char>)
    ensures
        sel(a + b, prefix, index_path) == sel(a, prefix, index_path) + sel(b, prefix, index_path),
    decreases a.len(),
{
    if a.len() == 0 {
        assert(a + b =~= b);
    } else {
        assert((a + b).drop_first() =~= a.drop_first() + b);
        assert((a + b)[0] == a[0]);
        lemma_sel_concat(a.drop_first(), b, prefix, index_path);
    }
}

proof fn lemma_sel_all(xs: Seq<Seq<char>>, prefix: Seq<char>, index_path: Seq<char>)
    requires
        forall|k: int| 0 <= k < xs.len() ==> starts_with(#[trigger] xs[k], prefix) && xs[k] != index_path,
    ensures
        sel(xs, prefix, index_path) == xs,
    decreases xs.len(),
{
    if xs.len() > 0 {
        assert forall|k: int| 0 <= k < xs.drop_first().len() implies starts_with(
            #[trigger] xs.drop_first()[k],
            prefix,
        ) && xs.drop_first()[k] != index_path by {
            assert(xs.drop_first()[k] == xs[k + 1]);
        }
        lemma_sel_all(xs.drop_first(), prefix, index_path);
        assert(xs =~= seq![xs[0]] + xs.drop_first());
    }
}

proof fn lemma_sel_none(xs: Seq<Seq<char>>, prefix: Seq<char>, index_path: Seq<char>)
    requires
        forall|k: int| 0 <= k < xs.len() ==> !starts_with(#[trigger] xs[k], prefix),
    ensures
        sel(xs, prefix, index_path) == Seq::<Seq<char>>::empty(),
    decreases xs.len(),
{
    if xs.len() > 0 {
        assert forall|k: int| 0 <= k < xs.drop_first().len() implies !starts_with(
            #[trigger] xs.drop_first()[k],
            prefix,
        ) by {
            assert(xs.drop_first()[k] == xs[k + 1]);
        }
        lemma_sel_none(xs.drop_first(), prefix, index_path);
        assert(sel(xs, prefix, index_path) =~= Seq::<Seq<char>>::empty());
    }
}

proof fn lemma_lit_lines()
    ensures
        !has_char("  "@, '\n'),
        !has_char("    "@, '\n'),
        !has_char(Seq::<char>::empty(), '\n'),
        !has_char("- ["@, '\n'),
        !has_char("](./"@, '\n'),
        !has_char(")"@, '\n'),
        !has_char("# "@, '\n'),
        !has_char("  "@, ']'),
        !has_char("    "@, ']'),
        !has_char(Seq::<char>::empty(), ']'),
{
    reveal_strlit("  ");
    reveal_strlit("    ");
    reveal_strlit("- [");
    reveal_strlit("](./");
    reveal_strlit(")");
    reveal_strlit("# ");
}

/// A generated link line reads back as written and gives back its path.
proof fn lemma_entry_ok(indent: Seq<char>, title: Seq<char>, path: Seq<char>)
    requires
        !has_char(indent, '\n'),
        !has_char(indent, ']'),
        lines_link_free(title),
        clean(path),
    ensures
        line_ok(entry_line(indent, title, path)),
        spec_extract_link_path(entry_line(indent, title, path)) == Some(path),
{
    lemma_lit_lines();
    lemma_lacks(path, "](./"@);
    lemma_extract_entry(indent, title, path);
    reveal_strlit("- [");
    reveal_strlit("](./");
    reveal_strlit(")");
    let h = indent + "- ["@;
    lemma_no_char_concat(indent, "- ["@, '\n');
    assert(!has_char(h, ']')) by {
        if has_char(h, ']') {
            let i = choose|i: int| 0 <= i < h.len() && h[i] == ']';
            if i < indent.len() {
                assert(indent[i] == ']');
            } else {
                assert("- ["@[i - indent.len()] == ']');
            }
        }
    }
    assert(h.last() == '[');
    let tail = "](./"@ + path + ")"@;
    let l = entry_line(indent, title, path);
    assert(l + seq!['\n'] =~= h + (title + tail + seq!['\n']));
    lemma_lines_prefix(h, title + tail + seq!['\n'], Seq::empty());
    assert(Seq::<char>::empty() + h =~= h);
    assert(h + Seq::<char>::empty() =~= h);
    lemma_broken_shift(title, h, Seq::empty());
    lemma_title_line(title, h, path);
    lemma_links_single(l);
}

/// The lines of children `cs` link exactly `cs` and read back as written.
proof fn lemma_child_lines(
    t: TreeModel,
    tis: Seq<TopicIndexModel>,
    cs: Seq<Seq<char>>,
    prefix: Seq<char>,
    index_path: Seq<char>,
)
    requires
        forall|k: int| 0 <= k < cs.len() ==> clean(#[trigger] cs[k]),
        forall|k: int| 0 <= k < tis.len() ==> lines_link_free(#[trigger] tis[k].title),
    ensures
        picks(crate::gen::child_lines(t, tis, cs), prefix, index_path) == sel(cs, prefix, index_path),
        lines_ok(crate::gen::child_lines(t, tis, cs)),
    decreases cs.len(),
{
    if cs.len() > 0 {
        assert forall|k: int| 0 <= k < cs.drop_first().len() implies clean(#[trigger] cs.drop_first()[k]) by {
            assert(cs.drop_first()[k] == cs[k + 1]);
        }
        lemma_child_lines(t, tis, cs.drop_first(), prefix, index_path);
        let title = crate::gen::spec_title_of(t, tis, cs[0]);
        lemma_title_clean(t, tis, cs[0]);
        lemma_lit_lines();
        lemma_entry_ok("    "@, title, cs[0]);
        let l = entry_line("    "@, title, cs[0]);
        let ls = crate::gen::child_lines(t, tis, cs);
        let r = crate::gen::child_lines(t, tis, cs.drop_first());
        assert(ls == seq![l] + r);
        assert(ls.drop_first() =~= r);
        assert(ls[0] == l);
        lemma_lines_ok_concat(seq![l], r);
    }
}

/// The lines of a block link exactly its paths and read back as written.
proof fn lemma_pp_lines(
    t: TreeModel,
    tis: Seq<TopicIndexModel>,
    prior: Seq<Seq<char>>,
    on_disk: Seq<ItemModel>,
    ps: Seq<Seq<char>>,
    prefix: Seq<char>,
    index_path: Seq<char>,
)
    requires
        forall|k: int| 0 <= k < ps.len() ==> clean(#[trigger] ps[k]),
        forall|k: int, x: Seq<char>|
            0 <= k < ps.len() && #[trigger] kids(on_disk, prior, ps[k]).contains(x) ==> clean(x),
        forall|k: int| 0 <= k < tis.len() ==> lines_link_free(#[trigger] tis[k].title),
    ensures
        picks(crate::gen::parents_part(t, tis, prior, on_disk, ps).lines, prefix, index_path) == sel(
            block_paths(on_disk, prior, ps),
            prefix,
            index_path,
        ),
        lines_ok(crate::gen::parents_part(t, tis, prior, on_disk, ps).lines),
    decreases ps.len(),
{
    if ps.len() > 0 {
        let r = ps.drop_first();
        assert forall|k: int| 0 <= k < r.len() implies clean(#[trigger] r[k]) by {
            assert(r[k] == ps[k + 1]);
        }
        assert forall|k: int, x: Seq<char>|
            0 <= k < r.len() && #[trigger] kids(on_disk, prior, r[k]).contains(x) implies clean(x) by {
            assert(r[k] == ps[k + 1]);
            assert(kids(on_disk, prior, ps[k + 1]).contains(x));
        }
        lemma_pp_lines(t, tis, prior, on_disk, r, prefix, index_path);
        let p = ps[0];
        let cs = kids(on_disk, prior, p);
        assert forall|k: int| 0 <= k < cs.len() implies clean(#[trigger] cs[k]) by {
            assert(cs.contains(cs[k]));
            assert(kids(on_disk, prior, ps[0]).contains(cs[k]));
        }
        lemma_child_lines(t, tis, cs, prefix, index_path);
        lemma_title_clean(t, tis, p);
        lemma_lit_lines();
        lemma_entry_ok("  "@, crate::gen::spec_title_of(t, tis, p), p);
        let l = entry_line("  "@, crate::gen::spec_title_of(t, tis, p), p);
        let cl = crate::gen::child_lines(t, tis, cs);
        let rl = crate::gen::parents_part(t, tis, prior, on_disk, r).lines;
        let all = crate::gen::parents_part(t, tis, prior, on_disk, ps).lines;
        assert(all == seq![l] + cl + rl);
        lemma_picks_concat(seq![l] + cl, rl, prefix, index_path);
        lemma_picks_concat(seq![l], cl, prefix, index_path);
        assert(seq![l].drop_first() =~= Seq::<Seq<char>>::empty());
        assert(seq![l][0] == l);
        assert(picks(Seq::<Seq<char>>::empty(), prefix, index_path) =~= Seq::<Seq<char>>::empty());
        assert(sel(Seq::<Seq<char>>::empty(), prefix, index_path) =~= Seq::<Seq<char>>::empty());
        assert(seq![p][0] == p);
        assert(picks(seq![l], prefix, index_path) =~= (if starts_with(p, prefix) && p != index_path {
            seq![p]
        } else {
            Seq::<Seq<char>>::empty()
        }));
        lemma_sel_concat(seq![p] + cs, block_paths(on_disk, prior, r), prefix, index_path);
        lemma_sel_concat(seq![p], cs, prefix, index_path);
        assert(seq![p].drop_first() =~= Seq::<Seq<char>>::empty());
        assert(block_paths(on_disk, prior, ps) == seq![p] + cs + block_paths(on_disk, prior, r));
        lemma_lines_ok_concat(seq![l], cl);
        lemma_lines_ok_concat(seq![l] + cl, rl);
    }
}

// ---------------------------------------------------------------------------
// What the lines of the sections link
// ---------------------------------------------------------------------------

/// What a section needs for its sidebar block to read back as written: a
/// directory without `/` and a clean page path, a part no line of which
/// reads as a link, nor the whole (`part_free`), a title no line of which
/// but the last reads as a link (`lines_link_free`),
/// clean entries on disk, and distinct child directories for distinct top
/// entries. Titles and parts may break lines.
pub open spec fn sec_ready(t: TreeModel, sec: crate::meta::SectionModel) -> bool {
    &&& sec.dir.len() > 0
    &&& !has_char(sec.dir, '/')
    &&& clean(crate::gen::index_rel(sec))
    &&& part_free(sec.part)
    &&& lines_link_free(sec.title)
    &&& forall|j: int| 0 <= j < spec_scan(t, sec.dir).len() ==> clean(#[trigger] spec_scan(t, sec.dir)[j].rel)
    &&& child_prefixes_differ(spec_scan(t, sec.dir))
}

/// Every path of a block of good parents with good children is good.
proof fn lemma_block_good(on_disk: Seq<ItemModel>, prior: Seq<Seq<char>>, ps: Seq<Seq<char>>, sec: Seq<char>)
    requires
        forall|k: int| 0 <= k < ps.len() ==> path_good(#[trigger] ps[k], sec),
        forall|k: int, x: Seq<char>|
            0 <= k < ps.len() && #[trigger] kids(on_disk, prior, ps[k]).contains(x) ==> path_good(x, sec),
    ensures
        forall|j: int|
            0 <= j < block_paths(on_disk, prior, ps).len() ==> path_good(#[trigger] block_paths(on_disk, prior, ps)[j], sec),
    decreases ps.len(),
{
    if ps.len() > 0 {
        let r = ps.drop_first();
        assert forall|k: int| 0 <= k < r.len() implies path_good(#[trigger] r[k], sec) by {
            assert(r[k] == ps[k + 1]);
        }
        assert forall|k: int, x: Seq<char>|
            0 <= k < r.len() && #[trigger] kids(on_disk, prior, r[k]).contains(x) implies path_good(x, sec) by {
            assert(r[k] == ps[k + 1]);
            assert(kids(on_disk, prior, ps[k + 1]).contains(x));
        }
        lemma_block_good(on_disk, prior, r, sec);
        let cs = kids(on_disk, prior, ps[0]);
        let b = block_paths(on_disk, prior, ps);
        let br = block_paths(on_disk, prior, r);
        assert(b == seq![ps[0]] + cs + br);
        assert forall|j: int| 0 <= j < b.len() implies path_good(#[trigger] b[j], sec) by {
            if j == 0 {
            } else if j < 1 + cs.len() {
                assert(b[j] == cs[j - 1]);
                assert(cs.contains(cs[j - 1]));
            } else {
                assert(b[j] == br[j - 1 - cs.len()]);
            }
        }
    }
}

/// Paths inside two sections without `/` lie in the same section.
proof fn lemma_two_sections(x: Seq<char>, a: Seq<char>, b: Seq<char>)
    requires
        !has_char(a, '/'),
        !has_char(b, '/'),
        starts_with(x, a + "/"@),
        starts_with(x, b + "/"@),
    ensures
        a == b,
{
    lemma_slashes_zero(a);
    lemma_slashes_zero(b);
    lemma_same_dir_prefix(x, a, b);
}

/// The lines of a shown section read back as written, and link the paths
/// of its block under its own directory and nothing under another.
proof fn lemma_part_picks(
    t: TreeModel,
    tis: Seq<TopicIndexModel>,
    cur: Seq<char>,
    sec: crate::meta::SectionModel,
    d: Seq<char>,
)
    requires
        sec_ready(t, sec),
        !has_char(d, '/'),
        forall|k: int| 0 <= k < tis.len() ==> lines_link_free(#[trigger] tis[k].title),
    ensures
        lines_ok(crate::gen::section_part(t, tis, cur, sec).lines),
        picks(crate::gen::section_part(t, tis, cur, sec).lines, d + "/"@, d + "/index.md"@) == if sec.dir == d {
            sec_block(t, cur, sec)
        } else {
            Seq::<Seq<char>>::empty()
        },
{
    let on_disk = spec_scan(t, sec.dir);
    let prior = crate::gen::spec_existing_order(cur, sec.dir);
    let ps = sec_parents(t, cur, sec);
    let pre = d + "/"@;
    let ip = d + "/index.md"@;
    lemma_section_facts(t, cur, sec);
    assert forall|k: int, x: Seq<char>|
        0 <= k < ps.len() && #[trigger] kids(on_disk, prior, ps[k]).contains(x) implies clean(x) by {
        assert(path_good(x, sec.dir));
    }
    lemma_pp_lines(t, tis, prior, on_disk, ps, pre, ip);
    let pp = crate::gen::parents_part(t, tis, prior, on_disk, ps);
    let irel = crate::gen::index_rel(sec);
    let e = Seq::<char>::empty();
    let hl = "# "@ + sec.part;
    let il = entry_line(e, sec.title, irel);
    let head = seq![hl, e, il];
    let all = crate::gen::section_part(t, tis, cur, sec).lines;
    assert(all == head + pp.lines + seq![e]);
    lemma_part_ok(sec.part);
    lemma_extract_empty(e);
    lemma_lit_lines();
    lemma_entry_ok(e, sec.title, irel);
    lemma_no_bracket(e);
    // the head links only the section page
    assert forall|k: int| 0 <= k < head.len() implies (#[trigger] spec_extract_link_path(head[k]) matches Some(
        rel,
    ) ==> !starts_with(rel, pre) || rel == ip) by {
        if k == 2 && starts_with(irel, pre) && sec.dir != d {
            reveal_strlit("/index.md");
            reveal_strlit("/");
            reveal_strlit("index.md");
            assert(irel =~= sec.dir + "/"@ + "index.md"@);
            assert(starts_with(irel, sec.dir + "/"@)) by {
                lemma_prefix_of_join(sec.dir, "index.md"@);
            }
            lemma_two_sections(irel, sec.dir, d);
        }
        if k == 2 && sec.dir == d {
            assert(irel == ip);
        }
    }
    lemma_picks_none(head, pre, ip);
    assert forall|k: int| 0 <= k < seq![e].len() implies (#[trigger] spec_extract_link_path(seq![e][k]) matches Some(
        rel,
    ) ==> !starts_with(rel, pre) || rel == ip) by {
        assert(seq![e][k] == e);
    }
    lemma_picks_none(seq![e], pre, ip);
    lemma_picks_concat(head + pp.lines, seq![e], pre, ip);
    lemma_picks_concat(head, pp.lines, pre, ip);
    let b = sec_block(t, cur, sec);
    lemma_block_good(on_disk, prior, ps, sec.dir);
    if sec.dir == d {
        lemma_sel_all(b, pre, ip);
    } else {
        assert forall|k: int| 0 <= k < b.len() implies !starts_with(#[trigger] b[k], pre) by {
            assert(path_good(b[k], sec.dir));
            if starts_with(b[k], pre) {
                lemma_two_sections(b[k], sec.dir, d);
            }
        }
        lemma_sel_none(b, pre, ip);
    }
    assert(picks(all, pre, ip) == picks(pp.lines, pre, ip));
    // every line reads back as written
    assert(lines_ok(head)) by {
        assert forall|k: int| 0 <= k < head.len() implies line_ok(#[trigger] head[k]) by {
            if k == 1 {
                assert(head[1] == e);
            }
        }
    }
    assert(lines_ok(seq![e])) by {
        assert forall|k: int| 0 <= k < seq![e].len() implies line_ok(#[trigger] seq![e][k]) by {
            assert(seq![e][k] == e);
        }
    }
    lemma_lines_ok_concat(head, pp.lines);
    lemma_lines_ok_concat(head + pp.lines, seq![e]);
}

/// The sidebar lines of sections other than `d` read back as written and
/// link nothing under `d`.
proof fn lemma_out_picks_none(
    t: TreeModel,
    tis: Seq<TopicIndexModel>,
    cur: Seq<char>,
    secs: Seq<crate::meta::SectionModel>,
    d: Seq<char>,
)
    requires
        forall|k: int| 0 <= k < secs.len() ==> sec_ready(t, #[trigger] secs[k]) && secs[k].dir != d,
        !has_char(d, '/'),
        forall|k: int| 0 <= k < tis.len() ==> lines_link_free(#[trigger] tis[k].title),
    ensures
        picks(crate::gen::sections_out(t, tis, cur, secs).lines, d + "/"@, d + "/index.md"@)
            == Seq::<Seq<char>>::empty(),
        lines_ok(crate::gen::sections_out(t, tis, cur, secs).lines),
    decreases secs.len(),
{
    if secs.len() > 0 {
        let r = secs.drop_first();
        assert forall|k: int| 0 <= k < r.len() implies sec_ready(t, #[trigger] r[k]) && r[k].dir != d by {
            assert(r[k] == secs[k + 1]);
        }
        lemma_out_picks_none(t, tis, cur, r, d);
        assert(sec_ready(t, secs[0]));
        if crate::gen::section_shown(t, secs[0]) {
            lemma_part_picks(t, tis, cur, secs[0], d);
            let pl = crate::gen::section_part(t, tis, cur, secs[0]).lines;
            let rl = crate::gen::sections_out(t, tis, cur, r).lines;
            lemma_picks_concat(pl, rl, d + "/"@, d + "/index.md"@);
            lemma_lines_ok_concat(pl, rl);
        }
    }
}

/// The sidebar lines of distinct sections link, under the directory of
/// section `i`, exactly the block of that section when it is shown.
proof fn lemma_out_picks_at(
    t: TreeModel,
    tis: Seq<TopicIndexModel>,
    cur: Seq<char>,
    secs: Seq<crate::meta::SectionModel>,
    i: int,
)
    requires
        0 <= i < secs.len(),
        forall|k: int| 0 <= k < secs.len() ==> sec_ready(t, #[trigger] secs[k]),
        forall|k: int, j: int| 0 <= k < j < secs.len() ==> secs[k].dir != secs[j].dir,
        forall|k: int| 0 <= k < tis.len() ==> lines_link_free(#[trigger] tis[k].title),
    ensures
        picks(crate::gen::sections_out(t, tis, cur, secs).lines, secs[i].dir + "/"@, secs[i].dir + "/index.md"@)
            == if crate::gen::section_shown(t, secs[i]) {
            sec_block(t, cur, secs[i])
        } else {
            Seq::<Seq<char>>::empty()
        },
        lines_ok(crate::gen::sections_out(t, tis, cur, secs).lines),
    decreases secs.len(),
{
    let d = secs[i].dir;
    let pre = d + "/"@;
    let ip = d + "/index.md"@;
    let r = secs.drop_first();
    assert(sec_ready(t, secs[i]));
    assert(sec_ready(t, secs[0]));
    assert forall|k: int| 0 <= k < r.len() implies sec_ready(t, #[trigger] r[k]) by {
        assert(r[k] == secs[k + 1]);
    }
    let pl = crate::gen::section_part(t, tis, cur, secs[0]).lines;
    let rl = crate::gen::sections_out(t, tis, cur, r).lines;
    if i == 0 {
        assert forall|k: int| 0 <= k < r.len() implies sec_ready(t, #[trigger] r[k]) && r[k].dir != d by {
            assert(r[k] == secs[k + 1]);
        }
        lemma_out_picks_none(t, tis, cur, r, d);
    } else {
        assert forall|k: int, j: int| 0 <= k < j < r.len() implies r[k].dir != r[j].dir by {
            assert(r[k] == secs[k + 1] && r[j] == secs[j + 1]);
        }
        lemma_out_picks_at(t, tis, cur, r, i - 1);
        assert(r[i - 1] == secs[i]);
    }
    if crate::gen::section_shown(t, secs[0]) {
        lemma_part_picks(t, tis, cur, secs[0], d);
        lemma_picks_concat(pl, rl, pre, ip);
        lemma_lines_ok_concat(pl, rl);
        if i == 0 {
            assert(sec_block(t, cur, secs[0]) + Seq::<Seq<char>>::empty() =~= sec_block(t, cur, secs[0]));
        } else {
            assert(secs[0].dir != d);
            assert(Seq::<Seq<char>>::empty() + picks(rl, pre, ip) =~= picks(rl, pre, ip));
        }
    }
}

/// A line without `]` has no `](./`.
proof fn lemma_no_bracket(l: Seq<char>)
    requires
        !has_char(l, ']'),
    ensures
        lacks(l, "](./"@),
        spec_extract_link_path(l) is None,
        line_ok(l),
{
    reveal_strlit("](./");
    assert forall|q: int| !#[trigger] occurs_at(l, "](./"@, q) by {
        if occurs_at(l, "](./"@, q) {
            assert(l.subrange(q, q + 4)[0] == l[q]);
        }
    }
    lemma_extract_none(l);
    lemma_line_ok_lacks(l);
}

/// The fixed head of the sidebar reads back as written and links nothing
/// inside a section.
proof fn lemma_head_lines(d: Seq<char>)
    ensures
        lines_ok(crate::gen::summary_head()),
        picks(crate::gen::summary_head(), d + "/"@, d + "/index.md"@) == Seq::<Seq<char>>::empty(),
{
    let h = crate::gen::summary_head();
    let e = Seq::<char>::empty();
    reveal_strlit("# Summary");
    reveal_strlit("[Introduction](./README.md)");
    reveal_strlit("---");
    reveal_strlit("[Introduction");
    reveal_strlit("README.md");
    reveal_strlit("](./");
    reveal_strlit(")");
    reveal_strlit("/");
    let intro = "[Introduction](./README.md)"@;
    let readme = "README.md"@;
    assert(!has_char(readme, ')'));
    assert(!has_char(readme, '('));
    lemma_no_parens_balanced(readme, 0);
    assert(!has_char(readme, '/'));
    assert(lacks(readme, "](./"@)) by {
        lemma_no_bracket(readme);
    }
    lemma_extract_link("[Introduction"@, readme);
    assert("[Introduction"@ + "](./"@ + readme + ")"@ =~= intro);
    assert(!has_char(intro, '\n'));
    lemma_line_ok_plain(intro);
    lemma_no_bracket("# Summary"@);
    lemma_no_bracket("---"@);
    lemma_no_bracket(e);
    assert forall|k: int| 0 <= k < h.len() implies line_ok(#[trigger] h[k]) && (spec_extract_link_path(h[k]) matches Some(
        rel,
    ) ==> !starts_with(rel, d + "/"@) || rel == d + "/index.md"@) by {
        if k == 2 {
            assert(h[2] == intro);
            if starts_with(readme, d + "/"@) {
                assert((d + "/"@)[d.len() as int] == '/');
                assert(readme[d.len() as int] == (d + "/"@)[d.len() as int]);
            }
        }
    }
    lemma_picks_none(h, d + "/"@, d + "/index.md"@);
}

/// The written sidebar, read back, gives each shown section the block it wrote.
pub proof fn lemma_sidebar_order(
    t: TreeModel,
    tis: Seq<TopicIndexModel>,
    cur: Seq<char>,
    secs: Seq<crate::meta::SectionModel>,
    i: int,
)
    requires
        0 <= i < secs.len(),
        forall|k: int| 0 <= k < secs.len() ==> sec_ready(t, #[trigger] secs[k]),
        forall|k: int, j: int| 0 <= k < j < secs.len() ==> secs[k].dir != secs[j].dir,
        forall|k: int| 0 <= k < tis.len() ==> lines_link_free(#[trigger] tis[k].title),
        crate::gen::section_shown(t, secs[i]),
    ensures
        crate::gen::spec_existing_order(
            crate::gen::summary_text(crate::gen::summary_head() + crate::gen::sections_out(t, tis, cur, secs).lines),
            secs[i].dir,
        ) == sec_block(t, cur, secs[i]),
{
    let d = secs[i].dir;
    let pre = d + "/"@;
    let ip = d + "/index.md"@;
    let h = crate::gen::summary_head();
    let so = crate::gen::sections_out(t, tis, cur, secs).lines;
    let all = h + so;
    assert(sec_ready(t, secs[i]));
    lemma_head_lines(d);
    lemma_out_picks_at(t, tis, cur, secs, i);
    lemma_lines_ok_concat(h, so);
    lemma_picks_concat(h, so, pre, ip);
    reveal_strlit("# Summary");
    assert(all[0] == h[0]);
    lemma_summary_picks(all, pre, ip);
    let text = crate::gen::summary_text(all);
    lemma_order_picks(crate::text::lines(text), pre, ip, Seq::empty());
    lemma_section_facts(t, cur, secs[i]);
    let b = sec_block(t, cur, secs[i]);
    lemma_block_distinct(spec_scan(t, d), crate::gen::spec_existing_order(cur, d), sec_parents(t, cur, secs[i]));
    lemma_append_all(Seq::empty(), b);
    assert(Seq::<Seq<char>>::empty() + b =~= b);
    assert(Seq::<Seq<char>>::empty() + picks(so, pre, ip) =~= picks(so, pre, ip));
}

// ---------------------------------------------------------------------------
// Planning again on the written tree
// ---------------------------------------------------------------------------

proof fn lemma_scan_names_same(t: TreeModel, t2: TreeModel, sec: Seq<char>, names: Seq<Seq<char>>)
    requires
        forall|x: Seq<char>| #[trigger] is_dir(t2, x) == is_dir(t, x),
        forall|d: Seq<char>| #[trigger] listing(t2, d) == listing(t, d),
    ensures
        scan_names(t2, sec, names) == scan_names(t, sec, names),
    decreases names.len(),
{
    if names.len() > 0 {
        lemma_scan_names_same(t, t2, sec, names.drop_first());
        let stem = crate::md::trim_end_matches(names[0], ".md"@);
        let sub = join(sec, stem);
        assert(is_dir(t2, sub) == is_dir(t, sub));
        assert(listing(t2, sub) == listing(t, sub));
    }
}

/// Safe writes leave every section's entries on disk as they were.
proof fn lemma_scan_same(t: TreeModel, t2: TreeModel, fs: Seq<(Seq<char>, Seq<char>)>, sec: Seq<char>)
    requires
        written(t, t2, fs),
        safe_writes(t, fs),
    ensures
        spec_scan(t2, sec) == spec_scan(t, sec),
{
    lemma_same_dirs(t, t2, fs);
    assert(is_dir(t2, sec) == is_dir(t, sec));
    assert(listing(t2, sec) == listing(t, sec));
    lemma_scan_names_same(t, t2, sec, listing(t, sec));
}

proof fn lemma_new_paths_none(prior: Seq<Seq<char>>, xs: Seq<Seq<char>>)
    requires
        forall|k: int| 0 <= k < xs.len() ==> prior.contains(#[trigger] xs[k]),
    ensures
        crate::gen::new_paths(prior, xs) == Seq::<Seq<char>>::empty(),
    decreases xs.len(),
{
    if xs.len() > 0 {
        assert forall|k: int| 0 <= k < xs.drop_first().len() implies prior.contains(#[trigger] xs.drop_first()[k]) by {
            assert(xs.drop_first()[k] == xs[k + 1]);
        }
        lemma_new_paths_none(prior, xs.drop_first());
    }
}

/// A block holds each of its parents and their children.
pub proof fn lemma_block_contains(on_disk: Seq<ItemModel>, prior: Seq<Seq<char>>, ps: Seq<Seq<char>>, k: int)
    requires
        0 <= k < ps.len(),
    ensures
        block_paths(on_disk, prior, ps).contains(ps[k]),
        forall|x: Seq<char>| #[trigger] kids(on_disk, prior, ps[k]).contains(x) ==> block_paths(on_disk, prior, ps).contains(x),
    decreases ps.len(),
{
    let cs = kids(on_disk, prior, ps[0]);
    let b = block_paths(on_disk, prior, ps);
    let br = block_paths(on_disk, prior, ps.drop_first());
    assert(b == seq![ps[0]] + cs + br);
    if k == 0 {
        assert(b[0] == ps[0]);
        assert forall|x: Seq<char>| #[trigger] kids(on_disk, prior, ps[k]).contains(x) implies b.contains(x) by {
            let j = choose|j: int| 0 <= j < cs.len() && cs[j] == x;
            assert(b[1 + j] == x);
        }
    } else {
        lemma_block_contains(on_disk, prior, ps.drop_first(), k - 1);
        assert(ps.drop_first()[k - 1] == ps[k]);
        assert forall|x: Seq<char>| br.contains(x) implies b.contains(x) by {
            let j = choose|j: int| 0 <= j < br.len() && br[j] == x;
            assert(b[1 + cs.len() + j] == x);
        }
    }
}

proof fn lemma_child_lines_same(t: TreeModel, t2: TreeModel, tis: Seq<TopicIndexModel>, cs: Seq<Seq<char>>)
    requires
        forall|k: int|
            0 <= k < cs.len() ==> crate::gen::spec_title_of(t2, tis, #[trigger] cs[k]) == crate::gen::spec_title_of(
                t,
                tis,
                cs[k],
            ),
    ensures
        crate::gen::child_lines(t2, tis, cs) == crate::gen::child_lines(t, tis, cs),
    decreases cs.len(),
{
    if cs.len() > 0 {
        assert forall|k: int| 0 <= k < cs.drop_first().len() implies crate::gen::spec_title_of(
            t2,
            tis,
            #[trigger] cs.drop_first()[k],
        ) == crate::gen::spec_title_of(t, tis, cs.drop_first()[k]) by {
            assert(cs.drop_first()[k] == cs[k + 1]);
        }
        lemma_child_lines_same(t, t2, tis, cs.drop_first());
    }
}

proof fn lemma_rows_same(t: TreeModel, t2: TreeModel, tis: Seq<TopicIndexModel>, ps: Seq<Seq<char>>)
    requires
        forall|k: int|
            0 <= k < ps.len() ==> crate::gen::spec_title_of(t2, tis, #[trigger] ps[k]) == crate::gen::spec_title_of(
                t,
                tis,
                ps[k],
            ) && spec_read_desc(t2, ps[k]) == spec_read_desc(t, ps[k]),
    ensures
        crate::gen::section_rows(t2, tis, ps) == crate::gen::section_rows(t, tis, ps),
    decreases ps.len(),
{
    if ps.len() > 0 {
        assert forall|k: int| 0 <= k < ps.drop_first().len() implies crate::gen::spec_title_of(
            t2,
            tis,
            #[trigger] ps.drop_first()[k],
        ) == crate::gen::spec_title_of(t, tis, ps.drop_first()[k]) && spec_read_desc(t2, ps.drop_first()[k])
            == spec_read_desc(t, ps.drop_first()[k]) by {
            assert(ps.drop_first()[k] == ps[k + 1]);
        }
        lemma_rows_same(t, t2, tis, ps.drop_first());
        assert(ps[0] == ps[0]);
    }
}

/// The parents `ps` of a block, planned again from the block itself, give
/// the same lines and add or remove nothing.
proof fn lemma_pp_same(
    t: TreeModel,
    t2: TreeModel,
    tis: Seq<TopicIndexModel>,
    prior: Seq<Seq<char>>,
    on_disk: Seq<ItemModel>,
    all: Seq<Seq<char>>,
    n: int,
)
    requires
        parents_ok(on_disk, prior, all),
        0 <= n <= all.len(),
        forall|k: int|
            0 <= k < all.len() ==> crate::gen::spec_title_of(t2, tis, #[trigger] all[k]) == crate::gen::spec_title_of(
                t,
                tis,
                all[k],
            ),
        forall|k: int, x: Seq<char>|
            0 <= k < all.len() && #[trigger] kids(on_disk, prior, all[k]).contains(x) ==> crate::gen::spec_title_of(
                t2,
                tis,
                x,
            ) == crate::gen::spec_title_of(t, tis, x),
    ensures
        ({
            let b = block_paths(on_disk, prior, all);
            let p2 = crate::gen::parents_part(t2, tis, b, on_disk, all.skip(n));
            let p1 = crate::gen::parents_part(t, tis, prior, on_disk, all.skip(n));
            &&& p2.lines == p1.lines
            &&& p2.added == Seq::<Seq<char>>::empty()
            &&& p2.removed == Seq::<Seq<char>>::empty()
        }),
    decreases all.len() - n,
{
    let b = block_paths(on_disk, prior, all);
    let ps = all.skip(n);
    if n < all.len() {
        lemma_pp_same(t, t2, tis, prior, on_disk, all, n + 1);
        assert(ps.drop_first() =~= all.skip(n + 1));
        let p = all[n];
        assert(ps[0] == p);
        let cp = child_prefix(p);
        let dc = disk_children(on_disk, cp);
        let cs = kids(on_disk, prior, p);
        lemma_block_contains(on_disk, prior, all, n);
        if dc.len() > 0 {
            assert(all.contains(p));
            assert forall|k: int| 0 <= k < all.len() && child_prefix(#[trigger] all[k]) == child_prefix(p) implies all[k] == p by {
                if k != n {
                    assert(child_prefix(all[k]) != child_prefix(all[n]));
                }
            }
            lemma_block_under(on_disk, prior, all, p);
            crate::gen::merge_is_idempotent(prior_under(prior, cp), dc);
        }
        assert(crate::gen::children_of(on_disk, b, p) == (cs, Seq::<Seq<char>>::empty()));
        assert forall|k: int| 0 <= k < cs.len() implies crate::gen::spec_title_of(t2, tis, #[trigger] cs[k])
            == crate::gen::spec_title_of(t, tis, cs[k]) by {
            assert(cs.contains(cs[k]));
            assert(kids(on_disk, prior, all[n]).contains(cs[k]));
        }
        lemma_child_lines_same(t, t2, tis, cs);
        assert(crate::gen::spec_title_of(t2, tis, all[n]) == crate::gen::spec_title_of(t, tis, all[n]));
        lemma_new_paths_none(b, seq![p]);
        assert forall|k: int| 0 <= k < cs.len() implies b.contains(#[trigger] cs[k]) by {
            assert(cs.contains(cs[k]));
        }
        lemma_new_paths_none(b, cs);
        assert(Seq::<Seq<char>>::empty() + Seq::<Seq<char>>::empty() + Seq::<Seq<char>>::empty()
            =~= Seq::<Seq<char>>::empty());
    } else {
        assert(ps.len() == 0);
    }
}

/// A shown section whose entries read the same after the writes, planned
/// again from the sidebar it wrote, gives the same lines and page, and adds
/// or removes nothing.
proof fn lemma_section_same(
    t: TreeModel,
    t2: TreeModel,
    fs: Seq<(Seq<char>, Seq<char>)>,
    tis: Seq<TopicIndexModel>,
    cur: Seq<char>,
    cur2: Seq<char>,
    sec: crate::meta::SectionModel,
)
    requires
        written(t, t2, fs),
        safe_writes(t, fs),
        sec_ready(t, sec),
        crate::gen::section_shown(t, sec),
        crate::gen::spec_existing_order(cur2, sec.dir) == sec_block(t, cur, sec),
        forall|p: Seq<char>|
            path_good(p, sec.dir) ==> #[trigger] crate::gen::spec_title_of(t2, tis, p) == crate::gen::spec_title_of(
                t,
                tis,
                p,
            ),
        forall|p: Seq<char>|
            path_good(p, sec.dir) && slashes(p) == 1 ==> #[trigger] spec_read_desc(t2, p) == spec_read_desc(t, p),
    ensures
        crate::gen::section_shown(t2, sec),
        crate::gen::section_part(t2, tis, cur2, sec).lines == crate::gen::section_part(t, tis, cur, sec).lines,
        crate::gen::section_part(t2, tis, cur2, sec).added == Seq::<Seq<char>>::empty(),
        crate::gen::section_part(t2, tis, cur2, sec).removed == Seq::<Seq<char>>::empty(),
        crate::gen::section_index_text(t2, tis, sec, sec_parents(t2, cur2, sec)) == crate::gen::section_index_text(
            t,
            tis,
            sec,
            sec_parents(t, cur, sec),
        ),
{
    let on_disk = spec_scan(t, sec.dir);
    let prior = crate::gen::spec_existing_order(cur, sec.dir);
    let ps = sec_parents(t, cur, sec);
    let dp = disk_parents(on_disk);
    lemma_scan_same(t, t2, fs, sec.dir);
    lemma_same_dirs(t, t2, fs);
    lemma_section_facts(t, cur, sec);
    lemma_block_parents(on_disk, prior, ps);
    crate::gen::merge_is_idempotent(prior_parents(prior), dp);
    assert(crate::gen::section_parents(t2, cur2, sec) == (ps, Seq::<Seq<char>>::empty()));
    assert forall|k: int| 0 <= k < ps.len() implies crate::gen::spec_title_of(t2, tis, #[trigger] ps[k])
        == crate::gen::spec_title_of(t, tis, ps[k]) && spec_read_desc(t2, ps[k]) == spec_read_desc(t, ps[k]) by {
        assert(path_good(ps[k], sec.dir));
        assert(slashes(ps[k]) == 1);
    }
    assert forall|k: int, x: Seq<char>|
        0 <= k < ps.len() && #[trigger] kids(on_disk, prior, ps[k]).contains(x) implies crate::gen::spec_title_of(
        t2,
        tis,
        x,
    ) == crate::gen::spec_title_of(t, tis, x) by {
        assert(path_good(x, sec.dir));
    }
    lemma_pp_same(t, t2, tis, prior, on_disk, ps, 0);
    assert(ps.skip(0) =~= ps);
    lemma_rows_same(t, t2, tis, ps);
    let irel = crate::gen::index_rel(sec);
    if crate::tree::path_exists(t, irel) {
        assert(is_dir(t2, irel) == is_dir(t, irel));
        assert(has_path(t, irel) ==> has_path(t2, irel));
    }
}

/// All sections, planned again from the sidebar they wrote, give the same
/// lines and pages, and add or remove nothing.
proof fn lemma_out_same(
    t: TreeModel,
    t2: TreeModel,
    fs: Seq<(Seq<char>, Seq<char>)>,
    tis: Seq<TopicIndexModel>,
    cur: Seq<char>,
    cur2: Seq<char>,
    secs: Seq<crate::meta::SectionModel>,
)
    requires
        written(t, t2, fs),
        safe_writes(t, fs),
        forall|k: int| 0 <= k < secs.len() ==> sec_ready(t, #[trigger] secs[k]),
        forall|k: int|
            0 <= k < secs.len() && crate::gen::section_shown(t, #[trigger] secs[k]) ==> crate::gen::spec_existing_order(
                cur2,
                secs[k].dir,
            ) == sec_block(t, cur, secs[k]),
        forall|k: int|
            0 <= k < secs.len() && !crate::gen::section_shown(t, #[trigger] secs[k]) ==> !crate::gen::section_shown(
                t2,
                secs[k],
            ),
        forall|k: int, p: Seq<char>|
            0 <= k < secs.len() && #[trigger] path_good(p, secs[k].dir) ==> crate::gen::spec_title_of(t2, tis, p)
                == crate::gen::spec_title_of(t, tis, p) && (slashes(p) == 1 ==> spec_read_desc(t2, p)
                == spec_read_desc(t, p)),
    ensures
        crate::gen::sections_out(t2, tis, cur2, secs).lines == crate::gen::sections_out(t, tis, cur, secs).lines,
        crate::gen::sections_out(t2, tis, cur2, secs).files == crate::gen::sections_out(t, tis, cur, secs).files,
        crate::gen::sections_out(t2, tis, cur2, secs).added == Seq::<Seq<char>>::empty(),
        crate::gen::sections_out(t2, tis, cur2, secs).removed == Seq::<Seq<char>>::empty(),
    decreases secs.len(),
{
    if secs.len() > 0 {
        let r = secs.drop_first();
        assert forall|k: int| 0 <= k < r.len() implies sec_ready(t, #[trigger] r[k]) by {
            assert(r[k] == secs[k + 1]);
        }
        assert forall|k: int|
            0 <= k < r.len() && crate::gen::section_shown(t, #[trigger] r[k]) implies crate::gen::spec_existing_order(
            cur2,
            r[k].dir,
        ) == sec_block(t, cur, r[k]) by {
            assert(r[k] == secs[k + 1]);
        }
        assert forall|k: int|
            0 <= k < r.len() && !crate::gen::section_shown(t, #[trigger] r[k]) implies !crate::gen::section_shown(
            t2,
            r[k],
        ) by {
            assert(r[k] == secs[k + 1]);
        }
        assert forall|k: int, p: Seq<char>|
            0 <= k < r.len() && #[trigger] path_good(p, r[k].dir) implies crate::gen::spec_title_of(t2, tis, p)
            == crate::gen::spec_title_of(t, tis, p) && (slashes(p) == 1 ==> spec_read_desc(t2, p)
            == spec_read_desc(t, p)) by {
            assert(r[k] == secs[k + 1]);
            assert(path_good(p, secs[k + 1].dir));
        }
        lemma_out_same(t, t2, fs, tis, cur, cur2, r);
        let sec = secs[0];
        assert(sec_ready(t, sec));
        if crate::gen::section_shown(t, sec) {
            assert forall|p: Seq<char>| path_good(p, sec.dir) implies #[trigger] crate::gen::spec_title_of(t2, tis, p)
                == crate::gen::spec_title_of(t, tis, p) by {
                assert(path_good(p, secs[0].dir));
            }
            assert forall|p: Seq<char>| path_good(p, sec.dir) && slashes(p) == 1 implies #[trigger] spec_read_desc(
                t2,
                p,
            ) == spec_read_desc(t, p) by {
                assert(path_good(p, secs[0].dir));
            }
            lemma_section_same(t, t2, fs, tis, cur, cur2, sec);
            assert(Seq::<Seq<char>>::empty() + Seq::<Seq<char>>::empty() =~= Seq::<Seq<char>>::empty());
        } else {
            assert(!crate::gen::section_shown(t2, secs[0]));
        }
    }
}

/// The pages of the topic indexes, one per index, in order.
proof fn lemma_topic_pages_shape(t: TreeModel, tis: Seq<TopicIndexModel>)
    ensures
        topic_pages(t, tis).len() == tis.len(),
        forall|j: int| 0 <= j < tis.len() ==> #[trigger] topic_pages(t, tis)[j] == (tis[j].index, topic_index_text(t, tis[j])),
    decreases tis.len(),
{
    if tis.len() > 0 {
        lemma_topic_pages_shape(t, tis.drop_first());
        assert forall|j: int| 0 <= j < tis.len() implies #[trigger] topic_pages(t, tis)[j] == (
            tis[j].index,
            topic_index_text(t, tis[j]),
        ) by {
            if j > 0 {
                assert(topic_pages(t, tis)[j] == topic_pages(t, tis.drop_first())[j - 1]);
                assert(tis.drop_first()[j - 1] == tis[j]);
            }
        }
    }
}

/// `p` is the page of a shown section among `secs`.
pub open spec fn shown_page(t: TreeModel, secs: Seq<crate::meta::SectionModel>, p: Seq<char>) -> bool {
    exists|k: int|
        0 <= k < secs.len() && crate::gen::section_shown(t, secs[k]) && p == crate::gen::index_rel(#[trigger] secs[k])
}

/// The pages of the sections are the pages of shown sections.
proof fn lemma_out_files_shape(t: TreeModel, tis: Seq<TopicIndexModel>, cur: Seq<char>, secs: Seq<crate::meta::SectionModel>)
    ensures
        forall|j: int|
            0 <= j < crate::gen::sections_out(t, tis, cur, secs).files.len() ==> shown_page(
                t,
                secs,
                (#[trigger] crate::gen::sections_out(t, tis, cur, secs).files[j]).0,
            ),
    decreases secs.len(),
{
    if secs.len() > 0 {
        let r = secs.drop_first();
        lemma_out_files_shape(t, tis, cur, r);
        let f = crate::gen::sections_out(t, tis, cur, secs).files;
        let fr = crate::gen::sections_out(t, tis, cur, r).files;
        assert forall|j: int| 0 <= j < f.len() implies shown_page(t, secs, (#[trigger] f[j]).0) by {
            if crate::gen::section_shown(t, secs[0]) && j == 0 {
                assert(f[0].0 == crate::gen::index_rel(secs[0]));
            } else {
                let jr = if crate::gen::section_shown(t, secs[0]) {
                    j - 1
                } else {
                    j
                };
                assert(f[j] == fr[jr]);
                assert(shown_page(t, r, fr[jr].0));
                let k = choose|k: int|
                    0 <= k < r.len() && crate::gen::section_shown(t, r[k]) && fr[jr].0 == crate::gen::index_rel(
                        #[trigger] r[k],
                    );
                assert(r[k] == secs[k + 1]);
            }
        }
    }
}

// ---------------------------------------------------------------------------
// The files of a plan
// ---------------------------------------------------------------------------

/// What a topic index needs for regenerating to be a fixed point: no line
/// of its title but the last reads as a link (`lines_link_free`), and no
/// topic index page lies directly in its
/// directory, where it would be one of its entries.
pub open spec fn topic_ready(tis: Seq<TopicIndexModel>, ti: TopicIndexModel) -> bool {
    &&& lines_link_free(ti.title)
    &&& forall|j: int, n: Seq<char>|
        0 <= j < tis.len() && !has_char(n, '/') ==> #[trigger] join(ti.dir, n) != #[trigger] tis[j].index
}

/// The tree the sections are read from: `t` with the topic index pages written.
pub open spec fn sec_tree(t: TreeModel, m: crate::meta::MetaModel) -> TreeModel {
    crate::gen::planned_tree(t, m.topic_indexes)
}

/// What the tree and the configuration need for regenerating to be a fixed
/// point: every section is ready in the tree with the topic index pages
/// written, and every topic index is ready.
pub open spec fn regen_ready(t: TreeModel, m: crate::meta::MetaModel) -> bool {
    &&& forall|k: int| 0 <= k < m.sections.len() ==> sec_ready(sec_tree(t, m), #[trigger] m.sections[k])
    &&& forall|k: int| 0 <= k < m.topic_indexes.len() ==> topic_ready(m.topic_indexes, #[trigger] m.topic_indexes[k])
}

/// Recording the files `fs`, each path once, into a snapshot with distinct
/// paths writes them.
pub proof fn lemma_with_files(t: TreeModel, fs: Seq<(Seq<char>, Seq<char>)>)
    requires
        crate::tree::distinct_paths(t.files),
        forall|i: int, j: int| 0 <= i < j < fs.len() ==> fs[i].0 != fs[j].0,
    ensures
        written(t, crate::tree::with_files(t, fs), fs),
        crate::tree::distinct_paths(crate::tree::with_files(t, fs).files),
    decreases fs.len(),
{
    let w = crate::tree::with_files(t, fs);
    if fs.len() > 0 {
        let r = fs.drop_last();
        lemma_with_files(t, r);
        let w0 = crate::tree::with_files(t, r);
        let l = fs.last();
        crate::tree::lemma_with_file(w0, l.0, l.1);
        assert forall|p: Seq<char>| #[trigger] plans_path(fs, p) <==> (plans_path(r, p) || p == l.0) by {
            if plans_path(fs, p) {
                let i = choose|i: int| 0 <= i < fs.len() && fs[i].0 == p;
                if i < r.len() {
                    assert(r[i] == fs[i]);
                }
            }
            if plans_path(r, p) {
                let i = choose|i: int| 0 <= i < r.len() && r[i].0 == p;
                assert(fs[i] == r[i]);
            }
            if p == l.0 {
                assert(fs[fs.len() - 1] == l);
            }
        }
        assert forall|p: Seq<char>| #[trigger] has_path(w, p) <==> (has_path(t, p) || plans_path(fs, p)) by {
            assert(has_path(w0, p) <==> (has_path(t, p) || plans_path(r, p)));
        }
        assert forall|i: int| 0 <= i < fs.len() implies file_text(w, #[trigger] fs[i].0) == Some(fs[i].1) by {
            if i < fs.len() - 1 {
                assert(r[i] == fs[i]);
                assert(fs[i].0 != fs[fs.len() - 1].0);
                assert(file_text(w0, r[i].0) == Some(r[i].1));
            }
        }
        assert forall|p: Seq<char>| !plans_path(fs, p) implies #[trigger] file_text(w, p) == file_text(t, p) by {
            assert(!plans_path(r, p));
            assert(file_text(w0, p) == file_text(t, p));
        }
    }
}

/// Two topic index pages are at distinct paths.
proof fn lemma_pages_distinct(t: TreeModel, m: crate::meta::MetaModel)
    requires
        crate::meta::meta_wf(m),
    ensures
        forall|i: int, j: int|
            0 <= i < j < topic_pages(t, m.topic_indexes).len() ==> topic_pages(t, m.topic_indexes)[i].0
                != topic_pages(t, m.topic_indexes)[j].0,
{
    let tis = m.topic_indexes;
    lemma_topic_pages_shape(t, tis);
    assert forall|i: int, j: int| 0 <= i < j < tis.len() implies topic_pages(t, tis)[i].0 != topic_pages(t, tis)[j].0 by {
        assert(tis[i].dir != tis[j].dir);
        let x = ".md"@;
        if tis[i].index == tis[j].index {
            assert((tis[i].dir + x).len() == tis[i].dir.len() + x.len());
            assert((tis[j].dir + x).len() == tis[j].dir.len() + x.len());
            assert(tis[i].dir =~= tis[i].index.take(tis[i].dir.len() as int));
            assert(tis[j].dir =~= tis[j].index.take(tis[j].dir.len() as int));
        }
    }
}

/// The tree the sections are read from has the topic index pages written.
proof fn lemma_sec_tree(t: TreeModel, m: crate::meta::MetaModel)
    requires
        crate::meta::meta_wf(m),
        crate::tree::distinct_paths(t.files),
    ensures
        written(t, sec_tree(t, m), topic_pages(t, m.topic_indexes)),
        crate::tree::distinct_paths(sec_tree(t, m).files),
{
    lemma_pages_distinct(t, m);
    lemma_with_files(t, topic_pages(t, m.topic_indexes));
}

/// Writing files none of which lies directly in `ti.dir` leaves the entries
/// of the topic index as they were.
proof fn lemma_topic_files_grow(t: TreeModel, u: TreeModel, fs: Seq<(Seq<char>, Seq<char>)>, ti: TopicIndexModel)
    requires
        written(t, u, fs),
        forall|i: int, n: Seq<char>| 0 <= i < fs.len() && !has_char(n, '/') ==> #[trigger] fs[i].0 != #[trigger] join(ti.dir, n),
    ensures
        topic_files(u, ti) == topic_files(t, ti),
        entries_kept(t, fs, ti),
{
    let d = ti.dir;
    assert forall|n: Seq<char>| listed(t, d, n) == listed(u, d, n) by {
        if !has_char(n, '/') && plans_path(fs, join(d, n)) {
            let i = choose|i: int| 0 <= i < fs.len() && fs[i].0 == join(d, n);
            assert(fs[i].0 != join(d, n));
        }
    }
    lemma_listing_same(t, u, d);
    crate::md::lemma_listing(t, d);
    if is_dir(u, d) && !is_dir(t, d) && listing(t, d).len() > 0 {
        let n = listing(t, d)[0];
        assert(listing(t, d).contains(n));
        assert(listed(t, d, n));
        let q = join(d, n);
        assert(d.len() > 0);
        assert(q.subrange(0, d.len() + 1 as int) =~= d + seq!['/']);
        assert(has_path(t, q) && starts_with(q, d + seq!['/']));
    }
    if is_dir(t, d) && !is_dir(u, d) {
        if exists|p: Seq<char>| has_path(t, p) && starts_with(p, d + seq!['/']) {
            let p = choose|p: Seq<char>| has_path(t, p) && starts_with(p, d + seq!['/']);
            assert(has_path(u, p));
        }
    }
    assert forall|n: Seq<char>| #[trigger] listing(t, d).contains(n) implies !plans_path(fs, join(d, n)) by {
        assert(listed(t, d, n));
        if plans_path(fs, join(d, n)) {
            let i = choose|i: int| 0 <= i < fs.len() && fs[i].0 == join(d, n);
            assert(fs[i].0 != join(d, n));
        }
    }
}

/// The files of a successful plan.
pub open spec fn plan_files(t: TreeModel, m: crate::meta::MetaModel, cur: Seq<char>) -> Seq<(Seq<char>, Seq<char>)> {
    crate::gen::spec_plan(t, m, cur)->Ok_0.files
}

/// A plan writes the topic index pages first, then the pages of the shown
/// sections, then the sidebar.
proof fn lemma_plan_paths(t: TreeModel, m: crate::meta::MetaModel, cur: Seq<char>, p: Seq<char>)
    requires
        crate::gen::spec_plan(t, m, cur) is Ok,
    ensures
        forall|k: int|
            0 <= k < m.topic_indexes.len() ==> #[trigger] plan_files(t, m, cur)[k] == (
                m.topic_indexes[k].index,
                topic_index_text(t, m.topic_indexes[k]),
            ),
        forall|k: int|
            0 <= k < m.topic_indexes.len() ==> #[trigger] topic_pages(t, m.topic_indexes)[k] == plan_files(t, m, cur)[k],
        topic_pages(t, m.topic_indexes).len() == m.topic_indexes.len(),
        m.topic_indexes.len() <= plan_files(t, m, cur).len(),
        plans_path(plan_files(t, m, cur), p) ==> (exists|k: int|
            0 <= k < m.topic_indexes.len() && #[trigger] m.topic_indexes[k].index == p) || shown_page(
            sec_tree(t, m),
            m.sections,
            p,
        ) || p == "SUMMARY.md"@,
{
    let tis = m.topic_indexes;
    let u = sec_tree(t, m);
    let f = plan_files(t, m, cur);
    let tp = topic_pages(t, tis);
    let so = crate::gen::sections_out(u, tis, cur, m.sections);
    let sm = ("SUMMARY.md"@, crate::gen::summary_text(crate::gen::summary_head() + so.lines));
    assert(f == tp + so.files + seq![sm]);
    lemma_topic_pages_shape(t, tis);
    lemma_out_files_shape(u, tis, cur, m.sections);
    assert forall|k: int| 0 <= k < tis.len() implies #[trigger] f[k] == (tis[k].index, topic_index_text(t, tis[k])) by {
        assert(f[k] == tp[k]);
    }
    assert forall|k: int| 0 <= k < tis.len() implies #[trigger] tp[k] == f[k] by {
        assert(f[k] == tp[k]);
    }
    if plans_path(f, p) {
        let i = choose|i: int| 0 <= i < f.len() && f[i].0 == p;
        if i < tp.len() {
            assert(f[i] == tp[i]);
            assert(tis[i].index == p);
        } else if i < tp.len() + so.files.len() {
            assert(f[i] == so.files[i - tp.len()]);
            assert(shown_page(u, m.sections, so.files[i - tp.len()].0));
        } else {
            assert(f[i] == sm);
        }
    }
}

/// The topic index pages are in the tree the sections are read from.
proof fn lemma_pages_in_sec_tree(t: TreeModel, m: crate::meta::MetaModel, cur: Seq<char>)
    requires
        crate::meta::meta_wf(m),
        crate::tree::distinct_paths(t.files),
        crate::gen::spec_plan(t, m, cur) is Ok,
    ensures
        forall|k: int|
            0 <= k < m.topic_indexes.len() ==> has_path(sec_tree(t, m), #[trigger] m.topic_indexes[k].index)
                && file_text(sec_tree(t, m), m.topic_indexes[k].index) == Some(plan_files(t, m, cur)[k].1),
{
    let tis = m.topic_indexes;
    let tp = topic_pages(t, tis);
    lemma_sec_tree(t, m);
    lemma_plan_paths(t, m, cur, Seq::empty());
    assert forall|k: int| 0 <= k < tis.len() implies has_path(sec_tree(t, m), #[trigger] tis[k].index) && file_text(
        sec_tree(t, m),
        tis[k].index,
    ) == Some(plan_files(t, m, cur)[k].1) by {
        assert(tp[k] == plan_files(t, m, cur)[k]);
        assert(tp[k].0 == tis[k].index);
        assert(plans_path(tp, tis[k].index));
        assert(file_text(sec_tree(t, m), tp[k].0) == Some(tp[k].1));
    }
}

/// `a` starts with `c` when it starts with `b` and `b` with `c`.
proof fn lemma_starts_trans(a: Seq<char>, b: Seq<char>, c: Seq<char>)
    requires
        starts_with(a, b),
        starts_with(b, c),
    ensures
        starts_with(a, c),
{
    assert(a.subrange(0, c.len() as int) =~= b.subrange(0, c.len() as int));
}

/// The only directory above a section page is its section.
proof fn lemma_dir_of_page(sec: Seq<char>, x: Seq<char>)
    requires
        !has_char(sec, '/'),
        starts_with(sec + "/index.md"@, x + seq!['/']),
    ensures
        x == sec,
{
    reveal_strlit("/index.md");
    let w = sec + "/index.md"@;
    let n = x.len() as int;
    assert((x + seq!['/'])[n] == '/');
    assert(w[n] == '/');
    if n < sec.len() {
        assert(w[n] == sec[n]);
    } else if n > sec.len() {
        assert(w[n] == "/index.md"@[n - sec.len()]);
    }
    assert(x =~= w.subrange(0, n));
    assert(sec =~= w.subrange(0, n));
}

/// A section page path is `sec` joined with `index.md`.
proof fn lemma_page_join(sec: Seq<char>)
    requires
        sec.len() > 0,
    ensures
        sec + "/index.md"@ == join(sec, "index.md"@),
        !has_char("index.md"@, '/'),
        excluded("index.md"@),
{
    reveal_strlit("/index.md");
    reveal_strlit("index.md");
    assert(sec + "/index.md"@ =~= sec + seq!['/'] + "index.md"@);
}

/// The sidebar's path is a name under the root, and not a listed one.
proof fn lemma_summary_name()
    ensures
        excluded("SUMMARY.md"@),
        !has_char("SUMMARY.md"@, '/'),
        join(Seq::empty(), "SUMMARY.md"@) == "SUMMARY.md"@,
{
    reveal_strlit("SUMMARY.md");
}

/// The files of a plan never create a directory nor a listed file.
proof fn lemma_plan_safe(t: TreeModel, m: crate::meta::MetaModel, cur: Seq<char>)
    requires
        crate::meta::meta_wf(m),
        crate::tree::distinct_paths(t.files),
        regen_ready(t, m),
        crate::gen::spec_plan(t, m, cur) is Ok,
    ensures
        safe_writes(sec_tree(t, m), plan_files(t, m, cur)),
{
    let f = plan_files(t, m, cur);
    let tis = m.topic_indexes;
    let u = sec_tree(t, m);
    lemma_pages_in_sec_tree(t, m, cur);
    assert forall|i: int, x: Seq<char>|
        0 <= i < f.len() && #[trigger] starts_with(f[i].0, x + seq!['/']) implies is_dir(u, x) by {
        let p = f[i].0;
        lemma_plan_paths(t, m, cur, p);
        assert(plans_path(f, p));
        if exists|k: int| 0 <= k < tis.len() && #[trigger] tis[k].index == p {
            let k = choose|k: int| 0 <= k < tis.len() && #[trigger] tis[k].index == p;
            assert(has_path(u, p));
        } else if shown_page(u, m.sections, p) {
            let k = choose|k: int|
                0 <= k < m.sections.len() && crate::gen::section_shown(u, m.sections[k]) && p
                    == crate::gen::index_rel(#[trigger] m.sections[k]);
            let sec = m.sections[k];
            assert(sec_ready(u, sec));
            lemma_dir_of_page(sec.dir, x);
            let irel = crate::gen::index_rel(sec);
            reveal_strlit("/");
            reveal_strlit("index.md");
            reveal_strlit("/index.md");
            assert((irel + seq!['/']).subrange(0, irel.len() as int) =~= irel);
            assert(starts_with(irel, x + seq!['/'])) by {
                lemma_prefix_of_join(sec.dir, "index.md"@);
                assert(sec.dir + "/"@ + "index.md"@ =~= irel);
                assert(x + seq!['/'] =~= sec.dir + "/"@);
            }
            if spec_scan(u, sec.dir).len() == 0 {
                assert(crate::tree::path_exists(u, irel));
                if has_path(u, irel) {
                } else {
                    assert(is_dir(u, irel));
                    assert(irel.len() > 0);
                    if exists|j: int| 0 <= j < u.dirs.len() && u.dirs[j] == irel {
                        let j = choose|j: int| 0 <= j < u.dirs.len() && u.dirs[j] == irel;
                        assert(starts_with(u.dirs[j], x + seq!['/']));
                    } else if exists|j: int| 0 <= j < u.dirs.len() && starts_with(u.dirs[j], irel + seq!['/']) {
                        let j = choose|j: int| 0 <= j < u.dirs.len() && starts_with(u.dirs[j], irel + seq!['/']);
                        assert(starts_with(irel + seq!['/'], irel));
                        lemma_starts_trans(u.dirs[j], irel + seq!['/'], irel);
                        lemma_starts_trans(u.dirs[j], irel, x + seq!['/']);
                    } else {
                        let q = choose|q: Seq<char>| has_path(u, q) && starts_with(q, irel + seq!['/']);
                        assert(starts_with(irel + seq!['/'], irel));
                        lemma_starts_trans(q, irel + seq!['/'], irel);
                        lemma_starts_trans(q, irel, x + seq!['/']);
                    }
                }
            }
        } else {
            reveal_strlit("SUMMARY.md");
            assert(p == "SUMMARY.md"@);
            let n = x.len() as int;
            assert((x + seq!['/'])[n] == '/');
            assert(p[n] == (x + seq!['/'])[n]);
        }
    }
    assert forall|i: int, d: Seq<char>, n: Seq<char>|
        0 <= i < f.len() && #[trigger] f[i].0 == #[trigger] join(d, n) && !has_char(n, '/') implies has_path(
        u,
        f[i].0,
    ) || excluded(n) by {
        let p = f[i].0;
        lemma_plan_paths(t, m, cur, p);
        assert(plans_path(f, p));
        if exists|k: int| 0 <= k < tis.len() && #[trigger] tis[k].index == p {
            let k = choose|k: int| 0 <= k < tis.len() && #[trigger] tis[k].index == p;
            assert(has_path(u, p));
        } else if shown_page(u, m.sections, p) {
            let k = choose|k: int|
                0 <= k < m.sections.len() && crate::gen::section_shown(u, m.sections[k]) && p
                    == crate::gen::index_rel(#[trigger] m.sections[k]);
            assert(sec_ready(u, m.sections[k]));
            lemma_page_join(m.sections[k].dir);
            lemma_join_name(d, n, m.sections[k].dir, "index.md"@);
        } else {
            lemma_summary_name();
            lemma_join_name(d, n, Seq::empty(), "SUMMARY.md"@);
        }
    }
}

/// No topic index reads a file that a plan writes.
proof fn lemma_plan_kept(t: TreeModel, m: crate::meta::MetaModel, cur: Seq<char>, k: int)
    requires
        crate::meta::meta_wf(m),
        regen_ready(t, m),
        crate::gen::spec_plan(t, m, cur) is Ok,
        0 <= k < m.topic_indexes.len(),
    ensures
        entries_kept(sec_tree(t, m), plan_files(t, m, cur), m.topic_indexes[k]),
{
    let tis = m.topic_indexes;
    let ti = tis[k];
    let u = sec_tree(t, m);
    let f = plan_files(t, m, cur);
    assert(topic_ready(tis, ti));
    crate::md::lemma_listing(u, ti.dir);
    assert forall|n: Seq<char>| #[trigger] listing(u, ti.dir).contains(n) implies !plans_path(f, join(ti.dir, n)) by {
        let p = join(ti.dir, n);
        assert(crate::md::listed(u, ti.dir, n));
        lemma_plan_paths(t, m, cur, p);
        if plans_path(f, p) {
            if exists|j: int| 0 <= j < tis.len() && #[trigger] tis[j].index == p {
                let j = choose|j: int| 0 <= j < tis.len() && #[trigger] tis[j].index == p;
                assert(join(ti.dir, n) != tis[j].index);
            } else if shown_page(u, m.sections, p) {
                let j = choose|j: int|
                    0 <= j < m.sections.len() && crate::gen::section_shown(u, m.sections[j]) && p
                        == crate::gen::index_rel(#[trigger] m.sections[j]);
                lemma_page_join(m.sections[j].dir);
                lemma_join_name(ti.dir, n, m.sections[j].dir, "index.md"@);
            } else {
                lemma_summary_name();
                lemma_join_name(ti.dir, n, Seq::empty(), "SUMMARY.md"@);
            }
        }
    }
}

/// A path inside a section `sec/` has a `/`, so it is not the sidebar.
proof fn lemma_not_summary(p: Seq<char>, d: Seq<char>)
    requires
        starts_with(p, d + "/"@),
    ensures
        p != "SUMMARY.md"@,
{
    reveal_strlit("SUMMARY.md");
    reveal_strlit("/");
    assert((d + "/"@)[d.len() as int] == '/');
    assert(p[d.len() as int] == (d + "/"@)[d.len() as int]);
}

/// An entry of a section that is no topic index page is not written by a plan.
proof fn lemma_entry_not_planned(t: TreeModel, m: crate::meta::MetaModel, cur: Seq<char>, k: int, p: Seq<char>)
    requires
        crate::meta::meta_wf(m),
        regen_ready(t, m),
        crate::gen::spec_plan(t, m, cur) is Ok,
        0 <= k < m.sections.len(),
        path_good(p, m.sections[k].dir),
        forall|j: int| 0 <= j < m.topic_indexes.len() ==> #[trigger] m.topic_indexes[j].index != p,
    ensures
        !plans_path(plan_files(t, m, cur), p),
{
    lemma_plan_paths(t, m, cur, p);
    let sec = m.sections[k];
    assert(sec_ready(sec_tree(t, m), sec));
    if shown_page(sec_tree(t, m), m.sections, p) {
        let j = choose|j: int|
            0 <= j < m.sections.len() && crate::gen::section_shown(sec_tree(t, m), m.sections[j]) && p == crate::gen::index_rel(
                #[trigger] m.sections[j],
            );
        assert(sec_ready(sec_tree(t, m), m.sections[j]));
        reveal_strlit("/");
        reveal_strlit("index.md");
        reveal_strlit("/index.md");
        lemma_prefix_of_join(m.sections[j].dir, "index.md"@);
        assert(m.sections[j].dir + "/"@ + "index.md"@ =~= crate::gen::index_rel(m.sections[j]));
        lemma_two_sections(p, sec.dir, m.sections[j].dir);
    }
    lemma_not_summary(p, sec.dir);
}

/// Every entry of a section reads the same title after the writes, and a
/// top entry the same `desc`.
proof fn lemma_plan_reads(t: TreeModel, u2: TreeModel, m: crate::meta::MetaModel, cur: Seq<char>)
    requires
        crate::meta::meta_wf(m),
        crate::tree::distinct_paths(t.files),
        regen_ready(t, m),
        crate::gen::spec_plan(t, m, cur) is Ok,
        written(sec_tree(t, m), u2, plan_files(t, m, cur)),
    ensures
        forall|k: int, p: Seq<char>|
            0 <= k < m.sections.len() && #[trigger] path_good(p, m.sections[k].dir) ==> crate::gen::spec_title_of(
                u2,
                m.topic_indexes,
                p,
            ) == crate::gen::spec_title_of(sec_tree(t, m), m.topic_indexes, p) && (slashes(p) == 1
                ==> spec_read_desc(u2, p) == spec_read_desc(sec_tree(t, m), p)),
{
    let tis = m.topic_indexes;
    let u = sec_tree(t, m);
    let f = plan_files(t, m, cur);
    lemma_pages_in_sec_tree(t, m, cur);
    assert forall|k: int, p: Seq<char>|
        0 <= k < m.sections.len() && #[trigger] path_good(p, m.sections[k].dir) implies crate::gen::spec_title_of(
        u2,
        tis,
        p,
    ) == crate::gen::spec_title_of(u, tis, p) && (slashes(p) == 1 ==> spec_read_desc(u2, p) == spec_read_desc(
        u,
        p,
    )) by {
        assert forall|j: int| 0 <= j < tis.len() implies lines_link_free(#[trigger] tis[j].title) by {
            assert(topic_ready(tis, tis[j]));
        }
        lemma_title_for_clean(tis, p);
        lemma_plan_paths(t, m, cur, p);
        if exists|j: int| 0 <= j < tis.len() && #[trigger] tis[j].index == p {
            let j = choose|j: int| 0 <= j < tis.len() && #[trigger] tis[j].index == p;
            assert(f[j].0 == tis[j].index);
            assert(file_text(u2, f[j].0) == Some(f[j].1));
            assert(file_text(u, p) == Some(f[j].1));
        } else {
            lemma_entry_not_planned(t, m, cur, k, p);
            lemma_same_reads(u, u2, f, p);
        }
    }
}

/// A section page path names its section.
proof fn lemma_page_dir(a: Seq<char>, b: Seq<char>)
    requires
        a + "/index.md"@ == b + "/index.md"@,
    ensures
        a == b,
{
    let x = "/index.md"@;
    assert((a + x).len() == a.len() + x.len());
    assert((b + x).len() == b.len() + x.len());
    assert(a.len() == b.len());
    assert(a =~= (a + "/index.md"@).take(a.len() as int));
    assert(b =~= (b + "/index.md"@).take(b.len() as int));
}

/// A section hidden before the writes stays hidden.
proof fn lemma_plan_hidden(t: TreeModel, t2: TreeModel, m: crate::meta::MetaModel, cur: Seq<char>, k: int)
    requires
        crate::meta::meta_wf(m),
        crate::tree::distinct_paths(t.files),
        regen_ready(t, m),
        crate::gen::spec_plan(t, m, cur) is Ok,
        written(sec_tree(t, m), t2, plan_files(t, m, cur)),
        safe_writes(sec_tree(t, m), plan_files(t, m, cur)),
        0 <= k < m.sections.len(),
        !crate::gen::section_shown(sec_tree(t, m), m.sections[k]),
    ensures
        !crate::gen::section_shown(t2, m.sections[k]),
{
    let u = sec_tree(t, m);
    lemma_pages_in_sec_tree(t, m, cur);
    let sec = m.sections[k];
    let irel = crate::gen::index_rel(sec);
    let f = plan_files(t, m, cur);
    let tis = m.topic_indexes;
    lemma_scan_same(u, t2, f, sec.dir);
    lemma_same_dirs(u, t2, f);
    assert(is_dir(t2, irel) == is_dir(u, irel));
    lemma_plan_paths(t, m, cur, irel);
    if plans_path(f, irel) {
        if exists|j: int| 0 <= j < tis.len() && #[trigger] tis[j].index == irel {
            let j = choose|j: int| 0 <= j < tis.len() && #[trigger] tis[j].index == irel;
            assert(has_path(u, tis[j].index));
        } else if shown_page(u, m.sections, irel) {
            let j = choose|j: int|
                0 <= j < m.sections.len() && crate::gen::section_shown(u, m.sections[j]) && irel
                    == crate::gen::index_rel(#[trigger] m.sections[j]);
            lemma_page_dir(sec.dir, m.sections[j].dir);
            if j < k {
                assert(m.sections[j].dir != m.sections[k].dir);
            } else if k < j {
                assert(m.sections[k].dir != m.sections[j].dir);
            }
        } else {
            reveal_strlit("/");
            reveal_strlit("index.md");
            reveal_strlit("/index.md");
            lemma_prefix_of_join(sec.dir, "index.md"@);
            assert(sec.dir + "/"@ + "index.md"@ =~= irel);
            lemma_not_summary(irel, sec.dir);
        }
    }
}

/// After the files `fs` are written, none of them is out of date.
proof fn lemma_written_fresh(t: TreeModel, t2: TreeModel, fs: Seq<(Seq<char>, Seq<char>)>, n: int)
    requires
        written(t, t2, fs),
        0 <= n <= fs.len(),
    ensures
        crate::gen::stale_model(t2, fs.take(n)) == Seq::<Seq<char>>::empty(),
    decreases n,
{
    if n > 0 {
        lemma_written_fresh(t, t2, fs, n - 1);
        assert(fs.take(n).drop_last() =~= fs.take(n - 1));
        assert(fs.take(n).last() == fs[n - 1]);
        assert(file_text(t2, fs[n - 1].0) == Some(fs[n - 1].1));
    }
}

/// Once the files `fs` are written, none of them is out of date: applying
/// the same files again writes nothing.
pub proof fn writing_leaves_nothing_stale(t: TreeModel, t2: TreeModel, fs: Seq<(Seq<char>, Seq<char>)>)
    requires
        written(t, t2, fs),
    ensures
        crate::gen::stale_model(t2, fs) == Seq::<Seq<char>>::empty(),
{
    lemma_written_fresh(t, t2, fs, fs.len() as int);
    assert(fs.take(fs.len() as int) =~= fs);
}

/// Every file of `g` is a file of `f`, at the same place.
pub open spec fn prefix_of(g: Seq<(Seq<char>, Seq<char>)>, f: Seq<(Seq<char>, Seq<char>)>) -> bool {
    &&& g.len() <= f.len()
    &&& forall|j: int| 0 <= j < g.len() ==> #[trigger] g[j] == f[j]
}

/// Writing `g` and then all of `f`, which begins with `g`, is writing `f`
/// over the tree with `g` written.
proof fn lemma_written_over(
    t: TreeModel,
    u: TreeModel,
    t2: TreeModel,
    g: Seq<(Seq<char>, Seq<char>)>,
    f: Seq<(Seq<char>, Seq<char>)>,
)
    requires
        written(t, u, g),
        written(t, t2, f),
        prefix_of(g, f),
    ensures
        written(u, t2, f),
{
    assert forall|p: Seq<char>| plans_path(g, p) implies plans_path(f, p) by {
        let j = choose|j: int| 0 <= j < g.len() && g[j].0 == p;
        assert(g[j] == f[j]);
    }
    assert forall|p: Seq<char>| #[trigger] has_path(t2, p) <==> (has_path(u, p) || plans_path(f, p)) by {
        if plans_path(g, p) {
            assert(plans_path(f, p));
        }
    }
    assert forall|p: Seq<char>| !plans_path(f, p) implies #[trigger] file_text(t2, p) == file_text(u, p) by {
        if plans_path(g, p) {
            assert(plans_path(f, p));
        }
    }
}

/// Writing `f` and then again its first files `g` is writing `f`.
proof fn lemma_written_again(
    u: TreeModel,
    t2: TreeModel,
    u2: TreeModel,
    f: Seq<(Seq<char>, Seq<char>)>,
    g: Seq<(Seq<char>, Seq<char>)>,
)
    requires
        written(u, t2, f),
        written(t2, u2, g),
        prefix_of(g, f),
    ensures
        written(u, u2, f),
{
    assert forall|p: Seq<char>| plans_path(g, p) implies plans_path(f, p) by {
        let j = choose|j: int| 0 <= j < g.len() && g[j].0 == p;
        assert(g[j] == f[j]);
    }
    assert forall|p: Seq<char>| #[trigger] has_path(u2, p) <==> (has_path(u, p) || plans_path(f, p)) by {
        if plans_path(g, p) {
            assert(plans_path(f, p));
        }
    }
    assert forall|i: int| 0 <= i < f.len() implies file_text(u2, #[trigger] f[i].0) == Some(f[i].1) by {
        let p = f[i].0;
        if plans_path(g, p) {
            let j = choose|j: int| 0 <= j < g.len() && g[j].0 == p;
            assert(g[j] == f[j]);
            assert(file_text(u2, g[j].0) == Some(g[j].1));
            assert(file_text(t2, f[j].0) == Some(f[j].1));
            assert(file_text(t2, f[i].0) == Some(f[i].1));
        } else {
            assert(file_text(u2, p) == file_text(t2, p));
        }
    }
    assert forall|p: Seq<char>| !plans_path(f, p) implies #[trigger] file_text(u2, p) == file_text(u, p) by {
        assert(!plans_path(g, p));
        assert(file_text(u2, p) == file_text(t2, p));
    }
}

/// Regenerating is a fixed point: after the files of a plan are written,
/// planning again on the new tree, from the sidebar just written, gives the
/// same files, none of them out of date, and reports nothing added or
/// removed. It holds when every section and topic index is ready
/// (`regen_ready`): entries with paths whose parentheses balance (or that
/// hold no `)`) and that hold no newline nor `](./`, distinct child
/// directories for distinct top entries, parts no line of which reads as a
/// link, titles no line of which but the last reads as a link, and topic index pages that
/// are no entries of a topic index. These leave out only inputs whose
/// sidebar lines read back as other links than they were written with.
pub proof fn plan_is_idempotent(t: TreeModel, t2: TreeModel, m: crate::meta::MetaModel, cur: Seq<char>)
    requires
        crate::meta::meta_wf(m),
        crate::tree::distinct_paths(t.files),
        crate::tree::distinct_paths(t2.files),
        regen_ready(t, m),
        crate::gen::spec_plan(t, m, cur) is Ok,
        written(t, t2, plan_files(t, m, cur)),
    ensures
        crate::gen::spec_plan(t2, m, plan_files(t, m, cur).last().1) == Ok::<crate::gen::PlanModel, Seq<Seq<char>>>(
            crate::gen::PlanModel {
                files: plan_files(t, m, cur),
                added: Seq::empty(),
                removed: Seq::empty(),
            },
        ),
        crate::gen::stale_model(t2, plan_files(t, m, cur)) == Seq::<Seq<char>>::empty(),
{
    let tis = m.topic_indexes;
    let secs = m.sections;
    let f = plan_files(t, m, cur);
    let u = sec_tree(t, m);
    let tp = topic_pages(t, tis);
    let so = crate::gen::sections_out(u, tis, cur, secs);
    let lines = crate::gen::summary_head() + so.lines;
    let cur2 = crate::gen::summary_text(lines);
    assert(f == tp + so.files + seq![("SUMMARY.md"@, cur2)]);
    assert(f.last().1 == cur2);
    lemma_sec_tree(t, m);
    lemma_plan_paths(t, m, cur, Seq::empty());
    assert(prefix_of(tp, f));
    lemma_written_over(t, u, t2, tp, f);
    lemma_plan_safe(t, m, cur);
    lemma_same_dirs(u, t2, f);
    lemma_topic_pages_shape(t, tis);
    // The topic index pages read the same entries in `t`, `u` and `t2`.
    assert forall|k: int| 0 <= k < tis.len() implies entries_kept(u, f, #[trigger] tis[k]) && entries_kept(
        t,
        tp,
        tis[k],
    ) && topic_files(u, tis[k]) == topic_files(t, tis[k]) && topic_files(t2, tis[k]) == topic_files(u, tis[k]) by {
        lemma_plan_kept(t, m, cur, k);
        assert(topic_ready(tis, tis[k]));
        assert forall|i: int, n: Seq<char>| 0 <= i < tp.len() && !has_char(n, '/') implies #[trigger] tp[i].0
            != #[trigger] join(tis[k].dir, n) by {
            assert(tp[i].0 == tis[i].index);
            assert(join(tis[k].dir, n) != tis[i].index);
        }
        lemma_topic_files_grow(t, u, tp, tis[k]);
        assert(is_dir(t2, tis[k].dir) == is_dir(u, tis[k].dir));
        assert(listing(t2, tis[k].dir) == listing(u, tis[k].dir));
    }
    lemma_topic_pages(t, u, tp, tis);
    lemma_topic_pages(u, t2, f, tis);
    assert(topic_pages(t2, tis) == tp);
    assert(all_problems(t2, tis) == all_problems(t, tis));
    // The tree the sections are read from on the second run.
    let u2 = sec_tree(t2, m);
    lemma_sec_tree(t2, m);
    lemma_written_again(u, t2, u2, f, tp);
    assert forall|j: int| 0 <= j < tis.len() implies lines_link_free(#[trigger] tis[j].title) by {
        assert(topic_ready(tis, tis[j]));
    }
    assert forall|k: int| 0 <= k < secs.len() implies sec_ready(u, #[trigger] secs[k]) by {}
    assert forall|k: int|
        0 <= k < secs.len() && crate::gen::section_shown(u, #[trigger] secs[k]) implies crate::gen::spec_existing_order(
        cur2,
        secs[k].dir,
    ) == sec_block(u, cur, secs[k]) by {
        lemma_sidebar_order(u, tis, cur, secs, k);
    }
    assert forall|k: int|
        0 <= k < secs.len() && !crate::gen::section_shown(u, #[trigger] secs[k]) implies !crate::gen::section_shown(
        u2,
        secs[k],
    ) by {
        lemma_plan_hidden(t, u2, m, cur, k);
    }
    lemma_plan_reads(t, u2, m, cur);
    lemma_out_same(u, u2, f, tis, cur, cur2, secs);
    lemma_written_fresh(t, t2, f, f.len() as int);
    assert(f.take(f.len() as int) =~= f);
}

/// Planning is stable on an unchanged tree: planning again, from the
/// sidebar the first plan wrote, gives the same files and reports nothing
/// added or removed. It holds when every section and topic index is ready
/// (`regen_ready`), as for `plan_is_idempotent`.
pub proof fn replan_is_stable(t: TreeModel, m: crate::meta::MetaModel, cur: Seq<char>)
    requires
        crate::meta::meta_wf(m),
        regen_ready(t, m),
        crate::gen::spec_plan(t, m, cur) is Ok,
    ensures
        crate::gen::spec_plan(t, m, plan_files(t, m, cur).last().1) == Ok::<crate::gen::PlanModel, Seq<Seq<char>>>(
            crate::gen::PlanModel {
                files: plan_files(t, m, cur),
                added: Seq::empty(),
                removed: Seq::empty(),
            },
        ),
{
    let tis = m.topic_indexes;
    let secs = m.sections;
    let f = plan_files(t, m, cur);
    let u = sec_tree(t, m);
    let tp = topic_pages(t, tis);
    let so = crate::gen::sections_out(u, tis, cur, secs);
    let cur2 = crate::gen::summary_text(crate::gen::summary_head() + so.lines);
    let none = Seq::<(Seq<char>, Seq<char>)>::empty();
    assert(f == tp + so.files + seq![("SUMMARY.md"@, cur2)]);
    assert(f.last().1 == cur2);
    assert(written(u, u, none));
    assert(safe_writes(u, none));
    assert forall|j: int| 0 <= j < tis.len() implies lines_link_free(#[trigger] tis[j].title) by {
        assert(topic_ready(tis, tis[j]));
    }
    assert forall|k: int|
        0 <= k < secs.len() && crate::gen::section_shown(u, #[trigger] secs[k]) implies crate::gen::spec_existing_order(
        cur2,
        secs[k].dir,
    ) == sec_block(u, cur, secs[k]) by {
        lemma_sidebar_order(u, tis, cur, secs, k);
    }
    lemma_out_same(u, u, none, tis, cur, cur2, secs);
}

/// The sidebar links each entry of a section once and nothing else of its
/// directory. Read line by line, the links of the written sidebar into a
/// section's directory, other than the section's page, are: for a shown
/// section, exactly its entries on disk (over the tree with the topic index
/// pages written), each once, in the section's order (`sec_block`: each
/// top entry, one `/`, followed by its children, two `/` and under its
/// child directory, as `parents_ok` states); for a
/// hidden section (no entry and no page) none, and no page is written for
/// it. It needs every section ready and topic index titles no line of which
/// but the last reads as a link, so that the sidebar reads back as written.
pub proof fn sidebar_links_each_entry_once(t: TreeModel, m: crate::meta::MetaModel, cur: Seq<char>, k: int)
    requires
        crate::meta::meta_wf(m),
        crate::tree::distinct_paths(t.files),
        forall|j: int| 0 <= j < m.sections.len() ==> sec_ready(sec_tree(t, m), #[trigger] m.sections[j]),
        forall|j: int| 0 <= j < m.topic_indexes.len() ==> lines_link_free(#[trigger] m.topic_indexes[j].title),
        crate::gen::spec_plan(t, m, cur) is Ok,
        0 <= k < m.sections.len(),
    ensures
        ({
            let u = sec_tree(t, m);
            let sec = m.sections[k];
            let links = picks(
                crate::text::lines(plan_files(t, m, cur).last().1),
                sec.dir + "/"@,
                crate::gen::index_rel(sec),
            );
            &&& crate::gen::section_shown(u, sec) ==> links == sec_block(u, cur, sec) && distinct(links)
                && forall|x: Seq<char>| #[trigger] links.contains(x) <==> crate::sidebar::on_disk(u, sec.dir, x)
            &&& crate::gen::section_shown(u, sec) ==> parents_ok(
                spec_scan(u, sec.dir),
                crate::gen::spec_existing_order(cur, sec.dir),
                sec_parents(u, cur, sec),
            )
            &&& !crate::gen::section_shown(u, sec) ==> links.len() == 0 && !plans_path(
                plan_files(t, m, cur),
                crate::gen::index_rel(sec),
            )
        }),
{
    let u = sec_tree(t, m);
    let tis = m.topic_indexes;
    let secs = m.sections;
    let sec = secs[k];
    let d = sec.dir;
    let pre = d + "/"@;
    let ip = d + "/index.md"@;
    let h = crate::gen::summary_head();
    let so = crate::gen::sections_out(u, tis, cur, secs);
    let all = h + so.lines;
    let f = plan_files(t, m, cur);
    assert(f == topic_pages(t, tis) + so.files + seq![("SUMMARY.md"@, crate::gen::summary_text(all))]);
    assert(sec_ready(u, sec));
    lemma_head_lines(d);
    lemma_out_picks_at(u, tis, cur, secs, k);
    lemma_lines_ok_concat(h, so.lines);
    lemma_picks_concat(h, so.lines, pre, ip);
    reveal_strlit("# Summary");
    assert(all[0] == h[0]);
    lemma_summary_picks(all, pre, ip);
    assert(Seq::<Seq<char>>::empty() + picks(so.lines, pre, ip) =~= picks(so.lines, pre, ip));
    if crate::gen::section_shown(u, sec) {
        crate::sidebar::lemma_block_is_disk(u, cur, sec);
        lemma_section_facts(u, cur, sec);
    } else {
        lemma_pages_in_sec_tree(t, m, cur);
        lemma_plan_paths(t, m, cur, ip);
        if plans_path(f, ip) {
            if exists|j: int| 0 <= j < tis.len() && #[trigger] tis[j].index == ip {
                let j = choose|j: int| 0 <= j < tis.len() && #[trigger] tis[j].index == ip;
                assert(has_path(u, tis[j].index));
                assert(crate::tree::path_exists(u, ip));
            } else if shown_page(u, secs, ip) {
                let j = choose|j: int|
                    0 <= j < secs.len() && crate::gen::section_shown(u, secs[j]) && ip == crate::gen::index_rel(
                        #[trigger] secs[j],
                    );
                lemma_page_dir(sec.dir, secs[j].dir);
                if j < k {
                    assert(secs[j].dir != secs[k].dir);
                } else if k < j {
                    assert(secs[k].dir != secs[j].dir);
                }
            } else {
                reveal_strlit("/");
                reveal_strlit("index.md");
                reveal_strlit("/index.md");
                lemma_prefix_of_join(sec.dir, "index.md"@);
                assert(sec.dir + "/"@ + "index.md"@ =~= ip);
                lemma_not_summary(ip, sec.dir);
            }
        }
    }
}

/// The indentation of an entry's sidebar line: two spaces for a top entry
/// (one `/`), four for a child (two `/`).
pub open spec fn entry_indent(x: Seq<char>) -> Seq<char> {
    if slashes(x) == 1 {
        "  "@
    } else {
        "    "@
    }
}

/// Line `l`, when it links a path under `prefix` other than `index_path`,
/// is that entry's line: indented by its depth and titled as the entry.
pub open spec fn indented_line(
    l: Seq<char>,
    t: TreeModel,
    tis: Seq<TopicIndexModel>,
    prefix: Seq<char>,
    index_path: Seq<char>,
) -> bool {
    match spec_extract_link_path(l) {
        Some(x) => starts_with(x, prefix) && x != index_path ==> l == entry_line(
            entry_indent(x),
            crate::gen::spec_title_of(t, tis, x),
            x,
        ),
        None => true,
    }
}

/// Every line of `ls` that links a path under `prefix` other than
/// `index_path` is that entry's line (`indented_line`).
pub open spec fn entries_indented(
    ls: Seq<Seq<char>>,
    t: TreeModel,
    tis: Seq<TopicIndexModel>,
    prefix: Seq<char>,
    index_path: Seq<char>,
) -> bool {
    forall|k: int| 0 <= k < ls.len() ==> indented_line(#[trigger] ls[k], t, tis, prefix, index_path)
}

proof fn lemma_indented_concat(
    a: Seq<Seq<char>>,
    b: Seq<Seq<char>>,
    t: TreeModel,
    tis: Seq<TopicIndexModel>,
    prefix: Seq<char>,
    index_path: Seq<char>,
)
    requires
        entries_indented(a, t, tis, prefix, index_path),
        entries_indented(b, t, tis, prefix, index_path),
    ensures
        entries_indented(a + b, t, tis, prefix, index_path),
{
    assert forall|k: int| 0 <= k < (a + b).len() implies indented_line(#[trigger] (a + b)[k], t, tis, prefix, index_path) by {
        if k < a.len() {
            assert((a + b)[k] == a[k]);
        } else {
            assert((a + b)[k] == b[k - a.len()]);
        }
    }
}

/// Lines that link nothing under `prefix` but `index_path` are trivially
/// indented.
proof fn lemma_indented_none(
    ls: Seq<Seq<char>>,
    t: TreeModel,
    tis: Seq<TopicIndexModel>,
    prefix: Seq<char>,
    index_path: Seq<char>,
)
    requires
        picks(ls, prefix, index_path) == Seq::<Seq<char>>::empty(),
    ensures
        entries_indented(ls, t, tis, prefix, index_path),
    decreases ls.len(),
{
    if ls.len() > 0 {
        let r = ls.drop_first();
        let here = match spec_extract_link_path(ls[0]) {
            Some(rel) => if starts_with(rel, prefix) && rel != index_path {
                seq![rel]
            } else {
                Seq::empty()
            },
            None => Seq::<Seq<char>>::empty(),
        };
        assert(picks(ls, prefix, index_path) == here + picks(r, prefix, index_path));
        assert(here.len() == 0);
        assert(picks(r, prefix, index_path) =~= Seq::<Seq<char>>::empty());
        lemma_indented_none(r, t, tis, prefix, index_path);
        assert forall|k: int| 0 <= k < ls.len() implies indented_line(#[trigger] ls[k], t, tis, prefix, index_path) by {
            if k > 0 {
                assert(ls[k] == r[k - 1]);
            }
        }
    }
}

proof fn lemma_child_indent(
    t: TreeModel,
    tis: Seq<TopicIndexModel>,
    cs: Seq<Seq<char>>,
    prefix: Seq<char>,
    index_path: Seq<char>,
)
    requires
        forall|k: int| 0 <= k < cs.len() ==> clean(#[trigger] cs[k]) && slashes(cs[k]) == 2,
        forall|k: int| 0 <= k < tis.len() ==> lines_link_free(#[trigger] tis[k].title),
    ensures
        entries_indented(crate::gen::child_lines(t, tis, cs), t, tis, prefix, index_path),
    decreases cs.len(),
{
    if cs.len() > 0 {
        let r = cs.drop_first();
        assert forall|k: int| 0 <= k < r.len() implies clean(#[trigger] r[k]) && slashes(r[k]) == 2 by {
            assert(r[k] == cs[k + 1]);
        }
        lemma_child_indent(t, tis, r, prefix, index_path);
        let title = crate::gen::spec_title_of(t, tis, cs[0]);
        lemma_title_clean(t, tis, cs[0]);
        lemma_lit_lines();
        lemma_entry_ok("    "@, title, cs[0]);
        let l = entry_line("    "@, title, cs[0]);
        assert(crate::gen::child_lines(t, tis, cs) == seq![l] + crate::gen::child_lines(t, tis, r));
        assert(entries_indented(seq![l], t, tis, prefix, index_path)) by {
            assert forall|k: int| 0 <= k < 1 implies indented_line(#[trigger] seq![l][k], t, tis, prefix, index_path) by {
                assert(seq![l][k] == l);
            }
        }
        lemma_indented_concat(seq![l], crate::gen::child_lines(t, tis, r), t, tis, prefix, index_path);
    }
}

proof fn lemma_pp_indent(
    t: TreeModel,
    tis: Seq<TopicIndexModel>,
    prior: Seq<Seq<char>>,
    on_disk: Seq<ItemModel>,
    ps: Seq<Seq<char>>,
    prefix: Seq<char>,
    index_path: Seq<char>,
)
    requires
        forall|k: int| 0 <= k < ps.len() ==> clean(#[trigger] ps[k]) && slashes(ps[k]) == 1,
        forall|k: int, x: Seq<char>|
            0 <= k < ps.len() && #[trigger] kids(on_disk, prior, ps[k]).contains(x) ==> clean(x) && slashes(x) == 2,
        forall|k: int| 0 <= k < tis.len() ==> lines_link_free(#[trigger] tis[k].title),
    ensures
        entries_indented(crate::gen::parents_part(t, tis, prior, on_disk, ps).lines, t, tis, prefix, index_path),
    decreases ps.len(),
{
    if ps.len() > 0 {
        let r = ps.drop_first();
        assert forall|k: int| 0 <= k < r.len() implies clean(#[trigger] r[k]) && slashes(r[k]) == 1 by {
            assert(r[k] == ps[k + 1]);
        }
        assert forall|k: int, x: Seq<char>|
            0 <= k < r.len() && #[trigger] kids(on_disk, prior, r[k]).contains(x) implies clean(x) && slashes(x)
            == 2 by {
            assert(r[k] == ps[k + 1]);
            assert(kids(on_disk, prior, ps[k + 1]).contains(x));
        }
        lemma_pp_indent(t, tis, prior, on_disk, r, prefix, index_path);
        let p = ps[0];
        let cs = kids(on_disk, prior, p);
        assert forall|k: int| 0 <= k < cs.len() implies clean(#[trigger] cs[k]) && slashes(cs[k]) == 2 by {
            assert(cs.contains(cs[k]));
            assert(kids(on_disk, prior, ps[0]).contains(cs[k]));
        }
        lemma_child_indent(t, tis, cs, prefix, index_path);
        lemma_title_clean(t, tis, p);
        lemma_lit_lines();
        lemma_entry_ok("  "@, crate::gen::spec_title_of(t, tis, p), p);
        let l = entry_line("  "@, crate::gen::spec_title_of(t, tis, p), p);
        let cl = crate::gen::child_lines(t, tis, cs);
        let rl = crate::gen::parents_part(t, tis, prior, on_disk, r).lines;
        assert(crate::gen::parents_part(t, tis, prior, on_disk, ps).lines == seq![l] + cl + rl);
        assert(entries_indented(seq![l], t, tis, prefix, index_path)) by {
            assert forall|k: int| 0 <= k < 1 implies indented_line(#[trigger] seq![l][k], t, tis, prefix, index_path) by {
                assert(seq![l][k] == l);
            }
        }
        lemma_indented_concat(seq![l], cl, t, tis, prefix, index_path);
        lemma_indented_concat(seq![l] + cl, rl, t, tis, prefix, index_path);
    }
}

proof fn lemma_part_indent(
    t: TreeModel,
    tis: Seq<TopicIndexModel>,
    cur: Seq<char>,
    sec: crate::meta::SectionModel,
    d: Seq<char>,
)
    requires
        sec_ready(t, sec),
        !has_char(d, '/'),
        forall|k: int| 0 <= k < tis.len() ==> lines_link_free(#[trigger] tis[k].title),
    ensures
        entries_indented(crate::gen::section_part(t, tis, cur, sec).lines, t, tis, d + "/"@, d + "/index.md"@),
{
    let pre = d + "/"@;
    let ip = d + "/index.md"@;
    let all = crate::gen::section_part(t, tis, cur, sec).lines;
    lemma_part_picks(t, tis, cur, sec, d);
    if sec.dir != d {
        lemma_indented_none(all, t, tis, pre, ip);
    } else {
        let on_disk = spec_scan(t, sec.dir);
        let prior = crate::gen::spec_existing_order(cur, sec.dir);
        let ps = sec_parents(t, cur, sec);
        lemma_section_facts(t, cur, sec);
        assert forall|k: int| 0 <= k < ps.len() implies clean(#[trigger] ps[k]) && slashes(ps[k]) == 1 by {
            assert(path_good(ps[k], sec.dir));
        }
        assert forall|k: int, x: Seq<char>|
            0 <= k < ps.len() && #[trigger] kids(on_disk, prior, ps[k]).contains(x) implies clean(x) && slashes(x)
            == 2 by {
            assert(path_good(x, sec.dir));
        }
        lemma_pp_indent(t, tis, prior, on_disk, ps, pre, ip);
        let pp = crate::gen::parents_part(t, tis, prior, on_disk, ps);
        let irel = crate::gen::index_rel(sec);
        let e = Seq::<char>::empty();
        let head = seq!["# "@ + sec.part, e, entry_line(e, sec.title, irel)];
        assert(all == head + pp.lines + seq![e]);
        lemma_part_ok(sec.part);
        lemma_extract_empty(e);
        lemma_lit_lines();
        lemma_entry_ok(e, sec.title, irel);
        assert(irel == ip);
        assert forall|k: int| 0 <= k < head.len() implies (#[trigger] spec_extract_link_path(head[k]) matches Some(
            rel,
        ) ==> !starts_with(rel, pre) || rel == ip) by {
            if k == 1 {
                assert(head[1] == e);
            }
        }
        lemma_picks_none(head, pre, ip);
        lemma_indented_none(head, t, tis, pre, ip);
        assert forall|k: int| 0 <= k < seq![e].len() implies (#[trigger] spec_extract_link_path(seq![e][k]) matches Some(
            rel,
        ) ==> !starts_with(rel, pre) || rel == ip) by {
            assert(seq![e][k] == e);
        }
        lemma_picks_none(seq![e], pre, ip);
        lemma_indented_none(seq![e], t, tis, pre, ip);
        lemma_indented_concat(head, pp.lines, t, tis, pre, ip);
        lemma_indented_concat(head + pp.lines, seq![e], t, tis, pre, ip);
    }
}

proof fn lemma_out_indent(
    t: TreeModel,
    tis: Seq<TopicIndexModel>,
    cur: Seq<char>,
    secs: Seq<crate::meta::SectionModel>,
    d: Seq<char>,
)
    requires
        forall|k: int| 0 <= k < secs.len() ==> sec_ready(t, #[trigger] secs[k]),
        !has_char(d, '/'),
        forall|k: int| 0 <= k < tis.len() ==> lines_link_free(#[trigger] tis[k].title),
    ensures
        entries_indented(crate::gen::sections_out(t, tis, cur, secs).lines, t, tis, d + "/"@, d + "/index.md"@),
    decreases secs.len(),
{
    if secs.len() == 0 {
        lemma_indented_none(Seq::empty(), t, tis, d + "/"@, d + "/index.md"@);
    } else {
        let r = secs.drop_first();
        assert forall|k: int| 0 <= k < r.len() implies sec_ready(t, #[trigger] r[k]) by {
            assert(r[k] == secs[k + 1]);
        }
        lemma_out_indent(t, tis, cur, r, d);
        assert(sec_ready(t, secs[0]));
        if crate::gen::section_shown(t, secs[0]) {
            lemma_part_indent(t, tis, cur, secs[0], d);
            lemma_indented_concat(
                crate::gen::section_part(t, tis, cur, secs[0]).lines,
                crate::gen::sections_out(t, tis, cur, r).lines,
                t,
                tis,
                d + "/"@,
                d + "/index.md"@,
            );
        }
    }
}

/// The sidebar writes each entry of a section on a line of its own,
/// indented by its depth: every line of the sidebar that links into a
/// section's directory, other than the section's page, is
/// `  - [title](./rel)` for a top entry (one `/`) and `    - [title](./rel)`
/// for a child (two `/`), titled as the entry. `SUMMARY.md` holds these
/// lines joined by newlines. It needs every section ready and topic index
/// titles no line of which but the last reads as a link.
pub proof fn sidebar_entries_indented_by_depth(t: TreeModel, m: crate::meta::MetaModel, cur: Seq<char>, k: int)
    requires
        crate::meta::meta_wf(m),
        forall|j: int| 0 <= j < m.sections.len() ==> sec_ready(sec_tree(t, m), #[trigger] m.sections[j]),
        forall|j: int| 0 <= j < m.topic_indexes.len() ==> lines_link_free(#[trigger] m.topic_indexes[j].title),
        crate::gen::spec_plan(t, m, cur) is Ok,
        0 <= k < m.sections.len(),
    ensures
        plan_files(t, m, cur).last().1 == crate::gen::summary_text(
            crate::gen::summary_head() + crate::gen::sections_out(sec_tree(t, m), m.topic_indexes, cur, m.sections).lines,
        ),
        entries_indented(
            crate::gen::summary_head() + crate::gen::sections_out(sec_tree(t, m), m.topic_indexes, cur, m.sections).lines,
            sec_tree(t, m),
            m.topic_indexes,
            m.sections[k].dir + "/"@,
            crate::gen::index_rel(m.sections[k]),
        ),
{
    let u = sec_tree(t, m);
    let tis = m.topic_indexes;
    let d = m.sections[k].dir;
    let h = crate::gen::summary_head();
    let so = crate::gen::sections_out(u, tis, cur, m.sections);
    assert(plan_files(t, m, cur) == topic_pages(t, tis) + so.files + seq![
        ("SUMMARY.md"@, crate::gen::summary_text(h + so.lines)),
    ]);
    assert(sec_ready(u, m.sections[k]));
    lemma_head_lines(d);
    lemma_indented_none(h, u, tis, d + "/"@, d + "/index.md"@);
    lemma_out_indent(u, tis, cur, m.sections, d);
    lemma_indented_concat(h, so.lines, u, tis, d + "/"@, d + "/index.md"@);
}

} // verus!
