//! Preparing the built book for the search index.
use vstd::prelude::*;

use crate::text::{chars_of, contains, contains_str, is_ws, push_str, skip, slice_of, string_of};

verus! {

/// The attribute that keeps a page's `<main>` out of the search index.
pub open spec fn ignore_attr() -> Seq<char> {
    " data-pagefind-ignore=\"all\""@
}

/// A `<main>` tag starts at `j`: `<main` followed by `>` or whitespace.
pub open spec fn main_at(html: Seq<char>, j: int) -> bool {
    &&& crate::text::occurs_at(html, "<main"@, j)
    &&& j + 5 < html.len()
    &&& html[j + 5] == '>' || is_ws(html[j + 5])
}

/// Where the first `<main>` tag at or after `i` starts.
pub open spec fn main_tag_from(html: Seq<char>, i: int) -> Option<int>
    decreases html.len() - i,
{
    if i < 0 || i + 5 >= html.len() {
        None
    } else if main_at(html, i) {
        Some(i)
    } else {
        main_tag_from(html, i + 1)
    }
}

/// What `mark_ignored` gives: `None` when the page is already marked or has
/// no `<main>` tag (a tag such as `<mainframe>` does not count), else the
/// page with the attribute inserted into its first `<main>` tag.
pub open spec fn mark_model(html: Seq<char>) -> Option<Seq<char>> {
    if contains(html, "data-pagefind-ignore"@) {
        None
    } else {
        match main_tag_from(html, 0) {
            None => None,
            Some(idx) => Some(html.take(idx + 5) + ignore_attr() + html.skip(idx + 5)),
        }
    }
}

proof fn lemma_main_tag_from(html: Seq<char>, i: int)
    ensures
        main_tag_from(html, i) matches Some(j) ==> i <= j && main_at(html, j),
    decreases html.len() - i,
{
    if !(i < 0 || i + 5 >= html.len()) && !main_at(html, i) {
        lemma_main_tag_from(html, i + 1);
    }
}

/// Adds `data-pagefind-ignore="all"` to the `<main>` tag of a page.
///
/// Navigation pages (the front page and the chapter index pages) only
/// collect links, and the front page lists keywords of every kind: indexed,
/// they would match almost every query.
pub fn mark_ignored(html: &str) -> (r: Option<String>)
    ensures
        crate::md::opt_str_view(r) == mark_model(html@),
{
    let h = chars_of(html);
    if contains_str(&h, "data-pagefind-ignore") {
        return None;
    }
    let tag = chars_of("<main");
    proof {
        reveal_strlit("<main");
    }
    let hl = h.len();
    let mut i: usize = 0;
    while hl > 5 && i < hl - 5
        invariant
            i <= hl,
            hl == h.len(),
            h@ == html@,
            tag@ == "<main"@,
            !contains(html@, "data-pagefind-ignore"@),
            main_tag_from(h@, 0) == main_tag_from(h@, i as int),
        decreases hl - i,
    {
        let next = h[i + 5];
        if crate::text::occurs_at_exec(&h, &tag, i) && (next == '>' || crate::text::is_whitespace(next)) {
            let after = i + 5;
            let mut out = slice_of(&h, 0, after);
            push_str(&mut out, " data-pagefind-ignore=\"all\"");
            let rest = skip(&h, after);
            crate::text::append(&mut out, &rest);
            assert(main_at(h@, i as int));
            assert(out@ =~= html@.take(after as int) + ignore_attr() + html@.skip(after as int));
            return Some(string_of(&out));
        }
        i = i + 1;
    }
    None
}

/// Marking is idempotent: a marked page is not marked again.
pub proof fn mark_is_idempotent(html: Seq<char>)
    ensures
        mark_model(html) matches Some(o) ==> mark_model(o) is None,
{
    if let Some(o) = mark_model(html) {
        reveal_strlit(" data-pagefind-ignore=\"all\"");
        reveal_strlit("data-pagefind-ignore");
        reveal_strlit("<main");
        let idx = main_tag_from(html, 0)->0;
        lemma_main_tag_from(html, 0);
        let after = idx + 5;
        let p = "data-pagefind-ignore"@;
        assert(o.subrange(after + 1, after + 1 + p.len()) =~= p);
        crate::text::lemma_find_from_bounds(o, p, 0);
        assert(crate::text::occurs_at(o, p, after + 1));
    }
}

} // verus!
