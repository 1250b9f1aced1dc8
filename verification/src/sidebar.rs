//! What the sidebar lists for a section: every entry found on disk, each
//! once and nothing else; and what a run reports: the entries the current
//! sidebar lacks as added, entries it listed that are gone as removed.
use vstd::prelude::*;

use crate::gen::{
    ItemModel, child_items, child_prefix, disk_children, disk_parents, new_paths, prior_parents, prior_under,
    scan_names, spec_existing_order, spec_scan,
};
use crate::md::{listing, trim_end_matches};
use crate::regen::{block_paths, kids, sec_block, sec_parents, sec_ready};
use crate::text::{ends_with, starts_with};
use crate::tree::{TreeModel, distinct, is_dir, join};

verus! {

// ---------------------------------------------------------------------------
// Every child on disk lies under the directory of a top entry
// ---------------------------------------------------------------------------

/// Trimming `.md` endings stops at a `/`.
proof fn lemma_trim_md_concat(a: Seq<char>, b: Seq<char>)
    requires
        a.len() > 0,
        a.last() == '/',
    ensures
        trim_end_matches(a + b, ".md"@) == a + trim_end_matches(b, ".md"@),
    decreases b.len(),
{
    reveal_strlit(".md");
    let s = a + b;
    if ends_with(b, ".md"@) {
        assert(s.subrange(s.len() - 3, s.len() as int) =~= b.subrange(b.len() - 3, b.len() as int));
        let b2 = b.take(b.len() - 3);
        assert(s.take(s.len() - 3) =~= a + b2);
        lemma_trim_md_concat(a, b2);
    } else {
        if ends_with(s, ".md"@) {
            if b.len() >= 3 {
                assert(s.subrange(s.len() - 3, s.len() as int) =~= b.subrange(b.len() - 3, b.len() as int));
            } else {
                let w = s.subrange(s.len() - 3, s.len() as int);
                let i = a.len() - 1 - (s.len() - 3);
                assert(w[i] == s[a.len() - 1]);
                assert(s[a.len() - 1] == a.last());
                assert(".md"@[i] != '/');
            }
        }
    }
}

/// Within `scan_names`, each child follows a top entry whose child
/// directory holds it.
proof fn lemma_names_parented(t: TreeModel, sec: Seq<char>, names: Seq<Seq<char>>)
    ensures
        forall|j: int|
            0 <= j < scan_names(t, sec, names).len() && (#[trigger] scan_names(t, sec, names)[j]).depth == 1
                ==> exists|i: int|
                0 <= i < scan_names(t, sec, names).len() && scan_names(t, sec, names)[i].depth == 0 && starts_with(
                    scan_names(t, sec, names)[j].rel,
                    child_prefix(scan_names(t, sec, names)[i].rel),
                ),
    decreases names.len(),
{
    if names.len() > 0 {
        let r = names.drop_first();
        lemma_names_parented(t, sec, r);
        let name = names[0];
        let stem = trim_end_matches(name, ".md"@);
        let sub = join(sec, stem);
        let dir = sec + "/"@ + stem;
        let children = if is_dir(t, sub) {
            child_items(dir, listing(t, sub))
        } else {
            Seq::empty()
        };
        let it = ItemModel { rel: sec + "/"@ + name, depth: 0 };
        let rest = scan_names(t, sec, r);
        let all = scan_names(t, sec, names);
        assert(all == seq![it] + children + rest);
        reveal_strlit("/");
        lemma_trim_md_concat(sec + "/"@, name);
        assert(child_prefix(it.rel) == dir + "/"@);
        lemma_child_items_under(dir, if is_dir(t, sub) {
            listing(t, sub)
        } else {
            Seq::empty()
        });
        assert forall|j: int| 0 <= j < all.len() && (#[trigger] all[j]).depth == 1 implies exists|i: int|
            0 <= i < all.len() && all[i].depth == 0 && starts_with(all[j].rel, child_prefix(all[i].rel)) by {
            if j == 0 {
            } else if j < 1 + children.len() {
                assert(all[j] == children[j - 1]);
                if is_dir(t, sub) {
                    assert(starts_with(children[j - 1].rel, dir + "/"@));
                }
                assert(all[0] == it);
            } else {
                assert(all[j] == rest[j - 1 - children.len()]);
                let i = choose|i: int|
                    0 <= i < rest.len() && rest[i].depth == 0 && starts_with(
                        rest[j - 1 - children.len()].rel,
                        child_prefix(rest[i].rel),
                    );
                assert(all[i + 1 + children.len()] == rest[i]);
            }
        }
    }
}

/// The children listed for `dir` lie under `dir/`.
proof fn lemma_child_items_under(dir: Seq<char>, cs: Seq<Seq<char>>)
    ensures
        forall|j: int|
            0 <= j < child_items(dir, cs).len() ==> starts_with((#[trigger] child_items(dir, cs)[j]).rel, dir + "/"@)
                && child_items(dir, cs)[j].depth == 1,
        child_items(dir, cs).len() == cs.len(),
    decreases cs.len(),
{
    if cs.len() > 0 {
        lemma_child_items_under(dir, cs.drop_first());
        let ci = child_items(dir, cs);
        let r = child_items(dir, cs.drop_first());
        assert forall|j: int| 0 <= j < ci.len() implies starts_with((#[trigger] ci[j]).rel, dir + "/"@)
            && ci[j].depth == 1 by {
            if j == 0 {
                assert((dir + "/"@ + cs[0]).subrange(0, (dir + "/"@).len() as int) =~= dir + "/"@);
            } else {
                assert(ci[j] == r[j - 1]);
            }
        }
    }
}

/// Every child that `scan` finds lies under the child directory of a top entry it finds.
proof fn lemma_scan_parented(t: TreeModel, sec: Seq<char>)
    ensures
        forall|j: int|
            0 <= j < spec_scan(t, sec).len() && (#[trigger] spec_scan(t, sec)[j]).depth == 1 ==> exists|i: int|
                0 <= i < spec_scan(t, sec).len() && spec_scan(t, sec)[i].depth == 0 && starts_with(
                    spec_scan(t, sec)[j].rel,
                    child_prefix(spec_scan(t, sec)[i].rel),
                ),
{
    if is_dir(t, sec) {
        lemma_names_parented(t, sec, listing(t, sec));
    }
}

// ---------------------------------------------------------------------------
// A section's block holds its entries on disk
// ---------------------------------------------------------------------------

/// `scan` finds an entry at `x` in section `sec`.
pub open spec fn on_disk(t: TreeModel, sec: Seq<char>, x: Seq<char>) -> bool {
    exists|j: int| 0 <= j < spec_scan(t, sec).len() && spec_scan(t, sec)[j].rel == x
}

proof fn lemma_disk_parents_to(on_disk: Seq<ItemModel>, j: int)
    requires
        0 <= j < on_disk.len(),
        on_disk[j].depth == 0,
    ensures
        disk_parents(on_disk).contains(on_disk[j].rel),
    decreases on_disk.len(),
{
    let r = on_disk.drop_first();
    if j == 0 {
        assert(disk_parents(on_disk)[0] == on_disk[0].rel);
    } else {
        assert(r[j - 1] == on_disk[j]);
        lemma_disk_parents_to(r, j - 1);
        let d = disk_parents(r);
        let i = choose|i: int| 0 <= i < d.len() && d[i] == on_disk[j].rel;
        if on_disk[0].depth == 0 {
            assert(disk_parents(on_disk)[i + 1] == d[i]);
        } else {
            assert(disk_parents(on_disk)[i] == d[i]);
        }
    }
}

proof fn lemma_disk_children_to(on_disk: Seq<ItemModel>, pre: Seq<char>, j: int)
    requires
        0 <= j < on_disk.len(),
        on_disk[j].depth == 1,
        starts_with(on_disk[j].rel, pre),
    ensures
        disk_children(on_disk, pre).contains(on_disk[j].rel),
    decreases on_disk.len(),
{
    let r = on_disk.drop_first();
    if j == 0 {
        assert(disk_children(on_disk, pre)[0] == on_disk[0].rel);
    } else {
        assert(r[j - 1] == on_disk[j]);
        lemma_disk_children_to(r, pre, j - 1);
        let d = disk_children(r, pre);
        let i = choose|i: int| 0 <= i < d.len() && d[i] == on_disk[j].rel;
        if on_disk[0].depth == 1 && starts_with(on_disk[0].rel, pre) {
            assert(disk_children(on_disk, pre)[i + 1] == d[i]);
        } else {
            assert(disk_children(on_disk, pre)[i] == d[i]);
        }
    }
}

/// A block holds its parents and their children, and nothing else.
proof fn lemma_block_members(od: Seq<ItemModel>, prior: Seq<Seq<char>>, ps: Seq<Seq<char>>)
    ensures
        forall|x: Seq<char>|
            #[trigger] block_paths(od, prior, ps).contains(x) ==> ps.contains(x) || exists|k: int|
                0 <= k < ps.len() && kids(od, prior, ps[k]).contains(x),
    decreases ps.len(),
{
    if ps.len() > 0 {
        let r = ps.drop_first();
        lemma_block_members(od, prior, r);
        let cs = kids(od, prior, ps[0]);
        let b = block_paths(od, prior, ps);
        let br = block_paths(od, prior, r);
        assert(b == seq![ps[0]] + cs + br);
        assert forall|x: Seq<char>| #[trigger] b.contains(x) implies ps.contains(x) || exists|k: int|
            0 <= k < ps.len() && kids(od, prior, ps[k]).contains(x) by {
            let i = choose|i: int| 0 <= i < b.len() && b[i] == x;
            if i == 0 {
                assert(ps[0] == x);
            } else if i < 1 + cs.len() {
                assert(cs[i - 1] == x);
                assert(cs.contains(x));
            } else {
                assert(br[i - 1 - cs.len()] == x);
                assert(br.contains(x));
                if r.contains(x) {
                    let j = choose|j: int| 0 <= j < r.len() && r[j] == x;
                    assert(ps[j + 1] == x);
                } else {
                    let k = choose|k: int| 0 <= k < r.len() && kids(od, prior, r[k]).contains(x);
                    assert(r[k] == ps[k + 1]);
                }
            }
        }
    }
}

/// The block of a shown section holds exactly its entries on disk.
pub proof fn lemma_block_has_disk(t: TreeModel, cur: Seq<char>, sec: crate::meta::SectionModel)
    requires
        !crate::text::has_char(sec.dir, '/'),
    ensures
        forall|x: Seq<char>| #[trigger] sec_block(t, cur, sec).contains(x) <==> on_disk(t, sec.dir, x),
{
    let od = spec_scan(t, sec.dir);
    let prior = spec_existing_order(cur, sec.dir);
    let ps = sec_parents(t, cur, sec);
    let dp = disk_parents(od);
    let b = sec_block(t, cur, sec);
    lemma_block_members(od, prior, ps);
    crate::gen::merge_keeps_disk_entries(prior_parents(prior), dp);
    crate::regen::lemma_disk_parents_from(od);
    crate::regen::lemma_scan_ok(t, sec.dir);
    lemma_scan_parented(t, sec.dir);
    assert forall|x: Seq<char>| #[trigger] b.contains(x) implies on_disk(t, sec.dir, x) by {
        if ps.contains(x) {
            assert(dp.contains(x));
            let j = choose|j: int| 0 <= j < od.len() && od[j].depth == 0 && od[j].rel == x;
        } else {
            let k = choose|k: int| 0 <= k < ps.len() && kids(od, prior, ps[k]).contains(x);
            crate::regen::lemma_kids_from(od, prior, ps[k]);
            crate::regen::lemma_disk_children_from(od, child_prefix(ps[k]));
            let j = choose|j: int| 0 <= j < od.len() && od[j].depth == 1 && od[j].rel == x;
        }
    }
    assert forall|x: Seq<char>| on_disk(t, sec.dir, x) implies #[trigger] b.contains(x) by {
        let j = choose|j: int| 0 <= j < od.len() && od[j].rel == x;
        assert(crate::regen::item_ok(od[j], sec.dir));
        if od[j].depth == 0 {
            lemma_disk_parents_to(od, j);
            assert(ps.contains(x));
            let k = choose|k: int| 0 <= k < ps.len() && ps[k] == x;
            crate::regen::lemma_block_contains(od, prior, ps, k);
        } else {
            let i = choose|i: int|
                0 <= i < od.len() && od[i].depth == 0 && starts_with(od[j].rel, child_prefix(od[i].rel));
            let q = od[i].rel;
            lemma_disk_parents_to(od, i);
            assert(ps.contains(q));
            let k = choose|k: int| 0 <= k < ps.len() && ps[k] == q;
            let cp = child_prefix(q);
            lemma_disk_children_to(od, cp, j);
            let dc = disk_children(od, cp);
            crate::gen::merge_keeps_disk_entries(prior_under(prior, cp), dc);
            assert(kids(od, prior, ps[k]).contains(x));
            crate::regen::lemma_block_contains(od, prior, ps, k);
        }
    }
}

/// The block a ready section writes holds each of its entries on disk once,
/// and nothing else.
pub proof fn lemma_block_is_disk(t: TreeModel, cur: Seq<char>, sec: crate::meta::SectionModel)
    requires
        sec_ready(t, sec),
    ensures
        distinct(sec_block(t, cur, sec)),
        forall|x: Seq<char>| #[trigger] sec_block(t, cur, sec).contains(x) <==> on_disk(t, sec.dir, x),
{
    crate::regen::lemma_section_facts(t, cur, sec);
    crate::regen::lemma_block_distinct(spec_scan(t, sec.dir), spec_existing_order(cur, sec.dir), sec_parents(t, cur, sec));
    lemma_block_has_disk(t, cur, sec);
}

/// The sidebar lists every entry of a shown section that is on disk, each
/// once, and nothing else of the section: read back from the written
/// sidebar, the section's order holds exactly the paths that `scan` finds.
/// Sections are read from the tree with the topic index pages the plan
/// writes (`sec_tree`), so a topic index page not yet on disk is listed.
/// It needs every section ready (`sec_ready`) and topic index titles no
/// line of which but the last reads as a link, so that the sidebar reads
/// back as written.
pub proof fn sidebar_lists_disk_entries(t: TreeModel, m: crate::meta::MetaModel, cur: Seq<char>, k: int)
    requires
        crate::meta::meta_wf(m),
        forall|j: int| 0 <= j < m.sections.len() ==> sec_ready(crate::regen::sec_tree(t, m), #[trigger] m.sections[j]),
        forall|j: int| 0 <= j < m.topic_indexes.len() ==> crate::regen::lines_link_free(#[trigger] m.topic_indexes[j].title),
        crate::gen::spec_plan(t, m, cur) is Ok,
        0 <= k < m.sections.len(),
        crate::gen::section_shown(crate::regen::sec_tree(t, m), m.sections[k]),
    ensures
        distinct(spec_existing_order(crate::regen::plan_files(t, m, cur).last().1, m.sections[k].dir)),
        forall|x: Seq<char>|
            #[trigger] spec_existing_order(crate::regen::plan_files(t, m, cur).last().1, m.sections[k].dir).contains(x)
                <==> on_disk(crate::regen::sec_tree(t, m), m.sections[k].dir, x),
{
    let u = crate::regen::sec_tree(t, m);
    let tis = m.topic_indexes;
    let so = crate::gen::sections_out(u, tis, cur, m.sections);
    let f = crate::regen::plan_files(t, m, cur);
    assert(f.last().1 == crate::gen::summary_text(crate::gen::summary_head() + so.lines));
    crate::regen::lemma_sidebar_order(u, tis, cur, m.sections, k);
    lemma_block_is_disk(u, cur, m.sections[k]);
}

// ---------------------------------------------------------------------------
// What a run reports
// ---------------------------------------------------------------------------

proof fn lemma_new_paths_concat(prior: Seq<Seq<char>>, a: Seq<Seq<char>>, b: Seq<Seq<char>>)
    ensures
        new_paths(prior, a + b) == new_paths(prior, a) + new_paths(prior, b),
    decreases a.len(),
{
    if a.len() == 0 {
        assert(a + b =~= b);
    } else {
        assert((a + b).drop_first() =~= a.drop_first() + b);
        assert((a + b)[0] == a[0]);
        lemma_new_paths_concat(prior, a.drop_first(), b);
    }
}

proof fn lemma_new_paths_has(prior: Seq<Seq<char>>, xs: Seq<Seq<char>>)
    ensures
        forall|x: Seq<char>| #[trigger] new_paths(prior, xs).contains(x) <==> xs.contains(x) && !prior.contains(x),
    decreases xs.len(),
{
    if xs.len() > 0 {
        let r = xs.drop_first();
        lemma_new_paths_has(prior, r);
        assert(xs =~= seq![xs[0]] + r);
        assert forall|x: Seq<char>| #[trigger] new_paths(prior, xs).contains(x) <==> xs.contains(x) && !prior.contains(
            x,
        ) by {
            let n = new_paths(prior, xs);
            let nr = new_paths(prior, r);
            if n.contains(x) {
                let i = choose|i: int| 0 <= i < n.len() && n[i] == x;
                if !prior.contains(xs[0]) && i == 0 {
                    assert(xs[0] == x);
                } else {
                    let i2 = if prior.contains(xs[0]) {
                        i
                    } else {
                        i - 1
                    };
                    assert(nr[i2] == x);
                    assert(nr.contains(x));
                    let j = choose|j: int| 0 <= j < r.len() && r[j] == x;
                    assert(xs[j + 1] == x);
                }
            }
            if xs.contains(x) && !prior.contains(x) {
                let j = choose|j: int| 0 <= j < xs.len() && xs[j] == x;
                if j == 0 {
                    assert(n[0] == x);
                } else {
                    assert(r[j - 1] == x);
                    assert(nr.contains(x));
                    let i = choose|i: int| 0 <= i < nr.len() && nr[i] == x;
                    if prior.contains(xs[0]) {
                        assert(n[i] == x);
                    } else {
                        assert(n[i + 1] == x);
                    }
                }
            }
        }
    }
}

/// What the parents `ps` report as added: the paths of their block that
/// the previous order lacks.
proof fn lemma_pp_added(
    t: TreeModel,
    tis: Seq<crate::meta::TopicIndexModel>,
    prior: Seq<Seq<char>>,
    od: Seq<ItemModel>,
    ps: Seq<Seq<char>>,
)
    ensures
        crate::gen::parents_part(t, tis, prior, od, ps).added == new_paths(prior, block_paths(od, prior, ps)),
    decreases ps.len(),
{
    if ps.len() > 0 {
        lemma_pp_added(t, tis, prior, od, ps.drop_first());
        let cs = kids(od, prior, ps[0]);
        let br = block_paths(od, prior, ps.drop_first());
        lemma_new_paths_concat(prior, seq![ps[0]] + cs, br);
        lemma_new_paths_concat(prior, seq![ps[0]], cs);
    }
}

/// What the parents `ps` report as removed: children listed before under
/// one of them that are not on disk under it.
proof fn lemma_pp_removed(
    t: TreeModel,
    tis: Seq<crate::meta::TopicIndexModel>,
    prior: Seq<Seq<char>>,
    od: Seq<ItemModel>,
    ps: Seq<Seq<char>>,
)
    ensures
        forall|x: Seq<char>|
            #[trigger] crate::gen::parents_part(t, tis, prior, od, ps).removed.contains(x) ==> exists|k: int|
                0 <= k < ps.len() && prior_under(prior, child_prefix(ps[k])).contains(x) && !disk_children(
                    od,
                    child_prefix(ps[k]),
                ).contains(x),
    decreases ps.len(),
{
    if ps.len() > 0 {
        let r = ps.drop_first();
        lemma_pp_removed(t, tis, prior, od, r);
        let cp = child_prefix(ps[0]);
        let dc = disk_children(od, cp);
        let rm = crate::gen::children_of(od, prior, ps[0]).1;
        let rr = crate::gen::parents_part(t, tis, prior, od, r).removed;
        let all = crate::gen::parents_part(t, tis, prior, od, ps).removed;
        assert(all == rm + rr);
        if dc.len() > 0 {
            crate::gen::merge_keeps_disk_entries(prior_under(prior, cp), dc);
        }
        assert forall|x: Seq<char>| #[trigger] all.contains(x) implies exists|k: int|
            0 <= k < ps.len() && prior_under(prior, child_prefix(ps[k])).contains(x) && !disk_children(
                od,
                child_prefix(ps[k]),
            ).contains(x) by {
            let i = choose|i: int| 0 <= i < all.len() && all[i] == x;
            if i < rm.len() {
                assert(rm[i] == x);
                assert(rm.contains(x));
            } else {
                assert(rr[i - rm.len()] == x);
                assert(rr.contains(x));
                let k = choose|k: int|
                    0 <= k < r.len() && prior_under(prior, child_prefix(r[k])).contains(x) && !disk_children(
                        od,
                        child_prefix(r[k]),
                    ).contains(x);
                assert(r[k] == ps[k + 1]);
            }
        }
    }
}

/// A shown section reports as added exactly its entries on disk that the
/// current sidebar lacks, and as removed only entries it listed that are
/// gone, among them every top entry that is gone.
proof fn lemma_section_reports(t: TreeModel, tis: Seq<crate::meta::TopicIndexModel>, cur: Seq<char>, sec: crate::meta::SectionModel)
    requires
        !crate::text::has_char(sec.dir, '/'),
    ensures
        forall|x: Seq<char>|
            #[trigger] crate::gen::section_part(t, tis, cur, sec).added.contains(x) <==> on_disk(t, sec.dir, x)
                && !spec_existing_order(cur, sec.dir).contains(x),
        forall|x: Seq<char>|
            #[trigger] crate::gen::section_part(t, tis, cur, sec).removed.contains(x) ==> spec_existing_order(
                cur,
                sec.dir,
            ).contains(x) && !on_disk(t, sec.dir, x),
        forall|x: Seq<char>|
            spec_existing_order(cur, sec.dir).contains(x) && crate::gen::slashes(x) == 1 && !on_disk(t, sec.dir, x)
                ==> #[trigger] crate::gen::section_part(t, tis, cur, sec).removed.contains(x),
{
    let od = spec_scan(t, sec.dir);
    let prior = spec_existing_order(cur, sec.dir);
    let ps = sec_parents(t, cur, sec);
    let dp = disk_parents(od);
    let part = crate::gen::section_part(t, tis, cur, sec);
    let rp = crate::gen::section_parents(t, cur, sec).1;
    let pp = crate::gen::parents_part(t, tis, prior, od, ps);
    lemma_pp_added(t, tis, prior, od, ps);
    lemma_new_paths_has(prior, sec_block(t, cur, sec));
    lemma_block_has_disk(t, cur, sec);
    lemma_pp_removed(t, tis, prior, od, ps);
    crate::gen::merge_keeps_disk_entries(prior_parents(prior), dp);
    crate::regen::lemma_prior_parents_sub(prior);
    crate::regen::lemma_scan_ok(t, sec.dir);
    crate::regen::lemma_disk_parents_from(od);
    assert(part.removed == rp + pp.removed);
    assert forall|x: Seq<char>| #[trigger] part.removed.contains(x) implies prior.contains(x) && !on_disk(
        t,
        sec.dir,
        x,
    ) by {
        let i = choose|i: int| 0 <= i < part.removed.len() && part.removed[i] == x;
        if i < rp.len() {
            assert(rp[i] == x);
            assert(rp.contains(x));
            assert(prior_parents(prior).contains(x));
            lemma_prior_parents_one(prior, x);
            if on_disk(t, sec.dir, x) {
                let j = choose|j: int| 0 <= j < od.len() && od[j].rel == x;
                assert(crate::regen::item_ok(od[j], sec.dir));
                if od[j].depth == 0 {
                    lemma_disk_parents_to(od, j);
                }
            }
        } else {
            assert(pp.removed[i - rp.len()] == x);
            assert(pp.removed.contains(x));
            let k = choose|k: int|
                0 <= k < ps.len() && prior_under(prior, child_prefix(ps[k])).contains(x) && !disk_children(
                    od,
                    child_prefix(ps[k]),
                ).contains(x);
            let cp = child_prefix(ps[k]);
            crate::regen::lemma_prior_under_sub(prior, cp);
            lemma_prior_under_prefix(prior, cp, x);
            if on_disk(t, sec.dir, x) {
                let j = choose|j: int| 0 <= j < od.len() && od[j].rel == x;
                assert(crate::regen::item_ok(od[j], sec.dir));
                if od[j].depth == 1 {
                    lemma_disk_children_to(od, cp, j);
                } else {
                    assert(ps.contains(ps[k]));
                    assert(dp.contains(ps[k]));
                    let jj = choose|jj: int| 0 <= jj < od.len() && od[jj].depth == 0 && od[jj].rel == ps[k];
                    assert(crate::regen::item_ok(od[jj], sec.dir));
                    crate::regen::lemma_child_prefix_slashes(ps[k]);
                    crate::regen::lemma_slashes_prefix(x, cp);
                }
            }
        }
    }
    assert forall|x: Seq<char>|
        prior.contains(x) && crate::gen::slashes(x) == 1 && !on_disk(t, sec.dir, x) implies #[trigger] part.removed.contains(
        x,
    ) by {
        lemma_prior_parents_has(prior, x);
        if dp.contains(x) {
            let j = choose|j: int| 0 <= j < od.len() && od[j].depth == 0 && od[j].rel == x;
        }
        assert(rp.contains(x));
        let i = choose|i: int| 0 <= i < rp.len() && rp[i] == x;
        assert(part.removed[i] == x);
    }
}

proof fn lemma_prior_parents_one(a: Seq<Seq<char>>, x: Seq<char>)
    requires
        prior_parents(a).contains(x),
    ensures
        crate::gen::slashes(x) == 1,
    decreases a.len(),
{
    let p = prior_parents(a);
    let r = a.drop_first();
    let i = choose|i: int| 0 <= i < p.len() && p[i] == x;
    if crate::gen::slashes(a[0]) == 1 && i == 0 {
    } else {
        let i2 = if crate::gen::slashes(a[0]) == 1 {
            i - 1
        } else {
            i
        };
        assert(prior_parents(r)[i2] == x);
        lemma_prior_parents_one(r, x);
    }
}

proof fn lemma_prior_parents_has(a: Seq<Seq<char>>, x: Seq<char>)
    requires
        a.contains(x),
        crate::gen::slashes(x) == 1,
    ensures
        prior_parents(a).contains(x),
    decreases a.len(),
{
    let r = a.drop_first();
    if a[0] == x {
        assert(prior_parents(a)[0] == x);
    } else {
        let j = choose|j: int| 0 <= j < a.len() && a[j] == x;
        assert(r[j - 1] == x);
        lemma_prior_parents_has(r, x);
        let p = prior_parents(r);
        let i = choose|i: int| 0 <= i < p.len() && p[i] == x;
        if crate::gen::slashes(a[0]) == 1 {
            assert(prior_parents(a)[i + 1] == x);
        } else {
            assert(prior_parents(a)[i] == x);
        }
    }
}

proof fn lemma_prior_under_prefix(a: Seq<Seq<char>>, pre: Seq<char>, x: Seq<char>)
    requires
        prior_under(a, pre).contains(x),
    ensures
        starts_with(x, pre),
    decreases a.len(),
{
    let p = prior_under(a, pre);
    let r = a.drop_first();
    let i = choose|i: int| 0 <= i < p.len() && p[i] == x;
    if starts_with(a[0], pre) && i == 0 {
    } else {
        let i2 = if starts_with(a[0], pre) {
            i - 1
        } else {
            i
        };
        assert(prior_under(r, pre)[i2] == x);
        lemma_prior_under_prefix(r, pre, x);
    }
}

/// `x` is an entry on disk of the shown section `sec` that the sidebar
/// `cur` does not list under it.
pub open spec fn new_in(t: TreeModel, cur: Seq<char>, sec: crate::meta::SectionModel, x: Seq<char>) -> bool {
    &&& crate::gen::section_shown(t, sec)
    &&& on_disk(t, sec.dir, x)
    &&& !spec_existing_order(cur, sec.dir).contains(x)
}

/// `x` is listed under the shown section `sec` in the sidebar `cur` and is
/// no longer on disk.
pub open spec fn gone_from(t: TreeModel, cur: Seq<char>, sec: crate::meta::SectionModel, x: Seq<char>) -> bool {
    &&& crate::gen::section_shown(t, sec)
    &&& spec_existing_order(cur, sec.dir).contains(x)
    &&& !on_disk(t, sec.dir, x)
}

proof fn lemma_out_reports(
    t: TreeModel,
    tis: Seq<crate::meta::TopicIndexModel>,
    cur: Seq<char>,
    secs: Seq<crate::meta::SectionModel>,
)
    requires
        forall|k: int| 0 <= k < secs.len() ==> !crate::text::has_char(#[trigger] secs[k].dir, '/'),
    ensures
        forall|x: Seq<char>|
            #[trigger] crate::gen::sections_out(t, tis, cur, secs).added.contains(x) <==> exists|k: int|
                0 <= k < secs.len() && #[trigger] new_in(t, cur, secs[k], x),
        forall|x: Seq<char>|
            #[trigger] crate::gen::sections_out(t, tis, cur, secs).removed.contains(x) ==> exists|k: int|
                0 <= k < secs.len() && #[trigger] gone_from(t, cur, secs[k], x),
        forall|k: int, x: Seq<char>|
            0 <= k < secs.len() && #[trigger] gone_from(t, cur, secs[k], x) && crate::gen::slashes(x) == 1
                ==> crate::gen::sections_out(t, tis, cur, secs).removed.contains(x),
    decreases secs.len(),
{
    if secs.len() > 0 {
        let r = secs.drop_first();
        assert forall|k: int| 0 <= k < r.len() implies !crate::text::has_char(#[trigger] r[k].dir, '/') by {
            assert(r[k] == secs[k + 1]);
        }
        lemma_out_reports(t, tis, cur, r);
        let sec = secs[0];
        assert(!crate::text::has_char(secs[0].dir, '/'));
        lemma_section_reports(t, tis, cur, sec);
        let so = crate::gen::sections_out(t, tis, cur, secs);
        let sr = crate::gen::sections_out(t, tis, cur, r);
        let part = crate::gen::section_part(t, tis, cur, sec);
        let shown = crate::gen::section_shown(t, sec);
        if shown {
            assert(so.added == part.added + sr.added);
            assert(so.removed == part.removed + sr.removed);
        } else {
            assert(so.added == sr.added);
            assert(so.removed == sr.removed);
        }
        assert forall|x: Seq<char>| #[trigger] so.added.contains(x) <==> exists|k: int|
            0 <= k < secs.len() && #[trigger] new_in(t, cur, secs[k], x) by {
            if so.added.contains(x) {
                let i = choose|i: int| 0 <= i < so.added.len() && so.added[i] == x;
                if shown && i < part.added.len() {
                    assert(part.added[i] == x);
                    assert(part.added.contains(x));
                    assert(new_in(t, cur, secs[0], x));
                } else {
                    let i2 = if shown {
                        i - part.added.len()
                    } else {
                        i
                    };
                    assert(sr.added[i2] == x);
                    assert(sr.added.contains(x));
                    let k = choose|k: int| 0 <= k < r.len() && #[trigger] new_in(t, cur, r[k], x);
                    assert(r[k] == secs[k + 1]);
                    assert(new_in(t, cur, secs[k + 1], x));
                }
            }
            if exists|k: int| 0 <= k < secs.len() && #[trigger] new_in(t, cur, secs[k], x) {
                let k = choose|k: int| 0 <= k < secs.len() && #[trigger] new_in(t, cur, secs[k], x);
                if k == 0 {
                    assert(part.added.contains(x));
                    let i = choose|i: int| 0 <= i < part.added.len() && part.added[i] == x;
                    assert(so.added[i] == x);
                } else {
                    assert(r[k - 1] == secs[k]);
                    assert(new_in(t, cur, r[k - 1], x));
                    assert(sr.added.contains(x));
                    let i = choose|i: int| 0 <= i < sr.added.len() && sr.added[i] == x;
                    if shown {
                        assert(so.added[i + part.added.len()] == x);
                    } else {
                        assert(so.added[i] == x);
                    }
                }
            }
        }
        assert forall|x: Seq<char>| #[trigger] so.removed.contains(x) implies exists|k: int|
            0 <= k < secs.len() && #[trigger] gone_from(t, cur, secs[k], x) by {
            let i = choose|i: int| 0 <= i < so.removed.len() && so.removed[i] == x;
            if shown && i < part.removed.len() {
                assert(part.removed[i] == x);
                assert(part.removed.contains(x));
                assert(gone_from(t, cur, secs[0], x));
            } else {
                let i2 = if shown {
                    i - part.removed.len()
                } else {
                    i
                };
                assert(sr.removed[i2] == x);
                assert(sr.removed.contains(x));
                let k = choose|k: int| 0 <= k < r.len() && #[trigger] gone_from(t, cur, r[k], x);
                assert(r[k] == secs[k + 1]);
                assert(gone_from(t, cur, secs[k + 1], x));
            }
        }
        assert forall|k: int, x: Seq<char>|
            0 <= k < secs.len() && #[trigger] gone_from(t, cur, secs[k], x) && crate::gen::slashes(x) == 1 implies so.removed.contains(
            x,
        ) by {
            if k == 0 {
                assert(part.removed.contains(x));
                let i = choose|i: int| 0 <= i < part.removed.len() && part.removed[i] == x;
                assert(so.removed[i] == x);
            } else {
                assert(r[k - 1] == secs[k]);
                assert(gone_from(t, cur, r[k - 1], x));
                assert(sr.removed.contains(x));
                let i = choose|i: int| 0 <= i < sr.removed.len() && sr.removed[i] == x;
                if shown {
                    assert(so.removed[i + part.removed.len()] == x);
                } else {
                    assert(so.removed[i] == x);
                }
            }
        }
    }
}

/// A run reports as added exactly the entries on disk of shown sections
/// that the current sidebar does not list under their section; the disk
/// here holds the topic index pages the run writes (`sec_tree`).
pub proof fn plan_reports_added(t: TreeModel, m: crate::meta::MetaModel, cur: Seq<char>)
    requires
        crate::meta::meta_wf(m),
        crate::gen::spec_plan(t, m, cur) is Ok,
    ensures
        forall|x: Seq<char>|
            #[trigger] crate::gen::spec_plan(t, m, cur)->Ok_0.added.contains(x) <==> exists|k: int|
                0 <= k < m.sections.len() && #[trigger] new_in(crate::regen::sec_tree(t, m), cur, m.sections[k], x),
{
    let u = crate::regen::sec_tree(t, m);
    lemma_out_reports(u, m.topic_indexes, cur, m.sections);
}

/// A run reports as removed only entries that the current sidebar lists
/// under a shown section and that are no longer on disk; every such top
/// entry (one `/`, directly in its section) is reported. The disk here
/// holds the topic index pages the run writes (`sec_tree`).
pub proof fn plan_reports_removed(t: TreeModel, m: crate::meta::MetaModel, cur: Seq<char>)
    requires
        crate::meta::meta_wf(m),
        crate::gen::spec_plan(t, m, cur) is Ok,
    ensures
        forall|x: Seq<char>|
            #[trigger] crate::gen::spec_plan(t, m, cur)->Ok_0.removed.contains(x) ==> exists|k: int|
                0 <= k < m.sections.len() && #[trigger] gone_from(crate::regen::sec_tree(t, m), cur, m.sections[k], x),
        forall|k: int, x: Seq<char>|
            0 <= k < m.sections.len() && #[trigger] gone_from(crate::regen::sec_tree(t, m), cur, m.sections[k], x) && crate::gen::slashes(x) == 1
                ==> crate::gen::spec_plan(t, m, cur)->Ok_0.removed.contains(x),
{
    let u = crate::regen::sec_tree(t, m);
    lemma_out_reports(u, m.topic_indexes, cur, m.sections);
}

/// The page of a shown section is among the pages of the sections, built
/// from the parents the sidebar lists.
proof fn lemma_out_page(
    t: TreeModel,
    tis: Seq<crate::meta::TopicIndexModel>,
    cur: Seq<char>,
    secs: Seq<crate::meta::SectionModel>,
    k: int,
)
    requires
        0 <= k < secs.len(),
        crate::gen::section_shown(t, secs[k]),
    ensures
        exists|i: int|
            0 <= i < crate::gen::sections_out(t, tis, cur, secs).files.len() && #[trigger] crate::gen::sections_out(
                t,
                tis,
                cur,
                secs,
            ).files[i] == (
                crate::gen::index_rel(secs[k]),
                crate::gen::section_index_text(t, tis, secs[k], sec_parents(t, cur, secs[k])),
            ),
    decreases secs.len(),
{
    let so = crate::gen::sections_out(t, tis, cur, secs);
    let r = secs.drop_first();
    let sr = crate::gen::sections_out(t, tis, cur, r);
    if k == 0 {
        assert(so.files[0] == (
            crate::gen::index_rel(secs[0]),
            crate::gen::section_index_text(t, tis, secs[0], sec_parents(t, cur, secs[0])),
        ));
    } else {
        assert(r[k - 1] == secs[k]);
        lemma_out_page(t, tis, cur, r, k - 1);
        let i = choose|i: int|
            0 <= i < sr.files.len() && #[trigger] sr.files[i] == (
                crate::gen::index_rel(r[k - 1]),
                crate::gen::section_index_text(t, tis, r[k - 1], sec_parents(t, cur, r[k - 1])),
            );
        if crate::gen::section_shown(t, secs[0]) {
            assert(so.files[i + 1] == sr.files[i]);
        } else {
            assert(so.files[i] == sr.files[i]);
        }
    }
}

/// A section page lists its top entries in the order the sidebar lists
/// them: the plan writes, for each shown section, the page built from the
/// top entries read back from the sidebar it writes, over the tree with the
/// topic index pages written (`sec_tree`). It needs every section
/// ready (`sec_ready`) and topic index titles no line of which but the last
/// reads as a link, so that the sidebar reads back as written.
pub proof fn section_page_follows_sidebar(t: TreeModel, m: crate::meta::MetaModel, cur: Seq<char>, k: int)
    requires
        crate::meta::meta_wf(m),
        forall|j: int| 0 <= j < m.sections.len() ==> sec_ready(crate::regen::sec_tree(t, m), #[trigger] m.sections[j]),
        forall|j: int| 0 <= j < m.topic_indexes.len() ==> crate::regen::lines_link_free(#[trigger] m.topic_indexes[j].title),
        crate::gen::spec_plan(t, m, cur) is Ok,
        0 <= k < m.sections.len(),
        crate::gen::section_shown(crate::regen::sec_tree(t, m), m.sections[k]),
    ensures
        exists|i: int|
            0 <= i < crate::regen::plan_files(t, m, cur).len() && #[trigger] crate::regen::plan_files(t, m, cur)[i]
                == (
                crate::gen::index_rel(m.sections[k]),
                crate::gen::section_index_text(
                    crate::regen::sec_tree(t, m),
                    m.topic_indexes,
                    m.sections[k],
                    prior_parents(spec_existing_order(crate::regen::plan_files(t, m, cur).last().1, m.sections[k].dir)),
                ),
            ),
{
    let u = crate::regen::sec_tree(t, m);
    let tis = m.topic_indexes;
    let sec = m.sections[k];
    let so = crate::gen::sections_out(u, tis, cur, m.sections);
    let f = crate::regen::plan_files(t, m, cur);
    let tp = crate::gen::topic_pages(t, tis);
    assert(f == tp + so.files + seq![("SUMMARY.md"@, crate::gen::summary_text(crate::gen::summary_head() + so.lines))]);
    crate::regen::lemma_sidebar_order(u, tis, cur, m.sections, k);
    assert(sec_ready(u, sec));
    crate::regen::lemma_section_facts(u, cur, sec);
    crate::regen::lemma_block_parents(spec_scan(u, sec.dir), spec_existing_order(cur, sec.dir), sec_parents(u, cur, sec));
    lemma_out_page(u, tis, cur, m.sections, k);
    let i = choose|i: int|
        0 <= i < so.files.len() && #[trigger] so.files[i] == (
            crate::gen::index_rel(m.sections[k]),
            crate::gen::section_index_text(u, tis, m.sections[k], sec_parents(u, cur, m.sections[k])),
        );
    assert(f[tp.len() + i] == so.files[i]);
}

/// The sidebar keeps the manual order: in the written sidebar, read back, a
/// section's top entries begin with the top entries that the current
/// sidebar lists and that are still on disk, in their current order; and
/// the children of each top entry begin likewise with its children that
/// the current sidebar lists and that are still on disk. New entries follow
/// them. The disk here holds the topic index pages the run writes
/// (`sec_tree`). It needs every section ready (`sec_ready`) and topic index
/// titles no line of which but the last reads as a link, so that the
/// sidebar reads back as written.
pub proof fn sidebar_keeps_manual_order(t: TreeModel, m: crate::meta::MetaModel, cur: Seq<char>, k: int)
    requires
        crate::meta::meta_wf(m),
        forall|j: int| 0 <= j < m.sections.len() ==> sec_ready(crate::regen::sec_tree(t, m), #[trigger] m.sections[j]),
        forall|j: int| 0 <= j < m.topic_indexes.len() ==> crate::regen::lines_link_free(#[trigger] m.topic_indexes[j].title),
        crate::gen::spec_plan(t, m, cur) is Ok,
        0 <= k < m.sections.len(),
        crate::gen::section_shown(crate::regen::sec_tree(t, m), m.sections[k]),
    ensures
        ({
            let d = m.sections[k].dir;
            let od = spec_scan(crate::regen::sec_tree(t, m), d);
            let old = spec_existing_order(cur, d);
            let new = spec_existing_order(crate::regen::plan_files(t, m, cur).last().1, d);
            let kept = crate::gen::keep_in(prior_parents(old), disk_parents(od));
            &&& prior_parents(new).take(kept.len() as int) == kept
            &&& forall|p: Seq<char>|
                #[trigger] prior_parents(new).contains(p) ==> {
                    let kc = crate::gen::keep_in(prior_under(old, child_prefix(p)), disk_children(od, child_prefix(p)));
                    prior_under(new, child_prefix(p)).take(kc.len() as int) == kc
                }
        }),
{
    let u = crate::regen::sec_tree(t, m);
    let tis = m.topic_indexes;
    let sec = m.sections[k];
    let d = sec.dir;
    let od = spec_scan(u, d);
    let old = spec_existing_order(cur, d);
    let ps = sec_parents(u, cur, sec);
    let so = crate::gen::sections_out(u, tis, cur, m.sections);
    let f = crate::regen::plan_files(t, m, cur);
    assert(f.last().1 == crate::gen::summary_text(crate::gen::summary_head() + so.lines));
    crate::regen::lemma_sidebar_order(u, tis, cur, m.sections, k);
    assert(sec_ready(u, sec));
    crate::regen::lemma_section_facts(u, cur, sec);
    crate::regen::lemma_block_parents(od, old, ps);
    crate::gen::merge_keeps_manual_order(prior_parents(old), disk_parents(od));
    let new = sec_block(u, cur, sec);
    assert forall|p: Seq<char>| #[trigger] prior_parents(new).contains(p) implies ({
        let kc = crate::gen::keep_in(prior_under(old, child_prefix(p)), disk_children(od, child_prefix(p)));
        prior_under(new, child_prefix(p)).take(kc.len() as int) == kc
    }) by {
        let cp = child_prefix(p);
        let dc = disk_children(od, cp);
        let kc = crate::gen::keep_in(prior_under(old, cp), dc);
        assert(ps.contains(p));
        let n = choose|n: int| 0 <= n < ps.len() && ps[n] == p;
        assert(crate::gen::slashes(ps[n]) == 1);
        assert forall|j: int| 0 <= j < ps.len() && child_prefix(#[trigger] ps[j]) == child_prefix(p) implies ps[j] == p by {
            if j != n {
                assert(child_prefix(ps[j]) != child_prefix(ps[n]));
            }
        }
        crate::regen::lemma_block_under(od, old, ps, p);
        crate::gen::merge_keeps_manual_order(prior_under(old, cp), dc);
        if dc.len() == 0 {
            if kc.len() > 0 {
                assert(kc.contains(kc[0]));
            }
            assert(kc =~= Seq::<Seq<char>>::empty());
        }
    }
}

} // verus!
