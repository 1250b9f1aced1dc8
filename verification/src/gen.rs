//! Generation of the table of contents and the index pages.
//!
//! One `plan` computes the target text of every file the tool manages:
//!
//! - `SUMMARY.md`, the sidebar;
//! - `<section>/index.md`, the section pages, in the sidebar's order;
//! - the topic index pages, grouped by `<!-- topic: -->`.
//!
//! Generation is incremental and idempotent and keeps the manual order:
//! entries already in `SUMMARY.md` keep their order, new files are appended
//! to their section, deleted files are dropped, and a file `foo.md` with a
//! directory `foo/` of the same name gets that directory's files as children.
use vstd::prelude::*;

use crate::md::{
    file_name, listing, spec_display_title, spec_extract_link_path, spec_index_label,
    spec_read_desc, spec_read_topics, trim_end_matches,
};
use crate::meta::{BookMeta, MetaModel, Section, SectionModel, TopicIndex, TopicIndexModel, index_views, section_views};
use crate::text::{
    append, chars_of, eq, has_char, join_lines, join_nl, lines, lines_of_str, push_str, rfind, starts_with,
    starts_with_exec, str_eq, str_views, string_of, views,
};
use crate::tree::{SrcTree, TreeModel, is_dir, join, path_exists};

verus! {

/// An error of generation.
#[derive(Debug)]
pub enum GenError {
    /// Reading the source tree failed.
    Io(String),
    /// Content broke the rules (a missing or undeclared topic): nothing is
    /// generated from a half-valid tree.
    Invalid(Vec<String>),
}

/// An entry to list: its path relative to `src/` and its nesting depth
/// (`0` directly under the section page, `1` under a same-named parent page).
#[derive(Clone, PartialEq, Debug)]
pub struct Item {
    pub rel: String,
    pub depth: usize,
}

/// The model of an item.
pub struct ItemModel {
    pub rel: Seq<char>,
    pub depth: nat,
}

impl View for Item {
    type V = ItemModel;

    open spec fn view(&self) -> ItemModel {
        ItemModel { rel: self.rel@, depth: self.depth as nat }
    }
}

/// The models of a list of items.
pub open spec fn item_views(s: Seq<Item>) -> Seq<ItemModel> {
    Seq::new(s.len(), |i: int| s[i]@)
}

/// The full result of one generation: the target text of every managed file.
#[derive(Debug)]
pub struct Plan {
    /// `(path relative to src/, target text)`.
    pub files: Vec<(String, String)>,
    pub added: Vec<String>,
    pub removed: Vec<String>,
}

/// The model of a plan.
pub struct PlanModel {
    pub files: Seq<(Seq<char>, Seq<char>)>,
    pub added: Seq<Seq<char>>,
    pub removed: Seq<Seq<char>>,
}

/// The models of `(path, text)` pairs.
pub open spec fn pair_views(s: Seq<(String, String)>) -> Seq<(Seq<char>, Seq<char>)> {
    Seq::new(s.len(), |i: int| (s[i].0@, s[i].1@))
}

impl View for Plan {
    type V = PlanModel;

    open spec fn view(&self) -> PlanModel {
        PlanModel {
            files: pair_views(self.files@),
            added: str_views(self.added@),
            removed: str_views(self.removed@),
        }
    }
}

// ---------------------------------------------------------------------------
// Order of entries
// ---------------------------------------------------------------------------

/// The paths of the entries of this section linked from `ls`, in order,
/// without the section page and without repeats, after `acc`.
pub open spec fn order_from(ls: Seq<Seq<char>>, prefix: Seq<char>, index_path: Seq<char>, acc: Seq<Seq<char>>) -> Seq<
    Seq<char>,
>
    decreases ls.len(),
{
    if ls.len() == 0 {
        acc
    } else {
        let next = match spec_extract_link_path(ls[0]) {
            Some(rel) => if starts_with(rel, prefix) && rel != index_path && !acc.contains(rel) {
                acc.push(rel)
            } else {
                acc
            },
            None => acc,
        };
        order_from(ls.drop_first(), prefix, index_path, next)
    }
}

/// `existing_order`: the order of a section's entries in the current summary.
pub open spec fn spec_existing_order(summary: Seq<char>, section: Seq<char>) -> Seq<Seq<char>> {
    order_from(lines(summary), section + "/"@, section + "/index.md"@, Seq::empty())
}

/// The elements of `manual` that `disk` holds, in manual order.
pub open spec fn keep_in(manual: Seq<Seq<char>>, disk: Seq<Seq<char>>) -> Seq<Seq<char>>
    decreases manual.len(),
{
    if manual.len() == 0 {
        Seq::empty()
    } else if disk.contains(manual[0]) {
        seq![manual[0]] + keep_in(manual.drop_first(), disk)
    } else {
        keep_in(manual.drop_first(), disk)
    }
}

/// The elements of `manual` that `disk` lacks, in manual order.
pub open spec fn drop_out(manual: Seq<Seq<char>>, disk: Seq<Seq<char>>) -> Seq<Seq<char>>
    decreases manual.len(),
{
    if manual.len() == 0 {
        Seq::empty()
    } else if disk.contains(manual[0]) {
        drop_out(manual.drop_first(), disk)
    } else {
        seq![manual[0]] + drop_out(manual.drop_first(), disk)
    }
}

/// `ordered` followed by the elements of `disk` it does not hold yet, in disk order.
pub open spec fn append_new(ordered: Seq<Seq<char>>, disk: Seq<Seq<char>>) -> Seq<Seq<char>>
    decreases disk.len(),
{
    if disk.len() == 0 {
        ordered
    } else if ordered.contains(disk[0]) {
        append_new(ordered, disk.drop_first())
    } else {
        append_new(ordered.push(disk[0]), disk.drop_first())
    }
}

/// `merge_order`: manual order first, new files at the end; and what was removed.
pub open spec fn spec_merge_order(manual: Seq<Seq<char>>, disk: Seq<Seq<char>>) -> (Seq<Seq<char>>, Seq<
    Seq<char>,
>) {
    (append_new(keep_in(manual, disk), disk), drop_out(manual, disk))
}

// ---------------------------------------------------------------------------
// Scanning
// ---------------------------------------------------------------------------

/// The items for the files `names` of `section`, each followed by the
/// files of its same-named directory.
pub open spec fn scan_names(t: TreeModel, section: Seq<char>, names: Seq<Seq<char>>) -> Seq<ItemModel>
    decreases names.len(),
{
    if names.len() == 0 {
        Seq::empty()
    } else {
        let name = names[0];
        let stem = trim_end_matches(name, ".md"@);
        let sub = join(section, stem);
        let rel_dir = section + "/"@ + stem;
        let children = if is_dir(t, sub) {
            child_items(rel_dir, listing(t, sub))
        } else {
            Seq::empty()
        };
        seq![ItemModel { rel: section + "/"@ + name, depth: 0 }] + children + scan_names(
            t,
            section,
            names.drop_first(),
        )
    }
}

/// Depth-1 items `dir/child` for the given children.
pub open spec fn child_items(dir: Seq<char>, children: Seq<Seq<char>>) -> Seq<ItemModel>
    decreases children.len(),
{
    if children.len() == 0 {
        Seq::empty()
    } else {
        seq![ItemModel { rel: dir + "/"@ + children[0], depth: 1 }] + child_items(
            dir,
            children.drop_first(),
        )
    }
}

/// `scan`: every entry of a section on disk, children after their parent.
pub open spec fn spec_scan(t: TreeModel, section: Seq<char>) -> Seq<ItemModel> {
    if is_dir(t, section) {
        scan_names(t, section, listing(t, section))
    } else {
        Seq::empty()
    }
}

// ---------------------------------------------------------------------------
// Titles and text
// ---------------------------------------------------------------------------

/// The configured title of the topic index page `rel` (the last one wins).
pub open spec fn title_for(tis: Seq<TopicIndexModel>, rel: Seq<char>) -> Option<Seq<char>>
    decreases tis.len(),
{
    if tis.len() == 0 {
        None
    } else if tis.last().index == rel {
        Some(tis.last().title)
    } else {
        title_for(tis.drop_last(), rel)
    }
}

/// `title_of`: the configured title of a topic index page, else the file's title.
pub open spec fn spec_title_of(t: TreeModel, tis: Seq<TopicIndexModel>, rel: Seq<char>) -> Seq<char> {
    match title_for(tis, rel) {
        Some(x) => x,
        None => spec_display_title(t, rel),
    }
}

/// A sidebar line `{indent}- [{title}](./{path})`.
pub open spec fn entry_line(indent: Seq<char>, title: Seq<char>, path: Seq<char>) -> Seq<char> {
    indent + "- ["@ + title + "](./"@ + path + ")"@
}

/// A page's opening: its heading and, when not empty, its introduction.
pub open spec fn page_head(title: Seq<char>, intro: Seq<char>) -> Seq<char> {
    "# "@ + title + "\n"@ + if intro.len() > 0 {
        "\n"@ + intro + "\n"@
    } else {
        Seq::empty()
    }
}

/// The rows of a section page for `parents`.
pub open spec fn section_rows(t: TreeModel, tis: Seq<TopicIndexModel>, parents: Seq<Seq<char>>) -> Seq<char>
    decreases parents.len(),
{
    if parents.len() == 0 {
        Seq::empty()
    } else {
        let rel = parents[0];
        let title = spec_title_of(t, tis, rel);
        let row = match spec_read_desc(t, rel) {
            Some(d) => "- ["@ + title + "](./"@ + file_name(rel) + ") —— "@ + d + "\n"@,
            None => "- ["@ + title + "](./"@ + file_name(rel) + ")\n"@,
        };
        row + section_rows(t, tis, parents.drop_first())
    }
}

/// `build_section_index`: the text of a section page.
pub open spec fn section_index_text(
    t: TreeModel,
    tis: Seq<TopicIndexModel>,
    sec: SectionModel,
    parents: Seq<Seq<char>>,
) -> Seq<char> {
    page_head(sec.title, sec.intro) + "\n"@ + section_rows(t, tis, parents)
}

// ---------------------------------------------------------------------------
// Topic index pages
// ---------------------------------------------------------------------------

/// The entry files of a topic index.
pub open spec fn topic_files(t: TreeModel, ti: TopicIndexModel) -> Seq<Seq<char>> {
    if is_dir(t, ti.dir) {
        listing(t, ti.dir)
    } else {
        Seq::empty()
    }
}

/// The problem reports for the topics `tps` of `fname` that the index does not declare.
pub open spec fn undeclared(ti: TopicIndexModel, fname: Seq<char>, tps: Seq<Seq<char>>) -> Seq<Seq<char>>
    decreases tps.len(),
{
    if tps.len() == 0 {
        Seq::empty()
    } else {
        let here = if ti.topics.contains(tps[0]) {
            Seq::empty()
        } else {
            seq![ti.dir + "/"@ + fname + " 的主题「"@ + tps[0] + "」未在 book-meta.toml 中声明"@]
        };
        here + undeclared(ti, fname, tps.drop_first())
    }
}

/// The problem reports for the entry files `fs` of a topic index.
pub open spec fn problems_from(t: TreeModel, ti: TopicIndexModel, fs: Seq<Seq<char>>) -> Seq<Seq<char>>
    decreases fs.len(),
{
    if fs.len() == 0 {
        Seq::empty()
    } else {
        let f = fs[0];
        let tps = spec_read_topics(t, join(ti.dir, f));
        let here = if tps.len() == 0 {
            seq![ti.dir + "/"@ + f + " 缺少 <!-- topic: xxx --> 注释"@]
        } else {
            undeclared(ti, f, tps)
        };
        here + problems_from(t, ti, fs.drop_first())
    }
}

/// The problems of one topic index.
pub open spec fn topic_problems(t: TreeModel, ti: TopicIndexModel) -> Seq<Seq<char>> {
    problems_from(t, ti, topic_files(t, ti))
}

/// The problems of all topic indexes, in order.
pub open spec fn all_problems(t: TreeModel, tis: Seq<TopicIndexModel>) -> Seq<Seq<char>>
    decreases tis.len(),
{
    if tis.len() == 0 {
        Seq::empty()
    } else {
        topic_problems(t, tis[0]) + all_problems(t, tis.drop_first())
    }
}

/// The files among `fs` that declare `topic`.
pub open spec fn with_topic(t: TreeModel, dir: Seq<char>, fs: Seq<Seq<char>>, topic: Seq<char>) -> Seq<
    Seq<char>,
>
    decreases fs.len(),
{
    if fs.len() == 0 {
        Seq::empty()
    } else if spec_read_topics(t, join(dir, fs[0])).contains(topic) {
        seq![fs[0]] + with_topic(t, dir, fs.drop_first(), topic)
    } else {
        with_topic(t, dir, fs.drop_first(), topic)
    }
}

/// `j` is the first position of its topic in `topics`.
pub open spec fn first_of(topics: Seq<Seq<char>>, j: int) -> bool {
    !topics.take(j).contains(topics[j])
}

/// The link directory of an index page's entries: the index file's stem.
pub open spec fn sub_dir(ti: TopicIndexModel) -> Seq<char> {
    match rfind(ti.index, "/"@) {
        Some(i) => trim_end_matches(ti.index.skip(i + 1), ".md"@),
        None => ti.dir,
    }
}

/// The link rows of a topic group.
pub open spec fn group_rows(t: TreeModel, ti: TopicIndexModel, items: Seq<Seq<char>>) -> Seq<char>
    decreases items.len(),
{
    if items.len() == 0 {
        Seq::empty()
    } else {
        let f = items[0];
        "- ["@ + spec_index_label(t, join(ti.dir, f)) + "](./"@ + sub_dir(ti) + "/"@ + f + ")\n"@
            + group_rows(t, ti, items.drop_first())
    }
}

/// The entries grouped under the `j`-th declared topic.
pub open spec fn group_items(t: TreeModel, ti: TopicIndexModel, j: int) -> Seq<Seq<char>> {
    if first_of(ti.topics, j) {
        with_topic(t, ti.dir, topic_files(t, ti), ti.topics[j])
    } else {
        Seq::empty()
    }
}

/// The groups from the `j`-th declared topic on; empty groups are left out.
pub open spec fn groups_from(t: TreeModel, ti: TopicIndexModel, j: int) -> Seq<char>
    decreases ti.topics.len() - j,
{
    if j < 0 || j >= ti.topics.len() {
        Seq::empty()
    } else {
        let items = group_items(t, ti, j);
        let here = if items.len() == 0 {
            Seq::empty()
        } else {
            "\n## "@ + ti.topics[j] + "\n\n"@ + group_rows(t, ti, items)
        };
        here + groups_from(t, ti, j + 1)
    }
}

/// `build_topic_index`: the text of a topic index page.
pub open spec fn topic_index_text(t: TreeModel, ti: TopicIndexModel) -> Seq<char> {
    page_head(ti.title, ti.intro) + groups_from(t, ti, 0)
}

// ---------------------------------------------------------------------------
// The sidebar
// ---------------------------------------------------------------------------

/// The paths of `ps` that `prior` lacks, in order.
pub open spec fn new_paths(prior: Seq<Seq<char>>, ps: Seq<Seq<char>>) -> Seq<Seq<char>>
    decreases ps.len(),
{
    if ps.len() == 0 {
        Seq::empty()
    } else if prior.contains(ps[0]) {
        new_paths(prior, ps.drop_first())
    } else {
        seq![ps[0]] + new_paths(prior, ps.drop_first())
    }
}

/// The directory prefix of a parent page's children.
pub open spec fn child_prefix(parent: Seq<char>) -> Seq<char> {
    trim_end_matches(parent, ".md"@) + "/"@
}

/// The depth-1 items on disk under `prefix`.
pub open spec fn disk_children(on_disk: Seq<ItemModel>, prefix: Seq<char>) -> Seq<Seq<char>>
    decreases on_disk.len(),
{
    if on_disk.len() == 0 {
        Seq::empty()
    } else if on_disk[0].depth == 1 && starts_with(on_disk[0].rel, prefix) {
        seq![on_disk[0].rel] + disk_children(on_disk.drop_first(), prefix)
    } else {
        disk_children(on_disk.drop_first(), prefix)
    }
}

/// The depth-0 items on disk.
pub open spec fn disk_parents(on_disk: Seq<ItemModel>) -> Seq<Seq<char>>
    decreases on_disk.len(),
{
    if on_disk.len() == 0 {
        Seq::empty()
    } else if on_disk[0].depth == 0 {
        seq![on_disk[0].rel] + disk_parents(on_disk.drop_first())
    } else {
        disk_parents(on_disk.drop_first())
    }
}

/// The number of `/` in `s`.
pub open spec fn slashes(s: Seq<char>) -> nat
    decreases s.len(),
{
    if s.len() == 0 {
        0
    } else {
        (if s[0] == '/' {
            1nat
        } else {
            0nat
        }) + slashes(s.drop_first())
    }
}

/// The paths of `prior` with exactly one `/` (direct entries of a section).
pub open spec fn prior_parents(prior: Seq<Seq<char>>) -> Seq<Seq<char>>
    decreases prior.len(),
{
    if prior.len() == 0 {
        Seq::empty()
    } else if slashes(prior[0]) == 1 {
        seq![prior[0]] + prior_parents(prior.drop_first())
    } else {
        prior_parents(prior.drop_first())
    }
}

/// The paths of `prior` under `prefix`.
pub open spec fn prior_under(prior: Seq<Seq<char>>, prefix: Seq<char>) -> Seq<Seq<char>>
    decreases prior.len(),
{
    if prior.len() == 0 {
        Seq::empty()
    } else if starts_with(prior[0], prefix) {
        seq![prior[0]] + prior_under(prior.drop_first(), prefix)
    } else {
        prior_under(prior.drop_first(), prefix)
    }
}

/// A parent's children in order, and the children dropped from the summary.
pub open spec fn children_of(on_disk: Seq<ItemModel>, prior: Seq<Seq<char>>, parent: Seq<char>) -> (Seq<
    Seq<char>,
>, Seq<Seq<char>>) {
    let dc = disk_children(on_disk, child_prefix(parent));
    if dc.len() == 0 {
        (Seq::empty(), Seq::empty())
    } else {
        spec_merge_order(prior_under(prior, child_prefix(parent)), dc)
    }
}

/// The sidebar lines of the children `cs`.
pub open spec fn child_lines(t: TreeModel, tis: Seq<TopicIndexModel>, cs: Seq<Seq<char>>) -> Seq<Seq<char>>
    decreases cs.len(),
{
    if cs.len() == 0 {
        Seq::empty()
    } else {
        seq![entry_line("    "@, spec_title_of(t, tis, cs[0]), cs[0])] + child_lines(
            t,
            tis,
            cs.drop_first(),
        )
    }
}

/// What a section's entries contribute: sidebar lines, added and removed paths.
pub struct Part {
    pub lines: Seq<Seq<char>>,
    pub added: Seq<Seq<char>>,
    pub removed: Seq<Seq<char>>,
}

/// The contribution of the parent entries `ps` with their children.
pub open spec fn parents_part(
    t: TreeModel,
    tis: Seq<TopicIndexModel>,
    prior: Seq<Seq<char>>,
    on_disk: Seq<ItemModel>,
    ps: Seq<Seq<char>>,
) -> Part
    decreases ps.len(),
{
    if ps.len() == 0 {
        Part { lines: Seq::empty(), added: Seq::empty(), removed: Seq::empty() }
    } else {
        let p = ps[0];
        let (cs, rm) = children_of(on_disk, prior, p);
        let rest = parents_part(t, tis, prior, on_disk, ps.drop_first());
        Part {
            lines: seq![entry_line("  "@, spec_title_of(t, tis, p), p)] + child_lines(t, tis, cs)
                + rest.lines,
            added: new_paths(prior, seq![p]) + new_paths(prior, cs) + rest.added,
            removed: rm + rest.removed,
        }
    }
}

/// A section's parents in order, and those dropped from the summary.
pub open spec fn section_parents(t: TreeModel, cur: Seq<char>, sec: SectionModel) -> (Seq<Seq<char>>, Seq<
    Seq<char>,
>) {
    let on_disk = spec_scan(t, sec.dir);
    let prior = spec_existing_order(cur, sec.dir);
    spec_merge_order(prior_parents(prior), disk_parents(on_disk))
}

/// The page of a section.
pub open spec fn index_rel(sec: SectionModel) -> Seq<char> {
    sec.dir + "/index.md"@
}

/// A section is shown when it has entries on disk or a page.
pub open spec fn section_shown(t: TreeModel, sec: SectionModel) -> bool {
    spec_scan(t, sec.dir).len() > 0 || path_exists(t, index_rel(sec))
}

/// The contribution of a shown section: its sidebar block, added and removed paths.
pub open spec fn section_part(t: TreeModel, tis: Seq<TopicIndexModel>, cur: Seq<char>, sec: SectionModel) -> Part {
    let on_disk = spec_scan(t, sec.dir);
    let prior = spec_existing_order(cur, sec.dir);
    let (parents, rp) = section_parents(t, cur, sec);
    let pp = parents_part(t, tis, prior, on_disk, parents);
    Part {
        lines: seq!["# "@ + sec.part, Seq::empty(), entry_line(Seq::empty(), sec.title, index_rel(sec))]
            + pp.lines + seq![Seq::empty()],
        added: pp.added,
        removed: rp + pp.removed,
    }
}

/// Everything the sections from `k` on contribute, with their pages.
pub struct SectionsOut {
    pub lines: Seq<Seq<char>>,
    pub added: Seq<Seq<char>>,
    pub removed: Seq<Seq<char>>,
    pub files: Seq<(Seq<char>, Seq<char>)>,
}

/// The contributions of the sections `secs`, in order.
pub open spec fn sections_out(t: TreeModel, tis: Seq<TopicIndexModel>, cur: Seq<char>, secs: Seq<SectionModel>) -> SectionsOut
    decreases secs.len(),
{
    if secs.len() == 0 {
        SectionsOut { lines: Seq::empty(), added: Seq::empty(), removed: Seq::empty(), files: Seq::empty() }
    } else {
        let sec = secs[0];
        let rest = sections_out(t, tis, cur, secs.drop_first());
        if section_shown(t, sec) {
            let part = section_part(t, tis, cur, sec);
            let page = (index_rel(sec), section_index_text(t, tis, sec, section_parents(t, cur, sec).0));
            SectionsOut {
                lines: part.lines + rest.lines,
                added: part.added + rest.added,
                removed: part.removed + rest.removed,
                files: seq![page] + rest.files,
            }
        } else {
            rest
        }
    }
}

/// The fixed head of the sidebar.
pub open spec fn summary_head() -> Seq<Seq<char>> {
    seq![
        "# Summary"@,
        Seq::empty(),
        "[Introduction](./README.md)"@,
        Seq::empty(),
        "---"@,
        Seq::empty(),
    ]
}

/// `ls` without its trailing empty lines.
pub open spec fn drop_trailing_empty(ls: Seq<Seq<char>>) -> Seq<Seq<char>>
    decreases ls.len(),
{
    if ls.len() > 0 && ls.last().len() == 0 {
        drop_trailing_empty(ls.drop_last())
    } else {
        ls
    }
}

/// The sidebar text: the lines without trailing blank ones, ending in one newline.
pub open spec fn summary_text(ls: Seq<Seq<char>>) -> Seq<char> {
    join_nl(drop_trailing_empty(ls).push(Seq::empty()))
}

/// The pages of the topic indexes.
pub open spec fn topic_pages(t: TreeModel, tis: Seq<TopicIndexModel>) -> Seq<(Seq<char>, Seq<char>)>
    decreases tis.len(),
{
    if tis.len() == 0 {
        Seq::empty()
    } else {
        seq![(tis[0].index, topic_index_text(t, tis[0]))] + topic_pages(t, tis.drop_first())
    }
}

/// The tree as it is once the topic index pages are written: the sections
/// are read from it, so that the sidebar and the section pages already show
/// those pages as they will be.
pub open spec fn planned_tree(t: TreeModel, tis: Seq<TopicIndexModel>) -> TreeModel {
    crate::tree::with_files(t, topic_pages(t, tis))
}

/// `plan`: the target text of every managed file, or the content problems.
pub open spec fn spec_plan(t: TreeModel, m: MetaModel, cur: Seq<char>) -> Result<PlanModel, Seq<Seq<char>>> {
    let probs = all_problems(t, m.topic_indexes);
    if probs.len() > 0 {
        Err(probs)
    } else {
        let so = sections_out(planned_tree(t, m.topic_indexes), m.topic_indexes, cur, m.sections);
        Ok(
            PlanModel {
                files: topic_pages(t, m.topic_indexes) + so.files + seq![
                    ("SUMMARY.md"@, summary_text(summary_head() + so.lines)),
                ],
                added: so.added,
                removed: so.removed,
            },
        )
    }
}

// ---------------------------------------------------------------------------
// Executable code
// ---------------------------------------------------------------------------

proof fn lemma_skip_first<A>(s: Seq<A>, j: int)
    requires
        0 <= j < s.len(),
    ensures
        s.skip(j).drop_first() == s.skip(j + 1),
        s.skip(j)[0] == s[j],
{
    assert(s.skip(j).drop_first() =~= s.skip(j + 1));
}

/// Whether `v` holds `s`.
fn contains_str(v: &Vec<String>, s: &str) -> (r: bool)
    ensures
        r == str_views(v@).contains(s@),
{
    let mut i: usize = 0;
    while i < v.len()
        invariant
            i <= v.len(),
            forall|j: int| 0 <= j < i ==> v@[j]@ != s@,
        decreases v.len() - i,
    {
        if str_eq(v[i].as_str(), s) {
            assert(str_views(v@)[i as int] == s@);
            return true;
        }
        i = i + 1;
    }
    false
}

/// Whether the slice `v` holds `s`.
fn slice_contains(v: &[String], s: &str) -> (r: bool)
    ensures
        r == str_views(v@).contains(s@),
{
    let mut i: usize = 0;
    while i < v.len()
        invariant
            i <= v.len(),
            forall|j: int| 0 <= j < i ==> v@[j]@ != s@,
        decreases v.len() - i,
    {
        if str_eq(v[i].as_str(), s) {
            assert(str_views(v@)[i as int] == s@);
            return true;
        }
        i = i + 1;
    }
    false
}

/// `a + b` as a string.
fn cat(a: &str, b: &str) -> (r: String)
    ensures
        r@ == a@ + b@,
{
    let mut v = chars_of(a);
    push_str(&mut v, b);
    string_of(&v)
}

/// `a + b + c` as a string.
fn cat3(a: &str, b: &str, c: &str) -> (r: String)
    ensures
        r@ == a@ + b@ + c@,
{
    let mut v = chars_of(a);
    push_str(&mut v, b);
    push_str(&mut v, c);
    string_of(&v)
}

/// `dir` joined with `name` as a tree path.
fn join_exec(dir: &str, name: &str) -> (r: String)
    ensures
        r@ == join(dir@, name@),
{
    if dir.is_empty() {
        string_of(&chars_of(name))
    } else {
        proof {
            reveal_strlit("/");
            assert("/"@ =~= seq!['/']);
        }
        cat3(dir, "/", name)
    }
}

/// Pushes `s` onto `v`, tracking the model.
fn push_string(v: &mut Vec<String>, s: String)
    ensures
        str_views(final(v)@) == str_views(old(v)@).push(s@),
{
    let ghost before = str_views(v@);
    v.push(s);
    assert(str_views(v@) =~= before.push(s@));
}

/// Appends the strings of `w` to `v`.
fn extend_strings(v: &mut Vec<String>, w: Vec<String>)
    ensures
        str_views(final(v)@) == str_views(old(v)@) + str_views(w@),
{
    let mut i: usize = 0;
    let ghost v0 = str_views(v@);
    while i < w.len()
        invariant
            i <= w.len(),
            str_views(v@) == v0 + str_views(w@).take(i as int),
        decreases w.len() - i,
    {
        push_string(v, w[i].clone());
        assert(str_views(w@).take(i + 1) =~= str_views(w@).take(i as int).push(w@[i as int]@));
        assert(v0 + str_views(w@).take(i + 1) =~= (v0 + str_views(w@).take(i as int)).push(w@[i as int]@));
        i = i + 1;
    }
    assert(str_views(w@).take(w.len() as int) =~= str_views(w@));
}

/// The order of a section's entries in an existing summary: the paths of
/// its `- [title](./path)` lines under `section/`, without the section page
/// and without repeats, in the summary's (hand-kept) order.
pub fn existing_order(summary: &str, section: &str) -> (r: Vec<String>)
    ensures
        str_views(r@) == spec_existing_order(summary@, section@),
{
    let prefix = cat(section, "/");
    let index_path = cat(section, "/index.md");
    let ls = lines_of_str(summary);
    let ghost lv = views(ls@);
    let mut order: Vec<String> = Vec::new();
    let mut k: usize = 0;
    assert(lv.skip(0) =~= lv);
    assert(str_views(order@) =~= Seq::<Seq<char>>::empty());
    while k < ls.len()
        invariant
            k <= ls.len(),
            lv == views(ls@),
            lv == lines(summary@),
            prefix@ == section@ + "/"@,
            index_path@ == section@ + "/index.md"@,
            spec_existing_order(summary@, section@) == order_from(
                lv.skip(k as int),
                prefix@,
                index_path@,
                str_views(order@),
            ),
        decreases ls.len() - k,
    {
        proof {
            lemma_skip_first(lv, k as int);
        }
        let line = string_of(&ls[k]);
        assert(line@ == lv[k as int]);
        match crate::md::extract_link_path(line.as_str()) {
            Some(rel) => {
                let rv = chars_of(rel.as_str());
                let pv = chars_of(prefix.as_str());
                if starts_with_exec(&rv, &pv) && !str_eq(rel.as_str(), index_path.as_str())
                    && !contains_str(&order, rel.as_str()) {
                    push_string(&mut order, rel);
                }
            },
            None => {},
        }
        k = k + 1;
    }
    assert(lv.skip(ls.len() as int) =~= Seq::<Seq<char>>::empty());
    order
}

/// Orders paths by the manual order first, with paths new on disk appended
/// in disk order; returns the ordered paths and the manual paths that are
/// no longer on disk.
pub fn merge_order(manual: &[String], disk: &[String]) -> (r: (Vec<String>, Vec<String>))
    ensures
        (str_views(r.0@), str_views(r.1@)) == spec_merge_order(str_views(manual@), str_views(disk@)),
{
    let ghost m = str_views(manual@);
    let ghost d = str_views(disk@);
    let mut kept: Vec<String> = Vec::new();
    let mut removed: Vec<String> = Vec::new();
    let mut i: usize = 0;
    assert(m.skip(0) =~= m);
    assert(str_views(kept@) + keep_in(m, d) =~= keep_in(m, d));
    assert(str_views(removed@) + drop_out(m, d) =~= drop_out(m, d));
    while i < manual.len()
        invariant
            i <= manual.len(),
            m == str_views(manual@),
            d == str_views(disk@),
            keep_in(m, d) == str_views(kept@) + keep_in(m.skip(i as int), d),
            drop_out(m, d) == str_views(removed@) + drop_out(m.skip(i as int), d),
        decreases manual.len() - i,
    {
        proof {
            lemma_skip_first(m, i as int);
        }
        let x = manual[i].clone();
        assert(x@ == m[i as int]);
        let ghost k0 = str_views(kept@);
        let ghost r0 = str_views(removed@);
        if slice_contains(disk, x.as_str()) {
            push_string(&mut kept, x);
            assert(k0 + (seq![m[i as int]] + keep_in(m.skip(i + 1), d)) =~= str_views(kept@) + keep_in(
                m.skip(i + 1),
                d,
            ));
        } else {
            push_string(&mut removed, x);
            assert(r0 + (seq![m[i as int]] + drop_out(m.skip(i + 1), d)) =~= str_views(removed@)
                + drop_out(m.skip(i + 1), d));
        }
        i = i + 1;
    }
    assert(m.skip(manual.len() as int) =~= Seq::<Seq<char>>::empty());
    assert(str_views(kept@) + Seq::<Seq<char>>::empty() =~= str_views(kept@));
    assert(str_views(removed@) + Seq::<Seq<char>>::empty() =~= str_views(removed@));
    let mut ordered = kept;
    let mut j: usize = 0;
    assert(d.skip(0) =~= d);
    while j < disk.len()
        invariant
            j <= disk.len(),
            d == str_views(disk@),
            append_new(keep_in(m, d), d) == append_new(str_views(ordered@), d.skip(j as int)),
        decreases disk.len() - j,
    {
        proof {
            lemma_skip_first(d, j as int);
        }
        let x = disk[j].clone();
        assert(x@ == d[j as int]);
        if !contains_str(&ordered, x.as_str()) {
            push_string(&mut ordered, x);
        }
        j = j + 1;
    }
    assert(d.skip(disk.len() as int) =~= Seq::<Seq<char>>::empty());
    (ordered, removed)
}

/// All entries of a section on disk: `section/name.md` at depth 0, each
/// followed by the files of a same-named directory `section/name/` at depth 1.
pub fn scan(tree: &SrcTree, section: &str) -> (r: Vec<Item>)
    ensures
        item_views(r@) == spec_scan(tree@, section@),
{
    let mut items: Vec<Item> = Vec::new();
    if !tree.is_dir(section) {
        assert(item_views(items@) =~= Seq::<ItemModel>::empty());
        return items;
    }
    let names = crate::md::md_files_in(tree, section);
    let ghost nv = str_views(names@);
    let mut i: usize = 0;
    assert(nv.skip(0) =~= nv);
    assert(item_views(items@) + scan_names(tree@, section@, nv) =~= scan_names(tree@, section@, nv));
    while i < names.len()
        invariant
            i <= names.len(),
            nv == str_views(names@),
            nv == listing(tree@, section@),
            is_dir(tree@, section@),
            spec_scan(tree@, section@) == item_views(items@) + scan_names(tree@, section@, nv.skip(i as int)),
        decreases names.len() - i,
    {
        proof {
            lemma_skip_first(nv, i as int);
        }
        let name = &names[i];
        assert(name@ == nv[i as int]);
        let ghost i0 = item_views(items@);
        let rel = cat3(section, "/", name.as_str());
        let it = Item { rel, depth: 0 };
        items.push(it);
        assert(item_views(items@) =~= i0.push(ItemModel { rel: section@ + "/"@ + name@, depth: 0 }));
        let nc = chars_of(name.as_str());
        let stem_v = crate::md::trim_end_matches_exec(&nc, ".md");
        let stem = string_of(&stem_v);
        let sub = join_exec(section, stem.as_str());
        let rel_dir = cat3(section, "/", stem.as_str());
        let ghost i1 = item_views(items@);
        if tree.is_dir(sub.as_str()) {
            let children = crate::md::md_files_in(tree, sub.as_str());
            let ghost cv = str_views(children@);
            let mut j: usize = 0;
            assert(cv.skip(0) =~= cv);
            assert(item_views(items@) + child_items(rel_dir@, cv) =~= i1 + child_items(rel_dir@, cv));
            while j < children.len()
                invariant
                    j <= children.len(),
                    cv == str_views(children@),
                    i1 + child_items(rel_dir@, cv) == item_views(items@) + child_items(
                        rel_dir@,
                        cv.skip(j as int),
                    ),
                decreases children.len() - j,
            {
                proof {
                    lemma_skip_first(cv, j as int);
                }
                let ghost b = item_views(items@);
                let crel = cat3(rel_dir.as_str(), "/", children[j].as_str());
                assert(crel@ == rel_dir@ + "/"@ + cv[j as int]);
                items.push(Item { rel: crel, depth: 1 });
                assert(item_views(items@) =~= b.push(ItemModel { rel: crel@, depth: 1 }));
                assert(b + child_items(rel_dir@, cv.skip(j as int)) =~= item_views(items@) + child_items(
                    rel_dir@,
                    cv.skip(j + 1),
                ));
                j = j + 1;
            }
            assert(cv.skip(children.len() as int) =~= Seq::<Seq<char>>::empty());
            assert(item_views(items@) + Seq::<ItemModel>::empty() =~= item_views(items@));
            assert(spec_scan(tree@, section@) == item_views(items@) + scan_names(
                tree@,
                section@,
                nv.skip(i + 1),
            )) by {
                assert(i0 + (seq![ItemModel { rel: section@ + "/"@ + name@, depth: 0 }] + child_items(
                    rel_dir@,
                    cv,
                ) + scan_names(tree@, section@, nv.skip(i + 1))) =~= item_views(items@) + scan_names(
                    tree@,
                    section@,
                    nv.skip(i + 1),
                ));
            }
        } else {
            assert(i0 + (seq![ItemModel { rel: section@ + "/"@ + name@, depth: 0 }] + Seq::<
                ItemModel,
            >::empty() + scan_names(tree@, section@, nv.skip(i + 1))) =~= item_views(items@)
                + scan_names(tree@, section@, nv.skip(i + 1)));
        }
        i = i + 1;
    }
    assert(nv.skip(names.len() as int) =~= Seq::<Seq<char>>::empty());
    assert(item_views(items@) + Seq::<ItemModel>::empty() =~= item_views(items@));
    items
}

/// `title_of`: the configured title when `rel` is a topic index page
/// (the last such index wins), else the file's own title.
fn title_of(tree: &SrcTree, rel: &str, tis: &Vec<TopicIndex>) -> (r: String)
    ensures
        r@ == spec_title_of(tree@, index_views(tis@), rel@),
{
    let ghost all = index_views(tis@);
    let mut i: usize = tis.len();
    assert(all.take(tis.len() as int) =~= all);
    while i > 0
        invariant
            i <= tis.len(),
            all == index_views(tis@),
            title_for(all, rel@) == title_for(all.take(i as int), rel@),
        decreases i,
    {
        let ghost t = all.take(i as int);
        assert(t.last() == tis@[i - 1]@);
        assert(t.drop_last() =~= all.take(i - 1));
        if str_eq(tis[i - 1].index.as_str(), rel) {
            return tis[i - 1].title.clone();
        }
        i = i - 1;
    }
    assert(all.take(0) =~= Seq::<TopicIndexModel>::empty());
    crate::md::display_title(tree, rel)
}

/// The opening of a page: `# title`, and the introduction when not empty.
fn page_head_exec(title: &str, intro: &str) -> (r: Vec<char>)
    ensures
        r@ == page_head(title@, intro@),
{
    let mut out: Vec<char> = Vec::new();
    push_str(&mut out, "# ");
    push_str(&mut out, title);
    push_str(&mut out, "\n");
    if !intro.is_empty() {
        push_str(&mut out, "\n");
        push_str(&mut out, intro);
        push_str(&mut out, "\n");
        assert(out@ =~= page_head(title@, intro@));
    } else {
        assert(out@ =~= page_head(title@, intro@));
    }
    out
}

/// The text of a section page: heading, introduction, then one row per
/// parent entry (with its `desc` when it has one), in sidebar order.
fn build_section_index(tree: &SrcTree, section: &Section, parents: &Vec<String>, tis: &Vec<TopicIndex>) -> (r: String)
    ensures
        r@ == section_index_text(tree@, index_views(tis@), section@, str_views(parents@)),
{
    let ghost ps = str_views(parents@);
    let ghost tv = index_views(tis@);
    let mut out = page_head_exec(section.title.as_str(), section.intro.as_str());
    push_str(&mut out, "\n");
    let ghost head = out@;
    let mut k: usize = 0;
    assert(ps.skip(0) =~= ps);
    assert(head + section_rows(tree@, tv, ps) =~= out@ + section_rows(tree@, tv, ps.skip(0)));
    while k < parents.len()
        invariant
            k <= parents.len(),
            ps == str_views(parents@),
            tv == index_views(tis@),
            head + section_rows(tree@, tv, ps) == out@ + section_rows(tree@, tv, ps.skip(k as int)),
        decreases parents.len() - k,
    {
        proof {
            lemma_skip_first(ps, k as int);
        }
        let rel = &parents[k];
        assert(rel@ == ps[k as int]);
        let rc = chars_of(rel.as_str());
        let file = crate::md::file_name_exec(&rc);
        let title = title_of(tree, rel.as_str(), tis);
        let ghost o0 = out@;
        push_str(&mut out, "- [");
        push_str(&mut out, title.as_str());
        push_str(&mut out, "](./");
        append(&mut out, &file);
        match crate::md::read_desc(tree, rel.as_str()) {
            Some(d) => {
                push_str(&mut out, ") —— ");
                push_str(&mut out, d.as_str());
                push_str(&mut out, "\n");
                assert(out@ =~= o0 + ("- ["@ + title@ + "](./"@ + file@ + ") —— "@ + d@ + "\n"@));
            },
            None => {
                push_str(&mut out, ")\n");
                assert(out@ =~= o0 + ("- ["@ + title@ + "](./"@ + file@ + ")\n"@));
            },
        }
        k = k + 1;
    }
    assert(ps.skip(parents.len() as int) =~= Seq::<Seq<char>>::empty());
    assert(out@ + Seq::<char>::empty() =~= out@);
    string_of(&out)
}

/// The entry files of a topic index.
fn topic_files_exec(tree: &SrcTree, ti: &TopicIndex) -> (r: Vec<String>)
    ensures
        str_views(r@) == topic_files(tree@, ti@),
{
    if tree.is_dir(ti.dir.as_str()) {
        crate::md::md_files_in(tree, ti.dir.as_str())
    } else {
        let v: Vec<String> = Vec::new();
        assert(str_views(v@) =~= Seq::<Seq<char>>::empty());
        v
    }
}

/// Records the problems of a topic index's entry files: a missing topic,
/// or a topic the configuration does not declare.
fn collect_problems(tree: &SrcTree, ti: &TopicIndex, files: &Vec<String>, problems: &mut Vec<String>)
    ensures
        str_views(final(problems)@) == str_views(old(problems)@) + problems_from(tree@, ti@, str_views(files@)),
{
    let ghost fs = str_views(files@);
    let ghost p0 = str_views(problems@);
    let mut i: usize = 0;
    assert(fs.skip(0) =~= fs);
    assert(p0 + problems_from(tree@, ti@, fs) =~= str_views(problems@) + problems_from(tree@, ti@, fs.skip(0)));
    while i < files.len()
        invariant
            i <= files.len(),
            fs == str_views(files@),
            p0 + problems_from(tree@, ti@, fs) == str_views(problems@) + problems_from(tree@, ti@, fs.skip(i as int)),
        decreases files.len() - i,
    {
        proof {
            lemma_skip_first(fs, i as int);
        }
        let f = &files[i];
        assert(f@ == fs[i as int]);
        let path = join_exec(ti.dir.as_str(), f.as_str());
        let tps = crate::md::read_topics(tree, path.as_str());
        let ghost q0 = str_views(problems@);
        if tps.len() == 0 {
            let mut m = chars_of(ti.dir.as_str());
            push_str(&mut m, "/");
            push_str(&mut m, f.as_str());
            push_str(&mut m, " 缺少 <!-- topic: xxx --> 注释");
            push_string(problems, string_of(&m));
            assert(q0 + (seq![ti@.dir + "/"@ + f@ + " 缺少 <!-- topic: xxx --> 注释"@] + problems_from(
                tree@,
                ti@,
                fs.skip(i + 1),
            )) =~= str_views(problems@) + problems_from(tree@, ti@, fs.skip(i + 1)));
        } else {
            let ghost tv = str_views(tps@);
            let mut j: usize = 0;
            assert(tv.skip(0) =~= tv);
            assert(q0 + undeclared(ti@, f@, tv) =~= str_views(problems@) + undeclared(ti@, f@, tv.skip(0)));
            while j < tps.len()
                invariant
                    j <= tps.len(),
                    tv == str_views(tps@),
                    q0 + undeclared(ti@, f@, tv) == str_views(problems@) + undeclared(ti@, f@, tv.skip(j as int)),
                decreases tps.len() - j,
            {
                proof {
                    lemma_skip_first(tv, j as int);
                }
                let topic = &tps[j];
                assert(topic@ == tv[j as int]);
                let ghost r0 = str_views(problems@);
                if !contains_str(&ti.topics, topic.as_str()) {
                    let mut m = chars_of(ti.dir.as_str());
                    push_str(&mut m, "/");
                    push_str(&mut m, f.as_str());
                    push_str(&mut m, " 的主题「");
                    push_str(&mut m, topic.as_str());
                    push_str(&mut m, "」未在 book-meta.toml 中声明");
                    push_string(problems, string_of(&m));
                    assert(r0 + (seq![ti@.dir + "/"@ + f@ + " 的主题「"@ + topic@ + "」未在 book-meta.toml 中声明"@]
                        + undeclared(ti@, f@, tv.skip(j + 1))) =~= str_views(problems@) + undeclared(
                        ti@,
                        f@,
                        tv.skip(j + 1),
                    ));
                } else {
                    assert(r0 + (Seq::<Seq<char>>::empty() + undeclared(ti@, f@, tv.skip(j + 1))) =~= str_views(
                        problems@,
                    ) + undeclared(ti@, f@, tv.skip(j + 1)));
                }
                j = j + 1;
            }
            assert(tv.skip(tps.len() as int) =~= Seq::<Seq<char>>::empty());
            assert(q0 + (undeclared(ti@, f@, tv) + problems_from(tree@, ti@, fs.skip(i + 1))) =~= str_views(
                problems@,
            ) + problems_from(tree@, ti@, fs.skip(i + 1)));
        }
        i = i + 1;
    }
    assert(fs.skip(files.len() as int) =~= Seq::<Seq<char>>::empty());
    assert(str_views(problems@) + Seq::<Seq<char>>::empty() =~= str_views(problems@));
}

/// The entry files among `files` that declare `topic`.
fn files_with_topic(tree: &SrcTree, dir: &str, files: &Vec<String>, topic: &str) -> (r: Vec<String>)
    ensures
        str_views(r@) == with_topic(tree@, dir@, str_views(files@), topic@),
{
    let ghost fs = str_views(files@);
    let mut out: Vec<String> = Vec::new();
    let mut i: usize = 0;
    assert(fs.skip(0) =~= fs);
    assert(str_views(out@) + with_topic(tree@, dir@, fs, topic@) =~= with_topic(tree@, dir@, fs, topic@));
    while i < files.len()
        invariant
            i <= files.len(),
            fs == str_views(files@),
            with_topic(tree@, dir@, fs, topic@) == str_views(out@) + with_topic(tree@, dir@, fs.skip(i as int), topic@),
        decreases files.len() - i,
    {
        proof {
            lemma_skip_first(fs, i as int);
        }
        let f = &files[i];
        assert(f@ == fs[i as int]);
        let path = join_exec(dir, f.as_str());
        let tps = crate::md::read_topics(tree, path.as_str());
        let ghost o0 = str_views(out@);
        if contains_str(&tps, topic) {
            push_string(&mut out, f.clone());
            assert(o0 + (seq![f@] + with_topic(tree@, dir@, fs.skip(i + 1), topic@)) =~= str_views(out@)
                + with_topic(tree@, dir@, fs.skip(i + 1), topic@));
        }
        i = i + 1;
    }
    assert(fs.skip(files.len() as int) =~= Seq::<Seq<char>>::empty());
    assert(str_views(out@) + Seq::<Seq<char>>::empty() =~= str_views(out@));
    out
}

/// The link directory of a topic index's entries.
fn sub_dir_exec(ti: &TopicIndex) -> (r: String)
    ensures
        r@ == sub_dir(ti@),
{
    let iv = chars_of(ti.index.as_str());
    match crate::text::rfind_str(&iv, "/") {
        Some(i) => {
            proof {
                reveal_strlit("/");
                crate::text::lemma_rfind_upto_bounds(iv@, "/"@, iv@.len() - 1);
            }
            let n = iv.len();
            assert(i + 1 <= n);
            let f = crate::text::skip(&iv, i + 1);
            string_of(&crate::md::trim_end_matches_exec(&f, ".md"))
        },
        None => ti.dir.clone(),
    }
}

/// The text of a topic index page: heading and introduction, then a
/// `## topic` group per declared topic that has entries, in declared order,
/// each listing its entries (by `label` or title) in listing order; the
/// problems of its entry files are recorded in `problems`.
fn build_topic_index(tree: &SrcTree, ti: &TopicIndex, problems: &mut Vec<String>) -> (r: String)
    ensures
        r@ == topic_index_text(tree@, ti@),
        str_views(final(problems)@) == str_views(old(problems)@) + topic_problems(tree@, ti@),
{
    let files = topic_files_exec(tree, ti);
    collect_problems(tree, ti, &files, problems);
    let sub = sub_dir_exec(ti);
    let mut out = page_head_exec(ti.title.as_str(), ti.intro.as_str());
    let ghost head = out@;
    let ghost tps = ti@.topics;
    let mut j: usize = 0;
    assert(head + groups_from(tree@, ti@, 0) =~= out@ + groups_from(tree@, ti@, 0));
    while j < ti.topics.len()
        invariant
            j <= ti.topics.len(),
            tps == ti@.topics,
            str_views(files@) == topic_files(tree@, ti@),
            sub@ == sub_dir(ti@),
            head + groups_from(tree@, ti@, 0) == out@ + groups_from(tree@, ti@, j as int),
        decreases ti.topics.len() - j,
    {
        let topic = &ti.topics[j];
        assert(topic@ == tps[j as int]);
        // only the first group of a topic receives its entries
        let mut first = true;
        let mut q: usize = 0;
        while q < j
            invariant
                q <= j < ti.topics.len(),
                tps == ti@.topics,
                topic@ == tps[j as int],
                first == !tps.take(q as int).contains(tps[j as int]),
            decreases j - q,
        {
            proof {
                crate::text::lemma_take_succ_contains(tps, q as int, tps[j as int]);
            }
            if str_eq(ti.topics[q].as_str(), topic.as_str()) {
                first = false;
            }
            q = q + 1;
        }
        let items = if first {
            files_with_topic(tree, ti.dir.as_str(), &files, topic.as_str())
        } else {
            let v: Vec<String> = Vec::new();
            assert(str_views(v@) =~= Seq::<Seq<char>>::empty());
            v
        };
        assert(str_views(items@) == group_items(tree@, ti@, j as int));
        let ghost o0 = out@;
        if items.len() > 0 {
            push_str(&mut out, "\n## ");
            push_str(&mut out, topic.as_str());
            push_str(&mut out, "\n\n");
            let ghost iv = str_views(items@);
            let ghost g0 = out@;
            let mut k: usize = 0;
            assert(iv.skip(0) =~= iv);
            assert(g0 + group_rows(tree@, ti@, iv) =~= out@ + group_rows(tree@, ti@, iv.skip(0)));
            while k < items.len()
                invariant
                    k <= items.len(),
                    iv == str_views(items@),
                    sub@ == sub_dir(ti@),
                    g0 + group_rows(tree@, ti@, iv) == out@ + group_rows(tree@, ti@, iv.skip(k as int)),
                decreases items.len() - k,
            {
                proof {
                    lemma_skip_first(iv, k as int);
                }
                let f = &items[k];
                assert(f@ == iv[k as int]);
                let path = join_exec(ti.dir.as_str(), f.as_str());
                let label = crate::md::index_label(tree, path.as_str());
                let ghost r0 = out@;
                push_str(&mut out, "- [");
                push_str(&mut out, label.as_str());
                push_str(&mut out, "](./");
                push_str(&mut out, sub.as_str());
                push_str(&mut out, "/");
                push_str(&mut out, f.as_str());
                push_str(&mut out, ")\n");
                assert(out@ =~= r0 + ("- ["@ + label@ + "](./"@ + sub@ + "/"@ + f@ + ")\n"@));
                k = k + 1;
            }
            assert(iv.skip(items.len() as int) =~= Seq::<Seq<char>>::empty());
            assert(out@ =~= o0 + ("\n## "@ + tps[j as int] + "\n\n"@ + group_rows(tree@, ti@, iv)));
        }
        assert(o0 + groups_from(tree@, ti@, j as int) =~= out@ + groups_from(tree@, ti@, j + 1));
        j = j + 1;
    }
    assert(out@ + Seq::<char>::empty() =~= out@);
    string_of(&out)
}

/// The depth-0 paths among the items.
fn disk_parents_exec(on_disk: &Vec<Item>) -> (r: Vec<String>)
    ensures
        str_views(r@) == disk_parents(item_views(on_disk@)),
{
    let ghost d = item_views(on_disk@);
    let mut out: Vec<String> = Vec::new();
    let mut i: usize = 0;
    assert(d.skip(0) =~= d);
    assert(str_views(out@) + disk_parents(d) =~= disk_parents(d));
    while i < on_disk.len()
        invariant
            i <= on_disk.len(),
            d == item_views(on_disk@),
            disk_parents(d) == str_views(out@) + disk_parents(d.skip(i as int)),
        decreases on_disk.len() - i,
    {
        proof {
            lemma_skip_first(d, i as int);
        }
        assert(on_disk@[i as int]@ == d[i as int]);
        let ghost o0 = str_views(out@);
        if on_disk[i].depth == 0 {
            push_string(&mut out, on_disk[i].rel.clone());
            assert(o0 + (seq![d[i as int].rel] + disk_parents(d.skip(i + 1))) =~= str_views(out@)
                + disk_parents(d.skip(i + 1)));
        }
        i = i + 1;
    }
    assert(d.skip(on_disk.len() as int) =~= Seq::<ItemModel>::empty());
    assert(str_views(out@) + Seq::<Seq<char>>::empty() =~= str_views(out@));
    out
}

/// The depth-1 paths among the items that lie under `prefix`.
fn disk_children_exec(on_disk: &Vec<Item>, prefix: &str) -> (r: Vec<String>)
    ensures
        str_views(r@) == disk_children(item_views(on_disk@), prefix@),
{
    let ghost d = item_views(on_disk@);
    let pv = chars_of(prefix);
    let mut out: Vec<String> = Vec::new();
    let mut i: usize = 0;
    assert(d.skip(0) =~= d);
    assert(str_views(out@) + disk_children(d, prefix@) =~= disk_children(d, prefix@));
    while i < on_disk.len()
        invariant
            i <= on_disk.len(),
            d == item_views(on_disk@),
            pv@ == prefix@,
            disk_children(d, prefix@) == str_views(out@) + disk_children(d.skip(i as int), prefix@),
        decreases on_disk.len() - i,
    {
        proof {
            lemma_skip_first(d, i as int);
        }
        assert(on_disk@[i as int]@ == d[i as int]);
        let ghost o0 = str_views(out@);
        let rv = chars_of(on_disk[i].rel.as_str());
        if on_disk[i].depth == 1 && starts_with_exec(&rv, &pv) {
            push_string(&mut out, on_disk[i].rel.clone());
            assert(o0 + (seq![d[i as int].rel] + disk_children(d.skip(i + 1), prefix@)) =~= str_views(out@)
                + disk_children(d.skip(i + 1), prefix@));
        }
        i = i + 1;
    }
    assert(d.skip(on_disk.len() as int) =~= Seq::<ItemModel>::empty());
    assert(str_views(out@) + Seq::<Seq<char>>::empty() =~= str_views(out@));
    out
}

/// The number of `/` in a path.
fn slashes_exec(s: &str) -> (r: usize)
    ensures
        r == slashes(s@),
{
    let v = chars_of(s);
    let mut n: usize = 0;
    let mut i: usize = v.len();
    assert(v@.take(v.len() as int) =~= v@);
    while i > 0
        invariant
            i <= v.len(),
            slashes(v@) == slashes(v@.take(i as int)) + n,
            n + i <= v.len(),
        decreases i,
    {
        let ghost t = v@.take(i as int);
        proof {
            lemma_slashes_last(t);
        }
        assert(t.drop_last() =~= v@.take(i - 1));
        if v[i - 1] == '/' {
            n = n + 1;
        }
        i = i - 1;
    }
    assert(v@.take(v.len() as int) =~= v@);
    n
}

/// Counting slashes from the back.
proof fn lemma_slashes_last(s: Seq<char>)
    requires
        s.len() > 0,
    ensures
        slashes(s) == slashes(s.drop_last()) + if s.last() == '/' {
            1nat
        } else {
            0nat
        },
    decreases s.len(),
{
    if s.len() > 1 {
        lemma_slashes_last(s.drop_first());
        assert(s.drop_first().drop_last() =~= s.drop_last().drop_first());
    } else {
        assert(s.drop_first().len() == 0);
        assert(s.drop_last().len() == 0);
        assert(slashes(s.drop_first()) == 0);
        assert(slashes(s.drop_last()) == 0);
    }
}

/// `new_paths` of a non-empty list, one element at a time.
proof fn lemma_new_paths_cons(pr: Seq<Seq<char>>, s: Seq<Seq<char>>)
    requires
        s.len() > 0,
    ensures
        new_paths(pr, s) == new_paths(pr, seq![s[0]]) + new_paths(pr, s.drop_first()),
{
    let one = seq![s[0]];
    assert(one.drop_first() =~= Seq::<Seq<char>>::empty());
    assert(new_paths(pr, Seq::<Seq<char>>::empty()) == Seq::<Seq<char>>::empty());
    if pr.contains(s[0]) {
        assert(new_paths(pr, one) =~= Seq::<Seq<char>>::empty());
        assert(new_paths(pr, s) =~= new_paths(pr, one) + new_paths(pr, s.drop_first()));
    } else {
        assert(new_paths(pr, one) =~= one);
    }
}

/// The paths of `prior` that name a direct entry of a section (one `/`).
fn prior_parents_exec(prior: &Vec<String>) -> (r: Vec<String>)
    ensures
        str_views(r@) == prior_parents(str_views(prior@)),
{
    let ghost d = str_views(prior@);
    let mut out: Vec<String> = Vec::new();
    let mut i: usize = 0;
    assert(d.skip(0) =~= d);
    assert(str_views(out@) + prior_parents(d) =~= prior_parents(d));
    while i < prior.len()
        invariant
            i <= prior.len(),
            d == str_views(prior@),
            prior_parents(d) == str_views(out@) + prior_parents(d.skip(i as int)),
        decreases prior.len() - i,
    {
        proof {
            lemma_skip_first(d, i as int);
        }
        let ghost o0 = str_views(out@);
        if slashes_exec(prior[i].as_str()) == 1 {
            push_string(&mut out, prior[i].clone());
            assert(o0 + (seq![d[i as int]] + prior_parents(d.skip(i + 1))) =~= str_views(out@) + prior_parents(
                d.skip(i + 1),
            ));
        }
        i = i + 1;
    }
    assert(d.skip(prior.len() as int) =~= Seq::<Seq<char>>::empty());
    assert(str_views(out@) + Seq::<Seq<char>>::empty() =~= str_views(out@));
    out
}

/// The paths of `prior` under `prefix`.
fn prior_under_exec(prior: &Vec<String>, prefix: &str) -> (r: Vec<String>)
    ensures
        str_views(r@) == prior_under(str_views(prior@), prefix@),
{
    let ghost d = str_views(prior@);
    let pv = chars_of(prefix);
    let mut out: Vec<String> = Vec::new();
    let mut i: usize = 0;
    assert(d.skip(0) =~= d);
    assert(str_views(out@) + prior_under(d, prefix@) =~= prior_under(d, prefix@));
    while i < prior.len()
        invariant
            i <= prior.len(),
            d == str_views(prior@),
            pv@ == prefix@,
            prior_under(d, prefix@) == str_views(out@) + prior_under(d.skip(i as int), prefix@),
        decreases prior.len() - i,
    {
        proof {
            lemma_skip_first(d, i as int);
        }
        let ghost o0 = str_views(out@);
        let rv = chars_of(prior[i].as_str());
        if starts_with_exec(&rv, &pv) {
            push_string(&mut out, prior[i].clone());
            assert(o0 + (seq![d[i as int]] + prior_under(d.skip(i + 1), prefix@)) =~= str_views(out@)
                + prior_under(d.skip(i + 1), prefix@));
        }
        i = i + 1;
    }
    assert(d.skip(prior.len() as int) =~= Seq::<Seq<char>>::empty());
    assert(str_views(out@) + Seq::<Seq<char>>::empty() =~= str_views(out@));
    out
}

/// Records `rel` as added when the existing summary did not list it.
fn added_if_new(prior: &Vec<String>, rel: &str, added: &mut Vec<String>)
    ensures
        str_views(final(added)@) == str_views(old(added)@) + new_paths(str_views(prior@), seq![rel@]),
{
    let ghost one = seq![rel@];
    assert(one.drop_first() =~= Seq::<Seq<char>>::empty());
    assert(new_paths(str_views(prior@), Seq::<Seq<char>>::empty()) == Seq::<Seq<char>>::empty());
    if !contains_str(prior, rel) {
        push_string(added, string_of(&chars_of(rel)));
        assert(seq![rel@] + Seq::<Seq<char>>::empty() =~= seq![rel@]);
    } else {
        assert(str_views(added@) + Seq::<Seq<char>>::empty() =~= str_views(added@));
    }
}

/// The sidebar line `{indent}- [{title}](./{path})`.
fn entry_line_exec(indent: &str, title: &str, path: &str) -> (r: String)
    ensures
        r@ == entry_line(indent@, title@, path@),
{
    let mut v = chars_of(indent);
    push_str(&mut v, "- [");
    push_str(&mut v, title);
    push_str(&mut v, "](./");
    push_str(&mut v, path);
    push_str(&mut v, ")");
    assert(v@ =~= entry_line(indent@, title@, path@));
    string_of(&v)
}

/// A parent's children in order, with the children the summary loses.
fn children_of_exec(on_disk: &Vec<Item>, prior: &Vec<String>, parent: &str) -> (r: (Vec<String>, Vec<String>))
    ensures
        (str_views(r.0@), str_views(r.1@)) == children_of(item_views(on_disk@), str_views(prior@), parent@),
{
    let pc = chars_of(parent);
    let stem = crate::md::trim_end_matches_exec(&pc, ".md");
    let mut pre = stem;
    push_str(&mut pre, "/");
    let prefix = string_of(&pre);
    assert(prefix@ == child_prefix(parent@));
    let dc = disk_children_exec(on_disk, prefix.as_str());
    if dc.len() == 0 {
        let a: Vec<String> = Vec::new();
        let b: Vec<String> = Vec::new();
        assert(str_views(a@) =~= Seq::<Seq<char>>::empty());
        assert(str_views(b@) =~= Seq::<Seq<char>>::empty());
        return (a, b);
    }
    let pu = prior_under_exec(prior, prefix.as_str());
    merge_order(pu.as_slice(), dc.as_slice())
}

/// The sidebar lines and added paths of the entries `ps` of a section,
/// each followed by its children; removed children are recorded too.
fn parents_block(
    tree: &SrcTree,
    tis: &Vec<TopicIndex>,
    prior: &Vec<String>,
    on_disk: &Vec<Item>,
    ps: &Vec<String>,
    lines: &mut Vec<String>,
    added: &mut Vec<String>,
    removed: &mut Vec<String>,
)
    ensures
        str_views(final(lines)@) == str_views(old(lines)@) + parents_part(tree@, index_views(tis@), str_views(prior@), item_views(on_disk@), str_views(ps@)).lines,
        str_views(final(added)@) == str_views(old(added)@) + parents_part(tree@, index_views(tis@), str_views(prior@), item_views(on_disk@), str_views(ps@)).added,
        str_views(final(removed)@) == str_views(old(removed)@) + parents_part(tree@, index_views(tis@), str_views(prior@), item_views(on_disk@), str_views(ps@)).removed,
{
    let ghost tv = index_views(tis@);
    let ghost pr = str_views(prior@);
    let ghost od = item_views(on_disk@);
    let ghost pv = str_views(ps@);
    let ghost l0 = str_views(lines@);
    let ghost a0 = str_views(added@);
    let ghost r0 = str_views(removed@);
    let ghost whole = parents_part(tree@, tv, pr, od, pv);
    let mut j: usize = 0;
    assert(pv.skip(0) =~= pv);
    assert(l0 + whole.lines =~= str_views(lines@) + parents_part(tree@, tv, pr, od, pv.skip(0)).lines);
    assert(a0 + whole.added =~= str_views(added@) + parents_part(tree@, tv, pr, od, pv.skip(0)).added);
    assert(r0 + whole.removed =~= str_views(removed@) + parents_part(tree@, tv, pr, od, pv.skip(0)).removed);
    while j < ps.len()
        invariant
            j <= ps.len(),
            tv == index_views(tis@),
            pr == str_views(prior@),
            od == item_views(on_disk@),
            pv == str_views(ps@),
            whole == parents_part(tree@, tv, pr, od, pv),
            l0 + whole.lines == str_views(lines@) + parents_part(tree@, tv, pr, od, pv.skip(j as int)).lines,
            a0 + whole.added == str_views(added@) + parents_part(tree@, tv, pr, od, pv.skip(j as int)).added,
            r0 + whole.removed == str_views(removed@) + parents_part(tree@, tv, pr, od, pv.skip(j as int)).removed,
        decreases ps.len() - j,
    {
        proof {
            lemma_skip_first(pv, j as int);
        }
        let p = &ps[j];
        assert(p@ == pv[j as int]);
        let ghost rest = parents_part(tree@, tv, pr, od, pv.skip(j + 1));
        let ghost lj = str_views(lines@);
        let ghost aj = str_views(added@);
        let ghost rj = str_views(removed@);
        let title = title_of(tree, p.as_str(), tis);
        push_string(lines, entry_line_exec("  ", title.as_str(), p.as_str()));
        added_if_new(prior, p.as_str(), added);
        let (cs, rm) = children_of_exec(on_disk, prior, p.as_str());
        let ghost cv = str_views(cs@);
        extend_strings(removed, rm);
        // the children's lines
        let ghost lc = str_views(lines@);
        let ghost ac = str_views(added@);
        let mut k: usize = 0;
        assert(cv.skip(0) =~= cv);
        assert(lc + child_lines(tree@, tv, cv) =~= str_views(lines@) + child_lines(tree@, tv, cv.skip(0)));
        assert(ac + new_paths(pr, cv) =~= str_views(added@) + new_paths(pr, cv.skip(0)));
        while k < cs.len()
            invariant
                k <= cs.len(),
                tv == index_views(tis@),
                pr == str_views(prior@),
                cv == str_views(cs@),
                lc + child_lines(tree@, tv, cv) == str_views(lines@) + child_lines(tree@, tv, cv.skip(k as int)),
                ac + new_paths(pr, cv) == str_views(added@) + new_paths(pr, cv.skip(k as int)),
            decreases cs.len() - k,
        {
            proof {
                lemma_skip_first(cv, k as int);
            }
            let c = &cs[k];
            assert(c@ == cv[k as int]);
            let ghost lk = str_views(lines@);
            let ghost ak = str_views(added@);
            let ctitle = title_of(tree, c.as_str(), tis);
            push_string(lines, entry_line_exec("    ", ctitle.as_str(), c.as_str()));
            assert(lk + child_lines(tree@, tv, cv.skip(k as int)) =~= str_views(lines@) + child_lines(
                tree@,
                tv,
                cv.skip(k + 1),
            ));
            added_if_new(prior, c.as_str(), added);
            proof {
                lemma_new_paths_cons(pr, cv.skip(k as int));
                assert(ak + new_paths(pr, cv.skip(k as int)) =~= str_views(added@) + new_paths(pr, cv.skip(k + 1)));
            }
            k = k + 1;
        }
        assert(cv.skip(cs.len() as int) =~= Seq::<Seq<char>>::empty());
        assert(str_views(lines@) + Seq::<Seq<char>>::empty() =~= str_views(lines@));
        assert(str_views(added@) + Seq::<Seq<char>>::empty() =~= str_views(added@));
        assert(lj + parents_part(tree@, tv, pr, od, pv.skip(j as int)).lines =~= str_views(lines@) + rest.lines);
        assert(aj + parents_part(tree@, tv, pr, od, pv.skip(j as int)).added =~= str_views(added@) + rest.added);
        assert(rj + parents_part(tree@, tv, pr, od, pv.skip(j as int)).removed =~= str_views(removed@) + rest.removed);
        j = j + 1;
    }
    assert(pv.skip(ps.len() as int) =~= Seq::<Seq<char>>::empty());
    assert(str_views(lines@) + Seq::<Seq<char>>::empty() =~= str_views(lines@));
    assert(str_views(added@) + Seq::<Seq<char>>::empty() =~= str_views(added@));
    assert(str_views(removed@) + Seq::<Seq<char>>::empty() =~= str_views(removed@));
}

/// The model of `(path, text)` pages.
fn push_page(files: &mut Vec<(String, String)>, path: String, text: String)
    ensures
        pair_views(final(files)@) == pair_views(old(files)@).push((path@, text@)),
{
    let ghost before = pair_views(files@);
    let ghost pv = path@;
    let ghost tv = text@;
    files.push((path, text));
    assert(pair_views(files@) =~= before.push((pv, tv)));
}

/// One section's sidebar block and page, unless it has neither entries nor a page.
fn section_block(
    tree: &SrcTree,
    tis: &Vec<TopicIndex>,
    cur: &str,
    section: &Section,
    lines: &mut Vec<String>,
    added: &mut Vec<String>,
    removed: &mut Vec<String>,
    files: &mut Vec<(String, String)>,
)
    ensures
        section_shown(tree@, section@) ==> {
            let part = section_part(tree@, index_views(tis@), cur@, section@);
            &&& str_views(final(lines)@) == str_views(old(lines)@) + part.lines
            &&& str_views(final(added)@) == str_views(old(added)@) + part.added
            &&& str_views(final(removed)@) == str_views(old(removed)@) + part.removed
            &&& pair_views(final(files)@) == pair_views(old(files)@).push(
                (
                    index_rel(section@),
                    section_index_text(tree@, index_views(tis@), section@, section_parents(tree@, cur@, section@).0),
                ),
            )
        },
        !section_shown(tree@, section@) ==> {
            &&& final(lines)@ == old(lines)@
            &&& final(added)@ == old(added)@
            &&& final(removed)@ == old(removed)@
            &&& final(files)@ == old(files)@
        },
{
    let on_disk = scan(tree, section.dir.as_str());
    let index_path = cat(section.dir.as_str(), "/index.md");
    if on_disk.len() == 0 && !tree.path_exists(index_path.as_str()) {
        return;
    }
    let prior = existing_order(cur, section.dir.as_str());
    let dp = disk_parents_exec(&on_disk);
    let pp = prior_parents_exec(&prior);
    let (parents, removed_parents) = merge_order(pp.as_slice(), dp.as_slice());
    let ghost l0 = str_views(lines@);
    let ghost a0 = str_views(added@);
    let ghost r0 = str_views(removed@);
    extend_strings(removed, removed_parents);
    push_string(lines, cat("# ", section.part.as_str()));
    push_string(lines, String::new());
    push_string(lines, entry_line_exec("", section.title.as_str(), index_path.as_str()));
    let ghost l1 = str_views(lines@);
    let ghost a1 = str_views(added@);
    let ghost r1 = str_views(removed@);
    parents_block(tree, tis, &prior, &on_disk, &parents, lines, added, removed);
    push_string(lines, String::new());
    proof {
        reveal_strlit("");
        assert(""@ =~= Seq::<char>::empty());
        let pp = parents_part(tree@, index_views(tis@), str_views(prior@), item_views(on_disk@), str_views(parents@));
        let part = section_part(tree@, index_views(tis@), cur@, section@);
        assert(str_views(lines@) =~= l0 + part.lines);
        assert(str_views(added@) =~= a0 + part.added);
        assert(str_views(removed@) =~= r0 + part.removed);
    }
    let page = build_section_index(tree, section, &parents, tis);
    push_page(files, index_path, page);
}

/// The lines without their trailing empty ones.
fn drop_trailing_empty_exec(lines: &mut Vec<String>)
    ensures
        str_views(final(lines)@) == drop_trailing_empty(str_views(old(lines)@)),
{
    while lines.len() > 0 && lines[lines.len() - 1].as_str().is_empty()
        invariant
            drop_trailing_empty(str_views(old(lines)@)) == drop_trailing_empty(str_views(lines@)),
        decreases lines.len(),
    {
        let ghost before = str_views(lines@);
        lines.pop();
        assert(str_views(lines@) =~= before.drop_last());
    }
}

/// The target text of every managed file: each topic index page, then each
/// section page, then `SUMMARY.md`. Entries keep the order they have in
/// `current_summary`; new files are appended to their section and reported
/// in `added`, vanished ones are dropped and reported in `removed`. The
/// sections are read with the topic index pages already in place, so a
/// page the plan creates is listed on the first run. An entry without a
/// topic, or with an undeclared one, fails the whole plan.
pub fn plan(tree: &SrcTree, meta: &BookMeta, current_summary: &str) -> (r: Result<Plan, GenError>)
    ensures
        match r {
            Ok(p) => spec_plan(tree@, meta@, current_summary@) == Ok::<_, Seq<Seq<char>>>(p@),
            Err(GenError::Invalid(probs)) => spec_plan(tree@, meta@, current_summary@) == Err::<PlanModel, _>(
                str_views(probs@),
            ),
            Err(GenError::Io(_)) => false,
        },
{
    let tis = &meta.topic_indexes;
    let ghost tv = index_views(tis@);
    let mut problems: Vec<String> = Vec::new();
    let mut files: Vec<(String, String)> = Vec::new();
    let mut i: usize = 0;
    assert(tv.skip(0) =~= tv);
    assert(str_views(problems@) + all_problems(tree@, tv) =~= all_problems(tree@, tv));
    assert(pair_views(files@) + topic_pages(tree@, tv) =~= topic_pages(tree@, tv));
    while i < tis.len()
        invariant
            i <= tis.len(),
            tv == index_views(tis@),
            tv == meta@.topic_indexes,
            all_problems(tree@, tv) == str_views(problems@) + all_problems(tree@, tv.skip(i as int)),
            topic_pages(tree@, tv) == pair_views(files@) + topic_pages(tree@, tv.skip(i as int)),
        decreases tis.len() - i,
    {
        proof {
            lemma_skip_first(tv, i as int);
        }
        let ti = &tis[i];
        assert(ti@ == tv[i as int]);
        let ghost p0 = str_views(problems@);
        let ghost f0 = pair_views(files@);
        let content = build_topic_index(tree, ti, &mut problems);
        push_page(&mut files, ti.index.clone(), content);
        assert(p0 + all_problems(tree@, tv.skip(i as int)) =~= str_views(problems@) + all_problems(
            tree@,
            tv.skip(i + 1),
        ));
        assert(f0 + topic_pages(tree@, tv.skip(i as int)) =~= pair_views(files@) + topic_pages(
            tree@,
            tv.skip(i + 1),
        ));
        i = i + 1;
    }
    assert(tv.skip(tis.len() as int) =~= Seq::<TopicIndexModel>::empty());
    assert(str_views(problems@) + Seq::<Seq<char>>::empty() =~= str_views(problems@));
    assert(pair_views(files@) + Seq::<(Seq<char>, Seq<char>)>::empty() =~= pair_views(files@));
    if problems.len() > 0 {
        return Err(GenError::Invalid(problems));
    }
    // The sections are read from the tree with the topic index pages written.
    let ghost pv = pair_views(files@);
    let mut t1 = tree.copy();
    let mut j: usize = 0;
    assert(pv.take(0) =~= Seq::<(Seq<char>, Seq<char>)>::empty());
    while j < files.len()
        invariant
            j <= files.len(),
            pv == pair_views(files@),
            t1@ == crate::tree::with_files(tree@, pv.take(j as int)),
        decreases files.len() - j,
    {
        assert(pv.take(j + 1).drop_last() =~= pv.take(j as int));
        assert(pv.take(j + 1).last() == pv[j as int]);
        t1.add_file(files[j].0.as_str(), files[j].1.as_str());
        j = j + 1;
    }
    assert(pv.take(files.len() as int) =~= pv);
    assert(t1@ == planned_tree(tree@, tv));
    let mut lines: Vec<String> = Vec::new();
    push_string(&mut lines, string_of(&chars_of("# Summary")));
    push_string(&mut lines, String::new());
    push_string(&mut lines, string_of(&chars_of("[Introduction](./README.md)")));
    push_string(&mut lines, String::new());
    push_string(&mut lines, string_of(&chars_of("---")));
    push_string(&mut lines, String::new());
    assert(str_views(lines@) =~= summary_head());
    let mut added: Vec<String> = Vec::new();
    let mut removed: Vec<String> = Vec::new();
    let secs = &meta.sections;
    let ghost sv = section_views(secs@);
    let ghost whole = sections_out(t1@, tv, current_summary@, sv);
    let ghost l0 = str_views(lines@);
    let ghost f0 = pair_views(files@);
    let mut k: usize = 0;
    assert(sv.skip(0) =~= sv);
    assert(l0 + whole.lines =~= str_views(lines@) + sections_out(t1@, tv, current_summary@, sv.skip(0)).lines);
    assert(whole.added =~= str_views(added@) + sections_out(t1@, tv, current_summary@, sv.skip(0)).added);
    assert(whole.removed =~= str_views(removed@) + sections_out(t1@, tv, current_summary@, sv.skip(0)).removed);
    assert(f0 + whole.files =~= pair_views(files@) + sections_out(t1@, tv, current_summary@, sv.skip(0)).files);
    while k < secs.len()
        invariant
            k <= secs.len(),
            tv == index_views(tis@),
            sv == section_views(secs@),
            whole == sections_out(t1@, tv, current_summary@, sv),
            l0 + whole.lines == str_views(lines@) + sections_out(t1@, tv, current_summary@, sv.skip(k as int)).lines,
            whole.added == str_views(added@) + sections_out(t1@, tv, current_summary@, sv.skip(k as int)).added,
            whole.removed == str_views(removed@) + sections_out(t1@, tv, current_summary@, sv.skip(k as int)).removed,
            f0 + whole.files == pair_views(files@) + sections_out(t1@, tv, current_summary@, sv.skip(k as int)).files,
        decreases secs.len() - k,
    {
        proof {
            lemma_skip_first(sv, k as int);
        }
        let sec = &secs[k];
        assert(sec@ == sv[k as int]);
        let ghost lk = str_views(lines@);
        let ghost ak = str_views(added@);
        let ghost rk = str_views(removed@);
        let ghost fk = pair_views(files@);
        let ghost rest = sections_out(t1@, tv, current_summary@, sv.skip(k + 1));
        section_block(&t1, tis, current_summary, sec, &mut lines, &mut added, &mut removed, &mut files);
        proof {
            let here = sections_out(t1@, tv, current_summary@, sv.skip(k as int));
            if section_shown(t1@, sec@) {
                assert(lk + here.lines =~= str_views(lines@) + rest.lines);
                assert(ak + here.added =~= str_views(added@) + rest.added);
                assert(rk + here.removed =~= str_views(removed@) + rest.removed);
                assert(fk + here.files =~= pair_views(files@) + rest.files);
            }
        }
        k = k + 1;
    }
    assert(sv.skip(secs.len() as int) =~= Seq::<SectionModel>::empty());
    assert(str_views(lines@) + Seq::<Seq<char>>::empty() =~= str_views(lines@));
    assert(str_views(added@) + Seq::<Seq<char>>::empty() =~= str_views(added@));
    assert(str_views(removed@) + Seq::<Seq<char>>::empty() =~= str_views(removed@));
    assert(pair_views(files@) + Seq::<(Seq<char>, Seq<char>)>::empty() =~= pair_views(files@));
    drop_trailing_empty_exec(&mut lines);
    push_string(&mut lines, String::new());
    let summary = join_lines(&lines);
    push_page(&mut files, string_of(&chars_of("SUMMARY.md")), summary);
    let p = Plan { files, added, removed };
    proof {
        assert(str_views(lines@) =~= drop_trailing_empty(summary_head() + whole.lines).push(Seq::empty()));
    }
    Ok(p)
}

// ---------------------------------------------------------------------------
// Error messages
// ---------------------------------------------------------------------------

/// The problem lines of an `Invalid` error, each `  × problem\n`.
pub open spec fn problem_lines(ps: Seq<Seq<char>>) -> Seq<char>
    decreases ps.len(),
{
    if ps.len() == 0 {
        Seq::empty()
    } else {
        problem_lines(ps.drop_last()) + "  × "@ + ps.last() + "\n"@
    }
}

/// The text of a generation error as it is shown to the user.
pub open spec fn error_text(e: GenError) -> Seq<char> {
    match e {
        GenError::Io(m) => m@,
        GenError::Invalid(ps) => "内容校验未通过，共 "@ + crate::text::decimal(ps.len() as nat) + " 处：\n"@
            + problem_lines(str_views(ps@)) + "\n补齐上述元信息后重新运行；主题需与 book-meta.toml 中声明的一致。"@,
    }
}

impl GenError {
    /// The error as it is shown to the user: the I/O message, or the count
    /// of problems, one per line, and what to do about them.
    pub fn message(&self) -> (r: String)
        ensures
            r@ == error_text(*self),
    {
        match self {
            GenError::Io(m) => m.clone(),
            GenError::Invalid(ps) => {
                let mut v = chars_of("内容校验未通过，共 ");
                crate::text::push_decimal(&mut v, ps.len());
                push_str(&mut v, " 处：\n");
                let ghost base = v@;
                let ghost pv = str_views(ps@);
                let mut i: usize = 0;
                assert(pv.take(0) =~= Seq::<Seq<char>>::empty());
                assert(v@ =~= base + problem_lines(pv.take(0)));
                while i < ps.len()
                    invariant
                        i <= ps.len(),
                        pv == str_views(ps@),
                        v@ == base + problem_lines(pv.take(i as int)),
                    decreases ps.len() - i,
                {
                    assert(pv.take(i + 1).drop_last() =~= pv.take(i as int));
                    assert(pv.take(i + 1).last() == ps@[i as int]@);
                    push_str(&mut v, "  × ");
                    push_str(&mut v, ps[i].as_str());
                    push_str(&mut v, "\n");
                    assert(v@ =~= base + problem_lines(pv.take(i + 1)));
                    i = i + 1;
                }
                assert(pv.take(ps.len() as int) =~= pv);
                push_str(&mut v, "\n补齐上述元信息后重新运行；主题需与 book-meta.toml 中声明的一致。");
                string_of(&v)
            },
        }
    }
}

// ---------------------------------------------------------------------------
// Comparing a plan with the tree
// ---------------------------------------------------------------------------

/// The current text of `rel`, empty when there is no such file.
pub open spec fn current_text(t: TreeModel, rel: Seq<char>) -> Seq<char> {
    match crate::tree::file_text(t, rel) {
        Some(x) => x,
        None => Seq::empty(),
    }
}

/// The paths among `files` whose target text differs from the current one.
pub open spec fn stale_model(t: TreeModel, files: Seq<(Seq<char>, Seq<char>)>) -> Seq<Seq<char>>
    decreases files.len(),
{
    if files.len() == 0 {
        Seq::empty()
    } else {
        let f = files.last();
        stale_model(t, files.drop_last()) + if current_text(t, f.0) != f.1 {
            seq![f.0]
        } else {
            Seq::empty()
        }
    }
}

/// A path is stale exactly when some file of the list is at that path and
/// its target text differs from the text on disk (a missing file reads as
/// empty); so nothing is stale exactly when every file already has its
/// target text.
pub proof fn stale_iff_text_differs(t: TreeModel, files: Seq<(Seq<char>, Seq<char>)>)
    ensures
        forall|p: Seq<char>|
            #[trigger] stale_model(t, files).contains(p) <==> exists|i: int|
                0 <= i < files.len() && (#[trigger] files[i]).0 == p && current_text(t, p) != files[i].1,
        stale_model(t, files).len() == 0 <==> forall|i: int|
            0 <= i < files.len() ==> current_text(t, (#[trigger] files[i]).0) == files[i].1,
    decreases files.len(),
{
    if files.len() > 0 {
        let r = files.drop_last();
        let f = files.last();
        stale_iff_text_differs(t, r);
        let here = if current_text(t, f.0) != f.1 {
            seq![f.0]
        } else {
            Seq::<Seq<char>>::empty()
        };
        let sm = stale_model(t, files);
        let sr = stale_model(t, r);
        assert(sm == sr + here);
        assert forall|p: Seq<char>|
            #[trigger] sm.contains(p) <==> exists|i: int|
                0 <= i < files.len() && (#[trigger] files[i]).0 == p && current_text(t, p) != files[i].1 by {
            if sm.contains(p) {
                let k = choose|k: int| 0 <= k < sm.len() && sm[k] == p;
                if k < sr.len() {
                    assert(sr[k] == p);
                    assert(sr.contains(p));
                    let i = choose|i: int| 0 <= i < r.len() && (#[trigger] r[i]).0 == p && current_text(t, p) != r[i].1;
                    assert(files[i] == r[i]);
                } else {
                    assert(here[k - sr.len()] == p);
                    assert(files[files.len() - 1] == f);
                }
            }
            if exists|i: int| 0 <= i < files.len() && (#[trigger] files[i]).0 == p && current_text(t, p) != files[i].1 {
                let i = choose|i: int| 0 <= i < files.len() && (#[trigger] files[i]).0 == p && current_text(t, p) != files[i].1;
                if i < r.len() {
                    assert(r[i] == files[i]);
                    assert(sr.contains(p));
                    let k = choose|k: int| 0 <= k < sr.len() && sr[k] == p;
                    assert(sm[k] == p);
                } else {
                    assert(files[i] == f);
                    assert(sm[sr.len() as int] == p);
                }
            }
        }
        assert forall|i: int| 0 <= i < files.len() && sm.len() == 0 implies current_text(t, (#[trigger] files[i]).0)
            == files[i].1 by {
            if current_text(t, files[i].0) != files[i].1 {
                assert(sm.contains(files[i].0));
            }
        }
        if sm.len() > 0 {
            let p = sm[0];
            assert(sm.contains(p));
        }
    }
}

/// The files of `plan` whose text on disk is not their target text yet, in
/// plan order: what applying the plan writes.
pub fn stale(tree: &SrcTree, plan: &Plan) -> (r: Vec<String>)
    ensures
        str_views(r@) == stale_model(tree@, plan@.files),
{
    let ghost fv = plan@.files;
    let mut out: Vec<String> = Vec::new();
    let mut i: usize = 0;
    assert(fv.take(0) =~= Seq::<(Seq<char>, Seq<char>)>::empty());
    while i < plan.files.len()
        invariant
            i <= plan.files.len(),
            fv == plan@.files,
            fv == pair_views(plan.files@),
            str_views(out@) == stale_model(tree@, fv.take(i as int)),
        decreases plan.files.len() - i,
    {
        assert(fv.take(i + 1).drop_last() =~= fv.take(i as int));
        assert(fv.take(i + 1).last() == (plan.files@[i as int].0@, plan.files@[i as int].1@));
        let rel = plan.files[i].0.as_str();
        let current = match tree.read(rel) {
            Some(c) => c,
            None => String::new(),
        };
        assert(current@ == current_text(tree@, rel@));
        if !str_eq(current.as_str(), plan.files[i].1.as_str()) {
            let ghost o0 = str_views(out@);
            out.push(rel.to_owned());
            assert(str_views(out@) =~= o0.push(rel@));
        }
        i = i + 1;
    }
    assert(fv.take(plan.files.len() as int) =~= fv);
    out
}

// ---------------------------------------------------------------------------
// Laws of the entry order
// ---------------------------------------------------------------------------

proof fn lemma_keep_in(m: Seq<Seq<char>>, d: Seq<Seq<char>>)
    ensures
        forall|x: Seq<char>| #[trigger] keep_in(m, d).contains(x) <==> (m.contains(x) && d.contains(x)),
        forall|x: Seq<char>| #[trigger] drop_out(m, d).contains(x) <==> (m.contains(x) && !d.contains(x)),
        crate::tree::distinct(m) ==> crate::tree::distinct(keep_in(m, d)),
        (forall|x: Seq<char>| m.contains(x) ==> d.contains(x)) ==> keep_in(m, d) == m && drop_out(m, d)
            == Seq::<Seq<char>>::empty(),
    decreases m.len(),
{
    if m.len() > 0 {
        let r = m.drop_first();
        lemma_keep_in(r, d);
        assert forall|x: Seq<char>| #[trigger] m.contains(x) <==> (x == m[0] || r.contains(x)) by {
            if m.contains(x) {
                let i = choose|i: int| 0 <= i < m.len() && m[i] == x;
                if i > 0 {
                    assert(r[i - 1] == x);
                }
            }
            if r.contains(x) {
                let i = choose|i: int| 0 <= i < r.len() && r[i] == x;
                assert(m[i + 1] == x);
            }
            if x == m[0] {
                assert(m.contains(m[0]));
            }
        }
        let k = keep_in(r, d);
        let o = drop_out(r, d);
        assert(keep_in(m, d) == if d.contains(m[0]) {
            seq![m[0]] + k
        } else {
            k
        });
        assert(drop_out(m, d) == if d.contains(m[0]) {
            o
        } else {
            seq![m[0]] + o
        });
        assert forall|x: Seq<char>| #[trigger] (seq![m[0]] + k).contains(x) <==> (x == m[0] || k.contains(x)) by {
            if (seq![m[0]] + k).contains(x) {
                let i = choose|i: int| 0 <= i < (seq![m[0]] + k).len() && (seq![m[0]] + k)[i] == x;
                if i > 0 {
                    assert(k[i - 1] == x);
                }
            }
            if k.contains(x) {
                let i = choose|i: int| 0 <= i < k.len() && k[i] == x;
                assert((seq![m[0]] + k)[i + 1] == x);
            }
            if x == m[0] {
                assert((seq![m[0]] + k)[0] == x);
            }
        }
        assert forall|x: Seq<char>| #[trigger] (seq![m[0]] + o).contains(x) <==> (x == m[0] || o.contains(x)) by {
            if (seq![m[0]] + o).contains(x) {
                let i = choose|i: int| 0 <= i < (seq![m[0]] + o).len() && (seq![m[0]] + o)[i] == x;
                if i > 0 {
                    assert(o[i - 1] == x);
                }
            }
            if o.contains(x) {
                let i = choose|i: int| 0 <= i < o.len() && o[i] == x;
                assert((seq![m[0]] + o)[i + 1] == x);
            }
            if x == m[0] {
                assert((seq![m[0]] + o)[0] == x);
            }
        }
        assert forall|x: Seq<char>| #[trigger] keep_in(m, d).contains(x) <==> (m.contains(x) && d.contains(x)) by {
            assert((seq![m[0]] + k).contains(x) <==> (x == m[0] || k.contains(x)));
            assert(k.contains(x) <==> (r.contains(x) && d.contains(x)));
            assert(m.contains(x) <==> (x == m[0] || r.contains(x)));
        }
        assert forall|x: Seq<char>| #[trigger] drop_out(m, d).contains(x) <==> (m.contains(x) && !d.contains(x)) by {
            assert((seq![m[0]] + o).contains(x) <==> (x == m[0] || o.contains(x)));
            assert(o.contains(x) <==> (r.contains(x) && !d.contains(x)));
            assert(m.contains(x) <==> (x == m[0] || r.contains(x)));
        }
        if crate::tree::distinct(m) {
            assert(crate::tree::distinct(r)) by {
                assert forall|i: int, j: int| 0 <= i < r.len() && 0 <= j < r.len() && i != j implies r[i] != r[j] by {
                    assert(r[i] == m[i + 1] && r[j] == m[j + 1]);
                }
            }
            assert(!r.contains(m[0])) by {
                if r.contains(m[0]) {
                    let i = choose|i: int| 0 <= i < r.len() && r[i] == m[0];
                    assert(m[i + 1] == m[0]);
                }
            }
            if d.contains(m[0]) {
                let w = seq![m[0]] + k;
                assert forall|i: int, j: int| 0 <= i < w.len() && 0 <= j < w.len() && i != j implies w[i] != w[j] by {
                    if i > 0 && j > 0 {
                        assert(w[i] == k[i - 1] && w[j] == k[j - 1]);
                    } else if i == 0 {
                        assert(w[j] == k[j - 1]);
                        assert(k.contains(w[j]));
                    } else {
                        assert(w[i] == k[i - 1]);
                        assert(k.contains(w[i]));
                    }
                }
            }
        }
        if forall|x: Seq<char>| m.contains(x) ==> d.contains(x) {
            assert(d.contains(m[0])) by {
                assert(m.contains(m[0]));
            }
            assert(m =~= seq![m[0]] + r);
        }
    }
}

proof fn lemma_append_new(o: Seq<Seq<char>>, d: Seq<Seq<char>>)
    ensures
        forall|x: Seq<char>| #[trigger] append_new(o, d).contains(x) <==> (o.contains(x) || d.contains(x)),
        append_new(o, d).len() >= o.len(),
        append_new(o, d).take(o.len() as int) == o,
        crate::tree::distinct(o) ==> crate::tree::distinct(append_new(o, d)),
        (forall|x: Seq<char>| d.contains(x) ==> o.contains(x)) ==> append_new(o, d) == o,
    decreases d.len(),
{
    if d.len() > 0 {
        let r = d.drop_first();
        assert forall|x: Seq<char>| #[trigger] d.contains(x) <==> (x == d[0] || r.contains(x)) by {
            if d.contains(x) {
                let i = choose|i: int| 0 <= i < d.len() && d[i] == x;
                if i > 0 {
                    assert(r[i - 1] == x);
                }
            }
            if r.contains(x) {
                let i = choose|i: int| 0 <= i < r.len() && r[i] == x;
                assert(d[i + 1] == x);
            }
            if x == d[0] {
                assert(d.contains(d[0]));
            }
        }
        if o.contains(d[0]) {
            lemma_append_new(o, r);
        } else {
            let o2 = o.push(d[0]);
            lemma_append_new(o2, r);
            assert forall|x: Seq<char>| #[trigger] o2.contains(x) <==> (o.contains(x) || x == d[0]) by {
                if o2.contains(x) {
                    let i = choose|i: int| 0 <= i < o2.len() && o2[i] == x;
                    if i < o.len() {
                        assert(o[i] == x);
                    }
                }
                if o.contains(x) {
                    let i = choose|i: int| 0 <= i < o.len() && o[i] == x;
                    assert(o2[i] == x);
                }
                if x == d[0] {
                    assert(o2[o.len() as int] == x);
                }
            }
            assert(append_new(o, d).take(o2.len() as int).take(o.len() as int) =~= append_new(o, d).take(o.len() as int));
            assert(o2.take(o.len() as int) =~= o);
            if crate::tree::distinct(o) {
                assert forall|i: int, j: int| 0 <= i < o2.len() && 0 <= j < o2.len() && i != j implies o2[i] != o2[j] by {
                    if i == o.len() {
                        assert(o.contains(o2[j]));
                    } else if j == o.len() {
                        assert(o.contains(o2[i]));
                    }
                }
            }
            if forall|x: Seq<char>| d.contains(x) ==> o.contains(x) {
                assert(d.contains(d[0]));
            }
        }
    }
}

/// The merged order holds exactly the entries on disk; what is removed is
/// exactly what the manual order holds and the disk does not.
pub proof fn merge_keeps_disk_entries(manual: Seq<Seq<char>>, disk: Seq<Seq<char>>)
    ensures
        forall|x: Seq<char>| #[trigger] spec_merge_order(manual, disk).0.contains(x) <==> disk.contains(x),
        forall|x: Seq<char>| #[trigger] spec_merge_order(manual, disk).1.contains(x) <==> (manual.contains(x)
            && !disk.contains(x)),
{
    lemma_keep_in(manual, disk);
    lemma_append_new(keep_in(manual, disk), disk);
}

/// The manual order comes first and is kept: the merged order starts with
/// the manual entries that are still on disk, in their manual order; new
/// entries follow.
pub proof fn merge_keeps_manual_order(manual: Seq<Seq<char>>, disk: Seq<Seq<char>>)
    ensures
        spec_merge_order(manual, disk).0.take(keep_in(manual, disk).len() as int) == keep_in(manual, disk),
        forall|x: Seq<char>| #[trigger] keep_in(manual, disk).contains(x) <==> (manual.contains(x) && disk.contains(x)),
{
    lemma_keep_in(manual, disk);
    lemma_append_new(keep_in(manual, disk), disk);
}

/// Merging is idempotent: merging a merged order with the same disk gives
/// it back, and removes nothing.
pub proof fn merge_is_idempotent(manual: Seq<Seq<char>>, disk: Seq<Seq<char>>)
    ensures
        spec_merge_order(spec_merge_order(manual, disk).0, disk) == (
            spec_merge_order(manual, disk).0,
            Seq::<Seq<char>>::empty(),
        ),
{
    let merged = spec_merge_order(manual, disk).0;
    merge_keeps_disk_entries(manual, disk);
    lemma_keep_in(merged, disk);
    lemma_append_new(merged, disk);
}

/// An order without repeats stays without repeats when merged.
pub proof fn merge_keeps_distinct(manual: Seq<Seq<char>>, disk: Seq<Seq<char>>)
    requires
        crate::tree::distinct(manual),
    ensures
        crate::tree::distinct(spec_merge_order(manual, disk).0),
{
    lemma_keep_in(manual, disk);
    lemma_append_new(keep_in(manual, disk), disk);
}

/// Entry file `f` of topic index `ti` names no topic, or a topic the index
/// does not declare.
pub open spec fn topic_trouble(t: TreeModel, ti: TopicIndexModel, f: Seq<char>) -> bool {
    let tps = spec_read_topics(t, join(ti.dir, f));
    tps.len() == 0 || exists|j: int| 0 <= j < tps.len() && !ti.topics.contains(#[trigger] tps[j])
}

proof fn lemma_undeclared(ti: TopicIndexModel, fname: Seq<char>, tps: Seq<Seq<char>>)
    ensures
        undeclared(ti, fname, tps).len() > 0 <==> exists|j: int|
            0 <= j < tps.len() && !ti.topics.contains(#[trigger] tps[j]),
    decreases tps.len(),
{
    if tps.len() > 0 {
        let r = tps.drop_first();
        lemma_undeclared(ti, fname, r);
        if exists|j: int| 0 <= j < r.len() && !ti.topics.contains(#[trigger] r[j]) {
            let j = choose|j: int| 0 <= j < r.len() && !ti.topics.contains(#[trigger] r[j]);
            assert(tps[j + 1] == r[j]);
        }
        if exists|j: int| 0 <= j < tps.len() && !ti.topics.contains(#[trigger] tps[j]) {
            let j = choose|j: int| 0 <= j < tps.len() && !ti.topics.contains(#[trigger] tps[j]);
            if j > 0 {
                assert(r[j - 1] == tps[j]);
            }
        }
    }
}

proof fn lemma_problems_from(t: TreeModel, ti: TopicIndexModel, fs: Seq<Seq<char>>)
    ensures
        problems_from(t, ti, fs).len() > 0 <==> exists|i: int| 0 <= i < fs.len() && topic_trouble(t, ti, #[trigger] fs[i]),
    decreases fs.len(),
{
    if fs.len() > 0 {
        let r = fs.drop_first();
        lemma_problems_from(t, ti, r);
        lemma_undeclared(ti, fs[0], spec_read_topics(t, join(ti.dir, fs[0])));
        if exists|i: int| 0 <= i < r.len() && topic_trouble(t, ti, #[trigger] r[i]) {
            let i = choose|i: int| 0 <= i < r.len() && topic_trouble(t, ti, #[trigger] r[i]);
            assert(fs[i + 1] == r[i]);
        }
        if exists|i: int| 0 <= i < fs.len() && topic_trouble(t, ti, #[trigger] fs[i]) {
            let i = choose|i: int| 0 <= i < fs.len() && topic_trouble(t, ti, #[trigger] fs[i]);
            if i > 0 {
                assert(r[i - 1] == fs[i]);
            }
        }
    }
}

proof fn lemma_all_problems(t: TreeModel, tis: Seq<TopicIndexModel>)
    ensures
        all_problems(t, tis).len() > 0 <==> exists|k: int, i: int|
            0 <= k < tis.len() && 0 <= i < topic_files(t, tis[k]).len() && topic_trouble(
                t,
                #[trigger] tis[k],
                #[trigger] topic_files(t, tis[k])[i],
            ),
    decreases tis.len(),
{
    if tis.len() > 0 {
        let r = tis.drop_first();
        lemma_all_problems(t, r);
        lemma_problems_from(t, tis[0], topic_files(t, tis[0]));
        if exists|k: int, i: int|
            0 <= k < r.len() && 0 <= i < topic_files(t, r[k]).len() && topic_trouble(
                t,
                #[trigger] r[k],
                #[trigger] topic_files(t, r[k])[i],
            ) {
            let (k, i) = choose|k: int, i: int|
                0 <= k < r.len() && 0 <= i < topic_files(t, r[k]).len() && topic_trouble(
                    t,
                    #[trigger] r[k],
                    #[trigger] topic_files(t, r[k])[i],
                );
            assert(tis[k + 1] == r[k]);
        }
        if exists|k: int, i: int|
            0 <= k < tis.len() && 0 <= i < topic_files(t, tis[k]).len() && topic_trouble(
                t,
                #[trigger] tis[k],
                #[trigger] topic_files(t, tis[k])[i],
            ) {
            let (k, i) = choose|k: int, i: int|
                0 <= k < tis.len() && 0 <= i < topic_files(t, tis[k]).len() && topic_trouble(
                    t,
                    #[trigger] tis[k],
                    #[trigger] topic_files(t, tis[k])[i],
                );
            if k > 0 {
                assert(r[k - 1] == tis[k]);
            } else {
                let tf = topic_files(t, tis[0]);
                assert(topic_trouble(t, tis[0], tf[i]));
            }
        }
    }
}

/// Planning fails exactly when an entry file of some topic index (a
/// Markdown file directly in its directory) names no topic, or a topic the
/// index does not declare; the error then lists the problems and nothing is
/// written.
pub proof fn plan_fails_iff_topic_trouble(t: TreeModel, m: MetaModel, cur: Seq<char>)
    ensures
        spec_plan(t, m, cur) is Err <==> exists|k: int, i: int|
            0 <= k < m.topic_indexes.len() && 0 <= i < topic_files(t, m.topic_indexes[k]).len() && topic_trouble(
                t,
                #[trigger] m.topic_indexes[k],
                #[trigger] topic_files(t, m.topic_indexes[k])[i],
            ),
        spec_plan(t, m, cur) is Err ==> spec_plan(t, m, cur)->Err_0 == all_problems(t, m.topic_indexes),
{
    lemma_all_problems(t, m.topic_indexes);
}

/// Filters by predicates that agree on every element are equal.
proof fn lemma_filter_agree(s: Seq<Seq<char>>, p: spec_fn(Seq<char>) -> bool, q: spec_fn(Seq<char>) -> bool)
    requires
        forall|i: int| 0 <= i < s.len() ==> p(#[trigger] s[i]) == q(s[i]),
    ensures
        s.filter(p) == s.filter(q),
    decreases s.len(),
{
    reveal(Seq::filter);
    if s.len() > 0 {
        let r = s.drop_last();
        assert forall|i: int| 0 <= i < r.len() implies p(#[trigger] r[i]) == q(r[i]) by {
            assert(r[i] == s[i]);
        }
        lemma_filter_agree(r, p, q);
        assert(p(s[s.len() - 1]) == q(s[s.len() - 1]));
    }
}

/// `keep_in` and `drop_out` keep, in order, the elements that the disk
/// holds and those it lacks.
proof fn lemma_keep_drop_filter(manual: Seq<Seq<char>>, disk: Seq<Seq<char>>)
    ensures
        keep_in(manual, disk) == manual.filter(|x: Seq<char>| disk.contains(x)),
        drop_out(manual, disk) == manual.filter(|x: Seq<char>| !disk.contains(x)),
    decreases manual.len(),
{
    let on = |x: Seq<char>| disk.contains(x);
    let off = |x: Seq<char>| !disk.contains(x);
    if manual.len() == 0 {
        reveal(Seq::filter);
    } else {
        let r = manual.drop_first();
        lemma_keep_drop_filter(r, disk);
        assert(manual =~= seq![manual[0]] + r);
        r.lemma_filter_prepend(manual[0], on);
        r.lemma_filter_prepend(manual[0], off);
    }
}

/// Appending the new elements of a disk without repeats appends those of
/// its elements that `o` lacks, in disk order.
proof fn lemma_append_new_filter(o: Seq<Seq<char>>, d: Seq<Seq<char>>)
    requires
        crate::tree::distinct(d),
    ensures
        append_new(o, d) == o + d.filter(|x: Seq<char>| !o.contains(x)),
    decreases d.len(),
{
    let p = |x: Seq<char>| !o.contains(x);
    if d.len() == 0 {
        reveal(Seq::filter);
        assert(o + d.filter(p) =~= o);
    } else {
        let r = d.drop_first();
        assert(d =~= seq![d[0]] + r);
        r.lemma_filter_prepend(d[0], p);
        assert forall|i: int, j: int| 0 <= i < r.len() && 0 <= j < r.len() && i != j implies r[i] != r[j] by {
            assert(r[i] == d[i + 1] && r[j] == d[j + 1]);
        }
        if o.contains(d[0]) {
            lemma_append_new_filter(o, r);
            assert(d.filter(p) == r.filter(p));
        } else {
            let o2 = o.push(d[0]);
            let p2 = |x: Seq<char>| !o2.contains(x);
            lemma_append_new_filter(o2, r);
            assert forall|i: int| 0 <= i < r.len() implies p(#[trigger] r[i]) == p2(r[i]) by {
                assert(r[i] == d[i + 1]);
                assert(d[i + 1] != d[0]);
                if o2.contains(r[i]) {
                    let k = choose|k: int| 0 <= k < o2.len() && o2[k] == r[i];
                    assert(k < o.len());
                    assert(o[k] == r[i]);
                }
                if o.contains(r[i]) {
                    let k = choose|k: int| 0 <= k < o.len() && o[k] == r[i];
                    assert(o2[k] == r[i]);
                }
            }
            lemma_filter_agree(r, p, p2);
            assert(o2 + r.filter(p2) =~= o + d.filter(p));
        }
    }
}

/// With a disk listing each entry once, the merged order is the manual
/// entries still on disk, in manual order, followed by the disk entries
/// that the manual order lacks, in disk order; what is removed is the
/// manual entries no longer on disk, in manual order.
pub proof fn merge_order_is_filter(manual: Seq<Seq<char>>, disk: Seq<Seq<char>>)
    requires
        crate::tree::distinct(disk),
    ensures
        spec_merge_order(manual, disk).0 == manual.filter(|x: Seq<char>| disk.contains(x)) + disk.filter(
            |x: Seq<char>| !manual.contains(x),
        ),
        spec_merge_order(manual, disk).1 == manual.filter(|x: Seq<char>| !disk.contains(x)),
{
    let o = keep_in(manual, disk);
    lemma_keep_drop_filter(manual, disk);
    lemma_keep_in(manual, disk);
    merge_keeps_manual_order(manual, disk);
    lemma_append_new_filter(o, disk);
    let p = |x: Seq<char>| !o.contains(x);
    let q = |x: Seq<char>| !manual.contains(x);
    assert forall|i: int| 0 <= i < disk.len() implies p(#[trigger] disk[i]) == q(disk[i]) by {
        assert(disk.contains(disk[i]));
    }
    lemma_filter_agree(disk, p, q);
}

proof fn lemma_order_from(ls: Seq<Seq<char>>, prefix: Seq<char>, index_path: Seq<char>, acc: Seq<Seq<char>>)
    requires
        crate::tree::distinct(acc),
        forall|k: int| 0 <= k < acc.len() ==> starts_with(#[trigger] acc[k], prefix) && acc[k] != index_path,
    ensures
        crate::tree::distinct(order_from(ls, prefix, index_path, acc)),
        forall|k: int|
            0 <= k < order_from(ls, prefix, index_path, acc).len() ==> starts_with(
                #[trigger] order_from(ls, prefix, index_path, acc)[k],
                prefix,
            ) && order_from(ls, prefix, index_path, acc)[k] != index_path,
    decreases ls.len(),
{
    if ls.len() > 0 {
        let next = match spec_extract_link_path(ls[0]) {
            Some(rel) => if starts_with(rel, prefix) && rel != index_path && !acc.contains(rel) {
                acc.push(rel)
            } else {
                acc
            },
            None => acc,
        };
        if next != acc {
            let rel = spec_extract_link_path(ls[0])->0;
            assert forall|i: int, j: int| 0 <= i < next.len() && 0 <= j < next.len() && i != j implies next[i] != next[j] by {
                if i == acc.len() {
                    assert(acc.contains(next[j]));
                } else if j == acc.len() {
                    assert(acc.contains(next[i]));
                }
            }
        }
        lemma_order_from(ls.drop_first(), prefix, index_path, next);
    }
}

/// The order read from the summary names each entry of the section once,
/// never the section page itself.
pub proof fn existing_order_is_clean(summary: Seq<char>, section: Seq<char>)
    ensures
        crate::tree::distinct(spec_existing_order(summary, section)),
        forall|k: int|
            0 <= k < spec_existing_order(summary, section).len() ==> starts_with(
                #[trigger] spec_existing_order(summary, section)[k],
                section + "/"@,
            ) && spec_existing_order(summary, section)[k] != section + "/index.md"@,
{
    lemma_order_from(lines(summary), section + "/"@, section + "/index.md"@, Seq::empty());
}

// ---------------------------------------------------------------------------
// What a topic index page shows
// ---------------------------------------------------------------------------

/// Some entry file of the topic index declares `x`.
pub open spec fn has_entry(t: TreeModel, ti: TopicIndexModel, x: Seq<char>) -> bool {
    exists|i: int|
        0 <= i < topic_files(t, ti).len() && #[trigger] spec_read_topics(t, join(ti.dir, topic_files(t, ti)[i])).contains(x)
}

/// The entry files of the topic index that declare `x`, in file order.
pub open spec fn entries_of(t: TreeModel, ti: TopicIndexModel, x: Seq<char>) -> Seq<Seq<char>> {
    topic_files(t, ti).filter(|f: Seq<char>| spec_read_topics(t, join(ti.dir, f)).contains(x))
}

/// The group of topic `x` on its index page: its heading and a link row
/// for each of its entries.
pub open spec fn topic_group(t: TreeModel, ti: TopicIndexModel, x: Seq<char>) -> Seq<char> {
    "\n## "@ + x + "\n\n"@ + group_rows(t, ti, entries_of(t, ti, x))
}

/// The groups of the topics `xs`, one after another.
pub open spec fn topic_groups(t: TreeModel, ti: TopicIndexModel, xs: Seq<Seq<char>>) -> Seq<char>
    decreases xs.len(),
{
    if xs.len() == 0 {
        Seq::empty()
    } else {
        topic_group(t, ti, xs[0]) + topic_groups(t, ti, xs.drop_first())
    }
}

/// The declared topics from the `j`-th on that have an entry, each once,
/// in the order of their first declaration.
pub open spec fn shown_topics(t: TreeModel, ti: TopicIndexModel, j: int) -> Seq<Seq<char>>
    decreases ti.topics.len() - j,
{
    if j < 0 || j >= ti.topics.len() {
        Seq::empty()
    } else {
        (if first_of(ti.topics, j) && has_entry(t, ti, ti.topics[j]) {
            seq![ti.topics[j]]
        } else {
            Seq::empty()
        }) + shown_topics(t, ti, j + 1)
    }
}

/// The files among `fs` that declare a topic are those that the filter by
/// that declaration keeps.
proof fn lemma_with_topic_filter(t: TreeModel, dir: Seq<char>, fs: Seq<Seq<char>>, x: Seq<char>)
    ensures
        with_topic(t, dir, fs, x) == fs.filter(|f: Seq<char>| spec_read_topics(t, join(dir, f)).contains(x)),
    decreases fs.len(),
{
    let p = |f: Seq<char>| spec_read_topics(t, join(dir, f)).contains(x);
    if fs.len() > 0 {
        lemma_with_topic_filter(t, dir, fs.drop_first(), x);
        assert(fs =~= seq![fs[0]] + fs.drop_first());
        Seq::filter_distributes_over_add(seq![fs[0]], fs.drop_first(), p);
        reveal_with_fuel(Seq::filter, 2);
        assert(seq![fs[0]].drop_last() =~= Seq::<Seq<char>>::empty());
        if p(fs[0]) {
            assert(seq![fs[0]].filter(p) =~= seq![fs[0]]);
        } else {
            assert(seq![fs[0]].filter(p) =~= Seq::<Seq<char>>::empty());
            assert(Seq::<Seq<char>>::empty() + with_topic(t, dir, fs.drop_first(), x) =~= with_topic(
                t,
                dir,
                fs.drop_first(),
                x,
            ));
        }
    } else {
        reveal(Seq::filter);
    }
}

/// A topic has entries exactly when some entry file declares it.
proof fn lemma_entries_of(t: TreeModel, ti: TopicIndexModel, x: Seq<char>)
    ensures
        entries_of(t, ti, x).len() > 0 <==> has_entry(t, ti, x),
{
    let fs = topic_files(t, ti);
    let p = |f: Seq<char>| spec_read_topics(t, join(ti.dir, f)).contains(x);
    if has_entry(t, ti, x) {
        let i = choose|i: int| 0 <= i < fs.len() && #[trigger] spec_read_topics(t, join(ti.dir, fs[i])).contains(x);
        fs.lemma_filter_contains(p, i);
    }
    if entries_of(t, ti, x).len() > 0 {
        fs.filter_lemma(p);
        let f = fs.filter(p)[0];
        assert(fs.filter(p).contains(f));
        fs.lemma_filter_contains_rev(p, f);
        let i = choose|i: int| 0 <= i < fs.len() && fs[i] == f;
        assert(spec_read_topics(t, join(ti.dir, fs[i])).contains(x));
    }
}

/// The groups of `xs` after the group of `x`.
proof fn lemma_topic_groups_cons(t: TreeModel, ti: TopicIndexModel, x: Seq<char>, xs: Seq<Seq<char>>)
    ensures
        topic_groups(t, ti, seq![x] + xs) == topic_group(t, ti, x) + topic_groups(t, ti, xs),
{
    assert((seq![x] + xs).drop_first() =~= xs);
}

/// The page's groups from the `j`-th declared topic on are those of the
/// shown topics, and a topic is shown from there exactly when it is
/// declared there for the first time and has an entry.
proof fn lemma_groups_from(t: TreeModel, ti: TopicIndexModel, j: int)
    requires
        0 <= j,
    ensures
        groups_from(t, ti, j) == topic_groups(t, ti, shown_topics(t, ti, j)),
        forall|y: Seq<char>|
            #[trigger] shown_topics(t, ti, j).contains(y) <==> exists|k: int|
                j <= k < ti.topics.len() && first_of(ti.topics, k) && has_entry(t, ti, y) && #[trigger] ti.topics[k]
                    == y,
        shown_topics(t, ti, j).no_duplicates(),
    decreases ti.topics.len() - j,
{
    if j >= ti.topics.len() {
        assert(shown_topics(t, ti, j) =~= Seq::<Seq<char>>::empty());
    } else {
        lemma_groups_from(t, ti, j + 1);
        let x = ti.topics[j];
        let rest = shown_topics(t, ti, j + 1);
        lemma_entries_of(t, ti, x);
        if first_of(ti.topics, j) {
            lemma_with_topic_filter(t, ti.dir, topic_files(t, ti), x);
        }
        if first_of(ti.topics, j) && has_entry(t, ti, x) {
            lemma_topic_groups_cons(t, ti, x, rest);
            assert(shown_topics(t, ti, j) == seq![x] + rest);
            assert(!rest.contains(x)) by {
                if rest.contains(x) {
                    let k = choose|k: int|
                        j + 1 <= k < ti.topics.len() && first_of(ti.topics, k) && has_entry(t, ti, x)
                            && #[trigger] ti.topics[k] == x;
                    assert(ti.topics.take(k)[j] == x);
                }
            }
            assert forall|a: int, b: int| 0 <= a < b < shown_topics(t, ti, j).len() implies shown_topics(
                t,
                ti,
                j,
            )[a] != shown_topics(t, ti, j)[b] by {
                if a == 0 {
                    assert(shown_topics(t, ti, j)[b] == rest[b - 1]);
                } else {
                    assert(shown_topics(t, ti, j)[a] == rest[a - 1]);
                    assert(shown_topics(t, ti, j)[b] == rest[b - 1]);
                }
            }
            assert forall|y: Seq<char>|
                #[trigger] shown_topics(t, ti, j).contains(y) <==> exists|k: int|
                    j <= k < ti.topics.len() && first_of(ti.topics, k) && has_entry(t, ti, y) && #[trigger] ti.topics[k]
                        == y by {
                if shown_topics(t, ti, j).contains(y) && y != x {
                    let i = choose|i: int| 0 <= i < shown_topics(t, ti, j).len() && shown_topics(t, ti, j)[i] == y;
                    assert(rest[i - 1] == y);
                    assert(rest.contains(y));
                }
                if y == x {
                    assert(shown_topics(t, ti, j)[0] == x);
                } else if exists|k: int|
                    j <= k < ti.topics.len() && first_of(ti.topics, k) && has_entry(t, ti, y) && #[trigger] ti.topics[k]
                        == y {
                    let k = choose|k: int|
                        j <= k < ti.topics.len() && first_of(ti.topics, k) && has_entry(t, ti, y)
                            && #[trigger] ti.topics[k] == y;
                    assert(k != j);
                    assert(rest.contains(y));
                    let i = choose|i: int| 0 <= i < rest.len() && rest[i] == y;
                    assert(shown_topics(t, ti, j)[i + 1] == y);
                }
            }
        } else {
            assert(shown_topics(t, ti, j) =~= rest);
            assert(group_items(t, ti, j).len() == 0);
            assert(groups_from(t, ti, j) =~= groups_from(t, ti, j + 1));
            assert forall|y: Seq<char>|
                #[trigger] shown_topics(t, ti, j).contains(y) <==> exists|k: int|
                    j <= k < ti.topics.len() && first_of(ti.topics, k) && has_entry(t, ti, y) && #[trigger] ti.topics[k]
                        == y by {
                if exists|k: int|
                    j <= k < ti.topics.len() && first_of(ti.topics, k) && has_entry(t, ti, y) && #[trigger] ti.topics[k]
                        == y {
                    let k = choose|k: int|
                        j <= k < ti.topics.len() && first_of(ti.topics, k) && has_entry(t, ti, y)
                            && #[trigger] ti.topics[k] == y;
                    assert(k != j);
                }
            }
        }
    }
}

/// A declared topic is declared for the first time at some position.
proof fn lemma_first_declared(topics: Seq<Seq<char>>, k: int)
    requires
        0 <= k < topics.len(),
    ensures
        exists|i: int| 0 <= i <= k && first_of(topics, i) && #[trigger] topics[i] == topics[k],
    decreases k,
{
    if !first_of(topics, k) {
        let i = choose|i: int| 0 <= i < topics.take(k).len() && topics.take(k)[i] == topics[k];
        assert(topics[i] == topics[k]);
        lemma_first_declared(topics, i);
    }
}

/// A topic index page is its heading and introduction, then a group for
/// each declared topic that some entry file of the index declares, in the
/// order of declaration and each once: a `## topic` heading and a link
/// row for each entry that declares the topic, in file order. A declared
/// topic that no entry declares gets no heading.
pub proof fn topic_index_groups(t: TreeModel, ti: TopicIndexModel)
    ensures
        topic_index_text(t, ti) == page_head(ti.title, ti.intro) + topic_groups(t, ti, shown_topics(t, ti, 0)),
        forall|x: Seq<char>|
            #[trigger] shown_topics(t, ti, 0).contains(x) <==> ti.topics.contains(x) && has_entry(t, ti, x),
        shown_topics(t, ti, 0).no_duplicates(),
        forall|x: Seq<char>| #[trigger] shown_topics(t, ti, 0).contains(x) ==> entries_of(t, ti, x).len() > 0,
{
    lemma_groups_from(t, ti, 0);
    assert forall|x: Seq<char>|
        #[trigger] shown_topics(t, ti, 0).contains(x) <==> ti.topics.contains(x) && has_entry(t, ti, x) by {
        if ti.topics.contains(x) && has_entry(t, ti, x) {
            let k = choose|k: int| 0 <= k < ti.topics.len() && ti.topics[k] == x;
            lemma_first_declared(ti.topics, k);
        }
    }
    assert forall|x: Seq<char>| #[trigger] shown_topics(t, ti, 0).contains(x) implies entries_of(t, ti, x).len() > 0 by {
        lemma_entries_of(t, ti, x);
    }
}

} // verus!
