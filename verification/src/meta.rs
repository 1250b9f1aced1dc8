//! The book's structural metadata (`book-meta.toml`): its sections and the
//! topic indexes that are rebuilt from the `<!-- topic: -->` comments of
//! their entries. Changing the classification needs no code change.
use vstd::prelude::*;

use crate::text::{
    append, chars_of, decimal, eq, eq_str, find, find_str, has_char, has_char_exec, push_decimal,
    push_str, slice_of, str_views, string_of, views, chars_of_all,
};
use crate::toml_lite::{
    Table, ValueModel, doc_view, opt_str_model, parse, parse_doc, req_arr_model, req_str_model,
};

verus! {

/// The name of the configuration file at the project root.
pub const META_FILE: &'static str = "book-meta.toml";

/// A top-level section: a directory under `src/` and a part of the sidebar.
#[derive(Debug)]
pub struct Section {
    /// Directory name under `src/`.
    pub dir: String,
    /// Sidebar part title.
    pub part: String,
    /// Title of the section's index page (also its heading).
    pub title: String,
    /// Introduction of the index page; may be empty.
    pub intro: String,
}

/// An index page rebuilt from its entries' `<!-- topic: -->` comments.
#[derive(Debug)]
pub struct TopicIndex {
    /// Path of the index page relative to `src/`, such as `english/analysis.md`.
    pub index: String,
    /// Directory of the entries, such as `english/analysis`.
    pub dir: String,
    pub title: String,
    pub intro: String,
    /// Display order of the topics; every entry's topic must be one of them.
    pub topics: Vec<String>,
}

/// The whole configuration.
#[derive(Debug)]
pub struct BookMeta {
    pub sections: Vec<Section>,
    pub topic_indexes: Vec<TopicIndex>,
}

/// The model of a section.
pub struct SectionModel {
    pub dir: Seq<char>,
    pub part: Seq<char>,
    pub title: Seq<char>,
    pub intro: Seq<char>,
}

/// The model of a topic index.
pub struct TopicIndexModel {
    pub index: Seq<char>,
    pub dir: Seq<char>,
    pub title: Seq<char>,
    pub intro: Seq<char>,
    pub topics: Seq<Seq<char>>,
}

/// The model of the configuration.
pub struct MetaModel {
    pub sections: Seq<SectionModel>,
    pub topic_indexes: Seq<TopicIndexModel>,
}

impl View for Section {
    type V = SectionModel;

    open spec fn view(&self) -> SectionModel {
        SectionModel { dir: self.dir@, part: self.part@, title: self.title@, intro: self.intro@ }
    }
}

impl View for TopicIndex {
    type V = TopicIndexModel;

    open spec fn view(&self) -> TopicIndexModel {
        TopicIndexModel {
            index: self.index@,
            dir: self.dir@,
            title: self.title@,
            intro: self.intro@,
            topics: str_views(self.topics@),
        }
    }
}

/// The models of a list of sections.
pub open spec fn section_views(s: Seq<Section>) -> Seq<SectionModel> {
    Seq::new(s.len(), |i: int| s[i]@)
}

/// The models of a list of topic indexes.
pub open spec fn index_views(s: Seq<TopicIndex>) -> Seq<TopicIndexModel> {
    Seq::new(s.len(), |i: int| s[i]@)
}

impl View for BookMeta {
    type V = MetaModel;

    open spec fn view(&self) -> MetaModel {
        MetaModel {
            sections: section_views(self.sections@),
            topic_indexes: index_views(self.topic_indexes@),
        }
    }
}

// ---------------------------------------------------------------------------
// Specification
// ---------------------------------------------------------------------------

/// `"第 {n} 个 [[{kind}]]"`: names the `n`-th table of a kind.
pub open spec fn nth_ctx(n: nat, kind: Seq<char>) -> Seq<char> {
    "第 "@ + decimal(n) + " 个 [["@ + kind + "]]"@
}

/// `"[[{kind}]] `{dir}`"`: names a table by its directory.
pub open spec fn dir_ctx(kind: Seq<char>, dir: Seq<char>) -> Seq<char> {
    "[["@ + kind + "]] `"@ + dir + "`"@
}

/// An optional string key, empty when absent.
pub open spec fn opt_or_empty(e: Seq<(Seq<char>, ValueModel)>, key: Seq<char>) -> Seq<char> {
    match opt_str_model(e, key) {
        Some(s) => s,
        None => Seq::empty(),
    }
}

/// The `i`-th (from 0) `[[section]]` table read as a section.
pub open spec fn section_from(e: Seq<(Seq<char>, ValueModel)>, i: nat) -> Result<SectionModel, Seq<char>> {
    let ctx = nth_ctx(i + 1, "section"@);
    match req_str_model(e, "dir"@, ctx) {
        Err(m) => Err(m),
        Ok(dir) => if dir.len() == 0 || has_char(dir, '/') {
            Err(ctx + "：`dir` 应是 src/ 下的一级目录名"@)
        } else {
            let ctx2 = dir_ctx("section"@, dir);
            match req_str_model(e, "part"@, ctx2) {
                Err(m) => Err(m),
                Ok(part) => match req_str_model(e, "title"@, ctx2) {
                    Err(m) => Err(m),
                    Ok(title) => Ok(
                        SectionModel { dir, part, title, intro: opt_or_empty(e, "intro"@) },
                    ),
                },
            }
        },
    }
}

/// The first index `n >= k` whose element already occurs before it.
pub open spec fn first_dup_from(s: Seq<Seq<char>>, k: int) -> Option<int>
    decreases s.len() - k,
{
    if k < 0 || k >= s.len() {
        None
    } else if s.take(k).contains(s[k]) {
        Some(k)
    } else {
        first_dup_from(s, k + 1)
    }
}

/// The `i`-th (from 0) `[[topic_index]]` table read as a topic index.
pub open spec fn topic_index_from(e: Seq<(Seq<char>, ValueModel)>, i: nat) -> Result<
    TopicIndexModel,
    Seq<char>,
> {
    let ctx = nth_ctx(i + 1, "topic_index"@);
    match req_str_model(e, "dir"@, ctx) {
        Err(m) => Err(m),
        Ok(dir) => {
            let ctx2 = dir_ctx("topic_index"@, dir);
            match req_arr_model(e, "topics"@, ctx2) {
                Err(m) => Err(m),
                Ok(topics) => if topics.len() == 0 {
                    Err(ctx2 + "：`topics` 不能为空"@)
                } else {
                    match first_dup_from(topics, 0) {
                        Some(n) => Err(ctx2 + "：主题 `"@ + topics[n] + "` 重复"@),
                        None => match req_str_model(e, "index"@, ctx2) {
                            Err(m) => Err(m),
                            Ok(index) => match req_str_model(e, "title"@, ctx2) {
                                Err(m) => Err(m),
                                Ok(title) => Ok(
                                    TopicIndexModel {
                                        index,
                                        dir,
                                        title,
                                        intro: opt_or_empty(e, "intro"@),
                                        topics,
                                    },
                                ),
                            },
                        },
                    }
                },
            }
        },
    }
}

/// Some section has directory `dir`.
pub open spec fn has_section(secs: Seq<SectionModel>, dir: Seq<char>) -> bool {
    exists|i: int| 0 <= i < secs.len() && secs[i].dir == dir
}

/// Some topic index has directory `dir`.
pub open spec fn has_topic_index(tis: Seq<TopicIndexModel>, dir: Seq<char>) -> bool {
    exists|i: int| 0 <= i < tis.len() && tis[i].dir == dir
}

/// Reads the tables from index `k` on, after the sections and topic indexes so far.
pub open spec fn tables_from(
    ts: Seq<(Seq<char>, Seq<(Seq<char>, ValueModel)>)>,
    k: int,
    secs: Seq<SectionModel>,
    tis: Seq<TopicIndexModel>,
) -> Result<(Seq<SectionModel>, Seq<TopicIndexModel>), Seq<char>>
    decreases ts.len() - k,
{
    if k < 0 || k >= ts.len() {
        Ok((secs, tis))
    } else {
        let name = ts[k].0;
        let e = ts[k].1;
        if name == "section"@ {
            match section_from(e, secs.len()) {
                Err(m) => Err(m),
                Ok(s) => if has_section(secs, s.dir) {
                    Err("分区 `"@ + s.dir + "` 重复定义"@)
                } else {
                    tables_from(ts, k + 1, secs.push(s), tis)
                },
            }
        } else if name == "topic_index"@ {
            match topic_index_from(e, tis.len()) {
                Err(m) => Err(m),
                Ok(ti) => if has_topic_index(tis, ti.dir) {
                    Err("主题索引 `"@ + ti.dir + "` 重复定义"@)
                } else {
                    tables_from(ts, k + 1, secs, tis.push(ti))
                },
            }
        } else {
            Err("未知的表 `[["@ + name + "]]`"@)
        }
    }
}

/// The directory part before the first `/` (the whole path when there is none).
pub open spec fn top_dir(dir: Seq<char>) -> Seq<char> {
    match find(dir, "/"@) {
        Some(i) => dir.take(i),
        None => dir,
    }
}

/// The first problem of the topic indexes from `k` on, if any.
pub open spec fn check_indexes(secs: Seq<SectionModel>, tis: Seq<TopicIndexModel>, k: int) -> Option<
    Seq<char>,
>
    decreases tis.len() - k,
{
    if k < 0 || k >= tis.len() {
        None
    } else {
        let ti = tis[k];
        let expected = ti.dir + ".md"@;
        if ti.index != expected {
            Some(
                "主题索引 `"@ + ti.dir + "` 的 index 应为 `"@ + expected
                    + "`（索引页必须与子目录同名）"@,
            )
        } else if !has_section(secs, top_dir(ti.dir)) {
            Some("主题索引 `"@ + ti.dir + "` 所属分区 `"@ + top_dir(ti.dir) + "` 未定义"@)
        } else {
            check_indexes(secs, tis, k + 1)
        }
    }
}

/// The configuration described by `input`, or the first error in it.
pub open spec fn parse_meta(input: Seq<char>) -> Result<MetaModel, Seq<char>> {
    match parse_doc(input) {
        Err(m) => Err(m),
        Ok(ts) => match tables_from(ts, 0, Seq::empty(), Seq::empty()) {
            Err(m) => Err(m),
            Ok((secs, tis)) => if secs.len() == 0 {
                Err("至少需要一个 `[[section]]`"@)
            } else {
                match check_indexes(secs, tis, 0) {
                    Some(m) => Err(m),
                    None => Ok(MetaModel { sections: secs, topic_indexes: tis }),
                }
            },
        },
    }
}

/// The invariants every parsed configuration has.
pub open spec fn meta_wf(m: MetaModel) -> bool {
    &&& m.sections.len() > 0
    &&& forall|i: int|
        0 <= i < m.sections.len() ==> #[trigger] m.sections[i].dir.len() > 0 && !has_char(
            m.sections[i].dir,
            '/',
        )
    &&& forall|i: int, j: int|
        0 <= i < j < m.sections.len() ==> m.sections[i].dir != m.sections[j].dir
    &&& forall|i: int, j: int|
        0 <= i < j < m.topic_indexes.len() ==> m.topic_indexes[i].dir != m.topic_indexes[j].dir
    &&& forall|i: int|
        0 <= i < m.topic_indexes.len() ==> {
            let ti = #[trigger] m.topic_indexes[i];
            &&& ti.index == ti.dir + ".md"@
            &&& has_section(m.sections, top_dir(ti.dir))
            &&& ti.topics.len() > 0
            &&& forall|a: int, b: int| 0 <= a < b < ti.topics.len() ==> ti.topics[a] != ti.topics[b]
        }
}

/// The position of the first topic index with directory `dir`.
pub open spec fn index_for(tis: Seq<TopicIndexModel>, dir: Seq<char>, k: int) -> Option<int>
    decreases tis.len() - k,
{
    if k < 0 || k >= tis.len() {
        None
    } else if tis[k].dir == dir {
        Some(k)
    } else {
        index_for(tis, dir, k + 1)
    }
}

// ---------------------------------------------------------------------------
// Lemmas
// ---------------------------------------------------------------------------

/// With no repeated element from `k` on, elements at `k` or later differ from all before them.
proof fn lemma_first_dup_none(s: Seq<Seq<char>>, k: int)
    requires
        0 <= k,
        first_dup_from(s, k) is None,
    ensures
        forall|a: int, b: int| 0 <= a < b < s.len() && k <= b ==> s[a] != s[b],
    decreases s.len() - k,
{
    if k < s.len() {
        lemma_first_dup_none(s, k + 1);
        assert forall|a: int| 0 <= a < k implies s[a] != s[k] by {
            if s[a] == s[k] {
                assert(s.take(k)[a] == s[k]);
            }
        }
    }
}

// ---------------------------------------------------------------------------
// When a configuration is accepted
// ---------------------------------------------------------------------------

/// The string array under `key` in the entries `e`.
pub open spec fn arr_at(e: Seq<(Seq<char>, ValueModel)>, key: Seq<char>) -> Option<Seq<Seq<char>>> {
    match crate::toml_lite::lookup(e, key) {
        Some(ValueModel::Arr(a)) => Some(a),
        _ => None,
    }
}

/// A `[[section]]` table is well formed: string `dir` (non-empty, without
/// `/`), `part` and `title`.
pub open spec fn section_table_ok(e: Seq<(Seq<char>, ValueModel)>) -> bool {
    &&& opt_str_model(e, "dir"@) matches Some(d) && d.len() > 0 && !has_char(d, '/')
    &&& opt_str_model(e, "part"@) is Some
    &&& opt_str_model(e, "title"@) is Some
}

/// The section a well-formed `[[section]]` table describes; `intro` is
/// empty when absent.
pub open spec fn section_of(e: Seq<(Seq<char>, ValueModel)>) -> SectionModel {
    SectionModel {
        dir: opt_str_model(e, "dir"@)->0,
        part: opt_str_model(e, "part"@)->0,
        title: opt_str_model(e, "title"@)->0,
        intro: opt_or_empty(e, "intro"@),
    }
}

/// A `[[topic_index]]` table is well formed: string `dir`, `index` and
/// `title`, and a non-empty string array `topics` without repeats.
pub open spec fn topic_table_ok(e: Seq<(Seq<char>, ValueModel)>) -> bool {
    &&& opt_str_model(e, "dir"@) is Some
    &&& arr_at(e, "topics"@) matches Some(ts) && ts.len() > 0 && forall|a: int, b: int|
        0 <= a < b < ts.len() ==> ts[a] != ts[b]
    &&& opt_str_model(e, "index"@) is Some
    &&& opt_str_model(e, "title"@) is Some
}

/// The topic index a well-formed `[[topic_index]]` table describes.
pub open spec fn topic_of(e: Seq<(Seq<char>, ValueModel)>) -> TopicIndexModel {
    TopicIndexModel {
        index: opt_str_model(e, "index"@)->0,
        dir: opt_str_model(e, "dir"@)->0,
        title: opt_str_model(e, "title"@)->0,
        intro: opt_or_empty(e, "intro"@),
        topics: arr_at(e, "topics"@)->0,
    }
}

/// The sections the tables from `k` on describe, in file order.
pub open spec fn sections_in(ts: Seq<(Seq<char>, Seq<(Seq<char>, ValueModel)>)>, k: int) -> Seq<SectionModel>
    decreases ts.len() - k,
{
    if k < 0 || k >= ts.len() {
        Seq::empty()
    } else {
        (if ts[k].0 == "section"@ {
            seq![section_of(ts[k].1)]
        } else {
            Seq::empty()
        }) + sections_in(ts, k + 1)
    }
}

/// The topic indexes the tables from `k` on describe, in file order.
pub open spec fn indexes_in(ts: Seq<(Seq<char>, Seq<(Seq<char>, ValueModel)>)>, k: int) -> Seq<TopicIndexModel>
    decreases ts.len() - k,
{
    if k < 0 || k >= ts.len() {
        Seq::empty()
    } else {
        (if ts[k].0 == "topic_index"@ {
            seq![topic_of(ts[k].1)]
        } else {
            Seq::empty()
        }) + indexes_in(ts, k + 1)
    }
}

/// Every table from `k` on is a well-formed section or topic index.
pub open spec fn tables_ok(ts: Seq<(Seq<char>, Seq<(Seq<char>, ValueModel)>)>, k: int) -> bool {
    forall|j: int|
        k <= j < ts.len() ==> (#[trigger] ts[j].0 == "section"@ && section_table_ok(ts[j].1)) || (ts[j].0
            == "topic_index"@ && topic_table_ok(ts[j].1))
}

/// No two sections share a directory.
pub open spec fn section_dirs_distinct(secs: Seq<SectionModel>) -> bool {
    forall|a: int, b: int| 0 <= a < b < secs.len() ==> secs[a].dir != secs[b].dir
}

/// No two topic indexes share a directory.
pub open spec fn index_dirs_distinct(tis: Seq<TopicIndexModel>) -> bool {
    forall|a: int, b: int| 0 <= a < b < tis.len() ==> tis[a].dir != tis[b].dir
}

proof fn lemma_first_dup_some(s: Seq<Seq<char>>, k: int)
    requires
        0 <= k,
        first_dup_from(s, k) is Some,
    ensures
        exists|a: int, b: int| 0 <= a < b < s.len() && s[a] == s[b],
    decreases s.len() - k,
{
    if k < s.len() {
        if s.take(k).contains(s[k]) {
            let a = choose|a: int| 0 <= a < k && s.take(k)[a] == s[k];
            assert(s[a] == s[k]);
        } else {
            lemma_first_dup_some(s, k + 1);
        }
    }
}

proof fn lemma_table_readers(e: Seq<(Seq<char>, ValueModel)>, i: nat)
    ensures
        section_from(e, i) is Ok <==> section_table_ok(e),
        section_from(e, i) is Ok ==> section_from(e, i)->Ok_0 == section_of(e),
        topic_index_from(e, i) is Ok <==> topic_table_ok(e),
        topic_index_from(e, i) is Ok ==> topic_index_from(e, i)->Ok_0 == topic_of(e),
{
    if let Some(ValueModel::Arr(ts)) = crate::toml_lite::lookup(e, "topics"@) {
        if first_dup_from(ts, 0) is None {
            lemma_first_dup_none(ts, 0);
        } else {
            lemma_first_dup_some(ts, 0);
        }
    }
}

proof fn lemma_tables_from(
    ts: Seq<(Seq<char>, Seq<(Seq<char>, ValueModel)>)>,
    k: int,
    secs: Seq<SectionModel>,
    tis: Seq<TopicIndexModel>,
)
    requires
        0 <= k <= ts.len(),
        section_dirs_distinct(secs),
        index_dirs_distinct(tis),
    ensures
        tables_from(ts, k, secs, tis) is Ok <==> tables_ok(ts, k) && section_dirs_distinct(secs + sections_in(ts, k))
            && index_dirs_distinct(tis + indexes_in(ts, k)),
        tables_from(ts, k, secs, tis) matches Ok((s2, t2)) ==> s2 == secs + sections_in(ts, k) && t2 == tis
            + indexes_in(ts, k),
    decreases ts.len() - k,
{
    reveal_strlit("section");
    reveal_strlit("topic_index");
    if k == ts.len() {
        assert(secs + sections_in(ts, k) =~= secs);
        assert(tis + indexes_in(ts, k) =~= tis);
    } else {
        let e = ts[k].1;
        let name = ts[k].0;
        lemma_table_readers(e, secs.len());
        lemma_table_readers(e, tis.len());
        let sr = sections_in(ts, k + 1);
        let ir = indexes_in(ts, k + 1);
        assert(tables_ok(ts, k) <==> tables_ok(ts, k + 1) && ((name == "section"@ && section_table_ok(e)) || (
        name == "topic_index"@ && topic_table_ok(e)))) by {
            if tables_ok(ts, k + 1) && ((name == "section"@ && section_table_ok(e)) || (name == "topic_index"@
                && topic_table_ok(e))) {
                assert forall|j: int| k <= j < ts.len() implies (#[trigger] ts[j].0 == "section"@ && section_table_ok(
                    ts[j].1,
                )) || (ts[j].0 == "topic_index"@ && topic_table_ok(ts[j].1)) by {
                    if j > k {
                        assert(k + 1 <= j);
                    }
                }
            }
        }
        if name == "section"@ {
            assert("section"@ != "topic_index"@);
            assert(indexes_in(ts, k) == ir);
            assert(tis + indexes_in(ts, k) == tis + ir);
            if section_table_ok(e) {
                let s = section_of(e);
                assert(sections_in(ts, k) == seq![s] + sr);
                let all = secs + sections_in(ts, k);
                assert(all =~= secs.push(s) + sr);
                if has_section(secs, s.dir) {
                    let i = choose|i: int| 0 <= i < secs.len() && secs[i].dir == s.dir;
                    assert(all[i] == secs[i] && all[secs.len() as int] == s);
                } else {
                    assert(section_dirs_distinct(secs.push(s))) by {
                        assert forall|a: int, b: int| 0 <= a < b < secs.push(s).len() implies secs.push(s)[a].dir
                            != secs.push(s)[b].dir by {
                            if b == secs.len() {
                                assert(secs.push(s)[a] == secs[a]);
                            } else {
                                assert(secs.push(s)[a] == secs[a] && secs.push(s)[b] == secs[b]);
                            }
                        }
                    }
                    lemma_tables_from(ts, k + 1, secs.push(s), tis);
                }
            }
        } else if name == "topic_index"@ {
            assert(sections_in(ts, k) == sr);
            assert(secs + sections_in(ts, k) == secs + sr);
            if topic_table_ok(e) {
                let ti = topic_of(e);
                assert(indexes_in(ts, k) == seq![ti] + ir);
                let all = tis + indexes_in(ts, k);
                assert(all =~= tis.push(ti) + ir);
                if has_topic_index(tis, ti.dir) {
                    let i = choose|i: int| 0 <= i < tis.len() && tis[i].dir == ti.dir;
                    assert(all[i] == tis[i] && all[tis.len() as int] == ti);
                } else {
                    assert(index_dirs_distinct(tis.push(ti))) by {
                        assert forall|a: int, b: int| 0 <= a < b < tis.push(ti).len() implies tis.push(ti)[a].dir
                            != tis.push(ti)[b].dir by {
                            if b == tis.len() {
                                assert(tis.push(ti)[a] == tis[a]);
                            } else {
                                assert(tis.push(ti)[a] == tis[a] && tis.push(ti)[b] == tis[b]);
                            }
                        }
                    }
                    lemma_tables_from(ts, k + 1, secs, tis.push(ti));
                }
            }
        }
    }
}

proof fn lemma_check_indexes(secs: Seq<SectionModel>, tis: Seq<TopicIndexModel>, k: int)
    requires
        0 <= k,
    ensures
        check_indexes(secs, tis, k) is None <==> forall|j: int|
            k <= j < tis.len() ==> (#[trigger] tis[j]).index == tis[j].dir + ".md"@ && has_section(
                secs,
                top_dir(tis[j].dir),
            ),
    decreases tis.len() - k,
{
    if k < tis.len() {
        lemma_check_indexes(secs, tis, k + 1);
    }
}

/// The configuration is accepted exactly when the document parses, every
/// table is a well-formed `[[section]]` or `[[topic_index]]`, there is a
/// section, no two sections and no two topic indexes share a directory,
/// and each topic index page is named after its directory and lies in a
/// declared section. The sections and topic indexes keep their file order.
pub proof fn parse_accepts_exactly_valid_configs(input: Seq<char>)
    ensures
        parse_meta(input) is Ok <==> (parse_doc(input) matches Ok(ts) && tables_ok(ts, 0) && section_dirs_distinct(
            sections_in(ts, 0),
        ) && index_dirs_distinct(indexes_in(ts, 0)) && sections_in(ts, 0).len() > 0 && forall|j: int|
            0 <= j < indexes_in(ts, 0).len() ==> (#[trigger] indexes_in(ts, 0)[j]).index == indexes_in(ts, 0)[j].dir
                + ".md"@ && has_section(sections_in(ts, 0), top_dir(indexes_in(ts, 0)[j].dir))),
        parse_meta(input) is Ok ==> (parse_doc(input) matches Ok(ts) && parse_meta(input)->Ok_0 == MetaModel {
            sections: sections_in(ts, 0),
            topic_indexes: indexes_in(ts, 0),
        }),
{
    if let Ok(ts) = parse_doc(input) {
        let e1 = Seq::<SectionModel>::empty();
        let e2 = Seq::<TopicIndexModel>::empty();
        lemma_tables_from(ts, 0, e1, e2);
        assert(e1 + sections_in(ts, 0) =~= sections_in(ts, 0));
        assert(e2 + indexes_in(ts, 0) =~= indexes_in(ts, 0));
        lemma_check_indexes(sections_in(ts, 0), indexes_in(ts, 0), 0);
    }
}

// ---------------------------------------------------------------------------
// Executable code
// ---------------------------------------------------------------------------

/// The model of a section result.
pub open spec fn section_res(r: Result<Section, String>) -> Result<SectionModel, Seq<char>> {
    match r {
        Ok(s) => Ok(s@),
        Err(e) => Err(e@),
    }
}

/// The model of a topic-index result.
pub open spec fn index_res(r: Result<TopicIndex, String>) -> Result<TopicIndexModel, Seq<char>> {
    match r {
        Ok(s) => Ok(s@),
        Err(e) => Err(e@),
    }
}

/// The model of a configuration result.
pub open spec fn meta_res(r: Result<BookMeta, String>) -> Result<MetaModel, Seq<char>> {
    match r {
        Ok(s) => Ok(s@),
        Err(e) => Err(e@),
    }
}

fn nth_ctx_exec(n: usize, kind: &str) -> (r: String)
    ensures
        r@ == nth_ctx(n as nat, kind@),
{
    let mut v: Vec<char> = Vec::new();
    push_str(&mut v, "第 ");
    push_decimal(&mut v, n);
    push_str(&mut v, " 个 [[");
    push_str(&mut v, kind);
    push_str(&mut v, "]]");
    assert(v@ =~= nth_ctx(n as nat, kind@));
    string_of(&v)
}

fn dir_ctx_exec(kind: &str, dir: &str) -> (r: String)
    ensures
        r@ == dir_ctx(kind@, dir@),
{
    let mut v: Vec<char> = Vec::new();
    push_str(&mut v, "[[");
    push_str(&mut v, kind);
    push_str(&mut v, "]] `");
    push_str(&mut v, dir);
    push_str(&mut v, "`");
    assert(v@ =~= dir_ctx(kind@, dir@));
    string_of(&v)
}

/// `a + b` as a string.
fn cat(a: &str, b: &str) -> (r: String)
    ensures
        r@ == a@ + b@,
{
    let mut v = chars_of(a);
    push_str(&mut v, b);
    string_of(&v)
}

/// `a + b + c` as a string.
fn cat3(a: &str, b: &str, c: &str) -> (r: String)
    ensures
        r@ == a@ + b@ + c@,
{
    let mut v = chars_of(a);
    push_str(&mut v, b);
    push_str(&mut v, c);
    string_of(&v)
}

/// The optional string `key`, or an empty string.
fn opt_or_empty_exec(t: &Table, key: &str) -> (r: String)
    ensures
        r@ == opt_or_empty(t@, key@),
{
    match t.opt_str(key) {
        Some(s) => string_of(&chars_of(s)),
        None => String::new(),
    }
}

impl Section {
    /// Reads the `i`-th (from 0) `[[section]]` table.
    fn from_table(t: &Table, i: usize) -> (r: Result<Section, String>)
        requires
            i < usize::MAX,
        ensures
            section_res(r) == section_from(t@, i as nat),
    {
        let ctx = nth_ctx_exec(i + 1, "section");
        let dir = match t.req_str("dir", ctx.as_str()) {
            Err(m) => {
                return Err(m);
            },
            Ok(d) => d,
        };
        let dv = chars_of(dir.as_str());
        if dv.len() == 0 || has_char_exec(&dv, '/') {
            return Err(cat(ctx.as_str(), "：`dir` 应是 src/ 下的一级目录名"));
        }
        let ctx2 = dir_ctx_exec("section", dir.as_str());
        let part = match t.req_str("part", ctx2.as_str()) {
            Err(m) => {
                return Err(m);
            },
            Ok(p) => p,
        };
        let title = match t.req_str("title", ctx2.as_str()) {
            Err(m) => {
                return Err(m);
            },
            Ok(p) => p,
        };
        let intro = opt_or_empty_exec(t, "intro");
        Ok(Section { dir, part, title, intro })
    }
}

/// The first index whose topic already occurred before it.
fn first_dup(topics: &Vec<String>) -> (r: Option<usize>)
    ensures
        crate::text::opt_int(r) == first_dup_from(str_views(topics@), 0),
        r matches Some(n) ==> n < topics.len(),
{
    let ghost s = str_views(topics@);
    let mut n: usize = 0;
    while n < topics.len()
        invariant
            n <= topics.len(),
            s == str_views(topics@),
            first_dup_from(s, 0) == first_dup_from(s, n as int),
        decreases topics.len() - n,
    {
        let mut m: usize = 0;
        let mut seen = false;
        while m < n
            invariant
                m <= n < topics.len(),
                s == str_views(topics@),
                seen == s.take(m as int).contains(s[n as int]),
            decreases n - m,
        {
            proof {
                crate::text::lemma_take_succ_contains(s, m as int, s[n as int]);
            }
            if crate::text::str_eq(topics[m].as_str(), topics[n].as_str()) {
                seen = true;
            }
            m = m + 1;
        }
        assert(s.take(n as int).take(m as int) =~= s.take(m as int));
        assert(s.take(m as int) =~= s.take(n as int));
        if seen {
            return Some(n);
        }
        n = n + 1;
    }
    None
}

impl TopicIndex {
    /// Reads the `i`-th (from 0) `[[topic_index]]` table.
    fn from_table(t: &Table, i: usize) -> (r: Result<TopicIndex, String>)
        requires
            i < usize::MAX,
        ensures
            index_res(r) == topic_index_from(t@, i as nat),
    {
        let ctx = nth_ctx_exec(i + 1, "topic_index");
        let dir = match t.req_str("dir", ctx.as_str()) {
            Err(m) => {
                return Err(m);
            },
            Ok(d) => d,
        };
        let ctx2 = dir_ctx_exec("topic_index", dir.as_str());
        let topics = match t.req_arr("topics", ctx2.as_str()) {
            Err(m) => {
                return Err(m);
            },
            Ok(a) => a,
        };
        if topics.len() == 0 {
            return Err(cat(ctx2.as_str(), "：`topics` 不能为空"));
        }
        match first_dup(&topics) {
            Some(n) => {
                let mut v = chars_of(ctx2.as_str());
                push_str(&mut v, "：主题 `");
                push_str(&mut v, topics[n].as_str());
                push_str(&mut v, "` 重复");
                assert(v@ =~= ctx2@ + "：主题 `"@ + str_views(topics@)[n as int] + "` 重复"@);
                return Err(string_of(&v));
            },
            None => {},
        }
        let index = match t.req_str("index", ctx2.as_str()) {
            Err(m) => {
                return Err(m);
            },
            Ok(p) => p,
        };
        let title = match t.req_str("title", ctx2.as_str()) {
            Err(m) => {
                return Err(m);
            },
            Ok(p) => p,
        };
        let intro = opt_or_empty_exec(t, "intro");
        Ok(TopicIndex { index, title, intro, topics, dir })
    }
}

fn has_section_exec(secs: &Vec<Section>, dir: &str) -> (r: bool)
    ensures
        r == has_section(section_views(secs@), dir@),
{
    let mut i: usize = 0;
    while i < secs.len()
        invariant
            i <= secs.len(),
            forall|j: int| 0 <= j < i ==> section_views(secs@)[j].dir != dir@,
        decreases secs.len() - i,
    {
        if crate::text::str_eq(secs[i].dir.as_str(), dir) {
            assert(section_views(secs@)[i as int].dir == dir@);
            return true;
        }
        i = i + 1;
    }
    false
}

fn has_topic_index_exec(tis: &Vec<TopicIndex>, dir: &str) -> (r: bool)
    ensures
        r == has_topic_index(index_views(tis@), dir@),
{
    let mut i: usize = 0;
    while i < tis.len()
        invariant
            i <= tis.len(),
            forall|j: int| 0 <= j < i ==> index_views(tis@)[j].dir != dir@,
        decreases tis.len() - i,
    {
        if crate::text::str_eq(tis[i].dir.as_str(), dir) {
            assert(index_views(tis@)[i as int].dir == dir@);
            return true;
        }
        i = i + 1;
    }
    false
}

/// The directory part of `dir` before its first `/`.
fn top_dir_exec(dir: &str) -> (r: String)
    ensures
        r@ == top_dir(dir@),
{
    let d = chars_of(dir);
    match find_str(&d, "/") {
        Some(i) => {
            proof {
                crate::text::lemma_find_from_bounds(d@, "/"@, 0);
            }
            let t = slice_of(&d, 0, i);
            assert(t@ =~= d@.take(i as int));
            string_of(&t)
        },
        None => string_of(&d),
    }
}

/// The section part of `meta_wf` for a list of sections.
pub open spec fn sections_wf(secs: Seq<SectionModel>) -> bool {
    &&& forall|i: int|
        0 <= i < secs.len() ==> #[trigger] secs[i].dir.len() > 0 && !has_char(secs[i].dir, '/')
    &&& forall|i: int, j: int| 0 <= i < j < secs.len() ==> secs[i].dir != secs[j].dir
}

/// The per-index part of `meta_wf` that holds before the cross checks.
pub open spec fn indexes_wf(tis: Seq<TopicIndexModel>) -> bool {
    &&& forall|i: int, j: int| 0 <= i < j < tis.len() ==> tis[i].dir != tis[j].dir
    &&& forall|i: int|
        0 <= i < tis.len() ==> {
            let ti = #[trigger] tis[i];
            &&& ti.topics.len() > 0
            &&& forall|a: int, b: int| 0 <= a < b < ti.topics.len() ==> ti.topics[a] != ti.topics[b]
        }
}

impl BookMeta {
    /// Parses `book-meta.toml`: `[[section]]` and `[[topic_index]]` tables,
    /// at least one section, no duplicate directories, non-empty distinct
    /// topics, each index page named after its directory and inside a
    /// declared section.
    pub fn parse(input: &str) -> (r: Result<BookMeta, String>)
        ensures
            meta_res(r) == parse_meta(input@),
            r matches Ok(m) ==> meta_wf(m@),
    {
        let tables = match parse(input) {
            Err(m) => {
                return Err(m);
            },
            Ok(t) => t,
        };
        let ghost ts = crate::toml_lite::tables_view(tables@);
        let mut sections: Vec<Section> = Vec::new();
        let mut topic_indexes: Vec<TopicIndex> = Vec::new();
        let mut k: usize = 0;
        assert(section_views(sections@) =~= Seq::<SectionModel>::empty());
        assert(index_views(topic_indexes@) =~= Seq::<TopicIndexModel>::empty());
        while k < tables.len()
            invariant
                k <= tables.len(),
                ts == crate::toml_lite::tables_view(tables@),
                parse_doc(input@) == Ok::<_, Seq<char>>(ts),
                tables_from(ts, 0, Seq::empty(), Seq::empty()) == tables_from(
                    ts,
                    k as int,
                    section_views(sections@),
                    index_views(topic_indexes@),
                ),
                sections.len() <= k,
                topic_indexes.len() <= k,
                sections_wf(section_views(sections@)),
                indexes_wf(index_views(topic_indexes@)),
            decreases tables.len() - k,
        {
            let name = chars_of(tables[k].0.as_str());
            assert(name@ == ts[k as int].0);
            assert(tables@[k as int].1@ == ts[k as int].1);
            if eq_str(&name, "section") {
                let s = match Section::from_table(&tables[k].1, sections.len()) {
                    Err(m) => {
                        return Err(m);
                    },
                    Ok(s) => s,
                };
                if has_section_exec(&sections, s.dir.as_str()) {
                    return Err(cat3("分区 `", s.dir.as_str(), "` 重复定义"));
                }
                let ghost before = section_views(sections@);
                let ghost sv = s@;
                sections.push(s);
                assert(section_views(sections@) =~= before.push(sv));
                assert(sections_wf(section_views(sections@))) by {
                    let sv2 = section_views(sections@);
                    assert forall|i: int, j: int| 0 <= i < j < sv2.len() implies sv2[i].dir != sv2[j].dir by {
                        if j == before.len() {
                            assert(sv2[i] == before[i]);
                        }
                    }
                }
            } else if eq_str(&name, "topic_index") {
                let ti = match TopicIndex::from_table(&tables[k].1, topic_indexes.len()) {
                    Err(m) => {
                        return Err(m);
                    },
                    Ok(t) => t,
                };
                if has_topic_index_exec(&topic_indexes, ti.dir.as_str()) {
                    return Err(cat3("主题索引 `", ti.dir.as_str(), "` 重复定义"));
                }
                proof {
                    lemma_first_dup_none(ti@.topics, 0);
                }
                let ghost before = index_views(topic_indexes@);
                let ghost tv = ti@;
                topic_indexes.push(ti);
                assert(index_views(topic_indexes@) =~= before.push(tv));
                assert(indexes_wf(index_views(topic_indexes@))) by {
                    let tv2 = index_views(topic_indexes@);
                    assert forall|i: int, j: int| 0 <= i < j < tv2.len() implies tv2[i].dir != tv2[j].dir by {
                        if j == before.len() {
                            assert(tv2[i] == before[i]);
                        }
                    }
                    assert forall|i: int| 0 <= i < tv2.len() implies {
                        let t = #[trigger] tv2[i];
                        &&& t.topics.len() > 0
                        &&& forall|a: int, b: int| 0 <= a < b < t.topics.len() ==> t.topics[a] != t.topics[b]
                    } by {
                        if i < before.len() {
                            assert(tv2[i] == before[i]);
                        }
                    }
                }
            } else {
                let mut v: Vec<char> = Vec::new();
                push_str(&mut v, "未知的表 `[[");
                append(&mut v, &name);
                push_str(&mut v, "]]`");
                assert(v@ =~= "未知的表 `[["@ + name@ + "]]`"@);
                return Err(string_of(&v));
            }
            k = k + 1;
        }
        if sections.len() == 0 {
            return Err(string_of(&chars_of("至少需要一个 `[[section]]`")));
        }
        let ghost secs = section_views(sections@);
        let ghost tis = index_views(topic_indexes@);
        assert(tables_from(ts, tables.len() as int, secs, tis) == Ok::<_, Seq<char>>((secs, tis)));
        let mut j: usize = 0;
        while j < topic_indexes.len()
            invariant
                j <= topic_indexes.len(),
                parse_doc(input@) == Ok::<_, Seq<char>>(ts),
                tables_from(ts, 0, Seq::empty(), Seq::empty()) == Ok::<_, Seq<char>>((secs, tis)),
                secs.len() > 0,
                secs == section_views(sections@),
                tis == index_views(topic_indexes@),
                check_indexes(secs, tis, 0) == check_indexes(secs, tis, j as int),
                forall|i: int|
                    0 <= i < j ==> {
                        let ti = #[trigger] tis[i];
                        &&& ti.index == ti.dir + ".md"@
                        &&& has_section(secs, top_dir(ti.dir))
                    },
            decreases topic_indexes.len() - j,
        {
            let ti = &topic_indexes[j];
            assert(ti@ == tis[j as int]);
            let expected = cat(ti.dir.as_str(), ".md");
            if !crate::text::str_eq(ti.index.as_str(), expected.as_str()) {
                let mut v: Vec<char> = Vec::new();
                push_str(&mut v, "主题索引 `");
                push_str(&mut v, ti.dir.as_str());
                push_str(&mut v, "` 的 index 应为 `");
                push_str(&mut v, expected.as_str());
                push_str(&mut v, "`（索引页必须与子目录同名）");
                assert(v@ =~= "主题索引 `"@ + ti.dir@ + "` 的 index 应为 `"@ + expected@
                    + "`（索引页必须与子目录同名）"@);
                return Err(string_of(&v));
            }
            let top = top_dir_exec(ti.dir.as_str());
            if !has_section_exec(&sections, top.as_str()) {
                let mut v: Vec<char> = Vec::new();
                push_str(&mut v, "主题索引 `");
                push_str(&mut v, ti.dir.as_str());
                push_str(&mut v, "` 所属分区 `");
                push_str(&mut v, top.as_str());
                push_str(&mut v, "` 未定义");
                assert(v@ =~= "主题索引 `"@ + ti.dir@ + "` 所属分区 `"@ + top@ + "` 未定义"@);
                return Err(string_of(&v));
            }
            j = j + 1;
        }
        let m = BookMeta { sections, topic_indexes };
        assert(m@.sections == secs);
        assert(m@.topic_indexes == tis);
        Ok(m)
    }

    /// The topic index whose entries live in `dir`.
    pub fn topic_index_for(&self, dir: &str) -> (r: Option<&TopicIndex>)
        ensures
            match r {
                Some(ti) => index_for(self@.topic_indexes, dir@, 0) matches Some(i) && ti@
                    == self@.topic_indexes[i],
                None => index_for(self@.topic_indexes, dir@, 0) is None,
            },
    {
        let ghost tis = self@.topic_indexes;
        let mut i: usize = 0;
        while i < self.topic_indexes.len()
            invariant
                i <= self.topic_indexes.len(),
                tis == self@.topic_indexes,
                index_for(tis, dir@, 0) == index_for(tis, dir@, i as int),
            decreases self.topic_indexes.len() - i,
        {
            assert(self.topic_indexes@[i as int]@ == tis[i as int]);
            if crate::text::str_eq(self.topic_indexes[i].dir.as_str(), dir) {
                return Some(&self.topic_indexes[i]);
            }
            i = i + 1;
        }
        None
    }
}

} // verus!
