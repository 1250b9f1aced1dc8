//! Checks of the writing conventions that break rendering.
//!
//! Only rules that can be decided mechanically and that really produce
//! broken output are here: a wrong list marker renders as a literal symbol,
//! a raw HTML block glued to the next line swallows its Markdown, a file
//! needs exactly one first-level heading, and a relative link must point to
//! a file that exists. The renderer reports none of these.
use vstd::prelude::*;

use crate::text::{
    close_paren, lemma_close_paren,
    chars_of, decimal, ends_with, ends_with_str, join_lines, join_nl, lines, lines_of_str,
    push_decimal, push_str, starts_with, starts_with_exec, starts_with_str, str_views, string_of,
    trim, trim_exec, trim_start, trim_start_exec, views,
};

verus! {

/// One problem found in a file.
#[derive(Debug)]
pub struct Finding {
    /// The file, relative to `src/`.
    pub rel: String,
    /// The 1-based line number.
    pub line: usize,
    /// The rule broken: `bullet`, `html-blank`, `h1` or `link`.
    pub rule: &'static str,
    /// What is wrong and how to mend it.
    pub msg: String,
}

/// The model of a finding.
pub struct FindingModel {
    pub rel: Seq<char>,
    pub line: int,
    pub rule: Seq<char>,
    pub msg: Seq<char>,
}

impl View for Finding {
    type V = FindingModel;

    open spec fn view(&self) -> FindingModel {
        FindingModel { rel: self.rel@, line: self.line as int, rule: self.rule@, msg: self.msg@ }
    }
}

/// The models of a list of findings.
pub open spec fn finding_views(s: Seq<Finding>) -> Seq<FindingModel> {
    Seq::new(s.len(), |i: int| s[i]@)
}

/// A finding with the given parts.
pub open spec fn finding(rel: Seq<char>, line: int, rule: Seq<char>, msg: Seq<char>) -> FindingModel {
    FindingModel { rel, line, rule, msg }
}

// ---------------------------------------------------------------------------
// Line classification
// ---------------------------------------------------------------------------

/// A line that opens or closes a fenced code block.
pub open spec fn is_fence(l: Seq<char>) -> bool {
    starts_with(trim_start(l), "```"@) || starts_with(trim_start(l), "~~~"@)
}

/// Line `i` of `ls` lies inside a fenced code block: an odd number of fence
/// lines come before it.
pub open spec fn in_fence_at(ls: Seq<Seq<char>>, i: int) -> bool
    decreases i,
{
    if i <= 0 {
        false
    } else if is_fence(ls[i - 1]) {
        !in_fence_at(ls, i - 1)
    } else {
        in_fence_at(ls, i - 1)
    }
}

/// Line `i` is prose: neither a fence line nor inside a fenced block.
pub open spec fn is_prose(ls: Seq<Seq<char>>, i: int) -> bool {
    !is_fence(ls[i]) && !in_fence_at(ls, i)
}

/// The trimmed line `t` starts with the marker `m` followed by a blank.
pub open spec fn marker_at(t: Seq<char>, m: Seq<char>) -> bool {
    &&& starts_with(t, m)
    &&& t.len() > m.len()
    &&& (t[m.len() as int] == ' ' || t[m.len() as int] == '\t')
}

/// The character that opens line `l` and that the renderer will not read as
/// a list marker: `·`, `•`, `‧`, `\*` or `_`, followed by a blank.
pub open spec fn bullet_of(l: Seq<char>) -> Option<Seq<char>> {
    let t = trim_start(l);
    if marker_at(t, "·"@) {
        Some("·"@)
    } else if marker_at(t, "•"@) {
        Some("•"@)
    } else if marker_at(t, "‧"@) {
        Some("‧"@)
    } else if marker_at(t, "\\*"@) {
        Some("\\*"@)
    } else if marker_at(t, "_"@) {
        Some("_"@)
    } else {
        None
    }
}

/// Line `i` is a raw HTML block (not a comment) followed by a non-blank line.
pub open spec fn html_unspaced(ls: Seq<Seq<char>>, i: int) -> bool {
    let t = trim_start(ls[i]);
    &&& starts_with(t, "<"@)
    &&& !starts_with(t, "<!--"@)
    &&& ends_with(t, ">"@)
    &&& i + 1 < ls.len()
    &&& trim(ls[i + 1]).len() > 0
}

// ---------------------------------------------------------------------------
// Messages
// ---------------------------------------------------------------------------

pub open spec fn bullet_msg(m: Seq<char>) -> Seq<char> {
    "行首的 `"@ + m + "` 不是列表标记，会渲染成字面符号，应改用 `-`"@
}

pub open spec fn html_msg() -> Seq<char> {
    "裸 HTML 块之后需要一个空行，否则下一行 Markdown 不会被解析"@
}

pub open spec fn no_h1_msg() -> Seq<char> {
    "缺少一级标题（`# 标题`）"@
}

pub open spec fn many_h1_msg(n: nat) -> Seq<char> {
    "文件有 "@ + decimal(n) + " 个一级标题，只应保留一个，其余下沉为 `##`"@
}

// ---------------------------------------------------------------------------
// What `lint_file` reports
// ---------------------------------------------------------------------------

/// The findings of prose line `i`: a wrong marker, then an unspaced HTML block.
pub open spec fn line_findings(rel: Seq<char>, ls: Seq<Seq<char>>, i: int) -> Seq<FindingModel> {
    if !is_prose(ls, i) {
        Seq::empty()
    } else {
        (match bullet_of(ls[i]) {
            Some(m) => seq![finding(rel, i + 1, "bullet"@, bullet_msg(m))],
            None => Seq::empty(),
        }) + (if html_unspaced(ls, i) {
            seq![finding(rel, i + 1, "html-blank"@, html_msg())]
        } else {
            Seq::empty()
        })
    }
}

/// The line findings of the first `n` lines, in order.
pub open spec fn body_findings(rel: Seq<char>, ls: Seq<Seq<char>>, n: int) -> Seq<FindingModel>
    decreases n,
{
    if n <= 0 {
        Seq::empty()
    } else {
        body_findings(rel, ls, n - 1) + line_findings(rel, ls, n - 1)
    }
}

/// The 1-based numbers of the prose lines among the first `n` that are
/// first-level headings.
pub open spec fn h1_lines(ls: Seq<Seq<char>>, n: int) -> Seq<int>
    decreases n,
{
    if n <= 0 {
        Seq::empty()
    } else if is_prose(ls, n - 1) && starts_with(ls[n - 1], "# "@) {
        h1_lines(ls, n - 1).push(n)
    } else {
        h1_lines(ls, n - 1)
    }
}

/// No heading is reported at line 1; every heading after the first is reported.
pub open spec fn h1_findings(rel: Seq<char>, hs: Seq<int>) -> Seq<FindingModel> {
    if hs.len() == 0 {
        seq![finding(rel, 1, "h1"@, no_h1_msg())]
    } else {
        Seq::new(
            (hs.len() - 1) as nat,
            |k: int| finding(rel, hs[k + 1], "h1"@, many_h1_msg(hs.len())),
        )
    }
}

/// Everything `lint_file` reports for file `rel` with `content`.
pub open spec fn lint_model(rel: Seq<char>, content: Seq<char>) -> Seq<FindingModel> {
    let ls = lines(content);
    body_findings(rel, ls, ls.len() as int) + h1_findings(rel, h1_lines(ls, ls.len() as int))
}

/// The line numbers held in `s`.
pub open spec fn usizes(s: Seq<usize>) -> Seq<int> {
    Seq::new(s.len(), |i: int| s[i] as int)
}

/// The model of an optional literal.
pub open spec fn opt_lit(o: Option<&'static str>) -> Option<Seq<char>> {
    match o {
        Some(s) => Some(s@),
        None => None,
    }
}

// ---------------------------------------------------------------------------
// Executable checks
// ---------------------------------------------------------------------------

impl Finding {
    fn new(rel: &str, line: usize, rule: &'static str, msg: String) -> (f: Finding)
        ensures
            f@ == finding(rel@, line as int, rule@, msg@),
    {
        Finding { rel: rel.to_owned(), line, rule, msg }
    }
}

fn bullet_message(m: &str) -> (r: String)
    ensures
        r@ == bullet_msg(m@),
{
    let mut v = chars_of("行首的 `");
    push_str(&mut v, m);
    push_str(&mut v, "` 不是列表标记，会渲染成字面符号，应改用 `-`");
    string_of(&v)
}

fn many_h1_message(n: usize) -> (r: String)
    ensures
        r@ == many_h1_msg(n as nat),
{
    let mut v = chars_of("文件有 ");
    push_decimal(&mut v, n);
    push_str(&mut v, " 个一级标题，只应保留一个，其余下沉为 `##`");
    string_of(&v)
}

fn marker_at_exec(t: &Vec<char>, m: &str) -> (r: bool)
    ensures
        r == marker_at(t@, m@),
{
    let mv = chars_of(m);
    if !starts_with_exec(t, &mv) || t.len() <= mv.len() {
        return false;
    }
    let c = t[mv.len()];
    c == ' ' || c == '\t'
}

/// The wrong list marker that opens `line`, if any.
fn bad_bullet(line: &Vec<char>) -> (r: Option<&'static str>)
    ensures
        opt_lit(r) == bullet_of(line@),
{
    let t = trim_start_exec(line);
    if marker_at_exec(&t, "·") {
        Some("·")
    } else if marker_at_exec(&t, "•") {
        Some("•")
    } else if marker_at_exec(&t, "‧") {
        Some("‧")
    } else if marker_at_exec(&t, "\\*") {
        Some("\\*")
    } else if marker_at_exec(&t, "_") {
        Some("_")
    } else {
        None
    }
}

fn is_fence_exec(l: &Vec<char>) -> (r: bool)
    ensures
        r == is_fence(l@),
{
    let t = trim_start_exec(l);
    starts_with_str(&t, "```") || starts_with_str(&t, "~~~")
}

fn html_unspaced_exec(ls: &Vec<Vec<char>>, i: usize) -> (r: bool)
    requires
        i < ls.len(),
    ensures
        r == html_unspaced(views(ls@), i as int),
{
    let t = trim_start_exec(&ls[i]);
    if !starts_with_str(&t, "<") || starts_with_str(&t, "<!--") || !ends_with_str(&t, ">") {
        return false;
    }
    if i + 1 >= ls.len() {
        return false;
    }
    let next = trim_exec(&ls[i + 1]);
    next.len() > 0
}

/// Checks one file and returns every problem found, line by line, then the
/// heading count.
///
/// Code fences are skipped: a `# ` inside a Rust block is the renderer's
/// hidden-line syntax, not a heading.
pub fn lint_file(rel: &str, content: &str) -> (r: Vec<Finding>)
    ensures
        finding_views(r@) == lint_model(rel@, content@),
{
    let ls = lines_of_str(content);
    let ghost l = lines(content@);
    let mut findings: Vec<Finding> = Vec::new();
    let mut in_fence = false;
    let mut h1: Vec<usize> = Vec::new();
    let mut i: usize = 0;
    while i < ls.len()
        invariant
            i <= ls.len(),
            views(ls@) == l,
            in_fence == in_fence_at(l, i as int),
            finding_views(findings@) == body_findings(rel@, l, i as int),
            usizes(h1@) == h1_lines(l, i as int),
        decreases ls.len() - i,
    {
        let ghost f0 = finding_views(findings@);
        let ghost h0 = usizes(h1@);
        assert(ls@[i as int]@ == l[i as int]);
        if is_fence_exec(&ls[i]) {
            in_fence = !in_fence;
            assert(line_findings(rel@, l, i as int) =~= Seq::<FindingModel>::empty());
            assert(finding_views(findings@) =~= f0 + line_findings(rel@, l, i as int));
        } else if in_fence {
            assert(line_findings(rel@, l, i as int) =~= Seq::<FindingModel>::empty());
            assert(finding_views(findings@) =~= f0 + line_findings(rel@, l, i as int));
        } else {
            let no = i + 1;
            if starts_with_str(&ls[i], "# ") {
                h1.push(no);
                assert(usizes(h1@) =~= h0.push(no as int));
            }
            match bad_bullet(&ls[i]) {
                Some(m) => {
                    let msg = bullet_message(m);
                    findings.push(Finding::new(rel, no, "bullet", msg));
                },
                None => {},
            }
            let ghost f1 = finding_views(findings@);
            assert(f1 =~= f0 + (match bullet_of(l[i as int]) {
                Some(m) => seq![finding(rel@, i + 1, "bullet"@, bullet_msg(m))],
                None => Seq::empty(),
            }));
            if html_unspaced_exec(&ls, i) {
                let msg = html_msg_exec();
                findings.push(Finding::new(rel, no, "html-blank", msg));
            }
            assert(finding_views(findings@) =~= f0 + line_findings(rel@, l, i as int));
        }
        i = i + 1;
    }
    let ghost body = finding_views(findings@);
    let n = h1.len();
    if n == 0 {
        let msg = no_h1_msg_exec();
        findings.push(Finding::new(rel, 1, "h1", msg));
        assert(finding_views(findings@) =~= body + h1_findings(rel@, h1_lines(l, l.len() as int)));
    } else {
        let msg = many_h1_message(n);
        let mut k: usize = 1;
        assert(finding_views(findings@) =~= body + Seq::new(
            (k - 1) as nat,
            |j: int| finding(rel@, h1@[j + 1] as int, "h1"@, many_h1_msg(n as nat)),
        ));
        while k < n
            invariant
                1 <= k <= n,
                n == h1.len(),
                msg@ == many_h1_msg(n as nat),
                finding_views(findings@) == body + Seq::new(
                    (k - 1) as nat,
                    |j: int| finding(rel@, h1@[j + 1] as int, "h1"@, many_h1_msg(n as nat)),
                ),
            decreases n - k,
        {
            let ghost before = finding_views(findings@);
            let m2 = msg.clone();
            let f = Finding::new(rel, h1[k], "h1", m2);
            findings.push(f);
            let ghost want = Seq::new(
                k as nat,
                |j: int| finding(rel@, h1@[j + 1] as int, "h1"@, many_h1_msg(n as nat)),
            );
            assert(want =~= Seq::new(
                (k - 1) as nat,
                |j: int| finding(rel@, h1@[j + 1] as int, "h1"@, many_h1_msg(n as nat)),
            ).push(f@));
            assert(finding_views(findings@) =~= before.push(f@));
            assert(finding_views(findings@) =~= body + Seq::new(
                k as nat,
                |j: int| finding(rel@, h1@[j + 1] as int, "h1"@, many_h1_msg(n as nat)),
            ));
            k = k + 1;
        }
        assert(finding_views(findings@) =~= body + h1_findings(rel@, h1_lines(l, l.len() as int)));
    }
    findings
}

// ---------------------------------------------------------------------------
// Fixing list markers
// ---------------------------------------------------------------------------

/// Line `l` with its wrong marker `m` replaced by `-`, indentation kept.
pub open spec fn fixed_line(l: Seq<char>, m: Seq<char>) -> Seq<char> {
    let t = trim_start(l);
    l.take(l.len() - t.len()) + "-"@ + t.skip(m.len() as int)
}

/// Line `i` after fixing: a prose line with a wrong marker gets `-`.
pub open spec fn fix_out(ls: Seq<Seq<char>>, i: int) -> Seq<char> {
    if is_prose(ls, i) && bullet_of(ls[i]) is Some {
        fixed_line(ls[i], bullet_of(ls[i])->0)
    } else {
        ls[i]
    }
}

/// Some prose line of `ls` opens with a wrong marker.
pub open spec fn needs_fix(ls: Seq<Seq<char>>) -> bool {
    exists|i: int| 0 <= i < ls.len() && is_prose(ls, i) && (#[trigger] bullet_of(ls[i])) is Some
}

/// What `fix_content` returns: `None` when nothing changes, else the lines
/// after fixing joined by `\n`, with the final newline kept.
pub open spec fn fix_model(content: Seq<char>) -> Option<Seq<char>> {
    let ls = lines(content);
    if needs_fix(ls) {
        Some(
            join_nl(Seq::new(ls.len(), |i: int| fix_out(ls, i))) + if ends_with(content, "\n"@) {
                "\n"@
            } else {
                Seq::empty()
            },
        )
    } else {
        None
    }
}

/// Replaces the wrong list markers at the start of prose lines by `-`,
/// keeping the indentation; `None` when nothing changes.
pub fn fix_content(content: &str) -> (r: Option<String>)
    ensures
        match r {
            Some(s) => fix_model(content@) == Some(s@),
            None => fix_model(content@) is None,
        },
{
    let ls = lines_of_str(content);
    let ghost l = lines(content@);
    let mut changed = false;
    let mut in_fence = false;
    let mut out: Vec<String> = Vec::new();
    let mut i: usize = 0;
    while i < ls.len()
        invariant
            i <= ls.len(),
            views(ls@) == l,
            in_fence == in_fence_at(l, i as int),
            out.len() == i,
            forall|k: int| 0 <= k < i ==> #[trigger] out@[k]@ == fix_out(l, k),
            changed <==> exists|k: int| 0 <= k < i && is_prose(l, k) && (#[trigger] bullet_of(l[k])) is Some,
        decreases ls.len() - i,
    {
        assert(ls@[i as int]@ == l[i as int]);
        let ghost o0 = out@;
        if is_fence_exec(&ls[i]) {
            in_fence = !in_fence;
            out.push(string_of(&ls[i]));
        } else {
            let b = bad_bullet(&ls[i]);
            match b {
                Some(m) if !in_fence => {
                    let t = trim_start_exec(&ls[i]);
                    proof {
                        crate::text::lemma_trim_start_suffix(l[i as int]);
                        reveal_strlit("·");
                        reveal_strlit("•");
                        reveal_strlit("‧");
                        reveal_strlit("\\*");
                        reveal_strlit("_");
                        reveal_strlit("-");
                    }
                    let indent = ls[i].len() - t.len();
                    let mut v = crate::text::slice_of(&ls[i], 0, indent);
                    v.push('-');
                    let ml = chars_of(m).len();
                    let rest = crate::text::skip(&t, ml);
                    crate::text::append(&mut v, &rest);
                    assert(v@ =~= fixed_line(l[i as int], m@));
                    out.push(string_of(&v));
                    changed = true;
                },
                _ => {
                    out.push(string_of(&ls[i]));
                },
            }
        }
        assert forall|k: int| 0 <= k < i + 1 implies #[trigger] out@[k]@ == fix_out(l, k) by {
            if k < i {
                assert(out@[k] == o0[k]);
            }
        }
        i = i + 1;
    }
    if !changed {
        return None;
    }
    let ghost fixed = Seq::new(l.len(), |k: int| fix_out(l, k));
    assert(str_views(out@) =~= fixed);
    let joined = join_lines(&out);
    let mut text = chars_of(joined.as_str());
    let ends = {
        let cv = chars_of(content);
        ends_with_str(&cv, "\n")
    };
    if ends {
        text.push('\n');
        assert(text@ =~= join_nl(fixed) + "\n"@) by {
            reveal_strlit("\n");
        }
    } else {
        assert(text@ =~= join_nl(fixed) + Seq::<char>::empty());
    }
    Some(string_of(&text))
}

// ---------------------------------------------------------------------------
// The heading rule
// ---------------------------------------------------------------------------

/// A filter keeps nothing when no element passes, and everything when every
/// element passes.
proof fn lemma_filter_none_or_all(s: Seq<FindingModel>, p: spec_fn(FindingModel) -> bool)
    ensures
        (forall|i: int| 0 <= i < s.len() ==> !p(#[trigger] s[i])) ==> s.filter(p) == Seq::<FindingModel>::empty(),
        (forall|i: int| 0 <= i < s.len() ==> p(#[trigger] s[i])) ==> s.filter(p) == s,
    decreases s.len(),
{
    reveal(Seq::filter);
    if s.len() > 0 {
        let r = s.drop_last();
        lemma_filter_none_or_all(r, p);
        if forall|i: int| 0 <= i < s.len() ==> !p(#[trigger] s[i]) {
            assert forall|i: int| 0 <= i < r.len() implies !p(#[trigger] r[i]) by {
                assert(r[i] == s[i]);
            }
            assert(!p(s[s.len() - 1]));
        }
        if forall|i: int| 0 <= i < s.len() ==> p(#[trigger] s[i]) {
            assert forall|i: int| 0 <= i < r.len() implies p(#[trigger] r[i]) by {
                assert(r[i] == s[i]);
            }
            assert(p(s[s.len() - 1]));
            assert(r.push(s.last()) =~= s);
        }
    }
}

/// The line findings name the file and break no heading rule.
proof fn lemma_body_rules(rel: Seq<char>, ls: Seq<Seq<char>>, n: int)
    ensures
        forall|k: int|
            0 <= k < body_findings(rel, ls, n).len() ==> (#[trigger] body_findings(rel, ls, n)[k]).rule != "h1"@
                && body_findings(rel, ls, n)[k].rel == rel,
    decreases n,
{
    lemma_rule_names();
    reveal_strlit("html-blank");
    reveal_strlit("h1");
    if n > 0 {
        lemma_body_rules(rel, ls, n - 1);
        let a = body_findings(rel, ls, n - 1);
        let b = line_findings(rel, ls, n - 1);
        let all = body_findings(rel, ls, n);
        assert(all == a + b);
        assert forall|k: int| 0 <= k < all.len() implies (#[trigger] all[k]).rule != "h1"@ && all[k].rel == rel by {
            if k < a.len() {
                assert(all[k] == a[k]);
            } else {
                assert(all[k] == b[k - a.len()]);
                let b1: Seq<FindingModel> = match bullet_of(ls[n - 1]) {
                    Some(m) => seq![finding(rel, n, "bullet"@, bullet_msg(m))],
                    None => Seq::empty(),
                };
                let b2: Seq<FindingModel> = if html_unspaced(ls, n - 1) {
                    seq![finding(rel, n, "html-blank"@, html_msg())]
                } else {
                    Seq::empty()
                };
                assert(is_prose(ls, n - 1));
                assert(b == b1 + b2);
                let j = k - a.len();
                if j < b1.len() {
                    assert(b[j] == b1[j]);
                } else {
                    assert(b[j] == b2[j - b1.len()]);
                    assert("html-blank"@.len() != "h1"@.len());
                }
            }
        }
    }
}

/// The heading lines are, in increasing order, the prose lines among the
/// first `n` that begin with `# `.
proof fn lemma_h1_lines(ls: Seq<Seq<char>>, n: int)
    requires
        0 <= n <= ls.len(),
    ensures
        forall|j: int|
            #[trigger] h1_lines(ls, n).contains(j) <==> (1 <= j <= n && is_prose(ls, j - 1) && starts_with(
                ls[j - 1],
                "# "@,
            )),
        forall|a: int| 0 <= a < h1_lines(ls, n).len() ==> 1 <= #[trigger] h1_lines(ls, n)[a] <= n,
        forall|a: int, b: int| 0 <= a < b < h1_lines(ls, n).len() ==> h1_lines(ls, n)[a] < h1_lines(ls, n)[b],
    decreases n,
{
    if n > 0 {
        lemma_h1_lines(ls, n - 1);
        let h = h1_lines(ls, n - 1);
        let hn = h1_lines(ls, n);
        if is_prose(ls, n - 1) && starts_with(ls[n - 1], "# "@) {
            assert(hn == h.push(n));
            assert forall|j: int| #[trigger] hn.contains(j) <==> (1 <= j <= n && is_prose(ls, j - 1) && starts_with(
                ls[j - 1],
                "# "@,
            )) by {
                if hn.contains(j) {
                    let i = choose|i: int| 0 <= i < hn.len() && hn[i] == j;
                    if i < h.len() {
                        assert(h[i] == j);
                        assert(h.contains(j));
                    }
                }
                if 1 <= j < n && is_prose(ls, j - 1) && starts_with(ls[j - 1], "# "@) {
                    assert(h.contains(j));
                    let i = choose|i: int| 0 <= i < h.len() && h[i] == j;
                    assert(hn[i] == j);
                }
                if j == n {
                    assert(hn[h.len() as int] == n);
                }
            }
        } else {
            assert forall|j: int| #[trigger] hn.contains(j) <==> (1 <= j <= n && is_prose(ls, j - 1) && starts_with(
                ls[j - 1],
                "# "@,
            )) by {
                if j == n && hn.contains(j) {
                    let i = choose|i: int| 0 <= i < h.len() && h[i] == j;
                    assert(h[i] <= n - 1);
                }
            }
        }
    }
}

/// The heading rule: a file is to have exactly one first-level heading, a
/// prose line (outside code fences) that begins with `# `. Its `h1`
/// findings are one at line 1 when there is none, none when there is one,
/// and one at each heading after the first, in order, when there are
/// several. Every finding names the file.
pub proof fn h1_findings_mark_extra_headings(rel: Seq<char>, content: Seq<char>)
    ensures
        ({
            let ls = lines(content);
            let hs = h1_lines(ls, ls.len() as int);
            let hf = lint_model(rel, content).filter(|f: FindingModel| f.rule == "h1"@);
            &&& forall|j: int|
                #[trigger] hs.contains(j) <==> (1 <= j <= ls.len() && is_prose(ls, j - 1) && starts_with(
                    ls[j - 1],
                    "# "@,
                ))
            &&& forall|a: int, b: int| 0 <= a < b < hs.len() ==> hs[a] < hs[b]
            &&& hs.len() == 0 ==> hf == seq![finding(rel, 1, "h1"@, no_h1_msg())]
            &&& hs.len() > 0 ==> hf.len() == hs.len() - 1
            &&& forall|k: int|
                0 <= k < hf.len() && hs.len() > 0 ==> (#[trigger] hf[k]).line == hs[k + 1] && hf[k].rel == rel
            &&& forall|k: int|
                0 <= k < lint_model(rel, content).len() ==> (#[trigger] lint_model(rel, content)[k]).rel == rel
        }),
{
    let ls = lines(content);
    let n = ls.len() as int;
    let hs = h1_lines(ls, n);
    let p = |f: FindingModel| f.rule == "h1"@;
    let body = body_findings(rel, ls, n);
    let hd = h1_findings(rel, hs);
    let all = lint_model(rel, content);
    assert(all == body + hd);
    lemma_h1_lines(ls, n);
    lemma_body_rules(rel, ls, n);
    lemma_filter_none_or_all(body, p);
    lemma_filter_none_or_all(hd, p);
    assert forall|i: int| 0 <= i < hd.len() implies p(#[trigger] hd[i]) by {}
    Seq::filter_distributes_over_add(body, hd, p);
    assert(all.filter(p) == hd);
    assert forall|k: int| 0 <= k < all.len() implies (#[trigger] all[k]).rel == rel by {
        if k < body.len() {
            assert(all[k] == body[k]);
        } else {
            assert(all[k] == hd[k - body.len()]);
        }
    }
}

// ---------------------------------------------------------------------------
// Laws of fixing
// ---------------------------------------------------------------------------

/// Some finding of `fs` is for `rule`.
pub open spec fn has_rule(fs: Seq<FindingModel>, rule: Seq<char>) -> bool {
    exists|k: int| 0 <= k < fs.len() && (#[trigger] fs[k]).rule == rule
}

proof fn lemma_rule_names()
    ensures
        "bullet"@ != "html-blank"@,
        "bullet"@ != "h1"@,
{
    reveal_strlit("bullet");
    reveal_strlit("html-blank");
    reveal_strlit("h1");
    assert("bullet"@.len() != "html-blank"@.len());
    assert("bullet"@.len() != "h1"@.len());
}

proof fn lemma_body_bullets(rel: Seq<char>, ls: Seq<Seq<char>>, n: int)
    requires
        0 <= n <= ls.len(),
    ensures
        has_rule(body_findings(rel, ls, n), "bullet"@) <==> exists|i: int|
            0 <= i < n && is_prose(ls, i) && (#[trigger] bullet_of(ls[i])) is Some,
    decreases n,
{
    lemma_rule_names();
    if n > 0 {
        lemma_body_bullets(rel, ls, n - 1);
        let b0 = body_findings(rel, ls, n - 1);
        let lf = line_findings(rel, ls, n - 1);
        let b = b0 + lf;
        assert(body_findings(rel, ls, n) == b);
        if has_rule(b, "bullet"@) {
            let k = choose|k: int| 0 <= k < b.len() && (#[trigger] b[k]).rule == "bullet"@;
            if k < b0.len() {
                assert(b[k] == b0[k]);
                assert(has_rule(b0, "bullet"@));
                let i = choose|i: int| 0 <= i < n - 1 && is_prose(ls, i) && (#[trigger] bullet_of(ls[i])) is Some;
                assert(0 <= i < n && is_prose(ls, i) && bullet_of(ls[i]) is Some);
            } else {
                assert(b[k] == lf[k - b0.len()]);
                assert(is_prose(ls, n - 1) && bullet_of(ls[n - 1]) is Some);
            }
        }
        if exists|i: int| 0 <= i < n && is_prose(ls, i) && (#[trigger] bullet_of(ls[i])) is Some {
            let i = choose|i: int| 0 <= i < n && is_prose(ls, i) && (#[trigger] bullet_of(ls[i])) is Some;
            if i < n - 1 {
                assert(has_rule(b0, "bullet"@));
                let k = choose|k: int| 0 <= k < b0.len() && (#[trigger] b0[k]).rule == "bullet"@;
                assert(b[k] == b0[k]);
            } else {
                assert(b[b0.len() as int] == lf[0]);
            }
            assert(has_rule(b, "bullet"@));
        }
    }
}

/// `fix_content` changes a file exactly when `lint_file` reports a wrong
/// list marker in it.
pub proof fn fix_changes_iff_bullets(rel: Seq<char>, content: Seq<char>)
    ensures
        fix_model(content) is Some <==> has_rule(lint_model(rel, content), "bullet"@),
{
    let ls = lines(content);
    let n = ls.len() as int;
    lemma_body_bullets(rel, ls, n);
    lemma_rule_names();
    let b = body_findings(rel, ls, n);
    let h = h1_findings(rel, h1_lines(ls, n));
    assert forall|k: int| 0 <= k < h.len() implies (#[trigger] h[k]).rule != "bullet"@ by {}
    if has_rule(b + h, "bullet"@) {
        let k = choose|k: int| 0 <= k < (b + h).len() && (#[trigger] (b + h)[k]).rule == "bullet"@;
        if k < b.len() {
            assert((b + h)[k] == b[k]);
        } else {
            assert((b + h)[k] == h[k - b.len()]);
        }
        assert(has_rule(b, "bullet"@));
    }
    if has_rule(b, "bullet"@) {
        let k = choose|k: int| 0 <= k < b.len() && (#[trigger] b[k]).rule == "bullet"@;
        assert((b + h)[k] == b[k]);
    }
}

proof fn lemma_marker_push(t: Seq<char>, c: char, m: Seq<char>)
    requires
        marker_at(t, m),
    ensures
        marker_at(t.push(c), m),
{
    assert(t.push(c).subrange(0, m.len() as int) =~= t.subrange(0, m.len() as int));
}

proof fn lemma_literals()
    ensures
        "```"@ == seq!['`', '`', '`'],
        "~~~"@ == seq!['~', '~', '~'],
        "·"@ == seq!['·'],
        "•"@ == seq!['•'],
        "‧"@ == seq!['‧'],
        "\\*"@ == seq!['\\', '*'],
        "_"@ == seq!['_'],
        "-"@ == seq!['-'],
{
    reveal_strlit("```");
    reveal_strlit("~~~");
    reveal_strlit("·");
    reveal_strlit("•");
    reveal_strlit("‧");
    reveal_strlit("\\*");
    reveal_strlit("_");
    reveal_strlit("-");
}

/// Dropping the `\r` of a line ending changes neither its fence status nor,
/// when it has none, gives it a wrong marker.
proof fn lemma_line_body_keeps(x: Seq<char>)
    ensures
        is_fence(crate::text::line_body(x)) == is_fence(x),
        bullet_of(x) is None ==> bullet_of(crate::text::line_body(x)) is None,
{
    let y = crate::text::line_body(x);
    if y != x {
        lemma_literals();
        assert(x =~= y.push('\r'));
        if exists|i: int| 0 <= i < y.len() && !crate::text::is_ws(#[trigger] y[i]) {
            crate::text::lemma_trim_start_push(y, '\r');
            let ty = trim_start(y);
            crate::text::lemma_starts_with_push(ty, '\r', "```"@);
            crate::text::lemma_starts_with_push(ty, '\r', "~~~"@);
            if marker_at(ty, "·"@) {
                lemma_marker_push(ty, '\r', "·"@);
            }
            if marker_at(ty, "•"@) {
                lemma_marker_push(ty, '\r', "•"@);
            }
            if marker_at(ty, "‧"@) {
                lemma_marker_push(ty, '\r', "‧"@);
            }
            if marker_at(ty, "\\*"@) {
                lemma_marker_push(ty, '\r', "\\*"@);
            }
            if marker_at(ty, "_"@) {
                lemma_marker_push(ty, '\r', "_"@);
            }
        } else {
            crate::text::lemma_trim_start_blank(y);
            assert forall|i: int| 0 <= i < x.len() implies crate::text::is_ws(#[trigger] x[i]) by {
                if i < y.len() {
                    assert(x[i] == y[i]);
                }
            }
            crate::text::lemma_trim_start_blank(x);
        }
    }
}

proof fn lemma_no_start(t: Seq<char>, m: Seq<char>)
    requires
        t.len() > 0,
        m.len() > 0,
        t[0] != m[0],
    ensures
        !starts_with(t, m),
{
    if starts_with(t, m) {
        assert(t.subrange(0, m.len() as int)[0] == t[0]);
    }
}

/// A fixed line holds no newline, is no fence, and has no wrong marker.
proof fn lemma_fixed_line(l: Seq<char>)
    requires
        bullet_of(l) is Some,
        !crate::text::has_char(l, '\n'),
    ensures
        !crate::text::has_char(fixed_line(l, bullet_of(l)->0), '\n'),
        !is_fence(fixed_line(l, bullet_of(l)->0)),
        bullet_of(fixed_line(l, bullet_of(l)->0)) is None,
        fixed_line(l, bullet_of(l)->0).len() > 0,
{
    lemma_literals();
    let m = bullet_of(l)->0;
    let t = trim_start(l);
    crate::text::lemma_trim_start_suffix(l);
    let w = l.take(l.len() - t.len());
    let r = t.skip(m.len() as int);
    let z = fixed_line(l, m);
    assert(z =~= w + (seq!['-'] + r));
    assert forall|i: int| 0 <= i < w.len() implies crate::text::is_ws(#[trigger] w[i]) by {
        assert(w[i] == l[i]);
    }
    crate::text::lemma_trim_start_blank_prefix(w, seq!['-'] + r);
    assert(trim_start(seq!['-'] + r) == seq!['-'] + r);
    assert(trim_start(z)[0] == '-');
    lemma_no_start(trim_start(z), "```"@);
    lemma_no_start(trim_start(z), "~~~"@);
    lemma_no_start(trim_start(z), "·"@);
    lemma_no_start(trim_start(z), "•"@);
    lemma_no_start(trim_start(z), "‧"@);
    lemma_no_start(trim_start(z), "\\*"@);
    lemma_no_start(trim_start(z), "_"@);
    assert(!crate::text::has_char(z, '\n')) by {
        if crate::text::has_char(z, '\n') {
            let i = choose|i: int| 0 <= i < z.len() && z[i] == '\n';
            if i < w.len() {
                assert(l[i] == '\n');
            } else if i > w.len() {
                assert(z[i] == t[i - w.len() - 1 + m.len()]);
                assert(l[l.len() - t.len() + (i - w.len() - 1 + m.len())] == '\n');
            }
        }
    }
}

proof fn lemma_fence_states(a: Seq<Seq<char>>, b: Seq<Seq<char>>, k: int)
    requires
        a.len() == b.len(),
        0 <= k <= a.len(),
        forall|i: int| 0 <= i < a.len() ==> is_fence(#[trigger] a[i]) == is_fence(b[i]),
    ensures
        in_fence_at(a, k) == in_fence_at(b, k),
    decreases k,
{
    if k > 0 {
        lemma_fence_states(a, b, k - 1);
        assert(is_fence(a[k - 1]) == is_fence(b[k - 1]));
    }
}

/// Fixing is idempotent: a fixed file needs no further fix, and `lint_file`
/// reports no wrong list marker in it.
pub proof fn fix_is_idempotent(rel: Seq<char>, content: Seq<char>)
    ensures
        fix_model(content) matches Some(t) ==> fix_model(t) is None && !has_rule(
            lint_model(rel, t),
            "bullet"@,
        ),
{
    let ls = lines(content);
    if needs_fix(ls) {
        reveal_strlit("\n");
        let n = ls.len();
        let f = Seq::new(n, |i: int| fix_out(ls, i));
        let ends = ends_with(content, "\n"@);
        let t = join_nl(f) + if ends {
            "\n"@
        } else {
            Seq::<char>::empty()
        };
        assert(fix_model(content) == Some(t));
        crate::text::lemma_lines_shape(content, Seq::empty());
        assert forall|k: int| 0 <= k < n implies !crate::text::has_char(#[trigger] f[k], '\n') by {
            assert(!crate::text::has_char(ls[k], '\n'));
            if is_prose(ls, k) && bullet_of(ls[k]) is Some {
                lemma_fixed_line(ls[k]);
            }
        }
        let g = lines(t);
        crate::text::lemma_lines_join(f);
        assert(n > 0);
        assert(content.len() > 0) by {
            if content.len() == 0 {
                assert(lines(content) =~= Seq::<Seq<char>>::empty());
            }
        }
        assert("\n"@ =~= seq!['\n']);
        assert(ends == (content.last() == '\n')) by {
            let tail = content.subrange(content.len() - 1, content.len() as int);
            assert(tail[0] == content.last());
            if content.last() == '\n' {
                assert(tail =~= seq!['\n']);
            }
        }
        if ends {
            assert(content.last() == '\n');
            assert(t =~= join_nl(f) + seq!['\n']);
        } else {
            assert(content.len() > 0 && content.last() != '\n');
            assert(t =~= join_nl(f));
            let last = n - 1;
            if is_prose(ls, last) && bullet_of(ls[last]) is Some {
                lemma_fixed_line(ls[last]);
            }
            assert(f.last().len() > 0);
        }
        assert(g.len() == n);
        assert forall|k: int| 0 <= k < n implies is_fence(#[trigger] g[k]) == is_fence(ls[k]) && (
        is_prose(ls, k) ==> bullet_of(g[k]) is None) by {
            lemma_line_body_keeps(f[k]);
            assert(g[k] == f[k] || g[k] == crate::text::line_body(f[k]));
            if is_prose(ls, k) && bullet_of(ls[k]) is Some {
                lemma_fixed_line(ls[k]);
            }
        }
        assert forall|k: int| 0 <= k < n implies is_prose(g, k) == is_prose(ls, k) by {
            lemma_fence_states(g, ls, k);
            assert(is_fence(g[k]) == is_fence(ls[k]));
        }
        assert(!needs_fix(g));
        fix_changes_iff_bullets(rel, t);
    }
}

/// Fixing touches only the wrong markers: the fixed file has as many lines
/// as the file it was made from, each of its lines after `fix_out` (a prose line
/// that opens with a wrong marker keeps its indentation and gets `-` in
/// place of the marker; every other line is kept as it is), read back
/// without the `\r` of a line ending; and it ends with a newline exactly
/// when the file it was made from does.
pub proof fn fix_touches_only_markers(content: Seq<char>)
    ensures
        fix_model(content) matches Some(t) ==> {
            let ls = lines(content);
            &&& lines(t).len() == ls.len()
            &&& forall|k: int|
                0 <= k < ls.len() ==> #[trigger] lines(t)[k] == if k < ls.len() - 1 || ends_with(content, "\n"@) {
                    crate::text::line_body(fix_out(ls, k))
                } else {
                    fix_out(ls, k)
                }
            &&& ends_with(t, "\n"@) == ends_with(content, "\n"@)
        },
{
    let ls = lines(content);
    if needs_fix(ls) {
        reveal_strlit("\n");
        let n = ls.len();
        let f = Seq::new(n, |i: int| fix_out(ls, i));
        let ends = ends_with(content, "\n"@);
        let t = join_nl(f) + if ends {
            "\n"@
        } else {
            Seq::<char>::empty()
        };
        assert(fix_model(content) == Some(t));
        crate::text::lemma_lines_shape(content, Seq::empty());
        assert forall|k: int| 0 <= k < n implies !crate::text::has_char(#[trigger] f[k], '\n') by {
            assert(!crate::text::has_char(ls[k], '\n'));
            if is_prose(ls, k) && bullet_of(ls[k]) is Some {
                lemma_fixed_line(ls[k]);
            }
        }
        crate::text::lemma_lines_join(f);
        assert(n > 0);
        assert(content.len() > 0) by {
            if content.len() == 0 {
                assert(lines(content) =~= Seq::<Seq<char>>::empty());
            }
        }
        assert("\n"@ =~= seq!['\n']);
        assert(ends == (content.last() == '\n')) by {
            let tail = content.subrange(content.len() - 1, content.len() as int);
            assert(tail[0] == content.last());
            if content.last() == '\n' {
                assert(tail =~= seq!['\n']);
            }
        }
        if ends {
            assert(t =~= join_nl(f) + seq!['\n']);
            assert(t.subrange(t.len() - 1, t.len() as int) =~= seq!['\n']);
        } else {
            assert(t =~= join_nl(f));
            let last = n - 1;
            if is_prose(ls, last) && bullet_of(ls[last]) is Some {
                lemma_fixed_line(ls[last]);
            }
            assert(f.last().len() > 0);
            let j = join_nl(f);
            if n > 1 {
                assert(j == join_nl(f.drop_last()) + "\n"@ + f.last());
            }
            assert(j.last() == f.last().last());
            assert(!crate::text::has_char(f.last(), '\n'));
            assert(f.last()[f.last().len() - 1] != '\n');
            if ends_with(t, "\n"@) {
                assert(t.subrange(t.len() - 1, t.len() as int)[0] == t.last());
            }
        }
    }
}

// ---------------------------------------------------------------------------
// Code fences
// ---------------------------------------------------------------------------

/// Line `l` opens or closes a code fence: after its indentation come three
/// backticks or three tildes.
pub open spec fn fence_marker(l: Seq<char>) -> bool {
    let t = trim_start(l);
    &&& t.len() >= 3
    &&& (t[0] == '`' && t[1] == '`' && t[2] == '`') || (t[0] == '~' && t[1] == '~' && t[2] == '~')
}

/// How many of the first `i` lines are fence markers.
pub open spec fn fences_before(ls: Seq<Seq<char>>, i: int) -> nat
    decreases i,
{
    if i <= 0 {
        0
    } else {
        fences_before(ls, i - 1) + if fence_marker(ls[i - 1]) {
            1nat
        } else {
            0nat
        }
    }
}

/// Line `i` is code: a fence marker, or inside a fence (an odd number of
/// markers come before it).
pub open spec fn code_line(ls: Seq<Seq<char>>, i: int) -> bool {
    fence_marker(ls[i]) || fences_before(ls, i) % 2 == 1
}

proof fn lemma_fence_marker(l: Seq<char>)
    ensures
        is_fence(l) == fence_marker(l),
{
    reveal_strlit("```");
    reveal_strlit("~~~");
    let t = trim_start(l);
    if t.len() >= 3 {
        if t[0] == '`' && t[1] == '`' && t[2] == '`' {
            assert(t.subrange(0, 3) =~= "```"@);
        }
        if t[0] == '~' && t[1] == '~' && t[2] == '~' {
            assert(t.subrange(0, 3) =~= "~~~"@);
        }
        if starts_with(t, "```"@) {
            assert(t.subrange(0, 3)[0] == t[0] && t.subrange(0, 3)[1] == t[1] && t.subrange(0, 3)[2] == t[2]);
        }
        if starts_with(t, "~~~"@) {
            assert(t.subrange(0, 3)[0] == t[0] && t.subrange(0, 3)[1] == t[1] && t.subrange(0, 3)[2] == t[2]);
        }
    }
}

proof fn lemma_in_fence_parity(ls: Seq<Seq<char>>, i: int)
    requires
        0 <= i <= ls.len(),
    ensures
        in_fence_at(ls, i) == (fences_before(ls, i) % 2 == 1),
    decreases i,
{
    if i > 0 {
        lemma_in_fence_parity(ls, i - 1);
        lemma_fence_marker(ls[i - 1]);
    }
}

/// A line is prose exactly when it is not code.
proof fn lemma_prose_is_not_code(ls: Seq<Seq<char>>, i: int)
    requires
        0 <= i < ls.len(),
    ensures
        is_prose(ls, i) == !code_line(ls, i),
{
    lemma_in_fence_parity(ls, i);
    lemma_fence_marker(ls[i]);
}

/// Every line finding is at a prose line.
proof fn lemma_body_lines(rel: Seq<char>, ls: Seq<Seq<char>>, n: int)
    requires
        n <= ls.len(),
    ensures
        forall|k: int|
            0 <= k < body_findings(rel, ls, n).len() ==> exists|j: int|
                0 <= j < n && is_prose(ls, j) && (#[trigger] body_findings(rel, ls, n)[k]).line == j + 1,
    decreases n,
{
    if n > 0 {
        lemma_body_lines(rel, ls, n - 1);
        let a = body_findings(rel, ls, n - 1);
        let b = line_findings(rel, ls, n - 1);
        let all = body_findings(rel, ls, n);
        assert(all == a + b);
        assert forall|k: int| 0 <= k < all.len() implies exists|j: int|
            0 <= j < n && is_prose(ls, j) && (#[trigger] all[k]).line == j + 1 by {
            if k < a.len() {
                assert(all[k] == a[k]);
                let j = choose|j: int| 0 <= j < n - 1 && is_prose(ls, j) && (#[trigger] a[k]).line == j + 1;
            } else {
                assert(all[k] == b[k - a.len()]);
                assert(is_prose(ls, n - 1));
                let b1: Seq<FindingModel> = match bullet_of(ls[n - 1]) {
                    Some(m) => seq![finding(rel, n, "bullet"@, bullet_msg(m))],
                    None => Seq::empty(),
                };
                let b2: Seq<FindingModel> = if html_unspaced(ls, n - 1) {
                    seq![finding(rel, n, "html-blank"@, html_msg())]
                } else {
                    Seq::empty()
                };
                assert(b == b1 + b2);
                let j = k - a.len();
                if j < b1.len() {
                    assert(b[j] == b1[j]);
                } else {
                    assert(b[j] == b2[j - b1.len()]);
                }
                assert(all[k].line == (n - 1) + 1);
            }
        }
    }
}

/// Code is not linted: no finding of a file is at a line inside a code
/// fence (of backticks or tildes) or at a fence marker, but the missing
/// heading reported at line 1; headings inside a fence do not count as
/// first-level headings; and fixing keeps every such line as it is.
pub proof fn code_is_not_linted(rel: Seq<char>, content: Seq<char>)
    ensures
        ({
            let ls = lines(content);
            let fs = lint_model(rel, content);
            &&& forall|i: int, k: int|
                1 <= i < ls.len() && #[trigger] code_line(ls, i) && 0 <= k < fs.len() ==> (#[trigger] fs[k]).line
                    != i + 1
            &&& forall|j: int|
                #[trigger] h1_lines(ls, ls.len() as int).contains(j) <==> (1 <= j <= ls.len() && !code_line(ls, j - 1)
                    && starts_with(ls[j - 1], "# "@))
            &&& fix_model(content) matches Some(t) ==> forall|i: int|
                0 <= i < ls.len() && #[trigger] code_line(ls, i) ==> lines(t)[i] == if i < ls.len() - 1
                    || ends_with(content, "\n"@) {
                    crate::text::line_body(ls[i])
                } else {
                    ls[i]
                }
        }),
{
    let ls = lines(content);
    let n = ls.len() as int;
    let fs = lint_model(rel, content);
    let body = body_findings(rel, ls, n);
    let hs = h1_lines(ls, n);
    let hd = h1_findings(rel, hs);
    assert(fs == body + hd);
    lemma_body_lines(rel, ls, n);
    lemma_h1_lines(ls, n);
    assert forall|j: int| 0 <= j < n implies #[trigger] is_prose(ls, j) == !code_line(ls, j) by {
        lemma_prose_is_not_code(ls, j);
    }
    assert forall|i: int, k: int|
        1 <= i < n && #[trigger] code_line(ls, i) && 0 <= k < fs.len() implies (#[trigger] fs[k]).line != i + 1 by {
        assert(!is_prose(ls, i));
        if k < body.len() {
            assert(fs[k] == body[k]);
            let j = choose|j: int| 0 <= j < n && is_prose(ls, j) && (#[trigger] body[k]).line == j + 1;
        } else {
            assert(fs[k] == hd[k - body.len()]);
            if hs.len() > 0 {
                let q = k - body.len();
                assert(hd[q].line == hs[q + 1]);
                assert(hs.contains(hs[q + 1]));
            }
        }
    }
    assert forall|j: int| #[trigger] hs.contains(j) <==> (1 <= j <= n && !code_line(ls, j - 1) && starts_with(
        ls[j - 1],
        "# "@,
    )) by {
        if 1 <= j <= n {
            assert(is_prose(ls, j - 1) == !code_line(ls, j - 1));
        }
    }
    fix_touches_only_markers(content);
    if let Some(t) = fix_model(content) {
        assert forall|i: int| 0 <= i < n && #[trigger] code_line(ls, i) implies lines(t)[i] == if i < n - 1
            || ends_with(content, "\n"@) {
            crate::text::line_body(ls[i])
        } else {
            ls[i]
        } by {
            assert(!is_prose(ls, i));
            assert(fix_out(ls, i) == ls[i]);
        }
    }
}

// ---------------------------------------------------------------------------
// Link targets
// ---------------------------------------------------------------------------

/// The targets of the `](target)` links of `s` from index `i` on; a target
/// may hold balanced parentheses, and an unclosed one ends the scan.
pub open spec fn targets_from(s: Seq<char>, i: int) -> Seq<Seq<char>>
    decreases s.len() - i,
{
    if i < 0 || i + 1 >= s.len() {
        Seq::empty()
    } else if s[i] == ']' && s[i + 1] == '(' {
        match close_paren(s, i + 2, 1) {
            None => Seq::empty(),
            Some(j) => {
                proof {
                    lemma_close_paren(s, i + 2, 1);
                }
                seq![s.subrange(i + 2, j)] + targets_from(s, j + 1)
            },
        }
    } else {
        targets_from(s, i + 1)
    }
}

/// Every `](target)` link target of one line, in order.
pub fn extract_targets(line: &str) -> (r: Vec<String>)
    ensures
        str_views(r@) == targets_from(line@, 0),
{
    let s = chars_of(line);
    let mut out: Vec<String> = Vec::new();
    let mut i: usize = 0;
    while s.len() > 1 && i < s.len() - 1
        invariant
            s@ == line@,
            i <= s.len(),
            targets_from(line@, 0) == str_views(out@) + targets_from(line@, i as int),
        decreases s.len() - i,
    {
        if s[i] != ']' || s[i + 1] != '(' {
            i = i + 1;
            continue;
        }
        let start = i + 2;
        let mut depth: usize = 1;
        let mut j = start;
        while j < s.len() && !(s[j] == ')' && depth == 1)
            invariant
                s@ == line@,
                start >= 2,
                start <= j <= s.len(),
                1 <= depth <= j - start + 1,
                close_paren(line@, start as int, 1) == close_paren(line@, j as int, depth as int),
            decreases s.len() - j,
        {
            if s[j] == '(' {
                depth = depth + 1;
            } else if s[j] == ')' {
                depth = depth - 1;
            }
            j = j + 1;
        }
        if j >= s.len() {
            assert(targets_from(line@, i as int) =~= Seq::<Seq<char>>::empty());
            assert(targets_from(line@, 0) =~= str_views(out@));
            return out;
        }
        let piece = crate::text::slice_of(&s, start, j);
        let ghost before = str_views(out@);
        out.push(string_of(&piece));
        assert(str_views(out@) =~= before.push(piece@));
        assert(targets_from(line@, 0) =~= str_views(out@) + targets_from(line@, j + 1));
        i = j + 1;
    }
    assert(targets_from(line@, i as int) =~= Seq::<Seq<char>>::empty());
    assert(targets_from(line@, 0) =~= str_views(out@));
    out
}

/// The index of the first whitespace character of `s` at or after `i`
/// (`s.len()` when none).
pub open spec fn ws_from(s: Seq<char>, i: int) -> int
    decreases s.len() - i,
{
    if i < 0 || i >= s.len() {
        s.len() as int
    } else if crate::text::is_ws(s[i]) {
        i
    } else {
        ws_from(s, i + 1)
    }
}

/// The index of the first `#` or `?` of `s` at or after `i` (`s.len()` when none).
pub open spec fn cut_from(s: Seq<char>, i: int) -> int
    decreases s.len() - i,
{
    if i < 0 || i >= s.len() {
        s.len() as int
    } else if s[i] == '#' || s[i] == '?' {
        i
    } else {
        cut_from(s, i + 1)
    }
}

/// ASCII lowercase of every character.
pub open spec fn lower_all(s: Seq<char>) -> Seq<char> {
    Seq::new(s.len(), |i: int| crate::text::lower(s[i]))
}

/// A target that leaves the book or stays on the page: an anchor, or a
/// scheme the book does not resolve (compared case-insensitively).
pub open spec fn is_external(t: Seq<char>) -> bool {
    let l = lower_all(t);
    ||| starts_with(t, "#"@)
    ||| starts_with(l, "http://"@)
    ||| starts_with(l, "https://"@)
    ||| starts_with(l, "mailto:"@)
    ||| starts_with(l, "//"@)
    ||| starts_with(l, "data:"@)
    ||| starts_with(l, "javascript:"@)
}

/// The path part of a local link target, before decoding: the first
/// whitespace-separated word (a title may follow), up to its anchor or query.
pub open spec fn raw_local(target: Seq<char>) -> Option<Seq<char>> {
    let u = trim_start(target);
    let t = u.take(ws_from(u, 0));
    if u.len() == 0 || is_external(t) {
        None
    } else {
        let p = t.take(cut_from(t, 0));
        if p.len() == 0 {
            None
        } else {
            Some(p)
        }
    }
}

/// `u` begins with the lowercase text `p`, ignoring ASCII case.
pub open spec fn starts_ci(u: Seq<char>, p: Seq<char>) -> bool {
    p.len() <= u.len() && forall|i: int| 0 <= i < p.len() ==> crate::text::lower(#[trigger] u[i]) == p[i]
}

/// The schemes of links that leave the book.
pub open spec fn leaving_schemes() -> Seq<Seq<char>> {
    seq!["http://"@, "https://"@, "mailto:"@, "//"@, "data:"@, "javascript:"@]
}

/// A link target that is not a file of the book: after leading whitespace,
/// an anchor `#...`, or a scheme that leaves the book, in any ASCII case.
pub open spec fn leaves_book(target: Seq<char>) -> bool {
    let u = trim_start(target);
    ||| starts_with(u, "#"@)
    ||| exists|k: int| 0 <= k < leaving_schemes().len() && starts_ci(u, #[trigger] leaving_schemes()[k])
}

proof fn lemma_ws_from_ge(u: Seq<char>, i: int)
    requires
        0 <= i <= u.len(),
    ensures
        i <= ws_from(u, i) <= u.len(),
    decreases u.len() - i,
{
    if i < u.len() && !crate::text::is_ws(u[i]) {
        lemma_ws_from_ge(u, i + 1);
    }
}

proof fn lemma_ws_from_at_least(u: Seq<char>, i: int, n: int)
    requires
        0 <= i <= n <= u.len(),
        forall|k: int| i <= k < n ==> !crate::text::is_ws(#[trigger] u[k]),
    ensures
        ws_from(u, i) >= n,
    decreases n - i,
{
    if i < n {
        lemma_ws_from_at_least(u, i + 1, n);
    } else {
        lemma_ws_from_ge(u, i);
    }
}

/// The characters of `p` from `i` on are lowercase letters, `:` or `/`.
spec fn plain_from(p: Seq<char>, i: int) -> bool
    decreases p.len() - i,
{
    if i < 0 || i >= p.len() {
        true
    } else {
        (('a' <= p[i] && p[i] <= 'z') || p[i] == ':' || p[i] == '/') && plain_from(p, i + 1)
    }
}

proof fn lemma_plain(p: Seq<char>, i: int)
    requires
        0 <= i,
        plain_from(p, i),
    ensures
        forall|j: int| i <= j < p.len() ==> !crate::text::is_ws(#[trigger] p[j]),
    decreases p.len() - i,
{
    if i < p.len() {
        lemma_plain(p, i + 1);
    }
}

proof fn lemma_schemes_plain(k: int)
    requires
        0 <= k < leaving_schemes().len(),
    ensures
        forall|j: int| 0 <= j < leaving_schemes()[k].len() ==> !crate::text::is_ws(#[trigger] leaving_schemes()[k][j]),
{
    reveal_strlit("http://");
    reveal_strlit("https://");
    reveal_strlit("mailto:");
    reveal_strlit("//");
    reveal_strlit("data:");
    reveal_strlit("javascript:");
    reveal_with_fuel(plain_from, 12);
    let p = leaving_schemes()[k];
    assert(plain_from(p, 0));
    lemma_plain(p, 0);
}

/// Links that leave the book are not checked: `local_path` gives no path
/// for them, so `check_links` reports nothing for them.
pub proof fn leaving_links_are_not_checked(
    rel: Seq<char>,
    t: crate::tree::TreeModel,
    outside: Seq<Seq<char>>,
    target: Seq<char>,
    no: int,
)
    requires
        leaves_book(target),
    ensures
        local_path_model(target) is None,
        target_finding(rel, t, outside, target, no) == Seq::<FindingModel>::empty(),
{
    reveal_strlit("#");
    reveal_strlit("http://");
    reveal_strlit("https://");
    reveal_strlit("mailto:");
    reveal_strlit("//");
    reveal_strlit("data:");
    reveal_strlit("javascript:");
    let u = trim_start(target);
    let n = ws_from(u, 0);
    lemma_ws_from_ge(u, 0);
    let tt = u.take(n);
    if starts_with(u, "#"@) {
        assert(u.subrange(0, 1)[0] == u[0]);
        assert(u[0] == '#');
        lemma_ws_from_at_least(u, 0, 1);
        assert(tt.subrange(0, 1) =~= "#"@);
    } else {
        let k = choose|k: int| 0 <= k < leaving_schemes().len() && starts_ci(u, #[trigger] leaving_schemes()[k]);
        let p = leaving_schemes()[k];
        lemma_schemes_plain(k);
        assert forall|i: int| 0 <= i < p.len() implies !crate::text::is_ws(#[trigger] u[i]) by {
            assert(crate::text::lower(u[i]) == p[i]);
            assert(!crate::text::is_ws(p[i]));
            if crate::text::is_ws(u[i]) {
                assert(!('A' <= u[i] && u[i] <= 'Z'));
                assert(crate::text::lower(u[i]) == u[i]);
            }
        }
        lemma_ws_from_at_least(u, 0, p.len() as int);
        let l = lower_all(tt);
        assert(l.subrange(0, p.len() as int) =~= p) by {
            assert forall|i: int| 0 <= i < p.len() implies l.subrange(0, p.len() as int)[i] == p[i] by {
                assert(tt[i] == u[i]);
                assert(crate::text::lower(u[i]) == p[i]);
            }
        }
        assert(starts_with(l, p));
    }
    assert(is_external(tt));
}

// ---------------------------------------------------------------------------
// Percent decoding
// ---------------------------------------------------------------------------

/// The value of a hexadecimal digit byte.
pub open spec fn hex_val(b: u8) -> Option<u8> {
    if 0x30 <= b <= 0x39 {
        Some((b - 0x30) as u8)
    } else if 0x61 <= b <= 0x66 {
        Some((b - 0x61 + 10) as u8)
    } else if 0x41 <= b <= 0x46 {
        Some((b - 0x41 + 10) as u8)
    } else {
        None
    }
}

/// `u8::from_str_radix(.., 16)` on the two bytes `a b`: two hex digits, or
/// a `+` sign and one digit.
pub open spec fn hex_pair(a: u8, b: u8) -> Option<u8> {
    if a == 0x2b {
        hex_val(b)
    } else {
        match (hex_val(a), hex_val(b)) {
            (Some(x), Some(y)) => Some((x * 16 + y) as u8),
            _ => None,
        }
    }
}

/// The bytes of `b` from `i` on with each `%XX` escape replaced by its byte.
pub open spec fn pct_bytes(b: Seq<u8>, i: int) -> Seq<u8>
    decreases b.len() - i,
{
    if i < 0 || i >= b.len() {
        Seq::empty()
    } else if b[i] == 0x25 && i + 2 < b.len() && hex_pair(b[i + 1], b[i + 2]) is Some {
        seq![hex_pair(b[i + 1], b[i + 2])->0] + pct_bytes(b, i + 3)
    } else {
        seq![b[i]] + pct_bytes(b, i + 1)
    }
}

/// Index `k` of the UTF-8 bytes `b` starts a character or ends the text
/// (`str::is_char_boundary`).
pub open spec fn boundary(b: Seq<u8>, k: int) -> bool {
    k == b.len() || (0 <= k < b.len() && !vstd::utf8::is_continuation_byte(b[k]))
}

/// Decoding `b` from `i` on only slices the text at character boundaries:
/// each escape candidate `%XY` that is looked at lies between two of them.
pub open spec fn pct_safe(b: Seq<u8>, i: int) -> bool
    decreases b.len() - i,
{
    if i < 0 || i >= b.len() {
        true
    } else if b[i] == 0x25 && i + 2 < b.len() {
        &&& boundary(b, i + 1)
        &&& boundary(b, i + 3)
        &&& if hex_pair(b[i + 1], b[i + 2]) is Some {
            pct_safe(b, i + 3)
        } else {
            pct_safe(b, i + 1)
        }
    } else {
        pct_safe(b, i + 1)
    }
}

/// A link path with its escapes decoded; the path itself when the decoded
/// bytes are no valid UTF-8.
pub open spec fn link_decode(s: Seq<char>) -> Seq<char> {
    let d = pct_bytes(vstd::utf8::encode_utf8(s), 0);
    if vstd::utf8::valid_utf8(d) {
        vstd::utf8::decode_utf8(d)
    } else {
        s
    }
}

/// The local path named by a link target, decoded; `None` for external
/// links and anchors.
pub open spec fn local_path_model(target: Seq<char>) -> Option<Seq<char>> {
    match raw_local(target) {
        Some(p) => Some(link_decode(p)),
        None => None,
    }
}

/// `String::from_utf8`, as an option.
#[verifier::external_body]
fn string_from_utf8(bytes: Vec<u8>) -> (r: Option<String>)
    ensures
        r is Some <==> vstd::utf8::valid_utf8(bytes@),
        r matches Some(s) ==> s@ == vstd::utf8::decode_utf8(bytes@),
{
    String::from_utf8(bytes).ok()
}

fn hex_val_exec(b: u8) -> (r: Option<u8>)
    ensures
        r == hex_val(b),
{
    if 0x30 <= b && b <= 0x39 {
        Some(b - 0x30)
    } else if 0x61 <= b && b <= 0x66 {
        Some(b - 0x61 + 10)
    } else if 0x41 <= b && b <= 0x46 {
        Some(b - 0x41 + 10)
    } else {
        None
    }
}

fn hex_pair_exec(a: u8, b: u8) -> (r: Option<u8>)
    ensures
        r == hex_pair(a, b),
{
    if a == 0x2b {
        return hex_val_exec(b);
    }
    match (hex_val_exec(a), hex_val_exec(b)) {
        (Some(x), Some(y)) => Some(x * 16 + y),
        _ => None,
    }
}

/// The bytes of `s` with each `%XX` escape replaced by its byte.
pub(crate) fn pct_decode_bytes(s: &str) -> (r: Vec<u8>)
    ensures
        r@ == pct_bytes(vstd::utf8::encode_utf8(s@), 0),
{
    let bytes = s.as_bytes();
    let ghost b = vstd::utf8::encode_utf8(s@);
    assert(bytes@ == b);
    let mut out: Vec<u8> = Vec::new();
    let mut i: usize = 0;
    while i < bytes.len()
        invariant
            bytes@ == b,
            i <= bytes.len(),
            pct_bytes(b, 0) == out@ + pct_bytes(b, i as int),
        decreases bytes.len() - i,
    {
        if bytes[i] == 0x25 && bytes.len() - i > 2 {
            if let Some(v) = hex_pair_exec(bytes[i + 1], bytes[i + 2]) {
                let ghost o0 = out@;
                out.push(v);
                assert(o0 + pct_bytes(b, i as int) =~= out@ + pct_bytes(b, i + 3));
                i = i + 3;
                continue;
            }
        }
        let ghost o0 = out@;
        out.push(bytes[i]);
        assert(o0 + pct_bytes(b, i as int) =~= out@ + pct_bytes(b, i + 1));
        i = i + 1;
    }
    assert(out@ =~= pct_bytes(b, 0));
    out
}

/// Decodes `%XX` escapes in a link path: the book has file names in
/// Chinese, and a link to one may be written encoded.
fn percent_decode(s: &str) -> (r: String)
    requires
        pct_safe(vstd::utf8::encode_utf8(s@), 0),
    ensures
        r@ == link_decode(s@),
{
    let out = pct_decode_bytes(s);
    match string_from_utf8(out) {
        Some(t) => t,
        None => s.to_owned(),
    }
}

fn lower_exec(c: char) -> (r: char)
    ensures
        r == crate::text::lower(c),
{
    if 'A' <= c && c <= 'Z' {
        let u: u8 = (c as u8) + 32;
        u as char
    } else {
        c
    }
}

fn raw_local_exec(tv: &Vec<char>) -> (r: Option<Vec<char>>)
    ensures
        crate::md::opt_view(r) == raw_local(tv@),
{
    let u = trim_start_exec(tv);
    if u.len() == 0 {
        return None;
    }
    let mut k: usize = 0;
    while k < u.len() && !crate::text::is_whitespace(u[k])
        invariant
            k <= u.len(),
            ws_from(u@, 0) == ws_from(u@, k as int),
        decreases u.len() - k,
    {
        k = k + 1;
    }
    let t = crate::text::slice_of(&u, 0, k);
    assert(t@ == u@.take(ws_from(u@, 0)));
    let mut low: Vec<char> = Vec::new();
    let mut q: usize = 0;
    while q < t.len()
        invariant
            q <= t.len(),
            low@ == lower_all(t@).take(q as int),
        decreases t.len() - q,
    {
        low.push(lower_exec(t[q]));
        assert(lower_all(t@).take(q + 1) =~= lower_all(t@).take(q as int).push(crate::text::lower(t@[q as int])));
        q = q + 1;
    }
    assert(low@ =~= lower_all(t@));
    if starts_with_str(&t, "#") || starts_with_str(&low, "http://") || starts_with_str(&low, "https://")
        || starts_with_str(&low, "mailto:") || starts_with_str(&low, "//") || starts_with_str(&low, "data:")
        || starts_with_str(&low, "javascript:") {
        return None;
    }
    let mut c: usize = 0;
    while c < t.len() && t[c] != '#' && t[c] != '?'
        invariant
            c <= t.len(),
            cut_from(t@, 0) == cut_from(t@, c as int),
        decreases t.len() - c,
    {
        c = c + 1;
    }
    if c == 0 {
        return None;
    }
    let p = crate::text::slice_of(&t, 0, c);
    assert(p@ == t@.take(cut_from(t@, 0)));
    Some(p)
}

/// The local path that a link target names, with its escapes decoded;
/// `None` for external links, anchors and empty paths.
pub fn local_path(target: &str) -> (r: Option<String>)
    requires
        raw_local(target@) matches Some(p) ==> pct_safe(vstd::utf8::encode_utf8(p), 0),
    ensures
        crate::md::opt_str_view(r) == local_path_model(target@),
{
    let tv = chars_of(target);
    match raw_local_exec(&tv) {
        Some(p) => {
            let ps = string_of(&p);
            Some(percent_decode(ps.as_str()))
        },
        None => None,
    }
}

fn boundary_exec(b: &[u8], k: usize) -> (r: bool)
    ensures
        r == boundary(b@, k as int),
{
    k == b.len() || (k < b.len() && !(0x80 <= b[k] && b[k] <= 0xbf))
}

fn pct_safe_exec(s: &str) -> (r: bool)
    ensures
        r == pct_safe(vstd::utf8::encode_utf8(s@), 0),
{
    let bytes = s.as_bytes();
    let ghost b = vstd::utf8::encode_utf8(s@);
    assert(bytes@ == b);
    let mut i: usize = 0;
    while i < bytes.len()
        invariant
            bytes@ == b,
            b == vstd::utf8::encode_utf8(s@),
            i <= bytes.len(),
            pct_safe(b, 0) == pct_safe(b, i as int),
        decreases bytes.len() - i,
    {
        if bytes[i] == 0x25 && bytes.len() - i > 2 {
            if !boundary_exec(bytes, i + 1) || !boundary_exec(bytes, i + 3) {
                assert(!pct_safe(b, i as int));
                return false;
            }
            if hex_pair_exec(bytes[i + 1], bytes[i + 2]).is_some() {
                i = i + 3;
            } else {
                i = i + 1;
            }
        } else {
            i = i + 1;
        }
    }
    true
}

// ---------------------------------------------------------------------------
// Resolving links
// ---------------------------------------------------------------------------

/// The pieces of `s` between `/`s, after a partial piece `cur`.
pub open spec fn parts_from(s: Seq<char>, cur: Seq<char>) -> Seq<Seq<char>>
    decreases s.len(),
{
    if s.len() == 0 {
        seq![cur]
    } else if s[0] == '/' {
        seq![cur] + parts_from(s.drop_first(), Seq::empty())
    } else {
        parts_from(s.drop_first(), cur.push(s[0]))
    }
}

/// The components of a path: the pieces between its `/`s, empty ones included.
pub open spec fn path_parts(s: Seq<char>) -> Seq<Seq<char>> {
    parts_from(s, Seq::empty())
}

/// Components joined by `/`.
pub open spec fn join_path(cs: Seq<Seq<char>>) -> Seq<char>
    decreases cs.len(),
{
    if cs.len() == 0 {
        Seq::empty()
    } else {
        crate::tree::join(join_path(cs.drop_last()), cs.last())
    }
}

/// Where a walk over path components ends: at a path inside `src/`, above
/// `src/` with the components still to walk from there, or nowhere.
pub enum Walked {
    Inside(Seq<Seq<char>>),
    Outside(Seq<Seq<char>>),
    Failed,
}

/// Walks the components `cs` from the directory `stack`, as the file system
/// does when it opens a path: `.` and a trailing `/` need a directory, `..`
/// needs a directory and goes up, and empty pieces are skipped. A `..` at
/// `src/` itself leaves the snapshot: the walk stops there with the
/// components that remain.
pub open spec fn walk(t: crate::tree::TreeModel, stack: Seq<Seq<char>>, cs: Seq<Seq<char>>) -> Walked
    decreases cs.len(),
{
    if cs.len() == 0 {
        Walked::Inside(stack)
    } else {
        let c = cs[0];
        let rest = cs.drop_first();
        let here = crate::tree::is_dir(t, join_path(stack));
        if c.len() == 0 {
            if rest.len() == 0 && !here {
                Walked::Failed
            } else {
                walk(t, stack, rest)
            }
        } else if c == "."@ {
            if here {
                walk(t, stack, rest)
            } else {
                Walked::Failed
            }
        } else if c == ".."@ {
            if stack.len() == 0 {
                Walked::Outside(cs)
            } else if here {
                walk(t, stack.drop_last(), rest)
            } else {
                Walked::Failed
            }
        } else {
            walk(t, stack.push(c), rest)
        }
    }
}

/// The directory of the file `rel` (`Path::parent`).
pub open spec fn dir_of(rel: Seq<char>) -> Seq<char> {
    match crate::text::rfind(rel, "/"@) {
        Some(i) => rel.take(i),
        None => Seq::empty(),
    }
}

/// The components that a link path names: from `src/` when it starts with
/// `/`, else from the directory of the linking file.
pub open spec fn link_comps(dir: Seq<char>, p: Seq<char>) -> Seq<Seq<char>> {
    if p.len() > 0 && p[0] == '/' {
        path_parts(p.drop_first())
    } else {
        path_parts(dir) + path_parts(p)
    }
}

/// The link path `p`, written in a file of directory `dir`, names something
/// that exists in the snapshot.
pub open spec fn inside_exists(t: crate::tree::TreeModel, dir: Seq<char>, p: Seq<char>) -> bool {
    match walk(t, Seq::empty(), link_comps(dir, p)) {
        Walked::Inside(st) => crate::tree::path_exists(t, join_path(st)),
        _ => false,
    }
}

/// Where the link path `p` of a file in `dir` leads above `src/`, as a path
/// relative to `src/`; `None` when it stays inside.
pub open spec fn outside_query(t: crate::tree::TreeModel, dir: Seq<char>, p: Seq<char>) -> Option<Seq<char>> {
    match walk(t, Seq::empty(), link_comps(dir, p)) {
        Walked::Outside(rest) => Some(crate::text::join_with(rest, "/"@)),
        _ => None,
    }
}

/// The directory that the path `d` names inside `src/`, written without
/// `.`, `..` or empty components, as the file system resolves it; `None`
/// when it names no directory there.
pub open spec fn dir_at(t: crate::tree::TreeModel, d: Seq<char>) -> Option<Seq<char>> {
    match walk(t, Seq::empty(), path_parts(d)) {
        Walked::Inside(st) => if crate::tree::is_dir(t, join_path(st)) {
            Some(join_path(st))
        } else {
            None
        },
        _ => None,
    }
}

/// The link path `p` of a file in `dir` names something: inside the
/// snapshot, or above `src/` where `outside` lists what exists.
pub open spec fn link_exists(t: crate::tree::TreeModel, outside: Seq<Seq<char>>, dir: Seq<char>, p: Seq<char>) -> bool {
    ||| inside_exists(t, dir, p)
    ||| outside_query(t, dir, p) matches Some(q) && outside.contains(q)
}

pub open spec fn link_msg(target: Seq<char>) -> Seq<char> {
    "链接指向的文件不存在："@ + target
}

/// The finding for one link target on line `no`: a local path that names nothing.
pub open spec fn target_finding(
    rel: Seq<char>,
    t: crate::tree::TreeModel,
    outside: Seq<Seq<char>>,
    target: Seq<char>,
    no: int,
) -> Seq<FindingModel> {
    match local_path_model(target) {
        Some(p) => if link_exists(t, outside, dir_of(rel), p) {
            Seq::empty()
        } else {
            seq![finding(rel, no, "link"@, link_msg(target))]
        },
        None => Seq::empty(),
    }
}

/// The findings for the targets `ts` of line `no`, in order.
pub open spec fn targets_findings(
    rel: Seq<char>,
    t: crate::tree::TreeModel,
    outside: Seq<Seq<char>>,
    ts: Seq<Seq<char>>,
    no: int,
) -> Seq<FindingModel>
    decreases ts.len(),
{
    if ts.len() == 0 {
        Seq::empty()
    } else {
        targets_findings(rel, t, outside, ts.drop_last(), no) + target_finding(rel, t, outside, ts.last(), no)
    }
}

/// The link findings of the first `n` lines; fenced code is not read.
pub open spec fn links_upto(
    rel: Seq<char>,
    t: crate::tree::TreeModel,
    outside: Seq<Seq<char>>,
    ls: Seq<Seq<char>>,
    n: int,
) -> Seq<FindingModel>
    decreases n,
{
    if n <= 0 {
        Seq::empty()
    } else {
        links_upto(rel, t, outside, ls, n - 1) + if is_prose(ls, n - 1) {
            targets_findings(rel, t, outside, targets_from(ls[n - 1], 0), n)
        } else {
            Seq::empty()
        }
    }
}

/// Everything `check_links` reports for file `rel` with `content`, when the
/// paths above `src/` that exist are `outside`.
pub open spec fn links_model(
    rel: Seq<char>,
    content: Seq<char>,
    t: crate::tree::TreeModel,
    outside: Seq<Seq<char>>,
) -> Seq<FindingModel> {
    links_upto(rel, t, outside, lines(content), lines(content).len() as int)
}

/// The path above `src/` that one link target leads to, if any.
pub open spec fn target_query(rel: Seq<char>, t: crate::tree::TreeModel, target: Seq<char>) -> Seq<Seq<char>> {
    match local_path_model(target) {
        Some(p) => match outside_query(t, dir_of(rel), p) {
            Some(q) => seq![q],
            None => Seq::empty(),
        },
        None => Seq::empty(),
    }
}

/// The paths above `src/` that the targets `ts` lead to, in order.
pub open spec fn targets_queries(rel: Seq<char>, t: crate::tree::TreeModel, ts: Seq<Seq<char>>) -> Seq<Seq<char>>
    decreases ts.len(),
{
    if ts.len() == 0 {
        Seq::empty()
    } else {
        targets_queries(rel, t, ts.drop_last()) + target_query(rel, t, ts.last())
    }
}

/// The paths above `src/` that the links of the first `n` lines lead to.
pub open spec fn queries_upto(rel: Seq<char>, t: crate::tree::TreeModel, ls: Seq<Seq<char>>, n: int) -> Seq<Seq<char>>
    decreases n,
{
    if n <= 0 {
        Seq::empty()
    } else {
        queries_upto(rel, t, ls, n - 1) + if is_prose(ls, n - 1) {
            targets_queries(rel, t, targets_from(ls[n - 1], 0))
        } else {
            Seq::empty()
        }
    }
}

/// The paths above `src/`, relative to `src/`, that the links of file `rel`
/// with `content` lead to, in order.
pub open spec fn queries_model(rel: Seq<char>, content: Seq<char>, t: crate::tree::TreeModel) -> Seq<Seq<char>> {
    queries_upto(rel, t, lines(content), lines(content).len() as int)
}

/// Every local link path of the prose of `content` can be decoded without
/// slicing inside a character.
pub open spec fn links_decodable(content: Seq<char>) -> bool {
    let ls = lines(content);
    forall|i: int, k: int|
        0 <= i < ls.len() && is_prose(ls, i) && 0 <= k < targets_from(ls[i], 0).len() ==> (
        #[trigger] raw_local(targets_from(ls[i], 0)[k]) matches Some(p) ==> pct_safe(
            vstd::utf8::encode_utf8(p),
            0,
        ))
}

fn path_parts_exec(s: &Vec<char>) -> (r: Vec<Vec<char>>)
    ensures
        views(r@) == path_parts(s@),
{
    let mut out: Vec<Vec<char>> = Vec::new();
    let mut cur: Vec<char> = Vec::new();
    let mut i: usize = 0;
    assert(s@.skip(0) =~= s@);
    assert(views(out@) + parts_from(s@, cur@) =~= parts_from(s@, cur@));
    while i < s.len()
        invariant
            i <= s.len(),
            path_parts(s@) == views(out@) + parts_from(s@.skip(i as int), cur@),
        decreases s.len() - i,
    {
        let ghost rest = s@.skip(i as int);
        assert(rest.drop_first() == s@.skip(i + 1));
        if s[i] == '/' {
            let ghost before = views(out@);
            let ghost cv = cur@;
            out.push(cur);
            assert(views(out@) =~= before + seq![cv]);
            cur = Vec::new();
            assert(cur@ =~= Seq::<char>::empty());
            assert(path_parts(s@) =~= views(out@) + parts_from(s@.skip(i + 1), cur@));
        } else {
            cur.push(s[i]);
        }
        i = i + 1;
    }
    assert(s@.skip(s.len() as int) =~= Seq::<char>::empty());
    let ghost before = views(out@);
    out.push(cur);
    assert(views(out@) =~= path_parts(s@));
    out
}

fn join_path_exec(cs: &Vec<Vec<char>>) -> (r: String)
    requires
        forall|k: int| 0 <= k < cs.len() ==> (#[trigger] cs@[k])@.len() > 0,
    ensures
        r@ == join_path(views(cs@)),
{
    let mut out: Vec<char> = Vec::new();
    let mut i: usize = 0;
    let ghost v = views(cs@);
    assert(v.take(0) =~= Seq::<Seq<char>>::empty());
    while i < cs.len()
        invariant
            i <= cs.len(),
            v == views(cs@),
            forall|k: int| 0 <= k < cs.len() ==> (#[trigger] cs@[k])@.len() > 0,
            out@ == join_path(v.take(i as int)),
        decreases cs.len() - i,
    {
        assert(v.take(i + 1).drop_last() =~= v.take(i as int));
        if i > 0 {
            out.push('/');
        }
        crate::text::append(&mut out, &cs[i]);
        proof {
            if i == 0 {
                assert(out@ =~= crate::tree::join(Seq::empty(), v[0]));
            } else {
                let pre = v.take(i as int);
                assert(pre.drop_last() =~= v.take(i - 1));
                assert(pre.last() == v[i - 1]);
                assert(join_path(pre).len() > 0);
                assert(out@ =~= crate::tree::join(join_path(pre), v[i as int]));
            }
        }
        i = i + 1;
    }
    assert(v.take(cs.len() as int) =~= v);
    string_of(&out)
}

/// Where a walk ends, with the components as buffers.
enum WalkEnd {
    Inside(Vec<Vec<char>>),
    Outside(Vec<Vec<char>>),
    Failed,
}

spec fn walk_end_view(w: WalkEnd) -> Walked {
    match w {
        WalkEnd::Inside(v) => Walked::Inside(views(v@)),
        WalkEnd::Outside(v) => Walked::Outside(views(v@)),
        WalkEnd::Failed => Walked::Failed,
    }
}

/// A copy of the components of `comps` from `k` on.
fn comps_from(comps: &Vec<Vec<char>>, k: usize) -> (r: Vec<Vec<char>>)
    requires
        k <= comps.len(),
    ensures
        views(r@) == views(comps@).skip(k as int),
{
    let ghost all = views(comps@);
    let mut out: Vec<Vec<char>> = Vec::new();
    let mut j: usize = k;
    assert(all.skip(k as int).take(0) =~= views(out@));
    while j < comps.len()
        invariant
            k <= j <= comps.len(),
            all == views(comps@),
            views(out@) == all.skip(k as int).take(j - k),
        decreases comps.len() - j,
    {
        let ghost o0 = views(out@);
        let copy = crate::text::slice_of(&comps[j], 0, comps[j].len());
        assert(copy@ =~= comps@[j as int]@);
        out.push(copy);
        assert(views(out@) =~= o0.push(all[j as int]));
        assert(all.skip(k as int).take(j + 1 - k) =~= all.skip(k as int).take(j - k).push(all[j as int]));
        j = j + 1;
    }
    assert(all.skip(k as int).take(comps.len() - k) =~= all.skip(k as int));
    out
}

fn walk_exec(tree: &crate::tree::SrcTree, comps: &Vec<Vec<char>>) -> (r: WalkEnd)
    ensures
        walk_end_view(r) == walk(tree@, Seq::empty(), views(comps@)),
        r matches WalkEnd::Inside(st) ==> forall|k: int| 0 <= k < st.len() ==> (#[trigger] st@[k])@.len() > 0,
{
    let ghost all = views(comps@);
    let mut stack: Vec<Vec<char>> = Vec::new();
    let mut k: usize = 0;
    assert(all.skip(0) =~= all);
    assert(views(stack@) =~= Seq::<Seq<char>>::empty());
    while k < comps.len()
        invariant
            k <= comps.len(),
            all == views(comps@),
            forall|j: int| 0 <= j < stack.len() ==> (#[trigger] stack@[j])@.len() > 0,
            walk(tree@, Seq::empty(), all) == walk(tree@, views(stack@), all.skip(k as int)),
        decreases comps.len() - k,
    {
        let ghost rest = all.skip(k as int);
        assert(rest[0] == comps@[k as int]@);
        assert(rest.drop_first() =~= all.skip(k + 1));
        let here = {
            let p = join_path_exec(&stack);
            tree.is_dir(p.as_str())
        };
        let c = &comps[k];
        if c.len() == 0 {
            if k + 1 == comps.len() && !here {
                return WalkEnd::Failed;
            }
        } else if crate::text::eq_str(c, ".") {
            if !here {
                return WalkEnd::Failed;
            }
        } else if crate::text::eq_str(c, "..") {
            if stack.len() == 0 {
                return WalkEnd::Outside(comps_from(comps, k));
            }
            if !here {
                return WalkEnd::Failed;
            }
            let ghost sv = views(stack@);
            stack.pop();
            assert(views(stack@) =~= sv.drop_last());
        } else {
            let ghost sv = views(stack@);
            let copy = crate::text::slice_of(c, 0, c.len());
            assert(copy@ =~= c@);
            stack.push(copy);
            assert(views(stack@) =~= sv.push(c@));
        }
        k = k + 1;
    }
    assert(all.skip(comps.len() as int) =~= Seq::<Seq<char>>::empty());
    WalkEnd::Inside(stack)
}

fn dir_of_exec(rel: &Vec<char>) -> (r: Vec<char>)
    ensures
        r@ == dir_of(rel@),
{
    match crate::text::rfind_str(rel, "/") {
        Some(i) => {
            proof {
                reveal_strlit("/");
                crate::text::lemma_rfind_upto_bounds(rel@, "/"@, rel@.len() - 1);
            }
            crate::text::slice_of(rel, 0, i)
        },
        None => Vec::new(),
    }
}

/// Resolves the link path `p` of a file in `dir`: whether it names
/// something inside the snapshot, and the path above `src/` it leads to.
fn resolve_exec(tree: &crate::tree::SrcTree, dir: &Vec<char>, p: &Vec<char>) -> (r: (bool, Option<String>))
    ensures
        r.0 == inside_exists(tree@, dir@, p@),
        crate::md::opt_str_view(r.1) == outside_query(tree@, dir@, p@),
{
    let comps = if p.len() > 0 && p[0] == '/' {
        let rest = crate::text::skip(p, 1);
        assert(rest@ =~= p@.drop_first());
        path_parts_exec(&rest)
    } else {
        let mut a = path_parts_exec(dir);
        let b = path_parts_exec(p);
        let ghost av = views(a@);
        let mut j: usize = 0;
        while j < b.len()
            invariant
                j <= b.len(),
                views(a@) == av + views(b@).take(j as int),
            decreases b.len() - j,
        {
            let ghost a0 = views(a@);
            let copy = crate::text::slice_of(&b[j], 0, b[j].len());
            assert(copy@ =~= b@[j as int]@);
            a.push(copy);
            assert(views(a@) =~= a0.push(b@[j as int]@));
            assert(views(b@).take(j + 1) =~= views(b@).take(j as int).push(b@[j as int]@));
            j = j + 1;
        }
        assert(views(b@).take(b.len() as int) =~= views(b@));
        a
    };
    match walk_exec(tree, &comps) {
        WalkEnd::Inside(st) => {
            let q = join_path_exec(&st);
            (tree.path_exists(q.as_str()), None)
        },
        WalkEnd::Outside(rest) => {
            let mut parts: Vec<String> = Vec::new();
            let mut j: usize = 0;
            let ghost rv = views(rest@);
            assert(rv.take(0) =~= str_views(parts@));
            while j < rest.len()
                invariant
                    j <= rest.len(),
                    rv == views(rest@),
                    str_views(parts@) == rv.take(j as int),
                decreases rest.len() - j,
            {
                let ghost p0 = str_views(parts@);
                parts.push(string_of(&rest[j]));
                assert(str_views(parts@) =~= p0.push(rv[j as int]));
                assert(rv.take(j + 1) =~= rv.take(j as int).push(rv[j as int]));
                j = j + 1;
            }
            assert(rv.take(rest.len() as int) =~= rv);
            (false, Some(crate::text::join_strings(&parts, "/")))
        },
        WalkEnd::Failed => (false, None),
    }
}

/// The directory that the path `d` names inside `src/`, as the file system
/// resolves it.
pub fn resolve_dir(tree: &crate::tree::SrcTree, d: &str) -> (r: Option<String>)
    ensures
        crate::md::opt_str_view(r) == dir_at(tree@, d@),
{
    let dv = chars_of(d);
    let comps = path_parts_exec(&dv);
    match walk_exec(tree, &comps) {
        WalkEnd::Inside(st) => {
            let q = join_path_exec(&st);
            if tree.is_dir(q.as_str()) {
                Some(q)
            } else {
                None
            }
        },
        _ => None,
    }
}

/// Whether `v` holds `s`.
fn holds(v: &Vec<String>, s: &str) -> (r: bool)
    ensures
        r == str_views(v@).contains(s@),
{
    let mut i: usize = 0;
    while i < v.len()
        invariant
            i <= v.len(),
            forall|j: int| 0 <= j < i ==> v@[j]@ != s@,
        decreases v.len() - i,
    {
        if crate::text::str_eq(v[i].as_str(), s) {
            assert(str_views(v@)[i as int] == s@);
            return true;
        }
        i = i + 1;
    }
    false
}

fn link_message(target: &str) -> (r: String)
    ensures
        r@ == link_msg(target@),
{
    let mut v = chars_of("链接指向的文件不存在：");
    push_str(&mut v, target);
    string_of(&v)
}

/// The link findings of one file, and the paths above `src/` its links lead to.
fn scan_links(rel: &str, content: &str, src: &crate::tree::SrcTree, outside: &Vec<String>) -> (r: (
    Vec<Finding>,
    Vec<String>,
))
    requires
        links_decodable(content@),
    ensures
        finding_views(r.0@) == links_model(rel@, content@, src@, str_views(outside@)),
        str_views(r.1@) == queries_model(rel@, content@, src@),
{
    let ghost o = str_views(outside@);
    let ls = lines_of_str(content);
    let ghost l = lines(content@);
    let relv = chars_of(rel);
    let dir = dir_of_exec(&relv);
    let mut findings: Vec<Finding> = Vec::new();
    let mut queries: Vec<String> = Vec::new();
    let mut in_fence = false;
    let mut i: usize = 0;
    while i < ls.len()
        invariant
            i <= ls.len(),
            views(ls@) == l,
            l == lines(content@),
            o == str_views(outside@),
            links_decodable(content@),
            dir@ == dir_of(rel@),
            in_fence == in_fence_at(l, i as int),
            finding_views(findings@) == links_upto(rel@, src@, o, l, i as int),
            str_views(queries@) == queries_upto(rel@, src@, l, i as int),
        decreases ls.len() - i,
    {
        assert(ls@[i as int]@ == l[i as int]);
        let ghost base = finding_views(findings@);
        let ghost qbase = str_views(queries@);
        if is_fence_exec(&ls[i]) {
            in_fence = !in_fence;
            assert(finding_views(findings@) =~= links_upto(rel@, src@, o, l, i + 1));
            assert(str_views(queries@) =~= queries_upto(rel@, src@, l, i + 1));
        } else if in_fence {
            assert(finding_views(findings@) =~= links_upto(rel@, src@, o, l, i + 1));
            assert(str_views(queries@) =~= queries_upto(rel@, src@, l, i + 1));
        } else {
            let line = string_of(&ls[i]);
            let ts = extract_targets(line.as_str());
            let ghost tv = str_views(ts@);
            let no = i + 1;
            let mut k: usize = 0;
            assert(tv.take(0) =~= Seq::<Seq<char>>::empty());
            while k < ts.len()
                invariant
                    k <= ts.len(),
                    tv == str_views(ts@),
                    tv == targets_from(l[i as int], 0),
                    0 <= i < l.len(),
                    l == lines(content@),
                    o == str_views(outside@),
                    is_prose(l, i as int),
                    no == i + 1,
                    links_decodable(content@),
                    dir@ == dir_of(rel@),
                    finding_views(findings@) == base + targets_findings(rel@, src@, o, tv.take(k as int), no as int),
                    str_views(queries@) == qbase + targets_queries(rel@, src@, tv.take(k as int)),
                decreases ts.len() - k,
            {
                let ghost f0 = finding_views(findings@);
                let ghost q0 = str_views(queries@);
                assert(tv.take(k + 1).drop_last() =~= tv.take(k as int));
                assert(tv.take(k + 1).last() == ts@[k as int]@);
                assert(raw_local(targets_from(l[i as int], 0)[k as int]) matches Some(p) ==> pct_safe(
                    vstd::utf8::encode_utf8(p),
                    0,
                ));
                let ghost tf = target_finding(rel@, src@, o, ts@[k as int]@, no as int);
                let ghost tq = target_query(rel@, src@, ts@[k as int]@);
                match local_path(ts[k].as_str()) {
                    Some(p) => {
                        let pv = chars_of(p.as_str());
                        let (inside, q) = resolve_exec(src, &dir, &pv);
                        let found = match &q {
                            Some(qs) => inside || holds(outside, qs.as_str()),
                            None => inside,
                        };
                        if !found {
                            let msg = link_message(ts[k].as_str());
                            let f = Finding::new(rel, no, "link", msg);
                            findings.push(f);
                            assert(finding_views(findings@) =~= f0.push(f@));
                        }
                        match q {
                            Some(qs) => {
                                queries.push(qs);
                            },
                            None => {},
                        }
                    },
                    None => {},
                }
                assert(finding_views(findings@) =~= f0 + tf);
                assert(str_views(queries@) =~= q0 + tq);
                assert(finding_views(findings@) =~= base + targets_findings(rel@, src@, o, tv.take(k + 1), no as int));
                assert(str_views(queries@) =~= qbase + targets_queries(rel@, src@, tv.take(k + 1)));
                k = k + 1;
            }
            assert(tv.take(ts.len() as int) =~= tv);
            assert(finding_views(findings@) =~= links_upto(rel@, src@, o, l, i + 1));
            assert(str_views(queries@) =~= queries_upto(rel@, src@, l, i + 1));
        }
        i = i + 1;
    }
    (findings, queries)
}

/// Checks that the relative links of one file point to files that exist.
///
/// Only links inside the book are checked: links to other sites would need
/// the network. A path is resolved from the linking file's directory, or
/// from `src/` when it starts with `/`; fenced code is not read. A path that
/// leaves `src/` upwards exists when `outside` lists it (see `link_queries`).
pub fn check_links(rel: &str, content: &str, src: &crate::tree::SrcTree, outside: &Vec<String>) -> (r: Vec<Finding>)
    requires
        links_decodable(content@),
    ensures
        finding_views(r@) == links_model(rel@, content@, src@, str_views(outside@)),
{
    scan_links(rel, content, src, outside).0
}

/// The paths above `src/`, relative to `src/` (such as `../README.md`), that
/// the links of one file lead to, in order: the ones that the file system
/// must be asked about.
pub fn link_queries(rel: &str, content: &str, src: &crate::tree::SrcTree) -> (r: Vec<String>)
    requires
        links_decodable(content@),
    ensures
        str_views(r@) == queries_model(rel@, content@, src@),
{
    let none: Vec<String> = Vec::new();
    scan_links(rel, content, src, &none).1
}

/// Whether every local link path in the prose of `content` can be decoded
/// without slicing inside a character, which `check_links` needs.
pub fn links_are_decodable(content: &str) -> (r: bool)
    ensures
        r == links_decodable(content@),
{
    let ls = lines_of_str(content);
    let ghost l = lines(content@);
    let mut in_fence = false;
    let mut i: usize = 0;
    while i < ls.len()
        invariant
            i <= ls.len(),
            views(ls@) == l,
            l == lines(content@),
            in_fence == in_fence_at(l, i as int),
            forall|j: int, k: int|
                0 <= j < i && is_prose(l, j) && 0 <= k < targets_from(l[j], 0).len() ==> (
                #[trigger] raw_local(targets_from(l[j], 0)[k]) matches Some(p) ==> pct_safe(
                    vstd::utf8::encode_utf8(p),
                    0,
                )),
        decreases ls.len() - i,
    {
        assert(ls@[i as int]@ == l[i as int]);
        if is_fence_exec(&ls[i]) {
            in_fence = !in_fence;
        } else if !in_fence {
            let line = string_of(&ls[i]);
            let ts = extract_targets(line.as_str());
            let ghost tv = str_views(ts@);
            let mut k: usize = 0;
            while k < ts.len()
                invariant
                    k <= ts.len(),
                    0 <= i < l.len(),
                    l == lines(content@),
                    is_prose(l, i as int),
                    tv == str_views(ts@),
                    tv == targets_from(l[i as int], 0),
                    forall|q: int|
                        0 <= q < k ==> (#[trigger] raw_local(tv[q]) matches Some(p) ==> pct_safe(
                            vstd::utf8::encode_utf8(p),
                            0,
                        )),
                decreases ts.len() - k,
            {
                let tc = chars_of(ts[k].as_str());
                match raw_local_exec(&tc) {
                    Some(p) => {
                        let ps = string_of(&p);
                        if !pct_safe_exec(ps.as_str()) {
                            assert(!links_decodable(content@)) by {
                                assert(raw_local(targets_from(l[i as int], 0)[k as int]) == Some(p@));
                            }
                            return false;
                        }
                    },
                    None => {},
                }
                k = k + 1;
            }
        }
        i = i + 1;
    }
    true
}

// ---------------------------------------------------------------------------
// Checking the whole book
// ---------------------------------------------------------------------------

/// The text that is checked: the fixed text when fixing changed it.
pub open spec fn checked_text(c: Seq<char>, fix: bool) -> Seq<char> {
    if fix && fix_model(c) is Some {
        fix_model(c)->0
    } else {
        c
    }
}

/// How many findings of `fs` are for `rule`.
pub open spec fn count_rule(fs: Seq<FindingModel>, rule: Seq<char>) -> nat
    decreases fs.len(),
{
    if fs.len() == 0 {
        0
    } else {
        count_rule(fs.drop_last(), rule) + if fs.last().rule == rule {
            1nat
        } else {
            0nat
        }
    }
}

/// The text of file `rel` in the snapshot.
pub open spec fn text_of(t: crate::tree::TreeModel, rel: Seq<char>) -> Seq<char> {
    crate::tree::file_text(t, rel)->0
}

/// File `rel` is in the snapshot and, unless it is the sidebar, the links of
/// the text that will be checked can be decoded.
pub open spec fn file_ready(t: crate::tree::TreeModel, rel: Seq<char>, fix: bool) -> bool {
    &&& crate::tree::has_path(t, rel)
    &&& skipped(rel) || links_decodable(checked_text(text_of(t, rel), fix))
}

/// Every file to check is ready.
pub open spec fn book_ready(t: crate::tree::TreeModel, rels: Seq<Seq<char>>, fix: bool) -> bool {
    forall|i: int| 0 <= i < rels.len() ==> file_ready(t, #[trigger] rels[i], fix)
}

/// The sidebar is generated and not checked.
pub open spec fn skipped(rel: Seq<char>) -> bool {
    rel == "SUMMARY.md"@
}

/// Everything reported for the first `n` files, in order, when the paths
/// above `src/` that exist are `outside`.
pub open spec fn book_findings(
    t: crate::tree::TreeModel,
    outside: Seq<Seq<char>>,
    rels: Seq<Seq<char>>,
    fix: bool,
    n: int,
) -> Seq<FindingModel>
    decreases n,
{
    if n <= 0 {
        Seq::empty()
    } else {
        let rel = rels[n - 1];
        let c = checked_text(text_of(t, rel), fix);
        book_findings(t, outside, rels, fix, n - 1) + if skipped(rel) {
            Seq::empty()
        } else {
            lint_model(rel, c) + links_model(rel, c, t, outside)
        }
    }
}

/// The paths above `src/` that the links of the first `n` files lead to.
pub open spec fn book_queries(t: crate::tree::TreeModel, rels: Seq<Seq<char>>, fix: bool, n: int) -> Seq<Seq<char>>
    decreases n,
{
    if n <= 0 {
        Seq::empty()
    } else {
        let rel = rels[n - 1];
        book_queries(t, rels, fix, n - 1) + if skipped(rel) {
            Seq::empty()
        } else {
            queries_model(rel, checked_text(text_of(t, rel), fix), t)
        }
    }
}

/// The files rewritten among the first `n`: path, new text, and how many
/// wrong markers were fixed in it.
pub open spec fn book_writes(t: crate::tree::TreeModel, rels: Seq<Seq<char>>, fix: bool, n: int) -> Seq<(Seq<char>, Seq<char>, nat)>
    decreases n,
{
    if n <= 0 {
        Seq::empty()
    } else {
        let rel = rels[n - 1];
        let c = text_of(t, rel);
        book_writes(t, rels, fix, n - 1) + if !skipped(rel) && fix && fix_model(c) is Some {
            seq![(rel, fix_model(c)->0, count_rule(lint_model(rel, c), "bullet"@))]
        } else {
            Seq::empty()
        }
    }
}

/// Checking the book reports nothing exactly when, for every file checked
/// (all but the sidebar), `lint_file` and `check_links` find nothing in its
/// checked text (the fixed text with `fix`, else the text itself). With
/// `fix` it rewrites exactly the files that `fix_content` changes, each to
/// its fixed text; without `fix` it rewrites none.
#[verifier::rlimit(40)]
pub proof fn book_clean_iff_files_clean(
    t: crate::tree::TreeModel,
    outside: Seq<Seq<char>>,
    rels: Seq<Seq<char>>,
    fix: bool,
    n: int,
)
    requires
        0 <= n <= rels.len(),
    ensures
        book_findings(t, outside, rels, fix, n).len() == 0 <==> forall|i: int|
            0 <= i < n && !skipped(#[trigger] rels[i]) ==> lint_model(rels[i], checked_text(text_of(t, rels[i]), fix)).len()
                == 0 && links_model(rels[i], checked_text(text_of(t, rels[i]), fix), t, outside).len() == 0,
        !fix ==> book_writes(t, rels, fix, n).len() == 0,
        forall|j: int|
            0 <= j < book_writes(t, rels, fix, n).len() ==> exists|i: int|
                0 <= i < n && (#[trigger] book_writes(t, rels, fix, n)[j]).0 == rels[i] && !skipped(rels[i])
                    && fix_model(text_of(t, rels[i])) == Some(book_writes(t, rels, fix, n)[j].1),
        forall|i: int|
            0 <= i < n && fix && !skipped(#[trigger] rels[i]) && fix_model(text_of(t, rels[i])) is Some ==> exists|j: int|
                0 <= j < book_writes(t, rels, fix, n).len() && book_writes(t, rels, fix, n)[j].0 == rels[i]
                    && Some(book_writes(t, rels, fix, n)[j].1) == fix_model(text_of(t, rels[i])),
    decreases n,
{
    if n > 0 {
        book_clean_iff_files_clean(t, outside, rels, fix, n - 1);
        let rel = rels[n - 1];
        let c = checked_text(text_of(t, rel), fix);
        let fa = book_findings(t, outside, rels, fix, n - 1);
        let fb: Seq<FindingModel> = if skipped(rel) {
            Seq::empty()
        } else {
            lint_model(rel, c) + links_model(rel, c, t, outside)
        };
        assert(book_findings(t, outside, rels, fix, n) == fa + fb);
        let wa = book_writes(t, rels, fix, n - 1);
        let w = book_writes(t, rels, fix, n);
        let wb: Seq<(Seq<char>, Seq<char>, nat)> = if !skipped(rel) && fix && fix_model(text_of(t, rel)) is Some {
            seq![(rel, fix_model(text_of(t, rel))->0, count_rule(lint_model(rel, text_of(t, rel)), "bullet"@))]
        } else {
            Seq::empty()
        };
        assert(w == wa + wb);
        assert forall|j: int| 0 <= j < w.len() implies exists|i: int|
            0 <= i < n && (#[trigger] w[j]).0 == rels[i] && !skipped(rels[i]) && fix_model(text_of(t, rels[i]))
                == Some(w[j].1) by {
            if j < wa.len() {
                assert(w[j] == wa[j]);
                let i = choose|i: int|
                    0 <= i < n - 1 && (#[trigger] wa[j]).0 == rels[i] && !skipped(rels[i]) && fix_model(
                        text_of(t, rels[i]),
                    ) == Some(wa[j].1);
            } else {
                assert(w[j] == wb[j - wa.len()]);
            }
        }
        assert forall|i: int|
            0 <= i < n && fix && !skipped(#[trigger] rels[i]) && fix_model(text_of(t, rels[i])) is Some implies exists|j: int|
            0 <= j < w.len() && w[j].0 == rels[i] && Some(w[j].1) == fix_model(text_of(t, rels[i])) by {
            if i < n - 1 {
                let j = choose|j: int|
                    0 <= j < wa.len() && wa[j].0 == rels[i] && Some(wa[j].1) == fix_model(text_of(t, rels[i]));
                assert(w[j] == wa[j]);
            } else {
                assert(w[wa.len() as int] == wb[0]);
            }
        }
    }
}

/// What checking the book gives: the files to rewrite with their new text
/// and the number of markers fixed in each, and every finding.
pub struct LintReport {
    pub written: Vec<(String, String, usize)>,
    pub findings: Vec<Finding>,
}

/// The models of rewritten files.
pub open spec fn write_views(w: Seq<(String, String, usize)>) -> Seq<(Seq<char>, Seq<char>, nat)> {
    Seq::new(w.len(), |i: int| (w[i].0@, w[i].1@, w[i].2 as nat))
}

fn count_bullets(fs: &Vec<Finding>) -> (r: usize)
    ensures
        r == count_rule(finding_views(fs@), "bullet"@),
{
    let mut n: usize = 0;
    let mut i: usize = 0;
    let ghost v = finding_views(fs@);
    while i < fs.len()
        invariant
            i <= fs.len(),
            v == finding_views(fs@),
            n == count_rule(v.take(i as int), "bullet"@),
            n <= i,
        decreases fs.len() - i,
    {
        assert(v.take(i + 1).drop_last() =~= v.take(i as int));
        if crate::text::str_eq(fs[i].rule, "bullet") {
            n = n + 1;
        }
        i = i + 1;
    }
    assert(v.take(fs.len() as int) =~= v);
    n
}

/// Checks the files `rels` of the book, in order: with `fix`, first
/// replaces their wrong list markers, then lints the result and checks its
/// links. The sidebar file is skipped. The paths above `src/` that exist
/// are `outside` (see `book_link_queries`).
pub fn lint_book(tree: &crate::tree::SrcTree, rels: &Vec<String>, fix: bool, outside: &Vec<String>) -> (r: LintReport)
    requires
        book_ready(tree@, str_views(rels@), fix),
    ensures
        write_views(r.written@) == book_writes(tree@, str_views(rels@), fix, rels.len() as int),
        finding_views(r.findings@) == book_findings(
            tree@,
            str_views(outside@),
            str_views(rels@),
            fix,
            rels.len() as int,
        ),
{
    let ghost o = str_views(outside@);
    let ghost rv = str_views(rels@);
    let mut written: Vec<(String, String, usize)> = Vec::new();
    let mut findings: Vec<Finding> = Vec::new();
    let mut i: usize = 0;
    while i < rels.len()
        invariant
            i <= rels.len(),
            rv == str_views(rels@),
            book_ready(tree@, rv, fix),
            o == str_views(outside@),
            write_views(written@) == book_writes(tree@, rv, fix, i as int),
            finding_views(findings@) == book_findings(tree@, o, rv, fix, i as int),
        decreases rels.len() - i,
    {
        let rel = rels[i].as_str();
        assert(rel@ == rv[i as int]);
        assert(crate::tree::has_path(tree@, rv[i as int]));
        let ghost w0 = write_views(written@);
        let ghost f0 = finding_views(findings@);
        if crate::text::str_eq(rel, "SUMMARY.md") {
            assert(write_views(written@) =~= book_writes(tree@, rv, fix, i + 1));
            assert(finding_views(findings@) =~= book_findings(tree@, o, rv, fix, i + 1));
        } else {
            let content = match tree.read(rel) {
                Some(c) => c,
                None => String::new(),
            };
            assert(content@ == text_of(tree@, rel@));
            let mut text = content.clone();
            if fix {
                match fix_content(content.as_str()) {
                    Some(new) => {
                        let before = lint_file(rel, content.as_str());
                        let n = count_bullets(&before);
                        text = new.clone();
                        written.push((rel.to_owned(), new, n));
                        assert(write_views(written@) =~= book_writes(tree@, rv, fix, i + 1));
                    },
                    None => {
                        assert(write_views(written@) =~= book_writes(tree@, rv, fix, i + 1));
                    },
                }
            } else {
                assert(write_views(written@) =~= book_writes(tree@, rv, fix, i + 1));
            }
            assert(text@ == checked_text(text_of(tree@, rel@), fix));
            let mut lf = lint_file(rel, text.as_str());
            let mut cl = check_links(rel, text.as_str(), tree, outside);
            let ghost a = finding_views(lf@);
            let ghost b = finding_views(cl@);
            findings.append(&mut lf);
            findings.append(&mut cl);
            assert(finding_views(findings@) =~= f0 + (a + b));
            assert(finding_views(findings@) =~= book_findings(tree@, o, rv, fix, i + 1));
        }
        i = i + 1;
    }
    LintReport { written, findings }
}

/// The text of file `rel` that is checked: with `fix`, after its wrong
/// list markers are replaced.
fn checked_text_exec(tree: &crate::tree::SrcTree, rel: &str, fix: bool) -> (r: String)
    requires
        crate::tree::has_path(tree@, rel@),
    ensures
        r@ == checked_text(text_of(tree@, rel@), fix),
{
    let content = match tree.read(rel) {
        Some(c) => c,
        None => String::new(),
    };
    if fix {
        match fix_content(content.as_str()) {
            Some(new) => new,
            None => content,
        }
    } else {
        content
    }
}

/// The paths above `src/`, relative to `src/`, that the links of the files
/// `rels` lead to, in order, as `lint_book` would check them: what the file
/// system must be asked about.
pub fn book_link_queries(tree: &crate::tree::SrcTree, rels: &Vec<String>, fix: bool) -> (r: Vec<String>)
    requires
        book_ready(tree@, str_views(rels@), fix),
    ensures
        str_views(r@) == book_queries(tree@, str_views(rels@), fix, rels.len() as int),
{
    let ghost rv = str_views(rels@);
    let mut out: Vec<String> = Vec::new();
    let mut i: usize = 0;
    while i < rels.len()
        invariant
            i <= rels.len(),
            rv == str_views(rels@),
            book_ready(tree@, rv, fix),
            str_views(out@) == book_queries(tree@, rv, fix, i as int),
        decreases rels.len() - i,
    {
        let rel = rels[i].as_str();
        assert(rel@ == rv[i as int]);
        assert(crate::tree::has_path(tree@, rv[i as int]));
        let ghost o0 = str_views(out@);
        if !crate::text::str_eq(rel, "SUMMARY.md") {
            let text = checked_text_exec(tree, rel, fix);
            let mut q = link_queries(rel, text.as_str(), tree);
            let ghost qv = str_views(q@);
            out.append(&mut q);
            assert(str_views(out@) =~= o0 + qv);
        }
        assert(str_views(out@) =~= book_queries(tree@, rv, fix, i + 1));
        i = i + 1;
    }
    out
}

/// How many of the files `rels`, from the first on, `lint_book` can check:
/// the files before the first one that is not ready.
pub fn ready_count(tree: &crate::tree::SrcTree, rels: &Vec<String>, fix: bool) -> (r: usize)
    ensures
        r <= rels.len(),
        forall|j: int| 0 <= j < r ==> file_ready(tree@, #[trigger] str_views(rels@)[j], fix),
        r < rels.len() ==> !file_ready(tree@, str_views(rels@)[r as int], fix),
{
    let ghost rv = str_views(rels@);
    let mut i: usize = 0;
    while i < rels.len()
        invariant
            i <= rels.len(),
            rv == str_views(rels@),
            forall|j: int| 0 <= j < i ==> file_ready(tree@, #[trigger] rv[j], fix),
        decreases rels.len() - i,
    {
        let rel = rels[i].as_str();
        assert(rel@ == rv[i as int]);
        let content = match tree.read(rel) {
            Some(c) => c,
            None => {
                return i;
            },
        };
        if !crate::text::str_eq(rel, "SUMMARY.md") {
            let text = if fix {
                match fix_content(content.as_str()) {
                    Some(new) => new,
                    None => content,
                }
            } else {
                content
            };
            if !links_are_decodable(text.as_str()) {
                return i;
            }
        }
        i = i + 1;
    }
    i
}

/// Whether `lint_book` can check the files `rels`: each is ready.
pub fn lint_book_ready(tree: &crate::tree::SrcTree, rels: &Vec<String>, fix: bool) -> (r: bool)
    ensures
        r == book_ready(tree@, str_views(rels@), fix),
{
    let n = ready_count(tree, rels, fix);
    n == rels.len()
}

fn html_msg_exec() -> (r: String)
    ensures
        r@ == html_msg(),
{
    "裸 HTML 块之后需要一个空行，否则下一行 Markdown 不会被解析".to_owned()
}

fn no_h1_msg_exec() -> (r: String)
    ensures
        r@ == no_h1_msg(),
{
    "缺少一级标题（`# 标题`）".to_owned()
}

} // verus!
