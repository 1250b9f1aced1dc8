//! A strict parser for the small TOML subset that the book configuration uses:
//! `[[name]]` array tables, `key = "string"` (escapes `\n` `\t` `\"` `\\`)
//! and `key = ["a", "b"]` string arrays that may span lines. Anything else is
//! an error: a misread configuration must fail rather than lose a topic.
use vstd::prelude::*;

use crate::text::{
    append, chars_of, decimal, ends_with, ends_with_str, eq_str, find, find_str, is_whitespace, is_ws,
    lines, lines_of_str, push_decimal, push_str, skip, slice_of, starts_with, starts_with_str,
    str_eq, str_views, string_of, strings_of, trim, trim_end, trim_end_exec, trim_exec, views,
    clone_strings,
};

verus! {

// ---------------------------------------------------------------------------
// Data and models
// ---------------------------------------------------------------------------

/// A configuration value: a string or an array of strings.
#[derive(Debug, PartialEq)]
pub enum Value {
    Str(String),
    Arr(Vec<String>),
}

/// The model of a value.
pub enum ValueModel {
    Str(Seq<char>),
    Arr(Seq<Seq<char>>),
}

impl View for Value {
    type V = ValueModel;

    open spec fn view(&self) -> ValueModel {
        match self {
            Value::Str(s) => ValueModel::Str(s@),
            Value::Arr(a) => ValueModel::Arr(str_views(a@)),
        }
    }
}

/// The contents of one `[[table]]`, in declaration order.
#[derive(Debug)]
pub struct Table {
    entries: Vec<(String, Value)>,
}

/// The model of a table: its `(key, value)` entries in declaration order.
pub open spec fn entry_views(e: Seq<(String, Value)>) -> Seq<(Seq<char>, ValueModel)> {
    Seq::new(e.len(), |i: int| (e[i].0@, e[i].1@))
}

impl View for Table {
    type V = Seq<(Seq<char>, ValueModel)>;

    closed spec fn view(&self) -> Seq<(Seq<char>, ValueModel)> {
        entry_views(self.entries@)
    }
}

/// The model of a parsed document: `(table name, entries)` in document order.
pub open spec fn tables_view(t: Seq<(String, Table)>) -> Seq<(Seq<char>, Seq<(Seq<char>, ValueModel)>)> {
    Seq::new(t.len(), |i: int| (t[i].0@, t[i].1@))
}

/// `key` is among the keys of `e`.
pub open spec fn has_key(e: Seq<(Seq<char>, ValueModel)>, key: Seq<char>) -> bool {
    exists|i: int| 0 <= i < e.len() && e[i].0 == key
}

/// The value of the first entry of `e` with `key`.
pub open spec fn lookup(e: Seq<(Seq<char>, ValueModel)>, key: Seq<char>) -> Option<ValueModel>
    decreases e.len(),
{
    if e.len() == 0 {
        None
    } else if e[0].0 == key {
        Some(e[0].1)
    } else {
        lookup(e.drop_first(), key)
    }
}

/// No key occurs twice in `e`.
pub open spec fn unique_keys(e: Seq<(Seq<char>, ValueModel)>) -> bool {
    forall|i: int, j: int| 0 <= i < j < e.len() ==> e[i].0 != e[j].0
}

/// `Table::insert`: a new key is appended, a known key is an error.
pub open spec fn insert_entry(e: Seq<(Seq<char>, ValueModel)>, key: Seq<char>, v: ValueModel) -> Result<
    Seq<(Seq<char>, ValueModel)>,
    Seq<char>,
> {
    if has_key(e, key) {
        Err("键 `"@ + key + "` 重复"@)
    } else {
        Ok(e.push((key, v)))
    }
}

/// An error message for line `no`.
pub open spec fn at_line(no: nat, body: Seq<char>) -> Seq<char> {
    "第 "@ + decimal(no) + " 行："@ + body
}

/// `req_str`/`req_arr` message for a missing key.
pub open spec fn missing_key_msg(ctx: Seq<char>, key: Seq<char>) -> Seq<char> {
    ctx + "：缺少必填键 `"@ + key + "`"@
}

/// `req_str` message for an array found where a string is required.
pub open spec fn want_str_msg(ctx: Seq<char>, key: Seq<char>) -> Seq<char> {
    ctx + "：`"@ + key + "` 应为字符串，实际是数组"@
}

/// `req_arr` message for a string found where an array is required.
pub open spec fn want_arr_msg(ctx: Seq<char>, key: Seq<char>) -> Seq<char> {
    ctx + "：`"@ + key + "` 应为字符串数组，实际是字符串"@
}

/// What `Table::req_str` returns for a table with entries `e`.
pub open spec fn req_str_model(e: Seq<(Seq<char>, ValueModel)>, key: Seq<char>, ctx: Seq<char>) -> Result<
    Seq<char>,
    Seq<char>,
> {
    match lookup(e, key) {
        Some(ValueModel::Str(s)) => Ok(s),
        Some(ValueModel::Arr(_)) => Err(want_str_msg(ctx, key)),
        None => Err(missing_key_msg(ctx, key)),
    }
}

/// What `Table::req_arr` returns for a table with entries `e`.
pub open spec fn req_arr_model(e: Seq<(Seq<char>, ValueModel)>, key: Seq<char>, ctx: Seq<char>) -> Result<
    Seq<Seq<char>>,
    Seq<char>,
> {
    match lookup(e, key) {
        Some(ValueModel::Arr(a)) => Ok(a),
        Some(ValueModel::Str(_)) => Err(want_arr_msg(ctx, key)),
        None => Err(missing_key_msg(ctx, key)),
    }
}

/// What `Table::opt_str` returns for a table with entries `e`.
pub open spec fn opt_str_model(e: Seq<(Seq<char>, ValueModel)>, key: Seq<char>) -> Option<Seq<char>> {
    match lookup(e, key) {
        Some(ValueModel::Str(s)) => Some(s),
        _ => None,
    }
}

// ---------------------------------------------------------------------------
// Lexical specifications
// ---------------------------------------------------------------------------

/// Offset of the first `#` outside a double-quoted string, scanning `s` in
/// the given string state.
pub open spec fn comment_from(s: Seq<char>, in_str: bool, escaped: bool) -> Option<int>
    decreases s.len(),
{
    if s.len() == 0 {
        None
    } else {
        let c = s[0];
        let next = if in_str {
            if escaped {
                comment_from(s.drop_first(), true, false)
            } else if c == '\\' {
                comment_from(s.drop_first(), true, true)
            } else if c == '"' {
                comment_from(s.drop_first(), false, false)
            } else {
                comment_from(s.drop_first(), true, false)
            }
        } else if c == '"' {
            comment_from(s.drop_first(), true, false)
        } else {
            comment_from(s.drop_first(), false, false)
        };
        if !in_str && c == '#' {
            Some(0)
        } else {
            match next {
                Some(i) => Some(i + 1),
                None => None,
            }
        }
    }
}

/// A line without its trailing comment; a `#` inside a string is kept.
pub open spec fn spec_strip_comment(s: Seq<char>) -> Seq<char> {
    match comment_from(s, false, false) {
        Some(i) => s.take(i),
        None => s,
    }
}

/// Whether an array text is complete, scanning `s` in the given state:
/// outside any string, and the last significant character is `]`.
pub open spec fn complete_from(s: Seq<char>, in_str: bool, escaped: bool, last: Option<char>) -> bool
    decreases s.len(),
{
    if s.len() == 0 {
        !in_str && last == Some(']')
    } else {
        let c = s[0];
        let t = s.drop_first();
        if in_str {
            if escaped {
                complete_from(t, true, false, last)
            } else if c == '\\' {
                complete_from(t, true, true, last)
            } else if c == '"' {
                complete_from(t, false, false, Some('"'))
            } else {
                complete_from(t, true, false, last)
            }
        } else if c == '"' {
            complete_from(t, true, escaped, last)
        } else if is_ws(c) {
            complete_from(t, false, escaped, last)
        } else {
            complete_from(t, false, escaped, Some(c))
        }
    }
}

/// `array_complete`.
pub open spec fn spec_array_complete(s: Seq<char>) -> bool {
    complete_from(s, false, false, None)
}

/// Pieces of an array body split at commas outside strings, after a partial piece `cur`.
pub open spec fn items_from(s: Seq<char>, cur: Seq<char>, in_str: bool, escaped: bool) -> Seq<Seq<char>>
    decreases s.len(),
{
    if s.len() == 0 {
        seq![cur]
    } else {
        let c = s[0];
        let t = s.drop_first();
        if in_str {
            if escaped {
                items_from(t, cur.push(c), true, false)
            } else if c == '\\' {
                items_from(t, cur.push(c), true, true)
            } else if c == '"' {
                items_from(t, cur.push(c), false, false)
            } else {
                items_from(t, cur.push(c), true, false)
            }
        } else if c == '"' {
            items_from(t, cur.push(c), true, escaped)
        } else if c == ',' {
            seq![cur] + items_from(t, Seq::empty(), false, escaped)
        } else {
            items_from(t, cur.push(c), false, escaped)
        }
    }
}

/// `split_items`.
pub open spec fn spec_split_items(s: Seq<char>) -> Seq<Seq<char>> {
    items_from(s, Seq::empty(), false, false)
}

/// `unescape` of a string body reported at line `no`.
pub open spec fn spec_unescape(s: Seq<char>, no: nat) -> Result<Seq<char>, Seq<char>>
    decreases s.len(),
{
    if s.len() == 0 {
        Ok(Seq::empty())
    } else if s[0] == '"' {
        Err(at_line(no, "字符串中有未转义的双引号"@))
    } else if s[0] != '\\' {
        match spec_unescape(s.drop_first(), no) {
            Ok(r) => Ok(seq![s[0]] + r),
            Err(e) => Err(e),
        }
    } else if s.len() == 1 {
        Err(at_line(no, "字符串以孤立的反斜杠结尾"@))
    } else {
        let n = s[1];
        let c = if n == 'n' {
            '\n'
        } else if n == 't' {
            '\t'
        } else {
            n
        };
        if n == 'n' || n == 't' || n == '"' || n == '\\' {
            match spec_unescape(s.skip(2), no) {
                Ok(r) => Ok(seq![c] + r),
                Err(e) => Err(e),
            }
        } else {
            Err(at_line(no, "不支持的转义 `\\"@ + seq![n] + "`"@))
        }
    }
}

/// `parse_string`: a double-quoted string with escapes.
pub open spec fn spec_parse_string(text: Seq<char>, no: nat) -> Result<Seq<char>, Seq<char>> {
    if text.len() >= 2 && text[0] == '"' && text.last() == '"' {
        spec_unescape(text.subrange(1, text.len() - 1), no)
    } else {
        Err(at_line(no, "值 `"@ + text + "` 必须是双引号字符串"@))
    }
}

/// The strings of the non-blank array pieces, in order.
pub open spec fn parse_items(parts: Seq<Seq<char>>, no: nat) -> Result<Seq<Seq<char>>, Seq<char>>
    decreases parts.len(),
{
    if parts.len() == 0 {
        Ok(Seq::empty())
    } else {
        let p = trim(parts[0]);
        if p.len() == 0 {
            parse_items(parts.drop_first(), no)
        } else {
            match spec_parse_string(p, no) {
                Err(e) => Err(e),
                Ok(s) => match parse_items(parts.drop_first(), no) {
                    Ok(r) => Ok(seq![s] + r),
                    Err(e) => Err(e),
                },
            }
        }
    }
}

/// `parse_array`: a bracketed, comma-separated list of strings.
pub open spec fn spec_parse_array(text: Seq<char>, no: nat) -> Result<Seq<Seq<char>>, Seq<char>> {
    let t = trim(text);
    if t.len() > 0 && t[0] == '[' && trim_end(t.drop_first()).len() > 0 && trim_end(t.drop_first()).last()
        == ']' {
        parse_items(spec_split_items(trim_end(t.drop_first()).drop_last()), no)
    } else {
        Err(at_line(no, "数组格式不正确"@))
    }
}

// ---------------------------------------------------------------------------
// Document specification
// ---------------------------------------------------------------------------

/// Adds `key = value` (or reports its error) to the last table.
pub open spec fn add_entry(
    tables: Seq<(Seq<char>, Seq<(Seq<char>, ValueModel)>)>,
    key: Seq<char>,
    value: Result<ValueModel, Seq<char>>,
    no: nat,
) -> Result<Seq<(Seq<char>, Seq<(Seq<char>, ValueModel)>)>, Seq<char>> {
    match value {
        Err(e) => Err(e),
        Ok(v) => if tables.len() == 0 {
            Err(at_line(no, "键 `"@ + key + "` 出现在任何 `[[表]]` 之前"@))
        } else {
            let last = tables.last();
            match insert_entry(last.1, key, v) {
                Err(e) => Err(at_line(no, e)),
                Ok(e2) => Ok(tables.update(tables.len() - 1, (last.0, e2))),
            }
        },
    }
}

/// The parsed string value of `text`.
pub open spec fn str_value(text: Seq<char>, no: nat) -> Result<ValueModel, Seq<char>> {
    match spec_parse_string(text, no) {
        Ok(s) => Ok(ValueModel::Str(s)),
        Err(e) => Err(e),
    }
}

/// The parsed array value of `text`.
pub open spec fn arr_value(text: Seq<char>, no: nat) -> Result<ValueModel, Seq<char>> {
    match spec_parse_array(text, no) {
        Ok(a) => Ok(ValueModel::Arr(a)),
        Err(e) => Err(e),
    }
}

/// A line with its comment and surrounding whitespace removed.
pub open spec fn clean(l: Seq<char>) -> Seq<char> {
    trim(spec_strip_comment(l))
}

/// An array value still being read: its key, text so far and starting line.
pub struct Pending {
    pub key: Seq<char>,
    pub buf: Seq<char>,
    pub no: nat,
}

/// Parses the lines from index `k` on, given the tables so far and an
/// unfinished multi-line array.
pub open spec fn parse_from(
    ls: Seq<Seq<char>>,
    k: int,
    tables: Seq<(Seq<char>, Seq<(Seq<char>, ValueModel)>)>,
    pending: Option<Pending>,
) -> Result<Seq<(Seq<char>, Seq<(Seq<char>, ValueModel)>)>, Seq<char>>
    decreases ls.len() - k,
{
    if k < 0 || k >= ls.len() {
        match pending {
            Some(p) => Err(at_line(p.no, "数组未闭合"@)),
            None => Ok(tables),
        }
    } else {
        match pending {
            Some(p) => {
                let buf = p.buf + seq![' '] + clean(ls[k]);
                if spec_array_complete(buf) {
                    match add_entry(tables, p.key, arr_value(buf, p.no), p.no) {
                        Err(e) => Err(e),
                        Ok(t2) => parse_from(ls, k + 1, t2, None),
                    }
                } else {
                    parse_from(ls, k + 1, tables, Some(Pending { key: p.key, buf, no: p.no }))
                }
            },
            None => {
                let no = (k + 1) as nat;
                let line = clean(ls[k]);
                if line.len() == 0 {
                    parse_from(ls, k + 1, tables, None)
                } else if starts_with(line, "[["@) {
                    let inner = line.skip(2);
                    if ends_with(inner, "]]"@) {
                        let name = trim(inner.take(inner.len() - 2));
                        parse_from(ls, k + 1, tables.push((name, Seq::empty())), None)
                    } else {
                        Err(at_line(no, "数组表头未闭合"@))
                    }
                } else if starts_with(line, "["@) {
                    Err(at_line(no, "只支持 `[[表名]]` 形式的数组表"@))
                } else {
                    match find(line, "="@) {
                        None => Err(at_line(no, "无法解析 `"@ + line + "`"@)),
                        Some(i) => {
                            let key = trim(line.take(i));
                            let text = trim(line.skip(i + 1));
                            if key.len() == 0 {
                                Err(at_line(no, "键名为空"@))
                            } else if !starts_with(text, "["@) {
                                match add_entry(tables, key, str_value(text, no), no) {
                                    Err(e) => Err(e),
                                    Ok(t2) => parse_from(ls, k + 1, t2, None),
                                }
                            } else if spec_array_complete(text) {
                                match add_entry(tables, key, arr_value(text, no), no) {
                                    Err(e) => Err(e),
                                    Ok(t2) => parse_from(ls, k + 1, t2, None),
                                }
                            } else {
                                parse_from(
                                    ls,
                                    k + 1,
                                    tables,
                                    Some(Pending { key, buf: text, no }),
                                )
                            }
                        },
                    }
                }
            },
        }
    }
}

/// The document model of `input`: its tables in order, or the first error.
pub open spec fn parse_doc(input: Seq<char>) -> Result<Seq<(Seq<char>, Seq<(Seq<char>, ValueModel)>)>, Seq<char>> {
    parse_from(lines(input), 0, Seq::empty(), None)
}

// ---------------------------------------------------------------------------
// Lemmas
// ---------------------------------------------------------------------------

/// `parse_items` over a suffix that starts with `parts[j]`.
proof fn lemma_skip_first<A>(s: Seq<A>, j: int)
    requires
        0 <= j < s.len(),
    ensures
        s.skip(j).drop_first() == s.skip(j + 1),
        s.skip(j)[0] == s[j],
{
    assert(s.skip(j).drop_first() =~= s.skip(j + 1));
}

// ---------------------------------------------------------------------------
// Executable code
// ---------------------------------------------------------------------------

/// `Some(i + d)` for `Some(i)`.
pub open spec fn shift(o: Option<int>, d: int) -> Option<int> {
    match o {
        Some(i) => Some(i + d),
        None => None,
    }
}

/// `Ok(pre + r)` for `Ok(r)`; errors unchanged.
pub open spec fn prefix_ok(pre: Seq<char>, r: Result<Seq<char>, Seq<char>>) -> Result<Seq<char>, Seq<char>> {
    match r {
        Ok(x) => Ok(pre + x),
        Err(e) => Err(e),
    }
}

/// `Ok(pre + r)` for `Ok(r)` on lists; errors unchanged.
pub open spec fn prefix_items(pre: Seq<Seq<char>>, r: Result<Seq<Seq<char>>, Seq<char>>) -> Result<
    Seq<Seq<char>>,
    Seq<char>,
> {
    match r {
        Ok(x) => Ok(pre + x),
        Err(e) => Err(e),
    }
}

/// The model of a character-buffer result.
pub open spec fn res_view(r: Result<Vec<char>, Vec<char>>) -> Result<Seq<char>, Seq<char>> {
    match r {
        Ok(x) => Ok(x@),
        Err(e) => Err(e@),
    }
}

/// The model of a list-of-buffers result.
pub open spec fn items_view(r: Result<Vec<Vec<char>>, Vec<char>>) -> Result<Seq<Seq<char>>, Seq<char>> {
    match r {
        Ok(x) => Ok(views(x@)),
        Err(e) => Err(e@),
    }
}

/// The model of a value result.
pub open spec fn value_view(r: Result<Value, Vec<char>>) -> Result<ValueModel, Seq<char>> {
    match r {
        Ok(x) => Ok(x@),
        Err(e) => Err(e@),
    }
}

/// `at_line` as a buffer.
fn at_line_exec(no: usize, body: &Vec<char>) -> (r: Vec<char>)
    ensures
        r@ == at_line(no as nat, body@),
{
    let mut r: Vec<char> = Vec::new();
    push_str(&mut r, "第 ");
    push_decimal(&mut r, no);
    push_str(&mut r, " 行：");
    append(&mut r, body);
    assert(r@ =~= at_line(no as nat, body@));
    r
}

/// `at_line` with a literal body.
fn at_line_str(no: usize, body: &str) -> (r: Vec<char>)
    ensures
        r@ == at_line(no as nat, body@),
{
    let b = chars_of(body);
    at_line_exec(no, &b)
}

/// Removes a trailing comment, keeping a `#` that sits inside a string.
fn strip_comment(line: &Vec<char>) -> (r: Vec<char>)
    ensures
        r@ == spec_strip_comment(line@),
{
    let mut in_str = false;
    let mut escaped = false;
    let mut i: usize = 0;
    assert(line@.skip(0) =~= line@);
    while i < line.len()
        invariant
            i <= line.len(),
            !in_str ==> !escaped,
            comment_from(line@, false, false) == shift(
                comment_from(line@.skip(i as int), in_str, escaped),
                i as int,
            ),
        decreases line.len() - i,
    {
        let c = line[i];
        let ghost (s0, e0) = (in_str, escaped);
        proof {
            lemma_skip_first(line@, i as int);
        }
        if in_str {
            if escaped {
                escaped = false;
            } else if c == '\\' {
                escaped = true;
            } else if c == '"' {
                in_str = false;
            }
            assert(comment_from(line@.skip(i as int), s0, e0) == shift(
                comment_from(line@.skip(i + 1), in_str, escaped),
                1,
            ));
            i = i + 1;
            continue;
        }
        if c == '"' {
            in_str = true;
        } else if c == '#' {
            return slice_of(line, 0, i);
        }
        assert(comment_from(line@.skip(i as int), s0, e0) == shift(
            comment_from(line@.skip(i + 1), in_str, escaped),
            1,
        ));
        i = i + 1;
    }
    assert(line@.skip(line.len() as int) =~= Seq::<char>::empty());
    line.clone()
}

/// The line with comment and surrounding whitespace removed.
fn clean_exec(line: &Vec<char>) -> (r: Vec<char>)
    ensures
        r@ == clean(line@),
{
    let s = strip_comment(line);
    trim_exec(&s)
}

/// Whether an array text is complete: outside any string and ending in `]`.
fn array_complete(s: &Vec<char>) -> (r: bool)
    ensures
        r == spec_array_complete(s@),
{
    let mut in_str = false;
    let mut escaped = false;
    let mut last: Option<char> = None;
    let mut i: usize = 0;
    assert(s@.skip(0) =~= s@);
    while i < s.len()
        invariant
            i <= s.len(),
            spec_array_complete(s@) == complete_from(s@.skip(i as int), in_str, escaped, last),
        decreases s.len() - i,
    {
        let c = s[i];
        proof {
            lemma_skip_first(s@, i as int);
        }
        if in_str {
            if escaped {
                escaped = false;
            } else if c == '\\' {
                escaped = true;
            } else if c == '"' {
                in_str = false;
                last = Some('"');
            }
        } else if c == '"' {
            in_str = true;
        } else if is_whitespace(c) {
        } else {
            last = Some(c);
        }
        i = i + 1;
    }
    assert(s@.skip(s.len() as int) =~= Seq::<char>::empty());
    !in_str && last == Some(']')
}

/// Splits an array body at commas that are outside strings.
fn split_items(s: &Vec<char>) -> (r: Vec<Vec<char>>)
    ensures
        views(r@) == spec_split_items(s@),
{
    let mut parts: Vec<Vec<char>> = Vec::new();
    let mut cur: Vec<char> = Vec::new();
    let mut in_str = false;
    let mut escaped = false;
    let mut i: usize = 0;
    assert(s@.skip(0) =~= s@);
    assert(views(parts@) + items_from(s@, cur@, false, false) =~= items_from(s@, cur@, false, false));
    while i < s.len()
        invariant
            i <= s.len(),
            spec_split_items(s@) == views(parts@) + items_from(s@.skip(i as int), cur@, in_str, escaped),
        decreases s.len() - i,
    {
        let c = s[i];
        proof {
            lemma_skip_first(s@, i as int);
        }
        if in_str {
            cur.push(c);
            if escaped {
                escaped = false;
            } else if c == '\\' {
                escaped = true;
            } else if c == '"' {
                in_str = false;
            }
        } else if c == '"' {
            in_str = true;
            cur.push(c);
        } else if c == ',' {
            let ghost before = views(parts@);
            let ghost old_cur = cur@;
            let piece = cur;
            parts.push(piece);
            assert(views(parts@) =~= before + seq![old_cur]);
            cur = Vec::new();
            assert(cur@ =~= Seq::<char>::empty());
            assert(views(parts@) + items_from(s@.skip(i + 1), cur@, in_str, escaped) =~= before + (
            seq![old_cur] + items_from(s@.skip(i + 1), Seq::empty(), false, escaped)));
        } else {
            cur.push(c);
        }
        i = i + 1;
    }
    assert(s@.skip(s.len() as int) =~= Seq::<char>::empty());
    let ghost before = views(parts@);
    let ghost last = cur@;
    parts.push(cur);
    assert(views(parts@) =~= before + seq![last]);
    parts
}

/// Resolves the escapes `\n` `\t` `\"` `\\` of a string body.
fn unescape(s: &Vec<char>, no: usize) -> (r: Result<Vec<char>, Vec<char>>)
    ensures
        res_view(r) == spec_unescape(s@, no as nat),
{
    let mut out: Vec<char> = Vec::new();
    let mut i: usize = 0;
    assert(s@.skip(0) =~= s@);
    assert(prefix_ok(out@, spec_unescape(s@, no as nat)) =~= spec_unescape(s@, no as nat)) by {
        match spec_unescape(s@, no as nat) {
            Ok(x) => {
                assert(out@ + x =~= x);
            },
            Err(e) => {},
        }
    }
    while i < s.len()
        invariant
            i <= s.len(),
            spec_unescape(s@, no as nat) == prefix_ok(out@, spec_unescape(s@.skip(i as int), no as nat)),
        decreases s.len() - i,
    {
        let c = s[i];
        let ghost rest = s@.skip(i as int);
        proof {
            lemma_skip_first(s@, i as int);
        }
        if c == '"' {
            return Err(at_line_str(no, "字符串中有未转义的双引号"));
        }
        if c != '\\' {
            proof {
                match spec_unescape(s@.skip(i + 1), no as nat) {
                    Ok(x) => {
                        assert(out@ + (seq![c] + x) =~= out@.push(c) + x);
                    },
                    Err(e) => {},
                }
            }
            out.push(c);
            i = i + 1;
            continue;
        }
        if i + 1 >= s.len() {
            assert(rest.len() == 1);
            return Err(at_line_str(no, "字符串以孤立的反斜杠结尾"));
        }
        let n = s[i + 1];
        assert(rest[1] == n);
        assert(rest.skip(2) =~= s@.skip(i + 2));
        let e = if n == 'n' {
            '\n'
        } else if n == 't' {
            '\t'
        } else if n == '"' {
            '"'
        } else if n == '\\' {
            '\\'
        } else {
            let mut body: Vec<char> = Vec::new();
            push_str(&mut body, "不支持的转义 `\\");
            body.push(n);
            push_str(&mut body, "`");
            assert(body@ =~= "不支持的转义 `\\"@ + seq![n] + "`"@);
            return Err(at_line_exec(no, &body));
        };
        proof {
            match spec_unescape(s@.skip(i + 2), no as nat) {
                Ok(x) => {
                    assert(out@ + (seq![e] + x) =~= out@.push(e) + x);
                },
                Err(err) => {},
            }
        }
        out.push(e);
        i = i + 2;
    }
    assert(s@.skip(s.len() as int) =~= Seq::<char>::empty());
    assert(out@ + Seq::<char>::empty() =~= out@);
    Ok(out)
}

/// A double-quoted string value.
fn parse_string(text: &Vec<char>, no: usize) -> (r: Result<Vec<char>, Vec<char>>)
    ensures
        res_view(r) == spec_parse_string(text@, no as nat),
{
    if text.len() >= 2 && text[0] == '"' && text[text.len() - 1] == '"' {
        let body = slice_of(text, 1, text.len() - 1);
        unescape(&body, no)
    } else {
        let mut body: Vec<char> = Vec::new();
        push_str(&mut body, "值 `");
        append(&mut body, text);
        push_str(&mut body, "` 必须是双引号字符串");
        Err(at_line_exec(no, &body))
    }
}

/// A bracketed list of strings; a trailing comma is allowed.
fn parse_array(text: &Vec<char>, no: usize) -> (r: Result<Vec<Vec<char>>, Vec<char>>)
    ensures
        items_view(r) == spec_parse_array(text@, no as nat),
{
    let t = trim_exec(text);
    if t.len() == 0 || t[0] != '[' {
        return Err(at_line_str(no, "数组格式不正确"));
    }
    let t1 = skip(&t, 1);
    assert(t1@ =~= t@.drop_first());
    let u = trim_end_exec(&t1);
    if u.len() == 0 || u[u.len() - 1] != ']' {
        return Err(at_line_str(no, "数组格式不正确"));
    }
    let inner = slice_of(&u, 0, u.len() - 1);
    assert(inner@ =~= u@.drop_last());
    let parts = split_items(&inner);
    let mut out: Vec<Vec<char>> = Vec::new();
    let mut j: usize = 0;
    let ghost ps = views(parts@);
    assert(ps.skip(0) =~= ps);
    assert(prefix_items(views(out@), parse_items(ps, no as nat)) =~= parse_items(ps, no as nat)) by {
        match parse_items(ps, no as nat) {
            Ok(x) => {
                assert(views(out@) + x =~= x);
            },
            Err(e) => {},
        }
    }
    while j < parts.len()
        invariant
            j <= parts.len(),
            ps == views(parts@),
            spec_parse_array(text@, no as nat) == parse_items(ps, no as nat),
            parse_items(ps, no as nat) == prefix_items(views(out@), parse_items(ps.skip(j as int), no as nat)),
        decreases parts.len() - j,
    {
        proof {
            lemma_skip_first(ps, j as int);
        }
        let p = trim_exec(&parts[j]);
        if p.len() == 0 {
            j = j + 1;
            continue;
        }
        match parse_string(&p, no) {
            Err(e) => {
                return Err(e);
            },
            Ok(v) => {
                proof {
                    match parse_items(ps.skip(j + 1), no as nat) {
                        Ok(x) => {
                            assert(views(out@) + (seq![v@] + x) =~= views(out@.push(v)) + x);
                        },
                        Err(e) => {},
                    }
                }
                out.push(v);
            },
        }
        j = j + 1;
    }
    assert(ps.skip(parts.len() as int) =~= Seq::<Seq<char>>::empty());
    assert(views(out@) + Seq::<Seq<char>>::empty() =~= views(out@));
    Ok(out)
}

impl Table {
    /// An empty table.
    pub fn new() -> (t: Table)
        ensures
            t@ == Seq::<(Seq<char>, ValueModel)>::empty(),
    {
        let t = Table { entries: Vec::new() };
        assert(t@ =~= Seq::<(Seq<char>, ValueModel)>::empty());
        t
    }

    /// Adds an entry; a key that is already present is an error.
    fn insert(&mut self, key: String, value: Value) -> (r: Result<(), String>)
        ensures
            match r {
                Ok(()) => insert_entry(old(self)@, key@, value@) == Ok::<_, Seq<char>>(final(self)@),
                Err(e) => insert_entry(old(self)@, key@, value@) == Err::<Seq<(Seq<char>, ValueModel)>, _>(e@)
                    && final(self)@ == old(self)@,
            },
    {
        let mut i: usize = 0;
        while i < self.entries.len()
            invariant
                i <= self.entries.len(),
                forall|j: int| 0 <= j < i ==> self@[j].0 != key@,
                self@ == entry_views(self.entries@),
            decreases self.entries.len() - i,
        {
            if self.entries[i].0 == key {
                assert(self@[i as int].0 == key@);
                let mut m: Vec<char> = Vec::new();
                push_str(&mut m, "键 `");
                push_str(&mut m, key.as_str());
                push_str(&mut m, "` 重复");
                return Err(string_of(&m));
            }
            i = i + 1;
        }
        let ghost before = self@;
        let ghost kv = key@;
        let ghost vv = value@;
        self.entries.push((key, value));
        assert(self@ =~= before.push((kv, vv)));
        Ok(())
    }

    /// The value of `key`, if present.
    fn get(&self, key: &str) -> (r: Option<&Value>)
        ensures
            match r {
                Some(v) => lookup(self@, key@) == Some(v@),
                None => lookup(self@, key@) is None,
            },
    {
        let ghost e = self@;
        let mut i: usize = 0;
        assert(e.skip(0) =~= e);
        while i < self.entries.len()
            invariant
                i <= self.entries.len(),
                e == self@,
                e == entry_views(self.entries@),
                lookup(e, key@) == lookup(e.skip(i as int), key@),
            decreases self.entries.len() - i,
        {
            proof {
                lemma_skip_first(e, i as int);
            }
            if str_eq(self.entries[i].0.as_str(), key) {
                return Some(&self.entries[i].1);
            }
            i = i + 1;
        }
        assert(e.skip(self.entries.len() as int) =~= Seq::<(Seq<char>, ValueModel)>::empty());
        None
    }

    /// The string value of `key`; `None` when absent or not a string.
    pub fn opt_str(&self, key: &str) -> (r: Option<&str>)
        ensures
            match r {
                Some(s) => opt_str_model(self@, key@) == Some(s@),
                None => opt_str_model(self@, key@) is None,
            },
    {
        match self.get(key) {
            Some(Value::Str(s)) => Some(s.as_str()),
            _ => None,
        }
    }

    /// The required string value of `key`; `ctx` names the table in errors.
    pub fn req_str(&self, key: &str, ctx: &str) -> (r: Result<String, String>)
        ensures
            match r {
                Ok(s) => req_str_model(self@, key@, ctx@) == Ok::<_, Seq<char>>(s@),
                Err(e) => req_str_model(self@, key@, ctx@) == Err::<Seq<char>, _>(e@),
            },
    {
        match self.get(key) {
            Some(Value::Str(s)) => Ok(s.clone()),
            Some(Value::Arr(_)) => {
                let mut m: Vec<char> = Vec::new();
                push_str(&mut m, ctx);
                push_str(&mut m, "：`");
                push_str(&mut m, key);
                push_str(&mut m, "` 应为字符串，实际是数组");
                assert(m@ =~= want_str_msg(ctx@, key@));
                Err(string_of(&m))
            },
            None => {
                let mut m: Vec<char> = Vec::new();
                push_str(&mut m, ctx);
                push_str(&mut m, "：缺少必填键 `");
                push_str(&mut m, key);
                push_str(&mut m, "`");
                assert(m@ =~= missing_key_msg(ctx@, key@));
                Err(string_of(&m))
            },
        }
    }

    /// The required string-array value of `key`; `ctx` names the table in errors.
    pub fn req_arr(&self, key: &str, ctx: &str) -> (r: Result<Vec<String>, String>)
        ensures
            match r {
                Ok(a) => req_arr_model(self@, key@, ctx@) == Ok::<_, Seq<char>>(str_views(a@)),
                Err(e) => req_arr_model(self@, key@, ctx@) == Err::<Seq<Seq<char>>, _>(e@),
            },
    {
        match self.get(key) {
            Some(Value::Arr(a)) => Ok(clone_strings(a)),
            Some(Value::Str(_)) => {
                let mut m: Vec<char> = Vec::new();
                push_str(&mut m, ctx);
                push_str(&mut m, "：`");
                push_str(&mut m, key);
                push_str(&mut m, "` 应为字符串数组，实际是字符串");
                assert(m@ =~= want_arr_msg(ctx@, key@));
                Err(string_of(&m))
            },
            None => {
                let mut m: Vec<char> = Vec::new();
                push_str(&mut m, ctx);
                push_str(&mut m, "：缺少必填键 `");
                push_str(&mut m, key);
                push_str(&mut m, "`");
                assert(m@ =~= missing_key_msg(ctx@, key@));
                Err(string_of(&m))
            },
        }
    }
}

impl Default for Table {
    fn default() -> (t: Table)
        ensures
            t@ == Seq::<(Seq<char>, ValueModel)>::empty(),
    {
        Table::new()
    }
}

/// The model of a parse result.
pub open spec fn doc_view(r: Result<Vec<(String, Table)>, String>) -> Result<
    Seq<(Seq<char>, Seq<(Seq<char>, ValueModel)>)>,
    Seq<char>,
> {
    match r {
        Ok(t) => Ok(tables_view(t@)),
        Err(e) => Err(e@),
    }
}

/// What follows once the value of `key` is known: it is added to the last
/// table and parsing goes on at line index `k`.
pub open spec fn continue_with(
    ls: Seq<Seq<char>>,
    k: int,
    tables: Seq<(Seq<char>, Seq<(Seq<char>, ValueModel)>)>,
    key: Seq<char>,
    value: Result<ValueModel, Seq<char>>,
    no: nat,
) -> Result<Seq<(Seq<char>, Seq<(Seq<char>, ValueModel)>)>, Seq<char>> {
    match add_entry(tables, key, value, no) {
        Err(e) => Err(e),
        Ok(t2) => parse_from(ls, k, t2, None),
    }
}

/// Adds `key = value` to the last table, as `add_entry` states.
fn add_value(
    tables: &mut Vec<(String, Table)>,
    key: &Vec<char>,
    value: Result<Value, Vec<char>>,
    no: usize,
) -> (r: Result<(), String>)
    ensures
        match r {
            Ok(()) => add_entry(tables_view(old(tables)@), key@, value_view(value), no as nat) == Ok::<
                _,
                Seq<char>,
            >(tables_view(final(tables)@)),
            Err(e) => add_entry(tables_view(old(tables)@), key@, value_view(value), no as nat) == Err::<
                Seq<(Seq<char>, Seq<(Seq<char>, ValueModel)>)>,
                _,
            >(e@),
        },
{
    let v = match value {
        Err(e) => {
            return Err(string_of(&e));
        },
        Ok(v) => v,
    };
    if tables.len() == 0 {
        let mut body: Vec<char> = Vec::new();
        push_str(&mut body, "键 `");
        append(&mut body, key);
        push_str(&mut body, "` 出现在任何 `[[表]]` 之前");
        let m = at_line_exec(no, &body);
        assert(m@ =~= at_line(no as nat, "键 `"@ + key@ + "` 出现在任何 `[[表]]` 之前"@));
        return Err(string_of(&m));
    }
    let ghost before = tables_view(tables@);
    let (name, mut t) = tables.pop().unwrap();
    assert(before.last() == (name@, t@));
    match t.insert(string_of(key), v) {
        Err(e) => {
            let ev = chars_of(e.as_str());
            let m = at_line_exec(no, &ev);
            return Err(string_of(&m));
        },
        Ok(()) => {},
    }
    let ghost nv = name@;
    let ghost tv = t@;
    tables.push((name, t));
    assert(tables_view(tables@) =~= before.update(before.len() - 1, (nv, tv)));
    Ok(())
}

/// Handles `key = value` on line index `k` (whose cleaned text is `line`),
/// reading further lines while an array is open; returns the next line index.
fn key_value(
    ls: &Vec<Vec<char>>,
    k: usize,
    line: &Vec<char>,
    tables: &mut Vec<(String, Table)>,
) -> (r: Result<usize, String>)
    requires
        k < ls.len(),
        line@ == clean(ls@[k as int]@),
        line@.len() > 0,
        !starts_with(line@, "[["@),
        !starts_with(line@, "["@),
    ensures
        match r {
            Ok(k2) => k < k2 <= ls.len() && parse_from(
                views(ls@),
                k as int,
                tables_view(old(tables)@),
                None,
            ) == parse_from(views(ls@), k2 as int, tables_view(final(tables)@), None),
            Err(e) => parse_from(views(ls@), k as int, tables_view(old(tables)@), None) == Err::<
                Seq<(Seq<char>, Seq<(Seq<char>, ValueModel)>)>,
                _,
            >(e@),
        },
{
    let ghost lv = views(ls@);
    assert(lv[k as int] == ls@[k as int]@);
    let no = k + 1;
    let eq_at = find_str(line, "=");
    let i = match eq_at {
        None => {
            let mut body: Vec<char> = Vec::new();
            push_str(&mut body, "无法解析 `");
            append(&mut body, line);
            push_str(&mut body, "`");
            let m = at_line_exec(no, &body);
            assert(m@ =~= at_line(no as nat, "无法解析 `"@ + line@ + "`"@));
            return Err(string_of(&m));
        },
        Some(i) => i,
    };
    proof {
        crate::text::lemma_find_from_bounds(line@, "="@, 0);
        reveal_strlit("=");
    }
    let key_raw = slice_of(line, 0, i);
    assert(key_raw@ =~= line@.take(i as int));
    let key = trim_exec(&key_raw);
    let rest = skip(line, i + 1);
    let text = trim_exec(&rest);
    if key.len() == 0 {
        return Err(string_of(&at_line_str(no, "键名为空")));
    }
    if !starts_with_str(&text, "[") {
        let value = match parse_string(&text, no) {
            Ok(sv) => Ok(Value::Str(string_of(&sv))),
            Err(e) => Err(e),
        };
        assert(value_view(value) == str_value(text@, no as nat));
        assert(parse_from(lv, k as int, tables_view(tables@), None) == continue_with(
            lv,
            k + 1,
            tables_view(tables@),
            key@,
            str_value(text@, no as nat),
            no as nat,
        ));
        match add_value(tables, &key, value, no) {
            Err(e) => {
                return Err(e);
            },
            Ok(()) => {},
        }
        return Ok(k + 1);
    }
    // An array may span lines: read until its brackets and quotes close.
    let ghost t0 = tables_view(tables@);
    let mut buf = text;
    let mut j = k + 1;
    while !array_complete(&buf)
        invariant
            k < j <= ls.len(),
            no == k + 1,
            lv == views(ls@),
            t0 == tables_view(tables@),
            t0 == tables_view(old(tables)@),
            parse_from(lv, k as int, t0, None) == (if spec_array_complete(buf@) {
                continue_with(lv, j as int, t0, key@, arr_value(buf@, no as nat), no as nat)
            } else {
                parse_from(lv, j as int, t0, Some(Pending { key: key@, buf: buf@, no: no as nat }))
            }),
        decreases ls.len() - j,
    {
        if j >= ls.len() {
            return Err(string_of(&at_line_str(no, "数组未闭合")));
        }
        let more = clean_exec(&ls[j]);
        assert(lv[j as int] == ls@[j as int]@);
        let ghost b0 = buf@;
        buf.push(' ');
        append(&mut buf, &more);
        assert(buf@ =~= b0 + seq![' '] + clean(lv[j as int]));
        j = j + 1;
    }
    let value = match parse_array(&buf, no) {
        Ok(items) => Ok(Value::Arr(strings_of(&items))),
        Err(e) => Err(e),
    };
    assert(value_view(value) == arr_value(buf@, no as nat));
    match add_value(tables, &key, value, no) {
        Err(e) => {
            return Err(e);
        },
        Ok(()) => {},
    }
    Ok(j)
}

/// Parses the supported TOML subset into `(table name, table)` pairs in
/// document order; the first unsupported or malformed line is an error.
pub fn parse(input: &str) -> (r: Result<Vec<(String, Table)>, String>)
    ensures
        doc_view(r) == parse_doc(input@),
{
    let ls = lines_of_str(input);
    let ghost lv = views(ls@);
    let mut tables: Vec<(String, Table)> = Vec::new();
    let mut k: usize = 0;
    assert(tables_view(tables@) =~= Seq::<(Seq<char>, Seq<(Seq<char>, ValueModel)>)>::empty());
    while k < ls.len()
        invariant
            k <= ls.len(),
            lv == views(ls@),
            lv == lines(input@),
            parse_doc(input@) == parse_from(lv, k as int, tables_view(tables@), None),
        decreases ls.len() - k,
    {
        let no = k + 1;
        let line = clean_exec(&ls[k]);
        assert(lv[k as int] == ls@[k as int]@);
        if line.len() == 0 {
            k = k + 1;
            continue;
        }
        if starts_with_str(&line, "[[") {
            proof {
                reveal_strlit("[[");
            }
            let inner = skip(&line, 2);
            if ends_with_str(&inner, "]]") {
                proof {
                    reveal_strlit("]]");
                }
                let raw = slice_of(&inner, 0, inner.len() - 2);
                assert(raw@ =~= inner@.take(inner@.len() - 2));
                let name = trim_exec(&raw);
                let ghost before = tables_view(tables@);
                let t = Table::new();
                let ghost tv = t@;
                tables.push((string_of(&name), t));
                assert(tables_view(tables@) =~= before.push((name@, tv)));
                k = k + 1;
                continue;
            }
            return Err(string_of(&at_line_str(no, "数组表头未闭合")));
        }
        if starts_with_str(&line, "[") {
            return Err(string_of(&at_line_str(no, "只支持 `[[表名]]` 形式的数组表")));
        }
        match key_value(&ls, k, &line, &mut tables) {
            Err(e) => {
                return Err(e);
            },
            Ok(k2) => {
                k = k2;
            },
        }
    }
    Ok(tables)
}

// ---------------------------------------------------------------------------
// Laws
// ---------------------------------------------------------------------------

/// Every table of `ts` has each key once.
pub open spec fn all_unique(ts: Seq<(Seq<char>, Seq<(Seq<char>, ValueModel)>)>) -> bool {
    forall|i: int| 0 <= i < ts.len() ==> unique_keys(#[trigger] ts[i].1)
}

proof fn lemma_add_entry_unique(
    tables: Seq<(Seq<char>, Seq<(Seq<char>, ValueModel)>)>,
    key: Seq<char>,
    value: Result<ValueModel, Seq<char>>,
    no: nat,
)
    requires
        all_unique(tables),
    ensures
        add_entry(tables, key, value, no) matches Ok(t2) ==> all_unique(t2),
{
    if let Ok(t2) = add_entry(tables, key, value, no) {
        let n = tables.len() - 1;
        let e = tables.last().1;
        let e2 = e.push((key, value->Ok_0));
        assert(!has_key(e, key));
        assert(unique_keys(e2)) by {
            assert forall|i: int, j: int| 0 <= i < j < e2.len() implies e2[i].0 != e2[j].0 by {
                if j == e.len() {
                    assert(e[i].0 != key);
                } else {
                    assert(unique_keys(tables[n].1));
                }
            }
        }
        assert forall|i: int| 0 <= i < t2.len() implies unique_keys(#[trigger] t2[i].1) by {
            if i != n {
                assert(t2[i] == tables[i]);
            }
        }
    }
}

proof fn lemma_parse_from_unique(
    ls: Seq<Seq<char>>,
    k: int,
    tables: Seq<(Seq<char>, Seq<(Seq<char>, ValueModel)>)>,
    pending: Option<Pending>,
)
    requires
        all_unique(tables),
    ensures
        parse_from(ls, k, tables, pending) matches Ok(ts) ==> all_unique(ts),
    decreases ls.len() - k,
{
    if 0 <= k < ls.len() {
        match pending {
            Some(p) => {
                let buf = p.buf + seq![' '] + clean(ls[k]);
                if spec_array_complete(buf) {
                    lemma_add_entry_unique(tables, p.key, arr_value(buf, p.no), p.no);
                    if let Ok(t2) = add_entry(tables, p.key, arr_value(buf, p.no), p.no) {
                        lemma_parse_from_unique(ls, k + 1, t2, None);
                    }
                } else {
                    lemma_parse_from_unique(ls, k + 1, tables, Some(Pending { key: p.key, buf, no: p.no }));
                }
            },
            None => {
                let no = (k + 1) as nat;
                let line = clean(ls[k]);
                if line.len() == 0 {
                    lemma_parse_from_unique(ls, k + 1, tables, None);
                } else if starts_with(line, "[["@) {
                    let inner = line.skip(2);
                    let name = trim(inner.take(inner.len() - 2));
                    let t2 = tables.push((name, Seq::empty()));
                    assert forall|i: int| 0 <= i < t2.len() implies unique_keys(#[trigger] t2[i].1) by {
                        if i < tables.len() {
                            assert(t2[i] == tables[i]);
                        }
                    }
                    lemma_parse_from_unique(ls, k + 1, t2, None);
                } else if !starts_with(line, "["@) {
                    if let Some(i) = find(line, "="@) {
                        let key = trim(line.take(i));
                        let text = trim(line.skip(i + 1));
                        lemma_add_entry_unique(tables, key, str_value(text, no), no);
                        lemma_add_entry_unique(tables, key, arr_value(text, no), no);
                        if let Ok(t2) = add_entry(tables, key, str_value(text, no), no) {
                            lemma_parse_from_unique(ls, k + 1, t2, None);
                        }
                        if let Ok(t2) = add_entry(tables, key, arr_value(text, no), no) {
                            lemma_parse_from_unique(ls, k + 1, t2, None);
                        }
                        lemma_parse_from_unique(ls, k + 1, tables, Some(Pending { key, buf: text, no }));
                    }
                }
            },
        }
    }
}

/// A parsed table holds each key once: a repeated key is an error.
pub proof fn parsed_keys_are_unique(input: Seq<char>)
    ensures
        parse_doc(input) matches Ok(ts) ==> all_unique(ts),
{
    lemma_parse_from_unique(lines(input), 0, Seq::empty(), None);
}

// ---------------------------------------------------------------------------
// Writing a string so that it reads back
// ---------------------------------------------------------------------------

/// A character written inside a string: `\`, `"`, newline and tab escaped.
pub open spec fn escape_char(c: char) -> Seq<char> {
    if c == '\\' {
        seq!['\\', '\\']
    } else if c == '"' {
        seq!['\\', '"']
    } else if c == '\n' {
        seq!['\\', 'n']
    } else if c == '\t' {
        seq!['\\', 't']
    } else {
        seq![c]
    }
}

/// `s` written as the body of a string.
pub open spec fn escape(s: Seq<char>) -> Seq<char>
    decreases s.len(),
{
    if s.len() == 0 {
        Seq::empty()
    } else {
        escape_char(s[0]) + escape(s.drop_first())
    }
}

proof fn lemma_unescape_escape(s: Seq<char>, no: nat)
    ensures
        spec_unescape(escape(s), no) == Ok::<Seq<char>, Seq<char>>(s),
        !crate::text::has_char(escape(s), '\n'),
    decreases s.len(),
{
    if s.len() == 0 {
        assert(s =~= Seq::<char>::empty());
    } else {
        let r = s.drop_first();
        lemma_unescape_escape(r, no);
        let e = escape(s);
        let er = escape(r);
        let c = escape_char(s[0]);
        assert(e == c + er);
        assert(seq![s[0]] + r =~= s);
        if c.len() == 1 {
            assert(e[0] == s[0]);
            assert(s[0] != '"' && s[0] != '\\');
            assert(e.drop_first() =~= er);
            assert(spec_unescape(e, no) == match spec_unescape(e.drop_first(), no) {
                Ok(x) => Ok(seq![e[0]] + x),
                Err(m) => Err(m),
            });
        } else {
            assert(e[0] == '\\' && e[1] == c[1]);
            assert(e.skip(2) =~= er);
            let n = e[1];
            let back = if n == 'n' {
                '\n'
            } else if n == 't' {
                '\t'
            } else {
                n
            };
            assert(back == s[0]);
            assert(spec_unescape(e, no) == match spec_unescape(e.skip(2), no) {
                Ok(x) => Ok(seq![back] + x),
                Err(m) => Err::<Seq<char>, Seq<char>>(m),
            });
        }
        assert forall|k: int| 0 <= k < e.len() implies e[k] != '\n' by {
            if k >= c.len() {
                assert(e[k] == er[k - c.len()]);
            }
        }
    }
}

proof fn lemma_comment_escape(s: Seq<char>, rest: Seq<char>)
    ensures
        comment_from(escape(s) + rest, true, false) == shift(comment_from(rest, true, false), escape(s).len() as int),
    decreases s.len(),
{
    if s.len() == 0 {
        assert(escape(s) + rest =~= rest);
        assert(shift(comment_from(rest, true, false), 0) == comment_from(rest, true, false));
    } else {
        let r = s.drop_first();
        lemma_comment_escape(r, rest);
        let c = escape_char(s[0]);
        let x = escape(s) + rest;
        let y = escape(r) + rest;
        assert(x =~= c + y);
        assert(escape(s).len() == c.len() + escape(r).len());
        if c.len() == 1 {
            assert(x.drop_first() =~= y);
            assert(x[0] == s[0]);
            assert(s[0] != '"' && s[0] != '\\');
            assert(comment_from(x, true, false) == shift(comment_from(y, true, false), 1));
        } else {
            assert(x.drop_first().drop_first() =~= y);
            assert(x[0] == '\\');
            assert(x.drop_first()[0] == c[1]);
            assert(comment_from(x.drop_first(), true, true) == shift(comment_from(y, true, false), 1));
            assert(comment_from(x, true, false) == shift(comment_from(x.drop_first(), true, true), 1));
        }
    }
}

proof fn lemma_comment_plain(p: Seq<char>, x: Seq<char>)
    requires
        forall|i: int| 0 <= i < p.len() ==> p[i] != '"' && p[i] != '#',
    ensures
        comment_from(p + x, false, false) == shift(comment_from(x, false, false), p.len() as int),
    decreases p.len(),
{
    if p.len() == 0 {
        assert(p + x =~= x);
        assert(shift(comment_from(x, false, false), 0) == comment_from(x, false, false));
    } else {
        let r = p.drop_first();
        lemma_comment_plain(r, x);
        assert((p + x).drop_first() =~= r + x);
        assert((p + x)[0] == p[0]);
    }
}

/// A document of one table `[[t]]` holding one key `k`, whose value is any
/// string written with its escapes (`escape`), reads back that string.
pub proof fn string_escape_round_trips(s: Seq<char>)
    ensures
        parse_doc("[[t]]\nk = \""@ + escape(s) + "\"\n"@) == Ok::<
            Seq<(Seq<char>, Seq<(Seq<char>, ValueModel)>)>,
            Seq<char>,
        >(seq![("t"@, seq![("k"@, ValueModel::Str(s))])]),
{
    reveal_strlit("[[t]]\nk = \"");
    reveal_strlit("\"\n");
    reveal_strlit("t");
    reveal_strlit("k");
    reveal_strlit("[[");
    reveal_strlit("]]");
    reveal_strlit("[");
    reveal_strlit("=");
    reveal_strlit("\n");
    let e = escape(s);
    lemma_unescape_escape(s, 2);
    let hd = seq!['[', '[', 't', ']', ']'];
    let q = seq!['"'];
    let body = q + e + q;
    let l = seq!['k', ' ', '=', ' '] + body;
    let input = "[[t]]\nk = \""@ + e + "\"\n"@;
    let f = seq![hd, l];
    assert(crate::text::join_nl(f.drop_last()) == hd);
    assert(crate::text::join_nl(f) == crate::text::join_nl(f.drop_last()) + "\n"@ + f.last());
    assert(input =~= crate::text::join_nl(f) + seq!['\n']);
    assert forall|k: int| 0 <= k < f.len() implies !crate::text::has_char(#[trigger] f[k], '\n') by {
        if k == 1 {
            assert forall|i: int| 0 <= i < l.len() implies l[i] != '\n' by {
                if 5 <= i < 5 + e.len() {
                    assert(l[i] == e[i - 5]);
                }
            }
        }
    }
    crate::text::lemma_lines_join(f);
    assert(crate::text::line_body(hd) == hd);
    assert(l.last() == '"');
    assert(crate::text::line_body(l) == l);
    let ls = lines(input);
    assert(ls =~= f);
    // Neither line has a comment.
    lemma_comment_plain(hd, Seq::empty());
    assert(hd + Seq::<char>::empty() =~= hd);
    lemma_comment_escape(s, q);
    assert(comment_from(q, true, false) == None::<int>) by {
        assert(q.drop_first() =~= Seq::<char>::empty());
    }
    assert(body.drop_first() =~= e + q);
    assert(comment_from(body, false, false) == None::<int>);
    lemma_comment_plain(seq!['k', ' ', '=', ' '], body);
    assert(clean(hd) == hd);
    assert(clean(l) == l) by {
        assert(spec_strip_comment(l) == l);
        assert(!is_ws(l[0]));
        assert(!is_ws(l.last()));
    }
    // The header line.
    let inner = hd.skip(2);
    assert(inner =~= seq!['t', ']', ']']);
    assert(starts_with(hd, "[["@)) by {
        assert(hd.subrange(0, 2) =~= "[["@);
    }
    assert(ends_with(inner, "]]"@)) by {
        assert(inner.subrange(1, 3) =~= "]]"@);
    }
    assert(inner.take(inner.len() - 2) =~= "t"@);
    assert(trim("t"@) == "t"@);
    let t1 = seq![("t"@, Seq::<(Seq<char>, ValueModel)>::empty())];
    assert(parse_from(ls, 0, Seq::empty(), None) == parse_from(ls, 1, t1, None)) by {
        assert(Seq::<(Seq<char>, Seq<(Seq<char>, ValueModel)>)>::empty().push(("t"@, Seq::empty())) =~= t1);
    }
    // The key line.
    assert(!starts_with(l, "[["@)) by {
        assert(l.subrange(0, 2)[0] == 'k');
    }
    assert(!starts_with(l, "["@)) by {
        assert(l.subrange(0, 1)[0] == 'k');
    }
    assert(find(l, "="@) == Some(2int)) by {
        assert(l.subrange(0, 1) =~= seq!['k']);
        assert(l.subrange(1, 2) =~= seq![' ']);
        assert(l.subrange(2, 3) =~= "="@);
        assert(seq!['k'] != "="@) by {
            assert(seq!['k'][0] != "="@[0]);
        }
        assert(seq![' '] != "="@) by {
            assert(seq![' '][0] != "="@[0]);
        }
        assert(crate::text::find_from(l, "="@, 2) == Some(2int));
        assert(crate::text::find_from(l, "="@, 1) == crate::text::find_from(l, "="@, 2));
        assert(crate::text::find_from(l, "="@, 0) == crate::text::find_from(l, "="@, 1));
    }
    assert(l.take(2) =~= seq!['k', ' ']);
    assert(trim(seq!['k', ' ']) == "k"@) by {
        assert(crate::text::trim_start(seq!['k', ' ']) == seq!['k', ' ']);
        assert(seq!['k', ' '].drop_last() =~= seq!['k']);
        assert(crate::text::trim_end(seq!['k']) == seq!['k']);
        assert(seq!['k'] =~= "k"@);
    }
    assert(l.skip(3) =~= seq![' '] + body);
    assert(trim(seq![' '] + body) == body) by {
        assert(body[0] == '"' && body.last() == '"');
        assert(!is_ws(body[0]));
        assert(crate::text::trim_start(body) == body);
        assert((seq![' '] + body).drop_first() =~= body);
        assert((seq![' '] + body)[0] == ' ');
        assert(is_ws(' '));
        assert(crate::text::trim_start(seq![' '] + body) == body);
    }
    assert(!starts_with(body, "["@)) by {
        assert(body.subrange(0, 1)[0] == '"');
    }
    assert(body.subrange(1, body.len() - 1) =~= e);
    assert(str_value(body, 2) == Ok::<ValueModel, Seq<char>>(ValueModel::Str(s)));
    assert(!has_key(Seq::<(Seq<char>, ValueModel)>::empty(), "k"@));
    let t2 = seq![("t"@, seq![("k"@, ValueModel::Str(s))])];
    assert(add_entry(t1, "k"@, str_value(body, 2), 2) == Ok::<
        Seq<(Seq<char>, Seq<(Seq<char>, ValueModel)>)>,
        Seq<char>,
    >(t2)) by {
        assert(Seq::<(Seq<char>, ValueModel)>::empty().push(("k"@, ValueModel::Str(s))) =~= seq![
            ("k"@, ValueModel::Str(s)),
        ]);
        assert(t1.update(0, ("t"@, seq![("k"@, ValueModel::Str(s))])) =~= t2);
    }
    assert(parse_from(ls, 1, t1, None) == parse_from(ls, 2, t2, None));
}

} // verus!
