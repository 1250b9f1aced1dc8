//! Character-sequence primitives shared by every module: the model of a
//! string is its `Seq<char>`, and each helper here states what it computes
//! over that model.
use vstd::prelude::*;

verus! {

/// `String::push` appends one character at the end.
pub assume_specification[ String::push ](s: &mut String, ch: char)
    ensures
        final(s)@ == old(s)@.push(ch),
;

// ---------------------------------------------------------------------------
// Specifications
// ---------------------------------------------------------------------------

/// Unicode `White_Space`, the property behind `char::is_whitespace`.
pub open spec fn is_ws(c: char) -> bool {
    ||| ('\u{9}' <= c && c <= '\u{d}')
    ||| c == ' '
    ||| c == '\u{85}'
    ||| c == '\u{a0}'
    ||| c == '\u{1680}'
    ||| ('\u{2000}' <= c && c <= '\u{200a}')
    ||| c == '\u{2028}'
    ||| c == '\u{2029}'
    ||| c == '\u{202f}'
    ||| c == '\u{205f}'
    ||| c == '\u{3000}'
}

/// `s` without its leading whitespace.
pub open spec fn trim_start(s: Seq<char>) -> Seq<char>
    decreases s.len(),
{
    if s.len() > 0 && is_ws(s[0]) {
        trim_start(s.drop_first())
    } else {
        s
    }
}

/// `s` without its trailing whitespace.
pub open spec fn trim_end(s: Seq<char>) -> Seq<char>
    decreases s.len(),
{
    if s.len() > 0 && is_ws(s.last()) {
        trim_end(s.drop_last())
    } else {
        s
    }
}

/// `s` without leading and trailing whitespace.
pub open spec fn trim(s: Seq<char>) -> Seq<char> {
    trim_end(trim_start(s))
}

/// `p` is a prefix of `s`.
pub open spec fn starts_with(s: Seq<char>, p: Seq<char>) -> bool {
    p.len() <= s.len() && s.subrange(0, p.len() as int) == p
}

/// `p` is a suffix of `s`.
pub open spec fn ends_with(s: Seq<char>, p: Seq<char>) -> bool {
    p.len() <= s.len() && s.subrange(s.len() - p.len(), s.len() as int) == p
}

/// `p` occurs in `s` starting at index `i`.
pub open spec fn occurs_at(s: Seq<char>, p: Seq<char>, i: int) -> bool {
    0 <= i && i + p.len() <= s.len() && s.subrange(i, i + p.len()) == p
}

/// The first index `>= i` at which `p` occurs in `s`.
pub open spec fn find_from(s: Seq<char>, p: Seq<char>, i: int) -> Option<int>
    decreases s.len() - i,
{
    if i < 0 || i + p.len() > s.len() {
        None
    } else if p.len() == 0 || s.subrange(i, i + p.len()) == p {
        Some(i)
    } else {
        find_from(s, p, i + 1)
    }
}

/// The first index at which `p` occurs in `s` (`str::find`).
pub open spec fn find(s: Seq<char>, p: Seq<char>) -> Option<int> {
    find_from(s, p, 0)
}

/// The last index `<= i` at which `p` occurs in `s`.
pub open spec fn rfind_upto(s: Seq<char>, p: Seq<char>, i: int) -> Option<int>
    decreases i + 1,
{
    if i < 0 {
        None
    } else if occurs_at(s, p, i) {
        Some(i)
    } else {
        rfind_upto(s, p, i - 1)
    }
}

/// The last index at which `p` occurs in `s` (`str::rfind`).
pub open spec fn rfind(s: Seq<char>, p: Seq<char>) -> Option<int> {
    rfind_upto(s, p, s.len() - p.len())
}

/// `p` occurs somewhere in `s` (`str::contains`).
pub open spec fn contains(s: Seq<char>, p: Seq<char>) -> bool {
    find(s, p) is Some
}

/// A line without the `'\r'` of a `"\r\n"` ending.
pub open spec fn line_body(l: Seq<char>) -> Seq<char> {
    if l.len() > 0 && l.last() == '\r' {
        l.drop_last()
    } else {
        l
    }
}

/// The lines of `s` that follow a partial line `cur`.
pub open spec fn lines_from(s: Seq<char>, cur: Seq<char>) -> Seq<Seq<char>>
    decreases s.len(),
{
    if s.len() == 0 {
        if cur.len() == 0 {
            Seq::empty()
        } else {
            seq![cur]
        }
    } else if s[0] == '\n' {
        seq![line_body(cur)] + lines_from(s.drop_first(), Seq::empty())
    } else {
        lines_from(s.drop_first(), cur.push(s[0]))
    }
}

/// `str::lines`: pieces between `'\n'`s, a `'\r'` before a `'\n'` dropped,
/// and no empty piece after a final `'\n'`.
pub open spec fn lines(s: Seq<char>) -> Seq<Seq<char>> {
    lines_from(s, Seq::empty())
}

/// The pieces of `s` between the separators that `sep` accepts, after a partial piece `cur`.
pub open spec fn split_from(s: Seq<char>, cur: Seq<char>, sep: spec_fn(char) -> bool) -> Seq<
    Seq<char>,
>
    decreases s.len(),
{
    if s.len() == 0 {
        seq![cur]
    } else if sep(s[0]) {
        seq![cur] + split_from(s.drop_first(), Seq::empty(), sep)
    } else {
        split_from(s.drop_first(), cur.push(s[0]), sep)
    }
}

/// `str::split` with a character predicate: always at least one piece.
pub open spec fn split(s: Seq<char>, sep: spec_fn(char) -> bool) -> Seq<Seq<char>> {
    split_from(s, Seq::empty(), sep)
}

/// The lines joined by `\n` (`[String]::join("\n")`).
pub open spec fn join_nl(ls: Seq<Seq<char>>) -> Seq<char>
    decreases ls.len(),
{
    if ls.len() == 0 {
        Seq::empty()
    } else if ls.len() == 1 {
        ls[0]
    } else {
        join_nl(ls.drop_last()) + "\n"@ + ls.last()
    }
}

/// The pieces joined by `sep` (`[String]::join(sep)`).
pub open spec fn join_with(ls: Seq<Seq<char>>, sep: Seq<char>) -> Seq<char>
    decreases ls.len(),
{
    if ls.len() == 0 {
        Seq::empty()
    } else if ls.len() == 1 {
        ls[0]
    } else {
        join_with(ls.drop_last(), sep) + sep + ls.last()
    }
}

/// The decimal digit character for `d < 10`.
pub open spec fn digit_char(d: nat) -> char {
    if d == 0 {
        '0'
    } else if d == 1 {
        '1'
    } else if d == 2 {
        '2'
    } else if d == 3 {
        '3'
    } else if d == 4 {
        '4'
    } else if d == 5 {
        '5'
    } else if d == 6 {
        '6'
    } else if d == 7 {
        '7'
    } else if d == 8 {
        '8'
    } else {
        '9'
    }
}

/// The decimal rendering of `n`, as `format!("{n}")` writes it.
pub open spec fn decimal(n: nat) -> Seq<char>
    decreases n,
{
    if n < 10 {
        seq![digit_char(n)]
    } else {
        decimal(n / 10).push(digit_char(n % 10))
    }
}

/// `c` is an ASCII decimal digit.
pub open spec fn is_digit(c: char) -> bool {
    '0' <= c && c <= '9'
}

/// `c` is an ASCII letter or digit.
pub open spec fn is_alnum(c: char) -> bool {
    ('0' <= c && c <= '9') || ('a' <= c && c <= 'z') || ('A' <= c && c <= 'Z')
}

/// ASCII lowercase of `c`; other characters unchanged.
pub open spec fn lower(c: char) -> char {
    if 'A' <= c && c <= 'Z' {
        ((c as u32) + 32) as char
    } else {
        c
    }
}

/// `s` contains the character `c`.
pub open spec fn has_char(s: Seq<char>, c: char) -> bool {
    exists|i: int| 0 <= i < s.len() && s[i] == c
}

/// The index of the `)` that closes a group opened before `j`, at `depth`
/// open parentheses.
pub open spec fn close_paren(s: Seq<char>, j: int, depth: int) -> Option<int>
    decreases s.len() - j,
{
    if j < 0 || j >= s.len() {
        None
    } else if s[j] == '(' {
        close_paren(s, j + 1, depth + 1)
    } else if s[j] == ')' {
        if depth == 1 {
            Some(j)
        } else {
            close_paren(s, j + 1, depth - 1)
        }
    } else {
        close_paren(s, j + 1, depth)
    }
}

pub proof fn lemma_close_paren(s: Seq<char>, j: int, depth: int)
    ensures
        close_paren(s, j, depth) matches Some(k) ==> j <= k < s.len(),
    decreases s.len() - j,
{
    if 0 <= j < s.len() {
        if s[j] == '(' {
            lemma_close_paren(s, j + 1, depth + 1);
        } else if s[j] == ')' {
            if depth != 1 {
                lemma_close_paren(s, j + 1, depth - 1);
            }
        } else {
            lemma_close_paren(s, j + 1, depth);
        }
    }
}

// ---------------------------------------------------------------------------
// Lemmas
// ---------------------------------------------------------------------------

/// `trim_start(s)` is the suffix of `s` that follows its leading whitespace.
pub proof fn lemma_trim_start_suffix(s: Seq<char>)
    ensures
        trim_start(s).len() <= s.len(),
        trim_start(s) == s.skip(s.len() - trim_start(s).len()),
        forall|i: int| 0 <= i < s.len() - trim_start(s).len() ==> is_ws(#[trigger] s[i]),
        trim_start(s).len() > 0 ==> !is_ws(trim_start(s)[0]),
    decreases s.len(),
{
    if s.len() > 0 && is_ws(s[0]) {
        let r = s.drop_first();
        lemma_trim_start_suffix(r);
        assert(r.skip(r.len() - trim_start(r).len()) =~= s.skip(s.len() - trim_start(s).len()));
        assert forall|i: int| 0 <= i < s.len() - trim_start(s).len() implies is_ws(#[trigger] s[i]) by {
            if i > 0 {
                assert(s[i] == r[i - 1]);
            }
        }
    } else {
        assert(s.skip(0) =~= s);
    }
}

/// Splitting after a newline splits the lines: the lines of `a + b`, where
/// `a` ends with `\n`, are those of `a` followed by those of `b`.
pub proof fn lemma_lines_concat(a: Seq<char>, b: Seq<char>, cur: Seq<char>)
    requires
        a.len() > 0,
        a.last() == '\n',
    ensures
        lines_from(a + b, cur) == lines_from(a, cur) + lines_from(b, Seq::empty()),
    decreases a.len(),
{
    assert((a + b).drop_first() =~= a.drop_first() + b);
    if a[0] == '\n' {
        if a.len() == 1 {
            assert(a.drop_first() =~= Seq::<char>::empty());
            assert(lines_from(a.drop_first(), Seq::empty()) =~= Seq::<Seq<char>>::empty());
            assert(a.drop_first() + b =~= b);
        } else {
            lemma_lines_concat(a.drop_first(), b, Seq::empty());
        }
        assert(lines_from(a + b, cur) =~= lines_from(a, cur) + lines_from(b, Seq::empty()));
    } else {
        lemma_lines_concat(a.drop_first(), b, cur.push(a[0]));
    }
}

/// A piece with no newline, after a partial line `cur`, is one last line.
pub proof fn lemma_lines_single(x: Seq<char>, cur: Seq<char>)
    requires
        !has_char(x, '\n'),
        cur.len() + x.len() > 0,
    ensures
        lines_from(x, cur) == seq![cur + x],
    decreases x.len(),
{
    if x.len() == 0 {
        assert(cur + x =~= cur);
    } else {
        assert(x[0] != '\n');
        assert(!has_char(x.drop_first(), '\n')) by {
            if has_char(x.drop_first(), '\n') {
                let i = choose|i: int| 0 <= i < x.drop_first().len() && x.drop_first()[i] == '\n';
                assert(x[i + 1] == '\n');
            }
        }
        lemma_lines_single(x.drop_first(), cur.push(x[0]));
        assert(cur.push(x[0]) + x.drop_first() =~= cur + x);
    }
}

/// A piece with no newline, then a newline, is one line without its `\r`.
pub proof fn lemma_lines_newline(x: Seq<char>, cur: Seq<char>)
    requires
        !has_char(x, '\n'),
    ensures
        lines_from(x + seq!['\n'], cur) == seq![line_body(cur + x)],
    decreases x.len(),
{
    if x.len() == 0 {
        let s1 = seq!['\n'];
        assert(x + seq!['\n'] =~= s1);
        assert(s1.drop_first() =~= Seq::<char>::empty());
        assert(cur + x =~= cur);
        assert(lines_from(Seq::<char>::empty(), Seq::<char>::empty()) =~= Seq::<Seq<char>>::empty());
        assert(lines_from(s1, cur) == seq![line_body(cur)] + lines_from(s1.drop_first(), Seq::empty()));
        assert(lines_from(x + seq!['\n'], cur) =~= seq![line_body(cur)]);
    } else {
        assert(x[0] != '\n');
        assert(!has_char(x.drop_first(), '\n')) by {
            if has_char(x.drop_first(), '\n') {
                let i = choose|i: int| 0 <= i < x.drop_first().len() && x.drop_first()[i] == '\n';
                assert(x[i + 1] == '\n');
            }
        }
        assert((x + seq!['\n']).drop_first() =~= x.drop_first() + seq!['\n']);
        lemma_lines_newline(x.drop_first(), cur.push(x[0]));
        assert(cur.push(x[0]) + x.drop_first() =~= cur + x);
    }
}

/// Joining newline-free lines and splitting them again gives them back,
/// each without a final `\r` when a newline follows it.
pub proof fn lemma_lines_join(f: Seq<Seq<char>>)
    requires
        f.len() > 0,
        forall|k: int| 0 <= k < f.len() ==> !has_char(#[trigger] f[k], '\n'),
    ensures
        lines(join_nl(f) + seq!['\n']) == Seq::new(f.len(), |k: int| line_body(f[k])),
        f.last().len() > 0 ==> lines(join_nl(f)) == Seq::new(
            f.len(),
            |k: int|
                if k < f.len() - 1 {
                    line_body(f[k])
                } else {
                    f[k]
                },
        ),
    decreases f.len(),
{
    reveal_strlit("\n");
    if f.len() == 1 {
        lemma_lines_newline(f[0], Seq::empty());
        assert(Seq::<char>::empty() + f[0] =~= f[0]);
        assert(lines(join_nl(f) + seq!['\n']) =~= Seq::new(f.len(), |k: int| line_body(f[k])));
        if f.last().len() > 0 {
            lemma_lines_single(f[0], Seq::empty());
            assert(lines(join_nl(f)) =~= Seq::new(
                f.len(),
                |k: int|
                    if k < f.len() - 1 {
                        line_body(f[k])
                    } else {
                        f[k]
                    },
            ));
        }
    } else {
        let g = f.drop_last();
        lemma_lines_join(g);
        let a = join_nl(g) + seq!['\n'];
        assert(a.last() == '\n');
        assert(join_nl(f) =~= a + f.last());
        assert(join_nl(f) + seq!['\n'] =~= a + (f.last() + seq!['\n']));
        lemma_lines_concat(a, f.last() + seq!['\n'], Seq::empty());
        lemma_lines_newline(f.last(), Seq::empty());
        assert(Seq::<char>::empty() + f.last() =~= f.last());
        assert(lines(join_nl(f) + seq!['\n']) =~= Seq::new(f.len(), |k: int| line_body(f[k])));
        if f.last().len() > 0 {
            lemma_lines_concat(a, f.last(), Seq::empty());
            lemma_lines_single(f.last(), Seq::empty());
            assert(lines(join_nl(f)) =~= Seq::new(
                f.len(),
                |k: int|
                    if k < f.len() - 1 {
                        line_body(f[k])
                    } else {
                        f[k]
                    },
            ));
        }
    }
}

/// The lines of `s` hold no newline; unless `s` ends with one, the last
/// line is not empty.
pub proof fn lemma_lines_shape(s: Seq<char>, cur: Seq<char>)
    requires
        !has_char(cur, '\n'),
    ensures
        forall|k: int| 0 <= k < lines_from(s, cur).len() ==> !has_char(#[trigger] lines_from(s, cur)[k], '\n'),
        (s.len() > 0 && s.last() != '\n') || (s.len() == 0 && cur.len() > 0) ==> lines_from(s, cur).len() > 0
            && lines_from(s, cur).last().len() > 0,
    decreases s.len(),
{
    if s.len() == 0 {
        if cur.len() > 0 {
            assert(lines_from(s, cur) =~= seq![cur]);
        }
    } else if s[0] == '\n' {
        assert(s.len() > 1 ==> s.drop_first().last() == s.last());
        lemma_lines_shape(s.drop_first(), Seq::empty());
        assert(!has_char(line_body(cur), '\n')) by {
            if has_char(line_body(cur), '\n') {
                let i = choose|i: int| 0 <= i < line_body(cur).len() && line_body(cur)[i] == '\n';
                assert(cur[i] == '\n');
            }
        }
        let r = lines_from(s.drop_first(), Seq::empty());
        assert(lines_from(s, cur) == seq![line_body(cur)] + r);
        assert forall|k: int| 0 <= k < lines_from(s, cur).len() implies !has_char(
            #[trigger] lines_from(s, cur)[k],
            '\n',
        ) by {
            if k > 0 {
                assert(lines_from(s, cur)[k] == r[k - 1]);
            }
        }
    } else {
        assert(!has_char(cur.push(s[0]), '\n')) by {
            if has_char(cur.push(s[0]), '\n') {
                let i = choose|i: int| 0 <= i < cur.push(s[0]).len() && cur.push(s[0])[i] == '\n';
                if i < cur.len() {
                    assert(cur[i] == '\n');
                }
            }
        }
        assert(s.len() > 1 ==> s.drop_first().last() == s.last());
        lemma_lines_shape(s.drop_first(), cur.push(s[0]));
        assert(lines_from(s, cur) == lines_from(s.drop_first(), cur.push(s[0])));
    }
}

/// Appending to a line with some non-blank character appends to its trimmed form.
pub proof fn lemma_trim_start_push(x: Seq<char>, c: char)
    requires
        exists|i: int| 0 <= i < x.len() && !is_ws(#[trigger] x[i]),
    ensures
        trim_start(x.push(c)) == trim_start(x).push(c),
    decreases x.len(),
{
    if is_ws(x[0]) {
        let w = choose|i: int| 0 <= i < x.len() && !is_ws(#[trigger] x[i]);
        assert(x.drop_first()[w - 1] == x[w]);
        lemma_trim_start_push(x.drop_first(), c);
        assert(x.push(c).drop_first() =~= x.drop_first().push(c));
    }
}

/// A blank line trims to nothing.
pub proof fn lemma_trim_start_blank(x: Seq<char>)
    requires
        forall|i: int| 0 <= i < x.len() ==> is_ws(#[trigger] x[i]),
    ensures
        trim_start(x).len() == 0,
    decreases x.len(),
{
    if x.len() > 0 {
        assert forall|i: int| 0 <= i < x.drop_first().len() implies is_ws(#[trigger] x.drop_first()[i]) by {
            assert(x.drop_first()[i] == x[i + 1]);
        }
        lemma_trim_start_blank(x.drop_first());
    }
}

/// Leading blanks do not change the trimmed form.
pub proof fn lemma_trim_start_blank_prefix(w: Seq<char>, y: Seq<char>)
    requires
        forall|i: int| 0 <= i < w.len() ==> is_ws(#[trigger] w[i]),
    ensures
        trim_start(w + y) == trim_start(y),
    decreases w.len(),
{
    if w.len() == 0 {
        assert(w + y =~= y);
    } else {
        assert((w + y)[0] == w[0]);
        assert((w + y).drop_first() =~= w.drop_first() + y);
        assert forall|i: int| 0 <= i < w.drop_first().len() implies is_ws(#[trigger] w.drop_first()[i]) by {
            assert(w.drop_first()[i] == w[i + 1]);
        }
        lemma_trim_start_blank_prefix(w.drop_first(), y);
    }
}

/// Appending a character that `p` does not hold leaves "starts with `p`" unchanged.
pub proof fn lemma_starts_with_push(t: Seq<char>, c: char, p: Seq<char>)
    requires
        !has_char(p, c),
    ensures
        starts_with(t.push(c), p) == starts_with(t, p),
{
    if p.len() <= t.len() {
        assert(t.push(c).subrange(0, p.len() as int) =~= t.subrange(0, p.len() as int));
    } else if starts_with(t.push(c), p) {
        assert(p[p.len() - 1] == t.push(c).subrange(0, p.len() as int)[p.len() - 1]);
    }
}

/// `trim_end(s)` is a prefix of `s` that is empty or ends with a non-blank.
pub proof fn lemma_trim_end_prefix(s: Seq<char>)
    ensures
        trim_end(s).len() <= s.len(),
        trim_end(s) == s.take(trim_end(s).len() as int),
        trim_end(s).len() > 0 ==> !is_ws(trim_end(s).last()),
    decreases s.len(),
{
    if s.len() > 0 && is_ws(s.last()) {
        lemma_trim_end_prefix(s.drop_last());
        assert(s.drop_last().take(trim_end(s).len() as int) =~= s.take(trim_end(s).len() as int));
    } else {
        assert(s.take(s.len() as int) =~= s);
    }
}

/// Trimming twice is trimming once.
pub proof fn lemma_trim_idempotent(s: Seq<char>)
    ensures
        trim(trim(s)) == trim(s),
{
    let u = trim_start(s);
    lemma_trim_start_suffix(s);
    let v = trim_end(u);
    lemma_trim_end_prefix(u);
    if v.len() > 0 {
        assert(v[0] == u[0]);
        assert(trim_start(v) == v);
    } else {
        assert(trim_start(v) == v);
    }
}

pub proof fn lemma_find_from_bounds(s: Seq<char>, p: Seq<char>, i: int)
    requires
        0 <= i,
    ensures
        find_from(s, p, i) matches Some(j) ==> i <= j && occurs_at(s, p, j) && forall|k: int|
            i <= k < j ==> !occurs_at(s, p, k),
        find_from(s, p, i) is None ==> forall|k: int| i <= k ==> !occurs_at(s, p, k),
    decreases s.len() - i,
{
    if i + p.len() > s.len() {
    } else if p.len() == 0 || s.subrange(i, i + p.len()) == p {
        if p.len() == 0 {
            assert(s.subrange(i, i + p.len()) =~= p);
        }
    } else {
        lemma_find_from_bounds(s, p, i + 1);
    }
}

pub proof fn lemma_rfind_upto_bounds(s: Seq<char>, p: Seq<char>, i: int)
    ensures
        rfind_upto(s, p, i) matches Some(j) ==> j <= i && occurs_at(s, p, j) && forall|k: int|
            j < k <= i ==> !occurs_at(s, p, k),
        rfind_upto(s, p, i) is None ==> forall|k: int| k <= i ==> !occurs_at(s, p, k),
    decreases i + 1,
{
    if i >= 0 && !occurs_at(s, p, i) {
        lemma_rfind_upto_bounds(s, p, i - 1);
    }
}

/// Membership in a prefix grown by one element.
pub proof fn lemma_take_succ_contains<A>(s: Seq<A>, i: int, n: A)
    requires
        0 <= i < s.len(),
    ensures
        s.take(i + 1).contains(n) <==> (s.take(i).contains(n) || n == s[i]),
{
    let t1 = s.take(i + 1);
    let t0 = s.take(i);
    if t1.contains(n) {
        let k = choose|k: int| 0 <= k < t1.len() && t1[k] == n;
        if k < i {
            assert(t0[k] == n);
        }
    }
    if t0.contains(n) {
        let k = choose|k: int| 0 <= k < t0.len() && t0[k] == n;
        assert(t1[k] == n);
    }
    if n == s[i] {
        assert(t1[i] == n);
    }
}

/// In a sequence without repeats, an element is not among those before it.
pub proof fn lemma_distinct_prefix<A>(s: Seq<A>, i: int)
    requires
        0 <= i < s.len(),
        forall|a: int, b: int| 0 <= a < s.len() && 0 <= b < s.len() && a != b ==> s[a] != s[b],
    ensures
        !s.take(i).contains(s[i]),
{
    let t = s.take(i);
    if t.contains(s[i]) {
        let k = choose|k: int| 0 <= k < t.len() && t[k] == s[i];
        assert(s[k] == s[i]);
    }
}

/// Membership after inserting one element.
pub proof fn lemma_insert_contains<A>(o: Seq<A>, p: int, x: A, n: A)
    requires
        0 <= p <= o.len(),
    ensures
        o.insert(p, x).contains(n) <==> (o.contains(n) || n == x),
{
    let o2 = o.insert(p, x);
    if o2.contains(n) {
        let k = choose|k: int| 0 <= k < o2.len() && o2[k] == n;
        if k < p {
            assert(o[k] == n);
        } else if k > p {
            assert(o[k - 1] == n);
        }
    }
    if o.contains(n) {
        let k = choose|k: int| 0 <= k < o.len() && o[k] == n;
        if k < p {
            assert(o2[k] == n);
        } else {
            assert(o2[k + 1] == n);
        }
    }
    if n == x {
        assert(o2[p] == n);
    }
}

/// Membership after appending one element.
pub proof fn lemma_push_contains<A>(o: Seq<A>, x: A, n: A)
    ensures
        o.push(x).contains(n) <==> (o.contains(n) || n == x),
{
    let o2 = o.push(x);
    if o2.contains(n) {
        let k = choose|k: int| 0 <= k < o2.len() && o2[k] == n;
        if k < o.len() {
            assert(o[k] == n);
        }
    }
    if o.contains(n) {
        let k = choose|k: int| 0 <= k < o.len() && o[k] == n;
        assert(o2[k] == n);
    }
    if n == x {
        assert(o2[o.len() as int] == n);
    }
}

// ---------------------------------------------------------------------------
// Executable helpers
// ---------------------------------------------------------------------------

/// The character sequences held by a list of buffers.
pub open spec fn views(v: Seq<Vec<char>>) -> Seq<Seq<char>> {
    Seq::new(v.len(), |i: int| v[i]@)
}

/// The character sequences held by a list of strings.
pub open spec fn str_views(v: Seq<String>) -> Seq<Seq<char>> {
    Seq::new(v.len(), |i: int| v[i]@)
}

/// `Some(i)` as an integer option.
pub open spec fn opt_int(o: Option<usize>) -> Option<int> {
    match o {
        Some(i) => Some(i as int),
        None => None,
    }
}

/// The characters of a string slice, in order.
pub fn chars_of(s: &str) -> (v: Vec<char>)
    ensures
        v@ == s@,
{
    let mut v: Vec<char> = Vec::new();
    for c in it: s.chars()
        invariant
            v@ == it.seq().take(it.index() as int),
    {
        v.push(c);
    }
    v
}

/// A string holding the given characters.
pub fn string_of(v: &Vec<char>) -> (s: String)
    ensures
        s@ == v@,
{
    let mut s = String::new();
    let mut i: usize = 0;
    while i < v.len()
        invariant
            i <= v.len(),
            s@ == v@.take(i as int),
        decreases v.len() - i,
    {
        s.push(v[i]);
        assert(v@.take(i as int + 1) == v@.take(i as int).push(v@[i as int]));
        i = i + 1;
    }
    assert(v@.take(v.len() as int) == v@);
    s
}

/// Strings holding the given character sequences.
pub fn strings_of(v: &Vec<Vec<char>>) -> (r: Vec<String>)
    ensures
        str_views(r@) == views(v@),
{
    let mut r: Vec<String> = Vec::new();
    let mut i: usize = 0;
    while i < v.len()
        invariant
            i <= v.len(),
            r.len() == i,
            forall|k: int| 0 <= k < i ==> #[trigger] r@[k]@ == v@[k]@,
        decreases v.len() - i,
    {
        let s = string_of(&v[i]);
        r.push(s);
        i = i + 1;
    }
    assert(str_views(r@) =~= views(v@));
    r
}

/// Character sequences of the given strings.
pub fn chars_of_all(v: &Vec<String>) -> (r: Vec<Vec<char>>)
    ensures
        views(r@) == str_views(v@),
{
    let mut r: Vec<Vec<char>> = Vec::new();
    let mut i: usize = 0;
    while i < v.len()
        invariant
            i <= v.len(),
            r.len() == i,
            forall|k: int| 0 <= k < i ==> #[trigger] r@[k]@ == v@[k]@,
        decreases v.len() - i,
    {
        let c = chars_of(v[i].as_str());
        r.push(c);
        i = i + 1;
    }
    assert(views(r@) =~= str_views(v@));
    r
}

/// `char::is_whitespace`.
pub fn is_whitespace(c: char) -> (b: bool)
    ensures
        b == is_ws(c),
{
    ('\u{9}' <= c && c <= '\u{d}') || c == ' ' || c == '\u{85}' || c == '\u{a0}' || c
        == '\u{1680}' || ('\u{2000}' <= c && c <= '\u{200a}') || c == '\u{2028}' || c
        == '\u{2029}' || c == '\u{202f}' || c == '\u{205f}' || c == '\u{3000}'
}

/// `s[a..b]`.
pub fn slice_of(s: &Vec<char>, a: usize, b: usize) -> (v: Vec<char>)
    requires
        a <= b <= s.len(),
    ensures
        v@ == s@.subrange(a as int, b as int),
{
    let mut v: Vec<char> = Vec::new();
    let mut i = a;
    while i < b
        invariant
            a <= i <= b <= s.len(),
            v@ == s@.subrange(a as int, i as int),
        decreases b - i,
    {
        v.push(s[i]);
        assert(s@.subrange(a as int, i + 1) == s@.subrange(a as int, i as int).push(s@[i as int]));
        i = i + 1;
    }
    v
}

/// `s[a..]`.
pub fn skip(s: &Vec<char>, a: usize) -> (v: Vec<char>)
    requires
        a <= s.len(),
    ensures
        v@ == s@.skip(a as int),
{
    slice_of(s, a, s.len())
}

/// Appends `w` to `v`.
pub fn append(v: &mut Vec<char>, w: &Vec<char>)
    ensures
        final(v)@ == old(v)@ + w@,
{
    let mut i: usize = 0;
    while i < w.len()
        invariant
            i <= w.len(),
            v@ == old(v)@ + w@.take(i as int),
        decreases w.len() - i,
    {
        v.push(w[i]);
        assert(w@.take(i as int + 1) == w@.take(i as int).push(w@[i as int]));
        assert(old(v)@ + w@.take(i as int + 1) == (old(v)@ + w@.take(i as int)).push(w@[i as int]));
        i = i + 1;
    }
    assert(w@.take(w.len() as int) == w@);
}

/// Appends the characters of `s` to `v`.
pub fn push_str(v: &mut Vec<char>, s: &str)
    ensures
        final(v)@ == old(v)@ + s@,
{
    let w = chars_of(s);
    append(v, &w);
}

/// Appends the decimal rendering of `n` to `v`.
pub fn push_decimal(v: &mut Vec<char>, n: usize)
    ensures
        final(v)@ == old(v)@ + decimal(n as nat),
    decreases n,
{
    if n >= 10 {
        push_decimal(v, n / 10);
    }
    let d = n % 10;
    let c = if d == 0 {
        '0'
    } else if d == 1 {
        '1'
    } else if d == 2 {
        '2'
    } else if d == 3 {
        '3'
    } else if d == 4 {
        '4'
    } else if d == 5 {
        '5'
    } else if d == 6 {
        '6'
    } else if d == 7 {
        '7'
    } else if d == 8 {
        '8'
    } else {
        '9'
    };
    v.push(c);
    proof {
        if n >= 10 {
            assert(decimal(n as nat) == decimal((n / 10) as nat).push(digit_char((n % 10) as nat)));
        }
    }
}

/// `a == b` on character sequences.
pub fn eq(a: &Vec<char>, b: &Vec<char>) -> (r: bool)
    ensures
        r == (a@ == b@),
{
    if a.len() != b.len() {
        return false;
    }
    let mut i: usize = 0;
    while i < a.len()
        invariant
            i <= a.len() == b.len(),
            a@.take(i as int) == b@.take(i as int),
        decreases a.len() - i,
    {
        if a[i] != b[i] {
            assert(a@[i as int] != b@[i as int]);
            return false;
        }
        assert(a@.take(i as int + 1) == a@.take(i as int).push(a@[i as int]));
        assert(b@.take(i as int + 1) == b@.take(i as int).push(b@[i as int]));
        i = i + 1;
    }
    assert(a@.take(a.len() as int) == a@);
    assert(b@.take(b.len() as int) == b@);
    true
}

/// `a == s` for a string slice `s`.
pub fn eq_str(a: &Vec<char>, s: &str) -> (r: bool)
    ensures
        r == (a@ == s@),
{
    let b = chars_of(s);
    eq(a, &b)
}

/// `p` occurs in `s` at index `i`.
pub fn occurs_at_exec(s: &Vec<char>, p: &Vec<char>, i: usize) -> (r: bool)
    ensures
        r == occurs_at(s@, p@, i as int),
{
    if i > s.len() || p.len() > s.len() - i {
        return false;
    }
    let mut k: usize = 0;
    while k < p.len()
        invariant
            i + p.len() <= s.len(),
            k <= p.len(),
            forall|j: int| 0 <= j < k ==> s@[i + j] == p@[j],
        decreases p.len() - k,
    {
        if s[i + k] != p[k] {
            assert(s@.subrange(i as int, i + p.len())[k as int] != p@[k as int]);
            return false;
        }
        k = k + 1;
    }
    assert(s@.subrange(i as int, i + p.len()) =~= p@);
    true
}

/// `str::starts_with`.
pub fn starts_with_exec(s: &Vec<char>, p: &Vec<char>) -> (r: bool)
    ensures
        r == starts_with(s@, p@),
{
    occurs_at_exec(s, p, 0)
}

/// `str::starts_with` with a literal.
pub fn starts_with_str(s: &Vec<char>, p: &str) -> (r: bool)
    ensures
        r == starts_with(s@, p@),
{
    let pv = chars_of(p);
    starts_with_exec(s, &pv)
}

/// `str::ends_with`.
pub fn ends_with_exec(s: &Vec<char>, p: &Vec<char>) -> (r: bool)
    ensures
        r == ends_with(s@, p@),
{
    if p.len() > s.len() {
        return false;
    }
    occurs_at_exec(s, p, s.len() - p.len())
}

/// `str::ends_with` with a literal.
pub fn ends_with_str(s: &Vec<char>, p: &str) -> (r: bool)
    ensures
        r == ends_with(s@, p@),
{
    let pv = chars_of(p);
    ends_with_exec(s, &pv)
}

/// `str::find`.
pub fn find_exec(s: &Vec<char>, p: &Vec<char>) -> (r: Option<usize>)
    ensures
        opt_int(r) == find(s@, p@),
{
    let mut i: usize = 0;
    while i <= s.len()
        invariant
            find(s@, p@) == find_from(s@, p@, i as int),
        decreases s.len() + 1 - i,
    {
        if p.len() > s.len() - i {
            return None;
        }
        if occurs_at_exec(s, p, i) {
            return Some(i);
        }
        assert(p.len() > 0) by {
            if p.len() == 0 {
                assert(s@.subrange(i as int, i as int) =~= p@);
            }
        }
        i = i + 1;
    }
    None
}

/// `str::find` with a literal.
pub fn find_str(s: &Vec<char>, p: &str) -> (r: Option<usize>)
    ensures
        opt_int(r) == find(s@, p@),
{
    let pv = chars_of(p);
    find_exec(s, &pv)
}

/// `str::rfind`.
pub fn rfind_exec(s: &Vec<char>, p: &Vec<char>) -> (r: Option<usize>)
    ensures
        opt_int(r) == rfind(s@, p@),
{
    if p.len() > s.len() {
        return None;
    }
    let mut i: usize = s.len() - p.len();
    loop
        invariant
            i + p.len() <= s.len(),
            rfind(s@, p@) == rfind_upto(s@, p@, i as int),
        decreases i,
    {
        if occurs_at_exec(s, p, i) {
            return Some(i);
        }
        if i == 0 {
            assert(rfind_upto(s@, p@, -1) is None);
            return None;
        }
        i = i - 1;
    }
}

/// `str::rfind` with a literal.
pub fn rfind_str(s: &Vec<char>, p: &str) -> (r: Option<usize>)
    ensures
        opt_int(r) == rfind(s@, p@),
{
    let pv = chars_of(p);
    rfind_exec(s, &pv)
}

/// `str::contains` with a literal.
pub fn contains_str(s: &Vec<char>, p: &str) -> (r: bool)
    ensures
        r == contains(s@, p@),
{
    find_str(s, p).is_some()
}

/// Whether `c` occurs in `s`.
pub fn has_char_exec(s: &Vec<char>, c: char) -> (r: bool)
    ensures
        r == has_char(s@, c),
{
    let mut i: usize = 0;
    while i < s.len()
        invariant
            i <= s.len(),
            forall|j: int| 0 <= j < i ==> s@[j] != c,
        decreases s.len() - i,
    {
        if s[i] == c {
            return true;
        }
        i = i + 1;
    }
    false
}

/// `str::trim_start`.
pub fn trim_start_exec(s: &Vec<char>) -> (v: Vec<char>)
    ensures
        v@ == trim_start(s@),
{
    let mut i: usize = 0;
    assert(s@.skip(0) =~= s@);
    while i < s.len() && is_whitespace(s[i])
        invariant
            i <= s.len(),
            trim_start(s@) == trim_start(s@.skip(i as int)),
        decreases s.len() - i,
    {
        assert(s@.skip(i as int).drop_first() == s@.skip(i + 1));
        i = i + 1;
    }
    skip(s, i)
}

/// `str::trim_end`.
pub fn trim_end_exec(s: &Vec<char>) -> (v: Vec<char>)
    ensures
        v@ == trim_end(s@),
{
    let mut j: usize = s.len();
    assert(s@.take(s.len() as int) =~= s@);
    while j > 0 && is_whitespace(s[j - 1])
        invariant
            j <= s.len(),
            trim_end(s@) == trim_end(s@.take(j as int)),
        decreases j,
    {
        assert(s@.take(j as int).drop_last() == s@.take(j - 1));
        j = j - 1;
    }
    slice_of(s, 0, j)
}

/// `str::trim`.
pub fn trim_exec(s: &Vec<char>) -> (v: Vec<char>)
    ensures
        v@ == trim(s@),
{
    let a = trim_start_exec(s);
    trim_end_exec(&a)
}

/// Drops the `'\r'` of a `"\r\n"` line ending.
pub fn line_body_exec(l: Vec<char>) -> (v: Vec<char>)
    ensures
        v@ == line_body(l@),
{
    let mut l = l;
    if l.len() > 0 && l[l.len() - 1] == '\r' {
        l.pop();
    }
    l
}

/// `str::lines`.
pub fn lines_exec(s: &Vec<char>) -> (r: Vec<Vec<char>>)
    ensures
        views(r@) == lines(s@),
{
    let mut out: Vec<Vec<char>> = Vec::new();
    let mut cur: Vec<char> = Vec::new();
    let mut i: usize = 0;
    assert(s@.skip(0) =~= s@);
    assert(views(out@) + lines_from(s@, cur@) =~= lines_from(s@, cur@));
    while i < s.len()
        invariant
            i <= s.len(),
            lines(s@) == views(out@) + lines_from(s@.skip(i as int), cur@),
        decreases s.len() - i,
    {
        let ghost rest = s@.skip(i as int);
        assert(rest.drop_first() == s@.skip(i + 1));
        if s[i] == '\n' {
            let line = line_body_exec(cur);
            proof {
                assert(lines_from(rest, cur@) == seq![line@] + lines_from(
                    s@.skip(i + 1),
                    Seq::empty(),
                ));
            }
            let ghost before = views(out@);
            out.push(line);
            assert(views(out@) =~= before + seq![line@]);
            cur = Vec::new();
            assert(cur@ =~= Seq::<char>::empty());
        } else {
            cur.push(s[i]);
        }
        i = i + 1;
    }
    assert(s@.skip(s.len() as int) =~= Seq::<char>::empty());
    if cur.len() > 0 {
        let ghost before = views(out@);
        out.push(cur);
        assert(views(out@) =~= before + lines_from(Seq::empty(), cur@));
    } else {
        assert(views(out@) =~= views(out@) + lines_from(Seq::empty(), cur@));
    }
    out
}

/// The lines of a string slice.
pub fn lines_of_str(s: &str) -> (r: Vec<Vec<char>>)
    ensures
        views(r@) == lines(s@),
{
    let v = chars_of(s);
    lines_exec(&v)
}

/// `a == b` on string slices.
pub fn str_eq(a: &str, b: &str) -> (r: bool)
    ensures
        r == (a@ == b@),
{
    let x = chars_of(a);
    let y = chars_of(b);
    eq(&x, &y)
}

/// A copy of a list of strings.
pub fn clone_strings(v: &Vec<String>) -> (r: Vec<String>)
    ensures
        str_views(r@) == str_views(v@),
{
    let mut r: Vec<String> = Vec::new();
    let mut i: usize = 0;
    while i < v.len()
        invariant
            i <= v.len(),
            r.len() == i,
            forall|k: int| 0 <= k < i ==> #[trigger] r@[k]@ == v@[k]@,
        decreases v.len() - i,
    {
        r.push(v[i].clone());
        i = i + 1;
    }
    assert(str_views(r@) =~= str_views(v@));
    r
}

/// The lines joined by `\n`.
pub fn join_lines(lines: &Vec<String>) -> (r: String)
    ensures
        r@ == join_nl(str_views(lines@)),
{
    let ghost lv = str_views(lines@);
    let mut out: Vec<char> = Vec::new();
    let mut i: usize = 0;
    assert(lv.take(0) =~= Seq::<Seq<char>>::empty());
    while i < lines.len()
        invariant
            i <= lines.len(),
            lv == str_views(lines@),
            out@ == join_nl(lv.take(i as int)),
        decreases lines.len() - i,
    {
        let ghost t = lv.take(i + 1);
        assert(t.drop_last() =~= lv.take(i as int));
        assert(t.last() == lines@[i as int]@);
        if i > 0 {
            push_str(&mut out, "\n");
        }
        push_str(&mut out, lines[i].as_str());
        proof {
            if i == 0 {
                assert(out@ =~= t[0]);
            }
        }
        i = i + 1;
    }
    assert(lv.take(lines.len() as int) =~= lv);
    string_of(&out)
}

/// The strings joined by `sep`.
pub fn join_strings(parts: &Vec<String>, sep: &str) -> (r: String)
    ensures
        r@ == join_with(str_views(parts@), sep@),
{
    let ghost lv = str_views(parts@);
    let mut out: Vec<char> = Vec::new();
    let mut i: usize = 0;
    assert(lv.take(0) =~= Seq::<Seq<char>>::empty());
    while i < parts.len()
        invariant
            i <= parts.len(),
            lv == str_views(parts@),
            out@ == join_with(lv.take(i as int), sep@),
        decreases parts.len() - i,
    {
        let ghost t = lv.take(i + 1);
        assert(t.drop_last() =~= lv.take(i as int));
        assert(t.last() == parts@[i as int]@);
        if i > 0 {
            push_str(&mut out, sep);
        }
        push_str(&mut out, parts[i].as_str());
        proof {
            if i == 0 {
                assert(out@ =~= t[0]);
            }
        }
        i = i + 1;
    }
    assert(lv.take(parts.len() as int) =~= lv);
    string_of(&out)
}

} // verus!
