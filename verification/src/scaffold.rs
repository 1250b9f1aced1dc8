//! Creating a new entry by the book's conventions.
//!
//! A new entry used to take four manual steps: find the largest number in
//! its directory, make up an English slug, write the `<!-- topic: -->`
//! comment, and write the heading. Each is mechanical and each, when
//! forgotten, is refused by the strict checks of the generator. `run_new`
//! does all four at once.
use vstd::prelude::*;

use crate::md::{opt_str_view, spec_split_topics, split_topics};
use crate::text::{
    chars_of, eq_str, find, find_str, push_str, skip, slice_of, starts_with, starts_with_str, str_views,
    string_of,
};

verus! {

/// The parsed arguments of `new`.
#[derive(Debug)]
pub struct NewArgs {
    pub dir: String,
    pub title: String,
    /// Repeatable: `--topic A --topic B` or `--topic 'A, B'`.
    pub topics: Vec<String>,
    pub quote: Option<String>,
    pub label: Option<String>,
    pub desc: Option<String>,
    pub slug: Option<String>,
}

/// The model of the arguments.
pub struct ArgsModel {
    pub dir: Seq<char>,
    pub title: Seq<char>,
    pub topics: Seq<Seq<char>>,
    pub quote: Option<Seq<char>>,
    pub label: Option<Seq<char>>,
    pub desc: Option<Seq<char>>,
    pub slug: Option<Seq<char>>,
}

impl View for NewArgs {
    type V = ArgsModel;

    open spec fn view(&self) -> ArgsModel {
        ArgsModel {
            dir: self.dir@,
            title: self.title@,
            topics: str_views(self.topics@),
            quote: opt_str_view(self.quote),
            label: opt_str_view(self.label),
            desc: opt_str_view(self.desc),
            slug: opt_str_view(self.slug),
        }
    }
}

// ---------------------------------------------------------------------------
// Parsing the arguments
// ---------------------------------------------------------------------------

/// `acc` followed by the topics of `new` that it does not hold yet.
pub open spec fn add_topics(acc: Seq<Seq<char>>, new: Seq<Seq<char>>) -> Seq<Seq<char>>
    decreases new.len(),
{
    if new.len() == 0 {
        acc
    } else {
        add_topics(
            if acc.contains(new[0]) {
                acc
            } else {
                acc.push(new[0])
            },
            new.drop_first(),
        )
    }
}

/// The arguments after the flag `--name value`; `None` for an unknown flag.
pub open spec fn apply_flag(out: ArgsModel, name: Seq<char>, value: Seq<char>) -> Option<ArgsModel> {
    if name == "title"@ {
        Some(ArgsModel { title: value, ..out })
    } else if name == "topic"@ {
        Some(ArgsModel { topics: add_topics(out.topics, spec_split_topics(value)), ..out })
    } else if name == "quote"@ {
        Some(ArgsModel { quote: Some(value), ..out })
    } else if name == "label"@ {
        Some(ArgsModel { label: Some(value), ..out })
    } else if name == "desc"@ {
        Some(ArgsModel { desc: Some(value), ..out })
    } else if name == "slug"@ {
        Some(ArgsModel { slug: Some(value), ..out })
    } else {
        None
    }
}

/// The name of the flag `arg` (after `--`), up to an `=`.
pub open spec fn flag_name(arg: Seq<char>) -> Seq<char> {
    let rest = arg.skip(2);
    match find(rest, "="@) {
        Some(k) => rest.take(k),
        None => rest,
    }
}

/// The value written into the flag `arg` after an `=`.
pub open spec fn flag_inline(arg: Seq<char>) -> Option<Seq<char>> {
    let rest = arg.skip(2);
    match find(rest, "="@) {
        Some(k) => Some(rest.skip(k + 1)),
        None => None,
    }
}

pub open spec fn missing_value_msg(name: Seq<char>) -> Seq<char> {
    "--"@ + name + " 缺少取值"@
}

pub open spec fn unknown_flag_msg(name: Seq<char>) -> Seq<char> {
    "未知参数 --"@ + name
}

pub open spec fn extra_arg_msg(arg: Seq<char>) -> Seq<char> {
    "多余的参数 `"@ + arg + "`"@
}

pub open spec fn no_dir_msg() -> Seq<char> {
    "缺少目标目录，例如: cargo xtask new english/analysis"@
}

pub open spec fn no_title_msg() -> Seq<char> {
    "缺少 --title"@
}

/// Reads the arguments from index `i` on, with the directory `pos` and the
/// flags `out` read so far: a flag takes its value after `=` or from the
/// next argument; the first plain argument is the directory.
pub open spec fn parse_from(args: Seq<Seq<char>>, i: int, pos: Option<Seq<char>>, out: ArgsModel) -> Result<
    (Option<Seq<char>>, ArgsModel),
    Seq<char>,
>
    decreases args.len() - i,
{
    if i < 0 || i >= args.len() {
        Ok((pos, out))
    } else {
        let arg = args[i];
        if starts_with(arg, "--"@) {
            let name = flag_name(arg);
            let inline = flag_inline(arg);
            if inline is None && i + 1 >= args.len() {
                Err(missing_value_msg(name))
            } else {
                let value = match inline {
                    Some(v) => v,
                    None => args[i + 1],
                };
                match apply_flag(out, name, value) {
                    Some(o) => parse_from(args, if inline is Some { i + 1 } else { i + 2 }, pos, o),
                    None => Err(unknown_flag_msg(name)),
                }
            }
        } else if pos is None {
            parse_from(args, i + 1, Some(arg), out)
        } else {
            Err(extra_arg_msg(arg))
        }
    }
}

/// `s` without its leading `/`s.
pub open spec fn trim_start_slash(s: Seq<char>) -> Seq<char>
    decreases s.len(),
{
    if s.len() > 0 && s[0] == '/' {
        trim_start_slash(s.drop_first())
    } else {
        s
    }
}

/// `s` without its trailing `/`s.
pub open spec fn trim_end_slash(s: Seq<char>) -> Seq<char>
    decreases s.len(),
{
    if s.len() > 0 && s.last() == '/' {
        trim_end_slash(s.drop_last())
    } else {
        s
    }
}

/// Arguments with nothing set.
pub open spec fn no_args() -> ArgsModel {
    ArgsModel {
        dir: Seq::empty(),
        title: Seq::empty(),
        topics: Seq::empty(),
        quote: None,
        label: None,
        desc: None,
        slug: None,
    }
}

/// What `parse_args` gives: the directory is required and loses its outer
/// `/`s, and a title is required.
pub open spec fn parse_model(args: Seq<Seq<char>>) -> Result<ArgsModel, Seq<char>> {
    match parse_from(args, 0, None, no_args()) {
        Err(e) => Err(e),
        Ok((pos, out)) => match pos {
            None => Err(no_dir_msg()),
            Some(d) => if out.title.len() == 0 {
                Err(no_title_msg())
            } else {
                Ok(ArgsModel { dir: trim_end_slash(trim_start_slash(d)), ..out })
            },
        },
    }
}

// ---------------------------------------------------------------------------
// Which argument lists are accepted
// ---------------------------------------------------------------------------

/// The flags `new` knows.
pub open spec fn known_flag(name: Seq<char>) -> bool {
    name == "title"@ || name == "topic"@ || name == "quote"@ || name == "label"@ || name == "desc"@ || name
        == "slug"@
}

/// The argument after the one at `i`: a flag without `=` takes the next one
/// as its value.
pub open spec fn next_arg(args: Seq<Seq<char>>, i: int) -> int {
    if starts_with(args[i], "--"@) && flag_inline(args[i]) is None {
        i + 2
    } else {
        i + 1
    }
}

/// The value of the flag at `i`.
pub open spec fn flag_value(args: Seq<Seq<char>>, i: int) -> Seq<char> {
    match flag_inline(args[i]) {
        Some(v) => v,
        None => args[i + 1],
    }
}

/// From `i` on, every flag is known and has a value.
pub open spec fn flags_ok(args: Seq<Seq<char>>, i: int) -> bool
    decreases args.len() + 1 - i,
{
    if i < 0 || i >= args.len() {
        true
    } else if starts_with(args[i], "--"@) {
        &&& flag_inline(args[i]) is Some || i + 1 < args.len()
        &&& known_flag(flag_name(args[i]))
        &&& flags_ok(args, if flag_inline(args[i]) is None { i + 2 } else { i + 1 })
    } else {
        flags_ok(args, i + 1)
    }
}

/// The plain arguments from `i` on: neither flags nor their values.
pub open spec fn plain_args(args: Seq<Seq<char>>, i: int) -> Seq<Seq<char>>
    decreases args.len() + 1 - i,
{
    if i < 0 || i >= args.len() {
        Seq::empty()
    } else if starts_with(args[i], "--"@) {
        plain_args(args, if flag_inline(args[i]) is None { i + 2 } else { i + 1 })
    } else {
        seq![args[i]] + plain_args(args, i + 1)
    }
}

/// The values given from `i` on to the flag `name`, in order.
pub open spec fn flag_values(args: Seq<Seq<char>>, i: int, name: Seq<char>) -> Seq<Seq<char>>
    decreases args.len() + 1 - i,
{
    if i < 0 || i >= args.len() {
        Seq::empty()
    } else if starts_with(args[i], "--"@) {
        (if flag_name(args[i]) == name && (flag_inline(args[i]) is Some || i + 1 < args.len()) {
            seq![flag_value(args, i)]
        } else {
            Seq::empty()
        }) + flag_values(args, if flag_inline(args[i]) is None { i + 2 } else { i + 1 }, name)
    } else {
        flag_values(args, i + 1, name)
    }
}

/// The last of `vals`, or `d` when there is none.
pub open spec fn last_or(vals: Seq<Seq<char>>, d: Seq<char>) -> Seq<char> {
    if vals.len() == 0 {
        d
    } else {
        vals.last()
    }
}

/// The last of `vals`, or `d` when there is none.
pub open spec fn last_opt(vals: Seq<Seq<char>>, d: Option<Seq<char>>) -> Option<Seq<char>> {
    if vals.len() == 0 {
        d
    } else {
        Some(vals.last())
    }
}

/// `acc` followed by the new topics of each list in `vals`, in order.
pub open spec fn topics_from(acc: Seq<Seq<char>>, vals: Seq<Seq<char>>) -> Seq<Seq<char>>
    decreases vals.len(),
{
    if vals.len() == 0 {
        acc
    } else {
        topics_from(add_topics(acc, spec_split_topics(vals[0])), vals.drop_first())
    }
}

/// `out` after all the flags from `i` on.
pub open spec fn flags_applied(args: Seq<Seq<char>>, i: int, out: ArgsModel) -> ArgsModel {
    ArgsModel {
        dir: out.dir,
        title: last_or(flag_values(args, i, "title"@), out.title),
        topics: topics_from(out.topics, flag_values(args, i, "topic"@)),
        quote: last_opt(flag_values(args, i, "quote"@), out.quote),
        label: last_opt(flag_values(args, i, "label"@), out.label),
        desc: last_opt(flag_values(args, i, "desc"@), out.desc),
        slug: last_opt(flag_values(args, i, "slug"@), out.slug),
    }
}

proof fn lemma_last_concat(a: Seq<Seq<char>>, b: Seq<Seq<char>>, d: Seq<char>, o: Option<Seq<char>>)
    requires
        a.len() <= 1,
    ensures
        last_or(a + b, d) == last_or(b, last_or(a, d)),
        last_opt(a + b, o) == last_opt(b, last_opt(a, o)),
{
    if b.len() > 0 {
        assert((a + b).last() == b.last());
    } else {
        assert(a + b =~= a);
    }
}

proof fn lemma_topics_concat(acc: Seq<Seq<char>>, a: Seq<Seq<char>>, b: Seq<Seq<char>>)
    requires
        a.len() <= 1,
    ensures
        topics_from(acc, a + b) == topics_from(topics_from(acc, a), b),
{
    if a.len() == 0 {
        assert(a + b =~= b);
    } else {
        assert((a + b).drop_first() =~= b);
        assert((a + b)[0] == a[0]);
        assert(a.drop_first() =~= Seq::<Seq<char>>::empty());
        let x = add_topics(acc, spec_split_topics(a[0]));
        assert(topics_from(x, Seq::<Seq<char>>::empty()) == x);
        assert(topics_from(acc, a) == topics_from(x, a.drop_first()));
        assert(topics_from(acc, a + b) == topics_from(x, (a + b).drop_first()));
    }
}

/// How many more plain arguments are accepted once `pos` is read.
pub open spec fn room(pos: Option<Seq<char>>) -> int {
    if pos is None {
        1
    } else {
        0
    }
}

/// The directory argument: `pos` if read already, else the first of `plain`.
pub open spec fn dir_found(pos: Option<Seq<char>>, plain: Seq<Seq<char>>) -> Option<Seq<char>> {
    if pos is Some {
        pos
    } else if plain.len() > 0 {
        Some(plain[0])
    } else {
        None
    }
}

proof fn lemma_parse_from(args: Seq<Seq<char>>, i: int, pos: Option<Seq<char>>, out: ArgsModel)
    requires
        0 <= i,
    ensures
        parse_from(args, i, pos, out) is Ok <==> flags_ok(args, i) && plain_args(args, i).len() <= room(pos),
        parse_from(args, i, pos, out) matches Ok((p2, o2)) ==> o2 == flags_applied(args, i, out) && p2 == dir_found(
            pos,
            plain_args(args, i),
        ),
    decreases args.len() - i,
{
    reveal_strlit("title");
    reveal_strlit("topic");
    reveal_strlit("quote");
    reveal_strlit("label");
    reveal_strlit("desc");
    reveal_strlit("slug");
    if i >= args.len() {
        let o = flags_applied(args, i, out);
        assert(o == out);
    } else {
        let arg = args[i];
        if starts_with(arg, "--"@) {
            let name = flag_name(arg);
            let has_value = flag_inline(arg) is Some || i + 1 < args.len();
            if has_value && known_flag(name) {
                let v = flag_value(args, i);
                let o = apply_flag(out, name, v)->0;
                let n = next_arg(args, i);
                lemma_parse_from(args, n, pos, o);
                let ht = if name == "title"@ { seq![v] } else { Seq::<Seq<char>>::empty() };
                let hp = if name == "topic"@ { seq![v] } else { Seq::<Seq<char>>::empty() };
                let hq = if name == "quote"@ { seq![v] } else { Seq::<Seq<char>>::empty() };
                let hl = if name == "label"@ { seq![v] } else { Seq::<Seq<char>>::empty() };
                let hd = if name == "desc"@ { seq![v] } else { Seq::<Seq<char>>::empty() };
                let hs = if name == "slug"@ { seq![v] } else { Seq::<Seq<char>>::empty() };
                assert(flag_values(args, i, "title"@) == ht + flag_values(args, n, "title"@));
                assert(flag_values(args, i, "topic"@) == hp + flag_values(args, n, "topic"@));
                assert(flag_values(args, i, "quote"@) == hq + flag_values(args, n, "quote"@));
                assert(flag_values(args, i, "label"@) == hl + flag_values(args, n, "label"@));
                assert(flag_values(args, i, "desc"@) == hd + flag_values(args, n, "desc"@));
                assert(flag_values(args, i, "slug"@) == hs + flag_values(args, n, "slug"@));
                lemma_last_concat(ht, flag_values(args, n, "title"@), out.title, None);
                lemma_last_concat(hq, flag_values(args, n, "quote"@), Seq::empty(), out.quote);
                lemma_last_concat(hl, flag_values(args, n, "label"@), Seq::empty(), out.label);
                lemma_last_concat(hd, flag_values(args, n, "desc"@), Seq::empty(), out.desc);
                lemma_last_concat(hs, flag_values(args, n, "slug"@), Seq::empty(), out.slug);
                lemma_topics_concat(out.topics, hp, flag_values(args, n, "topic"@));
                assert("title"@[1] != "topic"@[1]);
                assert("title"@[0] != "quote"@[0] && "title"@[0] != "label"@[0] && "title"@[0] != "desc"@[0]
                    && "title"@[0] != "slug"@[0]);
                assert("topic"@[0] != "quote"@[0] && "topic"@[0] != "label"@[0] && "topic"@[0] != "desc"@[0]
                    && "topic"@[0] != "slug"@[0]);
                assert("quote"@[0] != "label"@[0] && "quote"@[0] != "desc"@[0] && "quote"@[0] != "slug"@[0]);
                assert("label"@[0] != "desc"@[0] && "label"@[0] != "slug"@[0] && "desc"@[0] != "slug"@[0]);
                assert(last_or(ht, out.title) == o.title);
                assert(last_opt(hq, out.quote) == o.quote);
                assert(last_opt(hl, out.label) == o.label);
                assert(last_opt(hd, out.desc) == o.desc);
                assert(last_opt(hs, out.slug) == o.slug);
                if name == "topic"@ {
                    assert(seq![v].drop_first() =~= Seq::<Seq<char>>::empty());
                    assert(topics_from(out.topics, hp) == topics_from(o.topics, Seq::<Seq<char>>::empty()));
                } else {
                    assert(topics_from(out.topics, hp) == out.topics);
                }
                assert(topics_from(out.topics, hp) == o.topics);
            }
        } else {
            lemma_parse_from(args, i + 1, if pos is None { Some(arg) } else { pos }, out);
            assert(flag_values(args, i, "title"@) == flag_values(args, i + 1, "title"@));
            assert(flag_values(args, i, "topic"@) == flag_values(args, i + 1, "topic"@));
            assert(flag_values(args, i, "quote"@) == flag_values(args, i + 1, "quote"@));
            assert(flag_values(args, i, "label"@) == flag_values(args, i + 1, "label"@));
            assert(flag_values(args, i, "desc"@) == flag_values(args, i + 1, "desc"@));
            assert(flag_values(args, i, "slug"@) == flag_values(args, i + 1, "slug"@));
        }
    }
}

/// The arguments of `new` are accepted exactly when every flag is one of
/// `--title`, `--topic`, `--quote`, `--label`, `--desc`, `--slug` and has a
/// value (after `=` or in the next argument), exactly one argument is
/// neither a flag nor a flag's value, and the last `--title` is not empty.
/// Then the directory is that argument without its outer `/`s, each other
/// field is the last value given to its flag, and the topics are those of
/// every `--topic`, each once, in order.
pub proof fn args_accepted_exactly(args: Seq<Seq<char>>)
    ensures
        parse_model(args) is Ok <==> flags_ok(args, 0) && plain_args(args, 0).len() == 1 && last_or(
            flag_values(args, 0, "title"@),
            Seq::empty(),
        ).len() > 0,
        parse_model(args) is Ok ==> parse_model(args)->Ok_0 == (ArgsModel {
            dir: trim_end_slash(trim_start_slash(plain_args(args, 0)[0])),
            ..flags_applied(args, 0, no_args())
        }),
{
    lemma_parse_from(args, 0, None, no_args());
}

/// The model of a result holding arguments.
pub open spec fn args_result(r: Result<NewArgs, String>) -> Result<ArgsModel, Seq<char>> {
    match r {
        Ok(a) => Ok(a@),
        Err(e) => Err(e@),
    }
}

fn contains_string(v: &Vec<String>, s: &str) -> (r: bool)
    ensures
        r == str_views(v@).contains(s@),
{
    let mut i: usize = 0;
    while i < v.len()
        invariant
            i <= v.len(),
            forall|j: int| 0 <= j < i ==> v@[j]@ != s@,
        decreases v.len() - i,
    {
        if crate::text::str_eq(v[i].as_str(), s) {
            assert(str_views(v@)[i as int] == s@);
            return true;
        }
        i = i + 1;
    }
    assert(!str_views(v@).contains(s@)) by {
        if str_views(v@).contains(s@) {
            let j = choose|j: int| 0 <= j < v.len() && str_views(v@)[j] == s@;
            assert(v@[j]@ == s@);
        }
    }
    false
}

fn add_topics_exec(topics: &mut Vec<String>, value: &str)
    ensures
        str_views(final(topics)@) == add_topics(str_views(old(topics)@), spec_split_topics(value@)),
{
    let new = split_topics(value);
    let ghost nv = str_views(new@);
    let ghost want = add_topics(str_views(topics@), nv);
    let mut k: usize = 0;
    assert(nv.skip(0) =~= nv);
    while k < new.len()
        invariant
            k <= new.len(),
            nv == str_views(new@),
            want == add_topics(str_views(topics@), nv.skip(k as int)),
        decreases new.len() - k,
    {
        assert(nv.skip(k as int)[0] == new@[k as int]@);
        assert(nv.skip(k as int).drop_first() =~= nv.skip(k + 1));
        if !contains_string(topics, new[k].as_str()) {
            let ghost t0 = str_views(topics@);
            topics.push(new[k].clone());
            assert(str_views(topics@) =~= t0.push(new@[k as int]@));
        }
        k = k + 1;
    }
    assert(nv.skip(new.len() as int) =~= Seq::<Seq<char>>::empty());
}

fn trim_slashes(s: &str) -> (r: String)
    ensures
        r@ == trim_end_slash(trim_start_slash(s@)),
{
    let v = chars_of(s);
    let mut a: usize = 0;
    assert(v@.skip(0) =~= v@);
    while a < v.len() && v[a] == '/'
        invariant
            a <= v.len(),
            trim_start_slash(s@) == trim_start_slash(v@.skip(a as int)),
            v@ == s@,
        decreases v.len() - a,
    {
        assert(v@.skip(a as int).drop_first() =~= v@.skip(a + 1));
        a = a + 1;
    }
    let w = skip(&v, a);
    let mut b: usize = w.len();
    assert(w@.take(w.len() as int) =~= w@);
    while b > 0 && w[b - 1] == '/'
        invariant
            b <= w.len(),
            trim_end_slash(w@) == trim_end_slash(w@.take(b as int)),
        decreases b,
    {
        assert(w@.take(b as int).drop_last() =~= w@.take(b - 1));
        b = b - 1;
    }
    let x = slice_of(&w, 0, b);
    string_of(&x)
}

fn message2(a: &str, b: &str) -> (r: String)
    ensures
        r@ == a@ + b@,
{
    let mut v = chars_of(a);
    push_str(&mut v, b);
    string_of(&v)
}

fn message3(a: &str, b: &str, c: &str) -> (r: String)
    ensures
        r@ == a@ + b@ + c@,
{
    let mut v = chars_of(a);
    push_str(&mut v, b);
    push_str(&mut v, c);
    string_of(&v)
}

/// Parses the arguments of `new`: a directory, then flags.
pub fn parse_args(args: &[String]) -> (r: Result<NewArgs, String>)
    ensures
        args_result(r) == parse_model(str_views(args@)),
{
    let ghost av = str_views(args@);
    let mut positional: Option<String> = None;
    let mut out = NewArgs {
        dir: String::new(),
        title: String::new(),
        topics: Vec::new(),
        quote: None,
        label: None,
        desc: None,
        slug: None,
    };
    assert(out@ == no_args()) by {
        assert(str_views(out.topics@) =~= Seq::<Seq<char>>::empty());
    }
    let mut i: usize = 0;
    while i < args.len()
        invariant
            i <= args.len(),
            av == str_views(args@),
            parse_from(av, 0, None, no_args()) == parse_from(av, i as int, opt_str_view(positional), out@),
        decreases args.len() - i,
    {
        let arg = args[i].as_str();
        assert(arg@ == av[i as int]);
        let argv = chars_of(arg);
        if starts_with_str(&argv, "--") {
            proof {
                reveal_strlit("--");
            }
            let rest = skip(&argv, 2);
            let (name, inline): (Vec<char>, Option<Vec<char>>) = match find_str(&rest, "=") {
                Some(k) => {
                    proof {
                        reveal_strlit("=");
                        crate::text::lemma_find_from_bounds(rest@, "="@, 0);
                    }
                    (slice_of(&rest, 0, k), Some(skip(&rest, k + 1)))
                },
                None => (rest, None),
            };
            assert(name@ == flag_name(arg@));
            assert(crate::md::opt_view(inline) == flag_inline(arg@));
            let name_s = string_of(&name);
            let next: usize;
            let value: String = match inline {
                Some(v) => {
                    next = i + 1;
                    string_of(&v)
                },
                None => {
                    if i + 1 >= args.len() {
                        return Err(message3("--", name_s.as_str(), " 缺少取值"));
                    }
                    next = i + 2;
                    args[i + 1].clone()
                },
            };
            let ghost o0 = out@;
            if crate::text::str_eq(name_s.as_str(), "title") {
                out.title = value;
            } else if crate::text::str_eq(name_s.as_str(), "topic") {
                add_topics_exec(&mut out.topics, value.as_str());
            } else if crate::text::str_eq(name_s.as_str(), "quote") {
                out.quote = Some(value);
            } else if crate::text::str_eq(name_s.as_str(), "label") {
                out.label = Some(value);
            } else if crate::text::str_eq(name_s.as_str(), "desc") {
                out.desc = Some(value);
            } else if crate::text::str_eq(name_s.as_str(), "slug") {
                out.slug = Some(value);
            } else {
                return Err(message2("未知参数 --", name_s.as_str()));
            }
            assert(apply_flag(o0, name@, value@) == Some(out@));
            i = next;
        } else if positional.is_none() {
            positional = Some(args[i].clone());
            i = i + 1;
        } else {
            return Err(message3("多余的参数 `", arg, "`"));
        }
    }
    let d = match positional {
        Some(d) => d,
        None => {
            return Err("缺少目标目录，例如: cargo xtask new english/analysis".to_owned());
        },
    };
    out.dir = trim_slashes(d.as_str());
    if out.title.as_str().is_empty() {
        return Err("缺少 --title".to_owned());
    }
    Ok(out)
}

// ---------------------------------------------------------------------------
// Slugs
// ---------------------------------------------------------------------------

/// How many words a slug takes from a title or quote.
pub const SLUG_WORDS: usize = 5;

/// The pieces of `s` between characters that are no ASCII letter or digit,
/// after a partial piece `cur`.
pub open spec fn word_pieces(s: Seq<char>, cur: Seq<char>) -> Seq<Seq<char>>
    decreases s.len(),
{
    if s.len() == 0 {
        seq![cur]
    } else if !crate::text::is_alnum(s[0]) {
        seq![cur] + word_pieces(s.drop_first(), Seq::empty())
    } else {
        word_pieces(s.drop_first(), cur.push(s[0]))
    }
}

/// Words that do not help to find an entry. Prepositions are kept: the
/// book is about their use.
pub open spec fn is_stopword(w: Seq<char>) -> bool {
    ||| w == "the"@ ||| w == "a"@ ||| w == "an"@ ||| w == "and"@ ||| w == "is"@
    ||| w == "are"@ ||| w == "was"@ ||| w == "were"@ ||| w == "be"@ ||| w == "been"@
    ||| w == "being"@ ||| w == "that"@ ||| w == "this"@ ||| w == "it"@ ||| w == "its"@
}

/// The slug words taken from `ps` after `acc`, at most `max` in all:
/// lowercased, without empty pieces and stopwords.
pub open spec fn slug_words(ps: Seq<Seq<char>>, max: nat, acc: Seq<Seq<char>>) -> Seq<Seq<char>>
    decreases ps.len(),
{
    if ps.len() == 0 || acc.len() >= max {
        acc
    } else {
        let w = crate::lint::lower_all(ps[0]);
        slug_words(
            ps.drop_first(),
            max,
            if w.len() == 0 || is_stopword(w) {
                acc
            } else {
                acc.push(w)
            },
        )
    }
}

/// The first `max` English words of `text`, lowercased and joined by `-`.
pub open spec fn spec_slugify(text: Seq<char>, max: nat) -> Seq<char> {
    crate::text::join_with(slug_words(word_pieces(text, Seq::empty()), max, Seq::empty()), "-"@)
}

fn is_alnum_exec(c: char) -> (r: bool)
    ensures
        r == crate::text::is_alnum(c),
{
    ('0' <= c && c <= '9') || ('a' <= c && c <= 'z') || ('A' <= c && c <= 'Z')
}

fn word_pieces_exec(s: &Vec<char>) -> (r: Vec<Vec<char>>)
    ensures
        crate::text::views(r@) == word_pieces(s@, Seq::empty()),
{
    let mut out: Vec<Vec<char>> = Vec::new();
    let mut cur: Vec<char> = Vec::new();
    let mut i: usize = 0;
    assert(s@.skip(0) =~= s@);
    assert(crate::text::views(out@) + word_pieces(s@, cur@) =~= word_pieces(s@, cur@));
    while i < s.len()
        invariant
            i <= s.len(),
            word_pieces(s@, Seq::empty()) == crate::text::views(out@) + word_pieces(s@.skip(i as int), cur@),
        decreases s.len() - i,
    {
        let ghost rest = s@.skip(i as int);
        assert(rest.drop_first() == s@.skip(i + 1));
        if !is_alnum_exec(s[i]) {
            let ghost before = crate::text::views(out@);
            let ghost cv = cur@;
            out.push(cur);
            assert(crate::text::views(out@) =~= before + seq![cv]);
            cur = Vec::new();
            assert(cur@ =~= Seq::<char>::empty());
            assert(word_pieces(s@, Seq::empty()) =~= crate::text::views(out@) + word_pieces(s@.skip(i + 1), cur@));
        } else {
            cur.push(s[i]);
        }
        i = i + 1;
    }
    assert(s@.skip(s.len() as int) =~= Seq::<char>::empty());
    let ghost before = crate::text::views(out@);
    let ghost cv = cur@;
    out.push(cur);
    assert(crate::text::views(out@) =~= before + seq![cv]);
    out
}

fn lower_word(w: &Vec<char>) -> (r: Vec<char>)
    ensures
        r@ == crate::lint::lower_all(w@),
{
    let mut out: Vec<char> = Vec::new();
    let mut i: usize = 0;
    while i < w.len()
        invariant
            i <= w.len(),
            out@ == crate::lint::lower_all(w@).take(i as int),
        decreases w.len() - i,
    {
        let c = w[i];
        let l = if 'A' <= c && c <= 'Z' {
            let u: u8 = (c as u8) + 32;
            u as char
        } else {
            c
        };
        out.push(l);
        assert(crate::lint::lower_all(w@).take(i + 1) =~= crate::lint::lower_all(w@).take(i as int).push(
            crate::text::lower(w@[i as int]),
        ));
        i = i + 1;
    }
    assert(out@ =~= crate::lint::lower_all(w@));
    out
}

fn is_stopword_exec(w: &Vec<char>) -> (r: bool)
    ensures
        r == is_stopword(w@),
{
    eq_str(w, "the") || eq_str(w, "a") || eq_str(w, "an") || eq_str(w, "and") || eq_str(w, "is")
        || eq_str(w, "are") || eq_str(w, "was") || eq_str(w, "were") || eq_str(w, "be") || eq_str(
        w,
        "been",
    ) || eq_str(w, "being") || eq_str(w, "that") || eq_str(w, "this") || eq_str(w, "it") || eq_str(
        w,
        "its",
    )
}

/// Takes the first `max_words` English words of `text`, lowercased and
/// joined by `-`; stopwords are skipped.
pub fn slugify(text: &str, max_words: usize) -> (r: String)
    ensures
        r@ == spec_slugify(text@, max_words as nat),
{
    let tv = chars_of(text);
    let ps = word_pieces_exec(&tv);
    let ghost pv = crate::text::views(ps@);
    let mut words: Vec<String> = Vec::new();
    let mut k: usize = 0;
    assert(pv.skip(0) =~= pv);
    assert(str_views(words@) =~= Seq::<Seq<char>>::empty());
    while k < ps.len() && words.len() < max_words
        invariant
            k <= ps.len(),
            pv == crate::text::views(ps@),
            slug_words(pv, max_words as nat, Seq::empty()) == slug_words(
                pv.skip(k as int),
                max_words as nat,
                str_views(words@),
            ),
        decreases ps.len() - k,
    {
        assert(pv.skip(k as int)[0] == ps@[k as int]@);
        assert(pv.skip(k as int).drop_first() =~= pv.skip(k + 1));
        let w = lower_word(&ps[k]);
        if w.len() > 0 && !is_stopword_exec(&w) {
            let ghost w0 = str_views(words@);
            words.push(string_of(&w));
            assert(str_views(words@) =~= w0.push(w@));
        }
        k = k + 1;
    }
    proof {
        if k == ps.len() {
            assert(pv.skip(k as int) =~= Seq::<Seq<char>>::empty());
        }
    }
    crate::text::join_strings(&words, "-")
}

pub open spec fn slug_empty_msg() -> Seq<char> {
    "--slug 需要至少包含一个 ASCII 字母或数字"@
}

pub open spec fn no_slug_msg() -> Seq<char> {
    "无法从标题或原句中提取英文 slug，请用 --slug 指定"@
}

/// The slug of an entry: the given `--slug` made a slug, or else the first
/// words of the quote, or else of the title.
pub open spec fn resolve_model(a: ArgsModel) -> Result<Seq<char>, Seq<char>> {
    match a.slug {
        Some(s) => if spec_slugify(s, usize::MAX as nat).len() == 0 {
            Err(slug_empty_msg())
        } else {
            Ok(spec_slugify(s, usize::MAX as nat))
        },
        None => {
            let q = match a.quote {
                Some(q) => spec_slugify(q, SLUG_WORDS as nat),
                None => Seq::empty(),
            };
            if q.len() > 0 {
                Ok(q)
            } else if spec_slugify(a.title, SLUG_WORDS as nat).len() > 0 {
                Ok(spec_slugify(a.title, SLUG_WORDS as nat))
            } else {
                Err(no_slug_msg())
            }
        },
    }
}

/// The model of a result holding a string.
pub open spec fn str_result(r: Result<String, String>) -> Result<Seq<char>, Seq<char>> {
    match r {
        Ok(a) => Ok(a@),
        Err(e) => Err(e@),
    }
}

fn resolve_slug(args: &NewArgs) -> (r: Result<String, String>)
    ensures
        str_result(r) == resolve_model(args@),
{
    if let Some(s) = &args.slug {
        let t = slugify(s.as_str(), usize::MAX);
        if t.as_str().is_empty() {
            return Err("--slug 需要至少包含一个 ASCII 字母或数字".to_owned());
        }
        return Ok(t);
    }
    if let Some(q) = &args.quote {
        let t = slugify(q.as_str(), SLUG_WORDS);
        if !t.as_str().is_empty() {
            return Ok(t);
        }
    }
    let t = slugify(args.title.as_str(), SLUG_WORDS);
    if !t.as_str().is_empty() {
        return Ok(t);
    }
    Err("无法从标题或原句中提取英文 slug，请用 --slug 指定".to_owned())
}

// ---------------------------------------------------------------------------
// The new file
// ---------------------------------------------------------------------------

/// The text of a new entry: its metadata comments, its heading, and for a
/// topic entry the skeleton of quote and notes.
pub open spec fn render_model(a: ArgsModel) -> Seq<char> {
    (if a.topics.len() > 0 {
        "<!-- topic: "@ + crate::text::join_with(a.topics, ", "@) + " -->\n"@
    } else {
        Seq::empty()
    }) + (match a.label {
        Some(l) => "<!-- label: "@ + l + " -->\n"@,
        None => Seq::empty(),
    }) + (match a.desc {
        Some(d) => "<!-- desc: "@ + d + " -->\n"@,
        None => Seq::empty(),
    }) + "# "@ + a.title + "\n\n"@ + (match a.quote {
        Some(q) => "> "@ + q + "\n\n- \n"@,
        None => if a.topics.len() > 0 {
            "> \n\n- \n"@
        } else {
            Seq::empty()
        },
    })
}

fn render(args: &NewArgs) -> (r: String)
    ensures
        r@ == render_model(args@),
{
    let mut out: Vec<char> = Vec::new();
    if args.topics.len() > 0 {
        push_str(&mut out, "<!-- topic: ");
        let j = crate::text::join_strings(&args.topics, ", ");
        push_str(&mut out, j.as_str());
        push_str(&mut out, " -->\n");
    }
    if let Some(l) = &args.label {
        push_str(&mut out, "<!-- label: ");
        push_str(&mut out, l.as_str());
        push_str(&mut out, " -->\n");
    }
    if let Some(d) = &args.desc {
        push_str(&mut out, "<!-- desc: ");
        push_str(&mut out, d.as_str());
        push_str(&mut out, " -->\n");
    }
    push_str(&mut out, "# ");
    push_str(&mut out, args.title.as_str());
    push_str(&mut out, "\n\n");
    match &args.quote {
        Some(q) => {
            push_str(&mut out, "> ");
            push_str(&mut out, q.as_str());
            push_str(&mut out, "\n\n- \n");
        },
        None => {
            if args.topics.len() > 0 {
                push_str(&mut out, "> \n\n- \n");
            }
        },
    }
    assert(out@ =~= render_model(args@));
    string_of(&out)
}

// ---------------------------------------------------------------------------
// What the metadata of a new entry reads back
// ---------------------------------------------------------------------------

/// The metadata comment `<!-- key: value -->`.
pub open spec fn meta_comment(key: Seq<char>, value: Seq<char>) -> Seq<char> {
    "<!-- "@ + key + ": "@ + value + " -->"@
}

/// A trimmed text that is not empty begins and ends with a character that
/// is no whitespace.
proof fn lemma_trimmed_ends(t: Seq<char>)
    requires
        crate::text::trim(t) == t,
        t.len() > 0,
    ensures
        !crate::text::is_ws(t[0]),
        !crate::text::is_ws(t.last()),
{
    let u = crate::text::trim_start(t);
    crate::text::lemma_trim_start_suffix(t);
    crate::text::lemma_trim_end_prefix(u);
    assert(u.len() == t.len());
    assert(u =~= t);
    crate::text::lemma_trim_end_prefix(t);
}

/// Trailing whitespace after a character that is no whitespace leaves
/// everything up to that character.
proof fn lemma_trim_end_keeps(p: Seq<char>, x: Seq<char>)
    requires
        p.len() > 0,
        !crate::text::is_ws(p.last()),
    ensures
        crate::text::trim_end(p + x).len() >= p.len(),
        crate::text::trim_end(p + x).take(p.len() as int) == p,
    decreases x.len(),
{
    crate::text::lemma_trim_end_prefix(p + x);
    if x.len() == 0 {
        assert(p + x =~= p);
    } else if crate::text::is_ws(x.last()) {
        assert((p + x).drop_last() =~= p + x.drop_last());
        lemma_trim_end_keeps(p, x.drop_last());
    } else {
        assert((p + x).take(p.len() as int) =~= p);
    }
}

/// The comment `<!-- key: value -->` is its own trimmed line; it gives
/// `value` for `key` where `value` is trimmed, and nothing for a key that
/// begins with another character.
proof fn lemma_meta_comment(key: Seq<char>, value: Seq<char>)
    requires
        key.len() > 0,
        !crate::text::is_ws(key[0]),
    ensures
        crate::text::trim(meta_comment(key, value)) == meta_comment(key, value),
        crate::text::trim(value) == value ==> crate::md::meta_in_line(meta_comment(key, value), key) == Some(value),
        forall|k: Seq<char>|
            k.len() > 0 && k[0] != key[0] ==> #[trigger] crate::md::meta_in_line(meta_comment(key, value), k) is None,
{
    reveal_strlit("<!-- ");
    reveal_strlit(": ");
    reveal_strlit(" -->");
    reveal_strlit("<!--");
    reveal_strlit("-->");
    let line = meta_comment(key, value);
    assert(line[0] == '<');
    assert(line.last() == '>');
    assert(crate::text::trim_start(line) == line);
    assert(crate::text::trim_end(line) == line);
    assert(line.subrange(0, 4) =~= "<!--"@);
    let s1 = line.skip(4);
    let s2 = " "@ + key + ": "@ + value + " "@;
    reveal_strlit(" ");
    assert(s1 =~= s2 + "-->"@);
    assert(crate::text::ends_with(s1, "-->"@)) by {
        assert(s1.subrange(s1.len() - 3, s1.len() as int) =~= "-->"@);
    }
    assert(s1.take(s1.len() - 3) =~= s2);
    assert(!crate::text::ends_with(s2, "-->"@)) by {
        assert(s2.last() == ' ');
        assert(s2.subrange(s2.len() - 3, s2.len() as int).last() == ' ');
    }
    assert(crate::md::trim_end_matches(s2, "-->"@) == s2);
    assert(crate::md::trim_end_matches(s1, "-->"@) == s2);
    let s3 = key + ": "@ + value + " "@;
    assert(s2.drop_first() =~= s3);
    assert(crate::text::trim_start(s2) == crate::text::trim_start(s3));
    assert(crate::text::trim_start(s3) == s3);
    let p = key + seq![':'];
    let x = " "@ + value + " "@;
    assert(s3 =~= p + x);
    lemma_trim_end_keeps(p, x);
    let inner = crate::text::trim(s2);
    assert(inner == crate::text::trim_end(s3));
    assert(inner.take(p.len() as int) == p);
    assert(inner[0] == key[0]);
    assert(crate::text::starts_with(inner, p)) by {
        assert(inner.subrange(0, p.len() as int) =~= inner.take(p.len() as int));
    }
    assert forall|k: Seq<char>|
        k.len() > 0 && k[0] != key[0] implies #[trigger] crate::md::meta_in_line(line, k) is None by {
        let want = k + seq![':'];
        if crate::text::starts_with(inner, want) {
            assert(inner.subrange(0, want.len() as int)[0] == inner[0]);
        }
    }
    if crate::text::trim(value) == value {
        let s4 = key + ": "@ + value;
        assert(s3.drop_last() =~= s4);
        assert(crate::text::trim_end(s3) == crate::text::trim_end(s4));
        if value.len() > 0 {
            lemma_trimmed_ends(value);
            assert(s4.last() == value.last());
            assert(inner == s4);
            assert(inner.skip(p.len() as int) =~= " "@ + value);
            assert((" "@ + value).drop_first() =~= value);
            assert(crate::text::trim_start(" "@ + value) == crate::text::trim_start(value));
        } else {
            assert(s4.drop_last() =~= p);
            assert(crate::text::trim_end(s4) == crate::text::trim_end(p));
            assert(inner == p);
            assert(inner.skip(p.len() as int) =~= value);
        }
    }
}

/// The first value of `key` among `ls`, where it stands at `i` and no line
/// before it gives one.
proof fn lemma_meta_from_at(ls: Seq<Seq<char>>, key: Seq<char>, i: int, v: Seq<char>)
    requires
        0 <= i < ls.len(),
        forall|j: int| 0 <= j < i ==> crate::md::meta_in_line(crate::text::trim(#[trigger] ls[j]), key) is None,
        crate::md::meta_in_line(crate::text::trim(ls[i]), key) == Some(v),
    ensures
        crate::md::meta_from(ls, key) == Some(v),
    decreases i,
{
    if i > 0 {
        assert(crate::md::meta_in_line(crate::text::trim(ls[0]), key) is None);
        lemma_meta_from_at(ls.drop_first(), key, i - 1, v);
    }
}

/// The lines of a line `x` and a newline, then `rest`.
proof fn lemma_lines_cons_body(x: Seq<char>, rest: Seq<char>)
    requires
        !crate::text::has_char(x, '\n'),
    ensures
        crate::text::lines(x + "\n"@ + rest) == seq![crate::text::line_body(x)] + crate::text::lines(rest),
{
    reveal_strlit("\n");
    assert(x + "\n"@ =~= x + seq!['\n']);
    crate::text::lemma_lines_concat(x + "\n"@, rest, Seq::empty());
    crate::text::lemma_lines_newline(x, Seq::empty());
    assert(Seq::<char>::empty() + x =~= x);
}

/// The lines of a line `x` that does not end in `\r`, a newline, then `rest`.
proof fn lemma_lines_cons(x: Seq<char>, rest: Seq<char>)
    requires
        !crate::text::has_char(x, '\n'),
        x.len() > 0,
        x.last() != '\r',
    ensures
        crate::text::lines(x + "\n"@ + rest) == seq![x] + crate::text::lines(rest),
{
    lemma_lines_cons_body(x, rest);
}

/// The topics joined by `sep` begin with the first topic and end with the
/// last.
proof fn lemma_join_ends(ls: Seq<Seq<char>>, sep: Seq<char>)
    requires
        ls.len() > 0,
    ensures
        ({
            let j = crate::text::join_with(ls, sep);
            &&& j.len() >= ls[0].len()
            &&& j.take(ls[0].len() as int) == ls[0]
            &&& j.len() >= ls.last().len()
            &&& j.skip(j.len() - ls.last().len()) == ls.last()
        }),
    decreases ls.len(),
{
    let j = crate::text::join_with(ls, sep);
    if ls.len() == 1 {
        assert(j.take(ls[0].len() as int) =~= ls[0]);
        assert(j.skip(0) =~= j);
    } else {
        let a = ls.drop_last();
        lemma_join_ends(a, sep);
        let ja = crate::text::join_with(a, sep);
        assert(j == ja + sep + ls.last());
        assert(j.take(ls[0].len() as int) =~= ja.take(a[0].len() as int));
        assert(j.skip(j.len() - ls.last().len()) =~= ls.last());
    }
}

/// The topics joined by `sep` hold no `c` where neither the topics nor
/// `sep` do.
proof fn lemma_join_no_char(ls: Seq<Seq<char>>, sep: Seq<char>, c: char)
    requires
        forall|i: int| 0 <= i < ls.len() ==> !crate::text::has_char(#[trigger] ls[i], c),
        !crate::text::has_char(sep, c),
    ensures
        !crate::text::has_char(crate::text::join_with(ls, sep), c),
    decreases ls.len(),
{
    if ls.len() > 1 {
        let a = ls.drop_last();
        lemma_join_no_char(a, sep, c);
        let ja = crate::text::join_with(a, sep);
        let j = ja + sep + ls.last();
        assert(!ls.last().contains(c)) by {
            assert(!crate::text::has_char(ls[ls.len() - 1], c));
        }
        if crate::text::has_char(j, c) {
            let i = choose|i: int| 0 <= i < j.len() && j[i] == c;
            if i < ja.len() {
                assert(ja[i] == c);
            } else if i < ja.len() + sep.len() {
                assert(sep[i - ja.len()] == c);
            } else {
                assert(ls.last()[i - ja.len() - sep.len()] == c);
            }
        }
    }
}

/// The comment lines at the head of a new entry: topics, label,
/// description, each where the arguments give it.
pub open spec fn meta_head(a: ArgsModel) -> Seq<Seq<char>> {
    (if a.topics.len() > 0 {
        seq![meta_comment("topic"@, crate::text::join_with(a.topics, ", "@))]
    } else {
        Seq::empty()
    }) + (match a.label {
        Some(l) => seq![meta_comment("label"@, l)],
        None => Seq::empty(),
    }) + (match a.desc {
        Some(d) => seq![meta_comment("desc"@, d)],
        None => Seq::empty(),
    })
}

/// The text of a new entry after its metadata comments.
pub open spec fn entry_body(a: ArgsModel) -> Seq<char> {
    "# "@ + a.title + "\n\n"@ + (match a.quote {
        Some(q) => "> "@ + q + "\n\n- \n"@,
        None => if a.topics.len() > 0 {
            "> \n\n- \n"@
        } else {
            Seq::empty()
        },
    })
}

/// A comment of a key and a value without newlines is one line.
proof fn lemma_meta_comment_line(x: Seq<char>, v: Seq<char>)
    requires
        !crate::text::has_char(v, '\n'),
        !crate::text::has_char(x, '\n'),
    ensures
        !crate::text::has_char(meta_comment(x, v), '\n'),
        meta_comment(x, v).len() > 0,
        meta_comment(x, v).last() == '>',
{
    reveal_strlit("<!-- ");
    reveal_strlit(": ");
    reveal_strlit(" -->");
    let m = meta_comment(x, v);
    if crate::text::has_char(m, '\n') {
        let i = choose|i: int| 0 <= i < m.len() && m[i] == '\n';
        if 5 + x.len() + 2 <= i < 5 + x.len() + 2 + v.len() {
            assert(v[i - 5 - x.len() - 2] == '\n');
        } else if 5 <= i < 5 + x.len() {
            assert(x[i - 5] == '\n');
        }
    }
}

/// The comment lines as `render_model` writes them.
proof fn lemma_comment_text(v: Seq<char>)
    ensures
        "<!-- topic: "@ + v + " -->\n"@ == meta_comment("topic"@, v) + "\n"@,
        "<!-- label: "@ + v + " -->\n"@ == meta_comment("label"@, v) + "\n"@,
        "<!-- desc: "@ + v + " -->\n"@ == meta_comment("desc"@, v) + "\n"@,
{
    reveal_strlit("topic");
    reveal_strlit("label");
    reveal_strlit("desc");
    reveal_strlit("<!-- topic: ");
    reveal_strlit("<!-- label: ");
    reveal_strlit("<!-- desc: ");
    reveal_strlit("<!-- ");
    reveal_strlit(": ");
    reveal_strlit(" -->");
    reveal_strlit(" -->\n");
    reveal_strlit("\n");
    assert("<!-- topic: "@ + v + " -->\n"@ =~= meta_comment("topic"@, v) + "\n"@);
    assert("<!-- label: "@ + v + " -->\n"@ =~= meta_comment("label"@, v) + "\n"@);
    assert("<!-- desc: "@ + v + " -->\n"@ =~= meta_comment("desc"@, v) + "\n"@);
}

/// The lines of an optional line `x` before `rest`.
proof fn lemma_opt_line(present: bool, x: Seq<char>, rest: Seq<char>)
    requires
        !crate::text::has_char(x, '\n'),
        x.len() > 0,
        x.last() != '\r',
    ensures
        crate::text::lines((if present { x + "\n"@ } else { Seq::empty() }) + rest) == (if present {
            seq![x]
        } else {
            Seq::empty()
        }) + crate::text::lines(rest),
{
    if present {
        lemma_lines_cons(x, rest);
    } else {
        assert(Seq::<char>::empty() + rest =~= rest);
        assert(Seq::<Seq<char>>::empty() + crate::text::lines(rest) =~= crate::text::lines(rest));
    }
}

/// The text of a new entry, piece by piece.
proof fn lemma_render_parts(a: ArgsModel, t_part: Seq<char>, l_part: Seq<char>, d_part: Seq<char>)
    requires
        t_part == (if a.topics.len() > 0 {
            "<!-- topic: "@ + crate::text::join_with(a.topics, ", "@) + " -->\n"@
        } else {
            Seq::<char>::empty()
        }),
        l_part == (match a.label {
            Some(l) => "<!-- label: "@ + l + " -->\n"@,
            None => Seq::<char>::empty(),
        }),
        d_part == (match a.desc {
            Some(d) => "<!-- desc: "@ + d + " -->\n"@,
            None => Seq::<char>::empty(),
        }),
    ensures
        render_model(a) == t_part + (l_part + (d_part + entry_body(a))),
{
    assert(render_model(a) =~= t_part + (l_part + (d_part + entry_body(a))));
}

/// Each comment line of a new entry is a line of its text.
proof fn lemma_render_lines(a: ArgsModel)
    requires
        forall|i: int| 0 <= i < a.topics.len() ==> !crate::text::has_char(#[trigger] a.topics[i], '\n'),
        a.label matches Some(l) ==> !crate::text::has_char(l, '\n'),
        a.desc matches Some(d) ==> !crate::text::has_char(d, '\n'),
    ensures
        crate::text::lines(render_model(a)) == meta_head(a) + crate::text::lines(entry_body(a)),
{
    reveal_strlit(", ");
    reveal_strlit("topic");
    reveal_strlit("label");
    reveal_strlit("desc");
    let join = crate::text::join_with(a.topics, ", "@);
    assert(!crate::text::has_char(", "@, '\n'));
    lemma_join_no_char(a.topics, ", "@, '\n');
    let lv = match a.label { Some(l) => l, None => Seq::empty() };
    let dv = match a.desc { Some(d) => d, None => Seq::empty() };
    let tl = meta_comment("topic"@, join);
    let ll = meta_comment("label"@, lv);
    let dl = meta_comment("desc"@, dv);
    assert(!crate::text::has_char("topic"@, '\n'));
    assert(!crate::text::has_char("label"@, '\n'));
    assert(!crate::text::has_char("desc"@, '\n'));
    lemma_meta_comment_line("topic"@, join);
    lemma_meta_comment_line("label"@, lv);
    lemma_meta_comment_line("desc"@, dv);
    lemma_comment_text(join);
    lemma_comment_text(lv);
    lemma_comment_text(dv);
    let t_part: Seq<char> = if a.topics.len() > 0 { tl + "\n"@ } else { Seq::empty() };
    let t_lines: Seq<Seq<char>> = if a.topics.len() > 0 { seq![tl] } else { Seq::empty() };
    let l_part: Seq<char> = if a.label is Some { ll + "\n"@ } else { Seq::empty() };
    let l_lines: Seq<Seq<char>> = if a.label is Some { seq![ll] } else { Seq::empty() };
    let d_part: Seq<char> = if a.desc is Some { dl + "\n"@ } else { Seq::empty() };
    let d_lines: Seq<Seq<char>> = if a.desc is Some { seq![dl] } else { Seq::empty() };
    let rest = entry_body(a);
    let r3 = d_part + rest;
    let r2 = l_part + r3;
    lemma_render_parts(a, t_part, l_part, d_part);
    lemma_opt_line(a.desc is Some, dl, rest);
    lemma_opt_line(a.label is Some, ll, r3);
    lemma_opt_line(a.topics.len() > 0, tl, r2);
    assert(meta_head(a) =~= t_lines + l_lines + d_lines);
    assert(t_lines + (l_lines + (d_lines + crate::text::lines(rest))) =~= t_lines + l_lines + d_lines
        + crate::text::lines(rest));
}

/// The metadata of a new entry reads back what its arguments gave: the
/// topics, joined by `, `, under `topic`; the label under `label`; the
/// description under `desc`. Each is written on a comment line of its own,
/// so none is read under another key; a value reads back as it was given
/// where it carries no whitespace at its ends.
pub proof fn new_entry_meta_reads_back(a: ArgsModel)
    requires
        forall|i: int| 0 <= i < a.topics.len() ==> !crate::text::has_char(#[trigger] a.topics[i], '\n'),
        a.label matches Some(l) ==> !crate::text::has_char(l, '\n'),
        a.desc matches Some(d) ==> !crate::text::has_char(d, '\n'),
    ensures
        a.topics.len() > 0 && a.topics[0].len() > 0 && a.topics.last().len() > 0
            && crate::text::trim(a.topics[0]) == a.topics[0]
            && crate::text::trim(a.topics.last()) == a.topics.last()
            ==> crate::md::spec_read_meta_str(render_model(a), "topic"@) == Some(
            crate::text::join_with(a.topics, ", "@),
        ),
        a.label matches Some(l) && crate::text::trim(l) == l ==> crate::md::spec_read_meta_str(
            render_model(a),
            "label"@,
        ) == a.label,
        a.desc matches Some(d) && crate::text::trim(d) == d ==> crate::md::spec_read_meta_str(
            render_model(a),
            "desc"@,
        ) == a.desc,
{
    reveal_strlit("topic");
    reveal_strlit("label");
    reveal_strlit("desc");
    let join = crate::text::join_with(a.topics, ", "@);
    let lv = match a.label { Some(l) => l, None => Seq::empty() };
    let dv = match a.desc { Some(d) => d, None => Seq::empty() };
    lemma_render_lines(a);
    let head = meta_head(a);
    let ls = crate::text::lines(render_model(a));
    let top = ls.take(if ls.len() < 8 { ls.len() as int } else { 8 });
    assert(head.len() <= 3);
    assert(forall|j: int| 0 <= j < head.len() ==> top[j] == #[trigger] head[j]);
    lemma_meta_comment("topic"@, join);
    lemma_meta_comment("label"@, lv);
    lemma_meta_comment("desc"@, dv);
    assert("label"@[0] != "topic"@[0]);
    assert("desc"@[0] != "topic"@[0]);
    assert("desc"@[0] != "label"@[0]);
    let nt: int = if a.topics.len() > 0 { 1 } else { 0 };
    let nl: int = if a.label is Some { 1 } else { 0 };
    if a.topics.len() > 0 && a.topics[0].len() > 0 && a.topics.last().len() > 0
        && crate::text::trim(a.topics[0]) == a.topics[0]
        && crate::text::trim(a.topics.last()) == a.topics.last() {
        lemma_join_ends(a.topics, ", "@);
        lemma_trimmed_ends(a.topics[0]);
        lemma_trimmed_ends(a.topics.last());
        assert(join[0] == a.topics[0][0]) by {
            assert(join.take(a.topics[0].len() as int)[0] == join[0]);
        }
        assert(join.last() == a.topics.last().last()) by {
            let s = join.skip(join.len() - a.topics.last().len());
            assert(s[s.len() - 1] == join[join.len() - 1]);
        }
        assert(crate::text::trim_start(join) == join);
        assert(crate::text::trim_end(join) == join);
        assert(top[0] == head[0]);
        lemma_meta_from_at(top, "topic"@, 0, join);
    }
    if a.label is Some && crate::text::trim(lv) == lv {
        assert(top[nt] == head[nt]);
        assert(head[nt] == meta_comment("label"@, lv));
        lemma_meta_from_at(top, "label"@, nt, lv);
    }
    if a.desc is Some && crate::text::trim(dv) == dv {
        assert(top[nt + nl] == head[nt + nl]);
        assert(head[nt + nl] == meta_comment("desc"@, dv));
        lemma_meta_from_at(top, "desc"@, nt + nl, dv);
    }
}

/// A line that is empty or begins with `#`, `>` or `-`.
pub open spec fn plain_line(l: Seq<char>) -> bool {
    l.len() == 0 || l[0] == '#' || l[0] == '>' || l[0] == '-'
}

/// A plain line is no metadata comment, trimmed or not.
proof fn lemma_plain_line(l: Seq<char>)
    requires
        plain_line(l),
    ensures
        forall|k: Seq<char>| #[trigger] crate::md::meta_in_line(crate::text::trim(l), k) is None,
{
    reveal_strlit("<!--");
    let tl = crate::text::trim(l);
    if l.len() > 0 {
        assert(crate::text::trim_start(l) == l);
        assert(seq![l[0]] + l.drop_first() =~= l);
        lemma_trim_end_keeps(seq![l[0]], l.drop_first());
        assert(tl.take(1)[0] == tl[0]);
        assert(tl[0] == l[0]);
    } else {
        assert(tl.len() == 0);
    }
    assert(!crate::text::starts_with(tl, "<!--"@)) by {
        if crate::text::starts_with(tl, "<!--"@) {
            assert(tl.subrange(0, 4)[0] == tl[0]);
        }
    }
}

/// A line of at least two characters that begins with `#`, `>` or `-`
/// stays plain without a final `\r`.
proof fn lemma_plain_body(x: Seq<char>)
    requires
        x.len() >= 2,
        plain_line(x),
    ensures
        plain_line(crate::text::line_body(x)),
{
    assert(crate::text::line_body(x).len() > 0);
    assert(crate::text::line_body(x)[0] == x[0]);
}

/// Every line of a new entry after its metadata comments is plain.
proof fn lemma_body_lines(a: ArgsModel)
    requires
        !crate::text::has_char(a.title, '\n'),
        a.quote matches Some(q) ==> !crate::text::has_char(q, '\n'),
    ensures
        forall|i: int|
            0 <= i < crate::text::lines(entry_body(a)).len() ==> plain_line(
                #[trigger] crate::text::lines(entry_body(a))[i],
            ),
{
    reveal_strlit("\n");
    reveal_strlit("\n\n");
    reveal_strlit("# ");
    reveal_strlit("> ");
    reveal_strlit("- ");
    reveal_strlit("\n\n- \n");
    reveal_strlit("> \n\n- \n");
    let e: Seq<char> = Seq::empty();
    let title = "# "@ + a.title;
    let qv = match a.quote { Some(q) => q, None => e };
    let quote = "> "@ + qv;
    let q_part: Seq<char> = match a.quote {
        Some(q) => "> "@ + q + "\n\n- \n"@,
        None => if a.topics.len() > 0 {
            "> \n\n- \n"@
        } else {
            e
        },
    };
    assert(entry_body(a) =~= title + "\n"@ + (e + "\n"@ + q_part));
    assert(!crate::text::has_char(title, '\n')) by {
        if crate::text::has_char(title, '\n') {
            let i = choose|i: int| 0 <= i < title.len() && title[i] == '\n';
            assert(a.title[i - 2] == '\n');
        }
    }
    assert(!crate::text::has_char(quote, '\n')) by {
        if crate::text::has_char(quote, '\n') {
            let i = choose|i: int| 0 <= i < quote.len() && quote[i] == '\n';
            assert(qv[i - 2] == '\n');
        }
    }
    assert(!crate::text::has_char(e, '\n'));
    assert(!crate::text::has_char("- "@, '\n'));
    lemma_lines_cons_body(title, e + "\n"@ + q_part);
    lemma_lines_cons_body(e, q_part);
    assert(crate::text::line_body(e) == e);
    lemma_plain_body(title);
    let tail = "- "@ + "\n"@ + e;
    lemma_lines_cons_body("- "@, e);
    assert(crate::text::lines(e) =~= Seq::<Seq<char>>::empty());
    lemma_lines_cons_body(e, tail);
    lemma_plain_body("- "@);
    let ql: Seq<Seq<char>> = if a.quote is Some || a.topics.len() > 0 {
        seq![crate::text::line_body(quote), e, crate::text::line_body("- "@)]
    } else {
        Seq::empty()
    };
    if a.quote is Some || a.topics.len() > 0 {
        lemma_lines_cons_body(quote, e + "\n"@ + tail);
        lemma_plain_body(quote);
        assert(q_part =~= quote + "\n"@ + (e + "\n"@ + tail));
    }
    assert(crate::text::lines(q_part) =~= ql);
    assert(crate::text::lines(entry_body(a)) =~= seq![crate::text::line_body(title), e] + ql);
}

/// The value of `key` among lines none of which gives one.
proof fn lemma_meta_from_none(ls: Seq<Seq<char>>, key: Seq<char>)
    requires
        forall|j: int| 0 <= j < ls.len() ==> crate::md::meta_in_line(crate::text::trim(#[trigger] ls[j]), key) is None,
    ensures
        crate::md::meta_from(ls, key) is None,
    decreases ls.len(),
{
    if ls.len() > 0 {
        assert(crate::md::meta_in_line(crate::text::trim(ls[0]), key) is None);
        lemma_meta_from_none(ls.drop_first(), key);
    }
}

/// A new entry names no topic, label or description that its arguments do
/// not give: no line of it reads as such a comment.
pub proof fn new_entry_meta_absent(a: ArgsModel)
    requires
        forall|i: int| 0 <= i < a.topics.len() ==> !crate::text::has_char(#[trigger] a.topics[i], '\n'),
        a.label matches Some(l) ==> !crate::text::has_char(l, '\n'),
        a.desc matches Some(d) ==> !crate::text::has_char(d, '\n'),
        !crate::text::has_char(a.title, '\n'),
        a.quote matches Some(q) ==> !crate::text::has_char(q, '\n'),
    ensures
        a.topics.len() == 0 ==> crate::md::spec_read_meta_str(render_model(a), "topic"@) is None,
        a.label is None ==> crate::md::spec_read_meta_str(render_model(a), "label"@) is None,
        a.desc is None ==> crate::md::spec_read_meta_str(render_model(a), "desc"@) is None,
{
    reveal_strlit("topic");
    reveal_strlit("label");
    reveal_strlit("desc");
    let join = crate::text::join_with(a.topics, ", "@);
    let lv = match a.label { Some(l) => l, None => Seq::empty() };
    let dv = match a.desc { Some(d) => d, None => Seq::empty() };
    lemma_render_lines(a);
    lemma_body_lines(a);
    let head = meta_head(a);
    let body = crate::text::lines(entry_body(a));
    let ls = crate::text::lines(render_model(a));
    let top = ls.take(if ls.len() < 8 { ls.len() as int } else { 8 });
    lemma_meta_comment("topic"@, join);
    lemma_meta_comment("label"@, lv);
    lemma_meta_comment("desc"@, dv);
    assert("label"@[0] != "topic"@[0]);
    assert("desc"@[0] != "topic"@[0]);
    assert("desc"@[0] != "label"@[0]);
    let nt: int = if a.topics.len() > 0 { 1 } else { 0 };
    let nl: int = if a.label is Some { 1 } else { 0 };
    assert forall|j: int| 0 <= j < head.len() implies (#[trigger] head[j] == meta_comment("topic"@, join) && a.topics.len()
        > 0) || (head[j] == meta_comment("label"@, lv) && a.label is Some) || (head[j] == meta_comment("desc"@, dv)
        && a.desc is Some) by {
        if j >= nt + nl {
            assert(a.desc is Some);
        }
    }
    if a.topics.len() == 0 {
        assert forall|j: int| 0 <= j < top.len() implies crate::md::meta_in_line(
            crate::text::trim(#[trigger] top[j]),
            "topic"@,
        ) is None by {
            assert(top[j] == ls[j]);
            if j < head.len() {
                assert(ls[j] == head[j]);
            } else {
                assert(ls[j] == body[j - head.len()]);
                lemma_plain_line(body[j - head.len()]);
            }
        }
        lemma_meta_from_none(top, "topic"@);
    }
    if a.label is None {
        assert forall|j: int| 0 <= j < top.len() implies crate::md::meta_in_line(
            crate::text::trim(#[trigger] top[j]),
            "label"@,
        ) is None by {
            assert(top[j] == ls[j]);
            if j < head.len() {
                assert(ls[j] == head[j]);
            } else {
                assert(ls[j] == body[j - head.len()]);
                lemma_plain_line(body[j - head.len()]);
            }
        }
        lemma_meta_from_none(top, "label"@);
    }
    if a.desc is None {
        assert forall|j: int| 0 <= j < top.len() implies crate::md::meta_in_line(
            crate::text::trim(#[trigger] top[j]),
            "desc"@,
        ) is None by {
            assert(top[j] == ls[j]);
            if j < head.len() {
                assert(ls[j] == head[j]);
            } else {
                assert(ls[j] == body[j - head.len()]);
                lemma_plain_line(body[j - head.len()]);
            }
        }
        lemma_meta_from_none(top, "desc"@);
    }
}

/// The topics one per line, indented.
pub open spec fn list_model(topics: Seq<Seq<char>>) -> Seq<char> {
    crate::text::join_with(Seq::new(topics.len(), |i: int| "    "@ + topics[i]), "\n"@)
}

fn list_topics(topics: &Vec<String>) -> (r: String)
    ensures
        r@ == list_model(str_views(topics@)),
{
    let mut lines: Vec<String> = Vec::new();
    let mut i: usize = 0;
    while i < topics.len()
        invariant
            i <= topics.len(),
            lines.len() == i,
            forall|k: int| 0 <= k < i ==> #[trigger] lines@[k]@ == "    "@ + topics@[k]@,
        decreases topics.len() - i,
    {
        lines.push(message2("    ", topics[i].as_str()));
        i = i + 1;
    }
    assert(str_views(lines@) =~= Seq::new(topics.len() as nat, |k: int| "    "@ + str_views(topics@)[k]));
    crate::text::join_strings(&lines, "\n")
}

/// The first of `ts` that `allowed` does not hold.
pub open spec fn first_unknown(ts: Seq<Seq<char>>, allowed: Seq<Seq<char>>) -> Option<Seq<char>>
    decreases ts.len(),
{
    if ts.len() == 0 {
        None
    } else if !allowed.contains(ts[0]) {
        Some(ts[0])
    } else {
        first_unknown(ts.drop_first(), allowed)
    }
}

/// Why the topics do not fit the directory, if they do not: a topic index
/// directory needs topics, all declared; another directory takes none.
pub open spec fn topic_error(m: crate::meta::MetaModel, a: ArgsModel) -> Option<Seq<char>> {
    match crate::meta::index_for(m.topic_indexes, a.dir, 0) {
        Some(k) => {
            let ts = m.topic_indexes[k].topics;
            if a.topics.len() == 0 {
                Some("src/"@ + a.dir + " 是主题索引目录，必须用 --topic 指定主题。可选主题：\n"@ + list_model(ts))
            } else {
                match first_unknown(a.topics, ts) {
                    Some(t) => Some("主题「"@ + t + "」未在 book-meta.toml 中声明。可选主题：\n"@ + list_model(ts)),
                    None => None,
                }
            }
        },
        None => if a.topics.len() > 0 {
            Some("src/"@ + a.dir + " 不是主题索引目录，不支持 --topic"@)
        } else {
            None
        },
    }
}

/// The arguments and the slug, once every check before numbering passed.
pub open spec fn prepared(t: crate::tree::TreeModel, m: crate::meta::MetaModel, args: Seq<Seq<char>>) -> Result<
    (ArgsModel, Seq<char>),
    Seq<char>,
> {
    match parse_model(args) {
        Err(e) => Err(e),
        Ok(a) => if crate::lint::dir_at(t, a.dir) is None {
            Err("目录不存在：src/"@ + a.dir)
        } else {
            match topic_error(m, a) {
                Some(e) => Err(e),
                None => match resolve_model(a) {
                    Err(e) => Err(e),
                    Ok(s) => Ok((a, s)),
                },
            }
        },
    }
}

/// The largest leading number among the names (those too large for `usize`
/// skipped) and the width of the longest one, at least two.
pub open spec fn number_scan(ns: Seq<Seq<char>>) -> (nat, nat)
    decreases ns.len(),
{
    if ns.len() == 0 {
        (0, 2)
    } else {
        let (m, w) = number_scan(ns.drop_last());
        let n = ns.last();
        let d = n.take(crate::md::leading_digits(n) as int);
        if d.len() == 0 {
            (m, w)
        } else {
            (
                if crate::md::digits_value(d) <= usize::MAX && crate::md::digits_value(d) > m {
                    crate::md::digits_value(d)
                } else {
                    m
                },
                if d.len() > w {
                    d.len()
                } else {
                    w
                },
            )
        }
    }
}

/// `s` left-padded with `0` to width `w`.
pub open spec fn zero_pad(s: Seq<char>, w: nat) -> Seq<char> {
    if s.len() < w {
        Seq::new((w - s.len()) as nat, |i: int| '0') + s
    } else {
        s
    }
}

/// The file name of the new entry: in a topic index directory numbered
/// after the largest number there, else the slug alone.
pub open spec fn new_file_name(t: crate::tree::TreeModel, m: crate::meta::MetaModel, a: ArgsModel, slug: Seq<char>) -> Seq<char> {
    if crate::meta::index_for(m.topic_indexes, a.dir, 0) is Some {
        let (n, w) = number_scan(crate::md::listing(t, crate::lint::dir_at(t, a.dir)->0));
        zero_pad(crate::text::decimal(n + 1), w) + "-"@ + slug + ".md"@
    } else {
        slug + ".md"@
    }
}

/// The next number fits in `usize` wherever `run_new` numbers the entry.
pub open spec fn number_fits(t: crate::tree::TreeModel, m: crate::meta::MetaModel, args: Seq<Seq<char>>) -> bool {
    match prepared(t, m, args) {
        Ok((a, s)) => crate::meta::index_for(m.topic_indexes, a.dir, 0) is Some ==> number_scan(
            crate::md::listing(t, crate::lint::dir_at(t, a.dir)->0),
        ).0 < usize::MAX,
        Err(_) => true,
    }
}

/// What `run_new` gives: the path it reports, the path of the file under
/// `src/`, and the file's text; or why no entry can be made.
pub open spec fn new_model(t: crate::tree::TreeModel, m: crate::meta::MetaModel, args: Seq<Seq<char>>) -> Result<
    (Seq<char>, Seq<char>, Seq<char>),
    Seq<char>,
> {
    match prepared(t, m, args) {
        Err(e) => Err(e),
        Ok((a, slug)) => {
            let f = new_file_name(t, m, a, slug);
            let at = crate::tree::join(crate::lint::dir_at(t, a.dir)->0, f);
            if crate::tree::path_exists(t, at) {
                Err("文件已存在：src/"@ + a.dir + "/"@ + f)
            } else {
                Ok((a.dir + "/"@ + f, at, render_model(a)))
            }
        },
    }
}

/// A new entry to write.
#[derive(Debug)]
pub struct NewEntry {
    /// The path reported to the user: the directory given, `/`, the file name.
    pub rel: String,
    /// Where the file goes, relative to `src/`.
    pub path: String,
    /// The text of the file.
    pub content: String,
}

/// The model of a result holding a new entry.
pub open spec fn entry_result(r: Result<NewEntry, String>) -> Result<(Seq<char>, Seq<char>, Seq<char>), Seq<char>> {
    match r {
        Ok(e) => Ok((e.rel@, e.path@, e.content@)),
        Err(e) => Err(e@),
    }
}

/// The model of a result holding arguments and a slug.
pub open spec fn prep_result(r: Result<(NewArgs, String), String>) -> Result<(ArgsModel, Seq<char>), Seq<char>> {
    match r {
        Ok((a, s)) => Ok((a@, s@)),
        Err(e) => Err(e@),
    }
}

#[verifier::loop_isolation(false)]
fn prepare(tree: &crate::tree::SrcTree, meta: &crate::meta::BookMeta, args: &[String]) -> (r: Result<(NewArgs, String), String>)
    ensures
        prep_result(r) == prepared(tree@, meta@, str_views(args@)),
{
    let a = match parse_args(args) {
        Ok(a) => a,
        Err(e) => {
            return Err(e);
        },
    };
    if crate::lint::resolve_dir(tree, a.dir.as_str()).is_none() {
        return Err(message2("目录不存在：src/", a.dir.as_str()));
    }
    match meta.topic_index_for(a.dir.as_str()) {
        Some(ti) => {
            if a.topics.len() == 0 {
                let l = list_topics(&ti.topics);
                let mut v = chars_of("src/");
                push_str(&mut v, a.dir.as_str());
                push_str(&mut v, " 是主题索引目录，必须用 --topic 指定主题。可选主题：\n");
                push_str(&mut v, l.as_str());
                return Err(string_of(&v));
            }
            let ghost allowed = str_views(ti.topics@);
            let ghost ts = str_views(a.topics@);
            let mut k: usize = 0;
            assert(ts.skip(0) =~= ts);
            while k < a.topics.len()
                invariant
                    k <= a.topics.len(),
                    ts == str_views(a.topics@),
                    allowed == str_views(ti.topics@),
                    first_unknown(ts, allowed) == first_unknown(ts.skip(k as int), allowed),
                decreases a.topics.len() - k,
            {
                assert(ts.skip(k as int)[0] == a.topics@[k as int]@);
                assert(ts.skip(k as int).drop_first() =~= ts.skip(k + 1));
                if !contains_string(&ti.topics, a.topics[k].as_str()) {
                    let l = list_topics(&ti.topics);
                    let mut v = chars_of("主题「");
                    push_str(&mut v, a.topics[k].as_str());
                    push_str(&mut v, "」未在 book-meta.toml 中声明。可选主题：\n");
                    push_str(&mut v, l.as_str());
                    return Err(string_of(&v));
                }
                k = k + 1;
            }
            assert(ts.skip(a.topics.len() as int) =~= Seq::<Seq<char>>::empty());
        },
        None => {
            if a.topics.len() > 0 {
                return Err(message3("src/", a.dir.as_str(), " 不是主题索引目录，不支持 --topic"));
            }
        },
    }
    match resolve_slug(&a) {
        Ok(s) => Ok((a, s)),
        Err(e) => Err(e),
    }
}

fn leading_number(name: &Vec<char>) -> (r: (usize, Option<usize>))
    ensures
        r.0 == crate::md::leading_digits(name@),
        r.0 <= name@.len(),
        ({
            let d = name@.take(crate::md::leading_digits(name@) as int);
            match r.1 {
                Some(v) => v == crate::md::digits_value(d),
                None => crate::md::digits_value(d) > usize::MAX,
            }
        }),
{
    let mut i: usize = 0;
    let mut v: usize = 0;
    let mut overflow = false;
    assert(name@.take(0) =~= Seq::<char>::empty());
    assert(name@.skip(0) =~= name@);
    while i < name.len() && '0' <= name[i] && name[i] <= '9'
        invariant
            i <= name.len(),
            crate::md::leading_digits(name@) == i + crate::md::leading_digits(name@.skip(i as int)),
            forall|j: int| 0 <= j < i ==> crate::text::is_digit(name@[j]),
            overflow ==> crate::md::digits_value(name@.take(i as int)) > usize::MAX,
            !overflow ==> v == crate::md::digits_value(name@.take(i as int)),
        decreases name.len() - i,
    {
        let d = (name[i] as u32 - '0' as u32) as usize;
        assert(name@.take(i + 1).drop_last() =~= name@.take(i as int));
        assert(name@.skip(i as int).drop_first() =~= name@.skip(i + 1));
        if !overflow {
            if v > (usize::MAX - d) / 10 {
                overflow = true;
                assert(v * 10 + d > usize::MAX) by (nonlinear_arith)
                    requires
                        v > (usize::MAX - d) / 10,
                        d <= 9,
                ;
            } else {
                assert(v * 10 + d <= usize::MAX) by (nonlinear_arith)
                    requires
                        v <= (usize::MAX - d) / 10,
                        d <= 9,
                ;
                v = v * 10 + d;
            }
        } else {
            assert(crate::md::digits_value(name@.take(i + 1)) >= crate::md::digits_value(name@.take(i as int)) * 10);
        }
        i = i + 1;
    }
    assert(crate::md::leading_digits(name@.skip(i as int)) == 0);
    if overflow {
        (i, None)
    } else {
        (i, Some(v))
    }
}

fn number_scan_exec(names: &Vec<String>) -> (r: (usize, usize))
    ensures
        (r.0 as nat, r.1 as nat) == number_scan(str_views(names@)),
{
    let ghost nv = str_views(names@);
    let mut m: usize = 0;
    let mut w: usize = 2;
    let mut i: usize = 0;
    assert(nv.take(0) =~= Seq::<Seq<char>>::empty());
    while i < names.len()
        invariant
            i <= names.len(),
            nv == str_views(names@),
            (m as nat, w as nat) == number_scan(nv.take(i as int)),
        decreases names.len() - i,
    {
        assert(nv.take(i + 1).drop_last() =~= nv.take(i as int));
        assert(nv.take(i + 1).last() == names@[i as int]@);
        let cv = chars_of(names[i].as_str());
        let (len, val) = leading_number(&cv);
        if len > 0 {
            if let Some(v) = val {
                if v > m {
                    m = v;
                }
            }
            if len > w {
                w = len;
            }
        }
        i = i + 1;
    }
    assert(nv.take(names.len() as int) =~= nv);
    (m, w)
}

/// Whether the next number of the new entry fits in `usize`, which
/// `run_new` needs.
pub fn new_number_fits(tree: &crate::tree::SrcTree, meta: &crate::meta::BookMeta, args: &[String]) -> (r: bool)
    ensures
        r == number_fits(tree@, meta@, str_views(args@)),
{
    match prepare(tree, meta, args) {
        Ok((a, _)) => {
            if meta.topic_index_for(a.dir.as_str()).is_some() {
                let at = match crate::lint::resolve_dir(tree, a.dir.as_str()) {
                    Some(d) => d,
                    None => String::new(),
                };
                let files = crate::md::md_files_in(tree, at.as_str());
                let (m, _) = number_scan_exec(&files);
                m < usize::MAX
            } else {
                true
            }
        },
        Err(_) => true,
    }
}

/// Makes a new entry in the directory named by the arguments: checks the
/// topics against the configuration, picks the slug, numbers the entry in a
/// topic index directory, and refuses to overwrite a file. Returns what to
/// write; nothing is written here.
pub fn run_new(tree: &crate::tree::SrcTree, meta: &crate::meta::BookMeta, args: &[String]) -> (r: Result<NewEntry, String>)
    requires
        number_fits(tree@, meta@, str_views(args@)),
    ensures
        entry_result(r) == new_model(tree@, meta@, str_views(args@)),
{
    let (a, slug) = match prepare(tree, meta, args) {
        Ok(p) => p,
        Err(e) => {
            return Err(e);
        },
    };
    let at = match crate::lint::resolve_dir(tree, a.dir.as_str()) {
        Some(d) => d,
        None => String::new(),
    };
    let mut fname: Vec<char> = Vec::new();
    if meta.topic_index_for(a.dir.as_str()).is_some() {
        let files = crate::md::md_files_in(tree, at.as_str());
        let (m, w) = number_scan_exec(&files);
        let next = m + 1;
        let mut digits: Vec<char> = Vec::new();
        crate::text::push_decimal(&mut digits, next);
        assert(digits@ =~= crate::text::decimal(next as nat));
        let mut k: usize = digits.len();
        while k < w
            invariant
                digits.len() <= k <= w || w < digits.len() == k,
                fname@ == Seq::new((k - digits.len()) as nat, |j: int| '0'),
            decreases w - k,
        {
            fname.push('0');
            assert(fname@ =~= Seq::new((k + 1 - digits.len()) as nat, |j: int| '0'));
            k = k + 1;
        }
        crate::text::append(&mut fname, &digits);
        assert(fname@ =~= zero_pad(crate::text::decimal(next as nat), w as nat));
        fname.push('-');
    }
    push_str(&mut fname, slug.as_str());
    push_str(&mut fname, ".md");
    proof {
        reveal_strlit("-");
    }
    assert(fname@ == new_file_name(tree@, meta@, a@, slug@));
    let dir = chars_of(at.as_str());
    let mut path: Vec<char> = Vec::new();
    if dir.len() > 0 {
        crate::text::append(&mut path, &dir);
        path.push('/');
    }
    crate::text::append(&mut path, &fname);
    assert(path@ =~= crate::tree::join(at@, fname@));
    let path_s = string_of(&path);
    let fname_s = string_of(&fname);
    if tree.path_exists(path_s.as_str()) {
        let mut v = chars_of("文件已存在：src/");
        push_str(&mut v, a.dir.as_str());
        push_str(&mut v, "/");
        push_str(&mut v, fname_s.as_str());
        return Err(string_of(&v));
    }
    let rel = message3(a.dir.as_str(), "/", fname_s.as_str());
    let content = render(&a);
    Ok(NewEntry { rel, path: path_s, content })
}

// ---------------------------------------------------------------------------
// Laws
// ---------------------------------------------------------------------------

/// A slug word: lowercase ASCII letters and digits, at least one.
pub open spec fn slug_word(w: Seq<char>) -> bool {
    w.len() > 0 && forall|i: int| 0 <= i < w.len() ==> ('a' <= #[trigger] w[i] <= 'z' || '0' <= w[i] <= '9')
}

/// Every character is an ASCII letter or digit.
pub open spec fn all_alnum(w: Seq<char>) -> bool {
    forall|i: int| 0 <= i < w.len() ==> crate::text::is_alnum(#[trigger] w[i])
}

proof fn lemma_word_pieces(s: Seq<char>, cur: Seq<char>)
    requires
        all_alnum(cur),
    ensures
        forall|k: int| 0 <= k < word_pieces(s, cur).len() ==> all_alnum(#[trigger] word_pieces(s, cur)[k]),
    decreases s.len(),
{
    if s.len() == 0 {
        assert(word_pieces(s, cur) =~= seq![cur]);
    } else {
        if !crate::text::is_alnum(s[0]) {
            lemma_word_pieces(s.drop_first(), Seq::empty());
            let r = word_pieces(s.drop_first(), Seq::empty());
            assert forall|k: int| 0 <= k < word_pieces(s, cur).len() implies all_alnum(#[trigger] word_pieces(s, cur)[k]) by {
                if k > 0 {
                    assert(word_pieces(s, cur)[k] == r[k - 1]);
                } else {
                    assert(word_pieces(s, cur)[0] == cur);
                }
            }
        } else {
            let c2 = cur.push(s[0]);
            assert(all_alnum(c2)) by {
                assert forall|i: int| 0 <= i < c2.len() implies crate::text::is_alnum(#[trigger] c2[i]) by {
                    if i < cur.len() {
                        assert(c2[i] == cur[i]);
                    }
                }
            }
            lemma_word_pieces(s.drop_first(), c2);
            assert(word_pieces(s, cur) == word_pieces(s.drop_first(), c2));
        }
    }
}

proof fn lemma_slug_words(ps: Seq<Seq<char>>, max: nat, acc: Seq<Seq<char>>)
    requires
        forall|k: int| 0 <= k < ps.len() ==> all_alnum(#[trigger] ps[k]),
        forall|k: int| 0 <= k < acc.len() ==> slug_word(#[trigger] acc[k]) && !is_stopword(acc[k]),
        acc.len() <= max,
    ensures
        slug_words(ps, max, acc).len() <= max,
        forall|k: int|
            0 <= k < slug_words(ps, max, acc).len() ==> slug_word(#[trigger] slug_words(ps, max, acc)[k])
                && !is_stopword(slug_words(ps, max, acc)[k]),
    decreases ps.len(),
{
    if ps.len() > 0 && acc.len() < max {
        let w = crate::lint::lower_all(ps[0]);
        assert(all_alnum(ps[0]));
        if w.len() > 0 && !is_stopword(w) {
            assert(slug_word(w)) by {
                assert forall|i: int| 0 <= i < w.len() implies ('a' <= #[trigger] w[i] <= 'z' || '0' <= w[i] <= '9') by {
                    assert(crate::text::is_alnum(ps[0][i]));
                }
            }
            let a2 = acc.push(w);
            assert forall|k: int| 0 <= k < a2.len() implies slug_word(#[trigger] a2[k]) && !is_stopword(a2[k]) by {
                if k < acc.len() {
                    assert(a2[k] == acc[k]);
                }
            }
            lemma_slug_words(ps.drop_first(), max, a2);
        } else {
            lemma_slug_words(ps.drop_first(), max, acc);
        }
    }
}

/// A slug is at most `max_words` words, each made of lowercase ASCII
/// letters and digits and none a stopword, joined by `-`.
pub proof fn slug_is_clean(text: Seq<char>, max_words: nat)
    ensures
        spec_slugify(text, max_words) == crate::text::join_with(
            slug_words(word_pieces(text, Seq::empty()), max_words, Seq::empty()),
            "-"@,
        ),
        slug_words(word_pieces(text, Seq::empty()), max_words, Seq::empty()).len() <= max_words,
        forall|k: int|
            0 <= k < slug_words(word_pieces(text, Seq::empty()), max_words, Seq::empty()).len() ==> slug_word(
                #[trigger] slug_words(word_pieces(text, Seq::empty()), max_words, Seq::empty())[k],
            ) && !is_stopword(slug_words(word_pieces(text, Seq::empty()), max_words, Seq::empty())[k]),
{
    lemma_word_pieces(text, Seq::empty());
    lemma_slug_words(word_pieces(text, Seq::empty()), max_words, Seq::empty());
}

} // verus!
