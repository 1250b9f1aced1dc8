//! A snapshot of the book's source directory: its files with their text and
//! its directories, addressed by `/`-separated paths relative to `src/`.
//!
//! The generators and checks read the source tree only through this
//! snapshot, so what they produce is a function of the snapshot alone.
use vstd::prelude::*;

use crate::text::{chars_of, eq, has_char, has_char_exec, skip, starts_with, starts_with_exec, str_eq, str_views, string_of};

verus! {

/// A snapshot of a source tree.
pub struct SrcTree {
    files: Vec<(String, String)>,
    dirs: Vec<String>,
}

/// The model of a snapshot: `(path, text)` of every file, and the directory paths.
pub struct TreeModel {
    pub files: Seq<(Seq<char>, Seq<char>)>,
    pub dirs: Seq<Seq<char>>,
}

/// The model of a file list.
pub open spec fn file_views(f: Seq<(String, String)>) -> Seq<(Seq<char>, Seq<char>)> {
    Seq::new(f.len(), |i: int| (f[i].0@, f[i].1@))
}

/// No path occurs twice among the files.
pub open spec fn distinct_paths(f: Seq<(Seq<char>, Seq<char>)>) -> bool {
    forall|i: int, j: int| 0 <= i < j < f.len() ==> f[i].0 != f[j].0
}

impl View for SrcTree {
    type V = TreeModel;

    closed spec fn view(&self) -> TreeModel {
        TreeModel {
            files: file_views(self.files@),
            dirs: crate::text::str_views(self.dirs@),
        }
    }
}

impl SrcTree {
    #[verifier::type_invariant]
    closed spec fn inv(self) -> bool {
        distinct_paths(file_views(self.files@))
    }
}

/// `dir` joined with `name` (`name` alone under the root).
pub open spec fn join(dir: Seq<char>, name: Seq<char>) -> Seq<char> {
    if dir.len() == 0 {
        name
    } else {
        dir + seq!['/'] + name
    }
}

/// A file is recorded at `path`.
pub open spec fn has_path(t: TreeModel, path: Seq<char>) -> bool {
    exists|i: int| 0 <= i < t.files.len() && t.files[i].0 == path
}

/// The text of the file at `path`.
pub open spec fn file_text(t: TreeModel, path: Seq<char>) -> Option<Seq<char>> {
    if has_path(t, path) {
        Some(t.files[choose|i: int| 0 <= i < t.files.len() && t.files[i].0 == path].1)
    } else {
        None
    }
}

/// `path` is a directory: the root, a recorded directory, or a proper
/// ancestor of a recorded file or directory.
pub open spec fn is_dir(t: TreeModel, path: Seq<char>) -> bool {
    ||| path.len() == 0
    ||| exists|i: int| 0 <= i < t.dirs.len() && t.dirs[i] == path
    ||| exists|i: int| 0 <= i < t.dirs.len() && starts_with(t.dirs[i], path + seq!['/'])
    ||| exists|p: Seq<char>| has_path(t, p) && starts_with(p, path + seq!['/'])
}

/// Something exists at `path`.
pub open spec fn path_exists(t: TreeModel, path: Seq<char>) -> bool {
    has_path(t, path) || is_dir(t, path)
}

/// In a snapshot with distinct paths, entry `i` gives the text of its path.
pub proof fn lemma_file_text_unique(t: TreeModel, i: int)
    requires
        distinct_paths(t.files),
        0 <= i < t.files.len(),
    ensures
        file_text(t, t.files[i].0) == Some(t.files[i].1),
{
    let p = t.files[i].0;
    let j = choose|j: int| 0 <= j < t.files.len() && t.files[j].0 == p;
    if j != i {
        if j < i {
            assert(t.files[j].0 != t.files[i].0);
        } else {
            assert(t.files[i].0 != t.files[j].0);
        }
    }
}

/// `t` with the file `path` recorded with `text`: an earlier entry for the
/// path keeps its place and takes the new text, else the file comes last.
pub open spec fn with_file(t: TreeModel, path: Seq<char>, text: Seq<char>) -> TreeModel {
    TreeModel {
        files: if has_path(t, path) {
            Seq::new(
                t.files.len(),
                |j: int|
                    if t.files[j].0 == path {
                        (path, text)
                    } else {
                        t.files[j]
                    },
            )
        } else {
            t.files.push((path, text))
        },
        dirs: t.dirs,
    }
}

/// `t` with the files `fs` recorded in order.
pub open spec fn with_files(t: TreeModel, fs: Seq<(Seq<char>, Seq<char>)>) -> TreeModel
    decreases fs.len(),
{
    if fs.len() == 0 {
        t
    } else {
        with_file(with_files(t, fs.drop_last()), fs.last().0, fs.last().1)
    }
}

/// Recording a file gives it the new text and leaves the other files and
/// the directories as they were.
pub proof fn lemma_with_file(t: TreeModel, path: Seq<char>, text: Seq<char>)
    requires
        distinct_paths(t.files),
    ensures
        distinct_paths(with_file(t, path, text).files),
        file_text(with_file(t, path, text), path) == Some(text),
        forall|p: Seq<char>| p != path ==> #[trigger] file_text(with_file(t, path, text), p) == file_text(t, p),
        forall|p: Seq<char>| #[trigger] has_path(with_file(t, path, text), p) <==> (p == path || has_path(t, p)),
        with_file(t, path, text).dirs == t.dirs,
{
    let w = with_file(t, path, text);
    let f0 = t.files;
    let f1 = w.files;
    if has_path(t, path) {
        let i = choose|i: int| 0 <= i < f0.len() && f0[i].0 == path;
        assert forall|a: int, b: int| 0 <= a < b < f1.len() implies f1[a].0 != f1[b].0 by {
            if f0[a].0 == path && f0[b].0 != path {
            } else if f0[a].0 != path && f0[b].0 == path {
            } else {
                assert(f0[a].0 != f0[b].0);
            }
        }
        lemma_file_text_unique(w, i);
        assert forall|p: Seq<char>| #[trigger] has_path(w, p) <==> (p == path || has_path(t, p)) by {
            if has_path(w, p) {
                let j = choose|j: int| 0 <= j < f1.len() && f1[j].0 == p;
                if f0[j].0 != path {
                    assert(f0[j].0 == p);
                }
            }
            if has_path(t, p) {
                let j = choose|j: int| 0 <= j < f0.len() && f0[j].0 == p;
                assert(f1[j].0 == p);
            }
            if p == path {
                assert(f1[i].0 == p);
            }
        }
        assert forall|p: Seq<char>| p != path implies #[trigger] file_text(w, p) == file_text(t, p) by {
            if has_path(t, p) {
                let j = choose|j: int| 0 <= j < f0.len() && f0[j].0 == p;
                lemma_file_text_unique(t, j);
                lemma_file_text_unique(w, j);
            }
        }
    } else {
        assert forall|a: int, b: int| 0 <= a < b < f1.len() implies f1[a].0 != f1[b].0 by {
            if b == f0.len() {
                assert(f1[a] == f0[a]);
            }
        }
        lemma_file_text_unique(w, f0.len() as int);
        assert forall|p: Seq<char>| #[trigger] has_path(w, p) <==> (p == path || has_path(t, p)) by {
            if has_path(w, p) {
                let j = choose|j: int| 0 <= j < f1.len() && f1[j].0 == p;
                if j < f0.len() {
                    assert(f0[j].0 == p);
                }
            }
            if has_path(t, p) {
                let j = choose|j: int| 0 <= j < f0.len() && f0[j].0 == p;
                assert(f1[j].0 == p);
            }
            if p == path {
                assert(f1[f0.len() as int].0 == p);
            }
        }
        assert forall|p: Seq<char>| p != path implies #[trigger] file_text(w, p) == file_text(t, p) by {
            if has_path(t, p) {
                let j = choose|j: int| 0 <= j < f0.len() && f0[j].0 == p;
                lemma_file_text_unique(t, j);
                lemma_file_text_unique(w, j);
            }
        }
    }
}

/// Entry `e` copies `f`, with the text of `path` replaced by `text`.
pub open spec fn copied(e: (String, String), f: (Seq<char>, Seq<char>), path: Seq<char>, text: Seq<char>) -> bool {
    e.0@ == f.0 && e.1@ == (if f.0 == path {
        text
    } else {
        f.1
    })
}

impl SrcTree {
    /// An empty tree.
    pub fn new() -> (t: SrcTree)
        ensures
            t@.files.len() == 0,
            t@.dirs.len() == 0,
    {
        let t = SrcTree { files: Vec::new(), dirs: Vec::new() };
        assert(distinct_paths(file_views(t.files@)));
        t
    }

    /// A copy of the snapshot.
    pub fn copy(&self) -> (r: SrcTree)
        ensures
            r@ == self@,
    {
        proof {
            use_type_invariant(self);
        }
        let mut files: Vec<(String, String)> = Vec::new();
        let mut i: usize = 0;
        while i < self.files.len()
            invariant
                i <= self.files.len(),
                files.len() == i,
                forall|k: int| 0 <= k < i ==> #[trigger] files@[k].0@ == self.files@[k].0@ && files@[k].1@ == self.files@[k].1@,
            decreases self.files.len() - i,
        {
            let p = self.files[i].0.clone();
            let c = self.files[i].1.clone();
            files.push((p, c));
            i = i + 1;
        }
        assert(file_views(files@) =~= file_views(self.files@));
        let dirs = crate::text::clone_strings(&self.dirs);
        SrcTree { files, dirs }
    }

    /// Records the file `path` with `text`, replacing an earlier text.
    pub fn add_file(&mut self, path: &str, text: &str)
        ensures
            file_text(final(self)@, path@) == Some(text@),
            forall|p: Seq<char>| p != path@ ==> file_text(final(self)@, p) == file_text(old(self)@, p),
            forall|p: Seq<char>| has_path(final(self)@, p) <==> (p == path@ || has_path(old(self)@, p)),
            final(self)@.dirs == old(self)@.dirs,
            final(self)@ == with_file(old(self)@, path@, text@),
    {
        proof {
            use_type_invariant(&*self);
        }
        let ghost f0 = file_views(self.files@);
        let mut nf: Vec<(String, String)> = Vec::new();
        let mut found = false;
        let mut i: usize = 0;
        while i < self.files.len()
            invariant
                i <= self.files.len(),
                f0 == file_views(self.files@),
                distinct_paths(f0),
                nf.len() == i,
                forall|j: int| 0 <= j < i ==> #[trigger] copied(nf@[j], f0[j], path@, text@),
                found == (exists|j: int| 0 <= j < i && f0[j].0 == path@),
            decreases self.files.len() - i,
        {
            let p = self.files[i].0.clone();
            assert(p@ == f0[i as int].0);
            let ghost nf0 = nf@;
            if str_eq(p.as_str(), path) {
                nf.push((p, string_of(&chars_of(text))));
                found = true;
            } else {
                let c = self.files[i].1.clone();
                assert(c@ == f0[i as int].1);
                nf.push((p, c));
            }
            assert forall|j: int| 0 <= j < i + 1 implies #[trigger] copied(nf@[j], f0[j], path@, text@) by {
                if j < i {
                    assert(nf@[j] == nf0[j]);
                    assert(copied(nf0[j], f0[j], path@, text@));
                }
            }
            assert(found == (exists|j: int| 0 <= j < i + 1 && f0[j].0 == path@)) by {
                if f0[i as int].0 == path@ {
                    assert(0 <= i < i + 1 && f0[i as int].0 == path@);
                }
            }
            i = i + 1;
        }
        if !found {
            nf.push((string_of(&chars_of(path)), string_of(&chars_of(text))));
        }
        let ghost f1 = file_views(nf@);
        proof {
            assert forall|a: int, b: int| 0 <= a < b < f1.len() implies f1[a].0 != f1[b].0 by {
                assert(copied(nf@[a], f0[a], path@, text@));
                if b < f0.len() {
                    assert(copied(nf@[b], f0[b], path@, text@));
                }
            }
        }
        self.files = nf;
        proof {
            let t0 = old(self)@;
            let t1 = self@;
            assert(t1.files == f1);
            assert(t0.files == f0);
            assert(found == has_path(t0, path@));
            assert forall|j: int| 0 <= j < f0.len() implies #[trigger] f1[j] == (if f0[j].0 == path@ {
                (path@, text@)
            } else {
                f0[j]
            }) by {
                assert(copied(nf@[j], f0[j], path@, text@));
            }
            assert(t1.files =~= with_file(t0, path@, text@).files);
            assert forall|q: Seq<char>| has_path(t1, q) <==> (q == path@ || has_path(t0, q)) by {
                if has_path(t1, q) {
                    let j = choose|j: int| 0 <= j < f1.len() && f1[j].0 == q;
                    if j < f0.len() {
                        assert(copied(nf@[j], f0[j], path@, text@));
                        assert(f0[j].0 == q);
                    }
                }
                if has_path(t0, q) {
                    let j = choose|j: int| 0 <= j < f0.len() && f0[j].0 == q;
                    assert(copied(nf@[j], f0[j], path@, text@));
                    assert(f1[j].0 == q);
                }
                if q == path@ {
                    if found {
                        let j = choose|j: int| 0 <= j < f0.len() && f0[j].0 == path@;
                        assert(copied(nf@[j], f0[j], path@, text@));
                        assert(f1[j].0 == q);
                    } else {
                        assert(f1[f0.len() as int].0 == q);
                    }
                }
            }
            if found {
                let j = choose|j: int| 0 <= j < f0.len() && f0[j].0 == path@;
                assert(copied(nf@[j], f0[j], path@, text@));
                lemma_file_text_unique(t1, j);
            } else {
                lemma_file_text_unique(t1, f0.len() as int);
            }
            assert forall|q: Seq<char>| q != path@ implies file_text(t1, q) == file_text(t0, q) by {
                if has_path(t0, q) {
                    let j = choose|j: int| 0 <= j < f0.len() && f0[j].0 == q;
                    assert(copied(nf@[j], f0[j], path@, text@));
                    lemma_file_text_unique(t0, j);
                    lemma_file_text_unique(t1, j);
                }
            }
        }
    }

    /// Records the directory `path`.
    pub fn add_dir(&mut self, path: &str)
        ensures
            final(self)@.files == old(self)@.files,
            final(self)@.dirs == old(self)@.dirs.push(path@),
    {
        proof {
            use_type_invariant(&*self);
        }
        let ghost d0 = self@.dirs;
        let mut d = crate::text::clone_strings(&self.dirs);
        let ghost dv = d@;
        d.push(string_of(&chars_of(path)));
        assert(crate::text::str_views(d@) =~= crate::text::str_views(dv).push(path@));
        self.dirs = d;
        assert(self@.dirs =~= d0.push(path@));
    }
}

/// The name of `f` inside directory `dir`, when `f` lies directly in it.
pub open spec fn child_name(dir: Seq<char>, f: Seq<char>) -> Option<Seq<char>> {
    if dir.len() == 0 {
        if has_char(f, '/') {
            None
        } else {
            Some(f)
        }
    } else if starts_with(f, dir + seq!['/']) && !has_char(f.skip(dir.len() as int + 1), '/') {
        Some(f.skip(dir.len() as int + 1))
    } else {
        None
    }
}

/// No element occurs twice in `s`.
pub open spec fn distinct<A>(s: Seq<A>) -> bool {
    forall|i: int, j: int| 0 <= i < s.len() && 0 <= j < s.len() && i != j ==> s[i] != s[j]
}

/// A file lies directly in `dir` under `name` exactly when its path is `dir` joined with `name`.
pub proof fn lemma_child_name(dir: Seq<char>, f: Seq<char>, name: Seq<char>)
    ensures
        child_name(dir, f) == Some(name) <==> (f == join(dir, name) && !has_char(name, '/')),
{
    if dir.len() > 0 {
        let pre = dir + seq!['/'];
        if f == join(dir, name) {
            assert(f.subrange(0, pre.len() as int) =~= pre);
            assert(f.skip(dir.len() as int + 1) =~= name);
        }
        if child_name(dir, f) == Some(name) {
            assert(f =~= pre + f.skip(dir.len() as int + 1));
        }
    }
}

impl SrcTree {
    /// The text of the file at `path` (`fs::read_to_string` on the snapshot).
    pub fn read(&self, path: &str) -> (r: Option<String>)
        ensures
            match r {
                Some(s) => file_text(self@, path@) == Some(s@),
                None => file_text(self@, path@) is None,
            },
    {
        proof {
            use_type_invariant(self);
        }
        let mut i: usize = 0;
        while i < self.files.len()
            invariant
                i <= self.files.len(),
                distinct_paths(self@.files),
                forall|j: int| 0 <= j < i ==> self@.files[j].0 != path@,
            decreases self.files.len() - i,
        {
            if str_eq(self.files[i].0.as_str(), path) {
                proof {
                    lemma_file_text_unique(self@, i as int);
                }
                return Some(self.files[i].1.clone());
            }
            i = i + 1;
        }
        None
    }

    /// Whether `path` is a directory of the snapshot.
    pub fn is_dir(&self, path: &str) -> (r: bool)
        ensures
            r == is_dir(self@, path@),
    {
        let p = chars_of(path);
        if p.len() == 0 {
            return true;
        }
        let mut pre = p.clone();
        pre.push('/');
        assert(pre@ =~= path@ + seq!['/']);
        let mut i: usize = 0;
        while i < self.dirs.len()
            invariant
                i <= self.dirs.len(),
                p@ == path@,
                pre@ == path@ + seq!['/'],
                forall|j: int|
                    0 <= j < i ==> self@.dirs[j] != path@ && !starts_with(
                        #[trigger] self@.dirs[j],
                        path@ + seq!['/'],
                    ),
            decreases self.dirs.len() - i,
        {
            let d = chars_of(self.dirs[i].as_str());
            assert(d@ == self@.dirs[i as int]);
            if eq(&d, &p) || starts_with_exec(&d, &pre) {
                return true;
            }
            i = i + 1;
        }
        let mut i: usize = 0;
        while i < self.files.len()
            invariant
                i <= self.files.len(),
                pre@ == path@ + seq!['/'],
                forall|j: int| 0 <= j < i ==> !starts_with(#[trigger] self@.files[j].0, path@ + seq!['/']),
            decreases self.files.len() - i,
        {
            let f = chars_of(self.files[i].0.as_str());
            assert(f@ == self@.files[i as int].0);
            if starts_with_exec(&f, &pre) {
                assert(has_path(self@, f@));
                return true;
            }
            i = i + 1;
        }
        assert forall|q: Seq<char>| has_path(self@, q) implies !starts_with(q, path@ + seq!['/']) by {
            let j = choose|j: int| 0 <= j < self@.files.len() && self@.files[j].0 == q;
        }
        false
    }

    /// Whether a file or directory exists at `path`.
    pub fn path_exists(&self, path: &str) -> (r: bool)
        ensures
            r == path_exists(self@, path@),
    {
        let f = self.read(path);
        f.is_some() || self.is_dir(path)
    }

    /// The names of the files that lie directly in `dir`.
    pub fn file_names(&self, dir: &str) -> (r: Vec<String>)
        ensures
            distinct(str_views(r@)),
            forall|n: Seq<char>|
                #![trigger str_views(r@).contains(n)]
                #![trigger has_path(self@, join(dir@, n))]
                str_views(r@).contains(n) <==> (has_path(self@, join(dir@, n)) && !has_char(n, '/')),
    {
        proof {
            use_type_invariant(self);
        }
        let d = chars_of(dir);
        let mut pre = d.clone();
        pre.push('/');
        assert(pre@ =~= dir@ + seq!['/']);
        let mut out: Vec<String> = Vec::new();
        let mut i: usize = 0;
        while i < self.files.len()
            invariant
                i <= self.files.len(),
                d@ == dir@,
                pre@ == dir@ + seq!['/'],
                distinct_paths(self@.files),
                distinct(str_views(out@)),
                forall|k: int|
                    0 <= k < out.len() ==> exists|j: int|
                        0 <= j < i && child_name(dir@, self@.files[j].0) == Some(#[trigger] out@[k]@),
                forall|j: int|
                    0 <= j < i ==> (#[trigger] child_name(dir@, self@.files[j].0) matches Some(n)
                        ==> str_views(out@).contains(n)),
            decreases self.files.len() - i,
        {
            let f = chars_of(self.files[i].0.as_str());
            assert(f@ == self@.files[i as int].0);
            let name: Option<Vec<char>> = if d.len() == 0 {
                if has_char_exec(&f, '/') {
                    None
                } else {
                    Some(f)
                }
            } else if starts_with_exec(&f, &pre) {
                let fl = f.len();
                assert(d.len() + 1 <= fl);
                let rest = skip(&f, d.len() + 1);
                if has_char_exec(&rest, '/') {
                    None
                } else {
                    Some(rest)
                }
            } else {
                None
            };
            assert(name matches Some(v) ==> child_name(dir@, self@.files[i as int].0) == Some(v@));
            assert(name is None ==> child_name(dir@, self@.files[i as int].0) is None);
            let ghost before = out@;
            match name {
                Some(v) => {
                    proof {
                        assert forall|k: int| 0 <= k < before.len() implies before[k]@ != v@ by {
                            let j = choose|j: int|
                                0 <= j < i && child_name(dir@, self@.files[j].0) == Some(before[k]@);
                            lemma_child_name(dir@, self@.files[j].0, v@);
                            lemma_child_name(dir@, self@.files[i as int].0, v@);
                            if before[k]@ == v@ {
                                assert(self@.files[j].0 == self@.files[i as int].0);
                            }
                        }
                    }
                    out.push(string_of(&v));
                    assert(str_views(out@) =~= str_views(before).push(v@));
                    assert forall|k: int| 0 <= k < out.len() implies exists|j: int|
                        0 <= j < i + 1 && child_name(dir@, self@.files[j].0) == Some(
                            #[trigger] out@[k]@,
                        ) by {
                        if k < before.len() {
                            assert(out@[k] == before[k]);
                        } else {
                            assert(child_name(dir@, self@.files[i as int].0) == Some(out@[k]@));
                        }
                    }
                },
                None => {},
            }
            assert forall|j: int|
                0 <= j < i + 1 implies (#[trigger] child_name(dir@, self@.files[j].0) matches Some(n)
                ==> str_views(out@).contains(n)) by {
                if j < i {
                    if let Some(n) = child_name(dir@, self@.files[j].0) {
                        assert(str_views(before).contains(n));
                        let k = choose|k: int| 0 <= k < before.len() && str_views(before)[k] == n;
                        assert(str_views(out@)[k] == n);
                    }
                } else {
                    if let Some(n) = child_name(dir@, self@.files[j].0) {
                        assert(str_views(out@)[out.len() - 1] == n);
                    }
                }
            }
            i = i + 1;
        }
        assert forall|n: Seq<char>| (has_path(self@, join(dir@, n)) && !has_char(n, '/')) implies str_views(out@).contains(n) by {
            if has_path(self@, join(dir@, n)) && !has_char(n, '/') {
                let j = choose|j: int| 0 <= j < self@.files.len() && self@.files[j].0 == join(dir@, n);
                lemma_child_name(dir@, self@.files[j].0, n);
            }
        }
        assert forall|n: Seq<char>| str_views(out@).contains(n) implies (has_path(self@, join(dir@, n)) && !has_char(n, '/')) by {
            if str_views(out@).contains(n) {
                let k = choose|k: int| 0 <= k < out.len() && str_views(out@)[k] == n;
                assert(out@[k]@ == n);
                let j = choose|j: int|
                    0 <= j < self.files.len() && child_name(dir@, self@.files[j].0) == Some(out@[k]@);
                lemma_child_name(dir@, self@.files[j].0, n);
            }
        }
        out
    }
}

} // verus!
