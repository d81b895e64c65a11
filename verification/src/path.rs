//! Path resolution.

use crate::directory::{
    DirectoryTree, DirsView, dot, dotdot, find_name, is_dot, is_dotdot, law_lookup_after_add,
    listing_of, lookup_in, valid_name, well_formed_dirs, with_entry,
};
use vstd::prelude::*;

verus! {

/// Length of the leading run of non-`/` characters of `p`.
pub open spec fn word_len(p: Seq<char>) -> nat
    decreases p.len(),
{
    if p.len() == 0 || p[0] == '/' {
        0
    } else {
        1 + word_len(p.drop_first())
    }
}

/// The components of a path: the non-empty pieces between `/` separators.
pub open spec fn components(p: Seq<char>) -> Seq<Seq<char>>
    decreases p.len(),
{
    if p.len() == 0 {
        Seq::empty()
    } else if p[0] == '/' {
        components(p.drop_first())
    } else {
        proof {
            lemma_word_len(p);
        }
        seq![p.take(word_len(p) as int)] + components(p.skip(word_len(p) as int))
    }
}

/// `parts` joined with `/` between them.
pub open spec fn joined(parts: Seq<Seq<char>>) -> Seq<char>
    decreases parts.len(),
{
    if parts.len() == 0 {
        Seq::empty()
    } else if parts.len() == 1 {
        parts[0]
    } else {
        joined(parts.drop_last()) + seq!['/'] + parts.last()
    }
}

/// The last component of a path, or the empty name when it has none.
pub open spec fn basename_of(p: Seq<char>) -> Seq<char> {
    if components(p).len() > 0 {
        components(p).last()
    } else {
        Seq::empty()
    }
}

/// The absolute path of the directory holding the last component of `p`.
pub open spec fn dirname_of(p: Seq<char>) -> Seq<char> {
    if components(p).len() <= 1 {
        seq!['/']
    } else {
        seq!['/'] + joined(components(p).drop_last())
    }
}

/// Walking `comps` from directory `cur`, each component looked up by name:
/// the inode reached, or the first component that is not found.
pub open spec fn walk(d: DirsView, cur: u32, comps: Seq<Seq<char>>) -> Result<u32, Seq<char>>
    decreases comps.len(),
{
    if comps.len() == 0 {
        Ok(cur)
    } else {
        match lookup_in(d, cur, comps[0]) {
            Some(next) => walk(d, next, comps.drop_first()),
            None => Err(comps[0]),
        }
    }
}

/// Walking `comps` from directory `cur`, where `.` stays put and `..` follows
/// the directory's `..` entry: the inode reached, or the failure, as
/// `Err(None)` for a missing `..` entry and `Err(Some(name))` for a missing name.
pub open spec fn walk_relative(d: DirsView, cur: u32, comps: Seq<Seq<char>>) -> Result<
    u32,
    Option<Seq<char>>,
>
    decreases comps.len(),
{
    if comps.len() == 0 {
        Ok(cur)
    } else if comps[0] == dot() {
        walk_relative(d, cur, comps.drop_first())
    } else if comps[0] == dotdot() {
        match lookup_in(d, cur, dotdot()) {
            Some(parent) => walk_relative(d, parent, comps.drop_first()),
            None => Err(None),
        }
    } else {
        match lookup_in(d, cur, comps[0]) {
            Some(next) => walk_relative(d, next, comps.drop_first()),
            None => Err(Some(comps[0])),
        }
    }
}

/// A canonical absolute path: it starts with `/`, never has two `/` in a
/// row, and ends in `/` only when it is just `/`.
pub open spec fn is_canonical_absolute(s: Seq<char>) -> bool {
    &&& s.len() > 0
    &&& s[0] == '/'
    &&& forall|i: int| 0 <= i < s.len() - 1 ==> !(#[trigger] s[i] == '/' && s[i + 1] == '/')
    &&& s.len() > 1 ==> s.last() != '/'
}

/// The views of a vector of string slices.
pub open spec fn strs_view(v: Seq<&str>) -> Seq<Seq<char>> {
    v.map_values(|s: &str| s@)
}

/// A word: non-empty and free of `/`.
pub open spec fn is_word(w: Seq<char>) -> bool {
    w.len() > 0 && !w.contains('/')
}

/// The leading word of `p` stops at the first `/` or the end.
pub proof fn lemma_word_len(p: Seq<char>)
    ensures
        word_len(p) <= p.len(),
        forall|k: int| 0 <= k < word_len(p) ==> p[k] != '/',
        word_len(p) < p.len() ==> p[word_len(p) as int] == '/',
        p.len() > 0 && p[0] != '/' ==> word_len(p) > 0,
    decreases p.len(),
{
    if p.len() > 0 && p[0] != '/' {
        lemma_word_len(p.drop_first());
        assert forall|k: int| 0 <= k < word_len(p) implies p[k] != '/' by {
            if k > 0 {
                assert(p[k] == p.drop_first()[k - 1]);
            }
        }
    }
}

/// A run of `m` non-`/` characters followed by `/` or the end is the leading word.
proof fn lemma_word_len_is(p: Seq<char>, m: int)
    requires
        0 <= m <= p.len(),
        forall|k: int| 0 <= k < m ==> p[k] != '/',
        m == p.len() || p[m] == '/',
    ensures
        word_len(p) == m,
    decreases m,
{
    if m > 0 {
        lemma_word_len_is(p.drop_first(), m - 1);
    }
}

/// A leading `/` contributes no component.
proof fn lemma_components_slash(p: Seq<char>, i: int)
    requires
        0 <= i < p.len(),
        p[i] == '/',
    ensures
        components(p.skip(i)) == components(p.skip(i + 1)),
{
    assert(p.skip(i).drop_first() =~= p.skip(i + 1));
}

/// A word running from `start` up to `end` (a `/` or the end of `p`) is the
/// first component of `p.skip(start)`.
proof fn lemma_components_word(p: Seq<char>, start: int, end: int)
    requires
        0 <= start < end <= p.len(),
        forall|k: int| start <= k < end ==> p[k] != '/',
        end == p.len() || p[end] == '/',
    ensures
        components(p.skip(start)) == seq![p.subrange(start, end)] + components(p.skip(end)),
{
    let q = p.skip(start);
    lemma_word_len_is(q, end - start);
    assert(q.take(end - start) =~= p.subrange(start, end));
    assert(q.skip(end - start) =~= p.skip(end));
}

impl<'a> PathResolver<'a> {
    /// The directory tree that paths are resolved in.
    pub closed spec fn dirs(&self) -> DirsView {
        self.tree@
    }

    /// A resolver over `tree`.
    pub fn new(tree: &'a DirectoryTree) -> (r: Self)
        ensures
            r.dirs() == tree@,
    {
        Self { tree }
    }

    /// Resolve an absolute path (starts with '/') to an inode number, walking
    /// its components from the root (inode 0).
    pub fn resolve(&self, path: &str) -> (r: Result<u32, String>)
        ensures
            match r {
                Ok(ino) => walk(self.dirs(), 0, components(path@)) == Ok::<u32, Seq<char>>(ino),
                Err(e) => match walk(self.dirs(), 0, components(path@)) {
                    Err(part) => e@ == "Path component '"@ + part + "' not found"@,
                    Ok(_) => false,
                },
            },
    {
        let parts = Self::split_path(path);
        let ghost comps = components(path@);
        if parts.len() == 0 {
            return Ok(0);
        }
        let mut current_ino: u32 = 0;
        let mut k: usize = 0;
        proof {
            assert(comps.skip(0) =~= comps);
        }
        while k < parts.len()
            invariant
                comps == components(path@),
                strs_view(parts@) == comps,
                k <= parts.len(),
                walk(self.dirs(), 0, comps) == walk(self.dirs(), current_ino, comps.skip(k as int)),
            decreases parts.len() - k,
        {
            let part = parts[k];
            proof {
                assert(part@ == comps[k as int]);
                assert(comps.skip(k as int).drop_first() =~= comps.skip(k + 1));
            }
            match self.tree.lookup(current_ino, part) {
                Some(next) => {
                    current_ino = next;
                },
                None => {
                    let mut msg = String::from_str("Path component '");
                    msg.append(part);
                    msg.append("' not found");
                    return Err(msg);
                },
            }
            k += 1;
        }
        proof {
            assert(comps.skip(k as int) =~= Seq::<Seq<char>>::empty());
        }
        Ok(current_ino)
    }

    /// Resolve a path relative to a starting inode: `.` stays, `..` goes to
    /// the directory's parent, any other component is looked up by name.
    pub fn resolve_relative(&self, start_ino: u32, path: &str) -> (r: Result<u32, String>)
        ensures
            match r {
                Ok(ino) => walk_relative(self.dirs(), start_ino, components(path@)) == Ok::<
                    u32,
                    Option<Seq<char>>,
                >(ino),
                Err(e) => match walk_relative(self.dirs(), start_ino, components(path@)) {
                    Err(None) => e@ == "No parent"@,
                    Err(Some(part)) => e@ == "'"@ + part + "' not found"@,
                    Ok(_) => false,
                },
            },
    {
        let parts = Self::split_path(path);
        let ghost comps = components(path@);
        if parts.len() == 0 {
            return Ok(start_ino);
        }
        let mut current_ino: u32 = start_ino;
        let mut k: usize = 0;
        proof {
            assert(comps.skip(0) =~= comps);
        }
        while k < parts.len()
            invariant
                comps == components(path@),
                strs_view(parts@) == comps,
                k <= parts.len(),
                walk_relative(self.dirs(), start_ino, comps) == walk_relative(
                    self.dirs(),
                    current_ino,
                    comps.skip(k as int),
                ),
            decreases parts.len() - k,
        {
            let part = parts[k];
            proof {
                assert(part@ == comps[k as int]);
                assert(comps.skip(k as int).drop_first() =~= comps.skip(k + 1));
            }
            if is_dot(part) {
            } else if is_dotdot(part) {
                proof {
                    reveal_strlit("..");
                    assert(".."@ =~= dotdot());
                }
                match self.tree.lookup(current_ino, "..") {
                    Some(parent) => {
                        current_ino = parent;
                    },
                    None => {
                        return Err("No parent".to_owned());
                    },
                }
            } else {
                match self.tree.lookup(current_ino, part) {
                    Some(next) => {
                        current_ino = next;
                    },
                    None => {
                        let mut msg = String::from_str("'");
                        msg.append(part);
                        msg.append("' not found");
                        return Err(msg);
                    },
                }
            }
            k += 1;
        }
        proof {
            assert(comps.skip(k as int) =~= Seq::<Seq<char>>::empty());
        }
        Ok(current_ino)
    }

    /// Get the basename of a path: its last component, or `""` if it has none.
    pub fn basename(path: &str) -> (r: &str)
        ensures
            r@ == basename_of(path@),
    {
        let parts = Self::split_path(path);
        if parts.len() == 0 {
            proof {
                reveal_strlit("");
                assert(""@ =~= Seq::<char>::empty());
            }
            ""
        } else {
            proof {
                assert(parts@[parts.len() - 1]@ == components(path@).last());
            }
            parts[parts.len() - 1]
        }
    }

    /// Get the dirname of a path: `/` followed by all but its last component,
    /// joined with `/`; just `/` when it has at most one component.
    pub fn dirname(path: &str) -> (r: String)
        ensures
            r@ == dirname_of(path@),
    {
        proof {
            reveal_strlit("/");
            assert("/"@ =~= seq!['/']);
        }
        let parts = Self::split_path(path);
        let ghost comps = components(path@);
        if parts.len() <= 1 {
            return "/".to_owned();
        }
        let mut out = String::from_str("/");
        let last = parts.len() - 1;
        let mut k: usize = 0;
        proof {
            assert(comps.take(0) =~= Seq::<Seq<char>>::empty());
        }
        while k < last
            invariant
                "/"@ == seq!['/'],
                comps == components(path@),
                strs_view(parts@) == comps,
                last == parts.len() - 1,
                k <= last,
                out@ == seq!['/'] + joined(comps.take(k as int)),
            decreases last - k,
        {
            if k > 0 {
                out.append("/");
            }
            out.append(parts[k]);
            proof {
                let t = comps.take(k + 1);
                assert(t.drop_last() =~= comps.take(k as int));
                assert(t.last() == parts@[k as int]@);
                assert(out@ =~= seq!['/'] + joined(t));
            }
            k += 1;
        }
        proof {
            assert(comps.take(last as int) =~= comps.drop_last());
        }
        out
    }

    /// Split a path into components.
    pub fn split_path(path: &str) -> (r: Vec<&str>)
        ensures
            strs_view(r@) == components(path@),
    {
        let n = path.unicode_len();
        let ghost p = path@;
        let mut parts: Vec<&str> = Vec::new();
        let mut start: usize = 0;
        let mut i: usize = 0;
        proof {
            assert(p.skip(0) =~= p);
        }
        while i < n
            invariant
                n == p.len(),
                p == path@,
                start <= i <= n,
                forall|k: int| start <= k < i ==> p[k] != '/',
                strs_view(parts@) + components(p.skip(start as int)) == components(p),
            decreases n - i,
        {
            let c = path.get_char(i);
            if c == '/' {
                if start < i {
                    let w = path.substring_char(start, i);
                    let ghost before = strs_view(parts@);
                    parts.push(w);
                    proof {
                        lemma_components_word(p, start as int, i as int);
                        lemma_components_slash(p, i as int);
                        assert(strs_view(parts@) =~= before.push(w@));
                        assert(strs_view(parts@) + components(p.skip(i + 1)) =~= before + (seq![
                            p.subrange(start as int, i as int),
                        ] + components(p.skip(i as int))));
                    }
                } else {
                    proof {
                        lemma_components_slash(p, i as int);
                    }
                }
                start = i + 1;
            }
            i += 1;
        }
        if start < n {
            let w = path.substring_char(start, n);
            let ghost before = strs_view(parts@);
            parts.push(w);
            proof {
                lemma_components_word(p, start as int, n as int);
                assert(p.skip(n as int) =~= Seq::<char>::empty());
                assert(strs_view(parts@) =~= before.push(w@));
                assert(strs_view(parts@) =~= before + components(p.skip(start as int)));
            }
        } else {
            proof {
                assert(p.skip(start as int) =~= Seq::<char>::empty());
                assert(strs_view(parts@) =~= strs_view(parts@) + components(p.skip(start as int)));
            }
        }
        parts
    }
}

/// The leading word of `a` followed by `/` and anything is the leading word of `a`.
proof fn lemma_word_len_slash(a: Seq<char>, b: Seq<char>)
    ensures
        word_len(a + seq!['/'] + b) == word_len(a),
    decreases a.len(),
{
    let x = a + seq!['/'] + b;
    if a.len() == 0 {
        assert(x[0] == '/');
    } else if a[0] != '/' {
        assert(x.drop_first() =~= a.drop_first() + seq!['/'] + b);
        lemma_word_len_slash(a.drop_first(), b);
    }
}

/// Splitting at a `/` splits the components: the components of `a/b` are
/// those of `a` followed by those of `b`.
pub proof fn lemma_components_concat(a: Seq<char>, b: Seq<char>)
    ensures
        components(a + seq!['/'] + b) == components(a) + components(b),
    decreases a.len(),
{
    let x = a + seq!['/'] + b;
    if a.len() == 0 {
        assert(x.drop_first() =~= b);
        assert(components(a) =~= Seq::<Seq<char>>::empty());
        assert(components(a) + components(b) =~= components(b));
    } else if a[0] == '/' {
        assert(x.drop_first() =~= a.drop_first() + seq!['/'] + b);
        lemma_components_concat(a.drop_first(), b);
    } else {
        lemma_word_len_slash(a, b);
        lemma_word_len(a);
        let w = word_len(a) as int;
        assert(x.take(w) =~= a.take(w));
        assert(x.skip(w) =~= a.skip(w) + seq!['/'] + b);
        lemma_components_concat(a.skip(w), b);
        assert(components(x) =~= components(a) + components(b));
    }
}

/// A single word is its own only component.
proof fn lemma_components_word_alone(w: Seq<char>)
    requires
        is_word(w),
    ensures
        components(w) == seq![w],
{
    assert forall|k: int| 0 <= k < w.len() implies w[k] != '/' by {
        if w[k] == '/' {
            assert(w.contains('/'));
        }
    }
    lemma_word_len_is(w, w.len() as int);
    assert(w[0] != '/');
    assert(w.take(w.len() as int) =~= w);
    assert(w.skip(w.len() as int) =~= Seq::<char>::empty());
    assert(components(w.skip(w.len() as int)) =~= Seq::<Seq<char>>::empty());
    assert(components(w) =~= seq![w]);
}

/// A leading `/` does not change the components.
proof fn lemma_components_leading_slash(p: Seq<char>)
    ensures
        components(seq!['/'] + p) == components(p),
{
    assert((seq!['/'] + p).drop_first() =~= p);
}

/// Joining words with `/` and splitting again gives back the words.
pub proof fn lemma_components_joined(ws: Seq<Seq<char>>)
    requires
        forall|i: int| 0 <= i < ws.len() ==> is_word(#[trigger] ws[i]),
    ensures
        components(joined(ws)) == ws,
    decreases ws.len(),
{
    if ws.len() == 0 {
    } else if ws.len() == 1 {
        lemma_components_word_alone(ws[0]);
        assert(seq![ws[0]] =~= ws);
    } else {
        let init = ws.drop_last();
        assert forall|i: int| 0 <= i < init.len() implies is_word(#[trigger] init[i]) by {
            assert(init[i] == ws[i]);
        }
        lemma_components_joined(init);
        lemma_components_concat(joined(init), ws.last());
        lemma_components_word_alone(ws.last());
        assert(init + seq![ws.last()] =~= ws);
    }
}

/// Every component of a path is a non-empty name without `/`.
pub proof fn law_components_are_words(p: Seq<char>)
    ensures
        forall|i: int| 0 <= i < components(p).len() ==> is_word(#[trigger] components(p)[i]),
    decreases p.len(),
{
    if p.len() > 0 {
        if p[0] == '/' {
            law_components_are_words(p.drop_first());
            assert(components(p) == components(p.drop_first()));
        } else {
            lemma_word_len(p);
            let w = word_len(p) as int;
            let first = p.take(w);
            law_components_are_words(p.skip(w));
            assert(!first.contains('/')) by {
                if first.contains('/') {
                    let k = choose|k: int| 0 <= k < first.len() && first[k] == '/';
                    assert(p[k] == '/');
                }
            }
            let c = components(p);
            assert(c == seq![first] + components(p.skip(w)));
            assert(first.len() == w);
            assert forall|i: int| 0 <= i < c.len() implies is_word(#[trigger] c[i]) by {
                if i == 0 {
                    assert(c[0] == first);
                } else {
                    assert(c[i] == components(p.skip(w))[i - 1]);
                }
            }
        }
    }
}

/// Walking a path of any length looks up its first component from the
/// current directory and walks the rest from the inode it names; an empty
/// path stays where it is. A missing first component is the failure.
pub proof fn law_walk_step(d: DirsView, cur: u32, n: Seq<char>, rest: Seq<Seq<char>>)
    ensures
        walk(d, cur, Seq::<Seq<char>>::empty()) == Ok::<u32, Seq<char>>(cur),
        walk(d, cur, seq![n] + rest) == (match lookup_in(d, cur, n) {
            Some(x) => walk(d, x, rest),
            None => Err(n),
        }),
{
    let c = seq![n] + rest;
    assert(c[0] == n);
    assert(c.drop_first() =~= rest);
}

/// Walking `a` and then `b` is walking `a + b`: the walk of `b` starts at
/// the inode `a` reaches, and a failure within `a` is the failure.
pub proof fn law_walk_concat(d: DirsView, cur: u32, a: Seq<Seq<char>>, b: Seq<Seq<char>>)
    ensures
        walk(d, cur, a + b) == (match walk(d, cur, a) {
            Ok(x) => walk(d, x, b),
            Err(e) => Err(e),
        }),
    decreases a.len(),
{
    if a.len() == 0 {
        assert(a + b =~= b);
    } else {
        let n = a[0];
        let rest = a.drop_first();
        assert(a =~= seq![n] + rest);
        assert(a + b =~= seq![n] + (rest + b));
        law_walk_step(d, cur, n, rest);
        law_walk_step(d, cur, n, rest + b);
        if let Some(x) = lookup_in(d, cur, n) {
            law_walk_concat(d, x, rest, b);
        }
    }
}

/// Walking with `.`/`..` handling, for a path of any length: `.` keeps the
/// current directory, `..` follows its `..` entry (failing without one), any
/// other first component is looked up by name, and the rest is walked from
/// there; an empty path stays where it is.
pub proof fn law_walk_relative_step(d: DirsView, cur: u32, n: Seq<char>, rest: Seq<Seq<char>>)
    ensures
        walk_relative(d, cur, Seq::<Seq<char>>::empty()) == Ok::<u32, Option<Seq<char>>>(cur),
        walk_relative(d, cur, seq![n] + rest) == (if n == dot() {
            walk_relative(d, cur, rest)
        } else if n == dotdot() {
            match lookup_in(d, cur, dotdot()) {
                Some(x) => walk_relative(d, x, rest),
                None => Err(None),
            }
        } else {
            match lookup_in(d, cur, n) {
                Some(x) => walk_relative(d, x, rest),
                None => Err(Some(n)),
            }
        }),
{
    let c = seq![n] + rest;
    assert(c[0] == n);
    assert(c.drop_first() =~= rest);
}

/// Walking `a` and then `b` with `.`/`..` handling is walking `a + b`.
pub proof fn law_walk_relative_concat(
    d: DirsView,
    cur: u32,
    a: Seq<Seq<char>>,
    b: Seq<Seq<char>>,
)
    ensures
        walk_relative(d, cur, a + b) == (match walk_relative(d, cur, a) {
            Ok(x) => walk_relative(d, x, b),
            Err(e) => Err(e),
        }),
    decreases a.len(),
{
    if a.len() == 0 {
        assert(a + b =~= b);
    } else {
        let n = a[0];
        let rest = a.drop_first();
        assert(a =~= seq![n] + rest);
        assert(a + b =~= seq![n] + (rest + b));
        law_walk_relative_step(d, cur, n, rest);
        law_walk_relative_step(d, cur, n, rest + b);
        if n == dot() {
            law_walk_relative_concat(d, cur, rest, b);
        } else if n == dotdot() {
            if let Some(x) = lookup_in(d, cur, dotdot()) {
                law_walk_relative_concat(d, x, rest, b);
            }
        } else {
            if let Some(x) = lookup_in(d, cur, n) {
                law_walk_relative_concat(d, x, rest, b);
            }
        }
    }
}

proof fn lemma_word_chars(w: Seq<char>)
    requires
        is_word(w),
    ensures
        forall|k: int| 0 <= k < w.len() ==> #[trigger] w[k] != '/',
{
    assert forall|k: int| 0 <= k < w.len() implies #[trigger] w[k] != '/' by {
        if w[k] == '/' {
            assert(w.contains('/'));
        }
    }
}

/// Words joined with `/` neither start nor end with `/` and never hold two
/// `/` in a row.
proof fn lemma_joined_shape(ws: Seq<Seq<char>>)
    requires
        ws.len() > 0,
        forall|i: int| 0 <= i < ws.len() ==> is_word(#[trigger] ws[i]),
    ensures
        joined(ws).len() > 0,
        joined(ws)[0] != '/',
        joined(ws).last() != '/',
        forall|i: int|
            0 <= i < joined(ws).len() - 1 ==> !(#[trigger] joined(ws)[i] == '/' && joined(ws)[i
                + 1] == '/'),
    decreases ws.len(),
{
    if ws.len() == 1 {
        assert(is_word(ws[0]));
        lemma_word_chars(ws[0]);
    } else {
        let init = ws.drop_last();
        let w = ws.last();
        assert forall|i: int| 0 <= i < init.len() implies is_word(#[trigger] init[i]) by {
            assert(init[i] == ws[i]);
        }
        lemma_joined_shape(init);
        assert(is_word(ws[ws.len() - 1]));
        lemma_word_chars(w);
        let a = joined(init);
        let j = joined(ws);
        assert(j == a + seq!['/'] + w);
        assert(j[0] == a[0]);
        assert(j.last() == w[w.len() - 1]);
        assert forall|i: int| 0 <= i < j.len() - 1 implies !(#[trigger] j[i] == '/' && j[i + 1]
            == '/') by {
            if i < a.len() - 1 {
                assert(j[i] == a[i] && j[i + 1] == a[i + 1]);
            } else if i == a.len() - 1 {
                assert(j[i] == a.last());
            } else if i == a.len() {
                assert(j[i + 1] == w[0]);
            } else {
                assert(j[i] == w[i - a.len() - 1]);
            }
        }
    }
}

/// The dirname of a path is a canonical absolute path whose components are
/// all but the last component of the path; for a path with fewer than two
/// components it is `/`.
pub proof fn law_dirname_canonical(p: Seq<char>)
    ensures
        is_canonical_absolute(dirname_of(p)),
        components(dirname_of(p)) == (if components(p).len() > 0 {
            components(p).drop_last()
        } else {
            Seq::<Seq<char>>::empty()
        }),
        components(p).len() <= 1 ==> dirname_of(p) == seq!['/'],
{
    let c = components(p);
    law_components_are_words(p);
    if c.len() <= 1 {
        let slash = seq!['/'];
        assert(slash[0] == '/');
        assert(slash.drop_first() =~= Seq::<char>::empty());
        assert(components(slash.drop_first()).len() == 0);
        if c.len() == 1 {
            assert(c.drop_last() =~= Seq::<Seq<char>>::empty());
        }
    } else {
        let init = c.drop_last();
        assert forall|i: int| 0 <= i < init.len() implies is_word(#[trigger] init[i]) by {
            assert(init[i] == c[i]);
        }
        lemma_joined_shape(init);
        lemma_components_joined(init);
        lemma_components_leading_slash(joined(init));
        let j = joined(init);
        let s2 = seq!['/'] + j;
        assert(s2[1] == j[0]);
        assert(s2.last() == j.last());
        assert forall|i: int| 0 <= i < s2.len() - 1 implies !(#[trigger] s2[i] == '/' && s2[i + 1]
            == '/') by {
            if i > 0 {
                assert(s2[i] == j[i - 1] && s2[i + 1] == j[i]);
            }
        }
    }
}

proof fn lemma_joined_cons(x: Seq<char>, ws: Seq<Seq<char>>)
    requires
        ws.len() > 0,
    ensures
        joined(seq![x] + ws) == x + seq!['/'] + joined(ws),
    decreases ws.len(),
{
    let xs = seq![x] + ws;
    if ws.len() == 1 {
        assert(xs.drop_last() =~= seq![x]);
        assert(joined(seq![x]) == x);
    } else {
        let init = ws.drop_last();
        assert(xs.drop_last() =~= seq![x] + init);
        lemma_joined_cons(x, init);
        assert(joined(xs) =~= x + seq!['/'] + joined(ws));
    }
}

/// A non-empty run of text that neither starts nor ends with `/` and never
/// holds two `/` in a row is its components joined with `/`.
proof fn lemma_tidy_is_joined(t: Seq<char>)
    requires
        t.len() > 0,
        t[0] != '/',
        t.last() != '/',
        forall|i: int| 0 <= i < t.len() - 1 ==> !(#[trigger] t[i] == '/' && t[i + 1] == '/'),
    ensures
        components(t).len() > 0,
        t == joined(components(t)),
    decreases t.len(),
{
    lemma_word_len(t);
    let w = word_len(t) as int;
    if w == t.len() {
        assert(t.take(w) =~= t);
        assert(t.skip(w) =~= Seq::<char>::empty());
        assert(components(t.skip(w)).len() == 0);
        assert(components(t) =~= seq![t]);
    } else {
        let rest = t.skip(w + 1);
        assert(t[w] == '/');
        assert(w + 1 < t.len()) by {
            if w + 1 == t.len() {
                assert(t.last() == t[w]);
            }
        }
        assert(rest[0] == t[w + 1]);
        assert(rest.last() == t.last());
        assert forall|i: int| 0 <= i < rest.len() - 1 implies !(#[trigger] rest[i] == '/' && rest[i
            + 1] == '/') by {
            assert(rest[i] == t[w + 1 + i] && rest[i + 1] == t[w + 2 + i]);
        }
        lemma_tidy_is_joined(rest);
        lemma_components_slash(t, w);
        assert(components(t) == seq![t.take(w)] + components(t.skip(w)));
        lemma_joined_cons(t.take(w), components(rest));
        assert(t =~= t.take(w) + seq!['/'] + rest);
    }
}

/// A canonical absolute path is fixed by its components: two canonical
/// absolute paths with the same components are the same path.
pub proof fn law_canonical_unique(s1: Seq<char>, s2: Seq<char>)
    requires
        is_canonical_absolute(s1),
        is_canonical_absolute(s2),
        components(s1) == components(s2),
    ensures
        s1 == s2,
{
    lemma_canonical_form(s1);
    lemma_canonical_form(s2);
}

proof fn lemma_canonical_form(s: Seq<char>)
    requires
        is_canonical_absolute(s),
    ensures
        s == (if components(s).len() == 0 {
            seq!['/']
        } else {
            seq!['/'] + joined(components(s))
        }),
{
    let t = s.drop_first();
    assert(s =~= seq!['/'] + t);
    lemma_components_leading_slash(t);
    if t.len() == 0 {
        assert(t =~= Seq::<char>::empty());
        assert(components(t).len() == 0);
        assert(s =~= seq!['/']);
    } else {
        assert(t[0] == s[1]);
        assert(t.last() == s.last());
        assert forall|i: int| 0 <= i < t.len() - 1 implies !(#[trigger] t[i] == '/' && t[i + 1]
            == '/') by {
            assert(t[i] == s[i + 1] && t[i + 1] == s[i + 2]);
        }
        lemma_tidy_is_joined(t);
    }
}

/// The dirname of a path followed by its basename has the path's components.
pub proof fn law_dirname_then_basename(p: Seq<char>)
    requires
        components(p).len() > 0,
    ensures
        components(dirname_of(p)).push(basename_of(p)) == components(p),
{
    let c = components(p);
    law_components_are_words(p);
    if c.len() == 1 {
        assert(components(seq!['/']).len() == 0) by {
            let slash = seq!['/'];
            assert(slash[0] == '/');
            assert(slash.drop_first() =~= Seq::<char>::empty());
            assert(components(slash.drop_first()).len() == 0);
        }
        assert(components(dirname_of(p)).push(basename_of(p)) =~= c);
    } else {
        let init = c.drop_last();
        assert forall|i: int| 0 <= i < init.len() implies is_word(#[trigger] init[i]) by {
            assert(init[i] == c[i]);
        }
        lemma_components_joined(init);
        lemma_components_leading_slash(joined(init));
        assert(init.push(c.last()) =~= c);
    }
}

/// A name just added to a directory resolves, relative to that directory, to
/// the inode it was added for, whether walked by name or with `.`/`..` handling.
pub proof fn law_resolve_added_name(d: DirsView, p: u32, name: Seq<char>, c: u32)
    requires
        well_formed_dirs(d),
        valid_name(name),
        !name.contains('/'),
        find_name(listing_of(d, p), name) is None,
    ensures
        walk(with_entry(d, p, name, c), p, components(name)) == Ok::<u32, Seq<char>>(c),
        walk_relative(with_entry(d, p, name, c), p, components(name)) == Ok::<
            u32,
            Option<Seq<char>>,
        >(c),
{
    law_lookup_after_add(d, p, name, c);
    lemma_components_word_alone(name);
    let n = with_entry(d, p, name, c);
    let cs = components(name);
    assert(cs[0] == name);
    assert(cs.drop_first() =~= Seq::<Seq<char>>::empty());
    assert(walk(n, c, cs.drop_first()) == Ok::<u32, Seq<char>>(c));
    assert(walk_relative(n, c, cs.drop_first()) == Ok::<u32, Option<Seq<char>>>(c));
}

/// Without `.` or `..` components, walking a path with `.`/`..` handling
/// reaches the same inode, or fails at the same missing component, as
/// walking it name by name.
pub proof fn law_relative_agrees_without_dots(d: DirsView, cur: u32, comps: Seq<Seq<char>>)
    requires
        forall|i: int|
            0 <= i < comps.len() ==> #[trigger] comps[i] != dot() && comps[i] != dotdot(),
    ensures
        walk_relative(d, cur, comps) == (match walk(d, cur, comps) {
            Ok(ino) => Ok::<u32, Option<Seq<char>>>(ino),
            Err(name) => Err(Some(name)),
        }),
    decreases comps.len(),
{
    if comps.len() > 0 {
        assert(comps[0] != dot() && comps[0] != dotdot());
        let rest = comps.drop_first();
        assert forall|i: int| 0 <= i < rest.len() implies #[trigger] rest[i] != dot() && rest[i]
            != dotdot() by {
            assert(rest[i] == comps[i + 1]);
        }
        if let Some(next) = lookup_in(d, cur, comps[0]) {
            law_relative_agrees_without_dots(d, next, rest);
        }
    }
}

/// Resolve a path to an inode number.
#[derive(Debug)]
pub struct PathResolver<'a> {
    tree: &'a DirectoryTree,
}

} // verus!
