//! Directory tree simulation.

use std::collections::HashMap;
use vstd::prelude::*;

verus! {

broadcast use vstd::std_specs::hash::group_hash_axioms;

/// One entry of a directory listing, as a name and an inode number.
pub type EntryView = (Seq<char>, u32);

/// A directory tree, as the listing of each directory inode.
pub type DirsView = Map<u32, Seq<EntryView>>;

/// The name `.`.
pub open spec fn dot() -> Seq<char> {
    seq!['.']
}

/// The name `..`.
pub open spec fn dotdot() -> Seq<char> {
    seq!['.', '.']
}

/// A name that `add_entry` accepts: non-empty, and neither `.` nor `..`.
pub open spec fn valid_name(name: Seq<char>) -> bool {
    name.len() > 0 && name != dot() && name != dotdot()
}

/// Position of the first entry of `l` called `name`.
pub open spec fn find_name(l: Seq<EntryView>, name: Seq<char>) -> Option<int>
    decreases l.len(),
{
    if l.len() == 0 {
        None
    } else if l[0].0 == name {
        Some(0)
    } else {
        match find_name(l.drop_first(), name) {
            Some(i) => Some(i + 1),
            None => None,
        }
    }
}

/// No two entries of `l` have the same name.
pub open spec fn unique_names(l: Seq<EntryView>) -> bool {
    forall|i: int, j: int| 0 <= i < l.len() && 0 <= j < l.len() && i != j ==> l[i].0 != l[j].0
}

/// Every directory of the tree lists each name at most once.
pub open spec fn well_formed_dirs(d: DirsView) -> bool {
    forall|p: u32| #[trigger] d.contains_key(p) ==> unique_names(d[p])
}

/// The listing of directory `p`; empty when `p` has none.
pub open spec fn listing_of(d: DirsView, p: u32) -> Seq<EntryView> {
    if d.contains_key(p) {
        d[p]
    } else {
        Seq::empty()
    }
}

/// The inode that `name` stands for in directory `p`.
pub open spec fn lookup_in(d: DirsView, p: u32, name: Seq<char>) -> Option<u32> {
    match find_name(listing_of(d, p), name) {
        Some(i) => Some(listing_of(d, p)[i].1),
        None => None,
    }
}

/// `name` is `.` or `..`.
pub open spec fn is_dot_name(name: Seq<char>) -> bool {
    name == dot() || name == dotdot()
}

/// A listing holding nothing but `.` and `..` entries: an empty directory.
pub open spec fn only_dot_entries(l: Seq<EntryView>) -> bool {
    forall|j: int| 0 <= j < l.len() ==> is_dot_name(#[trigger] l[j].0)
}

/// The listing a new directory `ino` starts with, inside `parent`.
pub open spec fn fresh_dir(ino: u32, parent: u32) -> Seq<EntryView> {
    seq![(dot(), ino), (dotdot(), parent)]
}

/// The tree after adding `name` for `child` to directory `p`: the entry is
/// appended to `p`, and `child` gets a fresh listing unless it has one.
pub open spec fn with_entry(d: DirsView, p: u32, name: Seq<char>, child: u32) -> DirsView {
    let d1 = d.insert(p, listing_of(d, p).push((name, child)));
    if d1.contains_key(child) {
        d1
    } else {
        d1.insert(child, fresh_dir(child, p))
    }
}

/// The tree after removing the first entry called `name` from directory `p`.
pub open spec fn without_entry(d: DirsView, p: u32, name: Seq<char>) -> DirsView {
    d.insert(p, d[p].remove(find_name(d[p], name).unwrap()))
}

/// The views of a vector of entries.
pub open spec fn entries_view(v: Seq<DirEntry>) -> Seq<EntryView> {
    v.map_values(|e: DirEntry| e@)
}

/// A directory entry.
#[derive(Debug, Clone, PartialEq, Eq)]
pub struct DirEntry {
    pub name: String,
    pub ino: u32,
}

impl View for DirEntry {
    type V = EntryView;

    open spec fn view(&self) -> EntryView {
        (self.name@, self.ino)
    }
}

/// A simulated directory tree.
///
/// Maps parent inode → children entries.
#[derive(Debug)]
pub struct DirectoryTree {
    entries: HashMap<u32, Vec<DirEntry>>,
}

impl View for DirectoryTree {
    type V = DirsView;

    closed spec fn view(&self) -> DirsView {
        self.entries@.map_values(|v: Vec<DirEntry>| entries_view(v@))
    }
}

/// Whether `name` is exactly `.`.
pub(crate) fn is_dot(name: &str) -> (r: bool)
    ensures
        r == (name@ == dot()),
{
    if name.unicode_len() == 1 && name.get_char(0) == '.' {
        proof {
            assert(name@ =~= dot());
        }
        true
    } else {
        false
    }
}

/// Whether `name` is exactly `..`.
pub(crate) fn is_dotdot(name: &str) -> (r: bool)
    ensures
        r == (name@ == dotdot()),
{
    if name.unicode_len() == 2 && name.get_char(0) == '.' && name.get_char(1) == '.' {
        proof {
            assert(name@ =~= dotdot());
        }
        true
    } else {
        false
    }
}

/// Position of the first entry of `list` called `name`.
fn position_of(list: &Vec<DirEntry>, name: &String) -> (r: Option<usize>)
    ensures
        match r {
            Some(i) => i < list.len() && find_name(entries_view(list@), name@) == Some(i as int),
            None => find_name(entries_view(list@), name@) is None,
        },
{
    let ghost l = entries_view(list@);
    proof {
        lemma_find_name(l, name@);
    }
    let mut i: usize = 0;
    while i < list.len()
        invariant
            i <= list.len(),
            l == entries_view(list@),
            l.len() == list.len(),
            forall|j: int| 0 <= j < i ==> (#[trigger] l[j]).0 != name@,
        decreases list.len() - i,
    {
        if list[i].name == *name {
            proof {
                assert(l[i as int].0 == name@);
                lemma_find_name(l, name@);
                match find_name(l, name@) {
                    Some(k) => {
                        if k < i {
                            assert(l[k].0 != name@);
                        }
                        if k > i {
                            assert(l[i as int].0 != name@);
                        }
                    },
                    None => {
                        assert(l[i as int].0 != name@);
                    },
                }
            }
            return Some(i);
        }
        proof {
            assert(l[i as int].0 != name@);
        }
        i += 1;
    }
    None
}

/// The listing of a new directory `ino` inside `parent`.
fn new_listing(ino: u32, parent: u32) -> (v: Vec<DirEntry>)
    ensures
        entries_view(v@) == fresh_dir(ino, parent),
{
    proof {
        reveal_strlit(".");
        reveal_strlit("..");
        assert("."@ =~= dot());
        assert(".."@ =~= dotdot());
    }
    let mut v: Vec<DirEntry> = Vec::new();
    v.push(DirEntry { name: ".".to_owned(), ino });
    v.push(DirEntry { name: "..".to_owned(), ino: parent });
    proof {
        assert(entries_view(v@) =~= fresh_dir(ino, parent));
    }
    v
}

impl DirectoryTree {
    /// Every listing names each entry at most once.
    pub open spec fn wf(&self) -> bool {
        well_formed_dirs(self@)
    }

    /// A tree holding only the root directory (inode 0) with `.` and `..`.
    pub fn new() -> (t: Self)
        ensures
            t.wf(),
            t@ == map![0u32 => fresh_dir(0, 0)],
    {
        let mut entries: HashMap<u32, Vec<DirEntry>> = HashMap::new();
        let root = new_listing(0, 0);
        entries.insert(0, root);
        let t = Self { entries };
        proof {
            assert(t@ =~= map![0u32 => fresh_dir(0, 0)]);
            assert(dot() != dotdot()) by {
                assert(dot().len() != dotdot().len());
            }
        }
        t
    }

    /// Add an entry to a parent directory.
    pub fn add_entry(&mut self, parent_ino: u32, name: &str, child_ino: u32) -> (r: Result<
        (),
        String,
    >)
        requires
            old(self).wf(),
        ensures
            final(self).wf(),
            match r {
                Ok(()) => {
                    &&& valid_name(name@)
                    &&& find_name(listing_of(old(self)@, parent_ino), name@) is None
                    &&& final(self)@ == with_entry(old(self)@, parent_ino, name@, child_ino)
                },
                Err(e) => {
                    &&& final(self)@ == old(self)@
                    &&& if !valid_name(name@) {
                        e@ == "Invalid name: '"@ + name@ + "'"@
                    } else {
                        &&& find_name(listing_of(old(self)@, parent_ino), name@) is Some
                        &&& e@ == "Entry '"@ + name@ + "' already exists"@
                    }
                },
            },
    {
        if name.is_empty() || is_dot(name) || is_dotdot(name) {
            let mut msg = String::from_str("Invalid name: '");
            msg.append(name);
            msg.append("'");
            return Err(msg);
        }
        let key = name.to_owned();
        let existing = match self.entries.get(&parent_ino) {
            Some(children) => position_of(children, &key),
            None => None,
        };
        proof {
            if !self@.contains_key(parent_ino) {
                assert(listing_of(self@, parent_ino) =~= Seq::<EntryView>::empty());
            }
        }
        if existing.is_some() {
            let mut msg = String::from_str("Entry '");
            msg.append(name);
            msg.append("' already exists");
            return Err(msg);
        }
        let ghost d0 = self@;
        let mut children: Vec<DirEntry> = match self.entries.remove(&parent_ino) {
            Some(v) => v,
            None => Vec::new(),
        };
        proof {
            assert(entries_view(children@) =~= listing_of(d0, parent_ino));
        }
        children.push(DirEntry { name: key, ino: child_ino });
        proof {
            assert(entries_view(children@) =~= listing_of(d0, parent_ino).push((name@, child_ino)));
        }
        self.entries.insert(parent_ino, children);
        let ghost d1 = d0.insert(parent_ino, listing_of(d0, parent_ino).push((name@, child_ino)));
        proof {
            assert(self@ =~= d1);
        }
        if !self.entries.contains_key(&child_ino) {
            let fresh = new_listing(child_ino, parent_ino);
            self.entries.insert(child_ino, fresh);
            proof {
                assert(self@ =~= d1.insert(child_ino, fresh_dir(child_ino, parent_ino)));
            }
        }
        proof {
            assert(self@ == with_entry(d0, parent_ino, name@, child_ino));
            law_add_keeps_well_formed(d0, parent_ino, name@, child_ino);
        }
        Ok(())
    }

    /// Remove an entry from a directory; returns the inode it named.
    pub fn remove_entry(&mut self, parent_ino: u32, name: &str) -> (r: Result<u32, String>)
        requires
            old(self).wf(),
        ensures
            final(self).wf(),
            match r {
                Ok(ino) => {
                    &&& lookup_in(old(self)@, parent_ino, name@) == Some(ino)
                    &&& final(self)@ == without_entry(old(self)@, parent_ino, name@)
                },
                Err(e) => {
                    &&& final(self)@ == old(self)@
                    &&& lookup_in(old(self)@, parent_ino, name@) is None
                    &&& if old(self)@.contains_key(parent_ino) {
                        e@ == "Entry not found"@
                    } else {
                        e@ == "Parent not found"@
                    }
                },
            },
    {
        let key = name.to_owned();
        let ghost d0 = self@;
        let pos = match self.entries.get(&parent_ino) {
            Some(children) => {
                proof {
                    assert(d0.contains_key(parent_ino));
                    assert(d0[parent_ino] == entries_view(children@));
                }
                position_of(children, &key)
            },
            None => {
                proof {
                    assert(!d0.contains_key(parent_ino));
                }
                return Err("Parent not found".to_owned());
            },
        };
        match pos {
            None => Err("Entry not found".to_owned()),
            Some(i) => {
                let mut children = self.entries.remove(&parent_ino).unwrap();
                let removed = children.remove(i);
                proof {
                    lemma_find_name(d0[parent_ino], name@);
                    assert(entries_view(children@) =~= d0[parent_ino].remove(i as int));
                }
                self.entries.insert(parent_ino, children);
                proof {
                    assert(self@ =~= without_entry(d0, parent_ino, name@));
                    lemma_remove_keeps_unique(d0[parent_ino], i as int);
                    assert forall|q: u32| #[trigger] self@.contains_key(q) implies unique_names(
                        self@[q],
                    ) by {
                        if q != parent_ino {
                            assert(d0.contains_key(q));
                        }
                    }
                }
                Ok(removed.ino)
            },
        }
    }

    /// Look up an entry by name in a directory.
    pub fn lookup(&self, parent_ino: u32, name: &str) -> (r: Option<u32>)
        ensures
            r == lookup_in(self@, parent_ino, name@),
    {
        let key = name.to_owned();
        match self.entries.get(&parent_ino) {
            Some(children) => {
                proof {
                    assert(listing_of(self@, parent_ino) == entries_view(children@));
                }
                match position_of(children, &key) {
                    Some(i) => Some(children[i].ino),
                    None => None,
                }
            },
            None => {
                proof {
                    assert(!self@.contains_key(parent_ino));
                }
                None
            },
        }
    }

    /// List entries in a directory (none for an unknown directory).
    pub fn list(&self, parent_ino: u32) -> (r: Vec<&DirEntry>)
        ensures
            r@.len() == listing_of(self@, parent_ino).len(),
            forall|i: int| 0 <= i < r@.len() ==> (#[trigger] r@[i])@ == listing_of(self@, parent_ino)[i],
    {
        let mut out: Vec<&DirEntry> = Vec::new();
        match self.entries.get(&parent_ino) {
            Some(children) => {
                let mut i: usize = 0;
                while i < children.len()
                    invariant
                        i <= children.len(),
                        entries_view(children@) == listing_of(self@, parent_ino),
                        out@.len() == i,
                        forall|j: int| 0 <= j < i ==> (#[trigger] out@[j])@ == children@[j]@,
                    decreases children.len() - i,
                {
                    out.push(&children[i]);
                    i += 1;
                }
            },
            None => {},
        }
        out
    }

    /// Check if a directory is empty (only `.` and `..`); unknown ones are.
    pub fn is_empty_dir(&self, ino: u32) -> (r: bool)
        ensures
            r == only_dot_entries(listing_of(self@, ino)),
    {
        match self.entries.get(&ino) {
            Some(children) => {
                let ghost l = entries_view(children@);
                proof {
                    assert(listing_of(self@, ino) == l);
                }
                let mut i: usize = 0;
                while i < children.len()
                    invariant
                        i <= children.len(),
                        l == entries_view(children@),
                        l == listing_of(self@, ino),
                        l.len() == children.len(),
                        forall|j: int| 0 <= j < i ==> is_dot_name(#[trigger] l[j].0),
                    decreases children.len() - i,
                {
                    let name = children[i].name.as_str();
                    if !is_dot(name) && !is_dotdot(name) {
                        proof {
                            assert(!is_dot_name(l[i as int].0));
                        }
                        return false;
                    }
                    proof {
                        assert(is_dot_name(l[i as int].0));
                    }
                    i += 1;
                }
                true
            },
            None => {
                proof {
                    assert(listing_of(self@, ino) =~= Seq::<EntryView>::empty());
                }
                true
            },
        }
    }
}

impl Default for DirectoryTree {
    fn default() -> (t: Self)
        ensures
            t.wf(),
            t@ == map![0u32 => fresh_dir(0, 0)],
    {
        Self::new()
    }
}

/// `find_name` gives the first position holding the name, or none if no
/// entry has it.
pub proof fn lemma_find_name(l: Seq<EntryView>, name: Seq<char>)
    ensures
        match find_name(l, name) {
            Some(i) => {
                &&& 0 <= i < l.len()
                &&& l[i].0 == name
                &&& forall|j: int| 0 <= j < i ==> (#[trigger] l[j]).0 != name
            },
            None => forall|j: int| 0 <= j < l.len() ==> (#[trigger] l[j]).0 != name,
        },
    decreases l.len(),
{
    if l.len() > 0 {
        lemma_find_name(l.drop_first(), name);
        assert forall|j: int| 1 <= j < l.len() implies l[j] == l.drop_first()[j - 1] by {}
    }
}

proof fn lemma_find_name_push(l: Seq<EntryView>, e: EntryView, name: Seq<char>)
    ensures
        find_name(l.push(e), name) == (match find_name(l, name) {
            Some(i) => Some(i),
            None => if e.0 == name {
                Some(l.len() as int)
            } else {
                None
            },
        }),
{
    lemma_find_name(l, name);
    lemma_find_name(l.push(e), name);
    let t = l.push(e);
    assert forall|j: int| 0 <= j < l.len() implies t[j] == l[j] by {}
    match find_name(t, name) {
        Some(i) => {
            if i < l.len() {
                assert(l[i].0 == name);
            }
        },
        None => {
            assert(t[l.len() as int] == e);
        },
    }
}

proof fn lemma_remove_keeps_unique(l: Seq<EntryView>, i: int)
    requires
        unique_names(l),
        0 <= i < l.len(),
    ensures
        unique_names(l.remove(i)),
{
    let t = l.remove(i);
    assert forall|a: int, b: int| 0 <= a < t.len() && 0 <= b < t.len() && a != b implies t[a].0
        != t[b].0 by {
        let a1 = if a < i {
            a
        } else {
            a + 1
        };
        let b1 = if b < i {
            b
        } else {
            b + 1
        };
        assert(t[a] == l[a1]);
        assert(t[b] == l[b1]);
    }
}

/// With unique names, the entry `find_name` picks is the only one with that name.
proof fn lemma_unique_find(l: Seq<EntryView>, name: Seq<char>)
    requires
        unique_names(l),
        find_name(l, name) is Some,
    ensures
        find_name(l.remove(find_name(l, name).unwrap()), name) is None,
{
    lemma_find_name(l, name);
    let i = find_name(l, name).unwrap();
    let t = l.remove(i);
    lemma_find_name(t, name);
    assert forall|j: int| 0 <= j < t.len() implies (#[trigger] t[j]).0 != name by {
        let j1 = if j < i {
            j
        } else {
            j + 1
        };
        assert(t[j] == l[j1]);
    }
}

/// Adding a valid, not yet present name keeps every listing free of
/// duplicate names.
pub proof fn law_add_keeps_well_formed(d: DirsView, p: u32, name: Seq<char>, c: u32)
    requires
        well_formed_dirs(d),
        valid_name(name),
        find_name(listing_of(d, p), name) is None,
    ensures
        well_formed_dirs(with_entry(d, p, name, c)),
{
    let l = listing_of(d, p);
    let t = l.push((name, c));
    lemma_find_name(l, name);
    assert(unique_names(t)) by {
        assert forall|a: int, b: int| 0 <= a < t.len() && 0 <= b < t.len() && a != b implies t[a].0
            != t[b].0 by {
            if a == l.len() {
                assert(l[b].0 != name);
            } else if b == l.len() {
                assert(l[a].0 != name);
            } else {
                assert(t[a] == l[a] && t[b] == l[b]);
            }
        }
    }
    let n = with_entry(d, p, name, c);
    assert forall|q: u32| #[trigger] n.contains_key(q) implies unique_names(n[q]) by {
        if q == p {
        } else if q == c && !d.contains_key(c) {
            assert(dot() != dotdot()) by {
                assert(dot().len() != dotdot().len());
            }
        } else {
            assert(d.contains_key(q));
        }
    }
}

/// What `add_entry` adds, `lookup` finds: the new name stands for the child
/// in the parent, a second add of the name is refused, every other name and
/// directory reads as before, and a newly created child directory holds just
/// `.` (itself) and `..` (the parent), so it is empty, while the parent is not.
pub proof fn law_lookup_after_add(d: DirsView, p: u32, name: Seq<char>, c: u32)
    requires
        well_formed_dirs(d),
        valid_name(name),
        find_name(listing_of(d, p), name) is None,
    ensures
        lookup_in(with_entry(d, p, name, c), p, name) == Some(c),
        find_name(listing_of(with_entry(d, p, name, c), p), name) is Some,
        forall|n2: Seq<char>|
            n2 != name ==> #[trigger] lookup_in(with_entry(d, p, name, c), p, n2) == lookup_in(
                d,
                p,
                n2,
            ),
        forall|q: u32, n2: Seq<char>|
            q != p && q != c ==> #[trigger] lookup_in(with_entry(d, p, name, c), q, n2)
                == lookup_in(d, q, n2),
        c != p && d.contains_key(c) ==> listing_of(with_entry(d, p, name, c), c) == listing_of(
            d,
            c,
        ),
        c != p && !d.contains_key(c) ==> {
            &&& lookup_in(with_entry(d, p, name, c), c, dot()) == Some(c)
            &&& lookup_in(with_entry(d, p, name, c), c, dotdot()) == Some(p)
            &&& listing_of(with_entry(d, p, name, c), c).len() == 2
            &&& only_dot_entries(listing_of(with_entry(d, p, name, c), c))
        },
        !only_dot_entries(listing_of(with_entry(d, p, name, c), p)),
{
    let l = listing_of(d, p);
    let n = with_entry(d, p, name, c);
    assert(listing_of(n, p) == l.push((name, c)));
    lemma_find_name_push(l, (name, c), name);
    assert forall|n2: Seq<char>| n2 != name implies #[trigger] lookup_in(n, p, n2) == lookup_in(
        d,
        p,
        n2,
    ) by {
        lemma_find_name_push(l, (name, c), n2);
        lemma_find_name(l, n2);
        if let Some(i) = find_name(l, n2) {
            assert(l.push((name, c))[i] == l[i]);
        }
    }
    assert forall|q: u32, n2: Seq<char>| q != p && q != c implies #[trigger] lookup_in(n, q, n2)
        == lookup_in(d, q, n2) by {
        assert(listing_of(n, q) == listing_of(d, q));
    }
    if c != p && !d.contains_key(c) {
        let f = fresh_dir(c, p);
        assert(listing_of(n, c) == f);
        assert(f.drop_first() =~= seq![(dotdot(), p)]);
        assert(dot() != dotdot()) by {
            assert(dot().len() != dotdot().len());
        }
        assert(find_name(f.drop_first(), dotdot()) == Some(0int));
        assert(find_name(f, dotdot()) == Some(1int));
        assert(is_dot_name(f[0].0) && is_dot_name(f[1].0));
    }
    assert(listing_of(n, p)[l.len() as int].0 == name);
}

/// Once `remove_entry` has taken a name out of a directory, `lookup` no
/// longer finds it there; every other directory reads as before.
pub proof fn law_lookup_after_remove(d: DirsView, p: u32, name: Seq<char>)
    requires
        well_formed_dirs(d),
        lookup_in(d, p, name) is Some,
    ensures
        lookup_in(without_entry(d, p, name), p, name) is None,
        well_formed_dirs(without_entry(d, p, name)),
        forall|q: u32, n2: Seq<char>|
            q != p ==> #[trigger] lookup_in(without_entry(d, p, name), q, n2) == lookup_in(
                d,
                q,
                n2,
            ),
{
    assert(d.contains_key(p));
    let w = without_entry(d, p, name);
    lemma_unique_find(d[p], name);
    lemma_find_name(d[p], name);
    lemma_remove_keeps_unique(d[p], find_name(d[p], name).unwrap());
    assert(listing_of(w, p) == d[p].remove(find_name(d[p], name).unwrap()));
    assert forall|q: u32| #[trigger] w.contains_key(q) implies unique_names(w[q]) by {
        if q != p {
            assert(d.contains_key(q));
        }
    }
    assert forall|q: u32, n2: Seq<char>| q != p implies #[trigger] lookup_in(w, q, n2) == lookup_in(
        d,
        q,
        n2,
    ) by {
        assert(listing_of(w, q) == listing_of(d, q));
    }
}

/// Removing a name right after adding it gives back the inode it was added
/// for, and the parent's listing as it was before the add.
pub proof fn law_remove_after_add(d: DirsView, p: u32, name: Seq<char>, c: u32)
    requires
        well_formed_dirs(d),
        valid_name(name),
        find_name(listing_of(d, p), name) is None,
    ensures
        lookup_in(with_entry(d, p, name, c), p, name) == Some(c),
        listing_of(without_entry(with_entry(d, p, name, c), p, name), p) == listing_of(d, p),
{
    law_lookup_after_add(d, p, name, c);
    let l = listing_of(d, p);
    let n = with_entry(d, p, name, c);
    lemma_find_name_push(l, (name, c), name);
    assert(n[p] == l.push((name, c)));
    assert(l.push((name, c)).remove(l.len() as int) =~= l);
}

} // verus!
