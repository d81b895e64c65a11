//! Inode representation.

use vstd::prelude::*;

verus! {

/// File type for an inode.
#[derive(Debug, Clone, Copy, PartialEq, Eq, Structural)]
pub enum FileType {
    RegularFile,
    Directory,
    SymbolicLink,
}

/// A simulated inode.
#[derive(Debug, Clone)]
pub struct Inode {
    pub ino: u32,
    pub file_type: FileType,
    pub size: u64,
    pub blocks: Vec<u32>,
    pub link_count: u32,
    pub permissions: u16,
}

/// The block list `s` after adding block `b`: appended unless already present.
pub open spec fn with_block(s: Seq<u32>, b: u32) -> Seq<u32> {
    if s.contains(b) {
        s
    } else {
        s.push(b)
    }
}

/// The link count after one unlink: decremented, but never below zero.
pub open spec fn unlinked(c: u32) -> u32 {
    if c > 0 {
        (c - 1) as u32
    } else {
        0
    }
}

/// Everything of an inode but its block list is the same in `a` and `b`.
pub open spec fn same_metadata(a: Inode, b: Inode) -> bool {
    &&& a.ino == b.ino
    &&& a.file_type == b.file_type
    &&& a.size == b.size
    &&& a.link_count == b.link_count
    &&& a.permissions == b.permissions
}

impl Inode {
    /// Create a new regular file inode.
    pub fn new_file(ino: u32, first_block: u32, size: u64) -> (i: Self)
        ensures
            i.ino == ino,
            i.file_type == FileType::RegularFile,
            i.size == size,
            i.blocks@ == seq![first_block],
            i.link_count == 1,
            i.permissions == 0o644,
    {
        Self {
            ino,
            file_type: FileType::RegularFile,
            size,
            blocks: vec![first_block],
            link_count: 1,
            permissions: 0o644,
        }
    }

    /// Create a new directory inode; its two links are `.` and `..`.
    pub fn new_dir(ino: u32, first_block: u32) -> (i: Self)
        ensures
            i.ino == ino,
            i.file_type == FileType::Directory,
            i.size == 0,
            i.blocks@ == seq![first_block],
            i.link_count == 2,
            i.permissions == 0o755,
    {
        Self {
            ino,
            file_type: FileType::Directory,
            size: 0,
            blocks: vec![first_block],
            link_count: 2,
            permissions: 0o755,
        }
    }

    /// Create an empty inode.
    pub fn empty(ino: u32) -> (i: Self)
        ensures
            i.ino == ino,
            i.file_type == FileType::RegularFile,
            i.size == 0,
            i.blocks@ == Seq::<u32>::empty(),
            i.link_count == 0,
            i.permissions == 0o644,
    {
        Self {
            ino,
            file_type: FileType::RegularFile,
            size: 0,
            blocks: Vec::new(),
            link_count: 0,
            permissions: 0o644,
        }
    }

    /// Add a block to this inode; a block already listed is not added twice.
    pub fn add_block(&mut self, block: u32)
        ensures
            same_metadata(*final(self), *old(self)),
            final(self).blocks@ == with_block(old(self).blocks@, block),
    {
        let mut i: usize = 0;
        while i < self.blocks.len()
            invariant
                i <= self.blocks.len(),
                forall|j: int| 0 <= j < i ==> self.blocks@[j] != block,
            decreases self.blocks.len() - i,
        {
            if self.blocks[i] == block {
                proof {
                    assert(self.blocks@.contains(block));
                }
                return;
            }
            i += 1;
        }
        self.blocks.push(block);
    }

    /// Number of blocks.
    pub fn block_count(&self) -> (n: usize)
        ensures
            n == self.blocks@.len(),
    {
        self.blocks.len()
    }

    /// Check if this is a directory.
    pub fn is_dir(&self) -> (r: bool)
        ensures
            r == (self.file_type == FileType::Directory),
    {
        match self.file_type {
            FileType::Directory => true,
            _ => false,
        }
    }

    /// Check if this is a regular file.
    pub fn is_file(&self) -> (r: bool)
        ensures
            r == (self.file_type == FileType::RegularFile),
    {
        match self.file_type {
            FileType::RegularFile => true,
            _ => false,
        }
    }

    /// Increment link count.
    pub fn link(&mut self)
        requires
            old(self).link_count < u32::MAX,
        ensures
            final(self).link_count == old(self).link_count + 1,
            final(self).ino == old(self).ino,
            final(self).file_type == old(self).file_type,
            final(self).size == old(self).size,
            final(self).blocks@ == old(self).blocks@,
            final(self).permissions == old(self).permissions,
    {
        self.link_count += 1;
    }

    /// Decrement link count (never below zero). Returns true if it is zero.
    pub fn unlink(&mut self) -> (r: bool)
        ensures
            final(self).link_count == unlinked(old(self).link_count),
            r == (final(self).link_count == 0),
            final(self).ino == old(self).ino,
            final(self).file_type == old(self).file_type,
            final(self).size == old(self).size,
            final(self).blocks@ == old(self).blocks@,
            final(self).permissions == old(self).permissions,
    {
        if self.link_count > 0 {
            self.link_count -= 1;
        }
        self.link_count == 0
    }
}

/// Adding a block keeps a block list free of duplicates, puts the block in
/// it, adds nothing else, and adding the same block again changes nothing.
pub proof fn law_add_block(s: Seq<u32>, b: u32)
    ensures
        s.no_duplicates() ==> with_block(s, b).no_duplicates(),
        with_block(s, b).contains(b),
        with_block(s, b).to_set() == s.to_set().insert(b),
        with_block(with_block(s, b), b) == with_block(s, b),
        with_block(s, b).len() == s.len() + (if s.contains(b) { 0int } else { 1int }),
{
    let t = with_block(s, b);
    if !s.contains(b) {
        assert(t[s.len() as int] == b);
        assert(t.contains(b));
        if s.no_duplicates() {
            assert forall|i: int, j: int| 0 <= i < t.len() && 0 <= j < t.len() && i != j implies t[i]
                != t[j] by {
                if i == s.len() {
                    assert(s.contains(t[j]));
                } else if j == s.len() {
                    assert(s.contains(t[i]));
                }
            }
        }
    }
    assert(t.to_set() =~= s.to_set().insert(b)) by {
        assert forall|x: u32| t.to_set().contains(x) implies s.to_set().insert(b).contains(x) by {
            let k = choose|k: int| 0 <= k < t.len() && t[k] == x;
            if k < s.len() {
                assert(s[k] == x);
            }
        }
        assert forall|x: u32| s.to_set().insert(b).contains(x) implies t.to_set().contains(x) by {
            if x != b {
                let k = choose|k: int| 0 <= k < s.len() && s[k] == x;
                assert(t[k] == x);
            }
        }
    }
}

/// Unlinking right after linking gives back the link count from before, and
/// reports zero links only if there were none before.
pub proof fn law_link_then_unlink(c: u32)
    requires
        c < u32::MAX,
    ensures
        unlinked((c + 1) as u32) == c,
        (unlinked((c + 1) as u32) == 0) == (c == 0),
{
}

} // verus!
