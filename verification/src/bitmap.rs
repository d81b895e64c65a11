//! Block allocation bitmap.

use vstd::prelude::*;

verus! {

/// Number of free (unallocated) entries of a bitmap.
pub open spec fn free_in(s: Seq<bool>) -> nat
    decreases s.len(),
{
    if s.len() == 0 {
        0
    } else {
        free_in(s.drop_last()) + if s.last() {
            0nat
        } else {
            1nat
        }
    }
}

/// Marking block `idx` allocated: succeeds when `idx` is in range and free.
/// Returns the new bitmap and whether it succeeded.
pub open spec fn claim(s: Seq<bool>, idx: int) -> (Seq<bool>, bool) {
    if 0 <= idx < s.len() && !s[idx] {
        (s.update(idx, true), true)
    } else {
        (s, false)
    }
}

/// Marking block `idx` free: succeeds when `idx` is in range and allocated.
/// Returns the new bitmap and whether it succeeded.
pub open spec fn release(s: Seq<bool>, idx: int) -> (Seq<bool>, bool) {
    if 0 <= idx < s.len() && s[idx] {
        (s.update(idx, false), true)
    } else {
        (s, false)
    }
}

/// `idx` is the lowest free block of `s`.
pub open spec fn is_first_free(s: Seq<bool>, idx: int) -> bool {
    &&& 0 <= idx < s.len()
    &&& !s[idx]
    &&& forall|j: int| 0 <= j < idx ==> #[trigger] s[j]
}

/// Every block of `s` is allocated.
pub open spec fn all_allocated(s: Seq<bool>) -> bool {
    forall|j: int| 0 <= j < s.len() ==> #[trigger] s[j]
}

/// A bitmap for tracking allocated/free data blocks.
#[derive(Debug, Clone)]
pub struct BlockBitmap {
    bits: Vec<bool>,
    total: usize,
}

impl View for BlockBitmap {
    type V = Seq<bool>;

    /// Entry `i` is `true` exactly when block `i` is allocated.
    closed spec fn view(&self) -> Seq<bool> {
        self.bits@
    }
}

impl BlockBitmap {
    /// The recorded total agrees with the number of tracked blocks.
    pub closed spec fn wf(&self) -> bool {
        self.bits.len() == self.total
    }

    /// Create a new bitmap with `total` blocks, all free.
    pub fn new(total: usize) -> (bm: Self)
        ensures
            bm.wf(),
            bm@ == Seq::new(total as nat, |i: int| false),
    {
        let mut bits: Vec<bool> = Vec::new();
        let mut i: usize = 0;
        while i < total
            invariant
                i <= total,
                bits@ == Seq::new(i as nat, |j: int| false),
            decreases total - i,
        {
            bits.push(false);
            i += 1;
        }
        Self { bits, total }
    }

    /// Allocate the first free block. Returns its index.
    pub fn allocate(&mut self) -> (r: Option<usize>)
        requires
            old(self).wf(),
        ensures
            final(self).wf(),
            match r {
                Some(i) => is_first_free(old(self)@, i as int) && final(self)@ == claim(
                    old(self)@,
                    i as int,
                ).0,
                None => all_allocated(old(self)@) && final(self)@ == old(self)@,
            },
    {
        let mut i: usize = 0;
        while i < self.bits.len()
            invariant
                self.wf(),
                self@ == old(self)@,
                i <= self.bits.len(),
                forall|j: int| 0 <= j < i ==> #[trigger] self.bits@[j],
            decreases self.bits.len() - i,
        {
            if !self.bits[i] {
                self.bits.set(i, true);
                return Some(i);
            }
            i += 1;
        }
        None
    }

    /// Allocate a specific block. Returns whether it was free and in range.
    pub fn allocate_specific(&mut self, idx: usize) -> (r: bool)
        requires
            old(self).wf(),
        ensures
            final(self).wf(),
            (final(self)@, r) == claim(old(self)@, idx as int),
    {
        if idx < self.total && !self.bits[idx] {
            self.bits.set(idx, true);
            true
        } else {
            false
        }
    }

    /// Free a block. Returns whether it was allocated and in range.
    pub fn free(&mut self, idx: usize) -> (r: bool)
        requires
            old(self).wf(),
        ensures
            final(self).wf(),
            (final(self)@, r) == release(old(self)@, idx as int),
    {
        if idx < self.total && self.bits[idx] {
            self.bits.set(idx, false);
            true
        } else {
            false
        }
    }

    /// Check if a block is allocated; out-of-range blocks are not.
    pub fn is_allocated(&self, idx: usize) -> (r: bool)
        ensures
            r == (idx < self@.len() && self@[idx as int]),
    {
        if idx < self.bits.len() {
            self.bits[idx]
        } else {
            false
        }
    }

    /// Number of free blocks.
    pub fn free_count(&self) -> (n: usize)
        ensures
            n == free_in(self@),
    {
        let mut n: usize = 0;
        let mut i: usize = 0;
        while i < self.bits.len()
            invariant
                i <= self.bits.len(),
                n == free_in(self.bits@.take(i as int)),
                n <= i,
            decreases self.bits.len() - i,
        {
            proof {
                assert(self.bits@.take(i + 1).drop_last() =~= self.bits@.take(i as int));
            }
            if !self.bits[i] {
                n += 1;
            }
            i += 1;
        }
        proof {
            assert(self.bits@.take(i as int) =~= self.bits@);
        }
        n
    }

    /// Number of used blocks.
    pub fn used_count(&self) -> (n: usize)
        requires
            self.wf(),
        ensures
            n == self@.len() - free_in(self@),
    {
        proof {
            lemma_free_in_bounded(self@);
        }
        self.total - self.free_count()
    }

    /// Total blocks.
    pub fn total(&self) -> (n: usize)
        requires
            self.wf(),
        ensures
            n == self@.len(),
    {
        self.total
    }
}

/// A bitmap never has more free blocks than blocks, so the used count
/// (total minus free) lies between zero and the total.
pub proof fn lemma_free_in_bounded(s: Seq<bool>)
    ensures
        free_in(s) <= s.len(),
    decreases s.len(),
{
    if s.len() > 0 {
        lemma_free_in_bounded(s.drop_last());
    }
}

/// Setting entry `i` to `v` changes the free count by exactly that entry's change.
pub proof fn lemma_free_in_update(s: Seq<bool>, i: int, v: bool)
    requires
        0 <= i < s.len(),
    ensures
        free_in(s.update(i, v)) + (if s[i] { 0int } else { 1int }) == free_in(s) + (if v {
            0int
        } else {
            1int
        }),
    decreases s.len(),
{
    let t = s.update(i, v);
    if i == s.len() - 1 {
        assert(t.drop_last() =~= s.drop_last());
    } else {
        assert(t.drop_last() =~= s.drop_last().update(i, v));
        lemma_free_in_update(s.drop_last(), i, v);
    }
}

/// A bitmap has no free block exactly when every block is allocated.
pub proof fn lemma_free_in_zero(s: Seq<bool>)
    ensures
        free_in(s) == 0 <==> all_allocated(s),
    decreases s.len(),
{
    if s.len() > 0 {
        lemma_free_in_zero(s.drop_last());
        if all_allocated(s) {
            assert(all_allocated(s.drop_last()));
        }
        if free_in(s) == 0 {
            assert forall|j: int| 0 <= j < s.len() implies #[trigger] s[j] by {
                if j < s.len() - 1 {
                    assert(s.drop_last()[j] == s[j]);
                }
            }
        }
    }
}

/// An allocation request succeeds exactly for an in-range free block; it
/// then marks that block allocated and touches no other block, and a refused
/// request leaves the bitmap as it was.
pub proof fn law_claim_outcome(s: Seq<bool>, idx: int)
    ensures
        claim(s, idx).1 <==> (0 <= idx < s.len() && !s[idx]),
        claim(s, idx).0.len() == s.len(),
        forall|j: int| 0 <= j < s.len() && j != idx ==> #[trigger] claim(s, idx).0[j] == s[j],
        0 <= idx < s.len() ==> claim(s, idx).0[idx],
        !claim(s, idx).1 ==> claim(s, idx).0 == s,
        free_in(claim(s, idx).0) + (if claim(s, idx).1 { 1int } else { 0int }) == free_in(s),
{
    if claim(s, idx).1 {
        lemma_free_in_update(s, idx, true);
    }
}

/// A free request succeeds exactly for an in-range allocated block; it then
/// marks that block free and touches no other block, and a refused request
/// leaves the bitmap as it was.
pub proof fn law_release_outcome(s: Seq<bool>, idx: int)
    ensures
        release(s, idx).1 <==> (0 <= idx < s.len() && s[idx]),
        release(s, idx).0.len() == s.len(),
        forall|j: int| 0 <= j < s.len() && j != idx ==> #[trigger] release(s, idx).0[j] == s[j],
        0 <= idx < s.len() ==> !release(s, idx).0[idx],
        !release(s, idx).1 ==> release(s, idx).0 == s,
        free_in(release(s, idx).0) == free_in(s) + (if release(s, idx).1 { 1int } else { 0int }),
{
    if release(s, idx).1 {
        lemma_free_in_update(s, idx, false);
    }
}

/// Allocating block `idx` takes exactly one block off the free count, and
/// freeing it again gives back the bitmap as it was.
pub proof fn law_claim_then_release(s: Seq<bool>, idx: int)
    requires
        claim(s, idx).1,
    ensures
        free_in(claim(s, idx).0) + 1 == free_in(s),
        release(claim(s, idx).0, idx) == (s, true),
{
    lemma_free_in_update(s, idx, true);
    assert(s.update(idx, true).update(idx, false) =~= s);
}

/// Freeing block `idx` adds exactly one block to the free count, and
/// allocating it again gives back the bitmap as it was.
pub proof fn law_release_then_claim(s: Seq<bool>, idx: int)
    requires
        release(s, idx).1,
    ensures
        free_in(release(s, idx).0) == free_in(s) + 1,
        claim(release(s, idx).0, idx) == (s, true),
{
    lemma_free_in_update(s, idx, false);
    assert(s.update(idx, false).update(idx, true) =~= s);
}

/// Allocation of the lowest free block fails exactly when the free count is
/// zero; otherwise the lowest free block exists and is unique.
pub proof fn law_allocate_fails_iff_full(s: Seq<bool>)
    ensures
        free_in(s) == 0 <==> all_allocated(s),
        !all_allocated(s) ==> exists|i: int| is_first_free(s, i),
        forall|i: int, k: int| is_first_free(s, i) && is_first_free(s, k) ==> i == k,
{
    lemma_free_in_zero(s);
    if !all_allocated(s) {
        let w = choose|j: int| 0 <= j < s.len() && !s[j];
        lemma_first_free_exists(s, w);
    }
    assert forall|i: int, k: int| is_first_free(s, i) && is_first_free(s, k) implies i == k by {
        if i < k {
            assert(s[i]);
        }
        if k < i {
            assert(s[k]);
        }
    }
}

proof fn lemma_first_free_exists(s: Seq<bool>, w: int)
    requires
        0 <= w < s.len(),
        !s[w],
    ensures
        exists|i: int| is_first_free(s, i),
    decreases w,
{
    if forall|j: int| 0 <= j < w ==> #[trigger] s[j] {
        assert(is_first_free(s, w));
    } else {
        let v = choose|j: int| 0 <= j < w && !s[j];
        lemma_first_free_exists(s, v);
    }
}

} // verus!
