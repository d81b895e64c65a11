//! Data block management.

use vstd::prelude::*;

verus! {

/// Block size in bytes.
pub const BLOCK_SIZE: u64 = 4096;

/// The smaller of two integers.
pub open spec fn min_int(a: int, b: int) -> int {
    if a <= b {
        a
    } else {
        b
    }
}

/// The contents of a freshly zeroed block.
pub open spec fn zero_block() -> Seq<u8> {
    Seq::new(BLOCK_SIZE as nat, |i: int| 0u8)
}

/// `d` truncated to a block and padded with zero bytes up to the block size.
pub open spec fn padded(d: Seq<u8>) -> Seq<u8> {
    Seq::new(
        BLOCK_SIZE as nat,
        |i: int|
            if i < d.len() {
                d[i]
            } else {
                0u8
            },
    )
}

/// How many bytes of a `n`-byte write at `offset` fit in the block.
pub open spec fn write_len(offset: int, n: int) -> int {
    min_int(n, BLOCK_SIZE - offset)
}

/// The block contents `s` after writing `d` at `offset`: the bytes that fit
/// are replaced, every other byte stays.
pub open spec fn written(s: Seq<u8>, offset: int, d: Seq<u8>) -> Seq<u8> {
    Seq::new(
        s.len(),
        |i: int|
            if offset <= i < offset + write_len(offset, d.len() as int) {
                d[i - offset]
            } else {
                s[i]
            },
    )
}

/// The bytes a read of `len` bytes at `offset` returns: the range clipped to
/// the block, empty when it starts at or past the end.
pub open spec fn read_range(s: Seq<u8>, offset: int, len: int) -> Seq<u8> {
    let end = min_int(offset + len, BLOCK_SIZE as int);
    if offset < end {
        s.subrange(offset, end)
    } else {
        Seq::empty()
    }
}

/// Number of non-zero bytes of `s`.
pub open spec fn nonzero_in(s: Seq<u8>) -> nat
    decreases s.len(),
{
    if s.len() == 0 {
        0
    } else {
        nonzero_in(s.drop_last()) + if s.last() != 0 {
            1nat
        } else {
            0nat
        }
    }
}

/// A simulated data block.
#[derive(Debug, Clone)]
pub struct Block {
    pub index: usize,
    pub data: Vec<u8>,
}

impl Block {
    /// The data holds exactly one block's worth of bytes.
    pub open spec fn wf(&self) -> bool {
        self.data.len() == BLOCK_SIZE
    }

    /// Create a new zeroed block.
    pub fn new(index: usize) -> (b: Self)
        ensures
            b.wf(),
            b.index == index,
            b.data@ == zero_block(),
    {
        let size = BLOCK_SIZE as usize;
        let mut data: Vec<u8> = Vec::new();
        let mut i: usize = 0;
        while i < size
            invariant
                size == BLOCK_SIZE,
                i <= size,
                data@ == Seq::new(i as nat, |j: int| 0u8),
            decreases size - i,
        {
            data.push(0u8);
            i += 1;
        }
        Self { index, data }
    }

    /// Create a block with specific data (padded/truncated to BLOCK_SIZE).
    pub fn with_data(index: usize, data: &[u8]) -> (b: Self)
        ensures
            b.wf(),
            b.index == index,
            b.data@ == padded(data@),
    {
        let size = BLOCK_SIZE as usize;
        let mut block_data: Vec<u8> = Vec::new();
        let mut i: usize = 0;
        while i < size
            invariant
                size == BLOCK_SIZE,
                i <= size,
                block_data@ == padded(data@).take(i as int),
            decreases size - i,
        {
            let byte: u8 = if i < data.len() {
                data[i]
            } else {
                0u8
            };
            block_data.push(byte);
            proof {
                assert(block_data@ =~= padded(data@).take(i + 1));
            }
            i += 1;
        }
        proof {
            assert(block_data@ =~= padded(data@));
        }
        Self { index, data: block_data }
    }

    /// Write data at offset. Returns how many bytes fit in the block.
    pub fn write_at(&mut self, offset: usize, data: &[u8]) -> (r: Result<usize, String>)
        requires
            old(self).wf(),
        ensures
            final(self).wf(),
            final(self).index == old(self).index,
            match r {
                Ok(n) => {
                    &&& offset < BLOCK_SIZE
                    &&& n == write_len(offset as int, data@.len() as int)
                    &&& final(self).data@ == written(old(self).data@, offset as int, data@)
                },
                Err(e) => {
                    &&& offset >= BLOCK_SIZE
                    &&& e@ == "Offset out of bounds"@
                    &&& final(self).data@ == old(self).data@
                },
            },
    {
        let size = BLOCK_SIZE as usize;
        if offset >= size {
            return Err("Offset out of bounds".to_owned());
        }
        let available = size - offset;
        let len = if data.len() < available {
            data.len()
        } else {
            available
        };
        let ghost old_data = self.data@;
        let mut k: usize = 0;
        while k < len
            invariant
                size == BLOCK_SIZE,
                old_data.len() == size,
                self.index == old(self).index,
                offset < size,
                len == write_len(offset as int, data@.len() as int),
                k <= len,
                self.data@ == Seq::new(
                    size as nat,
                    |i: int|
                        if offset <= i < offset + k {
                            data@[i - offset]
                        } else {
                            old_data[i]
                        },
                ),
            decreases len - k,
        {
            self.data.set(offset + k, data[k]);
            k += 1;
            proof {
                assert(self.data@ =~= Seq::new(
                    size as nat,
                    |i: int|
                        if offset <= i < offset + k {
                            data@[i - offset]
                        } else {
                            old_data[i]
                        },
                ));
            }
        }
        proof {
            assert(self.data@ =~= written(old_data, offset as int, data@));
        }
        Ok(len)
    }

    /// Read up to `len` bytes from offset, clipped to the block.
    pub fn read_at(&self, offset: usize, len: usize) -> (r: Vec<u8>)
        requires
            self.wf(),
            offset + len <= usize::MAX,
        ensures
            r@ == read_range(self.data@, offset as int, len as int),
    {
        let size = BLOCK_SIZE as usize;
        let end = if offset + len < size {
            offset + len
        } else {
            size
        };
        let mut out: Vec<u8> = Vec::new();
        if offset >= end {
            return out;
        }
        let mut i: usize = offset;
        while i < end
            invariant
                end <= size,
                size == BLOCK_SIZE,
                self.data.len() == size,
                offset <= i <= end,
                out@ == self.data@.subrange(offset as int, i as int),
            decreases end - i,
        {
            out.push(self.data[i]);
            i += 1;
            proof {
                assert(out@ =~= self.data@.subrange(offset as int, i as int));
            }
        }
        out
    }

    /// Block index.
    pub fn index(&self) -> (r: usize)
        ensures
            r == self.index,
    {
        self.index
    }

    /// How many non-zero bytes.
    pub fn used_bytes(&self) -> (n: usize)
        ensures
            n == nonzero_in(self.data@),
    {
        let mut n: usize = 0;
        let mut i: usize = 0;
        while i < self.data.len()
            invariant
                i <= self.data.len(),
                n == nonzero_in(self.data@.take(i as int)),
                n <= i,
            decreases self.data.len() - i,
        {
            proof {
                assert(self.data@.take(i + 1).drop_last() =~= self.data@.take(i as int));
            }
            if self.data[i] != 0 {
                n += 1;
            }
            i += 1;
        }
        proof {
            assert(self.data@.take(i as int) =~= self.data@);
        }
        n
    }
}

/// A write stores every byte of `d` that fits before the end of the block:
/// the count it reports is all of `d`, or as much as reaches the end of the
/// block, and a write that fits entirely reads back whole.
pub proof fn law_write_stores_what_fits(s: Seq<u8>, offset: int, d: Seq<u8>)
    requires
        s.len() == BLOCK_SIZE,
        0 <= offset < BLOCK_SIZE,
    ensures
        0 <= write_len(offset, d.len() as int) <= d.len(),
        offset + write_len(offset, d.len() as int) <= BLOCK_SIZE,
        write_len(offset, d.len() as int) == d.len() || offset + write_len(offset, d.len() as int)
            == BLOCK_SIZE,
        forall|i: int|
            0 <= i < d.len() && offset + i < BLOCK_SIZE ==> #[trigger] written(s, offset, d)[offset
                + i] == d[i],
        offset + d.len() <= BLOCK_SIZE ==> read_range(written(s, offset, d), offset, d.len() as int)
            == d,
{
    if offset + d.len() <= BLOCK_SIZE {
        law_read_after_write(s, offset, d);
        assert(d.take(d.len() as int) =~= d);
    }
}

/// What a write stores, a read of the same range gives back: after writing
/// `d` at `offset`, reading as many bytes as were written there returns the
/// part of `d` that fit.
pub proof fn law_read_after_write(s: Seq<u8>, offset: int, d: Seq<u8>)
    requires
        s.len() == BLOCK_SIZE,
        0 <= offset < BLOCK_SIZE,
    ensures
        read_range(written(s, offset, d), offset, write_len(offset, d.len() as int)) == d.take(
            write_len(offset, d.len() as int),
        ),
{
    let n = write_len(offset, d.len() as int);
    if n > 0 {
        assert(read_range(written(s, offset, d), offset, n) =~= d.take(n));
    } else {
        assert(d.take(n) =~= Seq::<u8>::empty());
    }
}

/// A write leaves every byte outside the written range as it was, and the
/// block keeps its size.
pub proof fn law_write_keeps_rest(s: Seq<u8>, offset: int, d: Seq<u8>, i: int)
    requires
        s.len() == BLOCK_SIZE,
        0 <= offset < BLOCK_SIZE,
        0 <= i < BLOCK_SIZE,
        !(offset <= i < offset + write_len(offset, d.len() as int)),
    ensures
        written(s, offset, d).len() == BLOCK_SIZE,
        written(s, offset, d)[i] == s[i],
{
}

/// A block made from `d` reads back `d`, truncated to the block size.
pub proof fn law_with_data_reads_back(d: Seq<u8>)
    ensures
        read_range(padded(d), 0, d.len() as int) == d.take(min_int(d.len() as int, BLOCK_SIZE as int)),
{
    let n = min_int(d.len() as int, BLOCK_SIZE as int);
    if n > 0 {
        assert(read_range(padded(d), 0, d.len() as int) =~= d.take(n));
    } else {
        assert(d.take(n) =~= Seq::<u8>::empty());
    }
}

/// A zeroed block has no used bytes.
pub proof fn law_zero_block_unused()
    ensures
        nonzero_in(zero_block()) == 0,
{
    lemma_nonzero_in_all_zero(zero_block());
}

proof fn lemma_nonzero_in_all_zero(s: Seq<u8>)
    requires
        forall|i: int| 0 <= i < s.len() ==> #[trigger] s[i] == 0,
    ensures
        nonzero_in(s) == 0,
    decreases s.len(),
{
    if s.len() > 0 {
        lemma_nonzero_in_all_zero(s.drop_last());
    }
}

} // verus!
