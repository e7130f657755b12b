//! The index: a fixed-size, memory-mapped table of `(relative_offset,
//! byte_position)` entries that maps a record's offset within its segment to
//! the byte position of its frame in the companion store.
//!
//! The file-backed engine pre-extends the index file to the configured
//! `max_index_bytes` and maps the whole file writable; the map is never
//! resized.  The model holds the map as a byte vector of exactly that
//! length, with `size` counting the bytes actually written.

use vstd::prelude::*;
use vstd::bytes::{
    lemma_auto_spec_u32_to_from_le_bytes, lemma_auto_spec_u64_to_from_le_bytes,
    spec_u32_from_le_bytes, spec_u64_from_le_bytes, u32_from_le_bytes, u32_to_le_bytes,
    u64_from_le_bytes, u64_to_le_bytes,
};
use vstd::slice::{slice_subrange, slice_to_vec};
use crate::config::Config;
use crate::error::LogError;

verus! {

/// Width in bytes of an entry's relative-offset column.
pub const OFF_WIDTH: u64 = 4;

/// Width in bytes of an entry's byte-position column.
pub const POS_WIDTH: u64 = 8;

/// Width in bytes of one index entry.
pub const ENTRY_WIDTH: u64 = 12;

/// The entry at row `i` of an index byte string: a relative offset and a
/// store byte position, both little-endian.
pub open spec fn entry_at(m: Seq<u8>, i: int) -> (u32, u64) {
    (
        spec_u32_from_le_bytes(m.subrange(i * ENTRY_WIDTH, i * ENTRY_WIDTH + OFF_WIDTH)),
        spec_u64_from_le_bytes(
            m.subrange(i * ENTRY_WIDTH + OFF_WIDTH, i * ENTRY_WIDTH + ENTRY_WIDTH),
        ),
    )
}

/// The first `n` entries of an index byte string.
pub open spec fn entries(m: Seq<u8>, n: nat) -> Seq<(u32, u64)> {
    Seq::new(n, |i: int| entry_at(m, i))
}

/// Entries depend only on the bytes in front of row `n`: two index byte
/// strings that agree there hold the same first `n` entries.
pub proof fn lemma_entries_prefix(m1: Seq<u8>, m2: Seq<u8>, n: nat)
    requires
        n * ENTRY_WIDTH <= m1.len(),
        n * ENTRY_WIDTH <= m2.len(),
        m1.subrange(0, n * ENTRY_WIDTH) == m2.subrange(0, n * ENTRY_WIDTH),
    ensures
        entries(m1, n) == entries(m2, n),
{
    let p = m1.subrange(0, n * ENTRY_WIDTH);
    assert forall|i: int| 0 <= i < n implies entry_at(m1, i) == entry_at(m2, i) by {
        assert(m1.subrange(i * ENTRY_WIDTH, i * ENTRY_WIDTH + OFF_WIDTH) =~= p.subrange(
            i * ENTRY_WIDTH,
            i * ENTRY_WIDTH + OFF_WIDTH,
        ));
        assert(m2.subrange(i * ENTRY_WIDTH, i * ENTRY_WIDTH + OFF_WIDTH) =~= p.subrange(
            i * ENTRY_WIDTH,
            i * ENTRY_WIDTH + OFF_WIDTH,
        ));
        assert(m1.subrange(i * ENTRY_WIDTH + OFF_WIDTH, i * ENTRY_WIDTH + ENTRY_WIDTH)
            =~= p.subrange(i * ENTRY_WIDTH + OFF_WIDTH, i * ENTRY_WIDTH + ENTRY_WIDTH));
        assert(m2.subrange(i * ENTRY_WIDTH + OFF_WIDTH, i * ENTRY_WIDTH + ENTRY_WIDTH)
            =~= p.subrange(i * ENTRY_WIDTH + OFF_WIDTH, i * ENTRY_WIDTH + ENTRY_WIDTH));
    }
    assert(entries(m1, n) =~= entries(m2, n));
}

/// Overwrite `v[at .. at + src.len()]` with the elements of `src`.
pub(crate) fn set_range(v: &mut Vec<u8>, at: usize, src: &Vec<u8>)
    requires
        at + src@.len() <= old(v)@.len(),
    ensures
        final(v)@.len() == old(v)@.len(),
        final(v)@.subrange(at as int, at + src@.len()) == src@,
        forall|i: int| 0 <= i < at ==> final(v)@[i] == old(v)@[i],
        forall|i: int| at + src@.len() <= i < old(v)@.len() ==> final(v)@[i] == old(v)@[i],
{
    let vl = v.len();
    assert(at + src@.len() <= vl);
    let mut j: usize = 0;
    while j < src.len()
        invariant
            j <= src@.len(),
            at + src@.len() <= v@.len(),
            v@.len() <= usize::MAX,
            v@.len() == old(v)@.len(),
            forall|i: int| 0 <= i < at ==> v@[i] == old(v)@[i],
            forall|i: int| at <= i < at + j ==> v@[i] == src@[i - at],
            forall|i: int| at + src@.len() <= i < old(v)@.len() ==> v@[i] == old(v)@[i],
        decreases src@.len() - j,
    {
        v.set(at + j, src[j]);
        j = j + 1;
    }
    assert(v@.subrange(at as int, at + src@.len()) =~= src@);
}

/// A fixed-size table mapping relative offsets to store byte positions.
pub struct Index {
    /// The memory map over the pre-extended index file; its length never
    /// changes while the index is open.
    pub mmap: Vec<u8>,
    /// Bytes actually written: `ENTRY_WIDTH` for each entry.
    pub size: u64,
}

impl View for Index {
    type V = Seq<(u32, u64)>;

    open spec fn view(&self) -> Seq<(u32, u64)> {
        entries(self.mmap@, (self.size as int / ENTRY_WIDTH as int) as nat)
    }
}

impl Index {
    /// Whole entries only, and all of them inside the map.
    pub open spec fn wf(self) -> bool {
        &&& self.size % ENTRY_WIDTH == 0
        &&& self.size <= self.mmap@.len()
    }

    /// How many entries the index holds.
    pub open spec fn entry_count(self) -> nat {
        (self.size as int / ENTRY_WIDTH as int) as nat
    }

    /// Open an index over the current contents of its file, pre-extending
    /// the map with zero bytes to `max_index_bytes`.
    ///
    /// A file longer than `max_index_bytes`, or cut mid-entry, was not left
    /// behind by a clean close; recovery assumes neither happened.  The cap
    /// must fit in a `usize` for the map to be addressable at all.
    pub fn new(file: Vec<u8>, c: &Config) -> (ix: Index)
        requires
            file@.len() <= c.segment.max_index_bytes,
            file@.len() % (ENTRY_WIDTH as nat) == 0,
            c.segment.max_index_bytes <= usize::MAX,
        ensures
            ix.wf(),
            ix.size == file@.len(),
            ix.mmap@.len() == c.segment.max_index_bytes,
            ix.mmap@.subrange(0, file@.len() as int) == file@,
            ix@ == entries(file@, (file@.len() as int / ENTRY_WIDTH as int) as nat),
    {
        let ghost orig = file@;
        let size: u64 = file.len() as u64;
        let target = c.segment.max_index_bytes as usize;
        let mut mmap = file;
        while mmap.len() < target
            invariant
                size <= mmap@.len() <= target,
                size == orig.len(),
                forall|i: int| 0 <= i < size ==> mmap@[i] == orig[i],
            decreases target - mmap@.len(),
        {
            mmap.push(0);
        }
        let ix = Index { mmap, size };
        proof {
            assert(ix.mmap@.subrange(0, size as int) =~= orig);
            let n = (size as int / ENTRY_WIDTH as int) as nat;
            assert(n * ENTRY_WIDTH == size) by {
                vstd::arithmetic::div_mod::lemma_fundamental_div_mod(
                    size as int,
                    ENTRY_WIDTH as int,
                );
            }
            assert(orig.subrange(0, size as int) =~= orig);
            lemma_entries_prefix(ix.mmap@, orig, n);
        }
        ix
    }

    /// Append one entry: the relative offset at the write head, the byte
    /// position after it, both little-endian.  Fails with `IndexFull`, and
    /// changes nothing, when the map has no room for another entry.
    pub fn write(&mut self, off: u32, pos: u64) -> (r: Result<(), LogError>)
        requires
            old(self).wf(),
        ensures
            final(self).wf(),
            final(self).mmap@.len() == old(self).mmap@.len(),
            old(self).size + ENTRY_WIDTH <= old(self).mmap@.len() ==> {
                &&& r is Ok
                &&& final(self)@ == old(self)@.push((off, pos))
                &&& final(self).size == old(self).size + ENTRY_WIDTH
            },
            old(self).size + ENTRY_WIDTH > old(self).mmap@.len() ==> {
                &&& r == Err::<(), LogError>(LogError::IndexFull)
                &&& *final(self) == *old(self)
            },
    {
        let mlen = self.mmap.len();
        if (mlen as u64) - self.size < ENTRY_WIDTH {
            return Err(LogError::IndexFull);
        }
        let s = self.size as usize;
        let ob = u32_to_le_bytes(off);
        let pb = u64_to_le_bytes(pos);
        set_range(&mut self.mmap, s, &ob);
        set_range(&mut self.mmap, s + (OFF_WIDTH as usize), &pb);
        self.size = self.size + ENTRY_WIDTH;
        proof {
            let m0 = old(self).mmap@;
            let m1 = self.mmap@;
            let n0 = old(self).entry_count();
            assert(n0 * ENTRY_WIDTH == old(self).size) by {
                vstd::arithmetic::div_mod::lemma_fundamental_div_mod(
                    old(self).size as int,
                    ENTRY_WIDTH as int,
                );
            }
            assert(self.entry_count() == n0 + 1) by {
                vstd::arithmetic::div_mod::lemma_fundamental_div_mod(
                    self.size as int,
                    ENTRY_WIDTH as int,
                );
            }
            assert(m1.subrange(0, n0 * ENTRY_WIDTH) =~= m0.subrange(0, n0 * ENTRY_WIDTH));
            lemma_entries_prefix(m1, m0, n0);
            lemma_auto_spec_u32_to_from_le_bytes();
            lemma_auto_spec_u64_to_from_le_bytes();
            assert(m1.subrange(n0 * ENTRY_WIDTH, n0 * ENTRY_WIDTH + OFF_WIDTH) =~= ob@);
            assert(m1.subrange(n0 * ENTRY_WIDTH + OFF_WIDTH, n0 * ENTRY_WIDTH + ENTRY_WIDTH)
                =~= pb@);
            assert(entry_at(m1, n0 as int) == (off, pos));
            assert(self@ =~= old(self)@.push((off, pos)));
        }
        Ok(())
    }

    /// Read the entry in row `offset`, or the last entry for `offset == -1`.
    /// Fails with `IndexEmpty`, whatever the requested row, when no entry
    /// has been written.  On a non-empty index a row at or past
    /// `entry_count` is undefined at this layer; callers stay in range by
    /// dispatching through the log's segment ranges.
    pub fn read(&self, offset: i64) -> (r: Result<(u32, u64), LogError>)
        requires
            self.wf(),
            self@.len() == 0 || offset == -1 || (0 <= offset < self@.len() && offset
                <= u32::MAX),
            offset == -1 ==> self@.len() <= u32::MAX + 1,
        ensures
            self@.len() == 0 ==> r == Err::<(u32, u64), LogError>(LogError::IndexEmpty),
            self@.len() > 0 ==> (r matches Ok(e) && e == self@[
                if offset == -1 {
                    self@.len() - 1
                } else {
                    offset as int
                }
            ]),
    {
        proof {
            vstd::arithmetic::div_mod::lemma_fundamental_div_mod(
                self.size as int,
                ENTRY_WIDTH as int,
            );
        }
        if self.size == 0 {
            return Err(LogError::IndexEmpty);
        }
        let row: u32 = if offset == -1 {
            ((self.size / ENTRY_WIDTH) - 1) as u32
        } else {
            offset as u32
        };
        let p64 = (row as u64) * ENTRY_WIDTH;
        assert(p64 + ENTRY_WIDTH <= self.size);
        let p = p64 as usize;
        let mlen = self.mmap.len();
        let ob = slice_subrange(self.mmap.as_slice(), p, p + (OFF_WIDTH as usize));
        let off_v = u32_from_le_bytes(ob);
        let pb = slice_subrange(
            self.mmap.as_slice(),
            p + (OFF_WIDTH as usize),
            p + (ENTRY_WIDTH as usize),
        );
        let pos_v = u64_from_le_bytes(pb);
        assert((off_v, pos_v) == entry_at(self.mmap@, row as int));
        Ok((off_v, pos_v))
    }

    /// Whether the index holds no entries.
    pub fn is_empty(&self) -> (b: bool)
        requires
            self.wf(),
        ensures
            b == (self@.len() == 0),
    {
        proof {
            vstd::arithmetic::div_mod::lemma_fundamental_div_mod(
                self.size as int,
                ENTRY_WIDTH as int,
            );
        }
        self.size == 0
    }

    /// Bytes written so far: `ENTRY_WIDTH` per entry.
    pub fn size(&self) -> (n: u64)
        requires
            self.wf(),
        ensures
            n == self.size,
            n == ENTRY_WIDTH * self@.len(),
    {
        proof {
            vstd::arithmetic::div_mod::lemma_fundamental_div_mod(
                self.size as int,
                ENTRY_WIDTH as int,
            );
        }
        self.size
    }

    /// The bytes the index file holds once the index is closed: the map is
    /// flushed and the file truncated back to the bytes actually written, so
    /// the next open can count entries from the file's length.
    pub fn close(&self) -> (file: Vec<u8>)
        requires
            self.wf(),
        ensures
            file@ == self.mmap@.subrange(0, self.size as int),
            file@.len() == self.size,
            file@.len() % (ENTRY_WIDTH as nat) == 0,
            entries(file@, self@.len()) == self@,
    {
        let mlen = self.mmap.len();
        assert(self.size <= mlen);
        let s = self.size as usize;
        let file = slice_to_vec(slice_subrange(self.mmap.as_slice(), 0, s));
        proof {
            vstd::arithmetic::div_mod::lemma_fundamental_div_mod(
                self.size as int,
                ENTRY_WIDTH as int,
            );
            assert(file@.subrange(0, self@.len() * ENTRY_WIDTH) =~= self.mmap@.subrange(
                0,
                self@.len() * ENTRY_WIDTH,
            ));
            lemma_entries_prefix(file@, self.mmap@, self@.len());
        }
        file
    }
}

} // verus!
