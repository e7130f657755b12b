//! Bulk sequential reading: a queue of per-store readers drained front to
//! back, so the bytes come out as the concatenation of every store's
//! contents in order.

use vstd::prelude::*;
use crate::store::push_all;

verus! {

/// A sequential reader over the bytes of one store.  The log's bulk reader
/// takes a snapshot of each store: in the file-backed engine a read through
/// the store flushes its buffer first and the log's lock keeps appends out,
/// so the snapshot returns the same bytes.
pub struct StoreReader {
    /// The store's bytes.
    pub data: Vec<u8>,
    /// How many of them have been handed out already.
    pub off: u64,
}

impl StoreReader {
    /// The read head never passes the end of the bytes.
    pub open spec fn wf(self) -> bool {
        self.off <= self.data@.len()
    }

    /// The bytes not yet handed out.
    pub open spec fn remaining(self) -> Seq<u8> {
        self.data@.skip(self.off as int)
    }

    /// This reader with its head moved `k` bytes forward.
    pub open spec fn advanced_by(self, k: int) -> StoreReader {
        StoreReader { data: self.data, off: (self.off + k) as u64 }
    }

    /// A reader positioned at the front of `data`.
    pub fn new(data: Vec<u8>) -> (r: StoreReader)
        ensures
            r.wf(),
            r.data@ == data@,
            r.off == 0,
            r.remaining() == data@,
    {
        let r = StoreReader { data, off: 0 };
        proof {
            assert(r.remaining() =~= r.data@);
        }
        r
    }

    /// Hand out the next bytes, at most `n` of them; short, possibly empty,
    /// once the bytes run out.
    pub fn read(&mut self, n: usize) -> (out: Vec<u8>)
        requires
            old(self).wf(),
        ensures
            final(self).wf(),
            final(self).data == old(self).data,
            out@.len() == if n <= old(self).remaining().len() {
                n as int
            } else {
                old(self).remaining().len() as int
            },
            out@ == old(self).remaining().take(out@.len() as int),
            final(self).remaining() == old(self).remaining().skip(out@.len() as int),
            final(self).off == old(self).off + out@.len(),
    {
        let dlen = self.data.len();
        let start = self.off as usize;
        let left = dlen - start;
        let k = if n <= left {
            n
        } else {
            left
        };
        let out = vstd::slice::slice_to_vec(
            vstd::slice::slice_subrange(self.data.as_slice(), start, start + k),
        );
        self.off = self.off + (k as u64);
        proof {
            assert(out@ =~= old(self).remaining().take(k as int));
            assert(self.remaining() =~= old(self).remaining().skip(k as int));
        }
        out
    }
}

/// All bytes a queue of readers has yet to hand out, front to back.
pub open spec fn remaining_of(s: Seq<StoreReader>) -> Seq<u8>
    decreases s.len(),
{
    if s.len() == 0 {
        Seq::empty()
    } else {
        s[0].remaining() + remaining_of(s.drop_first())
    }
}

/// The bytes of the first reader that still has any; what one read call can
/// hand out without crossing into the next reader.
pub open spec fn first_chunk(s: Seq<StoreReader>) -> Seq<u8>
    decreases s.len(),
{
    if s.len() == 0 {
        Seq::empty()
    } else if s[0].remaining().len() > 0 {
        s[0].remaining()
    } else {
        first_chunk(s.drop_first())
    }
}

/// The queue with its exhausted front readers popped: what is left of it
/// once a read has skipped to the first reader that still has bytes.
pub open spec fn drop_exhausted(s: Seq<StoreReader>) -> Seq<StoreReader>
    decreases s.len(),
{
    if s.len() == 0 {
        s
    } else if s[0].remaining().len() == 0 {
        drop_exhausted(s.drop_first())
    } else {
        s
    }
}

/// The queue has bytes left exactly when some reader in it does.
pub proof fn lemma_first_chunk_empty(s: Seq<StoreReader>)
    ensures
        (first_chunk(s).len() == 0) <==> (remaining_of(s).len() == 0),
    decreases s.len(),
{
    if s.len() > 0 {
        lemma_first_chunk_empty(s.drop_first());
    }
}

/// One read never hands out more than the queue still holds.
pub proof fn lemma_first_chunk_len(s: Seq<StoreReader>)
    ensures
        first_chunk(s).len() <= remaining_of(s).len(),
    decreases s.len(),
{
    if s.len() > 0 {
        lemma_first_chunk_len(s.drop_first());
    }
}

/// Readers drained front to back, as one byte stream.
pub struct MultiReader {
    /// The queue; the front is at position 0.
    pub inner: Vec<StoreReader>,
}

impl Default for MultiReader {
    /// An empty queue.
    fn default() -> (r: MultiReader)
        ensures
            r.inner@.len() == 0,
            r.wf(),
    {
        MultiReader { inner: Vec::new() }
    }
}

impl MultiReader {
    /// Every queued reader is well formed.
    pub open spec fn wf(self) -> bool {
        forall|i: int| 0 <= i < self.inner@.len() ==> (#[trigger] self.inner@[i]).wf()
    }

    /// The bytes not yet handed out, front to back.
    pub open spec fn remaining(self) -> Seq<u8> {
        remaining_of(self.inner@)
    }

    /// Queue one more reader at the back.
    pub fn push_back(&mut self, r: StoreReader)
        requires
            old(self).wf(),
            r.wf(),
        ensures
            final(self).wf(),
            final(self).inner@ == old(self).inner@.push(r),
            final(self).remaining() == old(self).remaining() + r.remaining(),
    {
        self.inner.push(r);
        proof {
            lemma_remaining_of_push(old(self).inner@, r);
        }
    }

    /// Hand out the next bytes: skip exhausted readers at the front, then
    /// read at most `n` bytes from the first reader that has any, without
    /// crossing into the next one.  An empty result means the queue is
    /// drained.  As in a plain `read`, asking for 0 bytes reads nothing,
    /// and here it pops every queued reader on its way to that nothing.
    pub fn read(&mut self, n: usize) -> (out: Vec<u8>)
        requires
            old(self).wf(),
        ensures
            final(self).wf(),
            out@.len() == 0 ==> final(self).inner@.len() == 0,
            n == 0 ==> out@.len() == 0,
            n > 0 ==> {
                &&& out@.len() == (if n <= first_chunk(old(self).inner@).len() {
                    n as int
                } else {
                    first_chunk(old(self).inner@).len() as int
                })
                &&& out@ == old(self).remaining().take(out@.len() as int)
                &&& final(self).remaining() == old(self).remaining().skip(out@.len() as int)
                &&& final(self).inner@ == ({
                    let q = drop_exhausted(old(self).inner@);
                    if q.len() == 0 {
                        q
                    } else {
                        q.update(0, q[0].advanced_by(out@.len() as int))
                    }
                })
            },
    {
        if n == 0 {
            while self.inner.len() > 0
                invariant
                    self.wf(),
                decreases self.inner@.len(),
            {
                let _ = self.inner.remove(0);
            }
            return Vec::new();
        }
        loop
            invariant
                n > 0,
                self.wf(),
                remaining_of(self.inner@) == old(self).remaining(),
                first_chunk(self.inner@) == first_chunk(old(self).inner@),
                drop_exhausted(self.inner@) == drop_exhausted(old(self).inner@),
            ensures
                self.wf(),
                remaining_of(self.inner@) == old(self).remaining(),
                first_chunk(self.inner@) == first_chunk(old(self).inner@),
                self.inner@ == drop_exhausted(old(self).inner@),
                self.inner@.len() == 0 || self.inner@[0].remaining().len() > 0,
            decreases self.inner@.len(),
        {
            if self.inner.len() == 0 {
                break ;
            }
            let head_done = {
                let r = &self.inner[0];
                r.off >= r.data.len() as u64
            };
            if !head_done {
                proof {
                    assert(drop_exhausted(self.inner@) == self.inner@);
                }
                break ;
            }
            proof {
                assert(self.inner@[0].remaining().len() == 0);
                assert(remaining_of(self.inner@) =~= remaining_of(self.inner@.drop_first()));
                assert(drop_exhausted(self.inner@) == drop_exhausted(self.inner@.drop_first()));
            }
            let _ = self.inner.remove(0);
        }
        if self.inner.len() == 0 {
            proof {
                assert(old(self).remaining().len() == 0);
                assert(Seq::<u8>::empty() =~= old(self).remaining().take(0));
                assert(old(self).remaining().skip(0) =~= old(self).remaining());
            }
            return Vec::new();
        }
        let ghost qs = self.inner@;
        let ghost rest = qs.drop_first();
        proof {
            assert(qs == drop_exhausted(old(self).inner@));
        }
        let mut r = self.inner.remove(0);
        let out = r.read(n);
        proof {
            let k = out@.len() as int;
            assert(remaining_of(qs) == qs[0].remaining() + remaining_of(rest));
            assert(first_chunk(qs) == qs[0].remaining());
            assert(old(self).remaining().take(k) =~= qs[0].remaining().take(k));
        }
        self.inner.insert(0, r);
        proof {
            let k = out@.len() as int;
            assert(self.inner@.drop_first() =~= rest);
            assert(remaining_of(self.inner@) == self.inner@[0].remaining() + remaining_of(rest));
            assert(self.inner@[0].remaining() + remaining_of(rest) =~= old(self).remaining().skip(
                k,
            ));
            assert(r == qs[0].advanced_by(k));
            assert(self.inner@ =~= qs.update(0, qs[0].advanced_by(k)));
        }
        out
    }

    /// Drain the queue completely and hand back everything it still held.
    pub fn read_to_end(&mut self) -> (out: Vec<u8>)
        requires
            old(self).wf(),
        ensures
            final(self).wf(),
            out@ == old(self).remaining(),
            final(self).remaining().len() == 0,
    {
        let mut out: Vec<u8> = Vec::new();
        loop
            invariant_except_break
                self.wf(),
                out@ + self.remaining() == old(self).remaining(),
            ensures
                self.wf(),
                out@ == old(self).remaining(),
                self.remaining().len() == 0,
            decreases self.remaining().len(),
        {
            let ghost rem0 = self.remaining();
            let ghost inner0 = self.inner@;
            let chunk = self.read(1024);
            if chunk.len() == 0 {
                proof {
                    lemma_first_chunk_empty(self.inner@);
                    assert(out@ + self.remaining() =~= out@);
                }
                break ;
            }
            proof {
                let k = chunk@.len() as int;
                lemma_first_chunk_len(inner0);
                assert(rem0.take(k) + rem0.skip(k) =~= rem0);
                assert((out@ + chunk@) + self.remaining() =~= old(self).remaining());
            }
            push_all(&mut out, &chunk);
        }
        out
    }
}

/// Queueing a reader at the back puts its bytes after everything already
/// queued.
pub proof fn lemma_remaining_of_push(s: Seq<StoreReader>, r: StoreReader)
    ensures
        remaining_of(s.push(r)) == remaining_of(s) + r.remaining(),
    decreases s.len(),
{
    if s.len() == 0 {
        assert(s.push(r).drop_first() =~= Seq::<StoreReader>::empty());
        assert(s.push(r)[0] == r);
        assert(remaining_of(Seq::<StoreReader>::empty()) =~= Seq::<u8>::empty());
        assert(remaining_of(s.push(r)) =~= r.remaining());
        assert(remaining_of(s) + r.remaining() =~= r.remaining());
    } else {
        assert(s.push(r).drop_first() =~= s.drop_first().push(r));
        lemma_remaining_of_push(s.drop_first(), r);
        assert(remaining_of(s.push(r)) =~= remaining_of(s) + r.remaining());
    }
}

} // verus!
