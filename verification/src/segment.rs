//! A segment: one store and one index sharing a base offset.  The segment
//! translates between a record's absolute offset and the byte position of
//! its frame, and reports when either of its files has reached its cap.

use vstd::prelude::*;
use crate::config::Config;
use crate::error::LogError;
use crate::index::{entries, entry_at, Index, ENTRY_WIDTH};
use crate::record::Record;
use crate::store::{
    frame, frame_payload, frame_valid, lemma_frame_extend, lemma_frame_roundtrip, Store, LEN_WIDTH,
};

verus! {

/// The two files of one segment, as found in or written back to the log's
/// directory: `<base_offset>.store` and `<base_offset>.index`.
pub struct SegmentFiles {
    /// Absolute offset of the first record the segment holds; also the stem
    /// of both file names.
    pub base_offset: u64,
    /// Contents of the store file.
    pub store_bytes: Vec<u8>,
    /// Contents of the index file.
    pub index_bytes: Vec<u8>,
}

/// How many whole entries an index file holds.
pub open spec fn file_entry_count(index_bytes: Seq<u8>) -> int {
    index_bytes.len() as int / ENTRY_WIDTH as int
}

/// Whether a pair of segment files is a state this engine's clean close
/// leaves behind for a segment based at `base`: the index holds whole
/// entries only and fits its cap, relative offsets run densely from 0, and
/// each entry points at a complete frame in the store file.  Recovery does
/// not validate any of this at run time; it trusts the previous close.
pub open spec fn recoverable(base: u64, store_bytes: Seq<u8>, index_bytes: Seq<u8>, c: Config) -> bool {
    let n = file_entry_count(index_bytes);
    &&& index_bytes.len() % (ENTRY_WIDTH as nat) == 0
    &&& index_bytes.len() <= c.segment.max_index_bytes
    &&& c.segment.max_index_bytes <= usize::MAX
    &&& n <= u32::MAX + 1
    &&& base + n <= u64::MAX
    &&& forall|i: int| 0 <= i < n ==> (#[trigger] entry_at(index_bytes, i)).0 == i
    &&& forall|i: int| 0 <= i < n ==> frame_valid(store_bytes, entry_at(index_bytes, i).1 as int)
}

/// One store plus one index, covering the absolute offsets from
/// `base_offset` (inclusive) to `next_offset` (exclusive).
pub struct Segment {
    /// Maps each relative offset to its frame's byte position.
    pub index: Index,
    /// Holds the record frames.
    pub store: Store,
    /// Absolute offset of the segment's first record.
    pub base_offset: u64,
    /// Absolute offset the next append will take.
    pub next_offset: u64,
    /// The log's effective configuration.
    pub config: Config,
}

impl Segment {
    /// The payloads the segment holds, in offset order: entry `i` maps the
    /// record with absolute offset `base_offset + i` to its frame.
    pub open spec fn records(self) -> Seq<Seq<u8>> {
        Seq::new(self.index@.len(), |i: int| frame_payload(self.store@, self.index@[i].1 as int))
    }

    /// The segment's invariant: both halves well formed, the index map
    /// sized to the configured cap, `next_offset` one past the last entry,
    /// relative offsets dense from 0, and every indexed position holding a
    /// complete frame.
    pub open spec fn wf(self) -> bool {
        &&& self.store.wf()
        &&& self.index.wf()
        &&& self.index.mmap@.len() == self.config.segment.max_index_bytes
        &&& self.config.segment.max_index_bytes <= usize::MAX
        &&& self.next_offset == self.base_offset + self.index@.len()
        &&& forall|i: int| 0 <= i < self.index@.len() ==> (#[trigger] self.index@[i]).0 == i
        &&& forall|i: int|
            0 <= i < self.index@.len() ==> frame_valid(self.store@, self.index@[i].1 as int)
    }

    /// The entry count is bounded by the width of an entry's offset column:
    /// relative offsets are dense and stored as `u32`.
    pub proof fn lemma_count_bound(self)
        requires
            self.wf(),
        ensures
            self.index@.len() <= u32::MAX + 1,
    {
        if self.index@.len() > u32::MAX + 1 {
            assert(self.index@[self.index@.len() - 1].0 == self.index@.len() - 1);
        }
    }

    /// Open a segment over the current contents of its two files, computing
    /// `next_offset` from the index: `base_offset` when the index is empty,
    /// else the last entry's relative offset plus one, above the base.
    pub fn new(base_offset: u64, store_file: Vec<u8>, index_file: Vec<u8>, c: &Config) -> (s:
        Segment)
        requires
            recoverable(base_offset, store_file@, index_file@, *c),
        ensures
            s.wf(),
            s.base_offset == base_offset,
            s.config == *c,
            s.store@ == store_file@,
            s.index@ == entries(index_file@, file_entry_count(index_file@) as nat),
            s.next_offset == base_offset + file_entry_count(index_file@),
    {
        proof {
            vstd::arithmetic::div_mod::lemma_fundamental_div_mod(
                index_file@.len() as int,
                ENTRY_WIDTH as int,
            );
        }
        let store = Store::new(store_file);
        let index = Index::new(index_file, c);
        let next_offset = if index.is_empty() {
            base_offset
        } else {
            match index.read(-1) {
                Ok((off, _)) => base_offset + (off as u64) + 1,
                Err(_) => unreached(),
            }
        };
        Segment { index, store, base_offset, next_offset, config: *c }
    }

    /// Append one record: write the record's absolute offset into it, frame
    /// the payload into the store, then index the new entry.  When the index
    /// is out of room the store keeps the now unindexed frame, but the entry
    /// count, and with it `next_offset`, does not move, and the caller sees
    /// `IndexFull`.
    pub fn append(&mut self, record: &mut Record) -> (r: Result<u64, LogError>)
        requires
            old(self).wf(),
            old(self).next_offset < u64::MAX,
            old(self).index@.len() <= u32::MAX,
            old(self).store@.len() + LEN_WIDTH + old(record).value@.len() <= u64::MAX,
        ensures
            final(self).wf(),
            final(self).base_offset == old(self).base_offset,
            final(self).config == old(self).config,
            final(record).value@ == old(record).value@,
            final(record).offset == old(self).next_offset,
            final(self).store@ == old(self).store@ + frame(old(record).value@),
            ENTRY_WIDTH * (old(self).index@.len() + 1) <= old(self).config.segment.max_index_bytes
                ==> {
                &&& r == Ok::<u64, LogError>(old(self).next_offset)
                &&& final(self).records() == old(self).records().push(old(record).value@)
                &&& final(self).next_offset == old(self).next_offset + 1
            },
            ENTRY_WIDTH * (old(self).index@.len() + 1) > old(self).config.segment.max_index_bytes
                ==> {
                &&& r == Err::<u64, LogError>(LogError::IndexFull)
                &&& final(self).records() == old(self).records()
                &&& final(self).next_offset == old(self).next_offset
                &&& final(self).index@ == old(self).index@
            },
    {
        proof {
            vstd::arithmetic::div_mod::lemma_fundamental_div_mod(
                old(self).index.size as int,
                ENTRY_WIDTH as int,
            );
        }
        let ghost pre = *self;
        let cur = self.next_offset;
        record.offset = cur;
        let pos = match self.store.append(&record.value) {
            Ok((_, pos)) => pos,
            Err(_) => unreached(),
        };
        let rel = (cur - self.base_offset) as u32;
        proof {
            assert forall|i: int| 0 <= i < pre.index@.len() implies frame_valid(
                self.store@,
                pre.index@[i].1 as int,
            ) && frame_payload(self.store@, pre.index@[i].1 as int) == frame_payload(
                pre.store@,
                pre.index@[i].1 as int,
            ) by {
                lemma_frame_extend(pre.store@, frame(old(record).value@), pre.index@[i].1 as int);
            }
            lemma_frame_roundtrip(pre.store@, old(record).value@);
        }
        match self.index.write(rel, pos) {
            Ok(()) => {
                self.next_offset = cur + 1;
                proof {
                    assert(self.records() =~= pre.records().push(old(record).value@));
                }
                Ok(cur)
            },
            Err(e) => {
                proof {
                    assert(self.records() =~= pre.records());
                }
                Err(e)
            },
        }
    }

    /// Read the record at absolute offset `offset`: look its frame's byte
    /// position up in the index, then read the payload out of the store.
    pub fn read(&self, offset: u64) -> (r: Result<Record, LogError>)
        requires
            self.wf(),
            self.base_offset <= offset < self.next_offset,
        ensures
            r matches Ok(rec) && rec.value@ == self.records()[offset - self.base_offset]
                && rec.offset == offset,
    {
        proof {
            self.lemma_count_bound();
        }
        let rel = offset - self.base_offset;
        let (_, pos) = match self.index.read(rel as i64) {
            Ok(e) => e,
            Err(_) => unreached(),
        };
        match self.store.read(pos) {
            Ok(value) => Ok(Record { value, offset }),
            Err(_) => unreached(),
        }
    }

    /// Whether the segment is full: its store has reached `max_store_bytes`,
    /// or its index `max_index_bytes`.
    pub open spec fn maxed(self) -> bool {
        ||| self.store@.len() >= self.config.segment.max_store_bytes
        ||| ENTRY_WIDTH * self.index@.len() >= self.config.segment.max_index_bytes
    }

    /// Whether the segment has room left, by the configured caps.
    pub fn is_maxed(&self) -> (b: bool)
        requires
            self.wf(),
        ensures
            b == self.maxed(),
    {
        self.store.size() >= self.config.segment.max_store_bytes || self.index.size()
            >= self.config.segment.max_index_bytes
    }

    /// The two files as a clean close leaves them on disk: the store's
    /// bytes, and the index truncated back to its written entries.  What
    /// close leaves behind is recoverable: reopening it rebuilds this
    /// segment's records.
    pub fn close(&self) -> (files: SegmentFiles)
        requires
            self.wf(),
        ensures
            files.base_offset == self.base_offset,
            files.store_bytes@ == self.store@,
            files.index_bytes@.len() == ENTRY_WIDTH * self.index@.len(),
            entries(files.index_bytes@, self.index@.len()) == self.index@,
            file_entry_count(files.index_bytes@) == self.index@.len(),
            recoverable(self.base_offset, files.store_bytes@, files.index_bytes@, self.config),
    {
        let files = SegmentFiles {
            base_offset: self.base_offset,
            store_bytes: self.store.close(),
            index_bytes: self.index.close(),
        };
        proof {
            self.lemma_count_bound();
            vstd::arithmetic::div_mod::lemma_fundamental_div_mod(
                self.index.size as int,
                ENTRY_WIDTH as int,
            );
            vstd::arithmetic::div_mod::lemma_fundamental_div_mod(
                files.index_bytes@.len() as int,
                ENTRY_WIDTH as int,
            );
            assert forall|i: int| 0 <= i < self.index@.len() implies (#[trigger] entry_at(
                files.index_bytes@,
                i,
            )) == self.index@[i] by {
                assert(entries(files.index_bytes@, self.index@.len())[i] == entry_at(
                    files.index_bytes@,
                    i,
                ));
            }
        }
        files
    }
}

} // verus!
