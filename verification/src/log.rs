//! The log: an ordered list of segments sharing one directory.  Appends go
//! to the active (last) segment and rotate it out when it fills; point
//! reads dispatch on the segment ranges; truncation removes whole segments
//! from the front; close writes every segment's files back; opening a
//! directory's recovered files rebuilds the same log.

use vstd::prelude::*;
use crate::config::{Config, DEFAULT_MAX_BYTES};
use crate::error::LogError;
use crate::multi_reader::{MultiReader, StoreReader};
use crate::record::Record;
use crate::segment::{file_entry_count, recoverable, Segment, SegmentFiles};
use crate::store::{frame, LEN_WIDTH};
use crate::index::{entries, ENTRY_WIDTH};

verus! {

/// The shape an ordered run of segments must keep: each one well formed,
/// all sharing the configuration `c`, and each one starting exactly where
/// the one before it ends.
pub open spec fn segs_chained(segs: Seq<Segment>, c: Config) -> bool {
    &&& forall|i: int| 0 <= i < segs.len() ==> #[trigger] segs[i].wf()
    &&& forall|i: int| 0 <= i < segs.len() ==> (#[trigger] segs[i].config) == c
    &&& forall|i: int|
        0 <= i < segs.len() - 1 ==> (#[trigger] segs[i].next_offset) == segs[i + 1].base_offset
}

/// Which segment's range a point read lands in: the first segment whose
/// `next_offset` lies above the wanted offset (the last segment when none
/// does).
pub open spec fn seg_index_in(segs: Seq<Segment>, off: u64) -> int
    decreases segs.len(),
{
    if segs.len() <= 1 {
        0
    } else if off < segs[0].next_offset {
        0
    } else {
        1 + seg_index_in(segs.drop_first(), off)
    }
}

/// A segment never starts before an earlier one has ended.
pub proof fn lemma_ranges_ordered(segs: Seq<Segment>, c: Config, j1: int, j2: int)
    requires
        segs_chained(segs, c),
        0 <= j1 < j2 < segs.len(),
    ensures
        segs[j1].next_offset <= segs[j2].base_offset,
    decreases j2 - j1,
{
    if j2 > j1 + 1 {
        lemma_ranges_ordered(segs, c, j1, j2 - 1);
        assert(segs[j2 - 1].wf());
    }
}

/// The dispatch index is exactly the covering segment: when `segs[i]`
/// covers `off` and every earlier segment ends at or before `off`,
/// `seg_index_in` picks `i`.
pub proof fn lemma_seg_index_char(segs: Seq<Segment>, off: u64, i: int)
    requires
        0 <= i < segs.len(),
        forall|j: int| 0 <= j < i ==> off >= (#[trigger] segs[j].next_offset),
        off < segs[i].next_offset,
    ensures
        seg_index_in(segs, off) == i,
    decreases segs.len(),
{
    if i == 0 {
    } else {
        let rest = segs.drop_first();
        assert(forall|j: int|
            0 <= j < i - 1 ==> (#[trigger] rest[j].next_offset) == segs[j + 1].next_offset);
        lemma_seg_index_char(rest, off, i - 1);
    }
}

/// Every offset between the first base and the last next offset lands in a
/// segment that covers it, with every earlier segment exhausted.
pub proof fn lemma_seg_index_covers(segs: Seq<Segment>, c: Config, off: u64)
    requires
        segs_chained(segs, c),
        segs.len() > 0,
        segs[0].base_offset <= off < segs[segs.len() - 1].next_offset,
    ensures
        ({
            let i = seg_index_in(segs, off);
            &&& 0 <= i < segs.len()
            &&& segs[i].base_offset <= off < segs[i].next_offset
            &&& forall|j: int| 0 <= j < i ==> off >= (#[trigger] segs[j].next_offset)
        }),
    decreases segs.len(),
{
    if segs.len() == 1 {
    } else if off < segs[0].next_offset {
    } else {
        let rest = segs.drop_first();
        assert(segs_chained(rest, c)) by {
            assert(forall|j: int| 0 <= j < rest.len() ==> rest[j] == segs[j + 1]);
        }
        assert(rest[0].base_offset == segs[0].next_offset <= off);
        lemma_seg_index_covers(rest, c, off);
        let i = seg_index_in(segs, off);
        let ri = seg_index_in(rest, off);
        assert(i == 1 + ri);
        assert(forall|j: int| 1 <= j < i ==> segs[j] == rest[j - 1]);
    }
}

/// How many records a run of segments holds in all.
pub open spec fn total_records(segs: Seq<Segment>) -> int
    decreases segs.len(),
{
    if segs.len() == 0 {
        0
    } else {
        segs[0].records().len() + total_records(segs.drop_first())
    }
}

/// The bytes of every segment's store, concatenated in order.
pub open spec fn stores_concat(segs: Seq<Segment>) -> Seq<u8>
    decreases segs.len(),
{
    if segs.len() == 0 {
        Seq::empty()
    } else {
        segs[0].store@ + stores_concat(segs.drop_first())
    }
}

/// A chained run of segments holds exactly one record per offset of its
/// span: the distance from the first base offset to the last next offset
/// equals the total record count.
pub proof fn lemma_span_is_total(segs: Seq<Segment>, c: Config)
    requires
        segs_chained(segs, c),
        segs.len() > 0,
    ensures
        segs[segs.len() - 1].next_offset - segs[0].base_offset == total_records(segs),
    decreases segs.len(),
{
    assert(segs[0].wf());
    assert(segs[0].records().len() == segs[0].index@.len());
    if segs.len() == 1 {
        assert(total_records(segs.drop_first()) == 0);
    } else {
        let rest = segs.drop_first();
        assert(segs_chained(rest, c)) by {
            assert(forall|j: int| 0 <= j < rest.len() ==> rest[j] == segs[j + 1]);
        }
        lemma_span_is_total(rest, c);
        assert(total_records(segs) == segs[0].records().len() + total_records(rest));
        assert(rest[rest.len() - 1] == segs[segs.len() - 1]);
        assert(rest[0].base_offset == segs[0].next_offset);
    }
}

/// Queueing one more store at the back of a bulk read appends its bytes.
pub proof fn lemma_stores_concat_push(s: Seq<Segment>, x: Segment)
    ensures
        stores_concat(s.push(x)) == stores_concat(s) + x.store@,
    decreases s.len(),
{
    if s.len() == 0 {
        assert(s.push(x).drop_first() =~= Seq::<Segment>::empty());
        assert(s.push(x)[0] == x);
        assert(stores_concat(Seq::<Segment>::empty()) =~= Seq::<u8>::empty());
        assert(stores_concat(s.push(x)) =~= x.store@);
        assert(stores_concat(s) + x.store@ =~= x.store@);
    } else {
        assert(s.push(x).drop_first() =~= s.drop_first().push(x));
        lemma_stores_concat_push(s.drop_first(), x);
        assert(stores_concat(s.push(x)) =~= stores_concat(s) + x.store@);
    }
}

/// Replacing the last segment of a chained run with one that starts at the
/// same base, reaches at least as far, and holds the old records as a
/// prefix — and possibly adding segments after it — leaves every record the
/// run covered where it was.
pub proof fn lemma_records_preserved(s1: Seq<Segment>, s2: Seq<Segment>, c: Config, k: u64)
    requires
        segs_chained(s1, c),
        s1.len() > 0,
        s2.len() >= s1.len(),
        forall|j: int| 0 <= j < s1.len() - 1 ==> s2[j] == s1[j],
        s2[s1.len() - 1].base_offset == s1[s1.len() - 1].base_offset,
        s2[s1.len() - 1].next_offset >= s1[s1.len() - 1].next_offset,
        s1[s1.len() - 1].records().is_prefix_of(s2[s1.len() - 1].records()),
        s1[0].base_offset <= k < s1[s1.len() - 1].next_offset,
    ensures
        seg_index_in(s2, k) == seg_index_in(s1, k),
        ({
            let i = seg_index_in(s1, k);
            &&& 0 <= i < s1.len()
            &&& s2[i].base_offset == s1[i].base_offset
            &&& s2[i].records()[k - s2[i].base_offset] == s1[i].records()[k - s1[i].base_offset]
        }),
{
    lemma_seg_index_covers(s1, c, k);
    let i = seg_index_in(s1, k);
    let last = s1.len() - 1;
    assert(forall|j: int| 0 <= j < i ==> (#[trigger] s2[j].next_offset) == s1[j].next_offset);
    assert(k < s2[i].next_offset);
    lemma_seg_index_char(s2, k, i);
    if i < last {
        assert(s2[i] == s1[i]);
    } else {
        assert(s1[last].wf());
        let p = k - s1[last].base_offset;
        assert(0 <= p < s1[last].records().len());
        assert(s1[last].records() == s2[last].records().take(s1[last].records().len() as int));
    }
}

/// What recovery asks of a directory's files, under the configuration the
/// log will run with: each pair of files recoverable for its base offset,
/// and consecutive pairs contiguous, every segment starting exactly where
/// the one before it ends.  Files a clean close wrote satisfy all of it.
pub open spec fn recovery_valid(files: Seq<SegmentFiles>, config: Config) -> bool {
    let c = config.effective();
    &&& c.segment.max_index_bytes <= usize::MAX
    &&& forall|i: int|
        0 <= i < files.len() ==> recoverable(
            (#[trigger] files[i]).base_offset,
            files[i].store_bytes@,
            files[i].index_bytes@,
            c,
        )
    &&& forall|i: int|
        0 <= i < files.len() - 1 ==> (#[trigger] files[i]).base_offset + file_entry_count(
            files[i].index_bytes@,
        ) == files[i + 1].base_offset
}

/// How a recovered segment relates to the pair of files it was opened over.
pub open spec fn segment_matches_files(s: Segment, f: SegmentFiles) -> bool {
    &&& s.base_offset == f.base_offset
    &&& s.store@ == f.store_bytes@
    &&& s.index@ == entries(f.index_bytes@, file_entry_count(f.index_bytes@) as nat)
    &&& s.next_offset == f.base_offset + file_entry_count(f.index_bytes@)
}

/// The log itself.
pub struct Log {
    /// The effective configuration: caps of 0 already replaced by the
    /// default.
    pub config: Config,
    /// The segments, in ascending base-offset order; the last one is
    /// active, and only it receives appends.
    pub segments: Vec<Segment>,
}

impl Log {
    /// The oldest offset the log still holds a record for.
    pub open spec fn lowest(self) -> u64 {
        self.segments@[0].base_offset
    }

    /// The offset the next append will take; one past the newest record.
    pub open spec fn next(self) -> u64 {
        self.segments@[self.segments@.len() - 1].next_offset
    }

    /// Whether some segment covers `off`.  An empty log covers nothing.
    pub open spec fn has_offset(self, off: u64) -> bool {
        &&& self.segments@.len() > 0
        &&& self.lowest() <= off < self.next()
    }

    /// The active segment: the last one, the only one appends go to.
    pub open spec fn active(self) -> Segment {
        self.segments@[self.segments@.len() - 1]
    }

    /// The payload of the record at offset `off`; meaningful when
    /// `has_offset(off)`.
    pub open spec fn record_at(self, off: u64) -> Seq<u8> {
        let i = seg_index_in(self.segments@, off);
        self.segments@[i].records()[off - self.segments@[i].base_offset]
    }

    /// The log's invariant: the segments chained, the configuration already
    /// in effective form and its index cap addressable.  A log emptied by
    /// truncation has no segments; it answers reads with `OutOfRange` and
    /// the offset accessors with `Empty`, and only `append` is barred.
    pub open spec fn wf(self) -> bool {
        &&& segs_chained(self.segments@, self.config)
        &&& self.config == self.config.effective()
        &&& self.config.segment.max_index_bytes <= usize::MAX
    }

    /// The offset of the oldest record still held: the first segment's base
    /// offset.  Fails exactly when the log holds no segment.
    pub fn lowest_offset(&self) -> (r: Result<u64, LogError>)
        requires
            self.wf(),
        ensures
            self.segments@.len() > 0 ==> r == Ok::<u64, LogError>(self.lowest()),
            self.segments@.len() == 0 ==> r == Err::<u64, LogError>(LogError::Empty),
    {
        if self.segments.len() == 0 {
            return Err(LogError::Empty);
        }
        Ok(self.segments[0].base_offset)
    }

    /// The offset of the newest record: one below the active segment's next
    /// offset, except that a log whose next offset is still 0 reports 0,
    /// indistinguishable from a single record at offset 0.  Fails exactly
    /// when the log holds no segment.
    pub fn highest_offset(&self) -> (r: Result<u64, LogError>)
        requires
            self.wf(),
        ensures
            self.segments@.len() > 0 ==> r == Ok::<u64, LogError>(
                if self.next() == 0 {
                    0u64
                } else {
                    (self.next() - 1) as u64
                },
            ),
            self.segments@.len() == 0 ==> r == Err::<u64, LogError>(LogError::Empty),
    {
        if self.segments.len() == 0 {
            return Err(LogError::Empty);
        }
        let off = self.segments[self.segments.len() - 1].next_offset;
        if off == 0 {
            Ok(off)
        } else {
            Ok(off - 1)
        }
    }

    /// Open a log over the recovered contents of its directory: one pair of
    /// files per base offset found there, handed over in ascending
    /// base-offset order.  Caps of 0 are first replaced by the default, one
    /// segment is opened per pair in order, and a directory that held
    /// nothing starts with one empty segment at the configured initial
    /// offset.
    pub fn new(files: Vec<SegmentFiles>, config: Config) -> (log: Log)
        requires
            recovery_valid(files@, config),
        ensures
            log.wf(),
            log.segments@.len() > 0,
            log.config == config.effective(),
            files@.len() > 0 ==> log.segments@.len() == files@.len() && (forall|i: int|
                0 <= i < files@.len() ==> segment_matches_files(
                    #[trigger] log.segments@[i],
                    files@[i],
                )),
            files@.len() == 0 ==> log.segments@.len() == 1 && log.lowest()
                == config.effective().segment.initial_offset && log.next()
                == config.effective().segment.initial_offset && log.active().store@.len() == 0
                && log.active().index@.len() == 0,
    {
        let mut c = config;
        if c.segment.max_store_bytes == 0 {
            c.segment.max_store_bytes = DEFAULT_MAX_BYTES;
        }
        if c.segment.max_index_bytes == 0 {
            c.segment.max_index_bytes = DEFAULT_MAX_BYTES;
        }
        proof {
            assert(c == config.effective());
        }
        let ghost files0 = files@;
        let mut files = files;
        let mut segments: Vec<Segment> = Vec::new();
        while files.len() > 0
            invariant
                c == config.effective(),
                recovery_valid(files0, config),
                segments@.len() + files@.len() == files0.len(),
                files@ == files0.skip(segments@.len() as int),
                forall|i: int| 0 <= i < segments@.len() ==> (#[trigger] segments@[i]).wf(),
                forall|i: int|
                    0 <= i < segments@.len() ==> (#[trigger] segments@[i].config) == c,
                forall|i: int|
                    0 <= i < segments@.len() ==> segment_matches_files(
                        #[trigger] segments@[i],
                        files0[i],
                    ),
            decreases files@.len(),
        {
            let ghost k = segments@.len() as int;
            proof {
                assert(files@[0] == files0[k]);
            }
            let f = files.remove(0);
            let s = Segment::new(f.base_offset, f.store_bytes, f.index_bytes, &c);
            segments.push(s);
            proof {
                assert(files@ =~= files0.skip(segments@.len() as int));
            }
        }
        if segments.len() == 0 {
            let empty_store: Vec<u8> = Vec::new();
            let empty_index: Vec<u8> = Vec::new();
            proof {
                assert(recoverable(c.segment.initial_offset, empty_store@, empty_index@, c)) by {
                    assert(empty_index@.len() == 0);
                    assert(file_entry_count(empty_index@) == 0);
                }
            }
            let s = Segment::new(c.segment.initial_offset, empty_store, empty_index, &c);
            segments.push(s);
        }
        let log = Log { config: c, segments };
        proof {
            assert(segs_chained(log.segments@, c)) by {
                assert forall|i: int|
                    0 <= i < log.segments@.len() - 1 implies (#[trigger] log.segments@[
                    i
                ].next_offset) == log.segments@[i + 1].base_offset by {
                    assert(segment_matches_files(log.segments@[i], files0[i]));
                    assert(segment_matches_files(log.segments@[i + 1], files0[i + 1]));
                    assert(files0[i].base_offset + file_entry_count(files0[i].index_bytes@)
                        == files0[i + 1].base_offset);
                }
            }
        }
        log
    }

    /// Bounds a single append must respect on this machine: the next offset
    /// and the relative-offset column cannot wrap, and the store's byte
    /// count has to stay a `u64`.
    pub open spec fn can_append(self, payload: Seq<u8>) -> bool {
        &&& self.active().next_offset < u64::MAX
        &&& self.active().index@.len() <= u32::MAX
        &&& self.active().store@.len() + LEN_WIDTH + payload.len() <= u64::MAX
    }

    /// Whether the active segment's index has room for one more entry.
    pub open spec fn index_has_room(self) -> bool {
        ENTRY_WIDTH * (self.active().index@.len() + 1) <= self.config.segment.max_index_bytes
    }

    /// Whether the active segment reaches either cap once `payload` has
    /// been framed into its store and indexed.
    pub open spec fn maxed_after(self, payload: Seq<u8>) -> bool {
        ||| self.active().store@.len() + LEN_WIDTH + payload.len()
            >= self.config.segment.max_store_bytes
        ||| ENTRY_WIDTH * (self.active().index@.len() + 1) >= self.config.segment.max_index_bytes
    }

    /// Append one record: the active segment takes it and assigns the next
    /// offset; if that leaves the segment at either cap, a fresh segment
    /// one past the new record becomes active.  Every record already held
    /// stays where it was.  The append fails only when the active segment's
    /// index has no room for a whole entry, which the rotation cap avoids
    /// whenever `max_index_bytes` is a multiple of an entry's width; the
    /// store then keeps an unindexed frame and the offsets do not move.
    pub fn append(&mut self, record: &mut Record) -> (r: Result<u64, LogError>)
        requires
            old(self).wf(),
            old(self).segments@.len() > 0,
            old(self).can_append(old(record).value@),
        ensures
            final(self).wf(),
            final(self).config == old(self).config,
            final(record).value@ == old(record).value@,
            final(record).offset == old(self).next(),
            final(self).lowest() == old(self).lowest(),
            forall|k: u64|
                old(self).has_offset(k) ==> final(self).has_offset(k) && final(self).record_at(k)
                    == old(self).record_at(k),
            old(self).index_has_room() ==> {
                &&& r == Ok::<u64, LogError>(old(self).next())
                &&& final(self).next() == old(self).next() + 1
                &&& final(self).record_at(old(self).next()) == old(record).value@
                &&& final(self).segments@.len() == old(self).segments@.len() + (
                if old(self).maxed_after(old(record).value@) {
                    1int
                } else {
                    0int
                })
                &&& if old(self).maxed_after(old(record).value@) {
                    &&& final(self).active().store@ == Seq::<u8>::empty()
                    &&& final(self).active().index@.len() == 0
                    &&& final(self).active().base_offset == old(self).next() + 1
                    &&& final(self).active().next_offset == old(self).next() + 1
                    &&& final(self).segments@[final(self).segments@.len() - 2].store@ == old(
                        self,
                    ).active().store@ + frame(old(record).value@)
                } else {
                    &&& final(self).active().store@ == old(self).active().store@ + frame(
                        old(record).value@,
                    )
                    &&& final(self).active().index@.len() == old(self).active().index@.len() + 1
                    &&& final(self).active().base_offset == old(self).active().base_offset
                }
            },
            !old(self).index_has_room() ==> {
                &&& r == Err::<u64, LogError>(LogError::IndexFull)
                &&& final(self).next() == old(self).next()
                &&& final(self).segments@.len() == old(self).segments@.len()
                &&& final(self).active().store@ == old(self).active().store@ + frame(
                    old(record).value@,
                )
                &&& final(self).active().index@.len() == old(self).active().index@.len()
            },
    {
        let ghost pre = *self;
        let ghost last = pre.segments@.len() - 1;
        proof {
            assert(pre.segments@[last].wf());
            assert(pre.segments@[last].config == pre.config);
        }
        let mut active = match self.segments.pop() {
            Some(s) => s,
            None => unreached(),
        };
        let ghost a0 = active;
        let res = active.append(record);
        let maxed = active.is_maxed();
        let ghost a1 = active;
        self.segments.push(active);
        proof {
            assert(self.segments@ =~= pre.segments@.update(last, a1));
            assert(forall|j: int| 0 <= j < last ==> self.segments@[j] == pre.segments@[j]);
            assert(segs_chained(self.segments@, self.config)) by {
                assert forall|j: int| 0 <= j < self.segments@.len() implies #[trigger] self
                    .segments@[j].wf() && self.segments@[j].config == self.config by {
                    if j < last {
                        assert(pre.segments@[j].wf());
                        assert(pre.segments@[j].config == self.config);
                    }
                }
                assert forall|j: int| 0 <= j < self.segments@.len() - 1 implies (#[trigger] self
                    .segments@[j].next_offset) == self.segments@[j + 1].base_offset by {
                    assert(pre.segments@[j].next_offset == pre.segments@[j + 1].base_offset);
                }
            }
            assert(a0.records().is_prefix_of(a1.records())) by {
                if a0.records().len() < a1.records().len() {
                    assert(a1.records() == a0.records().push(old(record).value@));
                    assert(a0.records() =~= a1.records().take(a0.records().len() as int));
                } else {
                    assert(a1.records() == a0.records());
                    assert(a0.records() =~= a1.records().take(a0.records().len() as int));
                }
            }
            assert forall|k: u64| pre.has_offset(k) implies self.has_offset(k)
                && self.record_at(k) == pre.record_at(k) by {
                lemma_records_preserved(pre.segments@, self.segments@, self.config, k);
            }
        }
        proof {
            assert(frame(old(record).value@).len() == LEN_WIDTH + old(record).value@.len()) by {
                vstd::bytes::lemma_auto_spec_u64_to_from_le_bytes();
            }
        }
        match res {
            Ok(off) => {
                let ghost mid = *self;
                proof {
                    assert(a1.index@.len() == a0.index@.len() + 1);
                    assert(a1.maxed() == pre.maxed_after(old(record).value@));
                }
                if maxed {
                    let s = Segment::new(off + 1, Vec::new(), Vec::new(), &self.config);
                    proof {
                        assert(s.records() =~= Seq::<Seq<u8>>::empty());
                    }
                    self.segments.push(s);
                    proof {
                        assert(forall|j: int|
                            0 <= j < mid.segments@.len() ==> self.segments@[j] == mid.segments@[
                                j
                            ]);
                        assert(segs_chained(self.segments@, self.config)) by {
                            assert forall|j: int|
                                0 <= j < self.segments@.len() implies #[trigger] self.segments@[
                                j
                            ].wf() && self.segments@[j].config == self.config by {
                                if j < self.segments@.len() - 1 {
                                    assert(mid.segments@[j].wf());
                                    assert(mid.segments@[j].config == self.config);
                                }
                            }
                            assert forall|j: int|
                                0 <= j < self.segments@.len() - 1 implies (#[trigger] self
                                .segments@[j].next_offset) == self.segments@[j + 1].base_offset by {
                                if j < mid.segments@.len() - 1 {
                                    assert(mid.segments@[j].next_offset == mid.segments@[
                                        j + 1
                                    ].base_offset);
                                }
                            }
                        }
                        assert forall|k: u64| mid.has_offset(k) implies self.has_offset(k)
                            && self.record_at(k) == mid.record_at(k) by {
                            assert(a1.records().is_prefix_of(a1.records())) by {
                                assert(a1.records() =~= a1.records().take(
                                    a1.records().len() as int,
                                ));
                            }
                            lemma_records_preserved(mid.segments@, self.segments@, self.config, k);
                        }
                    }
                }
                proof {
                    let ks = pre.next();
                    let li = mid.segments@.len() - 1;
                    assert(mid.segments@[li] == a1);
                    assert forall|j: int| 0 <= j < li implies ks >= (#[trigger] self.segments@[
                        j
                    ].next_offset) by {
                        lemma_ranges_ordered(pre.segments@, pre.config, j, li);
                        assert(pre.segments@[li].wf());
                        assert(self.segments@[j] == pre.segments@[j]);
                    }
                    lemma_seg_index_char(self.segments@, ks, li);
                    assert(self.record_at(ks) == old(record).value@);
                    assert(self.has_offset(ks)) by {
                        assert(pre.segments@[0].wf());
                        if li > 0 {
                            lemma_ranges_ordered(pre.segments@, pre.config, 0, li);
                        }
                        assert(a1.base_offset == a0.base_offset);
                    }
                }
                Ok(off)
            },
            Err(e) => {
                proof {
                    assert(self.next() == pre.next());
                    assert(e == LogError::IndexFull);
                }
                Err(e)
            },
        }
    }

    /// Read the record at offset `off`: the first segment whose range
    /// covers it serves the read.  Fails with `OutOfRange`, the only way it
    /// fails, exactly when no segment covers `off`.
    pub fn read(&self, off: u64) -> (r: Result<Record, LogError>)
        requires
            self.wf(),
        ensures
            self.has_offset(off) ==> (r matches Ok(rec) && rec.value@ == self.record_at(off)
                && rec.offset == off),
            !self.has_offset(off) ==> r == Err::<Record, LogError>(LogError::OutOfRange),
    {
        let n = self.segments.len();
        if n == 0 {
            return Err(LogError::OutOfRange);
        }
        if off < self.segments[0].base_offset {
            return Err(LogError::OutOfRange);
        }
        let mut i: usize = 0;
        while i < n
            invariant_except_break
                n == self.segments@.len(),
                i <= n,
                forall|j: int|
                    0 <= j < i ==> off >= (#[trigger] self.segments@[j].next_offset),
            ensures
                i <= n,
                n == self.segments@.len(),
                forall|j: int|
                    0 <= j < i ==> off >= (#[trigger] self.segments@[j].next_offset),
                i < n ==> off < self.segments@[i as int].next_offset,
            decreases n - i,
        {
            if off < self.segments[i].next_offset {
                break ;
            }
            i = i + 1;
        }
        if i == n {
            assert(!self.has_offset(off));
            return Err(LogError::OutOfRange);
        }
        proof {
            assert(self.segments@[i as int].base_offset <= off) by {
                if i > 0 {
                    assert(off >= self.segments@[i - 1].next_offset);
                    assert(self.segments@[i - 1].next_offset == self.segments@[
                        i as int
                    ].base_offset);
                }
            }
            lemma_seg_index_char(self.segments@, off, i as int);
            assert(self.segments@[i as int].wf());
            assert(self.has_offset(off)) by {
                if i < n - 1 {
                    lemma_ranges_ordered(self.segments@, self.config, i as int, n - 1);
                    assert(self.segments@[n - 1].wf());
                }
            }
        }
        self.segments[i].read(off)
    }

    /// Remove from the front every segment that holds no offset strictly
    /// above `lowest`: exactly those whose `next_offset` is at most
    /// `lowest + 1`.  Removal is by whole segments; a segment that spans
    /// `lowest` keeps its older records too, and every retained offset
    /// still reads the same record, while every removed offset now falls
    /// out of range.  Returns the base offsets of the removed segments,
    /// whose two files the caller deletes from the directory.  Removing
    /// every segment leaves an empty log: every offset is then out of
    /// range, the offset accessors answer `Empty`, and appends are barred.
    pub fn truncate(&mut self, lowest: u64) -> (removed: Vec<u64>)
        requires
            old(self).wf(),
            lowest < u64::MAX,
        ensures
            final(self).wf(),
            final(self).config == old(self).config,
            removed@.len() <= old(self).segments@.len(),
            final(self).segments@ == old(self).segments@.skip(removed@.len() as int),
            forall|i: int|
                0 <= i < old(self).segments@.len() ==> (((#[trigger] old(self).segments@[
                i
                ].next_offset) <= lowest + 1) <==> i < removed@.len()),
            forall|i: int|
                0 <= i < removed@.len() ==> (#[trigger] removed@[i]) == old(self).segments@[
                i
                ].base_offset,
            forall|k: u64|
                #[trigger] final(self).has_offset(k) ==> old(self).has_offset(k)
                    && final(self).record_at(k) == old(self).record_at(k),
            final(self).segments@.len() > 0 ==> {
                &&& final(self).next() == old(self).next()
                &&& final(self).lowest() >= old(self).lowest()
                &&& forall|k: u64|
                    #[trigger] final(self).has_offset(k) <==> (old(self).has_offset(k) && k
                        >= final(self).lowest())
            },
    {
        let ghost pre = *self;
        let mut removed: Vec<u64> = Vec::new();
        while self.segments.len() > 0 && self.segments[0].next_offset <= lowest + 1
            invariant
                lowest < u64::MAX,
                removed@.len() <= pre.segments@.len(),
                self.segments@ == pre.segments@.skip(removed@.len() as int),
                self.config == pre.config,
                forall|i: int|
                    0 <= i < removed@.len() ==> (#[trigger] pre.segments@[i].next_offset) <= lowest
                        + 1,
                forall|i: int|
                    0 <= i < removed@.len() ==> (#[trigger] removed@[i]) == pre.segments@[
                    i
                    ].base_offset,
            decreases self.segments@.len(),
        {
            let ghost k = removed@.len() as int;
            proof {
                assert(self.segments@[0] == pre.segments@[k]);
            }
            let s = self.segments.remove(0);
            removed.push(s.base_offset);
            proof {
                assert(self.segments@ =~= pre.segments@.skip(removed@.len() as int));
            }
        }
        proof {
            let k = removed@.len() as int;
            let n = pre.segments@.len() as int;
            assert(pre.wf());
            assert forall|i: int|
                0 <= i < n implies (((#[trigger] pre.segments@[i].next_offset) <= lowest + 1) <==> i
                < k) by {
                if i >= k {
                    assert(k < n);
                    assert(self.segments@[0] == pre.segments@[k]);
                    assert(pre.segments@[k].next_offset > lowest + 1);
                    if i > k {
                        lemma_ranges_ordered(pre.segments@, pre.config, k, i);
                        assert(pre.segments@[i].wf());
                    }
                }
            }
            if k < n {
                assert(segs_chained(self.segments@, self.config)) by {
                    assert forall|j: int|
                        0 <= j < self.segments@.len() implies #[trigger] self.segments@[j].wf()
                        && self.segments@[j].config == self.config by {
                        assert(pre.segments@[j + k].wf());
                        assert(pre.segments@[j + k].config == pre.config);
                    }
                    assert forall|j: int|
                        0 <= j < self.segments@.len() - 1 implies (#[trigger] self.segments@[
                        j
                    ].next_offset) == self.segments@[j + 1].base_offset by {
                        assert(pre.segments@[j + k].next_offset == pre.segments@[
                            j + k + 1
                        ].base_offset);
                    }
                }
                assert(self.segments@[self.segments@.len() - 1] == pre.segments@[n - 1]);
                assert(self.lowest() >= pre.lowest()) by {
                    if k > 0 {
                        lemma_ranges_ordered(pre.segments@, pre.config, 0, k);
                        assert(pre.segments@[0].wf());
                    }
                }
                assert forall|k2: u64| pre.has_offset(k2) && k2 >= self.lowest() implies
                    #[trigger] self.has_offset(k2) && self.record_at(k2) == pre.record_at(
                    k2,
                ) by {
                    lemma_seg_index_covers(pre.segments@, pre.config, k2);
                    let i = seg_index_in(pre.segments@, k2);
                    assert(i >= k) by {
                        if i < k {
                            assert(pre.segments@[i].next_offset <= lowest + 1);
                            assert(pre.segments@[k].base_offset >= pre.segments@[
                                i
                            ].next_offset) by {
                                if i + 1 < k {
                                    lemma_ranges_ordered(pre.segments@, pre.config, i, k);
                                } else {
                                    assert(pre.segments@[i].next_offset == pre.segments@[
                                        k
                                    ].base_offset);
                                }
                            }
                            assert(k2 < pre.segments@[k].base_offset);
                            assert(false);
                        }
                    }
                    assert forall|j: int|
                        0 <= j < i - k implies k2 >= (#[trigger] self.segments@[
                        j
                    ].next_offset) by {
                        assert(self.segments@[j] == pre.segments@[j + k]);
                        assert(k2 >= pre.segments@[j + k].next_offset);
                    }
                    assert(self.segments@[i - k] == pre.segments@[i]);
                    lemma_seg_index_char(self.segments@, k2, i - k);
                }
            }
        }
        removed
    }

    /// The files of every segment as a clean close writes them back, in
    /// segment order: each store's bytes, and each index file truncated to
    /// its written entries.  What close leaves is valid for recovery, so
    /// reopening it rebuilds this log (`lemma_close_reopen`).
    pub fn close(&self) -> (files: Vec<SegmentFiles>)
        requires
            self.wf(),
        ensures
            files@.len() == self.segments@.len(),
            forall|i: int|
                0 <= i < files@.len() ==> segment_matches_files(
                    self.segments@[i],
                    #[trigger] files@[i],
                ),
            recovery_valid(files@, self.config),
    {
        let mut files: Vec<SegmentFiles> = Vec::new();
        let n = self.segments.len();
        let mut i: usize = 0;
        while i < n
            invariant
                self.wf(),
                n == self.segments@.len(),
                i <= n,
                files@.len() == i,
                forall|j: int|
                    0 <= j < i ==> segment_matches_files(self.segments@[j], #[trigger] files@[j]),
                forall|j: int|
                    0 <= j < i ==> recoverable(
                        (#[trigger] files@[j]).base_offset,
                        files@[j].store_bytes@,
                        files@[j].index_bytes@,
                        self.config,
                    ),
            decreases n - i,
        {
            proof {
                assert(self.segments@[i as int].wf());
                assert(self.segments@[i as int].config == self.config);
            }
            let f = self.segments[i].close();
            files.push(f);
            i = i + 1;
        }
        proof {
            assert(self.config.effective() == self.config);
            assert forall|j: int| 0 <= j < files@.len() - 1 implies (#[trigger] files@[
                j
            ].base_offset) + file_entry_count(files@[j].index_bytes@) == files@[
                j + 1
            ].base_offset by {
                assert(self.segments@[j].wf());
                assert(self.segments@[j].next_offset == self.segments@[j + 1].base_offset);
            }
        }
        files
    }

    /// A bulk reader over the whole log: every segment's store, front to
    /// back in base-offset order, as one byte stream that is oblivious to
    /// frame boundaries.  Each store is snapshotted as a positional read
    /// through it would see it, with every buffered write applied.
    pub fn reader(&self) -> (mr: MultiReader)
        requires
            self.wf(),
        ensures
            mr.wf(),
            mr.remaining() == stores_concat(self.segments@),
    {
        let mut mr = MultiReader::default();
        let n = self.segments.len();
        let mut i: usize = 0;
        proof {
            assert(mr.remaining() =~= stores_concat(self.segments@.take(0)));
        }
        while i < n
            invariant
                self.wf(),
                n == self.segments@.len(),
                i <= n,
                mr.wf(),
                mr.remaining() == stores_concat(self.segments@.take(i as int)),
            decreases n - i,
        {
            proof {
                assert(self.segments@[i as int].wf());
            }
            let data = self.segments[i].store.close();
            let r = StoreReader::new(data);
            mr.push_back(r);
            proof {
                lemma_stores_concat_push(self.segments@.take(i as int), self.segments@[i as int]);
                assert(self.segments@.take(i + 1) =~= self.segments@.take(i as int).push(
                    self.segments@[i as int],
                ));
            }
            i = i + 1;
        }
        proof {
            assert(self.segments@.take(n as int) =~= self.segments@);
        }
        mr
    }
}

/// The offsets are dense: a well-formed log holds exactly one record per
/// offset of its span, so `highest_offset() - lowest_offset() + 1` equals
/// the total record count whenever at least one record exists — and since
/// appends assign consecutive offsets, that count is the number of appends
/// a log that started empty has taken.
pub proof fn lemma_span_counts_records(log: Log)
    requires
        log.wf(),
        log.segments@.len() > 0,
    ensures
        log.next() - log.lowest() == total_records(log.segments@),
{
    lemma_span_is_total(log.segments@, log.config);
}

/// Closing a log and reopening it over the files close wrote back rebuilds
/// the same log: the lowest and highest offsets are preserved, and every
/// offset in range reads the same record as before.  The requires are the
/// postconditions of `Log::close` on `log1` and of `Log::new` on `log2`,
/// fed with the same files.
pub proof fn lemma_close_reopen(log1: Log, files: Seq<SegmentFiles>, log2: Log)
    requires
        log1.wf(),
        log2.wf(),
        files.len() > 0,
        files.len() == log1.segments@.len(),
        forall|i: int|
            0 <= i < files.len() ==> segment_matches_files(log1.segments@[i], #[trigger] files[i]),
        log2.segments@.len() == files.len(),
        forall|i: int|
            0 <= i < files.len() ==> segment_matches_files(
                #[trigger] log2.segments@[i],
                files[i],
            ),
    ensures
        log2.lowest() == log1.lowest(),
        log2.next() == log1.next(),
        forall|k: u64| log2.has_offset(k) <==> log1.has_offset(k),
        forall|k: u64| #[trigger] log1.has_offset(k) ==> log2.record_at(k) == log1.record_at(k),
{
    let n = files.len() as int;
    assert forall|i: int| 0 <= i < n implies (#[trigger] log2.segments@[i].base_offset) == log1
        .segments@[i].base_offset && log2.segments@[i].next_offset
        == log1.segments@[i].next_offset && log2.segments@[i].records() == log1.segments@[
        i
    ].records() by {
        assert(segment_matches_files(log1.segments@[i], files[i]));
        assert(segment_matches_files(log2.segments@[i], files[i]));
        assert(log2.segments@[i].records() =~= log1.segments@[i].records());
    }
    assert forall|k: u64| #[trigger] log1.has_offset(k) implies log2.has_offset(k) && log2
        .record_at(k) == log1.record_at(k) by {
        lemma_seg_index_covers(log1.segments@, log1.config, k);
        let i = seg_index_in(log1.segments@, k);
        assert forall|j: int| 0 <= j < i implies k >= (#[trigger] log2.segments@[
            j
        ].next_offset) by {
            assert(k >= log1.segments@[j].next_offset);
        }
        lemma_seg_index_char(log2.segments@, k, i);
    }
}

} // verus!
