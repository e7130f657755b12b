//! The store: an append-only byte stream of length-prefixed record frames,
//! with positional random reads.
//!
//! The file-backed engine appends through a buffered writer and flushes it
//! before every positional read, so a flush never changes what a read
//! returns.  The model therefore keeps the store as one byte string: the
//! bytes of the store file with every buffered write already applied.

use vstd::prelude::*;
use vstd::bytes::{
    lemma_auto_spec_u64_to_from_le_bytes, spec_u64_from_le_bytes, spec_u64_to_le_bytes,
    u64_from_le_bytes, u64_to_le_bytes,
};
use vstd::slice::{slice_subrange, slice_to_vec};
use crate::error::LogError;

verus! {

/// Width in bytes of the little-endian length prefix in front of each record.
pub const LEN_WIDTH: u64 = 8;

/// The bytes a payload occupies in a store: an 8-byte little-endian length,
/// then the payload itself.
pub open spec fn frame(payload: Seq<u8>) -> Seq<u8> {
    spec_u64_to_le_bytes(payload.len() as u64) + payload
}

/// The length prefix of the frame at byte position `pos`; meaningful when
/// the 8 prefix bytes lie within `data`.
pub open spec fn frame_len(data: Seq<u8>, pos: int) -> u64 {
    spec_u64_from_le_bytes(data.subrange(pos, pos + LEN_WIDTH))
}

/// Whether `data` holds a complete frame at byte position `pos`: the length
/// prefix is in bounds, and so are the `frame_len` payload bytes after it.
pub open spec fn frame_valid(data: Seq<u8>, pos: int) -> bool {
    &&& 0 <= pos
    &&& pos + LEN_WIDTH <= data.len()
    &&& pos + LEN_WIDTH + frame_len(data, pos) <= data.len()
}

/// The payload of the frame at byte position `pos`; meaningful when
/// `frame_valid(data, pos)`.
pub open spec fn frame_payload(data: Seq<u8>, pos: int) -> Seq<u8> {
    data.subrange(pos + LEN_WIDTH, pos + LEN_WIDTH + frame_len(data, pos))
}

/// Extending a store leaves every frame already in it unchanged.
pub proof fn lemma_frame_extend(data: Seq<u8>, ext: Seq<u8>, pos: int)
    requires
        frame_valid(data, pos),
    ensures
        frame_valid(data + ext, pos),
        frame_len(data + ext, pos) == frame_len(data, pos),
        frame_payload(data + ext, pos) == frame_payload(data, pos),
{
    assert((data + ext).subrange(pos, pos + LEN_WIDTH) =~= data.subrange(pos, pos + LEN_WIDTH));
    assert((data + ext).subrange(pos + LEN_WIDTH, pos + LEN_WIDTH + frame_len(data, pos))
        =~= data.subrange(pos + LEN_WIDTH, pos + LEN_WIDTH + frame_len(data, pos)));
}

/// Round trip of a single frame: the frame a payload was encoded into, laid
/// down at the end of a store, reads back as exactly that payload.
pub proof fn lemma_frame_roundtrip(data: Seq<u8>, payload: Seq<u8>)
    requires
        payload.len() <= u64::MAX,
    ensures
        frame_valid(data + frame(payload), data.len() as int),
        frame_len(data + frame(payload), data.len() as int) == payload.len(),
        frame_payload(data + frame(payload), data.len() as int) == payload,
{
    lemma_auto_spec_u64_to_from_le_bytes();
    let d2 = data + frame(payload);
    let pos = data.len() as int;
    assert(d2.subrange(pos, pos + LEN_WIDTH) =~= spec_u64_to_le_bytes(payload.len() as u64));
    assert(frame_len(d2, pos) == payload.len() as u64);
    assert(d2.subrange(pos + LEN_WIDTH, pos + LEN_WIDTH + payload.len() as int) =~= payload);
}

/// Append the elements of `src` to `dst`, in order.
pub(crate) fn push_all(dst: &mut Vec<u8>, src: &Vec<u8>)
    ensures
        final(dst)@ == old(dst)@ + src@,
{
    let mut i: usize = 0;
    while i < src.len()
        invariant
            i <= src@.len(),
            dst@ == old(dst)@ + src@.subrange(0, i as int),
        decreases src@.len() - i,
    {
        dst.push(src[i]);
        assert(old(dst)@ + src@.subrange(0, i + 1) =~= (old(dst)@ + src@.subrange(0, i as int)).push(
            src@[i as int],
        ));
        i = i + 1;
    }
    assert(src@.subrange(0, src@.len() as int) =~= src@);
}

/// A durable, append-only byte stream with positional random reads.
pub struct Store {
    /// The store's bytes: the file's contents with every buffered write
    /// already applied.
    pub data: Vec<u8>,
    /// Total bytes written; cached, always equal to `data.len()`.
    pub size: u64,
}

impl View for Store {
    type V = Seq<u8>;

    open spec fn view(&self) -> Seq<u8> {
        self.data@
    }
}

impl Store {
    /// The cached size agrees with the bytes held.
    pub open spec fn wf(self) -> bool {
        self.size == self.data@.len()
    }

    /// Open a store over the current contents of its file.
    pub fn new(file: Vec<u8>) -> (s: Store)
        ensures
            s.wf(),
            s@ == file@,
    {
        let size: u64 = file.len() as u64;
        Store { data: file, size }
    }

    /// Append one payload as a frame.  Returns the frame's width
    /// (`LEN_WIDTH + payload length`) and the byte position the frame starts
    /// at.
    pub fn append(&mut self, p: &Vec<u8>) -> (r: Result<(u64, u64), LogError>)
        requires
            old(self).wf(),
            old(self)@.len() + LEN_WIDTH + p@.len() <= u64::MAX,
        ensures
            final(self).wf(),
            final(self)@ == old(self)@ + frame(p@),
            r matches Ok(wp) && wp.0 == LEN_WIDTH + p@.len() && wp.1 == old(self)@.len(),
    {
        let pos = self.size;
        let len_bytes = u64_to_le_bytes(p.len() as u64);
        push_all(&mut self.data, &len_bytes);
        push_all(&mut self.data, p);
        assert(self.data@ =~= old(self)@ + frame(p@));
        let w = LEN_WIDTH + p.len() as u64;
        self.size = self.size + w;
        Ok((w, pos))
    }

    /// Read back the payload of the frame at byte position `pos`: the
    /// 8-byte length prefix first, then that many payload bytes.  Fails at
    /// end of store when either read would run past the bytes written.
    pub fn read(&self, pos: u64) -> (r: Result<Vec<u8>, LogError>)
        requires
            self.wf(),
        ensures
            frame_valid(self@, pos as int) ==> (r matches Ok(p) && p@ == frame_payload(
                self@,
                pos as int,
            )),
            !frame_valid(self@, pos as int) ==> r == Err::<Vec<u8>, LogError>(LogError::Eof),
    {
        let dlen = self.data.len();
        if self.size < LEN_WIDTH || pos > self.size - LEN_WIDTH {
            return Err(LogError::Eof);
        }
        assert(pos + LEN_WIDTH <= dlen);
        let start = pos as usize;
        let hdr = slice_subrange(self.data.as_slice(), start, start + (LEN_WIDTH as usize));
        let len = u64_from_le_bytes(hdr);
        assert(len == frame_len(self@, pos as int));
        if len > self.size - pos - LEN_WIDTH {
            return Err(LogError::Eof);
        }
        let n = len as usize;
        let body = slice_subrange(
            self.data.as_slice(),
            start + (LEN_WIDTH as usize),
            start + (LEN_WIDTH as usize) + n,
        );
        Ok(slice_to_vec(body))
    }

    /// Read up to `n` bytes starting at byte position `pos`; short, possibly
    /// empty, at end of store.  Bulk sequential readers use this; it is
    /// oblivious to frame boundaries.
    pub fn read_at(&self, pos: u64, n: usize) -> (r: Result<Vec<u8>, LogError>)
        requires
            self.wf(),
        ensures
            r matches Ok(b) && b@ == read_at_spec(self@, pos, n),
    {
        if pos >= self.size {
            return Ok(Vec::new());
        }
        let start = pos as usize;
        let end = if n > self.data.len() - start {
            self.data.len()
        } else {
            start + n
        };
        Ok(slice_to_vec(slice_subrange(self.data.as_slice(), start, end)))
    }

    /// The bytes the store file holds once the store is closed.  Closing the
    /// file-backed store only flushes its buffered writer, which this model
    /// keeps transparent, so the file holds exactly the store's bytes.
    pub fn close(&self) -> (file: Vec<u8>)
        requires
            self.wf(),
        ensures
            file@ == self@,
    {
        slice_to_vec(self.data.as_slice())
    }

    /// Total bytes written.
    pub fn size(&self) -> (n: u64)
        requires
            self.wf(),
        ensures
            n == self@.len(),
    {
        self.size
    }
}

/// What `read_at` returns: the bytes from `pos` to the end of the store,
/// capped at `n` of them.
pub open spec fn read_at_spec(data: Seq<u8>, pos: u64, n: usize) -> Seq<u8> {
    if pos >= data.len() {
        Seq::empty()
    } else if pos + n <= data.len() {
        data.subrange(pos as int, pos + n)
    } else {
        data.subrange(pos as int, data.len() as int)
    }
}

} // verus!
