//! The read engine's decision core and its stream model.
//!
//! Archive entries can only be decoded forward from their start, so every
//! open handle owns at most one live forward stream.  The engine never pulls
//! bytes itself: for each request it decides whether the existing stream can
//! continue or a fresh one must be opened, and how many decoded bytes to
//! discard and to hand out.  The spec-level model in this module states what
//! a conforming forward stream returns for every plan, and the lemmas prove
//! the read laws over that model.

use vstd::prelude::*;
use crate::types::SourceRef;

verus! {

/// Per-handle decode state: how far the handle's stream has been consumed in
/// terms of requested offsets, and which entry the stream reads from.
#[derive(Clone, Copy, Debug, PartialEq, Eq, Structural)]
pub struct OpenedArchive {
    pub offset: u64,
    pub source: SourceRef,
}

/// What the caller must do to serve one read request.
#[derive(Clone, Copy, Debug, PartialEq, Eq, Structural)]
pub enum ReadAction {
    /// The inode does not resolve to a file and no stream can serve it.
    NotFound,
    /// Keep the handle's live stream: discard `skip` decoded bytes, then
    /// hand out up to `take` bytes.
    Continue { skip: u64, take: u64 },
    /// Drop any stream the handle holds, open `source` from its start,
    /// discard `skip` decoded bytes, then hand out up to `take` bytes.
    Reopen { source: SourceRef, skip: u64, take: u64 },
}

impl OpenedArchive {
    /// Fresh decode state for one entry: nothing consumed yet.
    pub fn open(source: &SourceRef) -> (r: Self)
        ensures
            r.offset == 0,
            r.source == *source,
    {
        OpenedArchive { offset: 0, source: *source }
    }

    /// A request at `offset` can reuse this state only if it does not seek
    /// backward relative to what the stream has already consumed.
    pub fn is_viable(&self, offset: u64) -> (r: bool)
        ensures
            r == (offset >= self.offset),
    {
        offset >= self.offset
    }

    /// Plans one forward read on this state: how many decoded bytes to
    /// discard before taking `size`, and advances the consumed position to
    /// the end of the requested window.
    pub fn consume(&mut self, offset: u64, size: u32) -> (skip: u64)
        requires
            offset >= old(self).offset,
            offset + size <= u64::MAX,
        ensures
            skip == offset - old(self).offset,
            final(self).offset == offset + size,
            final(self).source == old(self).source,
    {
        let skip = offset - self.offset;
        self.offset = offset + size as u64;
        skip
    }
}

/// The smaller of two mathematical integers.
pub open spec fn min_i(a: int, b: int) -> int {
    if a < b {
        a
    } else {
        b
    }
}

/// The bytes a read of `size` bytes at `offset` must return from an entry
/// whose full decoded content is `content`: the requested window clipped to
/// the end of the content.
pub open spec fn window(content: Seq<u8>, offset: int, size: int) -> Seq<u8>
    recommends
        0 <= offset,
        0 <= size,
{
    content.subrange(
        min_i(offset, content.len() as int),
        min_i(offset + size, content.len() as int),
    )
}

/// The bytes a forward stream yields when, having already consumed `pos`
/// decoded bytes, it discards `skip` more and then takes up to `take`.
pub open spec fn stream_bytes(content: Seq<u8>, pos: int, skip: int, take: int) -> Seq<u8>
    recommends
        0 <= pos,
        0 <= skip,
        0 <= take,
{
    let start = min_i(pos + skip, content.len() as int);
    content.subrange(start, min_i(start + take, content.len() as int))
}

/// The stream's consumed position after the same plan.
pub open spec fn stream_next(content: Seq<u8>, pos: int, skip: int, take: int) -> int {
    min_i(min_i(pos + skip, content.len() as int) + take, content.len() as int)
}

/// Spec-level image of one handle's state: the recorded consumed offset
/// (requested offset plus requested length of the last read) and the number
/// of decoded bytes the live stream has actually consumed.
pub struct StreamModel {
    pub recorded: int,
    pub pos: int,
}

/// A live stream is in step with its recorded offset when it has consumed
/// exactly the recorded count, clipped to the end of the content: short
/// reads at end of file leave the recorded offset past what the stream
/// could consume.
pub open spec fn synced(content: Seq<u8>, s: StreamModel) -> bool {
    0 <= s.recorded && s.pos == min_i(s.recorded, content.len() as int)
}

/// One read step of the engine over the model: a viable forward request
/// continues the live stream; a backward request, or a handle without
/// state, decodes the entry from its start.  Returns the bytes handed out
/// and the new handle state.
pub open spec fn model_read(
    content: Seq<u8>,
    st: Option<StreamModel>,
    offset: int,
    size: int,
) -> (Seq<u8>, StreamModel) {
    match st {
        Some(s) => if offset >= s.recorded {
            (
                stream_bytes(content, s.pos, offset - s.recorded, size),
                StreamModel {
                    recorded: offset + size,
                    pos: stream_next(content, s.pos, offset - s.recorded, size),
                },
            )
        } else {
            (
                stream_bytes(content, 0, offset, size),
                StreamModel { recorded: offset + size, pos: stream_next(content, 0, offset, size) },
            )
        },
        None => (
            stream_bytes(content, 0, offset, size),
            StreamModel { recorded: offset + size, pos: stream_next(content, 0, offset, size) },
        ),
    }
}

/// Every read from a handle whose stream is in step (or that has no stream
/// yet) returns exactly the requested window of the entry's content, and
/// leaves the stream in step again.  This is the engine's central
/// correctness statement: the skip/take consumption model never loses or
/// repeats bytes.
pub proof fn lemma_read_returns_window(
    content: Seq<u8>,
    st: Option<StreamModel>,
    offset: int,
    size: int,
)
    requires
        0 <= offset,
        0 <= size,
        st matches Some(s) ==> synced(content, s),
    ensures
        model_read(content, st, offset, size).0 == window(content, offset, size),
        synced(content, model_read(content, st, offset, size).1),
        model_read(content, st, offset, size).1.recorded == offset + size,
{
    let l = content.len() as int;
    match st {
        Some(s) => {
            if offset >= s.recorded {
                assert(min_i(s.pos + (offset - s.recorded), l) == min_i(offset, l));
                assert(model_read(content, st, offset, size).0 =~= window(content, offset, size));
            } else {
                assert(model_read(content, st, offset, size).0 =~= window(content, offset, size));
            }
        },
        None => {
            assert(model_read(content, st, offset, size).0 =~= window(content, offset, size));
        },
    }
}

/// Forward split law: reading `[offset, offset+a)` and then
/// `[offset+a, offset+a+b)` on the same handle yields, concatenated, the
/// same bytes as a single read of `[offset, offset+a+b)` on a handle
/// without state.
pub proof fn lemma_forward_reads_compose(
    content: Seq<u8>,
    st: Option<StreamModel>,
    offset: int,
    a: int,
    b: int,
)
    requires
        0 <= offset,
        0 <= a,
        0 <= b,
        st matches Some(s) ==> synced(content, s),
    ensures
        ({
            let first = model_read(content, st, offset, a);
            let second = model_read(content, Some(first.1), offset + a, b);
            first.0 + second.0 == model_read(content, None, offset, a + b).0
        }),
{
    let l = content.len() as int;
    let first = model_read(content, st, offset, a);
    let second = model_read(content, Some(first.1), offset + a, b);
    lemma_read_returns_window(content, st, offset, a);
    lemma_read_returns_window(content, Some(first.1), offset + a, b);
    lemma_read_returns_window(content, None, offset, a + b);
    let x = min_i(offset, l);
    let y = min_i(offset + a, l);
    let z = min_i(offset + a + b, l);
    assert(window(content, offset, a) + window(content, offset + a, b) =~= content.subrange(
        x,
        z,
    ));
    assert(window(content, offset, a + b) == content.subrange(x, z));
}

/// Backward-seek law: a request that seeks backward relative to the
/// handle's consumed offset returns exactly what the same request returns
/// on a handle without state — the live stream is discarded and the entry
/// is decoded again from its start.
pub proof fn lemma_backward_seek_reads_fresh(
    content: Seq<u8>,
    s: StreamModel,
    offset: int,
    size: int,
)
    requires
        0 <= offset,
        0 <= size,
        offset < s.recorded,
    ensures
        model_read(content, Some(s), offset, size) == model_read(content, None, offset, size),
{
}

/// End-of-file law: a read at or past the end of the content returns no
/// bytes, and a read whose window crosses the end returns exactly the bytes
/// up to the end.
pub proof fn lemma_end_of_file(content: Seq<u8>, st: Option<StreamModel>, offset: int, size: int)
    requires
        0 <= offset,
        0 <= size,
        st matches Some(s) ==> synced(content, s),
    ensures
        offset >= content.len() ==> model_read(content, st, offset, size).0 == Seq::<u8>::empty(),
        offset + size >= content.len() && offset <= content.len() ==> model_read(
            content,
            st,
            offset,
            size,
        ).0 == content.subrange(offset, content.len() as int),
{
    lemma_read_returns_window(content, st, offset, size);
    if offset >= content.len() {
        assert(window(content, offset, size) =~= Seq::<u8>::empty());
    }
    if offset + size >= content.len() && offset <= content.len() {
        assert(window(content, offset, size) =~= content.subrange(
            offset,
            content.len() as int,
        ));
    }
}

/// Release law, model side: a handle whose state has been dropped reads
/// exactly as a handle that never had state — `None` is the state both of a
/// released and of a freshly opened handle, so the next read builds fresh
/// state rather than continuing a stale stream.
pub proof fn lemma_released_reads_fresh(content: Seq<u8>, offset: int, size: int)
    requires
        0 <= offset,
        0 <= size,
    ensures
        model_read(content, None, offset, size) == model_read(
            content,
            Some(StreamModel { recorded: 0, pos: 0 }),
            offset,
            size,
        ),
{
}

/// Executable mirror of one conforming forward stream, decoding from an
/// in-memory copy of an entry's content.  It is what the engine's plans are
/// proved against, and it lets the whole read path run without any archive.
pub struct MemStream {
    pub content: Vec<u8>,
    pub pos: usize,
}

impl MemStream {
    /// A stream at the start of `content`.
    pub fn start(content: Vec<u8>) -> (r: Self)
        ensures
            r.content@ == content@,
            r.pos == 0,
    {
        MemStream { content, pos: 0 }
    }

    /// Discards `skip` decoded bytes, then returns up to `take` bytes,
    /// exactly as the stream model says.
    pub fn pull(&mut self, skip: u64, take: u64) -> (r: Vec<u8>)
        requires
            old(self).pos <= old(self).content@.len(),
        ensures
            r@ == stream_bytes(old(self).content@, old(self).pos as int, skip as int, take as int),
            final(self).content@ == old(self).content@,
            final(self).pos == stream_next(
                old(self).content@,
                old(self).pos as int,
                skip as int,
                take as int,
            ),
    {
        let len = self.content.len();
        let start = if skip < (len - self.pos) as u64 {
            self.pos + skip as usize
        } else {
            len
        };
        let end = if take < (len - start) as u64 {
            start + take as usize
        } else {
            len
        };
        let mut out: Vec<u8> = Vec::new();
        let mut i: usize = start;
        while i < end
            invariant
                start <= i <= end <= self.content@.len(),
                self.content@ == old(self).content@,
                self.pos == old(self).pos,
                out@ == self.content@.subrange(start as int, i as int),
            decreases end - i,
        {
            let b = self.content[i];
            out.push(b);
            assert(out@ =~= self.content@.subrange(start as int, i + 1));
            i += 1;
        }
        self.pos = end;
        assert(start as int == min_i(old(self).pos + skip, old(self).content@.len() as int));
        assert(end as int == min_i(start + take, old(self).content@.len() as int));
        assert(out@ =~= stream_bytes(
            old(self).content@,
            old(self).pos as int,
            skip as int,
            take as int,
        ));
        out
    }
}

} // verus!
