use vstd::prelude::*;
use crate::error::ErrorCode;
use crate::frame::{Frame, FrameView};
use crate::store::{
    Segment, StreamEntry, Store, BLOCK_HEADER_SIZE, FRAME_HEADER_SIZE, block_size_valid,
    max_row_size, segments_frames, chain_ok, precedes, lemma_frames_push,
    lemma_frames_view_push, lemma_frames_drop_first, pool_ok, block_table, blocks_in,
    lemma_pool_add_stream, lemma_pool_take_free, lemma_pool_reuse_first, lemma_pool_release,
};

verus! {

broadcast use vstd::seq_lib::group_seq_properties;

/// A handle tying writes to one stream of a writer's catalog.
pub struct WriteContext {
    stream: usize,
}

impl WriteContext {
    /// The position of the stream in the catalog.
    pub closed spec fn index(&self) -> int {
        self.stream as int
    }
}

/// The append side of a store: registers streams, appends frames and
/// reclaims blocks. With auto-reclaim on, a stream that needs a block while
/// the pool is exhausted takes back the block of its own oldest segment.
pub struct Writer {
    store: Store,
    auto_reclaim: bool,
}

/// Whether `e` is the catalog entry of a freshly registered stream.
pub open spec fn fresh_stream(e: StreamEntry, tag: Seq<char>, metadata: Seq<char>) -> bool {
    &&& e.tag@ == tag
    &&& e.metadata@ == metadata
    &&& e.segments@.len() == 0
    &&& !e.open
    &&& e.last_timestamp == i64::MIN
    &&& e.next_sequence == 1
}

/// Whether two stores have the same pool and counters.
pub open spec fn same_pool(a: Store, b: Store) -> bool {
    &&& a.block_size == b.block_size
    &&& a.n_blocks == b.n_blocks
    &&& a.free@ == b.free@
    &&& a.next_segment_id == b.next_segment_id
}

/// Whether a frame with a payload of `len` bytes needs a new block in stream `s`.
pub open spec fn needs_block(s: StreamEntry, len: int, block_size: u32) -> bool {
    !(s.open && s.segments@.last().fits(len, block_size))
}

/// Whether appending to stream `c` takes back the stream's oldest block.
pub open spec fn reclaims(w: Store, c: int, len: int) -> bool {
    needs_block(w.streams@[c], len, w.block_size) && w.free@.len() == 0
}

/// The error that a write of `len` bytes at `ts` to stream `c` fails with,
/// checked in this order, or `None` when it succeeds.
pub open spec fn write_error(w: Store, auto: bool, c: int, len: int, ts: i64) -> Option<ErrorCode> {
    if !(0 <= c < w.streams@.len()) {
        Some(ErrorCode::InvalidArgument)
    } else if len > max_row_size(w.block_size) {
        Some(ErrorCode::RowSizeTooBig)
    } else if ts < w.streams@[c].last_timestamp {
        Some(ErrorCode::NonMonotonicTimestamp)
    } else if needs_block(w.streams@[c], len, w.block_size) && (w.streams@[c].next_sequence
        == i64::MAX || w.next_segment_id == i64::MAX) {
        Some(ErrorCode::UnableToCreateSegment)
    } else if needs_block(w.streams@[c], len, w.block_size) && w.free@.len() == 0 && !(auto
        && w.streams@[c].segments@.len() > 0) {
        Some(ErrorCode::NoFreeBlocks)
    } else {
        None
    }
}

/// Whether a segment lies wholly within `[start, end]`.
pub open spec fn contained(s: Segment, start: i64, end: i64) -> bool {
    start <= s.start_ts() && s.end_ts() <= end
}

/// The segments that a release of `[start, end]` keeps.
pub open spec fn kept_by(start: i64, end: i64) -> spec_fn(Segment) -> bool {
    |s: Segment| !contained(s, start, end)
}

impl Writer {
    /// The store that this writer appends to.
    pub closed spec fn image(&self) -> Store {
        self.store
    }

    pub closed spec fn auto_reclaim_on(&self) -> bool {
        self.auto_reclaim
    }

    /// Formats an empty store of `n_blocks` blocks of `block_size` bytes.
    pub fn allocate_file(block_size: u32, n_blocks: u32) -> (r: Result<Store, ErrorCode>)
        ensures
            r is Err <==> !block_size_valid(block_size),
            r matches Err(e) ==> e == ErrorCode::InvalidBlockSize,
            r matches Ok(s) ==> {
                &&& s.wf()
                &&& s.block_size == block_size
                &&& s.n_blocks == n_blocks
                &&& s.free_count() == n_blocks
                &&& s.streams@.len() == 0
                &&& s.next_segment_id == 1
            },
    {
        if (block_size as u64) < BLOCK_HEADER_SIZE + FRAME_HEADER_SIZE {
            return Err(ErrorCode::InvalidBlockSize);
        }
        let mut free: Vec<u32> = Vec::new();
        let mut i: u32 = n_blocks;
        while i > 0
            invariant
                i <= n_blocks,
                free@.len() == n_blocks - i,
                forall|k: int| 0 <= k < free@.len() ==> #[trigger] free@[k] == n_blocks - 1 - k,
            decreases i,
        {
            i = i - 1;
            free.push(i);
        }
        let store = Store { block_size, n_blocks, free, streams: Vec::new(), next_segment_id: 1 };
        proof {
            assert(block_table(store) =~= Seq::<Seq<u32>>::empty());
        }
        Ok(store)
    }

    /// Opens a writer on a store.
    pub fn new(store: Store, auto_reclaim: bool) -> (r: Writer)
        requires
            store.wf(),
        ensures
            r.image() == store,
            r.auto_reclaim_on() == auto_reclaim,
    {
        Writer { store, auto_reclaim }
    }

    /// The store as written so far.
    pub fn store(&self) -> (r: &Store)
        ensures
            *r == self.image(),
    {
        &self.store
    }

    /// Closes the writer and hands back its store.
    pub fn into_store(self) -> (r: Store)
        ensures
            r == self.image(),
    {
        self.store
    }

    /// Registers a new stream under `tag`; its first segment is created by
    /// its first write.
    pub fn create_context(&mut self, tag: &str, metadata: &str) -> (r: Result<WriteContext, ErrorCode>)
        requires
            old(self).image().wf(),
        ensures
            final(self).image().wf(),
            final(self).auto_reclaim_on() == old(self).auto_reclaim_on(),
            r is Err <==> old(self).image().has_stream(tag@),
            r matches Err(e) ==> e == ErrorCode::DuplicateStreamTag && final(self).image()
                == old(self).image(),
            r matches Ok(c) ==> {
                let n = old(self).image().streams@.len();
                &&& c.index() == n
                &&& same_pool(final(self).image(), old(self).image())
                &&& final(self).image().streams@.len() == n + 1
                &&& final(self).image().streams@.take(n as int) == old(self).image().streams@
                &&& fresh_stream(final(self).image().streams@[n as int], tag@, metadata@)
            },
    {
        if self.store.find_stream(tag).is_some() {
            return Err(ErrorCode::DuplicateStreamTag);
        }
        let n = self.store.streams.len();
        let entry = StreamEntry {
            tag: tag.to_owned(),
            metadata: metadata.to_owned(),
            segments: Vec::new(),
            open: false,
            last_timestamp: i64::MIN,
            next_sequence: 1,
        };
        self.store.streams.push(entry);
        proof {
            let s = self.store;
            assert forall|i: int, j: int| 0 <= i < j < s.streams@.len() implies (#[trigger] s.streams@[i]).tag@
                != (#[trigger] s.streams@[j]).tag@ by {
                if j == n {
                    assert(old(self).store.streams@[i].tag@ != tag@);
                } else {
                    assert(old(self).store.streams@[i] == s.streams@[i]);
                }
            }
            assert(s.streams@.take(n as int) =~= old(self).store.streams@);
            let t = block_table(old(self).store);
            assert(blocks_in(s.streams@[n as int].segments@) =~= Seq::<u32>::empty());
            assert(block_table(s) =~= t.push(Seq::<u32>::empty()));
            lemma_pool_add_stream(old(self).store.free@, t);
        }
        Ok(WriteContext { stream: n })
    }

    /// Appends a frame to the stream of `ctx`. The frame goes into the
    /// stream's open block when it fits there; otherwise a new segment is
    /// started in a free block (or, with auto-reclaim on and the pool
    /// exhausted, in the block of the stream's oldest segment).
    pub fn write(&mut self, ctx: &WriteContext, data: &[u8], timestamp: i64, flags: u8) -> (r: Result<(), ErrorCode>)
        requires
            old(self).image().wf(),
        ensures
            final(self).image().wf(),
            final(self).auto_reclaim_on() == old(self).auto_reclaim_on(),
            r is Err <==> write_error(
                old(self).image(),
                old(self).auto_reclaim_on(),
                ctx.index(),
                data@.len() as int,
                timestamp,
            ) is Some,
            r matches Err(e) ==> write_error(
                old(self).image(),
                old(self).auto_reclaim_on(),
                ctx.index(),
                data@.len() as int,
                timestamp,
            ) == Some(e) && final(self).image() == old(self).image(),
            r is Ok ==> {
                let w = old(self).image();
                let w2 = final(self).image();
                let c = ctx.index();
                let s = w.streams@[c];
                let len = data@.len() as int;
                let fresh = needs_block(s, len, w.block_size);
                let seq = if fresh { s.next_sequence } else { s.segments@.last().sequence };
                let kept = if reclaims(w, c, len) { segments_frames(s.segments@.drop_first()) } else { s.frames() };
                &&& w2.block_size == w.block_size
                &&& w2.n_blocks == w.n_blocks
                &&& w2.streams@.len() == w.streams@.len()
                &&& forall|j: int| 0 <= j < w.streams@.len() && j != c ==> #[trigger] w2.streams@[j] == w.streams@[j]
                &&& w2.streams@[c].tag == s.tag
                &&& w2.streams@[c].last_timestamp == timestamp
                &&& w2.streams@[c].frames() == kept.push(
                    FrameView { data: data@, flags, timestamp, block_sequence: seq },
                )
                &&& w2.free_count() == if fresh && !reclaims(w, c, len) { (w.free_count() - 1) as nat } else { w.free_count() }
                &&& w2.streams@[c].open
                &&& fresh ==> {
                    let segs2 = w2.streams@[c].segments@;
                    let new_seg = segs2.last();
                    &&& segs2.len() > 0
                    &&& segs2.drop_last() == if reclaims(w, c, len) { s.segments@.drop_first() } else { s.segments@ }
                    &&& new_seg.id == w.next_segment_id
                    &&& new_seg.sequence == s.next_sequence
                    &&& new_seg.block == if reclaims(w, c, len) { s.segments@[0].block } else { w.free@.last() }
                    &&& w2.streams@[c].next_sequence == s.next_sequence + 1
                    &&& w2.next_segment_id == w.next_segment_id + 1
                    &&& w2.free@ == if reclaims(w, c, len) { w.free@ } else { w.free@.drop_last() }
                }
                &&& !fresh ==> {
                    let segs2 = w2.streams@[c].segments@;
                    &&& segs2.len() == s.segments@.len()
                    &&& segs2.drop_last() == s.segments@.drop_last()
                    &&& segs2.last().id == s.segments@.last().id
                    &&& segs2.last().sequence == s.segments@.last().sequence
                    &&& segs2.last().block == s.segments@.last().block
                    &&& w2.streams@[c].next_sequence == s.next_sequence
                    &&& w2.next_segment_id == w.next_segment_id
                    &&& w2.free@ == w.free@
                }
            },
    {
        let c = ctx.stream;
        if c >= self.store.streams.len() {
            return Err(ErrorCode::InvalidArgument);
        }
        let len = data.len() as u64;
        if len > (self.store.block_size as u64) - BLOCK_HEADER_SIZE - FRAME_HEADER_SIZE {
            return Err(ErrorCode::RowSizeTooBig);
        }
        if timestamp < self.store.streams[c].last_timestamp {
            return Err(ErrorCode::NonMonotonicTimestamp);
        }
        let ghost w = self.store;
        let ghost s = self.store.streams@[c as int];
        proof {
            assert(s.wf(w.block_size, w.n_blocks));
        }
        let cost = FRAME_HEADER_SIZE + len;
        let n = self.store.streams[c].segments.len();
        let fits = self.store.streams[c].open
            && self.store.streams[c].segments[n - 1].used + cost <= self.store.block_size as u64;
        if fits {
            let seq = self.store.streams[c].segments[n - 1].sequence;
            let frame = Frame { data: vstd::slice::slice_to_vec(data), flags, timestamp, block_sequence: seq };
            let ghost seg = s.segments@[n - 1];
            let used = self.store.streams[c].segments[n - 1].used;
            self.store.streams[c].segments[n - 1].frames.push(frame);
            self.store.streams[c].segments[n - 1].used = used + cost;
            self.store.streams[c].last_timestamp = timestamp;
            proof {
                let s2 = self.store.streams@[c as int];
                let seg2 = s2.segments@[n - 1];
                assert(seg.wf(w.block_size));
                assert(seg2.frames@ == seg.frames@.push(frame));
                assert(seg.end_ts() <= s.last_timestamp);
                assert forall|a: int, b: int| 0 <= a <= b < seg2.frames@.len() implies #[trigger] seg2.frames@[a].timestamp
                    <= #[trigger] seg2.frames@[b].timestamp by {
                    if b == seg2.frames@.len() - 1 && a < b {
                        assert(seg.frames@[a].timestamp <= seg.frames@[seg.frames@.len() - 1].timestamp);
                    }
                }
                assert(seg2.wf(w.block_size));
                assert(s2.segments@ == s.segments@.update(n - 1, seg2));
                assert forall|k: int| 0 <= k < s2.segments@.len() implies (#[trigger] s2.segments@[k]).wf(w.block_size) by {
                    if k != n - 1 {
                        assert(s2.segments@[k] == s.segments@[k]);
                    }
                }
                assert forall|j: int, k: int| 0 <= j < k < s2.segments@.len() implies precedes(
                    #[trigger] s2.segments@[j],
                    #[trigger] s2.segments@[k],
                ) by {
                    assert(precedes(s.segments@[j], s.segments@[k]));
                    assert(seg2.start_ts() == seg.start_ts());
                }
                assert(chain_ok(s2.segments@, w.block_size));
                assert forall|k: int| 0 <= k < s2.segments@.len() implies {
                    &&& (#[trigger] s2.segments@[k]).block < w.n_blocks
                    &&& s2.segments@[k].end_ts() <= s2.last_timestamp
                    &&& s2.segments@[k].sequence < s2.next_sequence
                } by {
                    assert(s.segments@[k].end_ts() <= s.last_timestamp);
                }
                assert(s2.wf(w.block_size, w.n_blocks));
                assert(s.segments@ =~= s.segments@.drop_last().push(seg));
                assert(s2.segments@ =~= s.segments@.drop_last().push(seg2));
                lemma_frames_push(s.segments@.drop_last(), seg);
                lemma_frames_push(s.segments@.drop_last(), seg2);
                lemma_frames_view_push(seg.frames@, frame);
                assert(s2.frames() =~= s.frames().push(frame@));
                assert(blocks_in(s2.segments@) =~= blocks_in(s.segments@));
                assert(block_table(self.store) =~= block_table(w));
                self.lemma_others_kept(w, c as int);
            }
            return Ok(());
        }
        if self.store.streams[c].next_sequence == i64::MAX || self.store.next_segment_id == i64::MAX {
            return Err(ErrorCode::UnableToCreateSegment);
        }
        let block: u32;
        if self.store.free.len() > 0 {
            block = self.store.free.pop().unwrap();
        } else if self.auto_reclaim && n > 0 {
            let oldest = self.store.streams[c].segments.remove(0);
            block = oldest.block;
            proof {
                lemma_frames_drop_first(s.segments@);
            }
        } else {
            return Err(ErrorCode::NoFreeBlocks);
        }
        let ghost mid = self.store.streams@[c as int];
        proof {
            assert(block < w.n_blocks);
            if reclaims(w, c as int, len as int) {
                assert(mid.segments@ =~= s.segments@.drop_first());
            } else {
                assert(mid.segments@ == s.segments@);
            }
        }
        let seq = self.store.streams[c].next_sequence;
        let frame = Frame { data: vstd::slice::slice_to_vec(data), flags, timestamp, block_sequence: seq };
        let mut frames: Vec<Frame> = Vec::new();
        frames.push(frame);
        let seg = Segment { id: self.store.next_segment_id, block, sequence: seq, used: BLOCK_HEADER_SIZE + cost, frames };
        self.store.streams[c].segments.push(seg);
        self.store.streams[c].open = true;
        self.store.streams[c].next_sequence = seq + 1;
        self.store.streams[c].last_timestamp = timestamp;
        self.store.next_segment_id = self.store.next_segment_id + 1;
        proof {
            let s2 = self.store.streams@[c as int];
            assert(s2.segments@ == mid.segments@.push(seg));
            assert(seg.frames@ =~= seq![frame]);
            assert(seg.wf(w.block_size));
            assert forall|k: int| 0 <= k < mid.segments@.len() implies {
                &&& (#[trigger] mid.segments@[k]).wf(w.block_size)
                &&& mid.segments@[k].block < w.n_blocks
                &&& mid.segments@[k].end_ts() <= s.last_timestamp
                &&& mid.segments@[k].sequence < s.next_sequence
            } by {
                if reclaims(w, c as int, len as int) {
                    assert(mid.segments@[k] == s.segments@[k + 1]);
                } else {
                    assert(mid.segments@[k] == s.segments@[k]);
                }
            }
            assert forall|j: int, k: int| 0 <= j < k < mid.segments@.len() implies precedes(
                #[trigger] mid.segments@[j],
                #[trigger] mid.segments@[k],
            ) by {
                if reclaims(w, c as int, len as int) {
                    assert(precedes(s.segments@[j + 1], s.segments@[k + 1]));
                } else {
                    assert(precedes(s.segments@[j], s.segments@[k]));
                }
            }
            assert forall|j: int, k: int| 0 <= j < k < s2.segments@.len() implies precedes(
                #[trigger] s2.segments@[j],
                #[trigger] s2.segments@[k],
            ) by {
                if k == s2.segments@.len() - 1 {
                    assert(mid.segments@[j].end_ts() <= s.last_timestamp);
                } else {
                    assert(precedes(mid.segments@[j], mid.segments@[k]));
                }
            }
            assert forall|k: int| 0 <= k < s2.segments@.len() implies (#[trigger] s2.segments@[k]).wf(w.block_size) by {
                if k < mid.segments@.len() {
                    assert(mid.segments@[k] == s2.segments@[k]);
                }
            }
            assert(chain_ok(s2.segments@, w.block_size));
            assert forall|k: int| 0 <= k < s2.segments@.len() implies {
                &&& (#[trigger] s2.segments@[k]).block < w.n_blocks
                &&& s2.segments@[k].end_ts() <= s2.last_timestamp
                &&& s2.segments@[k].sequence < s2.next_sequence
            } by {
                if k < mid.segments@.len() {
                    assert(mid.segments@[k] == s2.segments@[k]);
                }
            }
            assert(s2.wf(w.block_size, w.n_blocks));
            lemma_frames_push(mid.segments@, seg);
            assert(seg.frames_view() =~= seq![frame@]);
            assert(s2.frames() =~= mid.frames().push(frame@));
            let t = block_table(w);
            if reclaims(w, c as int, len as int) {
                assert(self.store.free@ == w.free@);
                assert(blocks_in(s2.segments@) =~= t[c as int].drop_first().push(t[c as int][0]));
                assert(block_table(self.store) =~= t.update(c as int, t[c as int].drop_first().push(t[c as int][0])));
                lemma_pool_reuse_first(w.free@, t, c as int);
            } else {
                assert(self.store.free@ == w.free@.drop_last());
                assert(blocks_in(s2.segments@) =~= t[c as int].push(w.free@.last()));
                assert(block_table(self.store) =~= t.update(c as int, t[c as int].push(w.free@.last())));
                lemma_pool_take_free(w.free@, t, c as int);
            }
            self.lemma_others_kept(w, c as int);
        }
        Ok(())
    }

    /// Releases to the pool the blocks of every segment of stream `tag` whose
    /// frames all lie within `[start, end]`; segments that only overlap the
    /// range are kept whole.
    pub fn free_blocks(&mut self, tag: &str, start: i64, end: i64) -> (r: Result<(), ErrorCode>)
        requires
            old(self).image().wf(),
        ensures
            final(self).image().wf(),
            final(self).auto_reclaim_on() == old(self).auto_reclaim_on(),
            r is Err <==> !old(self).image().has_stream(tag@) || start > end,
            r matches Err(e) ==> e == ErrorCode::InvalidArgument && final(self).image()
                == old(self).image(),
            r is Ok ==> {
                let w = old(self).image();
                let w2 = final(self).image();
                let c = w.stream_index(tag@);
                let s = w.streams@[c];
                let kept = s.segments@.filter(kept_by(start, end));
                &&& w2.block_size == w.block_size
                &&& w2.n_blocks == w.n_blocks
                &&& w2.next_segment_id == w.next_segment_id
                &&& w2.streams@.len() == w.streams@.len()
                &&& forall|j: int| 0 <= j < w.streams@.len() && j != c ==> #[trigger] w2.streams@[j] == w.streams@[j]
                &&& w2.streams@[c].tag == s.tag
                &&& w2.streams@[c].last_timestamp == s.last_timestamp
                &&& w2.streams@[c].segments@ == kept
                &&& w2.streams@[c].open == (s.open && !contained(s.segments@.last(), start, end))
                &&& w2.free_count() == w.free_count() + s.segments@.len() - kept.len()
            },
    {
        if start > end {
            return Err(ErrorCode::InvalidArgument);
        }
        let c = match self.store.find_stream(tag) {
            Some(c) => c,
            None => return Err(ErrorCode::InvalidArgument),
        };
        let ghost w = self.store;
        let ghost s = self.store.streams@[c as int];
        let ghost orig = s.segments@;
        let ghost keep = kept_by(start, end);
        let ghost auto = self.auto_reclaim;
        let ghost t0 = block_table(w);
        proof {
            assert(s.wf(w.block_size, w.n_blocks));
        }
        let mut rest: Vec<Segment> = Vec::new();
        std::mem::swap(&mut self.store.streams[c].segments, &mut rest);
        let mut kept: Vec<Segment> = Vec::new();
        let mut last_kept = false;
        proof {
            assert(orig.take(0) =~= Seq::<Segment>::empty());
            reveal(Seq::filter);
            assert(rest@ =~= orig.skip(0));
            assert(Seq::<Segment>::empty() + orig =~= orig);
            assert(t0.update(c as int, blocks_in(orig)) =~= t0);
        }
        while rest.len() > 0
            invariant
                w.wf(),
                self.auto_reclaim == auto,
                0 <= c < w.streams@.len(),
                self.store.block_size == w.block_size,
                self.store.n_blocks == w.n_blocks,
                self.store.next_segment_id == w.next_segment_id,
                self.store.streams@.len() == w.streams@.len(),
                forall|j: int| 0 <= j < w.streams@.len() && j != c ==> #[trigger] self.store.streams@[j] == w.streams@[j],
                self.store.streams@[c as int].tag == s.tag,
                self.store.streams@[c as int].open == s.open,
                self.store.streams@[c as int].last_timestamp == s.last_timestamp,
                self.store.streams@[c as int].next_sequence == s.next_sequence,
                s == w.streams@[c as int],
                s.wf(w.block_size, w.n_blocks),
                orig == s.segments@,
                keep == kept_by(start, end),
                rest@.len() <= orig.len(),
                rest@ == orig.skip(orig.len() - rest@.len()),
                kept@ == orig.take(orig.len() - rest@.len()).filter(keep),
                rest@.len() < orig.len() ==> last_kept == keep(orig[orig.len() - rest@.len() - 1]),
                self.store.free@.len() + kept@.len() == w.free@.len() + orig.len() - rest@.len(),
                t0 == block_table(w),
                pool_ok(self.store.free@, t0.update(c as int, blocks_in(kept@ + rest@))),
                forall|i: int| 0 <= i < self.store.free@.len() ==> #[trigger] self.store.free@[i] < w.n_blocks,
                forall|k: int| 0 <= k < kept@.len() ==> {
                    &&& (#[trigger] kept@[k]).wf(w.block_size)
                    &&& kept@[k].block < w.n_blocks
                    &&& kept@[k].end_ts() <= s.last_timestamp
                    &&& kept@[k].sequence < s.next_sequence
                },
                forall|j: int, k: int| 0 <= j < k < kept@.len() ==> precedes(#[trigger] kept@[j], #[trigger] kept@[k]),
                forall|j: int, k: int| 0 <= j < kept@.len() && orig.len() - rest@.len() <= k < orig.len()
                    ==> precedes(#[trigger] kept@[j], #[trigger] orig[k]),
            decreases rest@.len(),
        {
            let ghost i = orig.len() - rest@.len();
            let seg = rest.remove(0);
            proof {
                assert(seg == orig[i]);
                assert(rest@ =~= orig.skip(i + 1));
                assert(orig.take(i + 1) =~= orig.take(i).push(seg));
                orig.take(i).lemma_filter_push(seg, keep);
            }
            let ghost before = kept@ + orig.skip(i);
            let ghost table = t0.update(c as int, blocks_in(before));
            let whole = start <= seg.frames[0].timestamp && seg.frames[seg.frames.len() - 1].timestamp <= end;
            if whole {
                proof {
                    let k = kept@.len() as int;
                    lemma_pool_release(self.store.free@, table, c as int, k);
                    assert(before[k] == seg);
                    assert(blocks_in(before).remove(k) =~= blocks_in(kept@ + rest@));
                    assert(table.update(c as int, blocks_in(before).remove(k)) =~= t0.update(c as int, blocks_in(kept@ + rest@)));
                }
                self.store.free.push(seg.block);
                last_kept = false;
            } else {
                kept.push(seg);
                last_kept = true;
                proof {
                    assert(kept@ + rest@ =~= before);
                    assert forall|j: int, k: int| 0 <= j < kept@.len() && i + 1 <= k < orig.len()
                        implies precedes(#[trigger] kept@[j], #[trigger] orig[k]) by {
                        if j == kept@.len() - 1 {
                            assert(precedes(orig[i], orig[k]));
                        }
                    }
                }
            }
        }
        proof {
            assert(orig.take(orig.len() as int) =~= orig);
            assert(chain_ok(kept@, w.block_size));
            assert(kept@ + rest@ =~= kept@);
        }
        self.store.streams[c].segments = kept;
        if self.store.streams[c].open && !last_kept {
            self.store.streams[c].open = false;
        }
        proof {
            let s2 = self.store.streams@[c as int];
            assert(s2.segments@ == orig.filter(keep));
            if s.open {
                assert(orig.len() > 0);
                assert(s2.open == keep(orig.last()));
                if s2.open {
                    assert(orig.filter(keep) == orig.drop_last().filter(keep).push(orig.last())) by {
                        reveal(Seq::filter);
                    }
                    assert(s2.segments@.len() > 0);
                }
            }
            assert(s2.wf(w.block_size, w.n_blocks));
            assert(block_table(self.store) =~= t0.update(c as int, blocks_in(kept@)));
            self.lemma_others_kept(w, c as int);
        }
        Ok(())
    }

    /// The other streams of a store in which only stream `c` and the pool
    /// changed are still well formed and distinct.
    proof fn lemma_others_kept(&self, w: Store, c: int)
        requires
            w.wf(),
            0 <= c < w.streams@.len(),
            self.store.block_size == w.block_size,
            self.store.n_blocks == w.n_blocks,
            self.store.next_segment_id >= 1,
            self.store.streams@.len() == w.streams@.len(),
            forall|j: int| 0 <= j < w.streams@.len() && j != c ==> #[trigger] self.store.streams@[j] == w.streams@[j],
            self.store.streams@[c].tag == w.streams@[c].tag,
            self.store.streams@[c].wf(w.block_size, w.n_blocks),
            forall|i: int| 0 <= i < self.store.free@.len() ==> #[trigger] self.store.free@[i] < w.n_blocks,
            pool_ok(self.store.free@, block_table(self.store)),
        ensures
            self.store.wf(),
    {
        let s = self.store;
        assert forall|i: int| 0 <= i < s.streams@.len() implies (#[trigger] s.streams@[i]).wf(s.block_size, s.n_blocks) by {
            if i != c {
                assert(w.streams@[i].wf(w.block_size, w.n_blocks));
            }
        }
        assert forall|i: int, j: int| 0 <= i < j < s.streams@.len() implies (#[trigger] s.streams@[i]).tag@
            != (#[trigger] s.streams@[j]).tag@ by {
            assert(w.streams@[i].tag@ != w.streams@[j].tag@);
        }
    }
}

} // verus!
