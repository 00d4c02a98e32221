use vstd::prelude::*;
use crate::frame::{Frame, FrameView, frames_view};

verus! {

broadcast use vstd::seq_lib::group_seq_properties;

/// Bytes at the head of every block: its sequence number and fill level.
pub const BLOCK_HEADER_SIZE: u64 = 16;

/// Bytes that a frame takes besides its payload: flags, timestamp and length.
pub const FRAME_HEADER_SIZE: u64 = 13;

/// Whether blocks of this size can hold a block header and a frame header.
pub open spec fn block_size_valid(block_size: u32) -> bool {
    block_size >= BLOCK_HEADER_SIZE + FRAME_HEADER_SIZE
}

/// The largest payload that a frame may carry in blocks of this size.
pub open spec fn max_row_size(block_size: u32) -> int {
    block_size - BLOCK_HEADER_SIZE - FRAME_HEADER_SIZE
}

/// Bytes that a frame with a payload of `len` bytes takes in a block.
pub open spec fn frame_cost(len: int) -> int {
    FRAME_HEADER_SIZE + len
}

/// A run of storage holding frames of one stream. Each segment occupies one
/// block of the pool; `sequence` numbers the blocks of a stream in the order
/// in which they were acquired.
pub struct Segment {
    pub id: i64,
    pub block: u32,
    pub sequence: i64,
    pub used: u64,
    pub frames: Vec<Frame>,
}

impl Segment {
    pub open spec fn frames_view(&self) -> Seq<FrameView> {
        frames_view(self.frames@)
    }

    pub open spec fn start_ts(&self) -> i64 {
        self.frames@[0].timestamp
    }

    pub open spec fn end_ts(&self) -> i64 {
        self.frames@.last().timestamp
    }

    /// Whether a frame with a payload of `len` bytes still fits in the block.
    pub open spec fn fits(&self, len: int, block_size: u32) -> bool {
        self.used + frame_cost(len) <= block_size
    }

    pub open spec fn wf(&self, block_size: u32) -> bool {
        &&& self.frames@.len() > 0
        &&& self.sequence >= 1
        &&& BLOCK_HEADER_SIZE <= self.used <= block_size
        &&& forall|a: int, b: int|
            0 <= a <= b < self.frames@.len() ==> #[trigger] self.frames@[a].timestamp
                <= #[trigger] self.frames@[b].timestamp
        &&& forall|a: int|
            0 <= a < self.frames@.len() ==> #[trigger] self.frames@[a].block_sequence
                == self.sequence
    }
}

/// The frames of a chain of segments, in order.
pub open spec fn segments_frames(segs: Seq<Segment>) -> Seq<FrameView> {
    segs.map_values(|s: Segment| s.frames_view()).flatten()
}

/// Whether every frame of `a` is no later than every frame of `b`, and `a`'s
/// block was acquired before `b`'s.
pub open spec fn precedes(a: Segment, b: Segment) -> bool {
    a.end_ts() <= b.start_ts() && a.sequence < b.sequence
}

/// One named time series: its catalog entry and its chain of segments.
/// When `open` holds, the last segment is the one being appended to.
pub struct StreamEntry {
    pub tag: String,
    pub metadata: String,
    pub segments: Vec<Segment>,
    pub open: bool,
    pub last_timestamp: i64,
    pub next_sequence: i64,
}

impl StreamEntry {
    /// The frames that the stream holds, in order.
    pub open spec fn frames(&self) -> Seq<FrameView> {
        segments_frames(self.segments@)
    }

    pub open spec fn wf(&self, block_size: u32, n_blocks: u32) -> bool {
        let segs = self.segments@;
        &&& chain_ok(segs, block_size)
        &&& forall|k: int|
            0 <= k < segs.len() ==> {
                &&& (#[trigger] segs[k]).block < n_blocks
                &&& segs[k].end_ts() <= self.last_timestamp
                &&& segs[k].sequence < self.next_sequence
            }
        &&& self.open ==> segs.len() > 0
        &&& self.next_sequence >= 1
    }
}

/// Whether each segment of a chain is well formed and precedes every later one.
pub open spec fn chain_ok(segs: Seq<Segment>, block_size: u32) -> bool {
    &&& forall|k: int| 0 <= k < segs.len() ==> (#[trigger] segs[k]).wf(block_size)
    &&& forall|j: int, k: int|
        0 <= j < k < segs.len() ==> precedes(#[trigger] segs[j], #[trigger] segs[k])
}

/// Whether the timestamps of a sequence of frames never decrease.
pub open spec fn sorted(fs: Seq<FrameView>) -> bool {
    forall|a: int, b: int| 0 <= a <= b < fs.len() ==> #[trigger] fs[a].timestamp <= #[trigger] fs[b].timestamp
}

pub proof fn lemma_frames_view_push(fs: Seq<Frame>, f: Frame)
    ensures
        frames_view(fs.push(f)) == frames_view(fs).push(f@),
{
    assert(frames_view(fs.push(f)) =~= frames_view(fs).push(f@));
}

pub proof fn lemma_frames_push(segs: Seq<Segment>, s: Segment)
    ensures
        segments_frames(segs.push(s)) == segments_frames(segs) + s.frames_view(),
{
    let f = |s: Segment| s.frames_view();
    assert(segs.push(s).map_values(f) =~= segs.map_values(f).push(s.frames_view()));
    segs.map_values(f).lemma_flatten_push(s.frames_view());
}

pub proof fn lemma_frames_drop_first(segs: Seq<Segment>)
    requires
        segs.len() > 0,
    ensures
        segments_frames(segs) == segs[0].frames_view() + segments_frames(segs.drop_first()),
{
    let f = |s: Segment| s.frames_view();
    assert(segs.map_values(f).drop_first() =~= segs.drop_first().map_values(f));
}

/// Every frame of a well-formed chain lies within its first segment's start
/// and its last segment's end, and the frames are in timestamp order.
pub proof fn lemma_chain_sorted(segs: Seq<Segment>, block_size: u32)
    requires
        chain_ok(segs, block_size),
    ensures
        sorted(segments_frames(segs)),
        segs.len() > 0 ==> forall|a: int|
            0 <= a < segments_frames(segs).len() ==> segs[0].start_ts()
                <= #[trigger] segments_frames(segs)[a].timestamp <= segs.last().end_ts(),
    decreases segs.len(),
{
    if segs.len() > 0 {
        let init = segs.drop_last();
        let last = segs.last();
        assert(segs =~= init.push(last));
        lemma_frames_push(init, last);
        lemma_chain_sorted(init, block_size);
        let all = segments_frames(segs);
        let pre = segments_frames(init);
        let tail = last.frames_view();
        assert(last.wf(block_size));
        assert forall|a: int| 0 <= a < tail.len() implies last.start_ts() <= #[trigger] tail[a].timestamp
            <= last.end_ts() by {
            assert(last.frames@[0].timestamp <= last.frames@[a].timestamp);
            assert(last.frames@[a].timestamp <= last.frames@[last.frames@.len() - 1].timestamp);
        }
        if init.len() > 0 {
            assert(precedes(segs[init.len() - 1], segs[segs.len() - 1]));
            assert(precedes(segs[0], segs[segs.len() - 1]));
            assert(segs[0].wf(block_size));
            assert(segs[0].frames@[0].timestamp <= segs[0].frames@[segs[0].frames@.len() - 1].timestamp);
        }
        assert forall|a: int, b: int| 0 <= a <= b < all.len() implies #[trigger] all[a].timestamp
            <= #[trigger] all[b].timestamp by {
            if b < pre.len() {
                assert(all[a] == pre[a] && all[b] == pre[b]);
            } else if a >= pre.len() {
                assert(all[a] == tail[a - pre.len()] && all[b] == tail[b - pre.len()]);
                assert(last.frames@[a - pre.len()].timestamp <= last.frames@[b - pre.len()].timestamp);
            } else {
                assert(all[a] == pre[a] && all[b] == tail[b - pre.len()]);
            }
        }
        assert forall|a: int| 0 <= a < all.len() implies segs[0].start_ts()
            <= #[trigger] all[a].timestamp <= segs.last().end_ts() by {
            if a < pre.len() {
                assert(all[a] == pre[a]);
            } else {
                assert(all[a] == tail[a - pre.len()]);
            }
        }
    }
}

/// The blocks that a chain of segments holds, in order.
pub open spec fn blocks_in(segs: Seq<Segment>) -> Seq<u32> {
    Seq::new(segs.len(), |k: int| segs[k].block)
}

/// For each stream of a store, the blocks that its segments hold.
pub open spec fn block_table(st: Store) -> Seq<Seq<u32>> {
    Seq::new(st.streams@.len(), |i: int| blocks_in(st.streams@[i].segments@))
}

/// Whether every block has at most one holder: the free list names each
/// block once, no free block is held by a segment, and no two segments hold
/// the same block.
pub open spec fn pool_ok(free: Seq<u32>, table: Seq<Seq<u32>>) -> bool {
    &&& forall|i: int, j: int| 0 <= i < j < free.len() ==> #[trigger] free[i] != #[trigger] free[j]
    &&& forall|i: int, s: int, k: int|
        0 <= i < free.len() && 0 <= s < table.len() && 0 <= k < table[s].len() ==> #[trigger] free[i]
            != #[trigger] table[s][k]
    &&& forall|s1: int, k1: int, s2: int, k2: int|
        0 <= s1 < table.len() && 0 <= k1 < table[s1].len() && 0 <= s2 < table.len() && 0 <= k2
            < table[s2].len() && (s1 != s2 || k1 != k2) ==> #[trigger] table[s1][k1]
            != #[trigger] table[s2][k2]
}

/// A new stream holds no block.
pub proof fn lemma_pool_add_stream(free: Seq<u32>, table: Seq<Seq<u32>>)
    requires
        pool_ok(free, table),
    ensures
        pool_ok(free, table.push(Seq::empty())),
{
    let t2 = table.push(Seq::<u32>::empty());
    assert forall|i: int, s: int, k: int|
        0 <= i < free.len() && 0 <= s < t2.len() && 0 <= k < t2[s].len() implies #[trigger] free[i]
            != #[trigger] t2[s][k] by {
        assert(t2[s] == table[s]);
    }
    assert forall|s1: int, k1: int, s2: int, k2: int|
        0 <= s1 < t2.len() && 0 <= k1 < t2[s1].len() && 0 <= s2 < t2.len() && 0 <= k2 < t2[s2].len()
            && (s1 != s2 || k1 != k2) implies #[trigger] t2[s1][k1] != #[trigger] t2[s2][k2] by {
        assert(t2[s1] == table[s1] && t2[s2] == table[s2]);
    }
}

/// Stream `c` taking the last free block keeps every block with one holder.
pub proof fn lemma_pool_take_free(free: Seq<u32>, table: Seq<Seq<u32>>, c: int)
    requires
        pool_ok(free, table),
        free.len() > 0,
        0 <= c < table.len(),
    ensures
        pool_ok(free.drop_last(), table.update(c, table[c].push(free.last()))),
{
    let f2 = free.drop_last();
    let t2 = table.update(c, table[c].push(free.last()));
    let b = free.last();
    assert forall|i: int, s: int, k: int|
        0 <= i < f2.len() && 0 <= s < t2.len() && 0 <= k < t2[s].len() implies #[trigger] f2[i]
            != #[trigger] t2[s][k] by {
        if s == c && k == table[c].len() {
            assert(free[i] != free[free.len() - 1]);
        } else {
            assert(t2[s][k] == table[s][k]);
        }
    }
    assert forall|s1: int, k1: int, s2: int, k2: int|
        0 <= s1 < t2.len() && 0 <= k1 < t2[s1].len() && 0 <= s2 < t2.len() && 0 <= k2 < t2[s2].len()
            && (s1 != s2 || k1 != k2) implies #[trigger] t2[s1][k1] != #[trigger] t2[s2][k2] by {
        let new1 = s1 == c && k1 == table[c].len();
        let new2 = s2 == c && k2 == table[c].len();
        if new1 && !new2 {
            assert(t2[s2][k2] == table[s2][k2]);
            assert(free[free.len() - 1] != table[s2][k2]);
        } else if new2 && !new1 {
            assert(t2[s1][k1] == table[s1][k1]);
            assert(free[free.len() - 1] != table[s1][k1]);
        } else if !new1 && !new2 {
            assert(t2[s1][k1] == table[s1][k1] && t2[s2][k2] == table[s2][k2]);
        }
    }
}

/// Stream `c` moving the block of its first segment to a new last segment
/// keeps every block with one holder.
pub proof fn lemma_pool_reuse_first(free: Seq<u32>, table: Seq<Seq<u32>>, c: int)
    requires
        pool_ok(free, table),
        0 <= c < table.len(),
        table[c].len() > 0,
    ensures
        pool_ok(free, table.update(c, table[c].drop_first().push(table[c][0]))),
{
    let row = table[c];
    let row2 = row.drop_first().push(row[0]);
    let t2 = table.update(c, row2);
    // The position in the old table of each entry of the new one.
    let at = |s: int, k: int| if s != c { k } else if k == row.len() - 1 { 0 } else { k + 1 };
    assert forall|s: int, k: int| 0 <= s < t2.len() && 0 <= k < t2[s].len() implies t2[s][k] == table[s][at(s, k)]
        && 0 <= at(s, k) < table[s].len() by {
    }
    assert forall|i: int, s: int, k: int|
        0 <= i < free.len() && 0 <= s < t2.len() && 0 <= k < t2[s].len() implies #[trigger] free[i]
            != #[trigger] t2[s][k] by {
        assert(t2[s][k] == table[s][at(s, k)]);
    }
    assert forall|s1: int, k1: int, s2: int, k2: int|
        0 <= s1 < t2.len() && 0 <= k1 < t2[s1].len() && 0 <= s2 < t2.len() && 0 <= k2 < t2[s2].len()
            && (s1 != s2 || k1 != k2) implies #[trigger] t2[s1][k1] != #[trigger] t2[s2][k2] by {
        assert(t2[s1][k1] == table[s1][at(s1, k1)]);
        assert(t2[s2][k2] == table[s2][at(s2, k2)]);
    }
}

/// Stream `c` giving back the block of its `k`-th segment to the free list
/// keeps every block with one holder.
pub proof fn lemma_pool_release(free: Seq<u32>, table: Seq<Seq<u32>>, c: int, k: int)
    requires
        pool_ok(free, table),
        0 <= c < table.len(),
        0 <= k < table[c].len(),
    ensures
        pool_ok(free.push(table[c][k]), table.update(c, table[c].remove(k))),
{
    let row = table[c];
    let b = row[k];
    let f2 = free.push(b);
    let t2 = table.update(c, row.remove(k));
    let at = |s: int, j: int| if s != c || j < k { j } else { j + 1 };
    assert forall|s: int, j: int| 0 <= s < t2.len() && 0 <= j < t2[s].len() implies t2[s][j] == table[s][at(s, j)]
        && 0 <= at(s, j) < table[s].len() && (s == c ==> at(s, j) != k) by {
    }
    assert forall|i: int, j: int| 0 <= i < j < f2.len() implies #[trigger] f2[i] != #[trigger] f2[j] by {
        if j == free.len() {
            assert(free[i] != table[c][k]);
        }
    }
    assert forall|i: int, s: int, j: int|
        0 <= i < f2.len() && 0 <= s < t2.len() && 0 <= j < t2[s].len() implies #[trigger] f2[i]
            != #[trigger] t2[s][j] by {
        assert(t2[s][j] == table[s][at(s, j)]);
        if i == free.len() {
            assert(table[c][k] != table[s][at(s, j)]);
        }
    }
    assert forall|s1: int, k1: int, s2: int, k2: int|
        0 <= s1 < t2.len() && 0 <= k1 < t2[s1].len() && 0 <= s2 < t2.len() && 0 <= k2 < t2[s2].len()
            && (s1 != s2 || k1 != k2) implies #[trigger] t2[s1][k1] != #[trigger] t2[s2][k2] by {
        assert(t2[s1][k1] == table[s1][at(s1, k1)]);
        assert(t2[s2][k2] == table[s2][at(s2, k2)]);
    }
}

/// The image of a store: the block pool and the catalog of streams.
/// `free` lists the blocks that no segment holds.
pub struct Store {
    pub block_size: u32,
    pub n_blocks: u32,
    pub free: Vec<u32>,
    pub streams: Vec<StreamEntry>,
    pub next_segment_id: i64,
}

impl Store {
    pub open spec fn wf(&self) -> bool {
        &&& block_size_valid(self.block_size)
        &&& forall|i: int| 0 <= i < self.free@.len() ==> #[trigger] self.free@[i] < self.n_blocks
        &&& forall|i: int|
            0 <= i < self.streams@.len() ==> (#[trigger] self.streams@[i]).wf(
                self.block_size,
                self.n_blocks,
            )
        &&& forall|i: int, j: int|
            0 <= i < j < self.streams@.len() ==> (#[trigger] self.streams@[i]).tag@
                != (#[trigger] self.streams@[j]).tag@
        &&& self.next_segment_id >= 1
        &&& pool_ok(self.free@, block_table(*self))
    }

    /// How many blocks of the pool are free.
    pub open spec fn free_count(&self) -> nat {
        self.free@.len()
    }

    pub open spec fn has_stream(&self, tag: Seq<char>) -> bool {
        exists|i: int| 0 <= i < self.streams@.len() && #[trigger] self.streams@[i].tag@ == tag
    }

    /// The position of the stream registered under `tag`.
    pub open spec fn stream_index(&self, tag: Seq<char>) -> int {
        choose|i: int| 0 <= i < self.streams@.len() && #[trigger] self.streams@[i].tag@ == tag
    }

    /// The frames of the stream registered under `tag`.
    pub open spec fn stream_frames(&self, tag: Seq<char>) -> Seq<FrameView> {
        self.streams@[self.stream_index(tag)].frames()
    }

    /// How many blocks of the pool are free.
    pub fn free_block_count(&self) -> (r: usize)
        ensures
            r == self.free_count(),
    {
        self.free.len()
    }

    /// Looks up the stream registered under `tag`.
    pub fn find_stream(&self, tag: &str) -> (r: Option<usize>)
        requires
            self.wf(),
        ensures
            r is None <==> !self.has_stream(tag@),
            r matches Some(i) ==> i < self.streams@.len() && i == self.stream_index(tag@)
                && self.streams@[i as int].tag@ == tag@,
    {
        let wanted = tag.to_owned();
        let mut i: usize = 0;
        while i < self.streams.len()
            invariant
                self.wf(),
                i <= self.streams@.len(),
                wanted@ == tag@,
                forall|k: int| 0 <= k < i ==> #[trigger] self.streams@[k].tag@ != tag@,
            decreases self.streams@.len() - i,
        {
            if self.streams[i].tag == wanted {
                proof {
                    assert(self.streams@[i as int].tag@ == tag@);
                    assert(self.has_stream(tag@));
                    let j = self.stream_index(tag@);
                    if j != i {
                        if j < i {
                            assert(self.streams@[j].tag@ != self.streams@[i as int].tag@);
                        } else {
                            assert(self.streams@[i as int].tag@ != self.streams@[j].tag@);
                        }
                    }
                }
                return Some(i);
            }
            i = i + 1;
        }
        None
    }
}

} // verus!
