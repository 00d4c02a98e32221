use vstd::prelude::*;
use crate::error::ErrorCode;
use crate::frame::{Frame, FrameView, ContiguousSegment, frames_view};
use crate::store::{Segment, StreamEntry, Store, segments_frames, lemma_frames_push, lemma_frames_view_push};

verus! {

broadcast use vstd::seq_lib::group_seq_properties;

/// Whether a timestamp lies in `[start, end]`.
pub open spec fn in_window(start: i64, end: i64) -> spec_fn(FrameView) -> bool {
    |f: FrameView| start <= f.timestamp <= end
}

/// The frames of `fs` whose timestamp lies in `[start, end]`, in order.
pub open spec fn frames_in(fs: Seq<FrameView>, start: i64, end: i64) -> Seq<FrameView> {
    fs.filter(in_window(start, end))
}

/// Whether the span of a segment, from its first to its last frame, meets
/// `[start, end]`.
pub open spec fn overlaps(start: i64, end: i64) -> spec_fn(Segment) -> bool {
    |s: Segment| s.end_ts() >= start && s.start_ts() <= end
}

/// Whether segment `b` was started in the block right after `a`'s.
pub open spec fn adjacent(a: Segment, b: Segment) -> bool {
    a.sequence + 1 == b.sequence
}

/// The maximal runs of adjacent segments in a chain, each from the start of
/// its first segment to the end of its last.
pub open spec fn runs(segs: Seq<Segment>) -> Seq<ContiguousSegment>
    decreases segs.len(),
{
    if segs.len() == 0 {
        Seq::empty()
    } else {
        let prior = runs(segs.drop_last());
        let s = segs.last();
        if segs.len() >= 2 && adjacent(segs[segs.len() - 2], s) {
            prior.update(
                prior.len() - 1,
                ContiguousSegment {
                    segment_id: prior.last().segment_id,
                    start_timestamp: prior.last().start_timestamp,
                    end_timestamp: s.end_ts(),
                },
            )
        } else {
            prior.push(
                ContiguousSegment {
                    segment_id: s.id,
                    start_timestamp: s.start_ts(),
                    end_timestamp: s.end_ts(),
                },
            )
        }
    }
}

/// Whether some frame of the stream has its timestamp in `[start, end]`.
pub open spec fn active(start: i64, end: i64) -> spec_fn(StreamEntry) -> bool {
    |e: StreamEntry|
        exists|k: int, a: int|
            0 <= k < e.segments@.len() && 0 <= a < e.segments@[k].frames@.len() && start
                <= #[trigger] e.segments@[k].frames@[a].timestamp <= end
}

/// The tags of the streams, in registration order.
pub open spec fn tags_of(es: Seq<StreamEntry>) -> Seq<Seq<char>> {
    es.map_values(|e: StreamEntry| e.tag@)
}

pub proof fn lemma_runs_nonempty(segs: Seq<Segment>)
    ensures
        segs.len() > 0 ==> runs(segs).len() > 0,
    decreases segs.len(),
{
    if segs.len() > 0 {
        lemma_runs_nonempty(segs.drop_last());
    }
}

/// A read-only view of a store. Borrowing the store keeps it unchanged for
/// as long as the reader lives.
pub struct Reader<'a> {
    store: &'a Store,
}

impl<'a> Reader<'a> {
    /// The store that this reader sees.
    pub closed spec fn image(&self) -> Store {
        *self.store
    }

    /// Opens a reader on a store.
    pub fn new(store: &'a Store) -> (r: Reader<'a>)
        requires
            store.wf(),
        ensures
            r.image() == *store,
    {
        Reader { store }
    }

    /// The frames of stream `tag` whose timestamp lies in `[start, end]`, in
    /// the order in which they were written.
    pub fn read(&self, tag: &str, start: i64, end: i64) -> (r: Result<Vec<Frame>, ErrorCode>)
        requires
            self.image().wf(),
        ensures
            r is Err <==> !self.image().has_stream(tag@),
            r matches Err(e) ==> e == ErrorCode::InvalidArgument,
            r matches Ok(v) ==> frames_view(v@) == frames_in(self.image().stream_frames(tag@), start, end),
    {
        let c = match self.store.find_stream(tag) {
            Some(c) => c,
            None => return Err(ErrorCode::InvalidArgument),
        };
        let segs = &self.store.streams[c].segments;
        let ghost p = in_window(start, end);
        let mut out: Vec<Frame> = Vec::new();
        let mut i: usize = 0;
        proof {
            reveal(Seq::filter);
            assert(segments_frames(segs@.take(0)) =~= Seq::<FrameView>::empty());
            assert(frames_view(out@) =~= Seq::<FrameView>::empty());
        }
        while i < segs.len()
            invariant
                i <= segs@.len(),
                p == in_window(start, end),
                frames_view(out@) == segments_frames(segs@.take(i as int)).filter(p),
            decreases segs@.len() - i,
        {
            let seg = &segs[i];
            let mut j: usize = 0;
            let ghost before = segments_frames(segs@.take(i as int));
            proof {
                assert(seg.frames_view().take(0) =~= Seq::<FrameView>::empty());
                assert(before + seg.frames_view().take(0) =~= before);
            }
            while j < seg.frames.len()
                invariant
                    i < segs@.len(),
                    *seg == segs@[i as int],
                    j <= seg.frames@.len(),
                    p == in_window(start, end),
                    before == segments_frames(segs@.take(i as int)),
                    frames_view(out@) == (before + seg.frames_view().take(j as int)).filter(p),
                decreases seg.frames@.len() - j,
            {
                let f = &seg.frames[j];
                proof {
                    assert(before + seg.frames_view().take(j + 1) =~= (before + seg.frames_view().take(j as int)).push(f@));
                    (before + seg.frames_view().take(j as int)).lemma_filter_push(f@, p);
                }
                if start <= f.timestamp && f.timestamp <= end {
                    let g = f.duplicate();
                    proof {
                        lemma_frames_view_push(out@, g);
                    }
                    out.push(g);
                }
                j = j + 1;
            }
            proof {
                assert(seg.frames_view().take(seg.frames@.len() as int) =~= seg.frames_view());
                assert(segs@.take(i + 1) =~= segs@.take(i as int).push(*seg));
                lemma_frames_push(segs@.take(i as int), *seg);
            }
            i = i + 1;
        }
        proof {
            assert(segs@.take(segs@.len() as int) =~= segs@);
        }
        Ok(out)
    }

    /// The maximal gap-free runs among the segments of stream `tag` whose
    /// span meets `[start, end]`, ordered by start.
    pub fn query_contiguous_segments(&self, tag: &str, start: i64, end: i64) -> (r: Result<Vec<ContiguousSegment>, ErrorCode>)
        requires
            self.image().wf(),
        ensures
            r is Err <==> !self.image().has_stream(tag@),
            r matches Err(e) ==> e == ErrorCode::InvalidArgument,
            r matches Ok(v) ==> v@ == runs(
                self.image().streams@[self.image().stream_index(tag@)].segments@.filter(
                    overlaps(start, end),
                ),
            ),
    {
        let c = match self.store.find_stream(tag) {
            Some(c) => c,
            None => return Err(ErrorCode::InvalidArgument),
        };
        let segs = &self.store.streams[c].segments;
        let ghost p = overlaps(start, end);
        proof {
            assert(self.store.streams@[c as int].wf(self.store.block_size, self.store.n_blocks));
        }
        let mut out: Vec<ContiguousSegment> = Vec::new();
        let mut prev_seq: i64 = 0;
        let mut i: usize = 0;
        proof {
            reveal(Seq::filter);
            assert(segs@.take(0) =~= Seq::<Segment>::empty());
        }
        while i < segs.len()
            invariant
                i <= segs@.len(),
                p == overlaps(start, end),
                forall|k: int| 0 <= k < segs@.len() ==> (#[trigger] segs@[k]).wf(self.store.block_size),
                out@ == runs(segs@.take(i as int).filter(p)),
                segs@.take(i as int).filter(p).len() > 0 ==> prev_seq == segs@.take(i as int).filter(p).last().sequence,
                segs@.take(i as int).filter(p).len() == 0 <==> out@.len() == 0,
            decreases segs@.len() - i,
        {
            let seg = &segs[i];
            let ghost done = segs@.take(i as int).filter(p);
            proof {
                assert(segs@.take(i + 1) =~= segs@.take(i as int).push(*seg));
                segs@.take(i as int).lemma_filter_push(*seg, p);
                assert(seg.wf(self.store.block_size));
            }
            let s_ts = seg.frames[0].timestamp;
            let e_ts = seg.frames[seg.frames.len() - 1].timestamp;
            if e_ts >= start && s_ts <= end {
                let ghost next = done.push(*seg);
                proof {
                    assert(next.drop_last() =~= done);
                    lemma_runs_nonempty(next);
                }
                if out.len() > 0 && prev_seq == seg.sequence - 1 {
                    let last = out.pop().unwrap();
                    out.push(ContiguousSegment {
                        segment_id: last.segment_id,
                        start_timestamp: last.start_timestamp,
                        end_timestamp: e_ts,
                    });
                    proof {
                        assert(next[next.len() - 2] == done.last());
                        assert(out@ =~= runs(next));
                    }
                } else {
                    out.push(ContiguousSegment {
                        segment_id: seg.id,
                        start_timestamp: s_ts,
                        end_timestamp: e_ts,
                    });
                    proof {
                        if next.len() >= 2 {
                            assert(next[next.len() - 2] == done.last());
                        }
                        assert(out@ =~= runs(next));
                    }
                }
                prev_seq = seg.sequence;
            }
            i = i + 1;
        }
        proof {
            assert(segs@.take(segs@.len() as int) =~= segs@);
        }
        Ok(out)
    }

    /// The tags, in registration order, of the streams that hold a frame
    /// with its timestamp in `[start, end]`.
    pub fn query_stream_tags(&self, start: i64, end: i64) -> (r: Result<Vec<String>, ErrorCode>)
        requires
            self.image().wf(),
        ensures
            r matches Ok(v) && v@.map_values(|t: String| t@) == tags_of(
                self.image().streams@.filter(active(start, end)),
            ),
    {
        let streams = &self.store.streams;
        let ghost p = active(start, end);
        let mut out: Vec<String> = Vec::new();
        let mut i: usize = 0;
        proof {
            reveal(Seq::filter);
            assert(streams@.take(0) =~= Seq::<StreamEntry>::empty());
            assert(out@.map_values(|t: String| t@) =~= Seq::<Seq<char>>::empty());
        }
        while i < streams.len()
            invariant
                i <= streams@.len(),
                p == active(start, end),
                out@.map_values(|t: String| t@) == tags_of(streams@.take(i as int).filter(p)),
            decreases streams@.len() - i,
        {
            let e = &streams[i];
            proof {
                assert(streams@.take(i + 1) =~= streams@.take(i as int).push(*e));
                streams@.take(i as int).lemma_filter_push(*e, p);
            }
            if has_frame_in(e, start, end) {
                let t = e.tag.clone();
                proof {
                    let f = |t: String| t@;
                    let g = |e: StreamEntry| e.tag@;
                    assert(out@.push(t).map_values(f) =~= out@.map_values(f).push(t@));
                    assert(streams@.take(i as int).filter(p).push(*e).map_values(g)
                        =~= streams@.take(i as int).filter(p).map_values(g).push(e.tag@));
                }
                out.push(t);
            }
            i = i + 1;
        }
        proof {
            assert(streams@.take(streams@.len() as int) =~= streams@);
        }
        Ok(out)
    }
}

/// Whether some frame of the stream has its timestamp in `[start, end]`.
fn has_frame_in(e: &StreamEntry, start: i64, end: i64) -> (r: bool)
    ensures
        r == active(start, end)(*e),
{
    let mut k: usize = 0;
    while k < e.segments.len()
        invariant
            k <= e.segments@.len(),
            forall|k2: int, a: int|
                0 <= k2 < k && 0 <= a < e.segments@[k2].frames@.len() ==> !(start
                    <= #[trigger] e.segments@[k2].frames@[a].timestamp <= end),
        decreases e.segments@.len() - k,
    {
        let seg = &e.segments[k];
        let mut a: usize = 0;
        while a < seg.frames.len()
            invariant
                k < e.segments@.len(),
                *seg == e.segments@[k as int],
                a <= seg.frames@.len(),
                forall|a2: int| 0 <= a2 < a ==> !(start <= #[trigger] seg.frames@[a2].timestamp <= end),
            decreases seg.frames@.len() - a,
        {
            let ts = seg.frames[a].timestamp;
            if start <= ts && ts <= end {
                return true;
            }
            a = a + 1;
        }
        k = k + 1;
    }
    false
}

} // verus!
