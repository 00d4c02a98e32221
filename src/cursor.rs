use vstd::prelude::*;
use crate::error::ErrorCode;
use crate::frame::{Frame, FrameView, frames_view};
use crate::store::{Store, segments_frames, sorted, lemma_chain_sorted, lemma_frames_push, lemma_frames_view_push};

verus! {

broadcast use vstd::seq_lib::group_seq_properties;

/// Where a cursor over `fs` stands after a reset: on the first frame, or
/// nowhere when there is none.
pub open spec fn first_position(fs: Seq<FrameView>) -> Option<int> {
    if fs.len() > 0 {
        Some(0)
    } else {
        None
    }
}

/// Whether `p` is the first position of `fs` whose timestamp is at least `t`.
pub open spec fn first_at_or_after(fs: Seq<FrameView>, t: i64, p: int) -> bool {
    &&& 0 <= p < fs.len()
    &&& fs[p].timestamp >= t
    &&& forall|k: int| 0 <= k < p ==> #[trigger] fs[k].timestamp < t
}

/// Whether some frame of `fs` has a timestamp of at least `t`.
pub open spec fn reaches(fs: Seq<FrameView>, t: i64) -> bool {
    exists|k: int| 0 <= k < fs.len() && #[trigger] fs[k].timestamp >= t
}

/// A cursor over the frames of one stream, as they stood when it was opened.
/// It is either positioned on a frame or invalid.
pub struct Iterator {
    frames: Vec<Frame>,
    pos: Option<usize>,
}

impl Iterator {
    /// The frames that the cursor walks, in timestamp order.
    pub closed spec fn frames(&self) -> Seq<FrameView> {
        frames_view(self.frames@)
    }

    /// The index of the frame the cursor stands on, if any.
    pub closed spec fn position(&self) -> Option<int> {
        match self.pos {
            Some(p) => Some(p as int),
            None => None,
        }
    }

    pub closed spec fn wf(&self) -> bool {
        &&& sorted(self.frames())
        &&& self.pos matches Some(p) ==> p < self.frames@.len()
    }

    /// Opens a cursor on stream `tag`, standing on its first frame.
    pub fn new(store: &Store, tag: &str) -> (r: Result<Iterator, ErrorCode>)
        requires
            store.wf(),
        ensures
            r is Err <==> !store.has_stream(tag@),
            r matches Err(e) ==> e == ErrorCode::InvalidArgument,
            r matches Ok(it) ==> {
                &&& it.wf()
                &&& sorted(it.frames())
                &&& it.frames() == store.stream_frames(tag@)
                &&& it.position() == first_position(it.frames())
            },
    {
        let c = match store.find_stream(tag) {
            Some(c) => c,
            None => return Err(ErrorCode::InvalidArgument),
        };
        let segs = &store.streams[c].segments;
        proof {
            assert(store.streams@[c as int].wf(store.block_size, store.n_blocks));
            lemma_chain_sorted(segs@, store.block_size);
        }
        let mut out: Vec<Frame> = Vec::new();
        let mut i: usize = 0;
        proof {
            assert(segments_frames(segs@.take(0)) =~= Seq::<FrameView>::empty());
            assert(frames_view(out@) =~= Seq::<FrameView>::empty());
        }
        while i < segs.len()
            invariant
                i <= segs@.len(),
                frames_view(out@) == segments_frames(segs@.take(i as int)),
            decreases segs@.len() - i,
        {
            let seg = &segs[i];
            let mut j: usize = 0;
            let ghost before = segments_frames(segs@.take(i as int));
            proof {
                assert(before + seg.frames_view().take(0) =~= before);
            }
            while j < seg.frames.len()
                invariant
                    i < segs@.len(),
                    *seg == segs@[i as int],
                    j <= seg.frames@.len(),
                    before == segments_frames(segs@.take(i as int)),
                    frames_view(out@) == before + seg.frames_view().take(j as int),
                decreases seg.frames@.len() - j,
            {
                let g = seg.frames[j].duplicate();
                proof {
                    lemma_frames_view_push(out@, g);
                    assert(before + seg.frames_view().take(j + 1) =~= (before + seg.frames_view().take(j as int)).push(g@));
                }
                out.push(g);
                j = j + 1;
            }
            proof {
                assert(seg.frames_view().take(seg.frames@.len() as int) =~= seg.frames_view());
                assert(segs@.take(i + 1) =~= segs@.take(i as int).push(*seg));
                lemma_frames_push(segs@.take(i as int), *seg);
            }
            i = i + 1;
        }
        proof {
            assert(segs@.take(segs@.len() as int) =~= segs@);
        }
        let pos = if out.len() > 0 { Some(0) } else { None };
        Ok(Iterator { frames: out, pos })
    }

    /// Whether the cursor stands on a frame.
    pub fn is_valid(&self) -> (r: bool)
        ensures
            r == self.position() is Some,
    {
        self.pos.is_some()
    }

    /// The frame the cursor stands on.
    pub fn current_frame(&self) -> (r: Result<Frame, ErrorCode>)
        requires
            self.wf(),
        ensures
            self.position() is None ==> r == Err::<Frame, ErrorCode>(ErrorCode::InvalidArgument),
            self.position() matches Some(p) ==> r matches Ok(f) && f@ == self.frames()[p],
    {
        match self.pos {
            Some(p) => Ok(self.frames[p].duplicate()),
            None => Err(ErrorCode::InvalidArgument),
        }
    }

    /// The block sequence number of the frame the cursor stands on, or -1
    /// when it stands on none.
    pub fn current_block_sequence(&self) -> (r: i64)
        requires
            self.wf(),
        ensures
            self.position() matches Some(p) ==> r == self.frames()[p].block_sequence,
            self.position() is None ==> r == -1,
    {
        match self.pos {
            Some(p) => self.frames[p].block_sequence,
            None => -1,
        }
    }

    /// Steps to the next frame; stepping past the last one leaves the cursor
    /// invalid. Fails when the cursor is already invalid.
    pub fn next(&mut self) -> (r: Result<(), ErrorCode>)
        requires
            old(self).wf(),
        ensures
            final(self).wf(),
            final(self).frames() == old(self).frames(),
            old(self).position() is None ==> r == Err::<(), ErrorCode>(ErrorCode::InvalidArgument)
                && final(self).position() is None,
            old(self).position() matches Some(p) ==> r is Ok && final(self).position() == if p + 1
                < old(self).frames().len() {
                Some(p + 1)
            } else {
                None::<int>
            },
    {
        match self.pos {
            Some(p) => {
                self.pos = if p < self.frames.len() - 1 { Some(p + 1) } else { None };
                Ok(())
            },
            None => Err(ErrorCode::InvalidArgument),
        }
    }

    /// Steps to the previous frame; stepping before the first one leaves the
    /// cursor invalid. Fails when the cursor is already invalid.
    pub fn prev(&mut self) -> (r: Result<(), ErrorCode>)
        requires
            old(self).wf(),
        ensures
            final(self).wf(),
            final(self).frames() == old(self).frames(),
            old(self).position() is None ==> r == Err::<(), ErrorCode>(ErrorCode::InvalidArgument)
                && final(self).position() is None,
            old(self).position() matches Some(p) ==> r is Ok && final(self).position() == if p > 0 {
                Some(p - 1)
            } else {
                None::<int>
            },
    {
        match self.pos {
            Some(p) => {
                self.pos = if p > 0 { Some(p - 1) } else { None };
                Ok(())
            },
            None => Err(ErrorCode::InvalidArgument),
        }
    }

    /// Moves to the first frame, or leaves the cursor invalid when the
    /// stream holds none.
    pub fn reset(&mut self) -> (r: Result<(), ErrorCode>)
        requires
            old(self).wf(),
        ensures
            final(self).wf(),
            r is Ok,
            final(self).frames() == old(self).frames(),
            final(self).position() == first_position(final(self).frames()),
    {
        self.pos = if self.frames.len() > 0 { Some(0) } else { None };
        Ok(())
    }

    /// Moves to the first frame whose timestamp is at least `timestamp`, by
    /// binary search; reports whether there is one. When there is none the
    /// cursor is left invalid.
    pub fn find(&mut self, timestamp: i64) -> (r: Result<bool, ErrorCode>)
        requires
            old(self).wf(),
        ensures
            final(self).wf(),
            sorted(final(self).frames()),
            final(self).frames() == old(self).frames(),
            r == Ok::<bool, ErrorCode>(reaches(old(self).frames(), timestamp)),
            final(self).position() is Some <==> reaches(old(self).frames(), timestamp),
            final(self).position() matches Some(p) ==> first_at_or_after(old(self).frames(), timestamp, p),
    {
        let ghost fs = self.frames();
        let mut lo: usize = 0;
        let mut hi: usize = self.frames.len();
        while lo < hi
            invariant
                fs == frames_view(self.frames@),
                sorted(fs),
                lo <= hi <= self.frames@.len(),
                forall|k: int| 0 <= k < lo ==> #[trigger] fs[k].timestamp < timestamp,
                forall|k: int| hi <= k < fs.len() ==> #[trigger] fs[k].timestamp >= timestamp,
            decreases hi - lo,
        {
            let mid = lo + (hi - lo) / 2;
            if self.frames[mid].timestamp < timestamp {
                proof {
                    assert forall|k: int| 0 <= k <= mid implies #[trigger] fs[k].timestamp < timestamp by {
                        assert(fs[k].timestamp <= fs[mid as int].timestamp);
                    }
                }
                lo = mid + 1;
            } else {
                hi = mid;
            }
        }
        if lo < self.frames.len() {
            self.pos = Some(lo);
            proof {
                assert(fs[lo as int].timestamp >= timestamp);
            }
            Ok(true)
        } else {
            self.pos = None;
            Ok(false)
        }
    }
}

} // verus!
