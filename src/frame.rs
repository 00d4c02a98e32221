use vstd::prelude::*;

verus! {

/// One timestamped record as read back from a stream.
pub struct Frame {
    pub data: Vec<u8>,
    pub flags: u8,
    pub timestamp: i64,
    pub block_sequence: i64,
}

/// The mathematical value of a frame.
pub struct FrameView {
    pub data: Seq<u8>,
    pub flags: u8,
    pub timestamp: i64,
    pub block_sequence: i64,
}

impl View for Frame {
    type V = FrameView;

    open spec fn view(&self) -> FrameView {
        FrameView {
            data: self.data@,
            flags: self.flags,
            timestamp: self.timestamp,
            block_sequence: self.block_sequence,
        }
    }
}

/// The views of a sequence of frames.
pub open spec fn frames_view(fs: Seq<Frame>) -> Seq<FrameView> {
    fs.map_values(|f: Frame| f@)
}

impl Frame {
    /// A copy of this frame with its own payload buffer.
    pub fn duplicate(&self) -> (r: Frame)
        ensures
            r@ == self@,
    {
        Frame {
            data: self.data.clone(),
            flags: self.flags,
            timestamp: self.timestamp,
            block_sequence: self.block_sequence,
        }
    }
}

/// A maximal gap-free run of segments: the id of its first segment and the
/// timestamps of its first and last frame.
#[derive(Clone, Copy, Debug, PartialEq, Eq, Structural)]
pub struct ContiguousSegment {
    pub segment_id: i64,
    pub start_timestamp: i64,
    pub end_timestamp: i64,
}

} // verus!
