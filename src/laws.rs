use vstd::prelude::*;
use crate::error::ErrorCode;
use crate::frame::{ContiguousSegment, FrameView};
use crate::store::{Segment, Store, max_row_size, sorted, lemma_chain_sorted};
use crate::writer::write_error;
use crate::reader::{frames_in, in_window, runs};
use crate::cursor::first_at_or_after;

verus! {

broadcast use vstd::seq_lib::group_seq_properties;

/// What `read` returns for a stream is in timestamp order: the frames of
/// every well-formed stream are, and keeping those of a window keeps order.
pub proof fn law_read_is_ordered(store: Store, tag: Seq<char>, start: i64, end: i64)
    requires
        store.wf(),
        store.has_stream(tag),
    ensures
        sorted(frames_in(store.stream_frames(tag), start, end)),
{
    let i = store.stream_index(tag);
    assert(store.streams@[i].wf(store.block_size, store.n_blocks));
    lemma_chain_sorted(store.streams@[i].segments@, store.block_size);
    lemma_filter_sorted(store.stream_frames(tag), in_window(start, end));
}

/// A successful write adds its frame at the end of what a read of any window
/// returns when its timestamp lies in the window, and changes nothing
/// otherwise: reads return exactly the successful writes in the window, in
/// the order in which they were made.
pub proof fn law_write_then_read(fs: Seq<FrameView>, f: FrameView, start: i64, end: i64)
    ensures
        frames_in(fs.push(f), start, end) == if start <= f.timestamp <= end {
            frames_in(fs, start, end).push(f)
        } else {
            frames_in(fs, start, end)
        },
{
    fs.lemma_filter_push(f, in_window(start, end));
}

/// A read over the whole range of timestamps returns every frame.
pub proof fn law_full_range_reads_all(fs: Seq<FrameView>)
    ensures
        frames_in(fs, i64::MIN, i64::MAX) == fs,
    decreases fs.len(),
{
    reveal(Seq::filter);
    if fs.len() > 0 {
        law_full_range_reads_all(fs.drop_last());
        assert(fs.drop_last().push(fs.last()) =~= fs);
    }
}

/// A write of an admissible payload to a registered stream at a timestamp
/// before the stream's last one fails with `NonMonotonicTimestamp`; a failed
/// write leaves the store, and so the last timestamp, as it was.
pub proof fn law_backwards_write_rejected(w: Store, auto: bool, c: int, len: int, ts: i64)
    requires
        w.wf(),
        0 <= c < w.streams@.len(),
        len <= max_row_size(w.block_size),
        ts < w.streams@[c].last_timestamp,
    ensures
        write_error(w, auto, c, len, ts) == Some(ErrorCode::NonMonotonicTimestamp),
{
}

/// A write to a registered stream of a payload larger than the block size
/// allows fails with `RowSizeTooBig`, whatever its timestamp; a failed write
/// leaves the pool's free-block count as it was.
pub proof fn law_oversized_write_rejected(w: Store, auto: bool, c: int, len: int, ts: i64)
    requires
        w.wf(),
        0 <= c < w.streams@.len(),
        len > max_row_size(w.block_size),
    ensures
        write_error(w, auto, c, len, ts) == Some(ErrorCode::RowSizeTooBig),
{
}

/// The frame that `find(t)` lands on has the smallest timestamp at or after
/// `t`, and it is the only position that `find(t)` can land on, so seeking
/// twice lands on the same frame.
pub proof fn law_find_lands_on_least(fs: Seq<FrameView>, t: i64, p: int, q: int)
    requires
        sorted(fs),
        first_at_or_after(fs, t, p),
    ensures
        forall|k: int| 0 <= k < fs.len() && fs[k].timestamp >= t ==> fs[p].timestamp <= #[trigger] fs[k].timestamp,
        first_at_or_after(fs, t, q) ==> p == q,
{
    assert forall|k: int| 0 <= k < fs.len() && fs[k].timestamp >= t implies fs[p].timestamp <= #[trigger] fs[k].timestamp by {
        if k < p {
            assert(fs[k].timestamp < t);
        }
    }
    if first_at_or_after(fs, t, q) {
        if q < p {
            assert(fs[q].timestamp < t);
        }
        if p < q {
            assert(fs[p].timestamp < t);
        }
    }
}

/// Three segments in consecutive blocks form one run; once the middle one
/// is released, the other two form two separate runs.
pub proof fn law_released_gap_splits_run(a: Segment, b: Segment, c: Segment)
    requires
        a.sequence + 1 == b.sequence,
        b.sequence + 1 == c.sequence,
    ensures
        runs(seq![a, b, c]) == seq![
            ContiguousSegment {
                segment_id: a.id,
                start_timestamp: a.start_ts(),
                end_timestamp: c.end_ts(),
            },
        ],
        runs(seq![a, c]) == seq![
            ContiguousSegment {
                segment_id: a.id,
                start_timestamp: a.start_ts(),
                end_timestamp: a.end_ts(),
            },
            ContiguousSegment {
                segment_id: c.id,
                start_timestamp: c.start_ts(),
                end_timestamp: c.end_ts(),
            },
        ],
{
    assert(seq![a, b, c].drop_last() =~= seq![a, b]);
    assert(seq![a, b].drop_last() =~= seq![a]);
    assert(seq![a, c].drop_last() =~= seq![a]);
    assert(seq![a].drop_last() =~= Seq::<Segment>::empty());
    assert(runs(Seq::<Segment>::empty()) == Seq::<ContiguousSegment>::empty());
    assert(runs(seq![a]) =~= seq![
        ContiguousSegment { segment_id: a.id, start_timestamp: a.start_ts(), end_timestamp: a.end_ts() },
    ]);
    assert(runs(seq![a, b]) =~= seq![
        ContiguousSegment { segment_id: a.id, start_timestamp: a.start_ts(), end_timestamp: b.end_ts() },
    ]);
    assert(runs(seq![a, b, c]) =~= seq![
        ContiguousSegment { segment_id: a.id, start_timestamp: a.start_ts(), end_timestamp: c.end_ts() },
    ]);
    assert(runs(seq![a, c]) =~= seq![
        ContiguousSegment { segment_id: a.id, start_timestamp: a.start_ts(), end_timestamp: a.end_ts() },
        ContiguousSegment { segment_id: c.id, start_timestamp: c.start_ts(), end_timestamp: c.end_ts() },
    ]);
}

/// Keeping some of the frames of an ordered sequence keeps them in order.
proof fn lemma_filter_sorted(fs: Seq<FrameView>, p: spec_fn(FrameView) -> bool)
    requires
        sorted(fs),
    ensures
        sorted(fs.filter(p)),
    decreases fs.len(),
{
    reveal(Seq::filter);
    if fs.len() > 0 {
        let init = fs.drop_last();
        assert(sorted(init));
        lemma_filter_sorted(init, p);
        if p(fs.last()) {
            let sub = init.filter(p);
            let all = sub.push(fs.last());
            assert forall|a: int, b: int| 0 <= a <= b < all.len() implies #[trigger] all[a].timestamp
                <= #[trigger] all[b].timestamp by {
                if b == all.len() - 1 && a < b {
                    assert(sub.contains(sub[a]));
                    init.lemma_filter_contains_rev(p, sub[a]);
                    let k = choose|k: int| 0 <= k < init.len() && init[k] == sub[a];
                    assert(fs[k].timestamp <= fs[fs.len() - 1].timestamp);
                }
            }
        }
    }
}

} // verus!
