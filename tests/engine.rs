use nanots_rs::{ContiguousSegment, ErrorCode, Iterator, Reader, Store, Writer};

// Blocks of 64 bytes take one frame of a 30-byte payload each: the block
// header (16) plus the frame header (13) plus 30 bytes leaves no room for a
// second one.
const SMALL_BLOCK: u32 = 64;
const PAYLOAD: &[u8] = b"abcdefghijklmnopqrstuvwxyz0123";

fn timestamps(store: &Store, tag: &str, start: i64, end: i64) -> Vec<i64> {
    let reader = Reader::new(store);
    reader.read(tag, start, end).unwrap().iter().map(|f| f.timestamp).collect()
}

#[test]
fn block_size_limits() {
    assert_eq!(Writer::allocate_file(0, 10).err(), Some(ErrorCode::InvalidBlockSize));
    assert_eq!(Writer::allocate_file(28, 10).err(), Some(ErrorCode::InvalidBlockSize));
    let store = Writer::allocate_file(29, 3).unwrap();
    assert_eq!(store.free_block_count(), 3);
    let mut writer = Writer::new(store, false);
    let ctx = writer.create_context("s", "").unwrap();
    // The largest payload for 29-byte blocks is empty.
    assert_eq!(writer.write(&ctx, b"x", 1, 0), Err(ErrorCode::RowSizeTooBig));
    assert_eq!(writer.write(&ctx, b"", 1, 0), Ok(()));
}

#[test]
fn oversized_payload_keeps_free_count() {
    let store = Writer::allocate_file(SMALL_BLOCK, 4).unwrap();
    let mut writer = Writer::new(store, false);
    let ctx = writer.create_context("s", "m").unwrap();
    writer.write(&ctx, b"first", 10, 0).unwrap();
    let before = writer.store().free_block_count();
    let big = vec![7u8; 36];
    assert_eq!(writer.write(&ctx, &big, 20, 0), Err(ErrorCode::RowSizeTooBig));
    assert_eq!(writer.store().free_block_count(), before);
    assert_eq!(before, 3);
    let fits = vec![7u8; 35];
    assert_eq!(writer.write(&ctx, &fits, 20, 0), Ok(()));
}

#[test]
fn backwards_timestamp_is_rejected() {
    let store = Writer::allocate_file(1024, 4).unwrap();
    let mut writer = Writer::new(store, false);
    let ctx = writer.create_context("s", "m").unwrap();
    writer.write(&ctx, b"a", 100, 0).unwrap();
    assert_eq!(writer.write(&ctx, b"b", 99, 0), Err(ErrorCode::NonMonotonicTimestamp));
    // The last timestamp is still 100: an equal one is accepted, an earlier one is not.
    assert_eq!(writer.write(&ctx, b"c", 100, 0), Ok(()));
    assert_eq!(writer.write(&ctx, b"d", 50, 0), Err(ErrorCode::NonMonotonicTimestamp));
    let store = writer.into_store();
    assert_eq!(timestamps(&store, "s", i64::MIN, i64::MAX), vec![100, 100]);
}

#[test]
fn duplicate_tag_is_rejected() {
    let store = Writer::allocate_file(1024, 4).unwrap();
    let mut writer = Writer::new(store, false);
    writer.create_context("s", "one").unwrap();
    assert_eq!(writer.create_context("s", "two").err(), Some(ErrorCode::DuplicateStreamTag));
    assert!(writer.create_context("t", "two").is_ok());
}

#[test]
fn exhausted_pool_reports_no_free_blocks() {
    let store = Writer::allocate_file(SMALL_BLOCK, 2).unwrap();
    let mut writer = Writer::new(store, false);
    let ctx = writer.create_context("s", "m").unwrap();
    writer.write(&ctx, PAYLOAD, 1, 0).unwrap();
    writer.write(&ctx, PAYLOAD, 2, 0).unwrap();
    assert_eq!(writer.store().free_block_count(), 0);
    assert_eq!(writer.write(&ctx, PAYLOAD, 3, 0), Err(ErrorCode::NoFreeBlocks));
    let store = writer.into_store();
    assert_eq!(timestamps(&store, "s", i64::MIN, i64::MAX), vec![1, 2]);
}

#[test]
fn auto_reclaim_reuses_oldest_block() {
    let store = Writer::allocate_file(SMALL_BLOCK, 2).unwrap();
    let mut writer = Writer::new(store, true);
    let ctx = writer.create_context("s", "m").unwrap();
    writer.write(&ctx, PAYLOAD, 1, 0).unwrap();
    writer.write(&ctx, PAYLOAD, 2, 0).unwrap();
    writer.write(&ctx, PAYLOAD, 3, 0).unwrap();
    assert_eq!(writer.store().free_block_count(), 0);
    let store = writer.into_store();
    assert_eq!(timestamps(&store, "s", i64::MIN, i64::MAX), vec![2, 3]);
}

#[test]
fn unknown_stream_and_bad_range() {
    let store = Writer::allocate_file(1024, 4).unwrap();
    let mut writer = Writer::new(store, false);
    writer.create_context("s", "m").unwrap();
    assert_eq!(writer.free_blocks("nope", 0, 10), Err(ErrorCode::InvalidArgument));
    assert_eq!(writer.free_blocks("s", 10, 0), Err(ErrorCode::InvalidArgument));
    assert_eq!(writer.free_blocks("s", 0, 10), Ok(()));
    let store = writer.into_store();
    let reader = Reader::new(&store);
    assert_eq!(reader.read("nope", 0, 10).err(), Some(ErrorCode::InvalidArgument));
    assert_eq!(reader.query_contiguous_segments("nope", 0, 10).err(), Some(ErrorCode::InvalidArgument));
    assert_eq!(Iterator::new(&store, "nope").err(), Some(ErrorCode::InvalidArgument));
}

#[test]
fn read_keeps_window_and_order() {
    let store = Writer::allocate_file(SMALL_BLOCK, 10).unwrap();
    let mut writer = Writer::new(store, false);
    let ctx = writer.create_context("s", "m").unwrap();
    for ts in [5, 10, 10, 20, 30, 40] {
        writer.write(&ctx, b"v", ts, (ts % 7) as u8).unwrap();
    }
    let store = writer.into_store();
    assert_eq!(timestamps(&store, "s", 10, 30), vec![10, 10, 20, 30]);
    assert_eq!(timestamps(&store, "s", 11, 19), Vec::<i64>::new());
    assert_eq!(timestamps(&store, "s", i64::MIN, i64::MAX), vec![5, 10, 10, 20, 30, 40]);
    let frames = Reader::new(&store).read("s", 20, 20).unwrap();
    assert_eq!(frames.len(), 1);
    assert_eq!(frames[0].flags, 6);
    assert_eq!(frames[0].data, b"v");
}

#[test]
fn released_middle_segment_splits_run() {
    let store = Writer::allocate_file(SMALL_BLOCK, 10).unwrap();
    let mut writer = Writer::new(store, false);
    let ctx = writer.create_context("s", "m").unwrap();
    writer.write(&ctx, PAYLOAD, 1000, 0).unwrap();
    writer.write(&ctx, PAYLOAD, 2000, 0).unwrap();
    writer.write(&ctx, PAYLOAD, 3000, 0).unwrap();
    {
        let reader = Reader::new(writer.store());
        let runs = reader.query_contiguous_segments("s", 0, i64::MAX).unwrap();
        assert_eq!(runs, vec![ContiguousSegment { segment_id: 1, start_timestamp: 1000, end_timestamp: 3000 }]);
    }
    assert_eq!(writer.store().free_block_count(), 7);
    writer.free_blocks("s", 1500, 2500).unwrap();
    assert_eq!(writer.store().free_block_count(), 8);
    let store = writer.into_store();
    let reader = Reader::new(&store);
    let runs = reader.query_contiguous_segments("s", 0, i64::MAX).unwrap();
    assert_eq!(
        runs,
        vec![
            ContiguousSegment { segment_id: 1, start_timestamp: 1000, end_timestamp: 1000 },
            ContiguousSegment { segment_id: 3, start_timestamp: 3000, end_timestamp: 3000 },
        ]
    );
    assert_eq!(timestamps(&store, "s", i64::MIN, i64::MAX), vec![1000, 3000]);
}

#[test]
fn partially_covered_segment_is_kept() {
    let store = Writer::allocate_file(1024, 4).unwrap();
    let mut writer = Writer::new(store, false);
    let ctx = writer.create_context("s", "m").unwrap();
    writer.write(&ctx, b"a", 10, 0).unwrap();
    writer.write(&ctx, b"b", 20, 0).unwrap();
    writer.free_blocks("s", 0, 15).unwrap();
    assert_eq!(writer.store().free_block_count(), 3);
    writer.free_blocks("s", 0, 20).unwrap();
    assert_eq!(writer.store().free_block_count(), 4);
    // The released segment was the open one: the next write starts a new one.
    writer.write(&ctx, b"c", 30, 0).unwrap();
    let store = writer.into_store();
    assert_eq!(timestamps(&store, "s", i64::MIN, i64::MAX), vec![30]);
}

#[test]
fn find_example_scenario() {
    let store = Writer::allocate_file(1024 * 1024, 100).unwrap();
    let mut writer = Writer::new(store, false);
    let ctx = writer.create_context("f", "m").unwrap();
    for (i, ts) in [1000, 2000, 3000, 5000, 8000].iter().enumerate() {
        writer.write(&ctx, format!("data_{}", i).as_bytes(), *ts, 0).unwrap();
    }
    let store = writer.into_store();
    let mut it = Iterator::new(&store, "f").unwrap();
    assert!(it.find(4000).unwrap());
    let f = it.current_frame().unwrap();
    assert_eq!((f.data.as_slice(), f.timestamp), (&b"data_3"[..], 5000));
    // Seeking again lands on the same frame.
    assert!(it.find(4000).unwrap());
    assert_eq!(it.current_frame().unwrap().timestamp, 5000);
    assert!(it.find(500).unwrap());
    let f = it.current_frame().unwrap();
    assert_eq!((f.data.as_slice(), f.timestamp), (&b"data_0"[..], 1000));
    assert!(!it.find(9000).unwrap());
    assert!(!it.is_valid());
    assert_eq!(it.current_frame().err(), Some(ErrorCode::InvalidArgument));
    assert_eq!(it.current_block_sequence(), -1);
}

#[test]
fn find_picks_first_of_equal_timestamps() {
    let store = Writer::allocate_file(1024, 4).unwrap();
    let mut writer = Writer::new(store, false);
    let ctx = writer.create_context("f", "m").unwrap();
    writer.write(&ctx, b"first", 10, 0).unwrap();
    writer.write(&ctx, b"second", 10, 0).unwrap();
    let store = writer.into_store();
    let mut it = Iterator::new(&store, "f").unwrap();
    assert!(it.find(10).unwrap());
    assert_eq!(it.current_frame().unwrap().data, b"first");
}

#[test]
fn round_trip_across_streams() {
    let store = Writer::allocate_file(SMALL_BLOCK, 40).unwrap();
    let mut writer = Writer::new(store, false);
    let tags = ["a", "b", "c"];
    let mut ctxs = Vec::new();
    for t in tags.iter() {
        ctxs.push(writer.create_context(t, "m").unwrap());
    }
    for i in 0..30i64 {
        let s = (i % 3) as usize;
        writer.write(&ctxs[s], format!("{}-{}", tags[s], i).as_bytes(), i * 10, (i * 37 % 256) as u8).unwrap();
    }
    let store = writer.into_store();
    for (s, t) in tags.iter().enumerate() {
        let expected: Vec<i64> = (0..30i64).filter(|i| (i % 3) as usize == s).map(|i| i * 10).collect();
        let frames = Reader::new(&store).read(t, i64::MIN, i64::MAX).unwrap();
        let got: Vec<i64> = frames.iter().map(|f| f.timestamp).collect();
        assert_eq!(got, expected);
        for f in frames.iter() {
            let i = f.timestamp / 10;
            assert_eq!(f.data, format!("{}-{}", t, i).as_bytes());
            assert_eq!(f.flags, (i * 37 % 256) as u8);
        }
        let mut it = Iterator::new(&store, t).unwrap();
        let mut forward = Vec::new();
        while it.is_valid() {
            forward.push(it.current_frame().unwrap().timestamp);
            it.next().unwrap();
        }
        assert_eq!(forward, expected);
        assert_eq!(it.next(), Err(ErrorCode::InvalidArgument));
        it.reset().unwrap();
        while it.is_valid() {
            let f = it.current_frame().unwrap();
            if f.timestamp == *expected.last().unwrap() {
                break;
            }
            it.next().unwrap();
        }
        let mut backward = Vec::new();
        while it.is_valid() {
            backward.push(it.current_frame().unwrap().timestamp);
            it.prev().unwrap();
        }
        let mut reversed = expected.clone();
        reversed.reverse();
        assert_eq!(backward, reversed);
    }
}

#[test]
fn block_sequence_follows_blocks() {
    let store = Writer::allocate_file(SMALL_BLOCK, 10).unwrap();
    let mut writer = Writer::new(store, false);
    let ctx = writer.create_context("s", "m").unwrap();
    writer.write(&ctx, b"a", 1, 0).unwrap();
    writer.write(&ctx, b"b", 2, 0).unwrap();
    writer.write(&ctx, PAYLOAD, 3, 0).unwrap();
    let store = writer.into_store();
    let seqs: Vec<i64> = Reader::new(&store).read("s", 0, 10).unwrap().iter().map(|f| f.block_sequence).collect();
    assert_eq!(seqs, vec![1, 1, 2]);
    let mut it = Iterator::new(&store, "s").unwrap();
    assert_eq!(it.current_block_sequence(), 1);
    it.find(3).unwrap();
    assert_eq!(it.current_block_sequence(), 2);
}

#[test]
fn stream_tags_in_window() {
    let store = Writer::allocate_file(1024, 10).unwrap();
    let mut writer = Writer::new(store, false);
    let a = writer.create_context("alpha", "").unwrap();
    let b = writer.create_context("beta", "").unwrap();
    writer.create_context("gamma", "").unwrap();
    writer.write(&a, b"x", 100, 0).unwrap();
    writer.write(&b, b"y", 200, 0).unwrap();
    let store = writer.into_store();
    let reader = Reader::new(&store);
    assert_eq!(reader.query_stream_tags(0, 1000).unwrap(), vec!["alpha".to_string(), "beta".to_string()]);
    assert_eq!(reader.query_stream_tags(150, 250).unwrap(), vec!["beta".to_string()]);
    assert!(reader.query_stream_tags(300, 400).unwrap().is_empty());
}

#[test]
fn empty_stream_cursor() {
    let store = Writer::allocate_file(1024, 10).unwrap();
    let mut writer = Writer::new(store, false);
    writer.create_context("e", "").unwrap();
    let store = writer.into_store();
    let mut it = Iterator::new(&store, "e").unwrap();
    assert!(!it.is_valid());
    assert_eq!(it.reset(), Ok(()));
    assert!(!it.is_valid());
    assert_eq!(it.prev(), Err(ErrorCode::InvalidArgument));
    assert!(!it.find(i64::MIN).unwrap());
    assert!(Reader::new(&store).read("e", i64::MIN, i64::MAX).unwrap().is_empty());
    assert!(Reader::new(&store).query_contiguous_segments("e", i64::MIN, i64::MAX).unwrap().is_empty());
}

#[test]
fn error_messages_and_codes() {
    assert_eq!(ErrorCode::RowSizeTooBig.to_string(), "Row size too big");
    assert_eq!(ErrorCode::Unknown.to_string(), "Unknown error");
    assert_eq!(ErrorCode::from_c(8), ErrorCode::NonMonotonicTimestamp);
    assert_eq!(ErrorCode::from_c(11), ErrorCode::InvalidArgument);
    assert_eq!(ErrorCode::from_c(12), ErrorCode::Unknown);
}
