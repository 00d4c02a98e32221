use nanots_rs::{ErrorCode, Iterator, Reader, Writer};

#[test]
fn test_basic_write_read_cycle() {
    let store = Writer::allocate_file(1024 * 1024, 10).unwrap();

    let mut writer = Writer::new(store, false);
    let context = writer.create_context("test_stream", "test metadata").unwrap();
    writer.write(&context, b"hello world", 1000, 0).unwrap();
    writer.write(&context, b"goodbye world", 2000, 1).unwrap();
    let store = writer.into_store();

    let reader = Reader::new(&store);
    let mut records = Vec::new();
    for f in reader.read("test_stream", 0, i64::MAX).unwrap() {
        records.push((f.data.clone(), f.flags, f.timestamp));
    }

    assert_eq!(records.len(), 2);
    assert_eq!(records[0].0, b"hello world");
    assert_eq!(records[0].1, 0);
    assert_eq!(records[0].2, 1000);
    assert_eq!(records[1].0, b"goodbye world");
    assert_eq!(records[1].1, 1);
    assert_eq!(records[1].2, 2000);
}

#[test]
fn test_iterator_interface() {
    let store = Writer::allocate_file(1024 * 1024, 10).unwrap();
    let mut writer = Writer::new(store, false);
    let context = writer.create_context("iter_test", "iterator test").unwrap();
    for i in 0..5 {
        let data = format!("item_{}", i);
        writer.write(&context, data.as_bytes(), i * 1000, 0).unwrap();
    }
    let store = writer.into_store();

    let mut iter = Iterator::new(&store, "iter_test").unwrap();
    iter.reset().unwrap();

    let mut count = 0;
    while iter.is_valid() {
        let frame = iter.current_frame().unwrap();
        let expected_data = format!("item_{}", count);
        assert_eq!(frame.data, expected_data.as_bytes());
        assert_eq!(frame.timestamp, count * 1000);

        iter.next().unwrap();
        count += 1;
    }

    assert_eq!(count, 5);
}

#[test]
fn test_find_functionality() {
    let store = Writer::allocate_file(1024 * 1024, 10).unwrap();
    let mut writer = Writer::new(store, false);
    let context = writer.create_context("find_test", "find test").unwrap();
    let timestamps = [1000, 2000, 3000, 5000, 8000];
    for (i, &timestamp) in timestamps.iter().enumerate() {
        let data = format!("data_{}", i);
        writer.write(&context, data.as_bytes(), timestamp, 0).unwrap();
    }
    let store = writer.into_store();

    let mut iter = Iterator::new(&store, "find_test").unwrap();

    assert!(iter.find(3000).unwrap());
    let frame = iter.current_frame().unwrap();
    assert_eq!(frame.timestamp, 3000);
    assert_eq!(frame.data, b"data_2");

    assert!(iter.find(4000).unwrap());
    let frame = iter.current_frame().unwrap();
    assert_eq!(frame.timestamp, 5000);
    assert_eq!(frame.data, b"data_3");

    assert!(iter.find(500).unwrap());
    let frame = iter.current_frame().unwrap();
    assert_eq!(frame.timestamp, 1000);
    assert_eq!(frame.data, b"data_0");
}

#[test]
fn test_contiguous_segments() {
    let store = Writer::allocate_file(1024 * 1024, 10).unwrap();
    let mut writer = Writer::new(store, false);
    let context = writer.create_context("segment_test", "segment test").unwrap();
    writer.write(&context, b"test data", 1000, 0).unwrap();
    let store = writer.into_store();

    let reader = Reader::new(&store);
    let segments = reader.query_contiguous_segments("segment_test", 0, i64::MAX).unwrap();

    assert!(!segments.is_empty());
    assert!(segments[0].start_timestamp <= 1000);
    assert!(segments[0].end_timestamp >= 1000);
}

#[test]
fn test_multiple_streams() {
    let store = Writer::allocate_file(1024 * 1024, 20).unwrap();

    let mut writer = Writer::new(store, false);
    let ctx1 = writer.create_context("stream1", "first stream").unwrap();
    let ctx2 = writer.create_context("stream2", "second stream").unwrap();
    writer.write(&ctx1, b"stream1_data1", 1000, 0).unwrap();
    writer.write(&ctx2, b"stream2_data1", 1500, 0).unwrap();
    writer.write(&ctx1, b"stream1_data2", 2000, 0).unwrap();
    writer.write(&ctx2, b"stream2_data2", 2500, 0).unwrap();
    let store = writer.into_store();

    let reader = Reader::new(&store);

    let mut stream1_data = Vec::new();
    for f in reader.read("stream1", 0, i64::MAX).unwrap() {
        stream1_data.push((f.data.clone(), f.timestamp));
    }
    assert_eq!(stream1_data.len(), 2);
    assert_eq!(stream1_data[0].0, b"stream1_data1");
    assert_eq!(stream1_data[0].1, 1000);
    assert_eq!(stream1_data[1].0, b"stream1_data2");
    assert_eq!(stream1_data[1].1, 2000);

    let mut stream2_data = Vec::new();
    for f in reader.read("stream2", 0, i64::MAX).unwrap() {
        stream2_data.push((f.data.clone(), f.timestamp));
    }
    assert_eq!(stream2_data.len(), 2);
    assert_eq!(stream2_data[0].0, b"stream2_data1");
    assert_eq!(stream2_data[0].1, 1500);
    assert_eq!(stream2_data[1].0, b"stream2_data2");
    assert_eq!(stream2_data[1].1, 2500);
}

#[test]
fn test_error_code_display() {
    assert_eq!(ErrorCode::Success.to_string(), "Success");
    assert_eq!(ErrorCode::CantOpen.to_string(), "Cannot open file");
}

#[test]
fn test_error_code_from_c() {
    assert_eq!(ErrorCode::from_c(0), ErrorCode::Success);
    assert_eq!(ErrorCode::from_c(1), ErrorCode::CantOpen);
    assert_eq!(ErrorCode::from_c(999), ErrorCode::Unknown);
}
