use rand::RngCore;
use rcluster::buffered::{ChunkReader, StreamingBuffer};

/// Test that the streamer successfully streams when the stream is more than
/// its capacity.
#[test]
fn test_stream_more_than_capacity() {
    let mut buf = [0u8; 32 * 1024]; // 32 kB stream
    let mut rng = rand::thread_rng();
    rng.fill_bytes(&mut buf);

    let buf = Vec::from(&buf[..]);
    let reader = ChunkReader::new(buf.clone(), 256); // 256 byte buffer
    let streamer = StreamingBuffer::new(reader, Vec::new(), Vec::new());
    let (r, out, _) = streamer.stream();
    assert_eq!(&buf[..], &out[..]);
    assert_eq!(r.pos, buf.len());
}

/// Test that the streamer stops once it encounters the "stopper" bytes at
/// EOF - when it flushes everything other than the stopper to the writer.
#[test]
fn test_stream_with_trailing_stopper() {
    let mut buf = [0u8; 256];
    let mut rng = rand::thread_rng();
    rng.fill_bytes(&mut buf);

    let stop_bytes = Vec::from(&buf[248..]); // assume that last 8 bytes indicate stopper bytes.
    let buf = Vec::from(&buf[..]);
    let reader = ChunkReader::new(buf.clone(), 16);
    let streamer = StreamingBuffer::new(reader, Vec::new(), stop_bytes);
    let (_, out, found) = streamer.stream();
    assert!(found);
    assert_eq!(&buf[..248], &out[..]); // last 8 bytes have been ignored
}

/// The streamer should detect when the stopper bytes are split by buffered
/// reading, and it should bail out successfully.
#[test]
fn test_stream_with_stopper_shared_between() {
    let mut buf = [0u8; 256];
    let mut rng = rand::thread_rng();
    rng.fill_bytes(&mut buf);

    // When the buffer size is 16, some of the stopper will be in the first
    // chunk, and the remaining will be in the next.
    let stop_bytes = Vec::from(&buf[14..22]);
    let input = Vec::from(&buf[..]);
    let reader = ChunkReader::new(input, 16);
    let streamer = StreamingBuffer::new(reader, Vec::new(), stop_bytes);
    let (r, out, found) = streamer.stream();
    assert!(found);
    {
        // Check that the cursor is at 22 (i.e., after consuming stopper)
        let remaining = r.fill_buf();
        assert_eq!(&remaining[..10], &buf[22..32]);
    }
    assert_eq!(r.pos, 22);
    assert_eq!(&buf[..14], &out[..]); // Writer has everything until the stopper
}

/// A payload that carries a prefix of the terminator which the rest of the
/// terminator does not follow still reaches the sink whole, at its original
/// positions, and the cursor ends just past the real terminator.
#[test]
fn test_stream_false_alarm_flush() {
    let stop = b"MAGIC".to_vec();
    let mut input = b"helloMAGworld".to_vec(); // "MAG" is a false alarm
    input.extend_from_slice(b"MAGIC");
    input.extend_from_slice(b"tail");
    // capacity smaller than the terminator: it straddles chunks
    for cap in 1..8usize {
        let reader = ChunkReader::new(input.clone(), cap);
        let streamer = StreamingBuffer::new(reader, Vec::new(), stop.clone());
        let (r, out, found) = streamer.stream();
        assert!(found);
        assert_eq!(&out[..], b"helloMAGworld");
        assert_eq!(r.pos, b"helloMAGworld".len() + b"MAGIC".len());
    }
}

/// A terminator that never occurs leaves the whole source in the sink and
/// the cursor at the end.
#[test]
fn test_stream_without_stopper_occurrence() {
    let stop = b"XYZ".to_vec();
    let input = b"abcXYabXcXY".to_vec();
    let reader = ChunkReader::new(input.clone(), 4);
    let streamer = StreamingBuffer::new(reader, Vec::new(), stop);
    let (r, out, found) = streamer.stream();
    assert!(!found);
    assert_eq!(out, input);
    assert_eq!(r.pos, input.len());
}
