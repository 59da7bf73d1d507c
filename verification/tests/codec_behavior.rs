use framed_conn::codec::{Codec, CodecError, Decoding};
use framed_conn::framing::FrameCodec;
use framed_conn::script::ScriptStream;
use framed_conn::stream::ByteStream;

fn expect_ok(outcome: Option<Result<Vec<u8>, CodecError>>, payload: &[u8]) {
    match outcome {
        Some(Ok(v)) => assert_eq!(v.as_slice(), payload),
        other => panic!("expected a decoded message, got {:?}", other),
    }
}

fn expect_malformed(outcome: Option<Result<Vec<u8>, CodecError>>, raw: &[u8]) {
    match outcome {
        Some(Err(CodecError::MalformedMessage(b))) => assert_eq!(b.as_ref(), raw),
        other => panic!("expected a malformed outcome, got {:?}", other),
    }
}

#[test]
fn encode_prefixes_payload_with_its_length() {
    let encoded = FrameCodec::encode(&vec![10u8, 20, 30]);
    assert_eq!(encoded.as_ref(), &[3u8, 10, 20, 30][..]);
}

#[test]
fn encode_of_empty_message_is_one_zero_byte() {
    let encoded = FrameCodec::encode(&Vec::new());
    assert_eq!(encoded.as_ref(), &[0u8][..]);
}

#[test]
fn encode_then_feed_round_trips() {
    let encoded = FrameCodec::encode(&vec![7u8, 8, 9]);
    let mut codec = FrameCodec::new();
    codec.feed(&encoded.as_ref().to_vec());
    let mut out = codec.drain();
    expect_ok(out.pop_front(), &[7, 8, 9]);
    assert!(out.is_empty());
}

#[test]
fn interleaved_frames_and_malformed_segments_keep_order() {
    // frame [10, 20], malformed 0x80, empty frame, malformed 0xff, frame [7]
    let bytes = vec![2u8, 10, 20, 0x80, 0, 0xff, 1, 7];
    let mut codec = FrameCodec::new();
    codec.feed(&bytes);
    let mut out = codec.drain();
    assert_eq!(out.len(), 5);
    expect_ok(out.pop_front(), &[10, 20]);
    expect_malformed(out.pop_front(), &[0x80]);
    expect_ok(out.pop_front(), &[]);
    expect_malformed(out.pop_front(), &[0xff]);
    expect_ok(out.pop_front(), &[7]);
}

#[test]
fn drain_twice_returns_empty_the_second_time() {
    let mut codec = FrameCodec::new();
    codec.feed(&vec![1u8, 42]);
    let first = codec.drain();
    assert_eq!(first.len(), 1);
    let second = codec.drain();
    assert!(second.is_empty());
}

#[test]
fn partial_frame_waits_for_later_bytes() {
    let mut codec = FrameCodec::new();
    codec.feed(&vec![5u8, 1, 2]);
    assert!(codec.drain().is_empty());
    codec.feed(&vec![3u8, 4, 5]);
    let mut out = codec.drain();
    expect_ok(out.pop_front(), &[1, 2, 3, 4, 5]);
    assert!(out.is_empty());
}

#[test]
fn decode_reads_everything_the_stream_offers() {
    let mut stream = ScriptStream::new(1);
    stream.set_ready(true, false);
    stream.plan_read_chunk(vec![1u8, 5]);
    stream.plan_read_chunk(vec![1u8, 6]);
    let mut codec = FrameCodec::new();
    let d = codec.decode(&mut stream);
    assert!(matches!(d, Decoding::Succeeded));
    let mut out = codec.drain();
    expect_ok(out.pop_front(), &[5]);
    expect_ok(out.pop_front(), &[6]);
    assert!(out.is_empty());
}

#[test]
fn decode_with_nothing_available_is_blocked() {
    let mut stream = ScriptStream::new(1);
    stream.set_ready(true, false);
    let mut codec = FrameCodec::new();
    let d = codec.decode(&mut stream);
    assert!(matches!(d, Decoding::Blocked));
    assert!(codec.drain().is_empty());
}

#[test]
fn decode_surfaces_a_failed_read() {
    let mut stream = ScriptStream::new(1);
    stream.set_ready(true, false);
    stream.plan_read_failure();
    let mut codec = FrameCodec::new();
    let d = codec.decode(&mut stream);
    assert!(matches!(d, Decoding::ConnectionError));
}

#[test]
fn script_stream_records_written_bytes() {
    let mut stream = ScriptStream::new(3);
    stream.set_ready(false, true);
    let outcome = stream.write(&[9u8, 8, 7]);
    assert!(matches!(
        outcome,
        framed_conn::stream::WriteOutcome::Accepted(3)
    ));
    assert_eq!(stream.sent_bytes().as_slice(), &[9u8, 8, 7]);
    assert_eq!(stream.token(), 3);
}

#[test]
fn largest_frame_round_trips() {
    let payload: Vec<u8> = (0..127u8).collect();
    let encoded = FrameCodec::encode(&payload);
    assert_eq!(encoded.len(), 128);
    assert_eq!(encoded[0], 127);
    let mut codec = FrameCodec::new();
    codec.feed(&encoded.as_ref().to_vec());
    let mut out = codec.drain();
    expect_ok(out.pop_front(), payload.as_slice());
    assert!(out.is_empty());
}
