use bytes::Bytes;
use framed_conn::codec::CodecError;
use framed_conn::connection::{Connection, ConnectionError, Reaction};
use framed_conn::framing::FrameCodec;
use framed_conn::script::ScriptStream;
use framed_conn::stream::{ByteStream, Event};

fn conn_with(stream: ScriptStream) -> Connection<ScriptStream, FrameCodec> {
    Connection::new(stream, FrameCodec::new())
}

fn expect_delivered_ok(
    r: Result<Reaction<Result<Vec<u8>, CodecError>>, ConnectionError>,
    payload: &[u8],
) {
    match r {
        Ok(Reaction::Value(Ok(v))) => assert_eq!(v.as_slice(), payload),
        other => panic!("expected a delivered message, got {:?}", other),
    }
}

fn expect_continue(r: Result<Reaction<Result<Vec<u8>, CodecError>>, ConnectionError>) {
    assert!(matches!(r, Ok(Reaction::Continue)));
}

#[test]
fn partial_write_requeues_remainder_at_front() {
    let mut stream = ScriptStream::new(7);
    stream.set_ready(false, true);
    stream.plan_write_accept(4);
    let mut conn = conn_with(stream);
    let a: Vec<u8> = (0u8..10).collect();
    let b: Vec<u8> = (10u8..15).collect();
    conn.add_write_buffer(Bytes::from(a.clone()));
    conn.add_write_buffer(Bytes::from(b.clone()));
    assert!(conn.write_buffers().is_ok());
    assert_eq!(conn.stream_ref().sent_bytes().as_slice(), &a[0..4]);
    let queue = conn.pending_writes();
    assert_eq!(queue.len(), 2);
    assert_eq!(queue[0].as_ref(), &a[4..10]);
    assert_eq!(queue[1].as_ref(), &b[..]);
}

#[test]
fn wire_sees_submissions_in_order_despite_interruptions() {
    let mut stream = ScriptStream::new(7);
    stream.set_ready(false, true);
    stream.plan_write_accept(2);
    let mut conn = conn_with(stream);
    let a = vec![1u8, 2, 3, 4, 5];
    let b = vec![6u8, 7, 8];
    let c = vec![9u8];
    expect_continue(conn.react(Reaction::Value(Bytes::from(a.clone()))));
    // only a[0..2] went out; the rest of A is re-queued at the front
    assert_eq!(conn.stream_ref().sent_bytes().as_slice(), &a[0..2]);
    expect_continue(conn.react(Reaction::Value(Bytes::from(b.clone()))));
    expect_continue(conn.react(Reaction::Value(Bytes::from(c.clone()))));
    assert!(conn.pending_writes().is_empty());
    let mut expected = a;
    expected.extend_from_slice(&b);
    expected.extend_from_slice(&c);
    assert_eq!(conn.stream_ref().sent_bytes().as_slice(), expected.as_slice());
}

#[test]
fn would_block_requeues_buffer_unchanged() {
    let mut stream = ScriptStream::new(7);
    stream.set_ready(false, true);
    stream.plan_write_refusal();
    let mut conn = conn_with(stream);
    conn.add_write_buffer(Bytes::from(vec![1u8, 2, 3]));
    assert!(conn.write_buffers().is_ok());
    assert!(conn.stream_ref().sent_bytes().is_empty());
    let queue = conn.pending_writes();
    assert_eq!(queue.len(), 1);
    assert_eq!(queue[0].as_ref(), &[1u8, 2, 3][..]);
}

#[test]
fn submission_alone_performs_no_io() {
    let stream = ScriptStream::new(7);
    let mut conn = conn_with(stream);
    expect_continue(conn.react(Reaction::Value(Bytes::from(vec![1u8, 2]))));
    assert!(conn.stream_ref().sent_bytes().is_empty());
    assert_eq!(conn.pending_writes().len(), 1);
}

#[test]
fn write_failure_surfaces_connection_error() {
    let mut stream = ScriptStream::new(7);
    stream.set_ready(false, true);
    stream.plan_write_failure();
    let mut conn = conn_with(stream);
    conn.add_write_buffer(Bytes::from(vec![1u8, 2, 3]));
    assert!(matches!(
        conn.write_buffers(),
        Err(ConnectionError::ConnectionClosed)
    ));
    // nothing reached the wire and nothing was dropped
    assert!(conn.stream_ref().sent_bytes().is_empty());
    assert_eq!(conn.pending_writes().len(), 1);
}

#[test]
fn mismatched_token_event_passes_through_unchanged() {
    let stream = ScriptStream::new(7);
    let mut conn = conn_with(stream);
    let ev = Event { token: 9, readable: true, writable: true };
    match conn.react(Reaction::Event(ev)) {
        Ok(Reaction::Event(back)) => assert_eq!(back, ev),
        other => panic!("expected the event back, got {:?}", other),
    }
    // the connection was not touched: its stream is still not ready
    assert!(conn.stream_ref().sent_bytes().is_empty());
}

#[test]
fn frames_across_two_events_deliver_one_per_reaction() {
    let mut stream = ScriptStream::new(7);
    // three complete frames and the header plus first byte of a fourth
    stream.plan_read_chunk(vec![1u8, 11, 1, 12, 1, 13, 2, 14]);
    let mut conn = conn_with(stream);
    let ev = Event { token: 7, readable: true, writable: false };
    expect_delivered_ok(conn.react(Reaction::Event(ev)), &[11]);
    expect_delivered_ok(conn.react(Reaction::Continue), &[12]);
    expect_delivered_ok(conn.react(Reaction::Continue), &[13]);
    // the backlog is drained; frame four is still incomplete
    expect_continue(conn.react(Reaction::Continue));
    // the rest of frame four arrives with the next readiness event
    conn.stream_mut().plan_read_chunk(vec![15u8]);
    expect_delivered_ok(conn.react(Reaction::Event(ev)), &[14, 15]);
}

#[test]
fn malformed_frames_are_delivered_as_data_in_order() {
    let mut stream = ScriptStream::new(7);
    stream.plan_read_chunk(vec![1u8, 11, 0xee, 1, 12]);
    let mut conn = conn_with(stream);
    let ev = Event { token: 7, readable: true, writable: false };
    expect_delivered_ok(conn.react(Reaction::Event(ev)), &[11]);
    match conn.react(Reaction::Continue) {
        Ok(Reaction::Value(Err(CodecError::MalformedMessage(raw)))) => {
            assert_eq!(raw.as_ref(), &[0xee][..]);
        },
        other => panic!("expected a malformed outcome, got {:?}", other),
    }
    expect_delivered_ok(conn.react(Reaction::Continue), &[12]);
    expect_continue(conn.react(Reaction::Continue));
}

#[test]
fn fatal_read_error_surfaces_connection_error() {
    let mut stream = ScriptStream::new(7);
    stream.plan_read_failure();
    let mut conn = conn_with(stream);
    let ev = Event { token: 7, readable: true, writable: false };
    assert!(matches!(
        conn.react(Reaction::Event(ev)),
        Err(ConnectionError::ConnectionClosed)
    ));
}

#[test]
fn matching_event_flushes_writes_before_reading() {
    let mut stream = ScriptStream::new(7);
    stream.plan_read_chunk(vec![1u8, 42]);
    let mut conn = conn_with(stream);
    conn.add_write_buffer(Bytes::from(vec![5u8, 6]));
    let ev = Event { token: 7, readable: true, writable: true };
    expect_delivered_ok(conn.react(Reaction::Event(ev)), &[42]);
    assert_eq!(conn.stream_ref().sent_bytes().as_slice(), &[5u8, 6]);
    assert!(conn.pending_writes().is_empty());
}

#[test]
fn accessors_expose_the_owned_stream() {
    let stream = ScriptStream::new(21);
    let mut conn = conn_with(stream);
    assert_eq!(conn.token(), 21);
    assert_eq!(conn.stream_ref().token(), 21);
    conn.stream_mut().set_ready(true, true);
    let stream = conn.into_inner();
    assert_eq!(stream.token(), 21);
}

#[test]
fn write_only_event_still_delivers_backlog() {
    let mut stream = ScriptStream::new(7);
    stream.plan_read_chunk(vec![1u8, 33, 1, 34]);
    let mut conn = conn_with(stream);
    let readable = Event { token: 7, readable: true, writable: false };
    expect_delivered_ok(conn.react(Reaction::Event(readable)), &[33]);
    // a later event that grants no readability still hands out what is queued
    let write_only = Event { token: 7, readable: false, writable: true };
    expect_delivered_ok(conn.react(Reaction::Event(write_only)), &[34]);
    expect_continue(conn.react(Reaction::Event(write_only)));
}

#[test]
fn empty_buffer_is_flushed_without_effect() {
    let mut stream = ScriptStream::new(7);
    stream.set_ready(false, true);
    let mut conn = conn_with(stream);
    conn.add_write_buffer(Bytes::new());
    assert!(conn.write_buffers().is_ok());
    assert!(conn.stream_ref().sent_bytes().is_empty());
    assert!(conn.pending_writes().is_empty());
}
