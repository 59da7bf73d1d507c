//! A reactive, non-blocking connection layer between a raw byte stream and an
//! application-level message protocol.
//!
//! The crate has two pieces. A [`codec::Codec`] turns the inbound byte stream
//! into framed decode outcomes and one outbound message into bytes. A
//! [`connection::Connection`] owns one non-blocking stream, a FIFO queue of
//! outbound byte buffers, a FIFO queue of decoded inbound outcomes, and the
//! codec, and reacts to readiness events and outbound submissions by driving
//! I/O in the correct order: bytes are never reordered, duplicated or lost,
//! and decoded messages are delivered in decode order.

pub mod buf;
pub mod codec;
pub mod connection;
pub mod framing;
pub mod script;
pub mod stream;
