//! The outbound byte-buffer type: `bytes::Bytes`, seen through its content.
//!
//! `Bytes` is opaque to the verifier. `content` names the byte sequence a
//! buffer holds, and the wrappers below state what the operations the
//! connection relies on do to that sequence.

use vstd::prelude::*;

verus! {

#[verifier::external_type_specification]
#[verifier::external_body]
pub struct ExBytes(bytes::Bytes);

/// The sequence of bytes a `bytes::Bytes` buffer holds.
pub uninterp spec fn content(b: bytes::Bytes) -> Seq<u8>;

/// Relies on `<Bytes as From<Vec<u8>>>::from`: the buffer holds exactly the
/// bytes of the vector.
#[verifier::external_body]
pub(crate) fn bytes_from_vec(v: Vec<u8>) -> (b: bytes::Bytes)
    ensures
        content(b) == v@,
{
    bytes::Bytes::from(v)
}

/// Relies on `Bytes::len`: the number of bytes the buffer holds.
#[verifier::external_body]
pub(crate) fn bytes_len(b: &bytes::Bytes) -> (n: usize)
    ensures
        n == content(*b).len(),
{
    b.len()
}

/// Relies on `Bytes::slice`: with a `from..` range in bounds, the result
/// holds the bytes of the buffer from that position on.
#[verifier::external_body]
pub(crate) fn bytes_slice_from(b: &bytes::Bytes, from: usize) -> (r: bytes::Bytes)
    requires
        from <= content(*b).len(),
    ensures
        content(r) == content(*b).skip(from as int),
{
    b.slice(from..)
}

/// Relies on `<Bytes as AsRef<[u8]>>::as_ref`: the slice is the buffer's
/// bytes.
#[verifier::external_body]
pub(crate) fn bytes_as_slice(b: &bytes::Bytes) -> (s: &[u8])
    ensures
        s@ == content(*b),
{
    b.as_ref()
}

} // verus!
