//! Immutable byte buffers handed to and taken from callers.

use bytes::Bytes;
use nom::AsBytes;
use vstd::prelude::*;

verus! {

/// `bytes::Bytes`: an immutable buffer of bytes. What is inside is seen
/// only through `buffer_bytes`.
#[verifier::external_type_specification]
#[verifier::external_body]
pub struct ExBytes(Bytes);

/// The bytes that a buffer holds, in order.
pub uninterp spec fn buffer_bytes(b: Bytes) -> Seq<u8>;

/// `Bytes::copy_from_slice`: the buffer that it gives holds the bytes of `data`.
#[verifier::external_body]
pub(crate) fn buffer_from_slice(data: &[u8]) -> (r: Bytes)
    ensures
        buffer_bytes(r) == data@,
{
    Bytes::copy_from_slice(data)
}

/// `Bytes::as_ref`: the slice that it gives holds the bytes of the buffer.
#[verifier::external_body]
pub(crate) fn buffer_as_slice(b: &Bytes) -> (r: &[u8])
    ensures
        r@ == buffer_bytes(*b),
{
    b.as_ref()
}

/// `nom::AsBytes::as_bytes` on a byte slice: it gives the slice itself.
#[verifier::external_body]
pub(crate) fn slice_as_bytes(s: &[u8]) -> (r: &[u8])
    ensures
        r@ == s@,
{
    s.as_bytes()
}

} // verus!
