//! The bytes that travel between nodes, held by the `bytes` crate.

use bytes::{Bytes, BytesMut};
use vstd::prelude::*;

verus! {

/// An encoded message: `bytes::Bytes`. What it holds is named by [`contents`].
#[verifier::external_type_specification]
#[verifier::external_body]
pub struct ExBytes(Bytes);

/// A buffer that a message is read into: `bytes::BytesMut`. What it holds is named by
/// [`buffered`].
#[verifier::external_type_specification]
#[verifier::external_body]
pub struct ExBytesMut(BytesMut);

/// The bytes that a message holds, in order.
pub uninterp spec fn contents(message: Bytes) -> Seq<u8>;

/// The bytes that a buffer holds, in order.
pub uninterp spec fn buffered(buffer: BytesMut) -> Seq<u8>;

/// `Bytes::len` returns the number of bytes that the message holds.
#[verifier::external_body]
pub(crate) fn message_len(message: &Bytes) -> (r: usize)
    ensures
        r == contents(*message).len(),
{
    message.len()
}

/// `BytesMut::zeroed` returns a buffer of `len` zero bytes. It allocates a vector of that length,
/// which panics where the length is over `isize::MAX`.
#[verifier::external_body]
pub(crate) fn zeroed(len: usize) -> (r: BytesMut)
    requires
        len <= isize::MAX,
    ensures
        buffered(r) == Seq::new(len as nat, |i: int| 0u8),
{
    BytesMut::zeroed(len)
}

/// `BytesMut::freeze` turns the buffer into a message that holds the same bytes.
#[verifier::external_body]
pub(crate) fn freeze(buffer: BytesMut) -> (r: Bytes)
    ensures
        contents(r) == buffered(buffer),
{
    buffer.freeze()
}

/// `BytesMut` dereferences to the slice of the bytes that it holds.
#[verifier::external_body]
pub(crate) fn as_slice(buffer: &BytesMut) -> (r: &[u8])
    ensures
        r@ == buffered(*buffer),
{
    buffer
}

} // verus!
