//! Shared byte buffers.
//!
//! Message bytes travel in reference-counted `bytes::Bytes` handles and are
//! written into growable `bytes::BytesMut` buffers. The verifier cannot look
//! inside either type, so this module names what each one holds and states,
//! operation by operation, what the `bytes` crate does to it. Everything else
//! in the crate is proved from these statements.

use bytes::{BufMut, Bytes, BytesMut};
use vstd::bytes::{spec_u128_to_le_bytes, spec_u32_to_le_bytes, spec_u64_to_le_bytes};
use vstd::prelude::*;

verus! {

/// `bytes::Bytes`: an immutable, cheaply cloneable view of a byte region.
#[verifier::external_type_specification]
#[verifier::external_body]
pub struct ExBytes(bytes::Bytes);

/// `bytes::BytesMut`: a growable byte buffer.
#[verifier::external_type_specification]
#[verifier::external_body]
pub struct ExBytesMut(bytes::BytesMut);

/// The bytes that a `Bytes` handle refers to, first to last.
pub uninterp spec fn contents(bytes: Bytes) -> Seq<u8>;

/// The bytes written into a `BytesMut` so far, first to last.
pub uninterp spec fn written(buffer: BytesMut) -> Seq<u8>;

/// `<Bytes as AsRef<[u8]>>::as_ref`: borrows the handle's bytes as a slice.
/// The slice holds exactly the handle's contents.
#[verifier::external_body]
pub(crate) fn as_slice(bytes: &Bytes) -> (slice: &[u8])
    ensures
        slice@ == contents(*bytes),
{
    bytes.as_ref()
}

/// `Bytes::slice` with the range `begin..end`: a new handle onto the same
/// memory, holding the bytes from `begin` up to but excluding `end`. The
/// crate panics unless `begin <= end <= len`, which the precondition demands.
#[verifier::external_body]
pub(crate) fn slice(bytes: &Bytes, begin: usize, end: usize) -> (part: Bytes)
    requires
        begin <= end <= contents(*bytes).len(),
    ensures
        contents(part) == contents(*bytes).subrange(begin as int, end as int),
{
    bytes.slice(begin..end)
}

/// `<Bytes as Clone>::clone`: another handle onto the same bytes.
#[verifier::external_body]
pub(crate) fn share(bytes: &Bytes) -> (copy: Bytes)
    ensures
        contents(copy) == contents(*bytes),
{
    bytes.clone()
}

/// `<Bytes as From<Vec<u8>>>::from`: takes over the vector's allocation; the
/// handle holds the vector's elements in order.
#[verifier::external_body]
pub(crate) fn from_vec(data: Vec<u8>) -> (bytes: Bytes)
    ensures
        contents(bytes) == data@,
{
    Bytes::from(data)
}

/// `BufMut::put_u8` on a `BytesMut`: appends the byte, growing the buffer
/// as needed.
#[verifier::external_body]
pub(crate) fn put_u8(buffer: &mut BytesMut, value: u8)
    ensures
        written(*final(buffer)) == written(*old(buffer)).push(value),
{
    buffer.put_u8(value)
}

/// `BufMut::put_u32_le` on a `BytesMut`: appends the four bytes of `value`,
/// least significant first.
#[verifier::external_body]
pub(crate) fn put_u32_le(buffer: &mut BytesMut, value: u32)
    ensures
        written(*final(buffer)) == written(*old(buffer)) + spec_u32_to_le_bytes(value),
{
    buffer.put_u32_le(value)
}

/// `BufMut::put_u64_le` on a `BytesMut`: appends the eight bytes of `value`,
/// least significant first.
#[verifier::external_body]
pub(crate) fn put_u64_le(buffer: &mut BytesMut, value: u64)
    ensures
        written(*final(buffer)) == written(*old(buffer)) + spec_u64_to_le_bytes(value),
{
    buffer.put_u64_le(value)
}

/// `BufMut::put_u128_le` on a `BytesMut`: appends the sixteen bytes of
/// `value`, least significant first.
#[verifier::external_body]
pub(crate) fn put_u128_le(buffer: &mut BytesMut, value: u128)
    ensures
        written(*final(buffer)) == written(*old(buffer)) + spec_u128_to_le_bytes(value),
{
    buffer.put_u128_le(value)
}

/// `BufMut::put_slice` on a `BytesMut`: appends a copy of the slice.
#[verifier::external_body]
pub(crate) fn put_slice(buffer: &mut BytesMut, source: &[u8])
    ensures
        written(*final(buffer)) == written(*old(buffer)) + source@,
{
    buffer.put_slice(source)
}

} // verus!
