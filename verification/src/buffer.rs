//! The byte buffers of the `bytes` crate, as far as the line splitter uses
//! them. Nothing in this file is proved: each contract restates what the
//! crate's source does to the bytes that a buffer holds. What a buffer has
//! allocated, and whether its bytes are shared, is of no concern here.

use vstd::prelude::*;
use bytes::{Bytes, BytesMut};

verus! {

/// `bytes::BytesMut`, a growable buffer of bytes. Nothing inside it is
/// visible; `buffered` names what it holds.
#[verifier::external_type_specification]
#[verifier::external_body]
pub struct ExBytesMut(bytes::BytesMut);

/// `bytes::Bytes`, an immutable buffer of bytes. Nothing inside it is
/// visible; `frozen` names what it holds.
#[verifier::external_type_specification]
#[verifier::external_body]
pub struct ExBytes(bytes::Bytes);

/// The bytes that a `BytesMut` holds, first to last.
pub uninterp spec fn buffered(buf: BytesMut) -> Seq<u8>;

/// The bytes that a `Bytes` holds, first to last.
pub uninterp spec fn frozen(bytes: Bytes) -> Seq<u8>;

/// `BytesMut::new` gives a buffer of length zero.
pub assume_specification[ BytesMut::new ]() -> (buf: BytesMut)
    ensures
        buffered(buf) == Seq::<u8>::empty(),
;

/// `BytesMut::len` is the number of bytes held.
pub assume_specification[ BytesMut::len ](buf: &BytesMut) -> (len: usize)
    ensures
        len == buffered(*buf).len(),
;

/// `BytesMut::extend_from_slice` appends the slice to what is held. It
/// reserves room first and panics if the capacity asked for overflows, so
/// the new length has to stay within `isize::MAX`, the most that one
/// allocation can hold. That an allocation within that limit succeeds is
/// taken for granted, as vstd does for `Vec`.
pub assume_specification[ BytesMut::extend_from_slice ](buf: &mut BytesMut, extend: &[u8])
    requires
        buffered(*old(buf)).len() + extend@.len() <= isize::MAX,
    ensures
        buffered(*final(buf)) == buffered(*old(buf)) + extend@,
;

/// `BytesMut::split_to` hands out the first `at` bytes as a buffer of their
/// own and keeps the rest. It panics when `at` is beyond the length.
pub assume_specification[ BytesMut::split_to ](buf: &mut BytesMut, at: usize) -> (head: BytesMut)
    requires
        at <= buffered(*old(buf)).len(),
    ensures
        buffered(head) == buffered(*old(buf)).subrange(0, at as int),
        buffered(*final(buf)) == buffered(*old(buf)).subrange(
            at as int,
            buffered(*old(buf)).len() as int,
        ),
;

/// `BytesMut::freeze` turns the buffer into an immutable one that holds the
/// same bytes.
pub assume_specification[ BytesMut::freeze ](buf: BytesMut) -> (bytes: Bytes)
    ensures
        frozen(bytes) == buffered(buf),
;

/// `Bytes::truncate` keeps the first `len` bytes, and everything when `len`
/// is not below the length.
pub assume_specification[ Bytes::truncate ](bytes: &mut Bytes, len: usize)
    ensures
        frozen(*final(bytes)) == if len < frozen(*old(bytes)).len() {
            frozen(*old(bytes)).subrange(0, len as int)
        } else {
            frozen(*old(bytes))
        },
;

/// `BufMut::put_u8`, which for `BytesMut` appends the one byte by way of
/// `extend_from_slice`, and so asks the same of the new length.
#[verifier::external_body]
pub(crate) fn put_u8(buf: &mut BytesMut, byte: u8)
    requires
        buffered(*old(buf)).len() < isize::MAX,
    ensures
        buffered(*final(buf)) == buffered(*old(buf)).push(byte),
{
    bytes::BufMut::put_u8(buf, byte)
}

/// `Deref::deref` of `BytesMut`: the held bytes as a slice.
#[verifier::external_body]
pub(crate) fn buffered_slice(buf: &BytesMut) -> (slice: &[u8])
    ensures
        slice@ == buffered(*buf),
{
    core::ops::Deref::deref(buf)
}

/// `Deref::deref` of `Bytes`: the held bytes as a slice.
#[verifier::external_body]
pub(crate) fn frozen_slice(bytes: &Bytes) -> (slice: &[u8])
    ensures
        slice@ == frozen(*bytes),
{
    core::ops::Deref::deref(bytes)
}

} // verus!
