//! Byte buffers of the `bytes` crate, and the array-count prefix of the `common` crate: what
//! the encoders and decoders take from outside, with the contract each call is relied on for.

use bytes::{BufMut, Bytes, BytesMut};
use common::serde::encoding::EncodingError;
use vstd::prelude::*;

use crate::endian;

verus! {

/// `bytes::Bytes`, seen through [`content`].
#[verifier::external_type_specification]
#[verifier::external_body]
pub struct ExBytes(bytes::Bytes);

/// `bytes::BytesMut`, seen through [`written`].
#[verifier::external_type_specification]
#[verifier::external_body]
pub struct ExBytesMut(bytes::BytesMut);

/// `common::serde::encoding::EncodingError`, carried to its caller and no further.
#[verifier::external_type_specification]
#[verifier::external_body]
pub struct ExEncodingError(common::serde::encoding::EncodingError);

/// The bytes that a `Bytes` holds.
pub uninterp spec fn content(b: Bytes) -> Seq<u8>;

/// The bytes written to a `BytesMut` so far.
pub uninterp spec fn written(b: BytesMut) -> Seq<u8>;

/// The size up to which a `BytesMut` can grow whatever its history. Growing doubles the
/// capacity, and a capacity above `isize::MAX` panics.
pub open spec fn buffer_limit() -> nat {
    (isize::MAX / 2) as nat
}

/// `BytesMut::new`: an empty buffer.
pub assume_specification[ BytesMut::new ]() -> (r: BytesMut)
    ensures
        written(r) == Seq::<u8>::empty(),
;

/// `BytesMut::len`: how many bytes were written.
pub assume_specification[ BytesMut::len ](b: &BytesMut) -> (r: usize)
    ensures
        r == written(*b).len(),
;

/// `BytesMut::extend_from_slice`: appends the slice.
pub assume_specification[ BytesMut::extend_from_slice ](b: &mut BytesMut, extend: &[u8])
    requires
        written(*old(b)).len() + extend@.len() <= buffer_limit(),
    ensures
        written(*final(b)) == written(*old(b)) + extend@,
;

/// `BytesMut::freeze`: the same bytes, no longer growing.
pub assume_specification[ BytesMut::freeze ](b: BytesMut) -> (r: bytes::Bytes)
    ensures
        content(r) == written(b),
;

/// `Bytes::copy_from_slice`: a `Bytes` with the bytes of the slice.
pub assume_specification[ bytes::Bytes::copy_from_slice ](data: &[u8]) -> (r: bytes::Bytes)
    ensures
        content(r) == data@,
;

/// `<Bytes as Clone>::clone`: the same bytes.
pub assume_specification[ <bytes::Bytes as Clone>::clone ](b: &bytes::Bytes) -> (r: bytes::Bytes)
    ensures
        content(r) == content(*b),
;

/// `<Bytes as AsRef<[u8]>>::as_ref`: the bytes as a slice.
#[verifier::external_body]
pub(crate) fn as_slice(b: &Bytes) -> (r: &[u8])
    ensures
        r@ == content(*b),
{
    b.as_ref()
}

/// `<BytesMut as BufMut>::put_u8`: appends one byte.
#[verifier::external_body]
pub(crate) fn put_u8(buf: &mut BytesMut, n: u8)
    requires
        written(*old(buf)).len() + 1 <= buffer_limit(),
    ensures
        written(*final(buf)) == written(*old(buf)) + seq![n],
{
    buf.put_u8(n)
}

/// `<BytesMut as BufMut>::put_u32_le`: appends four bytes, least significant first.
#[verifier::external_body]
pub(crate) fn put_u32_le(buf: &mut BytesMut, n: u32)
    requires
        written(*old(buf)).len() + 4 <= buffer_limit(),
    ensures
        written(*final(buf)) == written(*old(buf)) + endian::le_bytes(n as nat, 4),
{
    buf.put_u32_le(n)
}

/// `<BytesMut as BufMut>::put_u64_le`: appends eight bytes, least significant first.
#[verifier::external_body]
pub(crate) fn put_u64_le(buf: &mut BytesMut, n: u64)
    requires
        written(*old(buf)).len() + 8 <= buffer_limit(),
    ensures
        written(*final(buf)) == written(*old(buf)) + endian::le_bytes(n as nat, 8),
{
    buf.put_u64_le(n)
}

/// `<BytesMut as BufMut>::put_i64_le`: appends the eight bytes of the two's complement, least
/// significant first.
#[verifier::external_body]
pub(crate) fn put_i64_le(buf: &mut BytesMut, n: i64)
    requires
        written(*old(buf)).len() + 8 <= buffer_limit(),
    ensures
        written(*final(buf)) == written(*old(buf)) + endian::le_bytes(endian::i64_bits(n), 8),
{
    buf.put_i64_le(n)
}

/// `<BytesMut as BufMut>::put_u32`: appends four bytes, most significant first.
#[verifier::external_body]
pub(crate) fn put_u32(buf: &mut BytesMut, n: u32)
    requires
        written(*old(buf)).len() + 4 <= buffer_limit(),
    ensures
        written(*final(buf)) == written(*old(buf)) + endian::be_bytes(n as nat, 4),
{
    buf.put_u32(n)
}

/// `<BytesMut as BufMut>::put_u64`: appends eight bytes, most significant first.
#[verifier::external_body]
pub(crate) fn put_u64(buf: &mut BytesMut, n: u64)
    requires
        written(*old(buf)).len() + 8 <= buffer_limit(),
    ensures
        written(*final(buf)) == written(*old(buf)) + endian::be_bytes(n as nat, 8),
{
    buf.put_u64(n)
}

/// `common::serde::encoding::encode_array_count`: appends the count as two bytes, least
/// significant first. It panics on a count above `u16::MAX`.
pub assume_specification[ common::serde::encoding::encode_array_count ](
    count: usize,
    buf: &mut BytesMut,
)
    requires
        count <= 0xffff,
        written(*old(buf)).len() + 2 <= buffer_limit(),
    ensures
        written(*final(buf)) == written(*old(buf)) + endian::le_bytes(count as nat, 2),
;

/// `common::serde::encoding::decode_array_count`: takes a two-byte count off the front of the
/// slice, least significant byte first; fails, leaving the slice alone, exactly when fewer than
/// two bytes are left.
pub assume_specification[ common::serde::encoding::decode_array_count ](buf: &mut &[u8]) -> (r:
    Result<usize, EncodingError>)
    ensures
        match r {
            Ok(count) => {
                &&& old(buf)@.len() >= 2
                &&& count == endian::le_value(old(buf)@.take(2))
                &&& final(buf)@ == old(buf)@.skip(2)
            },
            Err(_) => old(buf)@.len() < 2 && final(buf)@ == old(buf)@,
        },
;

} // verus!
