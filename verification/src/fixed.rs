//! Single integers stored as values: fixed width, nothing around them.

use bytes::{Bytes, BytesMut};
use vstd::prelude::*;

use crate::buffer;
use crate::cursor;
use crate::endian;
use crate::error;
use crate::error::{Error, ErrorView, Fault, FaultView};

verus! {

/// What is wrong with a value of eight bytes that has some other length.
pub open spec fn wrong_width(what: &'static str, got: nat) -> ErrorView {
    ErrorView::Encoding(FaultView::WrongWidth { what, got: got as usize })
}

/// Four bytes, least significant first.
pub fn encode_u32_le(v: u32) -> (r: Bytes)
    ensures
        buffer::content(r) == endian::le_bytes(v as nat, 4),
{
    let mut buf = BytesMut::new();
    buffer::put_u32_le(&mut buf, v);
    proof {
        assert(buffer::written(buf) =~= endian::le_bytes(v as nat, 4));
    }
    buf.freeze()
}

/// Eight bytes, least significant first.
pub fn encode_u64_le(v: u64) -> (r: Bytes)
    ensures
        buffer::content(r) == endian::le_bytes(v as nat, 8),
{
    let mut buf = BytesMut::new();
    buffer::put_u64_le(&mut buf, v);
    proof {
        assert(buffer::written(buf) =~= endian::le_bytes(v as nat, 8));
    }
    buf.freeze()
}

/// Eight bytes, most significant first.
pub fn encode_u64_be(v: u64) -> (r: Bytes)
    ensures
        buffer::content(r) == endian::be_bytes(v as nat, 8),
{
    let mut buf = BytesMut::new();
    buffer::put_u64(&mut buf, v);
    proof {
        assert(buffer::written(buf) =~= endian::be_bytes(v as nat, 8));
    }
    buf.freeze()
}

/// The number that eight little-endian bytes hold, or the error that they are not eight.
pub open spec fn decoded_u64_le(b: Seq<u8>, what: &'static str) -> Result<u64, ErrorView> {
    if b.len() == 8 {
        Ok(endian::le_value(b) as u64)
    } else {
        Err(wrong_width(what, b.len()))
    }
}

/// The number that eight big-endian bytes hold, or the error that they are not eight.
pub open spec fn decoded_u64_be(b: Seq<u8>, what: &'static str) -> Result<u64, ErrorView> {
    if b.len() == 8 {
        Ok(endian::be_value(b) as u64)
    } else {
        Err(wrong_width(what, b.len()))
    }
}

/// The signed number that eight little-endian bytes hold, or the error that they are not eight.
pub open spec fn decoded_i64_le(b: Seq<u8>, what: &'static str) -> Result<i64, ErrorView> {
    if b.len() == 8 {
        Ok(endian::i64_of_bits(endian::le_value(b)) as i64)
    } else {
        Err(wrong_width(what, b.len()))
    }
}

pub fn decode_u64_le(bytes: &[u8], what: &'static str) -> (r: Result<u64, Error>)
    ensures
        error::agrees(r, decoded_u64_le(bytes@, what)),
{
    if bytes.len() != 8 {
        return Err(Error::Encoding(Fault::WrongWidth { what, got: bytes.len() }));
    }
    Ok(cursor::u64_of_le(bytes))
}

pub fn decode_u64_be(bytes: &[u8], what: &'static str) -> (r: Result<u64, Error>)
    ensures
        error::agrees(r, decoded_u64_be(bytes@, what)),
{
    if bytes.len() != 8 {
        return Err(Error::Encoding(Fault::WrongWidth { what, got: bytes.len() }));
    }
    let high: u64 = 0x100_0000 * bytes[0] as u64 + 0x1_0000 * bytes[1] as u64 + 0x100
        * bytes[2] as u64 + bytes[3] as u64;
    let low: u64 = 0x100_0000 * bytes[4] as u64 + 0x1_0000 * bytes[5] as u64 + 0x100
        * bytes[6] as u64 + bytes[7] as u64;
    proof {
        reveal_with_fuel(endian::be_value, 9);
    }
    Ok(0x1_0000_0000 * high + low)
}

pub fn decode_i64_le(bytes: &[u8], what: &'static str) -> (r: Result<i64, Error>)
    ensures
        error::agrees(r, decoded_i64_le(bytes@, what)),
{
    match decode_u64_le(bytes, what) {
        Err(e) => Err(e),
        Ok(v) => {
            proof {
                endian::lemma_le_value_bound(bytes@);
                endian::lemma_byte_ranges();
            }
            Ok(cursor::i64_from_u64(v))
        },
    }
}

/// Eight bytes read back as the number they were written from, whichever end comes first.
pub proof fn law_fixed_round_trip(v: u64, i: i64, what: &'static str)
    ensures
        decoded_u64_le(endian::le_bytes(v as nat, 8), what) == Ok::<u64, ErrorView>(v),
        decoded_u64_be(endian::be_bytes(v as nat, 8), what) == Ok::<u64, ErrorView>(v),
        decoded_i64_le(endian::le_bytes(endian::i64_bits(i), 8), what) == Ok::<i64, ErrorView>(i),
{
    endian::lemma_byte_ranges();
    endian::lemma_le_bytes_len(v as nat, 8);
    endian::lemma_be_bytes_len(v as nat, 8);
    endian::lemma_le_bytes_len(endian::i64_bits(i), 8);
    endian::law_le_round_trip(v as nat, 8);
    endian::law_be_round_trip(v as nat, 8);
    endian::law_le_round_trip(endian::i64_bits(i), 8);
}

} // verus!
