//! Reading fixed-width and length-prefixed fields off the front of a byte slice.

use common::serde::encoding::decode_array_count;
use vstd::prelude::*;

use crate::endian;
use crate::error;
use crate::error::{Error, ErrorView, Fault, FaultView, Part};

verus! {

/// What reading a field off the front of some bytes comes to: the field or an error, and the
/// bytes that are then left.
pub struct Parse<T> {
    pub out: Result<T, ErrorView>,
    pub rest: Seq<u8>,
}

/// The error of an input that ends inside a field.
pub open spec fn truncated(what: &'static str, part: Part, need: int, got: nat) -> ErrorView {
    ErrorView::Encoding(FaultView::Truncated { what, part, need: need as usize, got: got as usize })
}

/// One byte.
pub open spec fn parse_u8(s: Seq<u8>, what: &'static str, part: Part) -> Parse<u8> {
    if s.len() == 0 {
        Parse { out: Err(truncated(what, part, 1, 0)), rest: s }
    } else {
        Parse { out: Ok(s[0]), rest: s.skip(1) }
    }
}

/// One byte that is 0 or 1.
pub open spec fn parse_bool(s: Seq<u8>, what: &'static str, part: Part) -> Parse<bool> {
    let p = parse_u8(s, what, part);
    match p.out {
        Err(e) => Parse { out: Err(e), rest: p.rest },
        Ok(b) => if b == 0 {
            Parse { out: Ok(false), rest: p.rest }
        } else if b == 1 {
            Parse { out: Ok(true), rest: p.rest }
        } else {
            Parse {
                out: Err(ErrorView::Encoding(FaultView::InvalidBool { what, part, byte: b })),
                rest: p.rest,
            }
        },
    }
}

/// `n` bytes as a number, least significant byte first.
pub open spec fn parse_le(s: Seq<u8>, n: nat, what: &'static str, part: Part) -> Parse<nat> {
    if s.len() < n {
        Parse { out: Err(truncated(what, part, n as int, s.len())), rest: s }
    } else {
        Parse { out: Ok(endian::le_value(s.take(n as int))), rest: s.skip(n as int) }
    }
}

/// A four-byte length, then that many bytes.
pub open spec fn parse_blob(s: Seq<u8>, what: &'static str) -> Parse<Seq<u8>> {
    let p = parse_le(s, 4, what, Part::Length);
    match p.out {
        Err(e) => Parse { out: Err(e), rest: p.rest },
        Ok(len) => if p.rest.len() < len {
            Parse {
                out: Err(truncated(what, Part::Blob, len as int, p.rest.len())),
                rest: p.rest,
            }
        } else {
            Parse { out: Ok(p.rest.take(len as int)), rest: p.rest.skip(len as int) }
        },
    }
}

/// The count prefix of an array.
pub open spec fn parse_count(s: Seq<u8>) -> Parse<nat> {
    if s.len() < 2 {
        Parse { out: Err(ErrorView::Encoding(FaultView::TruncatedCount)), rest: s }
    } else {
        Parse { out: Ok(endian::le_value(s.take(2))), rest: s.skip(2) }
    }
}

pub(crate) fn take_u8(cur: &mut &[u8], what: &'static str, part: Part) -> (r: Result<u8, Error>)
    ensures
        error::agrees(r, parse_u8(old(cur)@, what, part).out),
        final(cur)@ == parse_u8(old(cur)@, what, part).rest,
{
    if cur.len() == 0 {
        return Err(Error::Encoding(Fault::Truncated { what, part, need: 1, got: 0 }));
    }
    let b: u8 = cur[0];
    let (_, rest) = cur.split_at(1);
    proof {
        assert(rest@ =~= old(cur)@.skip(1));
    }
    *cur = rest;
    Ok(b)
}

pub(crate) fn take_bool(cur: &mut &[u8], what: &'static str, part: Part) -> (r: Result<
    bool,
    Error,
>)
    ensures
        error::agrees(r, parse_bool(old(cur)@, what, part).out),
        final(cur)@ == parse_bool(old(cur)@, what, part).rest,
{
    match take_u8(cur, what, part) {
        Err(e) => Err(e),
        Ok(0) => Ok(false),
        Ok(1) => Ok(true),
        Ok(other) => Err(Error::Encoding(Fault::InvalidBool { what, part, byte: other })),
    }
}

pub(crate) fn take_u32_le(cur: &mut &[u8], what: &'static str, part: Part) -> (r: Result<
    u32,
    Error,
>)
    ensures
        match parse_le(old(cur)@, 4, what, part).out {
            Ok(v) => r == Ok::<u32, Error>(v as u32) && v < 0x1_0000_0000,
            Err(e) => error::fails(r, e),
        },
        final(cur)@ == parse_le(old(cur)@, 4, what, part).rest,
{
    if cur.len() < 4 {
        return Err(Error::Encoding(Fault::Truncated { what, part, need: 4, got: cur.len() }));
    }
    let (head, rest) = cur.split_at(4);
    let v: u32 = head[0] as u32 + 0x100 * head[1] as u32 + 0x1_0000 * head[2] as u32 + 0x100_0000
        * head[3] as u32;
    proof {
        let s = old(cur)@.take(4);
        assert(head@ =~= s);
        assert(rest@ =~= old(cur)@.skip(4));
        lemma_le_value_4(s);
    }
    *cur = rest;
    Ok(v)
}

pub(crate) fn take_u64_le(cur: &mut &[u8], what: &'static str, part: Part) -> (r: Result<
    u64,
    Error,
>)
    ensures
        match parse_le(old(cur)@, 8, what, part).out {
            Ok(v) => r == Ok::<u64, Error>(v as u64) && v < 0x1_0000_0000_0000_0000,
            Err(e) => error::fails(r, e),
        },
        final(cur)@ == parse_le(old(cur)@, 8, what, part).rest,
{
    if cur.len() < 8 {
        return Err(Error::Encoding(Fault::Truncated { what, part, need: 8, got: cur.len() }));
    }
    let (head, rest) = cur.split_at(8);
    let v: u64 = u64_of_le(head);
    proof {
        assert(head@ =~= old(cur)@.take(8));
        assert(rest@ =~= old(cur)@.skip(8));
    }
    *cur = rest;
    Ok(v)
}

pub(crate) fn take_i64_le(cur: &mut &[u8], what: &'static str, part: Part) -> (r: Result<
    i64,
    Error,
>)
    ensures
        match parse_le(old(cur)@, 8, what, part).out {
            Ok(v) => r == Ok::<i64, Error>(endian::i64_of_bits(v) as i64) && v < 0x1_0000_0000_0000_0000,
            Err(e) => error::fails(r, e),
        },
        final(cur)@ == parse_le(old(cur)@, 8, what, part).rest,
{
    match take_u64_le(cur, what, part) {
        Err(e) => Err(e),
        Ok(v) => Ok(i64_from_u64(v)),
    }
}

pub(crate) fn read_blob<'a>(cur: &mut &'a [u8], what: &'static str) -> (r: Result<&'a [u8], Error>)
    ensures
        match parse_blob(old(cur)@, what).out {
            Ok(b) => r is Ok && r->Ok_0@ == b,
            Err(e) => error::fails(r, e),
        },
        final(cur)@ == parse_blob(old(cur)@, what).rest,
{
    let len: usize = match take_u32_le(cur, what, Part::Length) {
        Err(e) => {
            return Err(e);
        },
        Ok(len) => len as usize,
    };
    if cur.len() < len {
        return Err(
            Error::Encoding(Fault::Truncated { what, part: Part::Blob, need: len, got: cur.len() }),
        );
    }
    let (blob, rest) = cur.split_at(len);
    proof {
        assert(blob@ =~= cur@.take(len as int));
        assert(rest@ =~= cur@.skip(len as int));
    }
    *cur = rest;
    Ok(blob)
}

pub(crate) fn read_count(cur: &mut &[u8]) -> (r: Result<usize, Error>)
    ensures
        match parse_count(old(cur)@).out {
            Ok(n) => r == Ok::<usize, Error>(n as usize) && n <= 0xffff,
            Err(e) => error::fails(r, e),
        },
        final(cur)@ == parse_count(old(cur)@).rest,
{
    match decode_array_count(cur) {
        Err(_) => Err(Error::Encoding(Fault::TruncatedCount)),
        Ok(count) => {
            proof {
                endian::lemma_le_value_bound(old(cur)@.take(2));
                endian::lemma_byte_ranges();
            }
            Ok(count)
        },
    }
}

/// The number whose eight bytes, least significant first, are `s`.
pub(crate) fn u64_of_le(s: &[u8]) -> (v: u64)
    requires
        s@.len() == 8,
    ensures
        v == endian::le_value(s@),
{
    let low: u64 = s[0] as u64 + 0x100 * s[1] as u64 + 0x1_0000 * s[2] as u64 + 0x100_0000
        * s[3] as u64;
    let high: u64 = s[4] as u64 + 0x100 * s[5] as u64 + 0x1_0000 * s[6] as u64 + 0x100_0000
        * s[7] as u64;
    proof {
        lemma_le_value_8(s@);
    }
    low + 0x1_0000_0000 * high
}

/// The signed number with the same 64 bits.
pub(crate) fn i64_from_u64(v: u64) -> (r: i64)
    ensures
        r == endian::i64_of_bits(v as nat),
{
    assert(v < 0x8000_0000_0000_0000u64 ==> (v as i64) == v) by (bit_vector);
    assert(v >= 0x8000_0000_0000_0000u64 ==> (v as i64) == v - 0x1_0000_0000_0000_0000)
        by (bit_vector);
    v as i64
}

proof fn lemma_le_value_4(s: Seq<u8>)
    requires
        s.len() == 4,
    ensures
        endian::le_value(s) == s[0] + 0x100 * s[1] + 0x1_0000 * s[2] + 0x100_0000 * s[3],
{
    reveal_with_fuel(endian::le_value, 5);
}

proof fn lemma_le_value_8(s: Seq<u8>)
    requires
        s.len() == 8,
    ensures
        endian::le_value(s) == s[0] + 0x100 * s[1] + 0x1_0000 * s[2] + 0x100_0000 * s[3] + 0x1_0000_0000
            * s[4] + 0x100_0000_0000 * s[5] + 0x1_0000_0000_0000 * s[6] + 0x100_0000_0000_0000
            * s[7],
{
    reveal_with_fuel(endian::le_value, 9);
}

} // verus!
