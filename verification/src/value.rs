//! Scalar property values and their byte format: a tag byte, then the payload.

use bytes::{Bytes, BytesMut};
use vstd::prelude::*;

use crate::buffer;
use crate::cursor;
use crate::cursor::Parse;
use crate::endian;
use crate::error;
use crate::error::{Error, ErrorView, Fault, FaultView, Part};
use crate::text;

verus! {

const TAG_NULL: u8 = 0;

const TAG_BOOL: u8 = 1;

const TAG_INT: u8 = 2;

const TAG_FLOAT: u8 = 3;

const TAG_STRING: u8 = 4;

const TAG_BYTES: u8 = 5;

const TAG_DATETIME: u8 = 6;

/// A scalar property value. Lists are multi-valued predicates, not a variant of this type.
#[derive(Debug)]
pub enum TypedValue {
    Null,
    Bool(bool),
    Int(i64),
    /// An IEEE 754 double, by its 64 bits.
    Float(u64),
    String(String),
    Bytes(Bytes),
    /// Milliseconds since the epoch.
    DateTime(i64),
}

/// What a [`TypedValue`] holds.
pub enum ValueView {
    Null,
    Bool(bool),
    Int(i64),
    Float(u64),
    String(Seq<char>),
    Bytes(Seq<u8>),
    DateTime(i64),
}

impl View for TypedValue {
    type V = ValueView;

    open spec fn view(&self) -> ValueView {
        match self {
            TypedValue::Null => ValueView::Null,
            TypedValue::Bool(b) => ValueView::Bool(*b),
            TypedValue::Int(i) => ValueView::Int(*i),
            TypedValue::Float(bits) => ValueView::Float(*bits),
            TypedValue::String(s) => ValueView::String(s@),
            TypedValue::Bytes(b) => ValueView::Bytes(buffer::content(*b)),
            TypedValue::DateTime(millis) => ValueView::DateTime(*millis),
        }
    }
}

impl Clone for TypedValue {
    fn clone(&self) -> (r: TypedValue)
        ensures
            r@ == self@,
    {
        match self {
            TypedValue::Null => TypedValue::Null,
            TypedValue::Bool(b) => TypedValue::Bool(*b),
            TypedValue::Int(i) => TypedValue::Int(*i),
            TypedValue::Float(bits) => TypedValue::Float(*bits),
            TypedValue::String(s) => TypedValue::String(s.clone()),
            TypedValue::Bytes(b) => TypedValue::Bytes(b.clone()),
            TypedValue::DateTime(millis) => TypedValue::DateTime(*millis),
        }
    }
}

/// Whether the bits are those of a number that is not one.
pub open spec fn is_nan(bits: u64) -> bool {
    bits % 0x8000_0000_0000_0000 > 0x7ff0_0000_0000_0000
}

/// Whether the bits are those of zero, with either sign.
pub open spec fn is_zero(bits: u64) -> bool {
    bits % 0x8000_0000_0000_0000 == 0
}

/// Whether two doubles, given by their bits, are equal as numbers.
pub open spec fn same_double(a: u64, b: u64) -> bool {
    &&& !is_nan(a)
    &&& !is_nan(b)
    &&& a == b || (is_zero(a) && is_zero(b))
}

/// Whether two values are equal: of one variant, and their payloads equal, doubles as numbers.
pub open spec fn same_value(a: ValueView, b: ValueView) -> bool {
    match (a, b) {
        (ValueView::Float(x), ValueView::Float(y)) => same_double(x, y),
        _ => a == b,
    }
}

impl PartialEq for TypedValue {
    fn eq(&self, other: &TypedValue) -> (r: bool) {
        match (self, other) {
            (TypedValue::Null, TypedValue::Null) => true,
            (TypedValue::Bool(a), TypedValue::Bool(b)) => *a == *b,
            (TypedValue::Int(a), TypedValue::Int(b)) => *a == *b,
            (TypedValue::Float(a), TypedValue::Float(b)) => doubles_equal(*a, *b),
            (TypedValue::String(a), TypedValue::String(b)) => *a == *b,
            (TypedValue::Bytes(a), TypedValue::Bytes(b)) => bytes_equal(
                buffer::as_slice(a),
                buffer::as_slice(b),
            ),
            (TypedValue::DateTime(a), TypedValue::DateTime(b)) => *a == *b,
            _ => false,
        }
    }
}

impl vstd::std_specs::cmp::PartialEqSpecImpl for TypedValue {
    open spec fn obeys_eq_spec() -> bool {
        true
    }

    open spec fn eq_spec(&self, other: &TypedValue) -> bool {
        same_value(self@, other@)
    }
}

fn doubles_equal(a: u64, b: u64) -> (r: bool)
    ensures
        r == same_double(a, b),
{
    let x: u64 = a % 0x8000_0000_0000_0000;
    let y: u64 = b % 0x8000_0000_0000_0000;
    if x > 0x7ff0_0000_0000_0000 || y > 0x7ff0_0000_0000_0000 {
        return false;
    }
    a == b || (x == 0 && y == 0)
}

fn bytes_equal(a: &[u8], b: &[u8]) -> (r: bool)
    ensures
        r == (a@ == b@),
{
    if a.len() != b.len() {
        return false;
    }
    let mut i: usize = 0;
    while i < a.len()
        invariant
            i <= a.len() == b.len(),
            a@.take(i as int) == b@.take(i as int),
        decreases a.len() - i,
    {
        if a[i] != b[i] {
            return false;
        }
        proof {
            assert(a@.take(i + 1) =~= a@.take(i as int).push(a@[i as int]));
            assert(b@.take(i + 1) =~= b@.take(i as int).push(b@[i as int]));
        }
        i += 1;
    }
    proof {
        assert(a@.take(i as int) =~= a@);
        assert(b@.take(i as int) =~= b@);
    }
    true
}

/// A blob: the four low-order bytes of its length, then its bytes.
pub open spec fn blob_bytes(b: Seq<u8>) -> Seq<u8> {
    endian::le_bytes(b.len(), 4) + b
}

/// The encoding of a value.
pub open spec fn value_bytes(v: ValueView) -> Seq<u8> {
    match v {
        ValueView::Null => seq![0u8],
        ValueView::Bool(b) => seq![
            1u8,
            if b {
                1u8
            } else {
                0u8
            },
        ],
        ValueView::Int(i) => seq![2u8] + endian::le_bytes(endian::i64_bits(i), 8),
        ValueView::Float(bits) => seq![3u8] + endian::le_bytes(bits as nat, 8),
        ValueView::String(s) => seq![4u8] + blob_bytes(vstd::utf8::encode_utf8(s)),
        ValueView::Bytes(b) => seq![5u8] + blob_bytes(b),
        ValueView::DateTime(millis) => seq![6u8] + endian::le_bytes(endian::i64_bits(millis), 8),
    }
}

/// A blob that holds text: `what` names the blob, `name` the text.
pub open spec fn parse_text(s: Seq<u8>, what: &'static str, name: &'static str) -> Parse<
    Seq<char>,
> {
    let p = cursor::parse_blob(s, what);
    match p.out {
        Err(e) => Parse { out: Err(e), rest: p.rest },
        Ok(b) => Parse {
            out: match text::text_of(b) {
                Ok(t) => Ok(t),
                Err(cause) => Err(
                    ErrorView::Encoding(FaultView::InvalidUtf8 { what: name, cause }),
                ),
            },
            rest: p.rest,
        },
    }
}

/// The payload of a value with the given tag.
pub open spec fn parse_payload(tag: u8, s: Seq<u8>) -> Parse<ValueView> {
    if tag == 0 {
        Parse { out: Ok(ValueView::Null), rest: s }
    } else if tag == 1 {
        let p = cursor::parse_bool(s, "typed-value bool", Part::Body);
        match p.out {
            Err(e) => Parse { out: Err(e), rest: p.rest },
            Ok(b) => Parse { out: Ok(ValueView::Bool(b)), rest: p.rest },
        }
    } else if tag == 2 {
        let p = cursor::parse_le(s, 8, "typed-value int", Part::Body);
        match p.out {
            Err(e) => Parse { out: Err(e), rest: p.rest },
            Ok(v) => Parse {
                out: Ok(ValueView::Int(endian::i64_of_bits(v) as i64)),
                rest: p.rest,
            },
        }
    } else if tag == 3 {
        let p = cursor::parse_le(s, 8, "typed-value float", Part::Body);
        match p.out {
            Err(e) => Parse { out: Err(e), rest: p.rest },
            Ok(v) => Parse { out: Ok(ValueView::Float(v as u64)), rest: p.rest },
        }
    } else if tag == 4 {
        let p = parse_text(s, "typed-value string", "string value");
        match p.out {
            Err(e) => Parse { out: Err(e), rest: p.rest },
            Ok(t) => Parse { out: Ok(ValueView::String(t)), rest: p.rest },
        }
    } else if tag == 5 {
        let p = cursor::parse_blob(s, "typed-value bytes");
        match p.out {
            Err(e) => Parse { out: Err(e), rest: p.rest },
            Ok(b) => Parse { out: Ok(ValueView::Bytes(b)), rest: p.rest },
        }
    } else if tag == 6 {
        let p = cursor::parse_le(s, 8, "typed-value datetime", Part::Body);
        match p.out {
            Err(e) => Parse { out: Err(e), rest: p.rest },
            Ok(v) => Parse {
                out: Ok(ValueView::DateTime(endian::i64_of_bits(v) as i64)),
                rest: p.rest,
            },
        }
    } else {
        Parse { out: Err(ErrorView::Encoding(FaultView::InvalidTag { byte: tag })), rest: s }
    }
}

/// A tag byte, then the payload that it announces.
pub open spec fn parse_value(s: Seq<u8>) -> Parse<ValueView> {
    let p = cursor::parse_u8(s, "typed-value tag", Part::Body);
    match p.out {
        Err(e) => Parse { out: Err(e), rest: p.rest },
        Ok(tag) => parse_payload(tag, p.rest),
    }
}

impl TypedValue {
    /// Appends the encoding of this value to `buf`.
    pub fn write_to(&self, buf: &mut BytesMut)
        requires
            buffer::written(*old(buf)).len() + value_bytes(self@).len() <= buffer::buffer_limit(),
        ensures
            buffer::written(*final(buf)) == buffer::written(*old(buf)) + value_bytes(self@),
    {
        let ghost start = buffer::written(*buf);
        proof {
            lemma_value_bytes_len(self@);
        }
        match self {
            TypedValue::Null => {
                buffer::put_u8(buf, TAG_NULL);
            },
            TypedValue::Bool(b) => {
                buffer::put_u8(buf, TAG_BOOL);
                buffer::put_u8(
                    buf,
                    if *b {
                        1
                    } else {
                        0
                    },
                );
            },
            TypedValue::Int(i) => {
                buffer::put_u8(buf, TAG_INT);
                buffer::put_i64_le(buf, *i);
            },
            TypedValue::Float(bits) => {
                buffer::put_u8(buf, TAG_FLOAT);
                buffer::put_u64_le(buf, *bits);
            },
            TypedValue::String(s) => {
                buffer::put_u8(buf, TAG_STRING);
                write_blob(s.as_str().as_bytes(), buf);
            },
            TypedValue::Bytes(b) => {
                buffer::put_u8(buf, TAG_BYTES);
                write_blob(buffer::as_slice(b), buf);
            },
            TypedValue::DateTime(millis) => {
                buffer::put_u8(buf, TAG_DATETIME);
                buffer::put_i64_le(buf, *millis);
            },
        }
        proof {
            assert(buffer::written(*buf) =~= start + value_bytes(self@));
        }
    }

    /// How many bytes the encoding has.
    pub fn encoded_len(&self) -> (r: u128)
        ensures
            r == value_bytes(self@).len(),
            r <= usize::MAX as u128 + 5,
    {
        proof {
            lemma_value_bytes_len(self@);
        }
        match self {
            TypedValue::Null => 1,
            TypedValue::Bool(_) => 2,
            TypedValue::Int(_) | TypedValue::Float(_) | TypedValue::DateTime(_) => 9,
            TypedValue::String(s) => 5 + s.as_str().as_bytes().len() as u128,
            TypedValue::Bytes(b) => 5 + buffer::as_slice(b).len() as u128,
        }
    }

    /// Takes one value off the front of `cur`.
    pub fn read_from(cur: &mut &[u8]) -> (r: Result<TypedValue, Error>)
        ensures
            match parse_value(old(cur)@).out {
                Ok(v) => r is Ok && r->Ok_0@ == v,
                Err(e) => error::fails(r, e),
            },
            final(cur)@ == parse_value(old(cur)@).rest,
    {
        let tag: u8 = match cursor::take_u8(cur, "typed-value tag", Part::Body) {
            Err(e) => {
                return Err(e);
            },
            Ok(tag) => tag,
        };
        match tag {
            TAG_NULL => Ok(TypedValue::Null),
            TAG_BOOL => match cursor::take_bool(cur, "typed-value bool", Part::Body) {
                Err(e) => Err(e),
                Ok(b) => Ok(TypedValue::Bool(b)),
            },
            TAG_INT => match cursor::take_i64_le(cur, "typed-value int", Part::Body) {
                Err(e) => Err(e),
                Ok(i) => Ok(TypedValue::Int(i)),
            },
            TAG_FLOAT => match cursor::take_u64_le(cur, "typed-value float", Part::Body) {
                Err(e) => Err(e),
                Ok(bits) => Ok(TypedValue::Float(bits)),
            },
            TAG_STRING => match read_text(cur, "typed-value string", "string value") {
                Err(e) => Err(e),
                Ok(s) => Ok(TypedValue::String(s)),
            },
            TAG_BYTES => match cursor::read_blob(cur, "typed-value bytes") {
                Err(e) => Err(e),
                Ok(b) => Ok(TypedValue::Bytes(Bytes::copy_from_slice(b))),
            },
            TAG_DATETIME => match cursor::take_i64_le(cur, "typed-value datetime", Part::Body) {
                Err(e) => Err(e),
                Ok(millis) => Ok(TypedValue::DateTime(millis)),
            },
            other => Err(Error::Encoding(Fault::InvalidTag { byte: other })),
        }
    }
}

/// Appends a length-prefixed blob to `buf`.
pub(crate) fn write_blob(bytes: &[u8], buf: &mut BytesMut)
    requires
        buffer::written(*old(buf)).len() + blob_bytes(bytes@).len() <= buffer::buffer_limit(),
    ensures
        buffer::written(*final(buf)) == buffer::written(*old(buf)) + blob_bytes(bytes@),
{
    let len: u64 = bytes.len() as u64;
    let ghost start = buffer::written(*buf);
    proof {
        endian::lemma_le_bytes_len(bytes@.len(), 4);
        endian::lemma_byte_ranges();
        endian::lemma_le_bytes_low(bytes@.len(), 4);
        assert((len as u32) as u64 == len % 0x1_0000_0000) by (bit_vector);
    }
    buffer::put_u32_le(buf, len as u32);
    buf.extend_from_slice(bytes);
    proof {
        assert(buffer::written(*buf) =~= start + blob_bytes(bytes@));
    }
}

/// Takes a length-prefixed text off the front of `cur`.
pub(crate) fn read_text(cur: &mut &[u8], what: &'static str, name: &'static str) -> (r: Result<
    String,
    Error,
>)
    ensures
        match parse_text(old(cur)@, what, name).out {
            Ok(t) => r is Ok && r->Ok_0@ == t,
            Err(e) => error::fails(r, e),
        },
        final(cur)@ == parse_text(old(cur)@, what, name).rest,
{
    match cursor::read_blob(cur, what) {
        Err(e) => Err(e),
        Ok(b) => match text::utf8_text(b) {
            Ok(t) => Ok(t),
            Err(cause) => Err(Error::Encoding(Fault::InvalidUtf8 { what: name, cause })),
        },
    }
}

pub proof fn lemma_blob_bytes_len(b: Seq<u8>)
    ensures
        blob_bytes(b).len() == 4 + b.len(),
{
    endian::lemma_le_bytes_len(b.len(), 4);
}

pub proof fn lemma_value_bytes_len(v: ValueView)
    ensures
        value_bytes(v).len() == match v {
            ValueView::Null => 1nat,
            ValueView::Bool(_) => 2,
            ValueView::Int(_) => 9,
            ValueView::Float(_) => 9,
            ValueView::String(s) => 5 + vstd::utf8::encode_utf8(s).len(),
            ValueView::Bytes(b) => 5 + b.len(),
            ValueView::DateTime(_) => 9,
        },
{
    match v {
        ValueView::Null => {},
        ValueView::Bool(_) => {},
        ValueView::Int(i) => {
            endian::lemma_le_bytes_len(endian::i64_bits(i), 8);
        },
        ValueView::Float(bits) => {
            endian::lemma_le_bytes_len(bits as nat, 8);
        },
        ValueView::String(s) => {
            lemma_blob_bytes_len(vstd::utf8::encode_utf8(s));
        },
        ValueView::Bytes(b) => {
            lemma_blob_bytes_len(b);
        },
        ValueView::DateTime(millis) => {
            endian::lemma_le_bytes_len(endian::i64_bits(millis), 8);
        },
    }
}

} // verus!
