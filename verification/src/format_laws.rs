//! The byte formats, byte by byte: where each field stands, how wide it is, and which end of it
//! comes first.

use vstd::prelude::*;

use crate::canonical;
use crate::change;
use crate::change::{ChangeOp, ChangeView, DeltaView};
use crate::codec_laws;
use crate::cursor;
use crate::endian;
use crate::error::{ErrorView, FaultView, Part};
use crate::fixed;
use crate::ids::{Direction, LabelId, PredId, PropId, Uid};
use crate::labels;
use crate::model;
use crate::node;
use crate::node::NodeView;
use crate::props;
use crate::store;
use crate::store::{KeyView, OpView};
use crate::value;
use crate::value::ValueView;

verus! {

// ---------------------------------------------------------------------------
// Numbers
// ---------------------------------------------------------------------------

/// The number in the two bytes from a place on, least significant first.
pub open spec fn u16_at(b: Seq<u8>, i: int) -> int {
    b[i] + 0x100 * b[i + 1]
}

/// The number in the four bytes from a place on, least significant first.
pub open spec fn u32_at(b: Seq<u8>, i: int) -> int {
    b[i] + 0x100 * b[i + 1] + 0x1_0000 * b[i + 2] + 0x100_0000 * b[i + 3]
}

/// The number in the eight bytes from a place on, least significant first.
pub open spec fn u64_at(b: Seq<u8>, i: int) -> int {
    u32_at(b, i) + 0x1_0000_0000 * u32_at(b, i + 4)
}

/// The number in the four bytes from a place on, most significant first.
pub open spec fn u32_be_at(b: Seq<u8>, i: int) -> int {
    0x100_0000 * b[i] + 0x1_0000 * b[i + 1] + 0x100 * b[i + 2] + b[i + 3]
}

/// The number in the eight bytes from a place on, most significant first.
pub open spec fn u64_be_at(b: Seq<u8>, i: int) -> int {
    0x1_0000_0000 * u32_be_at(b, i) + u32_be_at(b, i + 4)
}

/// A signed number as the unsigned one with the same 64 bits.
pub open spec fn twos(i: i64) -> int {
    if i < 0 {
        i + 0x1_0000_0000_0000_0000
    } else {
        i as int
    }
}

proof fn lemma_values(b: Seq<u8>)
    ensures
        b.len() == 2 ==> endian::le_value(b) == u16_at(b, 0),
        b.len() == 4 ==> endian::le_value(b) == u32_at(b, 0),
        b.len() == 8 ==> endian::le_value(b) == u64_at(b, 0),
        b.len() == 4 ==> endian::be_value(b) == u32_be_at(b, 0),
        b.len() == 8 ==> endian::be_value(b) == u64_be_at(b, 0),
{
    reveal_with_fuel(endian::le_value, 9);
    reveal_with_fuel(endian::be_value, 9);
}

/// Bytes of a number that are part of longer bytes.
pub proof fn lemma_within(b: Seq<u8>, i: int)
    requires
        0 <= i,
    ensures
        i + 2 <= b.len() ==> u16_at(b, i) == u16_at(b.subrange(i, i + 2), 0),
        i + 4 <= b.len() ==> u32_at(b, i) == u32_at(b.subrange(i, i + 4), 0),
        i + 8 <= b.len() ==> u64_at(b, i) == u64_at(b.subrange(i, i + 8), 0),
        i + 4 <= b.len() ==> u32_be_at(b, i) == u32_be_at(b.subrange(i, i + 4), 0),
        i + 8 <= b.len() ==> u64_be_at(b, i) == u64_be_at(b.subrange(i, i + 8), 0),
{
}

/// A number of two, four or eight bytes, written.
pub proof fn law_numbers_are_spelled(n: nat)
    ensures
        n < 0x1_0000 ==> endian::le_bytes(n, 2).len() == 2 && u16_at(endian::le_bytes(n, 2), 0)
            == n,
        n < 0x1_0000_0000 ==> endian::le_bytes(n, 4).len() == 4 && u32_at(
            endian::le_bytes(n, 4),
            0,
        ) == n,
        n < 0x1_0000_0000_0000_0000 ==> endian::le_bytes(n, 8).len() == 8 && u64_at(
            endian::le_bytes(n, 8),
            0,
        ) == n,
        n < 0x1_0000_0000 ==> endian::be_bytes(n, 4).len() == 4 && u32_be_at(
            endian::be_bytes(n, 4),
            0,
        ) == n,
        n < 0x1_0000_0000_0000_0000 ==> endian::be_bytes(n, 8).len() == 8 && u64_be_at(
            endian::be_bytes(n, 8),
            0,
        ) == n,
{
    endian::lemma_byte_ranges();
    endian::lemma_le_bytes_len(n, 2);
    endian::lemma_le_bytes_len(n, 4);
    endian::lemma_le_bytes_len(n, 8);
    endian::lemma_be_bytes_len(n, 4);
    endian::lemma_be_bytes_len(n, 8);
    lemma_values(endian::le_bytes(n, 2));
    lemma_values(endian::le_bytes(n, 4));
    lemma_values(endian::le_bytes(n, 8));
    lemma_values(endian::be_bytes(n, 4));
    lemma_values(endian::be_bytes(n, 8));
    if n < 0x1_0000 {
        endian::law_le_round_trip(n, 2);
    }
    if n < 0x1_0000_0000 {
        endian::law_le_round_trip(n, 4);
        endian::law_be_round_trip(n, 4);
    }
    if n < 0x1_0000_0000_0000_0000 {
        endian::law_le_round_trip(n, 8);
        endian::law_be_round_trip(n, 8);
    }
}

// ---------------------------------------------------------------------------
// Single numbers in the store
// ---------------------------------------------------------------------------

/// The stored mapping of an external id: eight bytes, most significant first, and nothing else will
/// do. No mapping, no uid.
pub proof fn law_mapping_is_eight_bytes(b: Seq<u8>)
    ensures
        model::mapped_uid(None) == Ok::<Option<Uid>, ErrorView>(None),
        b.len() == 8 ==> (model::mapped_uid(Some(b)) matches Ok(Some(uid)) && uid.0 == u64_be_at(
            b,
            0,
        )),
        b.len() != 8 ==> model::mapped_uid(Some(b)) == Err::<Option<Uid>, ErrorView>(
            ErrorView::Encoding(
                FaultView::WrongWidth { what: "Xid mapping", got: b.len() as usize },
            ),
        ),
{
    lemma_values(b);
}

/// The stored degree: eight bytes, least significant first, of a signed number; 0 where there are
/// none.
pub proof fn law_degree_is_eight_bytes(b: Seq<u8>)
    ensures
        model::read_degree(None) == Ok::<i64, ErrorView>(0),
        b.len() == 8 ==> (model::read_degree(Some(b)) matches Ok(n) && twos(n) == u64_at(b, 0)),
        b.len() != 8 ==> model::read_degree(Some(b)) == Err::<i64, ErrorView>(
            ErrorView::Encoding(
                FaultView::WrongWidth { what: "degree counter", got: b.len() as usize },
            ),
        ),
{
    lemma_values(b);
    endian::lemma_le_value_bound(b);
    endian::lemma_byte_ranges();
}

/// The stored cursor: eight bytes, least significant first; 0 where there are none.
pub proof fn law_cursor_is_eight_bytes(b: Seq<u8>)
    ensures
        model::read_cursor(None) == Ok::<u64, ErrorView>(0),
        b.len() == 8 ==> (model::read_cursor(Some(b)) matches Ok(n) && n == u64_at(b, 0)),
        b.len() != 8 ==> model::read_cursor(Some(b)) == Err::<u64, ErrorView>(
            ErrorView::Encoding(
                FaultView::WrongWidth { what: "Meta[latest_seq]", got: b.len() as usize },
            ),
        ),
{
    lemma_values(b);
    endian::lemma_le_value_bound(b);
    endian::lemma_byte_ranges();
}

/// A single number in eight bytes, whatever it is: read from either end, or an error that names it
/// and counts the bytes.
pub proof fn law_single_numbers_are_eight_bytes(b: Seq<u8>, what: &'static str)
    ensures
        b.len() == 8 ==> {
            &&& fixed::decoded_u64_le(b, what) matches Ok(n) && n == u64_at(b, 0)
            &&& fixed::decoded_u64_be(b, what) matches Ok(n) && n == u64_be_at(b, 0)
            &&& fixed::decoded_i64_le(b, what) matches Ok(n) && twos(n) == u64_at(b, 0)
        },
        b.len() != 8 ==> {
            let e = ErrorView::Encoding(FaultView::WrongWidth { what, got: b.len() as usize });
            &&& fixed::decoded_u64_le(b, what) == Err::<u64, ErrorView>(e)
            &&& fixed::decoded_u64_be(b, what) == Err::<u64, ErrorView>(e)
            &&& fixed::decoded_i64_le(b, what) == Err::<i64, ErrorView>(e)
        },
{
    lemma_values(b);
    endian::lemma_le_value_bound(b);
    endian::lemma_byte_ranges();
}

/// The step of a degree counter: the key `count/`, the predicate, 0 for outgoing and 1 for
/// incoming, the anchor, all with the most significant byte first; and a signed operand with the
/// least significant byte first.
pub proof fn law_degree_step_is_spelled(p: PredId, dir: Direction, a: Uid, delta: i64)
    ensures
        store::bump_op(p, dir, a, delta) matches OpView::Merge { key, operand } && {
            &&& key matches KeyView::Meta(name) && {
                &&& name.len() == 19
                &&& name.take(6) == vstd::utf8::encode_utf8("count/"@)
                &&& u32_be_at(name, 6) == p.0
                &&& name[10] == if dir == Direction::Out {
                    0u8
                } else {
                    1u8
                }
                &&& u64_be_at(name, 11) == a.0
            }
            &&& operand.len() == 8
            &&& u64_at(operand, 0) == twos(delta)
        },
{
    crate::store_laws::lemma_names();
    law_numbers_are_spelled(p.0 as nat);
    law_numbers_are_spelled(a.0 as nat);
    law_numbers_are_spelled(endian::i64_bits(delta));
    let name = store::degree_name(p, dir, a);
    let head = vstd::utf8::encode_utf8("count/"@);
    assert(head.len() == 6);
    assert(name.take(6) =~= head);
    assert(name.subrange(6, 10) =~= endian::be_bytes(p.0 as nat, 4));
    assert(name.subrange(11, 19) =~= endian::be_bytes(a.0 as nat, 8));
    lemma_within(name, 6);
    lemma_within(name, 11);
}

// ---------------------------------------------------------------------------
// Values
// ---------------------------------------------------------------------------

/// Whether bytes are a tag, a four-byte length and a blob.
pub open spec fn is_tagged_blob(b: Seq<u8>, tag: u8, blob: Seq<u8>) -> bool {
    &&& b.len() == 5 + blob.len()
    &&& b[0] == tag
    &&& blob.len() < 0x1_0000_0000 ==> u32_at(b, 1) == blob.len()
    &&& b.skip(5) == blob
}

/// Whether bytes are a tag and an eight-byte number.
pub open spec fn is_tagged_number(b: Seq<u8>, tag: u8, n: int) -> bool {
    &&& b.len() == 9
    &&& b[0] == tag
    &&& u64_at(b, 1) == n
}

/// The encoding of a value: a tag from 0 to 6, and what it announces.
pub proof fn law_value_is_spelled(v: ValueView)
    ensures
        match v {
            ValueView::Null => value::value_bytes(v) == seq![0u8],
            ValueView::Bool(x) => value::value_bytes(v) == if x {
                seq![1u8, 1u8]
            } else {
                seq![1u8, 0u8]
            },
            ValueView::Int(i) => is_tagged_number(value::value_bytes(v), 2, twos(i)),
            ValueView::Float(bits) => is_tagged_number(value::value_bytes(v), 3, bits as int),
            ValueView::String(s) => is_tagged_blob(
                value::value_bytes(v),
                4,
                vstd::utf8::encode_utf8(s),
            ),
            ValueView::Bytes(x) => is_tagged_blob(value::value_bytes(v), 5, x),
            ValueView::DateTime(i) => is_tagged_number(value::value_bytes(v), 6, twos(i)),
        },
{
    let b = value::value_bytes(v);
    value::lemma_value_bytes_len(v);
    match v {
        ValueView::Null => {},
        ValueView::Bool(x) => {
            assert(b =~= if x {
                seq![1u8, 1u8]
            } else {
                seq![1u8, 0u8]
            });
        },
        ValueView::Int(i) => {
            lemma_tagged_number(b, 2, endian::i64_bits(i));
        },
        ValueView::Float(bits) => {
            lemma_tagged_number(b, 3, bits as nat);
        },
        ValueView::String(s) => {
            lemma_tagged_blob(b, 4, vstd::utf8::encode_utf8(s));
        },
        ValueView::Bytes(x) => {
            lemma_tagged_blob(b, 5, x);
        },
        ValueView::DateTime(i) => {
            lemma_tagged_number(b, 6, endian::i64_bits(i));
        },
    }
}

proof fn lemma_tagged_number(b: Seq<u8>, tag: u8, n: nat)
    requires
        b == seq![tag] + endian::le_bytes(n, 8),
        n < 0x1_0000_0000_0000_0000,
    ensures
        is_tagged_number(b, tag, n as int),
{
    law_numbers_are_spelled(n);
    assert(b.subrange(1, 9) =~= endian::le_bytes(n, 8));
    lemma_within(b, 1);
}

proof fn lemma_tagged_blob(b: Seq<u8>, tag: u8, blob: Seq<u8>)
    requires
        b == seq![tag] + value::blob_bytes(blob),
    ensures
        is_tagged_blob(b, tag, blob),
{
    endian::lemma_le_bytes_len(blob.len(), 4);
    law_numbers_are_spelled(blob.len());
    assert(b.subrange(1, 5) =~= endian::le_bytes(blob.len(), 4));
    lemma_within(b, 1);
    assert(b.skip(5) =~= blob);
}

/// What is said of an input that ends inside a field.
pub open spec fn cut_short(what: &'static str, part: Part, need: int, got: int) -> ErrorView {
    ErrorView::Encoding(
        FaultView::Truncated { what, part, need: need as usize, got: got as usize },
    )
}

/// What is read of bytes that hold no value: nothing there, an unknown tag, a boolean that is
/// neither 0 nor 1, a number or a blob that is cut short, a text that is not UTF-8.
pub proof fn law_what_is_no_value(s: Seq<u8>)
    ensures
        s.len() == 0 ==> value::parse_value(s).out == Err::<ValueView, ErrorView>(
            cut_short("typed-value tag", Part::Body, 1, 0),
        ),
        s.len() > 0 && s[0] > 6 ==> value::parse_value(s).out == Err::<ValueView, ErrorView>(
            ErrorView::Encoding(FaultView::InvalidTag { byte: s[0] }),
        ),
        s.len() == 1 && s[0] == 1 ==> value::parse_value(s).out == Err::<ValueView, ErrorView>(
            cut_short("typed-value bool", Part::Body, 1, 0),
        ),
        s.len() > 1 && s[0] == 1 && s[1] > 1 ==> value::parse_value(s).out == Err::<
            ValueView,
            ErrorView,
        >(
            ErrorView::Encoding(
                FaultView::InvalidBool { what: "typed-value bool", part: Part::Body, byte: s[1] },
            ),
        ),
        0 < s.len() < 9 && s[0] == 2 ==> value::parse_value(s).out == Err::<ValueView, ErrorView>(
            cut_short("typed-value int", Part::Body, 8, s.len() - 1),
        ),
        0 < s.len() < 9 && s[0] == 3 ==> value::parse_value(s).out == Err::<ValueView, ErrorView>(
            cut_short("typed-value float", Part::Body, 8, s.len() - 1),
        ),
        0 < s.len() < 9 && s[0] == 6 ==> value::parse_value(s).out == Err::<ValueView, ErrorView>(
            cut_short("typed-value datetime", Part::Body, 8, s.len() - 1),
        ),
        0 < s.len() < 5 && s[0] == 4 ==> value::parse_value(s).out == Err::<ValueView, ErrorView>(
            cut_short("typed-value string", Part::Length, 4, s.len() - 1),
        ),
        0 < s.len() < 5 && s[0] == 5 ==> value::parse_value(s).out == Err::<ValueView, ErrorView>(
            cut_short("typed-value bytes", Part::Length, 4, s.len() - 1),
        ),
        s.len() >= 5 && s[0] == 4 && u32_at(s, 1) > s.len() - 5 ==> value::parse_value(s).out
            == Err::<ValueView, ErrorView>(
            cut_short("typed-value string", Part::Blob, u32_at(s, 1), s.len() - 5),
        ),
        s.len() >= 5 && s[0] == 5 && u32_at(s, 1) > s.len() - 5 ==> value::parse_value(s).out
            == Err::<ValueView, ErrorView>(
            cut_short("typed-value bytes", Part::Blob, u32_at(s, 1), s.len() - 5),
        ),
        s.len() >= 5 && s[0] == 4 && u32_at(s, 1) <= s.len() - 5 && !vstd::utf8::valid_utf8(
            s.subrange(5, 5 + u32_at(s, 1)),
        ) ==> value::parse_value(s).out == Err::<ValueView, ErrorView>(
            ErrorView::Encoding(
                FaultView::InvalidUtf8 {
                    what: "string value",
                    cause: crate::text::utf8_cause(s.subrange(5, 5 + u32_at(s, 1))),
                },
            ),
        ),
{
    if s.len() >= 5 {
        let r = s.skip(1);
        lemma_values(r.take(4));
        assert(r.take(4) =~= s.subrange(1, 5));
        lemma_within(s, 1);
        let n = u32_at(s, 1);
        if n <= s.len() - 5 {
            assert(r.skip(4).take(n) =~= s.subrange(5, 5 + n));
        }
    }
}

// ---------------------------------------------------------------------------
// Labels and properties
// ---------------------------------------------------------------------------

/// The encoding of a list of labels: how many there are in two bytes, and four bytes for each, in
/// the order of the list.
pub proof fn law_labels_are_spelled(ids: Seq<LabelId>)
    ensures
        labels::labels_bytes(ids).len() == 2 + 4 * ids.len(),
        ids.len() <= 0xffff ==> u16_at(labels::labels_bytes(ids), 0) == ids.len(),
        forall|i: int|
            0 <= i < ids.len() ==> u32_at(labels::labels_bytes(ids), 2 + 4 * i) == (
            #[trigger] ids[i]).0,
{
    let b = labels::labels_bytes(ids);
    labels::lemma_labels_bytes_len(ids);
    endian::lemma_le_bytes_len(ids.len(), 2);
    law_numbers_are_spelled(ids.len());
    assert(b.subrange(0, 2) =~= endian::le_bytes(ids.len(), 2));
    lemma_within(b, 0);
    let tail = labels::ids_bytes(ids);
    assert(b.skip(2) =~= tail);
    assert forall|i: int| 0 <= i < ids.len() implies u32_at(b, 2 + 4 * i) == (
    #[trigger] ids[i]).0 by {
        lemma_ids_spelled(ids, i);
        assert(b.subrange(2 + 4 * i, 6 + 4 * i) =~= tail.subrange(4 * i, 4 * i + 4));
        lemma_within(b, 2 + 4 * i);
        lemma_within(tail, 4 * i);
    }
}

proof fn lemma_ids_spelled(ids: Seq<LabelId>, i: int)
    requires
        0 <= i < ids.len(),
    ensures
        labels::ids_bytes(ids).len() == 4 * ids.len(),
        u32_at(labels::ids_bytes(ids), 4 * i) == ids[i].0,
    decreases ids.len(),
{
    labels::lemma_labels_bytes_len(ids);
    endian::lemma_le_bytes_len(ids.len(), 2);
    let b = labels::ids_bytes(ids);
    let head = endian::le_bytes(ids[0].0 as nat, 4);
    let tail = labels::ids_bytes(ids.drop_first());
    law_numbers_are_spelled(ids[0].0 as nat);
    if i == 0 {
        assert(b.subrange(0, 4) =~= head);
        lemma_within(b, 0);
    } else {
        lemma_ids_spelled(ids.drop_first(), i - 1);
        assert(b.subrange(4 * i, 4 * i + 4) =~= tail.subrange(4 * (i - 1), 4 * (i - 1) + 4));
        lemma_within(b, 4 * i);
        lemma_within(tail, 4 * (i - 1));
    }
}

proof fn lemma_pairs_add(pairs: Seq<(PropId, ValueView)>, pair: (PropId, ValueView))
    ensures
        props::pairs_bytes(pairs.push(pair)) == props::pairs_bytes(pairs) + props::pair_bytes(pair),
    decreases pairs.len(),
{
    let more = pairs.push(pair);
    if pairs.len() == 0 {
        assert(more.drop_first() =~= Seq::empty());
        assert(props::pairs_bytes(more.drop_first()) =~= Seq::<u8>::empty());
        assert(props::pairs_bytes(pairs) =~= Seq::<u8>::empty());
        assert(props::pairs_bytes(more) =~= props::pairs_bytes(pairs) + props::pair_bytes(pair));
    } else {
        assert(more.drop_first() =~= pairs.drop_first().push(pair));
        lemma_pairs_add(pairs.drop_first(), pair);
        assert(props::pairs_bytes(more) =~= props::pairs_bytes(pairs) + props::pair_bytes(pair));
    }
}

proof fn lemma_entries_insert(m: Map<PropId, ValueView>, k: PropId, v: ValueView, n: nat)
    requires
        n <= 0x1_0000_0000,
        forall|j: PropId| #[trigger] m.contains_key(j) ==> j < k,
    ensures
        props::entries_below(m.insert(k, v), n) == if n > k {
            props::entries_below(m, n).push((k, v))
        } else {
            props::entries_below(m, n)
        },
    decreases n,
{
    if n > 0 {
        lemma_entries_insert(m, k, v, (n - 1) as nat);
        let id = (n - 1) as PropId;
        if n - 1 > k {
            assert(!m.contains_key(id));
        }
    }
}

/// The encoding of properties: how many there are in two bytes, and for each, in ascending order of
/// the ids, four bytes of the id and the encoding of the value. No properties are two zero bytes;
/// and one more, whose id is above all others, goes to the end.
pub proof fn law_properties_are_spelled(m: Map<PropId, ValueView>, k: PropId, v: ValueView)
    requires
        m.dom().finite(),
        forall|j: PropId| #[trigger] m.contains_key(j) ==> j < k,
    ensures
        props::props_bytes(Map::empty()) == seq![0u8, 0u8],
        ({
            let b = props::props_bytes(m);
            let more = props::props_bytes(m.insert(k, v));
            let at = b.len() as int;
            &&& m.len() <= 0xffff ==> b.len() >= 2 && u16_at(b, 0) == m.len()
            &&& more.len() == b.len() + 4 + value::value_bytes(v).len()
            &&& more.subrange(2, at) == b.subrange(2, at)
            &&& u32_at(more, at) == k
            &&& more.skip(at + 4) == value::value_bytes(v)
        }),
{
    let none = Map::<PropId, ValueView>::empty();
    props::lemma_empty_props_len();
    let empty = props::props_bytes(none);
    endian::lemma_le_bytes_len(0, 2);
    law_numbers_are_spelled(0);
    assert(empty =~= endian::le_bytes(0, 2));
    assert(empty =~= seq![0u8, 0u8]);
    let b = props::props_bytes(m);
    let big = m.insert(k, v);
    let more = props::props_bytes(big);
    let at = b.len() as int;
    endian::lemma_le_bytes_len(m.len(), 2);
    endian::lemma_le_bytes_len(big.len(), 2);
    law_numbers_are_spelled(m.len());
    law_numbers_are_spelled(k as nat);
    lemma_entries_insert(m, k, v, 0x1_0000_0000);
    lemma_pairs_add(props::sorted_entries(m), (k, v));
    let old_pairs = props::pairs_bytes(props::sorted_entries(m));
    assert(b.subrange(0, 2) =~= endian::le_bytes(m.len(), 2));
    lemma_within(b, 0);
    assert(more =~= endian::le_bytes(big.len(), 2) + old_pairs + endian::le_bytes(k as nat, 4)
        + value::value_bytes(v));
    assert(more.subrange(2, at) =~= b.subrange(2, at));
    assert(more.subrange(at, at + 4) =~= endian::le_bytes(k as nat, 4));
    lemma_within(more, at);
    assert(more.skip(at + 4) =~= value::value_bytes(v));
}

/// Whether a pair is the last one with its id.
pub open spec fn is_last_pair(pairs: Seq<(PropId, ValueView)>, i: int) -> bool {
    forall|j: int| i < j < pairs.len() ==> (#[trigger] pairs[j]).0 != pairs[i].0
}

/// Pairs in any order, whether or not an id comes twice, are read as properties: under every id the
/// value that comes last with it, and nothing else.
pub proof fn law_pairs_in_any_order_are_read(pairs: Seq<(PropId, ValueView)>)
    requires
        pairs.len() <= 0xffff,
        forall|i: int| 0 <= i < pairs.len() ==> codec_laws::value_fits((#[trigger] pairs[i]).1),
    ensures
        props::decoded_props(endian::le_bytes(pairs.len(), 2) + props::pairs_bytes(pairs)) matches Ok(
            m,
        ) && {
            &&& forall|i: int|
                0 <= i < pairs.len() && is_last_pair(pairs, i) ==> m.contains_key(
                    (#[trigger] pairs[i]).0,
                ) && m[pairs[i].0] == pairs[i].1
            &&& forall|k: PropId| #[trigger]
                m.contains_key(k) ==> exists|i: int|
                    0 <= i < pairs.len() && (#[trigger] pairs[i]).0 == k
        },
{
    let s = endian::le_bytes(pairs.len(), 2) + props::pairs_bytes(pairs);
    codec_laws::lemma_listed_props_back(pairs, Seq::empty(), "edge-prop prop id");
    assert(s + Seq::<u8>::empty() =~= s);
    lemma_inserted(Map::empty(), pairs);
}

/// A node whose properties are listed in any order, whether or not an id comes twice, is read with
/// its labels as they are listed, its properties, the later of two values under one id, and its
/// external id.
pub proof fn law_node_with_pairs_in_any_order_is_read(
    ids: Seq<LabelId>,
    pairs: Seq<(PropId, ValueView)>,
    xid: Seq<char>,
)
    requires
        ids.len() <= 0xffff,
        pairs.len() <= 0xffff,
        forall|i: int| 0 <= i < pairs.len() ==> codec_laws::value_fits((#[trigger] pairs[i]).1),
        vstd::utf8::encode_utf8(xid).len() < 0x1_0000_0000,
    ensures
        node::decoded_node(
            labels::labels_bytes(ids) + (endian::le_bytes(pairs.len(), 2) + props::pairs_bytes(
                pairs,
            )) + value::blob_bytes(vstd::utf8::encode_utf8(xid)),
        ) matches Ok(n) && {
            &&& n.labels == ids
            &&& n.xid == xid
            &&& forall|i: int|
                0 <= i < pairs.len() && is_last_pair(pairs, i) ==> n.props.contains_key(
                    (#[trigger] pairs[i]).0,
                ) && n.props[pairs[i].0] == pairs[i].1
            &&& forall|k: PropId| #[trigger]
                n.props.contains_key(k) ==> exists|i: int|
                    0 <= i < pairs.len() && (#[trigger] pairs[i]).0 == k
        },
{
    let none = Seq::<u8>::empty();
    let l = labels::labels_bytes(ids);
    let listed = endian::le_bytes(pairs.len(), 2) + props::pairs_bytes(pairs);
    let x = value::blob_bytes(vstd::utf8::encode_utf8(xid));
    let s = l + listed + x;
    assert(s =~= l + (listed + x));
    codec_laws::lemma_labels_back(ids, listed + x, "node label id");
    codec_laws::lemma_listed_props_back(pairs, x, "node prop id");
    assert(x + none =~= x);
    codec_laws::lemma_text_back(xid, none, "node xid", "xid");
    lemma_inserted(Map::empty(), pairs);
}

/// Listed pairs are all that is read as properties.
proof fn lemma_pairs_taken(
    acc: Map<PropId, ValueView>,
    s: Seq<u8>,
    n: nat,
    what: &'static str,
) -> (pairs: Seq<(PropId, ValueView)>)
    ensures
        props::parse_pairs(acc, s, n, what).out matches Ok(m) ==> {
            &&& pairs.len() == n
            &&& s == props::pairs_bytes(pairs) + props::parse_pairs(acc, s, n, what).rest
            &&& m == codec_laws::insert_all(acc, pairs)
        },
    decreases n,
{
    let p = props::parse_pairs(acc, s, n, what);
    if n == 0 {
        let pairs = Seq::<(PropId, ValueView)>::empty();
        assert(s =~= props::pairs_bytes(pairs) + s);
        pairs
    } else {
        canonical::lemma_number(s, 4, what, Part::Body);
        endian::lemma_byte_ranges();
        let k = cursor::parse_le(s, 4, what, Part::Body);
        canonical::lemma_value(k.rest);
        let v = value::parse_value(k.rest);
        if p.out is Ok {
            let pair = (k.out->Ok_0 as PropId, v.out->Ok_0);
            let tail = lemma_pairs_taken(acc.insert(pair.0, pair.1), v.rest, (n - 1) as nat, what);
            let pairs = seq![pair] + tail;
            assert(pairs.drop_first() =~= tail);
            assert(s =~= props::pairs_bytes(pairs) + p.rest);
            pairs
        } else {
            Seq::empty()
        }
    }
}

proof fn lemma_listed(s: Seq<u8>, what: &'static str) -> (pairs: Seq<(PropId, ValueView)>)
    ensures
        props::parse_props(s, what).out matches Ok(m) ==> {
            &&& s == endian::le_bytes(pairs.len(), 2) + props::pairs_bytes(pairs)
                + props::parse_props(s, what).rest
            &&& m == codec_laws::insert_all(Map::empty(), pairs)
        },
{
    if props::parse_props(s, what).out is Ok {
        let n = cursor::parse_count(s).out->Ok_0;
        canonical::lemma_le_again(s.take(2));
        assert(s =~= s.take(2) + s.skip(2));
        let pairs = lemma_pairs_taken(Map::empty(), s.skip(2), n, what);
        assert(s =~= endian::le_bytes(pairs.len(), 2) + props::pairs_bytes(pairs)
            + props::parse_props(s, what).rest);
        pairs
    } else {
        Seq::empty()
    }
}

/// Bytes that are read as properties are a count and that many pairs, and nothing else; bytes that
/// are read as a node are a list of labels, a count and that many pairs, and a text.
pub proof fn law_nothing_else_is_read(s: Seq<u8>)
    ensures
        props::decoded_props(s) is Ok ==> exists|pairs: Seq<(PropId, ValueView)>|
            s == endian::le_bytes(pairs.len(), 2) + #[trigger] props::pairs_bytes(pairs),
        node::decoded_node(s) matches Ok(n) ==> exists|pairs: Seq<(PropId, ValueView)>|
            s == labels::labels_bytes(n.labels) + (endian::le_bytes(pairs.len(), 2)
                + #[trigger] props::pairs_bytes(pairs)) + value::blob_bytes(
                vstd::utf8::encode_utf8(n.xid),
            ),
{
    if props::decoded_props(s) is Ok {
        let pairs = lemma_listed(s, "edge-prop prop id");
        assert(s =~= endian::le_bytes(pairs.len(), 2) + props::pairs_bytes(pairs));
    }
    if node::decoded_node(s) is Ok {
        let n = node::decoded_node(s)->Ok_0;
        canonical::lemma_labels(s, "node label id");
        let l = labels::parse_labels(s, "node label id");
        let pairs = lemma_listed(l.rest, "node prop id");
        let p = props::parse_props(l.rest, "node prop id");
        canonical::lemma_blob(p.rest, "node xid");
        let x = cursor::parse_blob(p.rest, "node xid");
        vstd::utf8::decode_utf8_encode_utf8(x.out->Ok_0);
        assert(s =~= labels::labels_bytes(n.labels) + (endian::le_bytes(pairs.len(), 2)
            + props::pairs_bytes(pairs)) + value::blob_bytes(vstd::utf8::encode_utf8(n.xid)));
    }
}

proof fn lemma_inserted(acc: Map<PropId, ValueView>, pairs: Seq<(PropId, ValueView)>)
    ensures
        ({
            let m = codec_laws::insert_all(acc, pairs);
            &&& forall|i: int|
                0 <= i < pairs.len() && is_last_pair(pairs, i) ==> m.contains_key(
                    (#[trigger] pairs[i]).0,
                ) && m[pairs[i].0] == pairs[i].1
            &&& forall|k: PropId|
                (forall|i: int| 0 <= i < pairs.len() ==> (#[trigger] pairs[i]).0 != k)
                    ==> #[trigger] m.contains_key(k) == acc.contains_key(k) && m[k] == acc[k]
        }),
    decreases pairs.len(),
{
    if pairs.len() > 0 {
        let tail = pairs.drop_first();
        let next = acc.insert(pairs[0].0, pairs[0].1);
        lemma_inserted(next, tail);
        let m = codec_laws::insert_all(acc, pairs);
        assert(m == codec_laws::insert_all(next, tail));
        assert forall|i: int| 0 <= i < pairs.len() && is_last_pair(pairs, i) implies m.contains_key(
            (#[trigger] pairs[i]).0,
        ) && m[pairs[i].0] == pairs[i].1 by {
            if i > 0 {
                assert(tail[i - 1] == pairs[i]);
                assert(is_last_pair(tail, i - 1)) by {
                    assert forall|j: int| i - 1 < j < tail.len() implies (#[trigger] tail[j]).0
                        != tail[i - 1].0 by {
                        assert(tail[j] == pairs[j + 1]);
                    }
                }
            } else {
                assert forall|j: int| 0 <= j < tail.len() implies (#[trigger] tail[j]).0
                    != pairs[0].0 by {
                    assert(tail[j] == pairs[j + 1]);
                }
                assert(m.contains_key(pairs[0].0) == next.contains_key(pairs[0].0));
            }
        }
        assert forall|k: PropId|
            (forall|i: int| 0 <= i < pairs.len() ==> (#[trigger] pairs[i]).0 != k)
                implies #[trigger] m.contains_key(k) == acc.contains_key(k) && m[k] == acc[k] by {
            assert(pairs[0].0 != k);
            assert forall|j: int| 0 <= j < tail.len() implies (#[trigger] tail[j]).0 != k by {
                assert(tail[j] == pairs[j + 1]);
            }
            assert(m.contains_key(k) == next.contains_key(k));
        }
    }
}

// ---------------------------------------------------------------------------
// Records
// ---------------------------------------------------------------------------

/// The encoding of a node: its labels, its properties, and its external id behind a four-byte
/// length.
pub proof fn law_node_is_spelled(n: NodeView)
    ensures
        ({
            let b = node::node_bytes(n);
            let l = labels::labels_bytes(n.labels);
            let p = props::props_bytes(n.props);
            let x = vstd::utf8::encode_utf8(n.xid);
            let at = (l.len() + p.len()) as int;
            &&& b.len() == l.len() + p.len() + 4 + x.len()
            &&& b.take(l.len() as int) == l
            &&& b.subrange(l.len() as int, at) == p
            &&& x.len() < 0x1_0000_0000 ==> u32_at(b, at) == x.len()
            &&& b.skip(at + 4) == x
        }),
{
    let b = node::node_bytes(n);
    let l = labels::labels_bytes(n.labels);
    let p = props::props_bytes(n.props);
    let x = vstd::utf8::encode_utf8(n.xid);
    let at = (l.len() + p.len()) as int;
    endian::lemma_le_bytes_len(x.len(), 4);
    law_numbers_are_spelled(x.len());
    assert(b.take(l.len() as int) =~= l);
    assert(b.subrange(l.len() as int, at) =~= p);
    assert(b.subrange(at, at + 4) =~= endian::le_bytes(x.len(), 4));
    lemma_within(b, at);
    assert(b.skip(at + 4) =~= x);
}

/// The byte of each operation, and that there are no others.
pub proof fn law_operations_are_numbered(b: u8)
    ensures
        ChangeOp::UpsertNode.byte() == 0,
        ChangeOp::UpsertEdge.byte() == 1,
        ChangeOp::DeleteNode.byte() == 2,
        ChangeOp::DeleteEdge.byte() == 3,
        b > 3 ==> change::op_of_byte(b) == Err::<ChangeOp, ErrorView>(
            ErrorView::Encoding(FaultView::InvalidOp { byte: b }),
        ),
        b <= 3 ==> (change::op_of_byte(b) matches Ok(op) && op.byte() == b),
        Direction::Out.byte() == 0,
        Direction::In.byte() == 1,
{
}

/// Where the optional fields of a changelog record end, one after the other.
pub open spec fn after_pred(c: ChangeView) -> int {
    if c.pred_id is Some {
        22
    } else {
        18
    }
}

pub open spec fn after_object(c: ChangeView) -> int {
    after_pred(c) + if c.object_uid is Some {
        9int
    } else {
        1
    }
}

pub open spec fn after_value(c: ChangeView) -> int {
    after_object(c) + match c.value {
        Some(v) => 1 + value::value_bytes(v).len() as int,
        None => 1,
    }
}

/// The encoding of a changelog record: the sequence number, the operation and the subject; and the
/// predicate, the object, the value and the labels added and removed, each behind a byte that says
/// whether it is there.
pub proof fn law_change_is_spelled(c: ChangeView)
    ensures
        ({
            let b = change::change_bytes(c);
            let (o, v, d) = (after_pred(c), after_object(c), after_value(c));
            &&& b.len() > d
            &&& u64_at(b, 0) == c.seq
            &&& b[8] == match c.op {
                ChangeOp::UpsertNode => 0u8,
                ChangeOp::UpsertEdge => 1u8,
                ChangeOp::DeleteNode => 2u8,
                ChangeOp::DeleteEdge => 3u8,
            }
            &&& u64_at(b, 9) == c.subject_uid.0
            &&& match c.pred_id {
                Some(p) => b[17] == 1 && u32_at(b, 18) == p.0,
                None => b[17] == 0,
            }
            &&& match c.object_uid {
                Some(u) => b[o] == 1 && u64_at(b, o + 1) == u.0,
                None => b[o] == 0,
            }
            &&& match c.value {
                Some(x) => b[v] == 1 && b.subrange(v + 1, d) == value::value_bytes(x),
                None => b[v] == 0,
            }
            &&& match c.label_delta {
                Some(x) => b[d] == 1 && b.skip(d + 1) == labels::labels_bytes(x.added)
                    + labels::labels_bytes(x.removed),
                None => b[d] == 0 && b.len() == d + 1,
            }
        }),
{
    let b = change::change_bytes(c);
    let (o, v, d) = (after_pred(c), after_object(c), after_value(c));
    lemma_change_parts(c);
    assert(u64_at(b, 0) == c.seq && u64_at(b, 9) == c.subject_uid.0) by {
        law_numbers_are_spelled(c.seq as nat);
        law_numbers_are_spelled(c.subject_uid.0 as nat);
        lemma_within(b, 0);
        lemma_within(b, 9);
    }
    assert(match c.pred_id {
        Some(p) => b[17] == 1 && u32_at(b, 18) == p.0,
        None => b[17] == 0,
    }) by {
        let part = b.subrange(17, o);
        assert(b[17] == part[0]);
        if let Some(p) = c.pred_id {
            law_numbers_are_spelled(p.0 as nat);
            assert(b.subrange(18, 22) =~= part.skip(1));
            assert(part.skip(1) =~= endian::le_bytes(p.0 as nat, 4));
            lemma_within(b, 18);
        }
    }
    assert(match c.object_uid {
        Some(u) => b[o] == 1 && u64_at(b, o + 1) == u.0,
        None => b[o] == 0,
    }) by {
        let part = b.subrange(o, v);
        assert(b[o] == part[0]);
        if let Some(u) = c.object_uid {
            law_numbers_are_spelled(u.0 as nat);
            assert(b.subrange(o + 1, o + 9) =~= part.skip(1));
            assert(part.skip(1) =~= endian::le_bytes(u.0 as nat, 8));
            lemma_within(b, o + 1);
        }
    }
    assert(match c.value {
        Some(x) => b[v] == 1 && b.subrange(v + 1, d) == value::value_bytes(x),
        None => b[v] == 0,
    }) by {
        let part = b.subrange(v, d);
        assert(b[v] == part[0]);
        if let Some(x) = c.value {
            assert(b.subrange(v + 1, d) =~= part.skip(1));
            assert(part.skip(1) =~= value::value_bytes(x));
        }
    }
    assert(match c.label_delta {
        Some(x) => b[d] == 1 && b.skip(d + 1) == labels::labels_bytes(x.added)
            + labels::labels_bytes(x.removed),
        None => b[d] == 0 && b.len() == d + 1,
    }) by {
        let part = b.skip(d);
        assert(b[d] == part[0]);
        if let Some(x) = c.label_delta {
            assert(b.skip(d + 1) =~= part.skip(1));
            assert(part.skip(1) =~= labels::labels_bytes(x.added) + labels::labels_bytes(x.removed));
        }
    }
}

/// The fields of a changelog record, where they stand.
proof fn lemma_change_parts(c: ChangeView)
    ensures
        ({
            let b = change::change_bytes(c);
            let (o, v, d) = (after_pred(c), after_object(c), after_value(c));
            &&& 17 < o < v < d < b.len()
            &&& b.subrange(0, 8) == endian::le_bytes(c.seq as nat, 8)
            &&& b[8] == c.op.byte()
            &&& b.subrange(9, 17) == endian::le_bytes(c.subject_uid.0 as nat, 8)
            &&& b.subrange(17, o) == change::pred_bytes(c.pred_id)
            &&& b.subrange(o, v) == change::object_bytes(c.object_uid)
            &&& b.subrange(v, d) == change::scalar_bytes(c.value)
            &&& b.skip(d) == change::delta_bytes(c.label_delta)
        }),
{
    let b = change::change_bytes(c);
    let (o, v, d) = (after_pred(c), after_object(c), after_value(c));
    endian::lemma_le_bytes_len(c.seq as nat, 8);
    endian::lemma_le_bytes_len(c.subject_uid.0 as nat, 8);
    if let Some(p) = c.pred_id {
        endian::lemma_le_bytes_len(p.0 as nat, 4);
    }
    if let Some(u) = c.object_uid {
        endian::lemma_le_bytes_len(u.0 as nat, 8);
    }
    let first = endian::le_bytes(c.seq as nat, 8) + seq![c.op.byte()] + endian::le_bytes(
        c.subject_uid.0 as nat,
        8,
    );
    let pred = change::pred_bytes(c.pred_id);
    let object = change::object_bytes(c.object_uid);
    let scalar = change::scalar_bytes(c.value);
    let delta = change::delta_bytes(c.label_delta);
    assert(first.len() == 17);
    assert(pred.len() == o - 17);
    assert(object.len() == v - o);
    assert(scalar.len() == d - v);
    assert(delta.len() > 0);
    assert(b == first + pred + object + scalar + delta);
    assert(b.subrange(0, 8) =~= endian::le_bytes(c.seq as nat, 8));
    assert(b.subrange(9, 17) =~= endian::le_bytes(c.subject_uid.0 as nat, 8));
    assert(b.subrange(17, o) =~= pred);
    assert(b.subrange(o, v) =~= object);
    assert(b.subrange(v, d) =~= scalar);
    assert(b.skip(d) =~= delta);
}

// ---------------------------------------------------------------------------
// What is no record
// ---------------------------------------------------------------------------

/// Whether a field says of bytes that they hold it not, and why: the flag is missing, or neither 0
/// nor 1; or the number behind it is cut short.
pub open spec fn is_bad_option(s: Seq<u8>, what: &'static str, width: int, e: ErrorView) -> bool {
    ||| s.len() == 0 && e == cut_short(what, Part::Presence, 1, 0)
    ||| s.len() > 0 && s[0] > 1 && e == ErrorView::Encoding(
        FaultView::InvalidBool { what, part: Part::Presence, byte: s[0] },
    )
    ||| 0 < s.len() < 1 + width && s[0] == 1 && e == cut_short(
        what,
        Part::Body,
        width,
        s.len() - 1,
    )
}

/// The optional number of a changelog record: the predicate in four bytes, the object in eight.
pub proof fn law_optional_numbers(s: Seq<u8>)
    ensures
        s.len() > 0 && s[0] == 0 ==> change::parse_pred(s).out == Ok::<Option<PredId>, ErrorView>(
            None,
        ) && change::parse_pred(s).rest == s.skip(1),
        s.len() >= 5 && s[0] == 1 ==> (change::parse_pred(s).out matches Ok(Some(p)) && p.0
            == u32_at(s, 1)) && change::parse_pred(s).rest == s.skip(5),
        s.len() == 0 || s[0] > 1 || (s[0] == 1 && s.len() < 5) ==> (
        change::parse_pred(s).out matches Err(e) && is_bad_option(
            s,
            "change-record pred_id",
            4,
            e,
        )),
        s.len() > 0 && s[0] == 0 ==> change::parse_object(s).out == Ok::<Option<Uid>, ErrorView>(
            None,
        ) && change::parse_object(s).rest == s.skip(1),
        s.len() >= 9 && s[0] == 1 ==> (change::parse_object(s).out matches Ok(Some(u)) && u.0
            == u64_at(s, 1)) && change::parse_object(s).rest == s.skip(9),
        s.len() == 0 || s[0] > 1 || (s[0] == 1 && s.len() < 9) ==> (
        change::parse_object(s).out matches Err(e) && is_bad_option(
            s,
            "change-record object_uid",
            8,
            e,
        )),
{
    endian::lemma_byte_ranges();
    if s.len() >= 5 {
        let t = s.skip(1);
        lemma_values(t.take(4));
        endian::lemma_le_value_bound(t.take(4));
        assert(t.take(4) =~= s.subrange(1, 5));
        assert(t.skip(4) =~= s.skip(5));
        lemma_within(s, 1);
    }
    if s.len() >= 9 {
        let t = s.skip(1);
        lemma_values(t.take(8));
        endian::lemma_le_value_bound(t.take(8));
        assert(t.take(8) =~= s.subrange(1, 9));
        assert(t.skip(8) =~= s.skip(9));
        lemma_within(s, 1);
    }
}

/// The optional value and the optional labels of a changelog record: behind a flag of 1 the
/// encoding of a value, or the two lists of labels, first those added; what is wrong with those is
/// what is said of the whole.
pub proof fn law_optional_value_and_labels(s: Seq<u8>)
    ensures
        s.len() > 0 && s[0] == 0 ==> {
            &&& change::parse_scalar(s).out == Ok::<Option<ValueView>, ErrorView>(None)
            &&& change::parse_scalar(s).rest == s.skip(1)
            &&& change::parse_delta(s).out == Ok::<Option<DeltaView>, ErrorView>(None)
            &&& change::parse_delta(s).rest == s.skip(1)
        },
        s.len() == 0 || s[0] > 1 ==> {
            &&& change::parse_scalar(s).out matches Err(e) && is_bad_option(
                s,
                "change-record value",
                0,
                e,
            )
            &&& change::parse_delta(s).out matches Err(e) && is_bad_option(
                s,
                "change-record label_delta",
                0,
                e,
            )
        },
        s.len() > 0 && s[0] == 1 ==> {
            let v = value::parse_value(s.skip(1));
            let a = labels::parse_labels(s.skip(1), "change-record label_delta.added");
            let r = labels::parse_labels(a.rest, "change-record label_delta.removed");
            &&& match v.out {
                Ok(x) => change::parse_scalar(s).out == Ok::<Option<ValueView>, ErrorView>(Some(x))
                    && change::parse_scalar(s).rest == v.rest,
                Err(e) => change::parse_scalar(s).out == Err::<Option<ValueView>, ErrorView>(e),
            }
            &&& match (a.out, r.out) {
                (Err(e), _) => change::parse_delta(s).out == Err::<Option<DeltaView>, ErrorView>(e),
                (Ok(_), Err(e)) => change::parse_delta(s).out == Err::<
                    Option<DeltaView>,
                    ErrorView,
                >(e),
                (Ok(added), Ok(removed)) => change::parse_delta(s).out == Ok::<
                    Option<DeltaView>,
                    ErrorView,
                >(Some(DeltaView { added, removed })) && change::parse_delta(s).rest == r.rest,
            }
        },
{
}

/// What is said of bytes that are no changelog record: that they end before the fixed fields do,
/// that the operation is none, what is wrong with the first optional field that something is wrong
/// with, or how many bytes are left over.
pub proof fn law_what_is_no_change(s: Seq<u8>)
    ensures
        s.len() < 8 ==> change::decoded_change(s) == Err::<ChangeView, ErrorView>(
            cut_short("change-record seq", Part::Body, 8, s.len() as int),
        ),
        s.len() == 8 ==> change::decoded_change(s) == Err::<ChangeView, ErrorView>(
            cut_short("change-record op", Part::Body, 1, 0),
        ),
        s.len() > 8 && s[8] > 3 ==> change::decoded_change(s) == Err::<ChangeView, ErrorView>(
            ErrorView::Encoding(FaultView::InvalidOp { byte: s[8] }),
        ),
        8 < s.len() < 17 && s[8] <= 3 ==> change::decoded_change(s) == Err::<
            ChangeView,
            ErrorView,
        >(cut_short("change-record subject_uid", Part::Body, 8, s.len() - 9)),
        s.len() >= 17 && s[8] <= 3 ==> {
            let p = change::parse_pred(s.skip(17));
            let o = change::parse_object(p.rest);
            let v = change::parse_scalar(o.rest);
            let d = change::parse_delta(v.rest);
            match (p.out, o.out, v.out, d.out) {
                (Err(e), _, _, _) => change::decoded_change(s) == Err::<ChangeView, ErrorView>(e),
                (Ok(_), Err(e), _, _) => change::decoded_change(s) == Err::<ChangeView, ErrorView>(
                    e,
                ),
                (Ok(_), Ok(_), Err(e), _) => change::decoded_change(s) == Err::<
                    ChangeView,
                    ErrorView,
                >(e),
                (Ok(_), Ok(_), Ok(_), Err(e)) => change::decoded_change(s) == Err::<
                    ChangeView,
                    ErrorView,
                >(e),
                (Ok(_), Ok(_), Ok(_), Ok(_)) => if d.rest.len() == 0 {
                    change::decoded_change(s) is Ok
                } else {
                    change::decoded_change(s) == Err::<ChangeView, ErrorView>(
                        ErrorView::Encoding(
                            FaultView::Trailing {
                                what: "change record",
                                extra: d.rest.len() as usize,
                            },
                        ),
                    )
                },
            }
        },
{
    if s.len() >= 8 {
        assert(s.skip(8).len() == s.len() - 8);
        if s.len() > 8 {
            assert(s.skip(8)[0] == s[8]);
            assert(s.skip(8).skip(1) =~= s.skip(9));
            if s.len() >= 17 {
                assert(s.skip(9).skip(8) =~= s.skip(17));
            }
        }
    }
}

/// What is said of bytes that end inside a list: before its count, or before one of its ids.
pub proof fn law_what_is_no_list(s: Seq<u8>, what: &'static str)
    ensures
        s.len() < 2 ==> {
            let e = ErrorView::Encoding(FaultView::TruncatedCount);
            &&& labels::parse_labels(s, what).out == Err::<Seq<LabelId>, ErrorView>(e)
            &&& props::parse_props(s, what).out == Err::<Map<PropId, ValueView>, ErrorView>(e)
            &&& node::decoded_node(s) == Err::<NodeView, ErrorView>(e)
            &&& props::decoded_props(s) == Err::<Map<PropId, ValueView>, ErrorView>(e)
        },
        2 <= s.len() < 6 && u16_at(s, 0) > 0 ==> {
            &&& labels::parse_labels(s, what).out == Err::<Seq<LabelId>, ErrorView>(
                cut_short(what, Part::Body, 4, s.len() - 2),
            )
            &&& props::parse_props(s, what).out == Err::<Map<PropId, ValueView>, ErrorView>(
                cut_short(what, Part::Body, 4, s.len() - 2),
            )
        },
        s.len() >= 6 && u16_at(s, 0) > 0 && value::parse_value(s.skip(6)).out is Err
            ==> props::parse_props(s, what).out == Err::<Map<PropId, ValueView>, ErrorView>(
            value::parse_value(s.skip(6)).out->Err_0,
        ),
{
    if s.len() >= 2 {
        lemma_values(s.take(2));
        lemma_within(s, 0);
        assert(s.take(2) =~= s.subrange(0, 2));
        if s.len() >= 6 {
            assert(s.skip(2).skip(4) =~= s.skip(6));
        }
    }
}

/// What is said of a node whose external id is no text: cut short, or not UTF-8.
pub proof fn law_what_is_no_external_id(
    ids: Seq<LabelId>,
    m: Map<PropId, ValueView>,
    x: Seq<u8>,
    n: int,
)
    requires
        ids.len() <= 0xffff,
        codec_laws::props_fit(m),
        x.len() < 0x1_0000_0000,
        0 <= n < 4 + x.len(),
    ensures
        ({
            let head = labels::labels_bytes(ids) + props::props_bytes(m);
            let blob = endian::le_bytes(x.len(), 4) + x;
            &&& !vstd::utf8::valid_utf8(x) ==> node::decoded_node(head + blob) == Err::<
                NodeView,
                ErrorView,
            >(
                ErrorView::Encoding(
                    FaultView::InvalidUtf8 { what: "xid", cause: crate::text::utf8_cause(x) },
                ),
            )
            &&& n < 4 ==> node::decoded_node(head + blob.take(n)) == Err::<NodeView, ErrorView>(
                cut_short("node xid", Part::Length, 4, n),
            )
            &&& n >= 4 ==> node::decoded_node(head + blob.take(n)) == Err::<NodeView, ErrorView>(
                cut_short("node xid", Part::Blob, x.len() as int, n - 4),
            )
        }),
{
    let none = Seq::<u8>::empty();
    let l = labels::labels_bytes(ids);
    let p = props::props_bytes(m);
    let blob = endian::le_bytes(x.len(), 4) + x;
    assert(l + p + blob =~= l + (p + blob));
    codec_laws::lemma_labels_back(ids, p + blob, "node label id");
    codec_laws::lemma_props_back(m, blob, "node prop id");
    assert(value::blob_bytes(x) + none =~= blob);
    codec_laws::lemma_blob_back(x, none, "node xid");
    let short = blob.take(n);
    assert(l + p + short =~= l + (p + short));
    codec_laws::lemma_labels_back(ids, p + short, "node label id");
    codec_laws::lemma_props_back(m, short, "node prop id");
    law_numbers_are_spelled(x.len());
    if n >= 4 {
        assert(short.take(4) =~= endian::le_bytes(x.len(), 4));
        endian::lemma_byte_ranges();
        endian::law_le_round_trip(x.len(), 4);
    }
}

proof fn lemma_ids_cut(
    acc: Seq<LabelId>,
    ids: Seq<LabelId>,
    short: Seq<u8>,
    n: nat,
    what: &'static str,
)
    requires
        ids.len() < n,
        short.len() < 4,
    ensures
        labels::parse_ids(acc, labels::ids_bytes(ids) + short, n, what).out == Err::<
            Seq<LabelId>,
            ErrorView,
        >(cut_short(what, Part::Body, 4, short.len() as int)),
    decreases ids.len(),
{
    let s = labels::ids_bytes(ids) + short;
    if ids.len() == 0 {
        assert(s =~= short);
    } else {
        let tail = ids.drop_first();
        let head = endian::le_bytes(ids[0].0 as nat, 4);
        endian::lemma_le_bytes_len(ids[0].0 as nat, 4);
        endian::lemma_byte_ranges();
        assert(s =~= head + (labels::ids_bytes(tail) + short));
        assert(s.take(4) =~= head);
        assert(s.skip(4) =~= labels::ids_bytes(tail) + short);
        endian::law_le_round_trip(ids[0].0 as nat, 4);
        lemma_ids_cut(acc.push(ids[0]), tail, short, (n - 1) as nat, what);
    }
}

proof fn lemma_pairs_cut(
    acc: Map<PropId, ValueView>,
    pairs: Seq<(PropId, ValueView)>,
    short: Seq<u8>,
    n: nat,
    what: &'static str,
)
    requires
        pairs.len() < n,
        forall|i: int| 0 <= i < pairs.len() ==> codec_laws::value_fits((#[trigger] pairs[i]).1),
    ensures
        ({
            let out = props::parse_pairs(acc, props::pairs_bytes(pairs) + short, n, what).out;
            &&& short.len() < 4 ==> out == Err::<Map<PropId, ValueView>, ErrorView>(
                cut_short(what, Part::Body, 4, short.len() as int),
            )
            &&& short.len() >= 4 ==> (value::parse_value(short.skip(4)).out matches Err(e) ==> out
                == Err::<Map<PropId, ValueView>, ErrorView>(e))
        }),
    decreases pairs.len(),
{
    let s = props::pairs_bytes(pairs) + short;
    if pairs.len() == 0 {
        assert(s =~= short);
    } else {
        let tail = pairs.drop_first();
        let (k, v) = pairs[0];
        let after = props::pairs_bytes(tail) + short;
        let head = endian::le_bytes(k as nat, 4);
        endian::lemma_le_bytes_len(k as nat, 4);
        endian::lemma_byte_ranges();
        assert(s =~= head + (value::value_bytes(v) + after));
        assert(s.take(4) =~= head);
        assert(s.skip(4) =~= value::value_bytes(v) + after);
        endian::law_le_round_trip(k as nat, 4);
        codec_laws::law_value_round_trip(v, after);
        assert forall|i: int| 0 <= i < tail.len() implies codec_laws::value_fits(
            (#[trigger] tail[i]).1,
        ) by {
            assert(tail[i] == pairs[i + 1]);
        }
        lemma_pairs_cut(acc.insert(k, v), tail, short, (n - 1) as nat, what);
    }
}

/// What is said of a list that ends before as many as it announces are there: how many bytes are
/// left of the four that the next id needs. Of properties, where the next value is none, what is
/// wrong with the value.
pub proof fn law_lists_that_end_too_soon(
    ids: Seq<LabelId>,
    pairs: Seq<(PropId, ValueView)>,
    short: Seq<u8>,
    n: nat,
    what: &'static str,
)
    requires
        n <= 0xffff,
        forall|i: int| 0 <= i < pairs.len() ==> codec_laws::value_fits((#[trigger] pairs[i]).1),
    ensures
        ids.len() < n && short.len() < 4 ==> labels::parse_labels(
            endian::le_bytes(n, 2) + (labels::ids_bytes(ids) + short),
            what,
        ).out == Err::<Seq<LabelId>, ErrorView>(
            cut_short(what, Part::Body, 4, short.len() as int),
        ),
        pairs.len() < n && short.len() < 4 ==> props::parse_props(
            endian::le_bytes(n, 2) + (props::pairs_bytes(pairs) + short),
            what,
        ).out == Err::<Map<PropId, ValueView>, ErrorView>(
            cut_short(what, Part::Body, 4, short.len() as int),
        ),
        pairs.len() < n && short.len() >= 4 && value::parse_value(short.skip(4)).out is Err
            ==> props::parse_props(
            endian::le_bytes(n, 2) + (props::pairs_bytes(pairs) + short),
            what,
        ).out == Err::<Map<PropId, ValueView>, ErrorView>(
            value::parse_value(short.skip(4)).out->Err_0,
        ),
{
    endian::lemma_le_bytes_len(n, 2);
    endian::lemma_byte_ranges();
    endian::law_le_round_trip(n, 2);
    let l = labels::ids_bytes(ids) + short;
    let p = props::pairs_bytes(pairs) + short;
    let c = endian::le_bytes(n, 2);
    assert((c + l).take(2) =~= c);
    assert((c + l).skip(2) =~= l);
    assert((c + p).take(2) =~= c);
    assert((c + p).skip(2) =~= p);
    if ids.len() < n && short.len() < 4 {
        lemma_ids_cut(Seq::empty(), ids, short, n, what);
    }
    if pairs.len() < n {
        lemma_pairs_cut(Map::empty(), pairs, short, n, what);
    }
}

/// What is said of bytes that are no node: what is wrong with the labels, or else with the
/// properties, or else with the external id, or how many bytes are left over. Of bytes that are no
/// properties likewise.
pub proof fn law_what_is_no_node(s: Seq<u8>)
    ensures
        ({
            let l = labels::parse_labels(s, "node label id");
            let p = props::parse_props(l.rest, "node prop id");
            let x = value::parse_text(p.rest, "node xid", "xid");
            match (l.out, p.out, x.out) {
                (Err(e), _, _) => node::decoded_node(s) == Err::<NodeView, ErrorView>(e),
                (Ok(_), Err(e), _) => node::decoded_node(s) == Err::<NodeView, ErrorView>(e),
                (Ok(_), Ok(_), Err(e)) => node::decoded_node(s) == Err::<NodeView, ErrorView>(e),
                (Ok(ids), Ok(m), Ok(t)) => if x.rest.len() == 0 {
                    node::decoded_node(s) == Ok::<NodeView, ErrorView>(
                        NodeView { labels: ids, props: m, xid: t },
                    )
                } else {
                    node::decoded_node(s) == Err::<NodeView, ErrorView>(
                        ErrorView::Encoding(
                            FaultView::Trailing {
                                what: "node record",
                                extra: x.rest.len() as usize,
                            },
                        ),
                    )
                },
            }
        }),
        ({
            let p = props::parse_props(s, "edge-prop prop id");
            match p.out {
                Err(e) => props::decoded_props(s) == Err::<Map<PropId, ValueView>, ErrorView>(e),
                Ok(m) => if p.rest.len() == 0 {
                    props::decoded_props(s) == Ok::<Map<PropId, ValueView>, ErrorView>(m)
                } else {
                    props::decoded_props(s) == Err::<Map<PropId, ValueView>, ErrorView>(
                        ErrorView::Encoding(
                            FaultView::Trailing {
                                what: "edge props",
                                extra: p.rest.len() as usize,
                            },
                        ),
                    )
                },
            }
        }),
{
}

} // verus!
