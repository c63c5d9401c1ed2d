//! What operations do to a store, and what holds of the names of counters.

use vstd::prelude::*;

use crate::endian;
use crate::fixed;
use crate::ids::{Direction, PredId, Uid};
use crate::store;
use crate::store::{KeyView, OpView, PayloadView};

verus! {

/// The plain values of a store after operations were applied to it. Counters and deletion marks
/// are kept apart from them.
pub open spec fn applied(m: Map<KeyView, PayloadView>, ops: Seq<OpView>) -> Map<
    KeyView,
    PayloadView,
>
    decreases ops.len(),
{
    if ops.len() == 0 {
        m
    } else {
        let before = applied(m, ops.drop_last());
        match ops.last() {
            OpView::Put { key, value } => before.insert(key, value),
            OpView::Delete { key } => before.remove(key),
            _ => before,
        }
    }
}

/// What operations add to the counter under a key.
pub open spec fn counted(ops: Seq<OpView>, name: KeyView) -> int
    decreases ops.len(),
{
    if ops.len() == 0 {
        0
    } else {
        counted(ops.drop_last(), name) + op_count(ops.last(), name)
    }
}

/// What one operation adds to the counter under a key.
pub open spec fn op_count(op: OpView, name: KeyView) -> int {
    match op {
        OpView::Merge { key, operand } => if key == name {
            match fixed::decoded_i64_le(operand, "operand") {
                Ok(v) => v as int,
                Err(_) => 0,
            }
        } else {
            0
        },
        _ => 0,
    }
}

/// Whether an operation writes the plain value under a key.
pub open spec fn writes(op: OpView, name: KeyView) -> bool {
    match op {
        OpView::Put { key, .. } => key == name,
        OpView::Delete { key } => key == name,
        _ => false,
    }
}

/// Whether no operation writes the plain value under a key.
pub open spec fn untouched(ops: Seq<OpView>, name: KeyView) -> bool {
    forall|i: int| 0 <= i < ops.len() ==> !writes(#[trigger] ops[i], name)
}

/// What a store holds under a key.
pub open spec fn value_at(m: Map<KeyView, PayloadView>, key: KeyView) -> Option<PayloadView> {
    if m.contains_key(key) {
        Some(m[key])
    } else {
        None
    }
}

/// The bytes that a store holds under a key.
pub open spec fn bytes_at(m: Map<KeyView, PayloadView>, key: KeyView) -> Option<Seq<u8>> {
    match value_at(m, key) {
        Some(PayloadView::Raw(b)) => Some(b),
        _ => None,
    }
}

/// Operations applied in two parts are applied one part after the other.
pub proof fn law_applied_in_order(
    m: Map<KeyView, PayloadView>,
    first: Seq<OpView>,
    second: Seq<OpView>,
)
    ensures
        applied(m, first + second) == applied(applied(m, first), second),
    decreases second.len(),
{
    if second.len() == 0 {
        assert(first + second =~= first);
    } else {
        assert((first + second).drop_last() =~= first + second.drop_last());
        law_applied_in_order(m, first, second.drop_last());
    }
}

/// Operations that do not write a key leave what is there.
pub proof fn law_untouched_stays(m: Map<KeyView, PayloadView>, ops: Seq<OpView>, key: KeyView)
    requires
        untouched(ops, key),
    ensures
        value_at(applied(m, ops), key) == value_at(m, key),
    decreases ops.len(),
{
    if ops.len() > 0 {
        let before = ops.drop_last();
        assert forall|i: int| 0 <= i < before.len() implies !writes(#[trigger] before[i], key) by {
            assert(before[i] == ops[i]);
        }
        law_untouched_stays(m, before, key);
        assert(!writes(ops[ops.len() - 1], key));
    }
}

/// What operations make of a key depends on nothing but what was there.
pub proof fn law_applied_at(
    a: Map<KeyView, PayloadView>,
    b: Map<KeyView, PayloadView>,
    ops: Seq<OpView>,
    key: KeyView,
)
    requires
        value_at(a, key) == value_at(b, key),
    ensures
        value_at(applied(a, ops), key) == value_at(applied(b, ops), key),
    decreases ops.len(),
{
    if ops.len() > 0 {
        law_applied_at(a, b, ops.drop_last(), key);
    }
}

/// Counters add up over operations applied in two parts.
pub proof fn law_counted_in_order(first: Seq<OpView>, second: Seq<OpView>, key: KeyView)
    ensures
        counted(first + second, key) == counted(first, key) + counted(second, key),
    decreases second.len(),
{
    if second.len() == 0 {
        assert(first + second =~= first);
    } else {
        assert((first + second).drop_last() =~= first + second.drop_last());
        law_counted_in_order(first, second.drop_last(), key);
    }
}

/// The lengths of the names that counters and cursors begin with.
pub proof fn lemma_names()
    ensures
        vstd::utf8::encode_utf8("count/"@).len() == 6,
        vstd::utf8::encode_utf8("latest_seq"@).len() == 10,
{
    reveal_strlit("count/");
    reveal_strlit("latest_seq");
    vstd::utf8::is_ascii_chars_encode_utf8("count/"@);
    vstd::utf8::is_ascii_chars_encode_utf8("latest_seq"@);
}

/// Every predicate, direction and anchor has a counter of its own.
pub proof fn law_degree_name_injective(
    p: PredId,
    d: Direction,
    a: Uid,
    p2: PredId,
    d2: Direction,
    a2: Uid,
)
    requires
        store::degree_name(p, d, a) == store::degree_name(p2, d2, a2),
    ensures
        p == p2,
        d == d2,
        a == a2,
{
    let n = store::degree_name(p, d, a);
    lemma_degree_name_parts(p, d, a);
    lemma_degree_name_parts(p2, d2, a2);
    endian::lemma_byte_ranges();
    endian::law_be_round_trip(p.0 as nat, 4);
    endian::law_be_round_trip(p2.0 as nat, 4);
    endian::law_be_round_trip(a.0 as nat, 8);
    endian::law_be_round_trip(a2.0 as nat, 8);
    assert(n[10] == d.byte());
}

/// No degree counter is under the name of the cursor.
pub proof fn law_degree_name_not_cursor(p: PredId, d: Direction, a: Uid)
    ensures
        store::degree_name(p, d, a) != store::latest_seq_name(),
{
    lemma_degree_name_parts(p, d, a);
    lemma_names();
}

proof fn lemma_degree_name_parts(p: PredId, d: Direction, a: Uid)
    ensures
        ({
            let n = store::degree_name(p, d, a);
            &&& n.len() == 19
            &&& n.take(6) == vstd::utf8::encode_utf8("count/"@)
            &&& n.subrange(6, 10) == endian::be_bytes(p.0 as nat, 4)
            &&& n[10] == d.byte()
            &&& n.subrange(11, 19) == endian::be_bytes(a.0 as nat, 8)
        }),
{
    let n = store::degree_name(p, d, a);
    lemma_names();
    endian::lemma_be_bytes_len(p.0 as nat, 4);
    endian::lemma_be_bytes_len(a.0 as nat, 8);
    assert(n.take(6) =~= vstd::utf8::encode_utf8("count/"@));
    assert(n.subrange(6, 10) =~= endian::be_bytes(p.0 as nat, 4));
    assert(n.subrange(11, 19) =~= endian::be_bytes(a.0 as nat, 8));
}

} // verus!
