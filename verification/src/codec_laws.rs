//! What holds of the byte formats as a whole: what was written is read back, and nothing
//! shorter or longer than an encoding is taken for one.

use vstd::prelude::*;

use crate::canonical;
use crate::change;
use crate::change::{ChangeOp, ChangeView, DeltaView};
use crate::cursor;
use crate::cursor::Parse;
use crate::endian;
use crate::error::{ErrorView, FaultView, Part};
use crate::ids::{LabelId, PredId, PropId, Uid};
use crate::labels;
use crate::node;
use crate::node::NodeView;
use crate::props;
use crate::value;
use crate::value::ValueView;

verus! {

/// How many bytes the length prefix of a blob can count.
pub open spec fn blob_range() -> nat {
    0x1_0000_0000
}

/// Whether the length of every blob in the value fits its four-byte prefix.
pub open spec fn value_fits(v: ValueView) -> bool {
    match v {
        ValueView::String(s) => vstd::utf8::encode_utf8(s).len() < blob_range(),
        ValueView::Bytes(b) => b.len() < blob_range(),
        _ => true,
    }
}

/// Whether the count of pairs, and the length of every blob, fits its prefix.
pub open spec fn props_fit(m: Map<PropId, ValueView>) -> bool {
    &&& m.len() <= 0xffff
    &&& forall|k: PropId| #[trigger] m.contains_key(k) ==> value_fits(m[k])
}

/// Whether every count and every length in the record fits its prefix.
pub open spec fn node_fits(n: NodeView) -> bool {
    &&& n.labels.len() <= 0xffff
    &&& props_fit(n.props)
    &&& vstd::utf8::encode_utf8(n.xid).len() < blob_range()
}

/// Whether every count and every length in the record fits its prefix.
pub open spec fn change_fits(c: ChangeView) -> bool {
    &&& c.value matches Some(v) ==> value_fits(v)
    &&& c.label_delta matches Some(d) ==> d.added.len() <= 0xffff && d.removed.len() <= 0xffff
}

/// Reading `s` succeeds with `v` and leaves `rest`.
pub open spec fn yields<T>(p: Parse<T>, v: T, rest: Seq<u8>) -> bool {
    p.out == Ok::<T, ErrorView>(v) && p.rest == rest
}

/// Bytes after a field do not change how the field is read.
pub open spec fn extends<T>(p: Parse<T>, longer: Parse<T>, t: Seq<u8>) -> bool {
    p.out is Ok ==> longer.out == p.out && longer.rest == p.rest + t
}

// ---------------------------------------------------------------------------
// What was written is read back
// ---------------------------------------------------------------------------

proof fn lemma_le_back(v: nat, n: nat, t: Seq<u8>, what: &'static str, part: Part)
    requires
        v < endian::byte_range(n),
    ensures
        yields(cursor::parse_le(endian::le_bytes(v, n) + t, n, what, part), v, t),
{
    let b = endian::le_bytes(v, n);
    endian::lemma_le_bytes_len(v, n);
    endian::law_le_round_trip(v, n);
    assert((b + t).take(n as int) =~= b);
    assert((b + t).skip(n as int) =~= t);
}

proof fn lemma_count_back(v: nat, t: Seq<u8>)
    requires
        v <= 0xffff,
    ensures
        yields(cursor::parse_count(endian::le_bytes(v, 2) + t), v, t),
{
    let b = endian::le_bytes(v, 2);
    endian::lemma_byte_ranges();
    endian::lemma_le_bytes_len(v, 2);
    endian::law_le_round_trip(v, 2);
    assert((b + t).take(2) =~= b);
    assert((b + t).skip(2) =~= t);
}

pub proof fn lemma_blob_back(b: Seq<u8>, t: Seq<u8>, what: &'static str)
    requires
        b.len() < blob_range(),
    ensures
        yields(cursor::parse_blob(value::blob_bytes(b) + t, what), b, t),
{
    endian::lemma_byte_ranges();
    assert(value::blob_bytes(b) + t =~= endian::le_bytes(b.len(), 4) + (b + t));
    lemma_le_back(b.len(), 4, b + t, what, Part::Length);
    assert((b + t).take(b.len() as int) =~= b);
    assert((b + t).skip(b.len() as int) =~= t);
}

pub proof fn lemma_text_back(s: Seq<char>, t: Seq<u8>, what: &'static str, name: &'static str)
    requires
        vstd::utf8::encode_utf8(s).len() < blob_range(),
    ensures
        yields(
            value::parse_text(value::blob_bytes(vstd::utf8::encode_utf8(s)) + t, what, name),
            s,
            t,
        ),
{
    lemma_blob_back(vstd::utf8::encode_utf8(s), t, what);
    vstd::utf8::encode_utf8_valid_utf8(s);
    vstd::utf8::encode_utf8_decode_utf8(s);
}

proof fn lemma_i64_back(i: i64)
    ensures
        endian::i64_bits(i) < endian::byte_range(8),
        endian::i64_of_bits(endian::i64_bits(i)) == i,
{
    endian::lemma_byte_ranges();
}

/// A value is read back as it was written, whatever bytes follow it.
pub proof fn law_value_round_trip(v: ValueView, t: Seq<u8>)
    requires
        value_fits(v),
    ensures
        value::parse_value(value::value_bytes(v) + t).out == Ok::<ValueView, ErrorView>(v),
        value::parse_value(value::value_bytes(v) + t).rest == t,
{
    let b = value::value_bytes(v);
    let body = b.skip(1);
    assert((b + t).skip(1) =~= body + t);
    endian::lemma_byte_ranges();
    match v {
        ValueView::Null => {
            assert(body + t =~= t);
        },
        ValueView::Bool(x) => {
            assert((body + t).skip(1) =~= t);
        },
        ValueView::Int(i) => {
            lemma_i64_back(i);
            assert(body =~= endian::le_bytes(endian::i64_bits(i), 8));
            lemma_le_back(endian::i64_bits(i), 8, t, "typed-value int", Part::Body);
        },
        ValueView::Float(bits) => {
            assert(body =~= endian::le_bytes(bits as nat, 8));
            lemma_le_back(bits as nat, 8, t, "typed-value float", Part::Body);
        },
        ValueView::String(s) => {
            assert(body =~= value::blob_bytes(vstd::utf8::encode_utf8(s)));
            lemma_text_back(s, t, "typed-value string", "string value");
        },
        ValueView::Bytes(x) => {
            assert(body =~= value::blob_bytes(x));
            lemma_blob_back(x, t, "typed-value bytes");
        },
        ValueView::DateTime(i) => {
            lemma_i64_back(i);
            assert(body =~= endian::le_bytes(endian::i64_bits(i), 8));
            lemma_le_back(endian::i64_bits(i), 8, t, "typed-value datetime", Part::Body);
        },
    }
}

/// `acc` with the pairs inserted in order.
pub open spec fn insert_all(
    acc: Map<PropId, ValueView>,
    pairs: Seq<(PropId, ValueView)>,
) -> Map<PropId, ValueView>
    decreases pairs.len(),
{
    if pairs.len() == 0 {
        acc
    } else {
        insert_all(acc.insert(pairs[0].0, pairs[0].1), pairs.drop_first())
    }
}

proof fn lemma_pairs_back(
    acc: Map<PropId, ValueView>,
    pairs: Seq<(PropId, ValueView)>,
    t: Seq<u8>,
    what: &'static str,
)
    requires
        forall|i: int| 0 <= i < pairs.len() ==> value_fits((#[trigger] pairs[i]).1),
    ensures
        yields(
            props::parse_pairs(acc, props::pairs_bytes(pairs) + t, pairs.len(), what),
            insert_all(acc, pairs),
            t,
        ),
    decreases pairs.len(),
{
    if pairs.len() == 0 {
        assert(props::pairs_bytes(pairs) + t =~= t);
    } else {
        let k = pairs[0].0;
        let v = pairs[0].1;
        let tail = pairs.drop_first();
        let after = props::pairs_bytes(tail) + t;
        let s = props::pairs_bytes(pairs) + t;
        endian::lemma_byte_ranges();
        assert(s =~= endian::le_bytes(k as nat, 4) + (value::value_bytes(v) + after));
        lemma_le_back(k as nat, 4, value::value_bytes(v) + after, what, Part::Body);
        law_value_round_trip(v, after);
        assert forall|i: int| 0 <= i < tail.len() implies value_fits((#[trigger] tail[i]).1) by {
            assert(tail[i] == pairs[i + 1]);
        }
        lemma_pairs_back(acc.insert(k, v), tail, t, what);
    }
}

proof fn lemma_insert_all(acc: Map<PropId, ValueView>, pairs: Seq<(PropId, ValueView)>)
    requires
        props::ascending(pairs),
    ensures
        forall|k: PropId| #[trigger]
            insert_all(acc, pairs).contains_key(k) <==> acc.contains_key(k) || exists|i: int|
                0 <= i < pairs.len() && (#[trigger] pairs[i]).0 == k,
        forall|i: int|
            0 <= i < pairs.len() ==> insert_all(acc, pairs)[(#[trigger] pairs[i]).0] == pairs[i].1,
        forall|k: PropId|
            acc.contains_key(k) && (forall|i: int|
                0 <= i < pairs.len() ==> (#[trigger] pairs[i]).0 != k) ==> #[trigger] insert_all(
                acc,
                pairs,
            )[k] == acc[k],
    decreases pairs.len(),
{
    if pairs.len() > 0 {
        let tail = pairs.drop_first();
        let head = pairs[0];
        let next = acc.insert(head.0, head.1);
        assert forall|i: int, j: int| 0 <= i < j < tail.len() implies (#[trigger] tail[i]).0 < (
        #[trigger] tail[j]).0 by {
            assert(tail[i] == pairs[i + 1] && tail[j] == pairs[j + 1]);
        }
        lemma_insert_all(next, tail);
        let all = insert_all(acc, pairs);
        assert(all == insert_all(next, tail));
        assert forall|k: PropId| #[trigger]
            all.contains_key(k) <==> acc.contains_key(k) || exists|i: int|
                0 <= i < pairs.len() && (#[trigger] pairs[i]).0 == k by {
            assert(insert_all(next, tail).contains_key(k) <==> next.contains_key(k) || exists|i: int|
                0 <= i < tail.len() && (#[trigger] tail[i]).0 == k);
            if all.contains_key(k) && k == head.0 {
                assert(pairs[0].0 == k);
            }
            if all.contains_key(k) && !next.contains_key(k) {
                let i = choose|i: int| 0 <= i < tail.len() && (#[trigger] tail[i]).0 == k;
                assert(pairs[i + 1].0 == k);
            }
            if exists|i: int| 0 <= i < pairs.len() && (#[trigger] pairs[i]).0 == k {
                let i = choose|i: int| 0 <= i < pairs.len() && (#[trigger] pairs[i]).0 == k;
                if i > 0 {
                    assert(tail[i - 1].0 == k);
                }
            }
        }
        assert forall|i: int| 0 <= i < pairs.len() implies all[(#[trigger] pairs[i]).0]
            == pairs[i].1 by {
            if i > 0 {
                assert(tail[i - 1] == pairs[i]);
            } else {
                assert forall|j: int| 0 <= j < tail.len() implies (#[trigger] tail[j]).0
                    != head.0 by {
                    assert(tail[j] == pairs[j + 1]);
                    assert(pairs[0].0 < pairs[j + 1].0);
                }
                assert(insert_all(next, tail)[head.0] == next[head.0]);
            }
        }
        assert forall|k: PropId|
            acc.contains_key(k) && (forall|i: int|
                0 <= i < pairs.len() ==> (#[trigger] pairs[i]).0 != k) implies #[trigger] all[k]
            == acc[k] by {
            assert(pairs[0].0 != k);
            assert forall|j: int| 0 <= j < tail.len() implies (#[trigger] tail[j]).0 != k by {
                assert(tail[j] == pairs[j + 1]);
            }
            assert(insert_all(next, tail)[k] == next[k]);
        }
    }
}

proof fn lemma_sorted_entries(m: Map<PropId, ValueView>)
    ensures
        props::sorted_entries(m).len() == m.len(),
        insert_all(Map::empty(), props::sorted_entries(m)) == m,
        forall|i: int|
            0 <= i < props::sorted_entries(m).len() ==> m.contains_key(
                (#[trigger] props::sorted_entries(m)[i]).0,
            ) && m[props::sorted_entries(m)[i].0] == props::sorted_entries(m)[i].1,
{
    let s = props::sorted_entries(m);
    props::lemma_entries_below(m, 0x1_0000_0000);
    assert forall|i: int| 0 <= i < s.len() implies m.contains_key((#[trigger] s[i]).0) && m[s[i].0]
        == s[i].1 by {
        assert(s.contains(s[i]));
        assert(props::holds_pair(m, s[i]));
    }
    let ks = s.map_values(|x: (PropId, ValueView)| x.0);
    assert(ks.to_set() =~= m.dom()) by {
        assert forall|k: PropId| ks.to_set().contains(k) <==> m.dom().contains(k) by {
            if ks.contains(k) {
                let i = choose|i: int| 0 <= i < ks.len() && ks[i] == k;
                assert(m.contains_key(s[i].0));
            }
            if m.contains_key(k) {
                assert(props::holds_pair(m, (k, m[k])));
                let i = choose|i: int| 0 <= i < s.len() && s[i] == (k, m[k]);
                assert(ks[i] == k);
                assert(ks.contains(k));
            }
        }
    }
    assert(ks.no_duplicates()) by {
        assert forall|i: int, j: int| 0 <= i < ks.len() && 0 <= j < ks.len() && i != j implies ks[i]
            != ks[j] by {
            if i < j {
                assert(s[i].0 < s[j].0);
            } else {
                assert(s[j].0 < s[i].0);
            }
        }
    }
    ks.unique_seq_to_set();
    lemma_insert_all(Map::empty(), s);
    let back = insert_all(Map::<PropId, ValueView>::empty(), s);
    assert forall|k: PropId| back.contains_key(k) <==> m.contains_key(k) by {
        if back.contains_key(k) {
            let i = choose|i: int| 0 <= i < s.len() && (#[trigger] s[i]).0 == k;
            assert(m.contains_key(s[i].0));
        }
        if m.contains_key(k) {
            assert(props::holds_pair(m, (k, m[k])));
            let i = choose|i: int| 0 <= i < s.len() && s[i] == (k, m[k]);
            assert(s[i].0 == k);
        }
    }
    assert forall|k: PropId| m.contains_key(k) implies back[k] == m[k] by {
        assert(props::holds_pair(m, (k, m[k])));
        let i = choose|i: int| 0 <= i < s.len() && s[i] == (k, m[k]);
        assert(back[s[i].0] == s[i].1);
    }
    assert(back =~= m);
}

pub proof fn lemma_props_back(m: Map<PropId, ValueView>, t: Seq<u8>, what: &'static str)
    requires
        props_fit(m),
    ensures
        yields(props::parse_props(props::props_bytes(m) + t, what), m, t),
{
    let e = props::sorted_entries(m);
    lemma_sorted_entries(m);
    let after = props::pairs_bytes(e) + t;
    assert(props::props_bytes(m) + t =~= endian::le_bytes(m.len(), 2) + after);
    lemma_count_back(m.len(), after);
    assert forall|i: int| 0 <= i < e.len() implies value_fits((#[trigger] e[i]).1) by {
        assert(m.contains_key(e[i].0));
    }
    lemma_pairs_back(Map::empty(), e, t, what);
}

/// Listed pairs, in any order, are read one after the other.
pub proof fn lemma_listed_props_back(
    pairs: Seq<(PropId, ValueView)>,
    t: Seq<u8>,
    what: &'static str,
)
    requires
        pairs.len() <= 0xffff,
        forall|i: int| 0 <= i < pairs.len() ==> value_fits((#[trigger] pairs[i]).1),
    ensures
        yields(
            props::parse_props(
                endian::le_bytes(pairs.len(), 2) + props::pairs_bytes(pairs) + t,
                what,
            ),
            insert_all(Map::empty(), pairs),
            t,
        ),
{
    let after = props::pairs_bytes(pairs) + t;
    assert(endian::le_bytes(pairs.len(), 2) + props::pairs_bytes(pairs) + t =~= endian::le_bytes(
        pairs.len(),
        2,
    ) + after);
    lemma_count_back(pairs.len(), after);
    lemma_pairs_back(Map::empty(), pairs, t, what);
}

proof fn lemma_ids_back(acc: Seq<LabelId>, ids: Seq<LabelId>, t: Seq<u8>, what: &'static str)
    ensures
        yields(
            labels::parse_ids(acc, labels::ids_bytes(ids) + t, ids.len(), what),
            acc + ids,
            t,
        ),
    decreases ids.len(),
{
    if ids.len() == 0 {
        assert(labels::ids_bytes(ids) + t =~= t);
        assert(acc + ids =~= acc);
    } else {
        let tail = ids.drop_first();
        let after = labels::ids_bytes(tail) + t;
        endian::lemma_byte_ranges();
        assert(labels::ids_bytes(ids) + t =~= endian::le_bytes(ids[0].0 as nat, 4) + after);
        lemma_le_back(ids[0].0 as nat, 4, after, what, Part::Body);
        lemma_ids_back(acc.push(ids[0]), tail, t, what);
        assert(acc.push(ids[0]) + tail =~= acc + ids);
    }
}

pub proof fn lemma_labels_back(ids: Seq<LabelId>, t: Seq<u8>, what: &'static str)
    requires
        ids.len() <= 0xffff,
    ensures
        yields(labels::parse_labels(labels::labels_bytes(ids) + t, what), ids, t),
{
    let after = labels::ids_bytes(ids) + t;
    assert(labels::labels_bytes(ids) + t =~= endian::le_bytes(ids.len(), 2) + after);
    lemma_count_back(ids.len(), after);
    lemma_ids_back(Seq::empty(), ids, t, what);
    assert(Seq::<LabelId>::empty() + ids =~= ids);
}

proof fn lemma_node_back(n: NodeView, t: Seq<u8>)
    requires
        node_fits(n),
    ensures
        yields(node::parse_node(node::node_bytes(n) + t), n, t),
{
    let xid = value::blob_bytes(vstd::utf8::encode_utf8(n.xid));
    let after_props = xid + t;
    let after_labels = props::props_bytes(n.props) + after_props;
    assert(node::node_bytes(n) + t =~= labels::labels_bytes(n.labels) + after_labels);
    lemma_labels_back(n.labels, after_labels, "node label id");
    lemma_props_back(n.props, after_props, "node prop id");
    lemma_text_back(n.xid, t, "node xid", "xid");
}

proof fn lemma_flag(b: Seq<u8>, what: &'static str)
    requires
        b.len() > 0,
    ensures
        b[0] == 0 ==> yields(cursor::parse_bool(b, what, Part::Presence), false, b.skip(1)),
        b[0] == 1 ==> yields(cursor::parse_bool(b, what, Part::Presence), true, b.skip(1)),
{
}

proof fn lemma_pred_back(p: Option<PredId>, t: Seq<u8>)
    ensures
        yields(change::parse_pred(change::pred_bytes(p) + t), p, t),
{
    let s = change::pred_bytes(p) + t;
    lemma_flag(s, "change-record pred_id");
    match p {
        None => {
            assert(s.skip(1) =~= t);
        },
        Some(id) => {
            endian::lemma_byte_ranges();
            assert(s.skip(1) =~= endian::le_bytes(id.0 as nat, 4) + t);
            lemma_le_back(id.0 as nat, 4, t, "change-record pred_id", Part::Body);
        },
    }
}

proof fn lemma_object_back(o: Option<Uid>, t: Seq<u8>)
    ensures
        yields(change::parse_object(change::object_bytes(o) + t), o, t),
{
    let s = change::object_bytes(o) + t;
    lemma_flag(s, "change-record object_uid");
    match o {
        None => {
            assert(s.skip(1) =~= t);
        },
        Some(id) => {
            endian::lemma_byte_ranges();
            assert(s.skip(1) =~= endian::le_bytes(id.0 as nat, 8) + t);
            lemma_le_back(id.0 as nat, 8, t, "change-record object_uid", Part::Body);
        },
    }
}

proof fn lemma_scalar_back(o: Option<ValueView>, t: Seq<u8>)
    requires
        o matches Some(v) ==> value_fits(v),
    ensures
        yields(change::parse_scalar(change::scalar_bytes(o) + t), o, t),
{
    let s = change::scalar_bytes(o) + t;
    lemma_flag(s, "change-record value");
    match o {
        None => {
            assert(s.skip(1) =~= t);
        },
        Some(v) => {
            assert(s.skip(1) =~= value::value_bytes(v) + t);
            law_value_round_trip(v, t);
        },
    }
}

proof fn lemma_delta_back(o: Option<DeltaView>, t: Seq<u8>)
    requires
        o matches Some(d) ==> d.added.len() <= 0xffff && d.removed.len() <= 0xffff,
    ensures
        yields(change::parse_delta(change::delta_bytes(o) + t), o, t),
{
    let s = change::delta_bytes(o) + t;
    lemma_flag(s, "change-record label_delta");
    match o {
        None => {
            assert(s.skip(1) =~= t);
        },
        Some(d) => {
            let after = labels::labels_bytes(d.removed) + t;
            assert(s.skip(1) =~= labels::labels_bytes(d.added) + after);
            lemma_labels_back(d.added, after, "change-record label_delta.added");
            lemma_labels_back(d.removed, t, "change-record label_delta.removed");
        },
    }
}

proof fn lemma_tail_back(c: ChangeView, t: Seq<u8>)
    requires
        change_fits(c),
    ensures
        yields(
            change::parse_tail(
                c.seq,
                c.op,
                c.subject_uid,
                change::pred_bytes(c.pred_id) + (change::object_bytes(c.object_uid) + (
                change::scalar_bytes(c.value) + (change::delta_bytes(c.label_delta) + t))),
            ),
            c,
            t,
        ),
{
    let s3 = change::delta_bytes(c.label_delta) + t;
    let s2 = change::scalar_bytes(c.value) + s3;
    let s1 = change::object_bytes(c.object_uid) + s2;
    lemma_pred_back(c.pred_id, s1);
    lemma_object_back(c.object_uid, s2);
    lemma_scalar_back(c.value, s3);
    lemma_delta_back(c.label_delta, t);
}

proof fn lemma_change_back(c: ChangeView, t: Seq<u8>)
    requires
        change_fits(c),
    ensures
        yields(change::parse_change(change::change_bytes(c) + t), c, t),
{
    let head = endian::le_bytes(c.seq as nat, 8);
    let subject = endian::le_bytes(c.subject_uid.0 as nat, 8);
    let pred = change::pred_bytes(c.pred_id);
    let object = change::object_bytes(c.object_uid);
    let scalar = change::scalar_bytes(c.value);
    let delta = change::delta_bytes(c.label_delta);
    let s3 = pred + (object + (scalar + (delta + t)));
    let s2 = subject + s3;
    let s1 = seq![c.op.byte()] + s2;
    endian::lemma_byte_ranges();
    assert(change::change_bytes(c) + t =~= head + s1) by {
        lemma_regroup(head, seq![c.op.byte()], subject, pred, object, scalar, delta, t);
    }
    lemma_le_back(c.seq as nat, 8, s1, "change-record seq", Part::Body);
    assert(s1.skip(1) =~= s2);
    law_op_round_trip(c.op);
    lemma_le_back(c.subject_uid.0 as nat, 8, s3, "change-record subject_uid", Part::Body);
    lemma_tail_back(c, t);
}

proof fn lemma_regroup(
    a: Seq<u8>,
    b: Seq<u8>,
    c: Seq<u8>,
    d: Seq<u8>,
    e: Seq<u8>,
    f: Seq<u8>,
    g: Seq<u8>,
    t: Seq<u8>,
)
    ensures
        a + b + c + d + e + f + g + t == a + (b + (c + (d + (e + (f + (g + t)))))),
{
    assert(f + g + t =~= f + (g + t));
    assert(e + f + g + t =~= e + (f + g + t));
    assert(d + e + f + g + t =~= d + (e + f + g + t));
    assert(c + d + e + f + g + t =~= c + (d + e + f + g + t));
    assert(b + c + d + e + f + g + t =~= b + (c + d + e + f + g + t));
    assert(a + b + c + d + e + f + g + t =~= a + (b + c + d + e + f + g + t));
}

/// Each operation is read back from its byte.
pub proof fn law_op_round_trip(op: ChangeOp)
    ensures
        change::op_of_byte(op.byte()) == Ok::<ChangeOp, ErrorView>(op),
{
}

/// Decoding the encoding of a node record gives the record back.
pub proof fn law_node_round_trip(n: NodeView)
    requires
        node_fits(n),
    ensures
        node::decoded_node(node::node_bytes(n)) == Ok::<NodeView, ErrorView>(n),
{
    lemma_node_back(n, Seq::empty());
    assert(node::node_bytes(n) + Seq::<u8>::empty() =~= node::node_bytes(n));
}

/// Decoding the encoding of a property map gives the map back.
pub proof fn law_edge_props_round_trip(m: Map<PropId, ValueView>)
    requires
        props_fit(m),
    ensures
        props::decoded_props(props::props_bytes(m)) == Ok::<Map<PropId, ValueView>, ErrorView>(m),
{
    lemma_props_back(m, Seq::empty(), "edge-prop prop id");
    assert(props::props_bytes(m) + Seq::<u8>::empty() =~= props::props_bytes(m));
}

/// Decoding the encoding of a changelog record gives the record back.
pub proof fn law_change_round_trip(c: ChangeView)
    requires
        change_fits(c),
    ensures
        change::decoded_change(change::change_bytes(c)) == Ok::<ChangeView, ErrorView>(c),
{
    lemma_change_back(c, Seq::empty());
    assert(change::change_bytes(c) + Seq::<u8>::empty() =~= change::change_bytes(c));
}

// ---------------------------------------------------------------------------
// Nothing shorter or longer than an encoding is taken for one
// ---------------------------------------------------------------------------

proof fn lemma_u8_extends(s: Seq<u8>, t: Seq<u8>, what: &'static str, part: Part)
    ensures
        extends(cursor::parse_u8(s, what, part), cursor::parse_u8(s + t, what, part), t),
{
    if s.len() > 0 {
        assert((s + t).skip(1) =~= s.skip(1) + t);
    }
}

proof fn lemma_bool_extends(s: Seq<u8>, t: Seq<u8>, what: &'static str, part: Part)
    ensures
        extends(cursor::parse_bool(s, what, part), cursor::parse_bool(s + t, what, part), t),
{
    lemma_u8_extends(s, t, what, part);
}

proof fn lemma_le_extends(s: Seq<u8>, t: Seq<u8>, n: nat, what: &'static str, part: Part)
    ensures
        extends(cursor::parse_le(s, n, what, part), cursor::parse_le(s + t, n, what, part), t),
{
    if s.len() >= n {
        assert((s + t).take(n as int) =~= s.take(n as int));
        assert((s + t).skip(n as int) =~= s.skip(n as int) + t);
    }
}

proof fn lemma_count_extends(s: Seq<u8>, t: Seq<u8>)
    ensures
        extends(cursor::parse_count(s), cursor::parse_count(s + t), t),
{
    if s.len() >= 2 {
        assert((s + t).take(2) =~= s.take(2));
        assert((s + t).skip(2) =~= s.skip(2) + t);
    }
}

proof fn lemma_blob_extends(s: Seq<u8>, t: Seq<u8>, what: &'static str)
    ensures
        extends(cursor::parse_blob(s, what), cursor::parse_blob(s + t, what), t),
{
    lemma_le_extends(s, t, 4, what, Part::Length);
    let p = cursor::parse_le(s, 4, what, Part::Length);
    if let Ok(len) = p.out {
        if p.rest.len() >= len {
            assert((p.rest + t).take(len as int) =~= p.rest.take(len as int));
            assert((p.rest + t).skip(len as int) =~= p.rest.skip(len as int) + t);
        }
    }
}

proof fn lemma_text_extends(s: Seq<u8>, t: Seq<u8>, what: &'static str, name: &'static str)
    ensures
        extends(value::parse_text(s, what, name), value::parse_text(s + t, what, name), t),
{
    lemma_blob_extends(s, t, what);
}

proof fn lemma_payload_extends(tag: u8, s: Seq<u8>, t: Seq<u8>)
    ensures
        extends(value::parse_payload(tag, s), value::parse_payload(tag, s + t), t),
{
    lemma_bool_extends(s, t, "typed-value bool", Part::Body);
    lemma_le_extends(s, t, 8, "typed-value int", Part::Body);
    lemma_le_extends(s, t, 8, "typed-value float", Part::Body);
    lemma_text_extends(s, t, "typed-value string", "string value");
    lemma_blob_extends(s, t, "typed-value bytes");
    lemma_le_extends(s, t, 8, "typed-value datetime", Part::Body);
}

proof fn lemma_value_extends(s: Seq<u8>, t: Seq<u8>)
    ensures
        extends(value::parse_value(s), value::parse_value(s + t), t),
{
    let p = cursor::parse_u8(s, "typed-value tag", Part::Body);
    lemma_u8_extends(s, t, "typed-value tag", Part::Body);
    if let Ok(tag) = p.out {
        lemma_payload_extends(tag, p.rest, t);
    }
}

proof fn lemma_pairs_extends(
    acc: Map<PropId, ValueView>,
    s: Seq<u8>,
    t: Seq<u8>,
    n: nat,
    what: &'static str,
)
    ensures
        extends(props::parse_pairs(acc, s, n, what), props::parse_pairs(acc, s + t, n, what), t),
    decreases n,
{
    if n > 0 {
        let k = cursor::parse_le(s, 4, what, Part::Body);
        lemma_le_extends(s, t, 4, what, Part::Body);
        if let Ok(id) = k.out {
            let v = value::parse_value(k.rest);
            lemma_value_extends(k.rest, t);
            if let Ok(val) = v.out {
                lemma_pairs_extends(acc.insert(id as PropId, val), v.rest, t, (n - 1) as nat, what);
            }
        }
    }
}

proof fn lemma_props_extends(s: Seq<u8>, t: Seq<u8>, what: &'static str)
    ensures
        extends(props::parse_props(s, what), props::parse_props(s + t, what), t),
{
    let c = cursor::parse_count(s);
    lemma_count_extends(s, t);
    if let Ok(n) = c.out {
        lemma_pairs_extends(Map::empty(), c.rest, t, n, what);
    }
}

proof fn lemma_ids_extends(
    acc: Seq<LabelId>,
    s: Seq<u8>,
    t: Seq<u8>,
    n: nat,
    what: &'static str,
)
    ensures
        extends(labels::parse_ids(acc, s, n, what), labels::parse_ids(acc, s + t, n, what), t),
    decreases n,
{
    if n > 0 {
        let p = cursor::parse_le(s, 4, what, Part::Body);
        lemma_le_extends(s, t, 4, what, Part::Body);
        if let Ok(id) = p.out {
            lemma_ids_extends(acc.push(LabelId(id as u32)), p.rest, t, (n - 1) as nat, what);
        }
    }
}

proof fn lemma_labels_extends(s: Seq<u8>, t: Seq<u8>, what: &'static str)
    ensures
        extends(labels::parse_labels(s, what), labels::parse_labels(s + t, what), t),
{
    let c = cursor::parse_count(s);
    lemma_count_extends(s, t);
    if let Ok(n) = c.out {
        lemma_ids_extends(Seq::empty(), c.rest, t, n, what);
    }
}

proof fn lemma_node_extends(s: Seq<u8>, t: Seq<u8>)
    ensures
        extends(node::parse_node(s), node::parse_node(s + t), t),
{
    let l = labels::parse_labels(s, "node label id");
    lemma_labels_extends(s, t, "node label id");
    if let Ok(ids) = l.out {
        let p = props::parse_props(l.rest, "node prop id");
        lemma_props_extends(l.rest, t, "node prop id");
        if let Ok(m) = p.out {
            lemma_text_extends(p.rest, t, "node xid", "xid");
        }
    }
}

proof fn lemma_pred_extends(s: Seq<u8>, t: Seq<u8>)
    ensures
        extends(change::parse_pred(s), change::parse_pred(s + t), t),
{
    let f = cursor::parse_bool(s, "change-record pred_id", Part::Presence);
    lemma_bool_extends(s, t, "change-record pred_id", Part::Presence);
    lemma_le_extends(f.rest, t, 4, "change-record pred_id", Part::Body);
}

proof fn lemma_object_extends(s: Seq<u8>, t: Seq<u8>)
    ensures
        extends(change::parse_object(s), change::parse_object(s + t), t),
{
    let f = cursor::parse_bool(s, "change-record object_uid", Part::Presence);
    lemma_bool_extends(s, t, "change-record object_uid", Part::Presence);
    lemma_le_extends(f.rest, t, 8, "change-record object_uid", Part::Body);
}

proof fn lemma_scalar_extends(s: Seq<u8>, t: Seq<u8>)
    ensures
        extends(change::parse_scalar(s), change::parse_scalar(s + t), t),
{
    let f = cursor::parse_bool(s, "change-record value", Part::Presence);
    lemma_bool_extends(s, t, "change-record value", Part::Presence);
    lemma_value_extends(f.rest, t);
}

proof fn lemma_delta_extends(s: Seq<u8>, t: Seq<u8>)
    ensures
        extends(change::parse_delta(s), change::parse_delta(s + t), t),
{
    let f = cursor::parse_bool(s, "change-record label_delta", Part::Presence);
    lemma_bool_extends(s, t, "change-record label_delta", Part::Presence);
    let a = labels::parse_labels(f.rest, "change-record label_delta.added");
    lemma_labels_extends(f.rest, t, "change-record label_delta.added");
    lemma_labels_extends(a.rest, t, "change-record label_delta.removed");
}

proof fn lemma_tail_extends(seq: u64, op: ChangeOp, subject: Uid, s: Seq<u8>, t: Seq<u8>)
    ensures
        extends(
            change::parse_tail(seq, op, subject, s),
            change::parse_tail(seq, op, subject, s + t),
            t,
        ),
{
    let p = change::parse_pred(s);
    lemma_pred_extends(s, t);
    if let Ok(pred) = p.out {
        let o = change::parse_object(p.rest);
        lemma_object_extends(p.rest, t);
        if let Ok(object) = o.out {
            let v = change::parse_scalar(o.rest);
            lemma_scalar_extends(o.rest, t);
            if let Ok(scalar) = v.out {
                lemma_delta_extends(v.rest, t);
            }
        }
    }
}

proof fn lemma_change_extends(s: Seq<u8>, t: Seq<u8>)
    ensures
        extends(change::parse_change(s), change::parse_change(s + t), t),
{
    let q = cursor::parse_le(s, 8, "change-record seq", Part::Body);
    lemma_le_extends(s, t, 8, "change-record seq", Part::Body);
    if let Ok(seq) = q.out {
        let b = cursor::parse_u8(q.rest, "change-record op", Part::Body);
        lemma_u8_extends(q.rest, t, "change-record op", Part::Body);
        let o = change::parse_op(q.rest);
        if let Ok(op) = o.out {
            let u = cursor::parse_le(o.rest, 8, "change-record subject_uid", Part::Body);
            lemma_le_extends(o.rest, t, 8, "change-record subject_uid", Part::Body);
            if let Ok(uid) = u.out {
                lemma_tail_extends(seq as u64, op, Uid(uid as u64), u.rest, t);
            }
        }
    }
}

/// An encoding cut short anywhere is no node record.
pub proof fn law_truncated_node_rejected(n: NodeView, cut: int)
    requires
        node_fits(n),
        0 <= cut < node::node_bytes(n).len(),
    ensures
        node::decoded_node(node::node_bytes(n).take(cut)) is Err,
{
    let b = node::node_bytes(n);
    lemma_node_back(n, Seq::empty());
    assert(b + Seq::<u8>::empty() =~= b);
    assert(b.take(cut) + b.skip(cut) =~= b);
    lemma_node_extends(b.take(cut), b.skip(cut));
}

/// An encoding followed by anything is no node record, and the error counts the excess.
pub proof fn law_trailing_node_rejected(n: NodeView, extra: Seq<u8>)
    requires
        node_fits(n),
        extra.len() > 0,
    ensures
        node::decoded_node(node::node_bytes(n) + extra) == Err::<NodeView, ErrorView>(
            ErrorView::Encoding(FaultView::Trailing { what: "node record", extra: extra.len() as usize }),
        ),
{
    lemma_node_back(n, extra);
}

/// Different node records have different encodings.
pub proof fn law_node_encoding_injective(a: NodeView, b: NodeView)
    requires
        node_fits(a),
        node_fits(b),
        node::node_bytes(a) == node::node_bytes(b),
    ensures
        a == b,
{
    law_node_round_trip(a);
    law_node_round_trip(b);
}

/// An encoding cut short anywhere is no property map.
pub proof fn law_truncated_edge_props_rejected(m: Map<PropId, ValueView>, cut: int)
    requires
        props_fit(m),
        0 <= cut < props::props_bytes(m).len(),
    ensures
        props::decoded_props(props::props_bytes(m).take(cut)) is Err,
{
    let b = props::props_bytes(m);
    lemma_props_back(m, Seq::empty(), "edge-prop prop id");
    assert(b + Seq::<u8>::empty() =~= b);
    assert(b.take(cut) + b.skip(cut) =~= b);
    lemma_props_extends(b.take(cut), b.skip(cut), "edge-prop prop id");
}

/// An encoding followed by anything is no property map, and the error counts the excess.
pub proof fn law_trailing_edge_props_rejected(m: Map<PropId, ValueView>, extra: Seq<u8>)
    requires
        props_fit(m),
        extra.len() > 0,
    ensures
        props::decoded_props(props::props_bytes(m) + extra) == Err::<
            Map<PropId, ValueView>,
            ErrorView,
        >(ErrorView::Encoding(FaultView::Trailing { what: "edge props", extra: extra.len() as usize })),
{
    lemma_props_back(m, extra, "edge-prop prop id");
}

/// Different property maps have different encodings.
pub proof fn law_edge_props_encoding_injective(
    a: Map<PropId, ValueView>,
    b: Map<PropId, ValueView>,
)
    requires
        props_fit(a),
        props_fit(b),
        props::props_bytes(a) == props::props_bytes(b),
    ensures
        a == b,
{
    law_edge_props_round_trip(a);
    law_edge_props_round_trip(b);
}

proof fn lemma_cut(b: Seq<u8>, cut: int)
    requires
        0 <= cut <= b.len(),
    ensures
        b + Seq::<u8>::empty() == b,
        b.take(cut) + b.skip(cut) == b,
        b.skip(cut).len() == b.len() - cut,
{
    assert(b + Seq::<u8>::empty() =~= b);
    assert(b.take(cut) + b.skip(cut) =~= b);
}

proof fn lemma_needs_all<T>(
    short: Parse<T>,
    whole: Parse<T>,
    v: T,
    rest: Seq<u8>,
    what: &'static str,
)
    requires
        yields(whole, v, Seq::empty()),
        extends(short, whole, rest),
        rest.len() > 0,
    ensures
        props::complete(short, what) is Err,
{
}

/// An encoding cut short anywhere is no changelog record.
pub proof fn law_truncated_change_rejected(c: ChangeView, cut: int)
    requires
        change_fits(c),
        0 <= cut < change::change_bytes(c).len(),
    ensures
        change::decoded_change(change::change_bytes(c).take(cut)) is Err,
{
    let b = change::change_bytes(c);
    lemma_change_back(c, Seq::empty());
    lemma_change_extends(b.take(cut), b.skip(cut));
    lemma_cut(b, cut);
    lemma_needs_all(
        change::parse_change(b.take(cut)),
        change::parse_change(b),
        c,
        b.skip(cut),
        "change record",
    );
}

/// An encoding followed by anything is no changelog record, and the error counts the excess.
pub proof fn law_trailing_change_rejected(c: ChangeView, extra: Seq<u8>)
    requires
        change_fits(c),
        extra.len() > 0,
    ensures
        change::decoded_change(change::change_bytes(c) + extra) == Err::<ChangeView, ErrorView>(
            ErrorView::Encoding(FaultView::Trailing { what: "change record", extra: extra.len() as usize }),
        ),
{
    lemma_change_back(c, extra);
}

/// Different changelog records have different encodings.
pub proof fn law_change_encoding_injective(a: ChangeView, b: ChangeView)
    requires
        change_fits(a),
        change_fits(b),
        change::change_bytes(a) == change::change_bytes(b),
    ensures
        a == b,
{
    law_change_round_trip(a);
    law_change_round_trip(b);
}

/// A node that passes a size cap below the range of a length prefix is read back as it was
/// written: the default cap is one.
pub proof fn law_capped_node_fits(n: NodeView)
    requires
        node::node_encodable(n),
        node::node_bytes(n).len() < blob_range(),
    ensures
        node_fits(n),
{
    let e = props::sorted_entries(n.props);
    lemma_sorted_entries(n.props);
    value::lemma_blob_bytes_len(vstd::utf8::encode_utf8(n.xid));
    assert forall|k: PropId| #[trigger] n.props.contains_key(k) implies value_fits(n.props[k]) by {
        props::lemma_entries_below(n.props, 0x1_0000_0000);
        assert(props::holds_pair(n.props, (k, n.props[k])));
        let i = choose|i: int| 0 <= i < e.len() && e[i] == (k, n.props[k]);
        lemma_pair_within(e, i);
        value::lemma_value_bytes_len(n.props[k]);
    }
}

proof fn lemma_pair_within(e: Seq<(PropId, ValueView)>, i: int)
    requires
        0 <= i < e.len(),
    ensures
        value::value_bytes(e[i].1).len() <= props::pairs_bytes(e).len(),
    decreases e.len(),
{
    if i > 0 {
        lemma_pair_within(e.drop_first(), i - 1);
    }
}

/// Whatever decodes as a changelog record encodes to the same bytes: a record has no second
/// encoding.
pub proof fn law_decoded_change_encodes_back(s: Seq<u8>)
    requires
        change::decoded_change(s) is Ok,
    ensures
        change::change_bytes(change::decoded_change(s)->Ok_0) == s,
{
    canonical::lemma_change(s);
}

} // verus!
