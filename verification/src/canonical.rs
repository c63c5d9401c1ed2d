//! What a reader takes off the front of its input, written again, is what it took.

use vstd::prelude::*;

use crate::change;
use crate::change::{ChangeOp, ChangeView};
use crate::cursor;
use crate::endian;
use crate::error::Part;
use crate::ids::{LabelId, Uid};
use crate::labels;
use crate::value;
use crate::value::ValueView;

verus! {


pub proof fn lemma_le_again(b: Seq<u8>)
    ensures
        endian::le_bytes(endian::le_value(b), b.len()) == b,
    decreases b.len(),
{
    if b.len() > 0 {
        let tail = b.drop_first();
        lemma_le_again(tail);
        let v = endian::le_value(b);
        assert(v == b[0] as nat + 256 * endian::le_value(tail));
        assert(v % 256 == b[0] as nat);
        assert(v / 256 == endian::le_value(tail));
        assert(endian::le_bytes(v, b.len()) =~= seq![b[0]] + tail);
        assert(seq![b[0]] + tail =~= b);
    } else {
        assert(endian::le_bytes(0, 0) =~= b);
    }
}

pub proof fn lemma_number(s: Seq<u8>, n: nat, what: &'static str, part: Part)
    ensures
        ({
            let p = cursor::parse_le(s, n, what, part);
            p.out matches Ok(v) ==> v < endian::byte_range(n) && s == endian::le_bytes(v, n)
                + p.rest
        }),
{
    if s.len() >= n {
        lemma_le_again(s.take(n as int));
        endian::lemma_le_value_bound(s.take(n as int));
        assert(s =~= s.take(n as int) + s.skip(n as int));
    }
}

proof fn lemma_byte(s: Seq<u8>)
    requires
        s.len() > 0,
    ensures
        s == seq![s[0]] + s.skip(1),
{
    assert(s =~= seq![s[0]] + s.skip(1));
}

pub proof fn lemma_blob(s: Seq<u8>, what: &'static str)
    ensures
        ({
            let p = cursor::parse_blob(s, what);
            p.out matches Ok(b) ==> s == value::blob_bytes(b) + p.rest
        }),
{
    let p = cursor::parse_blob(s, what);
    lemma_number(s, 4, what, Part::Length);
    if p.out is Ok {
        let l = cursor::parse_le(s, 4, what, Part::Length);
        let b = p.out->Ok_0;
        assert(l.rest =~= b + p.rest);
        assert(s =~= value::blob_bytes(b) + p.rest);
    }
}

proof fn lemma_bits(v: nat)
    requires
        v < 0x1_0000_0000_0000_0000,
    ensures
        endian::i64_bits(endian::i64_of_bits(v) as i64) == v,
{
}

pub proof fn lemma_value(s: Seq<u8>)
    ensures
        ({
            let p = value::parse_value(s);
            p.out matches Ok(v) ==> s == value::value_bytes(v) + p.rest
        }),
{
    let p = value::parse_value(s);
    if p.out is Ok {
        let v = p.out->Ok_0;
        let t = s.skip(1);
        lemma_byte(s);
        endian::lemma_byte_ranges();
        match v {
            ValueView::Null => {
                assert(s =~= value::value_bytes(v) + p.rest);
            },
            ValueView::Bool(_) => {
                lemma_byte(t);
                assert(s =~= value::value_bytes(v) + p.rest);
            },
            ValueView::Int(_) => {
                lemma_number(t, 8, "typed-value int", Part::Body);
                lemma_bits(cursor::parse_le(t, 8, "typed-value int", Part::Body).out->Ok_0);
                assert(s =~= value::value_bytes(v) + p.rest);
            },
            ValueView::Float(_) => {
                lemma_number(t, 8, "typed-value float", Part::Body);
                assert(s =~= value::value_bytes(v) + p.rest);
            },
            ValueView::String(_) => {
                lemma_blob(t, "typed-value string");
                let b = cursor::parse_blob(t, "typed-value string").out->Ok_0;
                vstd::utf8::decode_utf8_encode_utf8(b);
                assert(s =~= value::value_bytes(v) + p.rest);
            },
            ValueView::Bytes(_) => {
                lemma_blob(t, "typed-value bytes");
                assert(s =~= value::value_bytes(v) + p.rest);
            },
            ValueView::DateTime(_) => {
                lemma_number(t, 8, "typed-value datetime", Part::Body);
                lemma_bits(cursor::parse_le(t, 8, "typed-value datetime", Part::Body).out->Ok_0);
                assert(s =~= value::value_bytes(v) + p.rest);
            },
        }
    }
}

proof fn lemma_ids(acc: Seq<LabelId>, s: Seq<u8>, n: nat, what: &'static str)
    ensures
        ({
            let p = labels::parse_ids(acc, s, n, what);
            p.out matches Ok(ids) ==> {
                &&& ids.len() == acc.len() + n
                &&& ids.take(acc.len() as int) == acc
                &&& s == labels::ids_bytes(ids.skip(acc.len() as int)) + p.rest
            }
        }),
    decreases n,
{
    let p = labels::parse_ids(acc, s, n, what);
    if n == 0 {
        assert(acc.take(acc.len() as int) =~= acc);
        assert(acc.skip(acc.len() as int) =~= Seq::empty());
        assert(s =~= Seq::<u8>::empty() + s);
    } else if p.out is Ok {
        let q = cursor::parse_le(s, 4, what, Part::Body);
        lemma_number(s, 4, what, Part::Body);
        endian::lemma_byte_ranges();
        let id = LabelId(q.out->Ok_0 as u32);
        let more = acc.push(id);
        lemma_ids(more, q.rest, (n - 1) as nat, what);
        let ids = p.out->Ok_0;
        let mine = ids.skip(acc.len() as int);
        assert(ids.take(acc.len() as int) =~= ids.take(more.len() as int).take(acc.len() as int));
        assert(more.take(acc.len() as int) =~= acc);
        assert(ids[acc.len() as int] == ids.take(more.len() as int)[acc.len() as int]);
        assert(mine[0] == id);
        assert(mine.drop_first() =~= ids.skip(more.len() as int));
        assert(s =~= labels::ids_bytes(mine) + p.rest);
    }
}

pub proof fn lemma_labels(s: Seq<u8>, what: &'static str)
    ensures
        ({
            let p = labels::parse_labels(s, what);
            p.out matches Ok(ids) ==> s == labels::labels_bytes(ids) + p.rest
        }),
{
    let p = labels::parse_labels(s, what);
    if p.out is Ok {
        let n = cursor::parse_count(s).out->Ok_0;
        let rest = s.skip(2);
        lemma_le_again(s.take(2));
        assert(s =~= s.take(2) + rest);
        lemma_ids(Seq::empty(), rest, n, what);
        let ids = p.out->Ok_0;
        assert(ids.skip(0) =~= ids);
        assert(s =~= labels::labels_bytes(ids) + p.rest);
    }
}

proof fn lemma_pred(s: Seq<u8>)
    ensures
        change::parse_pred(s).out matches Ok(v) ==> s == change::pred_bytes(v)
            + change::parse_pred(s).rest,
{
    let p = change::parse_pred(s);
    if p.out is Ok {
        lemma_byte(s);
        endian::lemma_byte_ranges();
        lemma_number(s.skip(1), 4, "change-record pred_id", Part::Body);
        assert(s =~= change::pred_bytes(p.out->Ok_0) + p.rest);
    }
}

proof fn lemma_object(s: Seq<u8>)
    ensures
        change::parse_object(s).out matches Ok(v) ==> s == change::object_bytes(v)
            + change::parse_object(s).rest,
{
    let p = change::parse_object(s);
    if p.out is Ok {
        lemma_byte(s);
        endian::lemma_byte_ranges();
        lemma_number(s.skip(1), 8, "change-record object_uid", Part::Body);
        assert(s =~= change::object_bytes(p.out->Ok_0) + p.rest);
    }
}

proof fn lemma_scalar(s: Seq<u8>)
    ensures
        change::parse_scalar(s).out matches Ok(v) ==> s == change::scalar_bytes(v)
            + change::parse_scalar(s).rest,
{
    let p = change::parse_scalar(s);
    if p.out is Ok {
        lemma_byte(s);
        lemma_value(s.skip(1));
        assert(s =~= change::scalar_bytes(p.out->Ok_0) + p.rest);
    }
}

proof fn lemma_delta(s: Seq<u8>)
    ensures
        change::parse_delta(s).out matches Ok(v) ==> s == change::delta_bytes(v)
            + change::parse_delta(s).rest,
{
    let p = change::parse_delta(s);
    if p.out is Ok {
        let t = s.skip(1);
        lemma_byte(s);
        if p.out->Ok_0 is Some {
            lemma_labels(t, "change-record label_delta.added");
            let a = labels::parse_labels(t, "change-record label_delta.added");
            lemma_labels(a.rest, "change-record label_delta.removed");
        }
        assert(s =~= change::delta_bytes(p.out->Ok_0) + p.rest);
    }
}

proof fn lemma_four(s: Seq<u8>, parts: Seq<Seq<u8>>, rests: Seq<Seq<u8>>)
    requires
        parts.len() == 4,
        rests.len() == 4,
        s == parts[0] + rests[0],
        rests[0] == parts[1] + rests[1],
        rests[1] == parts[2] + rests[2],
        rests[2] == parts[3] + rests[3],
    ensures
        s == parts[0] + parts[1] + parts[2] + parts[3] + rests[3],
{
    assert(s =~= parts[0] + parts[1] + rests[1]);
    assert(s =~= parts[0] + parts[1] + parts[2] + rests[2]);
    assert(s =~= parts[0] + parts[1] + parts[2] + parts[3] + rests[3]);
}

proof fn lemma_tail(seq: u64, op: ChangeOp, uid: Uid, s: Seq<u8>)
    ensures
        ({
            let p = change::parse_tail(seq, op, uid, s);
            p.out matches Ok(c) ==> {
                &&& c.seq == seq && c.op == op && c.subject_uid == uid
                &&& s == change::pred_bytes(c.pred_id) + change::object_bytes(c.object_uid)
                    + change::scalar_bytes(c.value) + change::delta_bytes(c.label_delta) + p.rest
            }
        }),
{
    lemma_pred(s);
    let p = change::parse_pred(s);
    lemma_object(p.rest);
    let o = change::parse_object(p.rest);
    lemma_scalar(o.rest);
    let v = change::parse_scalar(o.rest);
    lemma_delta(v.rest);
    let d = change::parse_delta(v.rest);
    if change::parse_tail(seq, op, uid, s).out is Ok {
        let parts = seq![
            change::pred_bytes(p.out->Ok_0),
            change::object_bytes(o.out->Ok_0),
            change::scalar_bytes(v.out->Ok_0),
            change::delta_bytes(d.out->Ok_0),
        ];
        lemma_four(s, parts, seq![p.rest, o.rest, v.rest, d.rest]);
    }
}

proof fn lemma_op(s: Seq<u8>)
    ensures
        change::parse_op(s).out matches Ok(op) ==> s == seq![op.byte()] + change::parse_op(s).rest,
{
    if change::parse_op(s).out is Ok {
        lemma_byte(s);
    }
}

proof fn lemma_join(
    s: Seq<u8>,
    a: Seq<u8>,
    b: Seq<u8>,
    c: Seq<u8>,
    d: Seq<u8>,
    e: Seq<u8>,
    f: Seq<u8>,
    g: Seq<u8>,
    end: Seq<u8>,
)
    requires
        s == a + (b + (c + (d + e + f + g + end))),
        end.len() == 0,
    ensures
        s == a + b + c + d + e + f + g,
{
    assert(s =~= a + b + c + d + e + f + g);
}

proof fn lemma_seven(
    s: Seq<u8>,
    a: Seq<u8>,
    b: Seq<u8>,
    c: Seq<u8>,
    v: ChangeView,
    q: Seq<u8>,
    o: Seq<u8>,
    u: Seq<u8>,
    end: Seq<u8>,
)
    requires
        s == a + q,
        q == b + o,
        o == c + u,
        u == change::pred_bytes(v.pred_id) + change::object_bytes(v.object_uid)
            + change::scalar_bytes(v.value) + change::delta_bytes(v.label_delta) + end,
        end.len() == 0,
    ensures
        s == a + b + c + change::pred_bytes(v.pred_id) + change::object_bytes(v.object_uid)
            + change::scalar_bytes(v.value) + change::delta_bytes(v.label_delta),
{
    lemma_join(
        s,
        a,
        b,
        c,
        change::pred_bytes(v.pred_id),
        change::object_bytes(v.object_uid),
        change::scalar_bytes(v.value),
        change::delta_bytes(v.label_delta),
        end,
    );
}

pub proof fn lemma_change(s: Seq<u8>)
    requires
        change::decoded_change(s) is Ok,
    ensures
        change::change_bytes(change::decoded_change(s)->Ok_0) == s,
{
    endian::lemma_byte_ranges();
    let q = cursor::parse_le(s, 8, "change-record seq", Part::Body);
    lemma_number(s, 8, "change-record seq", Part::Body);
    let o = change::parse_op(q.rest);
    lemma_op(q.rest);
    let u = cursor::parse_le(o.rest, 8, "change-record subject_uid", Part::Body);
    lemma_number(o.rest, 8, "change-record subject_uid", Part::Body);
    let (seq, op, uid) = (q.out->Ok_0 as u64, o.out->Ok_0, Uid(u.out->Ok_0 as u64));
    lemma_tail(seq, op, uid, u.rest);
    let t = change::parse_tail(seq, op, uid, u.rest);
    assert(t.rest.len() == 0 && t.out is Ok);
    lemma_seven(
        s,
        endian::le_bytes(seq as nat, 8),
        seq![op.byte()],
        endian::le_bytes(uid.0 as nat, 8),
        t.out->Ok_0,
        q.rest,
        o.rest,
        u.rest,
        t.rest,
    );
}

} // verus!
