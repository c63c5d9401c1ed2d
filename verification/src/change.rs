//! The changelog record and its byte format.

use bytes::{Bytes, BytesMut};
use vstd::prelude::*;

use crate::buffer;
use crate::cursor;
use crate::cursor::Parse;
use crate::endian;
use crate::error;
use crate::error::{Error, ErrorView, Fault, FaultView, Part};
use crate::ids::{LabelId, PredId, Uid};
use crate::labels;
use crate::props;
use crate::value;
use crate::value::{TypedValue, ValueView};

verus! {

const OP_UPSERT_NODE: u8 = 0;

const OP_UPSERT_EDGE: u8 = 1;

const OP_DELETE_NODE: u8 = 2;

const OP_DELETE_EDGE: u8 = 3;

/// The kind of write that a [`ChangeRecord`] describes.
#[derive(Debug, Clone, Copy, PartialEq, Eq, Structural)]
pub enum ChangeOp {
    UpsertNode,
    UpsertEdge,
    DeleteNode,
    DeleteEdge,
}

/// The operation that a byte stands for, if any.
pub open spec fn op_of_byte(b: u8) -> Result<ChangeOp, ErrorView> {
    if b == 0 {
        Ok(ChangeOp::UpsertNode)
    } else if b == 1 {
        Ok(ChangeOp::UpsertEdge)
    } else if b == 2 {
        Ok(ChangeOp::DeleteNode)
    } else if b == 3 {
        Ok(ChangeOp::DeleteEdge)
    } else {
        Err(ErrorView::Encoding(FaultView::InvalidOp { byte: b }))
    }
}

impl ChangeOp {
    /// The byte that stands for this operation.
    pub open spec fn byte(self) -> u8 {
        match self {
            ChangeOp::UpsertNode => 0,
            ChangeOp::UpsertEdge => 1,
            ChangeOp::DeleteNode => 2,
            ChangeOp::DeleteEdge => 3,
        }
    }

    pub fn as_byte(self) -> (r: u8)
        ensures
            r == self.byte(),
    {
        match self {
            ChangeOp::UpsertNode => OP_UPSERT_NODE,
            ChangeOp::UpsertEdge => OP_UPSERT_EDGE,
            ChangeOp::DeleteNode => OP_DELETE_NODE,
            ChangeOp::DeleteEdge => OP_DELETE_EDGE,
        }
    }

    pub fn from_byte(b: u8) -> (r: Result<ChangeOp, Error>)
        ensures
            error::agrees(r, op_of_byte(b)),
    {
        match b {
            OP_UPSERT_NODE => Ok(ChangeOp::UpsertNode),
            OP_UPSERT_EDGE => Ok(ChangeOp::UpsertEdge),
            OP_DELETE_NODE => Ok(ChangeOp::DeleteNode),
            OP_DELETE_EDGE => Ok(ChangeOp::DeleteEdge),
            other => Err(Error::Encoding(Fault::InvalidOp { byte: other })),
        }
    }
}

/// The labels that an upsert added and removed.
#[derive(Debug, PartialEq, Eq)]
pub struct LabelDelta {
    pub added: Vec<LabelId>,
    pub removed: Vec<LabelId>,
}

impl Default for LabelDelta {
    fn default() -> (r: LabelDelta)
        ensures
            r@ == (DeltaView { added: Seq::empty(), removed: Seq::empty() }),
    {
        LabelDelta { added: Vec::new(), removed: Vec::new() }
    }
}

impl Clone for LabelDelta {
    fn clone(&self) -> (r: LabelDelta)
        ensures
            r@ == self@,
    {
        let r = LabelDelta { added: self.added.clone(), removed: self.removed.clone() };
        proof {
            assert(r.added@ =~= self.added@);
            assert(r.removed@ =~= self.removed@);
        }
        r
    }
}

/// What a [`LabelDelta`] holds.
pub struct DeltaView {
    pub added: Seq<LabelId>,
    pub removed: Seq<LabelId>,
}

impl View for LabelDelta {
    type V = DeltaView;

    open spec fn view(&self) -> DeltaView {
        DeltaView { added: self.added@, removed: self.removed@ }
    }
}

/// The changelog's record of one write.
#[derive(Debug, PartialEq)]
pub struct ChangeRecord {
    pub seq: u64,
    pub op: ChangeOp,
    pub subject_uid: Uid,
    pub pred_id: Option<PredId>,
    /// The target, where the write is about an edge.
    pub object_uid: Option<Uid>,
    /// The value of a property, where the write is about one.
    pub value: Option<TypedValue>,
    pub label_delta: Option<LabelDelta>,
}

impl Clone for ChangeRecord {
    fn clone(&self) -> (r: ChangeRecord)
        ensures
            r@ == self@,
    {
        ChangeRecord {
            seq: self.seq,
            op: self.op,
            subject_uid: self.subject_uid,
            pred_id: self.pred_id,
            object_uid: self.object_uid,
            value: match &self.value {
                Some(v) => Some(v.clone()),
                None => None,
            },
            label_delta: match &self.label_delta {
                Some(d) => Some(d.clone()),
                None => None,
            },
        }
    }
}

/// What a [`ChangeRecord`] holds.
pub struct ChangeView {
    pub seq: u64,
    pub op: ChangeOp,
    pub subject_uid: Uid,
    pub pred_id: Option<PredId>,
    pub object_uid: Option<Uid>,
    pub value: Option<ValueView>,
    pub label_delta: Option<DeltaView>,
}

impl View for ChangeRecord {
    type V = ChangeView;

    open spec fn view(&self) -> ChangeView {
        ChangeView {
            seq: self.seq,
            op: self.op,
            subject_uid: self.subject_uid,
            pred_id: self.pred_id,
            object_uid: self.object_uid,
            value: match self.value {
                Some(v) => Some(v@),
                None => None,
            },
            label_delta: match self.label_delta {
                Some(d) => Some(d@),
                None => None,
            },
        }
    }
}

/// An optional field: 1 and the field, or 0.
pub open spec fn option_bytes(o: Option<Seq<u8>>) -> Seq<u8> {
    match o {
        Some(b) => seq![1u8] + b,
        None => seq![0u8],
    }
}

pub open spec fn pred_bytes(o: Option<PredId>) -> Seq<u8> {
    option_bytes(
        match o {
            Some(p) => Some(endian::le_bytes(p.0 as nat, 4)),
            None => None,
        },
    )
}

pub open spec fn object_bytes(o: Option<Uid>) -> Seq<u8> {
    option_bytes(
        match o {
            Some(u) => Some(endian::le_bytes(u.0 as nat, 8)),
            None => None,
        },
    )
}

pub open spec fn scalar_bytes(o: Option<ValueView>) -> Seq<u8> {
    option_bytes(
        match o {
            Some(v) => Some(value::value_bytes(v)),
            None => None,
        },
    )
}

pub open spec fn delta_bytes(o: Option<DeltaView>) -> Seq<u8> {
    option_bytes(
        match o {
            Some(d) => Some(labels::labels_bytes(d.added) + labels::labels_bytes(d.removed)),
            None => None,
        },
    )
}

/// The encoding of a changelog record.
pub open spec fn change_bytes(c: ChangeView) -> Seq<u8> {
    endian::le_bytes(c.seq as nat, 8) + seq![c.op.byte()] + endian::le_bytes(
        c.subject_uid.0 as nat,
        8,
    ) + pred_bytes(c.pred_id) + object_bytes(c.object_uid) + scalar_bytes(c.value) + delta_bytes(
        c.label_delta,
    )
}

/// Whether a changelog record can be encoded: each count has two bytes, and the whole has to
/// fit in a buffer.
pub open spec fn change_encodable(c: ChangeView) -> bool {
    &&& c.label_delta matches Some(d) ==> d.added.len() <= 0xffff && d.removed.len() <= 0xffff
    &&& change_bytes(c).len() <= buffer::buffer_limit()
}

pub open spec fn parse_pred(s: Seq<u8>) -> Parse<Option<PredId>> {
    let f = cursor::parse_bool(s, "change-record pred_id", Part::Presence);
    match f.out {
        Err(e) => Parse { out: Err(e), rest: f.rest },
        Ok(false) => Parse { out: Ok(None), rest: f.rest },
        Ok(true) => {
            let p = cursor::parse_le(f.rest, 4, "change-record pred_id", Part::Body);
            match p.out {
                Err(e) => Parse { out: Err(e), rest: p.rest },
                Ok(v) => Parse { out: Ok(Some(PredId(v as u32))), rest: p.rest },
            }
        },
    }
}

pub open spec fn parse_object(s: Seq<u8>) -> Parse<Option<Uid>> {
    let f = cursor::parse_bool(s, "change-record object_uid", Part::Presence);
    match f.out {
        Err(e) => Parse { out: Err(e), rest: f.rest },
        Ok(false) => Parse { out: Ok(None), rest: f.rest },
        Ok(true) => {
            let p = cursor::parse_le(f.rest, 8, "change-record object_uid", Part::Body);
            match p.out {
                Err(e) => Parse { out: Err(e), rest: p.rest },
                Ok(v) => Parse { out: Ok(Some(Uid(v as u64))), rest: p.rest },
            }
        },
    }
}

pub open spec fn parse_scalar(s: Seq<u8>) -> Parse<Option<ValueView>> {
    let f = cursor::parse_bool(s, "change-record value", Part::Presence);
    match f.out {
        Err(e) => Parse { out: Err(e), rest: f.rest },
        Ok(false) => Parse { out: Ok(None), rest: f.rest },
        Ok(true) => {
            let p = value::parse_value(f.rest);
            match p.out {
                Err(e) => Parse { out: Err(e), rest: p.rest },
                Ok(v) => Parse { out: Ok(Some(v)), rest: p.rest },
            }
        },
    }
}

pub open spec fn parse_delta(s: Seq<u8>) -> Parse<Option<DeltaView>> {
    let f = cursor::parse_bool(s, "change-record label_delta", Part::Presence);
    match f.out {
        Err(e) => Parse { out: Err(e), rest: f.rest },
        Ok(false) => Parse { out: Ok(None), rest: f.rest },
        Ok(true) => {
            let a = labels::parse_labels(f.rest, "change-record label_delta.added");
            match a.out {
                Err(e) => Parse { out: Err(e), rest: a.rest },
                Ok(added) => {
                    let r = labels::parse_labels(a.rest, "change-record label_delta.removed");
                    match r.out {
                        Err(e) => Parse { out: Err(e), rest: r.rest },
                        Ok(removed) => Parse {
                            out: Ok(Some(DeltaView { added, removed })),
                            rest: r.rest,
                        },
                    }
                },
            }
        },
    }
}

pub open spec fn parse_op(s: Seq<u8>) -> Parse<ChangeOp> {
    let p = cursor::parse_u8(s, "change-record op", Part::Body);
    match p.out {
        Err(e) => Parse { out: Err(e), rest: p.rest },
        Ok(b) => Parse { out: op_of_byte(b), rest: p.rest },
    }
}

/// The four optional fields, after the fixed ones.
pub open spec fn parse_tail(seq: u64, op: ChangeOp, subject_uid: Uid, s: Seq<u8>) -> Parse<
    ChangeView,
> {
    let p = parse_pred(s);
    match p.out {
        Err(e) => Parse { out: Err(e), rest: p.rest },
        Ok(pred_id) => {
            let o = parse_object(p.rest);
            match o.out {
                Err(e) => Parse { out: Err(e), rest: o.rest },
                Ok(object_uid) => {
                    let v = parse_scalar(o.rest);
                    match v.out {
                        Err(e) => Parse { out: Err(e), rest: v.rest },
                        Ok(value) => {
                            let d = parse_delta(v.rest);
                            match d.out {
                                Err(e) => Parse { out: Err(e), rest: d.rest },
                                Ok(label_delta) => Parse {
                                    out: Ok(
                                        ChangeView {
                                            seq,
                                            op,
                                            subject_uid,
                                            pred_id,
                                            object_uid,
                                            value,
                                            label_delta,
                                        },
                                    ),
                                    rest: d.rest,
                                },
                            }
                        },
                    }
                },
            }
        },
    }
}

/// The fields of a changelog record, in order.
pub open spec fn parse_change(s: Seq<u8>) -> Parse<ChangeView> {
    let q = cursor::parse_le(s, 8, "change-record seq", Part::Body);
    match q.out {
        Err(e) => Parse { out: Err(e), rest: q.rest },
        Ok(seq) => {
            let o = parse_op(q.rest);
            match o.out {
                Err(e) => Parse { out: Err(e), rest: o.rest },
                Ok(op) => {
                    let u = cursor::parse_le(o.rest, 8, "change-record subject_uid", Part::Body);
                    match u.out {
                        Err(e) => Parse { out: Err(e), rest: u.rest },
                        Ok(uid) => parse_tail(seq as u64, op, Uid(uid as u64), u.rest),
                    }
                },
            }
        },
    }
}

/// The changelog record that `s` encodes, or why it encodes none.
pub open spec fn decoded_change(s: Seq<u8>) -> Result<ChangeView, ErrorView> {
    props::complete(parse_change(s), "change record")
}

impl ChangeRecord {
    /// The encoding of this record.
    pub fn encode(&self) -> (r: Bytes)
        requires
            change_encodable(self@),
        ensures
            buffer::content(r) == change_bytes(self@),
    {
        let mut buf = BytesMut::new();
        proof {
            endian::lemma_le_bytes_len(self@.seq as nat, 8);
            endian::lemma_le_bytes_len(self@.subject_uid.0 as nat, 8);
            assert(change_bytes(self@).len() == 17 + pred_bytes(self@.pred_id).len() + object_bytes(
                self@.object_uid,
            ).len() + scalar_bytes(self@.value).len() + delta_bytes(self@.label_delta).len());
        }
        buffer::put_u64_le(&mut buf, self.seq);
        buffer::put_u8(&mut buf, self.op.as_byte());
        buffer::put_u64_le(&mut buf, self.subject_uid.get());
        self.write_pred(&mut buf);
        self.write_object(&mut buf);
        self.write_value(&mut buf);
        self.write_delta(&mut buf);
        proof {
            assert(buffer::written(buf) =~= change_bytes(self@));
        }
        buf.freeze()
    }

    fn write_pred(&self, buf: &mut BytesMut)
        requires
            buffer::written(*old(buf)).len() + pred_bytes(self@.pred_id).len()
                <= buffer::buffer_limit(),
        ensures
            buffer::written(*final(buf)) == buffer::written(*old(buf)) + pred_bytes(self@.pred_id),
    {
        let ghost start = buffer::written(*buf);
        match self.pred_id {
            Some(pred) => {
                proof {
                    endian::lemma_le_bytes_len(pred.0 as nat, 4);
                }
                buffer::put_u8(buf, 1);
                buffer::put_u32_le(buf, pred.get());
            },
            None => {
                buffer::put_u8(buf, 0);
            },
        }
        proof {
            assert(buffer::written(*buf) =~= start + pred_bytes(self@.pred_id));
        }
    }

    fn write_object(&self, buf: &mut BytesMut)
        requires
            buffer::written(*old(buf)).len() + object_bytes(self@.object_uid).len()
                <= buffer::buffer_limit(),
        ensures
            buffer::written(*final(buf)) == buffer::written(*old(buf)) + object_bytes(
                self@.object_uid,
            ),
    {
        let ghost start = buffer::written(*buf);
        match self.object_uid {
            Some(uid) => {
                proof {
                    endian::lemma_le_bytes_len(uid.0 as nat, 8);
                }
                buffer::put_u8(buf, 1);
                buffer::put_u64_le(buf, uid.get());
            },
            None => {
                buffer::put_u8(buf, 0);
            },
        }
        proof {
            assert(buffer::written(*buf) =~= start + object_bytes(self@.object_uid));
        }
    }

    fn write_value(&self, buf: &mut BytesMut)
        requires
            buffer::written(*old(buf)).len() + scalar_bytes(self@.value).len()
                <= buffer::buffer_limit(),
        ensures
            buffer::written(*final(buf)) == buffer::written(*old(buf)) + scalar_bytes(self@.value),
    {
        let ghost start = buffer::written(*buf);
        match &self.value {
            Some(v) => {
                buffer::put_u8(buf, 1);
                v.write_to(buf);
            },
            None => {
                buffer::put_u8(buf, 0);
            },
        }
        proof {
            assert(buffer::written(*buf) =~= start + scalar_bytes(self@.value));
        }
    }

    fn write_delta(&self, buf: &mut BytesMut)
        requires
            self@.label_delta matches Some(d) ==> d.added.len() <= 0xffff && d.removed.len()
                <= 0xffff,
            buffer::written(*old(buf)).len() + delta_bytes(self@.label_delta).len()
                <= buffer::buffer_limit(),
        ensures
            buffer::written(*final(buf)) == buffer::written(*old(buf)) + delta_bytes(
                self@.label_delta,
            ),
    {
        let ghost start = buffer::written(*buf);
        match &self.label_delta {
            Some(delta) => {
                buffer::put_u8(buf, 1);
                labels::write_label_ids(&delta.added, buf);
                labels::write_label_ids(&delta.removed, buf);
            },
            None => {
                buffer::put_u8(buf, 0);
            },
        }
        proof {
            assert(buffer::written(*buf) =~= start + delta_bytes(self@.label_delta));
        }
    }

    /// The record that `bytes` encode.
    pub fn decode(bytes: &[u8]) -> (r: Result<ChangeRecord, Error>)
        ensures
            match decoded_change(bytes@) {
                Ok(c) => r is Ok && r->Ok_0@ == c,
                Err(e) => error::fails(r, e),
            },
    {
        let mut cur = bytes;
        let seq: u64 = match cursor::take_u64_le(&mut cur, "change-record seq", Part::Body) {
            Err(e) => {
                return Err(e);
            },
            Ok(seq) => seq,
        };
        let op = match cursor::take_u8(&mut cur, "change-record op", Part::Body) {
            Err(e) => {
                return Err(e);
            },
            Ok(b) => match ChangeOp::from_byte(b) {
                Err(e) => {
                    return Err(e);
                },
                Ok(op) => op,
            },
        };
        let subject_uid = match cursor::take_u64_le(
            &mut cur,
            "change-record subject_uid",
            Part::Body,
        ) {
            Err(e) => {
                return Err(e);
            },
            Ok(uid) => Uid(uid),
        };
        let pred_id = match read_pred(&mut cur) {
            Err(e) => {
                return Err(e);
            },
            Ok(pred_id) => pred_id,
        };
        let object_uid = match read_object(&mut cur) {
            Err(e) => {
                return Err(e);
            },
            Ok(object_uid) => object_uid,
        };
        let value = match read_value(&mut cur) {
            Err(e) => {
                return Err(e);
            },
            Ok(value) => value,
        };
        let label_delta = match read_delta(&mut cur) {
            Err(e) => {
                return Err(e);
            },
            Ok(label_delta) => label_delta,
        };
        if cur.len() != 0 {
            return Err(
                Error::Encoding(Fault::Trailing { what: "change record", extra: cur.len() }),
            );
        }
        Ok(ChangeRecord { seq, op, subject_uid, pred_id, object_uid, value, label_delta })
    }
}

fn read_pred(cur: &mut &[u8]) -> (r: Result<Option<PredId>, Error>)
    ensures
        error::agrees(r, parse_pred(old(cur)@).out),
        final(cur)@ == parse_pred(old(cur)@).rest,
{
    match cursor::take_bool(cur, "change-record pred_id", Part::Presence) {
        Err(e) => Err(e),
        Ok(false) => Ok(None),
        Ok(true) => match cursor::take_u32_le(cur, "change-record pred_id", Part::Body) {
            Err(e) => Err(e),
            Ok(id) => Ok(Some(PredId(id))),
        },
    }
}

fn read_object(cur: &mut &[u8]) -> (r: Result<Option<Uid>, Error>)
    ensures
        error::agrees(r, parse_object(old(cur)@).out),
        final(cur)@ == parse_object(old(cur)@).rest,
{
    match cursor::take_bool(cur, "change-record object_uid", Part::Presence) {
        Err(e) => Err(e),
        Ok(false) => Ok(None),
        Ok(true) => match cursor::take_u64_le(cur, "change-record object_uid", Part::Body) {
            Err(e) => Err(e),
            Ok(uid) => Ok(Some(Uid(uid))),
        },
    }
}

fn read_value(cur: &mut &[u8]) -> (r: Result<Option<TypedValue>, Error>)
    ensures
        match parse_scalar(old(cur)@).out {
            Err(e) => error::fails(r, e),
            Ok(None) => r == Ok::<Option<TypedValue>, Error>(None),
            Ok(Some(v)) => r is Ok && r->Ok_0 is Some && r->Ok_0->Some_0@ == v,
        },
        final(cur)@ == parse_scalar(old(cur)@).rest,
{
    match cursor::take_bool(cur, "change-record value", Part::Presence) {
        Err(e) => Err(e),
        Ok(false) => Ok(None),
        Ok(true) => match TypedValue::read_from(cur) {
            Err(e) => Err(e),
            Ok(v) => Ok(Some(v)),
        },
    }
}

fn read_delta(cur: &mut &[u8]) -> (r: Result<Option<LabelDelta>, Error>)
    ensures
        match parse_delta(old(cur)@).out {
            Err(e) => error::fails(r, e),
            Ok(None) => r == Ok::<Option<LabelDelta>, Error>(None),
            Ok(Some(d)) => r is Ok && r->Ok_0 is Some && r->Ok_0->Some_0@ == d,
        },
        final(cur)@ == parse_delta(old(cur)@).rest,
{
    match cursor::take_bool(cur, "change-record label_delta", Part::Presence) {
        Err(e) => Err(e),
        Ok(false) => Ok(None),
        Ok(true) => match labels::read_label_ids(cur, "change-record label_delta.added") {
            Err(e) => Err(e),
            Ok(added) => match labels::read_label_ids(cur, "change-record label_delta.removed") {
                Err(e) => Err(e),
                Ok(removed) => Ok(Some(LabelDelta { added, removed })),
            },
        },
    }
}

} // verus!
