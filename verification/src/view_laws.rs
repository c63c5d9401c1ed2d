//! What the values of the library stand for, field by field: nothing is lost between a value and
//! what the contracts say of it.

use bytes::Bytes;
use vstd::prelude::*;

use crate::allocators;
use crate::allocators::GraphAllocators;
use crate::buffer;
use crate::change::{ChangeRecord, LabelDelta};
use crate::error;
use crate::error::{Error, ErrorView, Fault, FaultView};
use crate::ids::{PredId, PropId, SchemaKind, Uid};
use crate::merge;
use crate::node::NodeRecord;
use crate::props;
use crate::props::EdgeProps;
use crate::schema;
use crate::schema::SchemaEntry;
use crate::store;
use crate::store::{Key, KeyView, OpView, Payload, PayloadView, RecordOp};
use crate::value::{TypedValue, ValueView};
use crate::write::{Batch, EdgeDraft, NodeDraft, Resolution, Step};

verus! {

/// A value stands for its variant and its payload, an empty one too.
pub proof fn law_values_stand_for_their_payload(
    b: bool,
    i: i64,
    bits: u64,
    s: String,
    bytes: Bytes,
)
    ensures
        TypedValue::Null@ == ValueView::Null,
        TypedValue::Bool(b)@ == ValueView::Bool(b),
        TypedValue::Int(i)@ == ValueView::Int(i),
        TypedValue::Float(bits)@ == ValueView::Float(bits),
        TypedValue::String(s)@ == ValueView::String(s@),
        TypedValue::Bytes(bytes)@ == ValueView::Bytes(buffer::content(bytes)),
        TypedValue::DateTime(i)@ == ValueView::DateTime(i),
{
}

/// Records stand for all of their fields.
pub proof fn law_records_stand_for_their_fields(
    n: NodeRecord,
    d: LabelDelta,
    c: ChangeRecord,
    e: SchemaEntry,
    m: EdgeProps,
)
    ensures
        n@.labels == n.labels@,
        n@.props == props::props_view(n.props),
        n@.xid == n.xid@,
        d@.added == d.added@,
        d@.removed == d.removed@,
        c@.seq == c.seq,
        c@.op == c.op,
        c@.subject_uid == c.subject_uid,
        c@.pred_id == c.pred_id,
        c@.object_uid == c.object_uid,
        c.value is None ==> c@.value is None,
        c.value is Some ==> c@.value == Some(c.value->Some_0@),
        c.label_delta is None ==> c@.label_delta is None,
        c.label_delta is Some ==> c@.label_delta == Some(c.label_delta->Some_0@),
        e@.name == e.name@,
        e@.value_type == e.value_type,
        e@.directives == e.directives,
        forall|k: PropId| #[trigger]
            props::props_view(m).contains_key(k) == m@.contains_key(k),
        forall|k: PropId|
            m@.contains_key(k) ==> #[trigger] props::props_view(m)[k] == m@[k]@,
        merge::prior_view(None) is None,
        merge::prior_view(Some(n)) == Some(n@),
{
}

/// Keys and payloads stand for what they name and hold.
pub proof fn law_keys_stand_for_what_they_name(
    u: Uid,
    v: Uid,
    p: PredId,
    n: u64,
    kind: SchemaKind,
    id: u32,
    b: Bytes,
    e: SchemaEntry,
)
    ensures
        Key::Node(u)@ == KeyView::Node(u),
        Key::Xid(b)@ == KeyView::Xid(buffer::content(b)),
        Key::Log(n)@ == KeyView::Log(n),
        Key::Meta(b)@ == KeyView::Meta(buffer::content(b)),
        Key::SchemaName(kind, b)@ == KeyView::SchemaName(kind, buffer::content(b)),
        Key::SchemaId(kind, id)@ == KeyView::SchemaId(kind, id),
        Key::EdgeProp(u, p, v)@ == KeyView::EdgeProp(u, p, v),
        Key::Block(b)@ == KeyView::Block(buffer::content(b)),
        Key::Raw(b)@ == KeyView::Raw(buffer::content(b)),
        Payload::Raw(b)@ == PayloadView::Raw(buffer::content(b)),
        Payload::Entry(e)@ == PayloadView::Entry(e@),
{
}

/// Operations stand for what they do, and lists of them for each, in order.
pub proof fn law_operations_stand_for_what_they_do(op: RecordOp, ops: Seq<RecordOp>)
    ensures
        match op {
            RecordOp::Put { key, value } => op@ == (OpView::Put { key: key@, value: value@ }),
            RecordOp::Merge { key, operand } => op@ == (OpView::Merge {
                key: key@,
                operand: buffer::content(operand),
            }),
            RecordOp::Delete { key } => op@ == (OpView::Delete { key: key@ }),
            RecordOp::DeleteNode { uid } => op@ == (OpView::DeleteNode { uid }),
            RecordOp::DeleteEdge { pred, anchor, other } => op@ == (OpView::DeleteEdge {
                pred,
                anchor,
                other,
            }),
        },
        store::ops_view(ops).len() == ops.len(),
        forall|i: int| 0 <= i < ops.len() ==> #[trigger] store::ops_view(ops)[i] == ops[i]@,
{
}

/// What the steps of a write hand out stands for all of its fields.
pub proof fn law_drafts_stand_for_their_fields(
    b: Batch,
    r: Resolution,
    n: NodeDraft,
    e: EdgeDraft,
    seq: u64,
    places: Seq<usize>,
)
    ensures
        b@.ops == store::ops_view(b.ops@),
        b@.await_durable == b.options.await_durable,
        b@.seqnum == b.options.seqnum,
        Step::Done(seq)@ == crate::model::StepView::Done(seq),
        Step::Apply(b)@ == crate::model::StepView::Apply(b@),
        r@.uid == r.uid,
        r@.ops == store::ops_view(r.ops@),
        r@.places == crate::write::places_view(r.places@),
        n@.uid == n.uid,
        n@.ops == store::ops_view(n.ops@),
        n@.places == crate::write::places_view(n.places@),
        n@.record == n.record@,
        n@.delta == n.delta@,
        e@.src == e.src,
        e@.pred == e.pred,
        e@.dst == e.dst,
        e@.ops == store::ops_view(e.ops@),
        e@.places == crate::write::places_view(e.places@),
        crate::write::places_view(places).len() == places.len(),
        forall|i: int|
            0 <= i < places.len() ==> #[trigger] crate::write::places_view(places)[i] == places[i],
{
}

/// What was read and what was given is taken as it is, an empty value too.
pub proof fn law_inputs_are_taken_as_they_are(
    b: Bytes,
    stored: Option<Bytes>,
    e: Error,
    names: Seq<String>,
    props: Seq<(String, TypedValue)>,
    defs: Seq<(SchemaKind, u32, SchemaEntry)>,
    block: (Bytes, Bytes),
)
    ensures
        crate::write::stored_view(None) is None,
        crate::write::stored_view(Some(b)) == Some(buffer::content(b)),
        crate::write::read_view(Ok(stored)) == Ok::<Option<Seq<u8>>, ErrorView>(
            crate::write::stored_view(stored),
        ),
        crate::write::read_view(Err(e)) == Err::<Option<Seq<u8>>, ErrorView>(e@),
        crate::write::texts(names).len() == names.len(),
        forall|i: int| 0 <= i < names.len() ==> #[trigger] crate::write::texts(names)[i] == names[i]@,
        crate::write::named_view(props).len() == props.len(),
        forall|i: int|
            0 <= i < props.len() ==> (#[trigger] crate::write::named_view(props)[i]).0 == props[i].0@
                && crate::write::named_view(props)[i].1 == props[i].1@,
        schema::entries_view(defs).len() == defs.len(),
        forall|i: int|
            0 <= i < defs.len() ==> (#[trigger] schema::entries_view(defs)[i]).0 == defs[i].0
                && schema::entries_view(defs)[i].1 == defs[i].1 && schema::entries_view(defs)[i].2
                == defs[i].2@,
        allocators::reservation_view(None) is None,
        allocators::reservation_view(Some(block)) == Some(
            (buffer::content(block.0), buffer::content(block.1)),
        ),
{
}

/// Errors stand for their variant and all that they say.
pub proof fn law_errors_stand_for_what_they_say(f: Fault, e: Error)
    ensures
        match f {
            Fault::Truncated { what, part, need, got } => f@ == (FaultView::Truncated {
                what,
                part,
                need,
                got,
            }),
            Fault::TruncatedCount => f@ == FaultView::TruncatedCount,
            Fault::InvalidBool { what, part, byte } => f@ == (FaultView::InvalidBool {
                what,
                part,
                byte,
            }),
            Fault::InvalidTag { byte } => f@ == (FaultView::InvalidTag { byte }),
            Fault::InvalidOp { byte } => f@ == (FaultView::InvalidOp { byte }),
            Fault::InvalidUtf8 { what, cause } => f@ == (FaultView::InvalidUtf8 {
                what,
                cause: cause@,
            }),
            Fault::XidNotUtf8 { cause } => f@ == (FaultView::XidNotUtf8 { cause: cause@ }),
            Fault::Trailing { what, extra } => f@ == (FaultView::Trailing { what, extra }),
            Fault::WrongWidth { what, got } => f@ == (FaultView::WrongWidth { what, got }),
            Fault::CorruptBitmap { what, cause } => f@ == (FaultView::CorruptBitmap {
                what,
                cause: cause@,
            }),
        },
        match e {
            Error::Encoding(fault) => e@ == ErrorView::Encoding(fault@),
            Error::OversizeNode { size, cap } => e@ == (ErrorView::OversizeNode { size, cap }),
            Error::Storage => e@ == ErrorView::Storage,
        },
{
}

/// A result agrees with another only if both are the same value, or both are errors that say the
/// same.
pub proof fn law_agreement_is_exact(r: Result<u64, Error>, goal: Result<u64, ErrorView>)
    ensures
        error::agrees(r, goal) == match (r, goal) {
            (Ok(a), Ok(b)) => a == b,
            (Err(a), Err(b)) => a@ == b,
            _ => false,
        },
        error::result_view(r) == match r {
            Ok(a) => Ok::<u64, ErrorView>(a),
            Err(a) => Err::<u64, ErrorView>(a@),
        },
{
}

/// The id spaces of a graph stand for its five allocators, each for its own: names of a kind draw
/// from the allocator of that kind.
pub proof fn law_spaces_stand_for_their_allocators(a: GraphAllocators, kind: SchemaKind)
    ensures
        a@.uid == allocators::space_of(a.uid),
        a@.label == allocators::space_of(a.label),
        a@.pred == allocators::space_of(a.pred),
        a@.prop == allocators::space_of(a.prop),
        a@.seq == allocators::space_of(a.seq),
        a@.space(SchemaKind::Label) == a@.label,
        a@.space(SchemaKind::Predicate) == a@.pred,
        a@.space(SchemaKind::PropertyKey) == a@.prop,
        a@.advance(kind).space(kind) == a@.space(kind).advance(),
        a@.advance(kind).uid == a@.uid,
        a@.advance(kind).seq == a@.seq,
        forall|other: SchemaKind|
            other != kind ==> #[trigger] a@.advance(kind).space(other) == a@.space(other),
        allocators::space_of(a.uid).key == allocators::allocator_key(a.uid),
        allocators::space_of(a.uid).next == allocators::allocator_next(a.uid),
        allocators::space_of(a.uid).end == allocators::allocator_end(a.uid),
{
}

} // verus!
