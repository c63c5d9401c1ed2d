//! The logical keys of the store, and the operations that a batch is made of.

use bytes::{Bytes, BytesMut};
use vstd::prelude::*;

use crate::buffer;
use crate::endian;
use crate::ids::{Direction, PredId, SchemaKind, Uid};
use crate::schema::{EntryView, SchemaEntry};

verus! {

/// Where a value is stored. How a key is laid out in bytes is the storage layer's affair; keys
/// that differ here are different keys there.
pub enum Key {
    /// The node record of a uid.
    Node(Uid),
    /// The uid of an external id.
    Xid(Bytes),
    /// The changelog record of a sequence number.
    Log(u64),
    /// A named counter, cursor or bitmap.
    Meta(Bytes),
    /// The id of a name.
    SchemaName(SchemaKind, Bytes),
    /// The definition of a named id.
    SchemaId(SchemaKind, u32),
    /// The properties of an edge.
    EdgeProp(Uid, PredId, Uid),
    /// The block that an id space has reserved, under the key of the space.
    Block(Bytes),
    /// A key of the postings, which the storage layer lays out itself.
    Raw(Bytes),
}

/// What a [`Key`] stands for.
pub enum KeyView {
    Node(Uid),
    Xid(Seq<u8>),
    Log(u64),
    Meta(Seq<u8>),
    SchemaName(SchemaKind, Seq<u8>),
    SchemaId(SchemaKind, u32),
    EdgeProp(Uid, PredId, Uid),
    Block(Seq<u8>),
    Raw(Seq<u8>),
}

impl View for Key {
    type V = KeyView;

    open spec fn view(&self) -> KeyView {
        match self {
            Key::Node(uid) => KeyView::Node(*uid),
            Key::Xid(b) => KeyView::Xid(buffer::content(*b)),
            Key::Log(seq) => KeyView::Log(*seq),
            Key::Meta(b) => KeyView::Meta(buffer::content(*b)),
            Key::SchemaName(kind, b) => KeyView::SchemaName(*kind, buffer::content(*b)),
            Key::SchemaId(kind, id) => KeyView::SchemaId(*kind, *id),
            Key::EdgeProp(src, pred, dst) => KeyView::EdgeProp(*src, *pred, *dst),
            Key::Block(b) => KeyView::Block(buffer::content(*b)),
            Key::Raw(b) => KeyView::Raw(buffer::content(*b)),
        }
    }
}

impl Clone for Key {
    fn clone(&self) -> (r: Key)
        ensures
            r@ == self@,
    {
        match self {
            Key::Node(uid) => Key::Node(*uid),
            Key::Xid(b) => Key::Xid(b.clone()),
            Key::Log(seq) => Key::Log(*seq),
            Key::Meta(b) => Key::Meta(b.clone()),
            Key::SchemaName(kind, b) => Key::SchemaName(*kind, b.clone()),
            Key::SchemaId(kind, id) => Key::SchemaId(*kind, *id),
            Key::EdgeProp(src, pred, dst) => Key::EdgeProp(*src, *pred, *dst),
            Key::Block(b) => Key::Block(b.clone()),
            Key::Raw(b) => Key::Raw(b.clone()),
        }
    }
}

/// A value to store.
pub enum Payload {
    Raw(Bytes),
    /// The definition of an interned name.
    Entry(SchemaEntry),
}

/// What a [`Payload`] holds.
pub enum PayloadView {
    Raw(Seq<u8>),
    Entry(EntryView),
}

impl View for Payload {
    type V = PayloadView;

    open spec fn view(&self) -> PayloadView {
        match self {
            Payload::Raw(b) => PayloadView::Raw(buffer::content(*b)),
            Payload::Entry(e) => PayloadView::Entry(e@),
        }
    }
}

impl Clone for Payload {
    fn clone(&self) -> (r: Payload)
        ensures
            r@ == self@,
    {
        match self {
            Payload::Raw(b) => Payload::Raw(b.clone()),
            Payload::Entry(e) => Payload::Entry(e.clone()),
        }
    }
}

/// One operation of a batch.
pub enum RecordOp {
    Put { key: Key, value: Payload },
    /// Adds to a counter: the operand is a signed 64-bit number, least significant byte first.
    Merge { key: Key, operand: Bytes },
    Delete { key: Key },
    /// Marks a node as deleted.
    DeleteNode { uid: Uid },
    /// Marks the edges of a predicate between `anchor` and `other` as deleted, as seen from
    /// `anchor`.
    DeleteEdge { pred: PredId, anchor: Uid, other: Uid },
}

/// What a [`RecordOp`] does.
pub enum OpView {
    Put { key: KeyView, value: PayloadView },
    Merge { key: KeyView, operand: Seq<u8> },
    Delete { key: KeyView },
    DeleteNode { uid: Uid },
    DeleteEdge { pred: PredId, anchor: Uid, other: Uid },
}

impl View for RecordOp {
    type V = OpView;

    open spec fn view(&self) -> OpView {
        match self {
            RecordOp::Put { key, value } => OpView::Put { key: key@, value: value@ },
            RecordOp::Merge { key, operand } => OpView::Merge {
                key: key@,
                operand: buffer::content(*operand),
            },
            RecordOp::Delete { key } => OpView::Delete { key: key@ },
            RecordOp::DeleteNode { uid } => OpView::DeleteNode { uid: *uid },
            RecordOp::DeleteEdge { pred, anchor, other } => OpView::DeleteEdge {
                pred: *pred,
                anchor: *anchor,
                other: *other,
            },
        }
    }
}

impl Clone for RecordOp {
    fn clone(&self) -> (r: RecordOp)
        ensures
            r@ == self@,
    {
        match self {
            RecordOp::Put { key, value } => RecordOp::Put { key: key.clone(), value: value.clone() },
            RecordOp::Merge { key, operand } => RecordOp::Merge {
                key: key.clone(),
                operand: operand.clone(),
            },
            RecordOp::Delete { key } => RecordOp::Delete { key: key.clone() },
            RecordOp::DeleteNode { uid } => RecordOp::DeleteNode { uid: *uid },
            RecordOp::DeleteEdge { pred, anchor, other } => RecordOp::DeleteEdge {
                pred: *pred,
                anchor: *anchor,
                other: *other,
            },
        }
    }
}

/// What a list of operations does.
pub open spec fn ops_view(ops: Seq<RecordOp>) -> Seq<OpView> {
    Seq::new(ops.len(), |i: int| ops[i]@)
}

pub proof fn lemma_ops_push(ops: Seq<RecordOp>, op: RecordOp)
    ensures
        ops_view(ops.push(op)) == ops_view(ops) + seq![op@],
{
    assert(ops_view(ops.push(op)) =~= ops_view(ops) + seq![op@]);
}

pub proof fn lemma_ops_add(a: Seq<RecordOp>, b: Seq<RecordOp>)
    ensures
        ops_view(a + b) == ops_view(a) + ops_view(b),
{
    assert(ops_view(a + b) =~= ops_view(a) + ops_view(b));
}

/// The store operations that reserve a block, where one is to be reserved.
pub open spec fn reserve_ops(r: Option<(Seq<u8>, Seq<u8>)>) -> Seq<OpView> {
    match r {
        Some(kv) => seq![
            OpView::Put { key: KeyView::Block(kv.0), value: PayloadView::Raw(kv.1) },
        ],
        None => Seq::empty(),
    }
}

/// Queues the reservation of a block, where one is to be reserved.
pub(crate) fn push_reservation(ops: &mut Vec<RecordOp>, r: Option<(Bytes, Bytes)>)
    ensures
        ops_view(final(ops)@) == ops_view(old(ops)@) + reserve_ops(
            crate::allocators::reservation_view(r),
        ),
        final(ops)@.len() == old(ops)@.len() + reserve_ops(
            crate::allocators::reservation_view(r),
        ).len(),
{
    match r {
        Some((key, value)) => {
            push_put(ops, Key::Block(key), value);
        },
        None => {
            proof {
                assert(ops_view(ops@) + Seq::<OpView>::empty() =~= ops_view(ops@));
            }
        },
    }
}

/// Queues an operation.
pub(crate) fn push_op(ops: &mut Vec<RecordOp>, op: RecordOp)
    ensures
        ops_view(final(ops)@) == ops_view(old(ops)@) + seq![op@],
        final(ops)@.len() == old(ops)@.len() + 1,
{
    proof {
        lemma_ops_push(ops@, op);
    }
    ops.push(op);
}

/// Queues a put of raw bytes.
pub(crate) fn push_put(ops: &mut Vec<RecordOp>, key: Key, value: Bytes)
    ensures
        ops_view(final(ops)@) == ops_view(old(ops)@) + seq![
            OpView::Put { key: key@, value: PayloadView::Raw(buffer::content(value)) },
        ],
        final(ops)@.len() == old(ops)@.len() + 1,
{
    push_op(ops, RecordOp::Put { key, value: Payload::Raw(value) });
}

/// Queues all of `more`.
pub(crate) fn push_all(ops: &mut Vec<RecordOp>, more: Vec<RecordOp>)
    ensures
        ops_view(final(ops)@) == ops_view(old(ops)@) + ops_view(more@),
        final(ops)@.len() == old(ops)@.len() + more@.len(),
{
    let mut more = more;
    proof {
        lemma_ops_add(ops@, more@);
    }
    ops.append(&mut more);
}

/// The same operations once more.
pub(crate) fn copy_ops(ops: &Vec<RecordOp>) -> (r: Vec<RecordOp>)
    ensures
        ops_view(r@) == ops_view(ops@),
{
    let mut out: Vec<RecordOp> = Vec::new();
    let mut i: usize = 0;
    while i < ops.len()
        invariant
            i <= ops.len(),
            ops_view(out@) == ops_view(ops@).take(i as int),
        decreases ops.len() - i,
    {
        proof {
            assert(ops_view(ops@).take(i + 1) =~= ops_view(ops@).take(i as int) + seq![ops@[i as int]@]);
        }
        push_op(&mut out, ops[i].clone());
        i += 1;
    }
    proof {
        assert(ops_view(ops@).take(i as int) =~= ops_view(ops@));
    }
    out
}

/// The name of the cursor that holds the highest committed sequence number.
pub open spec fn latest_seq_name() -> Seq<u8> {
    vstd::utf8::encode_utf8("latest_seq"@)
}

/// The key of the cursor that holds the highest committed sequence number.
pub fn latest_seq_key() -> (r: Key)
    ensures
        r@ == KeyView::Meta(latest_seq_name()),
{
    Key::Meta(Bytes::copy_from_slice("latest_seq".as_bytes()))
}

/// The name of the degree counter of a predicate, direction and anchor.
pub open spec fn degree_name(pred: PredId, dir: Direction, anchor: Uid) -> Seq<u8> {
    vstd::utf8::encode_utf8("count/"@) + endian::be_bytes(pred.0 as nat, 4) + seq![dir.byte()]
        + endian::be_bytes(anchor.0 as nat, 8)
}

/// The key of the degree counter of a predicate, direction and anchor.
pub fn degree_key(pred: PredId, dir: Direction, anchor: Uid) -> (r: Key)
    ensures
        r@ == KeyView::Meta(degree_name(pred, dir, anchor)),
{
    let mut sub = BytesMut::new();
    proof {
        crate::store_laws::lemma_names();
        endian::lemma_be_bytes_len(pred.0 as nat, 4);
        endian::lemma_be_bytes_len(anchor.0 as nat, 8);
    }
    sub.extend_from_slice("count/".as_bytes());
    buffer::put_u32(&mut sub, pred.get());
    buffer::put_u8(&mut sub, dir.as_byte());
    buffer::put_u64(&mut sub, anchor.get());
    proof {
        assert(buffer::written(sub) =~= degree_name(pred, dir, anchor));
    }
    Key::Meta(sub.freeze())
}

/// The operation that adds `delta` to a degree counter.
pub open spec fn bump_op(pred: PredId, dir: Direction, anchor: Uid, delta: i64) -> OpView {
    OpView::Merge {
        key: KeyView::Meta(degree_name(pred, dir, anchor)),
        operand: endian::le_bytes(endian::i64_bits(delta), 8),
    }
}

/// The operation that adds `delta` to a degree counter.
pub fn bump_degree(pred: PredId, dir: Direction, anchor: Uid, delta: i64) -> (r: RecordOp)
    ensures
        r@ == bump_op(pred, dir, anchor, delta),
{
    let mut operand = BytesMut::new();
    buffer::put_i64_le(&mut operand, delta);
    proof {
        assert(buffer::written(operand) =~= endian::le_bytes(endian::i64_bits(delta), 8));
    }
    RecordOp::Merge { key: degree_key(pred, dir, anchor), operand: operand.freeze() }
}

} // verus!
