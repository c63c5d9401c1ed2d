//! The write path as functions on views: what each write makes of the writer's state, and which
//! operations it asks of the store.

use vstd::prelude::*;

use crate::allocators::{AllocatorsView, SpaceView};
use crate::buffer;
use crate::change;
use crate::change::{ChangeOp, ChangeView, DeltaView};
use crate::endian;
use crate::error::{ErrorView, FaultView};
use crate::fixed;
use crate::ids::{Direction, LabelId, PredId, PropId, SchemaKind, Uid};
use crate::merge;
use crate::node;
use crate::node::NodeView;
use crate::props;
use crate::schema;
use crate::store;
use crate::store::{KeyView, OpView, PayloadView};
use crate::text;
use crate::value;
use crate::value::ValueView;

verus! {

/// The state of a writer.
pub struct WriterView {
    pub allocs: AllocatorsView,
    /// The ids of the names interned so far.
    pub schema: Map<(SchemaKind, Seq<char>), u32>,
    /// The highest sequence number known to be committed.
    pub latest_seq: u64,
    /// The operations that record the names interned and the blocks reserved since a batch was
    /// last known to be applied. They go into every batch until one is.
    pub owed: Seq<OpView>,
    /// The batch that was handed out last, until it is known how applying it went.
    pub in_flight: Option<InFlightView>,
}

/// A batch that was handed out: its sequence number, and how many of the operations owed it holds.
pub struct InFlightView {
    pub seq: u64,
    pub sent: nat,
}

/// A name's id, with the state after it was interned.
pub struct Interned {
    pub writer: WriterView,
    pub id: u32,
}

/// The ids of several names, with the state after they were interned.
pub struct InternedAll {
    pub writer: WriterView,
    pub ids: Seq<u32>,
}

/// The uid of an external id, with the operation that maps it if it is new, and the places among
/// the operations of the records that became owed.
pub struct ResolutionView {
    pub uid: Uid,
    pub ops: Seq<OpView>,
    pub places: Seq<nat>,
}

/// A node upsert, ready to be encoded.
pub struct NodeDraftView {
    pub uid: Uid,
    pub ops: Seq<OpView>,
    pub places: Seq<nat>,
    pub record: NodeView,
    pub delta: DeltaView,
}

impl NodeDraftView {
    /// An upsert adds no more labels than the node then has, and removes none.
    pub open spec fn wf(self) -> bool {
        &&& self.delta.added.len() <= self.record.labels.len()
        &&& self.delta.removed.len() == 0
    }
}

/// An edge upsert whose endpoints and predicate have their ids.
pub struct EdgeDraftView {
    pub src: Uid,
    pub pred: PredId,
    pub dst: Uid,
    pub ops: Seq<OpView>,
    pub places: Seq<nat>,
}

/// The operations of one write, and how they are to be applied.
pub struct BatchView {
    pub ops: Seq<OpView>,
    pub await_durable: bool,
    pub seqnum: u64,
}

/// What a deletion comes to.
pub enum StepView {
    Done(u64),
    Apply(BatchView),
}

/// A number of places, all of them before the same operation.
pub open spec fn copies(n: nat, at: nat) -> Seq<nat> {
    Seq::new(n, |i: int| at)
}

/// The records that are owed, set among the operations of a write. The last of the places are
/// those of the last of the records; each says how many of the operations come before. Records
/// without a place are from earlier writes, and come first. Neither records nor operations change
/// their order.
pub open spec fn woven(owed: Seq<OpView>, ops: Seq<OpView>, places: Seq<nat>) -> Seq<OpView>
    decreases owed.len() + ops.len(),
{
    if owed.len() == 0 || places.len() == 0 {
        owed + ops
    } else if ops.len() <= places.last() {
        woven(owed.drop_last(), ops, places.drop_last()).push(owed.last())
    } else {
        woven(owed, ops.drop_last(), places).push(ops.last())
    }
}

/// The operations that introduce a name, with an id from `space`: the reservation of a block, if
/// the id needs one; the name's id; the id's definition.
pub open spec fn intern_ops(space: SpaceView, kind: SchemaKind, name: Seq<char>) -> Seq<OpView> {
    store::reserve_ops(space.reservation()) + seq![
        OpView::Put {
            key: KeyView::SchemaName(kind, vstd::utf8::encode_utf8(name)),
            value: PayloadView::Raw(endian::le_bytes(space.next, 4)),
        },
        OpView::Put {
            key: KeyView::SchemaId(kind, space.next as u32),
            value: PayloadView::Entry(schema::entry_for(kind, name)),
        },
    ]
}

/// Properties under the ids of their names. Of two values under one id, the later one stays.
pub open spec fn keyed(ids: Seq<u32>, values: Seq<ValueView>) -> Map<PropId, ValueView> {
    merge::laid_over(Map::empty(), Seq::new(ids.len(), |i: int| (ids[i], values[i])))
}

/// The labels with the given ids.
pub open spec fn label_ids(ids: Seq<u32>) -> Seq<LabelId> {
    Seq::new(ids.len(), |i: int| LabelId(ids[i]))
}

/// The names of a list of named values.
pub open spec fn names_of(props: Seq<(Seq<char>, ValueView)>) -> Seq<Seq<char>> {
    Seq::new(props.len(), |i: int| props[i].0)
}

/// The values of a list of named values.
pub open spec fn values_of(props: Seq<(Seq<char>, ValueView)>) -> Seq<ValueView> {
    Seq::new(props.len(), |i: int| props[i].1)
}

/// How many bytes named values take under ids of their own.
pub open spec fn named_len(props: Seq<(Seq<char>, ValueView)>) -> nat
    decreases props.len(),
{
    if props.len() == 0 {
        0
    } else {
        named_len(props.drop_last()) + 4 + value::value_bytes(props.last().1).len()
    }
}

/// Whether named values can be encoded, whatever ids their names have.
pub open spec fn named_fit(props: Seq<(Seq<char>, ValueView)>) -> bool {
    props.len() <= 0xffff && 2 + named_len(props) <= buffer::buffer_limit()
}

/// The node that stands for an external id nothing is known of but the id.
pub open spec fn stub(xid: Seq<char>) -> NodeView {
    NodeView { labels: Seq::empty(), props: Map::empty(), xid }
}

/// A node record to write, or the error that it is over the cap.
pub open spec fn node_put(uid: Uid, n: NodeView) -> Result<OpView, ErrorView> {
    if node::node_bytes(n).len() <= node::DEFAULT_NODE_SIZE_CAP {
        Ok(
            OpView::Put {
                key: KeyView::Node(uid),
                value: PayloadView::Raw(node::node_bytes(n)),
            },
        )
    } else {
        Err(
            ErrorView::OversizeNode {
                size: node::node_bytes(n).len() as usize,
                cap: node::DEFAULT_NODE_SIZE_CAP,
            },
        )
    }
}

/// The uid that a stored mapping of an external id holds, if there is a mapping.
pub open spec fn mapped_uid(stored: Option<Seq<u8>>) -> Result<Option<Uid>, ErrorView> {
    match stored {
        None => Ok(None),
        Some(b) => match fixed::decoded_u64_be(b, "Xid mapping") {
            Ok(v) => Ok(Some(Uid(v))),
            Err(e) => Err(e),
        },
    }
}

/// The node that was read, if there was one.
pub open spec fn read_node(stored: Option<Seq<u8>>) -> Result<Option<NodeView>, ErrorView> {
    match stored {
        None => Ok(None),
        Some(b) => match node::decoded_node(b) {
            Ok(n) => Ok(Some(n)),
            Err(e) => Err(e),
        },
    }
}

/// The properties that were read, if there were any.
pub open spec fn read_edge_props(stored: Option<Seq<u8>>) -> Result<
    Option<Map<PropId, ValueView>>,
    ErrorView,
> {
    match stored {
        None => Ok(None),
        Some(b) => match props::decoded_props(b) {
            Ok(m) => Ok(Some(m)),
            Err(e) => Err(e),
        },
    }
}

/// The degree that was read. One that was never written stands at 0.
pub open spec fn read_degree(stored: Option<Seq<u8>>) -> Result<i64, ErrorView> {
    match stored {
        None => Ok(0),
        Some(b) => fixed::decoded_i64_le(b, "degree counter"),
    }
}

/// The cursor that was read. One that was never written stands at 0.
pub open spec fn read_cursor(stored: Option<Seq<u8>>) -> Result<u64, ErrorView> {
    match stored {
        None => Ok(0),
        Some(b) => fixed::decoded_u64_le(b, "Meta[latest_seq]"),
    }
}

/// The changelog record of a write, before it has a sequence number.
pub open spec fn node_change(op: ChangeOp, uid: Uid, delta: Option<DeltaView>) -> ChangeView {
    ChangeView {
        seq: 0,
        op,
        subject_uid: uid,
        pred_id: None,
        object_uid: None,
        value: None,
        label_delta: delta,
    }
}

/// The changelog record of a write to an edge, before it has a sequence number.
pub open spec fn edge_change(op: ChangeOp, src: Uid, pred: PredId, dst: Uid) -> ChangeView {
    ChangeView {
        seq: 0,
        op,
        subject_uid: src,
        pred_id: Some(pred),
        object_uid: Some(dst),
        value: None,
        label_delta: None,
    }
}

/// The operations that add `delta` to the degree of both ends of an edge.
pub open spec fn degree_ops(src: Uid, pred: PredId, dst: Uid, delta: i64) -> Seq<OpView> {
    seq![
        store::bump_op(pred, Direction::Out, src, delta),
        store::bump_op(pred, Direction::In, dst, delta),
    ]
}

/// The operation that records the properties of an edge.
pub open spec fn edge_prop_put(
    src: Uid,
    pred: PredId,
    dst: Uid,
    m: Map<PropId, ValueView>,
) -> OpView {
    OpView::Put {
        key: KeyView::EdgeProp(src, pred, dst),
        value: PayloadView::Raw(props::props_bytes(m)),
    }
}

/// The operations of an edge upsert: those prepared, the two postings, both degrees, and the
/// properties if there are any.
pub open spec fn edge_ops(
    d: EdgeDraftView,
    out_ops: Seq<OpView>,
    in_ops: Seq<OpView>,
    m: Map<PropId, ValueView>,
) -> Seq<OpView> {
    let plain = d.ops + out_ops + in_ops + degree_ops(d.src, d.pred, d.dst, 1);
    if m.is_empty() {
        plain
    } else {
        plain.push(edge_prop_put(d.src, d.pred, d.dst, m))
    }
}

/// The places of the records that became owed with an edge upsert: those prepared, and `fresh` for
/// the names of properties, right before the properties.
pub open spec fn edge_places(
    d: EdgeDraftView,
    out_ops: Seq<OpView>,
    in_ops: Seq<OpView>,
    fresh: nat,
) -> Seq<nat> {
    d.places + copies(fresh, d.ops.len() + out_ops.len() + in_ops.len() + 2)
}

/// The operations that delete an edge: gone from the view of either end, off both degrees, and
/// its properties with it.
pub open spec fn delete_edge_ops(src: Uid, pred: PredId, dst: Uid) -> Seq<OpView> {
    seq![
        OpView::DeleteEdge { pred, anchor: src, other: dst },
        OpView::DeleteEdge { pred, anchor: dst, other: src },
    ] + degree_ops(src, pred, dst, -1i64) + seq![
        OpView::Delete { key: KeyView::EdgeProp(src, pred, dst) },
    ]
}

impl WriterView {
    /// The id of a name, and the state after it was interned. A known name costs nothing; the
    /// records of a new one are owed to the store.
    pub open spec fn intern(self, kind: SchemaKind, name: Seq<char>) -> Interned {
        if self.schema.contains_key((kind, name)) {
            Interned { writer: self, id: self.schema[(kind, name)] }
        } else {
            let id = self.allocs.space(kind).next as u32;
            Interned {
                writer: WriterView {
                    allocs: self.allocs.advance(kind),
                    schema: self.schema.insert((kind, name), id),
                    owed: self.owed + intern_ops(self.allocs.space(kind), kind, name),
                    ..self
                },
                id,
            }
        }
    }

    /// Names interned one after the other.
    pub open spec fn intern_all(self, kind: SchemaKind, names: Seq<Seq<char>>) -> InternedAll
        decreases names.len(),
    {
        if names.len() == 0 {
            InternedAll { writer: self, ids: Seq::empty() }
        } else {
            let most = self.intern_all(kind, names.drop_last());
            let last = most.writer.intern(kind, names.last());
            InternedAll { writer: last.writer, ids: most.ids.push(last.id) }
        }
    }

    /// Whether a name is known, or can still get an id.
    pub open spec fn can_intern(self, kind: SchemaKind, name: Seq<char>) -> bool {
        self.schema.contains_key((kind, name)) || self.allocs.space(kind).next < 0x1_0000_0000
    }

    /// Whether all of the names that are not known can still get ids.
    pub open spec fn can_intern_all(self, kind: SchemaKind, names: Seq<Seq<char>>) -> bool {
        self.allocs.space(kind).next <= 0x1_0000_0000 && self.intern_all(
            kind,
            names,
        ).writer.allocs.space(kind).next <= 0x1_0000_0000
    }

    /// Whether all names of a node upsert that are not known can still get ids.
    pub open spec fn can_draft_node(
        self,
        labels: Seq<Seq<char>>,
        props: Seq<(Seq<char>, ValueView)>,
    ) -> bool {
        &&& self.can_intern_all(SchemaKind::Label, labels)
        &&& self.intern_all(SchemaKind::Label, labels).writer.can_intern_all(
            SchemaKind::PropertyKey,
            names_of(props),
        )
    }

    /// The uid of an external id, given what is stored for it: the stored one, or a new one. The
    /// block that a new one comes from is owed to the store.
    pub open spec fn resolve(self, xid: Seq<u8>, stored: Option<Seq<u8>>) -> (
        WriterView,
        Result<ResolutionView, ErrorView>,
    ) {
        match mapped_uid(stored) {
            Err(e) => (self, Err(e)),
            Ok(Some(uid)) => (
                self,
                Ok(ResolutionView { uid, ops: Seq::empty(), places: Seq::empty() }),
            ),
            Ok(None) => {
                let space = self.allocs.uid;
                (
                    WriterView {
                        allocs: AllocatorsView { uid: space.advance(), ..self.allocs },
                        owed: self.owed + store::reserve_ops(space.reservation()),
                        ..self
                    },
                    Ok(
                        ResolutionView {
                            uid: Uid(space.next as u64),
                            ops: seq![
                                OpView::Put {
                                    key: KeyView::Xid(xid),
                                    value: PayloadView::Raw(endian::be_bytes(space.next, 8)),
                                },
                            ],
                            places: copies(store::reserve_ops(space.reservation()).len(), 0),
                        },
                    ),
                )
            },
        }
    }

    /// The uid of an endpoint. One that is new gets a node record of its own.
    pub open spec fn resolve_and_stub(self, xid: Seq<u8>, stored: Option<Seq<u8>>) -> (
        WriterView,
        Result<ResolutionView, ErrorView>,
    ) {
        let (w, resolved) = self.resolve(xid, stored);
        (
            w,
            match resolved {
                Err(e) => Err(e),
                Ok(r) => stubbed(xid, r),
            },
        )
    }

    /// What an upsert makes of a node: its names interned, then its record merged with the one
    /// that was read. Names stay interned, and their records owed, whatever goes wrong after that.
    pub open spec fn draft_node(
        self,
        xid: Seq<u8>,
        labels: Seq<Seq<char>>,
        props: Seq<(Seq<char>, ValueView)>,
        resolved: ResolutionView,
        prior: Result<Option<Seq<u8>>, ErrorView>,
    ) -> (WriterView, Result<NodeDraftView, ErrorView>) {
        let l = self.intern_all(SchemaKind::Label, labels);
        let p = l.writer.intern_all(SchemaKind::PropertyKey, names_of(props));
        (
            p.writer,
            match prior {
                Err(e) => Err(e),
                Ok(stored) => match read_node(stored) {
                    Err(e) => Err(e),
                    Ok(before) => match xid_text(xid) {
                        Err(e) => Err(e),
                        Ok(name) => Ok(
                            NodeDraftView {
                                uid: resolved.uid,
                                ops: resolved.ops,
                                places: resolved.places + copies(
                                    (p.writer.owed.len() - self.owed.len()) as nat,
                                    resolved.ops.len(),
                                ),
                                record: merge::merged(
                                    before,
                                    label_ids(l.ids),
                                    keyed(p.ids, values_of(props)),
                                    name,
                                ),
                                delta: merge::label_delta(before, label_ids(l.ids)),
                            },
                        ),
                    },
                },
            },
        )
    }

    /// A node upsert: the record and its changelog entry, unless the record is over the cap.
    pub open spec fn upsert_node(self, d: NodeDraftView) -> (
        WriterView,
        Result<BatchView, ErrorView>,
    ) {
        match node_put(d.uid, d.record) {
            Err(e) => (self, Err(e)),
            Ok(put) => {
                let (w, batch) = self.commit(
                    d.ops.push(put),
                    d.places,
                    node_change(ChangeOp::UpsertNode, d.uid, Some(d.delta)),
                );
                (w, Ok(batch))
            },
        }
    }

    /// Whether there are uids for those ends of an edge that have none stored.
    pub open spec fn can_resolve_ends(
        self,
        src_stored: Option<Seq<u8>>,
        dst_stored: Result<Option<Seq<u8>>, ErrorView>,
    ) -> bool {
        let uid = self.allocs.uid;
        &&& src_stored is None ==> uid.can_advance()
        &&& dst_stored matches Ok(None) ==> if src_stored is None {
            uid.advance().can_advance()
        } else {
            uid.can_advance()
        }
    }

    /// The ids that an edge upsert needs. What was handed out stays so, and its records owed,
    /// whatever goes wrong after that.
    pub open spec fn draft_edge(
        self,
        src_xid: Seq<u8>,
        src_stored: Option<Seq<u8>>,
        pred: Seq<char>,
        dst_xid: Seq<u8>,
        dst_stored: Result<Option<Seq<u8>>, ErrorView>,
    ) -> (WriterView, Result<EdgeDraftView, ErrorView>) {
        let (w1, src) = self.resolve_and_stub(src_xid, src_stored);
        match (src, dst_stored) {
            (Err(e), _) => (w1, Err(e)),
            (_, Err(e)) => (w1, Err(e)),
            (Ok(s), Ok(stored)) => {
                let (w2, dst) = w1.resolve_and_stub(dst_xid, stored);
                match dst {
                    Err(e) => (w2, Err(e)),
                    Ok(d) => {
                        let p = w2.intern(SchemaKind::Predicate, pred);
                        (
                            p.writer,
                            Ok(
                                EdgeDraftView {
                                    src: s.uid,
                                    pred: PredId(p.id),
                                    dst: d.uid,
                                    ops: s.ops + d.ops,
                                    places: s.places + copies(d.places.len(), s.ops.len())
                                        + copies(
                                        (p.writer.owed.len() - w2.owed.len()) as nat,
                                        s.ops.len() + d.ops.len(),
                                    ),
                                },
                            ),
                        )
                    },
                }
            },
        }
    }

    /// An edge upsert: the two postings, both degrees, the properties if there are any, and the
    /// changelog entry. The names of the properties made `fresh` records owed.
    pub open spec fn upsert_edge_inner(
        self,
        d: EdgeDraftView,
        out_ops: Seq<OpView>,
        in_ops: Seq<OpView>,
        m: Map<PropId, ValueView>,
        fresh: nat,
    ) -> (WriterView, BatchView) {
        self.commit(
            edge_ops(d, out_ops, in_ops, m),
            edge_places(d, out_ops, in_ops, fresh),
            edge_change(ChangeOp::UpsertEdge, d.src, d.pred, d.dst),
        )
    }

    /// An edge upsert without properties.
    pub open spec fn upsert_edge(
        self,
        d: EdgeDraftView,
        out_ops: Seq<OpView>,
        in_ops: Seq<OpView>,
    ) -> (WriterView, BatchView) {
        self.upsert_edge_inner(d, out_ops, in_ops, Map::empty(), 0)
    }

    /// The properties of an edge, under the ids of their names.
    pub open spec fn edge_props(self, props: Seq<(Seq<char>, ValueView)>) -> Map<
        PropId,
        ValueView,
    > {
        keyed(
            self.intern_all(SchemaKind::PropertyKey, names_of(props)).ids,
            values_of(props),
        )
    }

    /// An edge upsert with properties: their names are interned first.
    pub open spec fn upsert_edge_with_props(
        self,
        d: EdgeDraftView,
        out_ops: Seq<OpView>,
        in_ops: Seq<OpView>,
        props: Seq<(Seq<char>, ValueView)>,
    ) -> (WriterView, BatchView) {
        let p = self.intern_all(SchemaKind::PropertyKey, names_of(props));
        p.writer.upsert_edge_inner(
            d,
            out_ops,
            in_ops,
            self.edge_props(props),
            (p.writer.owed.len() - self.owed.len()) as nat,
        )
    }

    /// The deletion of a node, given what is stored for its external id.
    pub open spec fn delete_node(self, stored: Option<Seq<u8>>) -> (
        WriterView,
        Result<StepView, ErrorView>,
    ) {
        match mapped_uid(stored) {
            Err(e) => (self, Err(e)),
            Ok(None) => (self, Ok(StepView::Done(self.latest_seq))),
            Ok(Some(uid)) => {
                let (w, batch) = self.commit(
                    seq![OpView::DeleteNode { uid }],
                    Seq::empty(),
                    node_change(ChangeOp::DeleteNode, uid, None),
                );
                (w, Ok(StepView::Apply(batch)))
            },
        }
    }

    /// Whether both ends of an edge and its predicate are known, so that there is something to
    /// delete.
    pub open spec fn deletes_edge(
        self,
        src_stored: Option<Seq<u8>>,
        pred: Seq<char>,
        dst_stored: Option<Seq<u8>>,
    ) -> bool {
        &&& mapped_uid(src_stored) matches Ok(Some(_))
        &&& mapped_uid(dst_stored) matches Ok(Some(_))
        &&& self.schema.contains_key((SchemaKind::Predicate, pred))
    }

    /// The deletion of an edge, given what is stored for its endpoints' external ids.
    pub open spec fn delete_edge(
        self,
        src_stored: Option<Seq<u8>>,
        pred: Seq<char>,
        dst_stored: Option<Seq<u8>>,
    ) -> (WriterView, Result<StepView, ErrorView>) {
        match (mapped_uid(src_stored), mapped_uid(dst_stored)) {
            (Err(e), _) => (self, Err(e)),
            (_, Err(e)) => (self, Err(e)),
            (Ok(Some(src)), Ok(Some(dst))) => if self.schema.contains_key(
                (SchemaKind::Predicate, pred),
            ) {
                let id = PredId(self.schema[(SchemaKind::Predicate, pred)]);
                let (w, batch) = self.commit(
                    delete_edge_ops(src, id, dst),
                    Seq::empty(),
                    edge_change(ChangeOp::DeleteEdge, src, id, dst),
                );
                (w, Ok(StepView::Apply(batch)))
            } else {
                (self, Ok(StepView::Done(self.latest_seq)))
            },
            _ => (self, Ok(StepView::Done(self.latest_seq))),
        }
    }

    /// The sequence number of the next write. The first one is 1.
    pub open spec fn next_seq(self) -> u64 {
        (self.allocs.seq.next + 1) as u64
    }

    /// What the next batch owes the store: everything owed so far, and the block that its
    /// sequence number needs, if it needs one.
    pub open spec fn owed_with_seq(self) -> Seq<OpView> {
        self.owed + store::reserve_ops(self.allocs.seq.reservation())
    }

    /// A write under the next sequence number: its own operations with what is owed among them,
    /// the block that the number needs, if it needs one, the changelog record, and the cursor.
    pub open spec fn commit(self, ops: Seq<OpView>, places: Seq<nat>, change: ChangeView) -> (
        WriterView,
        BatchView,
    ) {
        let seq = self.next_seq();
        let owed = self.owed_with_seq();
        (
            WriterView {
                allocs: AllocatorsView { seq: self.allocs.seq.advance(), ..self.allocs },
                owed,
                in_flight: Some(InFlightView { seq, sent: owed.len() }),
                ..self
            },
            BatchView {
                ops: woven(self.owed, ops, places) + store::reserve_ops(
                    self.allocs.seq.reservation(),
                ) + log_ops(seq, change),
                await_durable: true,
                seqnum: seq,
            },
        )
    }

    /// The state after a batch was applied, or failed to be. An applied batch moves the cursor to
    /// its sequence number, and the one that was handed out last also settles what it held of the
    /// operations owed. After a failure they are owed as before.
    pub open spec fn settle(self, seq: u64, applied: Result<(), ErrorView>) -> WriterView {
        let last = self.in_flight matches Some(f) && f.seq == seq && f.sent <= self.owed.len();
        WriterView {
            latest_seq: if applied is Ok {
                seq
            } else {
                self.latest_seq
            },
            owed: if applied is Ok && last {
                self.owed.skip(self.in_flight->Some_0.sent as int)
            } else {
                self.owed
            },
            in_flight: if last {
                None
            } else {
                self.in_flight
            },
            ..self
        }
    }
}

/// The operations that end a batch: the changelog record and the cursor.
pub open spec fn log_ops(seq: u64, change: ChangeView) -> Seq<OpView> {
    seq![
        OpView::Put {
            key: KeyView::Log(seq),
            value: PayloadView::Raw(change::change_bytes(ChangeView { seq, ..change })),
        },
        OpView::Put {
            key: KeyView::Meta(store::latest_seq_name()),
            value: PayloadView::Raw(endian::le_bytes(seq as nat, 8)),
        },
    ]
}

/// The operations that a resolution takes, none if it failed.
pub open spec fn resolved_ops(r: Result<ResolutionView, ErrorView>) -> Seq<OpView> {
    match r {
        Ok(v) => v.ops,
        Err(_) => Seq::empty(),
    }
}

/// The places that a resolution takes, none if it failed.
pub open spec fn resolved_places(r: Result<ResolutionView, ErrorView>) -> Seq<nat> {
    match r {
        Ok(v) => v.places,
        Err(_) => Seq::empty(),
    }
}

/// An external id as text.
pub open spec fn xid_text(xid: Seq<u8>) -> Result<Seq<char>, ErrorView> {
    match text::text_of(xid) {
        Ok(t) => Ok(t),
        Err(cause) => Err(ErrorView::Encoding(FaultView::XidNotUtf8 { cause })),
    }
}

/// A resolved endpoint, with its stub node if it is new: an error if the stub is none.
pub open spec fn stubbed(xid: Seq<u8>, r: ResolutionView) -> Result<ResolutionView, ErrorView> {
    if r.ops.len() == 0 {
        Ok(r)
    } else {
        match xid_text(xid) {
            Err(e) => Err(e),
            Ok(name) => match node_put(r.uid, stub(name)) {
                Err(e) => Err(e),
                Ok(put) => Ok(
                    ResolutionView { uid: r.uid, ops: r.ops.push(put), places: r.places },
                ),
            },
        }
    }
}

} // verus!
