//! The write path of one graph: every write becomes one batch of store operations under one
//! sequence number.
//!
//! A [`Writer`] does no storage access of its own. What a write has to read first, its caller
//! reads and hands in; what a write comes to, it hands back as a [`Batch`]. The caller applies
//! the batch as one atomic unit and reports how that went to [`Writer::settle`].
//!
//! Names and blocks of ids that a writer draws are good from then on, also where the write that
//! drew them is refused or fails. Their records are owed to the store: every batch holds all that
//! is owed, until one of them was applied.

use bytes::Bytes;
use roaring::RoaringTreemap;
use vstd::prelude::*;

use crate::allocators::GraphAllocators;
use crate::bitmap;
use crate::buffer;
use crate::change;
use crate::change::{ChangeOp, ChangeRecord, ChangeView, LabelDelta};
use crate::endian;
use crate::error;
use crate::error::{Error, ErrorView, Fault, FaultView};
use crate::fixed;
use crate::ids::{Direction, LabelId, PredId, PropId, SchemaKind, Uid};
use crate::labels;
use crate::merge;
use crate::model;
use crate::model::{
    BatchView, EdgeDraftView, InFlightView, NodeDraftView, ResolutionView, StepView, WriterView,
};
use crate::node;
use crate::node::{NodeCodec, NodeRecord, V0NodeCodec};
use crate::props;
use crate::props::EdgeProps;
use crate::schema::{Directives, SchemaCache, SchemaEntry, ValType};
use crate::store;
use crate::store::{Key, OpView, Payload, RecordOp};
use crate::text;
use crate::value::{TypedValue, ValueView};

verus! {

broadcast use {vstd::std_specs::btree::group_btree_axioms, vstd::laws_cmp::group_laws_cmp};

/// How a batch is to be applied.
#[derive(Debug, Clone, Copy, PartialEq, Eq, Structural)]
pub struct WriteOptions {
    /// Whether to wait until the batch is durable.
    pub await_durable: bool,
    /// The sequence number that the store gives the batch.
    pub seqnum: u64,
}

/// The operations of one write. They are applied together or not at all.
pub struct Batch {
    pub ops: Vec<RecordOp>,
    pub options: WriteOptions,
}

impl View for Batch {
    type V = BatchView;

    open spec fn view(&self) -> BatchView {
        BatchView {
            ops: store::ops_view(self.ops@),
            await_durable: self.options.await_durable,
            seqnum: self.options.seqnum,
        }
    }
}

/// What a deletion comes to.
pub enum Step {
    /// There is nothing to delete: the highest committed sequence number stands.
    Done(u64),
    /// The batch is to be applied.
    Apply(Batch),
}

impl View for Step {
    type V = StepView;

    open spec fn view(&self) -> StepView {
        match self {
            Step::Done(seq) => StepView::Done(*seq),
            Step::Apply(batch) => StepView::Apply(batch@),
        }
    }
}

/// The uid of an external id, with the operations that record it if it is new.
pub struct Resolution {
    pub uid: Uid,
    pub ops: Vec<RecordOp>,
    /// For each record that became owed on the way, how many of the operations come before it.
    pub places: Vec<usize>,
}

impl View for Resolution {
    type V = ResolutionView;

    open spec fn view(&self) -> ResolutionView {
        ResolutionView {
            uid: self.uid,
            ops: store::ops_view(self.ops@),
            places: places_view(self.places@),
        }
    }
}

/// A node upsert, ready to be encoded.
pub struct NodeDraft {
    pub uid: Uid,
    pub ops: Vec<RecordOp>,
    /// For each record that became owed on the way, how many of the operations come before it.
    pub places: Vec<usize>,
    pub record: NodeRecord,
    pub delta: LabelDelta,
}

impl View for NodeDraft {
    type V = NodeDraftView;

    open spec fn view(&self) -> NodeDraftView {
        NodeDraftView {
            uid: self.uid,
            ops: store::ops_view(self.ops@),
            places: places_view(self.places@),
            record: self.record@,
            delta: self.delta@,
        }
    }
}

/// An edge upsert whose endpoints and predicate have their ids.
pub struct EdgeDraft {
    pub src: Uid,
    pub pred: PredId,
    pub dst: Uid,
    pub ops: Vec<RecordOp>,
    /// For each record that became owed on the way, how many of the operations come before it.
    pub places: Vec<usize>,
}

impl View for EdgeDraft {
    type V = EdgeDraftView;

    open spec fn view(&self) -> EdgeDraftView {
        EdgeDraftView {
            src: self.src,
            pred: self.pred,
            dst: self.dst,
            ops: store::ops_view(self.ops@),
            places: places_view(self.places@),
        }
    }
}

impl EdgeDraft {
    /// What the postings of the two ends gain, each as the direction, the anchor, the predicate
    /// and the new member: the target goes into the source's outgoing posting, the source into
    /// the target's incoming one.
    pub fn posting_adds(&self) -> (r: (
        (Direction, Uid, PredId, Uid),
        (Direction, Uid, PredId, Uid),
    ))
        ensures
            r.0 == (Direction::Out, self.src, self.pred, self.dst),
            r.1 == (Direction::In, self.dst, self.pred, self.src),
    {
        (
            (Direction::Out, self.src, self.pred, self.dst),
            (Direction::In, self.dst, self.pred, self.src),
        )
    }
}

/// Places as numbers.
pub open spec fn places_view(places: Seq<usize>) -> Seq<nat> {
    Seq::new(places.len(), |i: int| places[i] as nat)
}

/// Notes `n` more places, all of them at the same spot.
fn push_places(places: &mut Vec<usize>, n: usize, at: usize)
    ensures
        places_view(final(places)@) == places_view(old(places)@) + model::copies(
            n as nat,
            at as nat,
        ),
{
    let ghost start = places_view(places@);
    let mut i: usize = 0;
    proof {
        assert(start + model::copies(0, at as nat) =~= start);
    }
    while i < n
        invariant
            i <= n,
            places_view(places@) == start + model::copies(i as nat, at as nat),
        decreases n - i,
    {
        let ghost before = places@;
        places.push(at);
        proof {
            assert(places_view(places@) =~= places_view(before).push(at as nat));
            assert(start + model::copies((i + 1) as nat, at as nat) =~= (start + model::copies(
                i as nat,
                at as nat,
            )).push(at as nat));
        }
        i += 1;
    }
}

/// No places.
fn no_places() -> (r: Vec<usize>)
    ensures
        places_view(r@) == Seq::<nat>::empty(),
{
    let r: Vec<usize> = Vec::new();
    proof {
        assert(places_view(r@) =~= Seq::empty());
    }
    r
}

/// Sets the records that are owed among the operations of a write.
fn weave(owed: Vec<RecordOp>, ops: Vec<RecordOp>, places: Vec<usize>) -> (r: Vec<RecordOp>)
    ensures
        store::ops_view(r@) == model::woven(
            store::ops_view(owed@),
            store::ops_view(ops@),
            places_view(places@),
        ),
{
    let ghost goal = model::woven(
        store::ops_view(owed@),
        store::ops_view(ops@),
        places_view(places@),
    );
    let mut owed = owed;
    let mut ops = ops;
    let mut places = places;
    let mut tail: Vec<RecordOp> = Vec::new();
    proof {
        assert(goal + store::ops_view(tail@).reverse() =~= goal);
    }
    while owed.len() > 0 && places.len() > 0
        invariant
            goal == model::woven(
                store::ops_view(owed@),
                store::ops_view(ops@),
                places_view(places@),
            ) + store::ops_view(tail@).reverse(),
        decreases owed.len() + ops.len(),
    {
        let ghost (o, p, s, t) = (owed@, ops@, places@, tail@);
        if ops.len() <= places[places.len() - 1] {
            places.pop();
            let last = owed.pop();
            if let Some(op) = last {
                tail.push(op);
            }
            proof {
                assert(places_view(places@) =~= places_view(s).drop_last());
                assert(store::ops_view(owed@) =~= store::ops_view(o).drop_last());
                lemma_tail(goal, store::ops_view(owed@), store::ops_view(p), places_view(places@),
                    o.last(), t);
            }
        } else {
            let last = ops.pop();
            if let Some(op) = last {
                tail.push(op);
            }
            proof {
                assert(store::ops_view(ops@) =~= store::ops_view(p).drop_last());
                lemma_tail(goal, store::ops_view(o), store::ops_view(ops@), places_view(s),
                    p.last(), t);
            }
        }
    }
    let mut all = owed;
    store::push_all(&mut all, ops);
    while tail.len() > 0
        invariant
            goal == store::ops_view(all@) + store::ops_view(tail@).reverse(),
        decreases tail.len(),
    {
        let ghost t = tail@;
        let ghost before = store::ops_view(all@);
        let last = tail.pop();
        if let Some(op) = last {
            store::push_op(&mut all, op);
        }
        proof {
            assert(store::ops_view(t).reverse() =~= seq![t.last()@] + store::ops_view(
                tail@,
            ).reverse());
            assert(before + (seq![t.last()@] + store::ops_view(tail@).reverse()) =~= before + seq![
                t.last()@,
            ] + store::ops_view(tail@).reverse());
        }
    }
    proof {
        assert(store::ops_view(all@) + store::ops_view(tail@).reverse() =~= store::ops_view(all@));
    }
    all
}

/// Taking the last operation off what is woven puts it first in what follows.
proof fn lemma_tail(
    goal: Seq<OpView>,
    owed: Seq<OpView>,
    ops: Seq<OpView>,
    places: Seq<nat>,
    op: RecordOp,
    tail: Seq<RecordOp>,
)
    requires
        goal == model::woven(owed, ops, places).push(op@) + store::ops_view(tail).reverse(),
    ensures
        goal == model::woven(owed, ops, places) + store::ops_view(tail.push(op)).reverse(),
{
    let w = model::woven(owed, ops, places);
    assert(store::ops_view(tail.push(op)).reverse() =~= seq![op@] + store::ops_view(
        tail,
    ).reverse());
    assert(w.push(op@) + store::ops_view(tail).reverse() =~= w + (seq![op@] + store::ops_view(
        tail,
    ).reverse()));
}

/// What optional stored bytes hold.
pub open spec fn stored_view(stored: Option<Bytes>) -> Option<Seq<u8>> {
    match stored {
        Some(b) => Some(buffer::content(b)),
        None => None,
    }
}

/// What a read that may have failed brought.
pub open spec fn read_view(read: Result<Option<Bytes>, Error>) -> Result<
    Option<Seq<u8>>,
    ErrorView,
> {
    match read {
        Ok(stored) => Ok(stored_view(stored)),
        Err(e) => Err(e@),
    }
}

/// The texts of strings.
pub open spec fn texts(s: Seq<String>) -> Seq<Seq<char>> {
    Seq::new(s.len(), |i: int| s[i]@)
}

/// What named values hold.
pub open spec fn named_view(s: Seq<(String, TypedValue)>) -> Seq<(Seq<char>, ValueView)> {
    Seq::new(s.len(), |i: int| (s[i].0@, s[i].1@))
}

/// The one writer of a graph, over a store of type `S`.
pub struct Writer<S> {
    storage: S,
    allocs: GraphAllocators,
    schema: SchemaCache,
    latest_seq: u64,
    owed: Vec<RecordOp>,
    in_flight: Option<InFlight>,
}

/// A batch that was handed out: its sequence number, and how many of the operations owed it holds.
#[derive(Debug, Clone, Copy, PartialEq, Eq, Structural)]
struct InFlight {
    seq: u64,
    sent: usize,
}

impl<S> View for Writer<S> {
    type V = WriterView;

    closed spec fn view(&self) -> WriterView {
        WriterView {
            allocs: self.allocs@,
            schema: self.schema@,
            latest_seq: self.latest_seq,
            owed: store::ops_view(self.owed@),
            in_flight: match self.in_flight {
                Some(f) => Some(InFlightView { seq: f.seq, sent: f.sent as nat }),
                None => None,
            },
        }
    }
}

impl<S> Writer<S> {
    /// The store that this writer was made for.
    pub closed spec fn store(&self) -> S {
        self.storage
    }

    /// Interns `name`: returns its id. A name that is new gets the next id of its kind, and the
    /// operations that record it are owed to the store from then on.
    pub fn intern(&mut self, kind: SchemaKind, name: &str) -> (r: u32)
        requires
            old(self)@.can_intern(kind, name@),
        ensures
            final(self)@ == old(self)@.intern(kind, name@).writer,
            final(self).store() == old(self).store(),
            r == old(self)@.intern(kind, name@).id,
    {
        if let Some(id) = self.schema.id_of(kind, name) {
            return id;
        }
        let (id, block) = self.allocs.allocate_name(kind);
        store::push_reservation(&mut self.owed, block);
        let entry = SchemaEntry {
            name: name.to_owned(),
            value_type: ValType::Untyped,
            directives: Directives { reverse: matches!(kind, SchemaKind::Predicate) },
        };
        store::push_put(
            &mut self.owed,
            Key::SchemaName(kind, Bytes::copy_from_slice(name.as_bytes())),
            fixed::encode_u32_le(id),
        );
        store::push_op(
            &mut self.owed,
            RecordOp::Put { key: Key::SchemaId(kind, id), value: Payload::Entry(entry) },
        );
        self.schema.insert(kind, id, name);
        proof {
            assert(self@.owed =~= old(self)@.owed + model::intern_ops(
                old(self)@.allocs.space(kind),
                kind,
                name@,
            ));
        }
        id
    }

    /// Interns labels, in the order given.
    fn intern_labels(&mut self, labels: &[String]) -> (r: Vec<LabelId>)
        requires
            old(self)@.can_intern_all(SchemaKind::Label, texts(labels@)),
        ensures
            final(self)@ == old(self)@.intern_all(SchemaKind::Label, texts(labels@)).writer,
            final(self).store() == old(self).store(),
            r@ == model::label_ids(old(self)@.intern_all(SchemaKind::Label, texts(labels@)).ids),
    {
        let ghost w = self@;
        let ghost names = texts(labels@);
        let mut ids: Vec<LabelId> = Vec::new();
        let mut i: usize = 0;
        proof {
            assert(ids@ =~= model::label_ids(Seq::empty()));
        }
        while i < labels.len()
            invariant
                i <= labels.len(),
                names == texts(labels@),
                w.can_intern_all(SchemaKind::Label, names),
                self@ == w.intern_all(SchemaKind::Label, names.take(i as int)).writer,
                self.store() == old(self).store(),
                ids@ == model::label_ids(
                    w.intern_all(SchemaKind::Label, names.take(i as int)).ids,
                ),
            decreases labels.len() - i,
        {
            let ghost most = w.intern_all(SchemaKind::Label, names.take(i as int));
            proof {
                assert(names.take(i + 1).drop_last() =~= names.take(i as int));
                assert(names.take(i + 1).last() == labels@[i as int]@);
                lemma_intern_prefix(w, SchemaKind::Label, names, i + 1);
            }
            let id: u32 = self.intern(SchemaKind::Label, labels[i].as_str());
            ids.push(LabelId(id));
            proof {
                assert(model::label_ids(most.ids.push(id)) =~= model::label_ids(most.ids).push(
                    LabelId(id),
                ));
            }
            i += 1;
        }
        proof {
            assert(names.take(i as int) =~= names);
        }
        ids
    }

    /// Interns the names of properties, in the order given, and puts the values under their ids.
    fn intern_props(&mut self, props: Vec<(String, TypedValue)>) -> (r: EdgeProps)
        requires
            old(self)@.can_intern_all(
                SchemaKind::PropertyKey,
                model::names_of(named_view(props@)),
            ),
        ensures
            final(self)@ == old(self)@.intern_all(
                SchemaKind::PropertyKey,
                model::names_of(named_view(props@)),
            ).writer,
            final(self).store() == old(self).store(),
            props::props_view(r) == model::keyed(
                old(self)@.intern_all(
                    SchemaKind::PropertyKey,
                    model::names_of(named_view(props@)),
                ).ids,
                model::values_of(named_view(props@)),
            ),
    {
        let ghost w = self@;
        let ghost names = model::names_of(named_view(props@));
        let ghost values = model::values_of(named_view(props@));
        let ghost given = props@;
        let mut keyed: EdgeProps = EdgeProps::new();
        proof {
            assert(props::props_view(keyed) =~= model::keyed(Seq::empty(), values.take(0)));
        }
        for prop in it: props
            invariant
                it.seq() == given,
                names == model::names_of(named_view(given)),
                values == model::values_of(named_view(given)),
                w.can_intern_all(SchemaKind::PropertyKey, names),
                self@ == w.intern_all(
                    SchemaKind::PropertyKey,
                    names.take(it.index()),
                ).writer,
                self.store() == old(self).store(),
                props::props_view(keyed) == model::keyed(
                    w.intern_all(SchemaKind::PropertyKey, names.take(it.index())).ids,
                    values.take(it.index()),
                ),
        {
            let ghost i = it.index();
            let ghost most = w.intern_all(SchemaKind::PropertyKey, names.take(i));
            let ghost before = props::props_view(keyed);
            let (name, value) = prop;
            proof {
                assert(names.take(i + 1).drop_last() =~= names.take(i));
                assert(names.take(i + 1).last() == name@);
                lemma_intern_all(w, SchemaKind::PropertyKey, names.take(i));
                lemma_intern_prefix(w, SchemaKind::PropertyKey, names, i + 1);
            }
            let id: u32 = self.intern(SchemaKind::PropertyKey, name.as_str());
            let ghost held = value@;
            keyed.insert(id, value);
            proof {
                assert(props::props_view(keyed) =~= before.insert(id, held));
                lemma_keyed_push(most.ids, values.take(i), id, held);
                assert(values.take(i + 1) =~= values.take(i).push(held));
            }
        }
        proof {
            assert(names.take(given.len() as int) =~= names);
            assert(values.take(given.len() as int) =~= values);
        }
        keyed
    }

    /// Turns the operations of a write into its batch, under the next sequence number. What is
    /// owed to the store goes among them: what this write drew at its places, what earlier writes
    /// drew first.
    fn commit(&mut self, ops: Vec<RecordOp>, places: Vec<usize>, change: ChangeRecord) -> (r:
        Batch)
        requires
            old(self)@.allocs.seq.can_advance(),
            change::change_encodable(change@),
        ensures
            final(self)@ == old(self)@.commit(
                store::ops_view(ops@),
                places_view(places@),
                change@,
            ).0,
            final(self).store() == old(self).store(),
            r@ == old(self)@.commit(store::ops_view(ops@), places_view(places@), change@).1,
    {
        let ghost given = store::ops_view(ops@);
        let ghost at = places_view(places@);
        let mut change = change;
        let mut all = weave(store::copy_ops(&self.owed), ops, places);
        let (raw, block) = self.allocs.next_seq();
        let seq: u64 = raw + 1;
        if let Some((key, value)) = &block {
            store::push_put(&mut all, Key::Block(key.clone()), value.clone());
        }
        store::push_reservation(&mut self.owed, block);
        let ghost described = change@;
        change.seq = seq;
        proof {
            assert(change@ == ChangeView { seq, ..described });
            lemma_change_len(described, seq);
        }
        store::push_put(&mut all, Key::Log(seq), change.encode());
        store::push_put(&mut all, store::latest_seq_key(), fixed::encode_u64_le(seq));
        self.in_flight = Some(InFlight { seq, sent: self.owed.len() });
        proof {
            assert(store::ops_view(all@) =~= old(self)@.commit(given, at, described).1.ops);
        }
        Batch { ops: all, options: WriteOptions { await_durable: true, seqnum: seq } }
    }

    /// Takes note of how a batch was applied. Once it is committed, the cursor moves to its
    /// sequence number, and what it held of the operations owed is settled. If it failed, the
    /// cursor stays, and all that is owed goes into the next batch too.
    pub fn settle(&mut self, seq: u64, applied: Result<(), Error>) -> (r: Result<u64, Error>)
        requires
            old(self)@.latest_seq <= seq <= old(self)@.allocs.seq.next,
        ensures
            final(self)@ == old(self)@.settle(seq, error::result_view(applied)),
            final(self).store() == old(self).store(),
            r == match applied {
                Ok(_) => Ok::<u64, Error>(seq),
                Err(e) => Err(e),
            },
    {
        let sent: Option<usize> = match self.in_flight {
            Some(f) => if f.seq == seq && f.sent <= self.owed.len() {
                Some(f.sent)
            } else {
                None
            },
            None => None,
        };
        if sent.is_some() {
            self.in_flight = None;
        }
        match applied {
            Err(e) => Err(e),
            Ok(_) => {
                self.latest_seq = seq;
                if let Some(n) = sent {
                    let rest = self.owed.split_off(n);
                    self.owed = rest;
                    proof {
                        assert(self@.owed =~= old(self)@.owed.skip(n as int));
                    }
                }
                Ok(seq)
            },
        }
    }

    /// How many operations are owed to the store: the records of names and blocks that no applied
    /// batch has held yet.
    pub fn owed_len(&self) -> (r: usize)
        ensures
            r == self@.owed.len(),
    {
        self.owed.len()
    }

    /// The uid of `xid`, given what is stored for it: the stored one, or else a new one, with the
    /// operation that maps it.
    pub fn resolve_or_create_xid(&mut self, xid: &[u8], stored: Option<Bytes>) -> (r: Result<
        Resolution,
        Error,
    >)
        requires
            stored is None ==> old(self)@.allocs.uid.can_advance(),
        ensures
            final(self)@ == old(self)@.resolve(xid@, stored_view(stored)).0,
            final(self).store() == old(self).store(),
            match old(self)@.resolve(xid@, stored_view(stored)).1 {
                Ok(v) => r is Ok && r->Ok_0@ == v,
                Err(e) => error::fails(r, e),
            },
    {
        let mut ops: Vec<RecordOp> = Vec::new();
        let mut places: Vec<usize> = Vec::new();
        proof {
            assert(store::ops_view(ops@) =~= Seq::empty());
            assert(places_view(places@) =~= Seq::empty());
        }
        match self.lookup_uid(stored) {
            Err(e) => Err(e),
            Ok(Some(uid)) => Ok(Resolution { uid, ops, places }),
            Ok(None) => {
                let earlier: usize = self.owed.len();
                let (uid, block) = self.allocs.allocate_uid();
                store::push_reservation(&mut self.owed, block);
                push_places(&mut places, self.owed.len() - earlier, 0);
                store::push_put(
                    &mut ops,
                    Key::Xid(Bytes::copy_from_slice(xid)),
                    fixed::encode_u64_be(uid.get()),
                );
                proof {
                    assert(store::ops_view(ops@) =~= old(self)@.resolve(
                        xid@,
                        stored_view(stored),
                    ).1->Ok_0.ops);
                    assert(places_view(places@) =~= old(self)@.resolve(
                        xid@,
                        stored_view(stored),
                    ).1->Ok_0.places);
                }
                Ok(Resolution { uid, ops, places })
            },
        }
    }

    /// The uid of an edge's endpoint, given what is stored for its external id. An endpoint that
    /// is new gets a node record that holds nothing but the external id.
    pub fn resolve_and_stub_node(
        &mut self,
        xid: &[u8],
        stored: Option<Bytes>,
        ops: &mut Vec<RecordOp>,
        places: &mut Vec<usize>,
    ) -> (r: Result<Uid, Error>)
        requires
            stored is None ==> old(self)@.allocs.uid.can_advance(),
            xid@.len() + 8 <= buffer::buffer_limit(),
        ensures
            final(self)@ == old(self)@.resolve_and_stub(xid@, stored_view(stored)).0,
            final(self).store() == old(self).store(),
            match old(self)@.resolve_and_stub(xid@, stored_view(stored)).1 {
                Ok(v) => r == Ok::<Uid, Error>(v.uid) && store::ops_view(final(ops)@)
                    == store::ops_view(old(ops)@) + v.ops,
                Err(e) => error::fails(r, e) && store::ops_view(final(ops)@)
                    == store::ops_view(old(ops)@) + model::resolved_ops(
                    old(self)@.resolve(xid@, stored_view(stored)).1,
                ),
            },
            places_view(final(places)@) == places_view(old(places)@) + model::copies(
                model::resolved_places(old(self)@.resolve(xid@, stored_view(stored)).1).len(),
                old(ops)@.len(),
            ),
    {
        let ghost unresolved = store::ops_view(ops@);
        proof {
            assert(unresolved + Seq::<OpView>::empty() =~= unresolved);
            assert(places_view(places@) + model::copies(0, ops@.len()) =~= places_view(places@));
        }
        let resolved = match self.resolve_or_create_xid(xid, stored) {
            Err(e) => {
                return Err(e);
            },
            Ok(resolved) => resolved,
        };
        let uid = resolved.uid;
        let is_new = resolved.ops.len() > 0;
        let ghost start = store::ops_view(ops@);
        let ghost found = resolved@;
        push_places(places, resolved.places.len(), ops.len());
        store::push_all(ops, resolved.ops);
        if is_new {
            let name = match xid_utf8(xid) {
                Err(e) => {
                    return Err(e);
                },
                Ok(name) => name,
            };
            let stub = NodeRecord { labels: Vec::new(), props: EdgeProps::new(), xid: name };
            proof {
                assert(props::props_view(stub.props) =~= Map::empty());
                assert(stub@ == model::stub(name@));
                vstd::utf8::decode_utf8_encode_utf8(xid@);
                lemma_stub_len(name@);
            }
            match V0NodeCodec::encode(&stub) {
                Err(e) => {
                    return Err(e);
                },
                Ok(encoded) => {
                    store::push_put(ops, Key::Node(uid), encoded);
                    proof {
                        let put = model::node_put(uid, stub@)->Ok_0;
                        assert(store::ops_view(ops@) =~= start + found.ops.push(put));
                    }
                },
            }
        }
        Ok(uid)
    }

    /// Prepares a node upsert: interns the names and merges the labels and properties into the
    /// record that was read.
    pub fn draft_node(
        &mut self,
        xid: &[u8],
        labels: &[String],
        props: Vec<(String, TypedValue)>,
        resolved: Resolution,
        prior: Result<Option<Bytes>, Error>,
    ) -> (r: Result<NodeDraft, Error>)
        requires
            old(self)@.can_draft_node(texts(labels@), named_view(props@)),
        ensures
            final(self)@ == old(self)@.draft_node(
                xid@,
                texts(labels@),
                named_view(props@),
                resolved@,
                read_view(prior),
            ).0,
            final(self).store() == old(self).store(),
            match old(self)@.draft_node(
                xid@,
                texts(labels@),
                named_view(props@),
                resolved@,
                read_view(prior),
            ).1 {
                Ok(v) => r is Ok && r->Ok_0@ == v && v.wf(),
                Err(e) => error::fails(r, e),
            },
    {
        let uid = resolved.uid;
        let ops = resolved.ops;
        let mut places = resolved.places;
        let earlier: usize = self.owed.len();
        proof {
            lemma_owed_grows(self@, SchemaKind::Label, texts(labels@));
        }
        let label_ids = self.intern_labels(labels);
        proof {
            lemma_owed_grows(self@, SchemaKind::PropertyKey, model::names_of(named_view(props@)));
        }
        let new_props = self.intern_props(props);
        push_places(&mut places, self.owed.len() - earlier, ops.len());
        let before = match prior {
            Err(e) => {
                return Err(e);
            },
            Ok(stored) => match self.get_node(stored) {
                Err(e) => {
                    return Err(e);
                },
                Ok(before) => before,
            },
        };
        let name = match xid_utf8(xid) {
            Err(e) => {
                return Err(e);
            },
            Ok(name) => name,
        };
        let ghost given = label_ids@.to_set();
        let ghost had = merge::labels_before(merge::prior_view(before));
        let (record, delta) = merge::merge_node_record(before, label_ids, new_props, name);
        proof {
            merge::lemma_sorted_len(given.difference(had), had.union(given), 0x1_0000_0000);
        }
        Ok(NodeDraft { uid, ops, places, record, delta })
    }

    /// Upserts a node: its record and changelog entry, as one batch. A record whose encoding is
    /// over the cap is refused, and then nothing has changed.
    pub fn upsert_node(&mut self, draft: NodeDraft) -> (r: Result<Batch, Error>)
        requires
            node::node_bytes(draft.record@).len() <= node::DEFAULT_NODE_SIZE_CAP ==> old(
                self,
            )@.allocs.seq.can_advance(),
            node::node_encodable(draft.record@),
            draft@.wf(),
        ensures
            final(self)@ == old(self)@.upsert_node(draft@).0,
            final(self).store() == old(self).store(),
            match old(self)@.upsert_node(draft@).1 {
                Ok(v) => r is Ok && r->Ok_0@ == v,
                Err(e) => error::fails(r, e),
            },
    {
        let encoded = match V0NodeCodec::encode(&draft.record) {
            Err(e) => {
                return Err(e);
            },
            Ok(encoded) => encoded,
        };
        let uid = draft.uid;
        let ghost d = draft@;
        let mut ops = draft.ops;
        store::push_put(&mut ops, Key::Node(uid), encoded);
        let change = ChangeRecord {
            seq: 0,
            op: ChangeOp::UpsertNode,
            subject_uid: uid,
            pred_id: None,
            object_uid: None,
            value: None,
            label_delta: Some(draft.delta),
        };
        proof {
            let put = model::node_put(uid, d.record)->Ok_0;
            assert(store::ops_view(ops@) =~= d.ops.push(put));
            assert(change@ == model::node_change(ChangeOp::UpsertNode, uid, Some(d.delta)));
            lemma_capped_change(d);
        }
        Ok(self.commit(ops, draft.places, change))
    }

    /// Gives the endpoints and the predicate of an edge their ids, given what is stored for the
    /// endpoints' external ids.
    pub fn draft_edge(
        &mut self,
        src_xid: &[u8],
        src_stored: Option<Bytes>,
        pred: &str,
        dst_xid: &[u8],
        dst_stored: Result<Option<Bytes>, Error>,
    ) -> (r: Result<EdgeDraft, Error>)
        requires
            old(self)@.can_resolve_ends(stored_view(src_stored), read_view(dst_stored)),
            old(self)@.can_intern(SchemaKind::Predicate, pred@),
            src_xid@.len() + 8 <= buffer::buffer_limit(),
            dst_xid@.len() + 8 <= buffer::buffer_limit(),
        ensures
            final(self)@ == old(self)@.draft_edge(
                src_xid@,
                stored_view(src_stored),
                pred@,
                dst_xid@,
                read_view(dst_stored),
            ).0,
            final(self).store() == old(self).store(),
            match old(self)@.draft_edge(
                src_xid@,
                stored_view(src_stored),
                pred@,
                dst_xid@,
                read_view(dst_stored),
            ).1 {
                Ok(v) => r is Ok && r->Ok_0@ == v,
                Err(e) => error::fails(r, e),
            },
    {
        let mut ops: Vec<RecordOp> = Vec::new();
        let mut places: Vec<usize> = Vec::new();
        proof {
            assert(store::ops_view(ops@) =~= Seq::empty());
            assert(places_view(places@) =~= Seq::empty());
        }
        let src = match self.resolve_and_stub_node(src_xid, src_stored, &mut ops, &mut places) {
            Err(e) => {
                return Err(e);
            },
            Ok(src) => src,
        };
        let stored = match dst_stored {
            Err(e) => {
                return Err(e);
            },
            Ok(stored) => stored,
        };
        let dst = match self.resolve_and_stub_node(dst_xid, stored, &mut ops, &mut places) {
            Err(e) => {
                return Err(e);
            },
            Ok(dst) => dst,
        };
        let earlier: usize = self.owed.len();
        let pred_id = PredId(self.intern(SchemaKind::Predicate, pred));
        push_places(&mut places, self.owed.len() - earlier, ops.len());
        let draft = EdgeDraft { src, pred: pred_id, dst, ops, places };
        proof {
            let goal = old(self)@.draft_edge(
                src_xid@,
                stored_view(src_stored),
                pred@,
                dst_xid@,
                read_view(dst_stored),
            ).1->Ok_0;
            assert(draft@.ops =~= goal.ops);
            assert(draft@.places =~= goal.places);
        }
        Ok(draft)
    }

    /// Upserts an edge: both postings, both degrees and the changelog entry, as one batch. The
    /// properties that the edge may have stay as they are. `out_ops` add the target to the
    /// source's posting, `in_ops` the source to the target's.
    pub fn upsert_edge(
        &mut self,
        draft: EdgeDraft,
        out_ops: Vec<RecordOp>,
        in_ops: Vec<RecordOp>,
    ) -> (r: Batch)
        requires
            old(self)@.allocs.seq.can_advance(),
        ensures
            final(self)@ == old(self)@.upsert_edge(
                draft@,
                store::ops_view(out_ops@),
                store::ops_view(in_ops@),
            ).0,
            final(self).store() == old(self).store(),
            r@ == old(self)@.upsert_edge(
                draft@,
                store::ops_view(out_ops@),
                store::ops_view(in_ops@),
            ).1,
    {
        let none: EdgeProps = EdgeProps::new();
        proof {
            assert(props::props_view(none) =~= Map::empty());
            props::lemma_empty_props_len();
        }
        self.upsert_edge_inner(draft, out_ops, in_ops, none, 0)
    }

    /// Upserts an edge with properties: as [`Writer::upsert_edge`], and if there are any
    /// properties they become those of the edge, in the same batch.
    pub fn upsert_edge_with_props(
        &mut self,
        draft: EdgeDraft,
        out_ops: Vec<RecordOp>,
        in_ops: Vec<RecordOp>,
        props: Vec<(String, TypedValue)>,
    ) -> (r: Batch)
        requires
            old(self)@.allocs.seq.can_advance(),
            old(self)@.can_intern_all(
                SchemaKind::PropertyKey,
                model::names_of(named_view(props@)),
            ),
            props::props_encodable(old(self)@.edge_props(named_view(props@))),
        ensures
            final(self)@ == old(self)@.upsert_edge_with_props(
                draft@,
                store::ops_view(out_ops@),
                store::ops_view(in_ops@),
                named_view(props@),
            ).0,
            final(self).store() == old(self).store(),
            r@ == old(self)@.upsert_edge_with_props(
                draft@,
                store::ops_view(out_ops@),
                store::ops_view(in_ops@),
                named_view(props@),
            ).1,
    {
        proof {
            lemma_intern_all(
                self@,
                SchemaKind::PropertyKey,
                model::names_of(named_view(props@)),
            );
        }
        let earlier: usize = self.owed.len();
        proof {
            lemma_owed_grows(self@, SchemaKind::PropertyKey, model::names_of(named_view(props@)));
        }
        let keyed = self.intern_props(props);
        let fresh: usize = self.owed.len() - earlier;
        self.upsert_edge_inner(draft, out_ops, in_ops, keyed, fresh)
    }

    /// Upserts an edge whose properties are under the ids of their names already. The names made
    /// `fresh` records owed.
    fn upsert_edge_inner(
        &mut self,
        draft: EdgeDraft,
        out_ops: Vec<RecordOp>,
        in_ops: Vec<RecordOp>,
        edge_props: EdgeProps,
        fresh: usize,
    ) -> (r: Batch)
        requires
            old(self)@.allocs.seq.can_advance(),
            props::props_encodable(props::props_view(edge_props)),
        ensures
            final(self)@ == old(self)@.upsert_edge_inner(
                draft@,
                store::ops_view(out_ops@),
                store::ops_view(in_ops@),
                props::props_view(edge_props),
                fresh as nat,
            ).0,
            final(self).store() == old(self).store(),
            r@ == old(self)@.upsert_edge_inner(
                draft@,
                store::ops_view(out_ops@),
                store::ops_view(in_ops@),
                props::props_view(edge_props),
                fresh as nat,
            ).1,
    {
        let ghost d = draft@;
        let ghost given = (store::ops_view(out_ops@), store::ops_view(in_ops@));
        let EdgeDraft { src, pred, dst, ops, places } = draft;
        let mut ops = ops;
        let mut places = places;
        store::push_all(&mut ops, out_ops);
        store::push_all(&mut ops, in_ops);
        store::push_op(&mut ops, store::bump_degree(pred, Direction::Out, src, 1));
        store::push_op(&mut ops, store::bump_degree(pred, Direction::In, dst, 1));
        let ghost plain = d.ops + given.0 + given.1 + model::degree_ops(src, pred, dst, 1);
        push_places(&mut places, fresh, ops.len());
        proof {
            assert(store::ops_view(ops@) =~= plain);
            assert(ops@.len() == store::ops_view(ops@).len());
            assert(places_view(places@) =~= model::edge_places(d, given.0, given.1, fresh as nat));
            if props::props_view(edge_props).is_empty() {
                assert forall|k: PropId| !edge_props@.contains_key(k) by {
                    assert(!props::props_view(edge_props).contains_key(k));
                }
                assert(edge_props@.is_empty());
            } else {
                if edge_props@.is_empty() {
                    assert(props::props_view(edge_props) =~= Map::empty());
                }
            }
        }
        if !edge_props.is_empty() {
            store::push_put(
                &mut ops,
                Key::EdgeProp(src, pred, dst),
                props::encode_edge_props(&edge_props),
            );
            proof {
                assert(store::ops_view(ops@) =~= plain.push(
                    model::edge_prop_put(src, pred, dst, props::props_view(edge_props)),
                ));
            }
        }
        let change = ChangeRecord {
            seq: 0,
            op: ChangeOp::UpsertEdge,
            subject_uid: src,
            pred_id: Some(pred),
            object_uid: Some(dst),
            value: None,
            label_delta: None,
        };
        proof {
            assert(change@ == model::edge_change(ChangeOp::UpsertEdge, src, pred, dst));
            lemma_plain_change(change@);
        }
        self.commit(ops, places, change)
    }

    /// The follow-up to an edge upsert, if there is one: what splits the postings of either end
    /// goes to the store as one batch that has no sequence number.
    pub fn split_batch(&self, out_ops: Vec<RecordOp>, in_ops: Vec<RecordOp>) -> (r: Option<
        Vec<RecordOp>,
    >)
        ensures
            out_ops@.len() + in_ops@.len() == 0 ==> r is None,
            out_ops@.len() + in_ops@.len() > 0 ==> r is Some && store::ops_view(r->Some_0@)
                == store::ops_view(out_ops@) + store::ops_view(in_ops@),
    {
        let mut ops = out_ops;
        store::push_all(&mut ops, in_ops);
        if ops.len() == 0 {
            return None;
        }
        Some(ops)
    }

    /// Deletes a node, given what is stored for its external id. Nothing stored, nothing to do.
    pub fn delete_node(&mut self, stored: Option<Bytes>) -> (r: Result<Step, Error>)
        requires
            model::mapped_uid(stored_view(stored)) matches Ok(Some(_)) ==> old(
                self,
            )@.allocs.seq.can_advance(),
        ensures
            final(self)@ == old(self)@.delete_node(stored_view(stored)).0,
            final(self).store() == old(self).store(),
            match old(self)@.delete_node(stored_view(stored)).1 {
                Ok(v) => r is Ok && r->Ok_0@ == v,
                Err(e) => error::fails(r, e),
            },
    {
        let uid = match self.lookup_uid(stored) {
            Err(e) => {
                return Err(e);
            },
            Ok(None) => {
                return Ok(Step::Done(self.latest_seq));
            },
            Ok(Some(uid)) => uid,
        };
        let ops = vec![RecordOp::DeleteNode { uid }];
        let change = ChangeRecord {
            seq: 0,
            op: ChangeOp::DeleteNode,
            subject_uid: uid,
            pred_id: None,
            object_uid: None,
            value: None,
            label_delta: None,
        };
        proof {
            assert(store::ops_view(ops@) =~= seq![OpView::DeleteNode { uid }]);
            assert(change@ == model::node_change(ChangeOp::DeleteNode, uid, None));
            lemma_plain_change(change@);
        }
        Ok(Step::Apply(self.commit(ops, no_places(), change)))
    }

    /// Deletes an edge, given what is stored for its endpoints' external ids. There is nothing to
    /// do if either end, or the predicate, is unknown.
    pub fn delete_edge(
        &mut self,
        src_stored: Option<Bytes>,
        pred: &str,
        dst_stored: Option<Bytes>,
    ) -> (r: Result<Step, Error>)
        requires
            old(self)@.deletes_edge(
                stored_view(src_stored),
                pred@,
                stored_view(dst_stored),
            ) ==> old(self)@.allocs.seq.can_advance(),
        ensures
            final(self)@ == old(self)@.delete_edge(
                stored_view(src_stored),
                pred@,
                stored_view(dst_stored),
            ).0,
            final(self).store() == old(self).store(),
            match old(self)@.delete_edge(
                stored_view(src_stored),
                pred@,
                stored_view(dst_stored),
            ).1 {
                Ok(v) => r is Ok && r->Ok_0@ == v,
                Err(e) => error::fails(r, e),
            },
    {
        let src = match self.lookup_uid(src_stored) {
            Err(e) => {
                return Err(e);
            },
            Ok(src) => src,
        };
        let dst = match self.lookup_uid(dst_stored) {
            Err(e) => {
                return Err(e);
            },
            Ok(dst) => dst,
        };
        let (src, dst) = match (src, dst) {
            (Some(src), Some(dst)) => (src, dst),
            _ => {
                return Ok(Step::Done(self.latest_seq));
            },
        };
        let pred = match self.schema_id(SchemaKind::Predicate, pred) {
            None => {
                return Ok(Step::Done(self.latest_seq));
            },
            Some(id) => PredId(id),
        };
        let ops = vec![
            RecordOp::DeleteEdge { pred, anchor: src, other: dst },
            RecordOp::DeleteEdge { pred, anchor: dst, other: src },
            store::bump_degree(pred, Direction::Out, src, -1),
            store::bump_degree(pred, Direction::In, dst, -1),
            RecordOp::Delete { key: Key::EdgeProp(src, pred, dst) },
        ];
        let change = ChangeRecord {
            seq: 0,
            op: ChangeOp::DeleteEdge,
            subject_uid: src,
            pred_id: Some(pred),
            object_uid: Some(dst),
            value: None,
            label_delta: None,
        };
        proof {
            assert(store::ops_view(ops@) =~= model::delete_edge_ops(src, pred, dst));
            assert(change@ == model::edge_change(ChangeOp::DeleteEdge, src, pred, dst));
            lemma_plain_change(change@);
        }
        Ok(Step::Apply(self.commit(ops, no_places(), change)))
    }

    /// A writer over a store, from the id spaces and names that were loaded and the stored cursor.
    pub fn from_storage(
        storage: S,
        allocs: GraphAllocators,
        schema: SchemaCache,
        latest: Option<Bytes>,
    ) -> (r: Result<Writer<S>, Error>)
        ensures
            match model::read_cursor(stored_view(latest)) {
                Ok(seq) => r is Ok && r->Ok_0@ == (WriterView {
                    allocs: allocs@,
                    schema: schema@,
                    latest_seq: seq,
                    owed: Seq::empty(),
                    in_flight: None,
                }) && r->Ok_0.store() == storage,
                Err(e) => error::fails(r, e),
            },
    {
        let latest_seq: u64 = match latest {
            None => 0,
            Some(bytes) => match fixed::decode_u64_le(
                buffer::as_slice(&bytes),
                "Meta[latest_seq]",
            ) {
                Err(e) => {
                    return Err(e);
                },
                Ok(seq) => seq,
            },
        };
        let owed: Vec<RecordOp> = Vec::new();
        proof {
            assert(store::ops_view(owed@) =~= Seq::empty());
        }
        Ok(Writer { storage, allocs, schema, latest_seq, owed, in_flight: None })
    }

    /// The store that this writer was made for.
    pub fn storage(&self) -> (r: &S)
        ensures
            *r == self.store(),
    {
        &self.storage
    }

    /// The highest sequence number that is known to be committed.
    pub fn latest_seq(&self) -> (r: u64)
        ensures
            r == self@.latest_seq,
    {
        self.latest_seq
    }

    /// The id of a name, if this writer knows it.
    pub fn schema_id(&self, kind: SchemaKind, name: &str) -> (r: Option<u32>)
        ensures
            r == if self@.schema.contains_key((kind, name@)) {
                Some(self@.schema[(kind, name@)])
            } else {
                None
            },
    {
        self.schema.id_of(kind, name)
    }

    /// Whether that many new names of each kind and new uids, and one sequence number, are within
    /// range.
    pub fn has_room(&self, labels: usize, preds: usize, props: usize, uids: usize) -> (r: bool)
        ensures
            r == self@.allocs.has_room(labels as nat, preds as nat, props as nat, uids as nat),
    {
        self.allocs.has_room(labels, preds, props, uids)
    }

    /// The uid that the stored mapping of an external id holds.
    pub fn lookup_uid(&self, stored: Option<Bytes>) -> (r: Result<Option<Uid>, Error>)
        ensures
            error::agrees(r, model::mapped_uid(stored_view(stored))),
    {
        match stored {
            None => Ok(None),
            Some(bytes) => match fixed::decode_u64_be(buffer::as_slice(&bytes), "Xid mapping") {
                Err(e) => Err(e),
                Ok(v) => Ok(Some(Uid(v))),
            },
        }
    }

    /// The node that a stored record holds.
    pub fn get_node(&self, stored: Option<Bytes>) -> (r: Result<Option<NodeRecord>, Error>)
        ensures
            match model::read_node(stored_view(stored)) {
                Ok(n) => r is Ok && merge::prior_view(r->Ok_0) == n,
                Err(e) => error::fails(r, e),
            },
    {
        match stored {
            None => Ok(None),
            Some(bytes) => match V0NodeCodec::decode(buffer::as_slice(&bytes)) {
                Err(e) => Err(e),
                Ok(n) => Ok(Some(n)),
            },
        }
    }

    /// The properties of an edge that a stored record holds.
    pub fn edge_props(&self, stored: Option<Bytes>) -> (r: Result<Option<EdgeProps>, Error>)
        ensures
            match model::read_edge_props(stored_view(stored)) {
                Ok(Some(m)) => r is Ok && r->Ok_0 is Some && props::props_view(r->Ok_0->Some_0)
                    == m,
                Ok(None) => r == Ok::<Option<EdgeProps>, Error>(None),
                Err(e) => error::fails(r, e),
            },
    {
        match stored {
            None => Ok(None),
            Some(bytes) => match props::decode_edge_props(buffer::as_slice(&bytes)) {
                Err(e) => Err(e),
                Ok(m) => Ok(Some(m)),
            },
        }
    }

    /// The degree that a stored counter holds. One that was never written stands at 0.
    pub fn degree(&self, stored: Option<Bytes>) -> (r: Result<i64, Error>)
        ensures
            error::agrees(r, model::read_degree(stored_view(stored))),
    {
        match stored {
            None => Ok(0),
            Some(bytes) => fixed::decode_i64_le(buffer::as_slice(&bytes), "degree counter"),
        }
    }

    /// The live neighbours in a posting, from which deleted edges are gone already, given the
    /// stored set of deleted nodes.
    pub fn neighbors(&self, posting: RoaringTreemap, deleted: Option<Bytes>) -> (r: Result<
        RoaringTreemap,
        Error,
    >)
        ensures
            match bitmap::read_members(stored_view(deleted), "deleted_nodes") {
                Ok(gone) => r is Ok && bitmap::members(r->Ok_0) == bitmap::members(
                    posting,
                ).difference(gone),
                Err(e) => error::fails(r, e),
            },
            match deleted {
                None => r is Ok && bitmap::members(r->Ok_0) == bitmap::members(posting),
                Some(b) => match bitmap::stored_members(buffer::content(b)) {
                    Ok(gone) => r is Ok && forall|u: u64| #[trigger]
                        bitmap::members(r->Ok_0).contains(u) == (bitmap::members(posting).contains(
                            u,
                        ) && !gone.contains(u)),
                    Err(cause) => error::fails(
                        r,
                        ErrorView::Encoding(
                            FaultView::CorruptBitmap { what: "deleted_nodes", cause },
                        ),
                    ),
                },
            },
    {
        match bitmap::read_bitmap(&deleted, "deleted_nodes") {
            Err(e) => Err(e),
            Ok(gone) => Ok(bitmap::without(posting, &gone)),
        }
    }
}

/// Whether named values can be encoded as the properties of an edge.
pub fn named_fit(props: &Vec<(String, TypedValue)>) -> (r: bool)
    ensures
        r == model::named_fit(named_view(props@)),
{
    if props.len() > 0xffff {
        return false;
    }
    let ghost named = named_view(props@);
    let mut total: u128 = 2;
    let mut i: usize = 0;
    while i < props.len()
        invariant
            i <= props.len() <= 0xffff,
            named == named_view(props@),
            total == 2 + model::named_len(named.take(i as int)),
            total <= 2 + i * (usize::MAX as u128 + 0x100),
        decreases props.len() - i,
    {
        proof {
            let step = usize::MAX as u128 + 0x100;
            assert(named.take(i + 1).drop_last() =~= named.take(i as int));
            assert(named.take(i + 1).last() == named[i as int]);
            assert((i + 1) * step == i * step + step) by (nonlinear_arith);
            assert((i + 1) * step <= 0x1_0000 * step) by (nonlinear_arith)
                requires
                    i + 1 <= 0x1_0000,
                    step >= 0,
            ;
        }
        total = total + 4 + props[i].1.encoded_len();
        i += 1;
    }
    proof {
        assert(named.take(i as int) =~= named);
    }
    total <= (isize::MAX / 2) as u128
}

/// The external id as text.
pub fn xid_utf8(xid: &[u8]) -> (r: Result<String, Error>)
    ensures
        match model::xid_text(xid@) {
            Ok(t) => r is Ok && r->Ok_0@ == t,
            Err(e) => error::fails(r, e),
        },
{
    match text::utf8_text(xid) {
        Ok(t) => Ok(t),
        Err(cause) => Err(Error::Encoding(Fault::XidNotUtf8 { cause })),
    }
}

/// What interning several names does to the id spaces.
pub proof fn lemma_intern_all(w: WriterView, kind: SchemaKind, names: Seq<Seq<char>>)
    ensures
        ({
            let all = w.intern_all(kind, names);
            &&& all.ids.len() == names.len()
            &&& all.writer.allocs.space(kind).next <= w.allocs.space(kind).next + names.len()
            &&& all.writer.allocs.uid == w.allocs.uid
            &&& all.writer.allocs.seq == w.allocs.seq
            &&& kind != SchemaKind::Label ==> all.writer.allocs.label == w.allocs.label
            &&& kind != SchemaKind::Predicate ==> all.writer.allocs.pred == w.allocs.pred
            &&& kind != SchemaKind::PropertyKey ==> all.writer.allocs.prop == w.allocs.prop
            &&& all.writer.latest_seq == w.latest_seq
        }),
    decreases names.len(),
{
    if names.len() > 0 {
        lemma_intern_all(w, kind, names.drop_last());
    }
}

/// Interning names takes nothing off what is owed.
pub proof fn lemma_owed_grows(w: WriterView, kind: SchemaKind, names: Seq<Seq<char>>)
    ensures
        w.intern_all(kind, names).writer.owed.len() >= w.owed.len(),
    decreases names.len(),
{
    if names.len() > 0 {
        lemma_owed_grows(w, kind, names.drop_last());
    }
}

/// Interning more names hands out no fewer ids.
pub proof fn lemma_intern_prefix(w: WriterView, kind: SchemaKind, names: Seq<Seq<char>>, n: int)
    requires
        0 <= n <= names.len(),
    ensures
        w.allocs.space(kind).next <= w.intern_all(kind, names.take(n)).writer.allocs.space(
            kind,
        ).next <= w.intern_all(kind, names).writer.allocs.space(kind).next,
    decreases names.len(),
{
    if n == names.len() {
        assert(names.take(n) =~= names);
        if n > 0 {
            lemma_intern_prefix(w, kind, names.drop_last(), n - 1);
            assert(names.drop_last().take(n - 1) =~= names.drop_last());
        }
    } else {
        lemma_intern_prefix(w, kind, names.drop_last(), n);
        assert(names.drop_last().take(n) =~= names.take(n));
    }
}

proof fn lemma_keyed_push(ids: Seq<u32>, values: Seq<ValueView>, id: u32, value: ValueView)
    requires
        ids.len() == values.len(),
    ensures
        model::keyed(ids.push(id), values.push(value)) == model::keyed(ids, values).insert(
            id,
            value,
        ),
{
    let more = ids.push(id);
    let all = values.push(value);
    let pairs = Seq::new(more.len(), |i: int| (more[i], all[i]));
    assert(pairs.drop_last() =~= Seq::new(ids.len(), |i: int| (ids[i], values[i])));
}

pub proof fn lemma_stub_len(xid: Seq<char>)
    ensures
        node::node_bytes(model::stub(xid)).len() == vstd::utf8::encode_utf8(xid).len() + 8,
        node::node_encodable(model::stub(xid)) == (vstd::utf8::encode_utf8(xid).len() + 8
            <= buffer::buffer_limit()),
{
    let n = model::stub(xid);
    labels::lemma_labels_bytes_len(n.labels);
    crate::value::lemma_blob_bytes_len(vstd::utf8::encode_utf8(xid));
    props::lemma_empty_props_len();
    assert(node::node_bytes(n).len() == labels::labels_bytes(n.labels).len() + props::props_bytes(
        n.props,
    ).len() + crate::value::blob_bytes(vstd::utf8::encode_utf8(xid)).len());
}

/// A changelog record without value and labels can be encoded.
proof fn lemma_plain_change(c: ChangeView)
    requires
        c.value is None,
        c.label_delta is None,
    ensures
        change::change_encodable(c),
{
    endian::lemma_le_bytes_len(c.seq as nat, 8);
    endian::lemma_le_bytes_len(c.subject_uid.0 as nat, 8);
    if c.pred_id is Some {
        endian::lemma_le_bytes_len(c.pred_id->Some_0.0 as nat, 4);
    }
    if c.object_uid is Some {
        endian::lemma_le_bytes_len(c.object_uid->Some_0.0 as nat, 8);
    }
}

/// The changelog record of a node under the cap can be encoded.
proof fn lemma_capped_change(d: NodeDraftView)
    requires
        node::node_encodable(d.record),
        node::node_bytes(d.record).len() <= node::DEFAULT_NODE_SIZE_CAP,
        d.wf(),
    ensures
        change::change_encodable(
            model::node_change(ChangeOp::UpsertNode, d.uid, Some(d.delta)),
        ),
{
    endian::lemma_le_bytes_len(0, 8);
    endian::lemma_le_bytes_len(d.uid.0 as nat, 8);
    labels::lemma_labels_bytes_len(d.record.labels);
    labels::lemma_labels_bytes_len(d.delta.added);
    labels::lemma_labels_bytes_len(d.delta.removed);
}

/// The length of a changelog record does not depend on its sequence number.
proof fn lemma_change_len(c: ChangeView, seq: u64)
    ensures
        change::change_bytes(ChangeView { seq, ..c }).len() == change::change_bytes(c).len(),
{
    endian::lemma_le_bytes_len(c.seq as nat, 8);
    endian::lemma_le_bytes_len(seq as nat, 8);
}

} // verus!
