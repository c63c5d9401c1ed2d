//! Whole histories of a graph: calls that succeed, calls that are refused, batches that fail to be
//! applied, and restarts; and what holds after any of them.

use vstd::prelude::*;

use crate::bitmap;
use crate::change::{ChangeOp, ChangeView};
use crate::codec_laws;
use crate::coherence;
use crate::coherence::Space;
use crate::endian;
use crate::error::ErrorView;
use crate::fixed;
use crate::ids::{Direction, PredId, PropId, SchemaKind, Uid};
use crate::model;
use crate::model::{BatchView, EdgeDraftView, StepView, WriterView};
use crate::props;
use crate::store;
use crate::store::{KeyView, OpView, PayloadView};
use crate::store_laws;
use crate::value::ValueView;
use crate::weave_laws;
use crate::write_laws;

verus! {

/// A writer, and the operations that its store has applied since it was empty.
pub struct Graph {
    pub writer: WriterView,
    pub ops: Seq<OpView>,
}

impl Graph {
    /// What the store holds.
    pub open spec fn store(self) -> Map<KeyView, PayloadView> {
        store_laws::applied(Map::empty(), self.ops)
    }

    /// The bytes that the store holds under a key.
    pub open spec fn read(self, key: KeyView) -> Option<Seq<u8>> {
        store_laws::bytes_at(self.store(), key)
    }
}

/// A write as a caller asks for it, with what the store answers when it is read on the way.
pub enum Call {
    UpsertNode {
        xid: Seq<u8>,
        labels: Seq<Seq<char>>,
        props: Seq<(Seq<char>, ValueView)>,
        /// Whether the node that was there can be read.
        read: Result<(), ErrorView>,
    },
    UpsertEdge {
        src: Seq<u8>,
        pred: Seq<char>,
        dst: Seq<u8>,
        props: Seq<(Seq<char>, ValueView)>,
        /// Whether the mapping of the target can be read.
        read: Result<(), ErrorView>,
        /// The operations that add to the postings of the source and of the target.
        postings: Result<(Seq<OpView>, Seq<OpView>), ErrorView>,
    },
    DeleteNode { xid: Seq<u8> },
    DeleteEdge { src: Seq<u8>, pred: Seq<char>, dst: Seq<u8> },
}

/// Something that happens to a graph.
pub enum Event {
    /// A call is made, and its batch, if it comes to one, is applied or fails to be.
    Write { call: Call, applied: Result<(), ErrorView> },
    /// The writer is lost, and another one is opened over the store.
    Reopen { writer: WriterView },
}

/// A read that fails, or brings what the store holds.
pub open spec fn fetched(read: Result<(), ErrorView>, stored: Option<Seq<u8>>) -> Result<
    Option<Seq<u8>>,
    ErrorView,
> {
    match read {
        Ok(_) => Ok(stored),
        Err(e) => Err(e),
    }
}

/// The writer after a call, and the batch that the call comes to, if it does.
#[verifier::opaque]
pub open spec fn plan(g: Graph, call: Call) -> (WriterView, Option<BatchView>) {
    match call {
        Call::UpsertNode { xid, labels, props, read } => {
            let (w1, r) = g.writer.resolve(xid, g.read(KeyView::Xid(xid)));
            match r {
                Err(_) => (w1, None),
                Ok(found) => {
                    let prior = fetched(read, g.read(KeyView::Node(found.uid)));
                    let (w2, drafted) = w1.draft_node(xid, labels, props, found, prior);
                    match drafted {
                        Err(_) => (w2, None),
                        Ok(d) => {
                            let (w3, b) = w2.upsert_node(d);
                            match b {
                                Err(_) => (w3, None),
                                Ok(batch) => (w3, Some(batch)),
                            }
                        },
                    }
                },
            }
        },
        Call::UpsertEdge { src, pred, dst, props, read, postings } => {
            let (w1, drafted) = drafted_edge(g, src, pred, dst, read);
            match (drafted, postings) {
                (Ok(d), Ok(added)) => {
                    let (w2, batch) = w1.upsert_edge_with_props(d, added.0, added.1, props);
                    (w2, Some(batch))
                },
                _ => (w1, None),
            }
        },
        Call::DeleteNode { xid } => finished(g.writer.delete_node(g.read(KeyView::Xid(xid)))),
        Call::DeleteEdge { src, pred, dst } => finished(
            g.writer.delete_edge(g.read(KeyView::Xid(src)), pred, g.read(KeyView::Xid(dst))),
        ),
    }
}

/// An edge upsert as far as its ids.
pub open spec fn drafted_edge(
    g: Graph,
    src: Seq<u8>,
    pred: Seq<char>,
    dst: Seq<u8>,
    read: Result<(), ErrorView>,
) -> (WriterView, Result<EdgeDraftView, ErrorView>) {
    g.writer.draft_edge(
        src,
        g.read(KeyView::Xid(src)),
        pred,
        dst,
        fetched(read, g.read(KeyView::Xid(dst))),
    )
}

/// The batch that a deletion comes to, if it does.
pub open spec fn finished(step: (WriterView, Result<StepView, ErrorView>)) -> (
    WriterView,
    Option<BatchView>,
) {
    (
        step.0,
        match step.1 {
            Ok(StepView::Apply(batch)) => Some(batch),
            _ => None,
        },
    )
}

/// Whether there are uids for those ends of an edge that the store does not know.
pub open spec fn ends_in_range(
    g: Graph,
    src: Seq<u8>,
    dst: Seq<u8>,
    read: Result<(), ErrorView>,
) -> bool {
    g.writer.can_resolve_ends(
        g.read(KeyView::Xid(src)),
        fetched(read, g.read(KeyView::Xid(dst))),
    )
}

/// Whether a call stays within the ranges of ids and of length prefixes, and the postings keep to
/// their own keys.
pub open spec fn in_range(g: Graph, call: Call) -> bool {
    &&& plan(g, call).1 is Some ==> g.writer.allocs.seq.can_advance()
    &&& match call {
        Call::UpsertNode { xid, labels, props, read } => {
            &&& g.read(KeyView::Xid(xid)) is None ==> g.writer.allocs.uid.can_advance()
            &&& g.writer.can_draft_node(labels, props)
        },
        Call::UpsertEdge { src, pred, dst, props, read, postings } => {
            let w1 = drafted_edge(g, src, pred, dst, read).0;
            &&& ends_in_range(g, src, dst, read)
            &&& g.writer.can_intern(SchemaKind::Predicate, pred)
            &&& w1.can_intern_all(SchemaKind::PropertyKey, model::names_of(props))
            &&& codec_laws::props_fit(w1.edge_props(props))
            &&& postings matches Ok(added) ==> write_laws::on_postings(added.0)
                && write_laws::on_postings(added.1)
        },
        _ => true,
    }
}

/// Whether an event can happen to a graph.
pub open spec fn possible(g: Graph, e: Event) -> bool {
    match e {
        Event::Write { call, .. } => in_range(g, call),
        Event::Reopen { writer } => coherence::loaded(writer, g.store()) && coherence::same_keys(
            writer.allocs,
            g.writer.allocs,
        ),
    }
}

/// The graph after an event.
pub open spec fn after(g: Graph, e: Event) -> Graph {
    match e {
        Event::Write { call, applied } => match plan(g, call) {
            (w, None) => Graph { writer: w, ops: g.ops },
            (w, Some(batch)) => Graph {
                writer: w.settle(batch.seqnum, applied),
                ops: if applied is Ok {
                    g.ops + batch.ops
                } else {
                    g.ops
                },
            },
        },
        Event::Reopen { writer } => Graph { writer, ops: g.ops },
    }
}

/// The graph after events, one after the other.
pub open spec fn run(g: Graph, events: Seq<Event>) -> Graph
    decreases events.len(),
{
    if events.len() == 0 {
        g
    } else {
        after(run(g, events.drop_last()), events.last())
    }
}

/// Whether events can happen one after the other.
pub open spec fn possible_all(g: Graph, events: Seq<Event>) -> bool
    decreases events.len(),
{
    events.len() == 0 || (possible_all(g, events.drop_last()) && possible(
        run(g, events.drop_last()),
        events.last(),
    ))
}

/// A graph over an empty store, with a writer that has handed out nothing.
pub open spec fn is_new(g: Graph) -> bool {
    coherence::is_fresh(g.writer) && g.ops == Seq::<OpView>::empty()
}

// ---------------------------------------------------------------------------
// What a call comes to
// ---------------------------------------------------------------------------

/// The writer before the commit of a call, and the operations, the change and the places of records
/// that the call commits, if it comes to that.
#[verifier::opaque]
pub open spec fn prepared(g: Graph, call: Call) -> (
    WriterView,
    Option<(Seq<OpView>, ChangeView, Seq<nat>)>,
) {
    match call {
        Call::UpsertNode { xid, labels, props, read } => {
            let (w1, r) = g.writer.resolve(xid, g.read(KeyView::Xid(xid)));
            match r {
                Err(_) => (w1, None),
                Ok(found) => {
                    let prior = fetched(read, g.read(KeyView::Node(found.uid)));
                    let (w2, drafted) = w1.draft_node(xid, labels, props, found, prior);
                    match drafted {
                        Err(_) => (w2, None),
                        Ok(d) => match model::node_put(d.uid, d.record) {
                            Err(_) => (w2, None),
                            Ok(put) => (
                                w2,
                                Some(
                                    (
                                        d.ops.push(put),
                                        model::node_change(
                                            ChangeOp::UpsertNode,
                                            d.uid,
                                            Some(d.delta),
                                        ),
                                        d.places,
                                    ),
                                ),
                            ),
                        },
                    }
                },
            }
        },
        Call::UpsertEdge { src, pred, dst, props, read, postings } => {
            let (w1, drafted) = drafted_edge(g, src, pred, dst, read);
            match (drafted, postings) {
                (Ok(d), Ok(added)) => {
                    let w2 = w1.intern_all(SchemaKind::PropertyKey, model::names_of(props)).writer;
                    let fresh = (w2.owed.len() - w1.owed.len()) as nat;
                    (
                        w2,
                        Some(
                            (
                                model::edge_ops(d, added.0, added.1, w1.edge_props(props)),
                                model::edge_change(ChangeOp::UpsertEdge, d.src, d.pred, d.dst),
                                model::edge_places(d, added.0, added.1, fresh),
                            ),
                        ),
                    )
                },
                _ => (w1, None),
            }
        },
        Call::DeleteNode { xid } => (
            g.writer,
            match model::mapped_uid(g.read(KeyView::Xid(xid))) {
                Ok(Some(uid)) => Some(
                    (
                        seq![OpView::DeleteNode { uid }],
                        model::node_change(ChangeOp::DeleteNode, uid, None),
                        Seq::empty(),
                    ),
                ),
                _ => None,
            },
        ),
        Call::DeleteEdge { src, pred, dst } => (
            g.writer,
            match deleted_edge(g, src, pred, dst) {
                Some(edge) => Some(
                    (
                        model::delete_edge_ops(edge.0, edge.1, edge.2),
                        model::edge_change(ChangeOp::DeleteEdge, edge.0, edge.1, edge.2),
                        Seq::empty(),
                    ),
                ),
                None => None,
            },
        ),
    }
}

/// The edge that a deletion is about, if both its ends and its predicate are known.
pub open spec fn deleted_edge(g: Graph, src: Seq<u8>, pred: Seq<char>, dst: Seq<u8>) -> Option<
    (Uid, PredId, Uid),
> {
    match (
        model::mapped_uid(g.read(KeyView::Xid(src))),
        model::mapped_uid(g.read(KeyView::Xid(dst))),
    ) {
        (Ok(Some(s)), Ok(Some(d))) => if g.writer.schema.contains_key(
            (SchemaKind::Predicate, pred),
        ) {
            Some((s, PredId(g.writer.schema[(SchemaKind::Predicate, pred)]), d))
        } else {
            None
        },
        _ => None,
    }
}

/// What a call comes to is a commit of what it prepared.
pub proof fn lemma_plan_commits(g: Graph, call: Call)
    ensures
        plan(g, call) == match prepared(g, call) {
            (w, None) => (w, None),
            (w, Some(write)) => (
                w.commit(write.0, write.2, write.1).0,
                Some(w.commit(write.0, write.2, write.1).1),
            ),
        },
{
    reveal(plan);
    reveal(prepared);
}

/// A write's own operations stay so as more ids are handed out.
proof fn lemma_own_grows(w: WriterView, w2: WriterView, ops: Seq<OpView>)
    requires
        coherence::own(w, ops),
        w.allocs.uid.next <= w2.allocs.uid.next,
    ensures
        coherence::own(w2, ops),
{
    assert forall|i: int| 0 <= i < ops.len() implies coherence::own_op(w2, #[trigger] ops[i]) by {
        assert(coherence::own_op(w, ops[i]));
    }
}

proof fn lemma_own_add(w: WriterView, a: Seq<OpView>, b: Seq<OpView>)
    requires
        coherence::own(w, a),
        coherence::own(w, b),
    ensures
        coherence::own(w, a + b),
{
    assert forall|i: int| 0 <= i < (a + b).len() implies coherence::own_op(
        w,
        #[trigger] (a + b)[i],
    ) by {
        if i < a.len() {
            assert(coherence::own_op(w, a[i]));
        } else {
            assert(coherence::own_op(w, b[i - a.len()]));
        }
    }
}

proof fn lemma_resolution_is_own(w: WriterView, xid: Seq<u8>, stored: Option<Seq<u8>>)
    requires
        stored is None ==> w.allocs.uid.can_advance(),
    ensures
        w.allocs.uid.next <= w.resolve(xid, stored).0.allocs.uid.next,
        w.resolve(xid, stored).1 matches Ok(r) ==> coherence::own(
            w.resolve(xid, stored).0,
            r.ops,
        ),
        w.resolve_and_stub(xid, stored).1 matches Ok(r) ==> coherence::own(
            w.resolve(xid, stored).0,
            r.ops,
        ),
{
    let w1 = w.resolve(xid, stored).0;
    if stored is None {
        let n = w.allocs.uid.next;
        fixed::law_fixed_round_trip(n as u64, 0, "Xid mapping");
        endian::lemma_be_bytes_len(n, 8);
        let found = w.resolve(xid, stored).1->Ok_0;
        assert(coherence::own_op(w1, found.ops[0]));
    }
}

/// Whether what a call prepares keeps the writer and the store in agreement, and what it commits
/// are its own operations.
pub open spec fn prepared_well(g: Graph, call: Call) -> bool {
    let (w, write) = prepared(g, call);
    &&& coherence::coherent(w, g.store())
    &&& w.allocs.seq == g.writer.allocs.seq
    &&& w.latest_seq == g.writer.latest_seq
    &&& write matches Some(x) ==> coherence::own(w, x.0)
}

pub proof fn lemma_prepared(g: Graph, call: Call)
    requires
        coherence::coherent(g.writer, g.store()),
        in_range(g, call),
    ensures
        prepared_well(g, call),
{
    match call {
        Call::UpsertNode { xid, labels, props, read } => {
            lemma_prepared_node(g, call, xid, labels, props, read);
        },
        Call::UpsertEdge { src, pred, dst, props, read, postings } => {
            lemma_prepared_edge(g, call, src, pred, dst, props, read, postings);
        },
        _ => {
            reveal(prepared);
            if prepared(g, call).1 is Some {
                let ops = prepared(g, call).1->Some_0.0;
                assert forall|i: int| 0 <= i < ops.len() implies coherence::own_op(
                    g.writer,
                    #[trigger] ops[i],
                ) by {}
            }
        },
    }
}

proof fn lemma_prepared_node(
    g: Graph,
    call: Call,
    xid: Seq<u8>,
    labels: Seq<Seq<char>>,
    props: Seq<(Seq<char>, ValueView)>,
    read: Result<(), ErrorView>,
)
    requires
        call == (Call::UpsertNode { xid, labels, props, read }),
        coherence::coherent(g.writer, g.store()),
        in_range(g, call),
    ensures
        prepared_well(g, call),
{
    reveal(prepared);
    let m = g.store();
    let w = g.writer;
    let stored = g.read(KeyView::Xid(xid));
    coherence::law_resolved_is_coherent(w, m, xid, stored);
    lemma_resolution_is_own(w, xid, stored);
    let (w1, r) = w.resolve(xid, stored);
    if r is Ok {
        let names = model::names_of(props);
        let l = w1.intern_all(SchemaKind::Label, labels).writer;
        lemma_names_apart(w, w1, SchemaKind::Label, labels);
        lemma_names_apart(
            w.intern_all(SchemaKind::Label, labels).writer,
            l,
            SchemaKind::PropertyKey,
            names,
        );
        coherence::law_interned_all_is_coherent(w1, m, SchemaKind::Label, labels);
        coherence::law_interned_all_is_coherent(l, m, SchemaKind::PropertyKey, names);
        crate::write::lemma_intern_all(w1, SchemaKind::Label, labels);
        crate::write::lemma_intern_all(l, SchemaKind::PropertyKey, names);
        let w2 = l.intern_all(SchemaKind::PropertyKey, names).writer;
        lemma_own_grows(w1, w2, r->Ok_0.ops);
        let found = r->Ok_0;
        let prior = fetched(read, g.read(KeyView::Node(found.uid)));
        let drafted = w1.draft_node(xid, labels, props, found, prior).1;
        if drafted is Ok {
            let d = drafted->Ok_0;
            if model::node_put(d.uid, d.record) is Ok {
                let put = model::node_put(d.uid, d.record)->Ok_0;
                assert(coherence::own_op(w2, put));
                assert(coherence::own(w2, seq![put]));
                lemma_own_add(w2, d.ops, seq![put]);
                assert(d.ops.push(put) =~= d.ops + seq![put]);
            }
        }
    }
}

proof fn lemma_prepared_edge(
    g: Graph,
    call: Call,
    src: Seq<u8>,
    pred: Seq<char>,
    dst: Seq<u8>,
    props: Seq<(Seq<char>, ValueView)>,
    read: Result<(), ErrorView>,
    postings: Result<(Seq<OpView>, Seq<OpView>), ErrorView>,
)
    requires
        call == (Call::UpsertEdge { src, pred, dst, props, read, postings }),
        coherence::coherent(g.writer, g.store()),
        in_range(g, call),
    ensures
        prepared_well(g, call),
{
    reveal(prepared);
    let m = g.store();
    lemma_drafted_edge(g, src, pred, dst, read);
    let (w1, drafted) = drafted_edge(g, src, pred, dst, read);
    if drafted is Ok && postings is Ok {
        let names = model::names_of(props);
        let d = drafted->Ok_0;
        let added = postings->Ok_0;
        coherence::law_interned_all_is_coherent(w1, m, SchemaKind::PropertyKey, names);
        crate::write::lemma_intern_all(w1, SchemaKind::PropertyKey, names);
        let w2 = w1.intern_all(SchemaKind::PropertyKey, names).writer;
        lemma_own_grows(w1, w2, d.ops);
        let held = w1.edge_props(props);
        let bumps = model::degree_ops(d.src, d.pred, d.dst, 1);
        lemma_postings_are_own(w2, added.0);
        lemma_postings_are_own(w2, added.1);
        lemma_own_add(w2, d.ops, added.0);
        lemma_own_add(w2, d.ops + added.0, added.1);
        assert(coherence::own(w2, bumps));
        lemma_own_add(w2, d.ops + added.0 + added.1, bumps);
        if !held.is_empty() {
            let put = model::edge_prop_put(d.src, d.pred, d.dst, held);
            let plain = d.ops + added.0 + added.1 + bumps;
            assert(coherence::own_op(w2, put));
            assert(coherence::own(w2, seq![put]));
            lemma_own_add(w2, plain, seq![put]);
            assert(plain.push(put) =~= plain + seq![put]);
        }
    }
}

proof fn lemma_postings_are_own(w: WriterView, ops: Seq<OpView>)
    requires
        write_laws::on_postings(ops),
    ensures
        coherence::own(w, ops),
{
    assert forall|i: int| 0 <= i < ops.len() implies coherence::own_op(w, #[trigger] ops[i]) by {}
}

/// Interning draws on the names and the space of its kind alone.
pub proof fn lemma_names_apart(a: WriterView, b: WriterView, kind: SchemaKind, names: Seq<Seq<char>>)
    requires
        a.schema == b.schema,
        a.allocs.label == b.allocs.label,
        a.allocs.pred == b.allocs.pred,
        a.allocs.prop == b.allocs.prop,
    ensures
        ({
            let x = a.intern_all(kind, names);
            let y = b.intern_all(kind, names);
            &&& x.ids == y.ids
            &&& x.writer.schema == y.writer.schema
            &&& x.writer.allocs.label == y.writer.allocs.label
            &&& x.writer.allocs.pred == y.writer.allocs.pred
            &&& x.writer.allocs.prop == y.writer.allocs.prop
        }),
    decreases names.len(),
{
    if names.len() > 0 {
        lemma_names_apart(a, b, kind, names.drop_last());
    }
}

proof fn lemma_drafted_edge(
    g: Graph,
    src: Seq<u8>,
    pred: Seq<char>,
    dst: Seq<u8>,
    read: Result<(), ErrorView>,
)
    requires
        coherence::coherent(g.writer, g.store()),
        ends_in_range(g, src, dst, read),
        g.writer.can_intern(SchemaKind::Predicate, pred),
    ensures
        ({
            let (w1, drafted) = drafted_edge(g, src, pred, dst, read);
            &&& coherence::coherent(w1, g.store())
            &&& w1.allocs.seq == g.writer.allocs.seq
            &&& w1.latest_seq == g.writer.latest_seq
            &&& drafted matches Ok(d) ==> coherence::own(w1, d.ops)
        }),
{
    let m = g.store();
    let w = g.writer;
    let src_stored = g.read(KeyView::Xid(src));
    coherence::law_resolved_is_coherent(w, m, src, src_stored);
    lemma_resolution_is_own(w, src, src_stored);
    let (ws, s) = w.resolve_and_stub(src, src_stored);
    if s is Ok && read is Ok {
        let dst_stored = g.read(KeyView::Xid(dst));
        coherence::law_resolved_is_coherent(ws, m, dst, dst_stored);
        lemma_resolution_is_own(ws, dst, dst_stored);
        let (wt, t) = ws.resolve_and_stub(dst, dst_stored);
        if t is Ok {
            coherence::law_interned_is_coherent(wt, m, SchemaKind::Predicate, pred);
            let w1 = wt.intern(SchemaKind::Predicate, pred).writer;
            lemma_own_grows(ws, w1, s->Ok_0.ops);
            lemma_own_grows(wt, w1, t->Ok_0.ops);
            lemma_own_add(w1, s->Ok_0.ops, t->Ok_0.ops);
        }
    }
}

// ---------------------------------------------------------------------------
// Agreement of writer and store
// ---------------------------------------------------------------------------

/// Every event keeps a writer and its store in agreement: calls that are committed, calls that are
/// refused, batches that fail to be applied, and restarts.
pub proof fn law_event_keeps_coherence(g: Graph, e: Event)
    requires
        coherence::coherent(g.writer, g.store()),
        possible(g, e),
    ensures
        coherence::coherent(after(g, e).writer, after(g, e).store()),
{
    match e {
        Event::Write { call, applied } => {
            lemma_plan_commits(g, call);
            lemma_prepared(g, call);
            let (w, write) = prepared(g, call);
            if write is Some {
                let (ops, c, places) = write->Some_0;
                let why = match applied {
                    Ok(_) => ErrorView::Storage,
                    Err(x) => x,
                };
                coherence::law_batch_is_coherent(w, g.store(), ops, places, c, why);
                let batch = w.commit(ops, places, c).1;
                store_laws::law_applied_in_order(Map::empty(), g.ops, batch.ops);
                let w1 = w.commit(ops, places, c).0;
                if applied is Ok {
                    assert(w1.settle(batch.seqnum, applied) == w1.settle(batch.seqnum, Ok(())));
                } else {
                    assert(w1.settle(batch.seqnum, applied) == w1.settle(batch.seqnum, Err(why)));
                }
            }
        },
        Event::Reopen { writer } => {
            coherence::law_reopened_takes_over(g.writer, g.store(), writer);
        },
    }
}

/// After any history from an empty store, whatever failed in it, the writer and the store agree:
/// there is never a partial state to repair.
pub proof fn law_history_is_coherent(g: Graph, events: Seq<Event>)
    requires
        is_new(g),
        possible_all(g, events),
    ensures
        coherence::coherent(run(g, events).writer, run(g, events).store()),
    decreases events.len(),
{
    if events.len() == 0 {
        coherence::law_fresh_is_coherent(g.writer);
    } else {
        law_history_is_coherent(g, events.drop_last());
        law_event_keeps_coherence(run(g, events.drop_last()), events.last());
    }
}

/// Whether nothing went wrong in a history: every call was committed, or had nothing to do and left
/// the writer as it was.
pub open spec fn all_went_well(g: Graph, events: Seq<Event>) -> bool
    decreases events.len(),
{
    events.len() == 0 || {
        let before = run(g, events.drop_last());
        &&& all_went_well(g, events.drop_last())
        &&& events.last() matches Event::Write { call, applied } ==> applied is Ok && (plan(
            before,
            call,
        ).1 is Some || plan(before, call).0 == before.writer)
    }
}

/// Where nothing went wrong, nothing is owed.
pub proof fn law_nothing_owed_where_all_went_well(g: Graph, events: Seq<Event>)
    requires
        is_new(g),
        possible_all(g, events),
        all_went_well(g, events),
    ensures
        run(g, events).writer.owed.len() == 0,
    decreases events.len(),
{
    if events.len() > 0 {
        let before = run(g, events.drop_last());
        law_nothing_owed_where_all_went_well(g, events.drop_last());
        match events.last() {
            Event::Write { call, applied } => {
                lemma_plan_commits(before, call);
                let (w, write) = prepared(before, call);
                if write is Some {
                    let (ops, c, places) = write->Some_0;
                    write_laws::law_applied_batch_settles(w, ops, places, c);
                    let (w1, batch) = w.commit(ops, places, c);
                    assert(w1.settle(batch.seqnum, applied) == w1.settle(batch.seqnum, Ok(())));
                }
            },
            Event::Reopen { writer } => {},
        }
    }
}

/// After any history, failures and all, a writer that is opened over the store has the cursor of the
/// last one, commits only above it, gives names the ids they have in the store, and hands out uids
/// above all that the store maps. Where the last one owed nothing, as after any committed write, it
/// also knows every name that the last one knew, and hands out only ids above all that it did.
pub proof fn law_restart_resumes(g: Graph, events: Seq<Event>, w2: WriterView)
    requires
        is_new(g),
        possible_all(g, events),
        coherence::loaded(w2, run(g, events).store()),
        coherence::same_keys(w2.allocs, run(g, events).writer.allocs),
    ensures
        ({
            let last = run(g, events);
            &&& coherence::coherent(w2, last.store())
            &&& w2.latest_seq == last.writer.latest_seq
            &&& w2.allocs.seq.next + 1 > last.writer.latest_seq
            &&& coherence::uids_below(last.store(), w2.allocs.uid.next)
            &&& forall|kind: SchemaKind, name: Seq<char>| #[trigger]
                w2.schema.contains_key((kind, name)) ==> last.writer.schema.contains_key(
                    (kind, name),
                ) && last.writer.schema[(kind, name)] == w2.schema[(kind, name)]
            &&& last.writer.owed.len() == 0 ==> w2.schema == last.writer.schema
            &&& last.writer.owed.len() == 0 ==> forall|sp: Space|
                (#[trigger] coherence::pick(w2.allocs, sp)).next >= coherence::pick(
                    last.writer.allocs,
                    sp,
                ).next
        }),
{
    law_history_is_coherent(g, events);
    let last = run(g, events);
    coherence::law_reopened_takes_over(last.writer, last.store(), w2);
}

/// A name that a committed node or edge uses is in the store with its definition, even where the
/// call that first used it was refused: after a committed write every known name is stored.
pub proof fn law_committed_names_are_stored(g: Graph, call: Call)
    requires
        coherence::coherent(g.writer, g.store()),
        in_range(g, call),
        plan(g, call).1 is Some,
    ensures
        ({
            let done = after(g, Event::Write { call, applied: Ok(()) });
            &&& coherence::complete(done.writer, done.store())
            &&& done.writer.owed.len() == 0
        }),
{
    let e = Event::Write { call, applied: Ok(()) };
    law_event_keeps_coherence(g, e);
    lemma_plan_commits(g, call);
    let (w, write) = prepared(g, call);
    let (ops, c, places) = write->Some_0;
    write_laws::law_applied_batch_settles(w, ops, places, c);
    let done = after(g, e);
    coherence::law_nothing_owed_is_all_stored(done.writer, done.store());
}

/// Every committed write gets a sequence number above the cursor, and the cursor then stands there.
pub proof fn law_committed_writes_go_up(g: Graph, call: Call)
    requires
        coherence::coherent(g.writer, g.store()),
        in_range(g, call),
        plan(g, call).1 is Some,
    ensures
        plan(g, call).1->Some_0.seqnum > g.writer.latest_seq,
        after(g, Event::Write { call, applied: Ok(()) }).writer.latest_seq == plan(
            g,
            call,
        ).1->Some_0.seqnum,
{
    lemma_plan_commits(g, call);
    lemma_prepared(g, call);
}

// ---------------------------------------------------------------------------
// Edges
// ---------------------------------------------------------------------------

/// What a committed call does to an edge.
pub enum EdgeEffect {
    Upserted { src: Uid, pred: PredId, dst: Uid, props: Map<PropId, ValueView> },
    Deleted { src: Uid, pred: PredId, dst: Uid },
}

/// What an event does to an edge, if it is a committed call about one.
pub open spec fn effect(g: Graph, e: Event) -> Option<EdgeEffect> {
    match e {
        Event::Write { call: Call::UpsertEdge { src, pred, dst, props, read, postings }, applied }
            => {
            let (w1, drafted) = drafted_edge(g, src, pred, dst, read);
            match (drafted, postings, applied) {
                (Ok(d), Ok(_), Ok(_)) => Some(
                    EdgeEffect::Upserted {
                        src: d.src,
                        pred: d.pred,
                        dst: d.dst,
                        props: w1.edge_props(props),
                    },
                ),
                _ => None,
            }
        },
        Event::Write { call: Call::DeleteEdge { src, pred, dst }, applied } => match (
            deleted_edge(g, src, pred, dst),
            applied,
        ) {
            (Some(edge), Ok(_)) => Some(
                EdgeEffect::Deleted { src: edge.0, pred: edge.1, dst: edge.2 },
            ),
            _ => None,
        },
        _ => None,
    }
}

/// What an event adds to a degree: one per upsert of an edge there, less one per deletion.
pub open spec fn degree_step(
    g: Graph,
    e: Event,
    p: PredId,
    dir: Direction,
    anchor: Uid,
) -> int {
    match effect(g, e) {
        Some(EdgeEffect::Upserted { src, pred, dst, .. }) => write_laws::degree_change(
            src,
            pred,
            dst,
            1,
            p,
            dir,
            anchor,
        ),
        Some(EdgeEffect::Deleted { src, pred, dst }) => write_laws::degree_change(
            src,
            pred,
            dst,
            -1i64,
            p,
            dir,
            anchor,
        ),
        None => 0,
    }
}

/// How many upserts of edges at an anchor were committed, less how many deletions.
pub open spec fn degree_after(
    g: Graph,
    events: Seq<Event>,
    p: PredId,
    dir: Direction,
    anchor: Uid,
) -> int
    decreases events.len(),
{
    if events.len() == 0 {
        0
    } else {
        degree_after(g, events.drop_last(), p, dir, anchor) + degree_step(
            run(g, events.drop_last()),
            events.last(),
            p,
            dir,
            anchor,
        )
    }
}

/// After any history, the operands that the store has summed in a degree counter come to the number
/// of upserts of edges at the anchor, repeats counted, less the number of deletions; nothing else
/// counts. The number may be below zero.
pub proof fn law_degree_counts_history(
    g: Graph,
    events: Seq<Event>,
    p: PredId,
    dir: Direction,
    anchor: Uid,
)
    requires
        is_new(g),
        possible_all(g, events),
    ensures
        store_laws::counted(
            run(g, events).ops,
            KeyView::Meta(store::degree_name(p, dir, anchor)),
        ) == degree_after(g, events, p, dir, anchor),
    decreases events.len(),
{
    if events.len() > 0 {
        law_degree_counts_history(g, events.drop_last(), p, dir, anchor);
        law_history_is_coherent(g, events.drop_last());
        lemma_degree_step(run(g, events.drop_last()), events.last(), p, dir, anchor);
    }
}

proof fn lemma_degree_step(g: Graph, e: Event, p: PredId, dir: Direction, anchor: Uid)
    requires
        coherence::coherent(g.writer, g.store()),
        possible(g, e),
    ensures
        ({
            let key = KeyView::Meta(store::degree_name(p, dir, anchor));
            store_laws::counted(after(g, e).ops, key) == store_laws::counted(g.ops, key)
                + degree_step(g, e, p, dir, anchor)
        }),
{
    let key = KeyView::Meta(store::degree_name(p, dir, anchor));
    match e {
        Event::Write { call, applied } => {
            lemma_plan_commits(g, call);
            lemma_prepared(g, call);
            let (w, write) = prepared(g, call);
            if write is Some && applied is Ok {
                let (ops, c, places) = write->Some_0;
                weave_laws::lemma_commit_counts_nothing(w, ops, places, c, key);
                store_laws::law_counted_in_order(g.ops, w.commit(ops, places, c).1.ops, key);
                lemma_own_count(g, e, p, dir, anchor);
            } else {
                lemma_no_effect(g, call, applied);
            }
        },
        Event::Reopen { .. } => {},
    }
}

/// Operations that map external ids and write node records, and nothing else.
pub open spec fn on_nodes(ops: Seq<OpView>) -> bool {
    forall|i: int|
        0 <= i < ops.len() ==> (#[trigger] ops[i] matches OpView::Put { key, .. } && (key is Xid
            || key is Node))
}

/// A node upsert maps external ids and writes node records.
pub proof fn lemma_node_shape(g: Graph, call: Call)
    requires
        call is UpsertNode,
        prepared(g, call).1 is Some,
    ensures
        on_nodes(prepared(g, call).1->Some_0.0),
{
    reveal(prepared);
}

/// An edge upsert maps external ids and writes node records before it adds the edge.
proof fn lemma_edge_shape(
    g: Graph,
    src: Seq<u8>,
    pred: Seq<char>,
    dst: Seq<u8>,
    read: Result<(), ErrorView>,
)
    ensures
        drafted_edge(g, src, pred, dst, read).1 matches Ok(d) ==> on_nodes(d.ops),
{
    let w = g.writer;
    let (ws, s) = w.resolve_and_stub(src, g.read(KeyView::Xid(src)));
    if s is Ok {
        assert(on_nodes(s->Ok_0.ops));
        let (wt, t) = ws.resolve_and_stub(dst, g.read(KeyView::Xid(dst)));
        if t is Ok {
            assert(on_nodes(t->Ok_0.ops));
            assert(on_nodes(s->Ok_0.ops + t->Ok_0.ops));
        }
    }
}

/// The operations of an edge upsert.
proof fn lemma_edge_prepared(g: Graph, call: Call)
    requires
        call is UpsertEdge,
        prepared(g, call).1 is Some,
    ensures
        call matches Call::UpsertEdge { src, pred, dst, props, read, postings } && {
            let (w1, drafted) = drafted_edge(g, src, pred, dst, read);
            &&& drafted is Ok
            &&& postings is Ok
            &&& prepared(g, call).1->Some_0.0 == model::edge_ops(
                drafted->Ok_0,
                postings->Ok_0.0,
                postings->Ok_0.1,
                w1.edge_props(props),
            )
        },
{
    reveal(prepared);
}

/// The operations of a deletion.
proof fn lemma_deletion_prepared(g: Graph, call: Call)
    requires
        prepared(g, call).1 is Some,
    ensures
        call matches Call::DeleteNode { xid } ==> prepared(g, call).1->Some_0.0 == seq![
            OpView::DeleteNode {
                uid: model::mapped_uid(g.read(KeyView::Xid(xid)))->Ok_0->Some_0,
            },
        ],
        call matches Call::DeleteEdge { src, pred, dst } ==> deleted_edge(
            g,
            src,
            pred,
            dst,
        ) matches Some(edge) && prepared(g, call).1->Some_0.0 == model::delete_edge_ops(
            edge.0,
            edge.1,
            edge.2,
        ),
{
    reveal(prepared);
}

/// What the operations of an edge upsert add to a degree.
proof fn lemma_edge_ops_count(
    d: EdgeDraftView,
    out_ops: Seq<OpView>,
    in_ops: Seq<OpView>,
    held: Map<PropId, ValueView>,
    p: PredId,
    dir: Direction,
    anchor: Uid,
)
    requires
        on_nodes(d.ops),
        write_laws::on_postings(out_ops),
        write_laws::on_postings(in_ops),
    ensures
        store_laws::counted(
            model::edge_ops(d, out_ops, in_ops, held),
            KeyView::Meta(store::degree_name(p, dir, anchor)),
        ) == write_laws::degree_change(d.src, d.pred, d.dst, 1, p, dir, anchor),
{
    let key = KeyView::Meta(store::degree_name(p, dir, anchor));
    let bumps = model::degree_ops(d.src, d.pred, d.dst, 1);
    let given = d.ops + out_ops + in_ops;
    write_laws::lemma_puts_count_nothing(d.ops, key);
    lemma_postings_count_nothing(out_ops, key);
    lemma_postings_count_nothing(in_ops, key);
    store_laws::law_counted_in_order(d.ops, out_ops, key);
    store_laws::law_counted_in_order(d.ops + out_ops, in_ops, key);
    store_laws::law_counted_in_order(given, bumps, key);
    write_laws::lemma_degree_ops(d.src, d.pred, d.dst, 1, p, dir, anchor);
    if !held.is_empty() {
        let put = model::edge_prop_put(d.src, d.pred, d.dst, held);
        assert(model::edge_ops(d, out_ops, in_ops, held) =~= given + bumps + seq![put]);
        write_laws::lemma_puts_count_nothing(seq![put], key);
        store_laws::law_counted_in_order(given + bumps, seq![put], key);
    }
}

/// What the operations of an edge deletion add to a degree.
proof fn lemma_delete_ops_count(
    src: Uid,
    pred: PredId,
    dst: Uid,
    p: PredId,
    dir: Direction,
    anchor: Uid,
)
    ensures
        store_laws::counted(
            model::delete_edge_ops(src, pred, dst),
            KeyView::Meta(store::degree_name(p, dir, anchor)),
        ) == write_laws::degree_change(src, pred, dst, -1i64, p, dir, anchor),
{
    let key = KeyView::Meta(store::degree_name(p, dir, anchor));
    let ops = model::delete_edge_ops(src, pred, dst);
    let bumps = model::degree_ops(src, pred, dst, -1i64);
    let first = ops.take(2);
    let last = ops.skip(4);
    write_laws::lemma_degree_ops(src, pred, dst, -1i64, p, dir, anchor);
    assert(ops =~= first + bumps + last);
    write_laws::lemma_puts_count_nothing(first, key);
    write_laws::lemma_puts_count_nothing(last, key);
    store_laws::law_counted_in_order(first, bumps, key);
    store_laws::law_counted_in_order(first + bumps, last, key);
}

/// A call that is not committed has no effect on an edge.
proof fn lemma_no_effect(g: Graph, call: Call, applied: Result<(), ErrorView>)
    requires
        prepared(g, call).1 is None || applied is Err,
    ensures
        effect(g, Event::Write { call, applied }) is None,
{
    reveal(prepared);
}

/// What a call's own operations add to a degree.
proof fn lemma_own_count(g: Graph, e: Event, p: PredId, dir: Direction, anchor: Uid)
    requires
        coherence::coherent(g.writer, g.store()),
        possible(g, e),
        e matches Event::Write { call, applied } && applied is Ok && prepared(g, call).1 is Some,
    ensures
        store_laws::counted(
            prepared(g, e->call).1->Some_0.0,
            KeyView::Meta(store::degree_name(p, dir, anchor)),
        ) == degree_step(g, e, p, dir, anchor),
{
    let key = KeyView::Meta(store::degree_name(p, dir, anchor));
    let call = e->call;
    let ops = prepared(g, call).1->Some_0.0;
    match call {
        Call::UpsertNode { .. } => {
            lemma_node_shape(g, call);
            write_laws::lemma_puts_count_nothing(ops, key);
        },
        Call::UpsertEdge { src, pred, dst, props, read, postings } => {
            lemma_edge_prepared(g, call);
            lemma_edge_shape(g, src, pred, dst, read);
            let (w1, drafted) = drafted_edge(g, src, pred, dst, read);
            let added = postings->Ok_0;
            lemma_edge_ops_count(
                drafted->Ok_0,
                added.0,
                added.1,
                w1.edge_props(props),
                p,
                dir,
                anchor,
            );
        },
        Call::DeleteNode { .. } => {
            lemma_deletion_prepared(g, call);
            write_laws::lemma_puts_count_nothing(ops, key);
        },
        Call::DeleteEdge { src, pred, dst } => {
            lemma_deletion_prepared(g, call);
            let edge = deleted_edge(g, src, pred, dst)->Some_0;
            lemma_delete_ops_count(edge.0, edge.1, edge.2, p, dir, anchor);
        },
    }
}

proof fn lemma_postings_count_nothing(ops: Seq<OpView>, key: KeyView)
    requires
        write_laws::on_postings(ops),
        key is Meta,
    ensures
        store_laws::counted(ops, key) == 0,
    decreases ops.len(),
{
    if ops.len() > 0 {
        let before = ops.drop_last();
        assert forall|i: int| 0 <= i < before.len() implies match #[trigger] before[i] {
            OpView::Put { key, .. } => key is Raw,
            OpView::Merge { key, .. } => key is Raw,
            OpView::Delete { key } => key is Raw,
            _ => false,
        } by {
            assert(before[i] == ops[i]);
        }
        lemma_postings_count_nothing(before, key);
        assert(ops.last() == ops[ops.len() - 1]);
    }
}

/// The properties that an edge has after a history: those of the last committed upsert with any, if
/// no deletion of the edge was committed since.
pub open spec fn props_after(
    g: Graph,
    events: Seq<Event>,
    src: Uid,
    pred: PredId,
    dst: Uid,
) -> Option<Map<PropId, ValueView>>
    decreases events.len(),
{
    if events.len() == 0 {
        None
    } else {
        props_step(
            run(g, events.drop_last()),
            events.last(),
            src,
            pred,
            dst,
            props_after(g, events.drop_last(), src, pred, dst),
        )
    }
}

/// The properties that an edge has after an event, given those it had before.
pub open spec fn props_step(
    g: Graph,
    e: Event,
    src: Uid,
    pred: PredId,
    dst: Uid,
    before: Option<Map<PropId, ValueView>>,
) -> Option<Map<PropId, ValueView>> {
    match effect(g, e) {
        Some(EdgeEffect::Upserted { src: s, pred: p, dst: d, props }) => if s == src && p == pred
            && d == dst && !props.is_empty() {
            Some(props)
        } else {
            before
        },
        Some(EdgeEffect::Deleted { src: s, pred: p, dst: d }) => if s == src && p == pred && d
            == dst {
            None
        } else {
            before
        },
        None => before,
    }
}

/// What a store holds of an edge's properties.
pub open spec fn props_payload(held: Option<Map<PropId, ValueView>>) -> Option<PayloadView> {
    match held {
        Some(m) => Some(PayloadView::Raw(props::props_bytes(m))),
        None => None,
    }
}

/// After any history, the properties of an edge read back as those of the last upsert that had any,
/// or as none if there was none or the edge was deleted since. Plain upserts, node upserts and node
/// deletions leave them.
pub proof fn law_edge_props_follow_history(
    g: Graph,
    events: Seq<Event>,
    src: Uid,
    pred: PredId,
    dst: Uid,
)
    requires
        is_new(g),
        possible_all(g, events),
    ensures
        model::read_edge_props(run(g, events).read(KeyView::EdgeProp(src, pred, dst))) == Ok::<
            Option<Map<PropId, ValueView>>,
            ErrorView,
        >(props_after(g, events, src, pred, dst)),
{
    lemma_props_follow(g, events, src, pred, dst);
    let held = props_after(g, events, src, pred, dst);
    if held is Some {
        codec_laws::law_edge_props_round_trip(held->Some_0);
    }
}

proof fn lemma_props_follow(g: Graph, events: Seq<Event>, src: Uid, pred: PredId, dst: Uid)
    requires
        is_new(g),
        possible_all(g, events),
    ensures
        store_laws::value_at(run(g, events).store(), KeyView::EdgeProp(src, pred, dst))
            == props_payload(props_after(g, events, src, pred, dst)),
        props_after(g, events, src, pred, dst) matches Some(m) ==> codec_laws::props_fit(m),
    decreases events.len(),
{
    if events.len() > 0 {
        let before = run(g, events.drop_last());
        lemma_props_follow(g, events.drop_last(), src, pred, dst);
        law_history_is_coherent(g, events.drop_last());
        lemma_props_step(
            before,
            events.last(),
            src,
            pred,
            dst,
            props_after(g, events.drop_last(), src, pred, dst),
        );
    }
}

proof fn lemma_props_step(
    g: Graph,
    e: Event,
    src: Uid,
    pred: PredId,
    dst: Uid,
    before: Option<Map<PropId, ValueView>>,
)
    requires
        coherence::coherent(g.writer, g.store()),
        possible(g, e),
        store_laws::value_at(g.store(), KeyView::EdgeProp(src, pred, dst)) == props_payload(
            before,
        ),
        before matches Some(m) ==> codec_laws::props_fit(m),
    ensures
        store_laws::value_at(after(g, e).store(), KeyView::EdgeProp(src, pred, dst))
            == props_payload(props_step(g, e, src, pred, dst, before)),
        props_step(g, e, src, pred, dst, before) matches Some(m) ==> codec_laws::props_fit(m),
{
    let key = KeyView::EdgeProp(src, pred, dst);
    let m = g.store();
    match e {
        Event::Write { call, applied } => {
            lemma_plan_commits(g, call);
            lemma_prepared(g, call);
            let (w, write) = prepared(g, call);
            if write is Some && applied is Ok {
                let (ops, c, places) = write->Some_0;
                weave_laws::lemma_commit_keeps(w, ops, places, c, m, key);
                store_laws::law_applied_in_order(Map::empty(), g.ops, w.commit(ops, places, c).1.ops);
                lemma_own_props(g, e, src, pred, dst, before);
            } else {
                lemma_no_effect(g, call, applied);
            }
        },
        Event::Reopen { .. } => {},
    }
}

/// What a call's own operations make of an edge's properties.
proof fn lemma_own_props(
    g: Graph,
    e: Event,
    src: Uid,
    pred: PredId,
    dst: Uid,
    before: Option<Map<PropId, ValueView>>,
)
    requires
        possible(g, e),
        e matches Event::Write { call, applied } && applied is Ok && prepared(g, call).1 is Some,
        store_laws::value_at(g.store(), KeyView::EdgeProp(src, pred, dst)) == props_payload(
            before,
        ),
        before matches Some(m) ==> codec_laws::props_fit(m),
    ensures
        store_laws::value_at(
            store_laws::applied(g.store(), prepared(g, e->call).1->Some_0.0),
            KeyView::EdgeProp(src, pred, dst),
        ) == props_payload(props_step(g, e, src, pred, dst, before)),
        props_step(g, e, src, pred, dst, before) matches Some(m) ==> codec_laws::props_fit(m),
{
    let key = KeyView::EdgeProp(src, pred, dst);
    let m = g.store();
    let call = e->call;
    let ops = prepared(g, call).1->Some_0.0;
    match call {
        Call::UpsertNode { .. } => {
            lemma_node_shape(g, call);
            assert(store_laws::untouched(ops, key));
            store_laws::law_untouched_stays(m, ops, key);
        },
        Call::UpsertEdge { src: s, pred: p, dst: d, props, read, postings } => {
            lemma_edge_prepared(g, call);
            lemma_edge_shape(g, s, p, d, read);
            let (w1, drafted) = drafted_edge(g, s, p, d, read);
            let draft = drafted->Ok_0;
            let added = postings->Ok_0;
            let held = w1.edge_props(props);
            lemma_plain_edge_untouched(draft, added.0, added.1, key);
            let plain = model::edge_ops(draft, added.0, added.1, Map::empty());
            store_laws::law_untouched_stays(m, plain, key);
            if !held.is_empty() {
                assert(ops.drop_last() =~= plain);
            } else {
                assert(ops =~= plain);
            }
        },
        Call::DeleteNode { .. } => {
            lemma_deletion_prepared(g, call);
            assert(store_laws::untouched(ops, key));
            store_laws::law_untouched_stays(m, ops, key);
        },
        Call::DeleteEdge { .. } => {
            lemma_deletion_prepared(g, call);
            let first = ops.drop_last();
            assert(store_laws::untouched(first, key));
            store_laws::law_untouched_stays(m, first, key);
        },
    }
}

proof fn lemma_plain_edge_untouched(
    d: EdgeDraftView,
    out_ops: Seq<OpView>,
    in_ops: Seq<OpView>,
    key: KeyView,
)
    requires
        key is EdgeProp,
        on_nodes(d.ops),
        write_laws::on_postings(out_ops),
        write_laws::on_postings(in_ops),
    ensures
        store_laws::untouched(model::edge_ops(d, out_ops, in_ops, Map::empty()), key),
{
    let ops = model::edge_ops(d, out_ops, in_ops, Map::empty());
    let a = d.ops.len() as int;
    let b = a + out_ops.len();
    let c = b + in_ops.len();
    assert forall|i: int| 0 <= i < ops.len() implies !store_laws::writes(
        #[trigger] ops[i],
        key,
    ) by {
        if i < a {
            assert(ops[i] == d.ops[i]);
        } else if i < b {
            assert(ops[i] == out_ops[i - a]);
        } else if i < c {
            assert(ops[i] == in_ops[i - b]);
        }
    }
}

// ---------------------------------------------------------------------------
// Deleted nodes
// ---------------------------------------------------------------------------

/// The uids that operations mark as deleted.
pub open spec fn deleted(ops: Seq<OpView>) -> Set<u64> {
    Set::new(|u: u64| ops.contains(OpView::DeleteNode { uid: Uid(u) }))
}

/// Deleting a node marks it, logs the deletion under a number above the cursor, and changes nothing
/// else that can be read: mappings, node records, properties of edges and degrees stay.
pub proof fn law_deleted_node_is_marked(
    g: Graph,
    xid: Seq<u8>,
    key: KeyView,
    p: PredId,
    dir: Direction,
    anchor: Uid,
)
    requires
        coherence::coherent(g.writer, g.store()),
        in_range(g, Call::DeleteNode { xid }),
        model::mapped_uid(g.read(KeyView::Xid(xid))) matches Ok(Some(_)),
        key is Xid || key is Node || key is EdgeProp,
    ensures
        ({
            let call = Call::DeleteNode { xid };
            let uid = model::mapped_uid(g.read(KeyView::Xid(xid)))->Ok_0->Some_0;
            let done = after(g, Event::Write { call, applied: Ok(()) });
            let count = KeyView::Meta(store::degree_name(p, dir, anchor));
            &&& deleted(done.ops).contains(uid.0)
            &&& plan(g, call).1 matches Some(batch) && batch.seqnum > g.writer.latest_seq
                && write_laws::is_logged(
                batch,
                g.store(),
                model::node_change(ChangeOp::DeleteNode, uid, None),
            )
            &&& store_laws::value_at(done.store(), key) == store_laws::value_at(g.store(), key)
            &&& store_laws::counted(done.ops, count) == store_laws::counted(g.ops, count)
        }),
{
    let call = Call::DeleteNode { xid };
    let e = Event::Write { call, applied: Ok(()) };
    let stored = g.read(KeyView::Xid(xid));
    let uid = model::mapped_uid(stored)->Ok_0->Some_0;
    let w = g.writer;
    reveal(prepared);
    lemma_plan_commits(g, call);
    let (ops, c, places) = prepared(g, call).1->Some_0;
    let batch = w.commit(ops, places, c).1;
    write_laws::law_node_deletion_is_logged(w, stored, g.store());
    law_committed_writes_go_up(g, call);
    lemma_degree_step(g, e, p, dir, anchor);
    weave_laws::lemma_commit_keeps(w, ops, places, c, g.store(), key);
    store_laws::law_untouched_stays(g.store(), ops, key);
    store_laws::law_applied_in_order(Map::empty(), g.ops, batch.ops);
    let at = g.ops.len() + w.owed.len();
    let done = after(g, e);
    assert(done.ops[at as int] == batch.ops[w.owed.len() as int]);
    assert(done.ops.contains(OpView::DeleteNode { uid }));
}

/// A node that is marked as deleted stays so through everything that happens later, and is no
/// neighbour of any node any more: the live members of a posting, given a stored set that holds all
/// that were marked, lack it.
pub proof fn law_deleted_node_stays_out(
    g: Graph,
    events: Seq<Event>,
    uid: u64,
    posting: Set<u64>,
    stored: Option<Seq<u8>>,
)
    requires
        deleted(g.ops).contains(uid),
        bitmap::read_members(stored, "deleted_nodes") matches Ok(gone) && deleted(
            run(g, events).ops,
        ).subset_of(gone),
    ensures
        deleted(run(g, events).ops).contains(uid),
        !posting.difference(bitmap::read_members(stored, "deleted_nodes")->Ok_0).contains(uid),
{
    lemma_ops_grow(g, events);
    let mark = OpView::DeleteNode { uid: Uid(uid) };
    let i = choose|i: int| 0 <= i < g.ops.len() && g.ops[i] == mark;
    let last = run(g, events);
    assert(last.ops[i] == last.ops.take(g.ops.len() as int)[i]);
    assert(last.ops.contains(mark));
}

/// Operations once applied stay applied.
proof fn lemma_ops_grow(g: Graph, events: Seq<Event>)
    ensures
        g.ops.len() <= run(g, events).ops.len(),
        run(g, events).ops.take(g.ops.len() as int) == g.ops,
    decreases events.len(),
{
    if events.len() == 0 {
        assert(g.ops.take(g.ops.len() as int) =~= g.ops);
    } else {
        lemma_ops_grow(g, events.drop_last());
        let before = run(g, events.drop_last());
        let last = run(g, events);
        assert(last.ops.take(g.ops.len() as int) =~= before.ops.take(g.ops.len() as int));
    }
}

} // verus!
