//! What the calls of a graph are for: how what is read after a committed call follows from what was
//! given to it and what was there before.

use vstd::prelude::*;

use crate::bitmap;
use crate::change;
use crate::change::{ChangeOp, ChangeView};
use crate::codec_laws;
use crate::coherence;
use crate::error::{ErrorView, FaultView};
use crate::fixed;
use crate::format_laws;
use crate::history;
use crate::history::{Call, Event, Graph};
use crate::ids::{Direction, LabelId, PredId, PropId, SchemaKind, Uid};
use crate::merge;
use crate::model;
use crate::model::{ResolutionView, WriterView};
use crate::node;
use crate::node::NodeView;
use crate::schema::ValType;
use crate::step_laws;
use crate::store;
use crate::store::{KeyView, OpView, PayloadView};
use crate::store_laws;
use crate::value::ValueView;
use crate::weave_laws;
use crate::write_laws;

verus! {

// ---------------------------------------------------------------------------
// A committed call
// ---------------------------------------------------------------------------

/// Whether a call on a graph that is in order comes to a batch.
pub open spec fn commits(g: Graph, call: Call) -> bool {
    &&& coherence::coherent(g.writer, g.store())
    &&& history::in_range(g, call)
    &&& history::plan(g, call).1 is Some
}

/// The graph once the batch of a call was applied.
pub open spec fn done(g: Graph, call: Call) -> Graph {
    history::after(g, Event::Write { call, applied: Ok(()) })
}

/// The sequence number of the batch of a call.
pub open spec fn number(g: Graph, call: Call) -> u64 {
    history::plan(g, call).1->Some_0.seqnum
}

/// The changelog record under a sequence number, if there is one that decodes.
pub open spec fn logged(g: Graph, seq: u64) -> Option<ChangeView> {
    match g.read(KeyView::Log(seq)) {
        Some(b) => match change::decoded_change(b) {
            Ok(c) => Some(c),
            Err(_) => None,
        },
        None => None,
    }
}

/// The edges that operations mark as deleted, each as the predicate, the end that looks, and the
/// end that it no longer sees.
pub open spec fn cut(ops: Seq<OpView>) -> Set<(PredId, Uid, Uid)> {
    Set::new(
        |e: (PredId, Uid, Uid)|
            ops.contains(OpView::DeleteEdge { pred: e.0, anchor: e.1, other: e.2 }),
    )
}

/// The operations on postings among others, in order.
pub open spec fn on_raw(ops: Seq<OpView>) -> Seq<OpView>
    decreases ops.len(),
{
    if ops.len() == 0 {
        Seq::empty()
    } else {
        let before = on_raw(ops.drop_last());
        if is_raw(ops.last()) {
            before.push(ops.last())
        } else {
            before
        }
    }
}

/// Whether an operation is on a posting.
pub open spec fn is_raw(op: OpView) -> bool {
    match op {
        OpView::Put { key, .. } => key is Raw,
        OpView::Merge { key, .. } => key is Raw,
        OpView::Delete { key } => key is Raw,
        _ => false,
    }
}

proof fn lemma_raw_add(a: Seq<OpView>, b: Seq<OpView>)
    ensures
        on_raw(a + b) == on_raw(a) + on_raw(b),
    decreases b.len(),
{
    if b.len() == 0 {
        assert(a + b =~= a);
        assert(on_raw(a) + Seq::<OpView>::empty() =~= on_raw(a));
    } else {
        lemma_raw_add(a, b.drop_last());
        assert((a + b).drop_last() =~= a + b.drop_last());
        assert(on_raw(a + b) =~= on_raw(a) + on_raw(b));
    }
}

proof fn lemma_raw_rest(ops: Seq<OpView>)
    ensures
        on_raw(weave_laws::rest_of(ops)) == on_raw(ops),
    decreases ops.len(),
{
    if ops.len() > 0 {
        lemma_raw_rest(ops.drop_last());
        let before = weave_laws::rest_of(ops.drop_last());
        if !weave_laws::is_record(ops.last()) {
            assert(before.push(ops.last()).drop_last() =~= before);
        }
    }
}

proof fn lemma_all_raw(ops: Seq<OpView>)
    ensures
        write_laws::on_postings(ops) ==> on_raw(ops) == ops,
        (forall|i: int| 0 <= i < ops.len() ==> !is_raw(#[trigger] ops[i])) ==> on_raw(ops) == Seq::<
            OpView,
        >::empty(),
    decreases ops.len(),
{
    if ops.len() > 0 {
        let less = ops.drop_last();
        lemma_all_raw(less);
        assert(ops[ops.len() - 1] == ops.last());
        assert(less.push(ops.last()) =~= ops);
        if write_laws::on_postings(ops) {
            assert forall|i: int| 0 <= i < less.len() implies is_raw(#[trigger] less[i]) by {
                assert(is_raw(ops[i]));
            }
            assert(write_laws::on_postings(less)) by {
                assert forall|i: int| 0 <= i < less.len() implies match #[trigger] less[i] {
                    OpView::Put { key, .. } => key is Raw,
                    OpView::Merge { key, .. } => key is Raw,
                    OpView::Delete { key } => key is Raw,
                    _ => false,
                } by {
                    assert(is_raw(less[i]));
                }
            }
        }
        if forall|i: int| 0 <= i < ops.len() ==> !is_raw(#[trigger] ops[i]) {
            assert forall|i: int| 0 <= i < less.len() implies !is_raw(#[trigger] less[i]) by {
                assert(!is_raw(ops[i]));
            }
        }
    } else {
        assert(ops =~= Seq::empty());
    }
}

proof fn lemma_rest_contains(ops: Seq<OpView>, op: OpView)
    requires
        !weave_laws::is_record(op),
    ensures
        weave_laws::rest_of(ops).contains(op) == ops.contains(op),
    decreases ops.len(),
{
    if ops.len() > 0 {
        let less = ops.drop_last();
        lemma_rest_contains(less, op);
        assert(ops =~= less.push(ops.last()));
        lemma_push_contains(less, ops.last(), op);
        lemma_push_contains(weave_laws::rest_of(less), ops.last(), op);
    }
}

proof fn lemma_push_contains(s: Seq<OpView>, last: OpView, op: OpView)
    ensures
        s.push(last).contains(op) == (s.contains(op) || last == op),
{
    let t = s.push(last);
    if s.contains(op) {
        let i = choose|i: int| 0 <= i < s.len() && s[i] == op;
        assert(t[i] == op);
    }
    if last == op {
        assert(t[s.len() as int] == op);
    }
}

proof fn lemma_add_contains(a: Seq<OpView>, b: Seq<OpView>, op: OpView)
    ensures
        (a + b).contains(op) == (a.contains(op) || b.contains(op)),
{
    let t = a + b;
    if a.contains(op) {
        let i = choose|i: int| 0 <= i < a.len() && a[i] == op;
        assert(t[i] == op);
    }
    if b.contains(op) {
        let i = choose|i: int| 0 <= i < b.len() && b[i] == op;
        assert(t[a.len() + i] == op);
    }
    if t.contains(op) {
        let i = choose|i: int| 0 <= i < t.len() && t[i] == op;
        if i < a.len() {
            assert(a[i] == op);
        } else {
            assert(b[i - a.len()] == op);
        }
    }
}

/// The operations among others that are no puts, in order: what is counted, erased and marked.
pub open spec fn acts(ops: Seq<OpView>) -> Seq<OpView>
    decreases ops.len(),
{
    if ops.len() == 0 {
        Seq::empty()
    } else {
        let before = acts(ops.drop_last());
        if ops.last() is Put {
            before
        } else {
            before.push(ops.last())
        }
    }
}

proof fn lemma_acts_add(a: Seq<OpView>, b: Seq<OpView>)
    ensures
        acts(a + b) == acts(a) + acts(b),
    decreases b.len(),
{
    if b.len() == 0 {
        assert(a + b =~= a);
        assert(acts(a) + Seq::<OpView>::empty() =~= acts(a));
    } else {
        lemma_acts_add(a, b.drop_last());
        assert((a + b).drop_last() =~= a + b.drop_last());
        assert(acts(a + b) =~= acts(a) + acts(b));
    }
}

proof fn lemma_acts_rest(ops: Seq<OpView>)
    ensures
        acts(weave_laws::rest_of(ops)) == acts(ops),
    decreases ops.len(),
{
    if ops.len() > 0 {
        lemma_acts_rest(ops.drop_last());
        let before = weave_laws::rest_of(ops.drop_last());
        if !weave_laws::is_record(ops.last()) {
            assert(before.push(ops.last()).drop_last() =~= before);
        }
    }
}

proof fn lemma_all_acts(ops: Seq<OpView>)
    ensures
        (forall|i: int| 0 <= i < ops.len() ==> !(#[trigger] ops[i] is Put)) ==> acts(ops) == ops,
        (forall|i: int| 0 <= i < ops.len() ==> #[trigger] ops[i] is Put) ==> acts(ops) == Seq::<
            OpView,
        >::empty(),
    decreases ops.len(),
{
    if ops.len() > 0 {
        let less = ops.drop_last();
        lemma_all_acts(less);
        assert(ops[ops.len() - 1] == ops.last());
        assert(less.push(ops.last()) =~= ops);
        if forall|i: int| 0 <= i < ops.len() ==> !(#[trigger] ops[i] is Put) {
            assert forall|i: int| 0 <= i < less.len() implies !(#[trigger] less[i] is Put) by {
                assert(!(ops[i] is Put));
            }
        }
        if forall|i: int| 0 <= i < ops.len() ==> #[trigger] ops[i] is Put {
            assert forall|i: int| 0 <= i < less.len() implies #[trigger] less[i] is Put by {
                assert(ops[i] is Put);
            }
        }
    } else {
        assert(ops =~= Seq::empty());
    }
}

/// What the batch of a call leaves, in terms of the call's own operations and change.
pub proof fn lemma_committed(g: Graph, call: Call)
    requires
        commits(g, call),
    ensures
        history::prepared(g, call).1 is Some,
        ({
            let (w, write) = history::prepared(g, call);
            let (ops, c, places) = write->Some_0;
            let last = done(g, call);
            &&& coherence::coherent(last.writer, last.store())
            &&& coherence::complete(last.writer, last.store())
            &&& coherence::own(w, ops)
            &&& last.writer.schema == w.schema
            &&& last.writer.latest_seq == number(g, call)
            &&& number(g, call) == g.writer.allocs.seq.next + 1
            &&& number(g, call) > g.writer.latest_seq
            &&& forall|key: KeyView|
                !write_laws::bookkeeping(key) ==> #[trigger] store_laws::value_at(last.store(), key)
                    == store_laws::value_at(store_laws::applied(g.store(), ops), key)
            &&& forall|key: KeyView| #[trigger]
                store_laws::counted(last.ops, key) == store_laws::counted(g.ops, key)
                    + store_laws::counted(ops, key)
            &&& forall|op: OpView|
                !(op is Put) ==> #[trigger] last.ops.contains(op) == (g.ops.contains(op)
                    || ops.contains(op))
            &&& on_raw(last.ops) == on_raw(g.ops) + on_raw(ops)
            &&& codec_laws::change_fits(c) ==> logged(last, number(g, call)) == Some(
                ChangeView { seq: number(g, call), ..c },
            )
        }),
{
    history::lemma_plan_commits(g, call);
    history::lemma_prepared(g, call);
    history::law_committed_names_are_stored(g, call);
    history::law_committed_writes_go_up(g, call);
    let e = Event::Write { call, applied: Ok(()) };
    history::law_event_keeps_coherence(g, e);
    let (w, write) = history::prepared(g, call);
    let (ops, c, places) = write->Some_0;
    let (w1, batch) = w.commit(ops, places, c);
    let last = done(g, call);
    let m = g.store();
    store_laws::law_applied_in_order(Map::empty(), g.ops, batch.ops);
    assert(w1.settle(batch.seqnum, Ok(())).schema == w.schema);
    assert forall|key: KeyView| !write_laws::bookkeeping(key) implies #[trigger]
        store_laws::value_at(last.store(), key) == store_laws::value_at(
        store_laws::applied(g.store(), ops),
        key,
    ) by {
        weave_laws::lemma_commit_keeps(w, ops, places, c, m, key);
    }
    assert forall|key: KeyView| #[trigger]
        store_laws::counted(last.ops, key) == store_laws::counted(g.ops, key)
            + store_laws::counted(ops, key) by {
        weave_laws::lemma_commit_counts_nothing(w, ops, places, c, key);
        store_laws::law_counted_in_order(g.ops, batch.ops, key);
    }
    assert(weave_laws::no_records(ops)) by {
        assert forall|i: int| 0 <= i < ops.len() implies !weave_laws::is_record(
            #[trigger] ops[i],
        ) by {
            assert(coherence::own_op(w, ops[i]));
        }
    }
    weave_laws::law_batch_holds_what_is_owed(w, ops, places, c);
    let log = model::log_ops(w.next_seq(), c);
    assert forall|op: OpView| !(op is Put) implies #[trigger] last.ops.contains(op) == (
    g.ops.contains(op) || ops.contains(op)) by {
        lemma_add_contains(g.ops, batch.ops, op);
        lemma_rest_contains(batch.ops, op);
        lemma_add_contains(ops, log, op);
        if log.contains(op) {
            let i = choose|i: int| 0 <= i < log.len() && log[i] == op;
            assert(log[i] is Put);
        }
    }
    lemma_raw_add(g.ops, batch.ops);
    lemma_raw_rest(batch.ops);
    lemma_raw_add(ops, log);
    lemma_all_raw(log);
    assert(on_raw(ops) + Seq::<OpView>::empty() =~= on_raw(ops));
    if codec_laws::change_fits(c) {
        write_laws::law_commit_is_logged(w, ops, places, c, m);
    }
}

// ---------------------------------------------------------------------------
// Deletions
// ---------------------------------------------------------------------------

/// One where a condition holds, and nothing otherwise.
pub open spec fn one_if(b: bool) -> int {
    if b {
        1
    } else {
        0
    }
}

proof fn lemma_counted_one(op: OpView, key: KeyView)
    ensures
        store_laws::counted(seq![op], key) == store_laws::op_count(op, key),
{
    assert(seq![op].drop_last() =~= Seq::empty());
    assert(seq![op].last() == op);
    reveal_with_fuel(store_laws::counted, 2);
}

proof fn lemma_bump(p: PredId, dir: Direction, a: Uid, delta: i64, key: KeyView)
    ensures
        store_laws::op_count(store::bump_op(p, dir, a, delta), key) == if key == KeyView::Meta(
            store::degree_name(p, dir, a),
        ) {
            delta as int
        } else {
            0
        },
{
    fixed::law_fixed_round_trip(0, delta, "operand");
}

proof fn lemma_bumps(src: Uid, pred: PredId, dst: Uid, delta: i64, key: KeyView)
    ensures
        store_laws::counted(model::degree_ops(src, pred, dst, delta), key) == delta * one_if(
            key == KeyView::Meta(store::degree_name(pred, Direction::Out, src)),
        ) + delta * one_if(key == KeyView::Meta(store::degree_name(pred, Direction::In, dst))),
{
    let out = store::bump_op(pred, Direction::Out, src, delta);
    let inn = store::bump_op(pred, Direction::In, dst, delta);
    assert(model::degree_ops(src, pred, dst, delta) =~= seq![out] + seq![inn]);
    store_laws::law_counted_in_order(seq![out], seq![inn], key);
    lemma_counted_one(out, key);
    lemma_counted_one(inn, key);
    lemma_bump(pred, Direction::Out, src, delta, key);
    lemma_bump(pred, Direction::In, dst, delta, key);
}

/// Deleting a node marks that node and no other as deleted. Nothing else that can be read changes:
/// no mapping, no node record, no properties, no degree, no posting, no mark on an edge, no name.
/// The changelog says which node it was. Where the external id is not mapped there is no batch, and
/// the writer stays as it is.
pub proof fn law_node_deletion_deletes_the_node(g: Graph, xid: Seq<u8>)
    requires
        coherence::coherent(g.writer, g.store()),
        history::in_range(g, Call::DeleteNode { xid }),
    ensures
        ({
            let call = Call::DeleteNode { xid };
            let last = done(g, call);
            match model::mapped_uid(g.read(KeyView::Xid(xid))) {
                Ok(Some(uid)) => {
                    &&& history::plan(g, call).1 is Some
                    &&& history::deleted(last.ops) == history::deleted(g.ops).insert(uid.0)
                    &&& cut(last.ops) == cut(g.ops)
                    &&& on_raw(last.ops) == on_raw(g.ops)
                    &&& last.writer.schema == g.writer.schema
                    &&& forall|key: KeyView|
                        !write_laws::bookkeeping(key) ==> #[trigger] store_laws::value_at(
                            last.store(),
                            key,
                        ) == store_laws::value_at(g.store(), key)
                    &&& forall|key: KeyView| #[trigger]
                        store_laws::counted(last.ops, key) == store_laws::counted(g.ops, key)
                    &&& last.writer.latest_seq == g.writer.allocs.seq.next + 1
                    &&& logged(last, last.writer.latest_seq) matches Some(c) && {
                        &&& c.seq == last.writer.latest_seq
                        &&& c.op == ChangeOp::DeleteNode
                        &&& c.subject_uid == uid
                        &&& c.pred_id is None
                        &&& c.object_uid is None
                        &&& c.value is None
                        &&& c.label_delta is None
                    }
                },
                _ => history::plan(g, call).1 is None && last == g,
            }
        }),
{
    let call = Call::DeleteNode { xid };
    history::lemma_plan_commits(g, call);
    reveal(history::prepared);
    if history::plan(g, call).1 is Some {
        lemma_committed(g, call);
        let uid = model::mapped_uid(g.read(KeyView::Xid(xid)))->Ok_0->Some_0;
        let last = done(g, call);
        let ops = history::prepared(g, call).1->Some_0.0;
        let op = OpView::DeleteNode { uid };
        assert(ops == seq![op]);
        assert(ops[0] == op);
        assert(ops.drop_last() =~= Seq::empty());
        reveal_with_fuel(store_laws::applied, 2);
        assert forall|u: u64| history::deleted(last.ops).contains(u) == (
        history::deleted(g.ops).contains(u) || u == uid.0) by {
            let mark = OpView::DeleteNode { uid: Uid(u) };
            assert(ops.contains(mark) == (mark == op)) by {
                if mark == op {
                    assert(ops[0] == mark);
                }
            }
        }
        assert(history::deleted(last.ops) =~= history::deleted(g.ops).insert(uid.0));
        assert forall|e: (PredId, Uid, Uid)| cut(last.ops).contains(e) == cut(g.ops).contains(e) by {
            let mark = OpView::DeleteEdge { pred: e.0, anchor: e.1, other: e.2 };
            assert(!ops.contains(mark));
        }
        assert(cut(last.ops) =~= cut(g.ops));
        lemma_all_raw(ops);
        assert(on_raw(g.ops) + Seq::<OpView>::empty() =~= on_raw(g.ops));
        assert forall|key: KeyView| #[trigger]
            store_laws::counted(last.ops, key) == store_laws::counted(g.ops, key) by {
            lemma_counted_one(op, key);
        }
    }
}

/// Deleting an edge marks it as deleted as seen from either end, and marks no other edge and no
/// node. It takes one off the outgoing degree of the source and the incoming degree of the target,
/// and off no other counter. It removes the properties of this edge, and nothing else that can be
/// read changes: no mapping, no node record, no other edge's properties, no posting, no name. The
/// changelog says which edge it was. Where an end or the predicate is not known there is no batch,
/// and the writer stays as it is.
pub proof fn law_edge_deletion_deletes_the_edge(
    g: Graph,
    src: Seq<u8>,
    pred: Seq<char>,
    dst: Seq<u8>,
)
    requires
        coherence::coherent(g.writer, g.store()),
        history::in_range(g, Call::DeleteEdge { src, pred, dst }),
    ensures
        ({
            let call = Call::DeleteEdge { src, pred, dst };
            let last = done(g, call);
            let known = g.writer.schema.contains_key((SchemaKind::Predicate, pred));
            match (
                model::mapped_uid(g.read(KeyView::Xid(src))),
                model::mapped_uid(g.read(KeyView::Xid(dst))),
                known,
            ) {
                (Ok(Some(s)), Ok(Some(t)), true) => {
                    let p = PredId(g.writer.schema[(SchemaKind::Predicate, pred)]);
                    &&& history::plan(g, call).1 is Some
                    &&& history::deleted(last.ops) == history::deleted(g.ops)
                    &&& cut(last.ops) == cut(g.ops).insert((p, s, t)).insert((p, t, s))
                    &&& on_raw(last.ops) == on_raw(g.ops)
                    &&& last.writer.schema == g.writer.schema
                    &&& store_laws::value_at(last.store(), KeyView::EdgeProp(s, p, t)) is None
                    &&& forall|key: KeyView|
                        !write_laws::bookkeeping(key) && key != KeyView::EdgeProp(s, p, t)
                            ==> #[trigger] store_laws::value_at(last.store(), key)
                            == store_laws::value_at(g.store(), key)
                    &&& forall|key: KeyView| #[trigger]
                        store_laws::counted(last.ops, key) == store_laws::counted(g.ops, key)
                            - one_if(
                            key == KeyView::Meta(store::degree_name(p, Direction::Out, s)),
                        ) - one_if(key == KeyView::Meta(store::degree_name(p, Direction::In, t)))
                    &&& last.writer.latest_seq == g.writer.allocs.seq.next + 1
                    &&& logged(last, last.writer.latest_seq) matches Some(c) && {
                        &&& c.seq == last.writer.latest_seq
                        &&& c.op == ChangeOp::DeleteEdge
                        &&& c.subject_uid == s
                        &&& c.pred_id == Some(p)
                        &&& c.object_uid == Some(t)
                        &&& c.value is None
                        &&& c.label_delta is None
                    }
                },
                _ => history::plan(g, call).1 is None && last == g,
            }
        }),
{
    let call = Call::DeleteEdge { src, pred, dst };
    history::lemma_plan_commits(g, call);
    reveal(history::prepared);
    if history::plan(g, call).1 is Some {
        lemma_committed(g, call);
        let s = model::mapped_uid(g.read(KeyView::Xid(src)))->Ok_0->Some_0;
        let t = model::mapped_uid(g.read(KeyView::Xid(dst)))->Ok_0->Some_0;
        let p = PredId(g.writer.schema[(SchemaKind::Predicate, pred)]);
        let last = done(g, call);
        let ops = history::prepared(g, call).1->Some_0.0;
        let there = OpView::DeleteEdge { pred: p, anchor: s, other: t };
        let back = OpView::DeleteEdge { pred: p, anchor: t, other: s };
        let bumps = model::degree_ops(s, p, t, -1i64);
        let gone = OpView::Delete { key: KeyView::EdgeProp(s, p, t) };
        assert(ops =~= seq![there, back] + bumps + seq![gone]);
        assert(ops.len() == 5);
        assert(ops[0] == there && ops[1] == back && ops[4] == gone);
        assert(ops[2] is Merge && ops[3] is Merge);
        assert forall|u: u64| history::deleted(last.ops).contains(u) == history::deleted(
            g.ops,
        ).contains(u) by {
            let mark = OpView::DeleteNode { uid: Uid(u) };
            if ops.contains(mark) {
                let i = choose|i: int| 0 <= i < ops.len() && ops[i] == mark;
                assert(i == 0 || i == 1 || i == 2 || i == 3 || i == 4);
            }
        }
        assert(history::deleted(last.ops) =~= history::deleted(g.ops));
        assert forall|e: (PredId, Uid, Uid)| cut(last.ops).contains(e) == (cut(g.ops).contains(e)
            || e == (p, s, t) || e == (p, t, s)) by {
            let mark = OpView::DeleteEdge { pred: e.0, anchor: e.1, other: e.2 };
            if ops.contains(mark) {
                let i = choose|i: int| 0 <= i < ops.len() && ops[i] == mark;
                assert(i == 0 || i == 1 || i == 2 || i == 3 || i == 4);
            }
            if mark == there {
                assert(ops[0] == mark);
            }
            if mark == back {
                assert(ops[1] == mark);
            }
        }
        assert(cut(last.ops) =~= cut(g.ops).insert((p, s, t)).insert((p, t, s)));
        assert forall|i: int| 0 <= i < ops.len() implies !is_raw(#[trigger] ops[i]) by {
            assert(i == 0 || i == 1 || i == 2 || i == 3 || i == 4);
        }
        lemma_all_raw(ops);
        assert(on_raw(g.ops) + Seq::<OpView>::empty() =~= on_raw(g.ops));
        let prop = KeyView::EdgeProp(s, p, t);
        assert(ops.last() == gone);
        assert(!write_laws::bookkeeping(prop));
        assert forall|key: KeyView| !write_laws::bookkeeping(key) && key != prop implies #[trigger]
            store_laws::value_at(last.store(), key) == store_laws::value_at(g.store(), key) by {
            assert forall|i: int| 0 <= i < ops.len() implies !store_laws::writes(
                #[trigger] ops[i],
                key,
            ) by {
                assert(i == 0 || i == 1 || i == 2 || i == 3 || i == 4);
            }
            store_laws::law_untouched_stays(g.store(), ops, key);
        }
        assert forall|key: KeyView| #[trigger]
            store_laws::counted(last.ops, key) == store_laws::counted(g.ops, key) - one_if(
                key == KeyView::Meta(store::degree_name(p, Direction::Out, s)),
            ) - one_if(key == KeyView::Meta(store::degree_name(p, Direction::In, t))) by {
            let marks = seq![there, back];
            write_laws::lemma_puts_count_nothing(marks, key);
            write_laws::lemma_puts_count_nothing(seq![gone], key);
            store_laws::law_counted_in_order(marks, bumps, key);
            store_laws::law_counted_in_order(marks + bumps, seq![gone], key);
            lemma_bumps(s, p, t, -1i64, key);
        }
    }
}

/// The uids whose deletion was committed in a history.
pub open spec fn deleted_by(g: Graph, events: Seq<Event>) -> Set<u64>
    decreases events.len(),
{
    if events.len() == 0 {
        Set::empty()
    } else {
        let earlier = deleted_by(g, events.drop_last());
        let graph = history::run(g, events.drop_last());
        match events.last() {
            Event::Write { call: Call::DeleteNode { xid }, applied: Ok(_) } => {
                match model::mapped_uid(graph.read(KeyView::Xid(xid))) {
                    Ok(Some(uid)) => earlier.insert(uid.0),
                    _ => earlier,
                }
            },
            _ => earlier,
        }
    }
}

// ---------------------------------------------------------------------------
// Names
// ---------------------------------------------------------------------------

/// The ids that names are interned under are those they are known by afterwards, and what was known
/// before stays known as it was; nothing else becomes known.
proof fn lemma_ids(w: WriterView, kind: SchemaKind, names: Seq<Seq<char>>)
    ensures
        ({
            let all = w.intern_all(kind, names);
            &&& all.ids.len() == names.len()
            &&& forall|i: int|
                0 <= i < names.len() ==> all.writer.schema.contains_key((kind, #[trigger] names[i]))
                    && all.writer.schema[(kind, names[i])] == all.ids[i]
            &&& forall|k: (SchemaKind, Seq<char>)| #[trigger]
                w.schema.contains_key(k) ==> all.writer.schema.contains_key(k)
                    && all.writer.schema[k] == w.schema[k]
            &&& forall|k: (SchemaKind, Seq<char>)| #[trigger]
                all.writer.schema.contains_key(k) ==> w.schema.contains_key(k) || (k.0 == kind
                    && names.contains(k.1))
        }),
    decreases names.len(),
{
    if names.len() > 0 {
        let most = names.drop_last();
        lemma_ids(w, kind, most);
        let before = w.intern_all(kind, most);
        let all = w.intern_all(kind, names);
        assert forall|i: int| 0 <= i < names.len() implies all.writer.schema.contains_key(
            (kind, #[trigger] names[i]),
        ) && all.writer.schema[(kind, names[i])] == all.ids[i] by {
            if i < most.len() {
                assert(names[i] == most[i]);
                assert(before.writer.schema.contains_key((kind, most[i])));
            }
        }
        assert forall|k: (SchemaKind, Seq<char>)| #[trigger]
            w.schema.contains_key(k) implies all.writer.schema.contains_key(k)
            && all.writer.schema[k] == w.schema[k] by {
            assert(before.writer.schema.contains_key(k));
        }
        assert forall|k: (SchemaKind, Seq<char>)| #[trigger]
            all.writer.schema.contains_key(k) implies w.schema.contains_key(k) || (k.0 == kind
            && names.contains(k.1)) by {
            if before.writer.schema.contains_key(k) {
                if most.contains(k.1) {
                    let i = choose|i: int| 0 <= i < most.len() && most[i] == k.1;
                    assert(names[i] == k.1);
                }
            } else {
                assert(names[names.len() - 1] == k.1);
            }
        }
    }
}

/// Whether no later value is given under the same name.
pub open spec fn is_last(props: Seq<(Seq<char>, ValueView)>, i: int) -> bool {
    forall|j: int| i < j < props.len() ==> (#[trigger] props[j]).0 != props[i].0
}

/// Whether a value is given for a property id.
pub open spec fn is_given(w: WriterView, props: Seq<(Seq<char>, ValueView)>, k: PropId) -> bool {
    exists|i: int|
        0 <= i < props.len() && w.schema[(SchemaKind::PropertyKey, (#[trigger] props[i]).0)] == k
}

/// Whether properties are those of before, with the given values over them: under the id of every
/// name the value that was given for it last; under every other id what was there.
pub open spec fn overlaid(
    w: WriterView,
    before: Map<PropId, ValueView>,
    props: Seq<(Seq<char>, ValueView)>,
    now: Map<PropId, ValueView>,
) -> bool {
    &&& forall|i: int|
        0 <= i < props.len() ==> w.schema.contains_key(
            (SchemaKind::PropertyKey, (#[trigger] props[i]).0),
        )
    &&& forall|i: int|
        0 <= i < props.len() && is_last(props, i) ==> {
            let k = w.schema[(SchemaKind::PropertyKey, (#[trigger] props[i]).0)];
            now.contains_key(k) && now[k] == props[i].1
        }
    &&& forall|k: PropId|
        !is_given(w, props, k) ==> #[trigger] now.contains_key(k) == before.contains_key(k) && (
        before.contains_key(k) ==> now[k] == before[k])
}

proof fn lemma_laid(m: Map<PropId, ValueView>, pairs: Seq<(PropId, ValueView)>)
    ensures
        ({
            let now = merge::laid_over(m, pairs);
            &&& forall|i: int|
                0 <= i < pairs.len() ==> now.contains_key((#[trigger] pairs[i]).0)
            &&& forall|i: int|
                0 <= i < pairs.len() && (forall|j: int|
                    i < j < pairs.len() ==> (#[trigger] pairs[j]).0 != pairs[i].0) ==> now[(
                #[trigger] pairs[i]).0] == pairs[i].1
            &&& forall|k: PropId|
                (forall|i: int| 0 <= i < pairs.len() ==> (#[trigger] pairs[i]).0 != k)
                    ==> #[trigger] now.contains_key(k) == m.contains_key(k) && (m.contains_key(k)
                    ==> now[k] == m[k])
        }),
    decreases pairs.len(),
{
    if pairs.len() > 0 {
        let less = pairs.drop_last();
        let before = merge::laid_over(m, less);
        let now = merge::laid_over(m, pairs);
        lemma_laid(m, less);
        assert forall|i: int| 0 <= i < pairs.len() implies now.contains_key(
            (#[trigger] pairs[i]).0,
        ) by {
            if i < less.len() {
                assert(less[i] == pairs[i]);
            }
        }
        assert forall|i: int|
            0 <= i < pairs.len() && (forall|j: int|
                i < j < pairs.len() ==> (#[trigger] pairs[j]).0 != pairs[i].0) implies now[(
        #[trigger] pairs[i]).0] == pairs[i].1 by {
            if i < less.len() {
                assert(less[i] == pairs[i]);
                assert(pairs[pairs.len() - 1].0 != pairs[i].0);
                assert forall|j: int| i < j < less.len() implies (#[trigger] less[j]).0
                    != less[i].0 by {
                    assert(less[j] == pairs[j]);
                }
            }
        }
        assert forall|k: PropId|
            (forall|i: int| 0 <= i < pairs.len() ==> (#[trigger] pairs[i]).0 != k) implies
            #[trigger] now.contains_key(k) == m.contains_key(k) && (m.contains_key(k) ==> now[k]
            == m[k]) by {
            assert(pairs[pairs.len() - 1].0 != k);
            assert forall|i: int| 0 <= i < less.len() implies (#[trigger] less[i]).0 != k by {
                assert(less[i] == pairs[i]);
            }
            assert(before.contains_key(k) == m.contains_key(k));
        }
    }
}

/// Values under the ids of their names, laid over nothing.
pub proof fn lemma_keyed(w: WriterView, props: Seq<(Seq<char>, ValueView)>)
    requires
        write_laws::wf(w),
        w.can_intern_all(SchemaKind::PropertyKey, model::names_of(props)),
    ensures
        ({
            let all = w.intern_all(SchemaKind::PropertyKey, model::names_of(props));
            overlaid(
                all.writer,
                Map::empty(),
                props,
                model::keyed(all.ids, model::values_of(props)),
            )
        }),
{
    let names = model::names_of(props);
    let values = model::values_of(props);
    let all = w.intern_all(SchemaKind::PropertyKey, names);
    let now = model::keyed(all.ids, values);
    let pairs = Seq::new(all.ids.len(), |i: int| (all.ids[i], values[i]));
    lemma_ids(w, SchemaKind::PropertyKey, names);
    lemma_laid(Map::empty(), pairs);
    write_laws::law_intern_all_keeps_wf(w, SchemaKind::PropertyKey, names);
    assert forall|i: int| 0 <= i < props.len() implies {
        let k = all.writer.schema[(SchemaKind::PropertyKey, (#[trigger] props[i]).0)];
        k == all.ids[i] && pairs[i] == (k, props[i].1) && all.writer.schema.contains_key(
            (SchemaKind::PropertyKey, props[i].0),
        )
    } by {
        assert(names[i] == props[i].0);
    }
    assert forall|i: int| 0 <= i < props.len() && is_last(props, i) implies {
        let k = all.writer.schema[(SchemaKind::PropertyKey, (#[trigger] props[i]).0)];
        now.contains_key(k) && now[k] == props[i].1
    } by {
        assert(pairs[i].0 == all.ids[i]);
        assert forall|j: int| i < j < pairs.len() implies (#[trigger] pairs[j]).0 != pairs[i].0 by {
            assert(props[j].0 != props[i].0);
        }
    }
    assert forall|k: PropId| !is_given(all.writer, props, k) implies #[trigger] now.contains_key(k)
        == Map::<PropId, ValueView>::empty().contains_key(k) by {
        assert forall|i: int| 0 <= i < pairs.len() implies (#[trigger] pairs[i]).0 != k by {
            assert(all.writer.schema[(SchemaKind::PropertyKey, props[i].0)] == pairs[i].0);
        }
    }
}

// ---------------------------------------------------------------------------
// Nodes
// ---------------------------------------------------------------------------

/// What a merged node holds, label by label and property by property: a label if the node had it or
/// is given it, and no other; under every property id the given value if one is given, and what was
/// there if none is. Which labels are given has no say in the properties, and the other way round.
pub proof fn law_merge_by_label_and_property(
    prior: Option<NodeView>,
    labels: Seq<LabelId>,
    props: Map<PropId, ValueView>,
    xid: Seq<char>,
)
    ensures
        ({
            let n = merge::merged(prior, labels, props, xid);
            let d = merge::label_delta(prior, labels);
            let had = |l: LabelId| prior is Some && prior->Some_0.labels.contains(l);
            &&& n.xid == xid
            &&& forall|k: PropId|
                props.contains_key(k) ==> #[trigger] n.props.contains_key(k) && n.props[k]
                    == props[k]
            &&& forall|k: PropId|
                !props.contains_key(k) && prior is Some && prior->Some_0.props.contains_key(k)
                    ==> #[trigger] n.props.contains_key(k) && n.props[k] == prior->Some_0.props[k]
            &&& forall|k: PropId| #[trigger]
                n.props.contains_key(k) ==> props.contains_key(k) || (prior is Some
                    && prior->Some_0.props.contains_key(k))
            &&& forall|l: LabelId| #[trigger]
                n.labels.contains(l) == (labels.contains(l) || had(l))
            &&& forall|l: LabelId| #[trigger]
                d.added.contains(l) == (labels.contains(l) && !had(l))
            &&& d.removed.len() == 0
            &&& forall|i: int, j: int|
                0 <= i < j < n.labels.len() ==> (#[trigger] n.labels[i]).0 < (
                #[trigger] n.labels[j]).0
            &&& forall|i: int, j: int|
                0 <= i < j < d.added.len() ==> (#[trigger] d.added[i]).0 < (
                #[trigger] d.added[j]).0
        }),
{
    write_laws::law_merged_labels(prior, labels, props, xid);
}

/// Whether a label is given.
pub open spec fn label_given(w: WriterView, labels: Seq<Seq<char>>, l: LabelId) -> bool {
    exists|i: int|
        0 <= i < labels.len() && w.schema[(SchemaKind::Label, #[trigger] labels[i])] == l.0
}

/// A node upsert, where the node that was there can be read.
pub open spec fn node_call(
    xid: Seq<u8>,
    labels: Seq<Seq<char>>,
    props: Seq<(Seq<char>, ValueView)>,
) -> Call {
    Call::UpsertNode { xid, labels, props, read: Ok(()) }
}

/// The node record that an upsert comes to.
pub open spec fn drafted_node(
    g: Graph,
    xid: Seq<u8>,
    labels: Seq<Seq<char>>,
    props: Seq<(Seq<char>, ValueView)>,
) -> NodeView {
    let (w1, r) = g.writer.resolve(xid, g.read(KeyView::Xid(xid)));
    let prior = g.read(KeyView::Node(r->Ok_0.uid));
    w1.draft_node(xid, labels, props, r->Ok_0, Ok(prior)).1->Ok_0.record
}

/// The node under a uid, if there is one.
pub open spec fn node_at(g: Graph, uid: Uid) -> Option<NodeView> {
    match model::read_node(g.read(KeyView::Node(uid))) {
        Ok(n) => n,
        Err(_) => None,
    }
}

/// The labels and the properties of a node, none if there is no node.
pub open spec fn labels_of(n: Option<NodeView>) -> Seq<LabelId> {
    match n {
        Some(n) => n.labels,
        None => Seq::empty(),
    }
}

pub open spec fn props_of(n: Option<NodeView>) -> Map<PropId, ValueView> {
    match n {
        Some(n) => n.props,
        None => Map::empty(),
    }
}

/// Whether everything that can be read of a graph is as it was, but for the changelog, the cursor,
/// the names and blocks, and two keys.
pub open spec fn unchanged_but(g: Graph, last: Graph, a: KeyView, b: KeyView) -> bool {
    forall|key: KeyView|
        !write_laws::bookkeeping(key) && key != a && key != b ==> #[trigger] store_laws::value_at(
            last.store(),
            key,
        ) == store_laws::value_at(g.store(), key)
}

/// Whether no node and no edge was marked as deleted, no posting touched, and nothing counted.
pub open spec fn same_marks(g: Graph, last: Graph) -> bool {
    &&& history::deleted(last.ops) == history::deleted(g.ops)
    &&& cut(last.ops) == cut(g.ops)
    &&& on_raw(last.ops) == on_raw(g.ops)
    &&& forall|key: KeyView| #[trigger]
        store_laws::counted(last.ops, key) == store_laws::counted(g.ops, key)
}

/// What a node upsert is made of.
proof fn lemma_node_parts(
    g: Graph,
    xid: Seq<u8>,
    labels: Seq<Seq<char>>,
    props: Seq<(Seq<char>, ValueView)>,
)
    requires
        commits(g, node_call(xid, labels, props)),
    ensures
        ({
            let call = node_call(xid, labels, props);
            let stored = g.read(KeyView::Xid(xid));
            let (w1, r) = g.writer.resolve(xid, stored);
            let found = r->Ok_0;
            let prior = g.read(KeyView::Node(found.uid));
            let (w2, drafted) = w1.draft_node(xid, labels, props, found, Ok(prior));
            let d = drafted->Ok_0;
            let put = model::node_put(d.uid, d.record);
            let c = model::node_change(ChangeOp::UpsertNode, d.uid, Some(d.delta));
            &&& r is Ok
            &&& drafted is Ok
            &&& put is Ok
            &&& history::prepared(g, call) == (w2, Some((d.ops.push(put->Ok_0), c, d.places)))
        }),
{
    history::lemma_plan_commits(g, node_call(xid, labels, props));
    reveal(history::prepared);
}

/// A node that is upserted reads back merged. It is found under its external id: the uid it had, or
/// the next one if it is new. It holds a label if it had it or it was given it, in ascending order;
/// under the id of every name the value that was given last; every other property as it was; and
/// its external id. Nothing else that can be read changes: no other node, no other mapping, no
/// edge's properties, no degree, no posting, no mark.
pub proof fn law_upserted_node_is_merged(
    g: Graph,
    xid: Seq<u8>,
    labels: Seq<Seq<char>>,
    props: Seq<(Seq<char>, ValueView)>,
)
    requires
        commits(g, node_call(xid, labels, props)),
        node::node_encodable(drafted_node(g, xid, labels, props)),
    ensures
        ({
            let last = done(g, node_call(xid, labels, props));
            let stored = g.read(KeyView::Xid(xid));
            model::mapped_uid(last.read(KeyView::Xid(xid))) matches Ok(Some(uid)) && {
                let before = node_at(g, uid);
                &&& stored is Some ==> model::mapped_uid(stored) == Ok::<Option<Uid>, ErrorView>(
                    Some(uid),
                )
                &&& stored is None ==> uid.0 == g.writer.allocs.uid.next
                &&& model::read_node(g.read(KeyView::Node(uid))) is Ok
                &&& node_at(last, uid) matches Some(n) && {
                    &&& vstd::utf8::encode_utf8(n.xid) == xid
                    &&& overlaid(last.writer, props_of(before), props, n.props)
                    &&& forall|l: LabelId| #[trigger]
                        n.labels.contains(l) == (labels_of(before).contains(l) || label_given(
                            last.writer,
                            labels,
                            l,
                        ))
                    &&& forall|i: int, j: int|
                        0 <= i < j < n.labels.len() ==> (#[trigger] n.labels[i]).0 < (
                        #[trigger] n.labels[j]).0
                }
                &&& unchanged_but(g, last, KeyView::Node(uid), KeyView::Xid(xid))
                &&& stored is Some ==> last.read(KeyView::Xid(xid)) == stored
                &&& same_marks(g, last)
            }
        }),
{
    let call = node_call(xid, labels, props);
    let last = done(g, call);
    let stored = g.read(KeyView::Xid(xid));
    lemma_committed(g, call);
    lemma_node_parts(g, xid, labels, props);
    let (w1, r) = g.writer.resolve(xid, stored);
    let found = r->Ok_0;
    let uid = found.uid;
    let prior = g.read(KeyView::Node(uid));
    let (w2, drafted) = w1.draft_node(xid, labels, props, found, Ok(prior));
    let d = drafted->Ok_0;
    let put = model::node_put(d.uid, d.record)->Ok_0;
    let ops = d.ops.push(put);
    assert(ops.drop_last() =~= found.ops);
    lemma_node_record(g, xid, labels, props);
    codec_laws::law_capped_node_fits(d.record);
    codec_laws::law_node_round_trip(d.record);
    let n = d.record;
    assert(store_laws::value_at(last.store(), KeyView::Node(uid)) == Some(
        PayloadView::Raw(node::node_bytes(n)),
    ));
    assert(node_at(last, uid) == Some(n));
    if stored is None {
        fixed::law_fixed_round_trip(uid.0, 0, "Xid mapping");
        assert(found.ops.drop_last() =~= Seq::empty());
        reveal_with_fuel(store_laws::applied, 3);
    } else {
        assert(found.ops =~= Seq::empty());
        reveal_with_fuel(store_laws::applied, 2);
    }
    assert forall|key: KeyView|
        !write_laws::bookkeeping(key) && key != KeyView::Node(uid) && key != KeyView::Xid(
            xid,
        ) implies #[trigger] store_laws::value_at(last.store(), key) == store_laws::value_at(
        g.store(),
        key,
    ) by {
        assert(store_laws::untouched(ops, key));
        store_laws::law_untouched_stays(g.store(), ops, key);
    }
    assert forall|i: int| 0 <= i < ops.len() implies #[trigger] ops[i] is Put && !is_raw(
        ops[i],
    ) by {}
    lemma_puts_mark_nothing(g, last, ops);
}

/// Puts that are on no posting mark nothing, touch no posting and count nothing.
proof fn lemma_puts_mark_nothing(g: Graph, last: Graph, ops: Seq<OpView>)
    requires
        forall|i: int| 0 <= i < ops.len() ==> #[trigger] ops[i] is Put && !is_raw(ops[i]),
        forall|key: KeyView| #[trigger]
            store_laws::counted(last.ops, key) == store_laws::counted(g.ops, key)
                + store_laws::counted(ops, key),
        forall|op: OpView|
            !(op is Put) ==> #[trigger] last.ops.contains(op) == (g.ops.contains(op)
                || ops.contains(op)),
        on_raw(last.ops) == on_raw(g.ops) + on_raw(ops),
    ensures
        same_marks(g, last),
{
    assert forall|op: OpView| !(op is Put) implies !(#[trigger] ops.contains(op)) by {
        if ops.contains(op) {
            let i = choose|i: int| 0 <= i < ops.len() && ops[i] == op;
            assert(ops[i] is Put);
        }
    }
    assert forall|u: u64| history::deleted(last.ops).contains(u) == history::deleted(
        g.ops,
    ).contains(u) by {
        assert(!ops.contains(OpView::DeleteNode { uid: Uid(u) }));
    }
    assert(history::deleted(last.ops) =~= history::deleted(g.ops));
    assert forall|e: (PredId, Uid, Uid)| cut(last.ops).contains(e) == cut(g.ops).contains(e) by {
        assert(!ops.contains(OpView::DeleteEdge { pred: e.0, anchor: e.1, other: e.2 }));
    }
    assert(cut(last.ops) =~= cut(g.ops));
    lemma_all_raw(ops);
    assert(on_raw(g.ops) + Seq::<OpView>::empty() =~= on_raw(g.ops));
    assert forall|key: KeyView| #[trigger]
        store_laws::counted(last.ops, key) == store_laws::counted(g.ops, key) by {
        write_laws::lemma_puts_count_nothing(ops, key);
    }
}

/// A node upsert is drafted merged: with a label if the node had it or it is given it, in ascending
/// order; under the id of every name the value that is given last; every other property as it was;
/// and its external id. What it adds are the labels it is given and did not have; it removes none.
pub proof fn law_drafted_node_is_merged(
    w: WriterView,
    xid: Seq<u8>,
    labels: Seq<Seq<char>>,
    props: Seq<(Seq<char>, ValueView)>,
    found: ResolutionView,
    prior: Option<Seq<u8>>,
)
    requires
        write_laws::wf(w),
        w.can_draft_node(labels, props),
        model::read_node(prior) is Ok,
        vstd::utf8::valid_utf8(xid),
    ensures
        ({
            let (w2, drafted) = w.draft_node(xid, labels, props, found, Ok(prior));
            let before = model::read_node(prior)->Ok_0;
            drafted matches Ok(d) && {
                let n = d.record;
                &&& d.uid == found.uid
                &&& d.ops == found.ops
                &&& d.wf()
                &&& vstd::utf8::encode_utf8(n.xid) == xid
                &&& overlaid(w2, props_of(before), props, n.props)
                &&& forall|l: LabelId| #[trigger]
                    n.labels.contains(l) == (labels_of(before).contains(l) || label_given(
                        w2,
                        labels,
                        l,
                    ))
                &&& forall|i: int, j: int|
                    0 <= i < j < n.labels.len() ==> (#[trigger] n.labels[i]).0 < (
                    #[trigger] n.labels[j]).0
                &&& forall|l: LabelId| #[trigger]
                    d.delta.added.contains(l) == (label_given(w2, labels, l) && !labels_of(
                        before,
                    ).contains(l))
                &&& forall|i: int, j: int|
                    0 <= i < j < d.delta.added.len() ==> (#[trigger] d.delta.added[i]).0 < (
                    #[trigger] d.delta.added[j]).0
                &&& d.delta.removed.len() == 0
            }
        }),
{
    let (w2, drafted) = w.draft_node(xid, labels, props, found, Ok(prior));
    let d = drafted->Ok_0;
    let before = model::read_node(prior)->Ok_0;
    let names = model::names_of(props);
    let l = w.intern_all(SchemaKind::Label, labels);
    let p = l.writer.intern_all(SchemaKind::PropertyKey, names);
    write_laws::law_intern_all_keeps_wf(w, SchemaKind::Label, labels);
    lemma_ids(w, SchemaKind::Label, labels);
    lemma_ids(l.writer, SchemaKind::PropertyKey, names);
    lemma_keyed(l.writer, props);
    vstd::utf8::decode_utf8_encode_utf8(xid);
    let ids = model::label_ids(l.ids);
    let given = model::keyed(p.ids, model::values_of(props));
    law_merge_by_label_and_property(before, ids, given, d.record.xid);
    assert forall|x: LabelId| ids.contains(x) == label_given(w2, labels, x) by {
        if ids.contains(x) {
            let i = choose|i: int| 0 <= i < ids.len() && ids[i] == x;
            assert(w2.schema[(SchemaKind::Label, labels[i])] == x.0);
        }
        if label_given(w2, labels, x) {
            let i = choose|i: int|
                0 <= i < labels.len() && w2.schema[(SchemaKind::Label, #[trigger] labels[i])]
                    == x.0;
            assert(ids[i] == x);
        }
    }
    merge::lemma_sorted_len(
        ids.to_set().difference(merge::labels_before(before)),
        merge::labels_before(before).union(ids.to_set()),
        0x1_0000_0000,
    );
}

/// What the record of an upsert holds, and what its changelog entry says of the labels.
proof fn lemma_node_record(
    g: Graph,
    xid: Seq<u8>,
    labels: Seq<Seq<char>>,
    props: Seq<(Seq<char>, ValueView)>,
)
    requires
        commits(g, node_call(xid, labels, props)),
    ensures
        ({
            let stored = g.read(KeyView::Xid(xid));
            let (w1, r) = g.writer.resolve(xid, stored);
            let found = r->Ok_0;
            let prior = g.read(KeyView::Node(found.uid));
            let (w2, drafted) = w1.draft_node(xid, labels, props, found, Ok(prior));
            let d = drafted->Ok_0;
            let n = d.record;
            let before = node_at(g, found.uid);
            &&& d.uid == found.uid
            &&& d.wf()
            &&& model::read_node(prior) is Ok
            &&& vstd::utf8::encode_utf8(n.xid) == xid
            &&& overlaid(w2, props_of(before), props, n.props)
            &&& forall|l: LabelId| #[trigger]
                n.labels.contains(l) == (labels_of(before).contains(l) || label_given(
                    w2,
                    labels,
                    l,
                ))
            &&& forall|i: int, j: int|
                0 <= i < j < n.labels.len() ==> (#[trigger] n.labels[i]).0 < (
                #[trigger] n.labels[j]).0
            &&& forall|l: LabelId| #[trigger]
                d.delta.added.contains(l) == (label_given(w2, labels, l) && !labels_of(
                    before,
                ).contains(l))
            &&& forall|i: int, j: int|
                0 <= i < j < d.delta.added.len() ==> (#[trigger] d.delta.added[i]).0 < (
                #[trigger] d.delta.added[j]).0
            &&& d.delta.removed.len() == 0
        }),
{
    lemma_node_parts(g, xid, labels, props);
    let stored = g.read(KeyView::Xid(xid));
    let w = g.writer;
    let (w1, r) = w.resolve(xid, stored);
    let found = r->Ok_0;
    let prior = g.read(KeyView::Node(found.uid));
    lemma_draft_in_range(w, w1, labels, props);
    write_laws::law_resolve_keeps_wf(w, xid, stored);
    law_drafted_node_is_merged(w1, xid, labels, props, found, prior);
}

/// Names can be interned after a uid was drawn where they could before.
proof fn lemma_draft_in_range(
    w: WriterView,
    w1: WriterView,
    labels: Seq<Seq<char>>,
    props: Seq<(Seq<char>, ValueView)>,
)
    requires
        w.can_draft_node(labels, props),
        w.schema == w1.schema,
        w.allocs.label == w1.allocs.label,
        w.allocs.pred == w1.allocs.pred,
        w.allocs.prop == w1.allocs.prop,
    ensures
        w1.can_draft_node(labels, props),
{
    history::lemma_names_apart(w, w1, SchemaKind::Label, labels);
    history::lemma_names_apart(
        w.intern_all(SchemaKind::Label, labels).writer,
        w1.intern_all(SchemaKind::Label, labels).writer,
        SchemaKind::PropertyKey,
        model::names_of(props),
    );
}

/// The changelog entry of a node upsert: that it was one, of which node, and which labels the node
/// gained by it, in ascending order. It loses none, and nothing else is said.
pub proof fn law_node_upsert_is_logged(
    g: Graph,
    xid: Seq<u8>,
    labels: Seq<Seq<char>>,
    props: Seq<(Seq<char>, ValueView)>,
)
    requires
        commits(g, node_call(xid, labels, props)),
        node::node_encodable(drafted_node(g, xid, labels, props)),
    ensures
        ({
            let last = done(g, node_call(xid, labels, props));
            let seq = last.writer.latest_seq;
            &&& seq == g.writer.allocs.seq.next + 1
            &&& logged(last, seq) matches Some(c) && {
                &&& c.seq == seq
                &&& c.op == ChangeOp::UpsertNode
                &&& model::mapped_uid(last.read(KeyView::Xid(xid))) == Ok::<Option<Uid>, ErrorView>(
                    Some(c.subject_uid),
                )
                &&& c.pred_id is None
                &&& c.object_uid is None
                &&& c.value is None
                &&& c.label_delta matches Some(d) && {
                    &&& d.removed.len() == 0
                    &&& forall|l: LabelId| #[trigger]
                        d.added.contains(l) == (label_given(last.writer, labels, l) && !labels_of(
                            node_at(g, c.subject_uid),
                        ).contains(l))
                    &&& forall|i: int, j: int|
                        0 <= i < j < d.added.len() ==> (#[trigger] d.added[i]).0 < (
                        #[trigger] d.added[j]).0
                }
            }
        }),
{
    let call = node_call(xid, labels, props);
    lemma_committed(g, call);
    lemma_node_parts(g, xid, labels, props);
    lemma_node_record(g, xid, labels, props);
    law_upserted_node_is_merged(g, xid, labels, props);
    let stored = g.read(KeyView::Xid(xid));
    let (w1, r) = g.writer.resolve(xid, stored);
    let prior = g.read(KeyView::Node(r->Ok_0.uid));
    let d = w1.draft_node(xid, labels, props, r->Ok_0, Ok(prior)).1->Ok_0;
    assert(codec_laws::change_fits(
        model::node_change(ChangeOp::UpsertNode, d.uid, Some(d.delta)),
    ));
}

// ---------------------------------------------------------------------------
// Edges
// ---------------------------------------------------------------------------

/// An edge upsert, where everything it reads on the way can be read.
pub open spec fn edge_call(
    src: Seq<u8>,
    pred: Seq<char>,
    dst: Seq<u8>,
    props: Seq<(Seq<char>, ValueView)>,
    out_ops: Seq<OpView>,
    in_ops: Seq<OpView>,
) -> Call {
    Call::UpsertEdge { src, pred, dst, props, read: Ok(()), postings: Ok((out_ops, in_ops)) }
}

/// Whether an external id is mapped to no uid.
pub open spec fn is_new_end(g: Graph, xid: Seq<u8>) -> bool {
    g.read(KeyView::Xid(xid)) is None
}

/// The uid of the source of an edge: the one it has, or the next one.
pub open spec fn src_uid(g: Graph, src: Seq<u8>) -> Uid {
    match model::mapped_uid(g.read(KeyView::Xid(src))) {
        Ok(Some(uid)) => uid,
        _ => Uid(g.writer.allocs.uid.next as u64),
    }
}

/// The uid of the target of an edge: the one it has, or the next one that the source leaves.
pub open spec fn dst_uid(g: Graph, src: Seq<u8>, dst: Seq<u8>) -> Uid {
    match model::mapped_uid(g.read(KeyView::Xid(dst))) {
        Ok(Some(uid)) => uid,
        _ => if is_new_end(g, src) {
            Uid((g.writer.allocs.uid.next + 1) as u64)
        } else {
            Uid(g.writer.allocs.uid.next as u64)
        },
    }
}

/// Whether there is, under a uid, a node that has an external id, no label and no property.
pub open spec fn is_bare(g: Graph, uid: Uid, xid: Seq<u8>) -> bool {
    node_at(g, uid) matches Some(n) && {
        &&& n.labels.len() == 0
        &&& forall|k: PropId| !(#[trigger] n.props.contains_key(k))
        &&& vstd::utf8::encode_utf8(n.xid) == xid
    }
}

/// Whether an edge upsert may write a plain value under a key: the mappings and nodes of new ends,
/// and the properties if any are given.
pub open spec fn edge_writes(
    g: Graph,
    src: Seq<u8>,
    dst: Seq<u8>,
    p: PredId,
    some_props: bool,
    key: KeyView,
) -> bool {
    let (s, t) = (src_uid(g, src), dst_uid(g, src, dst));
    ||| is_new_end(g, src) && (key == KeyView::Xid(src) || key == KeyView::Node(s))
    ||| is_new_end(g, dst) && (key == KeyView::Xid(dst) || key == KeyView::Node(t))
    ||| some_props && key == KeyView::EdgeProp(s, p, t)
}

/// What an edge upsert is made of.
proof fn lemma_edge_parts(
    g: Graph,
    src: Seq<u8>,
    pred: Seq<char>,
    dst: Seq<u8>,
    props: Seq<(Seq<char>, ValueView)>,
    out_ops: Seq<OpView>,
    in_ops: Seq<OpView>,
)
    requires
        commits(g, edge_call(src, pred, dst, props, out_ops, in_ops)),
    ensures
        ({
            let call = edge_call(src, pred, dst, props, out_ops, in_ops);
            let (w1, drafted) = history::drafted_edge(g, src, pred, dst, Ok(()));
            let d = drafted->Ok_0;
            let w2 = w1.intern_all(SchemaKind::PropertyKey, model::names_of(props)).writer;
            let held = w1.edge_props(props);
            let (w, write) = history::prepared(g, call);
            let p = w1.schema[(SchemaKind::Predicate, pred)];
            &&& drafted is Ok
            &&& w == w2
            &&& write is Some
            &&& write->Some_0.0 == model::edge_ops(d, out_ops, in_ops, held)
            &&& write->Some_0.1 == model::edge_change(ChangeOp::UpsertEdge, d.src, d.pred, d.dst)
            &&& history::plan(g, call).1 == Some(
                w1.upsert_edge_with_props(d, out_ops, in_ops, props).1,
            )
            &&& write_laws::wf(w1)
            &&& d.src == src_uid(g, src)
            &&& d.dst == dst_uid(g, src, dst)
            &&& w1.schema.contains_key((SchemaKind::Predicate, pred))
            &&& d.pred == PredId(p)
            &&& w1.can_intern_all(SchemaKind::PropertyKey, model::names_of(props))
            &&& codec_laws::props_fit(held)
            &&& forall|k: (SchemaKind, Seq<char>)| #[trigger]
                g.writer.schema.contains_key(k) ==> w1.schema.contains_key(k) && w1.schema[k]
                    == g.writer.schema[k]
            &&& forall|k: (SchemaKind, Seq<char>)| #[trigger]
                w1.schema.contains_key(k) ==> g.writer.schema.contains_key(k) || k == (
                    SchemaKind::Predicate,
                    pred,
                )
        }),
{
    let call = edge_call(src, pred, dst, props, out_ops, in_ops);
    history::lemma_plan_commits(g, call);
    reveal(history::prepared);
    reveal(history::plan);
    write_laws::law_edges_and_deletions_keep_wf(
        g.writer,
        src,
        g.read(KeyView::Xid(src)),
        pred,
        dst,
        Ok(g.read(KeyView::Xid(dst))),
        None,
        history::drafted_edge(g, src, pred, dst, Ok(())).1->Ok_0,
        out_ops,
        in_ops,
        Seq::empty(),
        0,
        Err(ErrorView::Storage),
    );
}

/// A drafted edge upsert is about the edge that was asked for: from the source, by the uid that is
/// stored for it or the next one; to the target, by the uid that is stored for it or the next one
/// that the source leaves; under the id that the predicate is known by. It takes what the source
/// takes, and after that what the target takes.
pub proof fn law_drafted_edge_has_its_ids(
    w: WriterView,
    src: Seq<u8>,
    src_stored: Option<Seq<u8>>,
    pred: Seq<char>,
    dst: Seq<u8>,
    dst_stored: Option<Seq<u8>>,
)
    requires
        w.can_resolve_ends(src_stored, Ok(dst_stored)),
        w.can_intern(SchemaKind::Predicate, pred),
        step_laws::end_fault(src, src_stored) is None,
        step_laws::end_fault(dst, dst_stored) is None,
    ensures
        ({
            let (after, drafted) = w.draft_edge(src, src_stored, pred, dst, Ok(dst_stored));
            let (w1, first) = w.resolve_and_stub(src, src_stored);
            let second = w1.resolve_and_stub(dst, dst_stored).1;
            let next = w.allocs.uid.next as int;
            drafted matches Ok(d) && {
                &&& d.src.0 == match src_stored {
                    Some(b) => format_laws::u64_be_at(b, 0),
                    None => next,
                }
                &&& d.dst.0 == match dst_stored {
                    Some(b) => format_laws::u64_be_at(b, 0),
                    None => if src_stored is None {
                        next + 1
                    } else {
                        next
                    },
                }
                &&& d.ops == first->Ok_0.ops + second->Ok_0.ops
                &&& after.schema.contains_key((SchemaKind::Predicate, pred))
                &&& d.pred.0 == after.schema[(SchemaKind::Predicate, pred)]
                &&& w.schema.contains_key((SchemaKind::Predicate, pred)) ==> d.pred.0 == w.schema[(
                    SchemaKind::Predicate,
                    pred,
                )]
            }
        }),
{
    step_laws::law_drafting_an_edge_fails_where_due(
        w,
        src,
        src_stored,
        pred,
        dst,
        Ok(dst_stored),
    );
    step_laws::law_resolving_is_spelled(w, src, src_stored);
    let w1 = w.resolve_and_stub(src, src_stored).0;
    step_laws::law_resolving_is_spelled(w1, dst, dst_stored);
    let w2 = w1.resolve_and_stub(dst, dst_stored).0;
    step_laws::law_interning_is_spelled(w2, SchemaKind::Predicate, pred);
}

/// The operations that map the new ends of an edge and make nodes of them.
proof fn lemma_end_ops(
    g: Graph,
    src: Seq<u8>,
    pred: Seq<char>,
    dst: Seq<u8>,
    props: Seq<(Seq<char>, ValueView)>,
    out_ops: Seq<OpView>,
    in_ops: Seq<OpView>,
)
    requires
        commits(g, edge_call(src, pred, dst, props, out_ops, in_ops)),
    ensures
        ({
            let d = history::drafted_edge(g, src, pred, dst, Ok(())).1->Ok_0;
            forall|i: int|
                0 <= i < d.ops.len() ==> {
                    &&& #[trigger] d.ops[i] matches OpView::Put { key, .. } && {
                        ||| is_new_end(g, src) && (key == KeyView::Xid(src) || key == KeyView::Node(
                            d.src,
                        ))
                        ||| is_new_end(g, dst) && (key == KeyView::Xid(dst) || key == KeyView::Node(
                            d.dst,
                        ))
                    }
                }
        }),
{
    lemma_edge_parts(g, src, pred, dst, props, out_ops, in_ops);
    let d = history::drafted_edge(g, src, pred, dst, Ok(())).1->Ok_0;
    let (ws, s) = g.writer.resolve_and_stub(src, g.read(KeyView::Xid(src)));
    let (wt, t) = ws.resolve_and_stub(dst, g.read(KeyView::Xid(dst)));
    let first = s->Ok_0.ops;
    let second = t->Ok_0.ops;
    assert forall|i: int| 0 <= i < d.ops.len() implies {
        &&& #[trigger] d.ops[i] matches OpView::Put { key, .. } && {
            ||| is_new_end(g, src) && (key == KeyView::Xid(src) || key == KeyView::Node(d.src))
            ||| is_new_end(g, dst) && (key == KeyView::Xid(dst) || key == KeyView::Node(d.dst))
        }
    } by {
        if i < first.len() {
            assert(d.ops[i] == first[i]);
        } else {
            assert(d.ops[i] == second[i - first.len()]);
        }
    }
}

/// The operations of an edge upsert, in order: those on its ends, those on the postings, the two on
/// the degrees, and the one on the properties if there are any.
proof fn lemma_edge_shape(
    g: Graph,
    src: Seq<u8>,
    pred: Seq<char>,
    dst: Seq<u8>,
    props: Seq<(Seq<char>, ValueView)>,
    out_ops: Seq<OpView>,
    in_ops: Seq<OpView>,
)
    requires
        commits(g, edge_call(src, pred, dst, props, out_ops, in_ops)),
    ensures
        ({
            let call = edge_call(src, pred, dst, props, out_ops, in_ops);
            let d = history::drafted_edge(g, src, pred, dst, Ok(())).1->Ok_0;
            let held = history::drafted_edge(g, src, pred, dst, Ok(())).0.edge_props(props);
            let ops = history::prepared(g, call).1->Some_0.0;
            let bumps = model::degree_ops(d.src, d.pred, d.dst, 1);
            let tail = weave_laws::prop_ops(d, held);
            &&& ops == d.ops + out_ops + in_ops + bumps + tail
            &&& forall|i: int| 0 <= i < bumps.len() ==> #[trigger] bumps[i] is Merge
            &&& forall|i: int| 0 <= i < bumps.len() ==> !is_raw(#[trigger] bumps[i])
            &&& props.len() == 0 ==> tail.len() == 0
            &&& forall|i: int|
                0 <= i < tail.len() ==> (#[trigger] tail[i] matches OpView::Put { key, .. } && key
                    == KeyView::EdgeProp(d.src, d.pred, d.dst))
            &&& forall|i: int| 0 <= i < ops.len() ==> match #[trigger] ops[i] {
                OpView::Put { key, .. } => key is Raw || edge_writes(
                    g,
                    src,
                    dst,
                    d.pred,
                    props.len() > 0,
                    key,
                ),
                OpView::Merge { .. } => true,
                OpView::Delete { key } => key is Raw,
                _ => false,
            }
        }),
{
    lemma_edge_parts(g, src, pred, dst, props, out_ops, in_ops);
    lemma_end_ops(g, src, pred, dst, props, out_ops, in_ops);
    let call = edge_call(src, pred, dst, props, out_ops, in_ops);
    let (w1, drafted) = history::drafted_edge(g, src, pred, dst, Ok(()));
    let d = drafted->Ok_0;
    let held = w1.edge_props(props);
    let ops = history::prepared(g, call).1->Some_0.0;
    let bumps = model::degree_ops(d.src, d.pred, d.dst, 1);
    let tail = weave_laws::prop_ops(d, held);
    assert(ops =~= d.ops + out_ops + in_ops + bumps + tail);
    if props.len() == 0 {
        lemma_keyed(w1, props);
        assert(held =~= Map::empty());
    }
    let a = d.ops.len() as int;
    let b = a + out_ops.len();
    let e = b + in_ops.len();
    assert forall|i: int| 0 <= i < ops.len() implies match #[trigger] ops[i] {
        OpView::Put { key, .. } => key is Raw || edge_writes(
            g,
            src,
            dst,
            d.pred,
            props.len() > 0,
            key,
        ),
        OpView::Merge { .. } => true,
        OpView::Delete { key } => key is Raw,
        _ => false,
    } by {
        if i < a {
            assert(ops[i] == d.ops[i]);
        } else if i < b {
            assert(ops[i] == out_ops[i - a]);
        } else if i < e {
            assert(ops[i] == in_ops[i - b]);
        } else if i < e + 2 {
            assert(ops[i] == bumps[i - e]);
        } else {
            assert(ops[i] == tail[i - e - 2]);
        }
    }
}

/// The ends of an upserted edge are found under their external ids: the uids they had, or the next
/// ones. An end that is new is a node with its external id, no label and no property.
pub proof fn law_upserted_edge_has_its_ends(
    g: Graph,
    src: Seq<u8>,
    pred: Seq<char>,
    dst: Seq<u8>,
    props: Seq<(Seq<char>, ValueView)>,
    out_ops: Seq<OpView>,
    in_ops: Seq<OpView>,
)
    requires
        commits(g, edge_call(src, pred, dst, props, out_ops, in_ops)),
    ensures
        ({
            let last = done(g, edge_call(src, pred, dst, props, out_ops, in_ops));
            let (s, t) = (src_uid(g, src), dst_uid(g, src, dst));
            &&& model::mapped_uid(last.read(KeyView::Xid(dst))) == Ok::<Option<Uid>, ErrorView>(
                Some(t),
            )
            &&& src != dst || !is_new_end(g, src) ==> model::mapped_uid(
                last.read(KeyView::Xid(src)),
            ) == Ok::<Option<Uid>, ErrorView>(Some(s))
            &&& is_new_end(g, src) ==> is_bare(last, s, src)
            &&& is_new_end(g, dst) ==> is_bare(last, t, dst)
        }),
{
    let call = edge_call(src, pred, dst, props, out_ops, in_ops);
    law_upserted_edge_leaves_the_rest(g, src, pred, dst, props, out_ops, in_ops);
    lemma_edge_parts(g, src, pred, dst, props, out_ops, in_ops);
    let last = done(g, call);
    let (w1, drafted) = history::drafted_edge(g, src, pred, dst, Ok(()));
    let d = drafted->Ok_0;
    let m = g.store();
    let batch = w1.upsert_edge_with_props(d, out_ops, in_ops, props).1;
    store_laws::law_applied_in_order(Map::empty(), g.ops, batch.ops);
    assert(last.store() == store_laws::applied(m, batch.ops));
    write_laws::law_new_endpoints_are_nodes(
        g.writer,
        src,
        g.read(KeyView::Xid(src)),
        pred,
        dst,
        g.read(KeyView::Xid(dst)),
        out_ops,
        in_ops,
        props,
        m,
    );
    lemma_new_ends_are_text(g, src, pred, dst, props, out_ops, in_ops);
    if is_new_end(g, src) {
        vstd::utf8::decode_utf8_encode_utf8(src);
    }
    if is_new_end(g, dst) {
        vstd::utf8::decode_utf8_encode_utf8(dst);
    }
    assert(store_laws::value_at(last.store(), KeyView::Xid(dst)) == store_laws::value_at(
        m,
        KeyView::Xid(dst),
    ) || is_new_end(g, dst));
    assert(store_laws::value_at(last.store(), KeyView::Xid(src)) == store_laws::value_at(
        m,
        KeyView::Xid(src),
    ) || is_new_end(g, src));
}

/// The properties that an edge is upserted with are read back as those of this edge: under the id
/// of every name the value that was given last, and nothing else, whatever the edge had.
pub proof fn law_upserted_edge_has_its_properties(
    g: Graph,
    src: Seq<u8>,
    pred: Seq<char>,
    dst: Seq<u8>,
    props: Seq<(Seq<char>, ValueView)>,
    out_ops: Seq<OpView>,
    in_ops: Seq<OpView>,
)
    requires
        commits(g, edge_call(src, pred, dst, props, out_ops, in_ops)),
        props.len() > 0,
    ensures
        ({
            let last = done(g, edge_call(src, pred, dst, props, out_ops, in_ops));
            let (s, t) = (src_uid(g, src), dst_uid(g, src, dst));
            let p = PredId(last.writer.schema[(SchemaKind::Predicate, pred)]);
            &&& last.writer.schema.contains_key((SchemaKind::Predicate, pred))
            &&& model::read_edge_props(last.read(KeyView::EdgeProp(s, p, t))) matches Ok(Some(now))
                && overlaid(last.writer, Map::empty(), props, now)
        }),
{
    let call = edge_call(src, pred, dst, props, out_ops, in_ops);
    lemma_committed(g, call);
    lemma_edge_parts(g, src, pred, dst, props, out_ops, in_ops);
    let last = done(g, call);
    let (w1, drafted) = history::drafted_edge(g, src, pred, dst, Ok(()));
    let d = drafted->Ok_0;
    let m = g.store();
    let batch = w1.upsert_edge_with_props(d, out_ops, in_ops, props).1;
    store_laws::law_applied_in_order(Map::empty(), g.ops, batch.ops);
    assert(last.store() == store_laws::applied(m, batch.ops));
    lemma_ids(w1, SchemaKind::PropertyKey, model::names_of(props));
    assert(w1.schema.contains_key((SchemaKind::Predicate, pred)));
    write_laws::law_edge_props_read_back(w1, d, out_ops, in_ops, props, m);
    lemma_keyed(w1, props);
}

/// Where the names of an edge's properties are distinct, the edge reads back, for each of them, the
/// value given with it, and nothing else.
pub proof fn law_distinct_edge_properties_are_all_there(
    g: Graph,
    src: Seq<u8>,
    pred: Seq<char>,
    dst: Seq<u8>,
    props: Seq<(Seq<char>, ValueView)>,
    out_ops: Seq<OpView>,
    in_ops: Seq<OpView>,
)
    requires
        commits(g, edge_call(src, pred, dst, props, out_ops, in_ops)),
        props.len() > 0,
        forall|i: int, j: int|
            0 <= i < j < props.len() ==> (#[trigger] props[i]).0 != (#[trigger] props[j]).0,
    ensures
        ({
            let last = done(g, edge_call(src, pred, dst, props, out_ops, in_ops));
            let p = PredId(last.writer.schema[(SchemaKind::Predicate, pred)]);
            let key = KeyView::EdgeProp(src_uid(g, src), p, dst_uid(g, src, dst));
            &&& model::read_edge_props(last.read(key)) matches Ok(Some(now)) && {
                &&& forall|i: int|
                    0 <= i < props.len() ==> {
                        let id = last.writer.schema[(
                            SchemaKind::PropertyKey,
                            (#[trigger] props[i]).0,
                        )];
                        now.contains_key(id) && now[id] == props[i].1
                    }
                &&& forall|id: PropId| #[trigger]
                    now.contains_key(id) ==> exists|i: int|
                        0 <= i < props.len() && id == last.writer.schema[(
                            SchemaKind::PropertyKey,
                            (#[trigger] props[i]).0,
                        )]
            }
        }),
{
    law_upserted_edge_has_its_properties(g, src, pred, dst, props, out_ops, in_ops);
    let last = done(g, edge_call(src, pred, dst, props, out_ops, in_ops));
    let p = PredId(last.writer.schema[(SchemaKind::Predicate, pred)]);
    let key = KeyView::EdgeProp(src_uid(g, src), p, dst_uid(g, src, dst));
    let now = model::read_edge_props(last.read(key))->Ok_0->Some_0;
    assert forall|i: int| 0 <= i < props.len() implies {
        let id = last.writer.schema[(SchemaKind::PropertyKey, (#[trigger] props[i]).0)];
        now.contains_key(id) && now[id] == props[i].1
    } by {
        assert(is_last(props, i));
    }
}

/// An edge upsert counts once in the outgoing degree of the source and once in the incoming degree
/// of the target, and in no other counter. The postings gain the given operations, the source's
/// first, and no others. Nothing is marked as deleted.
pub proof fn law_upserted_edge_counts_once(
    g: Graph,
    src: Seq<u8>,
    pred: Seq<char>,
    dst: Seq<u8>,
    props: Seq<(Seq<char>, ValueView)>,
    out_ops: Seq<OpView>,
    in_ops: Seq<OpView>,
)
    requires
        commits(g, edge_call(src, pred, dst, props, out_ops, in_ops)),
    ensures
        ({
            let last = done(g, edge_call(src, pred, dst, props, out_ops, in_ops));
            let (s, t) = (src_uid(g, src), dst_uid(g, src, dst));
            let p = PredId(last.writer.schema[(SchemaKind::Predicate, pred)]);
            &&& forall|key: KeyView|
                !(key is Raw) ==> #[trigger] store_laws::counted(last.ops, key)
                    == store_laws::counted(g.ops, key) + one_if(
                    key == KeyView::Meta(store::degree_name(p, Direction::Out, s)),
                ) + one_if(key == KeyView::Meta(store::degree_name(p, Direction::In, t)))
            &&& on_raw(last.ops) == on_raw(g.ops) + out_ops + in_ops
            &&& history::deleted(last.ops) == history::deleted(g.ops)
            &&& cut(last.ops) == cut(g.ops)
        }),
{
    let call = edge_call(src, pred, dst, props, out_ops, in_ops);
    lemma_committed(g, call);
    lemma_edge_parts(g, src, pred, dst, props, out_ops, in_ops);
    lemma_end_ops(g, src, pred, dst, props, out_ops, in_ops);
    lemma_edge_shape(g, src, pred, dst, props, out_ops, in_ops);
    let last = done(g, call);
    let (s, t) = (src_uid(g, src), dst_uid(g, src, dst));
    let (w1, drafted) = history::drafted_edge(g, src, pred, dst, Ok(()));
    let d = drafted->Ok_0;
    lemma_ids(w1, SchemaKind::PropertyKey, model::names_of(props));
    assert(w1.schema.contains_key((SchemaKind::Predicate, pred)));
    let p = PredId(last.writer.schema[(SchemaKind::Predicate, pred)]);
    assert(p == d.pred);
    let ops = history::prepared(g, call).1->Some_0.0;
    let bumps = model::degree_ops(d.src, d.pred, d.dst, 1);
    let tail = weave_laws::prop_ops(d, w1.edge_props(props));
    lemma_no_marks(ops);
    assert(history::deleted(last.ops) =~= history::deleted(g.ops)) by {
        assert forall|u: u64| history::deleted(last.ops).contains(u) == history::deleted(
            g.ops,
        ).contains(u) by {
            assert(!ops.contains(OpView::DeleteNode { uid: Uid(u) }));
        }
    }
    assert(cut(last.ops) =~= cut(g.ops)) by {
        assert forall|x: (PredId, Uid, Uid)| cut(last.ops).contains(x) == cut(g.ops).contains(
            x,
        ) by {
            assert(!ops.contains(OpView::DeleteEdge { pred: x.0, anchor: x.1, other: x.2 }));
        }
    }
    assert forall|i: int| 0 <= i < d.ops.len() implies !is_raw(#[trigger] d.ops[i]) by {}
    lemma_edge_raw(d.ops, out_ops, in_ops, bumps, tail);
    assert(on_raw(g.ops) + (out_ops + in_ops) =~= on_raw(g.ops) + out_ops + in_ops);
    assert forall|key: KeyView| !(key is Raw) implies #[trigger] store_laws::counted(last.ops, key)
        == store_laws::counted(g.ops, key) + one_if(
        key == KeyView::Meta(store::degree_name(p, Direction::Out, s)),
    ) + one_if(key == KeyView::Meta(store::degree_name(p, Direction::In, t))) by {
        lemma_bumps(d.src, d.pred, d.dst, 1, key);
        lemma_edge_counts(d.ops, out_ops, in_ops, bumps, tail, key);
    }
}

/// Operations that are all puts, merges and deletions of keys mark nothing as deleted.
proof fn lemma_no_marks(ops: Seq<OpView>)
    requires
        forall|i: int| 0 <= i < ops.len() ==> match #[trigger] ops[i] {
            OpView::Put { .. } => true,
            OpView::Merge { .. } => true,
            OpView::Delete { .. } => true,
            _ => false,
        },
    ensures
        forall|op: OpView|
            (op is DeleteNode || op is DeleteEdge) ==> !(#[trigger] ops.contains(op)),
{
    assert forall|op: OpView| (op is DeleteNode || op is DeleteEdge) implies !(
    #[trigger] ops.contains(op)) by {
        if ops.contains(op) {
            let i = choose|i: int| 0 <= i < ops.len() && ops[i] == op;
            assert(ops[i] == op);
        }
    }
}

/// An edge upsert changes the plain values of no other keys than the mappings and nodes of new ends
/// and, where properties are given, that of the properties of the edge; postings apart.
pub proof fn law_upserted_edge_leaves_the_rest(
    g: Graph,
    src: Seq<u8>,
    pred: Seq<char>,
    dst: Seq<u8>,
    props: Seq<(Seq<char>, ValueView)>,
    out_ops: Seq<OpView>,
    in_ops: Seq<OpView>,
)
    requires
        commits(g, edge_call(src, pred, dst, props, out_ops, in_ops)),
    ensures
        ({
            let last = done(g, edge_call(src, pred, dst, props, out_ops, in_ops));
            let p = PredId(last.writer.schema[(SchemaKind::Predicate, pred)]);
            forall|key: KeyView|
                !write_laws::bookkeeping(key) && !(key is Raw) && !edge_writes(
                    g,
                    src,
                    dst,
                    p,
                    props.len() > 0,
                    key,
                ) ==> #[trigger] store_laws::value_at(last.store(), key) == store_laws::value_at(
                    g.store(),
                    key,
                )
        }),
{
    let call = edge_call(src, pred, dst, props, out_ops, in_ops);
    lemma_committed(g, call);
    lemma_edge_parts(g, src, pred, dst, props, out_ops, in_ops);
    lemma_edge_shape(g, src, pred, dst, props, out_ops, in_ops);
    let last = done(g, call);
    let (w1, drafted) = history::drafted_edge(g, src, pred, dst, Ok(()));
    lemma_ids(w1, SchemaKind::PropertyKey, model::names_of(props));
    assert(w1.schema.contains_key((SchemaKind::Predicate, pred)));
    let p = PredId(last.writer.schema[(SchemaKind::Predicate, pred)]);
    let ops = history::prepared(g, call).1->Some_0.0;
    assert forall|key: KeyView|
        !write_laws::bookkeeping(key) && !(key is Raw) && !edge_writes(
            g,
            src,
            dst,
            p,
            props.len() > 0,
            key,
        ) implies #[trigger] store_laws::value_at(last.store(), key) == store_laws::value_at(
        g.store(),
        key,
    ) by {
        assert forall|i: int| 0 <= i < ops.len() implies !store_laws::writes(
            #[trigger] ops[i],
            key,
        ) by {}
        store_laws::law_untouched_stays(g.store(), ops, key);
    }
}

proof fn lemma_edge_raw(
    ends: Seq<OpView>,
    out_ops: Seq<OpView>,
    in_ops: Seq<OpView>,
    bumps: Seq<OpView>,
    tail: Seq<OpView>,
)
    requires
        forall|i: int| 0 <= i < ends.len() ==> !is_raw(#[trigger] ends[i]),
        write_laws::on_postings(out_ops),
        write_laws::on_postings(in_ops),
        forall|i: int| 0 <= i < bumps.len() ==> !is_raw(#[trigger] bumps[i]),
        forall|i: int| 0 <= i < tail.len() ==> !is_raw(#[trigger] tail[i]),
    ensures
        on_raw(ends + out_ops + in_ops + bumps + tail) == out_ops + in_ops,
{
    lemma_all_raw(ends);
    lemma_all_raw(out_ops);
    lemma_all_raw(in_ops);
    lemma_all_raw(bumps);
    lemma_all_raw(tail);
    lemma_raw_add(ends, out_ops);
    lemma_raw_add(ends + out_ops, in_ops);
    lemma_raw_add(ends + out_ops + in_ops, bumps);
    lemma_raw_add(ends + out_ops + in_ops + bumps, tail);
    let none = Seq::<OpView>::empty();
    assert(none + out_ops + in_ops + none + none =~= out_ops + in_ops);
}

proof fn lemma_edge_counts(
    ends: Seq<OpView>,
    out_ops: Seq<OpView>,
    in_ops: Seq<OpView>,
    bumps: Seq<OpView>,
    tail: Seq<OpView>,
    key: KeyView,
)
    requires
        forall|i: int| 0 <= i < ends.len() ==> !(#[trigger] ends[i] is Merge),
        write_laws::on_postings(out_ops),
        write_laws::on_postings(in_ops),
        forall|i: int| 0 <= i < tail.len() ==> !(#[trigger] tail[i] is Merge),
        !(key is Raw),
    ensures
        store_laws::counted(ends + out_ops + in_ops + bumps + tail, key) == store_laws::counted(
            bumps,
            key,
        ),
{
    write_laws::lemma_puts_count_nothing(ends, key);
    write_laws::lemma_puts_count_nothing(tail, key);
    lemma_postings_count(out_ops, key);
    lemma_postings_count(in_ops, key);
    store_laws::law_counted_in_order(ends, out_ops, key);
    store_laws::law_counted_in_order(ends + out_ops, in_ops, key);
    store_laws::law_counted_in_order(ends + out_ops + in_ops, bumps, key);
    store_laws::law_counted_in_order(ends + out_ops + in_ops + bumps, tail, key);
}

proof fn lemma_postings_count(ops: Seq<OpView>, key: KeyView)
    requires
        write_laws::on_postings(ops),
        !(key is Raw),
    ensures
        store_laws::counted(ops, key) == 0,
    decreases ops.len(),
{
    if ops.len() > 0 {
        let less = ops.drop_last();
        assert forall|i: int| 0 <= i < less.len() implies match #[trigger] less[i] {
            OpView::Put { key, .. } => key is Raw,
            OpView::Merge { key, .. } => key is Raw,
            OpView::Delete { key } => key is Raw,
            _ => false,
        } by {
            assert(less[i] == ops[i]);
        }
        lemma_postings_count(less, key);
        assert(ops[ops.len() - 1] == ops.last());
    }
}

/// The external ids of new ends are UTF-8.
proof fn lemma_new_ends_are_text(
    g: Graph,
    src: Seq<u8>,
    pred: Seq<char>,
    dst: Seq<u8>,
    props: Seq<(Seq<char>, ValueView)>,
    out_ops: Seq<OpView>,
    in_ops: Seq<OpView>,
)
    requires
        commits(g, edge_call(src, pred, dst, props, out_ops, in_ops)),
    ensures
        is_new_end(g, src) ==> vstd::utf8::valid_utf8(src),
        is_new_end(g, dst) ==> vstd::utf8::valid_utf8(dst),
{
    lemma_edge_parts(g, src, pred, dst, props, out_ops, in_ops);
}

/// The changelog entry of an edge upsert says which edge it was: the subject is the source, the
/// object is the target, the predicate is the one that the name is known by. It says nothing else.
pub proof fn law_edge_upsert_is_logged(
    g: Graph,
    src: Seq<u8>,
    pred: Seq<char>,
    dst: Seq<u8>,
    props: Seq<(Seq<char>, ValueView)>,
    out_ops: Seq<OpView>,
    in_ops: Seq<OpView>,
)
    requires
        commits(g, edge_call(src, pred, dst, props, out_ops, in_ops)),
    ensures
        ({
            let last = done(g, edge_call(src, pred, dst, props, out_ops, in_ops));
            let seq = last.writer.latest_seq;
            &&& seq == g.writer.allocs.seq.next + 1
            &&& logged(last, seq) matches Some(c) && {
                &&& c.seq == seq
                &&& c.op == ChangeOp::UpsertEdge
                &&& c.subject_uid == src_uid(g, src)
                &&& c.object_uid == Some(dst_uid(g, src, dst))
                &&& src != dst || !is_new_end(g, src) ==> model::mapped_uid(
                    last.read(KeyView::Xid(src)),
                ) == Ok::<Option<Uid>, ErrorView>(Some(c.subject_uid))
                &&& model::mapped_uid(last.read(KeyView::Xid(dst))) == Ok::<
                    Option<Uid>,
                    ErrorView,
                >(c.object_uid)
                &&& c.pred_id == Some(
                    PredId(last.writer.schema[(SchemaKind::Predicate, pred)]),
                )
                &&& c.value is None
                &&& c.label_delta is None
            }
        }),
{
    let call = edge_call(src, pred, dst, props, out_ops, in_ops);
    lemma_committed(g, call);
    lemma_edge_parts(g, src, pred, dst, props, out_ops, in_ops);
    law_upserted_edge_has_its_ends(g, src, pred, dst, props, out_ops, in_ops);
    let (w1, drafted) = history::drafted_edge(g, src, pred, dst, Ok(()));
    lemma_ids(w1, SchemaKind::PropertyKey, model::names_of(props));
    assert(w1.schema.contains_key((SchemaKind::Predicate, pred)));
}

// ---------------------------------------------------------------------------
// What histories delete
// ---------------------------------------------------------------------------

/// A node upsert marks no node as deleted.
proof fn lemma_node_upsert_deletes_nothing(g: Graph, call: Call)
    requires
        commits(g, call),
        call is UpsertNode,
    ensures
        history::deleted(done(g, call).ops) == history::deleted(g.ops),
{
    lemma_committed(g, call);
    history::lemma_node_shape(g, call);
    let ops = history::prepared(g, call).1->Some_0.0;
    let last = done(g, call);
    lemma_no_marks(ops);
    assert forall|u: u64| history::deleted(last.ops).contains(u) == history::deleted(
        g.ops,
    ).contains(u) by {
        assert(!ops.contains(OpView::DeleteNode { uid: Uid(u) }));
    }
    assert(history::deleted(last.ops) =~= history::deleted(g.ops));
}

/// An edge upsert marks no node as deleted.
proof fn lemma_edge_upsert_deletes_nothing(
    g: Graph,
    src: Seq<u8>,
    pred: Seq<char>,
    dst: Seq<u8>,
    props: Seq<(Seq<char>, ValueView)>,
    read: Result<(), ErrorView>,
    postings: Result<(Seq<OpView>, Seq<OpView>), ErrorView>,
)
    requires
        commits(g, Call::UpsertEdge { src, pred, dst, props, read, postings }),
    ensures
        ({
            let call = Call::UpsertEdge { src, pred, dst, props, read, postings };
            history::deleted(done(g, call).ops) == history::deleted(g.ops)
        }),
{
    let call = Call::UpsertEdge { src, pred, dst, props, read, postings };
    let added = postings->Ok_0;
    let same = edge_call(src, pred, dst, props, added.0, added.1);
    assert(commits(g, same) && done(g, same).ops == done(g, call).ops) by {
        reveal(history::plan);
        step_laws::law_drafting_an_edge_fails_where_due(
            g.writer,
            src,
            g.read(KeyView::Xid(src)),
            pred,
            dst,
            history::fetched(read, g.read(KeyView::Xid(dst))),
        );
    }
    law_upserted_edge_counts_once(g, src, pred, dst, props, added.0, added.1);
}

/// A call other than a node deletion marks no node as deleted.
proof fn lemma_only_deletions_delete(g: Graph, call: Call)
    requires
        commits(g, call),
        !(call is DeleteNode),
    ensures
        history::deleted(done(g, call).ops) == history::deleted(g.ops),
{
    match call {
        Call::UpsertNode { .. } => {
            lemma_node_upsert_deletes_nothing(g, call);
        },
        Call::UpsertEdge { src, pred, dst, props, read, postings } => {
            lemma_edge_upsert_deletes_nothing(g, src, pred, dst, props, read, postings);
        },
        Call::DeleteEdge { src, pred, dst } => {
            law_edge_deletion_deletes_the_edge(g, src, pred, dst);
        },
        Call::DeleteNode { .. } => {},
    }
}

/// The nodes that are marked as deleted after a history are those that were marked before it, and
/// those whose deletion was committed in it: no other call, no refused call, no batch that failed
/// to be applied and no restart marks a node, or takes a mark away.
pub proof fn law_only_deleted_nodes_are_marked(g: Graph, events: Seq<Event>)
    requires
        coherence::coherent(g.writer, g.store()),
        history::possible_all(g, events),
    ensures
        coherence::coherent(history::run(g, events).writer, history::run(g, events).store()),
        history::deleted(history::run(g, events).ops) == history::deleted(g.ops).union(
            deleted_by(g, events),
        ),
    decreases events.len(),
{
    if events.len() == 0 {
        assert(history::deleted(g.ops).union(Set::empty()) =~= history::deleted(g.ops));
    } else {
        let before = events.drop_last();
        law_only_deleted_nodes_are_marked(g, before);
        let graph = history::run(g, before);
        let e = events.last();
        history::law_event_keeps_coherence(graph, e);
        let earlier = history::deleted(g.ops).union(deleted_by(g, before));
        match e {
            Event::Write { call, applied } => {
                if applied is Ok && history::plan(graph, call).1 is Some && !(call is DeleteNode) {
                    lemma_only_deletions_delete(graph, call);
                }
                if let Call::DeleteNode { xid } = call {
                    law_node_deletion_deletes_the_node(graph, xid);
                }
            },
            Event::Reopen { .. } => {},
        }
        assert(history::deleted(history::run(g, events).ops) =~= history::deleted(g.ops).union(
            deleted_by(g, events),
        ));
    }
}

/// The live neighbours in a posting, where the stored set of deleted nodes is what a history of a
/// new graph has marked: the members whose deletion was not committed.
pub proof fn law_live_neighbours_after_a_history(
    g: Graph,
    events: Seq<Event>,
    posting: Set<u64>,
    b: Seq<u8>,
)
    requires
        history::is_new(g),
        history::possible_all(g, events),
        bitmap::stored_members(b) == Ok::<Set<u64>, Seq<char>>(
            history::deleted(history::run(g, events).ops),
        ),
    ensures
        bitmap::read_members(Some(b), "deleted_nodes") matches Ok(gone) && forall|u: u64|
            #[trigger] posting.difference(gone).contains(u) == (posting.contains(u)
                && !deleted_by(g, events).contains(u)),
{
    history::law_history_is_coherent(g, Seq::empty());
    assert(history::run(g, Seq::empty()) == g);
    law_only_deleted_nodes_are_marked(g, events);
    assert(history::deleted(g.ops) =~= Set::empty());
}

/// A stored set is taken as it is, whatever its length: what is read of bytes is the set that they
/// hold, or the cause for which they hold none; what was never stored is empty.
pub proof fn law_stored_set_is_taken_whole(b: Seq<u8>, what: &'static str)
    ensures
        bitmap::read_members(None, what) == Ok::<Set<u64>, ErrorView>(Set::empty()),
        bitmap::stored_members(b) matches Ok(s) ==> bitmap::read_members(Some(b), what) == Ok::<
            Set<u64>,
            ErrorView,
        >(s),
        bitmap::stored_members(b) matches Err(cause) ==> bitmap::read_members(Some(b), what)
            == Err::<Set<u64>, ErrorView>(
            ErrorView::Encoding(FaultView::CorruptBitmap { what, cause }),
        ),
{
}

// ---------------------------------------------------------------------------
// And nothing else
// ---------------------------------------------------------------------------

/// What a batch does but for puts is what the call's own operations do.
proof fn lemma_acts_of(g: Graph, call: Call)
    requires
        commits(g, call),
    ensures
        history::prepared(g, call).1 is Some,
        acts(done(g, call).ops) == acts(g.ops) + acts(history::prepared(g, call).1->Some_0.0),
{
    history::lemma_plan_commits(g, call);
    history::lemma_prepared(g, call);
    let (w, write) = history::prepared(g, call);
    let (ops, c, places) = write->Some_0;
    let batch = w.commit(ops, places, c).1;
    assert(weave_laws::no_records(ops)) by {
        assert forall|i: int| 0 <= i < ops.len() implies !weave_laws::is_record(
            #[trigger] ops[i],
        ) by {
            assert(coherence::own_op(w, ops[i]));
        }
    }
    weave_laws::law_batch_holds_what_is_owed(w, ops, places, c);
    let log = model::log_ops(w.next_seq(), c);
    lemma_acts_add(g.ops, batch.ops);
    lemma_acts_rest(batch.ops);
    lemma_acts_add(ops, log);
    lemma_all_acts(log);
    assert(acts(ops) + Seq::<OpView>::empty() =~= acts(ops));
}

/// Beside what it puts, a node upsert does nothing: it counts, erases and marks nothing.
pub proof fn law_node_upsert_only_puts(
    g: Graph,
    xid: Seq<u8>,
    labels: Seq<Seq<char>>,
    props: Seq<(Seq<char>, ValueView)>,
)
    requires
        commits(g, node_call(xid, labels, props)),
    ensures
        acts(done(g, node_call(xid, labels, props)).ops) == acts(g.ops),
{
    let call = node_call(xid, labels, props);
    lemma_acts_of(g, call);
    history::lemma_node_shape(g, call);
    let ops = history::prepared(g, call).1->Some_0.0;
    assert forall|i: int| 0 <= i < ops.len() implies #[trigger] ops[i] is Put by {}
    lemma_all_acts(ops);
    assert(acts(g.ops) + Seq::<OpView>::empty() =~= acts(g.ops));
}

/// Beside what it puts, an edge upsert does what the given operations on the postings do, and adds
/// one to the outgoing degree of the source and one to the incoming degree of the target; nothing
/// else, and nothing twice.
pub proof fn law_edge_upsert_only_counts(
    g: Graph,
    src: Seq<u8>,
    pred: Seq<char>,
    dst: Seq<u8>,
    props: Seq<(Seq<char>, ValueView)>,
    out_ops: Seq<OpView>,
    in_ops: Seq<OpView>,
)
    requires
        commits(g, edge_call(src, pred, dst, props, out_ops, in_ops)),
    ensures
        ({
            let last = done(g, edge_call(src, pred, dst, props, out_ops, in_ops));
            let p = PredId(last.writer.schema[(SchemaKind::Predicate, pred)]);
            acts(last.ops) == acts(g.ops) + acts(out_ops) + acts(in_ops) + seq![
                store::bump_op(p, Direction::Out, src_uid(g, src), 1),
                store::bump_op(p, Direction::In, dst_uid(g, src, dst), 1),
            ]
        }),
{
    let call = edge_call(src, pred, dst, props, out_ops, in_ops);
    lemma_acts_of(g, call);
    lemma_committed(g, call);
    lemma_edge_parts(g, src, pred, dst, props, out_ops, in_ops);
    lemma_end_ops(g, src, pred, dst, props, out_ops, in_ops);
    lemma_edge_shape(g, src, pred, dst, props, out_ops, in_ops);
    let (w1, drafted) = history::drafted_edge(g, src, pred, dst, Ok(()));
    let d = drafted->Ok_0;
    lemma_ids(w1, SchemaKind::PropertyKey, model::names_of(props));
    assert(w1.schema.contains_key((SchemaKind::Predicate, pred)));
    let bumps = model::degree_ops(d.src, d.pred, d.dst, 1);
    let tail = weave_laws::prop_ops(d, w1.edge_props(props));
    assert forall|i: int| 0 <= i < d.ops.len() implies #[trigger] d.ops[i] is Put by {}
    assert forall|i: int| 0 <= i < tail.len() implies #[trigger] tail[i] is Put by {}
    lemma_edge_acts(acts(g.ops), d.ops, out_ops, in_ops, bumps, tail);
}

proof fn lemma_edge_acts(
    before: Seq<OpView>,
    ends: Seq<OpView>,
    out_ops: Seq<OpView>,
    in_ops: Seq<OpView>,
    bumps: Seq<OpView>,
    tail: Seq<OpView>,
)
    requires
        forall|i: int| 0 <= i < ends.len() ==> #[trigger] ends[i] is Put,
        forall|i: int| 0 <= i < bumps.len() ==> #[trigger] bumps[i] is Merge,
        forall|i: int| 0 <= i < tail.len() ==> #[trigger] tail[i] is Put,
    ensures
        before + acts(ends + out_ops + in_ops + bumps + tail) == before + acts(out_ops) + acts(
            in_ops,
        ) + bumps,
{
    lemma_all_acts(ends);
    assert forall|i: int| 0 <= i < bumps.len() implies !(#[trigger] bumps[i] is Put) by {
        assert(bumps[i] is Merge);
    }
    lemma_all_acts(bumps);
    lemma_all_acts(tail);
    lemma_acts_add(ends, out_ops);
    lemma_acts_add(ends + out_ops, in_ops);
    lemma_acts_add(ends + out_ops + in_ops, bumps);
    lemma_acts_add(ends + out_ops + in_ops + bumps, tail);
    let none = Seq::<OpView>::empty();
    assert(before + (none + acts(out_ops) + acts(in_ops) + bumps + none) =~= before + acts(out_ops)
        + acts(in_ops) + bumps);
}

/// Beside what every batch puts, a node deletion marks the node; nothing else.
pub proof fn law_node_deletion_only_marks(g: Graph, xid: Seq<u8>)
    requires
        commits(g, Call::DeleteNode { xid }),
    ensures
        model::mapped_uid(g.read(KeyView::Xid(xid))) matches Ok(Some(uid)) && acts(
            done(g, Call::DeleteNode { xid }).ops,
        ) == acts(g.ops).push(OpView::DeleteNode { uid }),
{
    let call = Call::DeleteNode { xid };
    lemma_acts_of(g, call);
    history::lemma_plan_commits(g, call);
    reveal(history::prepared);
    let uid = model::mapped_uid(g.read(KeyView::Xid(xid)))->Ok_0->Some_0;
    let ops = history::prepared(g, call).1->Some_0.0;
    assert(ops == seq![OpView::DeleteNode { uid }]);
    lemma_all_acts(ops);
    assert(acts(g.ops) + ops =~= acts(g.ops).push(OpView::DeleteNode { uid }));
}

/// Beside what every batch puts, an edge deletion marks the edge as seen from either end, takes one
/// off the outgoing degree of the source and one off the incoming degree of the target, and erases
/// the properties of the edge; nothing else, and nothing twice.
pub proof fn law_edge_deletion_only_marks_and_counts(
    g: Graph,
    src: Seq<u8>,
    pred: Seq<char>,
    dst: Seq<u8>,
)
    requires
        commits(g, Call::DeleteEdge { src, pred, dst }),
    ensures
        ({
            let p = PredId(g.writer.schema[(SchemaKind::Predicate, pred)]);
            let (s, t) = (src_uid(g, src), dst_uid(g, src, dst));
            acts(done(g, Call::DeleteEdge { src, pred, dst }).ops) == acts(g.ops) + seq![
                OpView::DeleteEdge { pred: p, anchor: s, other: t },
                OpView::DeleteEdge { pred: p, anchor: t, other: s },
                store::bump_op(p, Direction::Out, s, -1i64),
                store::bump_op(p, Direction::In, t, -1i64),
                OpView::Delete { key: KeyView::EdgeProp(s, p, t) },
            ]
        }),
{
    let call = Call::DeleteEdge { src, pred, dst };
    lemma_acts_of(g, call);
    history::lemma_plan_commits(g, call);
    reveal(history::prepared);
    let p = PredId(g.writer.schema[(SchemaKind::Predicate, pred)]);
    let (s, t) = (src_uid(g, src), dst_uid(g, src, dst));
    let ops = history::prepared(g, call).1->Some_0.0;
    let all = seq![
        OpView::DeleteEdge { pred: p, anchor: s, other: t },
        OpView::DeleteEdge { pred: p, anchor: t, other: s },
        store::bump_op(p, Direction::Out, s, -1i64),
        store::bump_op(p, Direction::In, t, -1i64),
        OpView::Delete { key: KeyView::EdgeProp(s, p, t) },
    ];
    assert(ops =~= all);
    assert forall|i: int| 0 <= i < ops.len() implies !(#[trigger] ops[i] is Put) by {
        assert(i == 0 || i == 1 || i == 2 || i == 3 || i == 4);
    }
    lemma_all_acts(ops);
}

/// The changelog records of earlier writes stay as they are: a committed call writes none but its
/// own.
pub proof fn law_earlier_records_stay(g: Graph, call: Call, seq: u64)
    requires
        commits(g, call),
        seq != number(g, call),
    ensures
        store_laws::value_at(done(g, call).store(), KeyView::Log(seq)) == store_laws::value_at(
            g.store(),
            KeyView::Log(seq),
        ),
{
    history::lemma_plan_commits(g, call);
    history::lemma_prepared(g, call);
    let (w, write) = history::prepared(g, call);
    let (ops, c, places) = write->Some_0;
    let batch = w.commit(ops, places, c).1;
    let key = KeyView::Log(seq);
    assert(weave_laws::no_records(ops)) by {
        assert forall|i: int| 0 <= i < ops.len() implies !weave_laws::is_record(
            #[trigger] ops[i],
        ) by {
            assert(coherence::own_op(w, ops[i]));
        }
    }
    weave_laws::law_batch_holds_what_is_owed(w, ops, places, c);
    let log = model::log_ops(w.next_seq(), c);
    assert forall|i: int| 0 <= i < batch.ops.len() implies !store_laws::writes(
        #[trigger] batch.ops[i],
        key,
    ) by {
        let op = batch.ops[i];
        if !weave_laws::is_record(op) {
            lemma_rest_contains(batch.ops, op);
            assert(batch.ops.contains(op));
            lemma_add_contains(ops, log, op);
            if ops.contains(op) {
                let k = choose|k: int| 0 <= k < ops.len() && ops[k] == op;
                assert(coherence::own_op(w, ops[k]));
            } else {
                let k = choose|k: int| 0 <= k < log.len() && log[k] == op;
                assert(log[k] == op);
            }
        }
    }
    store_laws::law_applied_in_order(Map::empty(), g.ops, batch.ops);
    store_laws::law_untouched_stays(g.store(), batch.ops, key);
}

// ---------------------------------------------------------------------------
// When a call is owed a batch
// ---------------------------------------------------------------------------

/// A node upsert comes to a batch exactly where the mapping of its external id, if there is one, is
/// eight bytes, the node that was there decodes, the external id is UTF-8, and the record takes no
/// more than 1 MiB.
pub proof fn law_node_upsert_is_owed_a_batch(
    g: Graph,
    xid: Seq<u8>,
    labels: Seq<Seq<char>>,
    props: Seq<(Seq<char>, ValueView)>,
)
    ensures
        ({
            let stored = g.read(KeyView::Xid(xid));
            let uid = match stored {
                Some(b) => Uid(format_laws::u64_be_at(b, 0) as u64),
                None => Uid(g.writer.allocs.uid.next as u64),
            };
            history::plan(g, node_call(xid, labels, props)).1 is Some == ({
                &&& stored is Some ==> stored->Some_0.len() == 8
                &&& model::read_node(g.read(KeyView::Node(uid))) is Ok
                &&& vstd::utf8::valid_utf8(xid)
                &&& node::node_bytes(drafted_node(g, xid, labels, props)).len() <= 1_048_576
            })
        }),
{
    reveal(history::plan);
    if let Some(b) = g.read(KeyView::Xid(xid)) {
        format_laws::law_mapping_is_eight_bytes(b);
    }
}

/// An edge upsert whose postings could be added to comes to a batch exactly where neither of its
/// ends is refused, whatever properties it has.
pub proof fn law_edge_upsert_is_owed_a_batch(
    g: Graph,
    src: Seq<u8>,
    pred: Seq<char>,
    dst: Seq<u8>,
    props: Seq<(Seq<char>, ValueView)>,
    out_ops: Seq<OpView>,
    in_ops: Seq<OpView>,
)
    ensures
        history::plan(g, edge_call(src, pred, dst, props, out_ops, in_ops)).1 is Some == (
        step_laws::end_fault(src, g.read(KeyView::Xid(src))) is None && step_laws::end_fault(
            dst,
            g.read(KeyView::Xid(dst)),
        ) is None),
{
    reveal(history::plan);
    step_laws::law_drafting_an_edge_fails_where_due(
        g.writer,
        src,
        g.read(KeyView::Xid(src)),
        pred,
        dst,
        Ok(g.read(KeyView::Xid(dst))),
    );
}

// ---------------------------------------------------------------------------
// What is known after a call
// ---------------------------------------------------------------------------

/// Whether a call gives a name of a kind.
pub open spec fn gives_name(call: Call, kind: SchemaKind, name: Seq<char>) -> bool {
    match call {
        Call::UpsertNode { labels, props, .. } => match kind {
            SchemaKind::Label => labels.contains(name),
            SchemaKind::PropertyKey => exists|i: int|
                0 <= i < props.len() && (#[trigger] props[i]).0 == name,
            SchemaKind::Predicate => false,
        },
        Call::UpsertEdge { pred, props, .. } => match kind {
            SchemaKind::Label => false,
            SchemaKind::PropertyKey => exists|i: int|
                0 <= i < props.len() && (#[trigger] props[i]).0 == name,
            SchemaKind::Predicate => name == pred,
        },
        _ => false,
    }
}

proof fn lemma_named(props: Seq<(Seq<char>, ValueView)>, name: Seq<char>)
    ensures
        model::names_of(props).contains(name) == exists|i: int|
            0 <= i < props.len() && (#[trigger] props[i]).0 == name,
{
    let names = model::names_of(props);
    if names.contains(name) {
        let i = choose|i: int| 0 <= i < names.len() && names[i] == name;
        assert(props[i].0 == name);
    }
    if exists|i: int| 0 <= i < props.len() && (#[trigger] props[i]).0 == name {
        let i = choose|i: int| 0 <= i < props.len() && (#[trigger] props[i]).0 == name;
        assert(names[i] == name);
    }
}

/// The names that a call makes known to the writer.
proof fn lemma_known_after(g: Graph, call: Call)
    requires
        history::prepared(g, call).1 is Some,
    ensures
        ({
            let w = history::prepared(g, call).0;
            &&& forall|kind: SchemaKind, name: Seq<char>| #[trigger]
                g.writer.schema.contains_key((kind, name)) ==> w.schema.contains_key((kind, name))
                    && w.schema[(kind, name)] == g.writer.schema[(kind, name)]
            &&& forall|kind: SchemaKind, name: Seq<char>| #[trigger]
                w.schema.contains_key((kind, name)) == (g.writer.schema.contains_key((kind, name))
                    || gives_name(call, kind, name))
        }),
{
    reveal(history::prepared);
    let (w, write) = history::prepared(g, call);
    match call {
        Call::UpsertNode { xid, labels, props, read } => {
            let w1 = g.writer.resolve(xid, g.read(KeyView::Xid(xid))).0;
            let names = model::names_of(props);
            lemma_ids(w1, SchemaKind::Label, labels);
            let w2 = w1.intern_all(SchemaKind::Label, labels).writer;
            lemma_ids(w2, SchemaKind::PropertyKey, names);
            lemma_known(w1, SchemaKind::Label, labels);
            lemma_known(w2, SchemaKind::PropertyKey, names);
            assert(w == w2.intern_all(SchemaKind::PropertyKey, names).writer);
            assert forall|kind: SchemaKind, name: Seq<char>| #[trigger]
                w.schema.contains_key((kind, name)) == (g.writer.schema.contains_key((kind, name))
                    || gives_name(call, kind, name)) by {
                lemma_named(props, name);
                assert(w2.schema.contains_key((kind, name)) == (w1.schema.contains_key((kind, name))
                    || (kind == SchemaKind::Label && labels.contains(name))));
            }
            assert forall|kind: SchemaKind, name: Seq<char>| #[trigger]
                g.writer.schema.contains_key((kind, name)) implies w.schema.contains_key(
                (kind, name),
            ) && w.schema[(kind, name)] == g.writer.schema[(kind, name)] by {
                assert(w1.schema.contains_key((kind, name)));
                assert(w2.schema.contains_key((kind, name)));
            }
        },
        Call::UpsertEdge { src, pred, dst, props, read, postings } => {
            let names = model::names_of(props);
            let w1 = history::drafted_edge(g, src, pred, dst, read).0;
            assert(w == w1.intern_all(SchemaKind::PropertyKey, names).writer);
            lemma_ids(w1, SchemaKind::PropertyKey, names);
            lemma_known(w1, SchemaKind::PropertyKey, names);
            assert forall|kind: SchemaKind, name: Seq<char>| #[trigger]
                w.schema.contains_key((kind, name)) == (g.writer.schema.contains_key((kind, name))
                    || gives_name(call, kind, name)) by {
                lemma_named(props, name);
                assert(w1.schema.contains_key((kind, name)) == (g.writer.schema.contains_key(
                    (kind, name),
                ) || (kind == SchemaKind::Predicate && name == pred)));
            }
            assert forall|kind: SchemaKind, name: Seq<char>| #[trigger]
                g.writer.schema.contains_key((kind, name)) implies w.schema.contains_key(
                (kind, name),
            ) && w.schema[(kind, name)] == g.writer.schema[(kind, name)] by {
                assert(w1.schema.contains_key((kind, name)));
            }
        },
        _ => {},
    }
}

/// After a committed call, the names that are known are those that were known before, with the ids
/// they had, and those that the call gave, and no other.
pub proof fn law_given_names_become_known(g: Graph, call: Call)
    requires
        commits(g, call),
    ensures
        ({
            let last = done(g, call);
            &&& forall|kind: SchemaKind, name: Seq<char>| #[trigger]
                g.writer.schema.contains_key((kind, name)) ==> last.writer.schema.contains_key(
                    (kind, name),
                ) && last.writer.schema[(kind, name)] == g.writer.schema[(kind, name)]
            &&& forall|kind: SchemaKind, name: Seq<char>| #[trigger]
                last.writer.schema.contains_key((kind, name)) == (g.writer.schema.contains_key(
                    (kind, name),
                ) || gives_name(call, kind, name))
        }),
{
    lemma_committed(g, call);
    lemma_known_after(g, call);
}

/// After a committed call, every known name has an id of its own, and the store has the id under
/// the name, and the definition under the id.
pub proof fn law_known_names_are_stored(g: Graph, call: Call)
    requires
        commits(g, call),
    ensures
        ({
            let last = done(g, call);
            &&& forall|kind: SchemaKind, a: Seq<char>, b: Seq<char>|
                #[trigger] last.writer.schema.contains_key((kind, a))
                    && #[trigger] last.writer.schema.contains_key((kind, b)) && a != b
                    ==> last.writer.schema[(kind, a)] != last.writer.schema[(kind, b)]
            &&& forall|kind: SchemaKind, name: Seq<char>| #[trigger]
                last.writer.schema.contains_key((kind, name)) ==> is_stored_name(
                    last,
                    kind,
                    name,
                    last.writer.schema[(kind, name)],
                )
        }),
{
    lemma_committed(g, call);
    let last = done(g, call);
    assert(write_laws::wf(last.writer));
    assert forall|kind: SchemaKind, name: Seq<char>| #[trigger]
        last.writer.schema.contains_key((kind, name)) implies is_stored_name(
        last,
        kind,
        name,
        last.writer.schema[(kind, name)],
    ) by {
        assert(coherence::has_name(last.writer, last.store(), kind, name));
        format_laws::law_numbers_are_spelled(last.writer.schema[(kind, name)] as nat);
    }
}

/// Whether the store has the id of a name under the name, in four bytes, and its definition under
/// the id: the name, no type, and for a predicate alone the reverse projection.
pub open spec fn is_stored_name(g: Graph, kind: SchemaKind, name: Seq<char>, id: u32) -> bool {
    &&& g.read(KeyView::SchemaName(kind, vstd::utf8::encode_utf8(name))) matches Some(b) && {
        &&& b.len() == 4
        &&& format_laws::u32_at(b, 0) == id
    }
    &&& store_laws::value_at(g.store(), KeyView::SchemaId(kind, id)) matches Some(
        PayloadView::Entry(e),
    ) && {
        &&& e.name == name
        &&& e.value_type == ValType::Untyped
        &&& e.directives.reverse == (kind == SchemaKind::Predicate)
    }
}

/// Which names are known once several were interned.
proof fn lemma_known(w: WriterView, kind: SchemaKind, names: Seq<Seq<char>>)
    ensures
        forall|k: (SchemaKind, Seq<char>)| #[trigger]
            w.intern_all(kind, names).writer.schema.contains_key(k) == (w.schema.contains_key(k)
                || (k.0 == kind && names.contains(k.1))),
    decreases names.len(),
{
    if names.len() > 0 {
        let less = names.drop_last();
        lemma_known(w, kind, less);
        assert forall|k: (SchemaKind, Seq<char>)| #[trigger]
            w.intern_all(kind, names).writer.schema.contains_key(k) == (w.schema.contains_key(k)
                || (k.0 == kind && names.contains(k.1))) by {
            assert(w.intern_all(kind, less).writer.schema.contains_key(k) == (
            w.schema.contains_key(k) || (k.0 == kind && less.contains(k.1))));
            if less.contains(k.1) {
                let i = choose|i: int| 0 <= i < less.len() && less[i] == k.1;
                assert(names[i] == k.1);
            }
            if names.contains(k.1) {
                let i = choose|i: int| 0 <= i < names.len() && names[i] == k.1;
                if i < less.len() {
                    assert(less[i] == k.1);
                }
            }
            assert(names[names.len() - 1] == names.last());
        }
    }
}

} // verus!
