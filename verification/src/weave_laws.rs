//! What holds of a batch, in which the records that are owed stand among a write's operations.

use vstd::prelude::*;

use crate::change::{ChangeOp, ChangeView};
use crate::error::ErrorView;
use crate::ids::{PropId, SchemaKind};
use crate::model;
use crate::model::{EdgeDraftView, WriterView};
use crate::store;
use crate::store::{KeyView, OpView, PayloadView};
use crate::store_laws;
use crate::value::ValueView;
use crate::write_laws;

verus! {

/// Whether an operation records a name or reserves a block.
pub open spec fn is_record(op: OpView) -> bool {
    op matches OpView::Put { key, .. } && write_laws::is_owed(key)
}

/// Those operations that record names and reserve blocks, in order.
pub open spec fn records_in(ops: Seq<OpView>) -> Seq<OpView>
    decreases ops.len(),
{
    if ops.len() == 0 {
        Seq::empty()
    } else {
        let before = records_in(ops.drop_last());
        if is_record(ops.last()) {
            before.push(ops.last())
        } else {
            before
        }
    }
}

/// The other operations, in order.
pub open spec fn rest_of(ops: Seq<OpView>) -> Seq<OpView>
    decreases ops.len(),
{
    if ops.len() == 0 {
        Seq::empty()
    } else {
        let before = rest_of(ops.drop_last());
        if is_record(ops.last()) {
            before
        } else {
            before.push(ops.last())
        }
    }
}

/// Whether no operation records a name or reserves a block.
pub open spec fn no_records(ops: Seq<OpView>) -> bool {
    forall|i: int| 0 <= i < ops.len() ==> !is_record(#[trigger] ops[i])
}

proof fn lemma_parts(ops: Seq<OpView>)
    ensures
        write_laws::introduces(ops) ==> records_in(ops) == ops && rest_of(ops) == Seq::<
            OpView,
        >::empty(),
        no_records(ops) ==> records_in(ops) == Seq::<OpView>::empty() && rest_of(ops) == ops,
    decreases ops.len(),
{
    if ops.len() > 0 {
        let before = ops.drop_last();
        lemma_parts(before);
        assert(ops =~= before.push(ops.last()));
        assert(ops[ops.len() - 1] == ops.last());
        assert forall|i: int| 0 <= i < before.len() implies before[i] == #[trigger] ops[i] by {}
        if write_laws::introduces(ops) {
            assert forall|i: int| 0 <= i < before.len() implies (
            #[trigger] before[i] matches OpView::Put { key, .. } && write_laws::is_owed(key)) by {
                assert(ops[i] is Put);
            }
        }
        if no_records(ops) {
            assert forall|i: int| 0 <= i < before.len() implies !is_record(#[trigger] before[i]) by {
                assert(!is_record(ops[i]));
            }
        }
    } else {
        assert(ops =~= Seq::empty());
    }
}

proof fn lemma_parts_add(a: Seq<OpView>, b: Seq<OpView>)
    ensures
        records_in(a + b) == records_in(a) + records_in(b),
        rest_of(a + b) == rest_of(a) + rest_of(b),
    decreases b.len(),
{
    if b.len() == 0 {
        assert(a + b =~= a);
        assert(records_in(a) + Seq::<OpView>::empty() =~= records_in(a));
        assert(rest_of(a) + Seq::<OpView>::empty() =~= rest_of(a));
    } else {
        lemma_parts_add(a, b.drop_last());
        assert((a + b).drop_last() =~= a + b.drop_last());
        assert(records_in(a + b) =~= records_in(a) + records_in(b));
        assert(rest_of(a + b) =~= rest_of(a) + rest_of(b));
    }
}

proof fn lemma_introduces_less(owed: Seq<OpView>)
    requires
        write_laws::introduces(owed),
        owed.len() > 0,
    ensures
        write_laws::introduces(owed.drop_last()),
        is_record(owed.last()),
{
    assert(owed[owed.len() - 1] is Put);
    assert forall|i: int| 0 <= i < owed.len() - 1 implies (
    #[trigger] owed.drop_last()[i] matches OpView::Put { key, .. } && write_laws::is_owed(key)) by {
        assert(owed[i] is Put);
    }
}

proof fn lemma_woven_parts(owed: Seq<OpView>, ops: Seq<OpView>, places: Seq<nat>)
    requires
        write_laws::introduces(owed),
    ensures
        no_records(ops) ==> records_in(model::woven(owed, ops, places)) == owed,
        rest_of(model::woven(owed, ops, places)) == rest_of(ops),
    decreases owed.len() + ops.len(),
{
    if owed.len() == 0 || places.len() == 0 {
        lemma_parts_add(owed, ops);
        lemma_parts(owed);
        lemma_parts(ops);
        assert(owed + Seq::<OpView>::empty() =~= owed);
        assert(Seq::<OpView>::empty() + rest_of(ops) =~= rest_of(ops));
    } else if ops.len() <= places.last() {
        let before = model::woven(owed.drop_last(), ops, places.drop_last());
        lemma_introduces_less(owed);
        lemma_woven_parts(owed.drop_last(), ops, places.drop_last());
        assert(before.push(owed.last()).drop_last() =~= before);
        assert(owed.drop_last().push(owed.last()) =~= owed);
    } else {
        let less = ops.drop_last();
        let before = model::woven(owed, less, places);
        lemma_woven_parts(owed, less, places);
        assert(before.push(ops.last()).drop_last() =~= before);
        if no_records(ops) {
            assert(!is_record(ops[ops.len() - 1]));
            assert forall|i: int| 0 <= i < less.len() implies !is_record(#[trigger] less[i]) by {
                assert(!is_record(ops[i]));
            }
        }
    }
}

proof fn lemma_woven_other(
    m: Map<KeyView, PayloadView>,
    owed: Seq<OpView>,
    ops: Seq<OpView>,
    places: Seq<nat>,
    key: KeyView,
)
    requires
        write_laws::introduces(owed),
        !write_laws::is_owed(key),
    ensures
        store_laws::value_at(store_laws::applied(m, model::woven(owed, ops, places)), key)
            == store_laws::value_at(store_laws::applied(m, ops), key),
    decreases owed.len() + ops.len(),
{
    if owed.len() == 0 || places.len() == 0 {
        store_laws::law_applied_in_order(m, owed, ops);
        write_laws::lemma_owed_untouched(owed, key);
        store_laws::law_untouched_stays(m, owed, key);
        store_laws::law_applied_at(store_laws::applied(m, owed), m, ops, key);
    } else if ops.len() <= places.last() {
        let before = model::woven(owed.drop_last(), ops, places.drop_last());
        lemma_introduces_less(owed);
        lemma_woven_other(m, owed.drop_last(), ops, places.drop_last(), key);
        assert(before.push(owed.last()).drop_last() =~= before);
    } else {
        let before = model::woven(owed, ops.drop_last(), places);
        lemma_woven_other(m, owed, ops.drop_last(), places, key);
        assert(before.push(ops.last()).drop_last() =~= before);
    }
}

proof fn lemma_woven_owed(
    m: Map<KeyView, PayloadView>,
    owed: Seq<OpView>,
    ops: Seq<OpView>,
    places: Seq<nat>,
    key: KeyView,
)
    requires
        store_laws::untouched(ops, key),
    ensures
        store_laws::value_at(store_laws::applied(m, model::woven(owed, ops, places)), key)
            == store_laws::value_at(store_laws::applied(m, owed), key),
    decreases owed.len() + ops.len(),
{
    if owed.len() == 0 || places.len() == 0 {
        store_laws::law_applied_in_order(m, owed, ops);
        store_laws::law_untouched_stays(store_laws::applied(m, owed), ops, key);
    } else if ops.len() <= places.last() {
        let before = model::woven(owed.drop_last(), ops, places.drop_last());
        lemma_woven_owed(m, owed.drop_last(), ops, places.drop_last(), key);
        assert(before.push(owed.last()).drop_last() =~= before);
    } else {
        let less = ops.drop_last();
        let before = model::woven(owed, less, places);
        assert forall|i: int| 0 <= i < less.len() implies !store_laws::writes(
            #[trigger] less[i],
            key,
        ) by {
            assert(!store_laws::writes(ops[i], key));
        }
        lemma_woven_owed(m, owed, less, places, key);
        assert(before.push(ops.last()).drop_last() =~= before);
        assert(!store_laws::writes(ops[ops.len() - 1], key));
    }
}

proof fn lemma_woven_counts(owed: Seq<OpView>, ops: Seq<OpView>, places: Seq<nat>, key: KeyView)
    requires
        write_laws::introduces(owed),
    ensures
        store_laws::counted(model::woven(owed, ops, places), key) == store_laws::counted(ops, key),
    decreases owed.len() + ops.len(),
{
    if owed.len() == 0 || places.len() == 0 {
        store_laws::law_counted_in_order(owed, ops, key);
        write_laws::lemma_puts_count_nothing(owed, key);
    } else if ops.len() <= places.last() {
        let before = model::woven(owed.drop_last(), ops, places.drop_last());
        lemma_introduces_less(owed);
        lemma_woven_counts(owed.drop_last(), ops, places.drop_last(), key);
        assert(before.push(owed.last()).drop_last() =~= before);
    } else {
        let before = model::woven(owed, ops.drop_last(), places);
        lemma_woven_counts(owed, ops.drop_last(), places, key);
        assert(before.push(ops.last()).drop_last() =~= before);
    }
}

// ---------------------------------------------------------------------------
// Batches
// ---------------------------------------------------------------------------

/// What a batch leaves under a key that is neither the changelog's nor a record's nor the
/// cursor's is what the write's own operations make of it.
pub proof fn lemma_commit_keeps(
    w: WriterView,
    ops: Seq<OpView>,
    places: Seq<nat>,
    c: ChangeView,
    m: Map<KeyView, PayloadView>,
    key: KeyView,
)
    requires
        write_laws::introduces(w.owed),
        !write_laws::bookkeeping(key),
    ensures
        store_laws::value_at(store_laws::applied(m, w.commit(ops, places, c).1.ops), key)
            == store_laws::value_at(store_laws::applied(m, ops), key),
{
    let all = model::woven(w.owed, ops, places);
    let block = store::reserve_ops(w.allocs.seq.reservation());
    let log = model::log_ops(w.next_seq(), c);
    lemma_woven_other(m, w.owed, ops, places, key);
    let m1 = store_laws::applied(m, all);
    store_laws::law_applied_in_order(m, all, block);
    store_laws::law_untouched_stays(m1, block, key);
    store_laws::law_applied_in_order(m, all + block, log);
    store_laws::law_untouched_stays(store_laws::applied(m, all + block), log, key);
}

/// What a batch leaves under the key of a record is what the records make of it, where the
/// write's own operations leave it alone.
pub proof fn lemma_commit_pays(
    w: WriterView,
    ops: Seq<OpView>,
    places: Seq<nat>,
    c: ChangeView,
    m: Map<KeyView, PayloadView>,
    key: KeyView,
)
    requires
        write_laws::is_owed(key),
        store_laws::untouched(ops, key),
    ensures
        store_laws::value_at(store_laws::applied(m, w.commit(ops, places, c).1.ops), key)
            == store_laws::value_at(store_laws::applied(m, w.owed_with_seq()), key),
{
    let all = model::woven(w.owed, ops, places);
    let block = store::reserve_ops(w.allocs.seq.reservation());
    let log = model::log_ops(w.next_seq(), c);
    lemma_woven_owed(m, w.owed, ops, places, key);
    let m1 = store_laws::applied(m, all);
    store_laws::law_applied_in_order(m, all, block);
    store_laws::law_applied_in_order(m, w.owed, block);
    store_laws::law_applied_at(m1, store_laws::applied(m, w.owed), block, key);
    store_laws::law_applied_in_order(m, all + block, log);
    store_laws::law_untouched_stays(store_laws::applied(m, all + block), log, key);
}

/// A batch counts what the write's own operations count.
pub proof fn lemma_commit_counts_nothing(
    w: WriterView,
    ops: Seq<OpView>,
    places: Seq<nat>,
    c: ChangeView,
    key: KeyView,
)
    requires
        write_laws::introduces(w.owed),
    ensures
        store_laws::counted(w.commit(ops, places, c).1.ops, key) == store_laws::counted(ops, key),
{
    let all = model::woven(w.owed, ops, places);
    let block = store::reserve_ops(w.allocs.seq.reservation());
    let log = model::log_ops(w.next_seq(), c);
    lemma_woven_counts(w.owed, ops, places, key);
    write_laws::lemma_puts_count_nothing(block, key);
    write_laws::lemma_puts_count_nothing(log, key);
    store_laws::law_counted_in_order(all, block, key);
    store_laws::law_counted_in_order(all + block, log, key);
}

/// A batch holds everything that is owed, in order, and the write's own operations, in order, with
/// the changelog record and the cursor after them; and it holds nothing else.
pub proof fn law_batch_holds_what_is_owed(
    w: WriterView,
    ops: Seq<OpView>,
    places: Seq<nat>,
    c: ChangeView,
)
    requires
        write_laws::introduces(w.owed),
        no_records(ops),
    ensures
        records_in(w.commit(ops, places, c).1.ops) == w.owed_with_seq(),
        rest_of(w.commit(ops, places, c).1.ops) == ops + model::log_ops(w.next_seq(), c),
        w.owed_with_seq().take(w.owed.len() as int) == w.owed,
{
    let all = model::woven(w.owed, ops, places);
    let block = store::reserve_ops(w.allocs.seq.reservation());
    let log = model::log_ops(w.next_seq(), c);
    lemma_woven_parts(w.owed, ops, places);
    lemma_parts(ops);
    lemma_parts_add(all, block);
    lemma_parts(block);
    lemma_parts_add(all + block, log);
    lemma_parts(log);
    assert(ops + Seq::<OpView>::empty() =~= ops);
    assert(w.owed_with_seq() + Seq::<OpView>::empty() =~= w.owed_with_seq());
    assert(w.owed_with_seq().take(w.owed.len() as int) =~= w.owed);
}

// ---------------------------------------------------------------------------
// Order
// ---------------------------------------------------------------------------

/// Whether no place is past the end of `n` operations.
pub open spec fn within(places: Seq<nat>, n: nat) -> bool {
    forall|i: int| 0 <= i < places.len() ==> #[trigger] places[i] <= n
}

/// Records that became owed at one spot stand there: after the operations that were there by then,
/// and before those that came later.
pub proof fn law_records_stand_where_drawn(
    owed: Seq<OpView>,
    ops: Seq<OpView>,
    places: Seq<nat>,
    drawn: Seq<OpView>,
    later: Seq<OpView>,
)
    requires
        within(places, ops.len()),
    ensures
        model::woven(
            owed + drawn,
            ops + later,
            places + model::copies(drawn.len(), ops.len()),
        ) == model::woven(owed, ops, places) + drawn + later,
    decreases drawn.len() + later.len(),
{
    let o = owed + drawn;
    let p = ops + later;
    let at = places + model::copies(drawn.len(), ops.len());
    let start = model::woven(owed, ops, places);
    if later.len() > 0 {
        let less = later.drop_last();
        law_records_stand_where_drawn(owed, ops, places, drawn, less);
        assert(p.drop_last() =~= ops + less);
        if o.len() == 0 || at.len() == 0 {
            assert(drawn =~= Seq::empty());
            assert(owed.len() == 0 || places.len() == 0);
            assert(o =~= owed);
            assert(o + p =~= owed + ops + drawn + later);
        } else {
            assert(at.last() <= ops.len()) by {
                if drawn.len() == 0 {
                    assert(at.last() == places[places.len() - 1]);
                }
            }
            assert(start + drawn + later =~= (start + drawn + less).push(later.last()));
        }
    } else if drawn.len() > 0 {
        let less = drawn.drop_last();
        law_records_stand_where_drawn(owed, ops, places, less, later);
        assert(p =~= ops);
        assert(ops + later =~= ops);
        assert(at.last() == ops.len());
        assert(at.drop_last() =~= places + model::copies(less.len(), ops.len()));
        assert(o.drop_last() =~= owed + less);
        assert(start + drawn + later =~= (start + less + later).push(drawn.last()));
    } else {
        assert(o =~= owed);
        assert(p =~= ops);
        assert(at =~= places);
        assert(start + drawn + later =~= start);
    }
}

proof fn lemma_nothing_woven(owed: Seq<OpView>)
    ensures
        model::woven(owed, Seq::empty(), Seq::empty()) == owed,
{
    assert(owed + Seq::<OpView>::empty() =~= owed);
}

/// Interning adds to what is owed, at its end.
proof fn lemma_owed_extends(w: WriterView, kind: SchemaKind, names: Seq<Seq<char>>)
    ensures
        ({
            let more = w.intern_all(kind, names).writer.owed;
            more.len() >= w.owed.len() && more == w.owed + more.skip(w.owed.len() as int)
        }),
    decreases names.len(),
{
    let more = w.intern_all(kind, names).writer.owed;
    if names.len() > 0 {
        lemma_owed_extends(w, kind, names.drop_last());
    }
    assert(more =~= w.owed + more.skip(w.owed.len() as int));
}

proof fn lemma_resolved_in_order(w: WriterView, xid: Seq<u8>, stored: Option<Seq<u8>>)
    ensures
        ({
            let (w1, r) = w.resolve(xid, stored);
            let fresh = w1.owed.skip(w.owed.len() as int);
            &&& w1.owed.len() >= w.owed.len()
            &&& w1.owed == w.owed + fresh
            &&& r matches Ok(found) ==> {
                &&& found.places == model::copies(fresh.len(), 0)
                &&& model::woven(w1.owed, found.ops, found.places) == w1.owed + found.ops
            }
            &&& w.resolve_and_stub(xid, stored).1 matches Ok(found) ==> {
                &&& found.places == model::copies(fresh.len(), 0)
                &&& model::woven(w1.owed, found.ops, found.places) == w1.owed + found.ops
            }
        }),
{
    let (w1, r) = w.resolve(xid, stored);
    let fresh = w1.owed.skip(w.owed.len() as int);
    assert(w1.owed =~= w.owed + fresh);
    if r is Ok {
        let none = Seq::<OpView>::empty();
        let at = model::copies(fresh.len(), 0);
        assert(r->Ok_0.places =~= at);
        assert(Seq::<nat>::empty() + at =~= at);
        lemma_nothing_woven(w.owed);
        let ops = r->Ok_0.ops;
        assert(none + ops =~= ops);
        law_records_stand_where_drawn(w.owed, none, Seq::empty(), fresh, ops);
        let (w2, stubbed) = w.resolve_and_stub(xid, stored);
        if stubbed is Ok {
            let more = stubbed->Ok_0.ops;
            assert(none + more =~= more);
            law_records_stand_where_drawn(w.owed, none, Seq::empty(), fresh, more);
        }
    }
}

/// The batch of a node upsert holds, in this order: what earlier writes owe; the block of a new uid
/// and its mapping; the records of new names; the node; the block of the sequence number; the
/// changelog record; the cursor.
pub proof fn law_node_batch_in_order(
    w: WriterView,
    xid: Seq<u8>,
    stored: Option<Seq<u8>>,
    labels: Seq<Seq<char>>,
    props: Seq<(Seq<char>, ValueView)>,
    prior: Result<Option<Seq<u8>>, ErrorView>,
)
    requires
        w.resolve(xid, stored).1 is Ok,
        ({
            let (w1, r) = w.resolve(xid, stored);
            let (w2, drafted) = w1.draft_node(xid, labels, props, r->Ok_0, prior);
            drafted is Ok && w2.upsert_node(drafted->Ok_0).1 is Ok
        }),
    ensures
        ({
            let (w1, r) = w.resolve(xid, stored);
            let found = r->Ok_0;
            let (w2, drafted) = w1.draft_node(xid, labels, props, found, prior);
            let d = drafted->Ok_0;
            let batch = w2.upsert_node(d).1->Ok_0;
            let c = model::node_change(ChangeOp::UpsertNode, d.uid, Some(d.delta));
            &&& w1.owed == w.owed + w1.owed.skip(w.owed.len() as int)
            &&& batch.ops == w1.owed + found.ops + w2.owed.skip(w1.owed.len() as int) + seq![
                model::node_put(d.uid, d.record)->Ok_0,
            ] + store::reserve_ops(w.allocs.seq.reservation()) + model::log_ops(batch.seqnum, c)
        }),
{
    let (w1, r) = w.resolve(xid, stored);
    let found = r->Ok_0;
    let (w2, drafted) = w1.draft_node(xid, labels, props, found, prior);
    let d = drafted->Ok_0;
    let names = model::names_of(props);
    let l = w1.intern_all(SchemaKind::Label, labels).writer;
    lemma_resolved_in_order(w, xid, stored);
    lemma_owed_extends(w1, SchemaKind::Label, labels);
    lemma_owed_extends(l, SchemaKind::PropertyKey, names);
    crate::write::lemma_intern_all(w1, SchemaKind::Label, labels);
    crate::write::lemma_intern_all(l, SchemaKind::PropertyKey, names);
    let drawn = w2.owed.skip(w1.owed.len() as int);
    assert(w2.owed =~= w1.owed + drawn);
    let put = model::node_put(d.uid, d.record)->Ok_0;
    assert(found.ops.push(put) =~= found.ops + seq![put]);
    law_records_stand_where_drawn(w1.owed, found.ops, found.places, drawn, seq![put]);
}

/// The batch of an edge upsert holds, in this order: what earlier writes owe; for each end that is
/// new the block of its uid, its mapping and its node; the records of a new predicate; the postings
/// of both ends; both degrees; the records of new names of properties; the properties; the block of
/// the sequence number; the changelog record; the cursor.
pub proof fn law_edge_batch_in_order(
    w: WriterView,
    src_xid: Seq<u8>,
    src_stored: Option<Seq<u8>>,
    pred: Seq<char>,
    dst_xid: Seq<u8>,
    dst_stored: Option<Seq<u8>>,
    out_ops: Seq<OpView>,
    in_ops: Seq<OpView>,
    props: Seq<(Seq<char>, ValueView)>,
)
    requires
        w.draft_edge(src_xid, src_stored, pred, dst_xid, Ok(dst_stored)).1 is Ok,
    ensures
        ({
            let (w1, s) = w.resolve_and_stub(src_xid, src_stored);
            let (w2, t) = w1.resolve_and_stub(dst_xid, dst_stored);
            let (w3, drafted) = w.draft_edge(
                src_xid,
                src_stored,
                pred,
                dst_xid,
                Ok(dst_stored),
            );
            let w4 = w3.intern_all(SchemaKind::PropertyKey, model::names_of(props)).writer;
            let d = drafted->Ok_0;
            let batch = w3.upsert_edge_with_props(d, out_ops, in_ops, props).1;
            let c = model::edge_change(ChangeOp::UpsertEdge, d.src, d.pred, d.dst);
            &&& w1.owed == w.owed + w1.owed.skip(w.owed.len() as int)
            &&& batch.ops == w1.owed + s->Ok_0.ops + w2.owed.skip(w1.owed.len() as int)
                + t->Ok_0.ops + w3.owed.skip(w2.owed.len() as int) + (out_ops + in_ops
                + model::degree_ops(d.src, d.pred, d.dst, 1)) + w4.owed.skip(
                w3.owed.len() as int,
            ) + prop_ops(d, w3.edge_props(props)) + store::reserve_ops(
                w.allocs.seq.reservation(),
            ) + model::log_ops(batch.seqnum, c)
        }),
{
    let (w1, s) = w.resolve_and_stub(src_xid, src_stored);
    let (w2, t) = w1.resolve_and_stub(dst_xid, dst_stored);
    let (w3, drafted) = w.draft_edge(src_xid, src_stored, pred, dst_xid, Ok(dst_stored));
    let names = model::names_of(props);
    let w4 = w3.intern_all(SchemaKind::PropertyKey, names).writer;
    let d = drafted->Ok_0;
    let (first, second) = (s->Ok_0, t->Ok_0);
    lemma_resolved_in_order(w, src_xid, src_stored);
    lemma_resolved_in_order(w1, dst_xid, dst_stored);
    lemma_owed_extends(w3, SchemaKind::PropertyKey, names);
    crate::write::lemma_intern_all(w3, SchemaKind::PropertyKey, names);
    let for_dst = w2.owed.skip(w1.owed.len() as int);
    let for_pred = w3.owed.skip(w2.owed.len() as int);
    let for_props = w4.owed.skip(w3.owed.len() as int);
    assert(w2.owed =~= w1.owed + for_dst);
    assert(w3.owed =~= w2.owed + for_pred);
    assert(w4.owed =~= w3.owed + for_props);
    let ends = first.ops + second.ops;
    let ends_at = first.places + model::copies(for_dst.len(), first.ops.len());
    let fan = out_ops + in_ops + model::degree_ops(d.src, d.pred, d.dst, 1);
    let plain = ends + fan;
    let tail = prop_ops(d, w3.edge_props(props));
    law_records_stand_where_drawn(w1.owed, first.ops, first.places, for_dst, second.ops);
    law_records_stand_where_drawn(w2.owed, ends, ends_at, for_pred, fan);
    assert(d.places =~= ends_at + model::copies(for_pred.len(), ends.len()));
    law_records_stand_where_drawn(w3.owed, plain, d.places, for_props, tail);
    let held = w3.edge_props(props);
    assert(model::edge_ops(d, out_ops, in_ops, held) =~= plain + tail);
    assert(model::edge_places(d, out_ops, in_ops, for_props.len()) =~= d.places + model::copies(
        for_props.len(),
        plain.len(),
    ));
}

/// The operation that records the properties of an edge, where it has any.
pub open spec fn prop_ops(d: EdgeDraftView, held: Map<PropId, ValueView>) -> Seq<OpView> {
    if held.is_empty() {
        Seq::empty()
    } else {
        seq![model::edge_prop_put(d.src, d.pred, d.dst, held)]
    }
}

} // verus!
