//! The batches that writes hand out, operation by operation, whatever the state of the writer and
//! whatever was read from the store.

use vstd::prelude::*;

use crate::change;
use crate::change::{ChangeOp, ChangeView};
use crate::endian;
use crate::format_laws;
use crate::ids::{Direction, PredId, PropId, SchemaKind, Uid};
use crate::meaning;
use crate::model;
use crate::model::{BatchView, EdgeDraftView, NodeDraftView, StepView, WriterView};
use crate::node;
use crate::props;
use crate::step_laws;
use crate::store;
use crate::store::{KeyView, OpView, PayloadView};
use crate::value::ValueView;
use crate::weave_laws;
use crate::write_laws;

verus! {

/// Whether a batch does what it should, and nothing else: beside the records that are owed once it
/// was handed out, the given operations, the record of the given change under the batch's number,
/// and the cursor at that number.
pub open spec fn is_batch(
    w: WriterView,
    after: WriterView,
    batch: BatchView,
    own: Seq<OpView>,
    c: ChangeView,
) -> bool {
    &&& batch.await_durable
    &&& batch.seqnum == w.allocs.seq.next + 1
    &&& c.seq == batch.seqnum
    &&& weave_laws::records_in(batch.ops) == after.owed
    &&& weave_laws::rest_of(batch.ops) == own + seq![
        OpView::Put {
            key: KeyView::Log(batch.seqnum),
            value: PayloadView::Raw(change::change_bytes(c)),
        },
        OpView::Put {
            key: KeyView::Meta(vstd::utf8::encode_utf8("latest_seq"@)),
            value: PayloadView::Raw(endian::le_bytes(batch.seqnum as nat, 8)),
        },
    ]
}

proof fn lemma_is_batch(w: WriterView, ops: Seq<OpView>, places: Seq<nat>, c: ChangeView)
    requires
        write_laws::introduces(w.owed),
        weave_laws::no_records(ops),
        w.allocs.seq.can_advance(),
    ensures
        ({
            let (after, batch) = w.commit(ops, places, c);
            is_batch(w, after, batch, ops, ChangeView { seq: batch.seqnum, ..c })
        }),
{
    weave_laws::law_batch_holds_what_is_owed(w, ops, places, c);
    step_laws::law_batch_is_what_is_owed_and_done(w, ops, places, c);
}

/// The batch of a node deletion marks the node that the mapping names, and the changelog says so.
pub proof fn law_batch_of_a_node_deletion(w: WriterView, b: Seq<u8>)
    requires
        b.len() == 8,
        write_laws::introduces(w.owed),
        w.allocs.seq.can_advance(),
    ensures
        ({
            let uid = Uid(format_laws::u64_be_at(b, 0) as u64);
            let (after, step) = w.delete_node(Some(b));
            step matches Ok(StepView::Apply(batch)) && is_batch(
                w,
                after,
                batch,
                seq![OpView::DeleteNode { uid }],
                ChangeView {
                    seq: batch.seqnum,
                    op: ChangeOp::DeleteNode,
                    subject_uid: uid,
                    pred_id: None,
                    object_uid: None,
                    value: None,
                    label_delta: None,
                },
            )
        }),
{
    format_laws::law_mapping_is_eight_bytes(b);
    let uid = Uid(format_laws::u64_be_at(b, 0) as u64);
    lemma_is_batch(
        w,
        seq![OpView::DeleteNode { uid }],
        Seq::empty(),
        model::node_change(ChangeOp::DeleteNode, uid, None),
    );
}

/// The batch of an edge deletion marks the edge from either end, takes one off both degrees and
/// erases the properties of the edge; and the changelog says which edge it was.
pub proof fn law_batch_of_an_edge_deletion(
    w: WriterView,
    a: Seq<u8>,
    pred: Seq<char>,
    b: Seq<u8>,
)
    requires
        a.len() == 8,
        b.len() == 8,
        w.schema.contains_key((SchemaKind::Predicate, pred)),
        write_laws::introduces(w.owed),
        w.allocs.seq.can_advance(),
    ensures
        ({
            let s = Uid(format_laws::u64_be_at(a, 0) as u64);
            let t = Uid(format_laws::u64_be_at(b, 0) as u64);
            let p = PredId(w.schema[(SchemaKind::Predicate, pred)]);
            let (after, step) = w.delete_edge(Some(a), pred, Some(b));
            step matches Ok(StepView::Apply(batch)) && is_batch(
                w,
                after,
                batch,
                seq![
                    OpView::DeleteEdge { pred: p, anchor: s, other: t },
                    OpView::DeleteEdge { pred: p, anchor: t, other: s },
                    store::bump_op(p, Direction::Out, s, -1i64),
                    store::bump_op(p, Direction::In, t, -1i64),
                    OpView::Delete { key: KeyView::EdgeProp(s, p, t) },
                ],
                ChangeView {
                    seq: batch.seqnum,
                    op: ChangeOp::DeleteEdge,
                    subject_uid: s,
                    pred_id: Some(p),
                    object_uid: Some(t),
                    value: None,
                    label_delta: None,
                },
            )
        }),
{
    format_laws::law_mapping_is_eight_bytes(a);
    format_laws::law_mapping_is_eight_bytes(b);
    let s = Uid(format_laws::u64_be_at(a, 0) as u64);
    let t = Uid(format_laws::u64_be_at(b, 0) as u64);
    let p = PredId(w.schema[(SchemaKind::Predicate, pred)]);
    let own = model::delete_edge_ops(s, p, t);
    assert(own =~= seq![
        OpView::DeleteEdge { pred: p, anchor: s, other: t },
        OpView::DeleteEdge { pred: p, anchor: t, other: s },
        store::bump_op(p, Direction::Out, s, -1i64),
        store::bump_op(p, Direction::In, t, -1i64),
        OpView::Delete { key: KeyView::EdgeProp(s, p, t) },
    ]);
    lemma_is_batch(
        w,
        own,
        Seq::empty(),
        model::edge_change(ChangeOp::DeleteEdge, s, p, t),
    );
}

/// The batch of a node upsert has what the draft maps, and the record of the node; and the changelog
/// says which labels it added.
pub proof fn law_batch_of_a_node_upsert(w: WriterView, d: NodeDraftView)
    requires
        node::node_bytes(d.record).len() <= 1_048_576,
        weave_laws::no_records(d.ops),
        write_laws::introduces(w.owed),
        w.allocs.seq.can_advance(),
    ensures
        ({
            let (after, out) = w.upsert_node(d);
            out matches Ok(batch) && is_batch(
                w,
                after,
                batch,
                d.ops.push(
                    OpView::Put {
                        key: KeyView::Node(d.uid),
                        value: PayloadView::Raw(node::node_bytes(d.record)),
                    },
                ),
                ChangeView {
                    seq: batch.seqnum,
                    op: ChangeOp::UpsertNode,
                    subject_uid: d.uid,
                    pred_id: None,
                    object_uid: None,
                    value: None,
                    label_delta: Some(d.delta),
                },
            )
        }),
{
    let put = model::node_put(d.uid, d.record)->Ok_0;
    assert forall|i: int| 0 <= i < d.ops.push(put).len() implies !weave_laws::is_record(
        #[trigger] d.ops.push(put)[i],
    ) by {
        if i < d.ops.len() {
            assert(!weave_laws::is_record(d.ops[i]));
        }
    }
    lemma_is_batch(
        w,
        d.ops.push(put),
        d.places,
        model::node_change(ChangeOp::UpsertNode, d.uid, Some(d.delta)),
    );
}

/// The operation that holds the properties of an edge, if it is given any: under every id the value
/// that was given last for its name, and nothing else.
pub open spec fn is_props_put(
    after: WriterView,
    d: EdgeDraftView,
    given: Seq<(Seq<char>, ValueView)>,
    ops: Seq<OpView>,
) -> bool {
    if given.len() == 0 {
        ops.len() == 0
    } else {
        &&& ops.len() == 1
        &&& exists|m: Map<PropId, ValueView>|
            meaning::overlaid(after, Map::empty(), given, m) && ops[0] == (OpView::Put {
                key: KeyView::EdgeProp(d.src, d.pred, d.dst),
                value: PayloadView::Raw(#[trigger] props::props_bytes(m)),
            })
    }
}

/// The batch of an edge upsert has what the draft maps and makes nodes of, the operations on the
/// postings, the source's first, one step up for both degrees, and the properties if there are any;
/// and the changelog says which edge it was.
pub proof fn law_batch_of_an_edge_upsert(
    w: WriterView,
    d: EdgeDraftView,
    out_ops: Seq<OpView>,
    in_ops: Seq<OpView>,
    given: Seq<(Seq<char>, ValueView)>,
)
    requires
        write_laws::wf(w),
        w.can_intern_all(SchemaKind::PropertyKey, model::names_of(given)),
        weave_laws::no_records(d.ops),
        weave_laws::no_records(out_ops),
        weave_laws::no_records(in_ops),
        w.allocs.seq.can_advance(),
    ensures
        ({
            let (after, batch) = w.upsert_edge_with_props(d, out_ops, in_ops, given);
            let fixed = d.ops + out_ops + in_ops + seq![
                store::bump_op(d.pred, Direction::Out, d.src, 1),
                store::bump_op(d.pred, Direction::In, d.dst, 1),
            ];
            let own = weave_laws::rest_of(batch.ops).drop_last().drop_last();
            &&& is_batch(
                w,
                after,
                batch,
                own,
                ChangeView {
                    seq: batch.seqnum,
                    op: ChangeOp::UpsertEdge,
                    subject_uid: d.src,
                    pred_id: Some(d.pred),
                    object_uid: Some(d.dst),
                    value: None,
                    label_delta: None,
                },
            )
            &&& own.len() >= fixed.len()
            &&& own.take(fixed.len() as int) == fixed
            &&& is_props_put(after, d, given, own.skip(fixed.len() as int))
        }),
{
    let (after, batch) = w.upsert_edge_with_props(d, out_ops, in_ops, given);
    let names = model::names_of(given);
    let w2 = w.intern_all(SchemaKind::PropertyKey, names).writer;
    let held = w.edge_props(given);
    let fixed = d.ops + out_ops + in_ops + seq![
        store::bump_op(d.pred, Direction::Out, d.src, 1),
        store::bump_op(d.pred, Direction::In, d.dst, 1),
    ];
    let ops = model::edge_ops(d, out_ops, in_ops, held);
    let tail = weave_laws::prop_ops(d, held);
    write_laws::law_intern_all_keeps_wf(w, SchemaKind::PropertyKey, names);
    crate::write::lemma_intern_all(w, SchemaKind::PropertyKey, names);
    meaning::lemma_keyed(w, given);
    assert(ops =~= fixed + tail);
    assert forall|i: int| 0 <= i < ops.len() implies !weave_laws::is_record(
        #[trigger] ops[i],
    ) by {
        let a = d.ops.len() as int;
        let b = a + out_ops.len();
        let e = b + in_ops.len();
        if i < a {
            assert(!weave_laws::is_record(d.ops[i]));
        } else if i < b {
            assert(!weave_laws::is_record(out_ops[i - a]));
        } else if i < e {
            assert(!weave_laws::is_record(in_ops[i - b]));
        }
    }
    let fresh = (w2.owed.len() - w.owed.len()) as nat;
    lemma_is_batch(
        w2,
        ops,
        model::edge_places(d, out_ops, in_ops, fresh),
        model::edge_change(ChangeOp::UpsertEdge, d.src, d.pred, d.dst),
    );
    let rest = weave_laws::rest_of(batch.ops);
    assert(rest.drop_last().drop_last() =~= ops);
    assert(ops.take(fixed.len() as int) =~= fixed);
    assert(ops.skip(fixed.len() as int) =~= tail);
    if given.len() > 0 {
        write_laws::lemma_some_props(w, given);
        assert(!held.is_empty());
        assert(tail[0] == (OpView::Put {
            key: KeyView::EdgeProp(d.src, d.pred, d.dst),
            value: PayloadView::Raw(props::props_bytes(held)),
        }));
    } else {
        assert(held =~= Map::empty());
    }
}

} // verus!
