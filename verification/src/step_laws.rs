//! What the single steps of a write do to a writer, and what they answer, field by field.

use vstd::prelude::*;

use crate::allocators::SpaceView;
use crate::change;
use crate::change::ChangeView;
use crate::codec_laws;
use crate::endian;
use crate::error::{ErrorView, FaultView, Part};
use crate::format_laws;
use crate::ids::{PropId, SchemaKind};
use crate::message;
use crate::model;
use crate::model::{
    BatchView, EdgeDraftView, InFlightView, NodeDraftView, ResolutionView, StepView, WriterView,
};
use crate::node;
use crate::props;
use crate::schema;
use crate::schema::{EntryView, ValType};
use crate::stats;
use crate::stats::{Phase, WriteStats};
use crate::store;
use crate::store::{KeyView, OpView, PayloadView};
use crate::text;
use crate::value;
use crate::value::ValueView;
use crate::weave_laws;
use crate::write_laws;

verus! {

// ---------------------------------------------------------------------------
// Names
// ---------------------------------------------------------------------------

/// Whether operations are the reservation of a block for an id space, where its next id needs one:
/// the first number and the size of the block, both with the most significant byte first.
pub open spec fn reserves(ops: Seq<OpView>, s: SpaceView) -> bool {
    if s.next < s.end {
        ops.len() == 0
    } else {
        &&& ops.len() == 1
        &&& ops[0] matches OpView::Put { key, value } && {
            &&& key == KeyView::Block(s.key)
            &&& value matches PayloadView::Raw(b) && {
                &&& b.len() == 16
                &&& s.next <= u64::MAX ==> format_laws::u64_be_at(b, 0) == s.next
                &&& format_laws::u64_be_at(b, 8) == 4096
            }
        }
    }
}

proof fn lemma_reserves(s: SpaceView)
    ensures
        reserves(store::reserve_ops(s.reservation()), s),
{
    if s.next >= s.end {
        let b = endian::be_bytes(s.next, 8) + endian::be_bytes(4096, 8);
        endian::lemma_be_bytes_len(s.next, 8);
        format_laws::law_numbers_are_spelled(s.next);
        format_laws::law_numbers_are_spelled(4096);
        assert(b.subrange(0, 8) =~= endian::be_bytes(s.next, 8));
        assert(b.subrange(8, 16) =~= endian::be_bytes(4096, 8));
        format_laws::lemma_within(b, 0);
        format_laws::lemma_within(b, 8);
    }
}

/// A name that is known keeps its id, and nothing changes. A name that is new gets the next id of
/// its kind, which moves on by one; every other name keeps its own. Owed from then on are the block
/// that the id needs, if it needs one, the id under the name, and the definition under the id: the
/// name, no type, and for a predicate alone the reverse projection.
pub proof fn law_interning_is_spelled(w: WriterView, kind: SchemaKind, name: Seq<char>)
    requires
        w.can_intern(kind, name),
    ensures
        ({
            let i = w.intern(kind, name);
            let space = w.allocs.space(kind);
            let fresh = i.writer.owed.skip(w.owed.len() as int);
            let n = fresh.len() - 2;
            &&& w.schema.contains_key((kind, name)) ==> i.writer == w && i.id == w.schema[(
                kind,
                name,
            )]
            &&& !w.schema.contains_key((kind, name)) ==> {
                &&& i.id == space.next
                &&& i.writer.schema == w.schema.insert((kind, name), i.id)
                &&& i.writer.allocs.space(kind).next == space.next + 1
                &&& forall|other: SchemaKind|
                    other != kind ==> #[trigger] i.writer.allocs.space(other) == w.allocs.space(
                        other,
                    )
                &&& i.writer.allocs.uid == w.allocs.uid
                &&& i.writer.allocs.seq == w.allocs.seq
                &&& i.writer.latest_seq == w.latest_seq
                &&& i.writer.in_flight == w.in_flight
                &&& i.writer.owed == w.owed + fresh
                &&& n >= 0
                &&& reserves(fresh.take(n), space)
                &&& fresh[n] matches OpView::Put { key, value: PayloadView::Raw(b) } && {
                    &&& key == KeyView::SchemaName(kind, vstd::utf8::encode_utf8(name))
                    &&& b.len() == 4
                    &&& format_laws::u32_at(b, 0) == i.id
                }
                &&& fresh[n + 1] matches OpView::Put { key, value: PayloadView::Entry(e) } && {
                    &&& key == KeyView::SchemaId(kind, i.id)
                    &&& e.name == name
                    &&& e.value_type == ValType::Untyped
                    &&& e.directives.reverse == (kind == SchemaKind::Predicate)
                }
            }
        }),
{
    let i = w.intern(kind, name);
    let space = w.allocs.space(kind);
    if !w.schema.contains_key((kind, name)) {
        let added = model::intern_ops(space, kind, name);
        let block = store::reserve_ops(space.reservation());
        lemma_reserves(space);
        format_laws::law_numbers_are_spelled(space.next);
        let fresh = i.writer.owed.skip(w.owed.len() as int);
        assert(fresh =~= added);
        assert(fresh.take(fresh.len() - 2) =~= block);
        assert(i.writer.owed =~= w.owed + fresh);
    }
}

/// Names are interned one after the other, in the order in which they are given.
pub proof fn law_names_are_interned_in_order(
    w: WriterView,
    kind: SchemaKind,
    names: Seq<Seq<char>>,
    name: Seq<char>,
)
    ensures
        w.intern_all(kind, Seq::empty()).writer == w,
        w.intern_all(kind, names).ids.len() == names.len(),
        ({
            let most = w.intern_all(kind, names);
            let all = w.intern_all(kind, names.push(name));
            let last = most.writer.intern(kind, name);
            all.writer == last.writer && all.ids == most.ids.push(last.id)
        }),
    decreases names.len(),
{
    assert(names.push(name).drop_last() =~= names);
    if names.len() > 0 {
        law_names_are_interned_in_order(w, kind, names.drop_last(), names.last());
        assert(names.drop_last().push(names.last()) =~= names);
    }
}

/// The uid of an external id: the stored one, and then nothing changes; or the next one, and then
/// the space of uids moves on by one and the block that the uid needs, if it needs one, is owed. A
/// new one is mapped by one operation, with the most significant byte first. A mapping that is not
/// eight bytes is refused, and nothing changes.
pub proof fn law_resolving_is_spelled(w: WriterView, xid: Seq<u8>, stored: Option<Seq<u8>>)
    requires
        stored is None ==> w.allocs.uid.can_advance(),
    ensures
        ({
            let (after, r) = w.resolve(xid, stored);
            match stored {
                Some(b) => if b.len() == 8 {
                    &&& after == w
                    &&& r matches Ok(found) && {
                        &&& found.uid.0 == format_laws::u64_be_at(b, 0)
                        &&& found.ops.len() == 0
                    }
                } else {
                    &&& after == w
                    &&& r == Err::<ResolutionView, ErrorView>(
                        ErrorView::Encoding(
                            FaultView::WrongWidth { what: "Xid mapping", got: b.len() as usize },
                        ),
                    )
                },
                None => {
                    &&& after.allocs.uid.next == w.allocs.uid.next + 1
                    &&& after.allocs.label == w.allocs.label
                    &&& after.allocs.pred == w.allocs.pred
                    &&& after.allocs.prop == w.allocs.prop
                    &&& after.allocs.seq == w.allocs.seq
                    &&& after.schema == w.schema
                    &&& after.latest_seq == w.latest_seq
                    &&& after.in_flight == w.in_flight
                    &&& after.owed.len() >= w.owed.len()
                    &&& after.owed.take(w.owed.len() as int) == w.owed
                    &&& reserves(after.owed.skip(w.owed.len() as int), w.allocs.uid)
                    &&& r matches Ok(found) && {
                        &&& found.uid.0 == w.allocs.uid.next
                        &&& found.ops.len() == 1
                        &&& found.ops[0] matches OpView::Put { key, value: PayloadView::Raw(b) } && {
                            &&& key == KeyView::Xid(xid)
                            &&& b.len() == 8
                            &&& format_laws::u64_be_at(b, 0) == found.uid.0
                        }
                    }
                },
            }
        }),
{
    match stored {
        Some(b) => {
            format_laws::law_mapping_is_eight_bytes(b);
        },
        None => {
            lemma_reserves(w.allocs.uid);
            format_laws::law_numbers_are_spelled(w.allocs.uid.next);
            let after = w.resolve(xid, stored).0;
            let block = store::reserve_ops(w.allocs.uid.reservation());
            assert(after.owed.skip(w.owed.len() as int) =~= block);
            assert(after.owed.take(w.owed.len() as int) =~= w.owed);
        },
    }
}

/// Whether definitions give a name an id, and no later one gives it another.
pub open spec fn defined_last(
    d: Seq<(SchemaKind, u32, EntryView)>,
    i: int,
) -> bool {
    forall|j: int|
        i < j < d.len() ==> !((#[trigger] d[j]).0 == d[i].0 && d[j].2.name == d[i].2.name)
}

proof fn lemma_defined(d: Seq<(SchemaKind, u32, EntryView)>, i: int)
    requires
        0 <= i < d.len(),
        defined_last(d, i),
    ensures
        schema::definitions_view(d).contains_key((d[i].0, d[i].2.name)),
        schema::definitions_view(d)[(d[i].0, d[i].2.name)] == d[i].1,
    decreases d.len(),
{
    let less = d.drop_last();
    let end = d.len() - 1;
    assert(d.last() == d[end]);
    if i < end {
        assert(less[i] == d[i]);
        assert forall|j: int| i < j < less.len() implies !((#[trigger] less[j]).0 == less[i].0
            && less[j].2.name == less[i].2.name) by {
            assert(less[j] == d[j]);
        }
        lemma_defined(less, i);
        let name = (d[i].0, d[i].2.name);
        let last = (d[end].0, d[end].2.name);
        assert(name != last);
    }
}

proof fn lemma_only_defined(
    d: Seq<(SchemaKind, u32, EntryView)>,
    name: (SchemaKind, Seq<char>),
) -> (i: int)
    requires
        schema::definitions_view(d).contains_key(name),
    ensures
        0 <= i < d.len(),
        d[i].0 == name.0,
        d[i].2.name == name.1,
    decreases d.len(),
{
    let less = d.drop_last();
    let end = d.len() - 1;
    assert(d.last() == d[end]);
    if d[end].0 == name.0 && d[end].2.name == name.1 {
        end
    } else {
        let i = lemma_only_defined(less, name);
        assert(less[i] == d[i]);
        i
    }
}

/// Names that are rebuilt from stored definitions have the ids of the last definition of each, and
/// there are no others.
pub proof fn law_last_definition_stands(d: Seq<(SchemaKind, u32, EntryView)>)
    ensures
        forall|i: int|
            0 <= i < d.len() && defined_last(d, i) ==> {
                let name = ((#[trigger] d[i]).0, d[i].2.name);
                schema::definitions_view(d).contains_key(name) && schema::definitions_view(d)[name]
                    == d[i].1
            },
        forall|name: (SchemaKind, Seq<char>)| #[trigger]
            schema::definitions_view(d).contains_key(name) ==> exists|i: int|
                0 <= i < d.len() && (#[trigger] d[i]).0 == name.0 && d[i].2.name == name.1,
{
    assert forall|i: int| 0 <= i < d.len() && defined_last(d, i) implies {
        let name = ((#[trigger] d[i]).0, d[i].2.name);
        schema::definitions_view(d).contains_key(name) && schema::definitions_view(d)[name]
            == d[i].1
    } by {
        lemma_defined(d, i);
    }
    assert forall|name: (SchemaKind, Seq<char>)| #[trigger]
        schema::definitions_view(d).contains_key(name) implies exists|i: int|
        0 <= i < d.len() && (#[trigger] d[i]).0 == name.0 && d[i].2.name == name.1 by {
        let i = lemma_only_defined(d, name);
        assert(d[i].0 == name.0);
    }
}

// ---------------------------------------------------------------------------
// Refusals
// ---------------------------------------------------------------------------

/// A node upsert is drafted unless the node that was there could not be read, does not decode, or
/// the external id is not UTF-8; the error is then that of the first of these. Either way its
/// labels are interned, and after them the names of its properties.
pub proof fn law_drafting_a_node_fails_where_due(
    w: WriterView,
    xid: Seq<u8>,
    labels: Seq<Seq<char>>,
    props: Seq<(Seq<char>, ValueView)>,
    found: ResolutionView,
    prior: Result<Option<Seq<u8>>, ErrorView>,
)
    ensures
        ({
            let (after, out) = w.draft_node(xid, labels, props, found, prior);
            &&& after == w.intern_all(SchemaKind::Label, labels).writer.intern_all(
                SchemaKind::PropertyKey,
                model::names_of(props),
            ).writer
            &&& model::names_of(props).len() == props.len()
            &&& forall|i: int|
                0 <= i < props.len() ==> #[trigger] model::names_of(props)[i] == props[i].0
            &&& match prior {
                Err(e) => out == Err::<NodeDraftView, ErrorView>(e),
                Ok(stored) => match stored {
                    Some(b) if node::decoded_node(b) is Err => out == Err::<
                        NodeDraftView,
                        ErrorView,
                    >(node::decoded_node(b)->Err_0),
                    _ => if vstd::utf8::valid_utf8(xid) {
                        out matches Ok(d) && d.uid == found.uid && d.ops == found.ops
                    } else {
                        out == Err::<NodeDraftView, ErrorView>(
                            ErrorView::Encoding(
                                FaultView::XidNotUtf8 { cause: text::utf8_cause(xid) },
                            ),
                        )
                    },
                },
            }
        }),
{
}

/// A drafted node upsert is refused only where its record takes more than 1 MiB. The error says how
/// many bytes it takes and how many it may, and nothing changes: no sequence number is used up.
pub proof fn law_only_oversize_nodes_are_refused(w: WriterView, d: NodeDraftView)
    ensures
        node::node_bytes(d.record).len() <= 1_048_576 ==> w.upsert_node(d).1 is Ok,
        node::node_bytes(d.record).len() > 1_048_576 ==> {
            &&& w.upsert_node(d).0 == w
            &&& w.upsert_node(d).1 == Err::<BatchView, ErrorView>(
                ErrorView::OversizeNode {
                    size: node::node_bytes(d.record).len() as usize,
                    cap: 1_048_576,
                },
            )
        },
{
}

/// Why an end of an edge is refused, if it is: its mapping is not eight bytes; or it is new, and
/// its external id is not UTF-8 or too long for a node record of its own.
pub open spec fn end_fault(xid: Seq<u8>, stored: Option<Seq<u8>>) -> Option<ErrorView> {
    match stored {
        Some(b) => if b.len() == 8 {
            None
        } else {
            Some(
                ErrorView::Encoding(
                    FaultView::WrongWidth { what: "Xid mapping", got: b.len() as usize },
                ),
            )
        },
        None => if !vstd::utf8::valid_utf8(xid) {
            Some(
                ErrorView::Encoding(FaultView::XidNotUtf8 { cause: text::utf8_cause(xid) }),
            )
        } else if xid.len() + 8 > 1_048_576 {
            Some(ErrorView::OversizeNode { size: (xid.len() + 8) as usize, cap: 1_048_576 })
        } else {
            None
        },
    }
}

proof fn lemma_end(w: WriterView, xid: Seq<u8>, stored: Option<Seq<u8>>)
    ensures
        match end_fault(xid, stored) {
            Some(e) => w.resolve_and_stub(xid, stored).1 == Err::<ResolutionView, ErrorView>(e),
            None => w.resolve_and_stub(xid, stored).1 is Ok,
        },
{
    if let Some(b) = stored {
        format_laws::law_mapping_is_eight_bytes(b);
    } else if vstd::utf8::valid_utf8(xid) {
        let name = vstd::utf8::decode_utf8(xid);
        vstd::utf8::decode_utf8_encode_utf8(xid);
        let n = model::stub(name);
        format_laws::law_node_is_spelled(n);
        format_laws::law_labels_are_spelled(n.labels);
        props::lemma_empty_props_len();
    }
}

/// An end of an edge that is known takes no operations. One that is new is mapped, and gets a record
/// that decodes to a node with its external id, no label and no property.
pub proof fn law_new_end_is_a_bare_node(w: WriterView, xid: Seq<u8>, stored: Option<Seq<u8>>)
    requires
        end_fault(xid, stored) is None,
    ensures
        ({
            let (after, out) = w.resolve_and_stub(xid, stored);
            let (same, found) = w.resolve(xid, stored);
            &&& after == same
            &&& out matches Ok(r) && found matches Ok(f) && {
                &&& r.uid == f.uid
                &&& stored is Some ==> r.ops.len() == 0
                &&& stored is None ==> {
                    &&& r.ops.len() == 2
                    &&& r.ops[0] == f.ops[0]
                    &&& r.ops[1] matches OpView::Put { key, value: PayloadView::Raw(b) } && {
                        &&& key == KeyView::Node(r.uid)
                        &&& node::decoded_node(b) matches Ok(n) && {
                            &&& n.labels.len() == 0
                            &&& n.props == Map::<PropId, ValueView>::empty()
                            &&& vstd::utf8::encode_utf8(n.xid) == xid
                        }
                    }
                }
            }
        }),
{
    lemma_end(w, xid, stored);
    if let Some(b) = stored {
        format_laws::law_mapping_is_eight_bytes(b);
    } else {
        let n = model::stub(vstd::utf8::decode_utf8(xid));
        vstd::utf8::decode_utf8_encode_utf8(xid);
        assert(n.props.len() == 0);
        codec_laws::law_node_round_trip(n);
    }
}

/// An edge upsert is drafted unless one of its ends is refused, or the mapping of the target cannot
/// be read; the error is that of the source where both are at fault. What was handed out on the way
/// stays handed out: the uid of the source, that of the target, and the id of the predicate, in
/// this order.
pub proof fn law_drafting_an_edge_fails_where_due(
    w: WriterView,
    src: Seq<u8>,
    src_stored: Option<Seq<u8>>,
    pred: Seq<char>,
    dst: Seq<u8>,
    dst_stored: Result<Option<Seq<u8>>, ErrorView>,
)
    ensures
        ({
            let (after, out) = w.draft_edge(src, src_stored, pred, dst, dst_stored);
            let w1 = w.resolve(src, src_stored).0;
            match (end_fault(src, src_stored), dst_stored) {
                (Some(e), _) => out == Err::<EdgeDraftView, ErrorView>(e) && after == w1,
                (None, Err(e)) => out == Err::<EdgeDraftView, ErrorView>(e) && after == w1,
                (None, Ok(stored)) => {
                    let w2 = w1.resolve(dst, stored).0;
                    match end_fault(dst, stored) {
                        Some(e) => out == Err::<EdgeDraftView, ErrorView>(e) && after == w2,
                        None => out is Ok && after == w2.intern(
                            SchemaKind::Predicate,
                            pred,
                        ).writer,
                    }
                },
            }
        }),
{
    lemma_end(w, src, src_stored);
    if let Ok(stored) = dst_stored {
        lemma_end(w.resolve_and_stub(src, src_stored).0, dst, stored);
    }
}

/// A deletion of what is not there is done at once: it answers with the cursor, and changes
/// nothing. A mapping that is not eight bytes is refused, and nothing changes. Everything else is
/// deleted by a batch.
pub proof fn law_deletions_answer_where_due(
    w: WriterView,
    a: Option<Seq<u8>>,
    pred: Seq<char>,
    b: Option<Seq<u8>>,
)
    ensures
        match a {
            None => w.delete_node(a) == (w, Ok::<StepView, ErrorView>(
                StepView::Done(w.latest_seq),
            )),
            Some(x) => if x.len() == 8 {
                w.delete_node(a).1 matches Ok(StepView::Apply(_))
            } else {
                w.delete_node(a) == (w, Err::<StepView, ErrorView>(
                    ErrorView::Encoding(
                        FaultView::WrongWidth { what: "Xid mapping", got: x.len() as usize },
                    ),
                ))
            },
        },
        ({
            let bad_a = a is Some && a->Some_0.len() != 8;
            let bad_b = b is Some && b->Some_0.len() != 8;
            let got = if bad_a {
                a->Some_0.len()
            } else {
                b->Some_0.len()
            };
            &&& bad_a || bad_b ==> w.delete_edge(a, pred, b) == (w, Err::<StepView, ErrorView>(
                ErrorView::Encoding(
                    FaultView::WrongWidth { what: "Xid mapping", got: got as usize },
                ),
            ))
            &&& !bad_a && !bad_b && (a is None || b is None || !w.schema.contains_key(
                (SchemaKind::Predicate, pred),
            )) ==> w.delete_edge(a, pred, b) == (w, Ok::<StepView, ErrorView>(
                StepView::Done(w.latest_seq),
            ))
            &&& !bad_a && !bad_b && a is Some && b is Some && w.schema.contains_key(
                (SchemaKind::Predicate, pred),
            ) ==> (w.delete_edge(a, pred, b).1 matches Ok(StepView::Apply(_)))
        }),
{
    if let Some(x) = a {
        format_laws::law_mapping_is_eight_bytes(x);
    }
    if let Some(x) = b {
        format_laws::law_mapping_is_eight_bytes(x);
    }
}

// ---------------------------------------------------------------------------
// Batches
// ---------------------------------------------------------------------------

/// Every batch is to be durable before it counts as applied. It goes under the next sequence
/// number, and ends with the changelog record, whose fields are those of the change and that
/// number, and the cursor, which moves to it. Nothing is committed yet: the cursor of the writer
/// stays.
pub proof fn law_commit_is_spelled(
    w: WriterView,
    ops: Seq<OpView>,
    places: Seq<nat>,
    c: ChangeView,
)
    requires
        w.allocs.seq.can_advance(),
    ensures
        ({
            let (after, batch) = w.commit(ops, places, c);
            let n = batch.ops.len() as int;
            &&& batch.await_durable
            &&& batch.seqnum == w.allocs.seq.next + 1
            &&& n >= 2
            &&& batch.ops[n - 2] matches OpView::Put { key, value: PayloadView::Raw(b) } && {
                &&& key == KeyView::Log(batch.seqnum)
                &&& b == change::change_bytes(
                    ChangeView {
                        seq: batch.seqnum,
                        op: c.op,
                        subject_uid: c.subject_uid,
                        pred_id: c.pred_id,
                        object_uid: c.object_uid,
                        value: c.value,
                        label_delta: c.label_delta,
                    },
                )
            }
            &&& batch.ops[n - 1] matches OpView::Put { key, value: PayloadView::Raw(b) } && {
                &&& key == KeyView::Meta(vstd::utf8::encode_utf8("latest_seq"@))
                &&& b.len() == 8
                &&& format_laws::u64_at(b, 0) == batch.seqnum
            }
            &&& after.allocs.seq.next == w.allocs.seq.next + 1
            &&& after.allocs.uid == w.allocs.uid
            &&& after.allocs.label == w.allocs.label
            &&& after.allocs.pred == w.allocs.pred
            &&& after.allocs.prop == w.allocs.prop
            &&& after.schema == w.schema
            &&& after.latest_seq == w.latest_seq
            &&& after.owed.len() >= w.owed.len()
            &&& after.owed.take(w.owed.len() as int) == w.owed
            &&& reserves(after.owed.skip(w.owed.len() as int), w.allocs.seq)
            &&& after.in_flight == Some(
                InFlightView { seq: batch.seqnum, sent: after.owed.len() },
            )
        }),
{
    let (after, batch) = w.commit(ops, places, c);
    let log = model::log_ops(batch.seqnum, c);
    let n = batch.ops.len() as int;
    format_laws::law_numbers_are_spelled(batch.seqnum as nat);
    lemma_reserves(w.allocs.seq);
    let block = store::reserve_ops(w.allocs.seq.reservation());
    assert(after.owed.skip(w.owed.len() as int) =~= block);
    assert(after.owed.take(w.owed.len() as int) =~= w.owed);
    assert(batch.ops[n - 2] == log[0]);
    assert(batch.ops[n - 1] == log[1]);
}

/// A batch holds the records of names and blocks that are owed from then on, each once and in order,
/// and no other; and beside them the write's own operations, in order, the changelog record and the
/// cursor.
pub proof fn law_batch_is_what_is_owed_and_done(
    w: WriterView,
    ops: Seq<OpView>,
    places: Seq<nat>,
    c: ChangeView,
)
    requires
        write_laws::introduces(w.owed),
        weave_laws::no_records(ops),
    ensures
        ({
            let (after, batch) = w.commit(ops, places, c);
            let rest = weave_laws::rest_of(batch.ops);
            &&& weave_laws::records_in(batch.ops) == after.owed
            &&& rest.len() == ops.len() + 2
            &&& rest.take(ops.len() as int) == ops
        }),
{
    weave_laws::law_batch_holds_what_is_owed(w, ops, places, c);
    let rest = weave_laws::rest_of(w.commit(ops, places, c).1.ops);
    assert(rest.take(ops.len() as int) =~= ops);
}

/// What applying a batch leaves. If it was applied, the cursor stands at its number; if not, where
/// it stood. The batch that was handed out last is then in flight no more, and if it was applied,
/// what it held of the operations owed is owed no more; nothing else is settled. The ids and names
/// stay.
pub proof fn law_settling_is_spelled(w: WriterView, seq: u64, applied: Result<(), ErrorView>)
    ensures
        ({
            let after = w.settle(seq, applied);
            let last = w.in_flight is Some && w.in_flight->Some_0.seq == seq
                && w.in_flight->Some_0.sent <= w.owed.len();
            &&& after.allocs == w.allocs
            &&& after.schema == w.schema
            &&& applied is Ok ==> after.latest_seq == seq
            &&& applied is Err ==> after.latest_seq == w.latest_seq && after.owed == w.owed
            &&& last ==> after.in_flight is None
            &&& !last ==> after.in_flight == w.in_flight && after.owed == w.owed
            &&& last && applied is Ok ==> {
                let sent = w.in_flight->Some_0.sent as int;
                &&& after.owed.len() == w.owed.len() - sent
                &&& forall|i: int|
                    0 <= i < after.owed.len() ==> #[trigger] after.owed[i] == w.owed[sent + i]
            }
        }),
{
}

// ---------------------------------------------------------------------------
// Room
// ---------------------------------------------------------------------------

/// There is room for names and uids exactly where the ids of each kind stay within four bytes, and
/// uids and sequence numbers within eight, with one more block each.
pub proof fn law_room_is_spelled(w: WriterView, labels: nat, preds: nat, props: nat, uids: nat)
    ensures
        w.allocs.has_room(labels, preds, props, uids) == ({
            &&& w.allocs.label.next + labels <= 4_294_967_296
            &&& w.allocs.pred.next + preds <= 4_294_967_296
            &&& w.allocs.prop.next + props <= 4_294_967_296
            &&& uids > 0 ==> w.allocs.uid.next + uids + 4096 <= 18_446_744_073_709_551_615
            &&& w.allocs.seq.next + 4096 <= 18_446_744_073_709_551_615
        }),
{
}

/// Named values fit where there are no more than two bytes can count, and the bytes of all of them,
/// four for the id of each and two for the count, fit in a buffer.
pub proof fn law_named_values_fit_as_they_add_up(
    props: Seq<(Seq<char>, ValueView)>,
    name: Seq<char>,
    v: ValueView,
)
    ensures
        model::named_len(Seq::empty()) == 0,
        model::named_len(props.push((name, v))) == model::named_len(props) + 4
            + value::value_bytes(v).len(),
        model::named_fit(props) == (props.len() <= 65_535 && 2 + model::named_len(props)
            <= isize::MAX / 2),
{
    assert(props.push((name, v)).drop_last() =~= props);
}

// ---------------------------------------------------------------------------
// Equality of values
// ---------------------------------------------------------------------------

/// Values are equal if they are the same, but for doubles: one that is not a number, all ones in
/// its exponent and something in its fraction, equals nothing, and the two zeros equal each other.
pub proof fn law_equality_of_values(a: ValueView, b: ValueView, x: u64, y: u64)
    ensures
        !(a is Float) || !(b is Float) ==> value::same_value(a, b) == (a == b),
        ({
            let not_a_number = |n: u64|
                (n / 4_503_599_627_370_496) % 2048 == 2047 && n % 4_503_599_627_370_496 != 0;
            let zero = |n: u64| n == 0 || n == 9_223_372_036_854_775_808;
            value::same_value(ValueView::Float(x), ValueView::Float(y)) == (!not_a_number(x)
                && !not_a_number(y) && (x == y || (zero(x) && zero(y))))
        }),
{
    lemma_nan(x);
    lemma_nan(y);
}

proof fn lemma_nan(n: u64)
    ensures
        value::is_nan(n) == ((n / 4_503_599_627_370_496) % 2048 == 2047 && n
            % 4_503_599_627_370_496 != 0),
        value::is_zero(n) == (n == 0 || n == 9_223_372_036_854_775_808),
{
    assert((n % 0x8000_0000_0000_0000u64 > 0x7ff0_0000_0000_0000u64) == ((n
        / 4_503_599_627_370_496u64) % 2048u64 == 2047u64 && n % 4_503_599_627_370_496u64 != 0u64))
        by (bit_vector);
    assert((n % 0x8000_0000_0000_0000u64 == 0u64) == (n == 0u64 || n
        == 9_223_372_036_854_775_808u64)) by (bit_vector);
}

// ---------------------------------------------------------------------------
// Measurements and texts
// ---------------------------------------------------------------------------

/// The place of a step in a write.
pub open spec fn step_of(p: Phase) -> int {
    match p {
        Phase::EncodeNode => 0,
        Phase::EncodeOut => 1,
        Phase::EncodeIn => 2,
        Phase::IndexFanout => 3,
        Phase::BatchCommit => 4,
        Phase::LatestSeq => 5,
    }
}

/// The measurement of a step, if it was taken.
pub open spec fn taken(s: WriteStats, p: Phase) -> Option<u64> {
    match p {
        Phase::EncodeNode => s.encode_node,
        Phase::EncodeOut => s.encode_out,
        Phase::EncodeIn => s.encode_in,
        Phase::IndexFanout => s.index_fanout,
        Phase::BatchCommit => s.batch_commit,
        Phase::LatestSeq => s.latest_seq,
    }
}

/// What is reported are the measurements that were taken, each once, in the order of the steps; a
/// step that took no time is reported, one that was not taken is not.
pub proof fn law_measurements_are_reported(s: WriteStats)
    ensures
        forall|p: Phase, n: u64| #[trigger]
            s.phases().contains((p, n)) == (taken(s, p) == Some(n)),
        forall|i: int, j: int|
            0 <= i < j < s.phases().len() ==> step_of((#[trigger] s.phases()[i]).0) < step_of(
                (#[trigger] s.phases()[j]).0,
            ),
{
    let none = Seq::<(Phase, u64)>::empty();
    lemma_reported(none, 0, Phase::EncodeNode, s.encode_node);
    let a = none + stats::measured(Phase::EncodeNode, s.encode_node);
    lemma_reported(a, 1, Phase::EncodeOut, s.encode_out);
    let b = a + stats::measured(Phase::EncodeOut, s.encode_out);
    lemma_reported(b, 2, Phase::EncodeIn, s.encode_in);
    let c = b + stats::measured(Phase::EncodeIn, s.encode_in);
    lemma_reported(c, 3, Phase::IndexFanout, s.index_fanout);
    let d = c + stats::measured(Phase::IndexFanout, s.index_fanout);
    lemma_reported(d, 4, Phase::BatchCommit, s.batch_commit);
    let e = d + stats::measured(Phase::BatchCommit, s.batch_commit);
    lemma_reported(e, 5, Phase::LatestSeq, s.latest_seq);
    let f = e + stats::measured(Phase::LatestSeq, s.latest_seq);
    assert(f =~= s.phases());
    assert forall|p: Phase, n: u64| #[trigger]
        s.phases().contains((p, n)) == (taken(s, p) == Some(n)) by {
        assert(!none.contains((p, n)));
    }
}

/// Whether measurements are of steps before a place, in order.
spec fn in_steps(m: Seq<(Phase, u64)>, before: int) -> bool {
    &&& forall|i: int| 0 <= i < m.len() ==> step_of((#[trigger] m[i]).0) < before
    &&& forall|i: int, j: int|
        0 <= i < j < m.len() ==> step_of((#[trigger] m[i]).0) < step_of((#[trigger] m[j]).0)
}

proof fn lemma_reported(m: Seq<(Phase, u64)>, before: int, p: Phase, nanos: Option<u64>)
    requires
        in_steps(m, before),
        step_of(p) == before,
    ensures
        in_steps(m + stats::measured(p, nanos), before + 1),
        forall|q: Phase, n: u64| #[trigger]
            (m + stats::measured(p, nanos)).contains((q, n)) == (m.contains((q, n)) || (q
                == p && nanos == Some(n))),
{
    let more = m + stats::measured(p, nanos);
    assert forall|q: Phase, n: u64| #[trigger]
        more.contains((q, n)) == (m.contains((q, n)) || (q == p && nanos == Some(n))) by {
        if m.contains((q, n)) {
            let i = choose|i: int| 0 <= i < m.len() && m[i] == (q, n);
            assert(more[i] == (q, n));
        }
        if q == p && nanos == Some(n) {
            assert(more[m.len() as int] == (q, n));
        }
        if more.contains((q, n)) {
            let i = choose|i: int| 0 <= i < more.len() && more[i] == (q, n);
            if i < m.len() {
                assert(m[i] == (q, n));
            }
        }
    }
}

/// The number that a decimal digit stands for.
pub open spec fn digit_value(c: char) -> int {
    c as int - '0' as int
}

/// The number that decimal digits stand for, most significant first.
pub open spec fn digits_value(s: Seq<char>) -> int
    decreases s.len(),
{
    if s.len() == 0 {
        0
    } else {
        10 * digits_value(s.drop_last()) + digit_value(s.last())
    }
}

/// A number in a text is written in decimal digits that stand for it, and does not begin with 0
/// unless it is 0.
pub proof fn law_numbers_in_texts(n: nat)
    ensures
        message::decimal(n).len() > 0,
        forall|i: int|
            0 <= i < message::decimal(n).len() ==> 0 <= digit_value(#[trigger] message::decimal(n)[i])
                <= 9,
        digits_value(message::decimal(n)) == n,
        n > 0 ==> message::decimal(n)[0] != '0',
        n == 0 ==> message::decimal(n).len() == 1,
    decreases n,
{
    lemma_digit(n % 10);
    let s = message::decimal(n);
    if n < 10 {
        lemma_digit(n);
        assert(s.drop_last() =~= Seq::empty());
        reveal_with_fuel(digits_value, 2);
    } else {
        law_numbers_in_texts(n / 10);
        let head = message::decimal(n / 10);
        assert(s.drop_last() =~= head);
        assert(s.last() == message::digit(n % 10)[0]);
        assert forall|i: int| 0 <= i < s.len() implies 0 <= digit_value(#[trigger] s[i]) <= 9 by {
            if i < head.len() {
                assert(s[i] == head[i]);
            }
        }
        assert(s[0] == head[0]);
    }
}

proof fn lemma_digit(d: nat)
    requires
        d < 10,
    ensures
        message::digit(d).len() == 1,
        digit_value(message::digit(d)[0]) == d,
{
    reveal_strlit("0");
    reveal_strlit("1");
    reveal_strlit("2");
    reveal_strlit("3");
    reveal_strlit("4");
    reveal_strlit("5");
    reveal_strlit("6");
    reveal_strlit("7");
    reveal_strlit("8");
    reveal_strlit("9");
}

/// The two hexadecimal digits of a byte, after `0x`.
pub proof fn law_bytes_in_texts(b: u8)
    ensures
        message::hex(b).len() == 4,
        message::hex(b).take(2) == "0x"@,
        hex_value(message::hex(b)[2]) == b / 16,
        hex_value(message::hex(b)[3]) == b % 16,
{
    reveal_strlit("0x");
    lemma_hex_digit((b / 16) as nat);
    lemma_hex_digit((b % 16) as nat);
    assert(message::hex(b).take(2) =~= "0x"@);
}

/// The number that a hexadecimal digit in lower case stands for.
pub open spec fn hex_value(c: char) -> int {
    if '0' <= c <= '9' {
        c as int - '0' as int
    } else if 'a' <= c <= 'f' {
        10 + c as int - 'a' as int
    } else {
        -1
    }
}

proof fn lemma_hex_digit(d: nat)
    requires
        d < 16,
    ensures
        message::digit(d).len() == 1,
        hex_value(message::digit(d)[0]) == d,
{
    if d < 10 {
        lemma_digit(d);
    } else {
        reveal_strlit("a");
        reveal_strlit("b");
        reveal_strlit("c");
        reveal_strlit("d");
        reveal_strlit("e");
        reveal_strlit("f");
    }
}

/// The name of a piece of a field.
pub open spec fn named_part(what: &'static str, part: Part) -> Seq<char> {
    if part == Part::Length {
        what@ + " length"@
    } else if part == Part::Presence {
        what@ + " presence flag"@
    } else {
        what@
    }
}

/// The text of an error names what went wrong and every number that the error holds: where an input
/// ends too soon, the field, what it needs and what is there, but for a single byte only that it
/// needs one; where a byte is wrong, the byte; where a text is none, the cause; where bytes are
/// left, how many; where a width is wrong, what it is; where a node is over the cap, both sizes.
pub proof fn law_texts_of_errors(
    what: &'static str,
    part: Part,
    n: usize,
    m: usize,
    b: u8,
    cause: Seq<char>,
    f: FaultView,
)
    ensures
        part == Part::Blob || n != 1 ==> message::fault_text(
            FaultView::Truncated { what, part, need: n, got: m },
        ) == "truncated "@ + named_part(what, part) + ": need "@ + (message::decimal(n as nat)
            + " bytes, got "@ + message::decimal(m as nat)),
        part != Part::Blob ==> message::fault_text(
            FaultView::Truncated { what, part, need: 1, got: m },
        ) == "truncated "@ + named_part(what, part) + ": need "@ + "1 byte"@,
        message::fault_text(FaultView::TruncatedCount) == "Buffer too short for array count"@,
        message::fault_text(FaultView::InvalidBool { what, part, byte: b })
            == "invalid boolean byte for "@ + named_part(what, part) + ": "@ + message::hex(b),
        message::fault_text(FaultView::InvalidTag { byte: b }) == "invalid typed-value tag: "@
            + message::hex(b),
        message::fault_text(FaultView::InvalidOp { byte: b }) == "invalid change-record op byte: "@
            + message::hex(b),
        message::fault_text(FaultView::InvalidUtf8 { what, cause }) == "invalid utf-8 in "@ + what@
            + ": "@ + cause,
        message::fault_text(FaultView::XidNotUtf8 { cause }) == "xid must be valid utf-8: "@ + cause,
        message::fault_text(FaultView::Trailing { what, extra: n }) == "trailing bytes after "@
            + what@ + ": "@ + message::decimal(n as nat) + " extra"@,
        message::fault_text(FaultView::WrongWidth { what, got: n }) == what@
            + ": expected 8 bytes, got "@ + message::decimal(n as nat),
        message::fault_text(FaultView::CorruptBitmap { what, cause }) == "corrupt "@ + what@
            + " bitmap: "@ + cause,
        message::error_text(ErrorView::OversizeNode { size: n, cap: m })
            == "oversize_node: encoded NodeRecord is "@ + message::decimal(n as nat)
            + " bytes, cap is "@ + message::decimal(m as nat) + " bytes"@,
        message::error_text(ErrorView::Storage) == "storage failed"@,
        message::error_text(ErrorView::Encoding(f)) == message::fault_text(f),
{
    reveal_strlit("");
    assert(what@ + ""@ =~= what@);
}

// ---------------------------------------------------------------------------
// Reads and ranges
// ---------------------------------------------------------------------------

/// What is read of a stored record is what its bytes decode to, whatever they are; and nothing,
/// where there are none.
pub proof fn law_stored_records_are_decoded(b: Seq<u8>)
    ensures
        model::read_node(None) == Ok::<Option<node::NodeView>, ErrorView>(None),
        match node::decoded_node(b) {
            Ok(n) => model::read_node(Some(b)) == Ok::<Option<node::NodeView>, ErrorView>(Some(n)),
            Err(e) => model::read_node(Some(b)) == Err::<Option<node::NodeView>, ErrorView>(e),
        },
        model::read_edge_props(None) == Ok::<Option<Map<PropId, ValueView>>, ErrorView>(None),
        match props::decoded_props(b) {
            Ok(m) => model::read_edge_props(Some(b)) == Ok::<
                Option<Map<PropId, ValueView>>,
                ErrorView,
            >(Some(m)),
            Err(e) => model::read_edge_props(Some(b)) == Err::<
                Option<Map<PropId, ValueView>>,
                ErrorView,
            >(e),
        },
{
}

/// Bytes are text where they are UTF-8, the text that they encode, and have a cause otherwise.
pub proof fn law_text_is_utf8(b: Seq<u8>)
    ensures
        vstd::utf8::valid_utf8(b) ==> (text::text_of(b) matches Ok(t) && vstd::utf8::encode_utf8(t)
            == b),
        !vstd::utf8::valid_utf8(b) ==> text::text_of(b) == Err::<Seq<char>, Seq<char>>(
            text::utf8_cause(b),
        ),
{
    if vstd::utf8::valid_utf8(b) {
        vstd::utf8::decode_utf8_encode_utf8(b);
    }
}

/// An external id is text where it is UTF-8, and an error with the cause otherwise.
pub proof fn law_external_ids_are_text(xid: Seq<u8>)
    ensures
        vstd::utf8::valid_utf8(xid) ==> (model::xid_text(xid) matches Ok(t)
            && vstd::utf8::encode_utf8(t) == xid),
        !vstd::utf8::valid_utf8(xid) ==> model::xid_text(xid) == Err::<Seq<char>, ErrorView>(
            ErrorView::Encoding(FaultView::XidNotUtf8 { cause: text::utf8_cause(xid) }),
        ),
{
    if vstd::utf8::valid_utf8(xid) {
        vstd::utf8::decode_utf8_encode_utf8(xid);
    }
}

/// What can be encoded, and what is read back of it: counts up to two bytes, lengths up to four,
/// and the whole within a buffer.
pub proof fn law_what_can_be_encoded(n: node::NodeView, c: ChangeView, v: ValueView)
    ensures
        props::props_encodable(n.props) == (n.props.len() <= 65_535
            && props::props_bytes(n.props).len() <= isize::MAX / 2),
        node::node_encodable(n) == (n.labels.len() <= 65_535 && n.props.len() <= 65_535
            && node::node_bytes(n).len() <= isize::MAX / 2),
        change::change_encodable(c) == ({
            &&& c.label_delta is Some ==> c.label_delta->Some_0.added.len() <= 65_535
                && c.label_delta->Some_0.removed.len() <= 65_535
            &&& change::change_bytes(c).len() <= isize::MAX / 2
        }),
        codec_laws::value_fits(v) == ({
            &&& v is String ==> vstd::utf8::encode_utf8(v->String_0).len() < 4_294_967_296
            &&& v is Bytes ==> v->Bytes_0.len() < 4_294_967_296
        }),
        codec_laws::props_fit(n.props) == (n.props.len() <= 65_535 && forall|k: PropId| #[trigger]
            n.props.contains_key(k) ==> codec_laws::value_fits(n.props[k])),
        codec_laws::node_fits(n) == (n.labels.len() <= 65_535 && codec_laws::props_fit(n.props)
            && vstd::utf8::encode_utf8(n.xid).len() < 4_294_967_296),
{
}

/// An id space hands out its ids one after the other, under one key. Where its block is used up,
/// the next one has 4096 ids.
pub proof fn law_spaces_move_on_by_one(s: SpaceView)
    ensures
        s.advance().key == s.key,
        s.advance().next == s.next + 1,
        s.next < s.end ==> s.advance().end == s.end && s.reservation() is None,
        s.next >= s.end ==> s.advance().end == s.next + 4096 && s.reservation() is Some,
        s.can_advance() == (s.next < s.end <= u64::MAX || s.next + 4096 <= u64::MAX),
{
}

} // verus!
