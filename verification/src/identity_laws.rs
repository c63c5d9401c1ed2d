//! Identity through whole histories: an external id keeps the uid it got, and shares it with no
//! other.

use vstd::prelude::*;

use crate::coherence;
use crate::coherence::Space;
use crate::error::ErrorView;
use crate::fixed;
use crate::history;
use crate::history::{Call, Event, Graph};
use crate::ids::{PredId, SchemaKind, Uid};
use crate::meaning;
use crate::model;
use crate::step_laws;
use crate::store::{KeyView, OpView};
use crate::store_laws;
use crate::value::ValueView;
use crate::write_laws;

verus! {

/// The uid that an external id is mapped to, if it is.
pub open spec fn uid_of(g: Graph, xid: Seq<u8>) -> Option<Uid> {
    match model::mapped_uid(g.read(KeyView::Xid(xid))) {
        Ok(found) => found,
        Err(_) => None,
    }
}

/// Whether no two external ids are mapped to one uid, and none to a uid that was not handed out.
pub open spec fn distinct(g: Graph) -> bool {
    &&& forall|a: Seq<u8>, b: Seq<u8>|
        #![trigger uid_of(g, a), uid_of(g, b)]
        a != b && uid_of(g, a) is Some ==> uid_of(g, a) != uid_of(g, b)
    &&& forall|a: Seq<u8>|
        (#[trigger] uid_of(g, a)) matches Some(u) ==> u.0 < g.writer.allocs.uid.next
}

/// Whether mappings only came to be, and only to uids that were handed out meanwhile, each to one
/// of its own.
pub open spec fn only_maps_new(g: Graph, last: Graph) -> bool {
    &&& g.writer.allocs.uid.next <= last.writer.allocs.uid.next
    &&& forall|a: Seq<u8>|
        uid_of(g, a) is Some ==> #[trigger] uid_of(last, a) == uid_of(g, a)
    &&& forall|a: Seq<u8>|
        (#[trigger] uid_of(last, a)) matches Some(u) ==> uid_of(g, a) is Some || (
        g.writer.allocs.uid.next <= u.0 < last.writer.allocs.uid.next)
    &&& forall|a: Seq<u8>, b: Seq<u8>|
        #![trigger uid_of(last, a), uid_of(last, b)]
        a != b && uid_of(g, a) is None && uid_of(g, b) is None && uid_of(last, a) is Some
            ==> uid_of(last, a) != uid_of(last, b)
}

proof fn lemma_distinct_after(g: Graph, last: Graph)
    requires
        distinct(g),
        only_maps_new(g, last),
    ensures
        distinct(last),
{
    assert forall|a: Seq<u8>, b: Seq<u8>|
        #![trigger uid_of(last, a), uid_of(last, b)]
        a != b && uid_of(last, a) is Some implies uid_of(last, a) != uid_of(last, b) by {
        if uid_of(last, b) is Some {
            if uid_of(g, a) is Some && uid_of(g, b) is Some {
                assert(uid_of(g, a) != uid_of(g, b));
            } else if uid_of(g, a) is Some {
                assert(uid_of(g, a)->Some_0.0 < g.writer.allocs.uid.next);
            } else if uid_of(g, b) is Some {
                assert(uid_of(g, b)->Some_0.0 < g.writer.allocs.uid.next);
            }
        }
    }
    assert forall|a: Seq<u8>| (#[trigger] uid_of(last, a)) is Some implies uid_of(last, a)->Some_0.0
        < last.writer.allocs.uid.next by {
        if uid_of(g, a) is Some {
            assert(uid_of(g, a)->Some_0.0 < g.writer.allocs.uid.next);
        }
    }
}

/// A call that comes to nothing, or whose batch is not applied, maps nothing.
proof fn lemma_nothing_applied(g: Graph, last: Graph)
    requires
        g.writer.allocs.uid.next <= last.writer.allocs.uid.next,
        last.ops == g.ops,
    ensures
        only_maps_new(g, last),
{
    assert forall|a: Seq<u8>| #[trigger] uid_of(last, a) == uid_of(g, a) by {}
}

/// Calls hand uids out, and take none back.
proof fn lemma_uids_only_grow(g: Graph, call: Call)
    requires
        history::in_range(g, call),
    ensures
        g.writer.allocs.uid.next <= history::plan(g, call).0.allocs.uid.next,
{
    reveal(history::plan);
    match call {
        Call::UpsertNode { xid, labels, props, read } => {
            let w1 = g.writer.resolve(xid, g.read(KeyView::Xid(xid))).0;
            let names = model::names_of(props);
            crate::write::lemma_intern_all(w1, SchemaKind::Label, labels);
            let w2 = w1.intern_all(SchemaKind::Label, labels).writer;
            crate::write::lemma_intern_all(w2, SchemaKind::PropertyKey, names);
        },
        Call::UpsertEdge { src, pred, dst, props, read, postings } => {
            let w1 = history::drafted_edge(g, src, pred, dst, read).0;
            crate::write::lemma_intern_all(w1, SchemaKind::PropertyKey, model::names_of(props));
        },
        _ => {},
    }
}

proof fn lemma_node_maps(
    g: Graph,
    xid: Seq<u8>,
    labels: Seq<Seq<char>>,
    props: Seq<(Seq<char>, ValueView)>,
    read: Result<(), ErrorView>,
)
    requires
        meaning::commits(g, Call::UpsertNode { xid, labels, props, read }),
    ensures
        only_maps_new(g, meaning::done(g, Call::UpsertNode { xid, labels, props, read })),
{
    let call = Call::UpsertNode { xid, labels, props, read };
    let last = meaning::done(g, call);
    lemma_uids_only_grow(g, call);
    meaning::lemma_committed(g, call);
    history::lemma_plan_commits(g, call);
    reveal(history::prepared);
    let stored = g.read(KeyView::Xid(xid));
    let (w1, r) = g.writer.resolve(xid, stored);
    let found = r->Ok_0;
    let ops = history::prepared(g, call).1->Some_0.0;
    let names = model::names_of(props);
    crate::write::lemma_intern_all(w1, SchemaKind::Label, labels);
    let w2 = w1.intern_all(SchemaKind::Label, labels).writer;
    crate::write::lemma_intern_all(w2, SchemaKind::PropertyKey, names);
    assert(ops.drop_last() =~= found.ops);
    assert(ops.last() is Put && ops.last()->Put_key is Node);
    if stored is None {
        fixed::law_fixed_round_trip(found.uid.0, 0, "Xid mapping");
        assert(found.ops.drop_last() =~= Seq::empty());
        reveal_with_fuel(store_laws::applied, 3);
        assert(uid_of(last, xid) == Some(found.uid));
        assert(last.writer.allocs.uid.next == g.writer.allocs.uid.next + 1);
    } else {
        assert(found.ops =~= Seq::empty());
        reveal_with_fuel(store_laws::applied, 2);
    }
    assert forall|a: Seq<u8>| a != xid || stored is Some implies #[trigger] uid_of(last, a)
        == uid_of(g, a) by {
        let key = KeyView::Xid(a);
        assert(!write_laws::bookkeeping(key));
        assert(store_laws::value_at(last.store(), key) == store_laws::value_at(
            store_laws::applied(g.store(), ops),
            key,
        ));
        assert(store_laws::value_at(last.store(), key) == store_laws::value_at(g.store(), key));
    }
}

proof fn lemma_edge_maps(
    g: Graph,
    src: Seq<u8>,
    pred: Seq<char>,
    dst: Seq<u8>,
    props: Seq<(Seq<char>, ValueView)>,
    out_ops: Seq<OpView>,
    in_ops: Seq<OpView>,
)
    requires
        meaning::commits(g, meaning::edge_call(src, pred, dst, props, out_ops, in_ops)),
    ensures
        only_maps_new(
            g,
            meaning::done(g, meaning::edge_call(src, pred, dst, props, out_ops, in_ops)),
        ),
{
    let call = meaning::edge_call(src, pred, dst, props, out_ops, in_ops);
    let last = meaning::done(g, call);
    lemma_uids_only_grow(g, call);
    meaning::law_upserted_edge_has_its_ends(g, src, pred, dst, props, out_ops, in_ops);
    meaning::law_upserted_edge_leaves_the_rest(g, src, pred, dst, props, out_ops, in_ops);
    meaning::law_edge_upsert_is_owed_a_batch(g, src, pred, dst, props, out_ops, in_ops);
    lemma_edge_next(g, src, pred, dst, props, out_ops, in_ops);
    let p = PredId(last.writer.schema[(SchemaKind::Predicate, pred)]);
    assert forall|a: Seq<u8>|
        !(a == src && meaning::is_new_end(g, src)) && !(a == dst && meaning::is_new_end(g, dst))
            implies #[trigger] uid_of(last, a) == uid_of(g, a) by {
        let key = KeyView::Xid(a);
        assert(!write_laws::bookkeeping(key));
        assert(!meaning::edge_writes(g, src, dst, p, props.len() > 0, key));
        assert(store_laws::value_at(last.store(), key) == store_laws::value_at(g.store(), key));
    }
    assert(uid_of(last, dst) == Some(meaning::dst_uid(g, src, dst)));
}

/// How far an edge upsert moves the space of uids: by one for each end that is new.
proof fn lemma_edge_next(
    g: Graph,
    src: Seq<u8>,
    pred: Seq<char>,
    dst: Seq<u8>,
    props: Seq<(Seq<char>, ValueView)>,
    out_ops: Seq<OpView>,
    in_ops: Seq<OpView>,
)
    requires
        meaning::commits(g, meaning::edge_call(src, pred, dst, props, out_ops, in_ops)),
    ensures
        ({
            let last = meaning::done(
                g,
                meaning::edge_call(src, pred, dst, props, out_ops, in_ops),
            );
            last.writer.allocs.uid.next == g.writer.allocs.uid.next + meaning::one_if(
                meaning::is_new_end(g, src),
            ) + meaning::one_if(meaning::is_new_end(g, dst))
        }),
        meaning::is_new_end(g, src) ==> g.writer.allocs.uid.next <= u64::MAX,
        meaning::is_new_end(g, dst) ==> g.writer.allocs.uid.next + meaning::one_if(
            meaning::is_new_end(g, src),
        ) <= u64::MAX,
{
    let call = meaning::edge_call(src, pred, dst, props, out_ops, in_ops);
    let (s, t) = (g.read(KeyView::Xid(src)), g.read(KeyView::Xid(dst)));
    meaning::law_edge_upsert_is_owed_a_batch(g, src, pred, dst, props, out_ops, in_ops);
    step_laws::law_drafting_an_edge_fails_where_due(g.writer, src, s, pred, dst, Ok(t));
    step_laws::law_resolving_is_spelled(g.writer, src, s);
    let w1 = g.writer.resolve(src, s).0;
    step_laws::law_resolving_is_spelled(w1, dst, t);
    let w2 = w1.resolve(dst, t).0;
    step_laws::law_interning_is_spelled(w2, SchemaKind::Predicate, pred);
    let w3 = history::drafted_edge(g, src, pred, dst, Ok(())).0;
    crate::write::lemma_intern_all(w3, SchemaKind::PropertyKey, model::names_of(props));
    reveal(history::plan);
}

/// A deletion maps nothing.
proof fn lemma_deletion_maps_nothing(g: Graph, call: Call)
    requires
        meaning::commits(g, call),
        call is DeleteNode || call is DeleteEdge,
    ensures
        only_maps_new(g, meaning::done(g, call)),
{
    let last = meaning::done(g, call);
    lemma_uids_only_grow(g, call);
    match call {
        Call::DeleteNode { xid } => {
            meaning::law_node_deletion_deletes_the_node(g, xid);
        },
        Call::DeleteEdge { src, pred, dst } => {
            meaning::law_edge_deletion_deletes_the_edge(g, src, pred, dst);
        },
        _ => {},
    }
    assert forall|a: Seq<u8>| #[trigger] uid_of(last, a) == uid_of(g, a) by {
        let key = KeyView::Xid(a);
        assert(!write_laws::bookkeeping(key));
        assert(store_laws::value_at(last.store(), key) == store_laws::value_at(g.store(), key));
    }
}

proof fn lemma_call_maps(g: Graph, call: Call)
    requires
        meaning::commits(g, call),
    ensures
        only_maps_new(g, meaning::done(g, call)),
{
    match call {
        Call::UpsertNode { xid, labels, props, read } => {
            lemma_node_maps(g, xid, labels, props, read);
        },
        Call::UpsertEdge { src, pred, dst, props, read, postings } => {
            let added = postings->Ok_0;
            let same = meaning::edge_call(src, pred, dst, props, added.0, added.1);
            assert(meaning::commits(g, same) && meaning::done(g, same) == meaning::done(
                g,
                call,
            )) by {
                reveal(history::plan);
                step_laws::law_drafting_an_edge_fails_where_due(
                    g.writer,
                    src,
                    g.read(KeyView::Xid(src)),
                    pred,
                    dst,
                    history::fetched(read, g.read(KeyView::Xid(dst))),
                );
            }
            lemma_edge_maps(g, src, pred, dst, props, added.0, added.1);
        },
        _ => {
            lemma_deletion_maps_nothing(g, call);
        },
    }
}

/// Whatever happens to a graph, the external ids that are mapped keep their uids, and those that
/// are mapped next get uids of their own.
pub proof fn law_event_keeps_identity(g: Graph, e: Event)
    requires
        coherence::coherent(g.writer, g.store()),
        history::possible(g, e),
        distinct(g),
    ensures
        distinct(history::after(g, e)),
        forall|xid: Seq<u8>|
            uid_of(g, xid) is Some ==> #[trigger] uid_of(history::after(g, e), xid) == uid_of(
                g,
                xid,
            ),
{
    let last = history::after(g, e);
    match e {
        Event::Write { call, applied } => {
            lemma_uids_only_grow(g, call);
            if applied is Ok && history::plan(g, call).1 is Some {
                lemma_call_maps(g, call);
                let done = meaning::done(g, call);
                assert(done.ops == last.ops);
                assert(done.writer.allocs == last.writer.allocs);
                assert forall|a: Seq<u8>| #[trigger] uid_of(last, a) == uid_of(done, a) by {}
                lemma_distinct_after(g, done);
                lemma_same(done, last);
            } else {
                lemma_nothing_applied(g, last);
                lemma_distinct_after(g, last);
            }
        },
        Event::Reopen { writer } => {
            assert(coherence::pick(writer.allocs, Space::Uids).next == write_laws::stored_end(
                g.store(),
                writer.allocs.uid.key,
            ));
            assert(writer.allocs.uid.key == g.writer.allocs.uid.key) by {
                assert(coherence::pick(writer.allocs, Space::Uids).key == coherence::pick(
                    g.writer.allocs,
                    Space::Uids,
                ).key);
            }
            assert forall|a: Seq<u8>| #[trigger] uid_of(last, a) == uid_of(g, a) by {}
            assert forall|a: Seq<u8>| (#[trigger] uid_of(last, a)) is Some implies uid_of(last, a)->Some_0.0
                < last.writer.allocs.uid.next by {
                assert(coherence::uid_below(
                    store_laws::bytes_at(g.store(), KeyView::Xid(a)),
                    write_laws::stored_end(g.store(), g.writer.allocs.uid.key),
                ));
            }
            assert forall|a: Seq<u8>, b: Seq<u8>|
                #![trigger uid_of(last, a), uid_of(last, b)]
                a != b && uid_of(last, a) is Some implies uid_of(last, a) != uid_of(last, b) by {
                assert(uid_of(g, a) != uid_of(g, b));
            }
        },
    }
}

proof fn lemma_same(a: Graph, b: Graph)
    requires
        distinct(a),
        a.writer.allocs == b.writer.allocs,
        forall|x: Seq<u8>| #[trigger] uid_of(b, x) == uid_of(a, x),
    ensures
        distinct(b),
{
    assert forall|x: Seq<u8>, y: Seq<u8>|
        #![trigger uid_of(b, x), uid_of(b, y)]
        x != y && uid_of(b, x) is Some implies uid_of(b, x) != uid_of(b, y) by {
        assert(uid_of(a, x) != uid_of(a, y));
    }
    assert forall|x: Seq<u8>| (#[trigger] uid_of(b, x)) is Some implies uid_of(b, x)->Some_0.0
        < b.writer.allocs.uid.next by {
        assert(uid_of(a, x) == uid_of(b, x));
    }
}

/// After any history of a new graph, no two external ids are mapped to one uid.
pub proof fn law_external_ids_have_uids_of_their_own(g: Graph, events: Seq<Event>)
    requires
        history::is_new(g),
        history::possible_all(g, events),
    ensures
        coherence::coherent(history::run(g, events).writer, history::run(g, events).store()),
        distinct(history::run(g, events)),
    decreases events.len(),
{
    if events.len() == 0 {
        history::law_history_is_coherent(g, events);
        assert forall|a: Seq<u8>| #[trigger] uid_of(g, a) is None by {}
    } else {
        let before = events.drop_last();
        law_external_ids_have_uids_of_their_own(g, before);
        let graph = history::run(g, before);
        history::law_event_keeps_coherence(graph, events.last());
        law_event_keeps_identity(graph, events.last());
    }
}

/// An external id that is mapped at some point of a history is mapped to the same uid at every later
/// one: after failures, deletions and restarts too.
pub proof fn law_external_ids_keep_their_uids(g: Graph, events: Seq<Event>, n: int, xid: Seq<u8>)
    requires
        history::is_new(g),
        history::possible_all(g, events),
        0 <= n <= events.len(),
        uid_of(history::run(g, events.take(n)), xid) is Some,
    ensures
        uid_of(history::run(g, events), xid) == uid_of(history::run(g, events.take(n)), xid),
    decreases events.len(),
{
    if n == events.len() {
        assert(events.take(n) =~= events);
    } else {
        let before = events.drop_last();
        assert(before.take(n) =~= events.take(n));
        law_external_ids_keep_their_uids(g, before, n, xid);
        law_external_ids_have_uids_of_their_own(g, before);
        law_event_keeps_identity(history::run(g, before), events.last());
    }
}

} // verus!
