//! What a writer and its store know of each other, through writes, failures and restarts.

use vstd::prelude::*;

use crate::allocators::{AllocatorsView, SpaceView};
use crate::change::ChangeView;
use crate::endian;
use crate::error::ErrorView;
use crate::fixed;
use crate::ids::SchemaKind;
use crate::model;
use crate::model::{InFlightView, WriterView};
use crate::schema;
use crate::schema::EntryView;
use crate::store;
use crate::store::{KeyView, OpView, PayloadView};
use crate::store_laws;
use crate::weave_laws;
use crate::write_laws;

verus! {

/// One of the id spaces of a graph.
pub enum Space {
    Uids,
    Names(SchemaKind),
    Numbers,
}

/// The state of an id space.
pub open spec fn pick(a: AllocatorsView, sp: Space) -> SpaceView {
    match sp {
        Space::Uids => a.uid,
        Space::Names(kind) => a.space(kind),
        Space::Numbers => a.seq,
    }
}

/// The id spaces after one of them handed out an id.
pub open spec fn advance(a: AllocatorsView, sp: Space) -> AllocatorsView {
    match sp {
        Space::Uids => AllocatorsView { uid: a.uid.advance(), ..a },
        Space::Names(kind) => a.advance(kind),
        Space::Numbers => AllocatorsView { seq: a.seq.advance(), ..a },
    }
}

/// Whether the store holds the records of a known name: its id under the name, its definition
/// under the id.
pub open spec fn has_name(
    w: WriterView,
    m: Map<KeyView, PayloadView>,
    kind: SchemaKind,
    name: Seq<char>,
) -> bool {
    let id = w.schema[(kind, name)];
    &&& store_laws::value_at(m, KeyView::SchemaName(kind, vstd::utf8::encode_utf8(name))) == Some(
        PayloadView::Raw(endian::le_bytes(id as nat, 4)),
    )
    &&& store_laws::value_at(m, KeyView::SchemaId(kind, id)) == Some(
        PayloadView::Entry(schema::entry_for(kind, name)),
    )
}

/// Whether what the store holds under an id is the definition of a name that the writer knows by
/// this id, with the record of the name beside it, and the id within the reserved block.
pub open spec fn defines(
    w: WriterView,
    m: Map<KeyView, PayloadView>,
    kind: SchemaKind,
    id: u32,
) -> bool {
    &&& store_laws::value_at(m, KeyView::SchemaId(kind, id)) matches Some(PayloadView::Entry(e))
    &&& w.schema.contains_key((kind, e.name))
    &&& w.schema[(kind, e.name)] == id
    &&& has_name(w, m, kind, e.name)
    &&& id < write_laws::stored_end(m, w.allocs.space(kind).key)
}

/// Whether every external id in the store is mapped to a uid below `n`.
pub open spec fn uids_below(m: Map<KeyView, PayloadView>, n: nat) -> bool {
    forall|xid: Seq<u8>| #[trigger] uid_below(store_laws::bytes_at(m, KeyView::Xid(xid)), n)
}

/// Whether a stored mapping, if there is one, is to a uid below `n`.
pub open spec fn uid_below(stored: Option<Seq<u8>>, n: nat) -> bool {
    model::mapped_uid(stored) matches Ok(Some(uid)) ==> uid.0 < n
}

/// Whether all that the store holds is known to the writer, and was drawn from blocks that are
/// reserved in the store: names, uids, and the sequence numbers up to the cursor.
pub open spec fn sound(w: WriterView, m: Map<KeyView, PayloadView>) -> bool {
    &&& w.latest_seq <= write_laws::stored_end(m, w.allocs.seq.key)
    &&& forall|sp: Space|
        write_laws::stored_end(m, (#[trigger] pick(w.allocs, sp)).key) <= pick(w.allocs, sp).end
    &&& forall|kind: SchemaKind, id: u32|
        (#[trigger] store_laws::value_at(m, KeyView::SchemaId(kind, id))) is Some ==> defines(
            w,
            m,
            kind,
            id,
        )
    &&& uids_below(m, write_laws::stored_end(m, w.allocs.uid.key))
}

/// Whether all that the writer knows is in the store: how far every id space is reserved, and
/// every known name.
pub open spec fn complete(w: WriterView, m: Map<KeyView, PayloadView>) -> bool {
    &&& forall|sp: Space|
        write_laws::stored_end(m, (#[trigger] pick(w.allocs, sp)).key) == pick(w.allocs, sp).end
    &&& forall|kind: SchemaKind, name: Seq<char>| #[trigger]
        w.schema.contains_key((kind, name)) ==> has_name(w, m, kind, name)
}

/// The store with all that is owed to it.
pub open spec fn paid(w: WriterView, m: Map<KeyView, PayloadView>) -> Map<KeyView, PayloadView> {
    store_laws::applied(m, w.owed)
}

/// Whether a writer and its store agree. The cursor in the store is the writer's. What the store
/// holds is known to the writer and drawn from reserved blocks. What the writer knows is in the
/// store, as soon as what is owed is: where nothing is owed, it is there now.
pub open spec fn coherent(w: WriterView, m: Map<KeyView, PayloadView>) -> bool {
    &&& write_laws::wf(w)
    &&& model::read_cursor(
        store_laws::bytes_at(m, KeyView::Meta(store::latest_seq_name())),
    ) == Ok::<u64, ErrorView>(w.latest_seq)
    &&& sound(w, m)
    &&& sound(w, paid(w, m))
    &&& complete(w, paid(w, m))
}

/// Where nothing is owed, a coherent store has every known name, and every id space reserved as
/// far as the writer has it.
pub proof fn law_nothing_owed_is_all_stored(w: WriterView, m: Map<KeyView, PayloadView>)
    requires
        coherent(w, m),
        w.owed.len() == 0,
    ensures
        complete(w, m),
{
}

/// A writer that has handed out nothing and an empty store agree.
pub proof fn law_fresh_is_coherent(w: WriterView)
    requires
        is_fresh(w),
    ensures
        coherent(w, Map::empty()),
{
    let m = Map::<KeyView, PayloadView>::empty();
    assert(paid(w, m) == m);
    assert(pick(w.allocs, Space::Uids) == w.allocs.uid);
    assert(pick(w.allocs, Space::Numbers) == w.allocs.seq);
    assert(pick(w.allocs, Space::Names(SchemaKind::Label)) == w.allocs.label);
    assert(pick(w.allocs, Space::Names(SchemaKind::Predicate)) == w.allocs.pred);
    assert(pick(w.allocs, Space::Names(SchemaKind::PropertyKey)) == w.allocs.prop);
    assert(write_laws::wf(w));
    assert forall|xid: Seq<u8>| #[trigger]
        uid_below(store_laws::bytes_at(m, KeyView::Xid(xid)), 0) by {
        assert(store_laws::bytes_at(m, KeyView::Xid(xid)) is None);
    }
}

/// A writer that knows no name and has handed out nothing, whose id spaces have keys of their own.
pub open spec fn is_fresh(w: WriterView) -> bool {
    &&& write_laws::keys_differ(w.allocs)
    &&& forall|sp: Space| (#[trigger] pick(w.allocs, sp)).next == 0 && pick(w.allocs, sp).end == 0
    &&& w.schema == Map::<(SchemaKind, Seq<char>), u32>::empty()
    &&& w.latest_seq == 0
    &&& w.owed == Seq::<OpView>::empty()
    &&& w.in_flight is None
}

// ---------------------------------------------------------------------------
// Ids and names handed out
// ---------------------------------------------------------------------------

/// The writer after an id space handed out an id.
pub open spec fn drawn(w: WriterView, sp: Space) -> WriterView {
    WriterView {
        allocs: advance(w.allocs, sp),
        owed: w.owed + store::reserve_ops(pick(w.allocs, sp).reservation()),
        ..w
    }
}

/// Handing out an id keeps a writer and its store in agreement: the block that it may take is
/// owed.
pub proof fn law_drawn_is_coherent(w: WriterView, m: Map<KeyView, PayloadView>, sp: Space)
    requires
        coherent(w, m),
        pick(w.allocs, sp).can_advance(),
    ensures
        coherent(drawn(w, sp), m),
{
    let w1 = drawn(w, sp);
    let before = paid(w, m);
    let s = pick(w.allocs, sp);
    let ops = store::reserve_ops(s.reservation());
    let after = paid(w1, m);
    store_laws::law_applied_in_order(m, w.owed, ops);
    assert(write_laws::stored_end(before, s.key) == s.end);
    write_laws::law_reservation_is_stored(s, before);
    assert(write_laws::stored_end(after, s.key) == s.advance().end);
    assert forall|key: KeyView| key != KeyView::Block(s.key) implies store_laws::value_at(
        after,
        key,
    ) == store_laws::value_at(before, key) by {
        store_laws::law_untouched_stays(before, ops, key);
    }
    assert forall|other: Space| other != sp implies (#[trigger] pick(w.allocs, other)).key != s.key
        && pick(w1.allocs, other) == pick(w.allocs, other) by {
        lemma_keys(w.allocs, sp, other);
    }
    assert(pick(w1.allocs, sp) == s.advance());
    assert forall|x: Space|
        write_laws::stored_end(after, (#[trigger] pick(w1.allocs, x)).key) == pick(
            w1.allocs,
            x,
        ).end by {
        if x != sp {
            assert(pick(w.allocs, x).key != s.key);
        }
    }
    assert forall|x: Space|
        write_laws::stored_end(before, pick(w.allocs, x).key) <= write_laws::stored_end(
            after,
            (#[trigger] pick(w1.allocs, x)).key,
        ) && pick(w1.allocs, x).key == pick(w.allocs, x).key by {
        assert(write_laws::stored_end(before, pick(w.allocs, x).key) == pick(w.allocs, x).end);
    }
    assert(write_laws::wf(w1)) by {
        assert(w1.in_flight matches Some(f) ==> f.sent <= w1.owed.len());
        assert(write_laws::introduces(w1.owed));
        assert(write_laws::names_wf(w1)) by {
            assert forall|kind: SchemaKind| (#[trigger] w1.allocs.space(kind)).next
                >= w.allocs.space(kind).next by {}
            assert forall|kind: SchemaKind, name: Seq<char>| #[trigger]
                w1.schema.contains_key((kind, name)) implies w1.schema[(kind, name)]
                < w1.allocs.space(kind).next by {
                assert(w.schema.contains_key((kind, name)));
            }
        }
    }
    assert(sound(w1, m)) by {
        assert(pick(w1.allocs, Space::Uids).key == pick(w.allocs, Space::Uids).key);
        assert(pick(w1.allocs, Space::Numbers).key == pick(w.allocs, Space::Numbers).key);
        assert forall|x: Space|
            write_laws::stored_end(m, (#[trigger] pick(w1.allocs, x)).key) <= pick(
                w1.allocs,
                x,
            ).end by {
            assert(pick(w.allocs, x).end <= pick(w1.allocs, x).end);
            assert(write_laws::stored_end(m, pick(w.allocs, x).key) <= pick(w.allocs, x).end);
        }
        assert forall|kind: SchemaKind, id: u32|
            (#[trigger] store_laws::value_at(m, KeyView::SchemaId(kind, id)))
                is Some implies defines(w1, m, kind, id) by {
            assert(defines(w, m, kind, id));
            assert(pick(w1.allocs, Space::Names(kind)).key == pick(
                w.allocs,
                Space::Names(kind),
            ).key);
        }
    }
    assert(sound(w1, after)) by {
        assert(pick(w1.allocs, Space::Uids).key == pick(w.allocs, Space::Uids).key);
        assert(pick(w1.allocs, Space::Numbers).key == pick(w.allocs, Space::Numbers).key);
        assert forall|kind: SchemaKind, id: u32|
            (#[trigger] store_laws::value_at(after, KeyView::SchemaId(kind, id)))
                is Some implies defines(w1, after, kind, id) by {
            assert(store_laws::value_at(before, KeyView::SchemaId(kind, id)) is Some);
            assert(defines(w, before, kind, id));
            assert(pick(w1.allocs, Space::Names(kind)).key == pick(
                w.allocs,
                Space::Names(kind),
            ).key);
        }
        assert forall|xid: Seq<u8>| #[trigger]
            uid_below(
                store_laws::bytes_at(after, KeyView::Xid(xid)),
                write_laws::stored_end(after, w1.allocs.uid.key),
            ) by {
            assert(store_laws::value_at(after, KeyView::Xid(xid)) == store_laws::value_at(
                before,
                KeyView::Xid(xid),
            ));
            assert(uid_below(
                store_laws::bytes_at(before, KeyView::Xid(xid)),
                write_laws::stored_end(before, w.allocs.uid.key),
            ));
        }
    }
    assert(complete(w1, after)) by {
        assert forall|kind: SchemaKind, name: Seq<char>| #[trigger]
            w1.schema.contains_key((kind, name)) implies has_name(w1, after, kind, name) by {
            assert(has_name(w, before, kind, name));
        }
    }
}

proof fn lemma_keys(a: AllocatorsView, x: Space, y: Space)
    requires
        write_laws::keys_differ(a),
        x != y,
    ensures
        pick(a, x).key != pick(a, y).key,
{
}

/// The operations that record a name under its id.
pub open spec fn name_ops(kind: SchemaKind, name: Seq<char>, id: u32) -> Seq<OpView> {
    seq![
        OpView::Put {
            key: KeyView::SchemaName(kind, vstd::utf8::encode_utf8(name)),
            value: PayloadView::Raw(endian::le_bytes(id as nat, 4)),
        },
        OpView::Put {
            key: KeyView::SchemaId(kind, id),
            value: PayloadView::Entry(schema::entry_for(kind, name)),
        },
    ]
}

proof fn lemma_named_is_coherent(
    w: WriterView,
    m: Map<KeyView, PayloadView>,
    kind: SchemaKind,
    name: Seq<char>,
    id: u32,
)
    requires
        coherent(w, m),
        !w.schema.contains_key((kind, name)),
        id < w.allocs.space(kind).next,
        forall|other: Seq<char>| #[trigger]
            w.schema.contains_key((kind, other)) ==> w.schema[(kind, other)] != id,
    ensures
        coherent(
            WriterView {
                schema: w.schema.insert((kind, name), id),
                owed: w.owed + name_ops(kind, name, id),
                ..w
            },
            m,
        ),
{
    let ops = name_ops(kind, name, id);
    let w1 = WriterView {
        schema: w.schema.insert((kind, name), id),
        owed: w.owed + ops,
        ..w
    };
    let before = paid(w, m);
    let after = paid(w1, m);
    let name_key = KeyView::SchemaName(kind, vstd::utf8::encode_utf8(name));
    let id_key = KeyView::SchemaId(kind, id);
    store_laws::law_applied_in_order(m, w.owed, ops);
    assert(ops.last() == ops[1]);
    assert(ops.drop_last() =~= seq![ops[0]]);
    assert(seq![ops[0]].drop_last() =~= Seq::empty());
    reveal_with_fuel(store_laws::applied, 3);
    assert(after == before.insert(name_key, ops[0]->Put_value).insert(id_key, ops[1]->Put_value));
    assert forall|key: KeyView| key != name_key && key != id_key implies store_laws::value_at(
        after,
        key,
    ) == store_laws::value_at(before, key) by {}
    assert(pick(w.allocs, Space::Names(kind)) == w.allocs.space(kind));
    assert forall|k: SchemaKind, other: Seq<char>| #[trigger]
        w.schema.contains_key((k, other)) implies has_name(w1, after, k, other) by {
        assert(has_name(w, before, k, other));
        if k == kind {
            assert(w.schema[(kind, other)] != id);
            vstd::utf8::encode_utf8_decode_utf8(other);
            vstd::utf8::encode_utf8_decode_utf8(name);
        }
    }
    assert(has_name(w1, after, kind, name));
    assert(write_laws::wf(w1)) by {
        assert(write_laws::introduces(w1.owed));
        assert forall|k: SchemaKind, a: Seq<char>| #[trigger]
            w1.schema.contains_key((k, a)) implies w1.schema[(k, a)] < w1.allocs.space(k).next by {
            if (k, a) != (kind, name) {
                assert(w.schema.contains_key((k, a)));
            }
        }
        assert forall|k: SchemaKind, a: Seq<char>, b: Seq<char>|
            #![trigger w1.schema.contains_key((k, a)), w1.schema.contains_key((k, b))]
            w1.schema.contains_key((k, a)) && w1.schema.contains_key((k, b)) && w1.schema[(k, a)]
                == w1.schema[(k, b)] implies a == b by {
            if (k, a) != (kind, name) {
                assert(w.schema.contains_key((k, a)));
            }
            if (k, b) != (kind, name) {
                assert(w.schema.contains_key((k, b)));
            }
        }
    }
    assert(sound(w1, m)) by {
        assert forall|k: SchemaKind, i: u32|
            (#[trigger] store_laws::value_at(m, KeyView::SchemaId(k, i)))
                is Some implies defines(w1, m, k, i) by {
            assert(defines(w, m, k, i));
        }
    }
    assert(sound(w1, after)) by {
        assert forall|sp: Space|
            write_laws::stored_end(after, (#[trigger] pick(w1.allocs, sp)).key) == pick(
                w1.allocs,
                sp,
            ).end by {
            assert(write_laws::stored_end(before, pick(w.allocs, sp).key) == pick(
                w.allocs,
                sp,
            ).end);
        }
        assert(pick(w1.allocs, Space::Names(kind)).end >= w.allocs.space(kind).next);
        assert(write_laws::stored_end(after, w1.allocs.seq.key) == write_laws::stored_end(
            before,
            w.allocs.seq.key,
        ));
        assert(write_laws::stored_end(after, w1.allocs.uid.key) == write_laws::stored_end(
            before,
            w.allocs.uid.key,
        ));
        assert forall|k: SchemaKind, i: u32|
            (#[trigger] store_laws::value_at(after, KeyView::SchemaId(k, i)))
                is Some implies defines(w1, after, k, i) by {
            if KeyView::SchemaId(k, i) == id_key {
                assert(schema::entry_for(kind, name).name == name);
            } else {
                assert(store_laws::value_at(before, KeyView::SchemaId(k, i)) is Some);
                assert(defines(w, before, k, i));
                let e = store_laws::value_at(before, KeyView::SchemaId(k, i))->Some_0->Entry_0;
                assert(w.schema.contains_key((k, e.name)));
                assert(has_name(w1, after, k, e.name));
                assert(pick(w1.allocs, Space::Names(k)) == w.allocs.space(k));
            }
        }
        assert forall|xid: Seq<u8>| #[trigger]
            uid_below(
                store_laws::bytes_at(after, KeyView::Xid(xid)),
                write_laws::stored_end(after, w1.allocs.uid.key),
            ) by {
            assert(store_laws::value_at(after, KeyView::Xid(xid)) == store_laws::value_at(
                before,
                KeyView::Xid(xid),
            ));
            assert(uid_below(
                store_laws::bytes_at(before, KeyView::Xid(xid)),
                write_laws::stored_end(before, w.allocs.uid.key),
            ));
        }
    }
    assert(complete(w1, after)) by {
        assert forall|k: SchemaKind, a: Seq<char>| #[trigger]
            w1.schema.contains_key((k, a)) implies has_name(w1, after, k, a) by {
            if (k, a) != (kind, name) {
                assert(w.schema.contains_key((k, a)));
            }
        }
    }
}

/// Interning keeps a writer and its store in agreement: the records of a new name are owed.
pub proof fn law_interned_is_coherent(
    w: WriterView,
    m: Map<KeyView, PayloadView>,
    kind: SchemaKind,
    name: Seq<char>,
)
    requires
        coherent(w, m),
        w.can_intern(kind, name),
    ensures
        coherent(w.intern(kind, name).writer, m),
{
    if !w.schema.contains_key((kind, name)) {
        let sp = Space::Names(kind);
        let s = pick(w.allocs, sp);
        let id = s.next as u32;
        assert(s == w.allocs.space(kind));
        law_drawn_is_coherent(w, m, sp);
        let w1 = drawn(w, sp);
        assert forall|other: Seq<char>| #[trigger]
            w1.schema.contains_key((kind, other)) implies w1.schema[(kind, other)] != id by {
            assert(w.schema.contains_key((kind, other)));
        }
        lemma_named_is_coherent(w1, m, kind, name, id);
        let goal = w.intern(kind, name).writer;
        assert(goal.owed =~= w1.owed + name_ops(kind, name, id));
    }
}

/// Interning several names keeps a writer and its store in agreement.
pub proof fn law_interned_all_is_coherent(
    w: WriterView,
    m: Map<KeyView, PayloadView>,
    kind: SchemaKind,
    names: Seq<Seq<char>>,
)
    requires
        coherent(w, m),
        w.can_intern_all(kind, names),
    ensures
        coherent(w.intern_all(kind, names).writer, m),
    decreases names.len(),
{
    if names.len() > 0 {
        let n = names.len() - 1;
        assert(names.take(n) =~= names.drop_last());
        crate::write::lemma_intern_prefix(w, kind, names, n);
        law_interned_all_is_coherent(w, m, kind, names.drop_last());
        law_interned_is_coherent(
            w.intern_all(kind, names.drop_last()).writer,
            m,
            kind,
            names.last(),
        );
    }
}

/// Resolving an external id keeps a writer and its store in agreement: the block that a new uid may
/// take is owed.
pub proof fn law_resolved_is_coherent(
    w: WriterView,
    m: Map<KeyView, PayloadView>,
    xid: Seq<u8>,
    stored: Option<Seq<u8>>,
)
    requires
        coherent(w, m),
        stored is None ==> w.allocs.uid.can_advance(),
    ensures
        coherent(w.resolve(xid, stored).0, m),
        coherent(w.resolve_and_stub(xid, stored).0, m),
{
    if stored is None {
        law_drawn_is_coherent(w, m, Space::Uids);
        assert(w.resolve(xid, stored).0 == drawn(w, Space::Uids));
    }
}

// ---------------------------------------------------------------------------
// Batches
// ---------------------------------------------------------------------------

/// Whether operations are a write's own: they leave alone what is owed to the store, the changelog
/// and the cursor, and map external ids only to uids that were handed out.
pub open spec fn own(w: WriterView, ops: Seq<OpView>) -> bool {
    forall|i: int| 0 <= i < ops.len() ==> own_op(w, #[trigger] ops[i])
}

/// Whether an operation is a write's own.
pub open spec fn own_op(w: WriterView, op: OpView) -> bool {
    match op {
        OpView::Put { key, value } => {
            &&& !write_laws::bookkeeping(key)
            &&& key is Xid ==> (value matches PayloadView::Raw(b) && (model::mapped_uid(
                Some(b),
            ) matches Ok(Some(uid)) ==> uid.0 < w.allocs.uid.next))
        },
        OpView::Delete { key } => !write_laws::bookkeeping(key),
        _ => true,
    }
}

proof fn lemma_own_uids(w: WriterView, m: Map<KeyView, PayloadView>, ops: Seq<OpView>, n: nat)
    requires
        own(w, ops),
        uids_below(m, n),
        w.allocs.uid.next <= n,
    ensures
        uids_below(store_laws::applied(m, ops), n),
    decreases ops.len(),
{
    if ops.len() > 0 {
        let before = ops.drop_last();
        assert forall|i: int| 0 <= i < before.len() implies own_op(w, #[trigger] before[i]) by {
            assert(before[i] == ops[i]);
        }
        lemma_own_uids(w, m, before, n);
        let m1 = store_laws::applied(m, before);
        let m2 = store_laws::applied(m, ops);
        let op = ops[ops.len() - 1];
        assert(own_op(w, op));
        assert forall|xid: Seq<u8>| #[trigger]
            uid_below(store_laws::bytes_at(m2, KeyView::Xid(xid)), n) by {
            let key = KeyView::Xid(xid);
            assert(uid_below(store_laws::bytes_at(m1, key), n));
            if !store_laws::writes(op, key) {
                assert(store_laws::bytes_at(m2, key) == store_laws::bytes_at(m1, key));
            }
        }
    }
}

/// A write's own operations leave alone what is owed.
proof fn lemma_own_untouched(w: WriterView, ops: Seq<OpView>, key: KeyView)
    requires
        own(w, ops),
        write_laws::bookkeeping(key),
    ensures
        store_laws::untouched(ops, key),
{
    assert forall|i: int| 0 <= i < ops.len() implies !store_laws::writes(
        #[trigger] ops[i],
        key,
    ) by {
        assert(own_op(w, ops[i]));
    }
}

/// Building a batch keeps a writer and its store in agreement, whether it is then applied and
/// reported as applied, or not applied and reported as failed. After a batch that was applied
/// nothing is owed.
pub proof fn law_batch_is_coherent(
    w: WriterView,
    m: Map<KeyView, PayloadView>,
    ops: Seq<OpView>,
    places: Seq<nat>,
    c: ChangeView,
    e: ErrorView,
)
    requires
        coherent(w, m),
        own(w, ops),
        w.allocs.seq.can_advance(),
    ensures
        ({
            let (w1, batch) = w.commit(ops, places, c);
            let done = w1.settle(batch.seqnum, Ok(()));
            &&& coherent(w1, m)
            &&& coherent(w1.settle(batch.seqnum, Err(e)), m)
            &&& coherent(done, store_laws::applied(m, batch.ops))
            &&& done.owed == Seq::<OpView>::empty()
        }),
{
    let (w1, batch) = w.commit(ops, places, c);
    let seq = batch.seqnum;
    let owed = w.owed_with_seq();
    law_drawn_is_coherent(w, m, Space::Numbers);
    let d = drawn(w, Space::Numbers);
    assert(d.owed == owed);
    assert(w1 == WriterView {
        in_flight: Some(InFlightView { seq, sent: owed.len() }),
        ..d
    });
    lemma_in_flight_is_coherent(d, m, w1.in_flight);
    let failed = w1.settle(seq, Err(e));
    assert(failed == WriterView { in_flight: None, ..d });
    lemma_in_flight_is_coherent(d, m, None);
    write_laws::law_applied_batch_settles(w, ops, places, c);
    let done = w1.settle(seq, Ok(()));
    assert(done == WriterView {
        latest_seq: seq,
        owed: Seq::empty(),
        in_flight: None,
        ..d
    });
    assert(seq == d.allocs.seq.next);
    assert(own(d, ops)) by {
        assert forall|i: int| 0 <= i < ops.len() implies own_op(d, #[trigger] ops[i]) by {
            assert(own_op(w, ops[i]));
        }
    }
    let after = store_laws::applied(m, batch.ops);
    let before = paid(d, m);
    assert forall|key: KeyView| write_laws::is_owed(key) implies #[trigger] store_laws::value_at(
        after,
        key,
    ) == store_laws::value_at(before, key) by {
        lemma_own_untouched(w, ops, key);
        weave_laws::lemma_commit_pays(w, ops, places, c, m, key);
    }
    assert forall|xid: Seq<u8>| #[trigger]
        store_laws::value_at(after, KeyView::Xid(xid)) == store_laws::value_at(
            store_laws::applied(before, ops),
            KeyView::Xid(xid),
        ) by {
        let key = KeyView::Xid(xid);
        weave_laws::lemma_commit_keeps(w, ops, places, c, m, key);
        write_laws::lemma_commit_owes(w);
        write_laws::lemma_owed_untouched(owed, key);
        store_laws::law_untouched_stays(m, owed, key);
        store_laws::law_applied_at(before, m, ops, key);
    }
    let cursor = batch.ops.last();
    assert(cursor == model::log_ops(seq, c)[1]);
    assert(store_laws::bytes_at(after, KeyView::Meta(store::latest_seq_name())) == Some(
        endian::le_bytes(seq as nat, 8),
    ));
    lemma_paid_is_coherent(d, m, ops, after);
}

/// A writer and its store agree once the store holds all that was owed, the write's operations and
/// the cursor.
proof fn lemma_paid_is_coherent(
    w: WriterView,
    m: Map<KeyView, PayloadView>,
    ops: Seq<OpView>,
    after: Map<KeyView, PayloadView>,
)
    requires
        coherent(w, m),
        own(w, ops),
        w.allocs.seq.next <= u64::MAX,
        forall|key: KeyView|
            write_laws::is_owed(key) ==> #[trigger] store_laws::value_at(after, key)
                == store_laws::value_at(paid(w, m), key),
        forall|xid: Seq<u8>| #[trigger]
            store_laws::value_at(after, KeyView::Xid(xid)) == store_laws::value_at(
                store_laws::applied(paid(w, m), ops),
                KeyView::Xid(xid),
            ),
        store_laws::bytes_at(after, KeyView::Meta(store::latest_seq_name())) == Some(
            endian::le_bytes(w.allocs.seq.next, 8),
        ),
    ensures
        coherent(
            WriterView {
                latest_seq: w.allocs.seq.next as u64,
                owed: Seq::empty(),
                in_flight: None,
                ..w
            },
            after,
        ),
{
    let seq = w.allocs.seq.next as u64;
    let done = WriterView { latest_seq: seq, owed: Seq::empty(), in_flight: None, ..w };
    let before = paid(w, m);
    let mid = store_laws::applied(before, ops);
    assert(paid(done, after) == after);
    assert(write_laws::wf(done)) by {
        assert(write_laws::names_wf(done)) by {
            assert(write_laws::names_wf(w));
        }
    }
    assert forall|sp: Space|
        write_laws::stored_end(after, (#[trigger] pick(done.allocs, sp)).key) == pick(
            done.allocs,
            sp,
        ).end by {
        let key = KeyView::Block(pick(done.allocs, sp).key);
        assert(write_laws::is_owed(key));
        assert(store_laws::value_at(after, key) == store_laws::value_at(before, key));
        assert(write_laws::stored_end(before, pick(w.allocs, sp).key) == pick(w.allocs, sp).end);
    }
    assert(pick(done.allocs, Space::Numbers) == done.allocs.seq);
    assert(pick(done.allocs, Space::Uids) == done.allocs.uid);
    fixed::law_fixed_round_trip(seq, 0, "Meta[latest_seq]");
    assert forall|kind: SchemaKind, name: Seq<char>| #[trigger]
        done.schema.contains_key((kind, name)) implies has_name(done, after, kind, name) by {
        assert(has_name(w, before, kind, name));
        let id = w.schema[(kind, name)];
        let name_key = KeyView::SchemaName(kind, vstd::utf8::encode_utf8(name));
        assert(write_laws::is_owed(name_key));
        assert(store_laws::value_at(after, name_key) == store_laws::value_at(before, name_key));
        let id_key = KeyView::SchemaId(kind, id);
        assert(write_laws::is_owed(id_key));
        assert(store_laws::value_at(after, id_key) == store_laws::value_at(before, id_key));
    }
    assert forall|kind: SchemaKind, id: u32|
        (#[trigger] store_laws::value_at(after, KeyView::SchemaId(kind, id)))
            is Some implies defines(done, after, kind, id) by {
        let id_key = KeyView::SchemaId(kind, id);
        assert(write_laws::is_owed(id_key));
        assert(store_laws::value_at(before, id_key) is Some);
        assert(defines(w, before, kind, id));
        assert(pick(done.allocs, Space::Names(kind)) == done.allocs.space(kind));
        assert(pick(w.allocs, Space::Names(kind)) == w.allocs.space(kind));
    }
    let end = done.allocs.uid.end;
    assert(write_laws::stored_end(before, w.allocs.uid.key) == end) by {
        assert(pick(w.allocs, Space::Uids) == w.allocs.uid);
    }
    lemma_own_uids(w, before, ops, end);
    assert forall|xid: Seq<u8>| #[trigger]
        uid_below(store_laws::bytes_at(after, KeyView::Xid(xid)), end) by {
        assert(store_laws::value_at(after, KeyView::Xid(xid)) == store_laws::value_at(
            mid,
            KeyView::Xid(xid),
        ));
        assert(uid_below(store_laws::bytes_at(mid, KeyView::Xid(xid)), end));
    }
}

proof fn lemma_in_flight_is_coherent(
    w: WriterView,
    m: Map<KeyView, PayloadView>,
    in_flight: Option<InFlightView>,
)
    requires
        coherent(w, m),
        in_flight matches Some(f) ==> f.sent <= w.owed.len(),
    ensures
        coherent(WriterView { in_flight, ..w }, m),
{
    let w1 = WriterView { in_flight, ..w };
    assert(write_laws::wf(w1));
    assert(paid(w1, m) == paid(w, m));
    assert forall|kind: SchemaKind, id: u32|
        (#[trigger] store_laws::value_at(m, KeyView::SchemaId(kind, id)))
            is Some implies defines(w1, m, kind, id) by {
        assert(defines(w, m, kind, id));
    }
    let full = paid(w, m);
    assert forall|kind: SchemaKind, id: u32|
        (#[trigger] store_laws::value_at(full, KeyView::SchemaId(kind, id)))
            is Some implies defines(w1, full, kind, id) by {
        assert(defines(w, full, kind, id));
    }
    assert forall|kind: SchemaKind, name: Seq<char>| #[trigger]
        w1.schema.contains_key((kind, name)) implies has_name(w1, full, kind, name) by {
        assert(has_name(w, full, kind, name));
    }
}

// ---------------------------------------------------------------------------
// Restarts
// ---------------------------------------------------------------------------

/// Whether a writer is what opening a store makes: every id space resumes at the end of the block
/// that the store holds for it, the known names are those whose definitions the store holds, and
/// the cursor is the store's.
pub open spec fn loaded(w: WriterView, m: Map<KeyView, PayloadView>) -> bool {
    &&& forall|sp: Space|
        (#[trigger] pick(w.allocs, sp)).next == write_laws::stored_end(m, pick(w.allocs, sp).key)
            && pick(w.allocs, sp).end == pick(w.allocs, sp).next
    &&& names_of_store(w.schema, m)
    &&& model::read_cursor(
        store_laws::bytes_at(m, KeyView::Meta(store::latest_seq_name())),
    ) == Ok::<u64, ErrorView>(w.latest_seq)
    &&& w.owed == Seq::<OpView>::empty()
    &&& w.in_flight is None
}

/// Whether definitions are those that a store holds, all of them and no others.
pub open spec fn definitions_of(
    d: Seq<(SchemaKind, u32, EntryView)>,
    m: Map<KeyView, PayloadView>,
) -> bool {
    &&& forall|i: int|
        0 <= i < d.len() ==> store_laws::value_at(
            m,
            KeyView::SchemaId((#[trigger] d[i]).0, d[i].1),
        ) == Some(PayloadView::Entry(d[i].2))
    &&& forall|kind: SchemaKind, id: u32|
        (#[trigger] store_laws::value_at(m, KeyView::SchemaId(kind, id))) matches Some(
            PayloadView::Entry(e),
        ) ==> d.contains((kind, id, e))
}

/// The names that a cache rebuilt from the definitions in a store knows are those that the store
/// defines, which is what opening the store asks for.
pub proof fn law_rebuilt_cache_is_the_stores(
    d: Seq<(SchemaKind, u32, EntryView)>,
    m: Map<KeyView, PayloadView>,
)
    requires
        definitions_of(d, m),
    ensures
        names_of_store(schema::definitions_view(d), m),
{
    let names = schema::definitions_view(d);
    lemma_definitions(d);
    assert forall|kind: SchemaKind, name: Seq<char>| #[trigger]
        names.contains_key((kind, name)) implies (store_laws::value_at(
        m,
        KeyView::SchemaId(kind, names[(kind, name)]),
    ) matches Some(PayloadView::Entry(e)) && e.name == name) by {
        let i = choose|i: int|
            0 <= i < d.len() && (#[trigger] d[i]).0 == kind && d[i].2.name == name && d[i].1
                == names[(kind, name)];
        assert(store_laws::value_at(m, KeyView::SchemaId(d[i].0, d[i].1)) is Some);
    }
    assert forall|kind: SchemaKind, id: u32|
        (#[trigger] store_laws::value_at(m, KeyView::SchemaId(kind, id))) is Some implies (
    store_laws::value_at(m, KeyView::SchemaId(kind, id)) matches Some(PayloadView::Entry(e))
        ==> names.contains_key((kind, e.name))) by {
        let found = store_laws::value_at(m, KeyView::SchemaId(kind, id))->Some_0;
        if found is Entry {
            let e = found->Entry_0;
            let i = choose|i: int| 0 <= i < d.len() && d[i] == (kind, id, e);
            assert(names.contains_key((d[i].0, d[i].2.name)));
        }
    }
}

proof fn lemma_definitions(d: Seq<(SchemaKind, u32, EntryView)>)
    ensures
        ({
            let names = schema::definitions_view(d);
            &&& forall|i: int|
                0 <= i < d.len() ==> names.contains_key(((#[trigger] d[i]).0, d[i].2.name))
            &&& forall|kind: SchemaKind, name: Seq<char>| #[trigger]
                names.contains_key((kind, name)) ==> exists|i: int|
                    0 <= i < d.len() && (#[trigger] d[i]).0 == kind && d[i].2.name == name
                        && d[i].1 == names[(kind, name)]
        }),
    decreases d.len(),
{
    if d.len() > 0 {
        let less = d.drop_last();
        lemma_definitions(less);
        let names = schema::definitions_view(d);
        let fewer = schema::definitions_view(less);
        assert forall|i: int| 0 <= i < d.len() implies names.contains_key(
            ((#[trigger] d[i]).0, d[i].2.name),
        ) by {
            if i < d.len() - 1 {
                assert(less[i] == d[i]);
            }
        }
        assert forall|kind: SchemaKind, name: Seq<char>| #[trigger]
            names.contains_key((kind, name)) implies exists|i: int|
            0 <= i < d.len() && (#[trigger] d[i]).0 == kind && d[i].2.name == name && d[i].1
                == names[(kind, name)] by {
            if d.last().0 == kind && d.last().2.name == name {
                assert(d[d.len() - 1] == d.last());
            } else {
                assert(fewer.contains_key((kind, name)));
                let i = choose|i: int|
                    0 <= i < less.len() && (#[trigger] less[i]).0 == kind && less[i].2.name == name
                        && less[i].1 == fewer[(kind, name)];
                assert(d[i] == less[i]);
            }
        }
    }
}

/// Whether names and their ids are those that a store defines.
pub open spec fn names_of_store(
    names: Map<(SchemaKind, Seq<char>), u32>,
    m: Map<KeyView, PayloadView>,
) -> bool {
    &&& forall|kind: SchemaKind, name: Seq<char>| #[trigger]
        names.contains_key((kind, name)) ==> (store_laws::value_at(
            m,
            KeyView::SchemaId(kind, names[(kind, name)]),
        ) matches Some(PayloadView::Entry(e)) && e.name == name)
    &&& forall|kind: SchemaKind, id: u32|
        (#[trigger] store_laws::value_at(m, KeyView::SchemaId(kind, id))) matches Some(
            PayloadView::Entry(e),
        ) ==> names.contains_key((kind, e.name))
}

/// Whether two writers use the same id spaces.
pub open spec fn same_keys(a: AllocatorsView, b: AllocatorsView) -> bool {
    forall|sp: Space| (#[trigger] pick(a, sp)).key == pick(b, sp).key
}

/// A writer that is opened over the store of another one takes over from it, after failures too. It
/// agrees with the store; it has the same cursor; the names it knows have the ids they had; its next
/// sequence number is above the cursor, and the uids it hands out are above all that the store
/// maps. Where nothing was owed, it knows every name, and every id it hands out is above all that
/// were handed out before.
pub proof fn law_reopened_takes_over(w: WriterView, m: Map<KeyView, PayloadView>, w2: WriterView)
    requires
        coherent(w, m),
        loaded(w2, m),
        same_keys(w2.allocs, w.allocs),
    ensures
        coherent(w2, m),
        w2.latest_seq == w.latest_seq,
        w2.allocs.seq.next + 1 > w.latest_seq,
        uids_below(m, w2.allocs.uid.next),
        forall|kind: SchemaKind, name: Seq<char>| #[trigger]
            w2.schema.contains_key((kind, name)) ==> w.schema.contains_key((kind, name))
                && w.schema[(kind, name)] == w2.schema[(kind, name)],
        w.owed.len() == 0 ==> w2.schema == w.schema,
        w.owed.len() == 0 ==> forall|sp: Space|
            (#[trigger] pick(w2.allocs, sp)).next >= pick(w.allocs, sp).next,
{
    assert forall|sp: Space|
        (#[trigger] pick(w2.allocs, sp)).key == pick(w.allocs, sp).key && pick(w2.allocs, sp).next
            == write_laws::stored_end(m, pick(w.allocs, sp).key) by {}
    assert(pick(w2.allocs, Space::Numbers) == w2.allocs.seq);
    assert(pick(w2.allocs, Space::Uids) == w2.allocs.uid);
    assert(pick(w.allocs, Space::Numbers) == w.allocs.seq);
    assert(pick(w.allocs, Space::Uids) == w.allocs.uid);
    assert(paid(w2, m) == m);
    assert forall|kind: SchemaKind| (#[trigger] w2.allocs.space(kind)).key == w.allocs.space(
        kind,
    ).key && w2.allocs.space(kind).next == write_laws::stored_end(m, w.allocs.space(kind).key)
        && w2.allocs.space(kind).end == w2.allocs.space(kind).next by {
        assert(pick(w2.allocs, Space::Names(kind)) == w2.allocs.space(kind));
        assert(pick(w.allocs, Space::Names(kind)) == w.allocs.space(kind));
    }
    assert forall|kind: SchemaKind, name: Seq<char>| #[trigger]
        w2.schema.contains_key((kind, name)) implies w.schema.contains_key((kind, name))
        && w.schema[(kind, name)] == w2.schema[(kind, name)] && has_name(w2, m, kind, name)
        && w2.schema[(kind, name)] < w2.allocs.space(kind).next by {
        let id = w2.schema[(kind, name)];
        assert(store_laws::value_at(m, KeyView::SchemaId(kind, id)) is Some);
        assert(defines(w, m, kind, id));
    }
    assert(write_laws::keys_differ(w2.allocs)) by {
        let label = SchemaKind::Label;
        let pred = SchemaKind::Predicate;
        let prop = SchemaKind::PropertyKey;
        assert(w2.allocs.space(label).key == w.allocs.label.key);
        assert(w2.allocs.space(pred).key == w.allocs.pred.key);
        assert(w2.allocs.space(prop).key == w.allocs.prop.key);
    }
    assert(write_laws::wf(w2)) by {
        assert(w2.allocs.space(SchemaKind::Label) == w2.allocs.label);
        assert(w2.allocs.space(SchemaKind::Predicate) == w2.allocs.pred);
        assert(w2.allocs.space(SchemaKind::PropertyKey) == w2.allocs.prop);
        assert forall|kind: SchemaKind, a: Seq<char>, b: Seq<char>|
            #![trigger w2.schema.contains_key((kind, a)), w2.schema.contains_key((kind, b))]
            w2.schema.contains_key((kind, a)) && w2.schema.contains_key((kind, b)) && w2.schema[(
                kind,
                a,
            )] == w2.schema[(kind, b)] implies a == b by {}
    }
    assert(sound(w2, m)) by {
        assert forall|kind: SchemaKind, id: u32|
            (#[trigger] store_laws::value_at(m, KeyView::SchemaId(kind, id)))
                is Some implies defines(w2, m, kind, id) by {
            assert(defines(w, m, kind, id));
            let e = store_laws::value_at(m, KeyView::SchemaId(kind, id))->Some_0->Entry_0;
            assert(w2.schema.contains_key((kind, e.name)));
        }
    }
    if w.owed.len() == 0 {
        assert(paid(w, m) == m);
        assert forall|k: (SchemaKind, Seq<char>)| #[trigger]
            w2.schema.contains_key(k) == w.schema.contains_key(k) by {
            if w.schema.contains_key(k) {
                assert(w.schema.contains_key((k.0, k.1)));
                assert(has_name(w, m, k.0, k.1));
                let id = w.schema[(k.0, k.1)];
                assert(store_laws::value_at(m, KeyView::SchemaId(k.0, id)) is Some);
            }
            if w2.schema.contains_key(k) {
                assert(w2.schema.contains_key((k.0, k.1)));
            }
        }
        assert forall|k: (SchemaKind, Seq<char>)| #[trigger]
            w2.schema.contains_key(k) implies w2.schema[k] == w.schema[k] by {
            assert(w2.schema.contains_key((k.0, k.1)));
        }
        assert(w2.schema =~= w.schema);
        assert forall|sp: Space|
            (#[trigger] pick(w2.allocs, sp)).next >= pick(w.allocs, sp).next by {
            assert(write_laws::stored_end(m, pick(w.allocs, sp).key) == pick(w.allocs, sp).end);
            assert(write_laws::space_wf(pick(w.allocs, sp))) by {
                match sp {
                    Space::Uids => {},
                    Space::Numbers => {},
                    Space::Names(kind) => {
                        match kind {
                            SchemaKind::Label => {},
                            SchemaKind::Predicate => {},
                            SchemaKind::PropertyKey => {},
                        }
                    },
                }
            }
        }
    }
}

} // verus!
