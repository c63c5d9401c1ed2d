//! What holds of the write path as a whole.

use vstd::prelude::*;

use crate::allocators::{AllocatorsView, SpaceView};
use crate::change;
use crate::change::{ChangeOp, ChangeView};
use crate::codec_laws;
use crate::endian;
use crate::error::ErrorView;
use crate::fixed;
use crate::ids::{Direction, LabelId, PredId, PropId, SchemaKind, Uid};
use crate::merge;
use crate::model;
use crate::model::{
    BatchView, EdgeDraftView, NodeDraftView, ResolutionView, StepView, WriterView,
};
use crate::node;
use crate::node::NodeView;
use crate::props;
use crate::schema;
use crate::store;
use crate::store::{KeyView, OpView, PayloadView};
use crate::store_laws;
use crate::value::ValueView;
use crate::weave_laws;

verus! {

// ---------------------------------------------------------------------------
// One write, one sequence number
// ---------------------------------------------------------------------------

/// Operations that introduce names and reserve blocks, and nothing else.
pub open spec fn introduces(ops: Seq<OpView>) -> bool {
    forall|i: int|
        0 <= i < ops.len() ==> (#[trigger] ops[i] matches OpView::Put { key, .. } && is_owed(key))
}

/// Whether a key is one that operations owed to the store write.
pub open spec fn is_owed(key: KeyView) -> bool {
    key is SchemaName || key is SchemaId || key is Block
}

/// Whether what is owed, the changelog or the cursor may be under the key.
pub open spec fn bookkeeping(key: KeyView) -> bool {
    is_owed(key) || key is Log || key == KeyView::Meta(store::latest_seq_name())
}

/// Operations owed leave every other key.
pub proof fn lemma_owed_untouched(ops: Seq<OpView>, key: KeyView)
    requires
        introduces(ops),
        !is_owed(key),
    ensures
        store_laws::untouched(ops, key),
{
}

/// What a commit owes only introduces names and reserves blocks.
pub proof fn lemma_commit_owes(w: WriterView)
    requires
        introduces(w.owed),
    ensures
        introduces(w.owed_with_seq()),
{
}

/// Whether the store has the changelog record of a write, once its batch is applied, under the
/// sequence number of the batch, and the cursor stands there.
pub open spec fn is_logged(batch: BatchView, m: Map<KeyView, PayloadView>, c: ChangeView) -> bool {
    let after = store_laws::applied(m, batch.ops);
    &&& store_laws::bytes_at(after, KeyView::Log(batch.seqnum)) matches Some(b)
        && change::decoded_change(b) == Ok::<ChangeView, ErrorView>(
        ChangeView { seq: batch.seqnum, ..c },
    )
    &&& model::read_cursor(
        store_laws::bytes_at(after, KeyView::Meta(store::latest_seq_name())),
    ) == Ok::<u64, ErrorView>(batch.seqnum)
}

/// Once a batch is applied, its changelog record is under its sequence number, and the cursor
/// stands there: a writer that reads the cursor resumes from this write.
pub proof fn law_commit_is_logged(
    w: WriterView,
    ops: Seq<OpView>,
    places: Seq<nat>,
    c: ChangeView,
    m: Map<KeyView, PayloadView>,
)
    requires
        codec_laws::change_fits(c),
    ensures
        ({
            let batch = w.commit(ops, places, c).1;
            &&& batch.await_durable
            &&& batch.seqnum == w.next_seq()
            &&& is_logged(batch, m, c)
        }),
{
    let batch = w.commit(ops, places, c).1;
    let seq = batch.seqnum;
    let after = store_laws::applied(m, batch.ops);
    let n = batch.ops.len() as int;
    let log = batch.ops[n - 2];
    let cursor = batch.ops[n - 1];
    assert(batch.ops.last() == cursor);
    assert(batch.ops.drop_last().last() == log);
    let stamped = ChangeView { seq, ..c };
    assert(log == OpView::Put {
        key: KeyView::Log(seq),
        value: PayloadView::Raw(change::change_bytes(stamped)),
    });
    assert(cursor == OpView::Put {
        key: KeyView::Meta(store::latest_seq_name()),
        value: PayloadView::Raw(endian::le_bytes(seq as nat, 8)),
    });
    reveal_with_fuel(store_laws::applied, 3);
    codec_laws::law_change_round_trip(stamped);
    fixed::law_fixed_round_trip(seq, 0, "Meta[latest_seq]");
}

/// Sequence numbers start at 1 and go up by one with every write, whether or not the batches
/// before were applied; each is above the cursor.
pub proof fn law_sequence_increases(
    w: WriterView,
    ops: Seq<OpView>,
    places: Seq<nat>,
    c: ChangeView,
    applied: Result<(), ErrorView>,
    ops2: Seq<OpView>,
    places2: Seq<nat>,
    c2: ChangeView,
)
    requires
        wf(w),
        w.allocs.seq.next + 2 <= u64::MAX,
    ensures
        ({
            let (w1, first) = w.commit(ops, places, c);
            let (w2, second) = w1.settle(first.seqnum, applied).commit(ops2, places2, c2);
            &&& first.seqnum >= 1
            &&& first.seqnum > w.latest_seq
            &&& second.seqnum == first.seqnum + 1
        }),
{
}

/// A batch that could not be applied leaves the cursor, the names and the ids handed out, and all
/// that is owed to the store stays owed.
pub proof fn law_failed_batch_stays_owed(
    w: WriterView,
    ops: Seq<OpView>,
    places: Seq<nat>,
    c: ChangeView,
    e: ErrorView,
)
    ensures
        ({
            let (w1, batch) = w.commit(ops, places, c);
            let w2 = w1.settle(batch.seqnum, Err(e));
            &&& w2.latest_seq == w.latest_seq
            &&& w2.schema == w.schema
            &&& w2.allocs == w1.allocs
            &&& w2.owed == w.owed_with_seq()
            &&& w2.in_flight is None
        }),
{
}

/// A batch that was applied moves the cursor to its sequence number, and nothing is owed any more.
pub proof fn law_applied_batch_settles(
    w: WriterView,
    ops: Seq<OpView>,
    places: Seq<nat>,
    c: ChangeView,
)
    ensures
        ({
            let (w1, batch) = w.commit(ops, places, c);
            let w2 = w1.settle(batch.seqnum, Ok(()));
            &&& w2.latest_seq == batch.seqnum
            &&& w2.schema == w.schema
            &&& w2.allocs == w1.allocs
            &&& w2.owed == Seq::<OpView>::empty()
            &&& w2.in_flight is None
        }),
{
    let owed = w.owed_with_seq();
    assert(owed.skip(owed.len() as int) =~= Seq::empty());
}

// ---------------------------------------------------------------------------
// Id spaces
// ---------------------------------------------------------------------------

/// What an id space has handed out is within its block.
pub open spec fn space_wf(s: SpaceView) -> bool {
    s.next <= s.end
}

/// What an id space hands out next is within its block, and where that takes a new block, the
/// reservation says from where it goes and how far.
pub proof fn law_ids_are_reserved(s: SpaceView)
    requires
        space_wf(s),
    ensures
        s.next < s.advance().end,
        space_wf(s.advance()),
        s.reservation() matches Some(r) ==> r.0 == s.key && s.advance().end == s.next
            + crate::allocators::block_size() && r.1.take(8) == endian::be_bytes(s.next, 8)
            && r.1.skip(8) == endian::be_bytes(crate::allocators::block_size(), 8),
        s.reservation() is None ==> s.advance().end == s.end,
{
    endian::lemma_be_bytes_len(s.next, 8);
    endian::lemma_be_bytes_len(crate::allocators::block_size(), 8);
    if s.reservation() is Some {
        let v = s.reservation()->Some_0.1;
        assert(v.take(8) =~= endian::be_bytes(s.next, 8));
        assert(v.skip(8) =~= endian::be_bytes(crate::allocators::block_size(), 8));
    }
}

/// The state after `n` ids were handed out.
pub open spec fn advanced(s: SpaceView, n: nat) -> SpaceView
    decreases n,
{
    if n == 0 {
        s
    } else {
        advanced(s, (n - 1) as nat).advance()
    }
}

/// Ids come in ascending order without gaps, and whatever was handed out is below the end of the
/// block. Once that block is in the store, a space that resumes at its end hands out nothing twice.
pub proof fn law_ids_stay_below_the_block_end(s: SpaceView, n: nat, i: nat)
    requires
        space_wf(s),
        i < n,
    ensures
        advanced(s, i).next == s.next + i,
        advanced(s, i).next < advanced(s, n).end,
        space_wf(advanced(s, n)),
    decreases n,
{
    lemma_advanced(s, n);
    lemma_advanced(s, i);
    if i + 1 < n {
        law_ids_stay_below_the_block_end(s, (n - 1) as nat, i);
    }
}

proof fn lemma_advanced(s: SpaceView, n: nat)
    requires
        space_wf(s),
    ensures
        advanced(s, n).next == s.next + n,
        space_wf(advanced(s, n)),
    decreases n,
{
    if n > 0 {
        lemma_advanced(s, (n - 1) as nat);
    }
}

/// The end of the block that a store holds for an id space, 0 if it holds none.
pub open spec fn stored_end(m: Map<KeyView, PayloadView>, key: Seq<u8>) -> nat {
    match store_laws::bytes_at(m, KeyView::Block(key)) {
        Some(b) => endian::be_value(b.take(8)) + endian::be_value(b.skip(8)),
        None => 0,
    }
}

/// The store knows how far ids are reserved: once the reservation that comes with an id is
/// applied, the block in the store ends where the writer's does.
pub proof fn law_reservation_is_stored(s: SpaceView, m: Map<KeyView, PayloadView>)
    requires
        s.can_advance(),
        stored_end(m, s.key) == s.end,
    ensures
        stored_end(
            store_laws::applied(m, store::reserve_ops(s.reservation())),
            s.key,
        ) == s.advance().end,
{
    let ops = store::reserve_ops(s.reservation());
    if s.reservation() is Some {
        let v = s.reservation()->Some_0.1;
        endian::lemma_be_bytes_len(s.next, 8);
        endian::lemma_be_bytes_len(crate::allocators::block_size(), 8);
        endian::lemma_byte_ranges();
        endian::law_be_round_trip(s.next, 8);
        endian::law_be_round_trip(crate::allocators::block_size(), 8);
        assert(v.take(8) =~= endian::be_bytes(s.next, 8));
        assert(v.skip(8) =~= endian::be_bytes(crate::allocators::block_size(), 8));
        assert(ops.drop_last() =~= Seq::empty());
        assert(ops.last() == ops[0]);
    }
}

/// Every id space has a key of its own.
pub open spec fn keys_differ(a: AllocatorsView) -> bool {
    &&& a.uid.key != a.label.key
    &&& a.uid.key != a.pred.key
    &&& a.uid.key != a.prop.key
    &&& a.uid.key != a.seq.key
    &&& a.label.key != a.pred.key
    &&& a.label.key != a.prop.key
    &&& a.label.key != a.seq.key
    &&& a.pred.key != a.prop.key
    &&& a.pred.key != a.seq.key
    &&& a.prop.key != a.seq.key
}

/// What every write keeps true of a writer: ids come from reserved blocks; known names have ids
/// that were handed out, different names of a kind different ones; the cursor is not ahead of
/// the sequence numbers; what is owed introduces names and reserves blocks, and a batch in flight
/// holds no more than that.
pub open spec fn wf(w: WriterView) -> bool {
    &&& keys_differ(w.allocs)
    &&& space_wf(w.allocs.uid)
    &&& space_wf(w.allocs.label)
    &&& space_wf(w.allocs.pred)
    &&& space_wf(w.allocs.prop)
    &&& space_wf(w.allocs.seq)
    &&& w.latest_seq <= w.allocs.seq.next
    &&& introduces(w.owed)
    &&& w.in_flight matches Some(f) ==> f.sent <= w.owed.len()
    &&& names_wf(w)
}

/// Known names have ids that were handed out, different names of a kind different ones.
pub open spec fn names_wf(w: WriterView) -> bool {
    &&& forall|kind: SchemaKind, name: Seq<char>| #[trigger]
        w.schema.contains_key((kind, name)) ==> w.schema[(kind, name)] < w.allocs.space(kind).next
    &&& forall|kind: SchemaKind, a: Seq<char>, b: Seq<char>|
        #![trigger w.schema.contains_key((kind, a)), w.schema.contains_key((kind, b))]
        w.schema.contains_key((kind, a)) && w.schema.contains_key((kind, b)) && w.schema[(kind, a)]
            == w.schema[(kind, b)] ==> a == b
}

// ---------------------------------------------------------------------------
// Names
// ---------------------------------------------------------------------------

/// Interning keeps a writer well-formed.
pub proof fn law_intern_keeps_wf(w: WriterView, kind: SchemaKind, name: Seq<char>)
    requires
        wf(w),
        w.can_intern(kind, name),
    ensures
        wf(w.intern(kind, name).writer),
{
    let w1 = w.intern(kind, name).writer;
    assert forall|k: SchemaKind, a: Seq<char>, b: Seq<char>|
        #![trigger w1.schema.contains_key((k, a)), w1.schema.contains_key((k, b))]
        w1.schema.contains_key((k, a)) && w1.schema.contains_key((k, b)) && w1.schema[(k, a)]
            == w1.schema[(k, b)] implies a == b by {
        if (k, a) != (kind, name) {
            assert(w.schema.contains_key((k, a)));
        }
        if (k, b) != (kind, name) {
            assert(w.schema.contains_key((k, b)));
        }
    }
    assert forall|k: SchemaKind, a: Seq<char>| #[trigger]
        w1.schema.contains_key((k, a)) implies w1.schema[(k, a)] < w1.allocs.space(k).next by {
        if (k, a) != (kind, name) {
            assert(w.schema.contains_key((k, a)));
        }
    }
}

/// A name keeps its id: interning it again gives the same one, and changes nothing.
pub proof fn law_intern_repeats(w: WriterView, kind: SchemaKind, name: Seq<char>)
    ensures
        ({
            let first = w.intern(kind, name);
            let again = first.writer.intern(kind, name);
            &&& again.id == first.id
            &&& again.writer == first.writer
        }),
{
}

/// Two names of a kind never share an id.
pub proof fn law_intern_distinct(w: WriterView, kind: SchemaKind, a: Seq<char>, b: Seq<char>)
    requires
        wf(w),
        w.can_intern(kind, a),
        w.intern(kind, a).writer.can_intern(kind, b),
        a != b,
    ensures
        w.intern(kind, a).id != w.intern(kind, a).writer.intern(kind, b).id,
{
    law_intern_keeps_wf(w, kind, a);
    let w1 = w.intern(kind, a).writer;
    law_intern_keeps_wf(w1, kind, b);
    let w2 = w1.intern(kind, b).writer;
    assert(w2.schema.contains_key((kind, a)));
    assert(w2.schema.contains_key((kind, b)));
}

/// Interning one name leaves the ids of all others.
pub proof fn law_intern_keeps_names(
    w: WriterView,
    kind: SchemaKind,
    name: Seq<char>,
    k: SchemaKind,
    other: Seq<char>,
)
    requires
        w.schema.contains_key((k, other)),
    ensures
        w.intern(kind, name).writer.schema.contains_key((k, other)),
        w.intern(kind, name).writer.schema[(k, other)] == w.schema[(k, other)],
{
}

/// The records of a new name are owed: once what is owed is applied, the store has its id under
/// the name and its definition under the id.
pub proof fn law_new_name_reads_back(
    w: WriterView,
    kind: SchemaKind,
    name: Seq<char>,
    m: Map<KeyView, PayloadView>,
)
    requires
        !w.schema.contains_key((kind, name)),
        w.can_intern(kind, name),
    ensures
        ({
            let i = w.intern(kind, name);
            let after = store_laws::applied(m, i.writer.owed);
            &&& store_laws::bytes_at(
                after,
                KeyView::SchemaName(kind, vstd::utf8::encode_utf8(name)),
            ) == Some(endian::le_bytes(i.id as nat, 4))
            &&& endian::le_value(endian::le_bytes(i.id as nat, 4)) == i.id
            &&& store_laws::value_at(after, KeyView::SchemaId(kind, i.id)) == Some(
                PayloadView::Entry(schema::entry_for(kind, name)),
            )
        }),
{
    let i = w.intern(kind, name);
    let ops = i.writer.owed;
    let n = ops.len() as int;
    assert(ops.last() == ops[n - 1]);
    assert(ops.drop_last().last() == ops[n - 2]);
    reveal_with_fuel(store_laws::applied, 3);
    endian::lemma_byte_ranges();
    endian::law_le_round_trip(i.id as nat, 4);
}

/// Interning several names keeps a writer well-formed.
pub proof fn law_intern_all_keeps_wf(w: WriterView, kind: SchemaKind, names: Seq<Seq<char>>)
    requires
        wf(w),
        w.can_intern_all(kind, names),
    ensures
        wf(w.intern_all(kind, names).writer),
    decreases names.len(),
{
    if names.len() > 0 {
        let n = names.len() - 1;
        assert(names.take(n) =~= names.drop_last());
        crate::write::lemma_intern_prefix(w, kind, names, n);
        law_intern_all_keeps_wf(w, kind, names.drop_last());
        law_intern_keeps_wf(w.intern_all(kind, names.drop_last()).writer, kind, names.last());
    }
}

/// Interning owes the store records of names and blocks, and no others.
pub proof fn law_intern_only_introduces(w: WriterView, kind: SchemaKind, names: Seq<Seq<char>>)
    requires
        introduces(w.owed),
    ensures
        introduces(w.intern_all(kind, names).writer.owed),
    decreases names.len(),
{
    if names.len() > 0 {
        law_intern_only_introduces(w, kind, names.drop_last());
        lemma_intern_owes(w.intern_all(kind, names.drop_last()).writer, kind, names.last());
    }
}

proof fn lemma_intern_owes(w: WriterView, kind: SchemaKind, name: Seq<char>)
    requires
        introduces(w.owed),
    ensures
        introduces(w.intern(kind, name).writer.owed),
{
    assert(introduces(model::intern_ops(w.allocs.space(kind), kind, name)));
}

/// How many different names among them are not known.
pub open spec fn unknown(w: WriterView, kind: SchemaKind, names: Seq<Seq<char>>) -> nat
    decreases names.len(),
{
    if names.len() == 0 {
        0
    } else {
        let seen = w.schema.contains_key((kind, names.last())) || names.drop_last().contains(
            names.last(),
        );
        unknown(w, kind, names.drop_last()) + if seen {
            0nat
        } else {
            1nat
        }
    }
}

/// Interning hands out one id for each different name that was not known, and no other.
pub proof fn law_each_new_name_takes_one_id(w: WriterView, kind: SchemaKind, names: Seq<Seq<char>>)
    ensures
        w.intern_all(kind, names).writer.allocs.space(kind).next == w.allocs.space(kind).next
            + unknown(w, kind, names),
    decreases names.len(),
{
    if names.len() > 0 {
        let most = names.drop_last();
        law_each_new_name_takes_one_id(w, kind, most);
        lemma_known_after(w, kind, most, (kind, names.last()));
    }
}

/// What is known once names were interned: those names, and what was known before.
proof fn lemma_known_after(
    w: WriterView,
    kind: SchemaKind,
    names: Seq<Seq<char>>,
    name: (SchemaKind, Seq<char>),
)
    ensures
        w.intern_all(kind, names).writer.schema.contains_key(name) == (w.schema.contains_key(name)
            || (name.0 == kind && names.contains(name.1))),
    decreases names.len(),
{
    if names.len() > 0 {
        let most = names.drop_last();
        lemma_known_after(w, kind, most, name);
        assert(names =~= most.push(names.last()));
        if most.contains(name.1) {
            let i = choose|i: int| 0 <= i < most.len() && most[i] == name.1;
            assert(names[i] == name.1);
        }
        if names.contains(name.1) && name.1 != names.last() {
            let i = choose|i: int| 0 <= i < names.len() && names[i] == name.1;
            assert(most[i] == name.1);
        }
        assert(names[names.len() - 1] == names.last());
    }
}

proof fn lemma_unknown_same(
    w: WriterView,
    w2: WriterView,
    kind: SchemaKind,
    names: Seq<Seq<char>>,
)
    requires
        forall|name: Seq<char>|
            #![trigger w.schema.contains_key((kind, name))]
            w.schema.contains_key((kind, name)) == w2.schema.contains_key((kind, name)),
    ensures
        unknown(w, kind, names) == unknown(w2, kind, names),
    decreases names.len(),
{
    if names.len() > 0 {
        lemma_unknown_same(w, w2, kind, names.drop_last());
        assert(w.schema.contains_key((kind, names.last())) == w2.schema.contains_key(
            (kind, names.last()),
        ));
    }
}

/// Where there is room for the names that are not known, for the uid of a new node and for one
/// sequence number, every step of a node upsert is within range.
pub proof fn law_room_for_a_node(
    w: WriterView,
    xid: Seq<u8>,
    stored: Option<Seq<u8>>,
    labels: Seq<Seq<char>>,
    props: Seq<(Seq<char>, ValueView)>,
    resolved: ResolutionView,
    prior: Result<Option<Seq<u8>>, ErrorView>,
)
    requires
        w.allocs.has_room(
            unknown(w, SchemaKind::Label, labels),
            0,
            unknown(w, SchemaKind::PropertyKey, model::names_of(props)),
            if stored is None {
                1
            } else {
                0
            },
        ),
    ensures
        ({
            let found = w.resolve(xid, stored).0;
            let drafted = found.draft_node(xid, labels, props, resolved, prior).0;
            &&& stored is None ==> w.allocs.uid.can_advance()
            &&& found.can_draft_node(labels, props)
            &&& drafted.allocs.seq.can_advance()
        }),
{
    let names = model::names_of(props);
    let found = w.resolve(xid, stored).0;
    let l = found.intern_all(SchemaKind::Label, labels).writer;
    lemma_unknown_same(w, found, SchemaKind::Label, labels);
    law_each_new_name_takes_one_id(found, SchemaKind::Label, labels);
    crate::write::lemma_intern_all(found, SchemaKind::Label, labels);
    law_each_new_name_takes_one_id(l, SchemaKind::PropertyKey, names);
    crate::write::lemma_intern_all(l, SchemaKind::PropertyKey, names);
    assert forall|name: Seq<char>|
        #![trigger w.schema.contains_key((SchemaKind::PropertyKey, name))]
        w.schema.contains_key((SchemaKind::PropertyKey, name)) == l.schema.contains_key(
            (SchemaKind::PropertyKey, name),
        ) by {
        lemma_known_after(found, SchemaKind::Label, labels, (SchemaKind::PropertyKey, name));
    }
    lemma_unknown_same(w, l, SchemaKind::PropertyKey, names);
}

/// How many of the two ends of an edge have no uid stored.
pub open spec fn new_ends(
    src_stored: Option<Seq<u8>>,
    dst_stored: Result<Option<Seq<u8>>, ErrorView>,
) -> nat {
    let src: nat = if src_stored is None {
        1
    } else {
        0
    };
    let dst: nat = if dst_stored matches Ok(None) {
        1
    } else {
        0
    };
    src + dst
}

/// Where there is room for the names that are not known, for the new ends and for one sequence
/// number, every step of an edge upsert is within range.
pub proof fn law_room_for_an_edge(
    w: WriterView,
    src_xid: Seq<u8>,
    src_stored: Option<Seq<u8>>,
    pred: Seq<char>,
    dst_xid: Seq<u8>,
    dst_stored: Result<Option<Seq<u8>>, ErrorView>,
    props: Seq<(Seq<char>, ValueView)>,
)
    requires
        w.allocs.has_room(
            0,
            unknown(w, SchemaKind::Predicate, seq![pred]),
            unknown(w, SchemaKind::PropertyKey, model::names_of(props)),
            new_ends(src_stored, dst_stored),
        ),
    ensures
        ({
            let drafted = w.draft_edge(src_xid, src_stored, pred, dst_xid, dst_stored).0;
            &&& w.can_resolve_ends(src_stored, dst_stored)
            &&& w.can_intern(SchemaKind::Predicate, pred)
            &&& drafted.can_intern_all(SchemaKind::PropertyKey, model::names_of(props))
            &&& drafted.allocs.seq.can_advance()
        }),
{
    let names = model::names_of(props);
    let drafted = w.draft_edge(src_xid, src_stored, pred, dst_xid, dst_stored).0;
    law_each_new_name_takes_one_id(drafted, SchemaKind::PropertyKey, names);
    lemma_unknown_same(w, drafted, SchemaKind::PropertyKey, names);
    assert(seq![pred].drop_last() =~= Seq::empty());
    assert(seq![pred].last() == pred);
    reveal_with_fuel(unknown, 2);
}

// ---------------------------------------------------------------------------
// External ids
// ---------------------------------------------------------------------------

/// An external id keeps its uid: once the operation that maps a new one is applied, what is stored
/// resolves to the same uid, for any writer, and takes no operation.
pub proof fn law_xid_is_stable(
    w: WriterView,
    xid: Seq<u8>,
    m: Map<KeyView, PayloadView>,
    later: WriterView,
)
    requires
        w.allocs.uid.can_advance(),
    ensures
        ({
            let (w1, r) = w.resolve(xid, None);
            &&& r matches Ok(found) && {
                let stored = store_laws::bytes_at(
                    store_laws::applied(m, found.ops),
                    KeyView::Xid(xid),
                );
                &&& stored is Some
                &&& model::mapped_uid(stored) == Ok::<Option<Uid>, ErrorView>(Some(found.uid))
                &&& later.resolve(xid, stored) == (
                    later,
                    Ok::<ResolutionView, ErrorView>(
                        ResolutionView { uid: found.uid, ops: Seq::empty(), places: Seq::empty() },
                    ),
                )
            }
        }),
{
    let found = w.resolve(xid, None).1->Ok_0;
    assert(found.ops.last() == OpView::Put {
        key: KeyView::Xid(xid),
        value: PayloadView::Raw(endian::be_bytes(w.allocs.uid.next, 8)),
    });
    fixed::law_fixed_round_trip(found.uid.0, 0, "Xid mapping");
    endian::lemma_be_bytes_len(w.allocs.uid.next, 8);
}

/// A new endpoint of an edge is a node: once its operations are applied, its external id is mapped
/// to its uid, and under the uid is a node that has the external id and nothing else.
pub proof fn law_new_endpoint_is_a_node(
    w: WriterView,
    xid: Seq<u8>,
    m: Map<KeyView, PayloadView>,
)
    requires
        w.allocs.uid.can_advance(),
    ensures
        w.resolve_and_stub(xid, None).1 matches Ok(r) ==> {
            let after = store_laws::applied(m, r.ops);
            &&& is_mapped(after, xid, r.uid)
            &&& is_stub(after, r.uid, xid)
        },
{
    if w.resolve_and_stub(xid, None).1 is Ok {
        let found = w.resolve(xid, None).1->Ok_0;
        let r = w.resolve_and_stub(xid, None).1->Ok_0;
        law_xid_is_stable(w, xid, m, w);
        assert(r.ops.drop_last() =~= found.ops);
        let n = model::stub(vstd::utf8::decode_utf8(xid));
        crate::write::lemma_stub_len(n.xid);
        codec_laws::law_capped_node_fits(n);
        codec_laws::law_node_round_trip(n);
    }
}

/// A new endpoint is never refused for its size unless its external id alone fills the cap.
pub proof fn law_stub_is_under_the_cap(w: WriterView, xid: Seq<u8>)
    requires
        w.allocs.uid.can_advance(),
        vstd::utf8::valid_utf8(xid),
        xid.len() + 8 <= node::DEFAULT_NODE_SIZE_CAP,
    ensures
        w.resolve_and_stub(xid, None).1 is Ok,
{
    let n = model::stub(vstd::utf8::decode_utf8(xid));
    vstd::utf8::decode_utf8_encode_utf8(xid);
    crate::write::lemma_stub_len(n.xid);
}

/// Uids go up: a new external id gets a uid above all that were handed out before.
pub proof fn law_uids_increase(w: WriterView, a: Seq<u8>, b: Seq<u8>)
    requires
        w.allocs.uid.next + 1 <= u64::MAX,
    ensures
        ({
            let (w1, first) = w.resolve(a, None);
            let (w2, second) = w1.resolve(b, None);
            &&& first is Ok
            &&& second is Ok
            &&& second->Ok_0.uid.0 == first->Ok_0.uid.0 + 1
        }),
{
}

/// Resolving an external id keeps a writer well-formed.
pub proof fn law_resolve_keeps_wf(w: WriterView, xid: Seq<u8>, stored: Option<Seq<u8>>)
    requires
        wf(w),
    ensures
        wf(w.resolve(xid, stored).0),
        wf(w.resolve_and_stub(xid, stored).0),
{
}

// ---------------------------------------------------------------------------
// Nodes
// ---------------------------------------------------------------------------

/// The labels of an upserted node are those that it had and the new ones, in ascending order
/// and none twice; those added are the new ones that it did not have.
pub proof fn law_merged_labels(
    prior: Option<NodeView>,
    labels: Seq<LabelId>,
    props: Map<PropId, ValueView>,
    xid: Seq<char>,
)
    ensures
        ({
            let n = merge::merged(prior, labels, props, xid);
            let d = merge::label_delta(prior, labels);
            &&& merge::ascending(n.labels)
            &&& merge::ascending(d.added)
            &&& d.removed == Seq::<LabelId>::empty()
            &&& forall|x: LabelId| #[trigger]
                n.labels.contains(x) == (merge::labels_before(prior).contains(x)
                    || labels.contains(x))
            &&& forall|x: LabelId| #[trigger]
                d.added.contains(x) == (labels.contains(x) && !merge::labels_before(
                    prior,
                ).contains(x))
        }),
{
    let before = merge::labels_before(prior);
    merge::lemma_ids_below(before.union(labels.to_set()), 0x1_0000_0000);
    merge::lemma_ids_below(labels.to_set().difference(before), 0x1_0000_0000);
}

/// Upserting a node again with the same labels and properties changes nothing about it.
pub proof fn law_merge_repeats(
    prior: Option<NodeView>,
    labels: Seq<LabelId>,
    props: Map<PropId, ValueView>,
    xid: Seq<char>,
)
    ensures
        ({
            let once = merge::merged(prior, labels, props, xid);
            &&& merge::merged(Some(once), labels, props, xid) == once
            &&& merge::label_delta(Some(once), labels).added == Seq::<LabelId>::empty()
        }),
{
    let once = merge::merged(prior, labels, props, xid);
    let before = merge::labels_before(prior);
    law_merged_labels(prior, labels, props, xid);
    let all = once.labels.to_set();
    assert forall|x: LabelId| all.contains(x) == (before.contains(x) || labels.contains(x)) by {
        assert(all.contains(x) == once.labels.contains(x));
    }
    assert(all.union(labels.to_set()) =~= all);
    merge::lemma_sorted_unique(once.labels);
    let none = labels.to_set().difference(all);
    assert(none =~= Set::empty());
    merge::lemma_ids_below(none, 0x1_0000_0000);
    let listed = merge::sorted_labels(none);
    if listed.len() > 0 {
        assert(listed.contains(listed[0]));
    }
    assert(listed =~= Seq::<LabelId>::empty());
    assert(once.props.union_prefer_right(props) =~= once.props);
}

/// A node that is upserted is read back: once the batch is applied, the store has the merged
/// record under the uid, the changelog entry under the sequence number, and the cursor there.
pub proof fn law_upserted_node_reads_back(
    w: WriterView,
    d: NodeDraftView,
    m: Map<KeyView, PayloadView>,
)
    requires
        wf(w),
        d.wf(),
        node::node_encodable(d.record),
        node::node_bytes(d.record).len() <= node::DEFAULT_NODE_SIZE_CAP,
    ensures
        ({
            &&& w.upsert_node(d).1 matches Ok(batch) && {
                let after = store_laws::applied(m, batch.ops);
                &&& batch.seqnum == w.next_seq()
                &&& model::read_node(store_laws::bytes_at(after, KeyView::Node(d.uid))) == Ok::<
                    Option<NodeView>,
                    ErrorView,
                >(Some(d.record))
                &&& is_logged(
                    batch,
                    m,
                    model::node_change(ChangeOp::UpsertNode, d.uid, Some(d.delta)),
                )
            }
        }),
{
    let put = model::node_put(d.uid, d.record)->Ok_0;
    let ops = d.ops.push(put);
    let c = model::node_change(ChangeOp::UpsertNode, d.uid, Some(d.delta));
    assert(ops.drop_last() =~= d.ops);
    law_commit_is_logged(w, ops, d.places, c, m);
    weave_laws::lemma_commit_keeps(w, ops, d.places, c, m, KeyView::Node(d.uid));
    codec_laws::law_capped_node_fits(d.record);
    codec_laws::law_node_round_trip(d.record);
}

/// Upserting a node writes no node record but its own, no edge's properties, and no external id
/// but those that its resolution records.
pub proof fn law_upsert_node_keeps_others(
    w: WriterView,
    d: NodeDraftView,
    m: Map<KeyView, PayloadView>,
    key: KeyView,
)
    requires
        wf(w),
        key is Node || key is EdgeProp || key is Xid,
        key != KeyView::Node(d.uid),
        store_laws::untouched(d.ops, key),
        w.upsert_node(d).1 is Ok,
    ensures
        store_laws::value_at(
            store_laws::applied(m, w.upsert_node(d).1->Ok_0.ops),
            key,
        ) == store_laws::value_at(m, key),
{
    let put = model::node_put(d.uid, d.record)->Ok_0;
    let ops = d.ops.push(put);
    let c = model::node_change(ChangeOp::UpsertNode, d.uid, Some(d.delta));
    weave_laws::lemma_commit_keeps(w, ops, d.places, c, m, key);
    assert(ops.drop_last() =~= d.ops);
    store_laws::law_untouched_stays(m, d.ops, key);
}

/// A new node is found under its external id: once the batch of its first upsert is applied, the
/// external id is mapped to the uid of the record.
pub proof fn law_new_node_is_found(
    w: WriterView,
    xid: Seq<u8>,
    labels: Seq<Seq<char>>,
    props: Seq<(Seq<char>, ValueView)>,
    prior: Result<Option<Seq<u8>>, ErrorView>,
    m: Map<KeyView, PayloadView>,
)
    requires
        wf(w),
        w.allocs.uid.can_advance(),
    ensures
        ({
            let (w1, r) = w.resolve(xid, None);
            let (w2, drafted) = w1.draft_node(xid, labels, props, r->Ok_0, prior);
            let (w3, batch) = w2.upsert_node(drafted->Ok_0);
            &&& r is Ok
            &&& drafted is Ok && batch is Ok ==> drafted->Ok_0.uid == r->Ok_0.uid
                && model::mapped_uid(
                store_laws::bytes_at(
                    store_laws::applied(m, batch->Ok_0.ops),
                    KeyView::Xid(xid),
                ),
            ) == Ok::<Option<Uid>, ErrorView>(Some(r->Ok_0.uid))
        }),
{
    let (w1, r) = w.resolve(xid, None);
    let (w2, drafted) = w1.draft_node(xid, labels, props, r->Ok_0, prior);
    let (w3, batch) = w2.upsert_node(drafted->Ok_0);
    if drafted is Ok && batch is Ok {
        let d = drafted->Ok_0;
        let key = KeyView::Xid(xid);
        let l = w1.intern_all(SchemaKind::Label, labels);
        let p = l.writer.intern_all(SchemaKind::PropertyKey, model::names_of(props));
        law_xid_is_stable(w, xid, m, w);
        law_intern_only_introduces(w1, SchemaKind::Label, labels);
        law_intern_only_introduces(l.writer, SchemaKind::PropertyKey, model::names_of(props));
        let put = model::node_put(d.uid, d.record)->Ok_0;
        assert(d.ops.push(put).drop_last() =~= r->Ok_0.ops);
        weave_laws::lemma_commit_keeps(
            w2,
            d.ops.push(put),
            d.places,
            model::node_change(ChangeOp::UpsertNode, d.uid, Some(d.delta)),
            m,
            key,
        );
    }
}

/// A node over the cap is refused, and neither a sequence number nor anything else is used up.
pub proof fn law_oversize_node_refused(w: WriterView, d: NodeDraftView)
    requires
        node::node_bytes(d.record).len() > node::DEFAULT_NODE_SIZE_CAP,
    ensures
        w.upsert_node(d) == (
            w,
            Err::<BatchView, ErrorView>(
                ErrorView::OversizeNode {
                    size: node::node_bytes(d.record).len() as usize,
                    cap: node::DEFAULT_NODE_SIZE_CAP,
                },
            ),
        ),
{
}

/// A failed upsert uses up no sequence number and moves no cursor.
pub proof fn law_failed_draft_keeps_sequence(
    w: WriterView,
    xid: Seq<u8>,
    labels: Seq<Seq<char>>,
    props: Seq<(Seq<char>, ValueView)>,
    resolved: ResolutionView,
    prior: Result<Option<Seq<u8>>, ErrorView>,
)
    ensures
        ({
            let w1 = w.draft_node(xid, labels, props, resolved, prior).0;
            &&& w1.allocs.seq == w.allocs.seq
            &&& w1.latest_seq == w.latest_seq
        }),
{
    let l = w.intern_all(SchemaKind::Label, labels);
    crate::write::lemma_intern_all(w, SchemaKind::Label, labels);
    crate::write::lemma_intern_all(l.writer, SchemaKind::PropertyKey, model::names_of(props));
}

/// Node upserts keep a writer well-formed.
pub proof fn law_upsert_node_keeps_wf(
    w: WriterView,
    xid: Seq<u8>,
    labels: Seq<Seq<char>>,
    props: Seq<(Seq<char>, ValueView)>,
    resolved: ResolutionView,
    prior: Result<Option<Seq<u8>>, ErrorView>,
    d: NodeDraftView,
)
    requires
        wf(w),
        w.can_draft_node(labels, props),
    ensures
        wf(w.draft_node(xid, labels, props, resolved, prior).0),
        wf(w.upsert_node(d).0),
{
    let l = w.intern_all(SchemaKind::Label, labels);
    law_intern_all_keeps_wf(w, SchemaKind::Label, labels);
    crate::write::lemma_intern_all(w, SchemaKind::Label, labels);
    law_intern_all_keeps_wf(l.writer, SchemaKind::PropertyKey, model::names_of(props));
}

// ---------------------------------------------------------------------------
// Edges
// ---------------------------------------------------------------------------

/// Named values that fit can be encoded as the properties of an edge, whatever ids their names get.
pub proof fn law_named_values_are_encodable(w: WriterView, props: Seq<(Seq<char>, ValueView)>)
    requires
        model::named_fit(props),
    ensures
        props::props_encodable(w.edge_props(props)),
{
    let names = model::names_of(props);
    let ids = w.intern_all(SchemaKind::PropertyKey, names).ids;
    crate::write::lemma_intern_all(w, SchemaKind::PropertyKey, names);
    lemma_keyed_size(ids, props);
    endian::lemma_le_bytes_len(w.edge_props(props).len(), 2);
}

proof fn lemma_keyed_size(ids: Seq<u32>, props: Seq<(Seq<char>, ValueView)>)
    requires
        ids.len() == props.len(),
    ensures
        ({
            let m = model::keyed(ids, model::values_of(props));
            &&& m.dom().finite()
            &&& m.len() <= props.len()
            &&& props::pairs_bytes(props::sorted_entries(m)).len() <= model::named_len(props)
        }),
    decreases props.len(),
{
    let values = model::values_of(props);
    let pairs = Seq::new(ids.len(), |i: int| (ids[i], values[i]));
    if props.len() == 0 {
        assert(pairs =~= Seq::empty());
        props::lemma_empty_props_len();
        endian::lemma_le_bytes_len(0, 2);
    } else {
        let less = props.drop_last();
        lemma_keyed_size(ids.drop_last(), less);
        let lower = Seq::new(
            ids.drop_last().len(),
            |i: int| (ids.drop_last()[i], model::values_of(less)[i]),
        );
        assert(pairs.drop_last() =~= lower);
        let m = model::keyed(ids.drop_last(), model::values_of(less));
        let (k, v) = pairs.last();
        props::lemma_insert_size(m, k, v);
        endian::lemma_le_bytes_len(k as nat, 4);
        assert(v == props.last().1);
    }
}

/// An edge upsert with no properties is a plain one.
pub proof fn law_no_props_is_plain(
    w: WriterView,
    d: EdgeDraftView,
    out_ops: Seq<OpView>,
    in_ops: Seq<OpView>,
)
    ensures
        w.upsert_edge_with_props(d, out_ops, in_ops, Seq::empty()) == w.upsert_edge(
            d,
            out_ops,
            in_ops,
        ),
{
    let none = Seq::<(Seq<char>, ValueView)>::empty();
    let p = w.intern_all(SchemaKind::PropertyKey, model::names_of(none));
    let pairs = Seq::new(p.ids.len(), |i: int| (p.ids[i], model::values_of(none)[i]));
    assert(pairs =~= Seq::empty());
}

/// The properties that an edge is upserted with are read back.
pub proof fn law_edge_props_read_back(
    w: WriterView,
    d: EdgeDraftView,
    out_ops: Seq<OpView>,
    in_ops: Seq<OpView>,
    props: Seq<(Seq<char>, ValueView)>,
    m: Map<KeyView, PayloadView>,
)
    requires
        wf(w),
        props.len() > 0,
        codec_laws::props_fit(w.edge_props(props)),
    ensures
        model::read_edge_props(
            store_laws::bytes_at(
                store_laws::applied(
                    m,
                    w.upsert_edge_with_props(d, out_ops, in_ops, props).1.ops,
                ),
                KeyView::EdgeProp(d.src, d.pred, d.dst),
            ),
        ) == Ok::<Option<Map<PropId, ValueView>>, ErrorView>(Some(w.edge_props(props))),
{
    let p = w.intern_all(SchemaKind::PropertyKey, model::names_of(props));
    let held = w.edge_props(props);
    lemma_some_props(w, props);
    law_intern_only_introduces(w, SchemaKind::PropertyKey, model::names_of(props));
    let ops = model::edge_ops(d, out_ops, in_ops, held);
    let key = KeyView::EdgeProp(d.src, d.pred, d.dst);
    let c = model::edge_change(ChangeOp::UpsertEdge, d.src, d.pred, d.dst);
    let fresh = (p.writer.owed.len() - w.owed.len()) as nat;
    let places = model::edge_places(d, out_ops, in_ops, fresh);
    weave_laws::lemma_commit_keeps(p.writer, ops, places, c, m, key);
    assert(ops.last() == model::edge_prop_put(d.src, d.pred, d.dst, held));
    codec_laws::law_edge_props_round_trip(held);
}

/// One property or more makes a map that is not empty.
pub proof fn lemma_some_props(w: WriterView, props: Seq<(Seq<char>, ValueView)>)
    requires
        props.len() > 0,
    ensures
        !w.edge_props(props).is_empty(),
{
    let names = model::names_of(props);
    let p = w.intern_all(SchemaKind::PropertyKey, names);
    crate::write::lemma_intern_all(w, SchemaKind::PropertyKey, names);
    let values = model::values_of(props);
    let pairs = Seq::new(p.ids.len(), |i: int| (p.ids[i], values[i]));
    assert(w.edge_props(props).contains_key(pairs.last().0));
}

/// An edge's properties stay through every write that does not name them: a plain upsert leaves
/// the properties of every edge, this one's too, given that nothing else in the batch writes
/// them.
pub proof fn law_plain_upsert_keeps_props(
    w: WriterView,
    d: EdgeDraftView,
    out_ops: Seq<OpView>,
    in_ops: Seq<OpView>,
    m: Map<KeyView, PayloadView>,
    src: Uid,
    pred: PredId,
    dst: Uid,
)
    requires
        wf(w),
        store_laws::untouched(d.ops, KeyView::EdgeProp(src, pred, dst)),
        store_laws::untouched(out_ops, KeyView::EdgeProp(src, pred, dst)),
        store_laws::untouched(in_ops, KeyView::EdgeProp(src, pred, dst)),
    ensures
        store_laws::value_at(
            store_laws::applied(m, w.upsert_edge(d, out_ops, in_ops).1.ops),
            KeyView::EdgeProp(src, pred, dst),
        ) == store_laws::value_at(m, KeyView::EdgeProp(src, pred, dst)),
{
    let key = KeyView::EdgeProp(src, pred, dst);
    let ops = model::edge_ops(d, out_ops, in_ops, Map::empty());
    let c = model::edge_change(ChangeOp::UpsertEdge, d.src, d.pred, d.dst);
    let places = model::edge_places(d, out_ops, in_ops, 0);
    weave_laws::lemma_commit_keeps(w, ops, places, c, m, key);
    assert(store_laws::untouched(ops, key));
    store_laws::law_untouched_stays(m, ops, key);
}

/// Giving an edge's endpoints and predicate their ids writes no edge's properties.
pub proof fn law_draft_edge_writes_no_props(
    w: WriterView,
    src_xid: Seq<u8>,
    src_stored: Option<Seq<u8>>,
    pred: Seq<char>,
    dst_xid: Seq<u8>,
    dst_stored: Result<Option<Seq<u8>>, ErrorView>,
    key: KeyView,
)
    requires
        key is EdgeProp,
    ensures
        w.draft_edge(src_xid, src_stored, pred, dst_xid, dst_stored).1 matches Ok(d)
            ==> store_laws::untouched(d.ops, key),
{
}

/// Operations on postings, and on nothing else.
pub open spec fn on_postings(ops: Seq<OpView>) -> bool {
    forall|i: int|
        0 <= i < ops.len() ==> match #[trigger] ops[i] {
            OpView::Put { key, .. } => key is Raw,
            OpView::Merge { key, .. } => key is Raw,
            OpView::Delete { key } => key is Raw,
            _ => false,
        }
}

/// New endpoints of an edge are nodes: once the batch of the edge is applied, each of them that was
/// not mapped before has a node that holds its external id and nothing else, and the external id
/// is mapped to it. (A new external id on both ends is mapped to the uid of the target.)
pub proof fn law_new_endpoints_are_nodes(
    w: WriterView,
    src_xid: Seq<u8>,
    src_stored: Option<Seq<u8>>,
    pred: Seq<char>,
    dst_xid: Seq<u8>,
    dst_stored: Option<Seq<u8>>,
    out_ops: Seq<OpView>,
    in_ops: Seq<OpView>,
    props: Seq<(Seq<char>, ValueView)>,
    m: Map<KeyView, PayloadView>,
)
    requires
        wf(w),
        w.can_resolve_ends(src_stored, Ok(dst_stored)),
        w.draft_edge(src_xid, src_stored, pred, dst_xid, Ok(dst_stored)).1 is Ok,
        on_postings(out_ops),
        on_postings(in_ops),
    ensures
        ({
            let (w1, drafted) = w.draft_edge(
                src_xid,
                src_stored,
                pred,
                dst_xid,
                Ok(dst_stored),
            );
            let d = drafted->Ok_0;
            let after = store_laws::applied(
                m,
                w1.upsert_edge_with_props(d, out_ops, in_ops, props).1.ops,
            );
            &&& src_stored is None ==> is_stub(after, d.src, src_xid)
            &&& dst_stored is None ==> is_stub(after, d.dst, dst_xid)
            &&& dst_stored is None ==> is_mapped(after, dst_xid, d.dst)
            &&& src_stored is None && (src_xid != dst_xid || dst_stored is Some) ==> is_mapped(
                after,
                src_xid,
                d.src,
            )
        }),
{
    let (w1, drafted) = w.draft_edge(src_xid, src_stored, pred, dst_xid, Ok(dst_stored));
    let d = drafted->Ok_0;
    let (ws, s) = w.resolve_and_stub(src_xid, src_stored);
    let (wt, t) = ws.resolve_and_stub(dst_xid, dst_stored);
    let first = s->Ok_0.ops;
    let second = t->Ok_0.ops;
    assert(introduces(w1.owed)) by {
        assert(introduces(ws.owed));
        assert(introduces(wt.owed));
        lemma_intern_owes(wt, SchemaKind::Predicate, pred);
    }
    let i = w1.intern_all(SchemaKind::PropertyKey, model::names_of(props)).writer;
    law_intern_only_introduces(w1, SchemaKind::PropertyKey, model::names_of(props));
    let held = w1.edge_props(props);
    let ops = model::edge_ops(d, out_ops, in_ops, held);
    let rest = ops.skip((first.len() + second.len()) as int);
    assert(ops =~= first + second + rest);
    let c = model::edge_change(ChangeOp::UpsertEdge, d.src, d.pred, d.dst);
    let fresh = (i.owed.len() - w1.owed.len()) as nat;
    let places = model::edge_places(d, out_ops, in_ops, fresh);
    let m1 = store_laws::applied(m, first);
    let m2 = store_laws::applied(m1, second);
    store_laws::law_applied_in_order(m, first, second);
    store_laws::law_applied_in_order(m, first + second, rest);
    assert forall|key: KeyView| key is Node || key is Xid implies #[trigger] store_laws::value_at(
        store_laws::applied(m, i.commit(ops, places, c).1.ops),
        key,
    ) == store_laws::value_at(m2, key) by {
        weave_laws::lemma_commit_keeps(i, ops, places, c, m, key);
        lemma_edge_tail_untouched(d, out_ops, in_ops, held, first.len() + second.len(), key);
        store_laws::law_untouched_stays(m2, rest, key);
    }
    if dst_stored is None {
        law_new_endpoint_is_a_node(ws, dst_xid, m1);
    }
    if src_stored is None {
        law_new_endpoint_is_a_node(w, src_xid, m);
        assert(store_laws::untouched(second, KeyView::Node(d.src)));
        store_laws::law_untouched_stays(m1, second, KeyView::Node(d.src));
        if src_xid != dst_xid || dst_stored is Some {
            assert(store_laws::untouched(second, KeyView::Xid(src_xid)));
            store_laws::law_untouched_stays(m1, second, KeyView::Xid(src_xid));
        }
    }
}

proof fn lemma_edge_tail_untouched(
    d: EdgeDraftView,
    out_ops: Seq<OpView>,
    in_ops: Seq<OpView>,
    held: Map<PropId, ValueView>,
    n: nat,
    key: KeyView,
)
    requires
        on_postings(out_ops),
        on_postings(in_ops),
        n == d.ops.len(),
        key is Node || key is Xid,
    ensures
        store_laws::untouched(model::edge_ops(d, out_ops, in_ops, held).skip(n as int), key),
{
    let ops = model::edge_ops(d, out_ops, in_ops, held);
    let bumps = model::degree_ops(d.src, d.pred, d.dst, 1);
    let rest = ops.skip(n as int);
    let tail = if held.is_empty() {
        Seq::<OpView>::empty()
    } else {
        seq![model::edge_prop_put(d.src, d.pred, d.dst, held)]
    };
    assert(rest =~= out_ops + in_ops + bumps + tail);
    let a = out_ops.len() as int;
    let b = a + in_ops.len();
    assert forall|i: int| 0 <= i < rest.len() implies !store_laws::writes(
        #[trigger] rest[i],
        key,
    ) by {
        if i < a {
            assert(rest[i] == out_ops[i]);
        } else if i < b {
            assert(rest[i] == in_ops[i - a]);
        }
    }
}

/// Whether the store has, under a uid, a node that holds an external id and nothing else.
pub open spec fn is_stub(m: Map<KeyView, PayloadView>, uid: Uid, xid: Seq<u8>) -> bool {
    model::read_node(store_laws::bytes_at(m, KeyView::Node(uid))) == Ok::<Option<NodeView>, ErrorView>(
        Some(model::stub(vstd::utf8::decode_utf8(xid))),
    )
}

/// Whether the store maps an external id to a uid.
pub open spec fn is_mapped(m: Map<KeyView, PayloadView>, xid: Seq<u8>, uid: Uid) -> bool {
    model::mapped_uid(store_laws::bytes_at(m, KeyView::Xid(xid))) == Ok::<Option<Uid>, ErrorView>(
        Some(uid),
    )
}

/// Deleting an edge removes its properties.
pub proof fn law_deleted_edge_has_no_props(
    w: WriterView,
    src_stored: Option<Seq<u8>>,
    pred: Seq<char>,
    dst_stored: Option<Seq<u8>>,
    m: Map<KeyView, PayloadView>,
)
    requires
        wf(w),
        w.delete_edge(src_stored, pred, dst_stored).1 matches Ok(StepView::Apply(_)),
    ensures
        ({
            let batch = w.delete_edge(src_stored, pred, dst_stored).1->Ok_0->Apply_0;
            let src = model::mapped_uid(src_stored)->Ok_0->Some_0;
            let dst = model::mapped_uid(dst_stored)->Ok_0->Some_0;
            let id = PredId(w.schema[(SchemaKind::Predicate, pred)]);
            store_laws::value_at(
                store_laws::applied(m, batch.ops),
                KeyView::EdgeProp(src, id, dst),
            ) is None
        }),
{
    let src = model::mapped_uid(src_stored)->Ok_0->Some_0;
    let dst = model::mapped_uid(dst_stored)->Ok_0->Some_0;
    let id = PredId(w.schema[(SchemaKind::Predicate, pred)]);
    let ops = model::delete_edge_ops(src, id, dst);
    let c = model::edge_change(ChangeOp::DeleteEdge, src, id, dst);
    weave_laws::lemma_commit_keeps(
        w,
        ops,
        Seq::empty(),
        c,
        m,
        KeyView::EdgeProp(src, id, dst),
    );
    assert(ops.last() == OpView::Delete { key: KeyView::EdgeProp(src, id, dst) });
}

/// An edge goes into the store as one batch under one sequence number: the operations that were
/// prepared, the postings of both ends, both degrees and the properties follow on each other in it,
/// everything that is owed is in it too, and once it is applied the changelog and the cursor tell
/// of it.
pub proof fn law_edge_is_one_batch(
    w: WriterView,
    d: EdgeDraftView,
    out_ops: Seq<OpView>,
    in_ops: Seq<OpView>,
    props: Seq<(Seq<char>, ValueView)>,
    m: Map<KeyView, PayloadView>,
)
    requires
        wf(w),
        weave_laws::no_records(d.ops),
        on_postings(out_ops),
        on_postings(in_ops),
    ensures
        ({
            let batch = w.upsert_edge_with_props(d, out_ops, in_ops, props).1;
            let c = model::edge_change(ChangeOp::UpsertEdge, d.src, d.pred, d.dst);
            let owed = w.intern_all(
                SchemaKind::PropertyKey,
                model::names_of(props),
            ).writer.owed_with_seq();
            &&& batch.seqnum == w.next_seq()
            &&& weave_laws::rest_of(batch.ops) == model::edge_ops(
                d,
                out_ops,
                in_ops,
                w.edge_props(props),
            ) + model::log_ops(batch.seqnum, c)
            &&& weave_laws::records_in(batch.ops) == owed
            &&& is_logged(batch, m, c)
        }),
{
    let i = w.intern_all(SchemaKind::PropertyKey, model::names_of(props));
    crate::write::lemma_intern_all(w, SchemaKind::PropertyKey, model::names_of(props));
    law_intern_only_introduces(w, SchemaKind::PropertyKey, model::names_of(props));
    let held = w.edge_props(props);
    let ops = model::edge_ops(d, out_ops, in_ops, held);
    let fresh = (i.writer.owed.len() - w.owed.len()) as nat;
    let places = model::edge_places(d, out_ops, in_ops, fresh);
    let c = model::edge_change(ChangeOp::UpsertEdge, d.src, d.pred, d.dst);
    law_commit_is_logged(i.writer, ops, places, c, m);
    assert forall|k: int| 0 <= k < ops.len() implies !weave_laws::is_record(#[trigger] ops[k]) by {
        let a = d.ops.len() as int;
        let b = a + out_ops.len();
        let e = b + in_ops.len();
        if k < a {
            assert(ops[k] == d.ops[k]);
        } else if k < b {
            assert(ops[k] == out_ops[k - a]);
        } else if k < e {
            assert(ops[k] == in_ops[k - b]);
        } else if k < e + 2 {
            assert(ops[k] == model::degree_ops(d.src, d.pred, d.dst, 1)[k - e]);
        }
    }
    weave_laws::law_batch_holds_what_is_owed(i.writer, ops, places, c);
}

// ---------------------------------------------------------------------------
// Degrees
// ---------------------------------------------------------------------------

/// What two bumps of an edge's ends add to a counter.
pub open spec fn degree_change(
    src: Uid,
    pred: PredId,
    dst: Uid,
    delta: i64,
    p: PredId,
    dir: Direction,
    anchor: Uid,
) -> int {
    if p == pred && ((dir == Direction::Out && anchor == src) || (dir == Direction::In && anchor
        == dst)) {
        delta as int
    } else {
        0
    }
}

pub proof fn lemma_degree_ops(
    src: Uid,
    pred: PredId,
    dst: Uid,
    delta: i64,
    p: PredId,
    dir: Direction,
    anchor: Uid,
)
    ensures
        store_laws::counted(
            model::degree_ops(src, pred, dst, delta),
            KeyView::Meta(store::degree_name(p, dir, anchor)),
        ) == degree_change(src, pred, dst, delta, p, dir, anchor),
{
    let key = KeyView::Meta(store::degree_name(p, dir, anchor));
    let ops = model::degree_ops(src, pred, dst, delta);
    fixed::law_fixed_round_trip(0, delta, "operand");
    if store::degree_name(p, dir, anchor) == store::degree_name(pred, Direction::Out, src) {
        store_laws::law_degree_name_injective(p, dir, anchor, pred, Direction::Out, src);
    }
    if store::degree_name(p, dir, anchor) == store::degree_name(pred, Direction::In, dst) {
        store_laws::law_degree_name_injective(p, dir, anchor, pred, Direction::In, dst);
    }
    reveal_with_fuel(store_laws::counted, 3);
    assert(ops.drop_last() =~= seq![ops[0]]);
    assert(seq![ops[0]].drop_last() =~= Seq::empty());
    assert(ops.last() == ops[1]);
}

pub proof fn lemma_puts_count_nothing(ops: Seq<OpView>, key: KeyView)
    requires
        forall|i: int| 0 <= i < ops.len() ==> !(#[trigger] ops[i] is Merge),
    ensures
        store_laws::counted(ops, key) == 0,
    decreases ops.len(),
{
    if ops.len() > 0 {
        let before = ops.drop_last();
        assert forall|i: int| 0 <= i < before.len() implies !(#[trigger] before[i] is Merge) by {
            assert(before[i] == ops[i]);
        }
        lemma_puts_count_nothing(before, key);
        assert(!(ops[ops.len() - 1] is Merge));
    }
}

/// An edge upsert adds one to the degree of its source and one to that of its target, and to no
/// other degree: the rest of the batch counts as it did.
pub proof fn law_upsert_edge_counts(
    w: WriterView,
    d: EdgeDraftView,
    out_ops: Seq<OpView>,
    in_ops: Seq<OpView>,
    props: Seq<(Seq<char>, ValueView)>,
    p: PredId,
    dir: Direction,
    anchor: Uid,
)
    requires
        wf(w),
    ensures
        ({
            let key = KeyView::Meta(store::degree_name(p, dir, anchor));
            store_laws::counted(
                w.upsert_edge_with_props(d, out_ops, in_ops, props).1.ops,
                key,
            ) == store_laws::counted(d.ops + out_ops + in_ops, key) + degree_change(
                d.src,
                d.pred,
                d.dst,
                1,
                p,
                dir,
                anchor,
            )
        }),
{
    let key = KeyView::Meta(store::degree_name(p, dir, anchor));
    let i = w.intern_all(SchemaKind::PropertyKey, model::names_of(props));
    let held = w.edge_props(props);
    let bumps = model::degree_ops(d.src, d.pred, d.dst, 1);
    let given = d.ops + out_ops + in_ops;
    let ops = model::edge_ops(d, out_ops, in_ops, held);
    law_intern_only_introduces(w, SchemaKind::PropertyKey, model::names_of(props));
    let fresh = (i.writer.owed.len() - w.owed.len()) as nat;
    weave_laws::lemma_commit_counts_nothing(
        i.writer,
        ops,
        model::edge_places(d, out_ops, in_ops, fresh),
        model::edge_change(ChangeOp::UpsertEdge, d.src, d.pred, d.dst),
        key,
    );
    lemma_degree_ops(d.src, d.pred, d.dst, 1, p, dir, anchor);
    store_laws::law_counted_in_order(given, bumps, key);
    if !held.is_empty() {
        let rest = seq![model::edge_prop_put(d.src, d.pred, d.dst, held)];
        assert(ops =~= given + bumps + rest);
        lemma_puts_count_nothing(rest, key);
        store_laws::law_counted_in_order(given + bumps, rest, key);
    }
}

/// Deleting an edge takes one off the degree of its source and one off that of its target, and
/// off no other degree.
pub proof fn law_delete_edge_counts(
    w: WriterView,
    src_stored: Option<Seq<u8>>,
    pred: Seq<char>,
    dst_stored: Option<Seq<u8>>,
    p: PredId,
    dir: Direction,
    anchor: Uid,
)
    requires
        wf(w),
        w.delete_edge(src_stored, pred, dst_stored).1 matches Ok(StepView::Apply(_)),
    ensures
        ({
            let batch = w.delete_edge(src_stored, pred, dst_stored).1->Ok_0->Apply_0;
            let src = model::mapped_uid(src_stored)->Ok_0->Some_0;
            let dst = model::mapped_uid(dst_stored)->Ok_0->Some_0;
            let id = PredId(w.schema[(SchemaKind::Predicate, pred)]);
            store_laws::counted(batch.ops, KeyView::Meta(store::degree_name(p, dir, anchor)))
                == degree_change(src, id, dst, -1i64, p, dir, anchor)
        }),
{
    let key = KeyView::Meta(store::degree_name(p, dir, anchor));
    let src = model::mapped_uid(src_stored)->Ok_0->Some_0;
    let dst = model::mapped_uid(dst_stored)->Ok_0->Some_0;
    let id = PredId(w.schema[(SchemaKind::Predicate, pred)]);
    let ops = model::delete_edge_ops(src, id, dst);
    let bumps = model::degree_ops(src, id, dst, -1i64);
    let first = ops.take(2);
    let last = ops.skip(4);
    weave_laws::lemma_commit_counts_nothing(
        w,
        ops,
        Seq::empty(),
        model::edge_change(ChangeOp::DeleteEdge, src, id, dst),
        key,
    );
    lemma_degree_ops(src, id, dst, -1i64, p, dir, anchor);
    assert(ops =~= first + bumps + last);
    lemma_puts_count_nothing(first, key);
    lemma_puts_count_nothing(last, key);
    store_laws::law_counted_in_order(first, bumps, key);
    store_laws::law_counted_in_order(first + bumps, last, key);
}

/// Upserting an edge and deleting it again brings every degree back to where it was, provided
/// nothing else in the upsert counts.
pub proof fn law_upsert_then_delete_nets_zero(
    w: WriterView,
    d: EdgeDraftView,
    out_ops: Seq<OpView>,
    in_ops: Seq<OpView>,
    props: Seq<(Seq<char>, ValueView)>,
    later: WriterView,
    src_stored: Option<Seq<u8>>,
    pred: Seq<char>,
    dst_stored: Option<Seq<u8>>,
    p: PredId,
    dir: Direction,
    anchor: Uid,
)
    requires
        wf(w),
        store_laws::counted(
            d.ops + out_ops + in_ops,
            KeyView::Meta(store::degree_name(p, dir, anchor)),
        ) == 0,
        model::mapped_uid(src_stored) == Ok::<Option<Uid>, ErrorView>(Some(d.src)),
        model::mapped_uid(dst_stored) == Ok::<Option<Uid>, ErrorView>(Some(d.dst)),
        wf(later),
        later.schema.contains_key((SchemaKind::Predicate, pred)),
        later.schema[(SchemaKind::Predicate, pred)] == d.pred.0,
    ensures
        ({
            let key = KeyView::Meta(store::degree_name(p, dir, anchor));
            let made = w.upsert_edge_with_props(d, out_ops, in_ops, props).1.ops;
            let gone = later.delete_edge(src_stored, pred, dst_stored).1->Ok_0->Apply_0.ops;
            store_laws::counted(made + gone, key) == 0
        }),
{
    let key = KeyView::Meta(store::degree_name(p, dir, anchor));
    law_upsert_edge_counts(w, d, out_ops, in_ops, props, p, dir, anchor);
    law_delete_edge_counts(later, src_stored, pred, dst_stored, p, dir, anchor);
    store_laws::law_counted_in_order(
        w.upsert_edge_with_props(d, out_ops, in_ops, props).1.ops,
        later.delete_edge(src_stored, pred, dst_stored).1->Ok_0->Apply_0.ops,
        key,
    );
}

// ---------------------------------------------------------------------------
// Deletions
// ---------------------------------------------------------------------------

/// Deleting what is not there changes nothing and writes nothing: the cursor is the answer.
pub proof fn law_delete_of_unknown_is_no_op(
    w: WriterView,
    stored: Option<Seq<u8>>,
    pred: Seq<char>,
    other: Option<Seq<u8>>,
)
    requires
        model::mapped_uid(other) is Ok,
        model::mapped_uid(stored) is Ok,
    ensures
        w.delete_node(None) == (w, Ok::<StepView, ErrorView>(StepView::Done(w.latest_seq))),
        w.delete_edge(None, pred, other) == (
            w,
            Ok::<StepView, ErrorView>(StepView::Done(w.latest_seq)),
        ),
        w.delete_edge(other, pred, None) == (
            w,
            Ok::<StepView, ErrorView>(StepView::Done(w.latest_seq)),
        ),
        !w.schema.contains_key((SchemaKind::Predicate, pred)) ==> w.delete_edge(
            stored,
            pred,
            other,
        ) == (w, Ok::<StepView, ErrorView>(StepView::Done(w.latest_seq))),
{
}

/// The deletion of a node is one batch under one sequence number: it marks the node, and once it is
/// applied the changelog and the cursor tell of it.
pub proof fn law_node_deletion_is_logged(
    w: WriterView,
    stored: Option<Seq<u8>>,
    m: Map<KeyView, PayloadView>,
)
    requires
        w.delete_node(stored).1 matches Ok(StepView::Apply(_)),
    ensures
        ({
            let batch = w.delete_node(stored).1->Ok_0->Apply_0;
            let uid = model::mapped_uid(stored)->Ok_0->Some_0;
            &&& batch.ops[w.owed.len() as int] == OpView::DeleteNode { uid }
            &&& is_logged(batch, m, model::node_change(ChangeOp::DeleteNode, uid, None))
        }),
{
    let uid = model::mapped_uid(stored)->Ok_0->Some_0;
    law_commit_is_logged(
        w,
        seq![OpView::DeleteNode { uid }],
        Seq::empty(),
        model::node_change(ChangeOp::DeleteNode, uid, None),
        m,
    );
}

/// The deletion of an edge is one batch under one sequence number: it marks the edge as seen from
/// either end, and once it is applied the changelog and the cursor tell of it.
pub proof fn law_edge_deletion_is_logged(
    w: WriterView,
    src_stored: Option<Seq<u8>>,
    pred: Seq<char>,
    dst_stored: Option<Seq<u8>>,
    m: Map<KeyView, PayloadView>,
)
    requires
        w.delete_edge(src_stored, pred, dst_stored).1 matches Ok(StepView::Apply(_)),
    ensures
        ({
            let batch = w.delete_edge(src_stored, pred, dst_stored).1->Ok_0->Apply_0;
            let src = model::mapped_uid(src_stored)->Ok_0->Some_0;
            let dst = model::mapped_uid(dst_stored)->Ok_0->Some_0;
            let id = PredId(w.schema[(SchemaKind::Predicate, pred)]);
            let o = w.owed.len() as int;
            &&& batch.ops[o] == OpView::DeleteEdge { pred: id, anchor: src, other: dst }
            &&& batch.ops[o + 1] == OpView::DeleteEdge { pred: id, anchor: dst, other: src }
            &&& is_logged(batch, m, model::edge_change(ChangeOp::DeleteEdge, src, id, dst))
        }),
{
    let src = model::mapped_uid(src_stored)->Ok_0->Some_0;
    let dst = model::mapped_uid(dst_stored)->Ok_0->Some_0;
    let id = PredId(w.schema[(SchemaKind::Predicate, pred)]);
    law_commit_is_logged(
        w,
        model::delete_edge_ops(src, id, dst),
        Seq::empty(),
        model::edge_change(ChangeOp::DeleteEdge, src, id, dst),
        m,
    );
}

/// Edge upserts, deletions and reports keep a writer well-formed.
pub proof fn law_edges_and_deletions_keep_wf(
    w: WriterView,
    src_xid: Seq<u8>,
    src_stored: Option<Seq<u8>>,
    pred: Seq<char>,
    dst_xid: Seq<u8>,
    dst_read: Result<Option<Seq<u8>>, ErrorView>,
    dst_stored: Option<Seq<u8>>,
    d: EdgeDraftView,
    out_ops: Seq<OpView>,
    in_ops: Seq<OpView>,
    props: Seq<(Seq<char>, ValueView)>,
    seq: u64,
    applied: Result<(), ErrorView>,
)
    requires
        wf(w),
        w.can_intern(SchemaKind::Predicate, pred),
        w.can_intern_all(SchemaKind::PropertyKey, model::names_of(props)),
        seq <= w.allocs.seq.next,
    ensures
        wf(w.draft_edge(src_xid, src_stored, pred, dst_xid, dst_read).0),
        wf(w.upsert_edge(d, out_ops, in_ops).0),
        wf(w.upsert_edge_with_props(d, out_ops, in_ops, props).0),
        wf(w.delete_node(src_stored).0),
        wf(w.delete_edge(src_stored, pred, dst_stored).0),
        wf(w.settle(seq, applied)),
{
    let w1 = w.resolve_and_stub(src_xid, src_stored).0;
    law_resolve_keeps_wf(w, src_xid, src_stored);
    if dst_read is Ok {
        let stored = dst_read->Ok_0;
        law_resolve_keeps_wf(w1, dst_xid, stored);
        law_intern_keeps_wf(
            w1.resolve_and_stub(dst_xid, stored).0,
            SchemaKind::Predicate,
            pred,
        );
    }
    law_intern_all_keeps_wf(w, SchemaKind::PropertyKey, model::names_of(props));
}

} // verus!
