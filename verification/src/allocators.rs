//! The id spaces of a graph: one allocator hands every id out once, in ascending order, from
//! blocks. A block is reserved by an operation that the caller has to bring into the store no
//! later than anything that uses an id of it.

use bytes::Bytes;
use common::SequenceAllocator;
use vstd::prelude::*;

use crate::buffer;
use crate::endian;
use crate::ids::{LabelId, PredId, PropId, SchemaKind, Uid};

verus! {

/// `common::SequenceAllocator`, seen through [`allocator_next`], [`allocator_end`] and
/// [`allocator_key`].
#[verifier::external_type_specification]
#[verifier::external_body]
pub struct ExSequenceAllocator(common::SequenceAllocator);

/// The number that the allocator hands out next.
pub uninterp spec fn allocator_next(a: SequenceAllocator) -> u64;

/// The end of the block that the allocator has reserved, 0 before the first one.
pub uninterp spec fn allocator_end(a: SequenceAllocator) -> u64;

/// The key under which the allocator's block is stored.
pub uninterp spec fn allocator_key(a: SequenceAllocator) -> Seq<u8>;

/// How many numbers a block reserves.
pub open spec fn block_size() -> nat {
    4096
}

/// The state of one id space.
pub struct SpaceView {
    pub key: Seq<u8>,
    pub next: nat,
    pub end: nat,
}

/// The state of an allocator.
pub open spec fn space_of(a: SequenceAllocator) -> SpaceView {
    SpaceView {
        key: allocator_key(a),
        next: allocator_next(a) as nat,
        end: allocator_end(a) as nat,
    }
}

impl SpaceView {
    /// Whether one more id can be handed out: from the reserved block, or from one more block
    /// that ends within range.
    pub open spec fn can_advance(self) -> bool {
        self.next < self.end <= u64::MAX || self.next + block_size() <= u64::MAX
    }

    /// The state after one more id was handed out.
    pub open spec fn advance(self) -> SpaceView {
        SpaceView {
            key: self.key,
            next: self.next + 1,
            end: if self.next < self.end {
                self.end
            } else {
                self.next + block_size()
            },
        }
    }

    /// The record that reserves a new block, where the next id needs one: its key, and its
    /// first number and size.
    pub open spec fn reservation(self) -> Option<(Seq<u8>, Seq<u8>)> {
        if self.next < self.end {
            None
        } else {
            Some((self.key, endian::be_bytes(self.next, 8) + endian::be_bytes(block_size(), 8)))
        }
    }
}

/// What a reservation to write holds.
pub open spec fn reservation_view(r: Option<(Bytes, Bytes)>) -> Option<(Seq<u8>, Seq<u8>)> {
    match r {
        Some(kv) => Some((buffer::content(kv.0), buffer::content(kv.1))),
        None => None,
    }
}

/// `SequenceAllocator::allocate_one`: hands out the next number. Where the reserved block is
/// used up it reserves the following one and returns the record of it, whose value is the
/// block's first number and its size, eight bytes each, most significant first.
#[verifier::external_body]
pub(crate) fn allocate_one(a: &mut SequenceAllocator) -> (r: (u64, Option<(Bytes, Bytes)>))
    requires
        space_of(*old(a)).can_advance(),
    ensures
        r.0 == allocator_next(*old(a)),
        reservation_view(r.1) == space_of(*old(a)).reservation(),
        allocator_key(*final(a)) == allocator_key(*old(a)),
        allocator_next(*final(a)) == allocator_next(*old(a)) + 1,
        allocator_end(*final(a)) == space_of(*old(a)).advance().end,
{
    let (number, record) = a.allocate_one();
    (number, record.map(|r| (r.key, r.value)))
}

/// `SequenceAllocator::peek_next_sequence`: the number that comes next.
pub assume_specification[ SequenceAllocator::peek_next_sequence ](a: &SequenceAllocator) -> (r: u64)
    ensures
        r == allocator_next(*a),
;

/// The id spaces of one graph.
pub struct GraphAllocators {
    pub uid: SequenceAllocator,
    pub label: SequenceAllocator,
    pub pred: SequenceAllocator,
    pub prop: SequenceAllocator,
    pub seq: SequenceAllocator,
}

/// The state of [`GraphAllocators`].
pub struct AllocatorsView {
    pub uid: SpaceView,
    pub label: SpaceView,
    pub pred: SpaceView,
    pub prop: SpaceView,
    pub seq: SpaceView,
}

impl View for GraphAllocators {
    type V = AllocatorsView;

    open spec fn view(&self) -> AllocatorsView {
        AllocatorsView {
            uid: space_of(self.uid),
            label: space_of(self.label),
            pred: space_of(self.pred),
            prop: space_of(self.prop),
            seq: space_of(self.seq),
        }
    }
}

impl AllocatorsView {
    /// The id space that names of a kind draw from.
    pub open spec fn space(self, kind: SchemaKind) -> SpaceView {
        match kind {
            SchemaKind::Label => self.label,
            SchemaKind::Predicate => self.pred,
            SchemaKind::PropertyKey => self.prop,
        }
    }

    /// The state after one id for a name of the kind was handed out.
    pub open spec fn advance(self, kind: SchemaKind) -> AllocatorsView {
        match kind {
            SchemaKind::Label => AllocatorsView { label: self.label.advance(), ..self },
            SchemaKind::Predicate => AllocatorsView { pred: self.pred.advance(), ..self },
            SchemaKind::PropertyKey => AllocatorsView { prop: self.prop.advance(), ..self },
        }
    }

    /// Whether that many more names of each kind and uids, and one sequence number, can be handed
    /// out, each within the range of its type.
    pub open spec fn has_room(self, labels: nat, preds: nat, props: nat, uids: nat) -> bool {
        &&& self.label.next + labels <= 0x1_0000_0000
        &&& self.pred.next + preds <= 0x1_0000_0000
        &&& self.prop.next + props <= 0x1_0000_0000
        &&& uids == 0 || self.uid.next + uids + block_size() <= u64::MAX
        &&& self.seq.next + block_size() <= u64::MAX
    }
}

impl GraphAllocators {
    /// Whether that many more names of each kind and uids, and one sequence number, can be handed
    /// out.
    pub fn has_room(&self, labels: usize, preds: usize, props: usize, uids: usize) -> (r: bool)
        ensures
            r == self@.has_room(labels as nat, preds as nat, props as nat, uids as nat),
    {
        let limit: u128 = 0x1_0000_0000;
        self.label.peek_next_sequence() as u128 + labels as u128 <= limit
            && self.pred.peek_next_sequence() as u128 + preds as u128 <= limit
            && self.prop.peek_next_sequence() as u128 + props as u128 <= limit && (uids == 0
            || self.uid.peek_next_sequence() as u128 + uids as u128 + 4096 <= u64::MAX as u128)
            && self.seq.peek_next_sequence() as u128 + 4096 <= u64::MAX as u128
    }

    /// Hands out an id for a name of the given kind.
    pub fn allocate_name(&mut self, kind: SchemaKind) -> (r: (u32, Option<(Bytes, Bytes)>))
        requires
            old(self)@.space(kind).next < 0x1_0000_0000,
        ensures
            r.0 == old(self)@.space(kind).next,
            reservation_view(r.1) == old(self)@.space(kind).reservation(),
            final(self)@ == old(self)@.advance(kind),
    {
        match kind {
            SchemaKind::Label => {
                let (id, record) = self.allocate_label();
                (id.get(), record)
            },
            SchemaKind::Predicate => {
                let (id, record) = self.allocate_pred();
                (id.get(), record)
            },
            SchemaKind::PropertyKey => self.allocate_prop(),
        }
    }

    pub fn allocate_label(&mut self) -> (r: (LabelId, Option<(Bytes, Bytes)>))
        requires
            old(self)@.label.next < 0x1_0000_0000,
        ensures
            r.0.0 == old(self)@.label.next,
            reservation_view(r.1) == old(self)@.label.reservation(),
            final(self)@ == (AllocatorsView { label: old(self)@.label.advance(), ..old(self)@ }),
    {
        let (id, record) = allocate_one(&mut self.label);
        (LabelId(id as u32), record)
    }

    pub fn allocate_pred(&mut self) -> (r: (PredId, Option<(Bytes, Bytes)>))
        requires
            old(self)@.pred.next < 0x1_0000_0000,
        ensures
            r.0.0 == old(self)@.pred.next,
            reservation_view(r.1) == old(self)@.pred.reservation(),
            final(self)@ == (AllocatorsView { pred: old(self)@.pred.advance(), ..old(self)@ }),
    {
        let (id, record) = allocate_one(&mut self.pred);
        (PredId(id as u32), record)
    }

    pub fn allocate_prop(&mut self) -> (r: (PropId, Option<(Bytes, Bytes)>))
        requires
            old(self)@.prop.next < 0x1_0000_0000,
        ensures
            r.0 == old(self)@.prop.next,
            reservation_view(r.1) == old(self)@.prop.reservation(),
            final(self)@ == (AllocatorsView { prop: old(self)@.prop.advance(), ..old(self)@ }),
    {
        let (id, record) = allocate_one(&mut self.prop);
        (id as u32, record)
    }

    pub fn allocate_uid(&mut self) -> (r: (Uid, Option<(Bytes, Bytes)>))
        requires
            old(self)@.uid.can_advance(),
        ensures
            r.0.0 == old(self)@.uid.next,
            reservation_view(r.1) == old(self)@.uid.reservation(),
            final(self)@ == (AllocatorsView { uid: old(self)@.uid.advance(), ..old(self)@ }),
    {
        let (id, record) = allocate_one(&mut self.uid);
        (Uid(id), record)
    }

    pub fn next_seq(&mut self) -> (r: (u64, Option<(Bytes, Bytes)>))
        requires
            old(self)@.seq.can_advance(),
        ensures
            r.0 == old(self)@.seq.next,
            reservation_view(r.1) == old(self)@.seq.reservation(),
            final(self)@ == (AllocatorsView { seq: old(self)@.seq.advance(), ..old(self)@ }),
    {
        allocate_one(&mut self.seq)
    }
}

} // verus!
