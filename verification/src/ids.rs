//! Identifiers.

use vstd::prelude::*;

verus! {

/// A node's internal id.
#[derive(Debug, Clone, Copy, PartialEq, Eq, PartialOrd, Ord, Hash, Structural)]
pub struct Uid(pub u64);

/// An interned predicate (edge type) name.
#[derive(Debug, Clone, Copy, PartialEq, Eq, PartialOrd, Ord, Hash, Structural)]
pub struct PredId(pub u32);

/// An interned label name.
#[derive(Debug, Clone, Copy, PartialEq, Eq, PartialOrd, Ord, Hash, Structural)]
pub struct LabelId(pub u32);

/// An interned property name. A plain integer, so that maps keyed by it are ordered by it.
pub type PropId = u32;

impl Uid {
    pub fn get(self) -> (r: u64)
        ensures
            r == self.0,
    {
        self.0
    }
}

impl PredId {
    pub fn get(self) -> (r: u32)
        ensures
            r == self.0,
    {
        self.0
    }
}

impl LabelId {
    pub fn get(self) -> (r: u32)
        ensures
            r == self.0,
    {
        self.0
    }
}

/// Which end of an edge a posting list is anchored at.
#[derive(Debug, Clone, Copy, PartialEq, Eq, Structural)]
pub enum Direction {
    Out,
    In,
}

impl Direction {
    /// The byte that stands for a direction inside a key.
    pub open spec fn byte(self) -> u8 {
        match self {
            Direction::Out => 0,
            Direction::In => 1,
        }
    }

    pub fn as_byte(self) -> (r: u8)
        ensures
            r == self.byte(),
    {
        match self {
            Direction::Out => 0,
            Direction::In => 1,
        }
    }
}

/// What an interned name names.
#[derive(Debug, Clone, Copy, PartialEq, Eq, Structural)]
pub enum SchemaKind {
    Label,
    Predicate,
    PropertyKey,
}

} // verus!
