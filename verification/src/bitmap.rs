//! Sets of uids, as `roaring` keeps and stores them.

use bytes::Bytes;
use roaring::RoaringTreemap;
use vstd::prelude::*;

use crate::buffer;
use crate::error;
use crate::error::{Error, ErrorView, Fault, FaultView};

verus! {

/// `roaring::RoaringTreemap`, seen through [`members`].
#[verifier::external_type_specification]
#[verifier::external_body]
pub struct ExRoaringTreemap(roaring::RoaringTreemap);

/// The numbers that a treemap holds.
pub uninterp spec fn members(t: RoaringTreemap) -> Set<u64>;

/// The set that `RoaringTreemap::deserialize_from` reads from the beginning of some bytes, or the
/// text of the error that it reports.
pub uninterp spec fn stored_members(b: Seq<u8>) -> Result<Set<u64>, Seq<char>>;

/// `RoaringTreemap::new`: no number.
pub assume_specification[ RoaringTreemap::new ]() -> (r: RoaringTreemap)
    ensures
        members(r) == Set::<u64>::empty(),
;

/// `RoaringTreemap::deserialize_from`, reading from a slice: a set, or an error with a text, and
/// both depend on the bytes alone. Which bytes hold which set is the roaring format's affair.
#[verifier::external_body]
pub(crate) fn deserialize(bytes: &[u8]) -> (r: Result<RoaringTreemap, String>)
    ensures
        match r {
            Ok(t) => stored_members(bytes@) == Ok::<Set<u64>, Seq<char>>(members(t)),
            Err(cause) => stored_members(bytes@) == Err::<Set<u64>, Seq<char>>(cause@),
        },
{
    match RoaringTreemap::deserialize_from(bytes) {
        Ok(t) => Ok(t),
        Err(e) => Err(e.to_string()),
    }
}

/// `RoaringTreemap - &RoaringTreemap`: the numbers of the first that the second lacks.
#[verifier::external_body]
pub(crate) fn difference(a: RoaringTreemap, b: &RoaringTreemap) -> (r: RoaringTreemap)
    ensures
        members(r) == members(a).difference(members(*b)),
{
    a - b
}

/// The set that an optional stored bitmap holds: none stored, none in it.
pub open spec fn read_members(stored: Option<Seq<u8>>, what: &'static str) -> Result<
    Set<u64>,
    ErrorView,
> {
    match stored {
        None => Ok(Set::empty()),
        Some(b) => match stored_members(b) {
            Ok(s) => Ok(s),
            Err(cause) => Err(ErrorView::Encoding(FaultView::CorruptBitmap { what, cause })),
        },
    }
}

/// Reads an optional stored bitmap.
pub fn read_bitmap(stored: &Option<Bytes>, what: &'static str) -> (r: Result<RoaringTreemap, Error>)
    ensures
        match read_members(
            match *stored {
                Some(b) => Some(buffer::content(b)),
                None => None,
            },
            what,
        ) {
            Ok(s) => r is Ok && members(r->Ok_0) == s,
            Err(e) => error::fails(r, e),
        },
        match *stored {
            None => r is Ok && members(r->Ok_0) == Set::<u64>::empty(),
            Some(b) => match stored_members(buffer::content(b)) {
                Ok(s) => r is Ok && members(r->Ok_0) == s,
                Err(cause) => error::fails(
                    r,
                    ErrorView::Encoding(FaultView::CorruptBitmap { what, cause }),
                ),
            },
        },
{
    match stored {
        None => Ok(RoaringTreemap::new()),
        Some(b) => match deserialize(buffer::as_slice(b)) {
            Ok(t) => Ok(t),
            Err(cause) => Err(Error::Encoding(Fault::CorruptBitmap { what, cause })),
        },
    }
}

/// The members of `posting` that are not in `deleted`.
pub fn without(posting: RoaringTreemap, deleted: &RoaringTreemap) -> (r: RoaringTreemap)
    ensures
        members(r) == members(posting).difference(members(*deleted)),
{
    difference(posting, deleted)
}

} // verus!
