//! Lists of label ids and their byte format: a count, then the ids.

use bytes::BytesMut;
use common::serde::encoding::encode_array_count;
use vstd::prelude::*;

use crate::buffer;
use crate::cursor;
use crate::cursor::Parse;
use crate::endian;
use crate::error;
use crate::error::{Error, Part};
use crate::ids::LabelId;

verus! {

/// The encodings of the ids, one after the other.
pub open spec fn ids_bytes(ids: Seq<LabelId>) -> Seq<u8>
    decreases ids.len(),
{
    if ids.len() == 0 {
        Seq::empty()
    } else {
        endian::le_bytes(ids[0].0 as nat, 4) + ids_bytes(ids.drop_first())
    }
}

/// The encoding of a list of label ids.
pub open spec fn labels_bytes(ids: Seq<LabelId>) -> Seq<u8> {
    endian::le_bytes(ids.len(), 2) + ids_bytes(ids)
}

/// `n` ids, appended to `acc`.
pub open spec fn parse_ids(
    acc: Seq<LabelId>,
    s: Seq<u8>,
    n: nat,
    what: &'static str,
) -> Parse<Seq<LabelId>>
    decreases n,
{
    if n == 0 {
        Parse { out: Ok(acc), rest: s }
    } else {
        let p = cursor::parse_le(s, 4, what, Part::Body);
        match p.out {
            Err(e) => Parse { out: Err(e), rest: p.rest },
            Ok(id) => parse_ids(acc.push(LabelId(id as u32)), p.rest, (n - 1) as nat, what),
        }
    }
}

/// A count, then that many ids.
pub open spec fn parse_labels(s: Seq<u8>, what: &'static str) -> Parse<Seq<LabelId>> {
    let c = cursor::parse_count(s);
    match c.out {
        Err(e) => Parse { out: Err(e), rest: c.rest },
        Ok(n) => parse_ids(Seq::empty(), c.rest, n, what),
    }
}

pub proof fn lemma_labels_bytes_len(ids: Seq<LabelId>)
    ensures
        labels_bytes(ids).len() == 2 + 4 * ids.len(),
{
    endian::lemma_le_bytes_len(ids.len(), 2);
    lemma_ids_bytes_len(ids);
}

proof fn lemma_ids_bytes_len(ids: Seq<LabelId>)
    ensures
        ids_bytes(ids).len() == 4 * ids.len(),
    decreases ids.len(),
{
    if ids.len() > 0 {
        endian::lemma_le_bytes_len(ids[0].0 as nat, 4);
        lemma_ids_bytes_len(ids.drop_first());
    }
}

/// Appends the encoding of `ids` to `buf`.
pub(crate) fn write_label_ids(ids: &Vec<LabelId>, buf: &mut BytesMut)
    requires
        ids@.len() <= 0xffff,
        buffer::written(*old(buf)).len() + labels_bytes(ids@).len() <= buffer::buffer_limit(),
    ensures
        buffer::written(*final(buf)) == buffer::written(*old(buf)) + labels_bytes(ids@),
{
    let ghost goal = buffer::written(*buf) + labels_bytes(ids@);
    proof {
        endian::lemma_le_bytes_len(ids@.len(), 2);
    }
    encode_array_count(ids.len(), buf);
    proof {
        assert(ids@.skip(0) =~= ids@);
        assert(buffer::written(*buf) + ids_bytes(ids@.skip(0)) =~= goal);
    }
    let mut i: usize = 0;
    while i < ids.len()
        invariant
            i <= ids.len(),
            goal.len() <= buffer::buffer_limit(),
            buffer::written(*buf) + ids_bytes(ids@.skip(i as int)) == goal,
        decreases ids.len() - i,
    {
        let ghost before = buffer::written(*buf);
        let ghost rest = ids@.skip(i as int);
        proof {
            assert(rest.drop_first() =~= ids@.skip(i + 1));
            endian::lemma_le_bytes_len(ids@[i as int].0 as nat, 4);
            assert(goal.len() == before.len() + ids_bytes(rest).len());
        }
        buffer::put_u32_le(buf, ids[i].get());
        proof {
            assert(buffer::written(*buf) + ids_bytes(ids@.skip(i + 1)) =~= goal);
        }
        i += 1;
    }
    proof {
        assert(ids@.skip(i as int) =~= Seq::empty());
        assert(buffer::written(*buf) =~= goal);
    }
}

/// Takes a list of label ids off the front of `cur`.
pub(crate) fn read_label_ids(cur: &mut &[u8], what: &'static str) -> (r: Result<
    Vec<LabelId>,
    Error,
>)
    ensures
        match parse_labels(old(cur)@, what).out {
            Ok(ids) => r is Ok && r->Ok_0@ == ids,
            Err(e) => error::fails(r, e),
        },
        final(cur)@ == parse_labels(old(cur)@, what).rest,
{
    let count: usize = match cursor::read_count(cur) {
        Err(e) => {
            return Err(e);
        },
        Ok(count) => count,
    };
    let mut ids: Vec<LabelId> = Vec::with_capacity(count);
    let ghost goal = parse_labels(old(cur)@, what);
    proof {
        assert(ids@ =~= Seq::empty());
    }
    let mut i: usize = 0;
    while i < count
        invariant
            i <= count,
            goal == parse_labels(old(cur)@, what),
            parse_ids(ids@, cur@, (count - i) as nat, what) == goal,
        decreases count - i,
    {
        match cursor::take_u32_le(cur, what, Part::Body) {
            Err(e) => {
                return Err(e);
            },
            Ok(id) => {
                ids.push(LabelId(id));
            },
        }
        i += 1;
    }
    Ok(ids)
}

} // verus!
