//! Property maps and their byte format: a count, then `(prop id, value)` pairs in ascending
//! order of the id.

use std::collections::BTreeMap;

use bytes::{Bytes, BytesMut};
use common::serde::encoding::encode_array_count;
use vstd::prelude::*;
use vstd::std_specs::cmp::OrdSpec;
use vstd::std_specs::iter::IteratorSpec;

use crate::buffer;
use crate::cursor;
use crate::cursor::Parse;
use crate::endian;
use crate::error;
use crate::error::{Error, ErrorView, Fault, FaultView, Part};
use crate::ids::PropId;
use crate::value;
use crate::value::{TypedValue, ValueView};

verus! {

broadcast use {vstd::std_specs::btree::group_btree_axioms, vstd::laws_cmp::group_laws_cmp};

/// The properties of an edge, or of a node, by interned name.
pub type EdgeProps = BTreeMap<PropId, TypedValue>;

/// What a property map holds.
pub open spec fn props_view(m: EdgeProps) -> Map<PropId, ValueView> {
    Map::new(|k: PropId| m@.contains_key(k), |k: PropId| m@[k]@)
}

/// The pairs of `m` with an id below `n`, in ascending order of the id.
pub open spec fn entries_below(m: Map<PropId, ValueView>, n: nat) -> Seq<(PropId, ValueView)>
    decreases n,
{
    if n == 0 {
        Seq::empty()
    } else {
        let k = (n - 1) as PropId;
        let lower = entries_below(m, (n - 1) as nat);
        if m.contains_key(k) {
            lower.push((k, m[k]))
        } else {
            lower
        }
    }
}

/// All pairs of `m`, in ascending order of the id.
pub open spec fn sorted_entries(m: Map<PropId, ValueView>) -> Seq<(PropId, ValueView)> {
    entries_below(m, 0x1_0000_0000)
}

/// The encoding of one pair.
pub open spec fn pair_bytes(pair: (PropId, ValueView)) -> Seq<u8> {
    endian::le_bytes(pair.0 as nat, 4) + value::value_bytes(pair.1)
}

/// The encodings of the pairs, one after the other.
pub open spec fn pairs_bytes(pairs: Seq<(PropId, ValueView)>) -> Seq<u8>
    decreases pairs.len(),
{
    if pairs.len() == 0 {
        Seq::empty()
    } else {
        pair_bytes(pairs[0]) + pairs_bytes(pairs.drop_first())
    }
}

/// The encoding of a property map.
pub open spec fn props_bytes(m: Map<PropId, ValueView>) -> Seq<u8> {
    endian::le_bytes(m.len(), 2) + pairs_bytes(sorted_entries(m))
}

/// Whether a property map can be encoded: the count has two bytes, and the whole has to fit
/// in a buffer.
pub open spec fn props_encodable(m: Map<PropId, ValueView>) -> bool {
    &&& m.len() <= 0xffff
    &&& props_bytes(m).len() <= buffer::buffer_limit()
}

/// `n` pairs, added to `acc` in the order in which they come: of two pairs with one id, the
/// later one stays.
pub open spec fn parse_pairs(
    acc: Map<PropId, ValueView>,
    s: Seq<u8>,
    n: nat,
    what: &'static str,
) -> Parse<Map<PropId, ValueView>>
    decreases n,
{
    if n == 0 {
        Parse { out: Ok(acc), rest: s }
    } else {
        let k = cursor::parse_le(s, 4, what, Part::Body);
        match k.out {
            Err(e) => Parse { out: Err(e), rest: k.rest },
            Ok(id) => {
                let v = value::parse_value(k.rest);
                match v.out {
                    Err(e) => Parse { out: Err(e), rest: v.rest },
                    Ok(val) => parse_pairs(
                        acc.insert(id as PropId, val),
                        v.rest,
                        (n - 1) as nat,
                        what,
                    ),
                }
            },
        }
    }
}

/// A count, then that many pairs.
pub open spec fn parse_props(s: Seq<u8>, what: &'static str) -> Parse<Map<PropId, ValueView>> {
    let c = cursor::parse_count(s);
    match c.out {
        Err(e) => Parse { out: Err(e), rest: c.rest },
        Ok(n) => parse_pairs(Map::empty(), c.rest, n, what),
    }
}

/// A record and nothing after it.
pub open spec fn complete<T>(p: Parse<T>, what: &'static str) -> Result<T, ErrorView> {
    match p.out {
        Err(e) => Err(e),
        Ok(v) => if p.rest.len() == 0 {
            Ok(v)
        } else {
            Err(ErrorView::Encoding(FaultView::Trailing { what, extra: p.rest.len() as usize }))
        },
    }
}

/// The property map that `s` encodes, or why it encodes none.
pub open spec fn decoded_props(s: Seq<u8>) -> Result<Map<PropId, ValueView>, ErrorView> {
    complete(parse_props(s, "edge-prop prop id"), "edge props")
}

/// The encoding of `props`.
pub fn encode_edge_props(props: &EdgeProps) -> (r: Bytes)
    requires
        props_encodable(props_view(*props)),
    ensures
        buffer::content(r) == props_bytes(props_view(*props)),
{
    let mut buf = BytesMut::new();
    write_props(props, &mut buf);
    proof {
        assert(buffer::written(buf) =~= props_bytes(props_view(*props)));
    }
    buf.freeze()
}

/// The property map that `bytes` encode.
pub fn decode_edge_props(bytes: &[u8]) -> (r: Result<EdgeProps, Error>)
    ensures
        match decoded_props(bytes@) {
            Ok(m) => r is Ok && props_view(r->Ok_0) == m,
            Err(e) => error::fails(r, e),
        },
{
    let mut cur = bytes;
    let props = match read_props(&mut cur, "edge-prop prop id") {
        Err(e) => {
            return Err(e);
        },
        Ok(props) => props,
    };
    if cur.len() != 0 {
        return Err(Error::Encoding(Fault::Trailing { what: "edge props", extra: cur.len() }));
    }
    Ok(props)
}

/// Whether a property map can be encoded.
pub fn encodable(props: &EdgeProps) -> (r: bool)
    ensures
        r == props_encodable(props_view(*props)),
{
    few(props) && encoded_len(props) <= (isize::MAX / 2) as u128
}

/// Adding a pair to a map makes its encoding longer by at most that of the pair, and the map by at
/// most one.
pub proof fn lemma_insert_size(m: Map<PropId, ValueView>, k: PropId, v: ValueView)
    requires
        m.dom().finite(),
    ensures
        m.insert(k, v).len() <= m.len() + 1,
        m.insert(k, v).dom().finite(),
        pairs_bytes(sorted_entries(m.insert(k, v))).len() <= pairs_bytes(sorted_entries(m)).len()
            + pair_bytes((k, v)).len(),
{
    lemma_insert_size_below(m, k, v, 0x1_0000_0000);
}

proof fn lemma_insert_size_below(m: Map<PropId, ValueView>, k: PropId, v: ValueView, n: nat)
    requires
        n <= 0x1_0000_0000,
    ensures
        pairs_bytes(entries_below(m.insert(k, v), n)).len() <= pairs_bytes(
            entries_below(m, n),
        ).len() + pair_bytes((k, v)).len(),
        k >= n ==> pairs_bytes(entries_below(m.insert(k, v), n)).len() == pairs_bytes(
            entries_below(m, n),
        ).len(),
    decreases n,
{
    if n > 0 {
        let more = m.insert(k, v);
        let id = (n - 1) as PropId;
        lemma_insert_size_below(m, k, v, (n - 1) as nat);
        if more.contains_key(id) {
            lemma_pairs_push(entries_below(more, (n - 1) as nat), (id, more[id]));
        }
        if m.contains_key(id) {
            lemma_pairs_push(entries_below(m, (n - 1) as nat), (id, m[id]));
        }
    }
}

proof fn lemma_pairs_push(pairs: Seq<(PropId, ValueView)>, pair: (PropId, ValueView))
    ensures
        pairs_bytes(pairs.push(pair)).len() == pairs_bytes(pairs).len() + pair_bytes(pair).len(),
    decreases pairs.len(),
{
    let more = pairs.push(pair);
    if pairs.len() == 0 {
        assert(more.drop_first() =~= Seq::empty());
        assert(pairs_bytes(more.drop_first()).len() == 0);
    } else {
        assert(more.drop_first() =~= pairs.drop_first().push(pair));
        lemma_pairs_push(pairs.drop_first(), pair);
    }
}

pub proof fn lemma_empty_props_len()
    ensures
        props_bytes(Map::empty()).len() == 2,
{
    let m = Map::<PropId, ValueView>::empty();
    endian::lemma_le_bytes_len(0, 2);
    lemma_entries_below(m, 0x1_0000_0000);
    let all = sorted_entries(m);
    if all.len() > 0 {
        assert(holds_pair(m, all[0]));
    }
}

/// Whether the number of properties has two bytes.
pub(crate) fn few(props: &EdgeProps) -> (r: bool)
    ensures
        r == (props_view(*props).len() <= 0xffff),
{
    entries(props).len() <= 0xffff
}

/// How many bytes the encoding of a property map has.
pub(crate) fn encoded_len(props: &EdgeProps) -> (r: u128)
    requires
        props_view(*props).len() <= 0xffff,
    ensures
        r == props_bytes(props_view(*props)).len(),
        r <= 0x1_0000 * (usize::MAX as u128 + 0x100),
{
    let pairs = entries(props);
    let ghost all = sorted_entries(props_view(*props));
    proof {
        endian::lemma_le_bytes_len(props_view(*props).len(), 2);
        assert(all.skip(all.len() as int) =~= Seq::empty());
    }
    let mut total: u128 = 0;
    let mut i: usize = pairs.len();
    while i > 0
        invariant
            i <= pairs.len() <= 0xffff,
            pairs_view(pairs@) == all,
            total == pairs_bytes(all.skip(i as int)).len(),
            total <= (pairs.len() - i) * (usize::MAX as u128 + 0x100),
        decreases i,
    {
        i -= 1;
        let (prop_id, value) = pairs[i];
        proof {
            let rest = all.skip(i as int);
            assert(rest[0] == (prop_id, value@));
            assert(rest.drop_first() =~= all.skip(i + 1));
            endian::lemma_le_bytes_len(prop_id as nat, 4);
            let left = pairs.len() - i - 1;
            let step = usize::MAX as u128 + 0x100;
            assert((left + 1) * step == left * step + step) by (nonlinear_arith);
            assert((left + 1) * step <= 0xffff * step) by (nonlinear_arith)
                requires
                    left + 1 <= 0xffff,
                    step >= 0,
            ;
        }
        total = total + 4 + value.encoded_len();
    }
    proof {
        assert(all.skip(0) =~= all);
        let count = pairs.len();
        let step = usize::MAX as u128 + 0x100;
        assert(count * step <= 0xffff * step) by (nonlinear_arith)
            requires
                count <= 0xffff,
                step >= 0,
        ;
    }
    total + 2
}

/// Appends the encoding of `props` to `buf`.
pub(crate) fn write_props(props: &EdgeProps, buf: &mut BytesMut)
    requires
        props_view(*props).len() <= 0xffff,
        buffer::written(*old(buf)).len() + props_bytes(props_view(*props)).len()
            <= buffer::buffer_limit(),
    ensures
        buffer::written(*final(buf)) == buffer::written(*old(buf)) + props_bytes(
            props_view(*props),
        ),
{
    let pairs = entries(props);
    let ghost all = sorted_entries(props_view(*props));
    let ghost start = buffer::written(*buf);
    let ghost goal = start + props_bytes(props_view(*props));
    proof {
        endian::lemma_le_bytes_len(props_view(*props).len(), 2);
    }
    encode_array_count(pairs.len(), buf);
    proof {
        assert(all.skip(0) =~= all);
        assert(buffer::written(*buf) + pairs_bytes(all.skip(0)) =~= goal);
    }
    let mut i: usize = 0;
    while i < pairs.len()
        invariant
            i <= pairs.len(),
            pairs_view(pairs@) == all,
            goal.len() <= buffer::buffer_limit(),
            buffer::written(*buf) + pairs_bytes(all.skip(i as int)) == goal,
        decreases pairs.len() - i,
    {
        let (prop_id, value) = pairs[i];
        let ghost before = buffer::written(*buf);
        let ghost rest = all.skip(i as int);
        proof {
            assert(rest[0] == (prop_id, value@));
            assert(rest.drop_first() =~= all.skip(i + 1));
            endian::lemma_le_bytes_len(prop_id as nat, 4);
            assert(goal.len() == before.len() + pairs_bytes(rest).len());
        }
        buffer::put_u32_le(buf, prop_id);
        value.write_to(buf);
        proof {
            assert(buffer::written(*buf) + pairs_bytes(all.skip(i + 1)) =~= goal);
        }
        i += 1;
    }
    proof {
        assert(all.skip(i as int) =~= Seq::empty());
        assert(buffer::written(*buf) =~= goal);
    }
}

/// Takes a property map off the front of `cur`.
pub(crate) fn read_props(cur: &mut &[u8], what: &'static str) -> (r: Result<EdgeProps, Error>)
    ensures
        match parse_props(old(cur)@, what).out {
            Ok(m) => r is Ok && props_view(r->Ok_0) == m,
            Err(e) => error::fails(r, e),
        },
        final(cur)@ == parse_props(old(cur)@, what).rest,
{
    let count: usize = match cursor::read_count(cur) {
        Err(e) => {
            return Err(e);
        },
        Ok(count) => count,
    };
    let mut props: EdgeProps = BTreeMap::new();
    let ghost goal = parse_props(old(cur)@, what);
    proof {
        assert(props_view(props) =~= Map::empty());
    }
    let mut i: usize = 0;
    while i < count
        invariant
            i <= count,
            goal == parse_props(old(cur)@, what),
            parse_pairs(props_view(props), cur@, (count - i) as nat, what) == goal,
        decreases count - i,
    {
        let prop_id: PropId = match cursor::take_u32_le(cur, what, Part::Body) {
            Err(e) => {
                return Err(e);
            },
            Ok(prop_id) => prop_id,
        };
        let value = match TypedValue::read_from(cur) {
            Err(e) => {
                return Err(e);
            },
            Ok(value) => value,
        };
        let ghost before = props_view(props);
        let ghost held = value@;
        props.insert(prop_id, value);
        proof {
            assert(props_view(props) =~= before.insert(prop_id, held));
        }
        i += 1;
    }
    Ok(props)
}

/// What a list of borrowed pairs holds.
pub open spec fn pairs_view(s: Seq<(PropId, &TypedValue)>) -> Seq<(PropId, ValueView)> {
    Seq::new(s.len(), |i: int| (s[i].0, s[i].1@))
}

/// The pairs of `m`, in ascending order of the id.
pub(crate) fn entries(m: &EdgeProps) -> (r: Vec<(PropId, &TypedValue)>)
    ensures
        pairs_view(r@) == sorted_entries(props_view(*m)),
        r@.len() == props_view(*m).len(),
{
    let mut out: Vec<(PropId, &TypedValue)> = Vec::new();
    let ghost all = IteratorSpec::remaining(&vstd::std_specs::btree::spec_btree_map_iter(m));
    for kv in it: m.iter()
        invariant
            it.seq() == all,
            out@.len() == it.index(),
            forall|i: int|
                0 <= i < out@.len() ==> (#[trigger] out@[i]).0 == *all[i].0 && out@[i].1
                    == all[i].1,
    {
        out.push((*kv.0, kv.1));
    }
    proof {
        assert(vstd::std_specs::btree::key_obeys_cmp_spec::<u32>());
        let ks = all.map_values(|kv: (&u32, &TypedValue)| *kv.0);
        let pv = pairs_view(out@);
        let view = props_view(*m);
        assert forall|i: int, j: int| 0 <= i < j < pv.len() implies #[trigger] pv[i].0
            < #[trigger] pv[j].0 by {
            assert(ks[i] == out@[i].0);
            assert(ks[j] == out@[j].0);
            assert(ks[i].cmp_spec(&ks[j]) is Less);
        }
        assert forall|x: (PropId, ValueView)| pv.contains(x) implies #[trigger] holds_pair(
            view,
            x,
        ) by {
            let i = choose|i: int| 0 <= i < pv.len() && pv[i] == x;
            assert(out@[i].0 == *all[i].0);
            assert(m@.contains_key(*all[i].0));
        }
        assert forall|x: (PropId, ValueView)| #[trigger] holds_pair(view, x) implies pv.contains(
            x,
        ) by {
            assert(all.contains((&x.0, &m@[x.0])));
            let i = choose|i: int| 0 <= i < all.len() && all[i] == (&x.0, &m@[x.0]);
            assert(out@[i].0 == x.0);
            assert(pv[i] == x);
        }
        lemma_sorted_entries_unique(view, pv);
        assert(view.dom() =~= m@.dom());
    }
    out
}

/// Whether `m` maps the id of the pair to its value.
pub open spec fn holds_pair(m: Map<PropId, ValueView>, x: (PropId, ValueView)) -> bool {
    m.contains_key(x.0) && m[x.0] == x.1
}

/// Whether the ids of the pairs strictly ascend.
pub open spec fn ascending(s: Seq<(PropId, ValueView)>) -> bool {
    forall|i: int, j: int| 0 <= i < j < s.len() ==> (#[trigger] s[i]).0 < (#[trigger] s[j]).0
}

pub proof fn lemma_entries_below(m: Map<PropId, ValueView>, n: nat)
    requires
        n <= 0x1_0000_0000,
    ensures
        ascending(entries_below(m, n)),
        forall|x: (PropId, ValueView)|
            entries_below(m, n).contains(x) <==> #[trigger] holds_pair(m, x) && x.0 < n,
    decreases n,
{
    let s = entries_below(m, n);
    if n > 0 {
        let k = (n - 1) as PropId;
        let lower = entries_below(m, (n - 1) as nat);
        lemma_entries_below(m, (n - 1) as nat);
        assert forall|i: int| 0 <= i < lower.len() implies (#[trigger] lower[i]).0 < k by {
            assert(lower.contains(lower[i]));
            assert(holds_pair(m, lower[i]));
        }
        assert forall|x: (PropId, ValueView)| s.contains(x) <==> #[trigger] holds_pair(m, x) && x.0
            < n by {
            if m.contains_key(k) {
                assert(s == lower.push((k, m[k])));
                assert(s[s.len() - 1] == (k, m[k]));
                if s.contains(x) {
                    let i = choose|i: int| 0 <= i < s.len() && s[i] == x;
                    if i < lower.len() {
                        assert(lower[i] == x);
                    }
                }
                if lower.contains(x) {
                    let i = choose|i: int| 0 <= i < lower.len() && lower[i] == x;
                    assert(s[i] == x);
                }
            }
        }
    }
}

/// A list that ascends and holds exactly the pairs of `m` is the sorted list of its pairs.
pub proof fn lemma_sorted_entries_unique(m: Map<PropId, ValueView>, s: Seq<(PropId, ValueView)>)
    requires
        ascending(s),
        forall|x: (PropId, ValueView)| s.contains(x) <==> #[trigger] holds_pair(m, x),
    ensures
        s == sorted_entries(m),
{
    lemma_entries_below(m, 0x1_0000_0000);
    assert forall|x: (PropId, ValueView)| #[trigger] s.contains(x) <==> sorted_entries(m).contains(
        x,
    ) by {
        assert(s.contains(x) <==> holds_pair(m, x));
    }
    lemma_ascending_unique(s, sorted_entries(m));
}

proof fn lemma_ascending_unique(a: Seq<(PropId, ValueView)>, b: Seq<(PropId, ValueView)>)
    requires
        ascending(a),
        ascending(b),
        forall|x: (PropId, ValueView)| #[trigger] a.contains(x) <==> b.contains(x),
    ensures
        a == b,
    decreases a.len(),
{
    if a.len() == 0 {
        if b.len() > 0 {
            assert(b.contains(b[0]));
            assert(a.contains(b[0]));
        }
        assert(a =~= b);
    } else {
        assert(a.contains(a.last()));
        assert(b.len() > 0);
        assert(b.contains(b.last()));
        assert(a.contains(b.last()));
        let i = choose|i: int| 0 <= i < b.len() && b[i] == a.last();
        let j = choose|j: int| 0 <= j < a.len() && a[j] == b.last();
        assert(a.last() == b.last()) by {
            if i < b.len() - 1 {
                assert(b[i].0 < b.last().0);
                if j < a.len() - 1 {
                    assert(a[j].0 < a.last().0);
                }
            }
        }
        let a1 = a.drop_last();
        let b1 = b.drop_last();
        assert forall|x: (PropId, ValueView)| #[trigger] a1.contains(x) <==> b1.contains(x) by {
            if a1.contains(x) {
                let p = choose|p: int| 0 <= p < a1.len() && a1[p] == x;
                assert(a[p] == x && a[p].0 < a.last().0);
                assert(a.contains(x));
                let q = choose|q: int| 0 <= q < b.len() && b[q] == x;
                assert(b1[q] == x);
            }
            if b1.contains(x) {
                let p = choose|p: int| 0 <= p < b1.len() && b1[p] == x;
                assert(b[p] == x && b[p].0 < b.last().0);
                assert(b.contains(x));
                assert(a.contains(x));
                let q = choose|q: int| 0 <= q < a.len() && a[q] == x;
                assert(a1[q] == x);
            }
        }
        lemma_ascending_unique(a1, b1);
        assert(a =~= a1.push(a.last()));
        assert(b =~= b1.push(b.last()));
    }
}

} // verus!
