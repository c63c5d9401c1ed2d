//! What an upsert makes of a node: labels add up, properties overlay.

use vstd::prelude::*;

use crate::change::{DeltaView, LabelDelta};
use crate::ids::{LabelId, PropId};
use crate::node::{NodeRecord, NodeView};
use crate::props;
use crate::props::EdgeProps;
use crate::value::ValueView;

verus! {

broadcast use {vstd::std_specs::btree::group_btree_axioms, vstd::laws_cmp::group_laws_cmp};

/// Strictly ascending label ids: sorted, and none of them twice.
pub open spec fn ascending(s: Seq<LabelId>) -> bool {
    forall|i: int, j: int| 0 <= i < j < s.len() ==> (#[trigger] s[i]).0 < (#[trigger] s[j]).0
}

/// The ids of `set` below `n`, in ascending order.
pub open spec fn ids_below(set: Set<LabelId>, n: nat) -> Seq<LabelId>
    decreases n,
{
    if n == 0 {
        Seq::empty()
    } else {
        let id = LabelId((n - 1) as u32);
        let lower = ids_below(set, (n - 1) as nat);
        if set.contains(id) {
            lower.push(id)
        } else {
            lower
        }
    }
}

/// The ids of `set` in ascending order.
pub open spec fn sorted_labels(set: Set<LabelId>) -> Seq<LabelId> {
    ids_below(set, 0x1_0000_0000)
}

/// The node of before, if there was one.
pub open spec fn prior_view(prior: Option<NodeRecord>) -> Option<NodeView> {
    match prior {
        Some(n) => Some(n@),
        None => None,
    }
}

/// The labels that a node had, if there was one.
pub open spec fn labels_before(prior: Option<NodeView>) -> Set<LabelId> {
    match prior {
        Some(n) => n.labels.to_set(),
        None => Set::empty(),
    }
}

/// The properties that a node had, if there was one.
pub open spec fn props_before(prior: Option<NodeView>) -> Map<PropId, ValueView> {
    match prior {
        Some(n) => n.props,
        None => Map::empty(),
    }
}

/// The node after an upsert: the labels of before and the new ones in ascending order; the
/// properties of before with the new ones laid over them; the external id.
pub open spec fn merged(
    prior: Option<NodeView>,
    labels: Seq<LabelId>,
    props: Map<PropId, ValueView>,
    xid: Seq<char>,
) -> NodeView {
    NodeView {
        labels: sorted_labels(labels_before(prior).union(labels.to_set())),
        props: props_before(prior).union_prefer_right(props),
        xid,
    }
}

/// What an upsert changes about a node's labels: it adds those that the node did not have, and
/// removes none.
pub open spec fn label_delta(prior: Option<NodeView>, labels: Seq<LabelId>) -> DeltaView {
    DeltaView {
        added: sorted_labels(labels.to_set().difference(labels_before(prior))),
        removed: Seq::empty(),
    }
}

/// Merges new labels and properties into the node of before, if there was one.
pub fn merge_node_record(
    prior: Option<NodeRecord>,
    new_labels: Vec<LabelId>,
    new_props: EdgeProps,
    xid: String,
) -> (r: (NodeRecord, LabelDelta))
    ensures
        r.0@ == merged(prior_view(prior), new_labels@, props::props_view(new_props), xid@),
        r.1@ == label_delta(prior_view(prior), new_labels@),
        r.0.xid@ == xid@,
        forall|k: PropId|
            #![trigger r.0@.props.contains_key(k)]
            ({
                let old_has = prior is Some && prior->Some_0@.props.contains_key(k);
                let now = props::props_view(new_props);
                &&& r.0@.props.contains_key(k) == (now.contains_key(k) || old_has)
                &&& now.contains_key(k) ==> r.0@.props[k] == now[k]
                &&& old_has && !now.contains_key(k) ==> r.0@.props[k] == prior->Some_0@.props[k]
            }),
        forall|l: LabelId|
            #![trigger r.0.labels@.contains(l)]
            #![trigger r.1.added@.contains(l)]
            ({
                let had = prior is Some && prior->Some_0.labels@.contains(l);
                &&& r.0.labels@.contains(l) == (had || new_labels@.contains(l))
                &&& r.1.added@.contains(l) == (new_labels@.contains(l) && !had)
            }),
        r.1.removed@.len() == 0,
{
    let ghost before_view = prior_view(prior);
    let (mut labels, merged_props) = match prior {
        None => {
            proof {
                assert(props::props_view(new_props) =~= Map::empty().union_prefer_right(
                    props::props_view(new_props),
                ));
            }
            (Vec::new(), new_props)
        },
        Some(old) => (sorted_copy(&old.labels), overlay(old.props, &new_props)),
    };
    proof {
        if before_view is None {
            assert(labels@.to_set() =~= Set::<LabelId>::empty());
        }
    }
    let ghost before = labels_before(before_view);
    let mut added: Vec<LabelId> = Vec::new();
    let mut i: usize = 0;
    proof {
        assert(new_labels@.take(0).to_set() =~= Set::<LabelId>::empty());
        assert(added@.to_set() =~= Set::<LabelId>::empty());
        assert(before.union(Set::empty()) =~= before);
        assert(Set::<LabelId>::empty().difference(before) =~= Set::empty());
    }
    while i < new_labels.len()
        invariant
            i <= new_labels.len(),
            ascending(labels@),
            ascending(added@),
            labels@.to_set() == before.union(new_labels@.take(i as int).to_set()),
            added@.to_set() == new_labels@.take(i as int).to_set().difference(before),
        decreases new_labels.len() - i,
    {
        let id = new_labels[i];
        proof {
            lemma_take_more(new_labels@, i as int);
            let seen = new_labels@.take(i as int).to_set();
            assert(before.union(seen.insert(id)) =~= before.union(seen).insert(id));
            if before.union(seen).contains(id) {
                assert(seen.insert(id).difference(before) =~= seen.difference(before));
            } else {
                assert(seen.insert(id).difference(before) =~= seen.difference(before).insert(id));
            }
        }
        if insert_label(&mut labels, id) {
            let _ = insert_label(&mut added, id);
        }
        i += 1;
    }
    proof {
        assert(new_labels@.take(i as int) =~= new_labels@);
        lemma_sorted_unique(labels@);
        lemma_sorted_unique(added@);
        assert forall|l: LabelId|
            #![trigger labels@.contains(l)]
            #![trigger added@.contains(l)]
            ({
                let had = before_view is Some && before_view->Some_0.labels.contains(l);
                &&& labels@.contains(l) == (had || new_labels@.contains(l))
                &&& added@.contains(l) == (new_labels@.contains(l) && !had)
            }) by {
            assert(labels@.contains(l) == labels@.to_set().contains(l));
            assert(added@.contains(l) == added@.to_set().contains(l));
            assert(new_labels@.contains(l) == new_labels@.to_set().contains(l));
            if before_view is Some {
                let had = before_view->Some_0.labels;
                assert(had.contains(l) == had.to_set().contains(l));
            }
        }
    }
    (
        NodeRecord { labels, props: merged_props, xid },
        LabelDelta { added, removed: Vec::new() },
    )
}

/// Adds `id` to ascending ids, in its place. Says whether it was not there yet.
fn insert_label(ids: &mut Vec<LabelId>, id: LabelId) -> (fresh: bool)
    requires
        ascending(old(ids)@),
    ensures
        ascending(final(ids)@),
        final(ids)@.to_set() == old(ids)@.to_set().insert(id),
        fresh == !old(ids)@.to_set().contains(id),
{
    let mut at: usize = 0;
    while at < ids.len() && ids[at].0 < id.0
        invariant
            at <= ids.len(),
            forall|j: int| 0 <= j < at ==> (#[trigger] ids@[j]).0 < id.0,
        decreases ids.len() - at,
    {
        at += 1;
    }
    if at < ids.len() && ids[at].0 == id.0 {
        proof {
            assert(ids@[at as int] == id);
            assert(ids@.to_set().insert(id) =~= ids@.to_set());
        }
        return false;
    }
    let ghost before = ids@;
    ids.insert(at, id);
    proof {
        assert forall|x: LabelId| before.contains(x) implies x != id by {
            let j = choose|j: int| 0 <= j < before.len() && before[j] == x;
            assert(before[j] == x);
        }
        assert(ids@ == before.insert(at as int, id));
        assert forall|x: LabelId| #[trigger]
            ids@.contains(x) == (before.contains(x) || x == id) by {
            if before.contains(x) {
                let j = choose|j: int| 0 <= j < before.len() && before[j] == x;
                if j < at {
                    assert(before.insert(at as int, id)[j] == x);
                } else {
                    assert(before.insert(at as int, id)[j + 1] == x);
                }
            }
            if x == id {
                assert(before.insert(at as int, id)[at as int] == x);
            }
        }
        assert(ids@.to_set() =~= before.to_set().insert(id));
    }
    true
}

/// The labels of `ids` in ascending order, each once.
fn sorted_copy(ids: &Vec<LabelId>) -> (r: Vec<LabelId>)
    ensures
        ascending(r@),
        r@.to_set() == ids@.to_set(),
{
    let mut out: Vec<LabelId> = Vec::new();
    let mut i: usize = 0;
    proof {
        assert(ids@.take(0).to_set() =~= out@.to_set());
    }
    while i < ids.len()
        invariant
            i <= ids.len(),
            ascending(out@),
            out@.to_set() == ids@.take(i as int).to_set(),
        decreases ids.len() - i,
    {
        proof {
            lemma_take_more(ids@, i as int);
        }
        let _ = insert_label(&mut out, ids[i]);
        i += 1;
    }
    proof {
        assert(ids@.take(i as int) =~= ids@);
    }
    out
}

/// The properties of `under`, with those of `over` laid over them.
fn overlay(under: EdgeProps, over: &EdgeProps) -> (r: EdgeProps)
    ensures
        props::props_view(r) == props::props_view(under).union_prefer_right(
            props::props_view(*over),
        ),
{
    let mut out = under;
    let pairs = props::entries(over);
    let ghost all = props::sorted_entries(props::props_view(*over));
    let mut i: usize = 0;
    proof {
        assert(laid_over(props::props_view(under), all.take(0)) =~= props::props_view(under));
    }
    while i < pairs.len()
        invariant
            i <= pairs.len(),
            all == props::pairs_view(pairs@),
            props::props_view(out) == laid_over(props::props_view(under), all.take(i as int)),
        decreases pairs.len() - i,
    {
        let (id, value) = pairs[i];
        let ghost before = props::props_view(out);
        out.insert(id, value.clone());
        proof {
            assert(all[i as int] == (id, value@));
            assert(props::props_view(out) =~= before.insert(id, value@));
            assert(all.take(i + 1).drop_last() =~= all.take(i as int));
            assert(all.take(i + 1).last() == all[i as int]);
        }
        i += 1;
    }
    proof {
        assert(all.take(i as int) =~= all);
        lemma_laid_over(props::props_view(under), props::props_view(*over));
    }
    out
}

/// Pairs added to a map one after the other.
pub open spec fn laid_over(m: Map<PropId, ValueView>, pairs: Seq<(PropId, ValueView)>) -> Map<
    PropId,
    ValueView,
>
    decreases pairs.len(),
{
    if pairs.len() == 0 {
        m
    } else {
        laid_over(m, pairs.drop_last()).insert(pairs.last().0, pairs.last().1)
    }
}

proof fn lemma_laid_over_below(m: Map<PropId, ValueView>, over: Map<PropId, ValueView>, n: nat)
    requires
        n <= 0x1_0000_0000,
    ensures
        laid_over(m, props::entries_below(over, n)) == m.union_prefer_right(
            Map::new(|k: PropId| k < n && over.contains_key(k), |k: PropId| over[k]),
        ),
    decreases n,
{
    let all = props::entries_below(over, n);
    let low = Map::new(|k: PropId| k < n && over.contains_key(k), |k: PropId| over[k]);
    if n == 0 {
        assert(laid_over(m, all) =~= m.union_prefer_right(low));
    } else {
        lemma_laid_over_below(m, over, (n - 1) as nat);
        let lower = props::entries_below(over, (n - 1) as nat);
        let id = (n - 1) as PropId;
        if over.contains_key(id) {
            assert(all == lower.push((id, over[id])));
            assert(all.drop_last() =~= lower);
            assert(laid_over(m, all) == laid_over(m, lower).insert(id, over[id]));
        } else {
            assert(all == lower);
        }
        assert(laid_over(m, all) =~= m.union_prefer_right(low));
    }
}

proof fn lemma_laid_over(m: Map<PropId, ValueView>, over: Map<PropId, ValueView>)
    ensures
        laid_over(m, props::sorted_entries(over)) == m.union_prefer_right(over),
{
    lemma_laid_over_below(m, over, 0x1_0000_0000);
    assert(Map::new(|k: PropId| k < 0x1_0000_0000 && over.contains_key(k), |k: PropId| over[k])
        =~= over);
    assert(laid_over(m, props::sorted_entries(over)) =~= m.union_prefer_right(over));
}

proof fn lemma_take_more(s: Seq<LabelId>, i: int)
    requires
        0 <= i < s.len(),
    ensures
        s.take(i + 1).to_set() == s.take(i).to_set().insert(s[i]),
{
    let less = s.take(i);
    let more = s.take(i + 1);
    assert(more =~= less.push(s[i]));
    assert forall|x: LabelId| more.contains(x) == (less.contains(x) || x == s[i]) by {
        if less.contains(x) {
            let j = choose|j: int| 0 <= j < less.len() && less[j] == x;
            assert(more[j] == x);
        }
        if x == s[i] {
            assert(more[i] == x);
        }
    }
    assert(more.to_set() =~= less.to_set().insert(s[i]));
}

/// What [`ids_below`] lists, and in which order.
pub proof fn lemma_ids_below(set: Set<LabelId>, n: nat)
    requires
        n <= 0x1_0000_0000,
    ensures
        ascending(ids_below(set, n)),
        forall|x: LabelId| #[trigger]
            ids_below(set, n).contains(x) == (x.0 < n && set.contains(x)),
    decreases n,
{
    if n > 0 {
        lemma_ids_below(set, (n - 1) as nat);
        let lower = ids_below(set, (n - 1) as nat);
        let id = LabelId((n - 1) as u32);
        assert forall|j: int| 0 <= j < lower.len() implies (#[trigger] lower[j]).0 < n - 1 by {
            assert(lower.contains(lower[j]));
        }
        assert forall|x: LabelId| #[trigger]
            ids_below(set, n).contains(x) == (x.0 < n && set.contains(x)) by {
            if set.contains(id) {
                if lower.contains(x) {
                    let j = choose|j: int| 0 <= j < lower.len() && lower[j] == x;
                    assert(lower.push(id)[j] == x);
                }
                if x == id {
                    assert(lower.push(id)[lower.len() as int] == x);
                }
            }
        }
    }
}

/// A smaller set has a list that is no longer.
pub proof fn lemma_sorted_len(a: Set<LabelId>, b: Set<LabelId>, n: nat)
    requires
        a.subset_of(b),
    ensures
        ids_below(a, n).len() <= ids_below(b, n).len(),
    decreases n,
{
    if n > 0 {
        lemma_sorted_len(a, b, (n - 1) as nat);
    }
}

/// Ascending ids are the sorted list of their set.
pub proof fn lemma_sorted_unique(s: Seq<LabelId>)
    requires
        ascending(s),
    ensures
        s == sorted_labels(s.to_set()),
{
    let t = sorted_labels(s.to_set());
    lemma_ids_below(s.to_set(), 0x1_0000_0000);
    assert forall|x: LabelId| s.contains(x) == t.contains(x) by {}
    lemma_same_members(s, t);
}

proof fn lemma_same_members(a: Seq<LabelId>, b: Seq<LabelId>)
    requires
        ascending(a),
        ascending(b),
        forall|x: LabelId| a.contains(x) == b.contains(x),
    ensures
        a == b,
    decreases a.len(),
{
    if a.len() == 0 {
        if b.len() > 0 {
            assert(b.contains(b[0]));
            assert(a.contains(b[0]));
        }
        assert(a =~= b);
    } else {
        assert(a.contains(a.last()));
        assert(b.contains(a.last()));
        let j = choose|j: int| 0 <= j < b.len() && b[j] == a.last();
        assert(b.contains(b.last()));
        assert(a.contains(b.last()));
        let i = choose|i: int| 0 <= i < a.len() && a[i] == b.last();
        assert(a.last() == b.last()) by {
            if j < b.len() - 1 {
                assert(b[j].0 < b[b.len() - 1].0);
            }
            if i < a.len() - 1 {
                assert(a[i].0 < a[a.len() - 1].0);
            }
        }
        let a1 = a.drop_last();
        let b1 = b.drop_last();
        assert forall|x: LabelId| a1.contains(x) == b1.contains(x) by {
            if a1.contains(x) {
                let k = choose|k: int| 0 <= k < a1.len() && a1[k] == x;
                assert(a[k] == x);
                assert(a.contains(x));
                assert(b.contains(x));
                let m = choose|m: int| 0 <= m < b.len() && b[m] == x;
                assert(a[k].0 < a[a.len() - 1].0);
                assert(b1[m] == x);
            }
            if b1.contains(x) {
                let k = choose|k: int| 0 <= k < b1.len() && b1[k] == x;
                assert(b[k] == x);
                assert(b.contains(x));
                assert(a.contains(x));
                let m = choose|m: int| 0 <= m < a.len() && a[m] == x;
                assert(b[k].0 < b[b.len() - 1].0);
                assert(a1[m] == x);
            }
        }
        lemma_same_members(a1, b1);
        assert(a =~= a1.push(a.last()));
        assert(b =~= b1.push(b.last()));
    }
}

} // verus!
