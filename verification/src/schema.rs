//! Interned names: which id each label, predicate and property name has.

use vstd::prelude::*;

use crate::ids::SchemaKind;

verus! {

/// The type of value that a name is declared to carry. A name interned by a write has none.
#[derive(Debug, Clone, Copy, PartialEq, Eq, Structural)]
pub enum ValType {
    Untyped,
}

/// What a name asks of the storage layer.
#[derive(Debug, Clone, Copy, PartialEq, Eq, Structural)]
pub struct Directives {
    /// Whether the reverse projection of the edge is materialized.
    pub reverse: bool,
}

/// The definition stored for an interned name.
#[derive(Debug, PartialEq, Eq)]
pub struct SchemaEntry {
    pub name: String,
    pub value_type: ValType,
    pub directives: Directives,
}

/// What a [`SchemaEntry`] holds.
pub struct EntryView {
    pub name: Seq<char>,
    pub value_type: ValType,
    pub directives: Directives,
}

impl View for SchemaEntry {
    type V = EntryView;

    open spec fn view(&self) -> EntryView {
        EntryView {
            name: self.name@,
            value_type: self.value_type,
            directives: self.directives,
        }
    }
}

impl Clone for SchemaEntry {
    fn clone(&self) -> (r: SchemaEntry)
        ensures
            r@ == self@,
    {
        SchemaEntry {
            name: self.name.clone(),
            value_type: self.value_type,
            directives: self.directives,
        }
    }
}

/// The definition of a name that a write interns. A predicate always has its reverse
/// projection; nothing else is asked for.
pub open spec fn entry_for(kind: SchemaKind, name: Seq<char>) -> EntryView {
    EntryView {
        name,
        value_type: ValType::Untyped,
        directives: Directives { reverse: kind == SchemaKind::Predicate },
    }
}

/// An interned name.
pub struct SchemaRow {
    pub kind: SchemaKind,
    pub id: u32,
    pub name: String,
}

/// The ids of the interned names. A name inserted twice has the id that came last.
pub struct SchemaCache {
    pub rows: Vec<SchemaRow>,
}

/// The ids that stored definitions give to names, later ones overriding earlier ones.
pub open spec fn definitions_view(d: Seq<(SchemaKind, u32, EntryView)>) -> Map<
    (SchemaKind, Seq<char>),
    u32,
>
    decreases d.len(),
{
    if d.len() == 0 {
        Map::empty()
    } else {
        definitions_view(d.drop_last()).insert((d.last().0, d.last().2.name), d.last().1)
    }
}

/// What stored definitions say.
pub open spec fn entries_view(d: Seq<(SchemaKind, u32, SchemaEntry)>) -> Seq<
    (SchemaKind, u32, EntryView),
> {
    Seq::new(d.len(), |i: int| (d[i].0, d[i].1, d[i].2@))
}

/// The ids that rows give to names, later rows overriding earlier ones.
pub open spec fn rows_view(rows: Seq<SchemaRow>) -> Map<(SchemaKind, Seq<char>), u32>
    decreases rows.len(),
{
    if rows.len() == 0 {
        Map::empty()
    } else {
        rows_view(rows.drop_last()).insert((rows.last().kind, rows.last().name@), rows.last().id)
    }
}

impl View for SchemaCache {
    type V = Map<(SchemaKind, Seq<char>), u32>;

    open spec fn view(&self) -> Map<(SchemaKind, Seq<char>), u32> {
        rows_view(self.rows@)
    }
}

impl SchemaCache {
    /// A cache that knows no name.
    pub fn new() -> (r: SchemaCache)
        ensures
            r@ == Map::<(SchemaKind, Seq<char>), u32>::empty(),
    {
        SchemaCache { rows: Vec::new() }
    }

    /// The cache of the names that stored definitions define.
    pub fn rebuild(definitions: &Vec<(SchemaKind, u32, SchemaEntry)>) -> (r: SchemaCache)
        ensures
            r@ == definitions_view(entries_view(definitions@)),
    {
        let ghost all = entries_view(definitions@);
        let mut cache = SchemaCache::new();
        let mut i: usize = 0;
        while i < definitions.len()
            invariant
                i <= definitions.len(),
                all == entries_view(definitions@),
                cache@ == definitions_view(all.take(i as int)),
            decreases definitions.len() - i,
        {
            proof {
                assert(all.take(i + 1).drop_last() =~= all.take(i as int));
                assert(all.take(i + 1).last() == all[i as int]);
            }
            let definition = &definitions[i];
            cache.insert(definition.0, definition.1, definition.2.name.as_str());
            i += 1;
        }
        proof {
            assert(all.take(i as int) =~= all);
        }
        cache
    }

    /// The id of a name, if it was interned.
    pub fn id_of(&self, kind: SchemaKind, name: &str) -> (r: Option<u32>)
        ensures
            r == if self@.contains_key((kind, name@)) {
                Some(self@[(kind, name@)])
            } else {
                None
            },
    {
        let wanted: String = name.to_owned();
        let mut i: usize = self.rows.len();
        proof {
            assert(self.rows@.take(i as int) =~= self.rows@);
        }
        while i > 0
            invariant
                i <= self.rows.len(),
                wanted@ == name@,
                self@.contains_key((kind, name@)) == rows_view(
                    self.rows@.take(i as int),
                ).contains_key((kind, name@)),
                self@.contains_key((kind, name@)) ==> self@[(kind, name@)] == rows_view(
                    self.rows@.take(i as int),
                )[(kind, name@)],
            decreases i,
        {
            let ghost head = self.rows@.take(i as int);
            i -= 1;
            proof {
                assert(head.drop_last() =~= self.rows@.take(i as int));
                assert(head.last() == self.rows@[i as int]);
            }
            if self.rows[i].kind == kind && self.rows[i].name == wanted {
                return Some(self.rows[i].id);
            }
        }
        None
    }

    /// Records the id of a name.
    pub fn insert(&mut self, kind: SchemaKind, id: u32, name: &str)
        ensures
            final(self)@ == old(self)@.insert((kind, name@), id),
    {
        let row = SchemaRow { kind, id, name: name.to_owned() };
        self.rows.push(row);
        proof {
            assert(self.rows@.drop_last() =~= old(self).rows@);
        }
    }
}

} // verus!
