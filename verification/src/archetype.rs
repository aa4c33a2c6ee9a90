//! Archetypes: the tables that hold the dense components of entities with
//! one and the same signature.

use crate::component::ComponentSet;
use crate::entity::Entity;
use crate::flags::{flag_at, flagged, raise_flag};
use crate::storage::{swap_removed, DenseStorage};
use std::collections::HashMap;
use vstd::prelude::*;

verus! {

broadcast use vstd::std_specs::hash::group_hash_axioms;

/// Position of an archetype in the append-only archetype list.
#[derive(Clone, Copy, Debug, PartialEq, Eq, Structural, Hash)]
pub struct ArchetypeId {
    pub index: usize,
}

impl ArchetypeId {
    /// The archetype of entities without any dense component.
    pub fn empty() -> (r: Self)
        ensures
            r.index == 0,
    {
        ArchetypeId { index: 0 }
    }

    pub fn new(index: usize) -> (r: Self)
        ensures
            r.index == index,
    {
        ArchetypeId { index }
    }

    pub fn index(&self) -> (r: usize)
        ensures
            r == self.index,
    {
        self.index
    }
}

/// A set of archetypes, held by position in the archetype list.
#[derive(Debug)]
pub struct ArchetypeSet {
    flags: Vec<bool>,
}

impl View for ArchetypeSet {
    type V = Set<usize>;

    closed spec fn view(&self) -> Set<usize> {
        flagged(self.flags@)
    }
}

impl ArchetypeSet {
    pub fn new() -> (r: Self)
        ensures
            r@ == Set::<usize>::empty(),
    {
        let r = ArchetypeSet { flags: Vec::new() };
        assert(r@ =~= Set::<usize>::empty());
        r
    }

    pub fn insert(&mut self, id: ArchetypeId)
        ensures
            final(self)@ == old(self)@.insert(id.index),
    {
        raise_flag(&mut self.flags, id.index);
    }

    pub fn contains(&self, id: ArchetypeId) -> (r: bool)
        ensures
            r == self@.contains(id.index),
    {
        flag_at(&self.flags, id.index)
    }
}

/// The table of all entities that have exactly the dense components of one
/// signature: one column per component of the signature, one row per entity.
pub struct Archetype<V> {
    signature: ComponentSet,
    entities: Vec<Entity>,
    /// By registry position; the columns outside the signature stay empty.
    columns: Vec<DenseStorage<V>>,
    add_edges: HashMap<usize, ArchetypeId>,
    remove_edges: HashMap<usize, ArchetypeId>,
}

impl<V> Archetype<V> {
    /// Registry positions of the dense components that every row has.
    pub closed spec fn sig(&self) -> Set<usize> {
        self.signature@
    }

    /// The entity of each row.
    pub closed spec fn rows(&self) -> Seq<Entity> {
        self.entities@
    }

    /// The values of component `c`, one per row; empty for a component
    /// outside the signature.
    pub closed spec fn column(&self, c: usize) -> Seq<V> {
        if c < self.columns@.len() {
            self.columns@[c as int]@
        } else {
            Seq::empty()
        }
    }

    /// One more than the largest position a column exists for.
    pub closed spec fn width(&self) -> nat {
        self.columns@.len()
    }

    /// Cached answers to "which archetype has this signature plus `c`".
    pub closed spec fn add_edges(&self) -> Map<usize, ArchetypeId> {
        self.add_edges@
    }

    /// Cached answers to "which archetype has this signature minus `c`".
    pub closed spec fn remove_edges(&self) -> Map<usize, ArchetypeId> {
        self.remove_edges@
    }

    /// Every column of the signature has one value per row.
    pub closed spec fn wf(&self) -> bool {
        &&& self.columns@.len() == self.signature.bound()
        &&& forall|c: int|
            0 <= c < self.columns@.len() ==> (#[trigger] self.columns@[c])@.len()
                == if self.sig().contains(
                c as usize,
            ) {
                self.entities@.len()
            } else {
                0
            }
    }

    /// The number of rows fits the machine word.
    pub proof fn lemma_rows_fit(&self)
        ensures
            self.rows().len() <= usize::MAX,
    {
        assert(self.entities.len() == self.entities@.len());
    }

    pub proof fn lemma_columns_match_rows(&self, c: usize)
        requires
            self.wf(),
            self.sig().contains(c),
        ensures
            c < self.width(),
            self.column(c).len() == self.rows().len(),
    {
        self.signature.lemma_members_below_bound();
    }

    /// An archetype without rows and without cached edges.
    pub fn new(signature: ComponentSet) -> (r: Self)
        ensures
            r.wf(),
            r.sig() == signature@,
            r.rows() == Seq::<Entity>::empty(),
            r.add_edges() == Map::<usize, ArchetypeId>::empty(),
            r.remove_edges() == Map::<usize, ArchetypeId>::empty(),
    {
        let n: usize = signature.capacity();
        let mut columns: Vec<DenseStorage<V>> = Vec::new();
        while columns.len() < n
            invariant
                columns@.len() <= n,
                forall|c: int| 0 <= c < columns@.len() ==> (#[trigger] columns@[c])@.len() == 0,
            decreases n - columns@.len(),
        {
            columns.push(DenseStorage::new());
        }
        Archetype {
            signature,
            entities: Vec::new(),
            columns,
            add_edges: HashMap::new(),
            remove_edges: HashMap::new(),
        }
    }

    pub fn signature(&self) -> (r: &ComponentSet)
        ensures
            r@ == self.sig(),
    {
        &self.signature
    }

    pub fn entities(&self) -> (r: &Vec<Entity>)
        ensures
            r@ == self.rows(),
    {
        &self.entities
    }

    /// Number of rows.
    pub fn len(&self) -> (r: usize)
        ensures
            r == self.rows().len(),
    {
        self.entities.len()
    }

    pub fn has_component(&self, c: usize) -> (r: bool)
        ensures
            r == self.sig().contains(c),
    {
        self.signature.contains_index(c)
    }

    /// The value of component `c` in `row`.
    pub fn get(&self, c: usize, row: usize) -> (r: Option<&V>)
        requires
            self.wf(),
        ensures
            r == if self.sig().contains(c) && row < self.rows().len() {
                Some(&self.column(c)[row as int])
            } else {
                None
            },
    {
        if self.signature.contains_index(c) {
            self.columns[c].get(row)
        } else {
            None
        }
    }

    /// The value of component `c` in `row`, for changing it in place.
    pub fn get_mut(&mut self, c: usize, row: usize) -> (r: &mut V)
        requires
            old(self).wf(),
            old(self).sig().contains(c),
            row < old(self).rows().len(),
        ensures
            *r == old(self).column(c)[row as int],
            final(self).wf(),
            final(self).sig() == old(self).sig(),
            final(self).rows() == old(self).rows(),
            final(self).width() == old(self).width(),
            final(self).column(c) == old(self).column(c).update(row as int, *final(r)),
            forall|d: usize| d != c ==> final(self).column(d) == old(self).column(d),
            final(self).add_edges() == old(self).add_edges(),
            final(self).remove_edges() == old(self).remove_edges(),
    {
        proof {
            self.signature.lemma_members_below_bound();
        }
        self.columns[c].get_mut(row)
    }

    /// Overwrites the value of component `c` in `row`.
    pub fn replace(&mut self, c: usize, row: usize, value: V) -> (r: V)
        requires
            old(self).wf(),
            old(self).sig().contains(c),
            row < old(self).rows().len(),
        ensures
            final(self).wf(),
            r == old(self).column(c)[row as int],
            final(self).sig() == old(self).sig(),
            final(self).rows() == old(self).rows(),
            final(self).width() == old(self).width(),
            final(self).column(c) == old(self).column(c).update(row as int, value),
            forall|d: usize| d != c ==> final(self).column(d) == old(self).column(d),
            final(self).add_edges() == old(self).add_edges(),
            final(self).remove_edges() == old(self).remove_edges(),
    {
        proof {
            self.signature.lemma_members_below_bound();
        }
        self.columns[c].replace(row, value)
    }

    /// Appends a row for `entity`.  `values` is indexed by registry position
    /// and holds a value at least for every component of the signature;
    /// values for other components are dropped.
    pub fn push_row(&mut self, entity: Entity, values: Vec<Option<V>>) -> (row: usize)
        requires
            old(self).wf(),
            forall|c: usize| #[trigger]
                old(self).sig().contains(c) ==> c < values@.len() && values@[c as int].is_some(),
        ensures
            final(self).wf(),
            row == old(self).rows().len(),
            final(self).sig() == old(self).sig(),
            final(self).width() == old(self).width(),
            final(self).rows() == old(self).rows().push(entity),
            forall|c: usize| #[trigger]
                final(self).sig().contains(c) ==> final(self).column(c) == old(self).column(
                    c,
                ).push(values@[c as int].unwrap()),
            final(self).add_edges() == old(self).add_edges(),
            final(self).remove_edges() == old(self).remove_edges(),
    {
        let mut values = values;
        let ghost given = values@;
        let row: usize = self.entities.len();
        let n: usize = self.columns.len();
        let mut c: usize = 0;
        while c < n
            invariant
                c <= n,
                n == self.columns@.len(),
                n == old(self).columns@.len(),
                self.signature == old(self).signature,
                self.entities == old(self).entities,
                self.add_edges == old(self).add_edges,
                self.remove_edges == old(self).remove_edges,
                old(self).wf(),
                values@.len() == given.len(),
                forall|d: usize| #[trigger]
                    old(self).sig().contains(d) ==> d < given.len() && given[d as int].is_some(),
                forall|d: int| c <= d < given.len() ==> values@[d] == given[d],
                forall|d: int|
                    0 <= d < c ==> (#[trigger] self.columns@[d])@ == if old(self).sig().contains(
                        d as usize,
                    ) {
                        old(self).columns@[d]@.push(given[d].unwrap())
                    } else {
                        old(self).columns@[d]@
                    },
                forall|d: int| c <= d < n ==> self.columns@[d] == old(self).columns@[d],
            decreases n - c,
        {
            if self.signature.contains_index(c) {
                assert(old(self).sig().contains(c));
                let value = values[c].take().unwrap();
                self.columns[c].push(value);
            }
            c += 1;
        }
        self.entities.push(entity);
        proof {
            self.signature.lemma_members_below_bound();
        }
        row
    }

    /// Takes `row` out and returns its values by registry position: `Some`
    /// for the components of the signature, `None` elsewhere.  The last row
    /// moves into the gap.
    pub fn swap_remove_row(&mut self, row: usize) -> (values: Vec<Option<V>>)
        requires
            old(self).wf(),
            row < old(self).rows().len(),
        ensures
            final(self).wf(),
            final(self).sig() == old(self).sig(),
            final(self).width() == old(self).width(),
            final(self).rows() == swap_removed(old(self).rows(), row as int),
            forall|c: usize| #[trigger]
                final(self).sig().contains(c) ==> final(self).column(c) == swap_removed(
                    old(self).column(c),
                    row as int,
                ),
            values@.len() == old(self).width(),
            forall|c: usize|
                c < values@.len() ==> #[trigger] values@[c as int] == if old(self).sig().contains(
                    c,
                ) {
                    Some(old(self).column(c)[row as int])
                } else {
                    None
                },
            final(self).add_edges() == old(self).add_edges(),
            final(self).remove_edges() == old(self).remove_edges(),
    {
        let mut values: Vec<Option<V>> = Vec::new();
        let n: usize = self.columns.len();
        let mut c: usize = 0;
        while c < n
            invariant
                c <= n,
                n == self.columns@.len(),
                n == old(self).columns@.len(),
                self.signature == old(self).signature,
                self.entities == old(self).entities,
                self.add_edges == old(self).add_edges,
                self.remove_edges == old(self).remove_edges,
                old(self).wf(),
                row < old(self).entities@.len(),
                values@.len() == c,
                forall|d: int|
                    0 <= d < c ==> (#[trigger] self.columns@[d])@ == if old(self).sig().contains(
                        d as usize,
                    ) {
                        swap_removed(old(self).columns@[d]@, row as int)
                    } else {
                        old(self).columns@[d]@
                    },
                forall|d: int|
                    0 <= d < c ==> #[trigger] values@[d] == if old(self).sig().contains(
                        d as usize,
                    ) {
                        Some(old(self).columns@[d]@[row as int])
                    } else {
                        None
                    },
                forall|d: int| c <= d < n ==> self.columns@[d] == old(self).columns@[d],
            decreases n - c,
        {
            if self.signature.contains_index(c) {
                let value = self.columns[c].swap_remove(row);
                values.push(Some(value));
            } else {
                values.push(None);
            }
            c += 1;
        }
        self.entities.swap_remove(row);
        proof {
            self.signature.lemma_members_below_bound();
        }
        values
    }

    /// The cached archetype for this signature plus component `c`.
    pub fn add_edge(&self, c: usize) -> (r: Option<ArchetypeId>)
        ensures
            r == if self.add_edges().contains_key(c) {
                Some(self.add_edges()[c])
            } else {
                None
            },
    {
        match self.add_edges.get(&c) {
            Some(target) => Some(*target),
            None => None,
        }
    }

    /// The cached archetype for this signature minus component `c`.
    pub fn remove_edge(&self, c: usize) -> (r: Option<ArchetypeId>)
        ensures
            r == if self.remove_edges().contains_key(c) {
                Some(self.remove_edges()[c])
            } else {
                None
            },
    {
        match self.remove_edges.get(&c) {
            Some(target) => Some(*target),
            None => None,
        }
    }

    pub fn set_add_edge(&mut self, c: usize, target: ArchetypeId)
        ensures
            final(self).wf() == old(self).wf(),
            final(self).sig() == old(self).sig(),
            final(self).rows() == old(self).rows(),
            final(self).width() == old(self).width(),
            forall|d: usize| final(self).column(d) == old(self).column(d),
            final(self).add_edges() == old(self).add_edges().insert(c, target),
            final(self).remove_edges() == old(self).remove_edges(),
    {
        self.add_edges.insert(c, target);
    }

    pub fn set_remove_edge(&mut self, c: usize, target: ArchetypeId)
        ensures
            final(self).wf() == old(self).wf(),
            final(self).sig() == old(self).sig(),
            final(self).rows() == old(self).rows(),
            final(self).width() == old(self).width(),
            forall|d: usize| final(self).column(d) == old(self).column(d),
            final(self).add_edges() == old(self).add_edges(),
            final(self).remove_edges() == old(self).remove_edges().insert(c, target),
    {
        self.remove_edges.insert(c, target);
    }
}

/// The append-only list of archetypes.  An archetype is never removed, so
/// an `ArchetypeId` stays valid for as long as the list lives.
pub struct Archetypes<V> {
    list: Vec<Archetype<V>>,
}

impl<V> View for Archetypes<V> {
    type V = Seq<Archetype<V>>;

    closed spec fn view(&self) -> Seq<Archetype<V>> {
        self.list@
    }
}

/// Every cached edge of `list[a]` leads to the archetype it promises.
pub open spec fn edges_valid<V>(list: Seq<Archetype<V>>, a: int) -> bool {
    &&& forall|c: usize| #[trigger]
        list[a].add_edges().contains_key(c) ==> {
            let t = list[a].add_edges()[c].index as int;
            t < list.len() && list[t].sig() == list[a].sig().insert(c)
        }
    &&& forall|c: usize| #[trigger]
        list[a].remove_edges().contains_key(c) ==> {
            let t = list[a].remove_edges()[c].index as int;
            t < list.len() && list[t].sig() == list[a].sig().remove(c)
        }
}

/// The list starts with the empty signature, holds every signature once,
/// and all its tables and cached edges are sound.
pub open spec fn archetypes_wf<V>(list: Seq<Archetype<V>>) -> bool {
    &&& list.len() >= 1
    &&& list[0].sig() == Set::<usize>::empty()
    &&& forall|a: int| 0 <= a < list.len() ==> (#[trigger] list[a]).wf()
    &&& forall|a: int, b: int|
        0 <= a < list.len() && 0 <= b < list.len() && (#[trigger] list[a]).sig() == (
        #[trigger] list[b]).sig() ==> a == b
    &&& forall|a: int| 0 <= a < list.len() ==> #[trigger] edges_valid(list, a)
}

/// `newer` still holds every archetype of `older`, under the same
/// identifier and with the same signature.
pub open spec fn archetypes_extend<V>(newer: Seq<Archetype<V>>, older: Seq<Archetype<V>>) -> bool {
    &&& older.len() <= newer.len()
    &&& forall|a: int| 0 <= a < older.len() ==> (#[trigger] newer[a]).sig() == older[a].sig()
}

/// `newer` is `older` with the same rows everywhere; at most new, empty
/// archetypes were appended and edges were cached.
pub open spec fn rows_untouched<V>(newer: Seq<Archetype<V>>, older: Seq<Archetype<V>>) -> bool {
    &&& archetypes_extend(newer, older)
    &&& forall|a: int|
        0 <= a < older.len() ==> (#[trigger] newer[a]).rows() == older[a].rows() && newer[a].width()
            == older[a].width() && forall|c: usize| newer[a].column(c) == older[a].column(c)
    &&& forall|a: int| older.len() <= a < newer.len() ==> (#[trigger] newer[a]).rows().len() == 0
}

impl<V> Archetypes<V> {
    pub open spec fn wf(&self) -> bool {
        archetypes_wf(self@)
    }

    /// The number of archetypes fits the machine word.
    pub proof fn lemma_len_fits(&self)
        ensures
            self@.len() <= usize::MAX,
    {
        assert(self.list.len() == self.list@.len());
    }

    /// A list that holds only the archetype of the empty signature.
    pub fn new() -> (r: Self)
        ensures
            r.wf(),
            r@.len() == 1,
            r@[0].rows().len() == 0,
    {
        let mut list: Vec<Archetype<V>> = Vec::new();
        list.push(Archetype::new(ComponentSet::new()));
        let r = Archetypes { list };
        assert(r@[0].add_edges() =~= Map::<usize, ArchetypeId>::empty());
        assert(edges_valid(r@, 0));
        r
    }

    pub fn len(&self) -> (r: usize)
        ensures
            r == self@.len(),
    {
        self.list.len()
    }

    pub fn get(&self, id: ArchetypeId) -> (r: Option<&Archetype<V>>)
        ensures
            r == if id.index < self@.len() {
                Some(&self@[id.index as int])
            } else {
                None
            },
    {
        if id.index < self.list.len() {
            Some(&self.list[id.index])
        } else {
            None
        }
    }

    /// The archetype whose signature is `signature`, if it exists yet.
    pub fn find(&self, signature: &ComponentSet) -> (r: Option<ArchetypeId>)
        ensures
            match r {
                Some(id) => id.index < self@.len() && self@[id.index as int].sig() == signature@,
                None => forall|a: int| 0 <= a < self@.len() ==> (#[trigger] self@[a]).sig()
                    != signature@,
            },
    {
        let mut a: usize = 0;
        while a < self.list.len()
            invariant
                a <= self.list@.len(),
                forall|b: int| 0 <= b < a ==> (#[trigger] self@[b]).sig() != signature@,
            decreases self.list@.len() - a,
        {
            if self.list[a].signature().same_as(signature) {
                return Some(ArchetypeId { index: a });
            }
            a += 1;
        }
        None
    }

    /// The archetype whose signature is `signature`; it is appended, without
    /// rows, if the list does not hold it yet.
    pub fn get_or_create(&mut self, signature: ComponentSet) -> (id: ArchetypeId)
        requires
            old(self).wf(),
        ensures
            final(self).wf(),
            id.index < final(self)@.len(),
            final(self)@[id.index as int].sig() == signature@,
            rows_untouched(final(self)@, old(self)@),
            forall|a: int| 0 <= a < old(self)@.len() ==> final(self)@[a] == old(self)@[a],
            final(self)@.len() == old(self)@.len() || (final(self)@.len() == old(self)@.len() + 1
                && id.index == old(self)@.len()),
            (exists|a: int| 0 <= a < old(self)@.len() && (#[trigger] old(self)@[a]).sig()
                == signature@) ==> final(self)@.len() == old(self)@.len(),
    {
        match self.find(&signature) {
            Some(id) => id,
            None => {
                let index: usize = self.list.len();
                let ghost wanted = signature@;
                self.list.push(Archetype::new(signature));
                proof {
                    let list = self.list@;
                    assert forall|a: int| 0 <= a < list.len() implies #[trigger] edges_valid(
                        list,
                        a,
                    ) by {
                        if a < index {
                            assert(list[a] == old(self)@[a]);
                            assert(edges_valid(old(self)@, a));
                            assert forall|c: usize| #[trigger]
                                list[a].add_edges().contains_key(c) implies ({
                                let t = list[a].add_edges()[c].index as int;
                                t < list.len() && list[t].sig() == list[a].sig().insert(c)
                            }) by {
                                let t = list[a].add_edges()[c].index as int;
                                assert(list[t] == old(self)@[t]);
                            }
                            assert forall|c: usize| #[trigger]
                                list[a].remove_edges().contains_key(c) implies ({
                                let t = list[a].remove_edges()[c].index as int;
                                t < list.len() && list[t].sig() == list[a].sig().remove(c)
                            }) by {
                                let t = list[a].remove_edges()[c].index as int;
                                assert(list[t] == old(self)@[t]);
                            }
                        }
                    }
                    assert forall|a: int, b: int|
                        0 <= a < list.len() && 0 <= b < list.len() && (#[trigger] list[a]).sig()
                            == (#[trigger] list[b]).sig() implies a == b by {
                        if a < index {
                            assert(list[a] == old(self)@[a]);
                        }
                        if b < index {
                            assert(list[b] == old(self)@[b]);
                        }
                    }
                    assert(list[0] == old(self)@[0]);
                    assert forall|a: int| 0 <= a < list.len() implies (#[trigger] list[a]).wf() by {
                        if a < index {
                            assert(list[a] == old(self)@[a]);
                        }
                    }
                }
                ArchetypeId { index }
            },
        }
    }
}

/// `newer` has the signatures of `older` and only edges that are sound in
/// `older`, so it is well-formed as soon as its tables are.
proof fn lemma_same_signatures_wf<V>(newer: Seq<Archetype<V>>, older: Seq<Archetype<V>>)
    requires
        archetypes_wf(older),
        newer.len() == older.len(),
        forall|a: int|
            0 <= a < newer.len() ==> (#[trigger] newer[a]).wf() && newer[a].sig() == older[a].sig(),
        forall|a: int, c: usize|
            0 <= a < newer.len() && #[trigger] newer[a].add_edges().contains_key(c) ==> {
                let t = newer[a].add_edges()[c].index as int;
                t < older.len() && older[t].sig() == older[a].sig().insert(c)
            },
        forall|a: int, c: usize|
            0 <= a < newer.len() && #[trigger] newer[a].remove_edges().contains_key(c) ==> {
                let t = newer[a].remove_edges()[c].index as int;
                t < older.len() && older[t].sig() == older[a].sig().remove(c)
            },
    ensures
        archetypes_wf(newer),
{
    assert forall|a: int| 0 <= a < newer.len() implies #[trigger] edges_valid(newer, a) by {
        assert forall|c: usize| #[trigger] newer[a].add_edges().contains_key(c) implies ({
            let t = newer[a].add_edges()[c].index as int;
            t < newer.len() && newer[t].sig() == newer[a].sig().insert(c)
        }) by {
            let t = newer[a].add_edges()[c].index as int;
            assert(newer[t].sig() == older[t].sig());
        }
        assert forall|c: usize| #[trigger] newer[a].remove_edges().contains_key(c) implies ({
            let t = newer[a].remove_edges()[c].index as int;
            t < newer.len() && newer[t].sig() == newer[a].sig().remove(c)
        }) by {
            let t = newer[a].remove_edges()[c].index as int;
            assert(newer[t].sig() == older[t].sig());
        }
    }
    assert forall|a: int, b: int|
        0 <= a < newer.len() && 0 <= b < newer.len() && (#[trigger] newer[a]).sig() == (
        #[trigger] newer[b]).sig() implies a == b by {
        assert(older[a].sig() == older[b].sig());
    }
    assert(newer[0].sig() == older[0].sig());
}

/// The edges of a well-formed list, spelled out for one archetype.
proof fn lemma_edges_of<V>(list: Seq<Archetype<V>>, a: int)
    requires
        archetypes_wf(list),
        0 <= a < list.len(),
    ensures
        forall|c: usize| #[trigger]
            list[a].add_edges().contains_key(c) ==> {
                let t = list[a].add_edges()[c].index as int;
                t < list.len() && list[t].sig() == list[a].sig().insert(c)
            },
        forall|c: usize| #[trigger]
            list[a].remove_edges().contains_key(c) ==> {
                let t = list[a].remove_edges()[c].index as int;
                t < list.len() && list[t].sig() == list[a].sig().remove(c)
            },
{
    assert(edges_valid(list, a));
}

impl<V> Archetypes<V> {
    /// Caches that adding component `c` to `from` leads to `to`.
    fn cache_add_edge(&mut self, from: ArchetypeId, c: usize, to: ArchetypeId)
        requires
            old(self).wf(),
            from.index < old(self)@.len(),
            to.index < old(self)@.len(),
            old(self)@[to.index as int].sig() == old(self)@[from.index as int].sig().insert(c),
        ensures
            final(self).wf(),
            final(self)@.len() == old(self)@.len(),
            rows_untouched(final(self)@, old(self)@),
            final(self)@[from.index as int].add_edges()
                == old(self)@[from.index as int].add_edges().insert(
                c,
                to,
            ),
            final(self)@[from.index as int].remove_edges()
                == old(self)@[from.index as int].remove_edges(),
            forall|b: int|
                0 <= b < old(self)@.len() && b != from.index ==> final(self)@[b] == old(self)@[b],
    {
        self.list[from.index].set_add_edge(c, to);
        proof {
            let older = old(self)@;
            let newer = self.list@;
            assert forall|a: int, d: usize|
                0 <= a < newer.len() && #[trigger] newer[a].add_edges().contains_key(d) implies ({
                let t = newer[a].add_edges()[d].index as int;
                t < older.len() && older[t].sig() == older[a].sig().insert(d)
            }) by {
                lemma_edges_of(older, a);
                if a == from.index && d == c {
                } else {
                    assert(older[a].add_edges().contains_key(d));
                }
            }
            assert forall|a: int, d: usize|
                0 <= a < newer.len() && #[trigger] newer[a].remove_edges().contains_key(
                    d,
                ) implies ({
                let t = newer[a].remove_edges()[d].index as int;
                t < older.len() && older[t].sig() == older[a].sig().remove(d)
            }) by {
                lemma_edges_of(older, a);
                assert(older[a].remove_edges().contains_key(d));
            }
            lemma_same_signatures_wf(newer, older);
        }
    }

    /// Caches that removing component `c` from `from` leads to `to`.
    fn cache_remove_edge(&mut self, from: ArchetypeId, c: usize, to: ArchetypeId)
        requires
            old(self).wf(),
            from.index < old(self)@.len(),
            to.index < old(self)@.len(),
            old(self)@[to.index as int].sig() == old(self)@[from.index as int].sig().remove(c),
        ensures
            final(self).wf(),
            final(self)@.len() == old(self)@.len(),
            rows_untouched(final(self)@, old(self)@),
            final(self)@[from.index as int].remove_edges()
                == old(self)@[from.index as int].remove_edges().insert(c, to),
            final(self)@[from.index as int].add_edges()
                == old(self)@[from.index as int].add_edges(),
            forall|b: int|
                0 <= b < old(self)@.len() && b != from.index ==> final(self)@[b] == old(self)@[b],
    {
        self.list[from.index].set_remove_edge(c, to);
        proof {
            let older = old(self)@;
            let newer = self.list@;
            assert forall|a: int, d: usize|
                0 <= a < newer.len() && #[trigger] newer[a].add_edges().contains_key(d) implies ({
                let t = newer[a].add_edges()[d].index as int;
                t < older.len() && older[t].sig() == older[a].sig().insert(d)
            }) by {
                lemma_edges_of(older, a);
                assert(older[a].add_edges().contains_key(d));
            }
            assert forall|a: int, d: usize|
                0 <= a < newer.len() && #[trigger] newer[a].remove_edges().contains_key(
                    d,
                ) implies ({
                let t = newer[a].remove_edges()[d].index as int;
                t < older.len() && older[t].sig() == older[a].sig().remove(d)
            }) by {
                lemma_edges_of(older, a);
                if a == from.index && d == c {
                } else {
                    assert(older[a].remove_edges().contains_key(d));
                }
            }
            lemma_same_signatures_wf(newer, older);
        }
    }

    /// The archetype whose signature is that of `from` plus component `c`.
    /// The answer is cached on `from`, and the way back on the target.
    pub fn insert_target(&mut self, from: ArchetypeId, c: usize) -> (to: ArchetypeId)
        requires
            old(self).wf(),
            from.index < old(self)@.len(),
        ensures
            final(self).wf(),
            to.index < final(self)@.len(),
            final(self)@[to.index as int].sig() == old(self)@[from.index as int].sig().insert(c),
            rows_untouched(final(self)@, old(self)@),
            final(self)@.len() == old(self)@.len() || (final(self)@.len() == old(self)@.len() + 1
                && to.index == old(self)@.len()),
            final(self)@[from.index as int].add_edges().contains_key(c),
            final(self)@[from.index as int].add_edges()[c] == to,
            !old(self)@[from.index as int].add_edges().contains_key(c)
                && !old(self)@[from.index as int].sig().contains(c)
                ==> final(self)@[to.index as int].remove_edges().contains_key(c)
                && final(self)@[to.index as int].remove_edges()[c] == from,
    {
        match self.list[from.index].add_edge(c) {
            Some(to) => {
                proof {
                    lemma_edges_of(self@, from.index as int);
                }
                to
            },
            None => {
                let known: bool = self.list[from.index].has_component(c);
                let mut signature = self.list[from.index].signature().copy();
                signature.insert_index(c);
                let to = self.get_or_create(signature);
                let ghost middle = self@;
                self.cache_add_edge(from, c, to);
                if !known {
                    proof {
                        let target_sig = self@[to.index as int].sig();
                        assert(self@[from.index as int].sig() =~= target_sig.remove(
                            c,
                        ));
                    }
                    self.cache_remove_edge(to, c, from);
                }
                to
            },
        }
    }

    /// The archetype whose signature is that of `from` minus component `c`.
    /// The answer is cached on `from`, and the way back on the target.
    pub fn remove_target(&mut self, from: ArchetypeId, c: usize) -> (to: ArchetypeId)
        requires
            old(self).wf(),
            from.index < old(self)@.len(),
        ensures
            final(self).wf(),
            to.index < final(self)@.len(),
            final(self)@[to.index as int].sig() == old(self)@[from.index as int].sig().remove(c),
            rows_untouched(final(self)@, old(self)@),
            final(self)@.len() == old(self)@.len() || (final(self)@.len() == old(self)@.len() + 1
                && to.index == old(self)@.len()),
            final(self)@[from.index as int].remove_edges().contains_key(c),
            final(self)@[from.index as int].remove_edges()[c] == to,
            !old(self)@[from.index as int].remove_edges().contains_key(c)
                && old(self)@[from.index as int].sig().contains(c)
                ==> final(self)@[to.index as int].add_edges().contains_key(c)
                && final(self)@[to.index as int].add_edges()[c] == from,
    {
        match self.list[from.index].remove_edge(c) {
            Some(to) => {
                proof {
                    lemma_edges_of(self@, from.index as int);
                }
                to
            },
            None => {
                let known: bool = self.list[from.index].has_component(c);
                let mut signature = self.list[from.index].signature().copy();
                signature.remove_index(c);
                let to = self.get_or_create(signature);
                self.cache_remove_edge(from, c, to);
                if known {
                    proof {
                        let target_sig = self@[to.index as int].sig();
                        assert(self@[from.index as int].sig() =~= target_sig.insert(
                            c,
                        ));
                    }
                    self.cache_add_edge(to, c, from);
                }
                to
            },
        }
    }

    /// Appends a row to archetype `a`; see [`Archetype::push_row`].
    pub fn push_row(&mut self, a: ArchetypeId, entity: Entity, values: Vec<Option<V>>) -> (row:
        usize)
        requires
            old(self).wf(),
            a.index < old(self)@.len(),
            forall|c: usize| #[trigger]
                old(self)@[a.index as int].sig().contains(c) ==> c < values@.len()
                    && values@[c as int].is_some(),
        ensures
            final(self).wf(),
            final(self)@.len() == old(self)@.len(),
            archetypes_extend(final(self)@, old(self)@),
            forall|b: int|
                0 <= b < old(self)@.len() && b != a.index ==> final(self)@[b] == old(self)@[b],
            row == old(self)@[a.index as int].rows().len(),
            final(self)@[a.index as int].rows() == old(self)@[a.index as int].rows().push(entity),
            final(self)@[a.index as int].width() == old(self)@[a.index as int].width(),
            forall|c: usize| #[trigger]
                final(self)@[a.index as int].sig().contains(c)
                    ==> final(self)@[a.index as int].column(
                    c,
                ) == old(self)@[a.index as int].column(c).push(values@[c as int].unwrap()),
    {
        let row = self.list[a.index].push_row(entity, values);
        proof {
            lemma_one_table_changed(self@, old(self)@, a.index as int);
        }
        row
    }

    /// Takes a row out of archetype `a`; see [`Archetype::swap_remove_row`].
    pub fn swap_remove_row(&mut self, a: ArchetypeId, row: usize) -> (values: Vec<Option<V>>)
        requires
            old(self).wf(),
            a.index < old(self)@.len(),
            row < old(self)@[a.index as int].rows().len(),
        ensures
            final(self).wf(),
            final(self)@.len() == old(self)@.len(),
            archetypes_extend(final(self)@, old(self)@),
            forall|b: int|
                0 <= b < old(self)@.len() && b != a.index ==> final(self)@[b] == old(self)@[b],
            final(self)@[a.index as int].rows() == swap_removed(
                old(self)@[a.index as int].rows(),
                row as int,
            ),
            final(self)@[a.index as int].width() == old(self)@[a.index as int].width(),
            forall|c: usize| #[trigger]
                final(self)@[a.index as int].sig().contains(c)
                    ==> final(self)@[a.index as int].column(
                    c,
                ) == swap_removed(old(self)@[a.index as int].column(c), row as int),
            values@.len() == old(self)@[a.index as int].width(),
            forall|c: usize|
                c < values@.len() ==> #[trigger] values@[c as int]
                    == if old(self)@[a.index as int].sig().contains(c) {
                    Some(old(self)@[a.index as int].column(c)[row as int])
                } else {
                    None
                },
    {
        let values = self.list[a.index].swap_remove_row(row);
        proof {
            lemma_one_table_changed(self@, old(self)@, a.index as int);
        }
        values
    }

    /// Overwrites one value of archetype `a`; see [`Archetype::replace`].
    pub fn replace(&mut self, a: ArchetypeId, c: usize, row: usize, value: V) -> (r: V)
        requires
            old(self).wf(),
            a.index < old(self)@.len(),
            old(self)@[a.index as int].sig().contains(c),
            row < old(self)@[a.index as int].rows().len(),
        ensures
            final(self).wf(),
            final(self)@.len() == old(self)@.len(),
            archetypes_extend(final(self)@, old(self)@),
            forall|b: int|
                0 <= b < old(self)@.len() && b != a.index ==> final(self)@[b] == old(self)@[b],
            r == old(self)@[a.index as int].column(c)[row as int],
            final(self)@[a.index as int].rows() == old(self)@[a.index as int].rows(),
            final(self)@[a.index as int].width() == old(self)@[a.index as int].width(),
            final(self)@[a.index as int].column(c) == old(self)@[a.index as int].column(c).update(
                row as int,
                value,
            ),
            forall|d: usize|
                d != c ==> final(self)@[a.index as int].column(d)
                    == old(self)@[a.index as int].column(d),
    {
        let r = self.list[a.index].replace(c, row, value);
        proof {
            lemma_one_table_changed(self@, old(self)@, a.index as int);
        }
        r
    }

    /// One value of archetype `a`, for changing it in place; see
    /// [`Archetype::get_mut`].
    pub fn get_mut(&mut self, a: ArchetypeId, c: usize, row: usize) -> (r: &mut V)
        requires
            old(self).wf(),
            a.index < old(self)@.len(),
            old(self)@[a.index as int].sig().contains(c),
            row < old(self)@[a.index as int].rows().len(),
        ensures
            *r == old(self)@[a.index as int].column(c)[row as int],
            one_table_changed(final(self)@, old(self)@, a.index as int),
            final(self).wf(),
            final(self)@.len() == old(self)@.len(),
            archetypes_extend(final(self)@, old(self)@),
            forall|b: int|
                0 <= b < old(self)@.len() && b != a.index ==> final(self)@[b] == old(self)@[b],
            final(self)@[a.index as int].rows() == old(self)@[a.index as int].rows(),
            final(self)@[a.index as int].width() == old(self)@[a.index as int].width(),
            final(self)@[a.index as int].column(c) == old(self)@[a.index as int].column(c).update(
                row as int,
                *final(r),
            ),
            forall|d: usize|
                d != c ==> final(self)@[a.index as int].column(d)
                    == old(self)@[a.index as int].column(
                    d,
                ),
    {
        proof {
            let older = self@;
            assert forall|newer: Seq<Archetype<V>>| #[trigger]
                one_table_changed(newer, older, a.index as int) implies archetypes_wf(newer)
                && archetypes_extend(newer, older) by {
                lemma_one_table_changed(newer, older, a.index as int);
            }
        }
        self.list[a.index].get_mut(c, row)
    }

}

/// `newer` is `older` with other rows in table `a`: the other tables, the
/// signature of `a` and its cached edges are what they were.
pub open spec fn one_table_changed<V>(
    newer: Seq<Archetype<V>>,
    older: Seq<Archetype<V>>,
    a: int,
) -> bool {
    &&& newer.len() == older.len()
    &&& forall|b: int| 0 <= b < older.len() && b != a ==> newer[b] == older[b]
    &&& newer[a].wf()
    &&& newer[a].sig() == older[a].sig()
    &&& newer[a].add_edges() == older[a].add_edges()
    &&& newer[a].remove_edges() == older[a].remove_edges()
}

/// A list stays well-formed when the rows of one table change.
pub proof fn lemma_one_table_changed<V>(
    newer: Seq<Archetype<V>>,
    older: Seq<Archetype<V>>,
    a: int,
)
    requires
        archetypes_wf(older),
        0 <= a < older.len(),
        one_table_changed(newer, older, a),
    ensures
        archetypes_wf(newer),
        archetypes_extend(newer, older),
{
    assert forall|b: int, d: usize|
        0 <= b < newer.len() && #[trigger] newer[b].add_edges().contains_key(d) implies ({
        let t = newer[b].add_edges()[d].index as int;
        t < older.len() && older[t].sig() == older[b].sig().insert(d)
    }) by {
        lemma_edges_of(older, b);
        assert(older[b].add_edges().contains_key(d));
    }
    assert forall|b: int, d: usize|
        0 <= b < newer.len() && #[trigger] newer[b].remove_edges().contains_key(d) implies ({
        let t = newer[b].remove_edges()[d].index as int;
        t < older.len() && older[t].sig() == older[b].sig().remove(d)
    }) by {
        lemma_edges_of(older, b);
        assert(older[b].remove_edges().contains_key(d));
    }
    lemma_same_signatures_wf(newer, older);
}

} // verus!
