//! The world: entities, their components, and the structural changes that
//! move an entity from one archetype to another.

use crate::archetype::{
    archetypes_extend, archetypes_wf, lemma_one_table_changed, one_table_changed, rows_untouched,
    Archetype, ArchetypeId, Archetypes,
};
use crate::component::{
    id_registered, keys_distinct, lookup_key, registry_extends, ComponentId, ComponentInfo,
    ComponentSet, Components, ConfigurationError, StorageKind,
};
use crate::entity::{Entities, Entity, Location};
use crate::history::{after_step, Step};
use crate::query::QueryParam;
use crate::storage::{swap_removed, SparseStorage};
use vstd::prelude::*;

verus! {

/// Why a component could not be attached to an entity.
#[derive(Clone, Copy, Debug, PartialEq, Eq, Structural, Hash)]
pub enum WorldError {
    /// The handle does not name a live entity.
    NotFound,
    /// The identifier was not issued by the registry of this world.
    UnknownComponent,
}

/// The location `(a, r)`.
pub open spec fn location_at(a: int, r: int) -> Location {
    Location { archetype: ArchetypeId { index: a as usize }, row: r as usize }
}

/// Every live entity, except `hole`, is the entity of the row it points at.
pub open spec fn entities_point_at_rows<V>(
    dir: Map<Entity, Location>,
    tables: Seq<Archetype<V>>,
    hole: Option<Entity>,
) -> bool {
    forall|e: Entity| #[trigger]
        dir.contains_key(e) && hole != Some(e) ==> {
            let loc = dir[e];
            &&& loc.archetype.index < tables.len()
            &&& loc.row < tables[loc.archetype.index as int].rows().len()
            &&& tables[loc.archetype.index as int].rows()[loc.row as int] == e
        }
}

/// Every row belongs to a live entity, other than `hole`, that points back
/// at the row.
pub open spec fn rows_point_at_entities<V>(
    dir: Map<Entity, Location>,
    tables: Seq<Archetype<V>>,
    hole: Option<Entity>,
) -> bool {
    forall|a: int, r: int|
        0 <= a < tables.len() && 0 <= r < tables[a].rows().len() ==> {
            let e = #[trigger] tables[a].rows()[r];
            dir.contains_key(e) && dir[e] == location_at(a, r) && hole != Some(e)
        }
}

/// Signatures hold registered dense components only.
pub open spec fn signatures_dense<V>(registry: Seq<ComponentInfo>, tables: Seq<Archetype<V>>)
    -> bool {
    forall|a: int, c: usize|
        0 <= a < tables.len() && #[trigger] tables[a].sig().contains(c) ==> c < registry.len()
            && registry[c as int].kind == StorageKind::Dense
}

/// Some live entity occupies directory slot `slot`.
pub open spec fn slot_live(dir: Map<Entity, Location>, slot: usize) -> bool {
    exists|g: u32| #[trigger] dir.contains_key(Entity { index: slot, generation: g })
}

/// The world of entities and their components.
///
/// `V` is the type of a component value.  Dense components live in the
/// archetype tables, sparse components in one map per component type.
pub struct World<V> {
    components: Components,
    entities: Entities,
    archetypes: Archetypes<V>,
    /// By registry position; the maps of dense components stay empty.
    sparse: Vec<SparseStorage<V>>,
}

impl<V> View for World<V> {
    type V = Map<Entity, Map<ComponentId, V>>;

    /// The live entities, each with the components it has.
    open spec fn view(&self) -> Map<Entity, Map<ComponentId, V>> {
        Map::new(|e: Entity| self.directory().contains_key(e), |e: Entity| self.components_of(e))
    }
}

impl<V> World<V> {
    /// The registered component types, in registration order.
    pub closed spec fn registry(&self) -> Seq<ComponentInfo> {
        self.components@
    }

    /// Where each live entity is stored.
    pub closed spec fn directory(&self) -> Map<Entity, Location> {
        self.entities@
    }

    /// The archetype tables, by archetype identifier.
    pub closed spec fn tables(&self) -> Seq<Archetype<V>> {
        self.archetypes@
    }

    /// The values of the sparse component at registry position `c`, by
    /// directory slot.
    pub closed spec fn sparse_values(&self, c: usize) -> Map<usize, V> {
        if c < self.sparse@.len() {
            self.sparse@[c as int]@
        } else {
            Map::empty()
        }
    }

    /// The handle belonged to an entity that was despawned.
    pub closed spec fn is_retired(&self, e: Entity) -> bool {
        self.entities.is_retired(e)
    }

    /// The handle that the next `spawn` hands out.
    pub closed spec fn next_entity(&self) -> Entity {
        self.entities.next_handle()
    }

    /// The invariants of the parts that the world is made of.
    pub closed spec fn parts_wf(&self) -> bool {
        &&& self.components.wf()
        &&& self.entities.wf()
        &&& self.sparse@.len() == self.components@.len()
    }

    /// Sparse values belong to live entities and to sparse components.
    pub open spec fn sparse_owned(&self) -> bool {
        forall|c: usize, slot: usize| #[trigger]
            self.sparse_values(c).contains_key(slot) ==> c < self.registry().len()
                && self.registry()[c as int].kind == StorageKind::Sparse && slot_live(
                self.directory(),
                slot,
            )
    }

    /// The world invariant, with the rows of `hole` left out: that entity
    /// is in the directory but its row is in flight between two tables.
    pub open spec fn wf_except(&self, hole: Option<Entity>) -> bool {
        &&& self.parts_wf()
        &&& archetypes_wf(self.tables())
        &&& signatures_dense(self.registry(), self.tables())
        &&& entities_point_at_rows(self.directory(), self.tables(), hole)
        &&& rows_point_at_entities(self.directory(), self.tables(), hole)
        &&& self.sparse_owned()
        &&& hole matches Some(e) ==> self.directory().contains_key(e)
    }

    /// The world invariant.
    pub open spec fn wf(&self) -> bool {
        self.wf_except(None)
    }

    /// Whether the live entity `e` has component `id`.
    pub open spec fn present(&self, e: Entity, id: ComponentId) -> bool {
        &&& id_registered(self.registry(), id)
        &&& match id.kind {
            StorageKind::Dense => self.signature_of(e).contains(id.index),
            StorageKind::Sparse => self.sparse_values(id.index).contains_key(e.index),
        }
    }

    /// The value of component `id` of the live entity `e`.
    pub open spec fn value(&self, e: Entity, id: ComponentId) -> V {
        match id.kind {
            StorageKind::Dense => self.tables()[self.directory()[e].archetype.index as int].column(
                id.index,
            )[self.directory()[e].row as int],
            StorageKind::Sparse => self.sparse_values(id.index)[e.index],
        }
    }

    /// The components of the live entity `e`.
    pub open spec fn components_of(&self, e: Entity) -> Map<ComponentId, V> {
        Map::new(|id: ComponentId| self.present(e, id), |id: ComponentId| self.value(e, id))
    }

    /// The dense signature of the live entity `e`.
    pub open spec fn signature_of(&self, e: Entity) -> Set<usize> {
        self.tables()[self.directory()[e].archetype.index as int].sig()
    }

    /// Nothing that could be named in `older` has lost its meaning: the
    /// component identifiers and archetype identifiers of `older` stand for
    /// the same things, and retired handles stay retired.
    pub open spec fn extends(&self, older: &Self) -> bool {
        &&& registry_extends(self.registry(), older.registry())
        &&& archetypes_extend(self.tables(), older.tables())
        &&& forall|e: Entity| older.is_retired(e) ==> self.is_retired(e)
    }

    /// An empty world: no entity, no component type, one empty archetype.
    pub fn new() -> (r: Self)
        ensures
            r.wf(),
            r@ == Map::<Entity, Map<ComponentId, V>>::empty(),
            r.registry() == Seq::<ComponentInfo>::empty(),
            r.tables().len() == 1,
            r.tables()[0].rows().len() == 0,
            r.next_entity() == (Entity { index: 0, generation: 0 }),
            forall|e: Entity| !r.is_retired(e),
    {
        let r = World {
            components: Components::new(),
            entities: Entities::new(),
            archetypes: Archetypes::new(),
            sparse: Vec::new(),
        };
        assert(r@ =~= Map::<Entity, Map<ComponentId, V>>::empty());
        r
    }

    pub fn components(&self) -> (r: &Components)
        ensures
            r@ == self.registry(),
            self.parts_wf() ==> r.wf(),
    {
        &self.components
    }

    pub fn archetypes(&self) -> (r: &Archetypes<V>)
        ensures
            r@ == self.tables(),
    {
        &self.archetypes
    }

    /// Whether directory slot `slot` has a value of the sparse component
    /// at registry position `c`.
    pub fn sparse_contains(&self, c: usize, slot: usize) -> (r: bool)
        ensures
            r == self.sparse_values(c).contains_key(slot),
    {
        c < self.sparse.len() && self.sparse[c].contains(slot)
    }

    /// The directory slots that have a value of the sparse component at
    /// registry position `c`, each once, in no particular order.
    pub fn sparse_slots(&self, c: usize) -> (r: Vec<usize>)
        ensures
            r@.to_set() == self.sparse_values(c).dom(),
            r@.no_duplicates(),
    {
        if c < self.sparse.len() {
            self.sparse[c].slots()
        } else {
            let r: Vec<usize> = Vec::new();
            assert(r@.to_set() =~= self.sparse_values(c).dom());
            r
        }
    }

    /// The live entity in directory slot `slot`, if there is one.
    pub fn entity_at(&self, slot: usize) -> (r: Option<Entity>)
        ensures
            match r {
                Some(e) => e.index == slot && self@.contains_key(e),
                None => forall|e: Entity| e.index == slot ==> !self@.contains_key(e),
            },
    {
        self.entities.live_at(slot)
    }

    /// Whether `entity` is live.
    pub fn contains(&self, entity: Entity) -> (r: bool)
        ensures
            r == self@.contains_key(entity),
    {
        self.entities.contains(entity)
    }

    /// Where `entity` is stored, or `None` for a handle that is not live.
    pub fn resolve(&self, entity: Entity) -> (r: Option<Location>)
        ensures
            r == if self@.contains_key(entity) {
                Some(self.directory()[entity])
            } else {
                None
            },
    {
        self.entities.resolve(entity)
    }
}

impl<V> World<V> {
    /// Registers `type_key` with the given storage kind, or finds the
    /// identifier it already has; see [`Components::insert`].
    pub fn insert_component(&mut self, type_key: u64, kind: StorageKind) -> (r: Result<
        ComponentId,
        ConfigurationError,
    >)
        requires
            old(self).wf(),
        ensures
            final(self).wf(),
            final(self)@ == old(self)@,
            final(self).extends(old(self)),
            final(self).tables() == old(self).tables(),
            final(self).directory() == old(self).directory(),
            final(self).next_entity() == old(self).next_entity(),
            match lookup_key(old(self).registry(), type_key) {
                Some(existing) => final(self).registry() == old(self).registry() && r
                    == if existing.kind == kind {
                    Ok::<ComponentId, ConfigurationError>(existing)
                } else {
                    Err::<ComponentId, ConfigurationError>(
                        ConfigurationError::StorageConflict { existing },
                    )
                },
                None => final(self).registry() == old(self).registry().push(
                    ComponentInfo { type_key, kind },
                ) && r == Ok::<ComponentId, ConfigurationError>(
                    ComponentId { index: old(self).registry().len() as usize, kind },
                ),
            },
            r matches Ok(id) ==> id_registered(final(self).registry(), id) && lookup_key(
                final(self).registry(),
                type_key,
            ) == Some(id),
    {
        let r = self.components.insert(type_key, kind);
        if self.sparse.len() < self.components.len() {
            self.sparse.push(SparseStorage::new());
        }
        proof {
            assert forall|c: usize| #[trigger]
                final(self).sparse_values(c) == old(self).sparse_values(c) by {
                assert(final(self).sparse_values(c) =~= old(self).sparse_values(c));
            }
            final(self).lemma_registry_grew(*old(self));
        }
        r
    }

    /// Identifier of `type_key`, registered with dense storage on first use;
    /// see [`Components::register`].
    pub fn register(&mut self, type_key: u64) -> (r: ComponentId)
        requires
            old(self).wf(),
        ensures
            final(self).wf(),
            final(self)@ == old(self)@,
            final(self).extends(old(self)),
            final(self).tables() == old(self).tables(),
            final(self).directory() == old(self).directory(),
            final(self).next_entity() == old(self).next_entity(),
            match lookup_key(old(self).registry(), type_key) {
                Some(existing) => final(self).registry() == old(self).registry() && r == existing,
                None => final(self).registry() == old(self).registry().push(
                    ComponentInfo { type_key, kind: StorageKind::Dense },
                ) && r == (ComponentId {
                    index: old(self).registry().len() as usize,
                    kind: StorageKind::Dense,
                }),
            },
            id_registered(final(self).registry(), r),
            lookup_key(final(self).registry(), type_key) == Some(r),
    {
        match self.insert_component(type_key, StorageKind::Dense) {
            Ok(id) => id,
            Err(ConfigurationError::StorageConflict { existing }) => {
                proof {
                    old(self).components.lemma_lookup_registered(type_key);
                }
                existing
            },
            Err(ConfigurationError::AccessConflict { index }) => {
                proof {
                    assert(false);
                }
                ComponentId { index, kind: StorageKind::Dense }
            },
        }
    }

    /// Registers `type_key` with sparse storage.  Fails, and changes nothing,
    /// if the key is already registered as dense.
    pub fn insert_sparse(&mut self, type_key: u64) -> (r: Result<ComponentId, ConfigurationError>)
        requires
            old(self).wf(),
        ensures
            final(self).wf(),
            final(self)@ == old(self)@,
            final(self).extends(old(self)),
            final(self).tables() == old(self).tables(),
            final(self).directory() == old(self).directory(),
            final(self).next_entity() == old(self).next_entity(),
            match lookup_key(old(self).registry(), type_key) {
                Some(existing) => final(self).registry() == old(self).registry() && r
                    == if existing.kind == StorageKind::Sparse {
                    Ok::<ComponentId, ConfigurationError>(existing)
                } else {
                    Err::<ComponentId, ConfigurationError>(
                        ConfigurationError::StorageConflict { existing },
                    )
                },
                None => final(self).registry() == old(self).registry().push(
                    ComponentInfo { type_key, kind: StorageKind::Sparse },
                ) && r == Ok::<ComponentId, ConfigurationError>(
                    ComponentId {
                        index: old(self).registry().len() as usize,
                        kind: StorageKind::Sparse,
                    },
                ),
            },
            r matches Ok(id) ==> id_registered(final(self).registry(), id) && lookup_key(
                final(self).registry(),
                type_key,
            ) == Some(id),
    {
        self.insert_component(type_key, StorageKind::Sparse)
    }

    /// The value of component `id` of `entity`, if the entity is live and
    /// has the component.
    pub fn get(&self, entity: Entity, id: ComponentId) -> (r: Option<&V>)
        requires
            self.wf(),
        ensures
            r == if self@.contains_key(entity) && self@[entity].contains_key(id) {
                Some(&self@[entity][id])
            } else {
                None
            },
    {
        if !self.components.has_id(id) {
            return None;
        }
        match self.entities.resolve(entity) {
            None => None,
            Some(location) => {
                match id.kind {
                    StorageKind::Dense => {
                        proof {
                            assert(self.directory().contains_key(entity));
                        }
                        match self.archetypes.get(location.archetype) {
                            Some(table) => table.get(id.index, location.row),
                            None => None,
                        }
                    },
                    StorageKind::Sparse => self.sparse[id.index].get(entity.index),
                }
            },
        }
    }

    /// Whether `entity` is live and has component `id`.
    pub fn has_component(&self, entity: Entity, id: ComponentId) -> (r: bool)
        requires
            self.wf(),
        ensures
            r == (self@.contains_key(entity) && self@[entity].contains_key(id)),
    {
        self.get(entity, id).is_some()
    }

    /// Makes a new entity without components.
    pub fn spawn(&mut self) -> (e: Entity)
        requires
            old(self).wf(),
        ensures
            final(self).wf(),
            e == old(self).next_entity(),
            !old(self)@.contains_key(e),
            !old(self).is_retired(e),
            final(self)@ == old(self)@.insert(e, Map::<ComponentId, V>::empty()),
            final(self)@ == after_step(old(self)@, Step::Spawn(e)),
            final(self).extends(old(self)),
            final(self).registry() == old(self).registry(),
            final(self).directory()[e] == location_at(0, old(self).tables()[0].rows().len() as int),
    {
        let home = ArchetypeId::empty();
        let row: usize = match self.archetypes.get(home) {
            Some(table) => table.len(),
            None => 0,
        };
        let e = self.entities.spawn(Location { archetype: home, row });
        let pushed = self.archetypes.push_row(home, e, Vec::new());
        proof {
            let older = old(self).tables();
            let newer = self.tables();
            assert forall|x: Entity| #[trigger]
                self.directory().contains_key(x) implies ({
                let loc = self.directory()[x];
                &&& loc.archetype.index < newer.len()
                &&& loc.row < newer[loc.archetype.index as int].rows().len()
                &&& newer[loc.archetype.index as int].rows()[loc.row as int] == x
            }) by {
                if x != e {
                    assert(old(self).directory().contains_key(x));
                    let loc = old(self).directory()[x];
                    if loc.archetype.index != 0 {
                        assert(newer[loc.archetype.index as int]
                            == older[loc.archetype.index as int]);
                    }
                }
            }
            assert forall|a: int, r: int|
                0 <= a < newer.len() && 0 <= r < newer[a].rows().len() implies ({
                let x = #[trigger] newer[a].rows()[r];
                self.directory().contains_key(x) && self.directory()[x] == location_at(a, r)
            }) by {
                if a != 0 {
                    assert(newer[a] == older[a]);
                    assert(older[a].rows()[r] == newer[a].rows()[r]);
                } else if r < older[0].rows().len() {
                    assert(older[0].rows()[r] == newer[0].rows()[r]);
                }
            }
            assert forall|a: int, c: usize|
                0 <= a < newer.len() && #[trigger] newer[a].sig().contains(c) implies c
                < self.registry().len() && self.registry()[c as int].kind
                == StorageKind::Dense by {
                assert(older[a].sig().contains(c));
            }
            assert forall|c: usize, slot: usize| #[trigger]
                self.sparse_values(c).contains_key(slot) implies c < self.registry().len()
                && self.registry()[c as int].kind == StorageKind::Sparse && slot_live(
                self.directory(),
                slot,
            ) by {
                assert(old(self).sparse_values(c).contains_key(slot));
                let g = choose|g: u32| #[trigger]
                    old(self).directory().contains_key(Entity { index: slot, generation: g });
                assert(self.directory().contains_key(Entity { index: slot, generation: g }));
            }
            assert forall|x: Entity| #[trigger]
                self@.contains_key(x) && x != e implies self.components_of(x)
                    == old(self).components_of(x) by {
                let loc = old(self).directory()[x];
                assert(old(self).directory().contains_key(x));
                if loc.archetype.index != 0 {
                    assert(newer[loc.archetype.index as int] == older[loc.archetype.index as int]);
                } else {
                    assert forall|id: ComponentId|
                        id.kind == StorageKind::Dense && self.present(x, id) implies self.value(
                        x,
                        id,
                    ) == old(self).value(x, id) by {}
                }
                assert(self.components_of(x) =~= old(self).components_of(x));
            }
            assert(self.components_of(e) =~= Map::<ComponentId, V>::empty()) by {
                assert forall|id: ComponentId| !self.present(e, id) by {
                    if id.kind == StorageKind::Sparse && self.sparse_values(id.index).contains_key(
                        e.index,
                    ) {
                        assert(old(self).sparse_values(id.index).contains_key(e.index));
                        let g = choose|g: u32| #[trigger]
                            old(self).directory().contains_key(
                                Entity { index: e.index, generation: g },
                            );
                        assert(false);
                    }
                }
            }
            assert(final(self)@ =~= old(self)@.insert(e, Map::<ComponentId, V>::empty()));
        }
        e
    }
}

impl<V> World<V> {
    /// Takes the row of the live entity `e` out of its table and lets the
    /// entity that moved into the gap point at its new row.  Afterwards `e`
    /// is still in the directory, but its row is in the hands of the caller.
    fn take_row(&mut self, e: Entity, loc: Location) -> (values: Vec<Option<V>>)
        requires
            old(self).wf(),
            old(self).directory().contains_key(e),
            old(self).directory()[e] == loc,
        ensures
            final(self).wf_except(Some(e)),
            final(self).registry() == old(self).registry(),
            final(self).directory().dom() == old(self).directory().dom(),
            final(self).directory()[e] == loc,
            forall|c: usize| final(self).sparse_values(c) == old(self).sparse_values(c),
            forall|x: Entity| final(self).is_retired(x) == old(self).is_retired(x),
            final(self).next_entity() == old(self).next_entity(),
            final(self).tables().len() == old(self).tables().len(),
            archetypes_extend(final(self).tables(), old(self).tables()),
            forall|b: int|
                0 <= b < old(self).tables().len() && b != loc.archetype.index
                    ==> final(self).tables()[b] == old(self).tables()[b],
            final(self).tables()[loc.archetype.index as int].rows().len() + 1
                == old(self).tables()[loc.archetype.index as int].rows().len(),
            values@.len() == old(self).tables()[loc.archetype.index as int].width(),
            forall|c: usize|
                c < values@.len() ==> #[trigger] values@[c as int] == if old(self).signature_of(
                    e,
                ).contains(c) {
                    Some(old(self).value(e, ComponentId { index: c, kind: StorageKind::Dense }))
                } else {
                    None
                },
            forall|c: usize| old(self).signature_of(e).contains(c) ==> c < values@.len(),
            forall|x: Entity|
                x != e && #[trigger] old(self).directory().contains_key(x)
                    ==> final(self).components_of(x) == old(self).components_of(x)
                    && final(self).signature_of(x)
                    == old(self).signature_of(x),
    {
        let a = loc.archetype;
        proof {
            assert(old(self).tables()[a.index as int].rows()[loc.row as int] == e);
            assert forall|c: usize| old(self).signature_of(e).contains(c)
                implies c < old(self).tables()[a.index as int].width()
                && old(self).tables()[a.index as int].column(c).len()
                == old(self).tables()[a.index as int].rows().len() by {
                old(self).tables()[a.index as int].lemma_columns_match_rows(c);
            }
        }
        let values = self.archetypes.swap_remove_row(a, loc.row);
        let remaining: usize = match self.archetypes.get(a) {
            Some(table) => table.len(),
            None => 0,
        };
        let ghost last = remaining as int;
        if loc.row < remaining {
            let moved: Entity = match self.archetypes.get(a) {
                Some(table) => table.entities()[loc.row],
                None => e,
            };
            proof {
                assert(moved == old(self).tables()[a.index as int].rows()[last]);
                assert(old(self).directory()[moved] == location_at(a.index as int, last));
            }
            self.entities.set_location(moved, loc);
        }
        proof {
            let older = old(self).tables();
            let newer = self.tables();
            let odir = old(self).directory();
            let ndir = self.directory();
            let ai = a.index as int;
            self.archetypes.lemma_len_fits();
            assert(ndir.dom() =~= odir.dom());
            assert(older[ai].rows().len() == last + 1);
            // Where every other live entity is now.
            assert forall|x: Entity| x != e && #[trigger] odir.contains_key(x) implies ({
                &&& ndir.contains_key(x)
                &&& ndir[x].archetype == odir[x].archetype
                &&& ndir[x].archetype.index < newer.len()
                &&& ndir[x].row < newer[ndir[x].archetype.index as int].rows().len()
                &&& newer[ndir[x].archetype.index as int].rows()[ndir[x].row as int] == x
                &&& forall|c: usize|
                    older[odir[x].archetype.index as int].sig().contains(c)
                        ==> newer[ndir[x].archetype.index as int].column(
                        c,
                    )[ndir[x].row as int] == older[odir[x].archetype.index as int].column(
                        c,
                    )[odir[x].row as int]
            }) by {
                let xl = odir[x];
                assert(older[xl.archetype.index as int].rows()[xl.row as int] == x);
                if xl.archetype.index != a.index {
                    assert(newer[xl.archetype.index as int] == older[xl.archetype.index as int]);
                    if loc.row < remaining {
                        assert(x != older[ai].rows()[last]);
                    }
                } else {
                    assert(xl.row != loc.row);
                    assert forall|c: usize|
                        older[ai].sig().contains(c) implies newer[ai].column(
                        c,
                    )[ndir[x].row as int] == older[ai].column(c)[xl.row as int] by {
                        older[ai].lemma_columns_match_rows(c);
                        assert(newer[ai].sig().contains(c));
                    }
                }
            }
            assert forall|x: Entity| #[trigger]
                ndir.contains_key(x) && Some(e) != Some(x) implies ({
                let l = ndir[x];
                &&& l.archetype.index < newer.len()
                &&& l.row < newer[l.archetype.index as int].rows().len()
                &&& newer[l.archetype.index as int].rows()[l.row as int] == x
            }) by {
                assert(odir.contains_key(x));
            }
            assert forall|b: int, r: int|
                0 <= b < newer.len() && 0 <= r < newer[b].rows().len() implies ({
                let x = #[trigger] newer[b].rows()[r];
                ndir.contains_key(x) && ndir[x] == location_at(b, r) && Some(e) != Some(x)
            }) by {
                if b != ai {
                    assert(newer[b] == older[b]);
                    let x = older[b].rows()[r];
                    assert(odir[x] == location_at(b, r));
                    if loc.row < remaining {
                        assert(odir[older[ai].rows()[last]] == location_at(ai, last));
                    }
                } else if r == loc.row {
                    let x = older[ai].rows()[last];
                    assert(newer[b].rows()[r] == x);
                    assert(odir[x] == location_at(ai, last));
                } else {
                    let x = older[ai].rows()[r];
                    assert(newer[b].rows()[r] == x);
                    assert(odir[x] == location_at(ai, r));
                    assert(odir[older[ai].rows()[last]] == location_at(ai, last));
                }
            }
            assert forall|b: int, c: usize|
                0 <= b < newer.len() && #[trigger] newer[b].sig().contains(c) implies c
                < self.registry().len() && self.registry()[c as int].kind
                == StorageKind::Dense by {
                assert(older[b].sig().contains(c));
            }
            assert forall|c: usize, slot: usize| #[trigger]
                self.sparse_values(c).contains_key(slot) implies c < self.registry().len()
                && self.registry()[c as int].kind == StorageKind::Sparse && slot_live(
                ndir,
                slot,
            ) by {
                assert(old(self).sparse_values(c).contains_key(slot));
                let g = choose|g: u32| #[trigger]
                    odir.contains_key(Entity { index: slot, generation: g });
                assert(ndir.contains_key(Entity { index: slot, generation: g }));
            }
            assert forall|x: Entity| x != e && #[trigger] odir.contains_key(x)
                implies final(self).components_of(x) == old(self).components_of(x)
                && final(self).signature_of(x) == old(self).signature_of(x) by {
                assert(final(self).components_of(x) =~= old(self).components_of(x));
            }
        }
        values
    }
}

impl<V> World<V> {
    /// Finds, or makes, the archetype that an entity of `from` moves to when
    /// the dense component at position `c` is added (`adding`) or removed.
    fn prepare_target(&mut self, from: ArchetypeId, c: usize, adding: bool) -> (to: ArchetypeId)
        requires
            old(self).wf(),
            from.index < old(self).tables().len(),
            c < old(self).registry().len(),
            old(self).registry()[c as int].kind == StorageKind::Dense,
        ensures
            final(self).wf(),
            final(self).registry() == old(self).registry(),
            final(self).directory() == old(self).directory(),
            forall|d: usize| final(self).sparse_values(d) == old(self).sparse_values(d),
            forall|x: Entity| final(self).is_retired(x) == old(self).is_retired(x),
            final(self).next_entity() == old(self).next_entity(),
            rows_untouched(final(self).tables(), old(self).tables()),
            to.index < final(self).tables().len(),
            final(self).tables()[to.index as int].sig() == if adding {
                old(self).tables()[from.index as int].sig().insert(c)
            } else {
                old(self).tables()[from.index as int].sig().remove(c)
            },
            final(self)@ == old(self)@,
    {
        let to = if adding {
            self.archetypes.insert_target(from, c)
        } else {
            self.archetypes.remove_target(from, c)
        };
        proof {
            let older = old(self).tables();
            let newer = self.tables();
            assert forall|b: int, d: usize|
                older.len() <= b < newer.len() && #[trigger] newer[b].sig().contains(d) implies d
                < self.registry().len() && self.registry()[d as int].kind
                == StorageKind::Dense by {
                assert(b == to.index);
                if d != c {
                    assert(older[from.index as int].sig().contains(d));
                }
            }
            self.lemma_tables_grew(*old(self));
        }
        to
    }

    /// Puts the row of `e`, which is in flight, into table `target` and lets
    /// the directory point at it.
    fn put_row(&mut self, e: Entity, target: ArchetypeId, values: Vec<Option<V>>)
        requires
            old(self).wf_except(Some(e)),
            target.index < old(self).tables().len(),
            forall|c: usize| #[trigger]
                old(self).tables()[target.index as int].sig().contains(c) ==> c < values@.len()
                    && values@[c as int].is_some(),
        ensures
            final(self).wf(),
            final(self).registry() == old(self).registry(),
            final(self).directory().dom() == old(self).directory().dom(),
            final(self).directory()[e].archetype == target,
            forall|c: usize| final(self).sparse_values(c) == old(self).sparse_values(c),
            forall|x: Entity| final(self).is_retired(x) == old(self).is_retired(x),
            final(self).next_entity() == old(self).next_entity(),
            final(self).tables().len() == old(self).tables().len(),
            archetypes_extend(final(self).tables(), old(self).tables()),
            forall|b: int|
                0 <= b < old(self).tables().len() && b != target.index ==> final(self).tables()[b]
                    == old(self).tables()[b],
            final(self).tables()[target.index as int].rows().len()
                == old(self).tables()[target.index as int].rows().len() + 1,
            forall|c: usize| #[trigger]
                final(self).signature_of(e).contains(c) ==> final(self).value(
                    e,
                    ComponentId { index: c, kind: StorageKind::Dense },
                ) == values@[c as int].unwrap(),
            forall|x: Entity|
                x != e && #[trigger] old(self).directory().contains_key(x)
                    ==> final(self).components_of(x) == old(self).components_of(x)
                    && final(self).signature_of(x)
                    == old(self).signature_of(x) && final(self).directory()[x]
                        == old(self).directory()[x],
    {
        proof {
            assert forall|c: usize|
                old(self).tables()[target.index as int].sig().contains(c)
                    implies c < old(self).tables()[target.index as int].width()
                    && old(self).tables()[target.index as int].column(
                c,
            ).len() == old(self).tables()[target.index as int].rows().len() by {
                old(self).tables()[target.index as int].lemma_columns_match_rows(c);
            }
        }
        let row = self.archetypes.push_row(target, e, values);
        self.entities.set_location(e, Location { archetype: target, row });
        proof {
            let older = old(self).tables();
            let newer = self.tables();
            let odir = old(self).directory();
            let ndir = self.directory();
            let ti = target.index as int;
            self.archetypes.lemma_len_fits();
            assert(ndir.dom() =~= odir.dom());
            assert forall|x: Entity| x != e && #[trigger] odir.contains_key(x) implies ({
                &&& ndir[x] == odir[x]
                &&& ndir[x].archetype.index < newer.len()
                &&& ndir[x].row < newer[ndir[x].archetype.index as int].rows().len()
                &&& newer[ndir[x].archetype.index as int].rows()[ndir[x].row as int] == x
                &&& newer[ndir[x].archetype.index as int].sig()
                    == older[odir[x].archetype.index as int].sig()
                &&& forall|c: usize|
                    older[odir[x].archetype.index as int].sig().contains(c)
                        ==> newer[ndir[x].archetype.index as int].column(
                        c,
                    )[ndir[x].row as int] == older[odir[x].archetype.index as int].column(
                        c,
                    )[odir[x].row as int]
            }) by {
                let xl = odir[x];
                assert(older[xl.archetype.index as int].rows()[xl.row as int] == x);
                if xl.archetype.index != target.index {
                    assert(newer[xl.archetype.index as int] == older[xl.archetype.index as int]);
                } else {
                    assert forall|c: usize| older[ti].sig().contains(c) implies newer[ti].column(
                        c,
                    )[xl.row as int] == older[ti].column(c)[xl.row as int] by {
                        older[ti].lemma_columns_match_rows(c);
                        assert(newer[ti].sig().contains(c));
                    }
                }
            }
            assert forall|x: Entity| #[trigger] ndir.contains_key(x) implies ({
                let l = ndir[x];
                &&& l.archetype.index < newer.len()
                &&& l.row < newer[l.archetype.index as int].rows().len()
                &&& newer[l.archetype.index as int].rows()[l.row as int] == x
            }) by {
                assert(odir.contains_key(x));
            }
            assert forall|b: int, r: int|
                0 <= b < newer.len() && 0 <= r < newer[b].rows().len() implies ({
                let x = #[trigger] newer[b].rows()[r];
                ndir.contains_key(x) && ndir[x] == location_at(b, r)
            }) by {
                if b != ti {
                    assert(newer[b] == older[b]);
                    let x = older[b].rows()[r];
                    assert(odir[x] == location_at(b, r));
                } else if r < older[ti].rows().len() {
                    let x = older[ti].rows()[r];
                    assert(newer[b].rows()[r] == x);
                    assert(odir[x] == location_at(ti, r));
                }
            }
            assert forall|b: int, c: usize|
                0 <= b < newer.len() && #[trigger] newer[b].sig().contains(c) implies c
                < self.registry().len() && self.registry()[c as int].kind
                == StorageKind::Dense by {
                assert(older[b].sig().contains(c));
            }
            assert forall|c: usize, slot: usize| #[trigger]
                self.sparse_values(c).contains_key(slot) implies c < self.registry().len()
                && self.registry()[c as int].kind == StorageKind::Sparse && slot_live(
                ndir,
                slot,
            ) by {
                assert(old(self).sparse_values(c).contains_key(slot));
                let g = choose|g: u32| #[trigger]
                    odir.contains_key(Entity { index: slot, generation: g });
                assert(ndir.contains_key(Entity { index: slot, generation: g }));
            }
            assert forall|x: Entity| x != e && #[trigger] odir.contains_key(x)
                implies final(self).components_of(x) == old(self).components_of(x)
                && final(self).signature_of(x) == old(self).signature_of(x) && ndir[x]
                == odir[x] by {
                assert(final(self).components_of(x) =~= old(self).components_of(x));
            }
            assert forall|c: usize| #[trigger]
                final(self).signature_of(e).contains(c) implies final(self).value(
                e,
                ComponentId { index: c, kind: StorageKind::Dense },
            ) == values@[c as int].unwrap() by {
                older[ti].lemma_columns_match_rows(c);
                assert(newer[ti].sig().contains(c));
            }
        }
    }
}

impl<V> World<V> {
    /// Attaches component `id` with `value` to `entity`, or overwrites the
    /// value the entity already has for it, which is then returned.
    ///
    /// A dense component that the entity did not have moves the entity to
    /// the archetype of the larger signature.  Overwriting a value, and
    /// attaching a sparse component, leave every entity where it is.
    pub fn insert(&mut self, entity: Entity, id: ComponentId, value: V) -> (r: Result<
        Option<V>,
        WorldError,
    >)
        requires
            old(self).wf(),
        ensures
            final(self).wf(),
            final(self).extends(old(self)),
            final(self).registry() == old(self).registry(),
            r == if !old(self)@.contains_key(entity) {
                Err::<Option<V>, WorldError>(WorldError::NotFound)
            } else if !id_registered(old(self).registry(), id) {
                Err::<Option<V>, WorldError>(WorldError::UnknownComponent)
            } else if old(self)@[entity].contains_key(id) {
                Ok::<Option<V>, WorldError>(Some(old(self)@[entity][id]))
            } else {
                Ok::<Option<V>, WorldError>(None)
            },
            r is Ok ==> final(self).inserted(old(self), entity, id, value),
            r is Ok ==> final(self)@ == after_step(old(self)@, Step::Insert(entity, id, value)),
            r is Err ==> final(self)@ == old(self)@ && final(self).directory()
                == old(self).directory() && final(self).tables() == old(self).tables(),
            r is Ok && (id.kind == StorageKind::Sparse || old(self)@[entity].contains_key(id))
                ==> final(self).stays_in_place(old(self)),
    {
        let loc = match self.entities.resolve(entity) {
            Some(loc) => loc,
            None => {
                return Err(WorldError::NotFound);
            },
        };
        if !self.components.has_id(id) {
            return Err(WorldError::UnknownComponent);
        }
        proof {
            assert(self.directory().contains_key(entity));
        }
        match id.kind {
            StorageKind::Sparse => {
                let previous = self.sparse[id.index].insert(entity.index, value);
                proof {
                    self.lemma_sparse_changed(*old(self), entity, id);
                    assert(final(self).components_of(entity) =~= old(self).components_of(
                        entity,
                    ).insert(id, value));
                    assert(final(self)@ =~= old(self)@.insert(
                        entity,
                        old(self)@[entity].insert(id, value),
                    ));
                }
                Ok(previous)
            },
            StorageKind::Dense => {
                let there: bool = match self.archetypes.get(loc.archetype) {
                    Some(table) => table.has_component(id.index),
                    None => false,
                };
                if there {
                    let previous = self.archetypes.replace(
                        loc.archetype,
                        id.index,
                        loc.row,
                        value,
                    );
                    proof {
                        old(self).tables()[loc.archetype.index as int].lemma_columns_match_rows(
                            id.index,
                        );
                        self.lemma_value_replaced(*old(self), entity, id, value);
                    }
                    Ok(Some(previous))
                } else {
                    let target = self.prepare_target(loc.archetype, id.index, true);
                    let ghost ready = *self;
                    let mut values = self.take_row(entity, loc);
                    let ghost taken = values@;
                    while values.len() <= id.index
                        invariant
                            taken.len() <= values@.len(),
                            forall|c: int| 0 <= c < taken.len() ==> values@[c] == taken[c],
                        decreases id.index + 1 - values@.len(),
                    {
                        values.push(None);
                    }
                    values[id.index] = Some(value);
                    let ghost lifted = *self;
                    proof {
                        assert forall|c: usize| #[trigger]
                            self.tables()[target.index as int].sig().contains(c) implies c
                            < values@.len() && values@[c as int].is_some() by {
                            assert(ready.tables()[target.index as int].sig().contains(c));
                            if c != id.index {
                                assert(ready.signature_of(entity).contains(c));
                                assert(taken[c as int].is_some());
                            }
                        }
                    }
                    self.put_row(entity, target, values);
                    proof {
                        let given = values@;
                        assert forall|x: Entity|
                            x != entity && #[trigger] old(self)@.contains_key(
                                x,
                            ) implies final(self).components_of(x) == old(self).components_of(
                            x,
                        ) by {
                            assert(ready@[x] == old(self)@[x]);
                            assert(ready.directory().contains_key(x));
                            assert(lifted.directory().contains_key(x));
                        }
                        assert(ready@[entity] == old(self)@[entity]);
                        assert forall|other: ComponentId| #[trigger]
                            final(self).present(entity, other) implies (other == id
                            || ready.present(entity, other)) && final(self).value(entity, other)
                            == if other == id {
                            value
                        } else {
                            ready.value(entity, other)
                        } by {
                            if other.kind == StorageKind::Dense {
                                assert(final(self).signature_of(entity).contains(other.index));
                                assert(other == ComponentId {
                                    index: other.index,
                                    kind: StorageKind::Dense,
                                });
                                if other.index != id.index {
                                    assert(ready.signature_of(entity).contains(other.index));
                                    assert(given[other.index as int] == taken[other.index as int]);
                                }
                            }
                        }
                        assert(final(self).components_of(entity) =~= ready.components_of(
                            entity,
                        ).insert(id, value));
                        assert(final(self)@ =~= old(self)@.insert(
                            entity,
                            old(self)@[entity].insert(id, value),
                        ));
                    }
                    Ok(None)
                }
            },
        }
    }

    /// The world is `older` after component `id` with `value` was attached
    /// to the live entity `e`, or the value `e` had for `id` was overwritten:
    /// nothing else changed, and the dense signature of `e` holds `id` if
    /// `id` is dense.
    pub open spec fn inserted(&self, older: &Self, e: Entity, id: ComponentId, value: V) -> bool {
        &&& self@ == older@.insert(e, older@[e].insert(id, value))
        &&& self.signature_of(e) == if id.kind == StorageKind::Dense {
            older.signature_of(e).insert(id.index)
        } else {
            older.signature_of(e)
        }
        &&& self.directory().dom() == older.directory().dom()
        &&& self.registry() == older.registry()
        &&& self.next_entity() == older.next_entity()
        &&& self.extends(older)
    }

    /// The world is `older` after component `id` was detached from the live
    /// entity `e`: nothing else changed, and the dense signature of `e` has
    /// lost `id` if `id` is dense.
    pub open spec fn removed(&self, older: &Self, e: Entity, id: ComponentId) -> bool {
        &&& self@ == older@.insert(e, older@[e].remove(id))
        &&& self.signature_of(e) == if id.kind == StorageKind::Dense {
            older.signature_of(e).remove(id.index)
        } else {
            older.signature_of(e)
        }
        &&& self.directory().dom() == older.directory().dom()
        &&& self.registry() == older.registry()
        &&& self.next_entity() == older.next_entity()
        &&& self.extends(older)
    }

    /// Every entity is stored where it was in `older`, and no table has
    /// gained or lost a row.
    pub open spec fn stays_in_place(&self, older: &Self) -> bool {
        &&& self.directory() == older.directory()
        &&& self.tables().len() == older.tables().len()
        &&& forall|a: int|
            0 <= a < self.tables().len() ==> (#[trigger] self.tables()[a]).rows()
                == older.tables()[a].rows() && self.tables()[a].sig() == older.tables()[a].sig()
    }

    /// What a change to the sparse values of `entity` leaves as it was.
    proof fn lemma_sparse_changed(&self, before: Self, entity: Entity, id: ComponentId)
        requires
            before.wf(),
            before.directory().contains_key(entity),
            id_registered(before.registry(), id),
            id.kind == StorageKind::Sparse,
            self.components == before.components,
            self.entities == before.entities,
            self.archetypes == before.archetypes,
            self.sparse@.len() == before.sparse@.len(),
            forall|c: usize| c != id.index ==> self.sparse_values(c) == before.sparse_values(c),
            self.sparse_values(id.index).dom().subset_of(
                before.sparse_values(id.index).dom().insert(entity.index),
            ),
            forall|slot: usize|
                slot != entity.index && #[trigger] before.sparse_values(id.index).contains_key(
                    slot,
                ) ==> self.sparse_values(id.index).contains_key(slot) && self.sparse_values(
                    id.index,
                )[slot] == before.sparse_values(id.index)[slot],
        ensures
            self.wf(),
            self.extends(&before),
            self.stays_in_place(&before),
            forall|x: Entity|
                x != entity && #[trigger] before.directory().contains_key(x)
                    ==> self.components_of(x) == before.components_of(x),
            forall|other: ComponentId|
                other != id ==> self.present(entity, other) == before.present(entity, other)
                    && self.value(entity, other) == before.value(entity, other),
    {
        assert(self.registry() == before.registry());
        assert(self.directory() == before.directory());
        assert(self.tables() == before.tables());
        assert forall|c: usize, slot: usize| #[trigger]
            self.sparse_values(c).contains_key(slot) implies c < self.registry().len()
            && self.registry()[c as int].kind == StorageKind::Sparse && slot_live(
            self.directory(),
            slot,
        ) by {
            if c == id.index && slot == entity.index {
                assert(self.directory().contains_key(
                    Entity { index: entity.index, generation: entity.generation },
                ));
            } else {
                assert(before.sparse_values(c).contains_key(slot));
            }
        }
        assert forall|x: Entity|
            x != entity && #[trigger] before.directory().contains_key(
                x,
            ) implies self.components_of(x) == before.components_of(x) by {
            if x.index == entity.index {
                before.entities.lemma_one_live_per_index(x, entity);
            }
            assert forall|other: ComponentId|
                self.present(x, other) == before.present(x, other) && (self.present(x, other)
                    ==> self.value(x, other) == before.value(x, other)) by {
                if other.kind == StorageKind::Sparse && other.index == id.index {
                    if self.sparse_values(id.index).contains_key(x.index) {
                        assert(self.sparse_values(id.index).dom().contains(x.index));
                        assert(before.sparse_values(id.index).dom().insert(entity.index).contains(
                            x.index,
                        ));
                    }
                }
            }
            assert(self.components_of(x) =~= before.components_of(x));
        }
    }

    /// The world after one dense value of `entity` was overwritten.
    proof fn lemma_value_replaced(&self, before: Self, entity: Entity, id: ComponentId, value: V)
        requires
            before.wf(),
            before.directory().contains_key(entity),
            id_registered(before.registry(), id),
            id.kind == StorageKind::Dense,
            before.signature_of(entity).contains(id.index),
            self.components == before.components,
            self.entities == before.entities,
            self.sparse == before.sparse,
            archetypes_wf(self.tables()),
            self.tables().len() == before.tables().len(),
            forall|b: int|
                0 <= b < before.tables().len() && b != before.directory()[entity].archetype.index
                    ==> self.tables()[b] == before.tables()[b],
            ({
                let a = before.directory()[entity].archetype.index as int;
                let row = before.directory()[entity].row as int;
                &&& self.tables()[a].sig() == before.tables()[a].sig()
                &&& self.tables()[a].rows() == before.tables()[a].rows()
                &&& self.tables()[a].column(id.index) == before.tables()[a].column(
                    id.index,
                ).update(row, value)
                &&& forall|d: usize|
                    d != id.index ==> self.tables()[a].column(d) == before.tables()[a].column(d)
            }),
        ensures
            self.wf(),
            self.extends(&before),
            self.stays_in_place(&before),
            self@ == before@.insert(entity, before@[entity].insert(id, value)),
            self.signature_of(entity) == before.signature_of(entity).insert(id.index),
    {
        let a = before.directory()[entity].archetype.index as int;
        let row = before.directory()[entity].row as int;
        let older = before.tables();
        let newer = self.tables();
        let dir = self.directory();
        older[a].lemma_columns_match_rows(id.index);
        assert forall|b: int| 0 <= b < newer.len() implies (#[trigger] newer[b]).rows()
            == older[b].rows() && newer[b].sig() == older[b].sig() by {
            if b != a {
                assert(newer[b] == older[b]);
            }
        }
        assert forall|x: Entity| #[trigger] dir.contains_key(x) implies ({
            let l = dir[x];
            &&& l.archetype.index < newer.len()
            &&& l.row < newer[l.archetype.index as int].rows().len()
            &&& newer[l.archetype.index as int].rows()[l.row as int] == x
        }) by {
            let l = dir[x];
            assert(newer[l.archetype.index as int].rows()
                == older[l.archetype.index as int].rows());
        }
        assert forall|b: int, r: int|
            0 <= b < newer.len() && 0 <= r < newer[b].rows().len() implies ({
            let x = #[trigger] newer[b].rows()[r];
            dir.contains_key(x) && dir[x] == location_at(b, r)
        }) by {
            assert(newer[b].rows() == older[b].rows());
            assert(older[b].rows()[r] == newer[b].rows()[r]);
        }
        assert forall|b: int, c: usize|
            0 <= b < newer.len() && #[trigger] newer[b].sig().contains(c) implies c
            < self.registry().len() && self.registry()[c as int].kind == StorageKind::Dense by {
            assert(older[b].sig().contains(c));
        }
        assert forall|c: usize, slot: usize| #[trigger]
            self.sparse_values(c).contains_key(slot) implies c < self.registry().len()
            && self.registry()[c as int].kind == StorageKind::Sparse && slot_live(dir, slot) by {
            assert(before.sparse_values(c).contains_key(slot));
        }
        assert forall|x: Entity| x != entity && #[trigger] dir.contains_key(x)
            implies self.components_of(
            x,
        ) == before.components_of(x) by {
            let l = dir[x];
            if l.archetype.index as int == a {
                assert(older[a].rows()[l.row as int] == x);
                assert(l.row as int != row);
                assert forall|other: ComponentId| #[trigger]
                    self.present(x, other) implies self.value(x, other) == before.value(
                    x,
                    other,
                ) by {
                    if other.kind == StorageKind::Dense {
                        older[a].lemma_columns_match_rows(other.index);
                    }
                }
            } else {
                assert(newer[l.archetype.index as int] == older[l.archetype.index as int]);
            }
            assert(self.components_of(x) =~= before.components_of(x));
        }
        assert(self.components_of(entity) =~= before.components_of(entity).insert(id, value));
        assert(self@ =~= before@.insert(entity, before@[entity].insert(id, value)));
        assert(self.signature_of(entity) =~= before.signature_of(entity).insert(id.index));
    }
}

impl<V> World<V> {
    /// Detaches component `id` from `entity` and returns its value.  `None`
    /// means that nothing was removed: the entity is not live, or it does
    /// not have the component.
    ///
    /// Removing a dense component moves the entity to the archetype of the
    /// smaller signature; removing a sparse one leaves every entity where it
    /// is.
    pub fn remove(&mut self, entity: Entity, id: ComponentId) -> (r: Option<V>)
        requires
            old(self).wf(),
        ensures
            final(self).wf(),
            final(self).extends(old(self)),
            final(self).registry() == old(self).registry(),
            r == if old(self)@.contains_key(entity) && old(self)@[entity].contains_key(id) {
                Some(old(self)@[entity][id])
            } else {
                None
            },
            r is Some ==> final(self).removed(old(self), entity, id),
            r is None ==> final(self)@ == old(self)@,
            final(self)@ == after_step(old(self)@, Step::Remove(entity, id)),
            r is None || id.kind == StorageKind::Sparse ==> final(self).stays_in_place(old(self)),
    {
        let loc = match self.entities.resolve(entity) {
            Some(loc) => loc,
            None => {
                return None;
            },
        };
        proof {
            assert(self.directory().contains_key(entity));
        }
        if !self.components.has_id(id) {
            return None;
        }
        match id.kind {
            StorageKind::Sparse => {
                let removed = self.sparse[id.index].remove(entity.index);
                proof {
                    self.lemma_sparse_changed(*old(self), entity, id);
                    if removed is Some {
                        assert(final(self).components_of(entity) =~= old(self).components_of(
                            entity,
                        ).remove(id));
                        assert(final(self)@ =~= old(self)@.insert(
                            entity,
                            old(self)@[entity].remove(id),
                        ));
                    } else {
                        assert(final(self).components_of(entity) =~= old(self).components_of(
                            entity,
                        ));
                        assert(final(self)@ =~= old(self)@);
                    }
                }
                removed
            },
            StorageKind::Dense => {
                let there: bool = match self.archetypes.get(loc.archetype) {
                    Some(table) => table.has_component(id.index),
                    None => false,
                };
                if !there {
                    return None;
                }
                let target = self.prepare_target(loc.archetype, id.index, false);
                let ghost ready = *self;
                let mut values = self.take_row(entity, loc);
                let ghost taken = values@;
                proof {
                    assert(ready.signature_of(entity).contains(id.index));
                }
                let removed = values[id.index].take();
                let ghost lifted = *self;
                proof {
                    assert forall|c: usize| #[trigger]
                        self.tables()[target.index as int].sig().contains(c) implies c
                        < values@.len() && values@[c as int].is_some() by {
                        assert(ready.tables()[target.index as int].sig().contains(c));
                        assert(ready.signature_of(entity).contains(c));
                        assert(taken[c as int].is_some());
                    }
                }
                self.put_row(entity, target, values);
                proof {
                    let given = values@;
                    assert forall|x: Entity|
                        x != entity && #[trigger] old(self)@.contains_key(x)
                            implies final(self).components_of(x) == old(self).components_of(x) by {
                        assert(ready@[x] == old(self)@[x]);
                        assert(ready.directory().contains_key(x));
                        assert(lifted.directory().contains_key(x));
                    }
                    assert(ready@[entity] == old(self)@[entity]);
                    assert forall|other: ComponentId| #[trigger]
                        final(self).present(entity, other) implies other != id && ready.present(
                        entity,
                        other,
                    ) && final(self).value(entity, other) == ready.value(entity, other) by {
                        if other.kind == StorageKind::Dense {
                            assert(final(self).signature_of(entity).contains(other.index));
                            assert(other == ComponentId {
                                index: other.index,
                                kind: StorageKind::Dense,
                            });
                            assert(ready.signature_of(entity).contains(other.index));
                            assert(given[other.index as int] == taken[other.index as int]);
                        }
                    }
                    assert(final(self).components_of(entity) =~= ready.components_of(
                        entity,
                    ).remove(id));
                    assert(final(self)@ =~= old(self)@.insert(
                        entity,
                        old(self)@[entity].remove(id),
                    ));
                    assert(id == ComponentId { index: id.index, kind: StorageKind::Dense });
                }
                removed
            },
        }
    }

    /// Ends the life of `entity`: its row and its sparse values are dropped
    /// and its handle is retired.  Returns whether the entity was live; a
    /// handle that is not live changes nothing.
    pub fn despawn(&mut self, entity: Entity) -> (r: bool)
        requires
            old(self).wf(),
        ensures
            final(self).wf(),
            final(self).extends(old(self)),
            final(self).registry() == old(self).registry(),
            r == old(self)@.contains_key(entity),
            final(self)@ == old(self)@.remove(entity),
            final(self)@ == after_step(old(self)@, Step::Despawn(entity)),
            r ==> final(self).is_retired(entity),
            final(self).next_entity() == if r && entity.generation + 1 < u32::MAX {
                Entity { index: entity.index, generation: (entity.generation + 1) as u32 }
            } else {
                old(self).next_entity()
            },
            !r ==> final(self).stays_in_place(old(self)),
    {
        let loc = match self.entities.resolve(entity) {
            Some(loc) => loc,
            None => {
                proof {
                    assert(final(self)@ =~= old(self)@.remove(entity));
                }
                return false;
            },
        };
        proof {
            assert(self.directory().contains_key(entity));
        }
        let _row = self.take_row(entity, loc);
        let ghost lifted = *self;
        let _location = self.entities.despawn(entity);
        let n: usize = self.sparse.len();
        let mut c: usize = 0;
        while c < n
            invariant
                c <= n,
                n == self.sparse@.len(),
                self.components == lifted.components,
                self.archetypes == lifted.archetypes,
                self.entities@ == lifted.entities@.remove(entity),
                self.entities.wf(),
                forall|x: Entity| #[trigger]
                    self.entities.is_retired(x) == (lifted.entities.is_retired(x) || x == entity),
                self.entities.next_handle() == if entity.generation + 1 < u32::MAX {
                    Entity { index: entity.index, generation: (entity.generation + 1) as u32 }
                } else {
                    lifted.entities.next_handle()
                },
                lifted.parts_wf(),
                forall|d: usize|
                    d < c ==> #[trigger] self.sparse_values(d) == lifted.sparse_values(d).remove(
                        entity.index,
                    ),
                forall|d: usize| c <= d ==> #[trigger] self.sparse_values(d)
                    == lifted.sparse_values(d),
            decreases n - c,
        {
            let ghost before = *self;
            let _value = self.sparse[c].remove(entity.index);
            proof {
                assert forall|d: usize| d < c + 1 implies #[trigger] self.sparse_values(d)
                    == lifted.sparse_values(d).remove(entity.index) by {
                    if d < c {
                        assert(self.sparse_values(d) == before.sparse_values(d));
                    } else {
                        assert(before.sparse_values(d) == lifted.sparse_values(d));
                    }
                }
                assert forall|d: usize| c + 1 <= d implies #[trigger] self.sparse_values(d)
                    == lifted.sparse_values(d) by {
                    assert(self.sparse_values(d) == before.sparse_values(d));
                }
            }
            c += 1;
        }
        proof {
            let tables = self.tables();
            let odir = lifted.directory();
            let ndir = self.directory();
            assert(tables == lifted.tables());
            assert forall|d: usize| #[trigger]
                self.sparse_values(d) == lifted.sparse_values(d).remove(entity.index) by {
                if d >= n {
                    assert(self.sparse_values(d) =~= lifted.sparse_values(d).remove(entity.index));
                }
            }
            assert forall|x: Entity| #[trigger] ndir.contains_key(x) implies ({
                let l = ndir[x];
                &&& l.archetype.index < tables.len()
                &&& l.row < tables[l.archetype.index as int].rows().len()
                &&& tables[l.archetype.index as int].rows()[l.row as int] == x
            }) by {
                assert(odir.contains_key(x));
            }
            assert forall|b: int, r: int|
                0 <= b < tables.len() && 0 <= r < tables[b].rows().len() implies ({
                let x = #[trigger] tables[b].rows()[r];
                ndir.contains_key(x) && ndir[x] == location_at(b, r)
            }) by {
                let x = tables[b].rows()[r];
                assert(odir.contains_key(x) && Some(entity) != Some(x));
            }
            assert forall|d: usize, slot: usize| #[trigger]
                self.sparse_values(d).contains_key(slot) implies d < self.registry().len()
                && self.registry()[d as int].kind == StorageKind::Sparse && slot_live(
                ndir,
                slot,
            ) by {
                assert(lifted.sparse_values(d).contains_key(slot));
                let g = choose|g: u32| #[trigger]
                    odir.contains_key(Entity { index: slot, generation: g });
                assert(ndir.contains_key(Entity { index: slot, generation: g }));
            }
            assert forall|x: Entity| #[trigger] ndir.contains_key(x)
                implies final(self).components_of(x) == old(self).components_of(x) by {
                assert(old(self).directory().contains_key(x));
                if x.index == entity.index {
                    lifted.entities.lemma_one_live_per_index(x, entity);
                }
                assert(final(self).components_of(x) =~= lifted.components_of(x));
            }
            assert(final(self)@ =~= old(self)@.remove(entity));
        }
        true
    }
}

impl<V> World<V> {
    /// A live entity has exactly one row, the one the directory names, and
    /// the dense components it has are the values of that row.
    pub proof fn lemma_live_entity_has_one_row(&self, e: Entity)
        requires
            self.wf(),
            self@.contains_key(e),
        ensures
            ({
                let loc = self.directory()[e];
                &&& loc.archetype.index < self.tables().len()
                &&& loc.row < self.tables()[loc.archetype.index as int].rows().len()
                &&& self.tables()[loc.archetype.index as int].rows()[loc.row as int] == e
                &&& forall|a: int, r: int|
                    0 <= a < self.tables().len() && 0 <= r < self.tables()[a].rows().len()
                        && #[trigger] self.tables()[a].rows()[r] == e ==> a == loc.archetype.index
                        && r == loc.row
                &&& forall|id: ComponentId|
                    id.kind == StorageKind::Dense && #[trigger] self@[e].contains_key(id)
                        ==> self.tables()[loc.archetype.index as int].sig().contains(id.index)
                        && self@[e][id] == self.tables()[loc.archetype.index as int].column(
                        id.index,
                    )[loc.row as int]
            }),
    {
        assert(self.directory().contains_key(e));
        let loc = self.directory()[e];
        assert forall|a: int, r: int|
            0 <= a < self.tables().len() && 0 <= r < self.tables()[a].rows().len()
                && #[trigger] self.tables()[a].rows()[r] == e implies a == loc.archetype.index
            && r == loc.row by {
            assert(self.directory()[e] == location_at(a, r));
            self.archetypes.lemma_len_fits();
            self.lemma_rows_fit(a);
        }
    }

    /// The number of rows of a table fits the machine word.
    proof fn lemma_rows_fit(&self, a: int)
        requires
            0 <= a < self.tables().len(),
        ensures
            self.tables()[a].rows().len() <= usize::MAX,
    {
        self.tables()[a].lemma_rows_fit();
    }

    /// At most one live entity occupies a directory slot.
    pub proof fn lemma_one_live_per_slot(&self, e1: Entity, e2: Entity)
        requires
            self@.contains_key(e1),
            self@.contains_key(e2),
            e1.index == e2.index,
        ensures
            e1 == e2,
    {
        self.entities.lemma_one_live_per_index(e1, e2);
    }

    /// Two live entities with the same dense components are stored in the
    /// same archetype.
    pub proof fn lemma_signature_names_archetype(&self, e1: Entity, e2: Entity)
        requires
            self.wf(),
            self@.contains_key(e1),
            self@.contains_key(e2),
            self.signature_of(e1) == self.signature_of(e2),
        ensures
            self.directory()[e1].archetype == self.directory()[e2].archetype,
    {
        assert(self.directory().contains_key(e1));
        assert(self.directory().contains_key(e2));
    }

    /// `extends` is reflexive.
    pub proof fn lemma_extends_itself(&self)
        ensures
            self.extends(self),
    {
    }

    /// `extends` is transitive.
    pub proof fn lemma_extends_chain(&self, middle: &Self, older: &Self)
        requires
            self.extends(middle),
            middle.extends(older),
        ensures
            self.extends(older),
    {
        assert forall|a: int| 0 <= a < older.tables().len()
            implies (#[trigger] self.tables()[a]).sig()
            == older.tables()[a].sig() by {
            assert(middle.tables()[a].sig() == older.tables()[a].sig());
        }
    }

    /// A handle that was retired is dead in every later state of the world,
    /// whatever was spawned in between.
    pub proof fn lemma_retired_stays_dead(&self, older: &Self, e: Entity)
        requires
            older.is_retired(e),
            self.extends(older),
        ensures
            self.is_retired(e),
            !self@.contains_key(e),
    {
        self.entities.lemma_retired_not_live(e);
    }

    /// Attaching a component that the entity did not have and detaching it
    /// right away gives back the world as it was, and the entity is in the
    /// archetype it started in.
    pub proof fn lemma_insert_then_remove(
        &self,
        middle: &Self,
        older: &Self,
        e: Entity,
        id: ComponentId,
        value: V,
    )
        requires
            older.wf(),
            self.wf(),
            older@.contains_key(e),
            id_registered(older.registry(), id),
            !older@[e].contains_key(id),
            middle.inserted(older, e, id, value),
            self.removed(middle, e, id),
        ensures
            self@ == older@,
            self.signature_of(e) == older.signature_of(e),
            self.directory()[e].archetype == older.directory()[e].archetype,
    {
        assert(older@[e].insert(id, value).remove(id) =~= older@[e]);
        assert(self@ =~= older@);
        assert(older.directory().contains_key(e));
        assert(self.directory().contains_key(e));
        if id.kind == StorageKind::Dense {
            assert(!older.present(e, id));
            assert(older.signature_of(e).insert(id.index).remove(id.index) =~= older.signature_of(
                e,
            ));
        }
        self.lemma_extends_chain(middle, older);
        let a0 = older.directory()[e].archetype.index as int;
        let a2 = self.directory()[e].archetype.index as int;
        assert(self.tables()[a0].sig() == older.tables()[a0].sig());
        assert(self.tables()[a2].sig() == self.tables()[a0].sig());
    }
}

impl<V> World<V> {
    /// The world is `before` with `value` as the dense component `id` of
    /// `entity`, which had the component already.
    spec fn dense_value_written(&self, before: Self, entity: Entity, id: ComponentId, value: V)
        -> bool {
        let a = before.directory()[entity].archetype.index as int;
        let row = before.directory()[entity].row as int;
        &&& self.components == before.components
        &&& self.entities == before.entities
        &&& self.sparse == before.sparse
        &&& one_table_changed(self.tables(), before.tables(), a)
        &&& self.tables()[a].rows() == before.tables()[a].rows()
        &&& self.tables()[a].column(id.index) == before.tables()[a].column(id.index).update(
            row,
            value,
        )
        &&& forall|d: usize|
            d != id.index ==> #[trigger] self.tables()[a].column(d) == before.tables()[a].column(d)
    }

    /// The world is `before` with `value` as the sparse component `id` of
    /// `entity`.
    spec fn sparse_value_written(&self, before: Self, entity: Entity, id: ComponentId, value: V)
        -> bool {
        &&& self.components == before.components
        &&& self.entities == before.entities
        &&& self.archetypes == before.archetypes
        &&& id.index < before.sparse@.len()
        &&& self.sparse@ == before.sparse@.update(id.index as int, self.sparse@[id.index as int])
        &&& self.sparse@[id.index as int]@ == before.sparse@[id.index as int]@.insert(
            entity.index,
            value,
        )
    }

    /// The sparse value of `entity` for `id`, for changing it in place.
    fn sparse_get_mut(&mut self, entity: Entity, id: ComponentId) -> (r: Option<&mut V>)
        requires
            id.index < old(self).sparse@.len(),
        ensures
            match r {
                Some(value) => old(self).sparse_values(id.index).contains_key(entity.index)
                    && *value == old(self).sparse_values(id.index)[entity.index]
                        && final(self).sparse_value_written(*old(self), entity, id, *final(value)),
                None => !old(self).sparse_values(id.index).contains_key(entity.index),
            },
    {
        self.sparse[id.index].get_mut(entity.index)
    }

    /// What writing one value, dense or sparse, does to the world.
    proof fn lemma_value_written(&self, before: Self, entity: Entity, id: ComponentId, value: V)
        requires
            before.wf(),
            before.directory().contains_key(entity),
            id_registered(before.registry(), id),
            match id.kind {
                StorageKind::Dense => before.signature_of(entity).contains(id.index)
                    && self.dense_value_written(before, entity, id, value),
                StorageKind::Sparse => self.sparse_value_written(before, entity, id, value),
            },
        ensures
            self.wf(),
            self.inserted(&before, entity, id, value),
            self.stays_in_place(&before),
    {
        match id.kind {
            StorageKind::Dense => {
                let a = before.directory()[entity].archetype.index as int;
                lemma_one_table_changed(self.tables(), before.tables(), a);
                self.lemma_value_replaced(before, entity, id, value);
            },
            StorageKind::Sparse => {
                assert forall|c: usize| c != id.index implies self.sparse_values(c)
                    == before.sparse_values(c) by {
                    if c < before.sparse@.len() {
                        assert(self.sparse@[c as int] == before.sparse@[c as int]);
                    }
                }
                self.lemma_sparse_changed(before, entity, id);
                assert(self.components_of(entity) =~= before.components_of(entity).insert(
                    id,
                    value,
                ));
                assert(self@ =~= before@.insert(entity, before@[entity].insert(id, value)));
            },
        }
    }

    /// The value of component `id` of `entity`, for changing it in place,
    /// if the entity is live and has the component.  Whatever is written,
    /// every entity stays where it is.
    #[verifier::rlimit(40)]
    #[verifier::spinoff_prover]
    pub fn get_mut(&mut self, entity: Entity, id: ComponentId) -> (r: Option<&mut V>)
        requires
            old(self).wf(),
        ensures
            match r {
                Some(value) => old(self)@.contains_key(entity) && old(self)@[entity].contains_key(
                    id,
                ) && *value == old(self)@[entity][id] && final(self).inserted(
                    old(self),
                    entity,
                    id,
                    *final(value),
                ) && final(self).wf() && final(self).stays_in_place(old(self)),
                None => !(old(self)@.contains_key(entity) && old(self)@[entity].contains_key(id))
                    && final(self)@ == old(self)@ && final(self).extends(old(self))
                    && final(self).registry() == old(self).registry() && final(self).wf()
                    && final(self).stays_in_place(old(self)),
            },
    {
        let loc = match self.entities.resolve(entity) {
            Some(loc) => loc,
            None => {
                return None;
            },
        };
        proof {
            assert(self.directory().contains_key(entity));
        }
        if !self.components.has_id(id) {
            return None;
        }
        let ghost before = *self;
        match id.kind {
            StorageKind::Sparse => {
                if !self.sparse[id.index].contains(entity.index) {
                    return None;
                }
                proof {
                    assert(self.present(entity, id));
                    assert(self@[entity].contains_key(id));
                    assert(self@[entity][id] == self.sparse@[id.index as int]@[entity.index]);
                    assert forall|newer: Self, value: V|
                        newer.sparse_value_written(before, entity, id, value) implies newer.wf()
                        && #[trigger] newer.inserted(&before, entity, id, value)
                        && newer.stays_in_place(&before) by {
                        newer.lemma_value_written(before, entity, id, value);
                    }
                }
                self.sparse_get_mut(entity, id)
            },
            StorageKind::Dense => {
                let there: bool = match self.archetypes.get(loc.archetype) {
                    Some(table) => table.has_component(id.index),
                    None => false,
                };
                if !there {
                    return None;
                }
                proof {
                    before.tables()[loc.archetype.index as int].lemma_columns_match_rows(id.index);
                    assert forall|newer: Self, value: V|
                        newer.dense_value_written(before, entity, id, value) implies newer.wf()
                        && #[trigger] newer.inserted(&before, entity, id, value)
                        && newer.stays_in_place(&before) by {
                        newer.lemma_value_written(before, entity, id, value);
                    }
                }
                Some(self.archetypes.get_mut(loc.archetype, id.index, loc.row))
            },
        }
    }
}

impl<V> World<V> {
    /// A world whose registry grew, and nothing else changed, holds the
    /// same entities with the same components.
    proof fn lemma_registry_grew(&self, before: Self)
        requires
            before.wf(),
            self.components.wf(),
            registry_extends(self.registry(), before.registry()),
            self.entities == before.entities,
            self.archetypes == before.archetypes,
            self.sparse@.len() == self.components@.len(),
            forall|c: usize| #[trigger] self.sparse_values(c) == before.sparse_values(c),
        ensures
            self.wf(),
            self@ == before@,
            self.extends(&before),
    {
        assert forall|c: usize, slot: usize| #[trigger]
            self.sparse_values(c).contains_key(slot) implies c < self.registry().len()
            && self.registry()[c as int].kind == StorageKind::Sparse && slot_live(
            self.directory(),
            slot,
        ) by {
            assert(before.sparse_values(c).contains_key(slot));
        }
        assert forall|a: int, c: usize|
            0 <= a < self.tables().len() && #[trigger] self.tables()[a].sig().contains(
                c,
            ) implies c < self.registry().len() && self.registry()[c as int].kind
            == StorageKind::Dense by {
            assert(before.tables()[a].sig().contains(c));
        }
        assert forall|e: Entity| #[trigger] self@.contains_key(e) implies self.components_of(e)
            == before.components_of(e) by {
            assert forall|id: ComponentId| self.present(e, id) == before.present(e, id) by {
                if id.kind == StorageKind::Dense && self.present(e, id) {
                    let a = self.directory()[e].archetype.index as int;
                    assert(before.tables()[a].sig().contains(id.index));
                }
                if id.kind == StorageKind::Sparse && self.present(e, id) {
                    assert(before.sparse_values(id.index).contains_key(e.index));
                }
            }
            assert(self.components_of(e) =~= before.components_of(e));
        }
        assert(self@ =~= before@);
    }

    /// The registry of a well-formed world holds every type key once.
    pub proof fn lemma_registry_keys_distinct(&self)
        requires
            self.wf(),
        ensures
            keys_distinct(self.registry()),
    {
        self.components.lemma_keys_distinct();
    }

    /// Looks up the component types that the query parameter `Q` names;
    /// those that are not registered yet are registered with dense storage.
    pub fn prepare<Q: QueryParam>(&mut self) -> (prepared: Q::Prepared)
        requires
            old(self).wf(),
        ensures
            final(self).wf(),
            final(self)@ == old(self)@,
            final(self).extends(old(self)),
            final(self).tables() == old(self).tables(),
            final(self).directory() == old(self).directory(),
            final(self).next_entity() == old(self).next_entity(),
            Q::prepared_in(prepared, final(self).registry()),
    {
        let prepared = Q::prepare(&mut self.components);
        while self.sparse.len() < self.components.len()
            invariant
                self.components.wf(),
                registry_extends(self.components@, old(self).components@),
                Q::prepared_in(prepared, self.components@),
                self.entities == old(self).entities,
                self.archetypes == old(self).archetypes,
                old(self).sparse@.len() <= self.sparse@.len(),
                old(self).sparse@.len() == old(self).components@.len(),
                self.sparse@.len() <= self.components@.len(),
                forall|c: usize| #[trigger] self.sparse_values(c) == old(self).sparse_values(c),
            decreases self.components@.len() - self.sparse@.len(),
        {
            let ghost had = *self;
            self.sparse.push(SparseStorage::new());
            proof {
                assert forall|c: usize| #[trigger]
                    self.sparse_values(c) == old(self).sparse_values(c) by {
                    assert(self.sparse_values(c) =~= had.sparse_values(c));
                }
            }
        }
        proof {
            final(self).lemma_registry_grew(*old(self));
        }
        prepared
    }
}

/// The components of an entity after the entries of `bundle` were attached
/// to it one after the other; of two entries for one component the later
/// one counts.
pub open spec fn bundle_applied<V>(
    comps: Map<ComponentId, V>,
    bundle: Seq<(ComponentId, V)>,
) -> Map<ComponentId, V>
    decreases bundle.len(),
{
    if bundle.len() == 0 {
        comps
    } else {
        bundle_applied(comps, bundle.drop_last()).insert(bundle.last().0, bundle.last().1)
    }
}

/// Every entry of `bundle` names a component of `registry`.
pub open spec fn bundle_registered<V>(
    registry: Seq<ComponentInfo>,
    bundle: Seq<(ComponentId, V)>,
) -> bool {
    forall|k: int| 0 <= k < bundle.len() ==> id_registered(registry, (#[trigger] bundle[k]).0)
}

/// The identifier of the dense component at registry position `c`.
pub open spec fn dense_id(c: usize) -> ComponentId {
    ComponentId { index: c, kind: StorageKind::Dense }
}

/// The identifier of the sparse component at registry position `c`.
pub open spec fn sparse_id(c: usize) -> ComponentId {
    ComponentId { index: c, kind: StorageKind::Sparse }
}

/// Attaching one more entry of a bundle.
proof fn lemma_bundle_step<V>(comps: Map<ComponentId, V>, bundle: Seq<(ComponentId, V)>, k: int)
    requires
        0 <= k < bundle.len(),
    ensures
        bundle_applied(comps, bundle.take(k + 1)) == bundle_applied(comps, bundle.take(k)).insert(
            bundle[k].0,
            bundle[k].1,
        ),
{
    let longer = bundle.take(k + 1);
    assert(longer.drop_last() =~= bundle.take(k));
    assert(longer.last() == bundle[k]);
}

/// The vector with its elements in the opposite order.
fn reversed<T>(v: Vec<T>) -> (r: Vec<T>)
    ensures
        r@.len() == v@.len(),
        forall|j: int| 0 <= j < r@.len() ==> r@[j] == v@[v@.len() - 1 - j],
{
    let mut v = v;
    let ghost given = v@;
    let mut r: Vec<T> = Vec::new();
    while v.len() > 0
        invariant
            v@.len() + r@.len() == given.len(),
            forall|j: int| 0 <= j < v@.len() ==> v@[j] == given[j],
            forall|j: int| 0 <= j < r@.len() ==> r@[j] == given[given.len() - 1 - j],
        decreases v@.len(),
    {
        let last = v.pop().unwrap();
        r.push(last);
    }
    r
}

impl<V> World<V> {
    /// A world whose archetype list grew by tables without rows, and
    /// nothing else changed, holds the same entities with the same
    /// components.
    proof fn lemma_tables_grew(&self, before: Self)
        requires
            before.wf(),
            self.components == before.components,
            self.entities == before.entities,
            self.sparse == before.sparse,
            archetypes_wf(self.tables()),
            rows_untouched(self.tables(), before.tables()),
            forall|b: int, d: usize|
                before.tables().len() <= b < self.tables().len()
                    && #[trigger] self.tables()[b].sig().contains(d) ==> d < self.registry().len()
                    && self.registry()[d as int].kind == StorageKind::Dense,
        ensures
            self.wf(),
            self@ == before@,
    {
        let older = before.tables();
        let newer = self.tables();
        let dir = self.directory();
        assert forall|b: int, d: usize|
            0 <= b < newer.len() && #[trigger] newer[b].sig().contains(d) implies d
            < self.registry().len() && self.registry()[d as int].kind == StorageKind::Dense by {
            if b < older.len() {
                assert(older[b].sig().contains(d));
            }
        }
        assert forall|x: Entity| #[trigger] dir.contains_key(x) implies ({
            let l = dir[x];
            &&& l.archetype.index < newer.len()
            &&& l.row < newer[l.archetype.index as int].rows().len()
            &&& newer[l.archetype.index as int].rows()[l.row as int] == x
        }) by {
            let l = dir[x];
            assert(newer[l.archetype.index as int].rows()
                == older[l.archetype.index as int].rows());
        }
        assert forall|b: int, r: int|
            0 <= b < newer.len() && 0 <= r < newer[b].rows().len() implies ({
            let x = #[trigger] newer[b].rows()[r];
            dir.contains_key(x) && dir[x] == location_at(b, r)
        }) by {
            assert(b < older.len());
            assert(newer[b].rows() == older[b].rows());
            assert(older[b].rows()[r] == newer[b].rows()[r]);
        }
        assert forall|d: usize, slot: usize| #[trigger]
            self.sparse_values(d).contains_key(slot) implies d < self.registry().len()
            && self.registry()[d as int].kind == StorageKind::Sparse && slot_live(dir, slot) by {
            assert(before.sparse_values(d).contains_key(slot));
        }
        assert forall|x: Entity| #[trigger] dir.contains_key(x) implies self.components_of(x)
            == before.components_of(x) by {
            let l = dir[x];
            assert(newer[l.archetype.index as int].sig() == older[l.archetype.index as int].sig());
            assert(self.components_of(x) =~= before.components_of(x));
        }
        assert(self@ =~= before@);
    }

    /// Finds, or makes, the archetype with the signature `signature`.
    fn target_for(&mut self, signature: ComponentSet) -> (to: ArchetypeId)
        requires
            old(self).wf(),
            forall|c: usize| #[trigger]
                signature@.contains(c) ==> c < old(self).registry().len()
                    && old(self).registry()[c as int].kind == StorageKind::Dense,
        ensures
            final(self).wf(),
            final(self).registry() == old(self).registry(),
            final(self).directory() == old(self).directory(),
            forall|d: usize| final(self).sparse_values(d) == old(self).sparse_values(d),
            forall|x: Entity| final(self).is_retired(x) == old(self).is_retired(x),
            final(self).next_entity() == old(self).next_entity(),
            rows_untouched(final(self).tables(), old(self).tables()),
            to.index < final(self).tables().len(),
            final(self).tables()[to.index as int].sig() == signature@,
            final(self)@ == old(self)@,
    {
        let to = self.archetypes.get_or_create(signature);
        proof {
            let older = old(self).tables();
            let newer = self.tables();
            assert forall|b: int, d: usize|
                older.len() <= b < newer.len() && #[trigger] newer[b].sig().contains(d) implies d
                < self.registry().len() && self.registry()[d as int].kind
                == StorageKind::Dense by {
                assert(b == to.index);
                assert(signature@.contains(d));
            }
            self.lemma_tables_grew(*old(self));
        }
        to
    }
}

impl<V> World<V> {
    /// While the row of `entity` is in flight: `values` and the sparse maps
    /// hold exactly the components `comps` of the entity, and nothing else
    /// differs from `lifted`.
    spec fn carries(
        &self,
        lifted: Self,
        entity: Entity,
        values: Seq<Option<V>>,
        comps: Map<ComponentId, V>,
    ) -> bool {
        &&& self.components == lifted.components
        &&& self.entities == lifted.entities
        &&& self.archetypes == lifted.archetypes
        &&& self.sparse@.len() == lifted.sparse@.len()
        &&& forall|c: usize| #[trigger]
            comps.contains_key(dense_id(c)) <==> c < values.len() && values[c as int] is Some
        &&& forall|c: usize|
            c < values.len() && (#[trigger] values[c as int]) is Some ==> values[c as int]->0
                == comps[dense_id(c)]
        &&& forall|c: usize| #[trigger]
            comps.contains_key(sparse_id(c)) <==> self.sparse_values(c).contains_key(entity.index)
        &&& forall|c: usize| #[trigger]
            self.sparse_values(c).contains_key(entity.index) ==> self.sparse_values(
                c,
            )[entity.index] == comps[sparse_id(c)]
        &&& forall|c: usize| #[trigger]
            self.sparse_values(c).remove(entity.index) == lifted.sparse_values(c).remove(
                entity.index,
            )
        &&& forall|id: ComponentId| #[trigger]
            comps.contains_key(id) ==> id_registered(self.registry(), id)
    }

    /// Right after the row was taken, the world carries the components
    /// that the entity had.
    proof fn lemma_carries_start(
        &self,
        before: Self,
        entity: Entity,
        values: Seq<Option<V>>,
    )
        requires
            before.wf(),
            before.directory().contains_key(entity),
            self.wf_except(Some(entity)),
            self.registry() == before.registry(),
            forall|c: usize| #[trigger] self.sparse_values(c) == before.sparse_values(c),
            forall|c: usize|
                c < values.len() ==> #[trigger] values[c as int] == if before.signature_of(
                    entity,
                ).contains(c) {
                    Some(before.value(entity, dense_id(c)))
                } else {
                    None
                },
            forall|c: usize| before.signature_of(entity).contains(c) ==> c < values.len(),
        ensures
            self.carries(*self, entity, values, before@[entity]),
    {
        let comps = before@[entity];
        assert(comps == before.components_of(entity));
        assert forall|c: usize| #[trigger]
            comps.contains_key(dense_id(c)) <==> c < values.len() && values[c as int] is Some by {
            if before.signature_of(entity).contains(c) {
                assert(before.present(entity, dense_id(c)));
            }
        }
        assert forall|c: usize| #[trigger]
            comps.contains_key(sparse_id(c)) <==> self.sparse_values(c).contains_key(
                entity.index,
            ) by {
            if before.sparse_values(c).contains_key(entity.index) {
                assert(before.present(entity, sparse_id(c)));
            }
        }
    }

    /// Putting a dense value into the row that is in flight.
    proof fn lemma_carries_dense(
        &self,
        lifted: Self,
        entity: Entity,
        before: Seq<Option<V>>,
        after: Seq<Option<V>>,
        comps: Map<ComponentId, V>,
        id: ComponentId,
        value: V,
    )
        requires
            self.carries(lifted, entity, before, comps),
            id.kind == StorageKind::Dense,
            id_registered(self.registry(), id),
            id.index < after.len(),
            before.len() <= after.len(),
            after[id.index as int] == Some(value),
            forall|c: int|
                0 <= c < after.len() && c != id.index ==> #[trigger] after[c] == if c
                    < before.len() {
                    before[c]
                } else {
                    None
                },
        ensures
            self.carries(lifted, entity, after, comps.insert(id, value)),
    {
        let more = comps.insert(id, value);
        assert(id == dense_id(id.index));
        assert forall|c: usize| #[trigger]
            more.contains_key(dense_id(c)) <==> c < after.len() && after[c as int] is Some by {
            if c != id.index {
                assert(comps.contains_key(dense_id(c)) <==> c < before.len()
                    && before[c as int] is Some);
            }
        }
        assert forall|c: usize| c < after.len() && (#[trigger] after[c as int]) is Some
            implies after[c as int]->0
            == more[dense_id(c)] by {
            if c != id.index {
                assert(before[c as int] is Some);
            }
        }
        assert forall|c: usize| #[trigger]
            more.contains_key(sparse_id(c)) <==> self.sparse_values(c).contains_key(
                entity.index,
            ) by {
            assert(comps.contains_key(sparse_id(c)) <==> self.sparse_values(c).contains_key(
                entity.index,
            ));
        }
    }

    /// Putting a sparse value into the map of its component while the row
    /// is in flight.
    proof fn lemma_carries_sparse(
        &self,
        had: Self,
        lifted: Self,
        entity: Entity,
        values: Seq<Option<V>>,
        comps: Map<ComponentId, V>,
        id: ComponentId,
        value: V,
    )
        requires
            had.carries(lifted, entity, values, comps),
            id.kind == StorageKind::Sparse,
            id_registered(had.registry(), id),
            id.index < had.sparse@.len(),
            self.components == had.components,
            self.entities == had.entities,
            self.archetypes == had.archetypes,
            self.sparse@ == had.sparse@.update(id.index as int, self.sparse@[id.index as int]),
            self.sparse@[id.index as int]@ == had.sparse@[id.index as int]@.insert(
                entity.index,
                value,
            ),
        ensures
            self.carries(lifted, entity, values, comps.insert(id, value)),
    {
        let more = comps.insert(id, value);
        assert(id == sparse_id(id.index));
        assert forall|c: usize| c != id.index implies #[trigger] self.sparse_values(c)
            == had.sparse_values(c) by {
            if c < had.sparse@.len() {
                assert(self.sparse@[c as int] == had.sparse@[c as int]);
            }
        }
        assert forall|c: usize| #[trigger]
            more.contains_key(dense_id(c)) <==> c < values.len() && values[c as int] is Some by {
            assert(comps.contains_key(dense_id(c)) <==> c < values.len()
                && values[c as int] is Some);
        }
        assert forall|c: usize| #[trigger]
            more.contains_key(sparse_id(c)) <==> self.sparse_values(c).contains_key(
                entity.index,
            ) by {
            if c != id.index {
                assert(self.sparse_values(c) == had.sparse_values(c));
                assert(comps.contains_key(sparse_id(c)) <==> had.sparse_values(c).contains_key(
                    entity.index,
                ));
            }
        }
        assert forall|c: usize| #[trigger]
            self.sparse_values(c).contains_key(entity.index) implies self.sparse_values(
            c,
        )[entity.index] == more[sparse_id(c)] by {
            if c != id.index {
                assert(self.sparse_values(c) == had.sparse_values(c));
                assert(had.sparse_values(c).contains_key(entity.index));
            }
        }
        assert forall|c: usize| #[trigger]
            self.sparse_values(c).remove(entity.index) == lifted.sparse_values(c).remove(
                entity.index,
            ) by {
            assert(had.sparse_values(c).remove(entity.index) == lifted.sparse_values(c).remove(
                entity.index,
            ));
            if c == id.index {
                assert(self.sparse_values(c).remove(entity.index) =~= had.sparse_values(c).remove(
                    entity.index,
                ));
            } else {
                assert(self.sparse_values(c) == had.sparse_values(c));
            }
        }
    }

    /// A world that carries the components of the entity in flight is
    /// well-formed but for the row of that entity, and every other entity
    /// has the components it had.
    proof fn lemma_carries_keeps(
        &self,
        lifted: Self,
        entity: Entity,
        values: Seq<Option<V>>,
        comps: Map<ComponentId, V>,
    )
        requires
            lifted.wf_except(Some(entity)),
            self.carries(lifted, entity, values, comps),
        ensures
            self.wf_except(Some(entity)),
            forall|x: Entity|
                x != entity && #[trigger] lifted.directory().contains_key(x)
                    ==> self.components_of(x) == lifted.components_of(x),
    {
        let dir = self.directory();
        assert forall|c: usize, slot: usize| #[trigger]
            self.sparse_values(c).contains_key(slot) implies c < self.registry().len()
            && self.registry()[c as int].kind == StorageKind::Sparse && slot_live(dir, slot) by {
            if slot == entity.index {
                assert(comps.contains_key(sparse_id(c)));
                assert(id_registered(self.registry(), sparse_id(c)));
                assert(dir.contains_key(
                    Entity { index: entity.index, generation: entity.generation },
                ));
            } else {
                assert(self.sparse_values(c).remove(entity.index).contains_key(slot));
                assert(lifted.sparse_values(c).remove(entity.index).contains_key(slot));
                assert(lifted.sparse_values(c).contains_key(slot));
            }
        }
        assert forall|x: Entity|
            x != entity && #[trigger] lifted.directory().contains_key(
                x,
            ) implies self.components_of(x) == lifted.components_of(x) by {
            if x.index == entity.index {
                lifted.entities.lemma_one_live_per_index(x, entity);
            }
            assert forall|id: ComponentId|
                self.present(x, id) == lifted.present(x, id) && (self.present(x, id)
                    ==> self.value(x, id) == lifted.value(x, id)) by {
                if id.kind == StorageKind::Sparse {
                    let here = self.sparse_values(id.index);
                    let there = lifted.sparse_values(id.index);
                    assert(here.remove(entity.index) == there.remove(entity.index));
                    assert(here.contains_key(x.index) == here.remove(entity.index).contains_key(
                        x.index,
                    ));
                    assert(there.contains_key(x.index) == there.remove(entity.index).contains_key(
                        x.index,
                    ));
                    if here.contains_key(x.index) {
                        assert(here[x.index] == here.remove(entity.index)[x.index]);
                        assert(there[x.index] == there.remove(entity.index)[x.index]);
                    }
                }
            }
            assert(self.components_of(x) =~= lifted.components_of(x));
        }
    }

    /// Attaches the entries of `bundle` to `entity`, in order, as if each
    /// were inserted by itself, but with at most one move of the entity: to
    /// the archetype whose signature holds what the entity had and every
    /// dense component of the bundle.
    ///
    /// Nothing is changed if the entity is not live or an entry names a
    /// component that the registry of this world did not issue.
    pub fn insert_bundle(&mut self, entity: Entity, bundle: Vec<(ComponentId, V)>) -> (r: Result<
        (),
        WorldError,
    >)
        requires
            old(self).wf(),
        ensures
            final(self).wf(),
            final(self).extends(old(self)),
            final(self).registry() == old(self).registry(),
            final(self).next_entity() == old(self).next_entity(),
            final(self).directory().dom() == old(self).directory().dom(),
            r == if !old(self)@.contains_key(entity) {
                Err::<(), WorldError>(WorldError::NotFound)
            } else if !bundle_registered(old(self).registry(), bundle@) {
                Err::<(), WorldError>(WorldError::UnknownComponent)
            } else {
                Ok::<(), WorldError>(())
            },
            r is Ok ==> final(self)@ == old(self)@.insert(
                entity,
                bundle_applied(old(self)@[entity], bundle@),
            ),
            r is Err ==> final(self)@ == old(self)@ && final(self).stays_in_place(old(self)),
    {
        let loc = match self.entities.resolve(entity) {
            Some(loc) => loc,
            None => {
                return Err(WorldError::NotFound);
            },
        };
        proof {
            assert(self.directory().contains_key(entity));
        }
        let ghost comps0 = self@[entity];
        let ghost given = bundle@;
        let n: usize = bundle.len();
        let mut signature = match self.archetypes.get(loc.archetype) {
            Some(table) => table.signature().copy(),
            None => ComponentSet::new(),
        };
        proof {
            assert(given.take(0) =~= Seq::<(ComponentId, V)>::empty());
            assert(comps0 == self.components_of(entity));
            assert forall|c: usize| #[trigger]
                signature@.contains(c) <==> comps0.contains_key(dense_id(c)) by {
                if signature@.contains(c) {
                    assert(self.present(entity, dense_id(c)));
                }
            }
        }
        let mut k: usize = 0;
        while k < n
            invariant
                k <= n,
                n == given.len(),
                bundle@ == given,
                *self == *old(self),
                self.wf(),
                self.directory().contains_key(entity),
                comps0 == self@[entity],
                forall|j: int| 0 <= j < k
                    ==> id_registered(self.registry(), (#[trigger] given[j]).0),
                forall|c: usize| #[trigger]
                    signature@.contains(c)
                        <==> bundle_applied(comps0, given.take(k as int)).contains_key(
                        dense_id(c),
                    ),
                forall|id: ComponentId| #[trigger]
                    bundle_applied(comps0, given.take(k as int)).contains_key(id) ==> id_registered(
                        self.registry(),
                        id,
                    ),
            decreases n - k,
        {
            let id: ComponentId = bundle[k].0;
            if !self.components.has_id(id) {
                return Err(WorldError::UnknownComponent);
            }
            proof {
                lemma_bundle_step(comps0, given, k as int);
                let so_far = bundle_applied(comps0, given.take(k as int));
                let next = bundle_applied(comps0, given.take(k as int + 1));
                assert forall|c: usize|
                    next.contains_key(dense_id(c)) == (so_far.contains_key(dense_id(c)) || (
                    id.kind == StorageKind::Dense && id.index == c)) by {}
            }
            if id.is_dense() {
                signature.insert_index(id.index);
            }
            k += 1;
        }
        proof {
            assert(given.take(n as int) =~= given);
            assert forall|c: usize| #[trigger] signature@.contains(c) implies c
                < self.registry().len() && self.registry()[c as int].kind
                == StorageKind::Dense by {
                assert(id_registered(self.registry(), dense_id(c)));
            }
        }
        let ghost wanted = signature@;
        let target = self.target_for(signature);
        let ghost ready = *self;
        let mut values = self.take_row(entity, loc);
        let ghost lifted = *self;
        proof {
            assert(ready@[entity] == comps0);
            assert forall|c: usize| #[trigger] self.sparse_values(c) == ready.sparse_values(c) by {}
            self.lemma_carries_start(ready, entity, values@);
            assert(given.take(0) =~= Seq::<(ComponentId, V)>::empty());
        }
        let mut rest = reversed(bundle);
        let mut k: usize = 0;
        while k < n
            invariant
                k <= n,
                n == given.len(),
                rest@.len() == n - k,
                forall|j: int| 0 <= j < rest@.len() ==> rest@[j] == given[n - 1 - j],
                bundle_registered(lifted.registry(), given),
                lifted.parts_wf(),
                self.carries(lifted, entity, values@, bundle_applied(comps0, given.take(k as int))),
            decreases n - k,
        {
            let ghost had = *self;
            let ghost held = values@;
            let ghost so_far = bundle_applied(comps0, given.take(k as int));
            let (id, value) = rest.pop().unwrap();
            proof {
                assert(id == given[k as int].0 && value == given[k as int].1);
                assert(id_registered(self.registry(), given[k as int].0));
                lemma_bundle_step(comps0, given, k as int);
            }
            match id.kind {
                StorageKind::Dense => {
                    while values.len() <= id.index
                        invariant
                            held.len() <= values@.len(),
                            forall|c: int| 0 <= c < held.len() ==> values@[c] == held[c],
                            forall|c: int| held.len() <= c < values@.len() ==> values@[c] is None,
                        decreases id.index + 1 - values@.len(),
                    {
                        values.push(None);
                    }
                    values[id.index] = Some(value);
                    proof {
                        self.lemma_carries_dense(lifted, entity, held, values@, so_far, id, value);
                    }
                },
                StorageKind::Sparse => {
                    let _previous = self.sparse[id.index].insert(entity.index, value);
                    proof {
                        self.lemma_carries_sparse(had, lifted, entity, held, so_far, id, value);
                    }
                },
            }
            k += 1;
        }
        let ghost loaded = *self;
        let ghost result = bundle_applied(comps0, given);
        proof {
            assert(given.take(n as int) =~= given);
            self.lemma_carries_keeps(lifted, entity, values@, result);
            assert forall|c: usize| #[trigger]
                self.tables()[target.index as int].sig().contains(c) implies c < values@.len()
                && values@[c as int].is_some() by {
                assert(ready.tables()[target.index as int].sig().contains(c));
                assert(wanted.contains(c));
                assert(result.contains_key(dense_id(c)));
            }
        }
        self.put_row(entity, target, values);
        proof {
            let carried = values@;
            assert forall|x: Entity|
                x != entity && #[trigger] old(self)@.contains_key(x)
                    implies final(self).components_of(
                x,
            ) == old(self).components_of(x) by {
                assert(ready@[x] == old(self)@[x]);
                assert(ready.directory().contains_key(x));
                assert(lifted.directory().contains_key(x));
                assert(loaded.directory().contains_key(x));
            }
            let got = final(self).components_of(entity);
            assert forall|id: ComponentId|
                #![trigger got.dom().contains(id)]
                #![trigger result.dom().contains(id)]
                got.dom().contains(id) == result.dom().contains(id) && (result.dom().contains(id)
                    ==> got[id] == result[id]) by {
                match id.kind {
                    StorageKind::Dense => {
                        assert(id == dense_id(id.index));
                        assert(final(self).signature_of(entity) == wanted);
                        if result.contains_key(id) {
                            assert(wanted.contains(id.index));
                        }
                    },
                    StorageKind::Sparse => {
                        assert(id == sparse_id(id.index));
                        assert(final(self).sparse_values(id.index) == loaded.sparse_values(
                            id.index,
                        ));
                    },
                }
            }
            assert(got =~= result);
            assert(final(self)@ =~= old(self)@.insert(entity, result));
        }
        Ok(())
    }
}

} // verus!
