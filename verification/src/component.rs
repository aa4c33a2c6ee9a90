//! Component identifiers, the component registry and sets of components.

use crate::flags::{
    copy_flags, first_common_flag, flag_at, flagged, flags_disjoint, flags_subset, lower_flag,
    no_flag, raise_flag,
};
use std::collections::HashMap;
use vstd::prelude::*;

verus! {

broadcast use vstd::std_specs::hash::group_hash_axioms;

/// Where the values of a component type live.
#[derive(Clone, Copy, Debug, PartialEq, Eq, Structural, Hash)]
pub enum StorageKind {
    /// One column per archetype; presence is part of the archetype signature.
    Dense,
    /// One map per component type, keyed by entity; presence leaves the
    /// archetype of an entity untouched.
    Sparse,
}

/// Identifier of a registered component type.
///
/// An identifier is only meaningful for the registry that issued it.
#[derive(Clone, Copy, Debug, PartialEq, Eq, Structural, Hash)]
pub struct ComponentId {
    /// Position of the component type in its registry.
    pub index: usize,
    /// Storage strategy chosen when the type was first registered.
    pub kind: StorageKind,
}

impl ComponentId {
    pub fn index(&self) -> (r: usize)
        ensures
            r == self.index,
    {
        self.index
    }

    pub fn kind(&self) -> (r: StorageKind)
        ensures
            r == self.kind,
    {
        self.kind
    }

    pub fn is_sparse(&self) -> (r: bool)
        ensures
            r == (self.kind == StorageKind::Sparse),
    {
        self.kind == StorageKind::Sparse
    }

    pub fn is_dense(&self) -> (r: bool)
        ensures
            r == (self.kind == StorageKind::Dense),
    {
        self.kind == StorageKind::Dense
    }
}

/// What the registry records for one component type.
#[derive(Clone, Copy, Debug, PartialEq, Eq, Structural, Hash)]
pub struct ComponentInfo {
    /// Caller-chosen key that stands for the concrete component type.
    pub type_key: u64,
    pub kind: StorageKind,
}

/// A setup mistake that is reported instead of being silently resolved.
#[derive(Clone, Copy, Debug, PartialEq, Eq, Structural, Hash)]
pub enum ConfigurationError {
    /// The type is already registered, with the other storage kind.
    StorageConflict { existing: ComponentId },
    /// A query asks for shared and exclusive access to one component.
    AccessConflict { index: usize },
}

/// The component registry: one entry per component type, in registration order.
pub struct Components {
    infos: Vec<ComponentInfo>,
    by_key: HashMap<u64, usize>,
}

impl View for Components {
    type V = Seq<ComponentInfo>;

    closed spec fn view(&self) -> Seq<ComponentInfo> {
        self.infos@
    }
}

/// `key` is the type key of some entry of `infos`.
pub open spec fn key_registered(infos: Seq<ComponentInfo>, key: u64) -> bool {
    exists|i: int| 0 <= i < infos.len() && #[trigger] infos[i].type_key == key
}

/// The identifier under which `key` is registered in `infos`, if any.
pub open spec fn lookup_key(infos: Seq<ComponentInfo>, key: u64) -> Option<ComponentId> {
    if key_registered(infos, key) {
        let i = choose|i: int| 0 <= i < infos.len() && #[trigger] infos[i].type_key == key;
        Some(ComponentId { index: i as usize, kind: infos[i].kind })
    } else {
        None
    }
}

/// No two entries of `infos` share a type key.
pub open spec fn keys_distinct(infos: Seq<ComponentInfo>) -> bool {
    forall|i: int, j: int|
        0 <= i < infos.len() && 0 <= j < infos.len() && #[trigger] infos[i].type_key
            == #[trigger] infos[j].type_key ==> i == j
}

/// `id` was issued for an entry of `infos`.
pub open spec fn id_registered(infos: Seq<ComponentInfo>, id: ComponentId) -> bool {
    id.index < infos.len() && infos[id.index as int].kind == id.kind
}

/// Every entry of `older` is still there, at the same place, in `newer`.
pub open spec fn registry_extends(newer: Seq<ComponentInfo>, older: Seq<ComponentInfo>) -> bool {
    older.len() <= newer.len() && forall|i: int| 0 <= i < older.len() ==> newer[i] == older[i]
}

impl Components {
    /// The key index agrees with the entries, so keys are unique.
    pub closed spec fn wf(&self) -> bool {
        &&& forall|k: u64| #[trigger]
            self.by_key@.contains_key(k) ==> self.by_key@[k] < self.infos.len()
                && self.infos[self.by_key@[k] as int].type_key == k
        &&& forall|i: int|
            0 <= i < self.infos.len() ==> self.by_key@.contains_key(
                #[trigger] self.infos[i].type_key,
            ) && self.by_key@[self.infos[i].type_key] == i
    }

    /// Well-formed registries hold every key at most once.
    pub proof fn lemma_keys_distinct(&self)
        requires
            self.wf(),
        ensures
            keys_distinct(self@),
    {
    }

    /// What `lookup` finds is registered.
    pub proof fn lemma_lookup_registered(&self, key: u64)
        ensures
            self.lookup(key) matches Some(id) ==> self.contains(id)
                && self@[id.index as int].type_key
                == key,
    {
        assert(self.infos.len() == self@.len());
    }

    pub open spec fn contains(&self, id: ComponentId) -> bool {
        id_registered(self@, id)
    }

    pub open spec fn lookup(&self, key: u64) -> Option<ComponentId> {
        lookup_key(self@, key)
    }

    pub fn new() -> (r: Self)
        ensures
            r.wf(),
            r@ == Seq::<ComponentInfo>::empty(),
    {
        Components { infos: Vec::new(), by_key: HashMap::new() }
    }

    /// Number of registered component types.
    pub fn len(&self) -> (r: usize)
        ensures
            r == self@.len(),
    {
        self.infos.len()
    }

    /// Whether `id` was issued by this registry.
    pub fn has_id(&self, id: ComponentId) -> (r: bool)
        ensures
            r == self.contains(id),
    {
        id.index < self.infos.len() && self.infos[id.index].kind == id.kind
    }

    /// The entry that `id` stands for.
    pub fn info(&self, id: ComponentId) -> (r: Option<ComponentInfo>)
        ensures
            r == if self.contains(id) {
                Some(self@[id.index as int])
            } else {
                None
            },
    {
        if id.index < self.infos.len() && self.infos[id.index].kind == id.kind {
            Some(self.infos[id.index])
        } else {
            None
        }
    }

    /// The identifier at position `index` of the registry.
    pub fn id_at(&self, index: usize) -> (r: Option<ComponentId>)
        ensures
            r == if index < self@.len() {
                Some(ComponentId { index, kind: self@[index as int].kind })
            } else {
                None
            },
    {
        if index < self.infos.len() {
            Some(ComponentId { index, kind: self.infos[index].kind })
        } else {
            None
        }
    }

    /// Looks a type key up without registering it.
    pub fn get_id(&self, type_key: u64) -> (r: Option<ComponentId>)
        requires
            self.wf(),
        ensures
            r == self.lookup(type_key),
            r matches Some(id) ==> self.contains(id) && self@[id.index as int].type_key
                == type_key,
    {
        match self.by_key.get(&type_key) {
            Some(index) => {
                let index: usize = *index;
                assert(self.infos[index as int].type_key == type_key);
                Some(ComponentId { index, kind: self.infos[index].kind })
            },
            None => {
                assert(!key_registered(self@, type_key));
                None
            },
        }
    }

    /// Registers `type_key` with the given storage kind, or finds the
    /// identifier it already has.  A key that is already registered with
    /// the other kind is a configuration error and changes nothing.
    pub fn insert(&mut self, type_key: u64, kind: StorageKind) -> (r: Result<
        ComponentId,
        ConfigurationError,
    >)
        requires
            old(self).wf(),
        ensures
            final(self).wf(),
            match old(self).lookup(type_key) {
                Some(existing) => final(self)@ == old(self)@ && r == if existing.kind == kind {
                    Ok::<ComponentId, ConfigurationError>(existing)
                } else {
                    Err::<ComponentId, ConfigurationError>(
                        ConfigurationError::StorageConflict { existing },
                    )
                },
                None => final(self)@ == old(self)@.push(ComponentInfo { type_key, kind }) && r
                    == Ok::<ComponentId, ConfigurationError>(
                    ComponentId { index: old(self)@.len() as usize, kind },
                ),
            },
            registry_extends(final(self)@, old(self)@),
            r matches Ok(id) ==> final(self).lookup(type_key) == Some(id) && final(self).contains(
                id,
            ),
    {
        match self.get_id(type_key) {
            Some(existing) => {
                if existing.kind == kind {
                    Ok(existing)
                } else {
                    Err(ConfigurationError::StorageConflict { existing })
                }
            },
            None => {
                let index: usize = self.infos.len();
                self.infos.push(ComponentInfo { type_key, kind });
                self.by_key.insert(type_key, index);
                proof {
                    let infos = final(self).infos@;
                    assert(infos[index as int].type_key == type_key);
                    assert(key_registered(infos, type_key));
                    assert forall|i: int| 0 <= i < infos.len() implies self.by_key@.contains_key(
                        #[trigger] infos[i].type_key,
                    ) && self.by_key@[infos[i].type_key] == i by {
                        if i < index {
                            assert(infos[i] == old(self).infos@[i]);
                            assert(key_registered(old(self)@, infos[i].type_key));
                        }
                    }
                }
                Ok(ComponentId { index, kind })
            },
        }
    }

    /// Identifier of `type_key`, registered with dense storage on first use.
    /// Later calls return the identifier of the first call, whatever kind the
    /// key was registered with.
    pub fn register(&mut self, type_key: u64) -> (r: ComponentId)
        requires
            old(self).wf(),
        ensures
            final(self).wf(),
            match old(self).lookup(type_key) {
                Some(existing) => final(self)@ == old(self)@ && r == existing,
                None => final(self)@ == old(self)@.push(
                    ComponentInfo { type_key, kind: StorageKind::Dense },
                ) && r == (ComponentId {
                    index: old(self)@.len() as usize,
                    kind: StorageKind::Dense,
                }),
            },
            registry_extends(final(self)@, old(self)@),
            final(self).lookup(type_key) == Some(r),
            final(self).contains(r),
    {
        match self.insert(type_key, StorageKind::Dense) {
            Ok(id) => id,
            Err(ConfigurationError::StorageConflict { existing }) => existing,
            Err(ConfigurationError::AccessConflict { index }) => {
                proof {
                    assert(false);
                }
                ComponentId { index, kind: StorageKind::Dense }
            },
        }
    }

    /// Registers `type_key` with sparse storage.  Fails, and changes nothing,
    /// if the key is already registered as dense.
    pub fn insert_sparse(&mut self, type_key: u64) -> (r: Result<ComponentId, ConfigurationError>)
        requires
            old(self).wf(),
        ensures
            final(self).wf(),
            match old(self).lookup(type_key) {
                Some(existing) => final(self)@ == old(self)@ && r == if existing.kind
                    == StorageKind::Sparse {
                    Ok::<ComponentId, ConfigurationError>(existing)
                } else {
                    Err::<ComponentId, ConfigurationError>(
                        ConfigurationError::StorageConflict { existing },
                    )
                },
                None => final(self)@ == old(self)@.push(
                    ComponentInfo { type_key, kind: StorageKind::Sparse },
                ) && r == Ok::<ComponentId, ConfigurationError>(
                    ComponentId { index: old(self)@.len() as usize, kind: StorageKind::Sparse },
                ),
            },
            registry_extends(final(self)@, old(self)@),
    {
        self.insert(type_key, StorageKind::Sparse)
    }
}

/// An unordered set of component types, held by registry position.
///
/// It serves as the signature of an archetype and as the declared access
/// of a query.
#[derive(Debug)]
pub struct ComponentSet {
    flags: Vec<bool>,
}

impl View for ComponentSet {
    type V = Set<usize>;

    closed spec fn view(&self) -> Set<usize> {
        flagged(self.flags@)
    }
}

impl ComponentSet {
    /// One more than the largest position this set has ever been asked to
    /// hold; every member lies below it.
    pub closed spec fn bound(&self) -> nat {
        self.flags@.len()
    }

    pub proof fn lemma_members_below_bound(&self)
        ensures
            forall|c: usize| #[trigger] self@.contains(c) ==> c < self.bound(),
    {
    }

    pub fn new() -> (r: Self)
        ensures
            r@ == Set::<usize>::empty(),
            r.bound() == 0,
    {
        let r = ComponentSet { flags: Vec::new() };
        assert(r@ =~= Set::<usize>::empty());
        r
    }

    /// Exec counterpart of [`ComponentSet::bound`].
    pub fn capacity(&self) -> (r: usize)
        ensures
            r == self.bound(),
    {
        self.flags.len()
    }

    pub fn insert(&mut self, id: ComponentId)
        ensures
            final(self)@ == old(self)@.insert(id.index),
    {
        raise_flag(&mut self.flags, id.index);
    }

    pub fn remove(&mut self, id: ComponentId)
        ensures
            final(self)@ == old(self)@.remove(id.index),
            final(self).bound() == old(self).bound(),
    {
        lower_flag(&mut self.flags, id.index);
    }

    /// Adds the component at registry position `index`.
    pub fn insert_index(&mut self, index: usize)
        ensures
            final(self)@ == old(self)@.insert(index),
    {
        raise_flag(&mut self.flags, index);
    }

    /// Drops the component at registry position `index`.
    pub fn remove_index(&mut self, index: usize)
        ensures
            final(self)@ == old(self)@.remove(index),
            final(self).bound() == old(self).bound(),
    {
        lower_flag(&mut self.flags, index);
    }

    pub fn contains(&self, id: ComponentId) -> (r: bool)
        ensures
            r == self@.contains(id.index),
    {
        flag_at(&self.flags, id.index)
    }

    /// Membership by registry position.
    pub fn contains_index(&self, index: usize) -> (r: bool)
        ensures
            r == self@.contains(index),
            r ==> index < self.bound(),
    {
        flag_at(&self.flags, index)
    }

    pub fn is_empty(&self) -> (r: bool)
        ensures
            r == (self@ == Set::<usize>::empty()),
    {
        no_flag(&self.flags)
    }

    /// Whether every member of `other` is a member of `self`.
    pub fn is_superset(&self, other: &ComponentSet) -> (r: bool)
        ensures
            r == other@.subset_of(self@),
    {
        flags_subset(&other.flags, &self.flags)
    }

    pub fn is_disjoint(&self, other: &ComponentSet) -> (r: bool)
        ensures
            r == self@.disjoint(other@),
    {
        flags_disjoint(&self.flags, &other.flags)
    }

    /// The smallest registry position that both sets hold.
    pub fn first_common(&self, other: &ComponentSet) -> (r: Option<usize>)
        ensures
            match r {
                Some(i) => self@.contains(i) && other@.contains(i) && forall|j: usize|
                    j < i ==> !(self@.contains(j) && other@.contains(j)),
                None => self@.disjoint(other@),
            },
    {
        first_common_flag(&self.flags, &other.flags)
    }

    /// Whether both sets have the same members.
    pub fn same_as(&self, other: &ComponentSet) -> (r: bool)
        ensures
            r == (self@ == other@),
    {
        let r = flags_subset(&self.flags, &other.flags) && flags_subset(
            &other.flags,
            &self.flags,
        );
        assert(r == (self@ =~= other@));
        r
    }

    /// A set with the same members.
    pub fn copy(&self) -> (r: Self)
        ensures
            r@ == self@,
            r.bound() == self.bound(),
    {
        ComponentSet { flags: copy_flags(&self.flags) }
    }

    /// The members as identifiers of `components`, by ascending position.
    /// Positions that `components` does not know are left out.
    pub fn iter(&self, components: &Components) -> (r: Vec<ComponentId>)
        ensures
            forall|k: int|
                0 <= k < r@.len() ==> self@.contains(#[trigger] r@[k].index)
                    && components.contains(r@[k]),
            forall|id: ComponentId|
                self@.contains(id.index) && components.contains(id) ==> r@.contains(id),
            forall|j: int, k: int| 0 <= j < k < r@.len() ==> r@[j].index < r@[k].index,
    {
        let mut out: Vec<ComponentId> = Vec::new();
        let mut i: usize = 0;
        while i < self.flags.len()
            invariant
                i <= self.flags@.len(),
                forall|k: int|
                    0 <= k < out@.len() ==> self@.contains(#[trigger] out@[k].index)
                        && components.contains(out@[k]) && out@[k].index < i,
                forall|id: ComponentId|
                    id.index < i && self@.contains(id.index) && components.contains(id)
                        ==> out@.contains(id),
                forall|j: int, k: int| 0 <= j < k < out@.len() ==> out@[j].index < out@[k].index,
            decreases self.flags@.len() - i,
        {
            if self.flags[i] {
                match components.id_at(i) {
                    Some(id) => {
                        let ghost before = out@;
                        out.push(id);
                        assert(out@[before.len() as int] == id);
                        assert forall|other: ComponentId|
                            other.index < i + 1 && self@.contains(other.index)
                                && components.contains(other) implies out@.contains(other) by {
                            if other.index < i {
                                let k = choose|k: int| 0 <= k < before.len() && before[k] == other;
                                assert(out@[k] == other);
                            } else {
                                assert(other == id);
                            }
                        }
                    },
                    None => {},
                }
            }
            i += 1;
        }
        out
    }
}

} // verus!
