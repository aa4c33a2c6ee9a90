//! Query parameters that access the value of a component.

use crate::component::{lookup_key, ComponentId, ComponentInfo, Components};
use crate::entity::Entity;
use crate::query::{access_holds, Access, QueryFetch, QueryParam};
use crate::world::World;
use vstd::prelude::*;

verus! {

/// Shared access to the component with type key `KEY`, which must be
/// present.
pub struct Read<const KEY: u64>;

/// Exclusive access to the component with type key `KEY`, which must be
/// present.  A walk yields the current value; a query for this parameter
/// alone hands the value out for changing it in place.
pub struct Write<const KEY: u64>;

/// Shared access to the component with type key `KEY`, where it is present.
pub struct Optional<const KEY: u64>;

impl<const KEY: u64> QueryParam for Read<KEY> {
    type Prepared = ComponentId;

    open spec fn accesses(prepared: ComponentId) -> Seq<Access> {
        seq![Access::Read(prepared)]
    }

    open spec fn prepared_in(prepared: ComponentId, registry: Seq<ComponentInfo>) -> bool {
        lookup_key(registry, KEY) == Some(prepared)
    }

    proof fn lemma_prepared_stays(
        prepared: ComponentId,
        older: Seq<ComponentInfo>,
        newer: Seq<ComponentInfo>,
    ) {
        lemma_lookup_stays(KEY, prepared, older, newer);
    }

    fn prepare(components: &mut Components) -> (prepared: ComponentId) {
        components.register(KEY)
    }

    fn update_access(prepared: &ComponentId, accesses: &mut Vec<Access>) {
        accesses.push(Access::Read(*prepared));
        assert(final(accesses)@ =~= old(accesses)@ + seq![Access::Read(*prepared)]);
    }
}

impl<const KEY: u64> QueryParam for Write<KEY> {
    type Prepared = ComponentId;

    open spec fn accesses(prepared: ComponentId) -> Seq<Access> {
        seq![Access::Write(prepared)]
    }

    open spec fn prepared_in(prepared: ComponentId, registry: Seq<ComponentInfo>) -> bool {
        lookup_key(registry, KEY) == Some(prepared)
    }

    proof fn lemma_prepared_stays(
        prepared: ComponentId,
        older: Seq<ComponentInfo>,
        newer: Seq<ComponentInfo>,
    ) {
        lemma_lookup_stays(KEY, prepared, older, newer);
    }

    fn prepare(components: &mut Components) -> (prepared: ComponentId) {
        components.register(KEY)
    }

    fn update_access(prepared: &ComponentId, accesses: &mut Vec<Access>) {
        accesses.push(Access::Write(*prepared));
        assert(final(accesses)@ =~= old(accesses)@ + seq![Access::Write(*prepared)]);
    }
}

impl<const KEY: u64> QueryParam for Optional<KEY> {
    type Prepared = ComponentId;

    open spec fn accesses(prepared: ComponentId) -> Seq<Access> {
        seq![Access::Optional(prepared)]
    }

    open spec fn prepared_in(prepared: ComponentId, registry: Seq<ComponentInfo>) -> bool {
        lookup_key(registry, KEY) == Some(prepared)
    }

    proof fn lemma_prepared_stays(
        prepared: ComponentId,
        older: Seq<ComponentInfo>,
        newer: Seq<ComponentInfo>,
    ) {
        lemma_lookup_stays(KEY, prepared, older, newer);
    }

    fn prepare(components: &mut Components) -> (prepared: ComponentId) {
        components.register(KEY)
    }

    fn update_access(prepared: &ComponentId, accesses: &mut Vec<Access>) {
        accesses.push(Access::Optional(*prepared));
        assert(final(accesses)@ =~= old(accesses)@ + seq![Access::Optional(*prepared)]);
    }
}

/// A key keeps its identifier when the registry grows.
pub proof fn lemma_lookup_stays(
    key: u64,
    id: ComponentId,
    older: Seq<ComponentInfo>,
    newer: Seq<ComponentInfo>,
)
    requires
        lookup_key(older, key) == Some(id),
        crate::component::registry_extends(newer, older),
        crate::component::keys_distinct(newer),
    ensures
        lookup_key(newer, key) == Some(id),
{
    let i = choose|i: int| 0 <= i < older.len() && #[trigger] older[i].type_key == key;
    assert(newer[i] == older[i]);
    assert(newer[i].type_key == key);
    let j = choose|j: int| 0 <= j < newer.len() && #[trigger] newer[j].type_key == key;
    assert(i == j);
}

impl<'a, V: 'a, const KEY: u64> QueryFetch<'a, V> for Read<KEY> {
    type Item = &'a V;

    open spec fn fetched(prepared: ComponentId, world: &World<V>, e: Entity, item: &'a V) -> bool {
        world@[e].contains_key(prepared) && *item == world@[e][prepared]
    }

    fn get(prepared: &ComponentId, world: &'a World<V>, entity: Entity) -> (item: &'a V) {
        assert(access_holds(Self::accesses(*prepared)[0], world@[entity]));
        world.get(entity, *prepared).unwrap()
    }
}

impl<'a, V: 'a, const KEY: u64> QueryFetch<'a, V> for Write<KEY> {
    type Item = &'a V;

    open spec fn fetched(prepared: ComponentId, world: &World<V>, e: Entity, item: &'a V) -> bool {
        world@[e].contains_key(prepared) && *item == world@[e][prepared]
    }

    fn get(prepared: &ComponentId, world: &'a World<V>, entity: Entity) -> (item: &'a V) {
        assert(access_holds(Self::accesses(*prepared)[0], world@[entity]));
        world.get(entity, *prepared).unwrap()
    }
}

impl<'a, V: 'a, const KEY: u64> QueryFetch<'a, V> for Optional<KEY> {
    type Item = Option<&'a V>;

    open spec fn fetched(
        prepared: ComponentId,
        world: &World<V>,
        e: Entity,
        item: Option<&'a V>,
    ) -> bool {
        item == if world@[e].contains_key(prepared) {
            Some(&world@[e][prepared])
        } else {
            None
        }
    }

    fn get(prepared: &ComponentId, world: &'a World<V>, entity: Entity) -> (item: Option<&'a V>) {
        world.get(entity, *prepared)
    }
}

} // verus!
