//! Query parameters that test for a component without accessing its value.

use crate::component::{lookup_key, ComponentId, ComponentInfo, Components};
use crate::entity::Entity;
use crate::query::fetch::lemma_lookup_stays;
use crate::query::{Access, QueryFetch, QueryParam};
use crate::world::World;
use vstd::prelude::*;

verus! {

/// The component with type key `KEY` must be present.
pub struct With<const KEY: u64>;

/// The component with type key `KEY` must be absent.
pub struct Without<const KEY: u64>;

impl<const KEY: u64> QueryParam for With<KEY> {
    type Prepared = ComponentId;

    open spec fn accesses(prepared: ComponentId) -> Seq<Access> {
        seq![Access::With(prepared)]
    }

    open spec fn prepared_in(prepared: ComponentId, registry: Seq<ComponentInfo>) -> bool {
        lookup_key(registry, KEY) == Some(prepared)
    }

    proof fn lemma_prepared_stays(
        prepared: ComponentId,
        older: Seq<ComponentInfo>,
        newer: Seq<ComponentInfo>,
    ) {
        lemma_lookup_stays(KEY, prepared, older, newer);
    }

    fn prepare(components: &mut Components) -> (prepared: ComponentId) {
        components.register(KEY)
    }

    fn update_access(prepared: &ComponentId, accesses: &mut Vec<Access>) {
        accesses.push(Access::With(*prepared));
        assert(final(accesses)@ =~= old(accesses)@ + seq![Access::With(*prepared)]);
    }
}

impl<const KEY: u64> QueryParam for Without<KEY> {
    type Prepared = ComponentId;

    open spec fn accesses(prepared: ComponentId) -> Seq<Access> {
        seq![Access::Without(prepared)]
    }

    open spec fn prepared_in(prepared: ComponentId, registry: Seq<ComponentInfo>) -> bool {
        lookup_key(registry, KEY) == Some(prepared)
    }

    proof fn lemma_prepared_stays(
        prepared: ComponentId,
        older: Seq<ComponentInfo>,
        newer: Seq<ComponentInfo>,
    ) {
        lemma_lookup_stays(KEY, prepared, older, newer);
    }

    fn prepare(components: &mut Components) -> (prepared: ComponentId) {
        components.register(KEY)
    }

    fn update_access(prepared: &ComponentId, accesses: &mut Vec<Access>) {
        accesses.push(Access::Without(*prepared));
        assert(final(accesses)@ =~= old(accesses)@ + seq![Access::Without(*prepared)]);
    }
}

impl<'a, V: 'a, const KEY: u64> QueryFetch<'a, V> for With<KEY> {
    type Item = ();

    open spec fn fetched(prepared: ComponentId, world: &World<V>, e: Entity, item: ()) -> bool {
        world@[e].contains_key(prepared)
    }

    fn get(prepared: &ComponentId, world: &'a World<V>, entity: Entity) -> (item: ()) {
        assert(crate::query::access_holds(Self::accesses(*prepared)[0], world@[entity]));
    }
}

impl<'a, V: 'a, const KEY: u64> QueryFetch<'a, V> for Without<KEY> {
    type Item = ();

    open spec fn fetched(prepared: ComponentId, world: &World<V>, e: Entity, item: ()) -> bool {
        !world@[e].contains_key(prepared)
    }

    fn get(prepared: &ComponentId, world: &'a World<V>, entity: Entity) -> (item: ()) {
        assert(crate::query::access_holds(Self::accesses(*prepared)[0], world@[entity]));
    }
}

} // verus!
