//! Queries whose parameters are fixed at compile time.

use crate::component::{ComponentId, ConfigurationError};
use crate::entity::Entity;
use crate::query::fetch::Write;
use crate::query::{
    access_conflict, lemma_state_stays_valid, query_matches, Access, QueryCursor, QueryFetch,
    QueryParam, QueryState,
};
use crate::world::World;
use vstd::prelude::*;

verus! {

/// A query with the parameter `Q`: what was prepared for `Q`, and the state
/// compiled from it.
pub struct Query<Q: QueryParam> {
    prepared: Q::Prepared,
    state: QueryState,
}

impl<Q: QueryParam> Query<Q> {
    /// What was looked up for the parameter.
    pub closed spec fn prepared(&self) -> Q::Prepared {
        self.prepared
    }

    /// The compiled state.
    pub closed spec fn state(&self) -> QueryState {
        self.state
    }

    /// The query may be used with `world`: it was prepared from the
    /// registry of that world, and what its state remembers is true of it.
    pub open spec fn valid_for<V>(&self, world: &World<V>) -> bool {
        &&& self.state().valid_for(world)
        &&& self.state().params() == Q::accesses(self.prepared())
        &&& Q::prepared_in(self.prepared(), world.registry())
    }

    /// A query stays valid for every later state of its world.
    pub proof fn lemma_stays_valid<V>(&self, older: &World<V>, newer: &World<V>)
        requires
            self.valid_for(older),
            newer.extends(older),
            newer.wf(),
        ensures
            self.valid_for(newer),
    {
        lemma_state_stays_valid(&self.state, older, newer);
        newer.lemma_registry_keys_distinct();
        Q::lemma_prepared_stays(self.prepared, older.registry(), newer.registry());
    }

    /// Prepares and compiles the query and lets it look at every archetype
    /// of `world`.  Component types that the parameter names are registered
    /// on the way.  A parameter that asks for shared and for exclusive
    /// access to one component is refused.
    pub fn new<V>(world: &mut World<V>) -> (r: Result<Self, ConfigurationError>)
        requires
            old(world).wf(),
        ensures
            final(world).wf(),
            final(world)@ == old(world)@,
            final(world).extends(old(world)),
            match r {
                Ok(query) => query.valid_for(final(world)) && query.state().fresh_for(final(world))
                    && access_conflict(Q::accesses(query.prepared())) is None,
                Err(e) => exists|p: Q::Prepared|
                    #![trigger Q::accesses(p)]
                    Q::prepared_in(p, final(world).registry()) && access_conflict(Q::accesses(p))
                        is Some && e == (ConfigurationError::AccessConflict {
                        index: access_conflict(Q::accesses(p))->0,
                    }),
            },
    {
        let prepared = world.prepare::<Q>();
        let mut accesses: Vec<Access> = Vec::new();
        Q::update_access(&prepared, &mut accesses);
        assert(accesses@ =~= Q::accesses(prepared));
        match QueryState::from_world(world, accesses) {
            Ok(state) => Ok(Query { prepared, state }),
            Err(e) => Err(e),
        }
    }

    /// Exec counterpart of [`Query::prepared`].
    pub fn prepared_ids(&self) -> (r: &Q::Prepared)
        ensures
            *r == self.prepared(),
    {
        &self.prepared
    }

    /// Exec counterpart of [`Query::state`].
    pub fn compiled(&self) -> (r: &QueryState)
        ensures
            *r == self.state(),
    {
        &self.state
    }

    /// Refreshes the state and starts a walk over the matches.
    pub fn iter<V>(&mut self, world: &World<V>) -> (cursor: QueryCursor)
        requires
            old(self).valid_for(world),
        ensures
            final(self).valid_for(world),
            final(self).state().fresh_for(world),
            final(self).prepared() == old(self).prepared(),
            cursor.archetype == 0,
            cursor.row == 0,
    {
        self.state.iter(world)
    }

    /// The next match of the walk, with what the parameter yields for it;
    /// see [`QueryState::next`].
    pub fn next<'a, V>(&self, world: &'a World<V>, cursor: &mut QueryCursor) -> (r: Option<
        (Entity, Q::Item),
    >) where Q: QueryFetch<'a, V>
        requires
            world.wf(),
            self.valid_for(world),
        ensures
            self.state().walk_step(
                world,
                *old(cursor),
                *final(cursor),
                match r {
                    Some(found) => Some(found.0),
                    None => None,
                },
            ),
            r matches Some(found) ==> Q::fetched(self.prepared(), world, found.0, found.1),
    {
        match self.state.next(world, cursor) {
            Some(entity) => {
                proof {
                    let a = cursor.archetype as int;
                    let row = cursor.row - 1;
                    assert(self.state.hit(world, a, row));
                    assert(world.directory().contains_key(entity));
                }
                let item = Q::get(&self.prepared, world, entity);
                Some((entity, item))
            },
            None => None,
        }
    }

    /// What the parameter yields for `entity`, if the entity is live and
    /// matches the query.
    pub fn get<'a, V>(&self, world: &'a World<V>, entity: Entity) -> (r: Option<Q::Item>) where
        Q: QueryFetch<'a, V>,

        requires
            world.wf(),
            self.valid_for(world),
        ensures
            r is Some == (world@.contains_key(entity) && query_matches(
                Q::accesses(self.prepared()),
                world@[entity],
            )),
            r matches Some(item) ==> Q::fetched(self.prepared(), world, entity, item),
    {
        match self.state.get(world, entity) {
            Some(_location) => Some(Q::get(&self.prepared, world, entity)),
            None => None,
        }
    }
}

impl<const KEY: u64> Query<Write<KEY>> {
    /// The value that the query has exclusive access to, for changing it in
    /// place, if `entity` is live and has the component.  Whatever is
    /// written, every entity stays where it is.
    pub fn get_mut<'a, V>(&self, world: &'a mut World<V>, entity: Entity) -> (r: Option<&'a mut V>)
        requires
            old(world).wf(),
        ensures
            match r {
                Some(value) => old(world)@.contains_key(entity) && old(world)@[entity].contains_key(
                    self.prepared(),
                ) && *value == old(world)@[entity][self.prepared()] && final(world).inserted(
                    old(world),
                    entity,
                    self.prepared(),
                    *final(value),
                ) && final(world).wf() && final(world).stays_in_place(old(world)),
                None => !(old(world)@.contains_key(entity) && old(world)@[entity].contains_key(
                    self.prepared(),
                )) && final(world)@ == old(world)@ && final(world).extends(old(world))
                    && final(world).registry() == old(world).registry() && final(world).wf()
                    && final(world).stays_in_place(old(world)),
            },
    {
        world.get_mut(entity, self.prepared)
    }
}

} // verus!
