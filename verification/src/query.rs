//! Queries: a declared pattern of component accesses, the cached set of
//! archetypes that fit it, and the walk over the entities that match.

use crate::archetype::{archetypes_extend, Archetype, ArchetypeId, ArchetypeSet};
use crate::component::{
    keys_distinct, registry_extends, ComponentId, ComponentInfo, ComponentSet, Components,
    ConfigurationError, StorageKind,
};
use crate::entity::{Entity, Location};
use crate::world::{location_at, World};
use vstd::prelude::*;

pub mod exec;
pub mod fetch;
pub mod filter;

verus! {

/// One parameter of a query.
#[derive(Clone, Copy, Debug, PartialEq, Eq, Structural, Hash)]
pub enum Access {
    /// Shared access to a component that must be present.
    Read(ComponentId),
    /// Exclusive access to a component that must be present.
    Write(ComponentId),
    /// The component must be present; its value is not accessed.
    With(ComponentId),
    /// The component must be absent.
    Without(ComponentId),
    /// Shared access to a component that may be absent.
    Optional(ComponentId),
}

/// Whether an entity with the components `comps` satisfies `access`.
pub open spec fn access_holds<V>(access: Access, comps: Map<ComponentId, V>) -> bool {
    match access {
        Access::Read(id) => comps.contains_key(id),
        Access::Write(id) => comps.contains_key(id),
        Access::With(id) => comps.contains_key(id),
        Access::Without(id) => !comps.contains_key(id),
        Access::Optional(_) => true,
    }
}

/// Whether an entity with the components `comps` matches a query with the
/// parameters `params`.
pub open spec fn query_matches<V>(params: Seq<Access>, comps: Map<ComponentId, V>) -> bool {
    forall|k: int| 0 <= k < params.len() ==> access_holds(#[trigger] params[k], comps)
}

/// Whether the dense part of `access` is satisfied by the signature `sig`.
/// Sparse components are not part of a signature and are left to a test per
/// entity.
pub open spec fn access_fits(access: Access, sig: Set<usize>) -> bool {
    match access {
        Access::Read(id) => id.kind == StorageKind::Dense ==> sig.contains(id.index),
        Access::Write(id) => id.kind == StorageKind::Dense ==> sig.contains(id.index),
        Access::With(id) => id.kind == StorageKind::Dense ==> sig.contains(id.index),
        Access::Without(id) => id.kind == StorageKind::Dense ==> !sig.contains(id.index),
        Access::Optional(_) => true,
    }
}

/// Whether an archetype with signature `sig` fits a query with the
/// parameters `params`: the signature holds what is required of dense
/// components and nothing that is excluded.
pub open spec fn archetype_matches(params: Seq<Access>, sig: Set<usize>) -> bool {
    forall|k: int| 0 <= k < params.len() ==> access_fits(#[trigger] params[k], sig)
}

/// Whether the sparse part of `access` is satisfied by the entity in
/// directory slot `slot` of `world`.
pub open spec fn access_sparse_ok<V>(access: Access, world: &World<V>, slot: usize) -> bool {
    match access {
        Access::Read(id) => id.kind == StorageKind::Sparse ==> world.sparse_values(
            id.index,
        ).contains_key(slot),
        Access::Write(id) => id.kind == StorageKind::Sparse ==> world.sparse_values(
            id.index,
        ).contains_key(slot),
        Access::With(id) => id.kind == StorageKind::Sparse ==> world.sparse_values(
            id.index,
        ).contains_key(slot),
        Access::Without(id) => id.kind == StorageKind::Sparse ==> !world.sparse_values(
            id.index,
        ).contains_key(slot),
        Access::Optional(_) => true,
    }
}

/// Whether the sparse components in directory slot `slot` of `world` are
/// what `params` ask for.
pub open spec fn sparse_matches<V>(params: Seq<Access>, world: &World<V>, slot: usize) -> bool {
    forall|k: int| 0 <= k < params.len() ==> access_sparse_ok(#[trigger] params[k], world, slot)
}

/// The position `(a1, r1)` comes before `(a2, r2)` in the order in which
/// rows are walked: table by table, row by row.
pub open spec fn row_before(a1: int, r1: int, a2: int, r2: int) -> bool {
    a1 < a2 || (a1 == a2 && r1 < r2)
}

/// A live entity matches a query exactly if its archetype fits and its
/// sparse components are what the query asks for.
pub proof fn lemma_match_by_parts<V>(world: &World<V>, params: Seq<Access>, e: Entity)
    requires
        world.wf(),
        world@.contains_key(e),
    ensures
        query_matches(params, world@[e]) <==> archetype_matches(params, world.signature_of(e))
            && sparse_matches(params, world, e.index),
{
    let comps = world@[e];
    assert(comps == world.components_of(e));
    assert(world.directory().contains_key(e));
    let a = world.directory()[e].archetype.index as int;
    assert forall|id: ComponentId| comps.contains_key(id) == (match id.kind {
        StorageKind::Dense => world.signature_of(e).contains(id.index),
        StorageKind::Sparse => world.sparse_values(id.index).contains_key(e.index),
    }) by {
        if id.kind == StorageKind::Dense {
            if world.tables()[a].sig().contains(id.index) {
                assert(world.present(e, id));
            }
        } else {
            if world.sparse_values(id.index).contains_key(e.index) {
                assert(world.present(e, id));
            }
        }
    }
    if query_matches(params, comps) {
        assert forall|k: int| 0 <= k < params.len() implies access_fits(
            #[trigger] params[k],
            world.signature_of(e),
        ) by {
            assert(access_holds(params[k], comps));
        }
        assert forall|k: int| 0 <= k < params.len() implies access_sparse_ok(
            #[trigger] params[k],
            world,
            e.index,
        ) by {
            assert(access_holds(params[k], comps));
        }
    }
    if archetype_matches(params, world.signature_of(e)) && sparse_matches(params, world, e.index) {
        assert forall|k: int| 0 <= k < params.len() implies access_holds(
            #[trigger] params[k],
            comps,
        ) by {
            assert(access_fits(params[k], world.signature_of(e)));
            assert(access_sparse_ok(params[k], world, e.index));
        }
    }
}

/// The registry positions that `params` ask shared access to.
pub open spec fn shared_of(params: Seq<Access>) -> Set<usize> {
    Set::new(
        |c: usize|
            exists|k: int|
                0 <= k < params.len() && (match #[trigger] params[k] {
                    Access::Read(id) => id.index == c,
                    Access::Optional(id) => id.index == c,
                    _ => false,
                }),
    )
}

/// The registry positions that `params` ask exclusive access to.
pub open spec fn exclusive_of(params: Seq<Access>) -> Set<usize> {
    Set::new(
        |c: usize|
            exists|k: int|
                0 <= k < params.len() && (match #[trigger] params[k] {
                    Access::Write(id) => id.index == c,
                    _ => false,
                }),
    )
}

/// Whether every component that `params` access is stored sparsely.
pub open spec fn all_sparse(params: Seq<Access>) -> bool {
    forall|k: int|
        0 <= k < params.len() ==> (match #[trigger] params[k] {
            Access::Read(id) => id.kind == StorageKind::Sparse,
            Access::Write(id) => id.kind == StorageKind::Sparse,
            Access::Optional(id) => id.kind == StorageKind::Sparse,
            _ => true,
        })
}

/// The smallest registry position that `params` ask both shared and
/// exclusive access to, if there is one.
pub open spec fn access_conflict(params: Seq<Access>) -> Option<usize> {
    if shared_of(params).disjoint(exclusive_of(params)) {
        None
    } else {
        Some(
            choose|c: usize|
                shared_of(params).contains(c) && exclusive_of(params).contains(c)
                    && forall|d: usize|
                    d < c ==> !(shared_of(params).contains(d) && exclusive_of(params).contains(d)),
        )
    }
}

/// The compiled form of a query, kept from one use to the next.
///
/// It remembers which archetypes fit the query, for the archetypes below a
/// watermark.  The archetype list only grows and signatures never change,
/// so what is remembered stays true, and a refresh looks only at the
/// archetypes above the watermark.
pub struct QueryState {
    accesses: Vec<Access>,
    shared_access: ComponentSet,
    exclusive_access: ComponentSet,
    sparse_only: bool,
    last_archetype_index: usize,
    matching_archetypes: ArchetypeSet,
}

impl QueryState {
    /// The parameters of the query.
    pub closed spec fn params(&self) -> Seq<Access> {
        self.accesses@
    }

    /// Number of archetypes that were looked at so far.
    pub closed spec fn watermark(&self) -> nat {
        self.last_archetype_index as nat
    }

    /// The archetypes remembered as fitting the query.
    pub closed spec fn matching(&self) -> Set<usize> {
        self.matching_archetypes@
    }

    /// The declared access sets are those of the parameters.
    pub closed spec fn wf(&self) -> bool {
        &&& self.shared_access@ == shared_of(self.accesses@)
        &&& self.exclusive_access@ == exclusive_of(self.accesses@)
        &&& self.sparse_only == all_sparse(self.accesses@)
    }

    /// What is remembered is true of `tables`: an archetype is remembered
    /// exactly if it lies below the watermark and fits the query.
    pub open spec fn cache_sound<V>(&self, tables: Seq<Archetype<V>>) -> bool {
        &&& self.watermark() <= tables.len()
        &&& forall|a: usize| #[trigger]
            self.matching().contains(a) <==> a < self.watermark() && archetype_matches(
                self.params(),
                tables[a as int].sig(),
            )
    }

    /// The state may be used with `world`.
    pub open spec fn valid_for<V>(&self, world: &World<V>) -> bool {
        self.wf() && self.cache_sound(world.tables())
    }

    /// The state has seen every archetype of `world`.
    pub open spec fn fresh_for<V>(&self, world: &World<V>) -> bool {
        self.valid_for(world) && self.watermark() == world.tables().len()
    }

    /// Compiles the parameters of a query.  Asking for shared and for
    /// exclusive access to one component is refused here, before any use.
    pub fn new(accesses: Vec<Access>) -> (r: Result<QueryState, ConfigurationError>)
        ensures
            match r {
                Ok(q) => access_conflict(accesses@) is None && q.wf() && q.params() == accesses@
                    && q.watermark() == 0 && q.matching() == Set::<usize>::empty(),
                Err(e) => access_conflict(accesses@) matches Some(index) && e
                    == (ConfigurationError::AccessConflict { index }),
            },
    {
        let mut shared_access = ComponentSet::new();
        let mut exclusive_access = ComponentSet::new();
        let mut sparse_only: bool = true;
        let mut k: usize = 0;
        while k < accesses.len()
            invariant
                k <= accesses@.len(),
                shared_access@ == shared_of(accesses@.take(k as int)),
                exclusive_access@ == exclusive_of(accesses@.take(k as int)),
                sparse_only == all_sparse(accesses@.take(k as int)),
            decreases accesses@.len() - k,
        {
            let ghost before = accesses@.take(k as int);
            let ghost after = accesses@.take(k as int + 1);
            proof {
                assert(after == before.push(accesses@[k as int]));
                lemma_access_pushed(before, accesses@[k as int]);
            }
            match accesses[k] {
                Access::Read(id) => {
                    shared_access.insert(id);
                    sparse_only = sparse_only && id.is_sparse();
                },
                Access::Optional(id) => {
                    shared_access.insert(id);
                    sparse_only = sparse_only && id.is_sparse();
                },
                Access::Write(id) => {
                    exclusive_access.insert(id);
                    sparse_only = sparse_only && id.is_sparse();
                },
                Access::With(_) => {},
                Access::Without(_) => {},
            }
            k += 1;
        }
        proof {
            assert(accesses@.take(accesses@.len() as int) == accesses@);
        }
        match shared_access.first_common(&exclusive_access) {
            Some(index) => {
                proof {
                    let found = access_conflict(accesses@)->0;
                    assert(!shared_of(accesses@).disjoint(exclusive_of(accesses@)));
                    if found < index {
                        assert(false);
                    }
                    if index < found {
                        assert(false);
                    }
                }
                Err(ConfigurationError::AccessConflict { index })
            },
            None => {
                Ok(
                    QueryState {
                        accesses,
                        shared_access,
                        exclusive_access,
                        sparse_only,
                        last_archetype_index: 0,
                        matching_archetypes: ArchetypeSet::new(),
                    },
                )
            },
        }
    }

    /// The components that the query reads.
    pub fn shared_access(&self) -> (r: &ComponentSet)
        requires
            self.wf(),
        ensures
            r@ == shared_of(self.params()),
    {
        &self.shared_access
    }

    /// The components that the query writes.
    pub fn exclusive_access(&self) -> (r: &ComponentSet)
        requires
            self.wf(),
        ensures
            r@ == exclusive_of(self.params()),
    {
        &self.exclusive_access
    }

    /// Whether this query and `other` may run at the same time: neither
    /// writes a component that the other reads or writes.
    pub fn compatible_with(&self, other: &QueryState) -> (r: bool)
        requires
            self.wf(),
            other.wf(),
        ensures
            r == (exclusive_of(self.params()).disjoint(
                shared_of(other.params()).union(exclusive_of(other.params())),
            ) && exclusive_of(other.params()).disjoint(shared_of(self.params()))),
    {
        let r = self.exclusive_access.is_disjoint(&other.shared_access)
            && self.exclusive_access.is_disjoint(&other.exclusive_access)
            && other.exclusive_access.is_disjoint(&self.shared_access);
        proof {
            let mine = exclusive_of(self.params());
            let theirs = shared_of(other.params()).union(exclusive_of(other.params()));
            assert(mine.disjoint(theirs) == (mine.disjoint(shared_of(other.params()))
                && mine.disjoint(exclusive_of(other.params())))) by {
                if mine.disjoint(shared_of(other.params())) && mine.disjoint(
                    exclusive_of(other.params()),
                ) {
                    assert forall|c: usize| mine.contains(c) implies !theirs.contains(c) by {}
                }
                if mine.disjoint(theirs) {
                    assert forall|c: usize| mine.contains(c) implies !shared_of(
                        other.params(),
                    ).contains(c) && !exclusive_of(other.params()).contains(c) by {
                        assert(!theirs.contains(c));
                    }
                }
            }
        }
        r
    }

    /// Whether every accessed component is stored sparsely.
    pub fn sparse_only(&self) -> (r: bool)
        requires
            self.wf(),
        ensures
            r == all_sparse(self.params()),
    {
        self.sparse_only
    }

    /// The archetypes remembered as fitting the query.
    pub fn matching_archetypes(&self) -> (r: &ArchetypeSet)
        ensures
            r@ == self.matching(),
    {
        &self.matching_archetypes
    }

    /// Whether `archetype` fits the query.
    pub fn matches_archetype<V>(&self, archetype: &Archetype<V>) -> (r: bool)
        ensures
            r == archetype_matches(self.params(), archetype.sig()),
    {
        let mut k: usize = 0;
        while k < self.accesses.len()
            invariant
                k <= self.accesses@.len(),
                forall|j: int| 0 <= j < k
                    ==> access_fits(#[trigger] self.accesses@[j], archetype.sig()),
            decreases self.accesses@.len() - k,
        {
            let ok: bool = match self.accesses[k] {
                Access::Read(id) => id.is_sparse() || archetype.has_component(id.index),
                Access::Write(id) => id.is_sparse() || archetype.has_component(id.index),
                Access::With(id) => id.is_sparse() || archetype.has_component(id.index),
                Access::Without(id) => id.is_sparse() || !archetype.has_component(id.index),
                Access::Optional(_) => true,
            };
            if !ok {
                assert(!access_fits(self.accesses@[k as int], archetype.sig()));
                return false;
            }
            k += 1;
        }
        true
    }

    /// Looks at the archetypes above the watermark and remembers those
    /// that fit.  What was remembered before stays.
    pub fn update_archetypes<V>(&mut self, world: &World<V>)
        requires
            old(self).valid_for(world),
        ensures
            final(self).fresh_for(world),
            final(self).params() == old(self).params(),
            old(self).matching().subset_of(final(self).matching()),
    {
        let archetypes = world.archetypes();
        let count: usize = archetypes.len();
        let mut index: usize = self.last_archetype_index;
        while index < count
            invariant
                index <= count,
                count == world.tables().len(),
                archetypes@ == world.tables(),
                old(self).watermark() <= index,
                self.accesses == old(self).accesses,
                self.shared_access == old(self).shared_access,
                self.exclusive_access == old(self).exclusive_access,
                self.sparse_only == old(self).sparse_only,
                old(self).matching().subset_of(self.matching()),
                forall|a: usize| #[trigger]
                    self.matching().contains(a) <==> a < index && archetype_matches(
                        self.params(),
                        world.tables()[a as int].sig(),
                    ),
            decreases count - index,
        {
            let id = ArchetypeId::new(index);
            let fits: bool = match archetypes.get(id) {
                Some(archetype) => self.matches_archetype(archetype),
                None => false,
            };
            if fits {
                self.matching_archetypes.insert(id);
            }
            index += 1;
        }
        self.last_archetype_index = count;
    }

    /// Compiles a query and lets it look at every archetype of `world`.
    pub fn from_world<V>(world: &World<V>, accesses: Vec<Access>) -> (r: Result<
        QueryState,
        ConfigurationError,
    >)
        ensures
            match r {
                Ok(q) => access_conflict(accesses@) is None && q.fresh_for(world) && q.params()
                    == accesses@,
                Err(e) => access_conflict(accesses@) matches Some(index) && e
                    == (ConfigurationError::AccessConflict { index }),
            },
    {
        match QueryState::new(accesses) {
            Ok(query) => {
                let mut query = query;
                query.update_archetypes(world);
                Ok(query)
            },
            Err(e) => Err(e),
        }
    }
}

/// How the access sets and the sparse-only flag grow with one parameter.
proof fn lemma_access_pushed(params: Seq<Access>, access: Access)
    ensures
        shared_of(params.push(access)) == match access {
            Access::Read(id) => shared_of(params).insert(id.index),
            Access::Optional(id) => shared_of(params).insert(id.index),
            _ => shared_of(params),
        },
        exclusive_of(params.push(access)) == match access {
            Access::Write(id) => exclusive_of(params).insert(id.index),
            _ => exclusive_of(params),
        },
        all_sparse(params.push(access)) == (all_sparse(params) && match access {
            Access::Read(id) => id.kind == StorageKind::Sparse,
            Access::Write(id) => id.kind == StorageKind::Sparse,
            Access::Optional(id) => id.kind == StorageKind::Sparse,
            _ => true,
        }),
{
    let longer = params.push(access);
    let n = params.len() as int;
    assert(longer[n] == access);
    assert forall|k: int| 0 <= k < n implies longer[k] == params[k] by {}
    let shared_want = match access {
        Access::Read(id) => shared_of(params).insert(id.index),
        Access::Optional(id) => shared_of(params).insert(id.index),
        _ => shared_of(params),
    };
    assert forall|c: usize| shared_of(longer).contains(c) == shared_want.contains(c) by {
        if shared_of(longer).contains(c) {
            let k = choose|k: int|
                0 <= k < longer.len() && (match #[trigger] longer[k] {
                    Access::Read(id) => id.index == c,
                    Access::Optional(id) => id.index == c,
                    _ => false,
                });
            if k < n {
                assert(params[k] == longer[k]);
            }
        }
        if shared_want.contains(c) {
            if shared_of(params).contains(c) {
                let k = choose|k: int|
                    0 <= k < params.len() && (match #[trigger] params[k] {
                        Access::Read(id) => id.index == c,
                        Access::Optional(id) => id.index == c,
                        _ => false,
                    });
                assert(longer[k] == params[k]);
            } else {
                assert(longer[n] == access);
            }
        }
    }
    assert(shared_of(longer) =~= shared_want);
    let exclusive_want = match access {
        Access::Write(id) => exclusive_of(params).insert(id.index),
        _ => exclusive_of(params),
    };
    assert forall|c: usize| exclusive_of(longer).contains(c) == exclusive_want.contains(c) by {
        if exclusive_of(longer).contains(c) {
            let k = choose|k: int|
                0 <= k < longer.len() && (match #[trigger] longer[k] {
                    Access::Write(id) => id.index == c,
                    _ => false,
                });
            if k < n {
                assert(params[k] == longer[k]);
            }
        }
        if exclusive_want.contains(c) {
            if exclusive_of(params).contains(c) {
                let k = choose|k: int|
                    0 <= k < params.len() && (match #[trigger] params[k] {
                        Access::Write(id) => id.index == c,
                        _ => false,
                    });
                assert(longer[k] == params[k]);
            } else {
                assert(longer[n] == access);
            }
        }
    }
    assert(exclusive_of(longer) =~= exclusive_want);
    if all_sparse(longer) {
        assert forall|k: int| 0 <= k < params.len() implies (match #[trigger] params[k] {
            Access::Read(id) => id.kind == StorageKind::Sparse,
            Access::Write(id) => id.kind == StorageKind::Sparse,
            Access::Optional(id) => id.kind == StorageKind::Sparse,
            _ => true,
        }) by {
            assert(longer[k] == params[k]);
        }
        assert(longer[n] == access);
    }
}

/// Where a walk over the matches of a query stands: the next row to look
/// at.  A walk is over when `archetype` has reached the number of tables.
#[derive(Clone, Copy, Debug, PartialEq, Eq, Structural, Hash)]
pub struct QueryCursor {
    pub archetype: usize,
    pub row: usize,
}

impl QueryState {
    /// Row `r` of table `a` exists in `world` and its entity matches the
    /// query.
    pub open spec fn hit<V>(&self, world: &World<V>, a: int, r: int) -> bool {
        &&& 0 <= a < world.tables().len()
        &&& 0 <= r < world.tables()[a].rows().len()
        &&& query_matches(self.params(), world@[world.tables()[a].rows()[r]])
    }

    /// One step of a walk from the cursor `from`: `found` is the entity of
    /// the first row at or after `from` whose entity matches, `to` stands
    /// just past that row; without such a row `found` is `None` and `to`
    /// stands at the end.
    pub open spec fn walk_step<V>(
        &self,
        world: &World<V>,
        from: QueryCursor,
        to: QueryCursor,
        found: Option<Entity>,
    ) -> bool {
        &&& from.archetype <= world.tables().len() ==> to.archetype <= world.tables().len()
        &&& !row_before(to.archetype as int, to.row as int, from.archetype as int, from.row as int)
        &&& forall|a: int, row: int|
            !row_before(a, row, from.archetype as int, from.row as int) && row_before(
                a,
                row,
                to.archetype as int,
                to.row - 1,
            ) ==> !#[trigger] self.hit(world, a, row)
        &&& match found {
            Some(e) => {
                &&& to.row >= 1
                &&& self.hit(world, to.archetype as int, to.row - 1)
                &&& e == world.tables()[to.archetype as int].rows()[to.row - 1]
                &&& !row_before(
                    to.archetype as int,
                    to.row - 1,
                    from.archetype as int,
                    from.row as int,
                )
            },
            None => {
                &&& to.archetype >= world.tables().len()
                &&& forall|a: int, row: int|
                    !row_before(a, row, from.archetype as int, from.row as int)
                        ==> !#[trigger] self.hit(world, a, row)
            },
        }
    }

    /// Whether the sparse components in directory slot `slot` are what the
    /// query asks for.
    pub fn sparse_fits<V>(&self, world: &World<V>, slot: usize) -> (r: bool)
        ensures
            r == sparse_matches(self.params(), world, slot),
    {
        let mut k: usize = 0;
        while k < self.accesses.len()
            invariant
                k <= self.accesses@.len(),
                forall|j: int|
                    0 <= j < k ==> access_sparse_ok(#[trigger] self.accesses@[j], world, slot),
            decreases self.accesses@.len() - k,
        {
            let ok: bool = match self.accesses[k] {
                Access::Read(id) => !id.is_sparse() || world.sparse_contains(id.index, slot),
                Access::Write(id) => !id.is_sparse() || world.sparse_contains(id.index, slot),
                Access::With(id) => !id.is_sparse() || world.sparse_contains(id.index, slot),
                Access::Without(id) => !id.is_sparse() || !world.sparse_contains(id.index, slot),
                Access::Optional(_) => true,
            };
            if !ok {
                assert(!access_sparse_ok(self.accesses@[k as int], world, slot));
                return false;
            }
            k += 1;
        }
        true
    }

    /// Whether the archetype `id` of `world` fits the query: by what is
    /// remembered below the watermark, by a fresh test above it.
    pub fn archetype_fits<V>(&self, world: &World<V>, id: ArchetypeId) -> (r: bool)
        requires
            self.valid_for(world),
        ensures
            r == (id.index < world.tables().len() && archetype_matches(
                self.params(),
                world.tables()[id.index as int].sig(),
            )),
    {
        if id.index < self.last_archetype_index {
            proof {
                assert(self.matching().contains(id.index) == archetype_matches(
                    self.params(),
                    world.tables()[id.index as int].sig(),
                ));
            }
            self.matching_archetypes.contains(id)
        } else {
            match world.archetypes().get(id) {
                Some(archetype) => self.matches_archetype(archetype),
                None => false,
            }
        }
    }

    /// Where `entity` is stored, if it is live and matches the query.
    pub fn get<V>(&self, world: &World<V>, entity: Entity) -> (r: Option<Location>)
        requires
            world.wf(),
            self.valid_for(world),
        ensures
            r == if world@.contains_key(entity) && query_matches(self.params(), world@[entity]) {
                Some(world.directory()[entity])
            } else {
                None
            },
    {
        match world.resolve(entity) {
            None => None,
            Some(location) => {
                proof {
                    lemma_match_by_parts(world, self.params(), entity);
                    assert(world.directory().contains_key(entity));
                }
                if self.archetype_fits(world, location.archetype) && self.sparse_fits(
                    world,
                    entity.index,
                ) {
                    Some(location)
                } else {
                    None
                }
            },
        }
    }

    /// Refreshes the state and starts a walk over the matches at the first
    /// row of the first table.
    pub fn iter<V>(&mut self, world: &World<V>) -> (cursor: QueryCursor)
        requires
            old(self).valid_for(world),
        ensures
            final(self).fresh_for(world),
            final(self).params() == old(self).params(),
            cursor.archetype == 0,
            cursor.row == 0,
    {
        self.update_archetypes(world);
        QueryCursor { archetype: 0, row: 0 }
    }

    /// The next match of the walk: the entity of the first row, at or after
    /// the cursor, whose entity matches the query.  The cursor moves just
    /// past that row.  `None` means that no row at or after the cursor
    /// holds a match.
    pub fn next<V>(&self, world: &World<V>, cursor: &mut QueryCursor) -> (r: Option<Entity>)
        requires
            world.wf(),
            self.valid_for(world),
        ensures
            self.walk_step(world, *old(cursor), *final(cursor), r),
    {
        let archetypes = world.archetypes();
        let count: usize = archetypes.len();
        let ghost start_a = cursor.archetype as int;
        let ghost start_r = cursor.row as int;
        while cursor.archetype < count
            invariant
                world.wf(),
                self.valid_for(world),
                archetypes@ == world.tables(),
                count == world.tables().len(),
                start_a == old(cursor).archetype,
                start_r == old(cursor).row,
                start_a <= count ==> cursor.archetype <= count,
                !row_before(cursor.archetype as int, cursor.row as int, start_a, start_r),
                forall|a: int, row: int|
                    !row_before(a, row, start_a, start_r) && row_before(
                        a,
                        row,
                        cursor.archetype as int,
                        cursor.row as int,
                    ) ==> !#[trigger] self.hit(world, a, row),
            decreases count - cursor.archetype,
        {
            let id = ArchetypeId::new(cursor.archetype);
            let ghost a0 = cursor.archetype as int;
            let fits: bool = self.archetype_fits(world, id);
            if fits {
                let len: usize = match archetypes.get(id) {
                    Some(archetype) => archetype.len(),
                    None => 0,
                };
                while cursor.row < len
                    invariant
                        world.wf(),
                        self.valid_for(world),
                        archetypes@ == world.tables(),
                        count == world.tables().len(),
                        cursor.archetype == a0,
                        a0 < count,
                        id.index == a0,
                        len == world.tables()[a0].rows().len(),
                        archetype_matches(self.params(), world.tables()[a0].sig()),
                        start_a == old(cursor).archetype,
                        start_r == old(cursor).row,
                        !row_before(cursor.archetype as int, cursor.row as int, start_a, start_r),
                        forall|a: int, row: int|
                            !row_before(a, row, start_a, start_r) && row_before(
                                a,
                                row,
                                cursor.archetype as int,
                                cursor.row as int,
                            ) ==> !#[trigger] self.hit(world, a, row),
                    decreases len - cursor.row,
                {
                    let e: Entity = match archetypes.get(id) {
                        Some(archetype) => archetype.entities()[cursor.row],
                        None => Entity { index: 0, generation: 0 },
                    };
                    let ghost r0 = cursor.row as int;
                    proof {
                        assert(e == world.tables()[a0].rows()[r0]);
                        assert(world.directory().contains_key(e) && world.directory()[e]
                            == location_at(a0, r0));
                        lemma_match_by_parts(world, self.params(), e);
                    }
                    cursor.row = cursor.row + 1;
                    if self.sparse_fits(world, e.index) {
                        return Some(e);
                    }
                    proof {
                        assert(!self.hit(world, a0, r0));
                        assert forall|a: int, row: int|
                            !row_before(a, row, start_a, start_r) && row_before(
                                a,
                                row,
                                cursor.archetype as int,
                                cursor.row as int,
                            ) implies !#[trigger] self.hit(world, a, row) by {
                            if !(a == a0 && row == r0) {
                                assert(row_before(a, row, a0, r0));
                            }
                        }
                    }
                }
            }
            proof {
                assert forall|a: int, row: int|
                    !row_before(a, row, start_a, start_r) && row_before(a, row, a0 + 1, 0)
                    implies !#[trigger] self.hit(world, a, row) by {
                    if row < 0 {
                    } else if a != a0 {
                        assert(row_before(a, row, a0, cursor.row as int));
                    } else if row_before(a, row, a0, cursor.row as int) {
                    } else if !fits && row < world.tables()[a0].rows().len() {
                        let e = world.tables()[a0].rows()[row];
                        assert(world.directory().contains_key(e) && world.directory()[e]
                            == location_at(a0, row));
                        lemma_match_by_parts(world, self.params(), e);
                    }
                }
            }
            cursor.archetype = cursor.archetype + 1;
            cursor.row = 0;
        }
        None
    }
}

/// Where the walk stands in front of the row of the live entity `e`.
pub open spec fn stored_before<V>(world: &World<V>, e: Entity, a: int, row: int) -> bool {
    row_before(
        world.directory()[e].archetype.index as int,
        world.directory()[e].row as int,
        a,
        row,
    )
}

impl QueryState {
    /// Every entity of `world` that matches the query, once each, in the
    /// order in which the tables store them.  The state is refreshed first,
    /// so archetypes that were made since the last use are looked at too.
    pub fn collect<V>(&mut self, world: &World<V>) -> (r: Vec<Entity>)
        requires
            world.wf(),
            old(self).valid_for(world),
        ensures
            final(self).fresh_for(world),
            final(self).params() == old(self).params(),
            forall|e: Entity|
                #![trigger r@.contains(e)]
                #![trigger world@.contains_key(e)]
                r@.contains(e) <==> world@.contains_key(e) && query_matches(
                    old(self).params(),
                    world@[e],
                ),
            r@.no_duplicates(),
            forall|j: int, k: int|
                0 <= j < k < r@.len() ==> stored_before(
                    world,
                    #[trigger] r@[j],
                    world.directory()[#[trigger] r@[k]].archetype.index as int,
                    world.directory()[r@[k]].row as int,
                ),
    {
        let mut cursor = self.iter(world);
        let mut out: Vec<Entity> = Vec::new();
        let mut done: bool = false;
        let ghost count = world.tables().len() as int;
        let ghost tables = world.tables();
        while !done
            invariant
                world.wf(),
                self.fresh_for(world),
                self.params() == old(self).params(),
                count == world.tables().len(),
                tables == world.tables(),
                cursor.archetype <= count,
                cursor.archetype < count
                    ==> cursor.row <= tables[cursor.archetype as int].rows().len(),
                forall|k: int|
                    0 <= k < out@.len() ==> world@.contains_key(#[trigger] out@[k])
                        && query_matches(
                        self.params(),
                        world@[out@[k]],
                    ) && stored_before(world, out@[k], cursor.archetype as int, cursor.row as int),
                forall|j: int, k: int|
                    0 <= j < k < out@.len() ==> stored_before(
                        world,
                        #[trigger] out@[j],
                        world.directory()[#[trigger] out@[k]].archetype.index as int,
                        world.directory()[out@[k]].row as int,
                    ),
                forall|a: int, row: int|
                    row_before(a, row, cursor.archetype as int, cursor.row as int)
                        && #[trigger] self.hit(world, a, row)
                            ==> out@.contains(tables[a].rows()[row]),
                done ==> forall|a: int, row: int|
                    !row_before(a, row, cursor.archetype as int, cursor.row as int)
                        ==> !#[trigger] self.hit(world, a, row),
            decreases
                    (if done {
                        0int
                    } else {
                        1int
                    }),
                    count - cursor.archetype,
                    (if cursor.archetype < count {
                        tables[cursor.archetype as int].rows().len() - cursor.row
                    } else {
                        0int
                    }),
        {
            let ghost from = cursor;
            let ghost had = out@;
            match self.next(world, &mut cursor) {
                Some(e) => {
                    out.push(e);
                    proof {
                        let a = cursor.archetype as int;
                        let row = cursor.row - 1;
                        assert(e == tables[a].rows()[row]);
                        assert(world.directory().contains_key(e) && world.directory()[e]
                            == location_at(a, row));
                        assert(out@[had.len() as int] == e);
                        assert forall|k: int| 0 <= k < out@.len() implies world@.contains_key(
                            #[trigger] out@[k],
                        ) && query_matches(self.params(), world@[out@[k]]) && stored_before(
                            world,
                            out@[k],
                            cursor.archetype as int,
                            cursor.row as int,
                        ) by {
                            if k < had.len() {
                                assert(out@[k] == had[k]);
                            }
                        }
                        assert forall|j: int, k: int| 0 <= j < k < out@.len() implies stored_before(
                            world,
                            #[trigger] out@[j],
                            world.directory()[#[trigger] out@[k]].archetype.index as int,
                            world.directory()[out@[k]].row as int,
                        ) by {
                            assert(out@[j] == had[j]);
                            if k < had.len() {
                                assert(out@[k] == had[k]);
                            }
                        }
                        assert forall|b: int, r2: int|
                            row_before(b, r2, cursor.archetype as int, cursor.row as int)
                                && #[trigger] self.hit(world, b, r2) implies out@.contains(
                            tables[b].rows()[r2],
                        ) by {
                            if row_before(b, r2, from.archetype as int, from.row as int) {
                                let x = tables[b].rows()[r2];
                                assert(had.contains(x));
                                let i = choose|i: int| 0 <= i < had.len() && had[i] == x;
                                assert(out@[i] == x);
                            } else if b == a && r2 == row {
                            } else {
                                assert(row_before(b, r2, a, row));
                            }
                        }
                    }
                },
                None => {
                    done = true;
                },
            }
        }
        proof {
            assert forall|e: Entity|
                #[trigger] world@.contains_key(e) && query_matches(
                    old(self).params(),
                    world@[e],
                ) implies out@.contains(e) by {
                let loc = world.directory()[e];
                assert(world.directory().contains_key(e));
                assert(self.hit(world, loc.archetype.index as int, loc.row as int));
            }
            assert forall|e: Entity| #[trigger] out@.contains(e) implies world@.contains_key(e)
                && query_matches(old(self).params(), world@[e]) by {
                let i = choose|i: int| 0 <= i < out@.len() && out@[i] == e;
                assert(world@.contains_key(out@[i]));
            }
            assert forall|j: int, k: int| 0 <= j < k < out@.len() implies out@[j] != out@[k] by {
                assert(stored_before(
                    world,
                    out@[j],
                    world.directory()[out@[k]].archetype.index as int,
                    world.directory()[out@[k]].row as int,
                ));
            }
        }
        out
    }
}

/// A state that is valid for a world stays valid for every later state of
/// that world: what it remembers speaks of archetypes that are still there,
/// with the signatures they had.
pub proof fn lemma_state_stays_valid<V>(query: &QueryState, older: &World<V>, newer: &World<V>)
    requires
        query.valid_for(older),
        newer.extends(older),
    ensures
        query.valid_for(newer),
{
    assert forall|a: usize| #[trigger]
        query.matching().contains(a) <==> a < query.watermark() && archetype_matches(
            query.params(),
            newer.tables()[a as int].sig(),
        ) by {
        if a < query.watermark() {
            assert(newer.tables()[a as int].sig() == older.tables()[a as int].sig());
        }
    }
}

/// A query parameter that is fixed at compile time: a marker type, or a
/// tuple of them, that names its component types by type key.
pub trait QueryParam {
    /// What is looked up once and kept between the uses of a query: the
    /// identifiers of the component types.
    type Prepared;

    /// The run-time form of the parameter.
    spec fn accesses(prepared: Self::Prepared) -> Seq<Access>;

    /// `prepared` is what `prepare` finds in a registry with the entries
    /// `registry`.
    spec fn prepared_in(prepared: Self::Prepared, registry: Seq<ComponentInfo>) -> bool;

    /// What was prepared stays prepared when the registry grows.
    proof fn lemma_prepared_stays(
        prepared: Self::Prepared,
        older: Seq<ComponentInfo>,
        newer: Seq<ComponentInfo>,
    )
        requires
            Self::prepared_in(prepared, older),
            registry_extends(newer, older),
            keys_distinct(newer),
        ensures
            Self::prepared_in(prepared, newer),
    ;

    /// Looks the component types of the parameter up; a type that is not
    /// registered yet is registered with dense storage.
    fn prepare(components: &mut Components) -> (prepared: Self::Prepared)
        requires
            old(components).wf(),
        ensures
            final(components).wf(),
            registry_extends(final(components)@, old(components)@),
            Self::prepared_in(prepared, final(components)@),
    ;

    /// Declares the accesses of the parameter by appending them to
    /// `accesses`.
    fn update_access(prepared: &Self::Prepared, accesses: &mut Vec<Access>)
        ensures
            final(accesses)@ == old(accesses)@ + Self::accesses(*prepared),
    ;
}

/// A query parameter that yields a value for every entity that matches.
pub trait QueryFetch<'a, V: 'a>: QueryParam {
    /// Type of value to be fetched.
    type Item;

    /// `item` is what the parameter yields for the live entity `e`.
    spec fn fetched(prepared: Self::Prepared, world: &World<V>, e: Entity, item: Self::Item)
        -> bool;

    /// Fetches the item of an entity that matches the parameter.
    fn get(prepared: &Self::Prepared, world: &'a World<V>, entity: Entity) -> (item: Self::Item)
        requires
            world.wf(),
            world@.contains_key(entity),
            query_matches(Self::accesses(*prepared), world@[entity]),
        ensures
            Self::fetched(*prepared, world, entity, item),
    ;
}

/// What holds of two lists of parameters holds of the two put together.
pub proof fn lemma_query_matches_concat<V>(
    left: Seq<Access>,
    right: Seq<Access>,
    comps: Map<ComponentId, V>,
)
    ensures
        query_matches(left + right, comps) <==> query_matches(left, comps) && query_matches(
            right,
            comps,
        ),
{
    let all = left + right;
    if query_matches(all, comps) {
        assert forall|k: int| 0 <= k < left.len()
            implies access_holds(#[trigger] left[k], comps) by {
            assert(all[k] == left[k]);
        }
        assert forall|k: int| 0 <= k < right.len() implies access_holds(
            #[trigger] right[k],
            comps,
        ) by {
            assert(all[k + left.len()] == right[k]);
        }
    }
    if query_matches(left, comps) && query_matches(right, comps) {
        assert forall|k: int| 0 <= k < all.len() implies access_holds(#[trigger] all[k], comps) by {
            if k < left.len() {
                assert(all[k] == left[k]);
            } else {
                assert(all[k] == right[k - left.len()]);
            }
        }
    }
}

impl<A: QueryParam> QueryParam for (A,) {
    type Prepared = (A::Prepared,);

    open spec fn accesses(prepared: (A::Prepared,)) -> Seq<Access> {
        A::accesses(prepared.0)
    }

    open spec fn prepared_in(prepared: (A::Prepared,), registry: Seq<ComponentInfo>) -> bool {
        A::prepared_in(prepared.0, registry)
    }

    proof fn lemma_prepared_stays(
        prepared: (A::Prepared,),
        older: Seq<ComponentInfo>,
        newer: Seq<ComponentInfo>,
    ) {
        A::lemma_prepared_stays(prepared.0, older, newer);
    }

    fn prepare(components: &mut Components) -> (prepared: (A::Prepared,)) {
        (A::prepare(components),)
    }

    fn update_access(prepared: &(A::Prepared,), accesses: &mut Vec<Access>) {
        A::update_access(&prepared.0, accesses);
    }
}

impl<A: QueryParam, B: QueryParam> QueryParam for (A, B) {
    type Prepared = (A::Prepared, B::Prepared);

    open spec fn accesses(prepared: (A::Prepared, B::Prepared)) -> Seq<Access> {
        A::accesses(prepared.0) + B::accesses(prepared.1)
    }

    open spec fn prepared_in(prepared: (A::Prepared, B::Prepared), registry: Seq<ComponentInfo>)
        -> bool {
        A::prepared_in(prepared.0, registry) && B::prepared_in(prepared.1, registry)
    }

    proof fn lemma_prepared_stays(
        prepared: (A::Prepared, B::Prepared),
        older: Seq<ComponentInfo>,
        newer: Seq<ComponentInfo>,
    ) {
        A::lemma_prepared_stays(prepared.0, older, newer);
        B::lemma_prepared_stays(prepared.1, older, newer);
    }

    fn prepare(components: &mut Components) -> (prepared: (A::Prepared, B::Prepared)) {
        let a = A::prepare(components);
        let ghost middle = components@;
        let b = B::prepare(components);
        proof {
            components.lemma_keys_distinct();
            A::lemma_prepared_stays(a, middle, components@);
        }
        (a, b)
    }

    fn update_access(prepared: &(A::Prepared, B::Prepared), accesses: &mut Vec<Access>) {
        A::update_access(&prepared.0, accesses);
        B::update_access(&prepared.1, accesses);
        proof {
            assert(final(accesses)@ =~= old(accesses)@ + (A::accesses(prepared.0) + B::accesses(
                prepared.1,
            )));
        }
    }
}

impl<A: QueryParam, B: QueryParam, C: QueryParam> QueryParam for (A, B, C) {
    type Prepared = (A::Prepared, B::Prepared, C::Prepared);

    open spec fn accesses(prepared: (A::Prepared, B::Prepared, C::Prepared)) -> Seq<Access> {
        A::accesses(prepared.0) + B::accesses(prepared.1) + C::accesses(prepared.2)
    }

    open spec fn prepared_in(
        prepared: (A::Prepared, B::Prepared, C::Prepared),
        registry: Seq<ComponentInfo>,
    ) -> bool {
        A::prepared_in(prepared.0, registry) && B::prepared_in(prepared.1, registry)
            && C::prepared_in(prepared.2, registry)
    }

    proof fn lemma_prepared_stays(
        prepared: (A::Prepared, B::Prepared, C::Prepared),
        older: Seq<ComponentInfo>,
        newer: Seq<ComponentInfo>,
    ) {
        A::lemma_prepared_stays(prepared.0, older, newer);
        B::lemma_prepared_stays(prepared.1, older, newer);
        C::lemma_prepared_stays(prepared.2, older, newer);
    }

    fn prepare(components: &mut Components) -> (prepared: (A::Prepared, B::Prepared, C::Prepared)) {
        let a = A::prepare(components);
        let ghost first = components@;
        let b = B::prepare(components);
        let ghost second = components@;
        let c = C::prepare(components);
        proof {
            components.lemma_keys_distinct();
            A::lemma_prepared_stays(a, first, components@);
            B::lemma_prepared_stays(b, second, components@);
        }
        (a, b, c)
    }

    fn update_access(prepared: &(A::Prepared, B::Prepared, C::Prepared),
        accesses: &mut Vec<Access>) {
        A::update_access(&prepared.0, accesses);
        B::update_access(&prepared.1, accesses);
        C::update_access(&prepared.2, accesses);
        proof {
            assert(final(accesses)@ =~= old(accesses)@ + (A::accesses(prepared.0) + B::accesses(
                prepared.1,
            ) + C::accesses(prepared.2)));
        }
    }
}

impl<'a, V: 'a, A: QueryFetch<'a, V>> QueryFetch<'a, V> for (A,) {
    type Item = (A::Item,);

    open spec fn fetched(prepared: (A::Prepared,), world: &World<V>, e: Entity,
        item: (A::Item,)) -> bool {
        A::fetched(prepared.0, world, e, item.0)
    }

    fn get(prepared: &(A::Prepared,), world: &'a World<V>, entity: Entity) -> (item: (A::Item,)) {
        (A::get(&prepared.0, world, entity),)
    }
}

impl<'a, V: 'a, A: QueryFetch<'a, V>, B: QueryFetch<'a, V>> QueryFetch<'a, V> for (A, B) {
    type Item = (A::Item, B::Item);

    open spec fn fetched(
        prepared: (A::Prepared, B::Prepared),
        world: &World<V>,
        e: Entity,
        item: (A::Item, B::Item),
    ) -> bool {
        A::fetched(prepared.0, world, e, item.0) && B::fetched(prepared.1, world, e, item.1)
    }

    fn get(prepared: &(A::Prepared, B::Prepared), world: &'a World<V>, entity: Entity) -> (item: (
        A::Item,
        B::Item,
    )) {
        proof {
            lemma_query_matches_concat(
                A::accesses(prepared.0),
                B::accesses(prepared.1),
                world@[entity],
            );
        }
        (A::get(&prepared.0, world, entity), B::get(&prepared.1, world, entity))
    }
}

impl<
    'a,
    V: 'a,
    A: QueryFetch<'a, V>,
    B: QueryFetch<'a, V>,
    C: QueryFetch<'a, V>,
> QueryFetch<'a, V> for (A, B, C) {
    type Item = (A::Item, B::Item, C::Item);

    open spec fn fetched(
        prepared: (A::Prepared, B::Prepared, C::Prepared),
        world: &World<V>,
        e: Entity,
        item: (A::Item, B::Item, C::Item),
    ) -> bool {
        A::fetched(prepared.0, world, e, item.0) && B::fetched(prepared.1, world, e, item.1)
            && C::fetched(prepared.2, world, e, item.2)
    }

    fn get(prepared: &(A::Prepared, B::Prepared, C::Prepared), world: &'a World<V>,
        entity: Entity) -> (item:
        (A::Item, B::Item, C::Item)) {
        proof {
            lemma_query_matches_concat(
                A::accesses(prepared.0) + B::accesses(prepared.1),
                C::accesses(prepared.2),
                world@[entity],
            );
            lemma_query_matches_concat(
                A::accesses(prepared.0),
                B::accesses(prepared.1),
                world@[entity],
            );
        }
        (
            A::get(&prepared.0, world, entity),
            B::get(&prepared.1, world, entity),
            C::get(&prepared.2, world, entity),
        )
    }
}

/// Whether `access` asks for a sparse component to be present.
pub open spec fn needs_sparse(access: Access) -> bool {
    match access {
        Access::Read(id) => id.kind == StorageKind::Sparse,
        Access::Write(id) => id.kind == StorageKind::Sparse,
        Access::With(id) => id.kind == StorageKind::Sparse,
        _ => false,
    }
}

/// The component that `access` is about.
pub open spec fn component_of(access: Access) -> ComponentId {
    match access {
        Access::Read(id) => id,
        Access::Write(id) => id,
        Access::With(id) => id,
        Access::Without(id) => id,
        Access::Optional(id) => id,
    }
}

impl QueryState {
    /// The first sparse component that the query asks to be present: every
    /// match is found among the entities that have it.
    pub fn sparse_pivot(&self) -> (r: Option<ComponentId>)
        ensures
            match r {
                Some(id) => exists|k: int|
                    0 <= k < self.params().len() && needs_sparse(#[trigger] self.params()[k])
                        && component_of(self.params()[k]) == id,
                None => forall|k: int|
                    0 <= k < self.params().len() ==> !needs_sparse(#[trigger] self.params()[k]),
            },
    {
        let mut k: usize = 0;
        while k < self.accesses.len()
            invariant
                k <= self.accesses@.len(),
                forall|j: int| 0 <= j < k ==> !needs_sparse(#[trigger] self.accesses@[j]),
            decreases self.accesses@.len() - k,
        {
            let found: Option<ComponentId> = match self.accesses[k] {
                Access::Read(id) => Some(id),
                Access::Write(id) => Some(id),
                Access::With(id) => Some(id),
                Access::Without(_) => None,
                Access::Optional(_) => None,
            };
            match found {
                Some(id) => {
                    if id.is_sparse() {
                        assert(needs_sparse(self.params()[k as int]) && component_of(
                            self.params()[k as int],
                        ) == id);
                        return Some(id);
                    }
                },
                None => {},
            }
            k += 1;
        }
        None
    }

    /// Every entity of `world` that matches the query, once each, in no
    /// particular order.
    ///
    /// A query that accesses sparse components only, and asks for one of
    /// them to be present, does not walk the tables: it looks at the
    /// entities that have that component.  Any other query walks the
    /// tables, as [`QueryState::collect`] does.
    pub fn matching_entities<V>(&mut self, world: &World<V>) -> (r: Vec<Entity>)
        requires
            world.wf(),
            old(self).valid_for(world),
        ensures
            final(self).valid_for(world),
            final(self).params() == old(self).params(),
            forall|e: Entity|
                #![trigger r@.contains(e)]
                #![trigger world@.contains_key(e)]
                r@.contains(e) <==> world@.contains_key(e) && query_matches(
                    old(self).params(),
                    world@[e],
                ),
            r@.no_duplicates(),
    {
        let pivot = if self.sparse_only {
            self.sparse_pivot()
        } else {
            None
        };
        let pivot: ComponentId = match pivot {
            Some(id) => id,
            None => {
                return self.collect(world);
            },
        };
        let slots = world.sparse_slots(pivot.index);
        let mut out: Vec<Entity> = Vec::new();
        let mut i: usize = 0;
        while i < slots.len()
            invariant
                i <= slots@.len(),
                world.wf(),
                self.valid_for(world),
                self.params() == old(self).params(),
                slots@.no_duplicates(),
                forall|k: int|
                    0 <= k < out@.len() ==> world@.contains_key(#[trigger] out@[k])
                        && query_matches(
                        self.params(),
                        world@[out@[k]],
                    ) && exists|j: int| 0 <= j < i && #[trigger] slots@[j] == out@[k].index,
                forall|a: int, b: int|
                    0 <= a < b < out@.len() ==> (#[trigger] out@[a]).index != (
                    #[trigger] out@[b]).index,
                forall|j: int, e: Entity|
                    0 <= j < i && e.index == #[trigger] slots@[j] && world@.contains_key(e)
                        && query_matches(self.params(), #[trigger] world@[e]) ==> out@.contains(e),
            decreases slots@.len() - i,
        {
            let slot: usize = slots[i];
            let ghost had = out@;
            let found: Option<Entity> = world.entity_at(slot);
            let ghost mut taken: bool = false;
            match found {
                Some(e) => {
                    if self.get(world, e).is_some() {
                        proof {
                            taken = true;
                        }
                        out.push(e);
                        proof {
                            assert(out@[had.len() as int] == e);
                            assert forall|k: int| 0 <= k < out@.len() implies world@.contains_key(
                                #[trigger] out@[k],
                            ) && query_matches(self.params(), world@[out@[k]]) && exists|j: int|
                                0 <= j < i + 1 && #[trigger] slots@[j] == out@[k].index by {
                                if k < had.len() {
                                    assert(out@[k] == had[k]);
                                    let j = choose|j: int|
                                        0 <= j < i && #[trigger] slots@[j] == had[k].index;
                                    assert(slots@[j] == out@[k].index);
                                } else {
                                    assert(slots@[i as int] == out@[k].index);
                                }
                            }
                            assert forall|a: int, b: int|
                                0 <= a < b < out@.len() implies (#[trigger] out@[a]).index != (
                            #[trigger] out@[b]).index by {
                                assert(out@[a] == had[a]);
                                if b < had.len() {
                                    assert(out@[b] == had[b]);
                                } else {
                                    let j = choose|j: int|
                                        0 <= j < i && #[trigger] slots@[j] == had[a].index;
                                    assert(slots@[j] != slots@[i as int]);
                                }
                            }
                        }
                    }
                },
                None => {},
            }
            proof {
                assert forall|j: int, e: Entity|
                    0 <= j < i + 1 && e.index == #[trigger] slots@[j] && world@.contains_key(e)
                        && query_matches(
                        self.params(),
                        #[trigger] world@[e],
                    ) implies out@.contains(e) by {
                    if j < i {
                        assert(had.contains(e));
                        let k = choose|k: int| 0 <= k < had.len() && had[k] == e;
                        assert(out@[k] == e);
                    } else {
                        // The live entity of this slot is the one that was looked at.
                        world.lemma_one_live_per_slot(found->0, e);
                        assert(taken);
                        assert(out@[had.len() as int] == e);
                    }
                }
            }
            i += 1;
        }
        proof {
            let k0 = choose|k: int|
                0 <= k < self.params().len() && needs_sparse(#[trigger] self.params()[k])
                    && component_of(self.params()[k]) == pivot;
            assert forall|e: Entity|
                #[trigger] world@.contains_key(e) && query_matches(
                    old(self).params(),
                    world@[e],
                ) implies out@.contains(e) by {
                assert(access_holds(self.params()[k0], world@[e]));
                assert(world@[e].contains_key(pivot));
                assert(world.present(e, pivot));
                assert(world.sparse_values(pivot.index).dom().contains(e.index));
                assert(slots@.to_set().contains(e.index));
                assert(slots@.contains(e.index));
                let j = choose|j: int| 0 <= j < slots@.len() && slots@[j] == e.index;
                assert(e.index == slots@[j]);
            }
            assert forall|e: Entity| #[trigger] out@.contains(e) implies world@.contains_key(e)
                && query_matches(old(self).params(), world@[e]) by {
                let k = choose|k: int| 0 <= k < out@.len() && out@[k] == e;
                assert(world@.contains_key(out@[k]));
            }
        }
        out
    }
}

} // verus!
