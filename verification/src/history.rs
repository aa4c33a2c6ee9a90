//! What a run of structural changes leaves behind, told over the view of
//! the world: the components of an entity are what was written last.

use crate::component::ComponentId;
use crate::entity::Entity;
use crate::world::World;
use vstd::prelude::*;

verus! {

/// One change to the entities of a world.
pub enum Step<V> {
    /// An entity without components came to life.
    Spawn(Entity),
    /// A component was attached to an entity, or its value overwritten.
    Insert(Entity, ComponentId, V),
    /// A component was detached from an entity.
    Remove(Entity, ComponentId),
    /// The life of an entity ended.
    Despawn(Entity),
}

/// The entities and their components after `step`.  A step that names an
/// entity that is not live, or removes what is not there, changes nothing.
pub open spec fn after_step<V>(
    view: Map<Entity, Map<ComponentId, V>>,
    step: Step<V>,
) -> Map<Entity, Map<ComponentId, V>> {
    match step {
        Step::Spawn(e) => view.insert(e, Map::empty()),
        Step::Insert(e, id, value) => if view.contains_key(e) {
            view.insert(e, view[e].insert(id, value))
        } else {
            view
        },
        Step::Remove(e, id) => if view.contains_key(e) && view[e].contains_key(id) {
            view.insert(e, view[e].remove(id))
        } else {
            view
        },
        Step::Despawn(e) => view.remove(e),
    }
}

/// The entities and their components after `steps`, one after the other.
pub open spec fn after_steps<V>(
    view: Map<Entity, Map<ComponentId, V>>,
    steps: Seq<Step<V>>,
) -> Map<Entity, Map<ComponentId, V>>
    decreases steps.len(),
{
    if steps.len() == 0 {
        view
    } else {
        after_step(after_steps(view, steps.drop_last()), steps.last())
    }
}

/// Whether `step` can change the life of `e` or its component `id`.
pub open spec fn touches<V>(step: Step<V>, e: Entity, id: ComponentId) -> bool {
    match step {
        Step::Spawn(x) => x == e,
        Step::Insert(x, i, _) => x == e && i == id,
        Step::Remove(x, i) => x == e && i == id,
        Step::Despawn(x) => x == e,
    }
}

/// A step that does not touch a component of an entity leaves it as it is.
pub proof fn lemma_untouched_stays<V>(
    view: Map<Entity, Map<ComponentId, V>>,
    step: Step<V>,
    e: Entity,
    id: ComponentId,
)
    requires
        !touches(step, e, id),
    ensures
        after_step(view, step).contains_key(e) == view.contains_key(e),
        view.contains_key(e) ==> after_step(view, step)[e].contains_key(id) == view[e].contains_key(
            id,
        ),
        view.contains_key(e) && view[e].contains_key(id) ==> after_step(view, step)[e][id]
            == view[e][id],
{
}

/// The value of a component is the value that was written last: after an
/// insert that found the entity live, and steps that touch neither the
/// entity's life nor that component, the component is present with the
/// inserted value.
pub proof fn lemma_last_write_is_read<V>(
    view: Map<Entity, Map<ComponentId, V>>,
    steps: Seq<Step<V>>,
    k: int,
    e: Entity,
    id: ComponentId,
    value: V,
)
    requires
        0 <= k < steps.len(),
        steps[k] == Step::Insert(e, id, value),
        after_steps(view, steps.take(k)).contains_key(e),
        forall|j: int| k < j < steps.len() ==> !touches(#[trigger] steps[j], e, id),
    ensures
        after_steps(view, steps).contains_key(e),
        after_steps(view, steps)[e].contains_key(id),
        after_steps(view, steps)[e][id] == value,
    decreases steps.len(),
{
    let shorter = steps.drop_last();
    if k == steps.len() - 1 {
        assert(shorter =~= steps.take(k));
    } else {
        assert(shorter[k] == steps[k]);
        assert(shorter.take(k) =~= steps.take(k));
        assert forall|j: int| k < j < shorter.len() implies !touches(
            #[trigger] shorter[j],
            e,
            id,
        ) by {
            assert(shorter[j] == steps[j]);
        }
        lemma_last_write_is_read(view, shorter, k, e, id, value);
        lemma_untouched_stays(after_steps(view, shorter), steps.last(), e, id);
    }
}

/// A component that was removed stays absent while nothing touches it.
pub proof fn lemma_removed_stays_absent<V>(
    view: Map<Entity, Map<ComponentId, V>>,
    steps: Seq<Step<V>>,
    k: int,
    e: Entity,
    id: ComponentId,
)
    requires
        0 <= k < steps.len(),
        steps[k] == Step::<V>::Remove(e, id),
        forall|j: int| k < j < steps.len() ==> !touches(#[trigger] steps[j], e, id),
    ensures
        after_steps(view, steps).contains_key(e) ==> !after_steps(view, steps)[e].contains_key(id),
    decreases steps.len(),
{
    let shorter = steps.drop_last();
    if k == steps.len() - 1 {
    } else {
        assert(shorter[k] == steps[k]);
        assert forall|j: int| k < j < shorter.len() implies !touches(
            #[trigger] shorter[j],
            e,
            id,
        ) by {
            assert(shorter[j] == steps[j]);
        }
        lemma_removed_stays_absent(view, shorter, k, e, id);
        lemma_untouched_stays(after_steps(view, shorter), steps.last(), e, id);
    }
}

/// A run of worlds in which each world is the one before it after one
/// step ends in the world that the steps lead to.
pub proof fn lemma_run_follows_steps<V>(worlds: Seq<World<V>>, steps: Seq<Step<V>>)
    requires
        worlds.len() == steps.len() + 1,
        forall|i: int|
            0 <= i < steps.len() ==> (#[trigger] worlds[i + 1])@ == after_step(
                worlds[i]@,
                steps[i],
            ),
    ensures
        worlds.last()@ == after_steps(worlds[0]@, steps),
    decreases steps.len(),
{
    if steps.len() > 0 {
        let fewer = steps.drop_last();
        let before = worlds.drop_last();
        assert forall|i: int| 0 <= i < fewer.len() implies (#[trigger] before[i + 1])@
            == after_step(before[i]@, fewer[i]) by {
            assert(before[i + 1] == worlds[i + 1]);
            assert(before[i] == worlds[i]);
            assert(fewer[i] == steps[i]);
        }
        lemma_run_follows_steps(before, fewer);
        let n = steps.len() as int;
        assert(before.last() == worlds[n - 1]);
        assert(worlds.last() == worlds[(n - 1) + 1]);
    }
}

} // verus!
