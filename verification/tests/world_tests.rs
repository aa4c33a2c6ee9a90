use pulz::archetype::ArchetypeId;
use pulz::component::{ComponentId, ConfigurationError, StorageKind};
use pulz::entity::{Entity, Location};
use pulz::query::{Access, QueryState};
use pulz::world::{World, WorldError};

const KEY_A: u64 = 10;
const KEY_B: u64 = 20;
const KEY_D: u64 = 40;
const KEY_E: u64 = 50;

/// The dense component positions of the archetype that `entity` is stored in.
fn signature(world: &World<u32>, entity: Entity) -> Vec<usize> {
    let location = world.resolve(entity).unwrap();
    let archetype = world.archetypes().get(location.archetype).unwrap();
    (0..world.components().len()).filter(|c| archetype.has_component(*c)).collect()
}

fn rows(world: &World<u32>) -> Vec<usize> {
    (0..world.archetypes().len())
        .map(|a| world.archetypes().get(ArchetypeId::new(a)).unwrap().len())
        .collect()
}

#[test]
fn spawn_insert_get() {
    let mut world: World<usize> = World::new();
    let a: ComponentId = world.register(1);
    let e = world.spawn();
    assert!(world.contains(e));
    assert_eq!(world.get(e, a), None);
    assert_eq!(world.insert(e, a, 7), Ok(None));
    assert_eq!(world.get(e, a), Some(&7));
    assert!(world.has_component(e, a));
}

#[test]
fn new_entities_live_in_the_empty_archetype() {
    let mut world: World<u32> = World::new();
    assert_eq!(world.archetypes().len(), 1);
    let e0 = world.spawn();
    let e1 = world.spawn();
    assert_eq!(world.resolve(e0), Some(Location { archetype: ArchetypeId::empty(), row: 0 }));
    assert_eq!(world.resolve(e1), Some(Location { archetype: ArchetypeId::empty(), row: 1 }));
    assert_eq!(e0, Entity { index: 0, generation: 0 });
    assert_eq!(e1, Entity { index: 1, generation: 0 });
}

#[test]
fn every_live_entity_is_the_entity_of_its_row() {
    let mut world: World<u32> = World::new();
    let a = world.register(KEY_A);
    let b = world.register(KEY_B);
    let mut live: Vec<(Entity, Option<u32>, Option<u32>)> = Vec::new();
    for i in 0..40u32 {
        let e = world.spawn();
        let mut va = None;
        let mut vb = None;
        if i % 2 == 0 {
            world.insert(e, a, i).unwrap();
            va = Some(i);
        }
        if i % 3 == 0 {
            world.insert(e, b, 100 + i).unwrap();
            vb = Some(100 + i);
        }
        live.push((e, va, vb));
    }
    // Overwrite, remove and despawn a few; each reshuffles rows.
    for k in 0..live.len() {
        if k % 5 == 0 {
            let old = world.insert(live[k].0, a, 1000 + k as u32).unwrap();
            assert_eq!(old, live[k].1);
            live[k].1 = Some(1000 + k as u32);
        }
        if k % 7 == 0 {
            assert_eq!(world.remove(live[k].0, b), live[k].2);
            live[k].2 = None;
        }
    }
    let mut k = 0;
    live.retain(|entry| {
        k += 1;
        if k % 4 == 0 {
            assert!(world.despawn(entry.0));
            false
        } else {
            true
        }
    });
    let mut seen = 0;
    for (e, va, vb) in &live {
        let location = world.resolve(*e).unwrap();
        let archetype = world.archetypes().get(location.archetype).unwrap();
        assert_eq!(archetype.entities()[location.row], *e);
        assert_eq!(world.get(*e, a).copied(), *va);
        assert_eq!(world.get(*e, b).copied(), *vb);
        assert_eq!(archetype.get(a.index, location.row).copied(), *va);
        assert_eq!(archetype.get(b.index, location.row).copied(), *vb);
        seen += 1;
    }
    assert_eq!(rows(&world).iter().sum::<usize>(), seen);
}

#[test]
fn overwriting_a_value_moves_nothing() {
    let mut world: World<u32> = World::new();
    let a = world.register(KEY_A);
    let e0 = world.spawn();
    let e1 = world.spawn();
    world.insert(e0, a, 1).unwrap();
    world.insert(e1, a, 2).unwrap();
    let where_before = (world.resolve(e0), world.resolve(e1));
    let rows_before = rows(&world);
    assert_eq!(world.insert(e0, a, 1), Ok(Some(1)));
    assert_eq!(world.insert(e0, a, 5), Ok(Some(1)));
    assert_eq!((world.resolve(e0), world.resolve(e1)), where_before);
    assert_eq!(rows(&world), rows_before);
    assert_eq!(world.get(e0, a), Some(&5));
    assert_eq!(world.get(e1, a), Some(&2));
}

#[test]
fn insert_then_remove_restores_the_archetype() {
    let mut world: World<u32> = World::new();
    let a = world.register(KEY_A);
    let b = world.register(KEY_B);
    let other = world.spawn();
    world.insert(other, a, 9).unwrap();
    let e = world.spawn();
    world.insert(e, a, 1).unwrap();
    let home = world.resolve(e).unwrap().archetype;
    let before = signature(&world, e);
    assert_eq!(world.insert(e, b, 2), Ok(None));
    assert_ne!(world.resolve(e).unwrap().archetype, home);
    assert_eq!(signature(&world, e), vec![a.index, b.index]);
    assert_eq!(world.remove(e, b), Some(2));
    assert_eq!(world.resolve(e).unwrap().archetype, home);
    assert_eq!(signature(&world, e), before);
    assert_eq!(world.get(e, a), Some(&1));
    assert_eq!(world.get(e, b), None);
    assert_eq!(world.get(other, a), Some(&9));
}

#[test]
fn stale_handles_stay_dead_when_the_slot_is_reused() {
    let mut world: World<u32> = World::new();
    let a = world.register(KEY_A);
    let old = world.spawn();
    world.insert(old, a, 1).unwrap();
    assert!(world.despawn(old));
    let new = world.spawn();
    assert_eq!(new.index, old.index);
    assert_eq!(new.generation, old.generation + 1);
    world.insert(new, a, 2).unwrap();

    assert!(!world.contains(old));
    assert_eq!(world.resolve(old), None);
    assert_eq!(world.get(old, a), None);
    assert_eq!(world.insert(old, a, 3), Err(WorldError::NotFound));
    assert_eq!(world.remove(old, a), None);
    assert!(!world.despawn(old));
    let query = QueryState::from_world(&world, vec![Access::Read(a)]).unwrap();
    assert_eq!(query.get(&world, old), None);
    // Nothing of this touched the entity that reuses the slot.
    assert_eq!(world.get(new, a), Some(&2));
}

#[test]
fn dense_detour_then_sparse_component() {
    let mut world: World<u32> = World::new();
    let d = world.register(KEY_D);
    let e_id = world.insert_sparse(KEY_E).unwrap();
    assert_eq!(d.kind, StorageKind::Dense);
    assert_eq!(e_id.kind, StorageKind::Sparse);
    let entity = world.spawn();
    let start = world.resolve(entity).unwrap().archetype;
    let start_signature = signature(&world, entity);
    world.insert(entity, d, 1).unwrap();
    assert_eq!(signature(&world, entity), vec![d.index]);
    assert_eq!(world.remove(entity, d), Some(1));
    let archetypes = world.archetypes().len();
    assert_eq!(world.insert(entity, e_id, 2), Ok(None));
    assert_eq!(signature(&world, entity), start_signature);
    assert_eq!(world.resolve(entity).unwrap().archetype, start);
    assert_eq!(world.archetypes().len(), archetypes);
    assert_eq!(world.get(entity, e_id), Some(&2));
    assert!(world.sparse_contains(e_id.index, entity.index));
    let mut with_e = QueryState::from_world(&world, vec![Access::Read(e_id)]).unwrap();
    assert_eq!(with_e.collect(&world), vec![entity]);
    assert_eq!(world.remove(entity, e_id), Some(2));
    assert_eq!(world.resolve(entity).unwrap().archetype, start);
    assert_eq!(with_e.collect(&world), Vec::<Entity>::new());
}

#[test]
fn despawn_moves_the_last_row_into_the_gap() {
    let mut world: World<u32> = World::new();
    let a = world.register(KEY_A);
    let e0 = world.spawn();
    let e1 = world.spawn();
    let e2 = world.spawn();
    world.insert(e0, a, 10).unwrap();
    world.insert(e1, a, 11).unwrap();
    world.insert(e2, a, 12).unwrap();
    let table = world.resolve(e0).unwrap().archetype;
    assert_eq!(world.resolve(e2), Some(Location { archetype: table, row: 2 }));
    assert!(world.despawn(e0));
    assert_eq!(world.resolve(e2), Some(Location { archetype: table, row: 0 }));
    assert_eq!(world.resolve(e1), Some(Location { archetype: table, row: 1 }));
    assert_eq!(world.get(e2, a), Some(&12));
    assert_eq!(world.get(e1, a), Some(&11));
    assert_eq!(world.archetypes().get(table).unwrap().len(), 2);
}

#[test]
fn despawn_drops_sparse_values() {
    let mut world: World<u32> = World::new();
    let s = world.insert_sparse(KEY_E).unwrap();
    let old = world.spawn();
    world.insert(old, s, 1).unwrap();
    assert!(world.despawn(old));
    assert!(!world.sparse_contains(s.index, old.index));
    let new = world.spawn();
    assert_eq!(new.index, old.index);
    assert_eq!(world.get(new, s), None);
}

#[test]
fn despawn_reports_whether_the_entity_was_live() {
    let mut world: World<u32> = World::new();
    let e = world.spawn();
    assert!(world.despawn(e));
    assert!(!world.despawn(e));
    assert!(!world.despawn(Entity { index: 99, generation: 0 }));
}

#[test]
fn removing_what_is_not_there_removes_nothing() {
    let mut world: World<u32> = World::new();
    let a = world.register(KEY_A);
    let b = world.register(KEY_B);
    let s = world.insert_sparse(KEY_E).unwrap();
    let e = world.spawn();
    world.insert(e, a, 1).unwrap();
    let at = world.resolve(e);
    assert_eq!(world.remove(e, b), None);
    assert_eq!(world.remove(e, s), None);
    assert_eq!(world.remove(e, ComponentId { index: 77, kind: StorageKind::Dense }), None);
    assert_eq!(world.resolve(e), at);
    assert_eq!(world.get(e, a), Some(&1));
}

#[test]
fn insert_errors() {
    let mut world: World<u32> = World::new();
    let a = world.register(KEY_A);
    let e = world.spawn();
    let dead = Entity { index: 5, generation: 0 };
    assert_eq!(world.insert(dead, a, 1), Err(WorldError::NotFound));
    let unknown = ComponentId { index: 3, kind: StorageKind::Dense };
    assert_eq!(world.insert(e, unknown, 1), Err(WorldError::UnknownComponent));
    // The right position with the wrong kind is not an identifier of this world either.
    let wrong_kind = ComponentId { index: a.index, kind: StorageKind::Sparse };
    assert_eq!(world.insert(e, wrong_kind, 1), Err(WorldError::UnknownComponent));
    assert_eq!(world.insert(dead, unknown, 1), Err(WorldError::NotFound));
    assert_eq!(world.get(e, a), None);
}

#[test]
fn sparse_insert_keeps_the_archetype() {
    let mut world: World<u32> = World::new();
    let a = world.register(KEY_A);
    let s = world.insert_sparse(KEY_E).unwrap();
    let e = world.spawn();
    world.insert(e, a, 1).unwrap();
    let at = world.resolve(e);
    let archetypes = world.archetypes().len();
    assert_eq!(world.insert(e, s, 5), Ok(None));
    assert_eq!(world.insert(e, s, 6), Ok(Some(5)));
    assert_eq!(world.resolve(e), at);
    assert_eq!(world.archetypes().len(), archetypes);
    assert_eq!(world.get(e, s), Some(&6));
}

#[test]
fn same_components_same_archetype() {
    let mut world: World<u32> = World::new();
    let a = world.register(KEY_A);
    let b = world.register(KEY_B);
    let e0 = world.spawn();
    let e1 = world.spawn();
    world.insert(e0, a, 1).unwrap();
    world.insert(e0, b, 2).unwrap();
    world.insert(e1, b, 3).unwrap();
    world.insert(e1, a, 4).unwrap();
    assert_eq!(world.resolve(e0).unwrap().archetype, world.resolve(e1).unwrap().archetype);
    // {}, {a}, {a, b}, {b}: four archetypes, none made twice.
    assert_eq!(world.archetypes().len(), 4);
    let e2 = world.spawn();
    world.insert(e2, a, 5).unwrap();
    world.insert(e2, b, 6).unwrap();
    assert_eq!(world.archetypes().len(), 4);
}

#[test]
fn registration_is_idempotent() {
    let mut world: World<u32> = World::new();
    let a = world.register(KEY_A);
    let b = world.register(KEY_B);
    assert_eq!(a, ComponentId { index: 0, kind: StorageKind::Dense });
    assert_eq!(b, ComponentId { index: 1, kind: StorageKind::Dense });
    assert_eq!(world.register(KEY_A), a);
    assert_eq!(world.components().len(), 2);
    assert_eq!(world.components().get_id(KEY_B), Some(b));
    assert_eq!(world.components().get_id(999), None);
}

#[test]
fn storage_kinds_exclude_each_other() {
    let mut world: World<u32> = World::new();
    let a = world.register(KEY_A);
    assert_eq!(
        world.insert_sparse(KEY_A),
        Err(ConfigurationError::StorageConflict { existing: a })
    );
    let s = world.insert_sparse(KEY_E).unwrap();
    assert_eq!(world.insert_sparse(KEY_E), Ok(s));
    assert_eq!(
        world.insert_component(KEY_E, StorageKind::Dense),
        Err(ConfigurationError::StorageConflict { existing: s })
    );
    // Asking for the identifier of a type that is registered never fails.
    assert_eq!(world.register(KEY_E), s);
    assert_eq!(world.components().len(), 2);
}

#[test]
fn values_are_changed_in_place() {
    let mut world: World<u32> = World::new();
    let a = world.register(KEY_A);
    let s = world.insert_sparse(KEY_E).unwrap();
    let e0 = world.spawn();
    let e1 = world.spawn();
    world.insert(e0, a, 1).unwrap();
    world.insert(e1, a, 2).unwrap();
    world.insert(e1, s, 3).unwrap();
    let at = (world.resolve(e0), world.resolve(e1));
    *world.get_mut(e1, a).unwrap() = 20;
    *world.get_mut(e1, s).unwrap() += 30;
    assert_eq!(world.get(e0, a), Some(&1));
    assert_eq!(world.get(e1, a), Some(&20));
    assert_eq!(world.get(e1, s), Some(&33));
    assert_eq!((world.resolve(e0), world.resolve(e1)), at);
    assert!(world.get_mut(e0, s).is_none());
    assert!(world.get_mut(e0, ComponentId { index: 9, kind: StorageKind::Dense }).is_none());
    assert!(world.despawn(e0));
    assert!(world.get_mut(e0, a).is_none());
}

#[test]
fn bundle_moves_once() {
    let mut world: World<u32> = World::new();
    let a = world.register(KEY_A);
    let b = world.register(KEY_B);
    let s = world.insert_sparse(KEY_E).unwrap();
    let e = world.spawn();
    assert_eq!(world.insert_bundle(e, vec![(a, 1), (s, 2), (b, 3)]), Ok(()));
    assert_eq!(world.get(e, a), Some(&1));
    assert_eq!(world.get(e, b), Some(&3));
    assert_eq!(world.get(e, s), Some(&2));
    assert_eq!(signature(&world, e), vec![a.index, b.index]);
    // Only {} and {a, b} exist: the entity did not pass through {a}.
    assert_eq!(world.archetypes().len(), 2);
    assert_eq!(rows(&world), vec![0, 1]);
}

#[test]
fn bundle_is_a_row_of_inserts() {
    let mut one: World<u32> = World::new();
    let mut other: World<u32> = World::new();
    let ids: Vec<ComponentId> =
        vec![one.register(KEY_A), one.register(KEY_B), one.insert_sparse(KEY_E).unwrap()];
    assert_eq!(
        ids,
        vec![other.register(KEY_A), other.register(KEY_B), other.insert_sparse(KEY_E).unwrap()]
    );
    let e1 = one.spawn();
    let e2 = other.spawn();
    one.insert(e1, ids[1], 7).unwrap();
    other.insert(e2, ids[1], 7).unwrap();
    // Of two entries for one component the later one counts.
    let bundle = vec![(ids[0], 1), (ids[2], 2), (ids[0], 3), (ids[1], 4), (ids[2], 5)];
    for (id, value) in &bundle {
        one.insert(e1, *id, *value).unwrap();
    }
    assert_eq!(other.insert_bundle(e2, bundle), Ok(()));
    for id in &ids {
        assert_eq!(one.get(e1, *id), other.get(e2, *id));
    }
    assert_eq!(other.get(e2, ids[0]), Some(&3));
    assert_eq!(other.get(e2, ids[1]), Some(&4));
    assert_eq!(other.get(e2, ids[2]), Some(&5));
    assert_eq!(signature(&one, e1), signature(&other, e2));
}

#[test]
fn bundle_keeps_other_entities() {
    let mut world: World<u32> = World::new();
    let a = world.register(KEY_A);
    let b = world.register(KEY_B);
    let e0 = world.spawn();
    let e1 = world.spawn();
    let e2 = world.spawn();
    for (k, e) in [e0, e1, e2].iter().enumerate() {
        world.insert(*e, a, k as u32).unwrap();
    }
    assert_eq!(world.insert_bundle(e0, vec![(b, 10), (a, 11)]), Ok(()));
    assert_eq!(world.get(e0, a), Some(&11));
    assert_eq!(world.get(e0, b), Some(&10));
    assert_eq!(world.get(e1, a), Some(&1));
    assert_eq!(world.get(e2, a), Some(&2));
    // The last row of the table that e0 left moved into its place.
    assert_eq!(world.resolve(e2).unwrap().row, 0);
    assert_eq!(world.insert_bundle(e1, Vec::new()), Ok(()));
    assert_eq!(world.get(e1, a), Some(&1));
    assert_eq!(world.get(e1, b), None);
}

#[test]
fn bundle_errors_change_nothing() {
    let mut world: World<u32> = World::new();
    let a = world.register(KEY_A);
    let e = world.spawn();
    world.insert(e, a, 1).unwrap();
    let at = world.resolve(e);
    let unknown = ComponentId { index: 8, kind: StorageKind::Dense };
    assert_eq!(
        world.insert_bundle(e, vec![(a, 2), (unknown, 3)]),
        Err(WorldError::UnknownComponent)
    );
    assert_eq!(world.get(e, a), Some(&1));
    assert_eq!(world.resolve(e), at);
    assert_eq!(world.archetypes().len(), 2);
    let dead = Entity { index: 4, generation: 0 };
    assert_eq!(world.insert_bundle(dead, vec![(a, 2)]), Err(WorldError::NotFound));
    assert_eq!(world.insert_bundle(dead, vec![(unknown, 2)]), Err(WorldError::NotFound));
}

#[test]
fn sparse_slots_name_the_owners() {
    let mut world: World<u32> = World::new();
    let s = world.insert_sparse(KEY_E).unwrap();
    let e0 = world.spawn();
    let e1 = world.spawn();
    let e2 = world.spawn();
    world.insert(e0, s, 1).unwrap();
    world.insert(e2, s, 2).unwrap();
    let mut slots = world.sparse_slots(s.index);
    slots.sort();
    assert_eq!(slots, vec![e0.index, e2.index]);
    assert_eq!(world.sparse_slots(17), Vec::<usize>::new());
    assert_eq!(world.entity_at(e1.index), Some(e1));
    assert_eq!(world.entity_at(40), None);
    assert!(world.despawn(e1));
    assert_eq!(world.entity_at(e1.index), None);
}
