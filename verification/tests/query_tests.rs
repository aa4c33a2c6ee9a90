use pulz::component::{ComponentId, ConfigurationError};
use pulz::entity::Entity;
use pulz::query::exec::Query;
use pulz::query::fetch::{Optional, Read, Write};
use pulz::query::filter::{With, Without};
use pulz::query::{Access, QueryCursor, QueryState};
use pulz::world::World;

const KEY_A: u64 = 1;
const KEY_B: u64 = 2;
const KEY_C: u64 = 3;

/// Walks the matches of `query` and returns, per match, the values of `ids`.
fn walk(
    world: &World<usize>,
    query: &mut QueryState,
    ids: &[ComponentId],
) -> Vec<Vec<Option<usize>>> {
    let mut rows = Vec::new();
    let mut cursor = query.iter(world);
    while let Some(entity) = query.next(world, &mut cursor) {
        rows.push(ids.iter().map(|id| world.get(entity, *id).copied()).collect());
    }
    rows
}

fn populated() -> (World<usize>, ComponentId, ComponentId, Vec<Entity>) {
    let mut world: World<usize> = World::new();
    let a = world.register(KEY_A);
    let b = world.register(KEY_B);
    let mut entities = Vec::new();
    for i in 0..1000 {
        let entity = world.spawn();
        match i % 4 {
            1 => {
                world.insert(entity, a, i).unwrap();
            }
            2 => {
                world.insert(entity, b, i).unwrap();
            }
            _ => {
                world.insert(entity, a, i).unwrap();
                world.insert(entity, b, i).unwrap();
            }
        }
        entities.push(entity);
    }
    (world, a, b, entities)
}

#[test]
fn test_query() {
    let (mut world, _a, _b, entities) = populated();

    let mut q1 = Query::<Read<KEY_A>>::new(&mut world).unwrap();
    let r = q1.get(&world, entities[1]).copied();
    assert_eq!(Some(1), r);

    let mut counter1 = 0;
    let mut sum1 = 0;
    let mut cursor = q1.iter(&world);
    while let Some((_, a)) = q1.next(&world, &mut cursor) {
        counter1 += 1;
        sum1 += *a;
    }

    assert_eq!(750, counter1);
    assert_eq!(374500, sum1);
    drop(q1);

    let mut q2 = Query::<(Read<KEY_A>, Read<KEY_B>)>::new(&mut world).unwrap();
    let mut counter2 = 0;
    let mut sum2a = 0;
    let mut sum2b = 0;
    let mut cursor = q2.iter(&world);
    while let Some((_, (a, b))) = q2.next(&world, &mut cursor) {
        counter2 += 1;
        sum2a += *a;
        sum2b += *b;
    }
    assert_eq!(500, counter2);
    assert_eq!(249750, sum2a);
    assert_eq!(249750, sum2b);
    drop(q2);

    let mut q3 = Query::<(Read<KEY_B>,)>::new(&mut world).unwrap();
    let mut counter3 = 0;
    let mut sum3 = 0;
    let mut cursor = q3.iter(&world);
    while let Some((_, (b,))) = q3.next(&world, &mut cursor) {
        counter3 += 1;
        sum3 += *b;
    }
    assert_eq!(750, counter3);
    assert_eq!(374750, sum3);
    drop(q3);

    let mut q1 = Query::<Read<KEY_A>>::new(&mut world).unwrap();
    let mut counter4 = 0;
    let mut sum4 = 0;
    let mut cursor = q1.iter(&world);
    while let Some((_, a)) = q1.next(&world, &mut cursor) {
        counter4 += 1;
        sum4 += *a;
    }
    assert_eq!(750, counter4);
    assert_eq!(374500, sum4);
}

#[test]
fn untyped_walk_gives_the_same_sums() {
    let (world, a, b, entities) = populated();

    let mut q1 = QueryState::from_world(&world, vec![Access::Read(a)]).unwrap();
    let r = q1.get(&world, entities[1]).and_then(|_| world.get(entities[1], a).copied());
    assert_eq!(Some(1), r);
    let rows = walk(&world, &mut q1, &[a]);
    assert_eq!(750, rows.len());
    assert_eq!(374500, rows.iter().map(|row| row[0].unwrap()).sum::<usize>());

    let mut q2 = QueryState::from_world(&world, vec![Access::Read(a), Access::Read(b)]).unwrap();
    let rows = walk(&world, &mut q2, &[a, b]);
    assert_eq!(500, rows.len());
    assert_eq!(249750, rows.iter().map(|row| row[0].unwrap()).sum::<usize>());
    assert_eq!(249750, rows.iter().map(|row| row[1].unwrap()).sum::<usize>());

    let mut q3 = QueryState::from_world(&world, vec![Access::Read(b)]).unwrap();
    let rows = walk(&world, &mut q3, &[b]);
    assert_eq!(750, rows.len());
    assert_eq!(374750, rows.iter().map(|row| row[0].unwrap()).sum::<usize>());
}

#[test]
fn typed_parameters_compile_to_accesses() {
    let mut world: World<usize> = World::new();
    let query = Query::<(Write<KEY_A>, Optional<KEY_B>, Without<KEY_C>)>::new(&mut world).unwrap();
    // The component types were registered on the way, dense, in the order named.
    let a = world.components().get_id(KEY_A).unwrap();
    let b = world.components().get_id(KEY_B).unwrap();
    let c = world.components().get_id(KEY_C).unwrap();
    assert_eq!((a.index, b.index, c.index), (0, 1, 2));
    assert_eq!(*query.prepared_ids(), (a, b, c));
    assert!(query.compiled().exclusive_access().contains(a));
    assert!(query.compiled().shared_access().contains(b));
    assert!(!query.compiled().shared_access().contains(c));
    assert!(!query.compiled().sparse_only());
}

#[test]
fn typed_conflict_fails_at_construction() {
    let mut world: World<usize> = World::new();
    let refused = Query::<(Read<KEY_A>, Write<KEY_A>)>::new(&mut world);
    match refused {
        Err(e) => assert_eq!(e, ConfigurationError::AccessConflict { index: 0 }),
        Ok(_) => panic!("conflicting access was accepted"),
    }
    assert!(Query::<(Read<KEY_A>, Write<KEY_B>)>::new(&mut world).is_ok());
    assert!(Query::<(Write<KEY_B>, With<KEY_C>, Optional<KEY_B>)>::new(&mut world).is_err());
}

#[test]
fn typed_items() {
    let mut world: World<usize> = World::new();
    let a = world.register(KEY_A);
    let b = world.register(KEY_B);
    let c = world.insert_sparse(KEY_C).unwrap();
    let e0 = world.spawn();
    let e1 = world.spawn();
    let e2 = world.spawn();
    world.insert(e0, a, 1).unwrap();
    world.insert(e1, a, 2).unwrap();
    world.insert(e1, b, 3).unwrap();
    world.insert(e2, a, 4).unwrap();
    world.insert(e2, c, 5).unwrap();

    let mut query =
        Query::<(Read<KEY_A>, Optional<KEY_B>, Without<KEY_C>)>::new(&mut world).unwrap();
    let mut cursor = query.iter(&world);
    assert_eq!(query.next(&world, &mut cursor), Some((e0, (&1, None, ()))));
    assert_eq!(query.next(&world, &mut cursor), Some((e1, (&2, Some(&3), ()))));
    assert_eq!(query.next(&world, &mut cursor), None);
    assert_eq!(query.get(&world, e2), None);
    assert_eq!(query.get(&world, e1), Some((&2, Some(&3), ())));

    let sparse = Query::<(Write<KEY_C>, With<KEY_A>)>::new(&mut world).unwrap();
    assert!(sparse.compiled().sparse_only());
    assert_eq!(sparse.get(&world, e2), Some((&5, ())));
    assert_eq!(sparse.get(&world, e0), None);
    // What a query with exclusive access found is changed through the world.
    let (written, _) = *sparse.prepared_ids();
    *world.get_mut(e2, written).unwrap() += 10;
    assert_eq!(sparse.get(&world, e2), Some((&15, ())));
    let writer = Query::<Write<KEY_A>>::new(&mut world).unwrap();
    *writer.get_mut(&mut world, e0).unwrap() = 100;
    assert_eq!(writer.get(&world, e0), Some(&100));
    assert!(writer.get_mut(&mut world, Entity { index: 77, generation: 0 }).is_none());
}

#[test]
fn typed_query_sees_archetypes_made_after_it_was_built() {
    let mut world: World<usize> = World::new();
    let mut query = Query::<Read<KEY_A>>::new(&mut world).unwrap();
    let a = *query.prepared_ids();
    let b = world.register(KEY_B);
    let e0 = world.spawn();
    world.insert(e0, a, 1).unwrap();
    let e1 = world.spawn();
    world.insert(e1, b, 2).unwrap();
    world.insert(e1, a, 3).unwrap();
    assert_eq!(query.get(&world, e1), Some(&3));
    let mut cursor = query.iter(&world);
    let mut found = Vec::new();
    while let Some((entity, value)) = query.next(&world, &mut cursor) {
        found.push((entity, *value));
    }
    assert_eq!(found, vec![(e0, 1), (e1, 3)]);
}

#[test]
fn collect_returns_each_match_once() {
    let (world, a, b, entities) = populated();
    let mut query = QueryState::from_world(&world, vec![Access::Read(a), Access::Read(b)]).unwrap();
    let found = query.collect(&world);
    assert_eq!(found.len(), 500);
    let mut sorted = found.clone();
    sorted.sort_by_key(|e| e.index);
    sorted.dedup();
    assert_eq!(sorted.len(), 500);
    for (i, entity) in entities.iter().enumerate() {
        assert_eq!(found.contains(entity), i % 4 == 0 || i % 4 == 3);
    }
}

#[test]
fn collect_follows_storage_order() {
    let mut world: World<usize> = World::new();
    let a = world.register(KEY_A);
    let b = world.register(KEY_B);
    let e0 = world.spawn();
    let e1 = world.spawn();
    let e2 = world.spawn();
    world.insert(e0, a, 10).unwrap();
    world.insert(e0, b, 11).unwrap();
    world.insert(e1, a, 20).unwrap();
    world.insert(e2, a, 30).unwrap();
    // Archetypes by identifier: {} = 0, {a} = 1, {a, b} = 2.
    let mut query = QueryState::from_world(&world, vec![Access::With(a)]).unwrap();
    assert_eq!(query.collect(&world), vec![e1, e2, e0]);
}

#[test]
fn conflicting_access_fails_at_construction() {
    let mut world: World<usize> = World::new();
    let a = world.register(KEY_A);
    let b = world.register(KEY_B);
    let declared = vec![Access::Read(b), Access::Read(a), Access::Write(a)];
    match QueryState::new(declared.clone()) {
        Err(e) => assert_eq!(e, ConfigurationError::AccessConflict { index: a.index }),
        Ok(_) => panic!("conflicting access was accepted"),
    }
    assert!(QueryState::from_world(&world, declared).is_err());
    assert!(QueryState::new(vec![Access::Optional(a), Access::Write(a)]).is_err());
}

#[test]
fn conflict_names_the_smallest_position() {
    let mut world: World<usize> = World::new();
    let a = world.register(KEY_A);
    let b = world.register(KEY_B);
    let declared = vec![Access::Write(b), Access::Write(a), Access::Read(b), Access::Read(a)];
    match QueryState::new(declared) {
        Err(e) => assert_eq!(e, ConfigurationError::AccessConflict { index: 0 }),
        Ok(_) => panic!("conflicting access was accepted"),
    }
}

#[test]
fn filters_are_no_access() {
    let mut world: World<usize> = World::new();
    let a = world.register(KEY_A);
    let b = world.register(KEY_B);
    let query = QueryState::new(vec![
        Access::Write(a),
        Access::With(a),
        Access::Without(b),
        Access::Read(b),
    ])
    .unwrap();
    assert!(query.exclusive_access().contains(a));
    assert!(!query.exclusive_access().contains(b));
    assert!(query.shared_access().contains(b));
    assert!(!query.shared_access().contains(a));
    assert!(!query.sparse_only());
}

#[test]
fn sparse_only_looks_at_accessed_components() {
    let mut world: World<usize> = World::new();
    let a = world.register(KEY_A);
    let c = world.insert_sparse(KEY_C).unwrap();
    assert!(QueryState::new(vec![Access::Read(c)]).unwrap().sparse_only());
    assert!(QueryState::new(vec![Access::Write(c), Access::With(a)]).unwrap().sparse_only());
    assert!(!QueryState::new(vec![Access::Read(c), Access::Optional(a)]).unwrap().sparse_only());
    assert!(QueryState::new(Vec::new()).unwrap().sparse_only());
}

#[test]
fn query_sees_archetypes_made_after_it_was_built() {
    let mut world: World<usize> = World::new();
    let a = world.register(KEY_A);
    let b = world.register(KEY_B);
    let e0 = world.spawn();
    world.insert(e0, a, 1).unwrap();
    let mut query = QueryState::from_world(&world, vec![Access::Read(a)]).unwrap();
    assert_eq!(query.collect(&world), vec![e0]);
    let known = world.archetypes().len();

    // A new archetype {a, b} appears after the state was built.
    let e1 = world.spawn();
    world.insert(e1, a, 2).unwrap();
    world.insert(e1, b, 3).unwrap();
    assert!(world.archetypes().len() > known);

    // Single lookups work before any refresh, the walk refreshes.
    assert!(query.get(&world, e1).is_some());
    assert_eq!(query.collect(&world), vec![e0, e1]);
    let newest = pulz::archetype::ArchetypeId::new(world.archetypes().len() - 1);
    assert!(query.matching_archetypes().contains(newest));
}

#[test]
fn refresh_keeps_what_was_remembered() {
    let mut world: World<usize> = World::new();
    let a = world.register(KEY_A);
    let b = world.register(KEY_B);
    let e0 = world.spawn();
    world.insert(e0, a, 1).unwrap();
    let mut query = QueryState::from_world(&world, vec![Access::Read(a)]).unwrap();
    let first = world.resolve(e0).unwrap().archetype;
    assert!(query.matching_archetypes().contains(first));
    let e1 = world.spawn();
    world.insert(e1, b, 1).unwrap();
    query.update_archetypes(&world);
    assert!(query.matching_archetypes().contains(first));
    let other = world.resolve(e1).unwrap().archetype;
    assert!(!query.matching_archetypes().contains(other));
    assert!(!query.matching_archetypes().contains(pulz::archetype::ArchetypeId::empty()));
}

#[test]
fn without_and_optional() {
    let mut world: World<usize> = World::new();
    let a = world.register(KEY_A);
    let b = world.register(KEY_B);
    let e0 = world.spawn();
    world.insert(e0, a, 1).unwrap();
    let e1 = world.spawn();
    world.insert(e1, a, 2).unwrap();
    world.insert(e1, b, 3).unwrap();
    let e2 = world.spawn();

    let mut only_a =
        QueryState::from_world(&world, vec![Access::Read(a), Access::Without(b)]).unwrap();
    assert_eq!(only_a.collect(&world), vec![e0]);

    let mut maybe_b =
        QueryState::from_world(&world, vec![Access::Read(a), Access::Optional(b)]).unwrap();
    assert_eq!(
        walk(&world, &mut maybe_b, &[a, b]),
        vec![vec![Some(1), None], vec![Some(2), Some(3)]]
    );

    let mut nothing_asked = QueryState::from_world(&world, Vec::new()).unwrap();
    assert_eq!(nothing_asked.collect(&world), vec![e2, e0, e1]);
}

#[test]
fn sparse_requirements_are_tested_per_entity() {
    let mut world: World<usize> = World::new();
    let a = world.register(KEY_A);
    let c = world.insert_sparse(KEY_C).unwrap();
    let e0 = world.spawn();
    let e1 = world.spawn();
    let e2 = world.spawn();
    world.insert(e0, a, 1).unwrap();
    world.insert(e1, a, 2).unwrap();
    world.insert(e2, a, 3).unwrap();
    world.insert(e1, c, 20).unwrap();
    // All three share one archetype; only the sparse component tells them apart.
    assert_eq!(world.resolve(e0).unwrap().archetype, world.resolve(e1).unwrap().archetype);

    let mut with_c =
        QueryState::from_world(&world, vec![Access::Read(a), Access::Read(c)]).unwrap();
    assert_eq!(with_c.collect(&world), vec![e1]);
    assert!(with_c.get(&world, e1).is_some());
    assert!(with_c.get(&world, e0).is_none());

    let mut without_c =
        QueryState::from_world(&world, vec![Access::Read(a), Access::Without(c)]).unwrap();
    assert_eq!(without_c.collect(&world), vec![e0, e2]);
}

#[test]
fn get_refuses_dead_and_unmatched_entities() {
    let mut world: World<usize> = World::new();
    let a = world.register(KEY_A);
    let b = world.register(KEY_B);
    let e0 = world.spawn();
    world.insert(e0, a, 1).unwrap();
    let e1 = world.spawn();
    world.insert(e1, b, 1).unwrap();
    let query = QueryState::from_world(&world, vec![Access::Read(a)]).unwrap();
    assert_eq!(query.get(&world, e0), world.resolve(e0));
    assert_eq!(query.get(&world, e1), None);
    assert!(world.despawn(e0));
    assert_eq!(query.get(&world, e0), None);
}

#[test]
fn walk_resumes_at_the_cursor() {
    let mut world: World<usize> = World::new();
    let a = world.register(KEY_A);
    let e0 = world.spawn();
    let e1 = world.spawn();
    world.insert(e0, a, 1).unwrap();
    world.insert(e1, a, 2).unwrap();
    let mut query = QueryState::from_world(&world, vec![Access::Read(a)]).unwrap();
    let mut cursor = query.iter(&world);
    assert_eq!(cursor, QueryCursor { archetype: 0, row: 0 });
    assert_eq!(query.next(&world, &mut cursor), Some(e0));
    assert_eq!(cursor, QueryCursor { archetype: 1, row: 1 });
    assert_eq!(query.next(&world, &mut cursor), Some(e1));
    assert_eq!(query.next(&world, &mut cursor), None);
    assert_eq!(query.next(&world, &mut cursor), None);
    let mut late = QueryCursor { archetype: 1, row: 1 };
    assert_eq!(query.next(&world, &mut late), Some(e1));
}

#[test]
fn unknown_components_match_nothing() {
    let mut world: World<usize> = World::new();
    let a = world.register(KEY_A);
    let e0 = world.spawn();
    world.insert(e0, a, 1).unwrap();
    let stranger = ComponentId { index: 17, kind: pulz::component::StorageKind::Dense };
    let mut wants = QueryState::from_world(&world, vec![Access::Read(stranger)]).unwrap();
    assert_eq!(wants.collect(&world), Vec::<Entity>::new());
    let mut refuses =
        QueryState::from_world(&world, vec![Access::With(a), Access::Without(stranger)]).unwrap();
    assert_eq!(refuses.collect(&world), vec![e0]);
}

fn sorted(mut entities: Vec<Entity>) -> Vec<Entity> {
    entities.sort_by_key(|e| (e.index, e.generation));
    entities
}

#[test]
fn sparse_queries_walk_the_sparse_index() {
    let mut world: World<usize> = World::new();
    let a = world.register(KEY_A);
    let c = world.insert_sparse(KEY_C).unwrap();
    let mut all = Vec::new();
    for i in 0..50 {
        let e = world.spawn();
        if i % 2 == 0 {
            world.insert(e, a, i).unwrap();
        }
        if i % 5 == 0 {
            world.insert(e, c, i).unwrap();
        }
        all.push(e);
    }
    // A slot that is reused does not bring the old sparse value back.
    assert!(world.despawn(all[10]));
    let reused = world.spawn();
    assert_eq!(reused.index, all[10].index);

    let mut with_c = QueryState::from_world(&world, vec![Access::Read(c)]).unwrap();
    assert!(with_c.sparse_only());
    assert_eq!(with_c.sparse_pivot(), Some(c));
    let expected: Vec<Entity> =
        (0..50).filter(|i| i % 5 == 0 && *i != 10).map(|i| all[i]).collect();
    assert_eq!(sorted(with_c.matching_entities(&world)), expected);
    assert_eq!(with_c.collect(&world).len(), expected.len());

    // Filters on dense components are still applied, entity by entity.
    let mut c_and_a =
        QueryState::from_world(&world, vec![Access::Write(c), Access::With(a)]).unwrap();
    assert!(c_and_a.sparse_only());
    let expected: Vec<Entity> =
        (0..50).filter(|i| i % 10 == 0 && *i != 10).map(|i| all[i]).collect();
    assert_eq!(sorted(c_and_a.matching_entities(&world)), expected);
}

#[test]
fn queries_without_a_sparse_pivot_walk_the_tables() {
    let mut world: World<usize> = World::new();
    let a = world.register(KEY_A);
    let c = world.insert_sparse(KEY_C).unwrap();
    let e0 = world.spawn();
    let e1 = world.spawn();
    world.insert(e0, c, 1).unwrap();
    world.insert(e1, a, 2).unwrap();
    let mut maybe_c = QueryState::from_world(&world, vec![Access::Optional(c)]).unwrap();
    assert!(maybe_c.sparse_only());
    assert_eq!(maybe_c.sparse_pivot(), None);
    assert_eq!(maybe_c.matching_entities(&world), vec![e0, e1]);
    let mut dense = QueryState::from_world(&world, vec![Access::Read(a), Access::With(c)]).unwrap();
    assert!(!dense.sparse_only());
    assert_eq!(dense.sparse_pivot(), Some(c));
    assert_eq!(dense.matching_entities(&world), Vec::<Entity>::new());
    world.insert(e1, c, 3).unwrap();
    assert_eq!(dense.matching_entities(&world), vec![e1]);
}

#[test]
fn queries_that_share_no_written_component_are_compatible() {
    let mut world: World<usize> = World::new();
    let a = world.register(KEY_A);
    let b = world.register(KEY_B);
    let reads_a = QueryState::new(vec![Access::Read(a)]).unwrap();
    let reads_a_too = QueryState::new(vec![Access::Optional(a), Access::Read(b)]).unwrap();
    let writes_a = QueryState::new(vec![Access::Write(a)]).unwrap();
    let writes_b = QueryState::new(vec![Access::Write(b), Access::With(a)]).unwrap();
    assert!(reads_a.compatible_with(&reads_a_too));
    assert!(!reads_a.compatible_with(&writes_a));
    assert!(!writes_a.compatible_with(&reads_a));
    assert!(!writes_a.compatible_with(&writes_a));
    assert!(writes_a.compatible_with(&writes_b));
    assert!(reads_a.compatible_with(&writes_b));
    assert!(!reads_a_too.compatible_with(&writes_b));
}
