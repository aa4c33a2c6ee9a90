use pulz::archetype::{Archetype, ArchetypeId, ArchetypeSet, Archetypes};
use pulz::binding::{BindGroupLayoutDescriptor, BindGroupLayoutEntry};
use pulz::component::{ComponentId, ComponentInfo, ComponentSet, Components, StorageKind};
use pulz::debug_utils::{message_level, CStrBuf, MessageLevel};
use pulz::entity::{Entities, Entity, Location};
use pulz::frames::{next_frame, NUM_FRAMES_IN_FLIGHT};
use pulz::storage::{DenseStorage, SparseStorage};

fn dense(index: usize) -> ComponentId {
    ComponentId { index, kind: StorageKind::Dense }
}

fn signature_of(members: &[usize]) -> ComponentSet {
    let mut set = ComponentSet::new();
    for m in members {
        set.insert_index(*m);
    }
    set
}

#[test]
fn component_set_members() {
    let mut set = ComponentSet::new();
    assert!(set.is_empty());
    set.insert(dense(3));
    set.insert(dense(0));
    set.insert(dense(3));
    assert!(set.contains(dense(3)));
    assert!(set.contains_index(0));
    assert!(!set.contains(dense(1)));
    assert!(!set.contains(dense(100)));
    set.remove(dense(3));
    assert!(!set.contains(dense(3)));
    set.remove(dense(100));
    set.remove_index(0);
    assert!(set.is_empty());
}

#[test]
fn component_set_relations() {
    let small = signature_of(&[1, 4]);
    let big = signature_of(&[1, 2, 4]);
    let apart = signature_of(&[0, 9]);
    assert!(big.is_superset(&small));
    assert!(!small.is_superset(&big));
    assert!(small.is_superset(&ComponentSet::new()));
    assert!(small.is_disjoint(&apart));
    assert!(!small.is_disjoint(&big));
    assert_eq!(small.first_common(&big), Some(1));
    assert_eq!(small.first_common(&apart), None);
    assert!(small.same_as(&small.copy()));
    assert!(!small.same_as(&big));
    // A set that once held a large member is still the same set.
    let mut shrunk = signature_of(&[1, 4, 40]);
    shrunk.remove_index(40);
    assert!(shrunk.same_as(&small));
    assert!(small.same_as(&shrunk));
}

#[test]
fn component_set_iter_names_registered_members() {
    let mut components = Components::new();
    let a = components.register(7);
    let s = components.insert_sparse(8).unwrap();
    let b = components.register(9);
    let set = signature_of(&[b.index, a.index, s.index, 12]);
    assert_eq!(set.iter(&components), vec![a, s, b]);
    assert!(set.iter(&components).iter().any(|id| id.is_sparse()));
    assert!(a.is_dense() && !a.is_sparse());
    assert_eq!(s.kind(), StorageKind::Sparse);
    assert_eq!(b.index(), 2);
}

#[test]
fn registry_lookups() {
    let mut components = Components::new();
    assert_eq!(components.len(), 0);
    let a = components.register(7);
    assert!(components.has_id(a));
    assert!(!components.has_id(ComponentId { index: 0, kind: StorageKind::Sparse }));
    assert!(!components.has_id(dense(1)));
    assert_eq!(components.info(a), Some(ComponentInfo { type_key: 7, kind: StorageKind::Dense }));
    assert_eq!(components.info(dense(1)), None);
    assert_eq!(components.id_at(0), Some(a));
    assert_eq!(components.id_at(1), None);
    assert_eq!(components.insert(7, StorageKind::Dense), Ok(a));
    assert!(components.insert(7, StorageKind::Sparse).is_err());
    assert_eq!(components.len(), 1);
}

#[test]
fn directory_reuses_slots_with_a_new_generation() {
    let mut entities = Entities::new();
    let home = Location { archetype: ArchetypeId::new(0), row: 0 };
    let e0 = entities.spawn(home);
    let e1 = entities.spawn(Location { archetype: ArchetypeId::new(0), row: 1 });
    assert_eq!(entities.resolve(e0), Some(home));
    assert_eq!(entities.despawn(e0), Some(home));
    assert_eq!(entities.despawn(e0), None);
    assert_eq!(entities.resolve(e0), None);
    assert_eq!(entities.live_at(0), None);
    let e2 = entities.spawn(home);
    assert_eq!(e2, Entity { index: 0, generation: 1 });
    assert_eq!(entities.live_at(0), Some(e2));
    assert_eq!(entities.live_at(7), None);
    assert!(entities.contains(e1) && entities.contains(e2) && !entities.contains(e0));
    let moved = Location { archetype: ArchetypeId::new(3), row: 9 };
    entities.set_location(e1, moved);
    assert_eq!(entities.resolve(e1), Some(moved));
    assert_eq!(e1.index(), 1);
    assert_eq!(e1.generation(), 0);
}

#[test]
fn dense_storage_swap_remove() {
    let mut column: DenseStorage<char> = DenseStorage::new();
    column.push('a');
    column.push('b');
    column.push('c');
    assert_eq!(column.len(), 3);
    assert_eq!(column.swap_remove(0), 'a');
    assert_eq!(column.get(0), Some(&'c'));
    assert_eq!(column.get(1), Some(&'b'));
    assert_eq!(column.get(2), None);
    *column.get_mut(0) = 'C';
    assert_eq!(column.get(0), Some(&'C'));
    assert_eq!(column.replace(1, 'z'), 'b');
    assert_eq!(column.swap_remove(1), 'z');
    assert_eq!(column.swap_remove(0), 'C');
    assert_eq!(column.len(), 0);
}

#[test]
fn sparse_storage_is_a_map() {
    let mut values: SparseStorage<char> = SparseStorage::new();
    assert_eq!(values.insert(4, 'a'), None);
    assert_eq!(values.insert(4, 'b'), Some('a'));
    assert!(values.contains(4));
    assert!(!values.contains(5));
    assert_eq!(values.get(4), Some(&'b'));
    assert_eq!(values.slots(), vec![4]);
    assert!(values.get_mut(5).is_none());
    *values.get_mut(4).unwrap() = 'B';
    assert_eq!(values.remove(4), Some('B'));
    assert_eq!(values.insert(4, 'b'), None);
    assert_eq!(values.remove(5), None);
    assert_eq!(values.remove(4), Some('b'));
    assert_eq!(values.get(4), None);
}

#[test]
fn archetype_rows() {
    let mut table: Archetype<u8> = Archetype::new(signature_of(&[0, 2]));
    let e0 = Entity { index: 0, generation: 0 };
    let e1 = Entity { index: 1, generation: 0 };
    let e2 = Entity { index: 2, generation: 0 };
    assert_eq!(table.push_row(e0, vec![Some(1), None, Some(2)]), 0);
    // A value for a component outside the signature is dropped.
    assert_eq!(table.push_row(e1, vec![Some(3), Some(99), Some(4), Some(98)]), 1);
    assert_eq!(table.push_row(e2, vec![Some(5), None, Some(6)]), 2);
    assert_eq!(table.len(), 3);
    assert_eq!(table.get(1, 1), None);
    assert_eq!(table.get(2, 1), Some(&4));
    *table.get_mut(0, 1) += 30;
    assert_eq!(table.get(0, 1), Some(&33));
    assert_eq!(table.replace(2, 1, 40), 4);
    assert_eq!(table.swap_remove_row(0), vec![Some(1), None, Some(2)]);
    assert_eq!(table.entities(), &vec![e2, e1]);
    assert_eq!(table.get(0, 0), Some(&5));
    assert_eq!(table.get(2, 1), Some(&40));
    assert_eq!(table.get(0, 2), None);
    assert!(table.signature().same_as(&signature_of(&[0, 2])));
}

#[test]
fn archetype_list_makes_each_signature_once() {
    let mut list: Archetypes<u8> = Archetypes::new();
    assert_eq!(list.len(), 1);
    assert_eq!(list.get_or_create(ComponentSet::new()), ArchetypeId::empty());
    let ab = list.get_or_create(signature_of(&[0, 1]));
    assert_eq!(ab, ArchetypeId::new(1));
    assert_eq!(list.get_or_create(signature_of(&[1, 0])), ab);
    assert_eq!(list.find(&signature_of(&[0])), None);
    assert_eq!(list.len(), 2);
    assert!(list.get(ArchetypeId::new(2)).is_none());
}

#[test]
fn archetype_edges_are_cached_both_ways() {
    let mut list: Archetypes<u8> = Archetypes::new();
    let empty = ArchetypeId::empty();
    let a = list.insert_target(empty, 0);
    assert_eq!(a, ArchetypeId::new(1));
    assert_eq!(list.get(empty).unwrap().add_edge(0), Some(a));
    assert_eq!(list.get(a).unwrap().remove_edge(0), Some(empty));
    assert_eq!(list.insert_target(empty, 0), a);
    assert_eq!(list.remove_target(a, 0), empty);
    let ab = list.insert_target(a, 1);
    assert_eq!(list.remove_target(ab, 0), ArchetypeId::new(3));
    assert_eq!(list.len(), 4);
    // Removing what the signature does not hold leads nowhere else.
    assert_eq!(list.remove_target(a, 5), a);
    assert_eq!(list.insert_target(a, 0), a);
    assert_eq!(list.len(), 4);
}

#[test]
fn archetype_set_members() {
    let mut set = ArchetypeSet::new();
    assert!(!set.contains(ArchetypeId::new(0)));
    set.insert(ArchetypeId::new(5));
    set.insert(ArchetypeId::new(1));
    assert!(set.contains(ArchetypeId::new(5)));
    assert!(set.contains(ArchetypeId::new(1)));
    assert!(!set.contains(ArchetypeId::new(4)));
    assert_eq!(ArchetypeId::new(5).index(), 5);
}

#[test]
fn short_names_get_a_zero_byte() {
    let mut buffer = CStrBuf::new();
    assert_eq!(buffer.get_cstr("ClearImages"), b"ClearImages\0");
    assert_eq!(buffer.get_cstr(""), b"\0");
    assert_eq!(buffer.get_cstr("x"), b"x\0");
}

#[test]
fn terminated_names_are_handed_back() {
    let mut buffer = CStrBuf::new();
    let name = "frame\0";
    let bytes = buffer.get_cstr(name);
    assert_eq!(bytes, b"frame\0");
    assert_eq!(bytes.as_ptr(), name.as_ptr());
    assert_eq!(buffer.get_cstr("a\0b"), b"a\0b\0");
    assert_eq!(buffer.get_cstr("\0"), b"\0");
}

#[test]
fn long_names_are_copied_too() {
    let mut buffer = CStrBuf::new();
    for len in [62usize, 63, 64, 65, 200] {
        let name = "n".repeat(len);
        let mut expected = name.clone().into_bytes();
        expected.push(0);
        assert_eq!(buffer.get_cstr(&name), expected.as_slice());
    }
    // The buffer can be used again for a shorter name.
    assert_eq!(buffer.get_cstr("ab"), b"ab\0");
    let umlauts = "\u{e4}".repeat(40);
    let mut expected = umlauts.clone().into_bytes();
    expected.push(0);
    assert_eq!(buffer.get_cstr(&umlauts), expected.as_slice());
}

#[test]
fn message_levels() {
    assert_eq!(message_level(0x0001), MessageLevel::Debug);
    assert_eq!(message_level(0x0010), MessageLevel::Info);
    assert_eq!(message_level(0x0100), MessageLevel::Warn);
    assert_eq!(message_level(0x1000), MessageLevel::Error);
    assert_eq!(message_level(0x1100), MessageLevel::Warn);
    assert_eq!(message_level(0), MessageLevel::Warn);
}

#[test]
fn binding_layouts_compare_by_value() {
    let entry = BindGroupLayoutEntry { binding: 0, count: 1 };
    let layout = BindGroupLayoutDescriptor { label: Some("camera"), entries: vec![entry] };
    assert_eq!(layout.clone(), layout);
    let other = BindGroupLayoutDescriptor {
        label: Some("camera"),
        entries: vec![BindGroupLayoutEntry { binding: 0, count: 2 }],
    };
    assert_ne!(other, layout);
}

#[test]
fn frames_go_round() {
    assert_eq!(NUM_FRAMES_IN_FLIGHT, 2);
    assert_eq!(next_frame(0, 2), 1);
    assert_eq!(next_frame(1, 2), 0);
    assert_eq!(next_frame(0, 1), 0);
    assert_eq!(next_frame(2, 3), 0);
    assert_eq!(next_frame(1, 3), 2);
    assert_eq!(next_frame(0, 0), 0);
    assert_eq!(next_frame(usize::MAX, 4), 0);
}
