use weaver::component::Data;
use weaver::entity::Entity;
use weaver::registry::DynamicId;
use weaver::storage::{Archetype, Column, Components, SparseSet};

fn data(id: DynamicId, label: &str) -> Data {
    Data { type_id: id, type_label: label.to_string(), field_name: None, fields: Vec::new(), is_clone: false }
}

#[test]
fn sparse_set_insert_get_remove() {
    let mut s: SparseSet<usize, u64> = SparseSet::new();
    s.insert(5, 10);
    s.insert(2, 20);
    assert_eq!(s.get(&5), Some(&10));
    assert_eq!(s.len(), 2);
    assert_eq!(s.remove(&5), Some(10));
    assert_eq!(s.get(&5), None);
    assert_eq!(s.sparse_iter(), &[2]);
}

#[test]
fn sparse_set_insert_replaces() {
    let mut s: SparseSet<u32, &str> = SparseSet::new();
    s.insert(3, "a");
    s.insert(3, "b");
    assert_eq!(s.len(), 1);
    assert_eq!(s.get(&3), Some(&"b"));
    assert_eq!(s.dense_index_of(&3), Some(0));
    assert_eq!(s.dense_index_of(&4), None);
}

#[test]
fn sparse_set_remove_moves_the_last_into_the_gap() {
    let mut s: SparseSet<usize, char> = SparseSet::new();
    s.insert(1, 'a');
    s.insert(2, 'b');
    s.insert(3, 'c');
    assert_eq!(s.remove(&1), Some('a'));
    assert_eq!(s.sparse_iter(), &[3, 2]);
    assert_eq!(s.dense_iter(), &['c', 'b']);
    assert_eq!(s.remove(&9), None);
    assert!(s.contains(&2));
    assert!(!s.contains(&1));
}

#[test]
fn sparse_set_clear_and_default() {
    let mut s: SparseSet<usize, u8> = SparseSet::default();
    assert!(s.is_empty());
    s.insert(4, 1);
    s.clear();
    assert!(s.is_empty());
    assert_eq!(s.get(&4), None);
}

#[test]
fn sparse_set_get_mut_and_iter_mut() {
    let mut s: SparseSet<usize, u32> = SparseSet::new();
    s.insert(0, 1);
    s.insert(7, 2);
    *s.get_mut(&7).unwrap() += 10;
    assert_eq!(s.get(&7), Some(&12));
    for v in s.dense_iter_mut() {
        *v *= 2;
    }
    let (keys, values) = s.iter_mut();
    assert_eq!(keys, &[0, 7]);
    values[0] = 5;
    assert_eq!(s.get(&0), Some(&5));
    let pairs: Vec<(usize, u32)> = s.iter().iter().map(|(k, v)| (**k, **v)).collect();
    assert_eq!(pairs, vec![(0, 5), (7, 24)]);
}

#[test]
fn sparse_set_set_operations() {
    let a: SparseSet<usize, ()> = SparseSet::from_indices(vec![1, 2, 3]);
    let b: SparseSet<usize, ()> = SparseSet::from_indices(vec![2, 3]);
    let c: SparseSet<usize, ()> = SparseSet::from_indices(vec![7]);
    assert!(b.is_superset(&a));
    assert!(!a.is_superset(&b));
    assert!(a.is_subset(&b));
    assert!(a.is_disjoint(&c));
    assert!(!a.is_disjoint(&b));
    let common: Vec<usize> = a.intersection(&b).iter().map(|(k, _)| **k).collect();
    assert_eq!(common, vec![2, 3]);
}

#[test]
fn sparse_set_pairs() {
    let mut s: SparseSet<usize, char> = SparseSet::from_pairs(vec![(4, 'x'), (1, 'y')]);
    s.extend(vec![(4, 'z'), (9, 'w')]);
    assert_eq!(s.get(&4), Some(&'z'));
    assert_eq!(s.len(), 3);
    let pairs = s.into_pairs();
    assert_eq!(pairs, vec![(4, 'z'), (1, 'y'), (9, 'w')]);
}

#[test]
fn sparse_set_keyed_by_entity() {
    let mut s: SparseSet<Entity, u8> = SparseSet::new();
    s.insert(Entity::new(3), 1);
    assert_eq!(s.get(&Entity::new(3)), Some(&1));
    assert_eq!(s.get(&Entity::new(4)), None);
}

#[test]
fn column_holds_components_of_its_type() {
    let mut column = Column::new_with_id(7);
    column.insert(1, data(7, "Seven"));
    assert_eq!(column.get(&1).unwrap().type_label, "Seven");
    assert_eq!(column.remove(&1).unwrap().type_id, 7);
    assert!(column.get(&1).is_none());
}

#[test]
fn archetype_stores_and_drains_an_entity() {
    let mut archetype = Archetype::with_component_ids(0, vec![2, 5]);
    archetype.insert_components(9, vec![data(2, "Two"), data(5, "Five")]);
    assert!(archetype.contains_entity(9));
    assert!(archetype.exclusively_contains_components(&[5, 2]));
    assert!(!archetype.exclusively_contains_components(&[2]));
    assert_eq!(archetype.get_column(5).unwrap().get(&9).unwrap().type_label, "Five");
    let drained = archetype.component_drain(9);
    let ids: Vec<DynamicId> = drained.iter().map(|d| d.type_id).collect();
    assert_eq!(ids, vec![2, 5]);
    assert!(!archetype.contains_entity(9));
}

#[test]
fn components_create_and_despawn() {
    let mut components = Components::new();
    let e = components.create_entity();
    assert_eq!(e.generation(), 0);
    assert_eq!(components.entity(e.id()), Some(e));
    assert!(components.entity_archetype(e.id()).is_none());
    assert!(!components.despawn(e.id()));
    components.add_dynamic_component(&e, data(40, "Forty"));
    assert!(components.entity_archetype(e.id()).is_some());
    assert!(components.despawn(e.id()));
    assert_eq!(components.entity(e.id()), None);
    let again = components.respawn(e.id());
    assert_eq!(again.id(), e.id());
    assert_eq!(again.generation(), 1);
    assert_eq!(components.living_entities(), &[again]);
}

#[test]
fn add_dynamic_component_moves_the_entity() {
    let mut components = Components::new();
    let e = components.build_with_components(vec![data(40, "Forty")], vec![40]);
    components.add_dynamic_component(&e, data(41, "FortyOne"));
    let ids: Vec<DynamicId> = components.entity_components(e.id()).unwrap().iter().map(|d| d.type_id).collect();
    assert_eq!(ids, vec![40, 41]);
    let archetypes = components.component_archetypes(41).unwrap();
    assert_eq!(archetypes.len(), 1);
}

#[test]
fn merge_takes_entities_of_a_split_store() {
    let mut world = Components::new();
    let kept = world.build_with_components(vec![data(40, "Forty")], vec![40]);
    let mut commands = world.split();
    let made = commands.build_with_components(vec![data(41, "FortyOne")], vec![41]);
    assert_ne!(made.id(), kept.id());
    world.merge(commands);
    assert_eq!(world.entity(made.id()), Some(made));
    assert_eq!(world.entity(kept.id()), Some(kept));
    let ids: Vec<DynamicId> = world.entity_components(made.id()).unwrap().iter().map(|d| d.type_id).collect();
    assert_eq!(ids, vec![41]);
    assert_eq!(world.living_entities().len(), 2);
}
