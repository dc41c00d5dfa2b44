use weaver::component::Data;
use weaver::entity::Entity;
use weaver::query::QueryAccess;
use weaver::registry::DynamicId;
use weaver::world::World;

fn component(id: DynamicId, label: &str) -> Data {
    Data {
        type_id: id,
        type_label: label.to_string(),
        field_name: None,
        fields: Vec::new(),
        is_clone: false,
    }
}

fn spawn(world: &mut World, ids: &[(DynamicId, &str)]) -> Entity {
    let mut sorted: Vec<(DynamicId, &str)> = ids.to_vec();
    sorted.sort();
    let components: Vec<Data> = sorted.iter().map(|(id, label)| component(*id, label)).collect();
    let component_ids: Vec<DynamicId> = sorted.iter().map(|(id, _)| *id).collect();
    let entity = world.components.build_with_components(components, component_ids);
    world.entity_graph.add_entity(entity);
    entity
}

/// A world with four entities: (A, B, C), (A, B), (A, C) and (A, B, C).
fn four_entities() -> (World, DynamicId, DynamicId, DynamicId, Vec<Entity>) {
    let mut world = World::new();
    let a = world.named_id("A");
    let b = world.named_id("B");
    let c = world.named_id("C");
    let e1 = spawn(&mut world, &[(a, "A"), (b, "B"), (c, "C")]);
    let e2 = spawn(&mut world, &[(a, "A"), (b, "B")]);
    let e3 = spawn(&mut world, &[(a, "A"), (c, "C")]);
    let e4 = spawn(&mut world, &[(a, "A"), (b, "B"), (c, "C")]);
    (world, a, b, c, vec![e1, e2, e3, e4])
}

#[test]
fn test_query() {
    let (world, a, b, c, _) = four_entities();
    let mut access = QueryAccess::new();
    access.reads.insert(a, ());
    access.reads.insert(b, ());
    access.reads.insert(c, ());
    let count = world.components.entities_matching_access(&access).len();
    assert_eq!(count, 2);
}

#[test]
fn test_query_with() {
    let (world, a, b, _, _) = four_entities();
    let mut access = QueryAccess::new();
    access.reads.insert(b, ());
    access.withs.insert(a, ());
    let count = world.components.entities_matching_access(&access).len();
    assert_eq!(count, 3);
}

#[test]
fn test_query_without() {
    let (world, _, b, c, _) = four_entities();
    let mut access = QueryAccess::new();
    access.reads.insert(b, ());
    access.withouts.insert(c, ());
    let count = world.components.entities_matching_access(&access).len();
    assert_eq!(count, 1);
}

#[test]
fn test_query_get() {
    let mut world = World::new();
    let a = world.named_id("A");
    let b = world.named_id("B");
    let c = world.named_id("C");
    let entity = spawn(&mut world, &[(a, "A"), (b, "B"), (c, "C")]);
    let components = world.components.entity_components(entity.id()).unwrap();
    assert_eq!(components.len(), 3);
    assert_eq!(components[0].type_id, a);
    assert_eq!(components[1].type_id, b);
    assert_eq!(components[2].type_id, c);
}

#[test]
fn test_query_get_multiple_archetypes() {
    let (world, a, b, c, entities) = four_entities();
    let mut access = QueryAccess::new();
    access.reads.insert(a, ());
    access.reads.insert(b, ());
    access.reads.insert(c, ());
    let matched = world.components.components_matching_access(&access);
    let row = matched.get(&entities[3]).unwrap();
    assert_eq!(row.get(&a).unwrap().type_id, a);
    assert_eq!(row.get(&b).unwrap().type_id, b);
    assert_eq!(row.get(&c).unwrap().type_id, c);
}

#[test]
fn test_query_get_filtered() {
    let mut world = World::new();
    let a = world.named_id("A");
    let b = world.named_id("B");
    let c = world.named_id("C");
    let entity = spawn(&mut world, &[(a, "A"), (b, "B"), (c, "C")]);
    let mut access = QueryAccess::new();
    access.reads.insert(b, ());
    access.withs.insert(a, ());
    let matched = world.components.components_matching_access(&access);
    let row = matched.get(&entity).unwrap();
    assert_eq!(row.get(&b).unwrap().type_id, b);
}

#[test]
fn test_query_get_filtered_multiple_archetypes() {
    let (world, a, b, _, entities) = four_entities();
    let mut access = QueryAccess::new();
    access.reads.insert(b, ());
    access.withs.insert(a, ());
    let matched = world.components.components_matching_access(&access);
    let row = matched.get(&entities[3]).unwrap();
    assert_eq!(row.get(&b).unwrap().type_id, b);
}

#[test]
fn test_query_dynamic() {
    let (world, a, b, c, _) = four_entities();
    let mut access = QueryAccess::new();
    for id in [a, b, c] {
        access.reads.insert(id, ());
    }
    let mut count = 0;
    for _entity in world.components.entities_matching_access(&access) {
        count += 1;
    }
    assert_eq!(count, 2);
}

#[test]
fn test_query_dynamic_ids() {
    let (mut world, _, _, _, _) = four_entities();
    let mut access = QueryAccess::new();
    access.reads.insert(world.named_id("A"), ());
    access.reads.insert(world.named_id("B"), ());
    access.reads.insert(world.named_id("C"), ());
    let count = world.components.entities_matching_access(&access).len();
    assert_eq!(count, 2);
}

#[test]
fn empty_access_matches_every_entity_with_components() {
    let (world, _, _, _, _) = four_entities();
    let access = QueryAccess::new();
    assert_eq!(world.components.entities_matching_access(&access).len(), 4);
}

#[test]
fn write_access_counts_like_read_access() {
    let (world, a, _, c, _) = four_entities();
    let mut access = QueryAccess::new();
    access.writes.insert(a, ());
    access.reads.insert(c, ());
    assert_eq!(world.components.entities_matching_access(&access).len(), 3);
}

#[test]
fn despawned_entity_no_longer_matches() {
    let (mut world, a, b, c, entities) = four_entities();
    world.despawn(entities[0]);
    let mut access = QueryAccess::new();
    access.reads.insert(a, ());
    access.reads.insert(b, ());
    access.reads.insert(c, ());
    let found = world.components.entities_matching_access(&access);
    assert_eq!(found, vec![entities[3]]);
}
