use weaver::commands::{Command, Commands};
use weaver::component::Data;
use weaver::entity::Entity;
use weaver::registry::DynamicId;
use weaver::world::{ResourceError, World};

fn data(id: DynamicId, label: &str) -> Data {
    Data { type_id: id, type_label: label.to_string(), field_name: None, fields: Vec::new(), is_clone: false }
}

#[test]
fn resources_are_added_once() {
    let mut world = World::new();
    let id = world.named_id("Time");
    assert_eq!(world.add_dynamic_resource(data(id, "Time")), Ok(()));
    assert_eq!(world.add_dynamic_resource(data(id, "Time")), Err(ResourceError::AlreadyExists));
    assert_eq!(world.dynamic_resource(id).unwrap().type_label, "Time");
    assert_eq!(world.dynamic_resource(id + 1).err(), Some(ResourceError::Missing));
    world.dynamic_resource_mut(id).unwrap().is_clone = true;
    assert!(world.dynamic_resource(id).unwrap().is_clone);
    assert!(world.dynamic_resource_mut(id + 1).is_err());
}

#[test]
fn named_ids_are_stable() {
    let mut world = World::new();
    let a = world.named_id("A");
    assert_eq!(world.named_id("A"), a);
    assert_ne!(world.named_id("B"), a);
}

#[test]
fn created_entities_are_roots() {
    let mut world = World::new();
    let e = world.create_entity();
    assert_eq!(world.entity_graph.roots(), vec![e]);
    assert_eq!(world.components.entity(e.id()), Some(e));
}

#[test]
fn despawn_recursive_removes_the_subtree() {
    let mut world = World::new();
    let id = world.named_id("Tag");
    let parent = world.create_entity();
    let child = world.create_entity();
    let grandchild = world.create_entity();
    let other = world.create_entity();
    for e in [parent, child, grandchild, other] {
        world.add_dynamic_component(&e, data(id, "Tag"));
    }
    assert!(world.add_relation(&parent, &child));
    assert!(world.add_relation(&child, &grandchild));
    world.despawn_recursive(parent);
    assert_eq!(world.components.entity(parent.id()), None);
    assert_eq!(world.components.entity(child.id()), None);
    assert_eq!(world.components.entity(grandchild.id()), None);
    assert_eq!(world.components.entity(other.id()), Some(other));
    assert_eq!(world.entity_graph.entities(), vec![other]);
}

#[test]
fn despawn_leaves_the_children() {
    let mut world = World::new();
    let id = world.named_id("Tag");
    let parent = world.create_entity();
    let child = world.create_entity();
    world.add_dynamic_component(&parent, data(id, "Tag"));
    world.add_relation(&parent, &child);
    world.despawn(parent);
    assert_eq!(world.components.entity(parent.id()), None);
    assert_eq!(world.entity_graph.roots(), vec![child]);
}

#[test]
fn commands_record_what_they_cannot_do() {
    let mut world = World::new();
    let id = world.named_id("Tag");
    let outside = world.create_entity();
    world.add_dynamic_component(&outside, data(id, "Tag"));
    let mut commands = Commands::new(&world);
    commands.despawn(outside);
    commands.add_child(outside, Entity::new(99));
    commands.remove_child(outside, Entity::new(99));
    commands.add_sibling(outside, Entity::new(98));
    commands.remove_sibling(outside, Entity::new(98));
    let _ = Command::Despawn(outside);
}

#[test]
fn commands_despawn_recursive_of_an_outside_entity_is_recorded() {
    let mut world = World::new();
    let parent = world.create_entity();
    let child = world.create_entity();
    world.add_relation(&parent, &child);
    let mut commands = Commands::new(&world);
    commands.despawn_recursive(parent);
    assert_eq!(world.components.entity(parent.id()), Some(parent));
}

#[test]
fn commands_despawn_their_own_entities() {
    let world = World::new();
    let mut commands = Commands::new(&world);
    let e = Entity::new(1);
    commands.despawn(e);
    commands.despawn_recursive(e);
}

#[test]
fn finalize_carries_recorded_changes_to_the_world() {
    let mut world = World::new();
    let id = world.named_id("Tag");
    let parent = world.create_entity();
    let child = world.create_entity();
    let other = world.create_entity();
    world.add_dynamic_component(&other, data(id, "Tag"));
    let mut commands = Commands::new(&world);
    commands.add_child(parent, child);
    commands.despawn(other);
    commands.finalize(&mut world);
    assert_eq!(world.entity_graph.get_children(parent), vec![child]);
    assert_eq!(world.components.entity(other.id()), None);
    assert_eq!(world.entity_graph.roots(), vec![parent]);

    let mut commands = Commands::new(&world);
    commands.despawn_recursive(parent);
    commands.finalize(&mut world);
    assert!(world.entity_graph.entities().is_empty());
}

#[test]
fn finalize_removes_a_recorded_child() {
    let mut world = World::new();
    let parent = world.create_entity();
    let child = world.create_entity();
    world.add_relation(&parent, &child);
    let mut commands = Commands::new(&world);
    commands.remove_child(parent, child);
    commands.finalize(&mut world);
    assert!(world.entity_graph.get_children(parent).is_empty());
    let mut roots = world.entity_graph.roots();
    roots.sort();
    let mut expected = vec![parent, child];
    expected.sort();
    assert_eq!(roots, expected);
}

#[test]
fn finalize_brings_spawned_entities_with_their_components() {
    let mut world = World::new();
    let id = world.named_id("Tag");
    let mut commands = Commands::new(&world);
    let kept = commands.spawn_dynamic(vec![data(id, "Tag")], vec![id]);
    let dropped = commands.spawn_dynamic(vec![data(id, "Tag")], vec![id]);
    commands.despawn_recursive(dropped);
    commands.finalize(&mut world);
    assert_eq!(world.components.entity(kept.id()), Some(kept));
    let row = world.components.entity_components(kept.id()).unwrap();
    assert_eq!(row.len(), 1);
    assert_eq!(row[0].type_label, "Tag");
    assert_eq!(world.components.entity(dropped.id()), None);
    assert!(world.components.entity_components(dropped.id()).is_none());
}

#[test]
fn finalize_skips_recorded_sibling_changes() {
    let mut world = World::new();
    let a = world.create_entity();
    let b = world.create_entity();
    let mut commands = Commands::new(&world);
    commands.add_sibling(a, b);
    commands.remove_sibling(a, b);
    commands.add_child(a, b);
    commands.finalize(&mut world);
    assert_eq!(world.entity_graph.get_children(a), vec![b]);
}

#[test]
fn a_despawned_world_entity_loses_its_components_on_finalize() {
    let mut world = World::new();
    let id = world.named_id("Tag");
    let e = world.create_entity();
    world.add_dynamic_component(&e, data(id, "Tag"));
    let mut commands = Commands::new(&world);
    commands.despawn(e);
    commands.finalize(&mut world);
    assert!(world.components.entity_components(e.id()).is_none());
    assert_eq!(world.components.entity(e.id()), None);
}

#[test]
fn dynamic_id_of_a_builtin_type_is_its_named_id() {
    let mut world = World::new();
    let id = world.dynamic_id("u32");
    assert_eq!(world.named_id("u32"), id);
    assert_eq!(world.dynamic_id("u32"), id);
}
