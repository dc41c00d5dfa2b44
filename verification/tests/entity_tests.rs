use weaver::entity::Entity;
use weaver::entity_graph::EntityGraph;

fn e(id: u32) -> Entity {
    Entity::new(id)
}

#[test]
fn entity_packs_generation_above_id() {
    let entity = Entity::new_with_generation(7, 3);
    assert_eq!(entity.as_u64(), (3u64 << 32) | 7);
    assert_eq!(Entity::from_u64(entity.as_u64()), entity);
    assert_eq!(Entity::from_u64(0x0000_0005_0000_0009), Entity::new_with_generation(9, 5));
}

#[test]
fn entity_accessors() {
    let entity = Entity::new(42);
    assert_eq!(entity.id(), 42);
    assert_eq!(entity.generation(), 0);
    let placeholder = Entity::placeholder();
    assert_eq!(placeholder.id(), u32::MAX);
    assert_eq!(placeholder.generation(), u32::MAX);
}

#[test]
fn add_relation_reports_new_relations_only() {
    let mut graph = EntityGraph::default();
    assert!(graph.add_relation(e(1), e(2)));
    assert!(!graph.add_relation(e(1), e(2)));
    assert_eq!(graph.get_children(e(1)), vec![e(2)]);
    assert_eq!(graph.get_parent(e(2)), Some(e(1)));
    assert_eq!(graph.get_parent(e(1)), None);
}

#[test]
fn add_entity_adds_a_root() {
    let mut graph = EntityGraph::default();
    graph.add_entity(e(3));
    graph.add_entity(e(3));
    assert_eq!(graph.entities(), vec![e(3)]);
    assert_eq!(graph.roots(), vec![e(3)]);
    assert!(graph.get_children(e(3)).is_empty());
}

#[test]
fn remove_relation_undoes_add_relation() {
    let mut graph = EntityGraph::default();
    graph.add_relation(e(1), e(2));
    graph.remove_relation(e(1), e(2));
    assert!(graph.get_children(e(1)).is_empty());
    assert_eq!(graph.get_parent(e(2)), None);
    let mut entities = graph.entities();
    entities.sort();
    assert_eq!(entities, vec![e(1), e(2)]);
    assert!(graph.add_relation(e(1), e(2)));
}

#[test]
fn remove_entity_drops_its_relations() {
    let mut graph = EntityGraph::default();
    graph.add_relation(e(1), e(2));
    graph.add_relation(e(2), e(3));
    graph.remove_entity(e(2));
    assert!(graph.get_children(e(1)).is_empty());
    assert_eq!(graph.get_parent(e(3)), None);
    let mut roots = graph.roots();
    roots.sort();
    assert_eq!(roots, vec![e(1), e(3)]);
}

#[test]
fn roots_are_the_entities_without_parents() {
    let mut graph = EntityGraph::default();
    graph.add_relation(e(1), e(2));
    graph.add_relation(e(1), e(3));
    graph.add_relation(e(4), e(3));
    let mut roots = graph.roots();
    roots.sort();
    assert_eq!(roots, vec![e(1), e(4)]);
}

#[test]
fn get_all_children_walks_down() {
    let mut graph = EntityGraph::default();
    graph.add_relation(e(1), e(2));
    graph.add_relation(e(2), e(3));
    graph.add_relation(e(2), e(4));
    graph.add_relation(e(5), e(6));
    let mut below = graph.get_all_children(e(1));
    below.sort();
    assert_eq!(below, vec![e(2), e(3), e(4)]);
    assert!(graph.get_all_children(e(4)).is_empty());
    assert!(graph.get_all_children(e(99)).is_empty());
}

#[test]
fn get_all_children_lists_a_shared_child_once_per_path() {
    let mut graph = EntityGraph::default();
    graph.add_relation(e(1), e(2));
    graph.add_relation(e(1), e(3));
    graph.add_relation(e(2), e(4));
    graph.add_relation(e(3), e(4));
    let mut below = graph.get_all_children(e(1));
    below.sort();
    assert_eq!(below, vec![e(2), e(3), e(4), e(4)]);
}

#[test]
fn get_all_parents_walks_up() {
    let mut graph = EntityGraph::default();
    graph.add_relation(e(1), e(2));
    graph.add_relation(e(2), e(3));
    graph.add_relation(e(4), e(3));
    let mut above = graph.get_all_parents(e(3));
    above.sort();
    assert_eq!(above, vec![e(1), e(2), e(4)]);
    assert!(graph.get_all_parents(e(1)).is_empty());
}

#[test]
fn get_all_relations_of_an_unrelated_entity_is_empty() {
    let mut graph = EntityGraph::default();
    graph.add_entity(e(1));
    graph.add_relation(e(2), e(3));
    assert!(graph.get_all_relations(e(1)).is_empty());
    assert!(graph.get_all_relations(e(9)).is_empty());
}

#[test]
fn relations_tell_generations_apart() {
    let mut graph = EntityGraph::default();
    let old = Entity::new_with_generation(1, 0);
    let new = Entity::new_with_generation(1, 1);
    graph.add_relation(old, e(2));
    assert!(graph.get_children(new).is_empty());
    assert_eq!(graph.get_children(old), vec![e(2)]);
}

#[test]
fn duplicate_is_an_independent_copy() {
    let mut graph = EntityGraph::default();
    graph.add_relation(e(1), e(2));
    let mut copy = graph.duplicate();
    copy.add_relation(e(2), e(3));
    assert!(graph.get_children(e(2)).is_empty());
    assert_eq!(copy.get_children(e(2)), vec![e(3)]);
    assert_eq!(copy.get_children(e(1)), vec![e(2)]);
}

#[test]
fn entity_usize_form_matches_u64_form() {
    let entity = Entity::new_with_generation(11, 2);
    assert_eq!(entity.as_usize() as u64, entity.as_u64());
    assert_eq!(Entity::from_usize(entity.as_usize()), entity);
    assert_eq!(Entity::from_usize(5), Entity::new(5));
}
