use weaver::entity::Entity;
use weaver::scene::{Node, Scene};

fn e(id: u32) -> Entity {
    Entity::new(id)
}

#[test]
fn new_scene_holds_its_root() {
    let scene: Scene<u32> = Scene::new(e(1));
    assert_eq!(scene.root_entity(), e(1));
    let root = scene.root();
    assert_eq!(root.entity, e(1));
    assert_eq!(root.scene_index, 0);
    assert_eq!(scene.find_node(e(1)), Some(root));
    assert_eq!(scene.find_node(e(2)), None);
    assert_eq!(scene.parent_of(root), None);
    assert!(scene.siblings_of(root).is_none());
    assert!(scene.children_of(root).is_empty());
}

#[test]
fn added_nodes_get_their_own_indices() {
    let mut scene: Scene<u32> = Scene::new(e(1));
    let a = scene.add_node(e(2));
    let b = scene.add_node(e(3));
    assert_eq!(a, Node { entity: e(2), scene_index: 1 });
    assert_eq!(b, Node { entity: e(3), scene_index: 2 });
    assert_eq!(scene.find_node(e(3)), Some(b));
}

#[test]
fn relationships_link_parents_children_and_siblings() {
    let mut scene: Scene<u32> = Scene::new(e(1));
    let root = scene.root();
    let a = scene.add_node(e(2));
    let b = scene.add_node(e(3));
    let c = scene.add_node(e(4));
    scene.add_relationship(root, a, 10);
    scene.add_relationship(root, b, 20);
    scene.add_relationship(a, c, 30);

    let mut children = scene.children_of(root);
    children.sort();
    assert_eq!(children, vec![a, b]);
    assert_eq!(scene.parent_of(a), Some(root));
    assert_eq!(scene.parent_of(c), Some(a));
    assert_eq!(scene.siblings_of(a), Some(vec![b]));
    assert_eq!(scene.siblings_of(c), Some(vec![]));

    let mut weights: Vec<u32> = scene.child_relationships_of(root).into_iter().copied().collect();
    weights.sort();
    assert_eq!(weights, vec![10, 20]);
    assert_eq!(scene.parent_relationship_of(c), Some(&30));
    assert_eq!(scene.parent_relationship_of(root), None);
}

#[test]
fn removing_a_relationship_returns_its_weight() {
    let mut scene: Scene<u32> = Scene::new(e(1));
    let root = scene.root();
    let a = scene.add_node(e(2));
    scene.add_relationship(root, a, 7);
    assert_eq!(scene.remove_relationship(root, a), Some(7));
    assert_eq!(scene.remove_relationship(root, a), None);
    assert_eq!(scene.parent_of(a), None);
    assert!(scene.children_of(root).is_empty());
}

#[test]
fn removing_a_node_drops_its_edges() {
    let mut scene: Scene<u32> = Scene::new(e(1));
    let root = scene.root();
    let a = scene.add_node(e(2));
    let b = scene.add_node(e(3));
    scene.add_relationship(root, a, 1);
    scene.add_relationship(a, b, 2);
    scene.remove_node(a);
    assert_eq!(scene.find_node(e(2)), None);
    assert!(scene.children_of(root).is_empty());
    assert_eq!(scene.parent_of(b), None);
    assert_eq!(scene.parent_relationship_of(b), None);
    let d = scene.add_node(e(5));
    assert_eq!(d.scene_index, a.scene_index);
    scene.add_relationship(root, d, 9);
    assert_eq!(scene.child_relationships_of(root), vec![&9]);
}
