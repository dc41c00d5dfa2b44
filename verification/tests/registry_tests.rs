use weaver::registry::{Registry, SortedMap, TypeIdHasher};

#[test]
fn sorted_map_sorts_and_finds() {
    let map = SortedMap::new(vec![(5, "five"), (1, "one"), (3, "three")]);
    assert_eq!(map.len(), 3);
    assert!(!map.is_empty());
    assert_eq!(map.get(&3), Some(&"three"));
    assert_eq!(map.get(&4), None);
    assert!(map.contains_key(&1));
    assert!(!map.contains_key(&2));
    let keys: Vec<u32> = map.iter().iter().map(|(k, _)| *k).collect();
    assert_eq!(keys, vec![1, 3, 5]);
}

#[test]
fn sorted_map_get_mut_changes_the_value() {
    let mut map = SortedMap::new(vec![(2, 20u64), (1, 10)]);
    *map.get_mut(&2).unwrap() = 21;
    assert_eq!(map.get(&2), Some(&21));
    assert!(map.get_mut(&7).is_none());
    let (keys, values) = map.iter_mut();
    assert_eq!(keys, &[1, 2]);
    values[0] = 11;
    assert_eq!(map.get(&1), Some(&11));
}

#[test]
fn empty_sorted_map() {
    let map: SortedMap<u8> = SortedMap::new(Vec::new());
    assert!(map.is_empty());
    assert_eq!(map.len(), 0);
    assert_eq!(map.get(&0), None);
}

#[test]
fn registry_gives_a_name_the_same_id_again() {
    let mut registry = Registry::new();
    let first = registry.get_named("Position");
    let second = registry.get_named("Velocity");
    assert_ne!(first, second);
    assert_eq!(registry.get_named("Position"), first);
    let fresh = registry.create();
    assert_ne!(fresh, first);
    assert_ne!(fresh, second);
}

#[test]
fn registry_knows_the_builtin_types() {
    let mut registry = Registry::new();
    let before = registry.create();
    let bool_id = registry.get_named("bool");
    let after = registry.create();
    assert!(bool_id < before);
    assert_eq!(after, before + 1);
}

#[test]
fn empty_registry_starts_at_one() {
    let mut registry = Registry::empty();
    assert_eq!(registry.create(), 1);
    assert_eq!(registry.get_named("A"), 2);
    assert_eq!(registry.create(), 3);
}

#[test]
fn split_registry_hands_out_the_same_ids() {
    let mut registry = Registry::empty();
    registry.get_named("A");
    let mut copy = registry.split();
    assert_eq!(copy.get_named("A"), registry.get_named("A"));
    assert_eq!(copy.create(), registry.create());
}

#[test]
fn merge_takes_the_other_names_and_next_id() {
    let mut registry = Registry::empty();
    let a = registry.get_named("A");
    let mut other = registry.split();
    let b = other.get_named("B");
    let next = other.create() + 1;
    registry.merge(&other);
    assert_eq!(registry.get_named("A"), a);
    assert_eq!(registry.get_named("B"), b);
    assert_eq!(registry.create(), next);
}

#[test]
fn type_id_hasher_holds_the_integer_written() {
    let mut hasher = TypeIdHasher::new();
    assert_eq!(hasher.finish(), 0);
    hasher.write_u64(0xDEAD_BEEF);
    assert_eq!(hasher.finish(), 0xDEAD_BEEF);
    let mut wide = TypeIdHasher::new();
    wide.write_u128(0x1_0000_0000_0000_0002);
    assert_eq!(wide.finish(), 2);
}

#[test]
fn type_id_hasher_hashes_bytes() {
    let mut empty = TypeIdHasher::new();
    empty.write(&[]);
    assert_eq!(empty.finish(), 0);
    let mut one = TypeIdHasher::new();
    one.write(&[7]);
    assert_ne!(one.finish(), 0);
}

#[test]
fn new_registry_numbers_builtins_in_order() {
    let mut registry = Registry::new();
    assert_eq!(registry.get_named("()"), 1);
    assert_eq!(registry.get_named("u8"), 3);
    assert_eq!(registry.get_named("Quat"), 24);
    assert_eq!(registry.create(), 25);
}

#[test]
fn a_new_registry_has_fresh_ids() {
    assert!(Registry::new().has_fresh_id());
}

#[test]
fn get_static_names_types_once() {
    let mut registry = Registry::new();
    assert_eq!(registry.get_static("u8"), registry.get_named("u8"));
    assert_eq!(registry.get_static("u8"), 3);
    let before = registry.get_named("Position");
    let fresh = registry.get_static("Position");
    assert_ne!(fresh, before);
    assert_eq!(registry.get_named("Position"), fresh);
    assert_eq!(registry.get_static("Position"), fresh);
}
