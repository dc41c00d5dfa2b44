use weaver::system::{SystemAccess, SystemGraph, SystemGraphError};

fn access(read: &[u32], written: &[u32]) -> SystemAccess {
    SystemAccess { components_read: read.to_vec(), components_written: written.to_vec() }
}

#[test]
fn systems_without_dependencies_have_no_cycle() {
    let mut graph = SystemGraph::new();
    let a = graph.add_dynamic_system(access(&[], &[]));
    let b = graph.add_dynamic_system(access(&[], &[]));
    assert!(graph.has_system(a));
    assert!(graph.has_system(b));
    assert!(!graph.has_system(b + 1));
    assert_eq!(graph.detect_cycles(), None);
}

#[test]
fn a_dependency_cycle_is_found() {
    let mut graph = SystemGraph::new();
    let a = graph.add_dynamic_system(access(&[], &[]));
    let b = graph.add_system_after(access(&[], &[]), a);
    graph.add_dependency(b, a);
    let path = graph.detect_cycles().unwrap();
    let last = *path.last().unwrap();
    assert!(last == a || last == b);
}

#[test]
fn a_self_dependency_is_a_cycle() {
    let mut graph = SystemGraph::new();
    let a = graph.add_dynamic_system(access(&[], &[]));
    graph.add_dependency(a, a);
    assert_eq!(graph.detect_cycles(), Some(vec![a, a]));
}

#[test]
fn a_chain_has_no_cycle() {
    let mut graph = SystemGraph::new();
    let a = graph.add_dynamic_system(access(&[], &[]));
    let b = graph.add_system_after(access(&[], &[]), a);
    let c = graph.add_system_before(access(&[], &[]), a);
    let _ = (b, c);
    assert_eq!(graph.detect_cycles(), None);
}

#[test]
fn writers_of_a_component_run_in_order() {
    let mut graph = SystemGraph::new();
    let a = graph.add_dynamic_system(access(&[], &[7]));
    let b = graph.add_dynamic_system(access(&[], &[7]));
    let c = graph.add_dynamic_system(access(&[], &[7, 7]));
    graph.autodetect_dependencies();
    assert_eq!(graph.detect_cycles(), None);
    graph.add_dependency(c, a);
    let path = graph.detect_cycles().unwrap();
    assert!(path.contains(&b));
}

#[test]
fn readers_run_after_writers() {
    let mut graph = SystemGraph::new();
    let reader = graph.add_dynamic_system(access(&[3], &[]));
    let writer = graph.add_dynamic_system(access(&[], &[3]));
    graph.autodetect_dependencies();
    assert_eq!(graph.detect_cycles(), None);
    graph.add_dependency(reader, writer);
    assert!(graph.detect_cycles().is_some());
}

#[test]
fn a_system_that_reads_what_it_writes_does_not_depend_on_itself() {
    let mut graph = SystemGraph::new();
    let _a = graph.add_dynamic_system(access(&[3], &[3]));
    graph.autodetect_dependencies();
    assert_eq!(graph.detect_cycles(), None);
}

#[test]
fn autodetect_twice_adds_nothing_new() {
    let mut graph = SystemGraph::new();
    let _a = graph.add_dynamic_system(access(&[1], &[2]));
    let _b = graph.add_dynamic_system(access(&[2], &[1]));
    graph.autodetect_dependencies();
    assert!(graph.detect_cycles().is_some());
    graph.autodetect_dependencies();
    assert!(graph.detect_cycles().is_some());
}

#[test]
fn run_order_of_an_empty_graph_is_empty() {
    let graph = SystemGraph::new();
    assert_eq!(graph.run_order(), Ok(vec![]));
}

#[test]
fn run_order_starts_from_independent_systems() {
    let mut graph = SystemGraph::new();
    let a = graph.add_dynamic_system(access(&[], &[]));
    let b = graph.add_system_after(access(&[], &[]), a);
    let c = graph.add_dynamic_system(access(&[], &[]));
    let d = graph.add_system_after(access(&[], &[]), b);
    assert_eq!(graph.run_order(), Ok(vec![a, c, b, d]));
}

#[test]
fn run_order_visits_each_system_once() {
    let mut graph = SystemGraph::new();
    let a = graph.add_dynamic_system(access(&[], &[]));
    let b = graph.add_system_after(access(&[], &[]), a);
    let c = graph.add_system_after(access(&[], &[]), a);
    graph.add_dependency(b, c);
    let order = graph.run_order().unwrap();
    assert_eq!(order.len(), 3);
    assert_eq!(order[0], a);
    let mut sorted = order.clone();
    sorted.sort();
    assert_eq!(sorted, vec![a, b, c]);
}

#[test]
fn run_order_refuses_a_cycle() {
    let mut graph = SystemGraph::new();
    let a = graph.add_dynamic_system(access(&[], &[]));
    let b = graph.add_system_after(access(&[], &[]), a);
    graph.add_dependency(b, a);
    assert_eq!(graph.run_order(), Err(SystemGraphError::DependencyCycle));
}
