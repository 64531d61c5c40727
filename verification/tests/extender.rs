use dataflow_join::extender::{GraphRelationExtender, PrefixExtender};
use dataflow_join::graph::GraphStore;

fn sample() -> GraphStore {
    // 0 -> 1, 0 -> 2, 0 -> 3, 1 -> 2, 1 -> 3, 2 -> 0, 3 has no edge
    GraphStore::new(vec![0, 3, 5, 6, 6], vec![1, 2, 3, 2, 3, 0]).unwrap()
}

#[test]
fn graph_extender_counts_the_degree() {
    let graph = sample();
    let by_first = GraphRelationExtender::new(&graph, 0);
    let by_second = GraphRelationExtender::new(&graph, 1);
    assert_eq!(by_first.count(&vec![0, 1]), 3);
    assert_eq!(by_second.count(&vec![0, 1]), 2);
    assert_eq!(by_first.count(&vec![2]), 1);
    assert_eq!(by_first.count(&vec![3]), 0);
}

#[test]
fn graph_extender_proposes_the_neighbor_list() {
    let graph = sample();
    let by_first = GraphRelationExtender::new(&graph, 0);
    let by_second = GraphRelationExtender::new(&graph, 1);
    assert_eq!(by_first.propose(&vec![0, 1]), vec![1, 2, 3]);
    assert_eq!(by_second.propose(&vec![0, 1]), vec![2, 3]);
    assert_eq!(by_second.propose(&vec![0, 3]), Vec::<u32>::new());
}

#[test]
fn graph_extender_intersects_in_place() {
    let graph = sample();
    let by_second = GraphRelationExtender::new(&graph, 1);
    let mut candidates = vec![1, 2, 3];
    by_second.intersect(&vec![0, 1], &mut candidates);
    assert_eq!(candidates, vec![2, 3]);
    let mut none_left = vec![1, 3];
    by_second.intersect(&vec![0, 2], &mut none_left);
    assert!(none_left.is_empty());
    let mut from_nothing: Vec<u32> = vec![0, 1, 2, 3];
    by_second.intersect(&vec![0, 3], &mut from_nothing);
    assert!(from_nothing.is_empty());
}

#[test]
fn graph_extender_routes_by_the_endpoint() {
    let graph = sample();
    let by_first = GraphRelationExtender::new(&graph, 0);
    let by_second = GraphRelationExtender::new(&graph, 1);
    assert_eq!(by_first.route(&vec![2, 1]), 2);
    assert_eq!(by_second.route(&vec![2, 1]), 1);
    assert_eq!(by_second.route(&vec![0, 3, 1]), 3);
}

#[test]
fn graph_extender_keeps_its_parts() {
    let graph = sample();
    let extender = GraphRelationExtender::new(&graph, 1);
    assert_eq!(extender.attribute, 1);
    assert_eq!(extender.graph.node_count(), 4);
}

#[test]
fn intersect_changes_what_it_is_handed() {
    let graph = sample();
    let by_first = GraphRelationExtender::new(&graph, 0);
    let mut candidates = vec![0, 1, 2, 3];
    by_first.intersect(&vec![1], &mut candidates);
    assert_eq!(candidates, vec![2, 3]);
}
