use std::rc::Rc;

use dataflow_join::expand::expand;
use dataflow_join::extender::GraphRelationExtender;
use dataflow_join::graph::GraphStore;
use dataflow_join::join::{GenericJoinExt, StreamPrefixExtender, TestExt};

fn store(lists: &[&[u32]]) -> GraphStore {
    let mut offsets = vec![0u64];
    let mut edges = Vec::new();
    for list in lists {
        edges.extend_from_slice(list);
        offsets.push(edges.len() as u64);
    }
    GraphStore::new(offsets, edges).unwrap()
}

fn sample() -> GraphStore {
    store(&[&[1, 2, 3], &[2, 3], &[3], &[], &[1, 2, 3], &[0, 4]])
}

fn square() -> GraphStore {
    // 0 -> 1, 0 -> 2, 1 -> 2, 2 -> 0
    store(&[&[1, 2], &[2], &[0], &[]])
}

#[test]
fn count_keeps_the_smaller_count() {
    let graph = sample();
    let by_first = Rc::new(GraphRelationExtender::new(&graph, 0));
    let batch = vec![(vec![0u32], 5u64, 7u64), (vec![1], 5, 7), (vec![2], 1, 7)];
    let out = by_first.count(batch, 9);
    assert_eq!(out, vec![(vec![0], 3, 9), (vec![1], 2, 9), (vec![2], 1, 7)]);
}

#[test]
fn count_ties_keep_the_earlier_owner() {
    let graph = sample();
    let by_first = Rc::new(GraphRelationExtender::new(&graph, 0));
    let out = by_first.count(vec![(vec![0u32], 3u64, 1u64)], 2);
    assert_eq!(out, vec![(vec![0], 3, 1)]);
}

#[test]
fn count_drops_prefixes_without_proposals() {
    let graph = sample();
    let by_first = Rc::new(GraphRelationExtender::new(&graph, 0));
    let batch = vec![(vec![3u32], 5u64, 0u64), (vec![2], 5, 0), (vec![3], 1, 0)];
    let out = by_first.count(batch, 1);
    assert_eq!(out, vec![(vec![2], 1, 1)]);
}

#[test]
fn count_on_an_empty_batch_is_empty() {
    let graph = sample();
    let by_first = Rc::new(GraphRelationExtender::new(&graph, 0));
    assert!(by_first.count(Vec::new(), 0).is_empty());
}

#[test]
fn count_starts_from_the_largest_count() {
    let graph = sample();
    let by_first = Rc::new(GraphRelationExtender::new(&graph, 0));
    let out = by_first.count(vec![(vec![5u32], u64::MAX, 0u64)], 3);
    assert_eq!(out, vec![(vec![5], 2, 3)]);
}

#[test]
fn propose_pairs_prefixes_with_proposals() {
    let graph = sample();
    let by_first = Rc::new(GraphRelationExtender::new(&graph, 0));
    let out = by_first.propose(vec![vec![5u32], vec![3], vec![1], vec![5]]);
    assert_eq!(
        out,
        vec![(vec![5], vec![0, 4]), (vec![1], vec![2, 3]), (vec![5], vec![0, 4])]
    );
}

#[test]
fn intersect_filters_and_drops_emptied_prefixes() {
    let graph = sample();
    let by_first = Rc::new(GraphRelationExtender::new(&graph, 0));
    let batch = vec![
        (vec![1u32], vec![1u32, 2, 4]),
        (vec![2], vec![0, 1, 2]),
        (vec![0], vec![0, 3, 5]),
        (vec![3], vec![0, 1, 2, 3]),
    ];
    let out = by_first.intersect(batch);
    assert_eq!(out, vec![(vec![1], vec![2]), (vec![0], vec![3])]);
}

#[test]
fn extend_proposes_from_the_smallest_count() {
    let graph = sample();
    let by_first = Rc::new(GraphRelationExtender::new(&graph, 0));
    let by_second = Rc::new(GraphRelationExtender::new(&graph, 1));
    // [0, 1] has counts 3 and 2 and goes to the second relation,
    // [1, 0] has counts 2 and 3 and goes to the first:
    // the shares come owner by owner
    let out = vec![vec![0u32, 1], vec![1, 0]].extend(&vec![by_first, by_second]);
    assert_eq!(out, vec![(vec![1, 0], vec![2, 3]), (vec![0, 1], vec![2, 3])]);
}

#[test]
fn extend_breaks_ties_by_the_lowest_index() {
    let graph = sample();
    let by_first = Rc::new(GraphRelationExtender::new(&graph, 0));
    let by_second = Rc::new(GraphRelationExtender::new(&graph, 1));
    // [0, 1] goes to the second relation; for [0, 4] both report 3, so it
    // goes to the first and comes out before [0, 1]
    let out = vec![vec![0u32, 1], vec![0, 4]].extend(&vec![by_first, by_second]);
    assert_eq!(out, vec![(vec![0, 4], vec![1, 2, 3]), (vec![0, 1], vec![2, 3])]);
}

#[test]
fn extend_drops_prefixes_that_a_relation_counts_as_zero() {
    let graph = sample();
    let by_first = Rc::new(GraphRelationExtender::new(&graph, 0));
    let by_second = Rc::new(GraphRelationExtender::new(&graph, 1));
    let out = vec![vec![0u32, 3], vec![3, 0], vec![4, 0]].extend(&vec![by_first, by_second]);
    assert_eq!(out, vec![(vec![4, 0], vec![1, 2, 3])]);
}

#[test]
fn extend_drops_prefixes_whose_candidates_run_out() {
    let graph = sample();
    let by_first = Rc::new(GraphRelationExtender::new(&graph, 0));
    let by_second = Rc::new(GraphRelationExtender::new(&graph, 1));
    // 2 -> 3 and 5 -> 0, 5 -> 4 share nothing
    let out = vec![vec![2u32, 5], vec![5, 2], vec![1, 2]].extend(&vec![by_first, by_second]);
    assert_eq!(out, vec![(vec![1, 2], vec![3])]);
}

#[test]
fn extend_filters_by_every_relation() {
    let graph = sample();
    let relations = vec![
        Rc::new(GraphRelationExtender::new(&graph, 0)),
        Rc::new(GraphRelationExtender::new(&graph, 1)),
        Rc::new(GraphRelationExtender::new(&graph, 2)),
    ];
    // neighbors of 0: 1 2 3, of 4: 1 2 3, of 1: 2 3, of 2: 3
    let out = vec![vec![0u32, 4, 1], vec![0, 1, 2], vec![0, 4, 5]].extend(&relations);
    assert_eq!(out, vec![(vec![0, 4, 1], vec![2, 3]), (vec![0, 1, 2], vec![3])]);
}

#[test]
fn extend_keeps_repeated_prefixes_apart() {
    let graph = sample();
    let by_first = Rc::new(GraphRelationExtender::new(&graph, 0));
    let by_second = Rc::new(GraphRelationExtender::new(&graph, 1));
    let out =
        vec![vec![1u32, 2], vec![1, 2], vec![1, 2]].extend(&vec![by_first, by_second]);
    assert_eq!(out, vec![(vec![1, 2], vec![3]), (vec![1, 2], vec![3]), (vec![1, 2], vec![3])]);
}

#[test]
fn extend_without_extenders_is_empty() {
    let none: Vec<Rc<GraphRelationExtender>> = Vec::new();
    let out = vec![vec![0u32], vec![1]].extend(&none);
    assert!(out.is_empty());
}

#[test]
fn extend_without_prefixes_is_empty() {
    let graph = sample();
    let by_first = Rc::new(GraphRelationExtender::new(&graph, 0));
    let out = Vec::<Vec<u32>>::new().extend(&vec![by_first]);
    assert!(out.is_empty());
}

#[test]
fn extend_with_one_extender_returns_its_proposals() {
    let graph = sample();
    let by_first = Rc::new(GraphRelationExtender::new(&graph, 0));
    let out = vec![vec![5u32], vec![3], vec![2]].extend(&vec![by_first]);
    assert_eq!(out, vec![(vec![5], vec![0, 4]), (vec![2], vec![3])]);
}

#[test]
fn extend_is_reproducible() {
    let graph = sample();
    let prefixes: Vec<Vec<u32>> =
        (0..6u32).flat_map(|a| (0..6u32).map(move |b| vec![a, b])).collect();
    let first = prefixes.clone().extend(&vec![
        Rc::new(GraphRelationExtender::new(&graph, 0)),
        Rc::new(GraphRelationExtender::new(&graph, 1)),
    ]);
    let second = prefixes.clone().extend(&vec![
        Rc::new(GraphRelationExtender::new(&graph, 0)),
        Rc::new(GraphRelationExtender::new(&graph, 1)),
    ]);
    assert_eq!(first, second);
    for (prefix, candidates) in &first {
        let a = graph.edges(prefix[0] as usize);
        let b = graph.edges(prefix[1] as usize);
        let shared: Vec<u32> = a.iter().copied().filter(|x| b.contains(x)).collect();
        assert_eq!(candidates, &shared);
        assert!(!candidates.is_empty());
    }
    let alive = prefixes
        .iter()
        .filter(|p| {
            let a = graph.edges(p[0] as usize);
            let b = graph.edges(p[1] as usize);
            a.iter().any(|x| b.contains(x))
        })
        .count();
    assert_eq!(first.len(), alive);
}

#[test]
fn extend_on_graph_edges_closes_triangles() {
    let graph = square();
    let by_first = Rc::new(GraphRelationExtender::new(&graph, 0));
    let by_second = Rc::new(GraphRelationExtender::new(&graph, 1));
    let edges: Vec<Vec<u32>> = vec![vec![0, 1], vec![0, 2], vec![1, 2], vec![2, 0]];
    let out = edges.extend(&vec![by_first, by_second]);
    assert_eq!(out, vec![(vec![0, 1], vec![2])]);
}

#[test]
fn expand_appends_each_candidate() {
    let batch = vec![(vec![0u32, 1], vec![2u32, 5]), (vec![3, 4], vec![9])];
    assert_eq!(expand(&batch), vec![vec![0, 1, 2], vec![0, 1, 5], vec![3, 4, 9]]);
}

#[test]
fn expand_of_nothing_is_nothing() {
    assert!(expand(&Vec::new()).is_empty());
    let without_candidates = vec![(vec![1u32], Vec::<u32>::new())];
    assert!(expand(&without_candidates).is_empty());
}

#[test]
fn expand_rows_are_one_longer() {
    let batch = vec![(vec![7u32, 8, 9], vec![1u32, 2, 3])];
    for row in expand(&batch) {
        assert_eq!(row.len(), 4);
        assert_eq!(&row[..3], &[7, 8, 9]);
    }
}

#[test]
fn layers_enumerate_triangles() {
    let graph = square();
    let seeds: Vec<Vec<u32>> = (0..graph.node_count() as u32).map(|a| vec![a]).collect();
    let first = vec![Rc::new(GraphRelationExtender::new(&graph, 0))];
    let edges = expand(&seeds.extend(&first));
    assert_eq!(edges, vec![vec![0, 1], vec![0, 2], vec![1, 2], vec![2, 0]]);
    let second = vec![
        Rc::new(GraphRelationExtender::new(&graph, 0)),
        Rc::new(GraphRelationExtender::new(&graph, 1)),
    ];
    let triangles = expand(&edges.extend(&second));
    assert_eq!(triangles, vec![vec![0, 1, 2]]);
}

#[test]
fn emptied_prefixes_yield_no_rows_in_later_layers() {
    // node 2 has the single neighbor 0, and 0 and 2 share no neighbor: the
    // prefix [2, 0] is dropped in the second layer and cannot come back
    let graph = square();
    let second = vec![
        Rc::new(GraphRelationExtender::new(&graph, 0)),
        Rc::new(GraphRelationExtender::new(&graph, 1)),
    ];
    let rows = expand(&vec![vec![2u32, 0]].extend(&second));
    assert!(rows.is_empty());
    let third = vec![Rc::new(GraphRelationExtender::new(&graph, 2))];
    let later = expand(&rows.extend(&third));
    assert!(later.is_empty());
}

#[test]
fn test_returns_the_prefixes_unchanged() {
    let graph = sample();
    let by_first = Rc::new(GraphRelationExtender::new(&graph, 0));
    let out = vec![vec![3u32], vec![1], vec![2]].test(&vec![by_first]);
    assert_eq!(out, vec![vec![3], vec![1], vec![2]]);
}

#[test]
fn the_traits_are_reachable_from_the_crate_root() {
    let graph = dataflow_join::GraphStore::new(vec![0, 1, 1], vec![1]).unwrap();
    let relation = Rc::new(dataflow_join::GraphRelationExtender::new(&graph, 0));
    let counted = dataflow_join::StreamPrefixExtender::count(
        &relation,
        vec![(vec![0u32], u64::MAX, 0u64)],
        0,
    );
    assert_eq!(counted, vec![(vec![0], 1, 0)]);
    let out = dataflow_join::GenericJoinExt::extend(vec![vec![0u32]], &vec![relation.clone()]);
    assert_eq!(out, vec![(vec![0], vec![1])]);
    assert_eq!(dataflow_join::PrefixExtender::count(&*relation, &vec![0]), 1);
    let same = dataflow_join::TestExt::test(vec![vec![1u32]], &vec![relation]);
    assert_eq!(same, vec![vec![1]]);
    assert_eq!(graph.neighbors(2), Err(dataflow_join::GraphError::OutOfRange));
}
