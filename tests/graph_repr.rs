use std::collections::VecDeque;

use graph_engine::graph::{Cyclic, Directed, Graph, GraphError, Undirected};
use graph_engine::graph_repr::{BTreeRepr, DynRepr, GraphRepr, HashRepr, StaticRepr};
use graph_engine::traits::{
    AddEdge, AddNode, AreAdjacentEdges, AreAdjacentNodes, ClearEdges, ClearNodes, ContainsEdge,
    ContainsNode, GetEdge, GetNode, IsChildNode, IsComplete, IsEmpty, IsImproperSubgraph, IsNull,
    IsProperSubgraph, IsSpanningSubgraph, IsSubgraph, IsTrivial, IterEdges, IterNodes, IterPair,
    Order, RemoveEdge, RemoveNode, Size,
};

type G<R> = Graph<Directed, Cyclic, u32, u8, R>;

fn sorted(mut v: Vec<usize>) -> Vec<usize> {
    v.sort();
    v
}

fn exercise<R: GraphRepr<u32, u8>>() {
    let mut g = G::<R>::new();
    assert!(g.is_null());
    assert!(!g.is_empty());
    assert_eq!(g.order(), 0);

    for id in 0..4 {
        g.add_node(id, 10 * id as u32).unwrap();
    }
    assert!(!g.is_null());
    assert!(g.is_empty());
    assert_eq!(g.get_node(2), Some(&20));
    g.add_node(2, 99).unwrap();
    assert_eq!(g.get_node(2), Some(&99));
    assert_eq!(g.order(), 4);

    g.add_edge(0, 1, 1).unwrap();
    g.add_edge(1, 2, 2).unwrap();
    g.add_edge(2, 0, 3).unwrap();
    g.add_edge(2, 3, 4).unwrap();
    assert_eq!(g.add_edge(0, 7, 5), Err(GraphError::EdgeEndpointMissing));
    assert_eq!(g.size(), 4);
    assert_eq!(g.get_edge(2, 3), Some(&4));
    assert!(g.are_adjacent_nodes(0, 1));
    assert!(!g.are_adjacent_nodes(1, 0));
    assert!(g.are_adjacent_edges(0, 1, 2));
    assert!(!g.are_adjacent_edges(0, 1, 3));
    assert!(g.is_child_node(3));
    assert!(!g.is_child_node(9));
    assert!(!g.is_empty());
    assert!(!g.is_complete());

    assert_eq!(sorted(g.iter_nodes()), vec![0, 1, 2, 3]);
    assert_eq!(sorted(g.iter_edges(2)), vec![0, 3]);
    let pairs = g.iter_pair();
    assert_eq!(pairs.len(), 4);
    for (id, targets) in pairs {
        assert_eq!(sorted(targets), sorted(g.iter_edges(id)));
    }

    assert_eq!(sorted(g.traverser().bfs(1)), vec![0, 1, 2, 3]);
    assert_eq!(sorted(g.traverser().dfs(3)), vec![3]);
    assert_eq!(g.traverser().bfs(8), Vec::<usize>::new());

    assert_eq!(g.remove_edge(2, 3), Ok(4));
    assert_eq!(g.remove_edge(2, 3), Err(GraphError::EdgeNotFound));
    assert_eq!(sorted(g.traverser().bfs(1)), vec![0, 1, 2]);

    assert_eq!(g.remove_node(2), Ok(99));
    assert_eq!(g.remove_node(2), Err(GraphError::NodeNotFound));
    assert!(!g.contains_edge(1, 2));
    assert!(!g.contains_edge(2, 0));
    assert!(g.contains_edge(0, 1));
    assert_eq!(g.size(), 1);

    g.clear_edges();
    assert_eq!(g.size(), 0);
    assert_eq!(g.order(), 3);
    g.clear_nodes();
    assert!(g.is_null());
}

#[test]
fn dynamic_storage_meets_the_contract() {
    exercise::<DynRepr<u32, u8>>();
}

#[test]
fn static_storage_meets_the_contract() {
    exercise::<StaticRepr<u32, u8, 6>>();
}

#[test]
fn hashed_storage_meets_the_contract() {
    exercise::<HashRepr<u32, u8>>();
}

#[test]
fn ordered_storage_meets_the_contract() {
    exercise::<BTreeRepr<u32, u8>>();
}

#[test]
fn static_storage_refuses_ids_beyond_capacity() {
    let mut g = G::<StaticRepr<u32, u8, 2>>::new();
    assert!(g.add_node(1, 5).is_ok());
    assert_eq!(g.add_node(2, 5), Err(GraphError::IdOutOfCapacity));
    assert_eq!(g.order(), 1);
}

#[test]
fn ordered_storage_lists_in_ascending_order() {
    let mut g = G::<BTreeRepr<u32, u8>>::new();
    for id in [5, 1, 9, 3] {
        g.add_node(id, 0).unwrap();
    }
    g.add_edge(5, 9, 0).unwrap();
    g.add_edge(5, 1, 0).unwrap();
    assert_eq!(g.iter_nodes(), vec![1, 3, 5, 9]);
    assert_eq!(g.iter_edges(5), vec![1, 9]);
}

#[test]
fn null_exactly_when_order_is_zero() {
    let mut g = G::<BTreeRepr<u32, u8>>::new();
    assert_eq!(g.is_null(), g.order() == 0);
    g.add_node(4, 0).unwrap();
    assert_eq!(g.is_null(), g.order() == 0);
    assert!(!g.is_null());
}

#[test]
fn nodes_without_edges_are_empty() {
    let mut g = G::<DynRepr<u32, u8>>::new();
    g.add_node(0, 0).unwrap();
    g.add_node(1, 0).unwrap();
    assert_eq!(g.size(), 0);
    assert!(g.is_empty());
    assert!(!g.is_trivial());
}

#[test]
fn add_then_remove_node_restores_order() {
    let mut g = G::<HashRepr<u32, u8>>::new();
    g.add_node(0, 0).unwrap();
    let before = g.order();
    g.add_node(7, 1).unwrap();
    g.remove_node(7).unwrap();
    assert!(!g.contains_node(7));
    assert_eq!(g.order(), before);
}

#[test]
fn add_then_remove_edge_keeps_nodes() {
    let mut g = G::<StaticRepr<u32, u8, 4>>::new();
    g.add_node(1, 0).unwrap();
    g.add_node(2, 0).unwrap();
    g.add_edge(1, 2, 3).unwrap();
    g.remove_edge(1, 2).unwrap();
    assert!(!g.contains_edge(1, 2));
    assert!(g.contains_node(1));
    assert!(g.contains_node(2));
}

#[test]
fn bfs_visits_each_reachable_node_once_from_inside_a_cycle() {
    let mut g = G::<BTreeRepr<u32, u8>>::new();
    for id in 0..6 {
        g.add_node(id, 0).unwrap();
    }
    g.add_edge(0, 1, 0).unwrap();
    g.add_edge(1, 2, 0).unwrap();
    g.add_edge(2, 0, 0).unwrap();
    g.add_edge(2, 3, 0).unwrap();
    g.add_edge(4, 0, 0).unwrap();
    assert_eq!(g.traverser().bfs(1), vec![1, 2, 0, 3]);
    assert_eq!(g.traverser().dfs(1), vec![1, 2, 3, 0]);
}

#[test]
fn complete_needs_both_directions() {
    let mut g = G::<BTreeRepr<u32, u8>>::new();
    g.add_node(1, 0).unwrap();
    g.add_node(2, 0).unwrap();
    g.add_edge(1, 2, 0).unwrap();
    assert!(!g.is_complete());
    g.add_edge(2, 1, 0).unwrap();
    assert!(g.is_complete());
}

#[test]
fn subgraph_relations() {
    let mut big = G::<BTreeRepr<u32, u8>>::new();
    let mut small = G::<BTreeRepr<u32, u8>>::new();
    for id in 0..3 {
        big.add_node(id, 0).unwrap();
    }
    big.add_edge(0, 1, 0).unwrap();
    big.add_edge(1, 2, 0).unwrap();
    small.add_node(0, 0).unwrap();
    small.add_node(1, 0).unwrap();
    small.add_edge(0, 1, 0).unwrap();
    assert!(big.is_subgraph(&small));
    assert!(big.is_proper_subgraph(&small));
    assert!(!big.is_improper_subgraph(&small));
    assert!(!big.is_spanning_subgraph(&small));
    assert!(!small.is_subgraph(&big));
    small.add_edge(1, 0, 0).unwrap();
    assert!(!big.is_subgraph(&small));
    small.remove_edge(1, 0).unwrap();
    small.add_node(2, 0).unwrap();
    assert!(big.is_spanning_subgraph(&small));
    small.add_edge(1, 2, 0).unwrap();
    assert!(big.is_improper_subgraph(&small));
    assert!(!big.is_proper_subgraph(&small));
}

#[test]
fn undirected_edges_go_both_ways() {
    let mut g = Graph::<Undirected, Cyclic, u32, u8, DynRepr<u32, u8>>::new();
    g.add_node(0, 0).unwrap();
    g.add_node(1, 0).unwrap();
    g.add_node(2, 0).unwrap();
    g.add_edge(0, 1, 7).unwrap();
    g.add_edge(2, 2, 8).unwrap();
    assert!(g.contains_edge(1, 0));
    assert_eq!(g.get_edge(1, 0), Some(&7));
    assert_eq!(g.size(), 2);
    assert_eq!(g.remove_edge(1, 0), Ok(7));
    assert!(!g.contains_edge(0, 1));
    assert_eq!(g.size(), 1);
    g.add_edge(0, 1, 7).unwrap();
    g.add_edge(0, 2, 7).unwrap();
    g.add_edge(1, 2, 7).unwrap();
    assert!(g.is_complete());
}

#[test]
fn trivial_graph_has_one_node_and_no_edge() {
    let mut g = G::<DynRepr<u32, u8>>::new();
    g.add_node(3, 0).unwrap();
    assert!(g.is_trivial());
    g.add_edge(3, 3, 0).unwrap();
    assert!(!g.is_trivial());
}

#[test]
fn single_steps_follow_queue_and_stack_discipline() {
    let mut g = G::<BTreeRepr<u32, u8>>::new();
    for id in 0..5 {
        g.add_node(id, 0).unwrap();
    }
    g.add_edge(0, 1, 0).unwrap();
    g.add_edge(0, 2, 0).unwrap();
    g.add_edge(1, 3, 0).unwrap();
    g.add_edge(2, 4, 0).unwrap();
    let t = g.traverser();

    let mut queue: VecDeque<usize> = VecDeque::from(vec![0, 0]);
    let mut visited: Vec<usize> = Vec::new();
    assert_eq!(t.bfs_step(&mut queue, &mut visited), Some(0));
    assert_eq!(queue, VecDeque::from(vec![0, 1, 2]));
    assert_eq!(t.bfs_step(&mut queue, &mut visited), Some(1));
    assert_eq!(queue, VecDeque::from(vec![2, 3]));
    assert_eq!(visited, vec![0, 1]);

    let mut stack: Vec<usize> = vec![0];
    let mut seen: Vec<usize> = Vec::new();
    assert_eq!(t.dfs_step(&mut stack, &mut seen), Some(0));
    assert_eq!(stack, vec![1, 2]);
    assert_eq!(t.dfs_step(&mut stack, &mut seen), Some(2));
    assert_eq!(stack, vec![1, 4]);

    let mut done: VecDeque<usize> = VecDeque::from(vec![0, 1]);
    let mut all: Vec<usize> = vec![0, 1];
    assert_eq!(t.bfs_step(&mut done, &mut all), None);
    assert!(done.is_empty());
}

#[test]
fn bfs_runs_level_by_level() {
    let mut g = G::<BTreeRepr<u32, u8>>::new();
    for id in 0..7 {
        g.add_node(id, 0).unwrap();
    }
    g.add_edge(0, 4, 0).unwrap();
    g.add_edge(0, 1, 0).unwrap();
    g.add_edge(4, 5, 0).unwrap();
    g.add_edge(1, 6, 0).unwrap();
    g.add_edge(5, 2, 0).unwrap();
    assert_eq!(g.traverser().bfs(0), vec![0, 1, 4, 6, 5, 2]);
    assert_eq!(g.traverser().dfs(0), vec![0, 4, 5, 2, 1, 6]);
}
