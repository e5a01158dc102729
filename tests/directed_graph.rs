use graph_engine::directed_graph::DiGraph;
use graph_engine::traits::{
    AddEdge, AddNode, ContainsEdge, ContainsNode, GetEdge, GetEdgeMut, GetNode, GetNodeMut, IsComplete, IsEmpty, IsNull,
    IsTrivial, Order, RemoveEdge, RemoveNode, Size,
};

#[test]
fn test_create_graph() {
    let _ = DiGraph::<(), ()>::new();
}

#[test]
fn test_add_node() {
    let mut graph = DiGraph::<(), ()>::new();
    assert!(graph.add_node(1, ()).is_ok());
    assert!(graph.contains_node(1));
}

#[test]
fn test_get_node() {
    let mut graph = DiGraph::<(), ()>::new();
    graph.add_node(1, ()).unwrap();
    assert!(graph.get_node(1).is_some());
    assert!(graph.get_node(4).is_none());
}

#[test]
fn test_get_node_mut() {
    let mut graph = DiGraph::<(), ()>::new();
    graph.add_node(1, ()).unwrap();
    assert!(graph.replace_node(1, ()).is_some());
    assert!(graph.replace_node(4, ()).is_none());
}

#[test]
fn replace_payloads_in_place() {
    let mut graph = DiGraph::<u8, u8>::new();
    graph.add_node(1, 10).unwrap();
    graph.add_node(2, 20).unwrap();
    graph.add_edge(1, 2, 5).unwrap();
    assert_eq!(graph.replace_node(1, 11), Some(10));
    assert_eq!(graph.get_node(1), Some(&11));
    assert!(graph.contains_edge(1, 2));
    assert_eq!(graph.replace_edge(1, 2, 6), Some(5));
    assert_eq!(graph.get_edge(1, 2), Some(&6));
    assert_eq!(graph.replace_edge(2, 1, 7), None);
    assert!(!graph.contains_edge(2, 1));
    assert_eq!(graph.replace_node(3, 0), None);
    assert!(!graph.contains_node(3));
}

#[test]
fn test_contains_node() {
    let mut graph = DiGraph::<(), ()>::new();
    graph.add_node(1, ()).unwrap();
    assert!(graph.contains_node(1));
    assert!(!graph.contains_node(4));
}

#[test]
fn test_remove_node() {
    let mut graph = DiGraph::<(), ()>::new();
    graph.add_node(1, ()).unwrap();
    assert!(graph.remove_node(1).is_ok());
    assert!(!graph.contains_node(1));
}

#[test]
fn test_add_edge() {
    let mut graph = DiGraph::<(), ()>::new();
    graph.add_node(1, ()).unwrap();
    graph.add_node(3, ()).unwrap();
    assert!(graph.add_edge(1, 3, ()).is_ok());
    assert!(graph.contains_edge(1, 3));
}

#[test]
fn test_get_edge() {
    let mut graph = DiGraph::<(), ()>::new();
    graph.add_node(1, ()).unwrap();
    graph.add_node(2, ()).unwrap();
    graph.add_edge(1, 2, ()).unwrap();
    assert!(graph.get_edge(1, 2).is_some());
    assert!(graph.get_edge(1, 3).is_none());
}

#[test]
fn test_contains_edge() {
    let mut graph = DiGraph::<(), ()>::new();
    graph.add_node(1, ()).unwrap();
    graph.add_node(2, ()).unwrap();
    graph.add_edge(1, 2, ()).unwrap();
    assert!(graph.contains_edge(1, 2));
    assert!(!graph.contains_edge(1, 3));
}

#[test]
fn test_remove_edge() {
    let mut graph = DiGraph::<(), ()>::new();
    graph.add_node(1, ()).unwrap();
    graph.add_node(2, ()).unwrap();
    graph.add_edge(1, 2, ()).unwrap();
    assert!(graph.remove_edge(1, 2).is_ok());
    assert!(!graph.contains_edge(1, 2));
}

#[test]
fn test_bfs() {
    let mut graph = DiGraph::<(), ()>::new();
    graph.add_node(1, ()).unwrap();
    graph.traverser().bfs(1);
}

#[test]
fn test_dfs() {
    let mut graph = DiGraph::<(), ()>::new();
    graph.add_node(1, ()).unwrap();
    graph.traverser().dfs(1);
}

#[test]
fn test_is_complete() {
    let mut graph = DiGraph::<(), ()>::new();
    graph.add_node(1, ()).unwrap();
    graph.add_node(2, ()).unwrap();
    graph.add_edge(1, 2, ()).unwrap();
    graph.add_edge(2, 1, ()).unwrap();
    assert!(graph.is_complete());
}

// A graph is empty when it has nodes and no edge; a graph without nodes is null.
#[test]
fn test_is_empty() {
    let graph = DiGraph::<(), ()>::new();
    assert!(!graph.is_empty());
}

#[test]
fn test_is_trivial() {
    let mut graph = DiGraph::<(), ()>::new();
    graph.add_node(1, ()).unwrap();
    assert!(graph.is_trivial());
}

#[test]
fn test_is_null() {
    let graph = DiGraph::<(), ()>::new();
    assert!(graph.is_null());
}

#[test]
fn test_order() {
    let mut graph = DiGraph::<(), ()>::new();
    graph.add_node(1, ()).unwrap();
    graph.add_node(2, ()).unwrap();
    graph.add_node(3, ()).unwrap();
    assert_eq!(graph.order(), 3);
}

#[test]
fn test_size() {
    let mut graph = DiGraph::<(), ()>::new();
    graph.add_node(1, ()).unwrap();
    graph.add_node(2, ()).unwrap();
    graph.add_edge(1, 2, ()).unwrap();
    assert_eq!(graph.size(), 1);
}
