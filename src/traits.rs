use vstd::prelude::*;

use crate::graph::GraphError;
use crate::graph_repr::{increasing, lookup, edges_without, ref_matches, targets};

verus! {

/// Every ordered pair of distinct nodes is joined by an edge.
pub open spec fn complete<N, E>(nodes: Map<usize, N>, edges: Map<(usize, usize), E>) -> bool {
    forall|a: usize, b: usize|
        nodes.contains_key(a) && nodes.contains_key(b) && a != b ==> #[trigger] edges.contains_key((a, b))
}

/// The edges that `size` counts: all of them when directed; when undirected,
/// each stored pair once, by its endpoint in ascending order.
pub open spec fn counted_edges<E>(edges: Map<(usize, usize), E>, directed: bool) -> Set<(usize, usize)> {
    edges.dom().filter(|p: (usize, usize)| directed || p.0 <= p.1)
}

/// The number of edges of a graph.
pub open spec fn edge_count<E>(edges: Map<(usize, usize), E>, directed: bool) -> nat {
    counted_edges(edges, directed).len()
}

/// `sub` has no node and no edge that `sup` lacks.
pub open spec fn subgraph_of<N, E>(
    sup_nodes: Map<usize, N>,
    sup_edges: Map<(usize, usize), E>,
    sub_nodes: Map<usize, N>,
    sub_edges: Map<(usize, usize), E>,
) -> bool {
    &&& sub_nodes.dom().subset_of(sup_nodes.dom())
    &&& sub_edges.dom().subset_of(sup_edges.dom())
}

/// The edge set after adding `id1 -> id2`, and `id2 -> id1` too when undirected.
pub open spec fn edges_added<E>(edges: Map<(usize, usize), E>, id1: usize, id2: usize, edge: E, directed: bool) -> Map<(usize, usize), E> {
    if directed {
        edges.insert((id1, id2), edge)
    } else {
        edges.insert((id1, id2), edge).insert((id2, id1), edge)
    }
}

/// The edge set after removing `id1 -> id2`, and `id2 -> id1` too when undirected.
pub open spec fn edges_removed<E>(edges: Map<(usize, usize), E>, id1: usize, id2: usize, directed: bool) -> Map<(usize, usize), E> {
    if directed {
        edges.remove((id1, id2))
    } else {
        edges.remove((id1, id2)).remove((id2, id1))
    }
}

/// The abstract state of a graph: its nodes, its edges, and its shape.
pub trait GraphView<N, E> {
    spec fn spec_nodes(&self) -> Map<usize, N>;

    spec fn spec_edges(&self) -> Map<(usize, usize), E>;

    /// Whether the storage can hold a node under `id`.
    spec fn spec_holds_id(&self, id: usize) -> bool;

    /// Whether node and target listings come in ascending order.
    spec fn spec_ascending(&self) -> bool;

    /// Whether edges are directed.
    spec fn spec_directed(&self) -> bool;

    /// The graph's invariant: it includes that every edge joins two nodes
    /// and that both maps are finite.
    spec fn valid(&self) -> bool;

    /// `self` is valid and has the shape of `before`.
    open spec fn keeps_shape(&self, before: &Self) -> bool {
        &&& self.valid()
        &&& self.spec_directed() == before.spec_directed()
        &&& forall|i: usize| self.spec_holds_id(i) == before.spec_holds_id(i)
    }
}

pub trait GetNode<N, E>: GraphView<N, E> {
    fn get_node(&self, id: usize) -> (r: Option<&N>)
        requires
            self.valid(),
        ensures
            ref_matches(r, self.spec_nodes(), id),
    ;
}

pub trait GetNodeMut<N, E>: GraphView<N, E> {
    /// Writes `node` over the node at `id` and returns the node it replaces;
    /// when there is no node at `id`, returns `None` and changes nothing.
    fn replace_node(&mut self, id: usize, node: N) -> (r: Option<N>)
        requires
            old(self).valid(),
        ensures
            final(self).keeps_shape(old(self)),
            r == lookup(old(self).spec_nodes(), id),
            final(self).spec_nodes() == if old(self).spec_nodes().contains_key(id) {
                old(self).spec_nodes().insert(id, node)
            } else {
                old(self).spec_nodes()
            },
            final(self).spec_edges() == old(self).spec_edges(),
    ;
}

pub trait GetEdgeMut<N, E>: GraphView<N, E> {
    /// Writes `edge` over the edge `id1 -> id2` (and `id2 -> id1` when
    /// undirected) and returns the edge it replaces; when there is no such
    /// edge, returns `None` and changes nothing.
    fn replace_edge(&mut self, id1: usize, id2: usize, edge: E) -> (r: Option<E>)
        requires
            old(self).valid(),
        ensures
            final(self).keeps_shape(old(self)),
            r == lookup(old(self).spec_edges(), (id1, id2)),
            final(self).spec_edges() == if old(self).spec_edges().contains_key((id1, id2)) {
                edges_added(old(self).spec_edges(), id1, id2, edge, old(self).spec_directed())
            } else {
                old(self).spec_edges()
            },
            final(self).spec_nodes() == old(self).spec_nodes(),
    ;
}

pub trait GetEdge<N, E>: GraphView<N, E> {
    fn get_edge(&self, id1: usize, id2: usize) -> (r: Option<&E>)
        requires
            self.valid(),
        ensures
            ref_matches(r, self.spec_edges(), (id1, id2)),
    ;
}

pub trait AddNode<N, E>: GraphView<N, E> {
    /// Inserts or overwrites the node at `id`; its edges stay.
    fn add_node(&mut self, id: usize, node: N) -> (r: Result<(), GraphError>)
        requires
            old(self).valid(),
        ensures
            final(self).keeps_shape(old(self)),
            r is Ok <==> old(self).spec_holds_id(id),
            r is Ok ==> final(self).spec_nodes() == old(self).spec_nodes().insert(id, node),
            r is Err ==> r == Err::<(), GraphError>(GraphError::IdOutOfCapacity)
                && final(self).spec_nodes() == old(self).spec_nodes(),
            final(self).spec_edges() == old(self).spec_edges(),
    ;
}

pub trait RemoveNode<N, E>: GraphView<N, E> {
    /// Removes the node at `id` and every edge that touches it.
    fn remove_node(&mut self, id: usize) -> (r: Result<N, GraphError>)
        requires
            old(self).valid(),
        ensures
            final(self).keeps_shape(old(self)),
            match r {
                Ok(n) => old(self).spec_nodes().contains_key(id) && n == old(self).spec_nodes()[id],
                Err(e) => !old(self).spec_nodes().contains_key(id) && e == GraphError::NodeNotFound,
            },
            final(self).spec_nodes() == old(self).spec_nodes().remove(id),
            final(self).spec_edges() == edges_without(old(self).spec_edges(), id),
    ;
}

pub trait AddEdge<N, E>: GraphView<N, E> {
    /// Inserts or overwrites the edge `id1 -> id2` (and `id2 -> id1` when undirected).
    fn add_edge(&mut self, id1: usize, id2: usize, edge: E) -> (r: Result<(), GraphError>)
        requires
            old(self).valid(),
        ensures
            final(self).keeps_shape(old(self)),
            r is Ok <==> old(self).spec_nodes().contains_key(id1) && old(self).spec_nodes().contains_key(id2),
            r is Err ==> r == Err::<(), GraphError>(GraphError::EdgeEndpointMissing)
                && final(self).spec_edges() == old(self).spec_edges(),
            r is Ok ==> final(self).spec_edges()
                == edges_added(old(self).spec_edges(), id1, id2, edge, old(self).spec_directed()),
            final(self).spec_nodes() == old(self).spec_nodes(),
    ;
}

pub trait RemoveEdge<N, E>: GraphView<N, E> {
    /// Removes the edge `id1 -> id2` (and `id2 -> id1` when undirected).
    fn remove_edge(&mut self, id1: usize, id2: usize) -> (r: Result<E, GraphError>)
        requires
            old(self).valid(),
        ensures
            final(self).keeps_shape(old(self)),
            match r {
                Ok(e) => old(self).spec_edges().contains_key((id1, id2)) && e == old(self).spec_edges()[(id1, id2)],
                Err(e) => !old(self).spec_edges().contains_key((id1, id2)) && e == GraphError::EdgeNotFound,
            },
            final(self).spec_edges() == edges_removed(old(self).spec_edges(), id1, id2, old(self).spec_directed()),
            final(self).spec_nodes() == old(self).spec_nodes(),
    ;
}

pub trait ContainsNode<N, E>: GraphView<N, E> {
    fn contains_node(&self, id: usize) -> (r: bool)
        requires
            self.valid(),
        ensures
            r == self.spec_nodes().contains_key(id),
    ;
}

pub trait ContainsEdge<N, E>: GraphView<N, E> {
    fn contains_edge(&self, id1: usize, id2: usize) -> (r: bool)
        requires
            self.valid(),
        ensures
            r == self.spec_edges().contains_key((id1, id2)),
    ;
}

pub trait ClearNodes<N, E>: GraphView<N, E> {
    fn clear_nodes(&mut self)
        requires
            old(self).valid(),
        ensures
            final(self).keeps_shape(old(self)),
            final(self).spec_nodes() == Map::<usize, N>::empty(),
            final(self).spec_edges() == Map::<(usize, usize), E>::empty(),
    ;
}

pub trait ClearEdges<N, E>: GraphView<N, E> {
    fn clear_edges(&mut self)
        requires
            old(self).valid(),
        ensures
            final(self).keeps_shape(old(self)),
            final(self).spec_nodes() == old(self).spec_nodes(),
            final(self).spec_edges() == Map::<(usize, usize), E>::empty(),
    ;
}

pub trait IterNodes<N, E>: GraphView<N, E> {
    /// The node identifiers, each once.
    fn iter_nodes(&self) -> (r: Vec<usize>)
        requires
            self.valid(),
        ensures
            r@.no_duplicates(),
            r@.to_set() == self.spec_nodes().dom(),
            self.spec_ascending() ==> increasing(r@),
    ;
}

pub trait IterEdges<N, E>: GraphView<N, E> {
    /// The targets of the edges that leave `id`, each once.
    fn iter_edges(&self, id: usize) -> (r: Vec<usize>)
        requires
            self.valid(),
        ensures
            r@.no_duplicates(),
            r@.to_set() == targets(self.spec_edges(), id),
            self.spec_ascending() ==> increasing(r@),
    ;
}

pub trait IterPair<N, E>: GraphView<N, E> {
    /// Each node identifier, once, with the targets of its outgoing edges.
    fn iter_pair(&self) -> (r: Vec<(usize, Vec<usize>)>)
        requires
            self.valid(),
        ensures
            r@.map_values(|p: (usize, Vec<usize>)| p.0).no_duplicates(),
            r@.map_values(|p: (usize, Vec<usize>)| p.0).to_set() == self.spec_nodes().dom(),
            self.spec_ascending() ==> increasing(r@.map_values(|p: (usize, Vec<usize>)| p.0)),
            forall|i: int| 0 <= i < r@.len() ==> (#[trigger] r@[i]).1@.no_duplicates()
                && r@[i].1@.to_set() == targets(self.spec_edges(), r@[i].0)
                && (self.spec_ascending() ==> increasing(r@[i].1@)),
    ;
}

pub trait IsComplete<N, E>: GraphView<N, E> {
    fn is_complete(&self) -> (r: bool)
        requires
            self.valid(),
        ensures
            r == complete(self.spec_nodes(), self.spec_edges()),
    ;
}

pub trait IsEmpty<N, E>: GraphView<N, E> {
    /// The graph has nodes and no edge.
    fn is_empty(&self) -> (r: bool)
        requires
            self.valid(),
        ensures
            r == (self.spec_nodes() != Map::<usize, N>::empty() && self.spec_edges() == Map::<(usize, usize), E>::empty()),
    ;
}

pub trait IsTrivial<N, E>: GraphView<N, E> {
    /// The graph has exactly one node, and no edge leaves it.
    fn is_trivial(&self) -> (r: bool)
        requires
            self.valid(),
        ensures
            r == (self.spec_nodes().dom().len() == 1 && self.spec_edges() == Map::<(usize, usize), E>::empty()),
    ;
}

pub trait IsNull<N, E>: GraphView<N, E> {
    /// The graph has no node.
    fn is_null(&self) -> (r: bool)
        requires
            self.valid(),
        ensures
            r == (self.spec_nodes() == Map::<usize, N>::empty()),
    ;
}

pub trait IsChildNode<N, E>: GraphView<N, E> {
    fn is_child_node(&self, id: usize) -> (r: bool)
        requires
            self.valid(),
        ensures
            r == self.spec_nodes().contains_key(id),
    ;
}

pub trait IsSubgraph<N, E>: GraphView<N, E> {
    /// Every node of `subgraph` is a node of `self`, and every edge of it an edge of `self`.
    fn is_subgraph(&self, subgraph: &Self) -> (r: bool)
        requires
            self.valid(),
            subgraph.valid(),
        ensures
            r == subgraph_of(self.spec_nodes(), self.spec_edges(), subgraph.spec_nodes(), subgraph.spec_edges()),
    ;
}

pub trait IsProperSubgraph<N, E>: GraphView<N, E> {
    /// `subgraph` is a subgraph of `self` with fewer nodes or fewer edges.
    fn is_proper_subgraph(&self, subgraph: &Self) -> (r: bool)
        requires
            self.valid(),
            subgraph.valid(),
        ensures
            r == (subgraph_of(self.spec_nodes(), self.spec_edges(), subgraph.spec_nodes(), subgraph.spec_edges())
                && !subgraph_of(subgraph.spec_nodes(), subgraph.spec_edges(), self.spec_nodes(), self.spec_edges())),
    ;
}

pub trait IsImproperSubgraph<N, E>: GraphView<N, E> {
    /// `subgraph` has the same nodes and the same edges as `self`.
    fn is_improper_subgraph(&self, subgraph: &Self) -> (r: bool)
        requires
            self.valid(),
            subgraph.valid(),
        ensures
            r == (self.spec_nodes().dom() == subgraph.spec_nodes().dom()
                && self.spec_edges().dom() == subgraph.spec_edges().dom()),
    ;
}

pub trait IsSpanningSubgraph<N, E>: GraphView<N, E> {
    /// `subgraph` is a subgraph of `self` with every node of `self`.
    fn is_spanning_subgraph(&self, subgraph: &Self) -> (r: bool)
        requires
            self.valid(),
            subgraph.valid(),
        ensures
            r == (subgraph_of(self.spec_nodes(), self.spec_edges(), subgraph.spec_nodes(), subgraph.spec_edges())
                && self.spec_nodes().dom().len() == subgraph.spec_nodes().dom().len()),
    ;
}

pub trait AreAdjacentNodes<N, E>: GraphView<N, E> {
    /// There is an edge `node_1 -> node_2`.
    fn are_adjacent_nodes(&self, node_1: usize, node_2: usize) -> (r: bool)
        requires
            self.valid(),
        ensures
            r == self.spec_edges().contains_key((node_1, node_2)),
    ;
}

pub trait AreAdjacentEdges<N, E>: GraphView<N, E> {
    /// There are edges `node_1 -> node_2` and `node_2 -> node_3`.
    fn are_adjacent_edges(&self, node_1: usize, node_2: usize, node_3: usize) -> (r: bool)
        requires
            self.valid(),
        ensures
            r == (self.spec_edges().contains_key((node_1, node_2)) && self.spec_edges().contains_key((node_2, node_3))),
    ;
}

pub trait Order<N, E>: GraphView<N, E> {
    /// The number of nodes.
    fn order(&self) -> (r: usize)
        requires
            self.valid(),
        ensures
            r == self.spec_nodes().dom().len(),
    ;
}

pub trait Size<N, E>: GraphView<N, E> {
    /// The number of edges, an undirected edge counted once; it saturates at `usize::MAX`.
    fn size(&self) -> (r: usize)
        requires
            self.valid(),
        ensures
            r == if edge_count(self.spec_edges(), self.spec_directed()) <= usize::MAX {
                edge_count(self.spec_edges(), self.spec_directed())
            } else {
                usize::MAX as nat
            },
    ;
}

/// A graph has no node exactly when its order is zero.
pub proof fn lemma_null_iff_order_zero<N>(nodes: Map<usize, N>)
    requires
        nodes.dom().finite(),
    ensures
        (nodes == Map::<usize, N>::empty()) == (nodes.dom().len() == 0),
{
    if nodes.dom().len() == 0 {
        vstd::set_lib::lemma_set_empty_equivalency_len(nodes.dom());
        assert(nodes =~= Map::<usize, N>::empty());
    }
}

/// A graph with at least one node and no edge is empty.
pub proof fn lemma_nodes_without_edges_is_empty<N, E>(nodes: Map<usize, N>, edges: Map<(usize, usize), E>)
    requires
        nodes.dom().finite(),
        edges.dom().finite(),
        nodes.dom().len() >= 1,
        edges.dom().len() == 0,
    ensures
        nodes != Map::<usize, N>::empty() && edges == Map::<(usize, usize), E>::empty(),
{
    vstd::set_lib::lemma_set_empty_equivalency_len(edges.dom());
    assert(edges =~= Map::<(usize, usize), E>::empty());
    if nodes == Map::<usize, N>::empty() {
        assert(nodes.dom() =~= Set::<usize>::empty());
    }
}

/// Adding a node under an absent identifier and then removing it leaves no
/// node there and the order as it was.
pub proof fn lemma_add_then_remove_node<N>(nodes: Map<usize, N>, id: usize, node: N)
    requires
        nodes.dom().finite(),
        !nodes.contains_key(id),
    ensures
        !nodes.insert(id, node).remove(id).contains_key(id),
        nodes.insert(id, node).remove(id).dom().len() == nodes.dom().len(),
{
    assert(nodes.insert(id, node).remove(id) =~= nodes);
}

/// Adding the edge `a -> b` and then removing it leaves no such edge; the
/// nodes are untouched by both.
pub proof fn lemma_add_then_remove_edge<E>(edges: Map<(usize, usize), E>, a: usize, b: usize, edge: E, directed: bool)
    ensures
        !edges_removed(edges_added(edges, a, b, edge, directed), a, b, directed).contains_key((a, b)),
{
}

} // verus!
