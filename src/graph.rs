pub mod static_repr;
pub mod dynamic_repr;
pub mod traverser;
pub mod hash_repr;
pub mod btree_repr;

use std::marker::PhantomData;

use vstd::prelude::*;

use crate::graph_repr::{GraphRepr, increasing, targets};
use crate::traits::{
    AddEdge, AddNode, AreAdjacentEdges, AreAdjacentNodes, ClearEdges, ClearNodes, ContainsEdge,
    ContainsNode, GetEdge, GetEdgeMut, GetNode, GetNodeMut, GraphView, IsChildNode, IsComplete, IsEmpty, IsImproperSubgraph,
    IsNull, IsProperSubgraph, IsSpanningSubgraph, IsSubgraph, IsTrivial, IterEdges, IterNodes,
    IterPair, Order, RemoveEdge, RemoveNode, Size, counted_edges,
};

verus! {

/// Whether a graph's edges have a direction.
pub trait Directional {
    spec fn spec_directed() -> bool;

    fn directed() -> (r: bool)
        ensures
            r == Self::spec_directed(),
    ;
}

/// A marker for whether a graph may hold cycles.
pub trait Cyclical {}

pub struct Directed;

pub struct Undirected;

pub struct Cyclic;

pub struct Acyclic;

impl Directional for Directed {
    open spec fn spec_directed() -> bool {
        true
    }

    fn directed() -> (r: bool) {
        true
    }
}

impl Directional for Undirected {
    open spec fn spec_directed() -> bool {
        false
    }

    fn directed() -> (r: bool) {
        false
    }
}

impl Cyclical for Cyclic {}

impl Cyclical for Acyclic {}

/// Why a structural change of a graph was refused.
#[derive(Debug, Clone, Copy, PartialEq, Eq, Structural)]
pub enum GraphError {
    NodeNotFound,
    EdgeNotFound,
    EdgeEndpointMissing,
    IdOutOfCapacity,
}

/// A graph over the storage `R`, with node payloads `N` and edge payloads `E`.
/// An undirected graph stores each edge in both directions.
pub struct Graph<D, C, N, E, R> {
    pub(crate) repr: R,
    pub(crate) kind: PhantomData<(D, C, N, E)>,
}

impl<D: Directional, C: Cyclical, N, E, R: GraphRepr<N, E>> GraphView<N, E> for Graph<D, C, N, E, R> {
    closed spec fn spec_nodes(&self) -> Map<usize, N> {
        self.repr.spec_nodes()
    }

    closed spec fn spec_edges(&self) -> Map<(usize, usize), E> {
        self.repr.spec_edges()
    }

    open spec fn spec_holds_id(&self, id: usize) -> bool {
        R::spec_holds_id(id)
    }

    open spec fn spec_ascending(&self) -> bool {
        R::spec_ascending()
    }

    open spec fn spec_directed(&self) -> bool {
        D::spec_directed()
    }

    closed spec fn valid(&self) -> bool {
        &&& self.repr.well_formed()
        &&& !D::spec_directed() ==> forall|p: (usize, usize)| #[trigger] self.repr.spec_edges().contains_key(p)
            ==> self.repr.spec_edges().contains_key((p.1, p.0))
    }
}

impl<D: Directional, C: Cyclical, N, E, R: GraphRepr<N, E>> Graph<D, C, N, E, R> {
    /// The graph with no node.
    pub fn new() -> (r: Self)
        ensures
            r.valid(),
            r.spec_nodes() == Map::<usize, N>::empty(),
            r.spec_edges() == Map::<(usize, usize), E>::empty(),
            r.spec_directed() == D::spec_directed(),
    {
        Graph { repr: R::empty(), kind: PhantomData }
    }

    /// Every node of the graph is a valid identifier and the graph is finite.
    pub proof fn lemma_valid(&self)
        requires
            self.valid(),
        ensures
            self.spec_nodes().dom().finite(),
            self.spec_edges().dom().finite(),
            forall|p: (usize, usize)| #[trigger] self.spec_edges().contains_key(p)
                ==> self.spec_nodes().contains_key(p.0) && self.spec_nodes().contains_key(p.1),
    {
        self.repr.lemma_well_formed();
    }
}

impl<D: Directional, C: Cyclical, N, E, R: GraphRepr<N, E>> GetNode<N, E> for Graph<D, C, N, E, R> {
    fn get_node(&self, id: usize) -> (r: Option<&N>) {
        self.repr.node(id)
    }
}

impl<D: Directional, C: Cyclical, N, E, R: GraphRepr<N, E>> GetEdge<N, E> for Graph<D, C, N, E, R> {
    fn get_edge(&self, id1: usize, id2: usize) -> (r: Option<&E>) {
        self.repr.edge(id1, id2)
    }
}

impl<D: Directional, C: Cyclical, N, E, R: GraphRepr<N, E>> GetNodeMut<N, E> for Graph<D, C, N, E, R> {
    fn replace_node(&mut self, id: usize, node: N) -> (r: Option<N>) {
        if self.repr.node(id).is_none() {
            return None;
        }
        proof {
            self.repr.lemma_well_formed();
        }
        self.repr.insert_node(id, node)
    }
}

impl<D: Directional, C: Cyclical, N, E: Copy, R: GraphRepr<N, E>> GetEdgeMut<N, E> for Graph<D, C, N, E, R> {
    fn replace_edge(&mut self, id1: usize, id2: usize, edge: E) -> (r: Option<E>) {
        if self.repr.edge(id1, id2).is_none() {
            return None;
        }
        proof {
            self.repr.lemma_well_formed();
        }
        let previous = self.repr.take_edge(id1, id2);
        self.repr.insert_edge(id1, id2, edge);
        if !D::directed() {
            let _ = self.repr.take_edge(id2, id1);
            self.repr.insert_edge(id2, id1, edge);
        }
        proof {
            if D::spec_directed() {
                assert(self.spec_edges() =~= old(self).spec_edges().insert((id1, id2), edge));
            } else {
                assert(self.spec_edges() =~= old(self).spec_edges().insert((id1, id2), edge).insert((id2, id1), edge));
            }
        }
        previous
    }
}

impl<D: Directional, C: Cyclical, N, E, R: GraphRepr<N, E>> AddNode<N, E> for Graph<D, C, N, E, R> {
    fn add_node(&mut self, id: usize, node: N) -> (r: Result<(), GraphError>) {
        if !R::holds_id(id) {
            return Err(GraphError::IdOutOfCapacity);
        }
        let _ = self.repr.insert_node(id, node);
        Ok(())
    }
}

impl<D: Directional, C: Cyclical, N, E, R: GraphRepr<N, E>> RemoveNode<N, E> for Graph<D, C, N, E, R> {
    fn remove_node(&mut self, id: usize) -> (r: Result<N, GraphError>) {
        let taken = self.repr.take_node(id);
        match taken {
            Some(n) => Ok(n),
            None => Err(GraphError::NodeNotFound),
        }
    }
}

impl<D: Directional, C: Cyclical, N, E: Copy, R: GraphRepr<N, E>> AddEdge<N, E> for Graph<D, C, N, E, R> {
    fn add_edge(&mut self, id1: usize, id2: usize, edge: E) -> (r: Result<(), GraphError>) {
        if self.repr.node(id1).is_none() || self.repr.node(id2).is_none() {
            return Err(GraphError::EdgeEndpointMissing);
        }
        if D::directed() {
            self.repr.insert_edge(id1, id2, edge);
        } else {
            self.repr.insert_edge(id1, id2, edge);
            self.repr.insert_edge(id2, id1, edge);
        }
        Ok(())
    }
}

impl<D: Directional, C: Cyclical, N, E, R: GraphRepr<N, E>> RemoveEdge<N, E> for Graph<D, C, N, E, R> {
    fn remove_edge(&mut self, id1: usize, id2: usize) -> (r: Result<E, GraphError>) {
        let taken = self.repr.take_edge(id1, id2);
        if !D::directed() {
            let _ = self.repr.take_edge(id2, id1);
        }
        proof {
            assert forall|p: (usize, usize)| #[trigger] self.repr.spec_edges().contains_key(p) implies
                D::spec_directed() || self.repr.spec_edges().contains_key((p.1, p.0)) by {
                assert(old(self).repr.spec_edges().contains_key(p));
            }
        }
        match taken {
            Some(e) => Ok(e),
            None => Err(GraphError::EdgeNotFound),
        }
    }
}

impl<D: Directional, C: Cyclical, N, E, R: GraphRepr<N, E>> ContainsNode<N, E> for Graph<D, C, N, E, R> {
    fn contains_node(&self, id: usize) -> (r: bool) {
        self.repr.node(id).is_some()
    }
}

impl<D: Directional, C: Cyclical, N, E, R: GraphRepr<N, E>> ContainsEdge<N, E> for Graph<D, C, N, E, R> {
    fn contains_edge(&self, id1: usize, id2: usize) -> (r: bool) {
        self.repr.edge(id1, id2).is_some()
    }
}

impl<D: Directional, C: Cyclical, N, E, R: GraphRepr<N, E>> ClearNodes<N, E> for Graph<D, C, N, E, R> {
    fn clear_nodes(&mut self) {
        self.repr.remove_all_nodes();
    }
}

impl<D: Directional, C: Cyclical, N, E, R: GraphRepr<N, E>> ClearEdges<N, E> for Graph<D, C, N, E, R> {
    fn clear_edges(&mut self) {
        self.repr.remove_all_edges();
    }
}

impl<D: Directional, C: Cyclical, N, E, R: GraphRepr<N, E>> IterNodes<N, E> for Graph<D, C, N, E, R> {
    fn iter_nodes(&self) -> (r: Vec<usize>) {
        self.repr.node_ids()
    }
}

impl<D: Directional, C: Cyclical, N, E, R: GraphRepr<N, E>> IterEdges<N, E> for Graph<D, C, N, E, R> {
    fn iter_edges(&self, id: usize) -> (r: Vec<usize>) {
        self.repr.neighbor_ids(id)
    }
}

impl<D: Directional, C: Cyclical, N, E, R: GraphRepr<N, E>> IterPair<N, E> for Graph<D, C, N, E, R> {
    fn iter_pair(&self) -> (r: Vec<(usize, Vec<usize>)>) {
        let ids = self.repr.node_ids();
        let mut r: Vec<(usize, Vec<usize>)> = Vec::new();
        let mut k: usize = 0;
        while k < ids.len()
            invariant
                self.valid(),
                k <= ids@.len(),
                r@.len() == k,
                forall|i: int| 0 <= i < k ==> (#[trigger] r@[i]).0 == ids@[i],
                forall|i: int| 0 <= i < k ==> (#[trigger] r@[i]).1@.no_duplicates()
                    && r@[i].1@.to_set() == targets(self.spec_edges(), r@[i].0)
                    && (self.spec_ascending() ==> increasing(r@[i].1@)),
            decreases ids.len() - k,
        {
            let id = ids[k];
            r.push((id, self.repr.neighbor_ids(id)));
            k = k + 1;
        }
        proof {
            assert(r@.map_values(|p: (usize, Vec<usize>)| p.0) =~= ids@);
        }
        r
    }
}

impl<D: Directional, C: Cyclical, N, E, R: GraphRepr<N, E>> IsComplete<N, E> for Graph<D, C, N, E, R> {
    fn is_complete(&self) -> (r: bool) {
        let ids = self.repr.node_ids();
        let mut k: usize = 0;
        while k < ids.len()
            invariant
                self.valid(),
                k <= ids@.len(),
                ids@.to_set() == self.spec_nodes().dom(),
                forall|i: int, j: int| 0 <= i < k && 0 <= j < ids@.len() && ids@[i] != ids@[j]
                    ==> #[trigger] self.spec_edges().contains_key((ids@[i], ids@[j])),
            decreases ids.len() - k,
        {
            let mut l: usize = 0;
            while l < ids.len()
                invariant
                    self.valid(),
                    k < ids@.len(),
                    l <= ids@.len(),
                    ids@.to_set() == self.spec_nodes().dom(),
                    forall|i: int, j: int| 0 <= i < k && 0 <= j < ids@.len() && ids@[i] != ids@[j]
                        ==> #[trigger] self.spec_edges().contains_key((ids@[i], ids@[j])),
                    forall|j: int| 0 <= j < l && ids@[k as int] != ids@[j]
                        ==> #[trigger] self.spec_edges().contains_key((ids@[k as int], ids@[j])),
                decreases ids.len() - l,
            {
                if ids[k] != ids[l] && self.repr.edge(ids[k], ids[l]).is_none() {
                    proof {
                        assert(ids@.to_set().contains(ids@[k as int]));
                        assert(ids@.to_set().contains(ids@[l as int]));
                    }
                    return false;
                }
                l = l + 1;
            }
            k = k + 1;
        }
        proof {
            assert forall|a: usize, b: usize|
                self.spec_nodes().contains_key(a) && self.spec_nodes().contains_key(b) && a != b
                implies #[trigger] self.spec_edges().contains_key((a, b)) by {
                assert(ids@.to_set().contains(a));
                assert(ids@.to_set().contains(b));
                let i = choose|i: int| 0 <= i < ids@.len() && ids@[i] == a;
                let j = choose|j: int| 0 <= j < ids@.len() && ids@[j] == b;
                assert(self.spec_edges().contains_key((ids@[i], ids@[j])));
            }
        }
        true
    }
}

impl<D: Directional, C: Cyclical, N, E, R: GraphRepr<N, E>> Order<N, E> for Graph<D, C, N, E, R> {
    fn order(&self) -> (r: usize) {
        let ids = self.repr.node_ids();
        proof {
            ids@.unique_seq_to_set();
        }
        ids.len()
    }
}

impl<D: Directional, C: Cyclical, N, E, R: GraphRepr<N, E>> IsNull<N, E> for Graph<D, C, N, E, R> {
    fn is_null(&self) -> (r: bool) {
        proof {
            self.lemma_valid();
            crate::traits::lemma_null_iff_order_zero(self.spec_nodes());
        }
        self.order() == 0
    }
}

impl<D: Directional, C: Cyclical, N, E, R: GraphRepr<N, E>> IsChildNode<N, E> for Graph<D, C, N, E, R> {
    fn is_child_node(&self, id: usize) -> (r: bool) {
        self.contains_node(id)
    }
}

impl<D: Directional, C: Cyclical, N, E, R: GraphRepr<N, E>> AreAdjacentNodes<N, E> for Graph<D, C, N, E, R> {
    fn are_adjacent_nodes(&self, node_1: usize, node_2: usize) -> (r: bool) {
        proof {
            self.lemma_valid();
        }
        self.is_child_node(node_1) && self.is_child_node(node_2) && self.contains_edge(node_1, node_2)
    }
}

impl<D: Directional, C: Cyclical, N, E, R: GraphRepr<N, E>> AreAdjacentEdges<N, E> for Graph<D, C, N, E, R> {
    fn are_adjacent_edges(&self, node_1: usize, node_2: usize, node_3: usize) -> (r: bool) {
        self.are_adjacent_nodes(node_1, node_2) && self.are_adjacent_nodes(node_2, node_3)
    }
}

impl<D: Directional, C: Cyclical, N, E, R: GraphRepr<N, E>> Graph<D, C, N, E, R> {
    /// Whether the node `id` has no outgoing edge.
    fn has_no_out_edge(&self, id: usize) -> (r: bool)
        requires
            self.valid(),
        ensures
            r == (targets(self.spec_edges(), id) == Set::<usize>::empty()),
    {
        let nbrs = self.repr.neighbor_ids(id);
        if nbrs.len() == 0 {
            proof {
                assert(nbrs@.to_set() =~= Set::<usize>::empty());
            }
            true
        } else {
            proof {
                assert(nbrs@.to_set().contains(nbrs@[0]));
            }
            false
        }
    }

    /// Whether no node in `ids` has an outgoing edge.
    fn no_edge_from(&self, ids: &Vec<usize>) -> (r: bool)
        requires
            self.valid(),
            ids@.to_set() == self.spec_nodes().dom(),
        ensures
            r == (self.spec_edges() == Map::<(usize, usize), E>::empty()),
    {
        proof {
            self.lemma_valid();
        }
        let mut k: usize = 0;
        while k < ids.len()
            invariant
                self.valid(),
                k <= ids@.len(),
                ids@.to_set() == self.spec_nodes().dom(),
                forall|i: int, b: usize| 0 <= i < k ==> !#[trigger] self.spec_edges().contains_key((ids@[i], b)),
            decreases ids.len() - k,
        {
            if !self.has_no_out_edge(ids[k]) {
                proof {
                    let t = targets(self.spec_edges(), ids@[k as int]);
                    if forall|b: usize| !t.contains(b) {
                        assert(t =~= Set::<usize>::empty());
                    }
                    let b = choose|b: usize| t.contains(b);
                    assert(self.spec_edges().dom().contains((ids@[k as int], b)));
                    self.lemma_valid();
                }
                return false;
            }
            proof {
                assert forall|i: int, b: usize| 0 <= i < k + 1 implies !#[trigger] self.spec_edges().contains_key((ids@[i], b)) by {
                    if i == k {
                        assert(!targets(self.spec_edges(), ids@[k as int]).contains(b));
                    }
                }
            }
            k = k + 1;
        }
        proof {
            self.lemma_valid();
            assert forall|p: (usize, usize)| !self.spec_edges().dom().contains(p) by {
                if self.spec_edges().contains_key(p) {
                    assert(ids@.to_set().contains(p.0));
                    let i = choose|i: int| 0 <= i < ids@.len() && ids@[i] == p.0;
                    assert(!self.spec_edges().contains_key((ids@[i], p.1)));
                }
            }
            assert(self.spec_edges() =~= Map::<(usize, usize), E>::empty());
        }
        true
    }
}

impl<D: Directional, C: Cyclical, N, E, R: GraphRepr<N, E>> IsEmpty<N, E> for Graph<D, C, N, E, R> {
    fn is_empty(&self) -> (r: bool) {
        let ids = self.repr.node_ids();
        proof {
            ids@.unique_seq_to_set();
            self.lemma_valid();
            crate::traits::lemma_null_iff_order_zero(self.spec_nodes());
        }
        ids.len() > 0 && self.no_edge_from(&ids)
    }
}

impl<D: Directional, C: Cyclical, N, E, R: GraphRepr<N, E>> IsTrivial<N, E> for Graph<D, C, N, E, R> {
    fn is_trivial(&self) -> (r: bool) {
        let ids = self.repr.node_ids();
        proof {
            ids@.unique_seq_to_set();
        }
        ids.len() == 1 && self.no_edge_from(&ids)
    }
}

impl<D: Directional, C: Cyclical, N, E, R: GraphRepr<N, E>> IsSubgraph<N, E> for Graph<D, C, N, E, R> {
    fn is_subgraph(&self, subgraph: &Self) -> (r: bool) {
        proof {
            subgraph.lemma_valid();
        }
        let ids = subgraph.repr.node_ids();
        let mut k: usize = 0;
        while k < ids.len()
            invariant
                self.valid(),
                subgraph.valid(),
                k <= ids@.len(),
                ids@.to_set() == subgraph.spec_nodes().dom(),
                forall|i: int| 0 <= i < k ==> self.spec_nodes().contains_key(#[trigger] ids@[i]),
                forall|i: int, b: usize| 0 <= i < k && #[trigger] subgraph.spec_edges().contains_key((ids@[i], b))
                    ==> self.spec_edges().contains_key((ids@[i], b)),
            decreases ids.len() - k,
        {
            let id = ids[k];
            if !self.contains_node(id) {
                proof {
                    assert(ids@.to_set().contains(id));
                }
                return false;
            }
            let nbrs = subgraph.repr.neighbor_ids(id);
            let mut l: usize = 0;
            while l < nbrs.len()
                invariant
                    self.valid(),
                    subgraph.valid(),
                    k < ids@.len(),
                    id == ids@[k as int],
                    l <= nbrs@.len(),
                    nbrs@.to_set() == targets(subgraph.spec_edges(), id),
                    forall|j: int| 0 <= j < l ==> self.spec_edges().contains_key((id, #[trigger] nbrs@[j])),
                decreases nbrs.len() - l,
            {
                if !self.contains_edge(id, nbrs[l]) {
                    proof {
                        assert(nbrs@.to_set().contains(nbrs@[l as int]));
                    }
                    return false;
                }
                l = l + 1;
            }
            proof {
                assert forall|i: int, b: usize| 0 <= i < k + 1 && #[trigger] subgraph.spec_edges().contains_key((ids@[i], b))
                    implies self.spec_edges().contains_key((ids@[i], b)) by {
                    if i == k {
                        assert(targets(subgraph.spec_edges(), id).contains(b));
                        let j = choose|j: int| 0 <= j < nbrs@.len() && nbrs@[j] == b;
                        assert(self.spec_edges().contains_key((id, nbrs@[j])));
                    }
                }
            }
            k = k + 1;
        }
        proof {
            assert forall|a: usize| subgraph.spec_nodes().dom().contains(a) implies self.spec_nodes().dom().contains(a) by {
                assert(ids@.to_set().contains(a));
                let i = choose|i: int| 0 <= i < ids@.len() && ids@[i] == a;
                assert(self.spec_nodes().contains_key(ids@[i]));
            }
            assert forall|p: (usize, usize)| subgraph.spec_edges().dom().contains(p) implies self.spec_edges().dom().contains(p) by {
                assert(ids@.to_set().contains(p.0));
                let i = choose|i: int| 0 <= i < ids@.len() && ids@[i] == p.0;
                assert(subgraph.spec_edges().contains_key((ids@[i], p.1)));
            }
        }
        true
    }
}

impl<D: Directional, C: Cyclical, N, E, R: GraphRepr<N, E>> IsImproperSubgraph<N, E> for Graph<D, C, N, E, R> {
    fn is_improper_subgraph(&self, subgraph: &Self) -> (r: bool) {
        let r = self.is_subgraph(subgraph) && subgraph.is_subgraph(self);
        proof {
            if r {
                assert(self.spec_nodes().dom() =~= subgraph.spec_nodes().dom());
                assert(self.spec_edges().dom() =~= subgraph.spec_edges().dom());
            }
        }
        r
    }
}

impl<D: Directional, C: Cyclical, N, E, R: GraphRepr<N, E>> IsProperSubgraph<N, E> for Graph<D, C, N, E, R> {
    fn is_proper_subgraph(&self, subgraph: &Self) -> (r: bool) {
        self.is_subgraph(subgraph) && !subgraph.is_subgraph(self)
    }
}

impl<D: Directional, C: Cyclical, N, E, R: GraphRepr<N, E>> IsSpanningSubgraph<N, E> for Graph<D, C, N, E, R> {
    fn is_spanning_subgraph(&self, subgraph: &Self) -> (r: bool) {
        self.is_subgraph(subgraph) && self.order() == subgraph.order()
    }
}

impl<D: Directional, C: Cyclical, N, E, R: GraphRepr<N, E>> Size<N, E> for Graph<D, C, N, E, R> {
    fn size(&self) -> (r: usize) {
        let directed = D::directed();
        let ghost all = counted_edges(self.spec_edges(), directed);
        let ids = self.repr.node_ids();
        let mut count: usize = 0;
        let ghost mut acc: Set<(usize, usize)> = Set::empty();
        let mut k: usize = 0;
        proof {
            self.lemma_valid();
        }
        while k < ids.len()
            invariant
                self.valid(),
                directed == D::spec_directed(),
                all == counted_edges(self.spec_edges(), directed),
                k <= ids@.len(),
                ids@.no_duplicates(),
                ids@.to_set() == self.spec_nodes().dom(),
                acc.finite(),
                forall|p: (usize, usize)| #[trigger] acc.contains(p) <==> all.contains(p) && ids@.take(k as int).contains(p.0),
                count == if acc.len() <= usize::MAX { acc.len() } else { usize::MAX as nat },
            decreases ids.len() - k,
        {
            let id = ids[k];
            let nbrs = self.repr.neighbor_ids(id);
            let mut l: usize = 0;
            while l < nbrs.len()
                invariant
                    self.valid(),
                    directed == D::spec_directed(),
                    all == counted_edges(self.spec_edges(), directed),
                    k < ids@.len(),
                    id == ids@[k as int],
                    ids@.no_duplicates(),
                    l <= nbrs@.len(),
                    nbrs@.no_duplicates(),
                    nbrs@.to_set() == targets(self.spec_edges(), id),
                    acc.finite(),
                    forall|p: (usize, usize)| #[trigger] acc.contains(p) <==> all.contains(p)
                        && (ids@.take(k as int).contains(p.0) || (p.0 == id && nbrs@.take(l as int).contains(p.1))),
                    count == if acc.len() <= usize::MAX { acc.len() } else { usize::MAX as nat },
                decreases nbrs.len() - l,
            {
                let to = nbrs[l];
                proof {
                    assert(nbrs@.to_set().contains(to));
                    assert(nbrs@.take(l as int + 1) =~= nbrs@.take(l as int).push(to));
                }
                if directed || id <= to {
                    proof {
                        assert(!ids@.take(k as int).contains(id)) by {
                            if ids@.take(k as int).contains(id) {
                                let i = choose|i: int| 0 <= i < k && ids@.take(k as int)[i] == id;
                                assert(ids@[i] == ids@[k as int]);
                            }
                        }
                        assert(!nbrs@.take(l as int).contains(to)) by {
                            if nbrs@.take(l as int).contains(to) {
                                let j = choose|j: int| 0 <= j < l && nbrs@.take(l as int)[j] == to;
                                assert(nbrs@[j] == nbrs@[l as int]);
                            }
                        }
                        assert(!acc.contains((id, to)));
                        acc = acc.insert((id, to));
                    }
                    if count < usize::MAX {
                        count = count + 1;
                    }
                }
                proof {
                    assert(targets(self.spec_edges(), id).contains(to));
                    assert(self.spec_edges().dom().contains((id, to)));
                    assert(all.contains((id, to)) == (directed || id <= to));
                    assert forall|p: (usize, usize)| #[trigger] acc.contains(p) <==> all.contains(p)
                        && (ids@.take(k as int).contains(p.0) || (p.0 == id && nbrs@.take(l as int + 1).contains(p.1))) by {
                        if p.0 == id && p.1 == to {
                            assert(nbrs@.take(l as int + 1)[l as int] == to);
                        }
                    }
                }
                l = l + 1;
            }
            proof {
                assert(ids@.take(k as int + 1) =~= ids@.take(k as int).push(id));
                assert(nbrs@.take(nbrs@.len() as int) =~= nbrs@);
                assert forall|p: (usize, usize)| #[trigger] acc.contains(p) <==> all.contains(p) && ids@.take(k as int + 1).contains(p.0) by {
                    let t0 = ids@.take(k as int);
                    let t1 = ids@.take(k as int + 1);
                    if t0.contains(p.0) {
                        let i = choose|i: int| 0 <= i < t0.len() && #[trigger] t0[i] == p.0;
                        assert(t1[i] == p.0);
                    }
                    if p.0 == id {
                        assert(t1[k as int] == id);
                    }
                    if t1.contains(p.0) && !t0.contains(p.0) {
                        let i = choose|i: int| 0 <= i < t1.len() && #[trigger] t1[i] == p.0;
                        if i < k {
                            assert(t0[i] == p.0);
                        }
                        assert(p.0 == id);
                    }
                    if all.contains(p) && p.0 == id {
                        assert(targets(self.spec_edges(), id).contains(p.1));
                        assert(nbrs@.to_set().contains(p.1));
                    }
                }
            }
            k = k + 1;
        }
        proof {
            assert(ids@.take(ids@.len() as int) =~= ids@);
            assert forall|p: (usize, usize)| all.contains(p) implies ids@.contains(p.0) by {
                assert(ids@.to_set().contains(p.0));
            }
            assert(acc =~= all);
        }
        count
    }
}

} // verus!
