use vstd::prelude::*;

verus! {

/// Looks `k` up in `m`, as an optional value.
pub open spec fn lookup<K, V>(m: Map<K, V>, k: K) -> Option<V> {
    if m.contains_key(k) {
        Some(m[k])
    } else {
        None
    }
}

/// A borrowed lookup result agrees with the entry of `m` at `k`.
pub open spec fn ref_matches<K, V>(r: Option<&V>, m: Map<K, V>, k: K) -> bool {
    match r {
        Some(v) => m.contains_key(k) && *v == m[k],
        None => !m.contains_key(k),
    }
}

/// The edges of `edges` that neither start nor end at `id`.
pub open spec fn edges_without<K, E>(edges: Map<(K, K), E>, id: K) -> Map<(K, K), E> {
    edges.restrict(edges.dom().filter(|p: (K, K)| p.0 != id && p.1 != id))
}

/// The targets of the edges of `edges` that leave `id`.
pub open spec fn targets<K, E>(edges: Map<(K, K), E>, id: K) -> Set<K> {
    Set::new(|j: K| edges.contains_key((id, j)))
}

/// Each element of `s` is smaller than the ones after it.
pub open spec fn increasing(s: Seq<usize>) -> bool {
    forall|a: int, b: int| 0 <= a < b < s.len() ==> s[a] < s[b]
}

/// Every edge joins two nodes, and both maps are finite.
pub open spec fn storage_ok<N, E>(nodes: Map<usize, N>, edges: Map<(usize, usize), E>) -> bool {
    &&& nodes.dom().finite()
    &&& edges.dom().finite()
    &&& forall|p: (usize, usize)| #[trigger] edges.contains_key(p)
        ==> nodes.contains_key(p.0) && nodes.contains_key(p.1)
}

/// A node paired with its adjacency storage.
pub struct NodeRepr<N, A> {
    pub node: N,
    pub adjs: A,
}

/// The storage contract that every representation meets: a finite map from
/// node identifier to payload, and a finite map from (source, target) to
/// edge payload whose endpoints are always nodes.
pub trait GraphRepr<N, E>: Sized {
    /// The nodes, by identifier.
    spec fn spec_nodes(&self) -> Map<usize, N>;

    /// The edges, by (source, target).
    spec fn spec_edges(&self) -> Map<(usize, usize), E>;

    /// Whether this storage can hold a node under `id` (a fixed capacity bounds it).
    spec fn spec_holds_id(id: usize) -> bool;

    /// Whether `node_ids` and `neighbor_ids` list in ascending order.
    spec fn spec_ascending() -> bool;

    /// The representation's invariant.
    spec fn well_formed(&self) -> bool;

    proof fn lemma_well_formed(&self)
        requires
            self.well_formed(),
        ensures
            storage_ok(self.spec_nodes(), self.spec_edges()),
            forall|i: usize| #[trigger] self.spec_nodes().contains_key(i) ==> Self::spec_holds_id(i),
    ;

    fn empty() -> (r: Self)
        ensures
            r.well_formed(),
            r.spec_nodes() == Map::<usize, N>::empty(),
            r.spec_edges() == Map::<(usize, usize), E>::empty(),
    ;

    fn holds_id(id: usize) -> (r: bool)
        ensures
            r == Self::spec_holds_id(id),
    ;

    fn node(&self, id: usize) -> (r: Option<&N>)
        requires
            self.well_formed(),
        ensures
            ref_matches(r, self.spec_nodes(), id),
    ;

    fn edge(&self, id1: usize, id2: usize) -> (r: Option<&E>)
        requires
            self.well_formed(),
        ensures
            ref_matches(r, self.spec_edges(), (id1, id2)),
    ;

    /// Inserts or overwrites the node at `id`, returning the node it
    /// replaces; its edges stay.
    fn insert_node(&mut self, id: usize, node: N) -> (r: Option<N>)
        requires
            old(self).well_formed(),
            Self::spec_holds_id(id),
        ensures
            final(self).well_formed(),
            r == lookup(old(self).spec_nodes(), id),
            final(self).spec_nodes() == old(self).spec_nodes().insert(id, node),
            final(self).spec_edges() == old(self).spec_edges(),
    ;

    /// Removes the node at `id` together with every edge that touches it.
    fn take_node(&mut self, id: usize) -> (r: Option<N>)
        requires
            old(self).well_formed(),
        ensures
            final(self).well_formed(),
            r == lookup(old(self).spec_nodes(), id),
            final(self).spec_nodes() == old(self).spec_nodes().remove(id),
            final(self).spec_edges() == edges_without(old(self).spec_edges(), id),
    ;

    /// Inserts or overwrites the edge from `id1` to `id2`, both of them nodes.
    fn insert_edge(&mut self, id1: usize, id2: usize, edge: E)
        requires
            old(self).well_formed(),
            old(self).spec_nodes().contains_key(id1),
            old(self).spec_nodes().contains_key(id2),
        ensures
            final(self).well_formed(),
            final(self).spec_nodes() == old(self).spec_nodes(),
            final(self).spec_edges() == old(self).spec_edges().insert((id1, id2), edge),
    ;

    /// Removes the edge from `id1` to `id2`.
    fn take_edge(&mut self, id1: usize, id2: usize) -> (r: Option<E>)
        requires
            old(self).well_formed(),
        ensures
            final(self).well_formed(),
            r == lookup(old(self).spec_edges(), (id1, id2)),
            final(self).spec_nodes() == old(self).spec_nodes(),
            final(self).spec_edges() == old(self).spec_edges().remove((id1, id2)),
    ;

    /// Removes every node and every edge.
    fn remove_all_nodes(&mut self)
        requires
            old(self).well_formed(),
        ensures
            final(self).well_formed(),
            final(self).spec_nodes() == Map::<usize, N>::empty(),
            final(self).spec_edges() == Map::<(usize, usize), E>::empty(),
    ;

    /// Removes every edge and keeps the nodes.
    fn remove_all_edges(&mut self)
        requires
            old(self).well_formed(),
        ensures
            final(self).well_formed(),
            final(self).spec_nodes() == old(self).spec_nodes(),
            final(self).spec_edges() == Map::<(usize, usize), E>::empty(),
    ;

    /// The node identifiers, each once, in the representation's order.
    fn node_ids(&self) -> (r: Vec<usize>)
        requires
            self.well_formed(),
        ensures
            Self::spec_ascending() ==> increasing(r@),
            r@.no_duplicates(),
            r@.to_set() == self.spec_nodes().dom(),
    ;

    /// The targets of the edges that leave `id`, each once.
    fn neighbor_ids(&self, id: usize) -> (r: Vec<usize>)
        requires
            self.well_formed(),
        ensures
            Self::spec_ascending() ==> increasing(r@),
            r@.no_duplicates(),
            r@.to_set() == targets(self.spec_edges(), id),
    ;
}

/// Ordered storage: nodes and each node's edges in ordered maps, so that
/// identifiers come out in ascending order.
pub struct BTreeRepr<N, E> {
    pub(crate) map: std::collections::BTreeMap<usize, NodeRepr<N, std::collections::BTreeMap<usize, E>>>,
}

/// Hashed storage: nodes and each node's edges in hash maps; identifiers
/// come out in an unspecified order.
pub struct HashRepr<N, E> {
    pub(crate) map: std::collections::HashMap<usize, NodeRepr<N, std::collections::HashMap<usize, E>>>,
}

/// Fixed-capacity storage: `SIZE` node slots and a `SIZE` by `SIZE` edge matrix.
pub struct StaticRepr<N, E, const SIZE: usize> {
    pub(crate) slots: Vec<NodeRepr<Option<N>, Vec<Option<E>>>>,
}

/// Growable storage: one slot per identifier up to the largest one used.
pub struct DynRepr<N, E> {
    pub(crate) slots: Vec<NodeRepr<Option<N>, Vec<Option<E>>>>,
}

} // verus!
