use vstd::prelude::*;

use crate::graph::traverser::{AnyEdge, Traverser};
use crate::graph::{Cyclic, Graph};
use crate::graph_repr::BTreeRepr;

pub use crate::graph::Directed;

verus! {

/// A directed graph on ordered storage; its nodes and each node's edges
/// come out in ascending identifier order.
pub type DiGraph<N, E> = Graph<Directed, Cyclic, N, E, BTreeRepr<N, E>>;

/// A traverser over a `DiGraph` that follows every edge.
pub type DiTraverser<'a, N, E> = Traverser<'a, Directed, Cyclic, N, E, BTreeRepr<N, E>, AnyEdge>;

} // verus!
