use std::collections::VecDeque;

use vstd::prelude::*;

use crate::graph::{Cyclical, Directional, Graph};
use crate::graph_repr::{GraphRepr, increasing, storage_ok, targets};
use crate::traits::GraphView;

verus! {

/// Which edges a traversal may follow, judged by the edge's payload.
pub trait EdgePolicy<E> {
    spec fn spec_follows(edge: E) -> bool;

    fn follows(edge: &E) -> (r: bool)
        ensures
            r == Self::spec_follows(*edge),
    ;
}

/// Every edge may be followed.
pub struct AnyEdge;

/// Only an edge whose payload is `true` may be followed.
pub struct EnabledEdge;

impl<E> EdgePolicy<E> for AnyEdge {
    open spec fn spec_follows(edge: E) -> bool {
        true
    }

    fn follows(edge: &E) -> (r: bool) {
        true
    }
}

impl EdgePolicy<bool> for EnabledEdge {
    open spec fn spec_follows(edge: bool) -> bool {
        edge
    }

    fn follows(edge: &bool) -> (r: bool) {
        *edge
    }
}

/// A traversal may go from `a` to `b` in one step.
pub open spec fn step<E, P: EdgePolicy<E>>(edges: Map<(usize, usize), E>, a: usize, b: usize) -> bool {
    edges.contains_key((a, b)) && P::spec_follows(edges[(a, b)])
}

/// `p` is a nonempty sequence of nodes, each a step from the one before.
pub open spec fn is_walk<E, P: EdgePolicy<E>>(edges: Map<(usize, usize), E>, p: Seq<usize>) -> bool {
    &&& p.len() > 0
    &&& forall|i: int| 0 <= i < p.len() - 1 ==> #[trigger] step::<E, P>(edges, p[i], p[i + 1])
}

/// `v` can be reached from the node `start` by steps.
pub open spec fn reachable<N, E, P: EdgePolicy<E>>(
    nodes: Map<usize, N>,
    edges: Map<(usize, usize), E>,
    start: usize,
    v: usize,
) -> bool {
    &&& nodes.contains_key(start)
    &&& exists|p: Seq<usize>| #[trigger] is_walk::<E, P>(edges, p) && p[0] == start && p.last() == v
}

/// A set of nodes, given as a sequence, that contains every step out of it.
pub open spec fn closed_under<E, P: EdgePolicy<E>>(edges: Map<(usize, usize), E>, s: Seq<usize>) -> bool {
    forall|v: usize, w: usize| s.contains(v) && #[trigger] step::<E, P>(edges, v, w) ==> s.contains(w)
}

/// A walk that starts inside a set closed under steps ends inside it.
pub proof fn lemma_walk_stays_in_closed<E, P: EdgePolicy<E>>(edges: Map<(usize, usize), E>, s: Seq<usize>, p: Seq<usize>)
    requires
        is_walk::<E, P>(edges, p),
        s.contains(p[0]),
        closed_under::<E, P>(edges, s),
    ensures
        s.contains(p.last()),
    decreases p.len(),
{
    if p.len() > 1 {
        let q = p.drop_last();
        assert forall|i: int| 0 <= i < q.len() - 1 implies #[trigger] step::<E, P>(edges, q[i], q[i + 1]) by {
            assert(step::<E, P>(edges, p[i], p[i + 1]));
        }
        lemma_walk_stays_in_closed::<E, P>(edges, s, q);
        let i = p.len() - 2;
        assert(step::<E, P>(edges, p[i], p[i + 1]));
    }
}

/// A node reachable from `start` stays reachable one step further.
pub proof fn lemma_reach_step<N, E, P: EdgePolicy<E>>(
    nodes: Map<usize, N>,
    edges: Map<(usize, usize), E>,
    start: usize,
    v: usize,
    w: usize,
)
    requires
        reachable::<N, E, P>(nodes, edges, start, v),
        step::<E, P>(edges, v, w),
    ensures
        reachable::<N, E, P>(nodes, edges, start, w),
{
    let p = choose|p: Seq<usize>| #[trigger] is_walk::<E, P>(edges, p) && p[0] == start && p.last() == v;
    let q = p.push(w);
    assert forall|i: int| 0 <= i < q.len() - 1 implies #[trigger] step::<E, P>(edges, q[i], q[i + 1]) by {
        if i < p.len() - 1 {
            assert(step::<E, P>(edges, p[i], p[i + 1]));
        }
    }
    assert(is_walk::<E, P>(edges, q));
}

/// Drives breadth-first and depth-first traversals over one graph.
pub struct Traverser<'a, D, C, N, E, R, P> {
    pub graph: &'a Graph<D, C, N, E, R>,
    pub policy: std::marker::PhantomData<P>,
}


/// The first pending node of `q` that `v` does not hold, with what follows it.
pub open spec fn pop_front_unvisited(q: Seq<usize>, v: Seq<usize>) -> Option<(usize, Seq<usize>)>
    decreases q.len(),
{
    if q.len() == 0 {
        None
    } else if v.contains(q[0]) {
        pop_front_unvisited(q.drop_first(), v)
    } else {
        Some((q[0], q.drop_first()))
    }
}

/// The last pending node of `q` that `v` does not hold, with what precedes it.
pub open spec fn pop_back_unvisited(q: Seq<usize>, v: Seq<usize>) -> Option<(usize, Seq<usize>)>
    decreases q.len(),
{
    if q.len() == 0 {
        None
    } else if v.contains(q.last()) {
        pop_back_unvisited(q.drop_last(), v)
    } else {
        Some((q.last(), q.drop_last()))
    }
}

/// The elements of `s`, in order, that are one step from `x` and not in `v`.
pub open spec fn fresh_successors<E, P: EdgePolicy<E>>(edges: Map<(usize, usize), E>, x: usize, s: Seq<usize>, v: Seq<usize>) -> Seq<usize>
    decreases s.len(),
{
    if s.len() == 0 {
        Seq::empty()
    } else if step::<E, P>(edges, x, s.last()) && !v.contains(s.last()) {
        fresh_successors::<E, P>(edges, x, s.drop_last(), v).push(s.last())
    } else {
        fresh_successors::<E, P>(edges, x, s.drop_last(), v)
    }
}

/// `s` lists the targets of the edges leaving `x`, each once, and in
/// ascending order when `ascending`.
pub open spec fn listing_of<E>(edges: Map<(usize, usize), E>, x: usize, s: Seq<usize>, ascending: bool) -> bool {
    &&& s.no_duplicates()
    &&& s.to_set() == targets(edges, x)
    &&& ascending ==> increasing(s)
}

/// `q2` is `rest` followed by the unvisited (by `v2`) successors of `x`, in
/// the order the graph lists the targets of `x`.
pub open spec fn expanded<E, P: EdgePolicy<E>>(
    edges: Map<(usize, usize), E>,
    ascending: bool,
    x: usize,
    rest: Seq<usize>,
    v2: Seq<usize>,
    q2: Seq<usize>,
) -> bool {
    exists|s: Seq<usize>| #[trigger] listing_of(edges, x, s, ascending) && q2 == rest + fresh_successors::<E, P>(edges, x, s, v2)
}

/// One breadth-first step: the first unvisited node of the queue is visited,
/// the queue keeps what came after it, and its unvisited successors are
/// appended.
pub open spec fn bfs_advance<E, P: EdgePolicy<E>>(
    edges: Map<(usize, usize), E>,
    ascending: bool,
    q: Seq<usize>,
    v: Seq<usize>,
    q2: Seq<usize>,
    v2: Seq<usize>,
) -> bool {
    match pop_front_unvisited(q, v) {
        Some(p) => v2 == v.push(p.0) && expanded::<E, P>(edges, ascending, p.0, p.1, v2, q2),
        None => false,
    }
}

/// One depth-first step: the last unvisited node of the stack is visited,
/// the stack keeps what came before it, and its unvisited successors are
/// pushed.
pub open spec fn dfs_advance<E, P: EdgePolicy<E>>(
    edges: Map<(usize, usize), E>,
    ascending: bool,
    q: Seq<usize>,
    v: Seq<usize>,
    q2: Seq<usize>,
    v2: Seq<usize>,
) -> bool {
    match pop_back_unvisited(q, v) {
        Some(p) => v2 == v.push(p.0) && expanded::<E, P>(edges, ascending, p.0, p.1, v2, q2),
        None => false,
    }
}

/// The pending nodes a traversal from `start` begins with.
pub open spec fn initial<N>(nodes: Map<usize, N>, start: usize) -> Seq<usize> {
    if nodes.contains_key(start) {
        seq![start]
    } else {
        Seq::empty()
    }
}

/// `states` (pending, visited) are a whole breadth-first run: it begins with
/// `init` pending and nothing visited, each state advances to the next, and
/// the last has no unvisited pending node.
pub open spec fn bfs_trace<E, P: EdgePolicy<E>>(
    edges: Map<(usize, usize), E>,
    ascending: bool,
    init: Seq<usize>,
    states: Seq<(Seq<usize>, Seq<usize>)>,
) -> bool {
    &&& states.len() > 0
    &&& states[0] == (init, Seq::<usize>::empty())
    &&& forall|i: int| 0 <= i < states.len() - 1
        ==> #[trigger] bfs_advance::<E, P>(edges, ascending, states[i].0, states[i].1, states[i + 1].0, states[i + 1].1)
    &&& pop_front_unvisited(states.last().0, states.last().1) is None
}

/// `states` are a whole depth-first run, as `bfs_trace` with a stack.
pub open spec fn dfs_trace<E, P: EdgePolicy<E>>(
    edges: Map<(usize, usize), E>,
    ascending: bool,
    init: Seq<usize>,
    states: Seq<(Seq<usize>, Seq<usize>)>,
) -> bool {
    &&& states.len() > 0
    &&& states[0] == (init, Seq::<usize>::empty())
    &&& forall|i: int| 0 <= i < states.len() - 1
        ==> #[trigger] dfs_advance::<E, P>(edges, ascending, states[i].0, states[i].1, states[i + 1].0, states[i + 1].1)
    &&& pop_back_unvisited(states.last().0, states.last().1) is None
}

/// What taking the first unvisited node leaves and reveals.
pub proof fn lemma_pop_front(q: Seq<usize>, v: Seq<usize>)
    ensures
        match pop_front_unvisited(q, v) {
            None => forall|w: usize| q.contains(w) ==> v.contains(w),
            Some(p) => {
                &&& q.contains(p.0)
                &&& !v.contains(p.0)
                &&& forall|w: usize| p.1.contains(w) ==> q.contains(w)
                &&& forall|w: usize| q.contains(w) ==> v.contains(w) || w == p.0 || p.1.contains(w)
            },
        },
    decreases q.len(),
{
    if q.len() > 0 {
        let t = q.drop_first();
        assert forall|w: usize| q.contains(w) implies w == q[0] || t.contains(w) by {
            let i = choose|i: int| 0 <= i < q.len() && q[i] == w;
            if i > 0 {
                assert(t[i - 1] == w);
            }
        }
        assert forall|w: usize| t.contains(w) implies q.contains(w) by {
            let i = choose|i: int| 0 <= i < t.len() && t[i] == w;
            assert(q[i + 1] == w);
        }
        assert(q.contains(q[0])) by {
            assert(q[0] == q[0]);
        }
        if v.contains(q[0]) {
            lemma_pop_front(t, v);
        }
    }
}

/// What taking the last unvisited node leaves and reveals.
pub proof fn lemma_pop_back(q: Seq<usize>, v: Seq<usize>)
    ensures
        match pop_back_unvisited(q, v) {
            None => forall|w: usize| q.contains(w) ==> v.contains(w),
            Some(p) => {
                &&& q.contains(p.0)
                &&& !v.contains(p.0)
                &&& forall|w: usize| p.1.contains(w) ==> q.contains(w)
                &&& forall|w: usize| q.contains(w) ==> v.contains(w) || w == p.0 || p.1.contains(w)
            },
        },
    decreases q.len(),
{
    if q.len() > 0 {
        let t = q.drop_last();
        assert forall|w: usize| q.contains(w) implies w == q.last() || t.contains(w) by {
            let i = choose|i: int| 0 <= i < q.len() && q[i] == w;
            if i < q.len() - 1 {
                assert(t[i] == w);
            }
        }
        assert forall|w: usize| t.contains(w) implies q.contains(w) by {
            let i = choose|i: int| 0 <= i < t.len() && t[i] == w;
            assert(q[i] == w);
        }
        assert(q.contains(q.last())) by {
            assert(q[q.len() - 1] == q.last());
        }
        if v.contains(q.last()) {
            lemma_pop_back(t, v);
        }
    }
}

/// The fresh successors are exactly the listed, followable, unvisited ones.
pub proof fn lemma_fresh<E, P: EdgePolicy<E>>(edges: Map<(usize, usize), E>, x: usize, s: Seq<usize>, v: Seq<usize>)
    ensures
        forall|w: usize| #[trigger] fresh_successors::<E, P>(edges, x, s, v).contains(w)
            <==> s.contains(w) && step::<E, P>(edges, x, w) && !v.contains(w),
    decreases s.len(),
{
    if s.len() > 0 {
        let t = s.drop_last();
        lemma_fresh::<E, P>(edges, x, t, v);
        let f = fresh_successors::<E, P>(edges, x, t, v);
        assert forall|w: usize| s.contains(w) implies w == s.last() || t.contains(w) by {
            let i = choose|i: int| 0 <= i < s.len() && s[i] == w;
            if i < s.len() - 1 {
                assert(t[i] == w);
            }
        }
        assert forall|w: usize| t.contains(w) implies s.contains(w) by {
            let i = choose|i: int| 0 <= i < t.len() && t[i] == w;
            assert(s[i] == w);
        }
        assert(s.contains(s.last())) by {
            assert(s[s.len() - 1] == s.last());
        }
        assert forall|w: usize| f.push(s.last()).contains(w) <==> f.contains(w) || w == s.last() by {
            if f.push(s.last()).contains(w) {
                let i = choose|i: int| 0 <= i < f.len() + 1 && f.push(s.last())[i] == w;
                if i < f.len() {
                    assert(f[i] == w);
                }
            }
            if f.contains(w) {
                let i = choose|i: int| 0 <= i < f.len() && f[i] == w;
                assert(f.push(s.last())[i] == w);
            }
            if w == s.last() {
                assert(f.push(s.last())[f.len() as int] == w);
            }
        }
        assert forall|w: usize| #[trigger] fresh_successors::<E, P>(edges, x, s, v).contains(w)
            <==> s.contains(w) && step::<E, P>(edges, x, w) && !v.contains(w) by {
            assert(f.contains(w) <==> t.contains(w) && step::<E, P>(edges, x, w) && !v.contains(w));
        }
    }
}

/// Concatenation holds what either part holds.
pub proof fn lemma_concat_contains(a: Seq<usize>, b: Seq<usize>)
    ensures
        forall|w: usize| #[trigger] (a + b).contains(w) <==> a.contains(w) || b.contains(w),
{
    assert forall|w: usize| #[trigger] (a + b).contains(w) <==> a.contains(w) || b.contains(w) by {
        if (a + b).contains(w) {
            let i = choose|i: int| 0 <= i < a.len() + b.len() && (a + b)[i] == w;
            if i < a.len() {
                assert(a[i] == w);
            } else {
                assert(b[i - a.len()] == w);
            }
        }
        if a.contains(w) {
            let i = choose|i: int| 0 <= i < a.len() && a[i] == w;
            assert((a + b)[i] == w);
        }
        if b.contains(w) {
            let i = choose|i: int| 0 <= i < b.len() && b[i] == w;
            assert((a + b)[a.len() + i] == w);
        }
    }
}

impl<'a, D: Directional, C: Cyclical, N, E, R: GraphRepr<N, E>, P: EdgePolicy<E>> Traverser<'a, D, C, N, E, R, P> {
    /// The traversal state is sound: the visited nodes are distinct, and every
    /// visited or pending node is reachable from `start`; and it is complete so
    /// far: every step out of a visited node leads to a visited or pending node.
    pub open spec fn frontier_ok(&self, start: usize, pending: Seq<usize>, visited: Seq<usize>) -> bool {
        &&& visited.no_duplicates()
        &&& forall|i: int| 0 <= i < visited.len()
            ==> reachable::<N, E, P>(self.graph.spec_nodes(), self.graph.spec_edges(), start, #[trigger] visited[i])
        &&& forall|i: int| 0 <= i < pending.len()
            ==> reachable::<N, E, P>(self.graph.spec_nodes(), self.graph.spec_edges(), start, #[trigger] pending[i])
        &&& forall|v: usize, w: usize| visited.contains(v) && #[trigger] step::<E, P>(self.graph.spec_edges(), v, w)
            ==> visited.contains(w) || pending.contains(w)
        &&& self.graph.spec_nodes().contains_key(start) ==> visited.contains(start) || pending.contains(start)
    }

    /// One step keeps the traversal state sound and complete so far.
    pub proof fn lemma_step_keeps_frontier(
        &self,
        start: usize,
        q: Seq<usize>,
        v: Seq<usize>,
        x: usize,
        rest: Seq<usize>,
        q2: Seq<usize>,
        v2: Seq<usize>,
    )
        requires
            self.graph.valid(),
            self.frontier_ok(start, q, v),
            q.contains(x),
            !v.contains(x),
            forall|w: usize| rest.contains(w) ==> q.contains(w),
            forall|w: usize| q.contains(w) ==> v.contains(w) || w == x || rest.contains(w),
            v2 == v.push(x),
            expanded::<E, P>(self.graph.spec_edges(), self.graph.spec_ascending(), x, rest, v2, q2),
        ensures
            self.frontier_ok(start, q2, v2),
    {
        let edges = self.graph.spec_edges();
        let nodes = self.graph.spec_nodes();
        let s = choose|s: Seq<usize>| #[trigger] listing_of(edges, x, s, self.graph.spec_ascending())
            && q2 == rest + fresh_successors::<E, P>(edges, x, s, v2);
        let f = fresh_successors::<E, P>(edges, x, s, v2);
        lemma_fresh::<E, P>(edges, x, s, v2);
        lemma_concat_contains(rest, f);
        let xi = choose|i: int| 0 <= i < q.len() && q[i] == x;
        assert(reachable::<N, E, P>(nodes, edges, start, q[xi]));
        assert forall|w: usize| #[trigger] v2.contains(w) <==> v.contains(w) || w == x by {
            if v2.contains(w) {
                let i = choose|i: int| 0 <= i < v2.len() && v2[i] == w;
                if i < v.len() {
                    assert(v[i] == w);
                }
            }
            if v.contains(w) {
                let i = choose|i: int| 0 <= i < v.len() && v[i] == w;
                assert(v2[i] == w);
            }
            if w == x {
                assert(v2[v.len() as int] == w);
            }
        }
        assert forall|i: int| 0 <= i < v2.len() implies reachable::<N, E, P>(nodes, edges, start, #[trigger] v2[i]) by {
            if i < v.len() {
                assert(v2[i] == v[i]);
            }
        }
        assert forall|i: int| 0 <= i < q2.len() implies reachable::<N, E, P>(nodes, edges, start, #[trigger] q2[i]) by {
            let w = q2[i];
            assert(q2.contains(w));
            if rest.contains(w) {
                let j = choose|j: int| 0 <= j < q.len() && q[j] == w;
                assert(reachable::<N, E, P>(nodes, edges, start, q[j]));
            } else {
                assert(f.contains(w));
                lemma_reach_step::<N, E, P>(nodes, edges, start, x, w);
            }
        }
        assert forall|a: usize, w: usize| v2.contains(a) && #[trigger] step::<E, P>(edges, a, w)
            implies v2.contains(w) || q2.contains(w) by {
            if a == x {
                assert(targets(edges, x).contains(w));
                assert(s.to_set().contains(w));
            } else {
                assert(v.contains(a));
                if q.contains(w) && !v.contains(w) && w != x {
                    assert(rest.contains(w));
                }
            }
        }
        if nodes.contains_key(start) && q.contains(start) && !v.contains(start) && start != x {
            assert(rest.contains(start));
        }
        assert(v2.no_duplicates()) by {
            assert forall|i: int, j: int| 0 <= i < j < v2.len() implies v2[i] != v2[j] by {
                if j == v.len() {
                    assert(v.contains(v2[i]));
                } else {
                    assert(v2[i] == v[i] && v2[j] == v[j]);
                }
            }
        }
    }

    /// Appends to `found` every unvisited node one step from `current`, in
    /// the order the graph lists the targets of `current`.
    fn expand(&self, current: usize, found: &mut Vec<usize>, visited: &Vec<usize>)
        requires
            self.graph.valid(),
            old(found)@.len() == 0,
        ensures
            exists|s: Seq<usize>| #[trigger] listing_of(self.graph.spec_edges(), current, s, self.graph.spec_ascending())
                && final(found)@ == fresh_successors::<E, P>(self.graph.spec_edges(), current, s, visited@),
    {
        let nbrs = self.graph.repr.neighbor_ids(current);
        let mut l: usize = 0;
        proof {
            assert(nbrs@.take(0) =~= Seq::<usize>::empty());
        }
        while l < nbrs.len()
            invariant
                self.graph.valid(),
                l <= nbrs@.len(),
                found@ == fresh_successors::<E, P>(self.graph.spec_edges(), current, nbrs@.take(l as int), visited@),
            decreases nbrs.len() - l,
        {
            let next = nbrs[l];
            let follow = match self.graph.repr.edge(current, next) {
                Some(e) => P::follows(e),
                None => false,
            };
            proof {
                let t = nbrs@.take(l as int + 1);
                assert(t.drop_last() =~= nbrs@.take(l as int));
                assert(t.last() == next);
                assert(follow == step::<E, P>(self.graph.spec_edges(), current, next));
            }
            if follow && !contains(visited, next) {
                found.push(next);
            }
            l = l + 1;
        }
        proof {
            assert(nbrs@.take(nbrs@.len() as int) =~= nbrs@);
            assert(listing_of(self.graph.spec_edges(), current, nbrs@, self.graph.spec_ascending()));
        }
    }

    /// Takes nodes from the front of `queue` until one is unvisited, marks it
    /// visited, appends its unvisited successors to the queue and returns it;
    /// returns `None`, with the queue emptied, when every queued node was
    /// already visited.
    pub fn bfs_step(&self, queue: &mut VecDeque<usize>, visited: &mut Vec<usize>) -> (r: Option<usize>)
        requires
            self.graph.valid(),
        ensures
            match r {
                Some(x) => {
                    &&& pop_front_unvisited(old(queue)@, old(visited)@) is Some
                    &&& pop_front_unvisited(old(queue)@, old(visited)@)->Some_0.0 == x
                    &&& bfs_advance::<E, P>(self.graph.spec_edges(), self.graph.spec_ascending(),
                        old(queue)@, old(visited)@, final(queue)@, final(visited)@)
                },
                None => {
                    &&& pop_front_unvisited(old(queue)@, old(visited)@) is None
                    &&& final(queue)@.len() == 0
                    &&& final(visited)@ == old(visited)@
                },
            },
    {
        loop
            invariant
                self.graph.valid(),
                visited@ == old(visited)@,
                pop_front_unvisited(queue@, visited@) == pop_front_unvisited(old(queue)@, old(visited)@),
            decreases queue@.len(),
        {
            let ghost before = queue@;
            match queue.pop_front() {
                None => {
                    return None;
                },
                Some(current) => {
                    proof {
                        assert(queue@ =~= before.drop_first());
                    }
                    if !contains(visited, current) {
                        let ghost rest = queue@;
                        visited.push(current);
                        let mut found: Vec<usize> = Vec::new();
                        self.expand(current, &mut found, visited);
                        let mut k: usize = 0;
                        while k < found.len()
                            invariant
                                k <= found@.len(),
                                queue@ == rest + found@.take(k as int),
                            decreases found.len() - k,
                        {
                            queue.push_back(found[k]);
                            proof {
                                assert(found@.take(k as int + 1) =~= found@.take(k as int).push(found@[k as int]));
                            }
                            k = k + 1;
                        }
                        proof {
                            assert(found@.take(found@.len() as int) =~= found@);
                        }
                        return Some(current);
                    }
                }
            }
        }
    }

    /// Takes nodes from the top of `stack` until one is unvisited, marks it
    /// visited, pushes its unvisited successors and returns it; returns
    /// `None`, with the stack emptied, when every stacked node was already
    /// visited.
    pub fn dfs_step(&self, stack: &mut Vec<usize>, visited: &mut Vec<usize>) -> (r: Option<usize>)
        requires
            self.graph.valid(),
        ensures
            match r {
                Some(x) => {
                    &&& pop_back_unvisited(old(stack)@, old(visited)@) is Some
                    &&& pop_back_unvisited(old(stack)@, old(visited)@)->Some_0.0 == x
                    &&& dfs_advance::<E, P>(self.graph.spec_edges(), self.graph.spec_ascending(),
                        old(stack)@, old(visited)@, final(stack)@, final(visited)@)
                },
                None => {
                    &&& pop_back_unvisited(old(stack)@, old(visited)@) is None
                    &&& final(stack)@.len() == 0
                    &&& final(visited)@ == old(visited)@
                },
            },
    {
        loop
            invariant
                self.graph.valid(),
                visited@ == old(visited)@,
                pop_back_unvisited(stack@, visited@) == pop_back_unvisited(old(stack)@, old(visited)@),
            decreases stack@.len(),
        {
            let ghost before = stack@;
            match stack.pop() {
                None => {
                    return None;
                },
                Some(current) => {
                    proof {
                        assert(stack@ =~= before.drop_last());
                    }
                    if !contains(visited, current) {
                        let ghost rest = stack@;
                        visited.push(current);
                        let mut found: Vec<usize> = Vec::new();
                        self.expand(current, &mut found, visited);
                        let mut k: usize = 0;
                        while k < found.len()
                            invariant
                                k <= found@.len(),
                                stack@ == rest + found@.take(k as int),
                            decreases found.len() - k,
                        {
                            stack.push(found[k]);
                            proof {
                                assert(found@.take(k as int + 1) =~= found@.take(k as int).push(found@[k as int]));
                            }
                            k = k + 1;
                        }
                        proof {
                            assert(found@.take(found@.len() as int) =~= found@);
                        }
                        return Some(current);
                    }
                }
            }
        }
    }
}


/// A node reachable from `start` is a node.
pub proof fn lemma_reachable_is_node<N, E, P: EdgePolicy<E>>(
    nodes: Map<usize, N>,
    edges: Map<(usize, usize), E>,
    start: usize,
    v: usize,
)
    requires
        storage_ok(nodes, edges),
        reachable::<N, E, P>(nodes, edges, start, v),
    ensures
        nodes.contains_key(v),
{
    let p = choose|p: Seq<usize>| #[trigger] is_walk::<E, P>(edges, p) && p[0] == start && p.last() == v;
    if p.len() > 1 {
        let i = p.len() - 2;
        assert(step::<E, P>(edges, p[i], p[i + 1]));
    }
}

impl<'a, D: Directional, C: Cyclical, N, E, R: GraphRepr<N, E>, P: EdgePolicy<E>> Traverser<'a, D, C, N, E, R, P> {
    /// The visited nodes are nodes, and there are no more of them than nodes.
    pub proof fn lemma_visited_bound(&self, start: usize, pending: Seq<usize>, visited: Seq<usize>)
        requires
            self.graph.valid(),
            self.frontier_ok(start, pending, visited),
        ensures
            visited.len() <= self.graph.spec_nodes().dom().len(),
    {
        self.graph.lemma_valid();
        assert forall|v: usize| visited.to_set().contains(v) implies self.graph.spec_nodes().dom().contains(v) by {
            let i = choose|i: int| 0 <= i < visited.len() && visited[i] == v;
            lemma_reachable_is_node::<N, E, P>(self.graph.spec_nodes(), self.graph.spec_edges(), start, visited[i]);
        }
        visited.unique_seq_to_set();
        vstd::set_lib::lemma_len_subset(visited.to_set(), self.graph.spec_nodes().dom());
    }

    /// When nothing is pending, the visited nodes are exactly those reachable from `start`.
    pub proof fn lemma_done(&self, start: usize, pending: Seq<usize>, visited: Seq<usize>)
        requires
            self.graph.valid(),
            self.frontier_ok(start, pending, visited),
            pending.len() == 0,
        ensures
            forall|v: usize| visited.contains(v)
                <==> #[trigger] reachable::<N, E, P>(self.graph.spec_nodes(), self.graph.spec_edges(), start, v),
    {
        assert forall|v: usize| visited.contains(v)
            <==> #[trigger] reachable::<N, E, P>(self.graph.spec_nodes(), self.graph.spec_edges(), start, v) by {
            if visited.contains(v) {
                let i = choose|i: int| 0 <= i < visited.len() && visited[i] == v;
            }
            if reachable::<N, E, P>(self.graph.spec_nodes(), self.graph.spec_edges(), start, v) {
                let p = choose|p: Seq<usize>| #[trigger] is_walk::<E, P>(self.graph.spec_edges(), p) && p[0] == start && p.last() == v;
                lemma_walk_stays_in_closed::<E, P>(self.graph.spec_edges(), visited, p);
            }
        }
    }

    /// The nodes reachable from `start` by breadth-first search, each once, in the
    /// order of their visits; empty when `start` is not a node. The run is
    /// the one that `bfs_trace` describes, `bfs_step` by `bfs_step`.
    pub fn bfs(&self, start: usize) -> (r: Vec<usize>)
        requires
            self.graph.valid(),
        ensures
            r@.no_duplicates(),
            forall|v: usize| r@.contains(v)
                <==> #[trigger] reachable::<N, E, P>(self.graph.spec_nodes(), self.graph.spec_edges(), start, v),
            self.graph.spec_nodes().contains_key(start) ==> r@.len() > 0 && r@[0] == start,
            exists|states: Seq<(Seq<usize>, Seq<usize>)>|
                #[trigger] bfs_trace::<E, P>(self.graph.spec_edges(), self.graph.spec_ascending(),
                    initial(self.graph.spec_nodes(), start), states)
                && r@ == states.last().1,
    {
        let mut queue: VecDeque<usize> = VecDeque::new();
        let mut visited: Vec<usize> = Vec::new();
        if self.graph.repr.node(start).is_some() {
            queue.push_back(start);
            proof {
                let p = seq![start];
                assert(is_walk::<E, P>(self.graph.spec_edges(), p));
                assert(queue@[0] == start);
            }
        }
        let ghost mut states: Seq<(Seq<usize>, Seq<usize>)> = seq![(queue@, visited@)];
        proof {
            assert(queue@ =~= initial(self.graph.spec_nodes(), start));
            self.lemma_visited_bound(start, queue@, visited@);
        }
        loop
            invariant_except_break
                states.last() == (queue@, visited@),
            invariant
                self.graph.valid(),
                self.frontier_ok(start, queue@, visited@),
                visited@.len() <= self.graph.spec_nodes().dom().len(),
                self.graph.spec_nodes().contains_key(start) ==> visited@.len() > 0 && visited@[0] == start
                    || visited@.len() == 0 && queue@ == seq![start],
                states.len() > 0,
                states[0] == (initial(self.graph.spec_nodes(), start), Seq::<usize>::empty()),
                forall|i: int| 0 <= i < states.len() - 1 ==> #[trigger] bfs_advance::<E, P>(self.graph.spec_edges(),
                    self.graph.spec_ascending(), states[i].0, states[i].1, states[i + 1].0, states[i + 1].1),
            ensures
                queue@.len() == 0,
                self.frontier_ok(start, queue@, visited@),
                self.graph.spec_nodes().contains_key(start) ==> visited@.len() > 0 && visited@[0] == start,
                bfs_trace::<E, P>(self.graph.spec_edges(), self.graph.spec_ascending(),
                    initial(self.graph.spec_nodes(), start), states),
                states.last().1 == visited@,
            decreases self.graph.spec_nodes().dom().len() - visited@.len(),
        {
            let ghost q0 = queue@;
            let ghost v0 = visited@;
            match self.bfs_step(&mut queue, &mut visited) {
                Some(x) => {
                    proof {
                        lemma_pop_front(q0, v0);
                        let p = pop_front_unvisited(q0, v0)->Some_0;
                        self.lemma_step_keeps_frontier(start, q0, v0, x, p.1, queue@, visited@);
                        self.lemma_visited_bound(start, queue@, visited@);
                        if v0.len() > 0 {
                            assert(visited@[0] == v0[0]);
                        } else if self.graph.spec_nodes().contains_key(start) {
                            assert(q0 == seq![start]);
                            assert(q0[0] == start);
                            assert(pop_front_unvisited(q0.drop_first(), v0) is None);
                        }
                        let old_states = states;
                        states = states.push((queue@, visited@));
                        assert forall|i: int| 0 <= i < states.len() - 1 implies #[trigger] bfs_advance::<E, P>(self.graph.spec_edges(),
                            self.graph.spec_ascending(), states[i].0, states[i].1, states[i + 1].0, states[i + 1].1) by {
                            if i < old_states.len() - 1 {
                                assert(states[i] == old_states[i] && states[i + 1] == old_states[i + 1]);
                            }
                        }
                    }
                },
                None => {
                    proof {
                        lemma_pop_front(q0, v0);
                        assert forall|a: usize, w: usize| visited@.contains(a) && #[trigger] step::<E, P>(self.graph.spec_edges(), a, w)
                            implies visited@.contains(w) by {
                            assert(q0.contains(w) ==> v0.contains(w));
                        }
                        if self.graph.spec_nodes().contains_key(start) && v0.len() == 0 {
                            assert(q0 == seq![start]);
                            assert(pop_front_unvisited(q0.drop_first(), v0) is None);
                        }
                    }
                    break;
                },
            }
        }
        proof {
            self.lemma_done(start, queue@, visited@);
        }
        visited
    }

    /// The nodes reachable from `start` by depth-first search, each once, in the
    /// order of their visits; empty when `start` is not a node. The run is
    /// the one that `dfs_trace` describes, `dfs_step` by `dfs_step`.
    pub fn dfs(&self, start: usize) -> (r: Vec<usize>)
        requires
            self.graph.valid(),
        ensures
            r@.no_duplicates(),
            forall|v: usize| r@.contains(v)
                <==> #[trigger] reachable::<N, E, P>(self.graph.spec_nodes(), self.graph.spec_edges(), start, v),
            self.graph.spec_nodes().contains_key(start) ==> r@.len() > 0 && r@[0] == start,
            exists|states: Seq<(Seq<usize>, Seq<usize>)>|
                #[trigger] dfs_trace::<E, P>(self.graph.spec_edges(), self.graph.spec_ascending(),
                    initial(self.graph.spec_nodes(), start), states)
                && r@ == states.last().1,
    {
        let mut stack: Vec<usize> = Vec::new();
        let mut visited: Vec<usize> = Vec::new();
        if self.graph.repr.node(start).is_some() {
            stack.push(start);
            proof {
                let p = seq![start];
                assert(is_walk::<E, P>(self.graph.spec_edges(), p));
                assert(stack@[0] == start);
            }
        }
        let ghost mut states: Seq<(Seq<usize>, Seq<usize>)> = seq![(stack@, visited@)];
        proof {
            assert(stack@ =~= initial(self.graph.spec_nodes(), start));
            self.lemma_visited_bound(start, stack@, visited@);
        }
        loop
            invariant_except_break
                states.last() == (stack@, visited@),
            invariant
                self.graph.valid(),
                self.frontier_ok(start, stack@, visited@),
                visited@.len() <= self.graph.spec_nodes().dom().len(),
                self.graph.spec_nodes().contains_key(start) ==> visited@.len() > 0 && visited@[0] == start
                    || visited@.len() == 0 && stack@ == seq![start],
                states.len() > 0,
                states[0] == (initial(self.graph.spec_nodes(), start), Seq::<usize>::empty()),
                forall|i: int| 0 <= i < states.len() - 1 ==> #[trigger] dfs_advance::<E, P>(self.graph.spec_edges(),
                    self.graph.spec_ascending(), states[i].0, states[i].1, states[i + 1].0, states[i + 1].1),
            ensures
                stack@.len() == 0,
                self.frontier_ok(start, stack@, visited@),
                self.graph.spec_nodes().contains_key(start) ==> visited@.len() > 0 && visited@[0] == start,
                dfs_trace::<E, P>(self.graph.spec_edges(), self.graph.spec_ascending(),
                    initial(self.graph.spec_nodes(), start), states),
                states.last().1 == visited@,
            decreases self.graph.spec_nodes().dom().len() - visited@.len(),
        {
            let ghost q0 = stack@;
            let ghost v0 = visited@;
            match self.dfs_step(&mut stack, &mut visited) {
                Some(x) => {
                    proof {
                        lemma_pop_back(q0, v0);
                        let p = pop_back_unvisited(q0, v0)->Some_0;
                        self.lemma_step_keeps_frontier(start, q0, v0, x, p.1, stack@, visited@);
                        self.lemma_visited_bound(start, stack@, visited@);
                        if v0.len() > 0 {
                            assert(visited@[0] == v0[0]);
                        } else if self.graph.spec_nodes().contains_key(start) {
                            assert(q0 == seq![start]);
                            assert(q0[0] == start);
                            assert(pop_back_unvisited(q0.drop_first(), v0) is None);
                        }
                        let old_states = states;
                        states = states.push((stack@, visited@));
                        assert forall|i: int| 0 <= i < states.len() - 1 implies #[trigger] dfs_advance::<E, P>(self.graph.spec_edges(),
                            self.graph.spec_ascending(), states[i].0, states[i].1, states[i + 1].0, states[i + 1].1) by {
                            if i < old_states.len() - 1 {
                                assert(states[i] == old_states[i] && states[i + 1] == old_states[i + 1]);
                            }
                        }
                    }
                },
                None => {
                    proof {
                        lemma_pop_back(q0, v0);
                        assert forall|a: usize, w: usize| visited@.contains(a) && #[trigger] step::<E, P>(self.graph.spec_edges(), a, w)
                            implies visited@.contains(w) by {
                            assert(q0.contains(w) ==> v0.contains(w));
                        }
                        if self.graph.spec_nodes().contains_key(start) && v0.len() == 0 {
                            assert(q0 == seq![start]);
                            assert(pop_back_unvisited(q0.drop_first(), v0) is None);
                        }
                    }
                    break;
                },
            }
        }
        proof {
            self.lemma_done(start, stack@, visited@);
        }
        visited
    }

}

impl<D: Directional, C: Cyclical, N, E, R: GraphRepr<N, E>> Graph<D, C, N, E, R> {
    /// A traverser over this graph that follows every edge.
    pub fn traverser(&self) -> (r: Traverser<'_, D, C, N, E, R, AnyEdge>)
        ensures
            r.graph == self,
    {
        Traverser { graph: self, policy: std::marker::PhantomData }
    }
}

/// Whether `v` holds `x`.
pub fn contains(v: &Vec<usize>, x: usize) -> (r: bool)
    ensures
        r == v@.contains(x),
{
    let mut i: usize = 0;
    while i < v.len()
        invariant
            i <= v@.len(),
            forall|j: int| 0 <= j < i ==> v@[j] != x,
        decreases v.len() - i,
    {
        if v[i] == x {
            return true;
        }
        i = i + 1;
    }
    false
}

} // verus!
