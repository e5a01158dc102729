pub mod variable;
pub mod operation;

use std::collections::VecDeque;
use std::marker::PhantomData;

use vstd::prelude::*;

use crate::function_graph::operation::{Body, Operation, OperationError};
use crate::function_graph::variable::{Access, Value, Variable, Variables};
use crate::graph::traverser::{
    EnabledEdge, Traverser, bfs_advance, bfs_trace, dfs_advance, dfs_trace, initial, lemma_pop_back, lemma_pop_front,
    lemma_reachable_is_node, pop_back_unvisited, pop_front_unvisited, reachable,
};
use crate::graph::{Cyclic, Directional, Graph, GraphError};
use crate::graph_repr::BTreeRepr;
use crate::traits::{AddEdge, AddNode, GetNode, GraphView};

verus! {

/// Why building or running a function graph failed.
#[derive(Debug, Clone, Copy, PartialEq, Eq, Structural)]
pub enum Error {
    GraphError(GraphError),
    OperationError(OperationError),
}

/// The shape of a function graph: directed edges whose payload enables them.
pub struct Functional;

impl Directional for Functional {
    open spec fn spec_directed() -> bool {
        true
    }

    fn directed() -> (r: bool) {
        true
    }
}

/// The graph that a function graph schedules over.
pub type FnStore<B> = Graph<Functional, Cyclic, Operation<B>, bool, BTreeRepr<Operation<B>, bool>>;

/// A graph of operations wired by edges that are enabled (`true`) or not.
/// Running it traverses the enabled edges from a start node and executes each
/// visited operation once, in the order of the visits.
pub struct FnGraph<B> {
    pub(crate) graph: FnStore<B>,
    pub(crate) owned_bound: Vec<usize>,
}

/// `states` are the variables before and after each operation at `order`,
/// run one after another with none failing.
pub open spec fn ran_through<B: Body>(ops: Map<usize, Operation<B>>, order: Seq<usize>, states: Seq<Seq<Value>>) -> bool {
    &&& states.len() == order.len() + 1
    &&& forall|i: int| 0 <= i < order.len() ==> ops.contains_key(#[trigger] order[i])
        && ops[order[i]].spec_effect(states[i], states[i + 1], Ok(()))
}

/// Running the operations at `order`, one after another from `before`, with
/// none failing, can end in `after`.
pub open spec fn ran<B: Body>(ops: Map<usize, Operation<B>>, order: Seq<usize>, before: Seq<Value>, after: Seq<Value>) -> bool {
    exists|states: Seq<Seq<Value>>| #[trigger] ran_through(ops, order, states) && states[0] == before && states.last() == after
}

/// Running nothing leaves the variables as they are.
pub proof fn lemma_ran_nothing<B: Body>(ops: Map<usize, Operation<B>>, before: Seq<Value>)
    ensures
        ran(ops, Seq::<usize>::empty(), before, before),
{
    assert(ran_through(ops, Seq::<usize>::empty(), seq![before]));
}

/// A run that goes on without failure with the operation at `x` has run `order.push(x)`.
pub proof fn lemma_ran_step<B: Body>(
    ops: Map<usize, Operation<B>>,
    order: Seq<usize>,
    x: usize,
    before: Seq<Value>,
    mid: Seq<Value>,
    after: Seq<Value>,
)
    requires
        ran(ops, order, before, mid),
        ops.contains_key(x),
        ops[x].spec_effect(mid, after, Ok(())),
    ensures
        ran(ops, order.push(x), before, after),
{
    let states = choose|states: Seq<Seq<Value>>| #[trigger] ran_through(ops, order, states) && states[0] == before && states.last() == mid;
    let st = states.push(after);
    let o = order.push(x);
    assert forall|i: int| 0 <= i < o.len() implies ops.contains_key(#[trigger] o[i])
        && ops[o[i]].spec_effect(st[i], st[i + 1], Ok(())) by {
        if i < order.len() {
            assert(o[i] == order[i]);
            assert(ops.contains_key(order[i]));
        }
    }
    assert(ran_through(ops, o, st));
}

/// A run from `start` executed the distinct reachable operations at `order`
/// without a failure,
/// from `before` to `mid`, then the reachable operation at `x` failed with
/// `oe` and left `after`.
pub open spec fn failed_at<B: Body>(
    ops: Map<usize, Operation<B>>,
    edges: Map<(usize, usize), bool>,
    start: usize,
    order: Seq<usize>,
    x: usize,
    before: Seq<Value>,
    mid: Seq<Value>,
    after: Seq<Value>,
    oe: OperationError,
) -> bool {
    &&& ran(ops, order, before, mid)
    &&& order.no_duplicates()
    &&& forall|i: int| 0 <= i < order.len() ==> reachable::<Operation<B>, bool, EnabledEdge>(ops, edges, start, #[trigger] order[i])
    &&& reachable::<Operation<B>, bool, EnabledEdge>(ops, edges, start, x)
    &&& !order.contains(x)
    &&& ops.contains_key(x)
    &&& ops[x].spec_effect(mid, after, Err(oe))
}

/// Binding `variables` takes no owned variable that is already bound, and
/// no owned variable twice.
pub open spec fn owned_free(bound: Seq<usize>, variables: Seq<(char, Variable)>) -> bool {
    forall|i: int| 0 <= i < variables.len() && (#[trigger] variables[i]).1.access == Access::Owned ==> {
        &&& !bound.contains(variables[i].1.index)
        &&& forall|j: int| 0 <= j < variables.len() && j != i ==> (#[trigger] variables[j]).1.index != variables[i].1.index
    }
}

/// The indices of the owned variables among `variables`, in order.
pub open spec fn owned_indices(variables: Seq<(char, Variable)>) -> Seq<usize>
    decreases variables.len(),
{
    if variables.len() == 0 {
        Seq::empty()
    } else if variables.last().1.access == Access::Owned {
        owned_indices(variables.drop_last()).push(variables.last().1.index)
    } else {
        owned_indices(variables.drop_last())
    }
}

impl<B: Body> FnGraph<B> {
    pub closed spec fn store(&self) -> FnStore<B> {
        self.graph
    }

    /// The indices of the owned variables that operations have bound.
    pub closed spec fn bound(&self) -> Seq<usize> {
        self.owned_bound@
    }

    pub open spec fn ops(&self) -> Map<usize, Operation<B>> {
        self.store().spec_nodes()
    }

    pub open spec fn edges(&self) -> Map<(usize, usize), bool> {
        self.store().spec_edges()
    }

    pub open spec fn valid(&self) -> bool {
        self.store().valid()
    }

    pub fn new() -> (r: Self)
        ensures
            r.valid(),
            r.ops() == Map::<usize, Operation<B>>::empty(),
            r.edges() == Map::<(usize, usize), bool>::empty(),
            r.bound() == Seq::<usize>::empty(),
    {
        FnGraph { graph: Graph::new(), owned_bound: Vec::new() }
    }

    /// The underlying graph, for its structural queries.
    pub fn graph(&self) -> (r: &FnStore<B>)
        ensures
            *r == self.store(),
    {
        &self.graph
    }

    /// Whether binding `variables` keeps every owned variable to one binding.
    fn owned_ok(&self, variables: &Vec<(char, Variable)>) -> (r: bool)
        ensures
            r == owned_free(self.bound(), variables@),
    {
        let mut i: usize = 0;
        while i < variables.len()
            invariant
                i <= variables@.len(),
                forall|a: int| 0 <= a < i && (#[trigger] variables@[a]).1.access == Access::Owned ==> {
                    &&& !self.bound().contains(variables@[a].1.index)
                    &&& forall|j: int| 0 <= j < variables@.len() && j != a ==> (#[trigger] variables@[j]).1.index != variables@[a].1.index
                },
            decreases variables.len() - i,
        {
            let var = variables[i].1;
            if var.access == Access::Owned {
                if crate::graph::traverser::contains(&self.owned_bound, var.index) {
                    proof {
                        assert(variables@[i as int].1 == var);
                        assert(var.access == Access::Owned);
                        assert(self.bound().contains(var.index));
                    }
                    return false;
                }
                let mut j: usize = 0;
                while j < variables.len()
                    invariant
                        i < variables@.len(),
                        var == variables@[i as int].1,
                        var.access == Access::Owned,
                        !self.bound().contains(var.index),
                        forall|a: int| 0 <= a < i && (#[trigger] variables@[a]).1.access == Access::Owned ==> {
                            &&& !self.bound().contains(variables@[a].1.index)
                            &&& forall|j: int| 0 <= j < variables@.len() && j != a ==> (#[trigger] variables@[j]).1.index != variables@[a].1.index
                        },
                        j <= variables@.len(),
                        forall|b: int| 0 <= b < j && b != i ==> (#[trigger] variables@[b]).1.index != var.index,
                    decreases variables.len() - j,
                {
                    if j != i && variables[j].1.index == var.index {
                        proof {
                            assert(variables@[i as int].1 == var);
                            assert(variables@[j as int].1.index == var.index);
                        }
                        return false;
                    }
                    j = j + 1;
                }
            }
            i = i + 1;
        }
        true
    }

    /// Adds (or replaces) the operation at `id` with the given bindings and body.
    /// An owned variable may be bound once per graph: it stays taken even when
    /// the operation that bound it is replaced.
    pub fn add_operation(&mut self, id: usize, variables: Vec<(char, Variable)>, function: B) -> (r: Result<(), Error>)
        requires
            old(self).valid(),
        ensures
            final(self).valid(),
            final(self).edges() == old(self).edges(),
            r is Ok <==> owned_free(old(self).bound(), variables@),
            r is Ok ==> final(self).ops().contains_key(id)
                && final(self).ops()[id].bindings() == variables@
                && final(self).ops()[id].body() == function
                && final(self).ops() == old(self).ops().insert(id, final(self).ops()[id])
                && final(self).bound() == old(self).bound() + owned_indices(variables@),
            r is Err ==> final(self).ops() == old(self).ops() && final(self).bound() == old(self).bound(),
            !owned_free(old(self).bound(), variables@)
                ==> r == Err::<(), Error>(Error::OperationError(OperationError::OwnedVariableRebound)),
    {
        if !self.owned_ok(&variables) {
            return Err(Error::OperationError(OperationError::OwnedVariableRebound));
        }
        let mut owned: Vec<usize> = Vec::new();
        let mut i: usize = 0;
        while i < variables.len()
            invariant
                *self == *old(self),
                i <= variables@.len(),
                owned@ == owned_indices(variables@.take(i as int)),
            decreases variables.len() - i,
        {
            proof {
                assert(variables@.take(i as int + 1).drop_last() =~= variables@.take(i as int));
            }
            if variables[i].1.access == Access::Owned {
                owned.push(variables[i].1.index);
            }
            i = i + 1;
        }
        proof {
            assert(variables@.take(variables@.len() as int) =~= variables@);
        }
        match self.graph.add_node(id, Operation::new(variables, function)) {
            Ok(()) => {
                let mut k: usize = 0;
                let ghost start = self.owned_bound@;
                let ghost store = self.graph;
                while k < owned.len()
                    invariant
                        self.graph == store,
                        k <= owned@.len(),
                        self.owned_bound@ == start + owned@.take(k as int),
                    decreases owned.len() - k,
                {
                    self.owned_bound.push(owned[k]);
                    proof {
                        assert(owned@.take(k as int + 1) =~= owned@.take(k as int).push(owned@[k as int]));
                    }
                    k = k + 1;
                }
                proof {
                    assert(owned@.take(owned@.len() as int) =~= owned@);
                }
                Ok(())
            },
            Err(e) => Err(Error::GraphError(e)),
        }
    }

    /// Adds (or replaces) the edge `id1 -> id2`, enabled or not.
    pub fn add_edge(&mut self, id1: usize, id2: usize, enabled: bool) -> (r: Result<(), Error>)
        requires
            old(self).valid(),
        ensures
            final(self).valid(),
            final(self).ops() == old(self).ops(),
            final(self).bound() == old(self).bound(),
            r is Ok <==> old(self).ops().contains_key(id1) && old(self).ops().contains_key(id2),
            r is Ok ==> final(self).edges() == old(self).edges().insert((id1, id2), enabled),
            r is Err ==> final(self).edges() == old(self).edges()
                && r == Err::<(), Error>(Error::GraphError(GraphError::EdgeEndpointMissing)),
    {
        match self.graph.add_edge(id1, id2, enabled) {
            Ok(()) => Ok(()),
            Err(e) => Err(Error::GraphError(e)),
        }
    }
}

impl<B: Body> FnGraph<B> {
    /// Traverses the enabled edges breadth-first from `start` and executes each
    /// visited operation once, in the order of the visits (the run that
    /// `bfs_trace` describes). The first failing operation stops the run: its
    /// error is returned, and the variables keep what the operations run so
    /// far, the failed one included, left in them. On success, returns the
    /// visited nodes in order.
    pub fn bfs(&self, start: usize, vars: &mut Variables) -> (r: Result<Vec<usize>, Error>)
        requires
            self.valid(),
        ensures
            final(vars)@.len() == old(vars)@.len(),
            match r {
                Ok(order) => {
                    &&& order@.no_duplicates()
                    &&& forall|v: usize| order@.contains(v)
                        <==> #[trigger] reachable::<Operation<B>, bool, EnabledEdge>(self.ops(), self.edges(), start, v)
                    &&& self.ops().contains_key(start) ==> order@.len() > 0 && order@[0] == start
                    &&& exists|states: Seq<(Seq<usize>, Seq<usize>)>|
                        #[trigger] bfs_trace::<bool, EnabledEdge>(self.edges(), self.store().spec_ascending(),
                            initial(self.ops(), start), states)
                        && order@ == states.last().1
                    &&& ran(self.ops(), order@, old(vars)@, final(vars)@)
                },
                Err(e) => exists|order: Seq<usize>, x: usize, mid: Seq<Value>, oe: OperationError|
                    e == Error::OperationError(oe)
                    && #[trigger] failed_at(self.ops(), self.edges(), start, order, x, old(vars)@, mid, final(vars)@, oe),
            },
    {
        let t: Traverser<'_, Functional, Cyclic, Operation<B>, bool, BTreeRepr<Operation<B>, bool>, EnabledEdge> =
            Traverser { graph: &self.graph, policy: PhantomData };
        let mut queue: VecDeque<usize> = VecDeque::new();
        let mut visited: Vec<usize> = Vec::new();
        if self.graph.get_node(start).is_some() {
            queue.push_back(start);
            proof {
                let p = seq![start];
                assert(crate::graph::traverser::is_walk::<bool, EnabledEdge>(self.edges(), p));
                assert(queue@[0] == start);
            }
        }
        let ghost mut states: Seq<(Seq<usize>, Seq<usize>)> = seq![(queue@, visited@)];
        proof {
            assert(queue@ =~= initial(self.ops(), start));
            t.lemma_visited_bound(start, queue@, visited@);
            self.graph.lemma_valid();
            lemma_ran_nothing(self.ops(), vars@);
        }
        loop
            invariant_except_break
                states.last() == (queue@, visited@),
            invariant
                self.valid(),
                t.graph == &self.graph,
                t.frontier_ok(start, queue@, visited@),
                visited@.len() <= self.ops().dom().len(),
                vars@.len() == old(vars)@.len(),
                ran(self.ops(), visited@, old(vars)@, vars@),
                self.ops().contains_key(start) ==> visited@.len() > 0 && visited@[0] == start
                    || visited@.len() == 0 && queue@ == seq![start],
                states.len() > 0,
                states[0] == (initial(self.ops(), start), Seq::<usize>::empty()),
                forall|i: int| 0 <= i < states.len() - 1 ==> #[trigger] bfs_advance::<bool, EnabledEdge>(self.edges(),
                    self.store().spec_ascending(), states[i].0, states[i].1, states[i + 1].0, states[i + 1].1),
            ensures
                queue@.len() == 0,
                vars@.len() == old(vars)@.len(),
                ran(self.ops(), visited@, old(vars)@, vars@),
                t.frontier_ok(start, queue@, visited@),
                self.ops().contains_key(start) ==> visited@.len() > 0 && visited@[0] == start,
                bfs_trace::<bool, EnabledEdge>(self.edges(), self.store().spec_ascending(), initial(self.ops(), start), states),
                states.last().1 == visited@,
            decreases self.ops().dom().len() - visited@.len(),
        {
            let ghost q0 = queue@;
            let ghost v0 = visited@;
            let ghost mid = vars@;
            match t.bfs_step(&mut queue, &mut visited) {
                Some(id) => {
                    proof {
                        lemma_pop_front(q0, v0);
                        let p = pop_front_unvisited(q0, v0)->Some_0;
                        t.lemma_step_keeps_frontier(start, q0, v0, id, p.1, queue@, visited@);
                        t.lemma_visited_bound(start, queue@, visited@);
                        assert(visited@[visited@.len() - 1] == id);
                        self.graph.lemma_valid();
                        lemma_reachable_is_node::<Operation<B>, bool, EnabledEdge>(self.ops(), self.edges(), start, id);
                        if v0.len() > 0 {
                            assert(visited@[0] == v0[0]);
                        } else if self.ops().contains_key(start) {
                            assert(q0 == seq![start]);
                            assert(pop_front_unvisited(q0.drop_first(), v0) is None);
                        }
                        let old_states = states;
                        states = states.push((queue@, visited@));
                        assert forall|i: int| 0 <= i < states.len() - 1 implies #[trigger] bfs_advance::<bool, EnabledEdge>(self.edges(),
                            self.store().spec_ascending(), states[i].0, states[i].1, states[i + 1].0, states[i + 1].1) by {
                            if i < old_states.len() - 1 {
                                assert(states[i] == old_states[i] && states[i + 1] == old_states[i + 1]);
                            }
                        }
                    }
                    let op = match self.graph.get_node(id) {
                        Some(op) => op,
                        None => {
                            return Err(Error::GraphError(GraphError::NodeNotFound));
                        },
                    };
                    let res = op.execute(vars);
                    match res {
                        Ok(()) => {
                            proof {
                                assert(res->Ok_0 == ());
                                assert(*op == self.ops()[id]);
                                lemma_ran_step(self.ops(), v0, id, old(vars)@, mid, vars@);
                            }
                        },
                        Err(oe) => {
                            proof {
                                assert(*op == self.ops()[id]);
                                assert forall|i: int| 0 <= i < v0.len() implies
                                    reachable::<Operation<B>, bool, EnabledEdge>(self.ops(), self.edges(), start, #[trigger] v0[i]) by {
                                    assert(visited@[i] == v0[i]);
                                }
                                assert(failed_at(self.ops(), self.edges(), start, v0, id, old(vars)@, mid, vars@, oe));
                            }
                            return Err(Error::OperationError(oe));
                        },
                    }
                },
                None => {
                    proof {
                        lemma_pop_front(q0, v0);
                        assert forall|a: usize, w: usize| visited@.contains(a) && #[trigger] crate::graph::traverser::step::<bool, EnabledEdge>(self.edges(), a, w)
                            implies visited@.contains(w) by {
                            assert(q0.contains(w) ==> v0.contains(w));
                        }
                        if self.ops().contains_key(start) && v0.len() == 0 {
                            assert(q0 == seq![start]);
                            assert(pop_front_unvisited(q0.drop_first(), v0) is None);
                        }
                    }
                    break;
                },
            }
        }
        proof {
            t.lemma_done(start, queue@, visited@);
        }
        Ok(visited)
    }
}

impl<B: Body> FnGraph<B> {
    /// Traverses the enabled edges depth-first from `start` and executes each
    /// visited operation once, in the order of the visits (the run that
    /// `dfs_trace` describes). The first failing operation stops the run: its
    /// error is returned, and the variables keep what the operations run so
    /// far, the failed one included, left in them. On success, returns the
    /// visited nodes in order.
    pub fn dfs(&self, start: usize, vars: &mut Variables) -> (r: Result<Vec<usize>, Error>)
        requires
            self.valid(),
        ensures
            final(vars)@.len() == old(vars)@.len(),
            match r {
                Ok(order) => {
                    &&& order@.no_duplicates()
                    &&& forall|v: usize| order@.contains(v)
                        <==> #[trigger] reachable::<Operation<B>, bool, EnabledEdge>(self.ops(), self.edges(), start, v)
                    &&& self.ops().contains_key(start) ==> order@.len() > 0 && order@[0] == start
                    &&& exists|states: Seq<(Seq<usize>, Seq<usize>)>|
                        #[trigger] dfs_trace::<bool, EnabledEdge>(self.edges(), self.store().spec_ascending(),
                            initial(self.ops(), start), states)
                        && order@ == states.last().1
                    &&& ran(self.ops(), order@, old(vars)@, final(vars)@)
                },
                Err(e) => exists|order: Seq<usize>, x: usize, mid: Seq<Value>, oe: OperationError|
                    e == Error::OperationError(oe)
                    && #[trigger] failed_at(self.ops(), self.edges(), start, order, x, old(vars)@, mid, final(vars)@, oe),
            },
    {
        let t: Traverser<'_, Functional, Cyclic, Operation<B>, bool, BTreeRepr<Operation<B>, bool>, EnabledEdge> =
            Traverser { graph: &self.graph, policy: PhantomData };
        let mut stack: Vec<usize> = Vec::new();
        let mut visited: Vec<usize> = Vec::new();
        if self.graph.get_node(start).is_some() {
            stack.push(start);
            proof {
                let p = seq![start];
                assert(crate::graph::traverser::is_walk::<bool, EnabledEdge>(self.edges(), p));
                assert(stack@[0] == start);
            }
        }
        let ghost mut states: Seq<(Seq<usize>, Seq<usize>)> = seq![(stack@, visited@)];
        proof {
            assert(stack@ =~= initial(self.ops(), start));
            t.lemma_visited_bound(start, stack@, visited@);
            self.graph.lemma_valid();
            lemma_ran_nothing(self.ops(), vars@);
        }
        loop
            invariant_except_break
                states.last() == (stack@, visited@),
            invariant
                self.valid(),
                t.graph == &self.graph,
                t.frontier_ok(start, stack@, visited@),
                visited@.len() <= self.ops().dom().len(),
                vars@.len() == old(vars)@.len(),
                ran(self.ops(), visited@, old(vars)@, vars@),
                self.ops().contains_key(start) ==> visited@.len() > 0 && visited@[0] == start
                    || visited@.len() == 0 && stack@ == seq![start],
                states.len() > 0,
                states[0] == (initial(self.ops(), start), Seq::<usize>::empty()),
                forall|i: int| 0 <= i < states.len() - 1 ==> #[trigger] dfs_advance::<bool, EnabledEdge>(self.edges(),
                    self.store().spec_ascending(), states[i].0, states[i].1, states[i + 1].0, states[i + 1].1),
            ensures
                stack@.len() == 0,
                vars@.len() == old(vars)@.len(),
                ran(self.ops(), visited@, old(vars)@, vars@),
                t.frontier_ok(start, stack@, visited@),
                self.ops().contains_key(start) ==> visited@.len() > 0 && visited@[0] == start,
                dfs_trace::<bool, EnabledEdge>(self.edges(), self.store().spec_ascending(), initial(self.ops(), start), states),
                states.last().1 == visited@,
            decreases self.ops().dom().len() - visited@.len(),
        {
            let ghost q0 = stack@;
            let ghost v0 = visited@;
            let ghost mid = vars@;
            match t.dfs_step(&mut stack, &mut visited) {
                Some(id) => {
                    proof {
                        lemma_pop_back(q0, v0);
                        let p = pop_back_unvisited(q0, v0)->Some_0;
                        t.lemma_step_keeps_frontier(start, q0, v0, id, p.1, stack@, visited@);
                        t.lemma_visited_bound(start, stack@, visited@);
                        assert(visited@[visited@.len() - 1] == id);
                        self.graph.lemma_valid();
                        lemma_reachable_is_node::<Operation<B>, bool, EnabledEdge>(self.ops(), self.edges(), start, id);
                        if v0.len() > 0 {
                            assert(visited@[0] == v0[0]);
                        } else if self.ops().contains_key(start) {
                            assert(q0 == seq![start]);
                            assert(pop_back_unvisited(q0.drop_first(), v0) is None);
                        }
                        let old_states = states;
                        states = states.push((stack@, visited@));
                        assert forall|i: int| 0 <= i < states.len() - 1 implies #[trigger] dfs_advance::<bool, EnabledEdge>(self.edges(),
                            self.store().spec_ascending(), states[i].0, states[i].1, states[i + 1].0, states[i + 1].1) by {
                            if i < old_states.len() - 1 {
                                assert(states[i] == old_states[i] && states[i + 1] == old_states[i + 1]);
                            }
                        }
                    }
                    let op = match self.graph.get_node(id) {
                        Some(op) => op,
                        None => {
                            return Err(Error::GraphError(GraphError::NodeNotFound));
                        },
                    };
                    let res = op.execute(vars);
                    match res {
                        Ok(()) => {
                            proof {
                                assert(res->Ok_0 == ());
                                assert(*op == self.ops()[id]);
                                lemma_ran_step(self.ops(), v0, id, old(vars)@, mid, vars@);
                            }
                        },
                        Err(oe) => {
                            proof {
                                assert(*op == self.ops()[id]);
                                assert forall|i: int| 0 <= i < v0.len() implies
                                    reachable::<Operation<B>, bool, EnabledEdge>(self.ops(), self.edges(), start, #[trigger] v0[i]) by {
                                    assert(visited@[i] == v0[i]);
                                }
                                assert(failed_at(self.ops(), self.edges(), start, v0, id, old(vars)@, mid, vars@, oe));
                            }
                            return Err(Error::OperationError(oe));
                        },
                    }
                },
                None => {
                    proof {
                        lemma_pop_back(q0, v0);
                        assert forall|a: usize, w: usize| visited@.contains(a) && #[trigger] crate::graph::traverser::step::<bool, EnabledEdge>(self.edges(), a, w)
                            implies visited@.contains(w) by {
                            assert(q0.contains(w) ==> v0.contains(w));
                        }
                        if self.ops().contains_key(start) && v0.len() == 0 {
                            assert(q0 == seq![start]);
                            assert(pop_back_unvisited(q0.drop_first(), v0) is None);
                        }
                    }
                    break;
                },
            }
        }
        proof {
            t.lemma_done(start, stack@, visited@);
        }
        Ok(visited)
    }
}

} // verus!
