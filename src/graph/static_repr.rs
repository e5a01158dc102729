use vstd::prelude::*;

use crate::graph_repr::{lookup, GraphRepr, NodeRepr, StaticRepr, edges_without, storage_ok, targets};

verus! {

impl<N, E, const SIZE: usize> StaticRepr<N, E, SIZE> {

    pub closed spec fn slot_node(&self, i: usize) -> Option<N> {
        if i < self.slots@.len() { self.slots@[i as int].node } else { None }
    }

    pub closed spec fn slot_edge(&self, i: usize, j: usize) -> Option<E> {
        if i < self.slots@.len() && j < self.slots@[i as int].adjs@.len() {
            self.slots@[i as int].adjs@[j as int]
        } else {
            None
        }
    }

    /// A row of `SIZE` absent edges.
    fn empty_row() -> (r: Vec<Option<E>>)
        ensures
            r@.len() == SIZE,
            forall|j: int| 0 <= j < SIZE ==> (#[trigger] r@[j]).is_none(),
    {
        let mut r: Vec<Option<E>> = Vec::new();
        while r.len() < SIZE
            invariant
                r@.len() <= SIZE,
                forall|j: int| 0 <= j < r@.len() ==> (#[trigger] r@[j]).is_none(),
            decreases SIZE - r.len(),
        {
            r.push(None);
        }
        r
    }
}

impl<N, E, const SIZE: usize> GraphRepr<N, E> for StaticRepr<N, E, SIZE> {
    open spec fn spec_nodes(&self) -> Map<usize, N> {
        Map::new(|i: usize| self.slot_node(i).is_some(), |i: usize| self.slot_node(i).unwrap())
    }

    open spec fn spec_edges(&self) -> Map<(usize, usize), E> {
        Map::new(
            |p: (usize, usize)| self.slot_edge(p.0, p.1).is_some(),
            |p: (usize, usize)| self.slot_edge(p.0, p.1).unwrap(),
        )
    }

    open spec fn spec_ascending() -> bool {
        true
    }

    open spec fn spec_holds_id(id: usize) -> bool {
        id < SIZE
    }

    proof fn lemma_well_formed(&self) {
    }

    closed spec fn well_formed(&self) -> bool {
        &&& storage_ok(self.spec_nodes(), self.spec_edges())
        &&& forall|i: usize| #[trigger] self.spec_nodes().contains_key(i) ==> Self::spec_holds_id(i)
        &&& self.slots@.len() == SIZE
        &&& forall|i: int| 0 <= i < SIZE ==> (#[trigger] self.slots@[i]).adjs@.len() == SIZE
    }

    fn empty() -> (r: Self) {
        let mut slots: Vec<NodeRepr<Option<N>, Vec<Option<E>>>> = Vec::new();
        while slots.len() < SIZE
            invariant
                slots@.len() <= SIZE,
                forall|i: int| 0 <= i < slots@.len() ==> (#[trigger] slots@[i]).node.is_none()
                    && slots@[i].adjs@.len() == SIZE,
                forall|i: int, j: int| 0 <= i < slots@.len() && 0 <= j < SIZE ==> (#[trigger] slots@[i].adjs@[j]).is_none(),
            decreases SIZE - slots.len(),
        {
            slots.push(NodeRepr { node: None, adjs: Self::empty_row() });
        }
        let r = StaticRepr { slots };
        proof {
            assert(r.spec_nodes() =~= Map::<usize, N>::empty());
            assert(r.spec_edges() =~= Map::<(usize, usize), E>::empty());
        }
        r
    }

    fn holds_id(id: usize) -> (r: bool) {
        id < SIZE
    }

    fn node(&self, id: usize) -> (r: Option<&N>) {
        if id < self.slots.len() {
            self.slots[id].node.as_ref()
        } else {
            None
        }
    }

    fn edge(&self, id1: usize, id2: usize) -> (r: Option<&E>) {
        if id1 < self.slots.len() && id2 < self.slots[id1].adjs.len() {
            self.slots[id1].adjs[id2].as_ref()
        } else {
            None
        }
    }

    fn insert_node(&mut self, id: usize, node: N) -> (r: Option<N>) {
        let mut slot = NodeRepr { node: None, adjs: Vec::new() };
        std::mem::swap(&mut slot, &mut self.slots[id]);
        let mut previous = Some(node);
        std::mem::swap(&mut previous, &mut slot.node);
        self.slots.set(id, slot);
        proof {
            assert(self.spec_nodes() =~= old(self).spec_nodes().insert(id, node));
            assert(self.spec_edges() =~= old(self).spec_edges());
        }
        previous
    }

    fn take_node(&mut self, id: usize) -> (r: Option<N>) {
        if id >= self.slots.len() {
            proof {
                assert(self.spec_nodes() =~= old(self).spec_nodes().remove(id));
                assert(self.spec_edges() =~= edges_without(old(self).spec_edges(), id));
            }
            return None;
        }
        let mut slot = NodeRepr { node: None, adjs: Vec::new() };
        std::mem::swap(&mut slot, &mut self.slots[id]);
        let r = slot.node;
        self.slots.set(id, NodeRepr { node: None, adjs: Self::empty_row() });
        let ghost mid = self.slots@;
        let mut k: usize = 0;
        while k < self.slots.len()
            invariant
                id < self.slots@.len(),
                self.slots@.len() == mid.len(),
                mid.len() == SIZE,
                forall|i: int| 0 <= i < mid.len() ==> (#[trigger] self.slots@[i]).node == mid[i].node,
                forall|i: int| 0 <= i < mid.len() ==> (#[trigger] self.slots@[i]).adjs@.len() == mid[i].adjs@.len(),
                forall|i: int| 0 <= i < SIZE ==> (#[trigger] mid[i]).adjs@.len() == SIZE,
                forall|i: int, j: int| 0 <= i < mid.len() && 0 <= j < mid[i].adjs@.len()
                    ==> #[trigger] self.slots@[i].adjs@[j] == if i < k && j == id { None } else { mid[i].adjs@[j] },
            decreases self.slots.len() - k,
        {
            let mut slot_k = NodeRepr { node: None, adjs: Vec::new() };
            std::mem::swap(&mut slot_k, &mut self.slots[k]);
            slot_k.adjs.set(id, None);
            self.slots.set(k, slot_k);
            k = k + 1;
        }
        proof {
            assert(self.spec_nodes() =~= old(self).spec_nodes().remove(id));
            assert(self.spec_edges() =~= edges_without(old(self).spec_edges(), id));
            vstd::set_lib::lemma_set_subset_finite(old(self).spec_edges().dom(), self.spec_edges().dom());
        }
        r
    }

    fn insert_edge(&mut self, id1: usize, id2: usize, edge: E) {
        let mut slot = NodeRepr { node: None, adjs: Vec::new() };
        std::mem::swap(&mut slot, &mut self.slots[id1]);
        slot.adjs.set(id2, Some(edge));
        self.slots.set(id1, slot);
        proof {
            assert(self.spec_nodes() =~= old(self).spec_nodes());
            assert(self.spec_edges() =~= old(self).spec_edges().insert((id1, id2), edge));
        }
    }

    fn take_edge(&mut self, id1: usize, id2: usize) -> (r: Option<E>) {
        if id1 >= self.slots.len() || id2 >= self.slots[id1].adjs.len() {
            proof {
                assert(self.spec_edges() =~= old(self).spec_edges().remove((id1, id2)));
            }
            return None;
        }
        let mut slot = NodeRepr { node: None, adjs: Vec::new() };
        std::mem::swap(&mut slot, &mut self.slots[id1]);
        let mut cell: Option<E> = None;
        std::mem::swap(&mut cell, &mut slot.adjs[id2]);
        self.slots.set(id1, slot);
        proof {
            assert(self.spec_nodes() =~= old(self).spec_nodes());
            assert(self.spec_edges() =~= old(self).spec_edges().remove((id1, id2)));
        }
        cell
    }

    fn remove_all_nodes(&mut self) {
        let mut k: usize = 0;
        while k < self.slots.len()
            invariant
                self.slots@.len() == SIZE,
                forall|i: int| 0 <= i < SIZE ==> (#[trigger] self.slots@[i]).adjs@.len() == SIZE,
                forall|i: int| 0 <= i < k ==> (#[trigger] self.slots@[i]).node.is_none(),
                forall|i: int, j: int| 0 <= i < k && 0 <= j < SIZE ==> (#[trigger] self.slots@[i].adjs@[j]).is_none(),
            decreases self.slots.len() - k,
        {
            self.slots.set(k, NodeRepr { node: None, adjs: Self::empty_row() });
            k = k + 1;
        }
        proof {
            assert(self.spec_nodes() =~= Map::<usize, N>::empty());
            assert(self.spec_edges() =~= Map::<(usize, usize), E>::empty());
        }
    }

    fn remove_all_edges(&mut self) {
        let ghost mid = self.slots@;
        let mut k: usize = 0;
        while k < self.slots.len()
            invariant
                self.slots@.len() == mid.len(),
                mid.len() == SIZE,
                forall|i: int| 0 <= i < mid.len() ==> (#[trigger] self.slots@[i]).node == mid[i].node,
                forall|i: int| 0 <= i < SIZE ==> (#[trigger] self.slots@[i]).adjs@.len() == SIZE,
                forall|i: int, j: int| 0 <= i < k && 0 <= j < SIZE ==> (#[trigger] self.slots@[i].adjs@[j]).is_none(),
                forall|i: int| k <= i < mid.len() ==> (#[trigger] self.slots@[i]).adjs == mid[i].adjs,
            decreases self.slots.len() - k,
        {
            let mut slot = NodeRepr { node: None, adjs: Vec::new() };
            std::mem::swap(&mut slot, &mut self.slots[k]);
            slot.adjs = Self::empty_row();
            self.slots.set(k, slot);
            k = k + 1;
        }
        proof {
            assert(self.spec_nodes() =~= old(self).spec_nodes());
            assert(self.spec_edges() =~= Map::<(usize, usize), E>::empty());
        }
    }
    fn node_ids(&self) -> (r: Vec<usize>) {
        let mut r: Vec<usize> = Vec::new();
        let mut k: usize = 0;
        while k < self.slots.len()
            invariant
                k <= self.slots@.len(),
                forall|a: int, b: int| 0 <= a < b < r@.len() ==> r@[a] < r@[b],
                forall|a: int| 0 <= a < r@.len() ==> r@[a] < k,
                forall|i: usize| i < k ==> (r@.contains(i) <==> #[trigger] self.slot_node(i).is_some()),
                forall|a: int| 0 <= a < r@.len() ==> self.slot_node(#[trigger] r@[a]).is_some(),
            decreases self.slots.len() - k,
        {
            let ghost before = r@;
            if self.slots[k].node.is_some() {
                r.push(k);
            }
            proof {
                assert forall|i: usize| i < k + 1 implies (r@.contains(i) <==> #[trigger] self.slot_node(i).is_some()) by {
                    if i < k && r@.contains(i) && r@ != before {
                        let a = choose|a: int| 0 <= a < r@.len() && r@[a] == i;
                        if a < before.len() {
                            assert(before[a] == i);
                        }
                    }
                    if i < k && before.contains(i) {
                        let a = choose|a: int| 0 <= a < before.len() && before[a] == i;
                        assert(r@[a] == i);
                    }
                    if i == k && self.slot_node(i).is_some() {
                        assert(r@[r@.len() - 1] == i);
                    }
                }
            }
            k = k + 1;
        }
        proof {
            assert(r@.to_set() =~= self.spec_nodes().dom());
        }
        r
    }

    fn neighbor_ids(&self, id: usize) -> (r: Vec<usize>) {
        let mut r: Vec<usize> = Vec::new();
        if id >= self.slots.len() {
            proof {
                assert(r@.to_set() =~= targets(self.spec_edges(), id));
            }
            return r;
        }
        let row = &self.slots[id].adjs;
        let mut k: usize = 0;
        while k < row.len()
            invariant
                id < self.slots@.len(),
                row == &self.slots@[id as int].adjs,
                k <= row@.len(),
                forall|a: int, b: int| 0 <= a < b < r@.len() ==> r@[a] < r@[b],
                forall|a: int| 0 <= a < r@.len() ==> r@[a] < k,
                forall|j: usize| j < k ==> (r@.contains(j) <==> #[trigger] self.slot_edge(id, j).is_some()),
                forall|a: int| 0 <= a < r@.len() ==> self.slot_edge(id, #[trigger] r@[a]).is_some(),
            decreases row.len() - k,
        {
            let ghost before = r@;
            if row[k].is_some() {
                r.push(k);
            }
            proof {
                assert forall|j: usize| j < k + 1 implies (r@.contains(j) <==> #[trigger] self.slot_edge(id, j).is_some()) by {
                    if j < k && r@.contains(j) && r@ != before {
                        let a = choose|a: int| 0 <= a < r@.len() && r@[a] == j;
                        if a < before.len() {
                            assert(before[a] == j);
                        }
                    }
                    if j < k && before.contains(j) {
                        let a = choose|a: int| 0 <= a < before.len() && before[a] == j;
                        assert(r@[a] == j);
                    }
                    if j == k && self.slot_edge(id, j).is_some() {
                        assert(r@[r@.len() - 1] == j);
                    }
                }
            }
            k = k + 1;
        }
        proof {
            assert(r@.to_set() =~= targets(self.spec_edges(), id));
        }
        r
    }
}

impl<N, E, const SIZE: usize> Default for StaticRepr<N, E, SIZE> {
    /// The storage with no node.
    fn default() -> (r: Self)
        ensures
            r.well_formed(),
            r.spec_nodes() == Map::<usize, N>::empty(),
            r.spec_edges() == Map::<(usize, usize), E>::empty(),
    {
        Self::empty()
    }
}

} // verus!
