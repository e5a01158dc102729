use std::collections::BTreeMap;

use vstd::prelude::*;

use crate::graph_repr::{lookup, increasing, BTreeRepr, GraphRepr, NodeRepr, edges_without, storage_ok, targets};

verus! {

broadcast use {vstd::std_specs::btree::group_btree_axioms, vstd::laws_cmp::group_laws_cmp};

/// The keys of `m`, each once, in ascending order.
fn key_list<V>(m: &BTreeMap<usize, V>) -> (r: Vec<usize>)
    ensures
        r@.no_duplicates(),
        r@.to_set() == m@.dom(),
        increasing(r@),
{
    let keys = m.keys();
    let ghost all = vstd::std_specs::iter::IteratorSpec::remaining(&keys);
    let mut r: Vec<usize> = Vec::new();
    for k in it: keys
        invariant
            all == it.seq(),
            all.unref().to_set() == m@.dom(),
            all.no_duplicates(),
            r@ == all.unref().take(it.index()),
    {
        r.push(*k);
        proof {
            assert(all.unref().take(it.index() + 1) =~= all.unref().take(it.index()).push(*k));
        }
    }
    proof {
        assert(r@ =~= all.unref());
        assert(vstd::std_specs::btree::increasing_seq(all));
        assert forall|a: int, b: int| 0 <= a < b < r@.len() implies r@[a] < r@[b] by {
            assert(vstd::std_specs::cmp::OrdSpec::cmp_spec(&all[a], &all[b]) is Less);
        }
    }
    r
}

impl<N, E> GraphRepr<N, E> for BTreeRepr<N, E> {
    closed spec fn spec_nodes(&self) -> Map<usize, N> {
        Map::new(|i: usize| self.map@.contains_key(i), |i: usize| self.map@[i].node)
    }

    closed spec fn spec_edges(&self) -> Map<(usize, usize), E> {
        Map::new(
            |p: (usize, usize)| self.map@.contains_key(p.0) && self.map@[p.0].adjs@.contains_key(p.1),
            |p: (usize, usize)| self.map@[p.0].adjs@[p.1],
        )
    }

    open spec fn spec_ascending() -> bool {
        true
    }

    open spec fn spec_holds_id(id: usize) -> bool {
        true
    }

    closed spec fn well_formed(&self) -> bool {
        storage_ok(self.spec_nodes(), self.spec_edges())
    }

    proof fn lemma_well_formed(&self) {
    }

    fn empty() -> (r: Self) {
        let r = BTreeRepr { map: BTreeMap::new() };
        proof {
            assert(r.spec_nodes() =~= Map::<usize, N>::empty());
            assert(r.spec_edges() =~= Map::<(usize, usize), E>::empty());
        }
        r
    }

    fn holds_id(id: usize) -> (r: bool) {
        true
    }

    fn node(&self, id: usize) -> (r: Option<&N>) {
        match self.map.get(&id) {
            Some(slot) => Some(&slot.node),
            None => None,
        }
    }

    fn edge(&self, id1: usize, id2: usize) -> (r: Option<&E>) {
        match self.map.get(&id1) {
            Some(slot) => slot.adjs.get(&id2),
            None => None,
        }
    }

    fn insert_node(&mut self, id: usize, node: N) -> (r: Option<N>) {
        let (previous, adjs) = match self.map.remove(&id) {
            Some(slot) => (Some(slot.node), slot.adjs),
            None => (None, BTreeMap::new()),
        };
        self.map.insert(id, NodeRepr { node, adjs });
        proof {
            assert(self.spec_nodes() =~= old(self).spec_nodes().insert(id, node));
            assert(self.spec_edges() =~= old(self).spec_edges());
        }
        previous
    }

    fn take_node(&mut self, id: usize) -> (r: Option<N>) {
        let slot = match self.map.remove(&id) {
            Some(slot) => slot,
            None => {
                proof {
                    assert(self.map@ =~= old(self).map@);
                    assert(self.spec_nodes() =~= old(self).spec_nodes().remove(id));
                    assert(self.spec_edges() =~= edges_without(old(self).spec_edges(), id));
                }
                return None;
            },
        };
        let keys = key_list(&self.map);
        let ghost mid = self.map@;
        let mut i: usize = 0;
        while i < keys.len()
            invariant
                keys@.to_set() == mid.dom(),
                keys@.no_duplicates(),
                i <= keys@.len(),
                self.map@.dom() == mid.dom(),
                forall|k: usize| #[trigger] self.map@.contains_key(k) ==> self.map@[k].node == mid[k].node,
                forall|k: usize| #[trigger] self.map@.contains_key(k) ==> self.map@[k].adjs@ == if keys@.take(i as int).contains(k) {
                    mid[k].adjs@.remove(id)
                } else {
                    mid[k].adjs@
                },
            decreases keys.len() - i,
        {
            let k = keys[i];
            proof {
                assert(keys@.to_set().contains(k));
                assert(keys@.take(i as int + 1) =~= keys@.take(i as int).push(k));
            }
            let mut entry = match self.map.remove(&k) {
                Some(e) => e,
                None => {
                    proof {
                        assert(false);
                    }
                    return None;
                },
            };
            let ghost prev = entry.adjs@;
            let _ = entry.adjs.remove(&id);
            self.map.insert(k, entry);
            proof {
                assert(self.map@.dom() =~= mid.dom());
                assert(!keys@.take(i as int).contains(k)) by {
                    if keys@.take(i as int).contains(k) {
                        let a = choose|a: int| 0 <= a < i && #[trigger] keys@.take(i as int)[a] == k;
                        assert(keys@[a] == keys@[i as int]);
                    }
                }
                assert forall|j: usize| #[trigger] self.map@.contains_key(j) implies self.map@[j].adjs@
                    == if keys@.take(i as int + 1).contains(j) { mid[j].adjs@.remove(id) } else { mid[j].adjs@ } by {
                    if j != k {
                        assert(keys@.take(i as int + 1).contains(j) == keys@.take(i as int).contains(j)) by {
                            if keys@.take(i as int + 1).contains(j) {
                                let a = choose|a: int| 0 <= a < i + 1 && #[trigger] keys@.take(i as int + 1)[a] == j;
                                assert(keys@.take(i as int)[a] == j);
                            }
                            if keys@.take(i as int).contains(j) {
                                let a = choose|a: int| 0 <= a < i && #[trigger] keys@.take(i as int)[a] == j;
                                assert(keys@.take(i as int + 1)[a] == j);
                            }
                        }
                    } else {
                        assert(keys@.take(i as int + 1)[i as int] == k);
                    }
                }
            }
            i = i + 1;
        }
        proof {
            assert(keys@.take(keys@.len() as int) =~= keys@);
            assert forall|k: usize| mid.contains_key(k) implies keys@.contains(k) by {
                assert(keys@.to_set().contains(k));
            }
            assert(self.spec_nodes() =~= old(self).spec_nodes().remove(id));
            assert(self.spec_edges() =~= edges_without(old(self).spec_edges(), id));
            vstd::set_lib::lemma_set_subset_finite(old(self).spec_edges().dom(), self.spec_edges().dom());
        }
        Some(slot.node)
    }

    fn insert_edge(&mut self, id1: usize, id2: usize, edge: E) {
        let mut entry = match self.map.remove(&id1) {
            Some(e) => e,
            None => {
                proof {
                    assert(false);
                }
                return;
            },
        };
        entry.adjs.insert(id2, edge);
        self.map.insert(id1, entry);
        proof {
            assert(self.spec_nodes() =~= old(self).spec_nodes());
            assert(self.spec_edges() =~= old(self).spec_edges().insert((id1, id2), edge));
        }
    }

    fn take_edge(&mut self, id1: usize, id2: usize) -> (r: Option<E>) {
        let mut entry = match self.map.remove(&id1) {
            Some(e) => e,
            None => {
                proof {
                    assert(self.map@ =~= old(self).map@);
                    assert(self.spec_edges() =~= old(self).spec_edges().remove((id1, id2)));
                }
                return None;
            },
        };
        let r = entry.adjs.remove(&id2);
        self.map.insert(id1, entry);
        proof {
            assert(self.spec_nodes() =~= old(self).spec_nodes());
            assert(self.spec_edges() =~= old(self).spec_edges().remove((id1, id2)));
        }
        r
    }

    fn remove_all_nodes(&mut self) {
        self.map.clear();
        proof {
            assert(self.spec_nodes() =~= Map::<usize, N>::empty());
            assert(self.spec_edges() =~= Map::<(usize, usize), E>::empty());
        }
    }

    fn remove_all_edges(&mut self) {
        let keys = key_list(&self.map);
        let ghost mid = self.map@;
        let mut i: usize = 0;
        while i < keys.len()
            invariant
                keys@.to_set() == mid.dom(),
                keys@.no_duplicates(),
                i <= keys@.len(),
                self.map@.dom() == mid.dom(),
                forall|k: usize| #[trigger] self.map@.contains_key(k) ==> self.map@[k].node == mid[k].node,
                forall|k: usize| #[trigger] self.map@.contains_key(k) ==> self.map@[k].adjs@ == if keys@.take(i as int).contains(k) {
                    Map::<usize, E>::empty()
                } else {
                    mid[k].adjs@
                },
            decreases keys.len() - i,
        {
            let k = keys[i];
            proof {
                assert(keys@.to_set().contains(k));
                assert(keys@.take(i as int + 1) =~= keys@.take(i as int).push(k));
            }
            let entry = match self.map.remove(&k) {
                Some(e) => e,
                None => {
                    proof {
                        assert(false);
                    }
                    return;
                },
            };
            self.map.insert(k, NodeRepr { node: entry.node, adjs: BTreeMap::new() });
            proof {
                assert(self.map@.dom() =~= mid.dom());
                assert forall|j: usize| #[trigger] self.map@.contains_key(j) implies self.map@[j].adjs@
                    == if keys@.take(i as int + 1).contains(j) { Map::<usize, E>::empty() } else { mid[j].adjs@ } by {
                    if j != k {
                        assert(keys@.take(i as int + 1).contains(j) == keys@.take(i as int).contains(j)) by {
                            if keys@.take(i as int + 1).contains(j) {
                                let a = choose|a: int| 0 <= a < i + 1 && #[trigger] keys@.take(i as int + 1)[a] == j;
                                assert(keys@.take(i as int)[a] == j);
                            }
                            if keys@.take(i as int).contains(j) {
                                let a = choose|a: int| 0 <= a < i && #[trigger] keys@.take(i as int)[a] == j;
                                assert(keys@.take(i as int + 1)[a] == j);
                            }
                        }
                    } else {
                        assert(keys@.take(i as int + 1)[i as int] == k);
                    }
                }
            }
            i = i + 1;
        }
        proof {
            assert(keys@.take(keys@.len() as int) =~= keys@);
            assert forall|k: usize| mid.contains_key(k) implies keys@.contains(k) by {
                assert(keys@.to_set().contains(k));
            }
            assert(self.spec_nodes() =~= old(self).spec_nodes());
            assert(self.spec_edges() =~= Map::<(usize, usize), E>::empty());
        }
    }

    fn node_ids(&self) -> (r: Vec<usize>) {
        let r = key_list(&self.map);
        proof {
            assert(r@.to_set() =~= self.spec_nodes().dom());
        }
        r
    }

    fn neighbor_ids(&self, id: usize) -> (r: Vec<usize>) {
        match self.map.get(&id) {
            Some(slot) => {
                let r = key_list(&slot.adjs);
                proof {
                    assert(r@.to_set() =~= targets(self.spec_edges(), id));
                }
                r
            },
            None => {
                let r: Vec<usize> = Vec::new();
                proof {
                    assert(r@.to_set() =~= targets(self.spec_edges(), id));
                }
                r
            },
        }
    }
}

impl<N, E> Default for BTreeRepr<N, E> {
    /// The storage with no node.
    fn default() -> (r: Self)
        ensures
            r.well_formed(),
            r.spec_nodes() == Map::<usize, N>::empty(),
            r.spec_edges() == Map::<(usize, usize), E>::empty(),
    {
        Self::empty()
    }
}

} // verus!
