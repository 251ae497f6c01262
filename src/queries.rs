//! Queries on a graph, copying, and the fanin cone.
use crate::aig::{copy_sets, copy_vec, edge_in, edges_in, is_leaf_at, latch_ok, node_ok, same_sets, Aig};
use crate::edge::AigEdge;
use crate::node::{AigNode, AigNodeType};
use crate::symbols::{symbol_names, symbols_clone, symbols_get, symbols_insert};
use vstd::prelude::*;

verus! {

/// `i` is a root id, or a fanin of a flagged AND node above it.
pub open spec fn cone_supported(nodes: Seq<AigNode>, roots: Seq<AigEdge>, flag: Seq<bool>, i: int) -> bool {
    (exists|k: int| 0 <= k < roots.len() && roots[k].id == i) || (exists|j: int|
        i < j < nodes.len() && #[trigger] flag[j] && nodes[j].typ is And && (nodes[j].typ->And_0.id
            == i || nodes[j].typ->And_1.id == i))
}

impl Aig {
    pub fn get_symbol(&self, id: usize) -> (r: Option<String>)
        ensures
            r.is_some() == symbol_names(self.symbols).contains_key(id),
            r.is_some() ==> r.unwrap()@ == symbol_names(self.symbols)[id],
    {
        symbols_get(&self.symbols, id)
    }

    pub fn set_symbol(&mut self, id: usize, s: &str)
        ensures
            symbol_names(final(self).symbols) == symbol_names(old(self).symbols).insert(id, s@),
            final(self).nodes@ == old(self).nodes@,
            final(self).inputs@ == old(self).inputs@,
            final(self).latchs@ == old(self).latchs@,
            final(self).outputs@ == old(self).outputs@,
            final(self).bads@ == old(self).bads@,
            final(self).constraints@ == old(self).constraints@,
            same_sets(final(self).justice@, old(self).justice@),
            final(self).fairness@ == old(self).fairness@,
    {
        symbols_insert(&mut self.symbols, id, s.to_owned());
    }

    pub fn num_nodes(&self) -> (r: usize)
        ensures
            r == self.nodes.len(),
    {
        self.nodes.len()
    }

    /// The ids of all nodes but the constant.
    pub fn nodes_range(&self) -> (r: std::ops::Range<usize>)
        ensures
            r.start == 1,
            r.end == self.nodes.len(),
    {
        1..self.nodes.len()
    }

    /// The ids of all nodes.
    pub fn nodes_range_with_false(&self) -> (r: std::ops::Range<usize>)
        ensures
            r.start == 0,
            r.end == self.nodes.len(),
    {
        0..self.nodes.len()
    }

    /// The AND nodes, in id order.
    pub fn ands_iter(&self) -> (r: Vec<AigNode>)
        ensures
            r@ == self.nodes@.filter(|n: AigNode| n.typ is And),
    {
        let mut r: Vec<AigNode> = Vec::new();
        let mut i: usize = 0;
        proof {
            reveal(Seq::filter);
            assert(self.nodes@.take(0) =~= Seq::<AigNode>::empty());
        }
        while i < self.nodes.len()
            invariant
                i <= self.nodes.len(),
                r@ == self.nodes@.take(i as int).filter(|n: AigNode| n.typ is And),
            decreases self.nodes.len() - i,
        {
            proof {
                reveal(Seq::filter);
                assert(self.nodes@.take(i + 1).drop_last() =~= self.nodes@.take(i as int));
            }
            if self.nodes[i].is_and() {
                r.push(self.nodes[i]);
            }
            i += 1;
        }
        assert(self.nodes@.take(i as int) =~= self.nodes@);
        r
    }

    /// Flags the nodes that the edges of `logic` depend on through AND
    /// fanins: the least set of ids that holds the ids of `logic` and both
    /// fanin ids of each AND node in it.
    pub fn fanin_logic_cone(&self, logic: &[AigEdge]) -> (flag: Vec<bool>)
        requires
            self.wf(),
            forall|k: int| 0 <= k < logic@.len() ==> (#[trigger] logic@[k].id as int) < self.nodes.len(),
        ensures
            flag.len() == self.nodes.len(),
            forall|k: int| 0 <= k < logic@.len() ==> flag@[#[trigger] logic@[k].id as int],
            forall|i: int|
                0 <= i < self.nodes.len() && #[trigger] flag@[i] && self.nodes@[i].typ is And ==> {
                    &&& flag@[self.nodes@[i].typ->And_0.id as int]
                    &&& flag@[self.nodes@[i].typ->And_1.id as int]
                },
            forall|i: int|
                0 <= i < self.nodes.len() && #[trigger] flag@[i] ==> cone_supported(
                    self.nodes@,
                    logic@,
                    flag@,
                    i,
                ),
    {
        let n = self.nodes.len();
        let mut flag: Vec<bool> = vec![false; n];
        let mut k: usize = 0;
        while k < logic.len()
            invariant
                self.wf(),
                n == self.nodes.len(),
                k <= logic.len(),
                flag.len() == n,
                forall|k2: int| 0 <= k2 < logic@.len() ==> (#[trigger] logic@[k2].id as int) < n,
                forall|k2: int| 0 <= k2 < k ==> flag@[#[trigger] logic@[k2].id as int],
                forall|i: int|
                    0 <= i < n && #[trigger] flag@[i] ==> exists|k2: int|
                        0 <= k2 < k && logic@[k2].id == i,
            decreases logic.len() - k,
        {
            let id = logic[k].id;
            flag.set(id, true);
            assert forall|i: int| 0 <= i < n && #[trigger] flag@[i] implies exists|k2: int|
                0 <= k2 < k + 1 && logic@[k2].id == i by {
                if i != id {
                    let k2 = choose|k2: int| 0 <= k2 < k && logic@[k2].id == i;
                    assert(0 <= k2 < k + 1 && logic@[k2].id == i);
                } else {
                    assert(logic@[k as int].id == i);
                }
            }
            k += 1;
        }
        // from the highest id down, an AND node in the cone puts its fanins in
        let mut id: usize = n;
        while id > 0
            invariant
                self.wf(),
                n == self.nodes.len(),
                id <= n,
                flag.len() == n,
                forall|k2: int| 0 <= k2 < logic@.len() ==> (#[trigger] logic@[k2].id as int) < n,
                forall|k2: int| 0 <= k2 < logic@.len() ==> flag@[#[trigger] logic@[k2].id as int],
                forall|i: int|
                    id <= i < n && #[trigger] flag@[i] && self.nodes@[i].typ is And ==> {
                        &&& flag@[self.nodes@[i].typ->And_0.id as int]
                        &&& flag@[self.nodes@[i].typ->And_1.id as int]
                    },
                forall|i: int|
                    0 <= i < n && #[trigger] flag@[i] ==> cone_supported(self.nodes@, logic@, flag@, i),
            decreases id,
        {
            id -= 1;
            if flag[id] && self.nodes[id].is_and() {
                let f0 = self.nodes[id].fanin0().id;
                let f1 = self.nodes[id].fanin1().id;
                assert(crate::aig::node_ok(self.nodes@, id as int));
                let ghost before = flag@;
                flag.set(f0, true);
                flag.set(f1, true);
                assert forall|x: int| 0 <= x < n && before[x] implies #[trigger] flag@[x] by {}
                assert forall|i: int|
                    id <= i < n && #[trigger] flag@[i] && self.nodes@[i].typ is And implies {
                        &&& flag@[self.nodes@[i].typ->And_0.id as int]
                        &&& flag@[self.nodes@[i].typ->And_1.id as int]
                    } by {
                    assert(crate::aig::node_ok(self.nodes@, i));
                    if i > id {
                        assert(before[i]);
                    }
                }
                assert forall|i: int|
                    0 <= i < n && #[trigger] flag@[i] implies cone_supported(self.nodes@, logic@, flag@, i) by {
                    if i == f0 || i == f1 {
                        assert(flag@[id as int]);
                    } else {
                        assert(before[i]);
                        assert(cone_supported(self.nodes@, logic@, before, i));
                        if !(exists|k: int| 0 <= k < logic@.len() && logic@[k].id == i) {
                            let j = choose|j: int|
                                i < j < n && #[trigger] before[j] && self.nodes@[j].typ is And && (
                                self.nodes@[j].typ->And_0.id == i || self.nodes@[j].typ->And_1.id
                                    == i);
                            assert(flag@[j]);
                        }
                    }
                }
            }
        }
        flag
    }
}

/// Whether every edge of `es` is on a node below `n`.
fn edges_below(es: &Vec<AigEdge>, n: usize) -> (r: bool)
    ensures
        r == edges_in(es@, n as int),
{
    let mut i: usize = 0;
    while i < es.len()
        invariant
            i <= es.len(),
            forall|k: int| 0 <= k < i ==> edge_in(#[trigger] es@[k], n as int),
        decreases es.len() - i,
    {
        if es[i].id >= n {
            assert(!edge_in(es@[i as int], n as int));
            return false;
        }
        i += 1;
    }
    true
}

impl Aig {
    /// Checks the structural invariant.
    pub fn is_wf(&self) -> (r: bool)
        ensures
            r == self.wf(),
    {
        let n = self.nodes.len();
        if n == 0 || !matches!(self.nodes[0].typ, AigNodeType::False) {
            return false;
        }
        let mut i: usize = 0;
        while i < n
            invariant
                n == self.nodes.len(),
                i <= n,
                forall|p: int| 0 <= p < i ==> #[trigger] node_ok(self.nodes@, p),
            decreases n - i,
        {
            let node = self.nodes[i];
            let ok = node.id == i && match node.typ {
                AigNodeType::False => i == 0,
                AigNodeType::Leaf => i != 0,
                AigNodeType::And(f0, f1) => f0.id <= f1.id && f1.id < i,
            };
            if !ok {
                assert(!node_ok(self.nodes@, i as int));
                return false;
            }
            i += 1;
        }
        let mut k: usize = 0;
        while k < self.inputs.len()
            invariant
                n == self.nodes.len(),
                k <= self.inputs.len(),
                forall|p: int| 0 <= p < k ==> is_leaf_at(self.nodes@, #[trigger] self.inputs@[p]),
            decreases self.inputs.len() - k,
        {
            let x = self.inputs[k];
            if x >= n || !self.nodes[x].is_leaf() {
                assert(!is_leaf_at(self.nodes@, self.inputs@[k as int]));
                return false;
            }
            k += 1;
        }
        let mut k: usize = 0;
        while k < self.latchs.len()
            invariant
                n == self.nodes.len(),
                k <= self.latchs.len(),
                forall|p: int| 0 <= p < k ==> latch_ok(self.nodes@, #[trigger] self.latchs@[p]),
            decreases self.latchs.len() - k,
        {
            let l = self.latchs[k];
            let init_ok = match l.init {
                Some(e) => e.id < n,
                None => true,
            };
            if l.input >= n || !self.nodes[l.input].is_leaf() || l.next.id >= n || !init_ok {
                assert(!latch_ok(self.nodes@, self.latchs@[k as int]));
                return false;
            }
            k += 1;
        }
        if !edges_below(&self.outputs, n) || !edges_below(&self.bads, n) || !edges_below(&self.constraints, n)
            || !edges_below(&self.fairness, n) {
            return false;
        }
        let mut j: usize = 0;
        while j < self.justice.len()
            invariant
                n == self.nodes.len(),
                j <= self.justice.len(),
                forall|p: int| 0 <= p < j ==> edges_in(#[trigger] self.justice@[p]@, n as int),
            decreases self.justice.len() - j,
        {
            if !edges_below(&self.justice[j], n) {
                return false;
            }
            j += 1;
        }
        true
    }
}

impl Clone for Aig {
    fn clone(&self) -> (r: Self)
        ensures
            r.nodes@ == self.nodes@,
            r.same_roles(self),
    {
        Aig {
            nodes: copy_vec(&self.nodes),
            inputs: copy_vec(&self.inputs),
            latchs: copy_vec(&self.latchs),
            outputs: copy_vec(&self.outputs),
            bads: copy_vec(&self.bads),
            constraints: copy_vec(&self.constraints),
            justice: copy_sets(&self.justice),
            fairness: copy_vec(&self.fairness),
            symbols: symbols_clone(&self.symbols),
        }
    }
}

impl Default for Aig {
    fn default() -> (r: Self)
        ensures
            r.wf(),
            r.nodes@ == seq![AigNode { id: 0, typ: AigNodeType::False }],
            r.inputs@.len() == 0,
            r.latchs@.len() == 0,
            r.outputs@.len() == 0,
            r.bads@.len() == 0,
            r.constraints@.len() == 0,
            r.justice@.len() == 0,
            r.fairness@.len() == 0,
            symbol_names(r.symbols) =~= Map::empty(),
    {
        Self::new()
    }
}

} // verus!
