//! Property transforms: folding constraints into a sticky latch, joining the
//! bads into one, and lowering gated initial values into a constraint.
use crate::aig::{
    all_true, any_true, copy_vec, edge_in, edge_val, edges_in, latch_ok, same_sets, true_edge, Aig,
};
use crate::builder::{lemma_prefix_push, lemma_prefix_refl, lemma_prefix_trans};
use crate::edge::AigEdge;
use crate::node::AigLatch;
use crate::symbols::symbol_names;
use vstd::prelude::*;

verus! {

/// The latches with a gated initial value (an edge on a node other than the
/// constant), as leaf and initial edge, in order.
pub open spec fn gated(ls: Seq<AigLatch>) -> Seq<(usize, AigEdge)>
    decreases ls.len(),
{
    if ls.len() == 0 {
        Seq::empty()
    } else {
        let l = ls.last();
        if l.init is Some && l.init->0.id != 0 {
            gated(ls.drop_last()).push((l.input, l.init->0))
        } else {
            gated(ls.drop_last())
        }
    }
}

proof fn lemma_gated_empty(ls: Seq<AigLatch>)
    requires
        gated(ls).len() == 0,
    ensures
        forall|k: int| 0 <= k < ls.len() ==> #[trigger] ungate(ls[k]) == ls[k],
    decreases ls.len(),
{
    if ls.len() > 0 {
        lemma_gated_empty(ls.drop_last());
        assert forall|k: int| 0 <= k < ls.len() implies #[trigger] ungate(ls[k]) == ls[k] by {
            if k < ls.len() - 1 {
                assert(ls.drop_last()[k] == ls[k]);
            }
        }
    }
}

/// The latch with a gated initial value cleared.
pub open spec fn ungate(l: AigLatch) -> AigLatch {
    if l.init is Some && l.init->0.id != 0 {
        AigLatch { input: l.input, next: l.next, init: None }
    } else {
        l
    }
}

impl Aig {
    /// Folds the constraints into a new latch `L` with initial value 1 and
    /// next state `L & (all constraints)`; the first bad and the first
    /// output are conjoined with that next-state edge, and the constraints
    /// are dropped.
    pub fn aig_move(&self) -> (r: Self)
        requires
            self.wf(),
        ensures
            r.wf(),
            self.nodes@.is_prefix_of(r.nodes@),
            r.inputs@ == self.inputs@,
            r.latchs.len() == self.latchs.len() + 1,
            forall|k: int| 0 <= k < self.latchs.len() ==> #[trigger] r.latchs@[k] == self.latchs@[k],
            r.latchs@.last().input == self.nodes.len(),
            r.latchs@.last().init == Some(true_edge()),
            forall|vals: Seq<bool>| #![trigger edge_val(r.nodes@, vals, r.latchs@.last().next)]
                edge_val(r.nodes@, vals, r.latchs@.last().next) == (vals[self.nodes.len() as int]
                    && all_true(self.nodes@, vals, self.constraints@)),
            r.constraints.len() == 0,
            r.bads.len() == self.bads.len(),
            forall|k: int| 1 <= k < self.bads.len() ==> #[trigger] r.bads@[k] == self.bads@[k],
            self.bads.len() > 0 ==> forall|vals: Seq<bool>| #![trigger edge_val(r.nodes@, vals, r.bads@[0])]
                edge_val(r.nodes@, vals, r.bads@[0]) == (edge_val(r.nodes@, vals, r.latchs@.last().next)
                    && edge_val(self.nodes@, vals, self.bads@[0])),
            r.outputs.len() == self.outputs.len(),
            forall|k: int| 1 <= k < self.outputs.len() ==> #[trigger] r.outputs@[k] == self.outputs@[k],
            self.outputs.len() > 0 ==> forall|vals: Seq<bool>| #![trigger edge_val(r.nodes@, vals, r.outputs@[0])]
                edge_val(r.nodes@, vals, r.outputs@[0]) == (edge_val(r.nodes@, vals, r.latchs@.last().next)
                    && edge_val(self.nodes@, vals, self.outputs@[0])),
            same_sets(r.justice@, self.justice@),
            r.fairness@ == self.fairness@,
            symbol_names(r.symbols) == symbol_names(self.symbols),
    {
        let mut res = self.clone();
        let ghost s0 = self.nodes@;
        let latch = res.new_leaf_node();
        let ghost s1 = res.nodes@;
        proof {
            lemma_prefix_push(s0, res.nodes@.last());
        }
        let cs = copy_vec(&res.constraints);
        assert(edges_in(cs@, res.nodes.len() as int)) by {
            assert forall|k: int| 0 <= k < cs.len() implies edge_in(#[trigger] cs@[k], res.nodes.len() as int) by {
                assert(edge_in(self.constraints@[k], s0.len() as int));
            }
        }
        let constrains = res.new_ands_node(cs);
        let ghost s2 = res.nodes@;
        let next = res.new_and_node(AigEdge::new(latch, false), constrains);
        let ghost s3 = res.nodes@;
        proof {
            lemma_prefix_trans(s0, s1, s2);
            lemma_prefix_trans(s0, s2, s3);
            lemma_prefix_trans(s1, s2, s3);
            crate::aig::lemma_edge_val_prefix(s2, s3, constrains);
            assert forall|vals: Seq<bool>| #![trigger edge_val(s3, vals, next)]
                edge_val(s3, vals, next) == (vals[self.nodes.len() as int] && all_true(s0, vals, self.constraints@)) by {
                crate::builder::lemma_all_true_prefix(s0, s1, vals, self.constraints@);
                assert(edge_val(s2, vals, constrains) == all_true(s1, vals, cs@));
                assert(edge_val(s3, vals, next) == (edge_val(s2, vals, AigEdge { id: latch, complement: false }) && edge_val(s2, vals, constrains)));
                crate::aig::lemma_node_val_prefix(s1, s2, vals, latch as nat);
                assert(crate::aig::node_val(s1, vals, latch as nat) == vals[latch as int]);
            }
        }
        res.add_latch(latch, next, Some(AigEdge::constant(true)));
        if res.bads.len() > 0 {
            let b0 = res.bads[0];
            assert(edge_in(self.bads@[0], s0.len() as int));
            let ghost t0 = res.nodes@;
            let b = res.new_and_node(next, b0);
            proof {
                lemma_prefix_trans(s0, t0, res.nodes@);
                crate::aig::lemma_edge_val_prefix(t0, res.nodes@, next);
                crate::aig::lemma_edge_val_prefix(s0, t0, b0);
            }
            res.bads.set(0, b);
        }
        if res.outputs.len() > 0 {
            let o0 = res.outputs[0];
            assert(edge_in(self.outputs@[0], s0.len() as int));
            let ghost t0 = res.nodes@;
            let ghost pb = res.bads@;
            let o = res.new_and_node(next, o0);
            proof {
                lemma_prefix_trans(s0, t0, res.nodes@);
                crate::aig::lemma_edge_val_prefix(t0, res.nodes@, next);
                crate::aig::lemma_edge_val_prefix(s0, t0, o0);
                if self.bads.len() > 0 {
                    crate::aig::lemma_edge_val_prefix(t0, res.nodes@, pb[0]);
                }
            }
            res.outputs.set(0, o);
        }
        res.constraints.clear();
        proof {
            crate::aig::lemma_edge_val_prefix(s3, res.nodes@, next);
        }
        res
    }

    /// Replaces the bads by their disjunction and returns the old bads.
    pub fn compress_property(&mut self) -> (r: Vec<AigEdge>)
        requires
            old(self).wf(),
        ensures
            final(self).wf(),
            r@ == old(self).bads@,
            old(self).nodes@.is_prefix_of(final(self).nodes@),
            final(self).bads.len() == 1,
            forall|vals: Seq<bool>| #![trigger edge_val(final(self).nodes@, vals, final(self).bads@[0])]
                edge_val(final(self).nodes@, vals, final(self).bads@[0]) == any_true(old(self).nodes@, vals, old(self).bads@),
            final(self).inputs@ == old(self).inputs@,
            final(self).latchs@ == old(self).latchs@,
            final(self).outputs@ == old(self).outputs@,
            final(self).constraints@ == old(self).constraints@,
            same_sets(final(self).justice@, old(self).justice@),
            final(self).fairness@ == old(self).fairness@,
            symbol_names(final(self).symbols) == symbol_names(old(self).symbols),
    {
        let b = copy_vec(&self.bads);
        self.bads.clear();
        assert(self.wf());
        let p = self.new_ors_node(copy_vec(&b));
        self.bads.push(p);
        b
    }

    /// Lowers gated initial values into constraints: each latch whose
    /// initial value is an edge on a node other than the constant loses it,
    /// and, if there was any, a new latch `I` with initial value 1 and next
    /// state 0 is added, with one constraint `I -> (l <-> g)` per such latch
    /// `l` with initial edge `g`, in latch order.
    pub fn gate_init_to_constraint(&mut self)
        requires
            old(self).wf(),
        ensures
            final(self).wf(),
            old(self).nodes@.is_prefix_of(final(self).nodes@),
            final(self).inputs@ == old(self).inputs@,
            gated(old(self).latchs@).len() == 0 ==> final(self).latchs@ == old(self).latchs@
                && final(self).constraints@ == old(self).constraints@ && final(self).nodes@ == old(self).nodes@,
            gated(old(self).latchs@).len() > 0 ==> {
                &&& final(self).latchs.len() == old(self).latchs.len() + 1
                &&& forall|k: int| 0 <= k < old(self).latchs.len() ==> #[trigger] final(self).latchs@[k] == ungate(old(self).latchs@[k])
                &&& final(self).latchs@.last() == (AigLatch {
                    input: old(self).nodes.len() as usize,
                    next: AigEdge { id: 0, complement: false },
                    init: Some(true_edge()),
                })
                &&& final(self).constraints.len() == old(self).constraints.len() + gated(old(self).latchs@).len()
                &&& forall|k: int| 0 <= k < old(self).constraints.len() ==> #[trigger] final(self).constraints@[k] == old(self).constraints@[k]
                &&& forall|q: int, vals: Seq<bool>| 0 <= q < gated(old(self).latchs@).len() ==> #[trigger] edge_val(
                    final(self).nodes@,
                    vals,
                    final(self).constraints@[old(self).constraints.len() + q],
                ) == (!vals[old(self).nodes.len() as int] || (vals[gated(old(self).latchs@)[q].0 as int]
                    == edge_val(old(self).nodes@, vals, gated(old(self).latchs@)[q].1)))
            },
            final(self).outputs@ == old(self).outputs@,
            final(self).bads@ == old(self).bads@,
            same_sets(final(self).justice@, old(self).justice@),
            final(self).fairness@ == old(self).fairness@,
            symbol_names(final(self).symbols) == symbol_names(old(self).symbols),
    {
        let ghost s0 = self.nodes@;
        let mut gate_init: Vec<(usize, AigEdge)> = Vec::new();
        let mut k: usize = 0;
        assert(old(self).latchs@.take(0) =~= Seq::<AigLatch>::empty());
        while k < self.latchs.len()
            invariant
                self.wf(),
                self.nodes@ == old(self).nodes@,
                self.inputs@ == old(self).inputs@,
                self.outputs@ == old(self).outputs@,
                self.bads@ == old(self).bads@,
                self.constraints@ == old(self).constraints@,
                self.justice@ == old(self).justice@,
                self.fairness@ == old(self).fairness@,
                symbol_names(self.symbols) == symbol_names(old(self).symbols),
                self.latchs.len() == old(self).latchs.len(),
                k <= self.latchs.len(),
                forall|p: int| 0 <= p < k ==> #[trigger] self.latchs@[p] == ungate(old(self).latchs@[p]),
                forall|p: int| k <= p < self.latchs.len() ==> #[trigger] self.latchs@[p] == old(self).latchs@[p],
                gate_init@ == gated(old(self).latchs@.take(k as int)),
                forall|q: int| 0 <= q < gate_init.len() ==> crate::aig::is_leaf_at(self.nodes@, (#[trigger] gate_init@[q]).0)
                    && edge_in(gate_init@[q].1, self.nodes.len() as int),
            decreases self.latchs.len() - k,
        {
            let l = self.latchs[k];
            assert(latch_ok(self.nodes@, l));
            assert(old(self).latchs@.take(k + 1).drop_last() =~= old(self).latchs@.take(k as int));
            match l.init {
                Some(init) => {
                    if init.id != 0 {
                        gate_init.push((l.input, init));
                        let ghost pl = self.latchs@;
                        self.latchs.set(k, AigLatch { input: l.input, next: l.next, init: None });
                        assert forall|p: int| 0 <= p < self.latchs.len() implies latch_ok(self.nodes@, #[trigger] self.latchs@[p]) by {
                            if p != k {
                                assert(self.latchs@[p] == pl[p]);
                            }
                        }
                    }
                },
                None => {},
            }
            k += 1;
        }
        assert(old(self).latchs@.take(k as int) =~= old(self).latchs@);
        if gate_init.len() == 0 {
            proof {
                lemma_prefix_refl(self.nodes@);
                lemma_gated_empty(old(self).latchs@);
                assert(self.latchs@ =~= old(self).latchs@);
            }
            return;
        }
        let ghost mid = *self;
        let il = self.new_latch(AigEdge::constant(false), Some(AigEdge::constant(true)));
        let init = AigEdge::new(il, false);
        let ghost s1 = self.nodes@;
        proof {
            lemma_prefix_push(s0, self.nodes@.last());
        }
        let n0 = self.constraints.len();
        let mut q: usize = 0;
        while q < gate_init.len()
            invariant
                self.wf(),
                s0 == old(self).nodes@,
                s0.is_prefix_of(s1),
                s1.is_prefix_of(self.nodes@),
                s1.len() == s0.len() + 1,
                s1[s0.len() as int].typ is Leaf,
                il == s0.len(),
                init == (AigEdge { id: il, complement: false }),
                n0 == old(self).constraints.len(),
                gate_init@ == gated(old(self).latchs@),
                forall|p: int| 0 <= p < gate_init.len() ==> crate::aig::is_leaf_at(s0, (#[trigger] gate_init@[p]).0)
                    && edge_in(gate_init@[p].1, s0.len() as int),
                self.inputs@ == old(self).inputs@,
                self.latchs@ == mid.latchs@.push(AigLatch { input: il, next: AigEdge { id: 0, complement: false }, init: Some(true_edge()) }),
                self.outputs@ == old(self).outputs@,
                self.bads@ == old(self).bads@,
                same_sets(self.justice@, old(self).justice@),
                self.fairness@ == old(self).fairness@,
                symbol_names(self.symbols) == symbol_names(old(self).symbols),
                q <= gate_init.len(),
                self.constraints.len() == n0 + q,
                forall|k: int| 0 <= k < n0 ==> #[trigger] self.constraints@[k] == old(self).constraints@[k],
                forall|p: int, vals: Seq<bool>| 0 <= p < q ==> #[trigger] edge_val(self.nodes@, vals, self.constraints@[n0 + p])
                    == (!vals[s0.len() as int] || (vals[gate_init@[p].0 as int] == edge_val(s0, vals, gate_init@[p].1))),
            decreases gate_init.len() - q,
        {
            let (l, gi) = gate_init[q];
            let le = AigEdge::new(l, false);
            let ghost t0 = self.nodes@;
            proof {
                lemma_prefix_trans(s0, s1, t0);
            }
            let eq = self.new_eq_node(le, gi);
            let ghost t1 = self.nodes@;
            let imp = self.new_imply_node(init, eq);
            let ghost t2 = self.nodes@;
            proof {
                lemma_prefix_trans(t0, t1, t2);
                lemma_prefix_trans(s0, t0, t2);
                lemma_prefix_trans(s1, t0, t2);
                assert forall|vals: Seq<bool>| edge_val(t2, vals, imp) == (!vals[s0.len() as int] || (vals[l as int] == edge_val(s0, vals, gi))) by {
                    crate::aig::lemma_edge_val_prefix(s0, t0, le);
                    crate::aig::lemma_edge_val_prefix(s0, t0, gi);
                    crate::aig::lemma_edge_val_prefix(s1, t0, init);
                    crate::aig::lemma_edge_val_prefix(t0, t1, init);
                    assert(crate::aig::node_val(s1, vals, il as nat) == vals[il as int]);
                    assert(crate::aig::node_val(s0, vals, l as nat) == vals[l as int]);
                    assert(edge_val(t1, vals, eq) == (edge_val(t0, vals, le) == edge_val(t0, vals, gi)));
                    assert(edge_val(t2, vals, imp) == (!edge_val(t0, vals, init) || edge_val(t1, vals, eq)));
                }
                assert forall|p: int, vals: Seq<bool>| 0 <= p < q implies #[trigger] edge_val(t2, vals, self.constraints@[n0 + p])
                    == (!vals[s0.len() as int] || (vals[gate_init@[p].0 as int] == edge_val(s0, vals, gate_init@[p].1))) by {
                    assert(edges_in(self.constraints@, t0.len() as int));
                    assert(edge_in(self.constraints@[n0 + p], t0.len() as int));
                    crate::aig::lemma_edge_val_prefix(t0, t2, self.constraints@[n0 + p]);
                }
            }
            let ghost pc = self.constraints@;
            self.constraints.push(imp);
            assert(self.constraints@[n0 + q] == imp);
            assert forall|k: int| 0 <= k < n0 implies #[trigger] self.constraints@[k] == old(self).constraints@[k] by {
                assert(self.constraints@[k] == pc[k]);
            }
            assert forall|p: int, vals: Seq<bool>| 0 <= p < q + 1 implies #[trigger] edge_val(self.nodes@, vals, self.constraints@[n0 + p])
                == (!vals[s0.len() as int] || (vals[gate_init@[p].0 as int] == edge_val(s0, vals, gate_init@[p].1))) by {
                if p < q {
                    assert(self.constraints@[n0 + p] == pc[n0 + p]);
                }
            }
            q += 1;
        }
        proof {
            lemma_prefix_trans(s0, s1, self.nodes@);
        }
    }
}

} // verus!
