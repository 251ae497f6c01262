//! Concatenation of two graphs over a shared constant node.
use crate::aig::{edge_in, edges_in, is_leaf_at, latch_ok, node_ok, Aig};
use crate::edge::AigEdge;
use crate::node::{AigLatch, AigNode, AigNodeType};
use crate::symbols::symbol_names;
use crate::unroll::extends;
use vstd::prelude::*;

verus! {

/// Id `x` of the second graph in the merged one: the constant stays, every
/// other id moves up by `offset`.
pub open spec fn shift(x: usize, offset: usize) -> usize {
    if x == 0 {
        0
    } else {
        (x + offset) as usize
    }
}

pub open spec fn shift_edge(e: AigEdge, offset: usize) -> AigEdge {
    AigEdge { id: shift(e.id, offset), complement: e.complement }
}

pub open spec fn shift_node(n: AigNode, offset: usize) -> AigNode {
    AigNode {
        id: shift(n.id, offset),
        typ: match n.typ {
            AigNodeType::And(f0, f1) => AigNodeType::And(shift_edge(f0, offset), shift_edge(f1, offset)),
            t => t,
        },
    }
}

/// Justice set `base + j` of `js` holds the shifted edges of set `j` of
/// `from`.
pub open spec fn shifted_set(js: Seq<Vec<AigEdge>>, base: int, from: Seq<Vec<AigEdge>>, offset: usize, j: int) -> bool {
    &&& js[base + j]@.len() == from[j]@.len()
    &&& forall|p: int| 0 <= p < from[j]@.len() ==> #[trigger] js[base + j]@[p] == shift_edge(from[j]@[p], offset)
}

fn shift_id(x: usize, offset: usize) -> (r: usize)
    requires
        x + offset < usize::MAX,
    ensures
        r == shift(x, offset),
{
    if x == 0 {
        0
    } else {
        x + offset
    }
}

fn shift_e(e: AigEdge, offset: usize) -> (r: AigEdge)
    requires
        e.id + offset < usize::MAX,
    ensures
        r == shift_edge(e, offset),
{
    AigEdge { id: shift_id(e.id, offset), complement: e.complement }
}

/// Appends the shifted edges of `es` to `out`.
fn push_shifted(out: &mut Vec<AigEdge>, es: &Vec<AigEdge>, offset: usize, n: usize)
    requires
        edges_in(es@, n as int),
        n + offset < usize::MAX,
    ensures
        final(out).len() == old(out).len() + es.len(),
        extends(old(out)@, final(out)@),
        forall|k: int| 0 <= k < es.len() ==> #[trigger] final(out)@[old(out).len() + k] == shift_edge(es@[k], offset),
{
    let mut i: usize = 0;
    let ghost o = out@;
    while i < es.len()
        invariant
            i <= es.len(),
            edges_in(es@, n as int),
            n + offset < usize::MAX,
            out.len() == o.len() + i,
            extends(o, out@),
            forall|k: int| 0 <= k < i ==> #[trigger] out@[o.len() + k] == shift_edge(es@[k], offset),
        decreases es.len() - i,
    {
        assert(edge_in(es@[i as int], n as int));
        out.push(shift_e(es[i], offset));
        i += 1;
    }
}

proof fn lemma_shifted_in(r: Seq<AigEdge>, a: Seq<AigEdge>, b: Seq<AigEdge>, offset: usize, n: usize, len: usize)
    requires
        r.len() == a.len() + b.len(),
        extends(a, r),
        forall|k: int| 0 <= k < b.len() ==> #[trigger] r[a.len() + k] == shift_edge(b[k], offset),
        edges_in(a, len as int),
        edges_in(b, n as int),
        len == offset + n,
        n >= 1,
    ensures
        edges_in(r, len as int),
{
    assert forall|k: int| 0 <= k < r.len() implies edge_in(#[trigger] r[k], len as int) by {
        if k >= a.len() {
            assert(r[a.len() + (k - a.len())] == shift_edge(b[k - a.len()], offset));
            assert(edge_in(b[k - a.len()], n as int));
        } else {
            assert(edge_in(a[k], len as int));
        }
    }
}

impl Aig {
    /// Appends `other` to this graph: its nodes but the constant, shifted up
    /// by `num_nodes() - 1`, and its role lists, shifted the same way.
    pub fn merge(&mut self, other: &Aig)
        requires
            old(self).wf(),
            other.wf(),
            old(self).nodes.len() + other.nodes.len() < usize::MAX,
        ensures
            final(self).wf(),
            final(self).nodes.len() == old(self).nodes.len() + other.nodes.len() - 1,
            extends(old(self).nodes@, final(self).nodes@),
            forall|i: int| 1 <= i < other.nodes.len() ==> #[trigger] final(self).nodes@[old(self).nodes.len() - 1 + i]
                == shift_node(other.nodes@[i], (old(self).nodes.len() - 1) as usize),
            final(self).inputs.len() == old(self).inputs.len() + other.inputs.len(),
            extends(old(self).inputs@, final(self).inputs@),
            forall|k: int| 0 <= k < other.inputs.len() ==> #[trigger] final(self).inputs@[old(self).inputs.len() + k]
                == shift(other.inputs@[k], (old(self).nodes.len() - 1) as usize),
            final(self).latchs.len() == old(self).latchs.len() + other.latchs.len(),
            extends(old(self).latchs@, final(self).latchs@),
            forall|k: int| 0 <= k < other.latchs.len() ==> #[trigger] final(self).latchs@[old(self).latchs.len() + k]
                == (AigLatch {
                    input: shift(other.latchs@[k].input, (old(self).nodes.len() - 1) as usize),
                    next: shift_edge(other.latchs@[k].next, (old(self).nodes.len() - 1) as usize),
                        init: match other.latchs@[k].init {
                        Some(e) => Some(shift_edge(e, (old(self).nodes.len() - 1) as usize)),
                        None => None,
                    },
                }),
            final(self).outputs.len() == old(self).outputs.len() + other.outputs.len(),
            extends(old(self).outputs@, final(self).outputs@),
            forall|k: int| 0 <= k < other.outputs.len() ==> #[trigger] final(self).outputs@[old(self).outputs.len() + k]
                == shift_edge(other.outputs@[k], (old(self).nodes.len() - 1) as usize),
            final(self).bads.len() == old(self).bads.len() + other.bads.len(),
            extends(old(self).bads@, final(self).bads@),
            forall|k: int| 0 <= k < other.bads.len() ==> #[trigger] final(self).bads@[old(self).bads.len() + k]
                == shift_edge(other.bads@[k], (old(self).nodes.len() - 1) as usize),
            final(self).constraints.len() == old(self).constraints.len() + other.constraints.len(),
            extends(old(self).constraints@, final(self).constraints@),
            forall|k: int| 0 <= k < other.constraints.len() ==> #[trigger] final(self).constraints@[old(self).constraints.len() + k]
                == shift_edge(other.constraints@[k], (old(self).nodes.len() - 1) as usize),
            final(self).fairness.len() == old(self).fairness.len() + other.fairness.len(),
            extends(old(self).fairness@, final(self).fairness@),
            forall|k: int| 0 <= k < other.fairness.len() ==> #[trigger] final(self).fairness@[old(self).fairness.len() + k]
                == shift_edge(other.fairness@[k], (old(self).nodes.len() - 1) as usize),
            final(self).justice.len() == old(self).justice.len() + other.justice.len(),
            forall|j: int| 0 <= j < other.justice.len() ==> #[trigger] shifted_set(final(self).justice@, old(self).justice.len() as int,
                other.justice@, (old(self).nodes.len() - 1) as usize, j),
            forall|j: int| 0 <= j < old(self).justice.len() ==> (#[trigger] final(self).justice@[j])@ == old(self).justice@[j]@,
            symbol_names(final(self).symbols) == symbol_names(old(self).symbols),
    {
        let offset = self.nodes.len() - 1;
        let n = other.nodes.len();
        let ghost o = *self;
        let mut i: usize = 1;
        while i < n
            invariant
                o.wf(),
                other.wf(),
                n == other.nodes.len(),
                offset == o.nodes.len() - 1,
                o.nodes.len() + n < usize::MAX,
                1 <= i <= n,
                self.nodes.len() == o.nodes.len() + i - 1,
                extends(o.nodes@, self.nodes@),
                forall|p: int| 1 <= p < i ==> #[trigger] self.nodes@[offset + p] == shift_node(other.nodes@[p], offset),
                forall|p: int| 0 <= p < self.nodes.len() ==> #[trigger] node_ok(self.nodes@, p),
                self.inputs@ == o.inputs@,
                self.latchs@ == o.latchs@,
                self.outputs@ == o.outputs@,
                self.bads@ == o.bads@,
                self.constraints@ == o.constraints@,
                self.justice@ == o.justice@,
                self.fairness@ == o.fairness@,
                symbol_names(self.symbols) == symbol_names(o.symbols),
            decreases n - i,
        {
            let node = other.nodes[i];
            assert(node_ok(other.nodes@, i as int));
            let typ = match node.typ {
                AigNodeType::And(f0, f1) => AigNodeType::And(shift_e(f0, offset), shift_e(f1, offset)),
                AigNodeType::Leaf => AigNodeType::Leaf,
                AigNodeType::False => AigNodeType::False,
            };
            let ghost prev = self.nodes@;
            self.nodes.push(AigNode { id: shift_id(node.id, offset), typ });
            assert(self.nodes@[offset + i] == shift_node(other.nodes@[i as int], offset));
            assert forall|p: int| 0 <= p < self.nodes.len() implies #[trigger] node_ok(self.nodes@, p) by {
                if p < prev.len() {
                    assert(node_ok(prev, p));
                }
            }
            i += 1;
        }
        let len = self.nodes.len();
        let ghost mid = *self;
        let mut k: usize = 0;
        while k < other.inputs.len()
            invariant
                other.wf(),
                n == other.nodes.len(),
                offset == o.nodes.len() - 1,
                o.nodes.len() + n < usize::MAX,
                len == self.nodes.len(),
                len == o.nodes.len() + n - 1,
                self.nodes@ == mid.nodes@,
                forall|p: int| 1 <= p < n ==> #[trigger] self.nodes@[offset + p] == shift_node(other.nodes@[p], offset),
                forall|p: int| 0 <= p < o.nodes.len() ==> #[trigger] self.nodes@[p] == o.nodes@[p],
                o.wf(),
                k <= other.inputs.len(),
                self.inputs.len() == o.inputs.len() + k,
                extends(o.inputs@, self.inputs@),
                forall|p: int| 0 <= p < k ==> #[trigger] self.inputs@[o.inputs.len() + p] == shift(other.inputs@[p], offset),
                forall|p: int| 0 <= p < self.inputs.len() ==> is_leaf_at(self.nodes@, #[trigger] self.inputs@[p]),
                self.latchs@ == o.latchs@,
                self.outputs@ == o.outputs@,
                self.bads@ == o.bads@,
                self.constraints@ == o.constraints@,
                self.justice@ == o.justice@,
                self.fairness@ == o.fairness@,
                symbol_names(self.symbols) == symbol_names(o.symbols),
            decreases other.inputs.len() - k,
        {
            let x = other.inputs[k];
            assert(is_leaf_at(other.nodes@, x));
            assert(self.nodes@[offset + x] == shift_node(other.nodes@[x as int], offset));
            self.inputs.push(shift_id(x, offset));
            proof {
                let p = o.inputs.len() + k;
                assert forall|q: int| 0 <= q < self.inputs.len() implies is_leaf_at(self.nodes@, #[trigger] self.inputs@[q]) by {
                    if q < o.inputs.len() {
                        assert(is_leaf_at(o.nodes@, o.inputs@[q]));
                    }
                }
            }
            k += 1;
        }
        let ghost mid2 = *self;
        let mut k: usize = 0;
        while k < other.latchs.len()
            invariant
                other.wf(),
                n == other.nodes.len(),
                offset == o.nodes.len() - 1,
                o.nodes.len() + n < usize::MAX,
                len == self.nodes.len(),
                len == o.nodes.len() + n - 1,
                forall|p: int| 1 <= p < n ==> #[trigger] self.nodes@[offset + p] == shift_node(other.nodes@[p], offset),
                forall|p: int| 0 <= p < o.nodes.len() ==> #[trigger] self.nodes@[p] == o.nodes@[p],
                o.wf(),
                k <= other.latchs.len(),
                self.latchs.len() == o.latchs.len() + k,
                extends(o.latchs@, self.latchs@),
                forall|p: int| 0 <= p < k ==> #[trigger] self.latchs@[o.latchs.len() + p] == (AigLatch {
                    input: shift(other.latchs@[p].input, offset),
                    next: shift_edge(other.latchs@[p].next, offset),
                    init: match other.latchs@[p].init {
                        Some(e) => Some(shift_edge(e, offset)),
                        None => None,
                    },
                }),
                forall|p: int| 0 <= p < self.latchs.len() ==> latch_ok(self.nodes@, #[trigger] self.latchs@[p]),
                self.nodes@ == mid.nodes@,
                self.inputs@ == mid2.inputs@,
                forall|p: int| 0 <= p < self.inputs.len() ==> is_leaf_at(self.nodes@, #[trigger] self.inputs@[p]),
                self.outputs@ == o.outputs@,
                self.bads@ == o.bads@,
                self.constraints@ == o.constraints@,
                self.justice@ == o.justice@,
                self.fairness@ == o.fairness@,
                symbol_names(self.symbols) == symbol_names(o.symbols),
            decreases other.latchs.len() - k,
        {
            let l = other.latchs[k];
            assert(latch_ok(other.nodes@, l));
            assert(self.nodes@[offset + l.input] == shift_node(other.nodes@[l.input as int], offset));
            let init = match l.init {
                Some(e) => Some(shift_e(e, offset)),
                None => None,
            };
            let ghost pl = self.latchs@;
            self.latchs.push(AigLatch { input: shift_id(l.input, offset), next: shift_e(l.next, offset), init });
            assert forall|p: int| 0 <= p < self.latchs.len() implies latch_ok(self.nodes@, #[trigger] self.latchs@[p]) by {
                if p < pl.len() {
                    assert(self.latchs@[p] == pl[p]);
                }
            }
            k += 1;
        }
        assert forall|p: int| 0 <= p < o.outputs.len() implies edge_in(#[trigger] o.outputs@[p], len as int) by {
            assert(edge_in(o.outputs@[p], o.nodes.len() as int));
        }
        assert forall|p: int| 0 <= p < o.bads.len() implies edge_in(#[trigger] o.bads@[p], len as int) by {
            assert(edge_in(o.bads@[p], o.nodes.len() as int));
        }
        assert forall|p: int| 0 <= p < o.constraints.len() implies edge_in(#[trigger] o.constraints@[p], len as int) by {
            assert(edge_in(o.constraints@[p], o.nodes.len() as int));
        }
        assert forall|p: int| 0 <= p < o.fairness.len() implies edge_in(#[trigger] o.fairness@[p], len as int) by {
            assert(edge_in(o.fairness@[p], o.nodes.len() as int));
        }
        push_shifted(&mut self.outputs, &other.outputs, offset, n);
        push_shifted(&mut self.bads, &other.bads, offset, n);
        push_shifted(&mut self.constraints, &other.constraints, offset, n);
        push_shifted(&mut self.fairness, &other.fairness, offset, n);
        proof {
            lemma_shifted_in(self.outputs@, o.outputs@, other.outputs@, offset, n, len);
            lemma_shifted_in(self.bads@, o.bads@, other.bads@, offset, n, len);
            lemma_shifted_in(self.constraints@, o.constraints@, other.constraints@, offset, n, len);
            lemma_shifted_in(self.fairness@, o.fairness@, other.fairness@, offset, n, len);
        }
        let ghost mid3 = *self;
        let mut j: usize = 0;
        while j < other.justice.len()
            invariant
                other.wf(),
                o.wf(),
                n == other.nodes.len(),
                offset == o.nodes.len() - 1,
                o.nodes.len() + n < usize::MAX,
                len == o.nodes.len() + n - 1,
                self.nodes@ == mid3.nodes@,
                self.inputs@ == mid3.inputs@,
                self.latchs@ == mid3.latchs@,
                self.outputs@ == mid3.outputs@,
                self.bads@ == mid3.bads@,
                self.constraints@ == mid3.constraints@,
                self.fairness@ == mid3.fairness@,
                symbol_names(self.symbols) == symbol_names(mid3.symbols),
                j <= other.justice.len(),
                self.justice.len() == o.justice.len() + j,
                forall|j2: int| 0 <= j2 < o.justice.len() ==> (#[trigger] self.justice@[j2])@ == o.justice@[j2]@,
                forall|j2: int| 0 <= j2 < self.justice.len() ==> edges_in(#[trigger] self.justice@[j2]@, len as int),
                forall|j2: int| 0 <= j2 < j ==> #[trigger] shifted_set(self.justice@, o.justice.len() as int, other.justice@, offset, j2),
            decreases other.justice.len() - j,
        {
            let mut e: Vec<AigEdge> = Vec::new();
            assert(edges_in(other.justice@[j as int]@, n as int));
            push_shifted(&mut e, &other.justice[j], offset, n);
            proof {
                lemma_shifted_in(e@, Seq::empty(), other.justice@[j as int]@, offset, n, len);
            }
            let ghost pj = self.justice@;
            self.justice.push(e);
            assert forall|j2: int| 0 <= j2 < o.justice.len() implies (#[trigger] self.justice@[j2])@ == o.justice@[j2]@ by {
                assert(self.justice@[j2] == pj[j2]);
            }
            assert forall|j2: int| 0 <= j2 < self.justice.len() implies edges_in(#[trigger] self.justice@[j2]@, len as int) by {
                if j2 < pj.len() {
                    assert(self.justice@[j2] == pj[j2]);
                }
            }
            assert forall|j2: int| 0 <= j2 < j + 1 implies #[trigger] shifted_set(self.justice@, o.justice.len() as int, other.justice@, offset, j2) by {
                if j2 < j {
                    assert(shifted_set(pj, o.justice.len() as int, other.justice@, offset, j2));
                    assert(self.justice@[o.justice.len() + j2] == pj[o.justice.len() + j2]);
                } else {
                    assert(self.justice@[o.justice.len() + j2] == e);
                    assert forall|p: int| 0 <= p < other.justice@[j2]@.len() implies #[trigger] self.justice@[o.justice.len() + j2]@[p] == shift_edge(other.justice@[j2]@[p], offset) by {
                        assert(e@[0 + p] == shift_edge(other.justice@[j2]@[p], offset));
                    }
                }
            }
            j += 1;
        }
    }
}

} // verus!
