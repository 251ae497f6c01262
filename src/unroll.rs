//! Time-frame unrolling and graph concatenation.
use crate::aig::{
    edge_in, edge_val, edges_in, fold_and, latch_ok, lemma_edge_val_prefix, lemma_node_val_local, node_ok, node_val,
    same_graph, same_sets, Aig,
};
use crate::builder::{lemma_prefix_refl, lemma_prefix_trans};
use crate::edge::AigEdge;
use crate::strash::map_e;
use crate::node::{canon, AigLatch, AigNode, AigNodeType};
use crate::symbols::symbol_names;
use vstd::prelude::*;

verus! {

/// The latches of `a` and `b` have the same leaves, in the same order.
pub open spec fn same_latch_leaves(a: Seq<AigLatch>, b: Seq<AigLatch>) -> bool {
    &&& a.len() == b.len()
    &&& forall|k: int| 0 <= k < a.len() ==> #[trigger] a[k].input == b[k].input
}

/// `new` starts with `old`.
pub open spec fn extends<T>(old: Seq<T>, new: Seq<T>) -> bool {
    &&& old.len() <= new.len()
    &&& forall|k: int| 0 <= k < old.len() ==> #[trigger] new[k] == old[k]
}

/// Some latch of `ls` has leaf `j`.
pub open spec fn latched(ls: Seq<AigLatch>, j: int) -> bool {
    exists|k: int| 0 <= k < ls.len() && #[trigger] ls[k].input == j
}

/// The images, under `m`, of the leaves of `from` below `i` (but the
/// constant) that no latch of `from` has: the inputs that a frame adds.
pub open spec fn fresh_inputs(from: Aig, m: Seq<AigEdge>, i: int) -> Seq<usize>
    decreases i,
{
    if i <= 1 {
        Seq::empty()
    } else if from.nodes@[i - 1].typ is Leaf && !latched(from.latchs@, i - 1) {
        fresh_inputs(from, m, i - 1).push(m[i - 1].id)
    } else {
        fresh_inputs(from, m, i - 1)
    }
}

/// The number of inputs that a frame of `from` adds.
pub open spec fn n_fresh(from: Aig, i: int) -> nat
    decreases i,
{
    if i <= 1 {
        0
    } else if from.nodes@[i - 1].typ is Leaf && !latched(from.latchs@, i - 1) {
        n_fresh(from, i - 1) + 1
    } else {
        n_fresh(from, i - 1)
    }
}

proof fn lemma_fresh_len(from: Aig, m: Seq<AigEdge>, i: int)
    ensures
        fresh_inputs(from, m, i).len() == n_fresh(from, i),
    decreases i,
{
    if i > 1 {
        lemma_fresh_len(from, m, i - 1);
    }
}

proof fn lemma_fresh_local(from: Aig, m1: Seq<AigEdge>, m2: Seq<AigEdge>, i: int)
    requires
        forall|j: int| 0 <= j < i ==> m1[j] == m2[j],
    ensures
        fresh_inputs(from, m1, i) == fresh_inputs(from, m2, i),
    decreases i,
{
    if i > 1 {
        lemma_fresh_local(from, m1, m2, i - 1);
    }
}

/// Graph `t + 1` of `s` is graph `t` unrolled by one frame of `from`.
pub open spec fn frame_step(from: Aig, s: Seq<Aig>, t: int) -> bool {
    exists|m: Seq<AigEdge>| #[trigger] unrolled(from, s[t], s[t + 1], m)
}

/// The nodes that a frame of `from` appends after `base` nodes, in
/// ascending order of the nodes of `from` below `i`: a leaf for each leaf
/// that no latch has, and an AND node over the images of the fanins for each
/// AND node that `new_and_node` does not fold.
pub open spec fn frame_nodes(from: Aig, m: Seq<AigEdge>, base: int, i: int) -> Seq<AigNode>
    decreases i,
{
    if i <= 1 {
        Seq::empty()
    } else {
        let prev = frame_nodes(from, m, base, i - 1);
        let id = (base + prev.len()) as usize;
        match from.nodes@[i - 1].typ {
            AigNodeType::Leaf => if latched(from.latchs@, i - 1) {
                prev
            } else {
                prev.push(AigNode { id, typ: AigNodeType::Leaf })
            },
            AigNodeType::And(f0, f1) => {
                let (g0, g1) = (map_e(m, f0), map_e(m, f1));
                if fold_and(g0, g1) is Some {
                    prev
                } else {
                    prev.push(AigNode { id, typ: AigNodeType::And(canon(g0, g1).0, canon(g0, g1).1) })
                }
            },
            AigNodeType::False => prev,
        }
    }
}

/// The image of node `j` is the one `unroll` builds: an unlatched leaf's is
/// its new leaf; an AND node's is the fold of the images of its fanins, or
/// else its new AND node.
pub open spec fn frame_image(from: Aig, m: Seq<AigEdge>, base: int, j: int) -> bool {
    let fresh = AigEdge { id: (base + frame_nodes(from, m, base, j).len()) as usize, complement: false };
    match from.nodes@[j].typ {
        AigNodeType::Leaf => latched(from.latchs@, j) || m[j] == fresh,
        AigNodeType::And(f0, f1) => match fold_and(map_e(m, f0), map_e(m, f1)) {
            Some(e) => m[j] == e,
            None => m[j] == fresh,
        },
        AigNodeType::False => true,
    }
}

proof fn lemma_frame_local(from: Aig, m1: Seq<AigEdge>, m2: Seq<AigEdge>, base: int, i: int)
    requires
        from.wf(),
        i <= from.nodes.len(),
        m1.len() == from.nodes.len(),
        m2.len() == from.nodes.len(),
        forall|j: int| 0 <= j < i ==> m1[j] == m2[j],
    ensures
        frame_nodes(from, m1, base, i) == frame_nodes(from, m2, base, i),
    decreases i,
{
    if i > 1 {
        lemma_frame_local(from, m1, m2, base, i - 1);
        assert(node_ok(from.nodes@, i - 1));
    }
}

/// The values of the images of the nodes of the unrolled graph.
pub open spec fn pull_vals(nodes: Seq<AigNode>, m: Seq<AigEdge>, vals: Seq<bool>) -> Seq<bool> {
    Seq::new(m.len(), |j: int| edge_val(nodes, vals, m[j]))
}

/// `f` is `o` extended by one time frame of `from` through the node map
/// `m`: the image of each node of `from` computes that node's function with
/// each leaf replaced by its image; a latch leaf's image is the next-state
/// edge of a latch on it in `o`, and any other leaf's image a new leaf; the
/// latches take the images of their next-state edges, and the images of the
/// property edges are appended.
pub open spec fn unrolled(from: Aig, o: Aig, f: Aig, m: Seq<AigEdge>) -> bool {
    &&& m.len() == from.nodes.len()
    &&& edges_in(m, f.nodes.len() as int)
    &&& m[0] == (AigEdge { id: 0, complement: false })
    &&& f.inputs@ == o.inputs@ + fresh_inputs(from, m, m.len() as int)
    &&& f.nodes@ == o.nodes@ + frame_nodes(from, m, o.nodes.len() as int, m.len() as int)
    &&& forall|j: int| 0 < j < m.len() ==> #[trigger] frame_image(from, m, o.nodes.len() as int, j)
    &&& forall|vals: Seq<bool>, j: int| 0 <= j < m.len() ==> #[trigger] edge_val(f.nodes@, vals, m[j]) == node_val(from.nodes@, pull_vals(f.nodes@, m, vals), j as nat)
    &&& forall|k: int| 0 <= k < from.latchs.len() ==> exists|k2: int| 0 <= k2 < o.latchs.len() && o.latchs@[k2].input == from.latchs@[k].input
        && #[trigger] m[from.latchs@[k].input as int] == o.latchs@[k2].next
    &&& forall|j: int| 0 < j < m.len() && (#[trigger] from.nodes@[j]).typ is Leaf && !(exists|k: int| 0 <= k < o.latchs.len() && o.latchs@[k].input == j)
        ==> !m[j].complement && (m[j].id as int) >= o.nodes.len() && f.nodes@[m[j].id as int].typ is Leaf
    &&& forall|k: int| 0 <= k < f.latchs.len() ==> (#[trigger] f.latchs@[k]).next == map_e(m, from.latchs@[k].next)
        && f.latchs@[k].input == o.latchs@[k].input && f.latchs@[k].init == o.latchs@[k].init
    &&& forall|k: int| 0 <= k < from.outputs.len() ==> #[trigger] f.outputs@[o.outputs.len() + k] == map_e(m, from.outputs@[k])
    &&& forall|k: int| 0 <= k < from.bads.len() ==> #[trigger] f.bads@[o.bads.len() + k] == map_e(m, from.bads@[k])
    &&& forall|k: int| 0 <= k < from.constraints.len() ==> #[trigger] f.constraints@[o.constraints.len() + k] == map_e(m, from.constraints@[k])
    &&& forall|k: int| 0 <= k < from.fairness.len() ==> #[trigger] f.fairness@[o.fairness.len() + k] == map_e(m, from.fairness@[k])
    &&& forall|j: int| 0 <= j < from.justice.len() ==> #[trigger] frame_set(f.justice@, o.justice.len() as int, from.justice@, m, j)
}

/// Values pulled through an unchanged prefix of the node map agree.
proof fn lemma_pull_agree(pn: Seq<AigNode>, sn: Seq<AigNode>, pm: Seq<AigEdge>, m: Seq<AigEdge>, vals: Seq<bool>, upto: int)
    requires
        pn.is_prefix_of(sn),
        pm.len() == m.len(),
        0 <= upto <= m.len(),
        forall|x: int| 0 <= x < upto ==> #[trigger] m[x] == pm[x] && (pm[x].id as int) < pn.len(),
    ensures
        forall|x: int| 0 <= x < upto ==> #[trigger] pull_vals(sn, m, vals)[x] == pull_vals(pn, pm, vals)[x],
{
    assert forall|x: int| 0 <= x < upto implies #[trigger] pull_vals(sn, m, vals)[x] == pull_vals(pn, pm, vals)[x] by {
        assert(m[x] == pm[x]);
        lemma_edge_val_prefix(pn, sn, pm[x]);
    }
}

/// Justice set `base + j` of `js` holds the images of the edges of set `j`
/// of `from`.
pub open spec fn frame_set(js: Seq<Vec<AigEdge>>, base: int, from: Seq<Vec<AigEdge>>, m: Seq<AigEdge>, j: int) -> bool {
    &&& js[base + j]@.len() == from[j]@.len()
    &&& forall|p: int| 0 <= p < from[j]@.len() ==> #[trigger] js[base + j]@[p] == map_e(m, from[j]@[p])
}

/// An edge of the unrolled frame: the image of its node, inverted as the
/// edge is.
fn frame_edge(map: &Vec<AigEdge>, e: AigEdge) -> (r: AigEdge)
    requires
        (e.id as int) < map.len(),
    ensures
        r == map_e(map@, e),
{
    map[e.id].not_if(e.complement)
}

/// Appends the frame images of `es` to `out`.
fn push_frame_edges(out: &mut Vec<AigEdge>, map: &Vec<AigEdge>, es: &Vec<AigEdge>, n: usize)
    requires
        edges_in(es@, map.len() as int),
        edges_in(map@, n as int),
        edges_in(old(out)@, n as int),
    ensures
        final(out).len() == old(out).len() + es.len(),
        extends(old(out)@, final(out)@),
        edges_in(final(out)@, n as int),
        forall|k: int| 0 <= k < es.len() ==> #[trigger] final(out)@[old(out).len() + k] == map_e(map@, es@[k]),
{
    let mut i: usize = 0;
    let ghost o = out@;
    while i < es.len()
        invariant
            i <= es.len(),
            edges_in(es@, map.len() as int),
            edges_in(map@, n as int),
            edges_in(out@, n as int),
            out.len() == o.len() + i,
            extends(o, out@),
            forall|k: int| 0 <= k < i ==> #[trigger] out@[o.len() + k] == map_e(map@, es@[k]),
        decreases es.len() - i,
    {
        assert(edge_in(es@[i as int], map.len() as int));
        let e = frame_edge(map, es[i]);
        assert(edge_in(map@[es@[i as int].id as int], n as int));
        out.push(e);
        i += 1;
    }
}

impl Aig {
    /// Extends this graph by one time frame of `from`: each latch leaf of
    /// `from` stands for the current next-state edge of the same latch here,
    /// each other leaf becomes a fresh input, each AND node is rebuilt over
    /// the images of its fanins; then each latch takes the image of its
    /// next-state edge, and the images of the outputs, bads, constraints,
    /// justice and fairness edges are appended.
    pub fn unroll(&mut self, from: &Aig)
        requires
            old(self).wf(),
            from.wf(),
            same_latch_leaves(old(self).latchs@, from.latchs@),
            from.nodes@.is_prefix_of(old(self).nodes@),
        ensures
            final(self).wf(),
            old(self).nodes@.is_prefix_of(final(self).nodes@),
            same_latch_leaves(final(self).latchs@, from.latchs@),
            extends(old(self).inputs@, final(self).inputs@),
            final(self).outputs.len() == old(self).outputs.len() + from.outputs.len(),
            extends(old(self).outputs@, final(self).outputs@),
            final(self).bads.len() == old(self).bads.len() + from.bads.len(),
            extends(old(self).bads@, final(self).bads@),
            final(self).constraints.len() == old(self).constraints.len() + from.constraints.len(),
            extends(old(self).constraints@, final(self).constraints@),
            final(self).fairness.len() == old(self).fairness.len() + from.fairness.len(),
            extends(old(self).fairness@, final(self).fairness@),
            final(self).justice.len() == old(self).justice.len() + from.justice.len(),
            forall|j: int| 0 <= j < old(self).justice.len() ==> (#[trigger] final(self).justice@[j])@ == old(self).justice@[j]@,
            symbol_names(final(self).symbols) == symbol_names(old(self).symbols),
            exists|m: Seq<AigEdge>| unrolled(*from, *old(self), *final(self), m),
    {
        let n = from.nodes.len();
        let ghost s0 = self.nodes@;
        proof {
            lemma_prefix_refl(self.nodes@);
        }
        // the image of each node of `from`, once it is known
        let mut map: Vec<AigEdge> = vec![AigEdge::constant(false); n];
        let mut known: Vec<bool> = vec![false; n];
        known.set(0, true);
        let mut k: usize = 0;
        while k < self.latchs.len()
            invariant
                self.wf(),
                n == from.nodes.len(),
                from.wf(),
                same_latch_leaves(self.latchs@, from.latchs@),
                map.len() == n,
                known.len() == n,
                known@[0],
                map@[0] == (AigEdge { id: 0, complement: false }),
                edges_in(map@, self.nodes.len() as int),
                k <= self.latchs.len(),
                forall|j: int| 0 < j < n && #[trigger] known@[j] ==> from.nodes@[j].typ is Leaf && exists|k2: int| 0 <= k2 < self.latchs.len()
                    && self.latchs@[k2].input == j && map@[j] == self.latchs@[k2].next,
                forall|k2: int| 0 <= k2 < k ==> known@[#[trigger] self.latchs@[k2].input as int],
                forall|j: int| 0 <= j < n && !known@[j] ==> !(exists|k2: int| 0 <= k2 < k && #[trigger] self.latchs@[k2].input == j),
            decreases self.latchs.len() - k,
        {
            let l = self.latchs[k];
            assert(latch_ok(from.nodes@, from.latchs@[k as int]));
            assert(latch_ok(self.nodes@, l));
            assert(from.nodes@[l.input as int].typ is Leaf);
            assert(crate::aig::is_leaf_at(from.nodes@, from.latchs@[k as int].input));
            assert(node_ok(from.nodes@, 0));
            map.set(l.input, l.next);
            known.set(l.input, true);
            assert forall|j: int| 0 <= j < n && !known@[j] implies !(exists|k2: int| 0 <= k2 < k + 1 && #[trigger] self.latchs@[k2].input == j) by {
                assert(j != l.input);
            }
            k += 1;
        }
        let ghost seed = map@;
        let ghost sk = known@;
        assert forall|k2: int| 0 <= k2 < self.latchs.len() implies sk[#[trigger] self.latchs@[k2].input as int] by {}
        assert forall|j: int| 0 < j < n implies (#[trigger] sk[j] <==> latched(from.latchs@, j)) by {
            if sk[j] {
                let k2 = choose|k2: int| 0 <= k2 < self.latchs.len() && self.latchs@[k2].input == j && map@[j] == self.latchs@[k2].next;
                assert(from.latchs@[k2].input == j);
            }
            if latched(from.latchs@, j) {
                let k2 = choose|k2: int| 0 <= k2 < from.latchs.len() && #[trigger] from.latchs@[k2].input == j;
                assert(self.latchs@[k2].input == j);
            }
        }
        assert(fresh_inputs(*from, map@, 1) == Seq::<usize>::empty());
        assert(self.inputs@ == self.inputs@ + Seq::<usize>::empty());
        assert forall|j: int| 0 < j < n && from.nodes@[j].typ is Leaf && !sk[j] implies !(exists|k2: int| 0 <= k2 < self.latchs.len() && #[trigger] self.latchs@[k2].input == j) by {}
        let mut i: usize = 1;
        while i < n
            invariant
                old(self).wf(),
                from.wf(),
                n == from.nodes.len(),
                1 <= i <= n,
                self.wf(),
                old(self).nodes@.is_prefix_of(self.nodes@),
                from.nodes@.is_prefix_of(old(self).nodes@),
                map.len() == n,
                known.len() == n,
                known@[0],
                forall|j: int| 0 <= j < i ==> #[trigger] known@[j],
                edges_in(map@, self.nodes.len() as int),
                map@[0] == (AigEdge { id: 0, complement: false }),
                seed.len() == n,
                sk.len() == n,
                forall|j: int| 0 <= j < n && #[trigger] sk[j] ==> known@[j] && map@[j] == seed[j],
                forall|j: int| 0 < j < n && #[trigger] sk[j] ==> from.nodes@[j].typ is Leaf && exists|k2: int| 0 <= k2 < old(self).latchs.len()
                    && old(self).latchs@[k2].input == j && seed[j] == old(self).latchs@[k2].next,
                forall|j: int| i <= j < n && #[trigger] known@[j] ==> sk[j],
                forall|j: int| 0 < j < i && (#[trigger] from.nodes@[j]).typ is Leaf && !sk[j]
                    ==> !map@[j].complement && (map@[j].id as int) >= old(self).nodes.len() && self.nodes@[map@[j].id as int].typ is Leaf,
                forall|vals: Seq<bool>, j: int| 0 <= j < i ==> #[trigger] edge_val(self.nodes@, vals, map@[j]) == node_val(from.nodes@, pull_vals(self.nodes@, map@, vals), j as nat),
                forall|j: int| 0 < j < n ==> (#[trigger] sk[j] <==> latched(from.latchs@, j)),
                self.inputs@ == old(self).inputs@ + fresh_inputs(*from, map@, i as int),
                self.nodes@ == old(self).nodes@ + frame_nodes(*from, map@, old(self).nodes.len() as int, i as int),
                forall|j: int| 0 < j < i ==> #[trigger] frame_image(*from, map@, old(self).nodes.len() as int, j),
                extends(old(self).inputs@, self.inputs@),
                self.latchs@ == old(self).latchs@,
                self.outputs@ == old(self).outputs@,
                self.bads@ == old(self).bads@,
                self.constraints@ == old(self).constraints@,
                same_sets(self.justice@, old(self).justice@),
                self.fairness@ == old(self).fairness@,
                symbol_names(self.symbols) == symbol_names(old(self).symbols),
            decreases n - i,
        {
            let ghost pm = map@;
            let ghost pn = self.nodes@;
            let ghost pk = known@;
            assert(node_ok(from.nodes@, i as int));
            if !known[i] {
                let ghost s1 = *self;
                if from.nodes[i].is_and() {
                    let f0 = from.nodes[i].fanin0();
                    let f1 = from.nodes[i].fanin1();
                    let g0 = frame_edge(&map, f0);
                    let g1 = frame_edge(&map, f1);
                    assert(edge_in(map@[f0.id as int], self.nodes.len() as int));
                    assert(edge_in(map@[f1.id as int], self.nodes.len() as int));
                    let e = self.new_and_node(g0, g1);
                    proof {
                        lemma_prefix_trans(old(self).nodes@, s1.nodes@, self.nodes@);
                    }
                    map.set(i, e);
                } else {
                    let input = self.new_input();
                    proof {
                        crate::builder::lemma_prefix_push(s1.nodes@, self.nodes@.last());
                        lemma_prefix_trans(old(self).nodes@, s1.nodes@, self.nodes@);
                    }
                    map.set(i, AigEdge::new(input, false));
                }
                known.set(i, true);
            } else {
                proof {
                    lemma_prefix_refl(self.nodes@);
                }
            }
            proof {
                lemma_fresh_local(*from, pm, map@, i as int);
                let base = old(self).nodes.len() as int;
                lemma_frame_local(*from, pm, map@, base, i as int);
                let fr = frame_nodes(*from, pm, base, i as int);
                assert(pn == old(self).nodes@ + fr);
                if from.nodes@[i as int].typ is Leaf {
                    if pk[i as int] {
                        assert(sk[i as int]);
                        assert(latched(from.latchs@, i as int));
                        assert(self.nodes@ == pn);
                    } else {
                        assert(!sk[i as int]) by {
                            if sk[i as int] {
                                assert(pk[i as int]);
                            }
                        }
                        assert(self.nodes@ =~= old(self).nodes@ + fr.push(AigNode { id: (base + fr.len()) as usize, typ: AigNodeType::Leaf }));
                    }
                } else if from.nodes@[i as int].typ is And {
                    assert(!pk[i as int]) by {
                        if pk[i as int] {
                            assert(sk[i as int]);
                        }
                    }
                    let f0 = from.nodes@[i as int].typ->And_0;
                    let f1 = from.nodes@[i as int].typ->And_1;
                    assert(map_e(pm, f0) == map_e(map@, f0));
                    assert(map_e(pm, f1) == map_e(map@, f1));
                    if fold_and(map_e(pm, f0), map_e(pm, f1)) is None {
                        assert(self.nodes@ =~= old(self).nodes@ + fr.push(AigNode {
                            id: (base + fr.len()) as usize,
                            typ: AigNodeType::And(canon(map_e(pm, f0), map_e(pm, f1)).0, canon(map_e(pm, f0), map_e(pm, f1)).1),
                        }));
                    }
                }
                assert(self.nodes@ == old(self).nodes@ + frame_nodes(*from, map@, base, i + 1));
                assert forall|j: int| 0 < j < i + 1 implies #[trigger] frame_image(*from, map@, base, j) by {
                    lemma_frame_local(*from, pm, map@, base, j);
                    if j < i {
                        assert(frame_image(*from, pm, base, j));
                        assert(node_ok(from.nodes@, j));
                        if from.nodes@[j].typ is And {
                            let g0 = from.nodes@[j].typ->And_0;
                            let g1 = from.nodes@[j].typ->And_1;
                            assert(map_e(pm, g0) == map_e(map@, g0));
                            assert(map_e(pm, g1) == map_e(map@, g1));
                        }
                    }
                }
                if !pk[i as int] && from.nodes@[i as int].typ is Leaf {
                    assert(!sk[i as int]) by {
                        if sk[i as int] {
                            assert(pk[i as int]);
                        }
                    }
                    assert(!latched(from.latchs@, i as int));
                    assert(self.inputs@ == old(self).inputs@ + fresh_inputs(*from, map@, i + 1)) by {
                        assert(fresh_inputs(*from, map@, i + 1) == fresh_inputs(*from, map@, i as int).push(map@[i as int].id));
                    }
                } else {
                    if from.nodes@[i as int].typ is Leaf {
                        assert(sk[i as int]);
                    }
                    assert(fresh_inputs(*from, map@, i + 1) == fresh_inputs(*from, map@, i as int));
                }
                assert(pn.is_prefix_of(self.nodes@));
                assert forall|x: int| 0 <= x < i implies #[trigger] map@[x] == pm[x] && (pm[x].id as int) < pn.len() by {
                    assert(edge_in(pm[x], pn.len() as int));
                }
                assert forall|vals: Seq<bool>, j: int| 0 <= j < i + 1 implies #[trigger] edge_val(self.nodes@, vals, map@[j]) == node_val(from.nodes@, pull_vals(self.nodes@, map@, vals), j as nat) by {
                    lemma_pull_agree(pn, self.nodes@, pm, map@, vals, i as int);
                    if j < i {
                        lemma_node_val_local(from.nodes@, pull_vals(pn, pm, vals), pull_vals(self.nodes@, map@, vals), j as nat);
                        lemma_edge_val_prefix(pn, self.nodes@, pm[j]);
                        assert(edge_val(pn, vals, pm[j]) == node_val(from.nodes@, pull_vals(pn, pm, vals), j as nat));
                    } else if from.nodes@[i as int].typ is And {
                        if !pk[i as int] {
                            let f0 = from.nodes@[i as int].typ->And_0;
                            let f1 = from.nodes@[i as int].typ->And_1;
                            lemma_node_val_local(from.nodes@, pull_vals(pn, pm, vals), pull_vals(self.nodes@, map@, vals), f0.id as nat);
                            lemma_node_val_local(from.nodes@, pull_vals(pn, pm, vals), pull_vals(self.nodes@, map@, vals), f1.id as nat);
                            assert(edge_val(pn, vals, pm[f0.id as int]) == node_val(from.nodes@, pull_vals(pn, pm, vals), f0.id as nat));
                            assert(edge_val(pn, vals, pm[f1.id as int]) == node_val(from.nodes@, pull_vals(pn, pm, vals), f1.id as nat));
                            assert(edge_val(self.nodes@, vals, map@[j]) == (edge_val(pn, vals, map_e(pm, f0)) && edge_val(pn, vals, map_e(pm, f1))));
                        } else {
                            assert(sk[i as int]);
                        }
                    }
                }
                assert forall|j: int| 0 < j < i + 1 && (#[trigger] from.nodes@[j]).typ is Leaf && !sk[j] implies !map@[j].complement
                    && (map@[j].id as int) >= old(self).nodes.len() && self.nodes@[map@[j].id as int].typ is Leaf by {
                    if j < i {
                        assert(self.nodes@[pm[j].id as int] == pn[pm[j].id as int]);
                    } else {
                        assert(!pk[i as int]);
                    }
                }
            }
            i += 1;
        }
        let len = self.nodes.len();
        let ghost fin = self.nodes@;
        assert forall|vals: Seq<bool>, j: int| 0 <= j < n implies #[trigger] edge_val(fin, vals, map@[j]) == node_val(from.nodes@, pull_vals(fin, map@, vals), j as nat) by {}
        let ghost mid = *self;
        let mut k: usize = 0;
        while k < self.latchs.len()
            invariant
                self.wf(),
                self.nodes@ == mid.nodes@,
                self.inputs@ == mid.inputs@,
                self.outputs@ == mid.outputs@,
                self.bads@ == mid.bads@,
                self.constraints@ == mid.constraints@,
                self.justice@ == mid.justice@,
                self.fairness@ == mid.fairness@,
                symbol_names(self.symbols) == symbol_names(mid.symbols),
                from.wf(),
                len == self.nodes.len(),
                n == from.nodes.len(),
                map.len() == n,
                edges_in(map@, len as int),
                same_latch_leaves(self.latchs@, from.latchs@),
                k <= self.latchs.len(),
                self.latchs.len() == mid.latchs.len(),
                forall|p: int| 0 <= p < k ==> (#[trigger] self.latchs@[p]).next == map_e(map@, from.latchs@[p].next)
                    && self.latchs@[p].input == mid.latchs@[p].input && self.latchs@[p].init == mid.latchs@[p].init,
                forall|p: int| k <= p < self.latchs.len() ==> #[trigger] self.latchs@[p] == mid.latchs@[p],
            decreases self.latchs.len() - k,
        {
            assert(latch_ok(from.nodes@, from.latchs@[k as int]));
            assert(latch_ok(self.nodes@, self.latchs@[k as int]));
            let next = frame_edge(&map, from.latchs[k].next);
            assert(edge_in(map@[from.latchs@[k as int].next.id as int], len as int));
            let mut l = self.latchs[k];
            l.next = next;
            let ghost pl = self.latchs@;
            self.latchs.set(k, l);
            assert forall|k2: int| 0 <= k2 < self.latchs.len() implies latch_ok(self.nodes@, #[trigger] self.latchs@[k2]) by {
                if k2 != k {
                    assert(self.latchs@[k2] == pl[k2]);
                }
            }
            k += 1;
        }
        push_frame_edges(&mut self.outputs, &map, &from.outputs, len);
        push_frame_edges(&mut self.bads, &map, &from.bads, len);
        push_frame_edges(&mut self.constraints, &map, &from.constraints, len);
        push_frame_edges(&mut self.fairness, &map, &from.fairness, len);
        let ghost oj = self.justice@;
        let ghost mid2 = *self;
        let mut j: usize = 0;
        while j < from.justice.len()
            invariant
                from.wf(),
                self.nodes@ == mid2.nodes@,
                self.inputs@ == mid2.inputs@,
                self.latchs@ == mid2.latchs@,
                self.outputs@ == mid2.outputs@,
                self.bads@ == mid2.bads@,
                self.constraints@ == mid2.constraints@,
                self.fairness@ == mid2.fairness@,
                symbol_names(self.symbols) == symbol_names(mid2.symbols),
                mid2.wf(),
                len == self.nodes.len(),
                n == from.nodes.len(),
                map.len() == n,
                edges_in(map@, len as int),
                j <= from.justice.len(),
                self.justice.len() == oj.len() + j,
                forall|j2: int| 0 <= j2 < oj.len() ==> (#[trigger] self.justice@[j2])@ == oj[j2]@,
                forall|j2: int| 0 <= j2 < self.justice.len() ==> edges_in(#[trigger] self.justice@[j2]@, len as int),
                forall|j2: int| 0 <= j2 < j ==> #[trigger] frame_set(self.justice@, oj.len() as int, from.justice@, map@, j2),
            decreases from.justice.len() - j,
        {
            let mut e: Vec<AigEdge> = Vec::new();
            assert(edges_in(from.justice@[j as int]@, n as int));
            push_frame_edges(&mut e, &map, &from.justice[j], len);
            let ghost pj = self.justice@;
            self.justice.push(e);
            assert forall|j2: int| 0 <= j2 < j + 1 implies #[trigger] frame_set(self.justice@, oj.len() as int, from.justice@, map@, j2) by {
                if j2 < j {
                    assert(frame_set(pj, oj.len() as int, from.justice@, map@, j2));
                    assert(self.justice@[oj.len() + j2] == pj[oj.len() + j2]);
                } else {
                    assert(self.justice@[oj.len() + j2] == e);
                    assert forall|p: int| 0 <= p < from.justice@[j2]@.len() implies #[trigger] self.justice@[oj.len() + j2]@[p] == map_e(map@, from.justice@[j2]@[p]) by {
                        assert(e@[0 + p] == map_e(map@, from.justice@[j2]@[p]));
                    }
                }
            }
            j += 1;
        }
        proof {
            assert forall|k: int| 0 <= k < from.latchs.len() implies exists|k2: int| 0 <= k2 < old(self).latchs.len() && old(self).latchs@[k2].input == from.latchs@[k].input
                && #[trigger] map@[from.latchs@[k].input as int] == old(self).latchs@[k2].next by {
                assert(latch_ok(from.nodes@, from.latchs@[k]));
                assert(old(self).latchs@[k].input == from.latchs@[k].input);
                assert(sk[from.latchs@[k].input as int]);
                assert(node_ok(from.nodes@, 0));
            }
            assert forall|j: int| 0 < j < n && (#[trigger] from.nodes@[j]).typ is Leaf && !(exists|k: int| 0 <= k < old(self).latchs.len() && old(self).latchs@[k].input == j)
                implies !map@[j].complement && (map@[j].id as int) >= old(self).nodes.len() && self.nodes@[map@[j].id as int].typ is Leaf by {
                if sk[j] {
                    let k2 = choose|k2: int| 0 <= k2 < old(self).latchs.len() && old(self).latchs@[k2].input == j && seed[j] == old(self).latchs@[k2].next;
                }
            }
            assert(self.nodes@ == fin);
            assert(self.outputs@.len() == old(self).outputs.len() + from.outputs.len());
            assert forall|k: int| 0 <= k < self.latchs.len() implies (#[trigger] self.latchs@[k]).next == map_e(map@, from.latchs@[k].next)
                && self.latchs@[k].input == old(self).latchs@[k].input && self.latchs@[k].init == old(self).latchs@[k].init by {}
            assert(unrolled(*from, *old(self), *self, map@));
        }
    }

    /// The graph unrolled `k` times over itself: a copy, then `k` frames,
    /// each an `unroll` step over the graph itself. Latches keep their
    /// leaves and initial values; each frame adds the inputs of the fresh
    /// leaves and a copy of every property list.
    pub fn unroll_to(&self, k: usize) -> (r: Aig)
        requires
            self.wf(),
        ensures
            r.wf(),
            self.nodes@.is_prefix_of(r.nodes@),
            same_latch_leaves(r.latchs@, self.latchs@),
            forall|j: int| 0 <= j < r.latchs.len() ==> (#[trigger] r.latchs@[j]).init == self.latchs@[j].init,
            k == 0 ==> r.nodes@ == self.nodes@ && r.same_roles(self),
            exists|s: Seq<Aig>| {
                &&& s.len() == k + 1
                &&& same_graph(s[0], *self)
                &&& s[k as int] == r
                &&& forall|t: int| 0 <= t < k ==> #[trigger] frame_step(*self, s, t)
            },
            r.inputs.len() == self.inputs.len() + k * n_fresh(*self, self.nodes.len() as int),
            r.outputs.len() == (k + 1) * self.outputs.len(),
            r.bads.len() == (k + 1) * self.bads.len(),
            r.constraints.len() == (k + 1) * self.constraints.len(),
            r.fairness.len() == (k + 1) * self.fairness.len(),
            r.justice.len() == (k + 1) * self.justice.len(),
    {
        let mut res = self.clone();
        assert(res.wf());
        proof {
            lemma_prefix_refl(self.nodes@);
        }
        let ghost mut s: Seq<Aig> = seq![res];
        let ghost c = n_fresh(*self, self.nodes.len() as int);
        let mut i: usize = 0;
        while i < k
            invariant
                self.wf(),
                res.wf(),
                i <= k,
                c == n_fresh(*self, self.nodes.len() as int),
                self.nodes@.is_prefix_of(res.nodes@),
                same_latch_leaves(res.latchs@, self.latchs@),
                forall|j: int| 0 <= j < res.latchs.len() ==> (#[trigger] res.latchs@[j]).init == self.latchs@[j].init,
                i == 0 ==> res.nodes@ == self.nodes@ && res.same_roles(self),
                s.len() == i + 1,
                same_graph(s[0], *self),
                s[i as int] == res,
                forall|t: int| 0 <= t < i ==> #[trigger] frame_step(*self, s, t),
                res.inputs.len() == self.inputs.len() + i * c,
                res.outputs.len() == (i + 1) * self.outputs.len(),
                res.bads.len() == (i + 1) * self.bads.len(),
                res.constraints.len() == (i + 1) * self.constraints.len(),
                res.fairness.len() == (i + 1) * self.fairness.len(),
                res.justice.len() == (i + 1) * self.justice.len(),
            decreases k - i,
        {
            let ghost r0 = res;
            res.unroll(self);
            proof {
                lemma_prefix_trans(self.nodes@, r0.nodes@, res.nodes@);
                let m = choose|m: Seq<AigEdge>| unrolled(*self, r0, res, m);
                lemma_fresh_len(*self, m, self.nodes.len() as int);
                assert(res.inputs.len() == r0.inputs.len() + c);
                assert forall|j: int| 0 <= j < res.latchs.len() implies (#[trigger] res.latchs@[j]).init == self.latchs@[j].init by {
                    assert(res.latchs@[j].init == r0.latchs@[j].init);
                }
                let s2 = s.push(res);
                assert forall|t: int| 0 <= t < i + 1 implies #[trigger] frame_step(*self, s2, t) by {
                    if t < i {
                        assert(frame_step(*self, s, t));
                        assert(s2[t] == s[t] && s2[t + 1] == s[t + 1]);
                    } else {
                        assert(unrolled(*self, s2[t], s2[t + 1], m));
                    }
                }
                s = s2;
                assert((i + 1) * c == i * c + c) by (nonlinear_arith);
                assert((i + 2) * self.outputs.len() == (i + 1) * self.outputs.len() + self.outputs.len()) by (nonlinear_arith);
                assert((i + 2) * self.bads.len() == (i + 1) * self.bads.len() + self.bads.len()) by (nonlinear_arith);
                assert((i + 2) * self.constraints.len() == (i + 1) * self.constraints.len() + self.constraints.len()) by (nonlinear_arith);
                assert((i + 2) * self.fairness.len() == (i + 1) * self.fairness.len() + self.fairness.len()) by (nonlinear_arith);
                assert((i + 2) * self.justice.len() == (i + 1) * self.justice.len() + self.justice.len()) by (nonlinear_arith);
            }
            i += 1;
        }
        res
    }
}

} // verus!
