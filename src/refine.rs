//! Restriction of a graph to the cone of influence of its properties.
use crate::aig::{edge_in, edges_in, is_leaf_at, latch_ok, node_ok, Aig};
use crate::coi::{ascending, closed_at, flags_of, ids_of, is_coi};
use crate::edge::AigEdge;
use crate::node::{AigLatch, AigNode, AigNodeType};
use crate::symbols::{rekey_symbols, symbol_names};
use vstd::prelude::*;

verus! {

/// `new` is `old` with its node id renumbered: `restore` maps the new id to
/// the old one.
pub open spec fn maps_edge(restore: Seq<usize>, new: AigEdge, old: AigEdge) -> bool {
    &&& (new.id as int) < restore.len()
    &&& restore[new.id as int] == old.id
    &&& new.complement == old.complement
}

pub open spec fn maps_edges(restore: Seq<usize>, new: Seq<AigEdge>, old: Seq<AigEdge>) -> bool {
    &&& new.len() == old.len()
    &&& forall|k: int| 0 <= k < new.len() ==> maps_edge(restore, #[trigger] new[k], old[k])
}

pub open spec fn maps_node(restore: Seq<usize>, new: AigNode, old: AigNode) -> bool {
    match old.typ {
        AigNodeType::False => new.typ is False,
        AigNodeType::Leaf => new.typ is Leaf,
        AigNodeType::And(f0, f1) => new.typ is And && maps_edge(restore, new.typ->And_0, f0)
            && maps_edge(restore, new.typ->And_1, f1),
    }
}

pub open spec fn maps_latch(restore: Seq<usize>, new: AigLatch, old: AigLatch) -> bool {
    &&& (new.input as int) < restore.len()
    &&& restore[new.input as int] == old.input
    &&& maps_edge(restore, new.next, old.next)
    &&& (new.init is Some) == (old.init is Some)
    &&& (old.init is Some ==> maps_edge(restore, new.init->0, old.init->0))
}

/// `x` is a root of the refinement: the node of a constraint, output, bad,
/// justice or fairness edge, the leaf of a latch with a gated initial value
/// (of every latch when there are justice or fairness properties), or the
/// node of a gated initial value.
pub open spec fn refine_root(a: Aig, x: usize) -> bool {
    ||| (exists|k: int| 0 <= k < a.constraints.len() && a.constraints@[k].id == x)
    ||| (exists|k: int| 0 <= k < a.outputs.len() && a.outputs@[k].id == x)
    ||| (exists|k: int| 0 <= k < a.bads.len() && a.bads@[k].id == x)
    ||| (exists|j: int, k: int| 0 <= j < a.justice.len() && 0 <= k < a.justice@[j].len() && a.justice@[j]@[k].id == x)
    ||| (exists|k: int| 0 <= k < a.fairness.len() && a.fairness@[k].id == x)
    ||| (exists|k: int| 0 <= k < a.latchs.len() && latch_rooted(a, a.latchs@[k]) && a.latchs@[k].input == x)
    ||| (exists|k: int| 0 <= k < a.latchs.len() && gated_init(a.latchs@[k]) && a.latchs@[k].init->0.id == x)
}

/// The latch's initial value is an edge on a node other than the constant.
pub open spec fn gated_init(l: AigLatch) -> bool {
    l.init is Some && l.init->0.id != 0
}

/// The leaf of latch `l` is a root of the refinement: its initial value is
/// gated, or the graph has justice or fairness properties.
pub open spec fn latch_rooted(a: Aig, l: AigLatch) -> bool {
    gated_init(l) || a.justice.len() > 0 || a.fairness.len() > 0
}

/// The latches of `ls` whose leaf `restore` keeps, in order.
pub open spec fn kept_latches(ls: Seq<AigLatch>, restore: Seq<usize>) -> Seq<AigLatch>
    decreases ls.len(),
{
    if ls.len() == 0 {
        Seq::empty()
    } else if restore.contains(ls.last().input) {
        kept_latches(ls.drop_last(), restore).push(ls.last())
    } else {
        kept_latches(ls.drop_last(), restore)
    }
}

/// The ids of `ins` that `restore` keeps, in order.
pub open spec fn kept_ids(ins: Seq<usize>, restore: Seq<usize>) -> Seq<usize>
    decreases ins.len(),
{
    if ins.len() == 0 {
        Seq::empty()
    } else if restore.contains(ins.last()) {
        kept_ids(ins.drop_last(), restore).push(ins.last())
    } else {
        kept_ids(ins.drop_last(), restore)
    }
}

/// `rank` inverts `restore` on the ids that `restore` keeps.
pub open spec fn inverts(rank: Seq<usize>, restore: Seq<usize>, n: int) -> bool {
    &&& rank.len() == n
    &&& restore.len() <= n
    &&& ascending(restore)
    &&& forall|k: int| 0 <= k < restore.len() ==> (#[trigger] restore[k] as int) < n
    &&& forall|k: int| 0 <= k < restore.len() ==> rank[#[trigger] restore[k] as int] == k
}

proof fn lemma_rank(rank: Seq<usize>, restore: Seq<usize>, n: int, x: usize)
    requires
        inverts(rank, restore, n),
        restore.contains(x),
    ensures
        (rank[x as int] as int) < restore.len(),
        restore[rank[x as int] as int] == x,
{
    let k = choose|k: int| 0 <= k < restore.len() && restore[k] == x;
    assert(rank[restore[k] as int] == k);
}

fn map_edge(rank: &Vec<usize>, restore: &Vec<usize>, e: AigEdge) -> (r: AigEdge)
    requires
        inverts(rank@, restore@, rank.len() as int),
        restore@.contains(e.id),
    ensures
        maps_edge(restore@, r, e),
{
    proof {
        lemma_rank(rank@, restore@, rank.len() as int, e.id);
    }
    AigEdge { id: rank[e.id], complement: e.complement }
}

fn map_edges(rank: &Vec<usize>, restore: &Vec<usize>, es: &Vec<AigEdge>) -> (r: Vec<AigEdge>)
    requires
        inverts(rank@, restore@, rank.len() as int),
        forall|k: int| 0 <= k < es.len() ==> restore@.contains(#[trigger] es@[k].id),
    ensures
        maps_edges(restore@, r@, es@),
{
    let mut r: Vec<AigEdge> = Vec::new();
    let mut i: usize = 0;
    while i < es.len()
        invariant
            i <= es.len(),
            inverts(rank@, restore@, rank.len() as int),
            forall|k: int| 0 <= k < es.len() ==> restore@.contains(#[trigger] es@[k].id),
            r.len() == i,
            forall|k: int| 0 <= k < i ==> maps_edge(restore@, #[trigger] r@[k], es@[k]),
        decreases es.len() - i,
    {
        let e = map_edge(rank, restore, es[i]);
        r.push(e);
        i += 1;
    }
    r
}

proof fn lemma_ascending_ge(s: Seq<usize>, k: int)
    requires
        ascending(s),
        0 <= k < s.len(),
    ensures
        s[k] >= k,
    decreases k,
{
    if k > 0 {
        lemma_ascending_ge(s, k - 1);
        assert(s[k - 1] < s[k]);
    }
}

/// `b` starts with `a`.
pub open spec fn keeps(a: Seq<usize>, b: Seq<usize>) -> bool {
    &&& a.len() <= b.len()
    &&& forall|k: int| 0 <= k < a.len() ==> #[trigger] b[k] == a[k]
}

proof fn lemma_keeps_contains(a: Seq<usize>, b: Seq<usize>, x: usize)
    requires
        keeps(a, b),
        a.contains(x),
    ensures
        b.contains(x),
{
    let k = choose|k: int| 0 <= k < a.len() && a[k] == x;
    assert(b[k] == x);
}

/// `x` is the node id of some edge of `es`.
pub open spec fn id_of_some(es: Seq<AigEdge>, x: usize) -> bool {
    exists|k: int| 0 <= k < es.len() && #[trigger] es[k].id == x
}

/// Appends the node ids of `es`.
fn push_ids(roots: &mut Vec<usize>, es: &Vec<AigEdge>, n: usize)
    requires
        forall|k: int| 0 <= k < old(roots).len() ==> (#[trigger] old(roots)@[k] as int) < n,
        edges_in(es@, n as int),
    ensures
        keeps(old(roots)@, final(roots)@),
        forall|k: int| 0 <= k < final(roots).len() ==> (#[trigger] final(roots)@[k] as int) < n,
        forall|k: int| 0 <= k < es.len() ==> final(roots)@.contains(#[trigger] es@[k].id),
        forall|p: int| old(roots).len() <= p < final(roots).len() ==> id_of_some(es@, #[trigger] final(roots)@[p]),
{
    let mut i: usize = 0;
    let ghost o = roots@;
    while i < es.len()
        invariant
            i <= es.len(),
            edges_in(es@, n as int),
            roots.len() == o.len() + i,
            keeps(o, roots@),
            forall|k: int| 0 <= k < roots.len() ==> (#[trigger] roots@[k] as int) < n,
            forall|k: int| 0 <= k < i ==> roots@[o.len() + k] == #[trigger] es@[k].id,
        decreases es.len() - i,
    {
        assert(edge_in(es@[i as int], n as int));
        roots.push(es[i].id);
        i += 1;
    }
    assert forall|k: int| 0 <= k < es.len() implies roots@.contains(#[trigger] es@[k].id) by {
        assert(roots@[o.len() + k] == es@[k].id);
    }
    assert forall|p: int| o.len() <= p < roots.len() implies id_of_some(es@, #[trigger] roots@[p]) by {
        let k = p - o.len();
        assert(roots@[o.len() + k] == es@[k].id);
    }
}

impl Aig {
    /// The graph restricted to the cone of influence of its constraints,
    /// outputs, bads, justice and fairness edges, latch leaves and gated
    /// initial values, with ids renumbered densely in their old order; and
    /// the map from each new id to its old id.
    pub fn coi_refine(&self) -> (r: (Aig, Vec<usize>))
        requires
            self.wf(),
        ensures
            r.0.wf(),
            r.1.len() == r.0.nodes.len(),
            ascending(r.1@),
            forall|k: int| 0 <= k < r.1.len() ==> (#[trigger] r.1@[k] as int) < self.nodes.len(),
            forall|j: int|
                0 <= j < self.nodes.len() && #[trigger] flags_of(r.1@, self.nodes.len() as nat)[j]
                    ==> closed_at(self.nodes@, self.latchs@, flags_of(r.1@, self.nodes.len() as nat), j),
            exists|roots: Seq<usize>| (forall|p: int| 0 <= p < roots.len() ==> refine_root(*self, #[trigger] roots[p]))
                && is_coi(self.nodes@, self.latchs@, roots, flags_of(r.1@, self.nodes.len() as nat)),
            forall|k: int| 0 <= k < r.0.nodes.len() ==> maps_node(r.1@, #[trigger] r.0.nodes@[k], self.nodes@[r.1@[k] as int]),
            r.0.latchs.len() == kept_latches(self.latchs@, r.1@).len(),
            forall|k: int| 0 <= k < r.0.latchs.len() ==> maps_latch(r.1@, #[trigger] r.0.latchs@[k], kept_latches(self.latchs@, r.1@)[k]),
            r.0.inputs.len() == kept_ids(self.inputs@, r.1@).len(),
            forall|k: int| 0 <= k < r.0.inputs.len() ==> (#[trigger] r.0.inputs@[k] as int) < r.1.len()
                && r.1@[r.0.inputs@[k] as int] == kept_ids(self.inputs@, r.1@)[k],
            forall|k: int| 0 <= k < r.0.inputs.len() ==> self.inputs@.contains(r.1@[#[trigger] r.0.inputs@[k] as int]),
            forall|k: int|
                0 <= k < self.inputs.len() && r.1@.contains(#[trigger] self.inputs@[k]) ==> exists|q: int|
                    0 <= q < r.0.inputs.len() && r.1@[r.0.inputs@[q] as int] == self.inputs@[k],
            forall|x: usize| #[trigger] symbol_names(r.0.symbols).contains_key(x) ==> (x as int) < r.1.len()
                && symbol_names(self.symbols).contains_key(r.1@[x as int])
                && symbol_names(r.0.symbols)[x] == symbol_names(self.symbols)[r.1@[x as int]],
            forall|k: int| 0 <= k < r.1.len() && symbol_names(self.symbols).contains_key(#[trigger] r.1@[k]) ==>
                symbol_names(r.0.symbols).contains_key(k as usize) && symbol_names(r.0.symbols)[k as usize] == symbol_names(self.symbols)[r.1@[k]],
            maps_edges(r.1@, r.0.outputs@, self.outputs@),
            maps_edges(r.1@, r.0.bads@, self.bads@),
            maps_edges(r.1@, r.0.constraints@, self.constraints@),
            maps_edges(r.1@, r.0.fairness@, self.fairness@),
            r.0.justice.len() == self.justice.len(),
            forall|j: int| 0 <= j < r.0.justice.len() ==> maps_edges(r.1@, #[trigger] r.0.justice@[j]@, self.justice@[j]@),
    {
        let n = self.nodes.len();
        let mut roots: Vec<usize> = Vec::new();
        push_ids(&mut roots, &self.constraints, n);
        let ghost s_c = roots@;
        assert forall|p: int| 0 <= p < roots.len() implies refine_root(*self, #[trigger] roots@[p]) by {
            let k = choose|k: int| 0 <= k < self.constraints.len() && roots@[p] == self.constraints@[k].id;
        }
        push_ids(&mut roots, &self.outputs, n);
        let ghost s_o = roots@;
        assert forall|p: int| 0 <= p < roots.len() implies refine_root(*self, #[trigger] roots@[p]) by {
            if p >= s_c.len() {
                let k = choose|k: int| 0 <= k < self.outputs.len() && roots@[p] == self.outputs@[k].id;
            } else {
                assert(roots@[p] == s_c[p]);
            }
        }
        push_ids(&mut roots, &self.bads, n);
        let ghost s_b = roots@;
        assert forall|p: int| 0 <= p < roots.len() implies refine_root(*self, #[trigger] roots@[p]) by {
            if p >= s_o.len() {
                let k = choose|k: int| 0 <= k < self.bads.len() && roots@[p] == self.bads@[k].id;
            } else {
                assert(roots@[p] == s_o[p]);
            }
        }
        let ghost o_j = roots@;
        let mut j: usize = 0;
        while j < self.justice.len()
            invariant
                j <= self.justice.len(),
                self.wf(),
                n == self.nodes.len(),
                keeps(o_j, roots@),
                forall|p: int| 0 <= p < roots.len() ==> (#[trigger] roots@[p] as int) < n,
                forall|p: int| 0 <= p < roots.len() ==> refine_root(*self, #[trigger] roots@[p]),
                forall|j2: int, k: int| 0 <= j2 < j && 0 <= k < self.justice@[j2].len() ==> roots@.contains(#[trigger] self.justice@[j2]@[k].id),
            decreases self.justice.len() - j,
        {
            let ghost pr = roots@;
            assert(edges_in(self.justice@[j as int]@, n as int));
            push_ids(&mut roots, &self.justice[j], n);
            assert forall|p: int| 0 <= p < roots.len() implies refine_root(*self, #[trigger] roots@[p]) by {
                if p >= pr.len() {
                    let k = choose|k: int| 0 <= k < self.justice@[j as int]@.len() && roots@[p] == self.justice@[j as int]@[k].id;
                    assert(0 <= j < self.justice.len() && 0 <= k < self.justice@[j as int].len() && self.justice@[j as int]@[k].id == roots@[p]);
                } else {
                    assert(roots@[p] == pr[p]);
                }
            }
            assert forall|j2: int, k: int| 0 <= j2 < j + 1 && 0 <= k < self.justice@[j2].len() implies roots@.contains(#[trigger] self.justice@[j2]@[k].id) by {
                if j2 < j {
                    lemma_keeps_contains(pr, roots@, self.justice@[j2]@[k].id);
                }
            }
            j += 1;
        }
        let ghost s_j = roots@;
        push_ids(&mut roots, &self.fairness, n);
        let ghost s_f = roots@;
        assert forall|p: int| 0 <= p < roots.len() implies refine_root(*self, #[trigger] roots@[p]) by {
            if p >= s_j.len() {
                let k = choose|k: int| 0 <= k < self.fairness.len() && roots@[p] == self.fairness@[k].id;
            } else {
                assert(roots@[p] == s_j[p]);
            }
        }
        let ghost o_l = roots@;
        let mut k: usize = 0;
        while k < self.latchs.len()
            invariant
                k <= self.latchs.len(),
                self.wf(),
                n == self.nodes.len(),
                keeps(o_l, roots@),
                forall|p: int| 0 <= p < roots.len() ==> (#[trigger] roots@[p] as int) < n,
                forall|p: int| 0 <= p < roots.len() ==> refine_root(*self, #[trigger] roots@[p]),
                forall|k2: int| 0 <= k2 < k && latch_rooted(*self, #[trigger] self.latchs@[k2]) ==> roots@.contains(self.latchs@[k2].input),
                forall|k2: int| 0 <= k2 < k && gated_init(#[trigger] self.latchs@[k2]) ==> roots@.contains(self.latchs@[k2].init->0.id),
            decreases self.latchs.len() - k,
        {
            let ghost pr = roots@;
            let l = self.latchs[k];
            assert(latch_ok(self.nodes@, l));
            let gated = match l.init {
                Some(init) => init.id != 0,
                None => false,
            };
            if gated {
                let init = l.init.unwrap();
                roots.push(init.id);
                assert(roots@[pr.len() as int] == init.id);
            }
            let ghost pr2 = roots@;
            if gated || self.justice.len() > 0 || self.fairness.len() > 0 {
                roots.push(l.input);
                assert(roots@[pr2.len() as int] == l.input);
            }
            assert forall|p: int| 0 <= p < roots.len() implies refine_root(*self, #[trigger] roots@[p]) by {
                if p < pr.len() {
                    assert(roots@[p] == pr[p]);
                } else if p >= pr2.len() {
                    assert(self.latchs@[k as int].input == roots@[p]);
                    assert(latch_rooted(*self, self.latchs@[k as int]));
                } else {
                    assert(gated_init(self.latchs@[k as int]) && self.latchs@[k as int].init->0.id == roots@[p]);
                }
            }
            assert forall|k2: int| 0 <= k2 < k + 1 && latch_rooted(*self, #[trigger] self.latchs@[k2]) implies roots@.contains(self.latchs@[k2].input) by {
                if k2 < k {
                    lemma_keeps_contains(pr, roots@, self.latchs@[k2].input);
                } else {
                    assert(roots@[pr2.len() as int] == self.latchs@[k2].input);
                }
            }
            assert forall|k2: int| 0 <= k2 < k + 1 && gated_init(#[trigger] self.latchs@[k2]) implies roots@.contains(self.latchs@[k2].init->0.id) by {
                if k2 < k {
                    lemma_keeps_contains(pr, roots@, self.latchs@[k2].init->0.id);
                } else {
                    assert(roots@[pr.len() as int] == self.latchs@[k2].init->0.id);
                }
            }
            k += 1;
        }
        // every property edge and latch is a root
        assert forall|x: usize| s_c.contains(x) implies roots@.contains(x) by { lemma_keeps_contains(s_c, roots@, x); }
        assert forall|x: usize| s_o.contains(x) implies roots@.contains(x) by { lemma_keeps_contains(s_o, roots@, x); }
        assert forall|x: usize| s_b.contains(x) implies roots@.contains(x) by { lemma_keeps_contains(s_b, roots@, x); }
        assert forall|x: usize| s_j.contains(x) implies roots@.contains(x) by { lemma_keeps_contains(s_j, roots@, x); }
        assert forall|x: usize| s_f.contains(x) implies roots@.contains(x) by { lemma_keeps_contains(s_f, roots@, x); }
        let flag = self.coi_flags(&roots);
        let restore = ids_of(&flag);
        assert(flags_of(restore@, n as nat) =~= flag@);
        assert(is_coi(self.nodes@, self.latchs@, roots@, flags_of(restore@, n as nat)));
        assert forall|x: usize| #[trigger] roots@.contains(x) implies flag@[x as int] && restore@.contains(x) by {
            let p = choose|p: int| 0 <= p < roots.len() && roots@[p] == x;
            assert(flag@[roots@[p] as int]);
        }
        // restore[0] is the constant
        assert(restore@.contains(0usize));
        assert(restore.len() > 0 && restore@[0] == 0) by {
            let p = choose|p: int| 0 <= p < restore.len() && restore@[p] == 0usize;
            if p > 0 {
                assert(restore@[0] < restore@[p]);
            }
        }
        // rank inverts restore
        let mut rank: Vec<usize> = vec![0usize; n];
        let mut k: usize = 0;
        while k < restore.len()
            invariant
                k <= restore.len(),
                rank.len() == n,
                ascending(restore@),
                forall|p: int| 0 <= p < restore.len() ==> (#[trigger] restore@[p] as int) < n,
                forall|p: int| 0 <= p < k ==> rank@[#[trigger] restore@[p] as int] == p,
            decreases restore.len() - k,
        {
            rank.set(restore[k], k);
            assert forall|p: int| 0 <= p < k + 1 implies rank@[#[trigger] restore@[p] as int] == p by {
                if p < k {
                    assert(restore@[p] < restore@[k as int]);
                }
            }
            k += 1;
        }
        assert(restore.len() <= n) by {
            if restore.len() > n {
                lemma_ascending_ge(restore@, n as int);
            }
        }
        assert(inverts(rank@, restore@, n as int));
        // nodes
        let mut nodes: Vec<AigNode> = Vec::new();
        let mut k: usize = 0;
        while k < restore.len()
            invariant
                self.wf(),
                n == self.nodes.len(),
                k <= restore.len(),
                inverts(rank@, restore@, n as int),
                flag@ == flags_of(restore@, n as nat),
                is_coi(self.nodes@, self.latchs@, roots@, flag@),
                nodes.len() == k,
                forall|p: int| 0 <= p < k ==> (#[trigger] nodes@[p]).id == p,
                forall|p: int| 0 <= p < k ==> maps_node(restore@, #[trigger] nodes@[p], self.nodes@[restore@[p] as int]),
            decreases restore.len() - k,
        {
            let x = restore[k];
            assert(flag@[x as int]);
            assert(closed_at(self.nodes@, self.latchs@, flag@, x as int));
            assert(node_ok(self.nodes@, x as int));
            let typ = match self.nodes[x].typ {
                AigNodeType::False => AigNodeType::False,
                AigNodeType::Leaf => AigNodeType::Leaf,
                AigNodeType::And(f0, f1) => {
                    assert(flag@[f0.id as int] && flag@[f1.id as int]);
                    assert(restore@.contains(f0.id) && restore@.contains(f1.id));
                    AigNodeType::And(map_edge(&rank, &restore, f0), map_edge(&rank, &restore, f1))
                },
            };
            nodes.push(AigNode { id: k, typ });
            k += 1;
        }
        assert forall|p: int| 0 <= p < nodes.len() implies #[trigger] node_ok(nodes@, p) by {
            let x = restore@[p];
            assert(node_ok(self.nodes@, x as int));
            assert(maps_node(restore@, nodes@[p], self.nodes@[x as int]));
            if p > 0 {
                assert(restore@[0] < restore@[p]);
            }
            match self.nodes@[x as int].typ {
                AigNodeType::And(f0, f1) => {
                    let g0 = nodes@[p].typ->And_0;
                    let g1 = nodes@[p].typ->And_1;
                    if g0.id > g1.id {
                        assert(restore@[g1.id as int] < restore@[g0.id as int]);
                    }
                    if g1.id >= p {
                        assert(restore@[g1.id as int] >= restore@[p]) by {
                            if g1.id > p {
                                assert(restore@[p] < restore@[g1.id as int]);
                            }
                        }
                    }
                },
                _ => {},
            }
        }
        // inputs in the cone
        let mut inputs: Vec<usize> = Vec::new();
        let mut k: usize = 0;
        while k < self.inputs.len()
            invariant
                self.wf(),
                n == self.nodes.len(),
                k <= self.inputs.len(),
                inverts(rank@, restore@, n as int),
                flag@ == flags_of(restore@, n as nat),
                nodes.len() == restore.len(),
                forall|p: int| 0 <= p < nodes.len() ==> maps_node(restore@, #[trigger] nodes@[p], self.nodes@[restore@[p] as int]),
                forall|p: int| 0 <= p < inputs.len() ==> is_leaf_at(nodes@, #[trigger] inputs@[p]),
                forall|p: int| 0 <= p < inputs.len() ==> self.inputs@.contains(restore@[#[trigger] inputs@[p] as int]),
                forall|p: int| 0 <= p < k && flag@[#[trigger] self.inputs@[p] as int] ==> exists|q: int| 0 <= q < inputs.len() && restore@[inputs@[q] as int] == self.inputs@[p],
                inputs.len() == kept_ids(self.inputs@.take(k as int), restore@).len(),
                forall|p: int| 0 <= p < inputs.len() ==> (#[trigger] inputs@[p] as int) < restore.len()
                    && restore@[inputs@[p] as int] == kept_ids(self.inputs@.take(k as int), restore@)[p],
            decreases self.inputs.len() - k,
        {
            let x = self.inputs[k];
            assert(is_leaf_at(self.nodes@, x));
            let ghost kp = kept_ids(self.inputs@.take(k as int), restore@);
            proof {
                assert(self.inputs@.take(k + 1).drop_last() =~= self.inputs@.take(k as int));
                assert(self.inputs@.take(k + 1).last() == x);
                assert(flag@[x as int] == restore@.contains(x));
            }
            if flag[x] {
                proof {
                    lemma_rank(rank@, restore@, n as int, x);
                    assert(maps_node(restore@, nodes@[rank@[x as int] as int], self.nodes@[x as int]));
                }
                let ghost pi = inputs@;
                inputs.push(rank[x]);
                assert(inputs@[pi.len() as int] == rank@[x as int]);
                assert(restore@[inputs@[inputs.len() - 1] as int] == self.inputs@[k as int]);
                assert forall|p: int| 0 <= p < k + 1 && flag@[#[trigger] self.inputs@[p] as int] implies exists|q: int| 0 <= q < inputs.len() && restore@[inputs@[q] as int] == self.inputs@[p] by {
                    if p < k {
                        let q = choose|q: int| 0 <= q < pi.len() && restore@[pi[q] as int] == self.inputs@[p];
                        assert(inputs@[q] == pi[q]);
                    } else {
                        assert(restore@[inputs@[inputs.len() - 1] as int] == self.inputs@[p]);
                    }
                }
            }
            assert(inputs.len() == kept_ids(self.inputs@.take(k + 1), restore@).len());
            assert forall|p: int| 0 <= p < inputs.len() implies (#[trigger] inputs@[p] as int) < restore.len()
                && restore@[inputs@[p] as int] == kept_ids(self.inputs@.take(k + 1), restore@)[p] by {
                if p < kp.len() {
                }
            }
            k += 1;
        }
        assert(self.inputs@.take(self.inputs.len() as int) =~= self.inputs@);
        assert forall|p: int| 0 <= p < self.inputs.len() && restore@.contains(#[trigger] self.inputs@[p]) implies flag@[self.inputs@[p] as int] by {
            assert(is_leaf_at(self.nodes@, self.inputs@[p]));
        }
        // the latches whose leaf is kept
        assert(node_ok(self.nodes@, 0));
        assert(self.latchs@.take(0) =~= Seq::<AigLatch>::empty());
        let mut latchs: Vec<AigLatch> = Vec::new();
        let mut k: usize = 0;
        while k < self.latchs.len()
            invariant
                self.wf(),
                n == self.nodes.len(),
                k <= self.latchs.len(),
                inverts(rank@, restore@, n as int),
                flag@ == flags_of(restore@, n as nat),
                is_coi(self.nodes@, self.latchs@, roots@, flag@),
                forall|k2: int| 0 <= k2 < self.latchs.len() && gated_init(#[trigger] self.latchs@[k2]) ==> roots@.contains(self.latchs@[k2].init->0.id),
                forall|x: usize| #[trigger] roots@.contains(x) ==> flag@[x as int] && restore@.contains(x),
                flag@[0],
                nodes.len() == restore.len(),
                forall|p: int| 0 <= p < nodes.len() ==> maps_node(restore@, #[trigger] nodes@[p], self.nodes@[restore@[p] as int]),
                latchs.len() == kept_latches(self.latchs@.take(k as int), restore@).len(),
                forall|p: int| 0 <= p < latchs.len() ==> maps_latch(restore@, #[trigger] latchs@[p], kept_latches(self.latchs@.take(k as int), restore@)[p]),
                forall|p: int| 0 <= p < latchs.len() ==> latch_ok(nodes@, #[trigger] latchs@[p]),
            decreases self.latchs.len() - k,
        {
            let l = self.latchs[k];
            assert(latch_ok(self.nodes@, l));
            let ghost kp = kept_latches(self.latchs@.take(k as int), restore@);
            proof {
                assert(self.latchs@.take(k + 1).drop_last() =~= self.latchs@.take(k as int));
                assert(self.latchs@.take(k + 1).last() == l);
                assert(flag@[l.input as int] == restore@.contains(l.input));
            }
            if flag[l.input] {
            assert(closed_at(self.nodes@, self.latchs@, flag@, l.input as int));
            assert(self.latchs@[k as int].input == l.input);
            assert(flag@[l.next.id as int]);
            proof {
                lemma_rank(rank@, restore@, n as int, l.input);
                assert(maps_node(restore@, nodes@[rank@[l.input as int] as int], self.nodes@[l.input as int]));
            }
            let input = rank[l.input];
            let next = map_edge(&rank, &restore, l.next);
            let init = match l.init {
                Some(i) => {
                    if i.id != 0 {
                        assert(gated_init(self.latchs@[k as int]));
                        assert(roots@.contains(i.id));
                    }
                    assert(restore@.contains(i.id));
                    Some(map_edge(&rank, &restore, i))
                },
                None => None,
            };
            latchs.push(AigLatch { input, next, init });
            assert(latchs@[latchs.len() - 1] == AigLatch { input, next, init });
            }
            assert(latchs.len() == kept_latches(self.latchs@.take(k + 1), restore@).len());
            assert forall|p: int| 0 <= p < latchs.len() implies maps_latch(restore@, #[trigger] latchs@[p], kept_latches(self.latchs@.take(k + 1), restore@)[p]) by {
                if p < kp.len() {
                }
            }
            k += 1;
        }
        assert(self.latchs@.take(self.latchs.len() as int) =~= self.latchs@);
        // property edges
        assert forall|p: int| 0 <= p < self.outputs.len() implies restore@.contains(#[trigger] self.outputs@[p].id) by {
            assert(s_o.contains(self.outputs@[p].id));
        }
        assert forall|p: int| 0 <= p < self.bads.len() implies restore@.contains(#[trigger] self.bads@[p].id) by {
            assert(s_b.contains(self.bads@[p].id));
        }
        assert forall|p: int| 0 <= p < self.constraints.len() implies restore@.contains(#[trigger] self.constraints@[p].id) by {
            assert(s_c.contains(self.constraints@[p].id));
        }
        assert forall|p: int| 0 <= p < self.fairness.len() implies restore@.contains(#[trigger] self.fairness@[p].id) by {
            assert(s_f.contains(self.fairness@[p].id));
        }
        let outputs = map_edges(&rank, &restore, &self.outputs);
        let bads = map_edges(&rank, &restore, &self.bads);
        let constraints = map_edges(&rank, &restore, &self.constraints);
        let fairness = map_edges(&rank, &restore, &self.fairness);
        let mut justice: Vec<Vec<AigEdge>> = Vec::new();
        let mut j: usize = 0;
        while j < self.justice.len()
            invariant
                j <= self.justice.len(),
                inverts(rank@, restore@, n as int),
                forall|j2: int, k: int| 0 <= j2 < self.justice.len() && 0 <= k < self.justice@[j2].len() ==> roots@.contains(#[trigger] self.justice@[j2]@[k].id),
                forall|x: usize| #[trigger] roots@.contains(x) ==> flag@[x as int] && restore@.contains(x),
                justice.len() == j,
                forall|j2: int| 0 <= j2 < j ==> maps_edges(restore@, #[trigger] justice@[j2]@, self.justice@[j2]@),
            decreases self.justice.len() - j,
        {
            assert forall|k: int| 0 <= k < self.justice@[j as int].len() implies restore@.contains(#[trigger] self.justice@[j as int]@[k].id) by {
                assert(roots@.contains(self.justice@[j as int]@[k].id));
            }
            let e = map_edges(&rank, &restore, &self.justice[j]);
            justice.push(e);
            j += 1;
        }
        // names of kept nodes
        let symbols = rekey_symbols(&self.symbols, &rank, &flag);
        proof {
            assert forall|x: usize| #[trigger] symbol_names(symbols).contains_key(x) implies (x as int) < restore.len()
                && symbol_names(self.symbols).contains_key(restore@[x as int])
                && symbol_names(symbols)[x] == symbol_names(self.symbols)[restore@[x as int]] by {
                let id = choose|id: usize| #[trigger] symbol_names(self.symbols).contains_key(id) && (id as int) < rank.len() && flag@[id as int] && rank@[id as int] == x
                    && symbol_names(symbols)[x] == symbol_names(self.symbols)[id];
                lemma_rank(rank@, restore@, n as int, id);
            }
            assert forall|k: int| 0 <= k < restore.len() && symbol_names(self.symbols).contains_key(#[trigger] restore@[k]) implies
                symbol_names(symbols).contains_key(k as usize) && symbol_names(symbols)[k as usize] == symbol_names(self.symbols)[restore@[k]] by {
                let id = restore@[k];
                assert(rank@[id as int] == k);
                assert(restore@.contains(id));
                assert(symbol_names(symbols).contains_key(rank@[id as int]));
                let id2 = choose|id2: usize| #[trigger] symbol_names(self.symbols).contains_key(id2) && (id2 as int) < rank.len() && flag@[id2 as int] && rank@[id2 as int] == k as usize
                    && symbol_names(symbols)[k as usize] == symbol_names(self.symbols)[id2];
                lemma_rank(rank@, restore@, n as int, id2);
            }
        }
        let res = Aig { nodes, inputs, latchs, outputs, bads, constraints, justice, fairness, symbols };
        assert(res.wf());
        (res, restore)
    }
}

} // verus!
