//! Structural hashing: one AND node per canonical fanin pair.
use crate::aig::{edge_in, edge_val, edges_in, is_leaf_at, latch_ok, node_ok, node_val, nodes_wf, same_graph, Aig};
use crate::builder::{lemma_prefix_push, lemma_prefix_refl};
use crate::edge::AigEdge;
use crate::node::{AigLatch, AigNode, AigNodeType};
use crate::symbols::{rekey_symbols, symbol_names};
use vstd::prelude::*;

verus! {

/// No two AND nodes have the same fanin pair.
pub open spec fn no_dup_ands(nodes: Seq<AigNode>) -> bool {
    forall|a: int, b: int| 0 <= a < b < nodes.len() && (#[trigger] nodes[a]).typ is And ==> nodes[a].typ != (#[trigger] nodes[b]).typ
}

/// The image of edge `e` under the node map `m`.
pub open spec fn map_e(m: Seq<AigEdge>, e: AigEdge) -> AigEdge {
    AigEdge { id: m[e.id as int].id, complement: m[e.id as int].complement != e.complement }
}

/// The leaf values of the old graph read through the node map.
pub open spec fn pull(m: Seq<AigEdge>, vals: Seq<bool>) -> Seq<bool> {
    Seq::new(m.len(), |j: int| vals[m[j].id as int])
}

/// `r` is `a` rebuilt through the node map `m`: each node's image has the
/// node's value when each old leaf takes the value of its image, leaves map
/// to leaves, and every role edge and latch is carried through `m`.
pub open spec fn strashed(a: Aig, r: Aig, m: Seq<AigEdge>) -> bool {
    &&& m.len() == a.nodes.len()
    &&& edges_in(m, r.nodes.len() as int)
    &&& m[0] == (AigEdge { id: 0, complement: false })
    &&& forall|j: int| 0 <= j < a.nodes.len() && (#[trigger] a.nodes@[j]).typ is Leaf ==> !m[j].complement && r.nodes@[m[j].id as int].typ is Leaf
    &&& forall|vals: Seq<bool>, j: int| 0 <= j < a.nodes.len() ==> #[trigger] edge_val(r.nodes@, vals, m[j]) == node_val(a.nodes@, pull(m, vals), j as nat)
    &&& forall|x: usize| #[trigger] symbol_names(r.symbols).contains_key(x) ==> exists|id: usize|
        #[trigger] symbol_names(a.symbols).contains_key(id) && (id as int) < m.len() && m[id as int].id == x
            && symbol_names(r.symbols)[x] == symbol_names(a.symbols)[id]
    &&& forall|id: usize| #[trigger] symbol_names(a.symbols).contains_key(id) && (id as int) < m.len()
        ==> symbol_names(r.symbols).contains_key(m[id as int].id)
    &&& r.inputs.len() == a.inputs.len()
    &&& forall|k: int| 0 <= k < a.inputs.len() ==> #[trigger] r.inputs@[k] == m[a.inputs@[k] as int].id
    &&& r.latchs.len() == a.latchs.len()
    &&& forall|k: int| 0 <= k < a.latchs.len() ==> #[trigger] r.latchs@[k] == (AigLatch {
        input: m[a.latchs@[k].input as int].id,
        next: map_e(m, a.latchs@[k].next),
        init: match a.latchs@[k].init {
            Some(e) => Some(map_e(m, e)),
            None => None,
        },
    })
    &&& r.outputs.len() == a.outputs.len()
    &&& forall|k: int| 0 <= k < a.outputs.len() ==> #[trigger] r.outputs@[k] == map_e(m, a.outputs@[k])
    &&& r.bads.len() == a.bads.len()
    &&& forall|k: int| 0 <= k < a.bads.len() ==> #[trigger] r.bads@[k] == map_e(m, a.bads@[k])
    &&& r.constraints.len() == a.constraints.len()
    &&& forall|k: int| 0 <= k < a.constraints.len() ==> #[trigger] r.constraints@[k] == map_e(m, a.constraints@[k])
    &&& r.fairness.len() == a.fairness.len()
    &&& forall|k: int| 0 <= k < a.fairness.len() ==> #[trigger] r.fairness@[k] == map_e(m, a.fairness@[k])
    &&& r.justice.len() == a.justice.len()
    &&& forall|j: int| 0 <= j < a.justice.len() ==> (#[trigger] r.justice@[j]).len() == a.justice@[j].len()
    &&& forall|j: int, k: int| 0 <= j < a.justice.len() && 0 <= k < a.justice@[j].len() ==> #[trigger] r.justice@[j]@[k] == map_e(m, a.justice@[j]@[k])
}

/// What `strash` guarantees of its result `r` on input `a`.
pub open spec fn strash_post(a: Aig, r: Aig) -> bool {
    &&& r.wf()
    &&& no_dup_ands(r.nodes@)
    &&& forall|x: usize| #[trigger] symbol_names(r.symbols).contains_key(x) ==> (x as int) < r.nodes.len()
    &&& ((no_dup_ands(a.nodes@) && forall|id: usize| #[trigger] symbol_names(a.symbols).contains_key(id) ==> (id as int) < a.nodes.len())
        ==> same_graph(a, r))
}

/// Structural hashing is a fixed point: if `s1` is the result of `strash`
/// on `a` and `s2` that of `strash` on `s1`, then `s2` is `s1`.
pub proof fn lemma_strash_fixpoint(a: Aig, s1: Aig, s2: Aig)
    requires
        strash_post(a, s1),
        strash_post(s1, s2),
    ensures
        same_graph(s1, s2),
{
}

/// An AND node of `nodes` with type `And(g0, g1)`, if there is one.
fn find_and(nodes: &Vec<AigNode>, g0: AigEdge, g1: AigEdge) -> (r: Option<usize>)
    ensures
        r is Some ==> (r->0 as int) < nodes.len() && nodes@[r->0 as int].typ == AigNodeType::And(g0, g1),
        r is None ==> forall|j: int| 0 <= j < nodes.len() ==> (#[trigger] nodes@[j]).typ != AigNodeType::And(g0, g1),
{
    let mut j: usize = 0;
    while j < nodes.len()
        invariant
            j <= nodes.len(),
            forall|p: int| 0 <= p < j ==> (#[trigger] nodes@[p]).typ != AigNodeType::And(g0, g1),
        decreases nodes.len() - j,
    {
        if nodes[j].typ == AigNodeType::And(g0, g1) {
            return Some(j);
        }
        j += 1;
    }
    None
}

fn map_edge(m: &Vec<AigEdge>, e: AigEdge) -> (r: AigEdge)
    requires
        (e.id as int) < m.len(),
    ensures
        r == map_e(m@, e),
{
    m[e.id].not_if(e.complement)
}

fn map_edges(m: &Vec<AigEdge>, es: &Vec<AigEdge>, n: usize) -> (r: Vec<AigEdge>)
    requires
        edges_in(es@, m.len() as int),
        edges_in(m@, n as int),
    ensures
        r.len() == es.len(),
        forall|k: int| 0 <= k < es.len() ==> #[trigger] r@[k] == map_e(m@, es@[k]),
        edges_in(r@, n as int),
{
    let mut r: Vec<AigEdge> = Vec::new();
    let mut i: usize = 0;
    while i < es.len()
        invariant
            i <= es.len(),
            edges_in(es@, m.len() as int),
            edges_in(m@, n as int),
            r.len() == i,
            forall|k: int| 0 <= k < i ==> #[trigger] r@[k] == map_e(m@, es@[k]),
            edges_in(r@, n as int),
        decreases es.len() - i,
    {
        assert(edge_in(es@[i as int], m.len() as int));
        assert(edge_in(m@[es@[i as int].id as int], n as int));
        r.push(map_edge(m, es[i]));
        i += 1;
    }
    r
}

impl Aig {
    /// The node map of structural hashing: the nodes rebuilt in id order,
    /// each leaf as a new leaf, each AND node over the images of its fanins,
    /// in canonical order, reusing an AND node with the same fanin pair when
    /// there is one. Every node's image has the node's value when each old
    /// leaf takes the value of its image.
    fn strash_nodes(&self) -> (r: (Vec<AigNode>, Vec<AigEdge>))
        requires
            self.wf(),
        ensures
            nodes_wf(r.0@),
            no_dup_ands(r.0@),
            r.0.len() <= self.nodes.len(),
            r.1.len() == self.nodes.len(),
            edges_in(r.1@, r.0.len() as int),
            r.1@[0] == (AigEdge { id: 0, complement: false }),
            forall|j: int| 0 <= j < self.nodes.len() && (#[trigger] self.nodes@[j]).typ is Leaf ==> !r.1@[j].complement && r.0@[r.1@[j].id as int].typ is Leaf,
            forall|vals: Seq<bool>, j: int| 0 <= j < self.nodes.len() ==> #[trigger] edge_val(r.0@, vals, r.1@[j]) == node_val(self.nodes@, pull(r.1@, vals), j as nat),
            no_dup_ands(self.nodes@) ==> r.0@ == self.nodes@ && forall|j: int| 0 <= j < self.nodes.len() ==> #[trigger] r.1@[j] == (AigEdge { id: j as usize, complement: false }),
    {
        let n = self.nodes.len();
        let mut nodes: Vec<AigNode> = Vec::new();
        nodes.push(AigNode { id: 0, typ: AigNodeType::False });
        let mut m: Vec<AigEdge> = Vec::new();
        m.push(AigEdge { id: 0, complement: false });
        assert(node_ok(self.nodes@, 0));
        assert(nodes@ =~= self.nodes@.take(1));
        let mut i: usize = 1;
        while i < n
            invariant
                self.wf(),
                n == self.nodes.len(),
                1 <= i <= n,
                m.len() == i,
                nodes.len() <= i,
                nodes_wf(nodes@),
                no_dup_ands(nodes@),
                edges_in(m@, nodes.len() as int),
                m@[0] == (AigEdge { id: 0, complement: false }),
                forall|j: int| 0 <= j < i && (#[trigger] self.nodes@[j]).typ is Leaf ==> !m@[j].complement && nodes@[m@[j].id as int].typ is Leaf,
                forall|vals: Seq<bool>, j: int| 0 <= j < i ==> #[trigger] edge_val(nodes@, vals, m@[j]) == node_val(self.nodes@, pull(m@, vals), j as nat),
                no_dup_ands(self.nodes@) ==> nodes@ == self.nodes@.take(i as int) && forall|j: int| 0 <= j < i ==> #[trigger] m@[j] == (AigEdge { id: j as usize, complement: false }),
            decreases n - i,
        {
            assert(node_ok(self.nodes@, i as int));
            let ghost pn = nodes@;
            let ghost pm = m@;
            if self.nodes[i].is_and() {
                let f0 = self.nodes[i].fanin0();
                let f1 = self.nodes[i].fanin1();
                let g0 = map_edge(&m, f0);
                let g1 = map_edge(&m, f1);
                assert(edge_in(m@[f0.id as int], nodes.len() as int));
                assert(edge_in(m@[f1.id as int], nodes.len() as int));
                let (a, b) = if g0.id > g1.id { (g1, g0) } else { (g0, g1) };
                assert forall|j: int| 0 <= j < i && (#[trigger] self.nodes@[j]).typ is Leaf implies !m@[j].complement && nodes@[m@[j].id as int].typ is Leaf by {}
                proof {
                    if no_dup_ands(self.nodes@) {
                        assert(m@[f0.id as int] == (AigEdge { id: f0.id, complement: false }));
                        assert(m@[f1.id as int] == (AigEdge { id: f1.id, complement: false }));
                        assert(a == f0 && b == f1);
                    }
                }
                let e = match find_and(&nodes, a, b) {
                    Some(j) => {
                        assert(node_ok(nodes@, j as int));
                        proof {
                            if no_dup_ands(self.nodes@) {
                                assert(nodes@[j as int] == self.nodes@[j as int]);
                                assert(self.nodes@[j as int].typ == self.nodes@[i as int].typ);
                            }
                        }
                        proof {
                            lemma_prefix_refl(pn);
                        }
                        AigEdge { id: j, complement: false }
                    },
                    None => {
                        let id = nodes.len();
                        nodes.push(AigNode { id, typ: AigNodeType::And(a, b) });
                        proof {
                            lemma_prefix_push(pn, nodes@.last());
                            assert forall|p: int| 0 <= p < nodes.len() implies #[trigger] node_ok(nodes@, p) by {
                                if p < pn.len() {
                                    assert(node_ok(pn, p));
                                }
                            }
                            assert forall|x: int, y: int| 0 <= x < y < nodes.len() && (#[trigger] nodes@[x]).typ is And implies nodes@[x].typ != (#[trigger] nodes@[y]).typ by {
                                if y < pn.len() {
                                    assert(nodes@[x] == pn[x] && nodes@[y] == pn[y]);
                                }
                            }
                        }
                        AigEdge { id, complement: false }
                    },
                };
                m.push(e);
                proof {
                    if no_dup_ands(self.nodes@) {
                        assert(nodes@ =~= self.nodes@.take(i + 1));
                    }
                    assert(node_ok(nodes@, e.id as int));
                    assert(nodes@[e.id as int].typ == AigNodeType::And(a, b));
                    crate::aig::lemma_edge_val_prefix(pn, nodes@, a);
                    crate::aig::lemma_edge_val_prefix(pn, nodes@, b);
                    assert forall|vals: Seq<bool>, j: int| 0 <= j < i + 1 implies #[trigger] edge_val(nodes@, vals, m@[j]) == node_val(self.nodes@, pull(m@, vals), j as nat) by {
                        if j < i {
                            crate::aig::lemma_node_val_local(self.nodes@, pull(pm, vals), pull(m@, vals), j as nat);
                            crate::aig::lemma_edge_val_prefix(pn, nodes@, pm[j]);
                            assert(edge_val(pn, vals, pm[j]) == node_val(self.nodes@, pull(pm, vals), j as nat));
                            assert(m@[j] == pm[j]);
                        } else {
                            crate::aig::lemma_node_val_local(self.nodes@, pull(pm, vals), pull(m@, vals), f0.id as nat);
                            crate::aig::lemma_node_val_local(self.nodes@, pull(pm, vals), pull(m@, vals), f1.id as nat);
                            assert(edge_val(pn, vals, pm[f0.id as int]) == node_val(self.nodes@, pull(pm, vals), f0.id as nat));
                            assert(edge_val(pn, vals, pm[f1.id as int]) == node_val(self.nodes@, pull(pm, vals), f1.id as nat));
                            assert(edge_val(nodes@, vals, e) == (edge_val(nodes@, vals, a) && edge_val(nodes@, vals, b)));
                        }
                    }
                }
            } else {
                let id = nodes.len();
                nodes.push(AigNode { id, typ: AigNodeType::Leaf });
                assert forall|p: int| 0 <= p < nodes.len() implies #[trigger] node_ok(nodes@, p) by {
                    if p < pn.len() {
                        assert(node_ok(pn, p));
                    }
                }
                m.push(AigEdge { id, complement: false });
                proof {
                    if no_dup_ands(self.nodes@) {
                        assert(nodes@ =~= self.nodes@.take(i + 1));
                    }
                    lemma_prefix_push(pn, nodes@.last());
                    assert forall|x: int, y: int| 0 <= x < y < nodes.len() && (#[trigger] nodes@[x]).typ is And implies nodes@[x].typ != (#[trigger] nodes@[y]).typ by {
                        if y < pn.len() {
                            assert(nodes@[x] == pn[x] && nodes@[y] == pn[y]);
                        }
                    }
                    assert forall|vals: Seq<bool>, j: int| 0 <= j < i + 1 implies #[trigger] edge_val(nodes@, vals, m@[j]) == node_val(self.nodes@, pull(m@, vals), j as nat) by {
                        if j < i {
                            crate::aig::lemma_node_val_local(self.nodes@, pull(pm, vals), pull(m@, vals), j as nat);
                            crate::aig::lemma_edge_val_prefix(pn, nodes@, pm[j]);
                            assert(edge_val(pn, vals, pm[j]) == node_val(self.nodes@, pull(pm, vals), j as nat));
                            assert(m@[j] == pm[j]);
                        }
                    }
                    assert forall|j: int| 0 <= j < i + 1 && (#[trigger] self.nodes@[j]).typ is Leaf implies !m@[j].complement && nodes@[m@[j].id as int].typ is Leaf by {
                        if j < i {
                            assert(m@[j] == pm[j]);
                            assert(nodes@[pm[j].id as int] == pn[pm[j].id as int]);
                        }
                    }
                }
            }
            i += 1;
        }
        proof {
            if no_dup_ands(self.nodes@) {
                assert(nodes@ =~= self.nodes@);
            }
        }
        (nodes, m)
    }

    /// Structural hashing: the graph rebuilt in id order so that equal AND
    /// nodes (same fanin pair once their fanins are rebuilt) become one; the
    /// role lists and names follow the nodes.
    pub fn strash(&self) -> (r: Self)
        requires
            self.wf(),
        ensures
            r.wf(),
            no_dup_ands(r.nodes@),
            r.nodes.len() <= self.nodes.len(),
            exists|m: Seq<AigEdge>| strashed(*self, r, m),
            strash_post(*self, r),
    {
        let (nodes, m) = self.strash_nodes();
        let n = nodes.len();
        let mut inputs: Vec<usize> = Vec::new();
        let mut k: usize = 0;
        while k < self.inputs.len()
            invariant
                self.wf(),
                m.len() == self.nodes.len(),
                nodes.len() == n,
                edges_in(m@, n as int),
                forall|j: int| 0 <= j < self.nodes.len() && (#[trigger] self.nodes@[j]).typ is Leaf ==> !m@[j].complement && nodes@[m@[j].id as int].typ is Leaf,
                k <= self.inputs.len(),
                inputs.len() == k,
                forall|p: int| 0 <= p < k ==> #[trigger] inputs@[p] == m@[self.inputs@[p] as int].id,
                forall|p: int| 0 <= p < k ==> is_leaf_at(nodes@, #[trigger] inputs@[p]),
            decreases self.inputs.len() - k,
        {
            let x = self.inputs[k];
            assert(is_leaf_at(self.nodes@, x));
            assert(edge_in(m@[x as int], n as int));
            inputs.push(m[x].id);
            k += 1;
        }
        let mut latchs: Vec<AigLatch> = Vec::new();
        let mut k: usize = 0;
        while k < self.latchs.len()
            invariant
                self.wf(),
                m.len() == self.nodes.len(),
                nodes.len() == n,
                edges_in(m@, n as int),
                forall|j: int| 0 <= j < self.nodes.len() && (#[trigger] self.nodes@[j]).typ is Leaf ==> !m@[j].complement && nodes@[m@[j].id as int].typ is Leaf,
                k <= self.latchs.len(),
                latchs.len() == k,
                forall|p: int| 0 <= p < k ==> #[trigger] latchs@[p] == (AigLatch {
                    input: m@[self.latchs@[p].input as int].id,
                    next: map_e(m@, self.latchs@[p].next),
                    init: match self.latchs@[p].init {
                        Some(e) => Some(map_e(m@, e)),
                        None => None,
                    },
                }),
                forall|p: int| 0 <= p < k ==> latch_ok(nodes@, #[trigger] latchs@[p]),
            decreases self.latchs.len() - k,
        {
            let l = self.latchs[k];
            assert(latch_ok(self.nodes@, l));
            assert(edge_in(m@[l.input as int], n as int));
            assert(edge_in(m@[l.next.id as int], n as int));
            let init = match l.init {
                Some(e) => {
                    assert(edge_in(m@[e.id as int], n as int));
                    Some(map_edge(&m, e))
                },
                None => None,
            };
            latchs.push(AigLatch { input: m[l.input].id, next: map_edge(&m, l.next), init });
            k += 1;
        }
        let outputs = map_edges(&m, &self.outputs, n);
        let bads = map_edges(&m, &self.bads, n);
        let constraints = map_edges(&m, &self.constraints, n);
        let fairness = map_edges(&m, &self.fairness, n);
        let mut justice: Vec<Vec<AigEdge>> = Vec::new();
        let mut j: usize = 0;
        while j < self.justice.len()
            invariant
                self.wf(),
                m.len() == self.nodes.len(),
                edges_in(m@, n as int),
                j <= self.justice.len(),
                justice.len() == j,
                forall|j2: int| 0 <= j2 < j ==> (#[trigger] justice@[j2]).len() == self.justice@[j2].len(),
                forall|j2: int, p: int| 0 <= j2 < j && 0 <= p < self.justice@[j2].len() ==> #[trigger] justice@[j2]@[p] == map_e(m@, self.justice@[j2]@[p]),
                forall|j2: int| 0 <= j2 < j ==> edges_in(#[trigger] justice@[j2]@, n as int),
            decreases self.justice.len() - j,
        {
            assert(edges_in(self.justice@[j as int]@, self.nodes.len() as int));
            let e = map_edges(&m, &self.justice[j], n);
            justice.push(e);
            j += 1;
        }
        let mut keys: Vec<usize> = Vec::new();
        let mut q: usize = 0;
        while q < m.len()
            invariant
                q <= m.len(),
                keys.len() == q,
                forall|p: int| 0 <= p < q ==> #[trigger] keys@[p] == m@[p].id,
            decreases m.len() - q,
        {
            keys.push(m[q].id);
            q += 1;
        }
        let keep_all: Vec<bool> = vec![true; m.len()];
        let symbols = rekey_symbols(&self.symbols, &keys, &keep_all);
        let r = Aig { nodes, inputs, latchs, outputs, bads, constraints, justice, fairness, symbols };
        assert(strashed(*self, r, m@));
        proof {
            assert forall|x: usize| #[trigger] symbol_names(r.symbols).contains_key(x) implies (x as int) < r.nodes.len() by {
                let id = choose|id: usize| #[trigger] symbol_names(self.symbols).contains_key(id) && (id as int) < keys.len() && keep_all@[id as int] && keys@[id as int] == x
                    && symbol_names(r.symbols)[x] == symbol_names(self.symbols)[id];
                assert(edge_in(m@[id as int], n as int));
            }
            if no_dup_ands(self.nodes@) && forall|id: usize| #[trigger] symbol_names(self.symbols).contains_key(id) ==> (id as int) < self.nodes.len() {
                assert(symbol_names(r.symbols) =~= symbol_names(self.symbols)) by {
                    assert forall|x: usize| #[trigger] symbol_names(r.symbols).contains_key(x) implies symbol_names(self.symbols).contains_key(x)
                        && symbol_names(r.symbols)[x] == symbol_names(self.symbols)[x] by {
                        let id = choose|id: usize| #[trigger] symbol_names(self.symbols).contains_key(id) && (id as int) < keys.len() && keep_all@[id as int] && keys@[id as int] == x
                            && symbol_names(r.symbols)[x] == symbol_names(self.symbols)[id];
                    }
                    assert forall|x: usize| #[trigger] symbol_names(self.symbols).contains_key(x) implies symbol_names(r.symbols).contains_key(x) by {
                        assert(keys@[x as int] == x);
                    }
                }
                assert forall|e: AigEdge| (e.id as int) < self.nodes.len() implies map_e(m@, e) == e by {}
                assert(r.inputs@ =~= self.inputs@) by {
                    assert forall|k: int| 0 <= k < self.inputs.len() implies r.inputs@[k] == self.inputs@[k] by {
                        assert(is_leaf_at(self.nodes@, self.inputs@[k]));
                    }
                }
                assert(r.latchs@ =~= self.latchs@) by {
                    assert forall|k: int| 0 <= k < self.latchs.len() implies r.latchs@[k] == self.latchs@[k] by {
                        assert(latch_ok(self.nodes@, self.latchs@[k]));
                    }
                }
                assert(r.outputs@ =~= self.outputs@) by {
                    assert forall|k: int| 0 <= k < self.outputs.len() implies r.outputs@[k] == self.outputs@[k] by {
                        assert(edge_in(self.outputs@[k], self.nodes.len() as int));
                    }
                }
                assert(r.bads@ =~= self.bads@) by {
                    assert forall|k: int| 0 <= k < self.bads.len() implies r.bads@[k] == self.bads@[k] by {
                        assert(edge_in(self.bads@[k], self.nodes.len() as int));
                    }
                }
                assert(r.constraints@ =~= self.constraints@) by {
                    assert forall|k: int| 0 <= k < self.constraints.len() implies r.constraints@[k] == self.constraints@[k] by {
                        assert(edge_in(self.constraints@[k], self.nodes.len() as int));
                    }
                }
                assert(r.fairness@ =~= self.fairness@) by {
                    assert forall|k: int| 0 <= k < self.fairness.len() implies r.fairness@[k] == self.fairness@[k] by {
                        assert(edge_in(self.fairness@[k], self.nodes.len() as int));
                    }
                }
                assert forall|j: int| 0 <= j < self.justice.len() implies r.justice@[j]@ =~= self.justice@[j]@ by {
                    assert(edges_in(self.justice@[j]@, self.nodes.len() as int));
                    assert forall|k: int| 0 <= k < self.justice@[j].len() implies r.justice@[j]@[k] == self.justice@[j]@[k] by {
                        assert(edge_in(self.justice@[j]@[k], self.nodes.len() as int));
                    }
                }
            }
        }
        r
    }
}

} // verus!
