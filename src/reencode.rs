//! Dense, role-ordered renumbering of a graph.
use crate::aig::{edge_in, edges_in, is_leaf_at, latch_ok, node_ok, same_graph, Aig};
use crate::edge::AigEdge;
use crate::node::{canon, AigLatch, AigNode, AigNodeType};
use crate::symbols::{rekey_symbols, symbol_names};
use vstd::prelude::*;

verus! {

/// The number of AND nodes below id `i`.
pub open spec fn ands_below(nodes: Seq<AigNode>, i: int) -> nat
    decreases i,
{
    if i <= 0 {
        0
    } else {
        ands_below(nodes, i - 1) + (if nodes[i - 1].typ is And {
            1nat
        } else {
            0nat
        })
    }
}

proof fn lemma_ands_below_mono(nodes: Seq<AigNode>, a: int, b: int)
    requires
        0 <= a <= b,
    ensures
        ands_below(nodes, a) <= ands_below(nodes, b),
        a < b && nodes[a].typ is And ==> ands_below(nodes, a) < ands_below(nodes, b),
    decreases b - a,
{
    if a < b {
        lemma_ands_below_mono(nodes, a, b - 1);
        if a < b - 1 {
            lemma_ands_below_mono(nodes, a + 1, b);
        }
    }
}

/// The leaves are exactly the inputs and the latch leaves, each listed once.
pub open spec fn roles_exact(a: Aig) -> bool {
    &&& forall|k1: int, k2: int| 0 <= k1 < k2 < a.inputs.len() ==> a.inputs@[k1] != a.inputs@[k2]
    &&& forall|k1: int, k2: int| 0 <= k1 < k2 < a.latchs.len() ==> a.latchs@[k1].input != a.latchs@[k2].input
    &&& forall|k1: int, k2: int| 0 <= k1 < a.inputs.len() && 0 <= k2 < a.latchs.len() ==> a.inputs@[k1] != a.latchs@[k2].input
    &&& forall|i: int| 0 <= i < a.nodes.len() && (#[trigger] a.nodes@[i]).typ is Leaf ==> (exists|k: int|
        0 <= k < a.inputs.len() && a.inputs@[k] == i) || (exists|k: int| 0 <= k < a.latchs.len() && a.latchs@[k].input == i)
}

/// The ids are already in the order that `reencode` gives: the inputs, then
/// the latch leaves, then the AND nodes.
pub open spec fn encoded(a: Aig) -> bool {
    let base = 1 + a.inputs.len() + a.latchs.len();
    &&& base <= a.nodes.len()
    &&& forall|k: int| 0 <= k < a.inputs.len() ==> #[trigger] a.inputs@[k] == 1 + k
    &&& forall|k: int| 0 <= k < a.latchs.len() ==> #[trigger] a.latchs@[k].input == 1 + a.inputs.len() + k
    &&& forall|i: int| 0 <= i < a.nodes.len() ==> ((#[trigger] a.nodes@[i]).typ is And <==> i >= base)
}

/// What `reencode` guarantees of its result `r` on input `a`, besides the
/// renumbering itself.
pub open spec fn reencode_post(a: Aig, r: Aig) -> bool {
    &&& r.wf()
    &&& roles_exact(r)
    &&& encoded(r)
    &&& r.inputs.len() == a.inputs.len()
    &&& r.latchs.len() == a.latchs.len()
    &&& forall|x: usize| #[trigger] symbol_names(r.symbols).contains_key(x) ==> (x as int) < r.nodes.len()
    &&& ((encoded(a) && forall|id: usize| #[trigger] symbol_names(a.symbols).contains_key(id) ==> (id as int) < a.nodes.len()) ==> same_graph(a, r))
}

/// Re-encoding is idempotent: if `r1` is the result of `reencode` on `a`
/// and `r2` that of `reencode` on `r1`, then `r2` is `r1`, node for node.
pub proof fn lemma_reencode_idempotent(a: Aig, r1: Aig, r2: Aig)
    requires
        reencode_post(a, r1),
        reencode_post(r1, r2),
    ensures
        same_graph(r1, r2),
{
}

proof fn lemma_ands_below_encoded(a: Aig, i: int)
    requires
        encoded(a),
        0 <= i <= a.nodes.len(),
    ensures
        ands_below(a.nodes@, i) == if i <= 1 + a.inputs.len() + a.latchs.len() { 0 } else { i - (1 + a.inputs.len() + a.latchs.len()) },
    decreases i,
{
    if i > 0 {
        lemma_ands_below_encoded(a, i - 1);
        assert((a.nodes@[i - 1]).typ is And <==> i - 1 >= 1 + a.inputs.len() + a.latchs.len());
    }
}

/// Where `code` puts each kind of node.
proof fn lemma_code_range(a: Aig, i: int)
    requires
        a.wf(),
        roles_exact(a),
        0 <= i < a.nodes.len(),
    ensures
        a.nodes@[i].typ is And ==> code(a, i) >= 1 + a.inputs.len() + a.latchs.len(),
        i == 0 ==> code(a, i) == 0,
        i != 0 && !(a.nodes@[i].typ is And) && (exists|k: int| 0 <= k < a.inputs.len() && a.inputs@[k] == i) ==> 1 <= code(a, i) <= a.inputs.len(),
        i != 0 && !(a.nodes@[i].typ is And) && !(exists|k: int| 0 <= k < a.inputs.len() && a.inputs@[k] == i) ==> 1 + a.inputs.len() <= code(a, i) <= a.inputs.len() + a.latchs.len()
            && (exists|k: int| 0 <= k < a.latchs.len() && a.latchs@[k].input == i),
{
    assert(node_ok(a.nodes@, i));
    if i == 0 {
        assert(!(exists|k: int| 0 <= k < a.inputs.len() && a.inputs@[k] == i)) by {
            if exists|k: int| 0 <= k < a.inputs.len() && a.inputs@[k] == i {
                let k = choose|k: int| 0 <= k < a.inputs.len() && a.inputs@[k] == i;
                assert(is_leaf_at(a.nodes@, a.inputs@[k]));
            }
        }
        assert(!(exists|k: int| 0 <= k < a.latchs.len() && a.latchs@[k].input == i)) by {
            if exists|k: int| 0 <= k < a.latchs.len() && a.latchs@[k].input == i {
                let k = choose|k: int| 0 <= k < a.latchs.len() && a.latchs@[k].input == i;
                assert(latch_ok(a.nodes@, a.latchs@[k]));
            }
        }
    }
}

/// Distinct nodes get distinct new ids.
proof fn lemma_code_injective(a: Aig, i: int, j: int)
    requires
        a.wf(),
        roles_exact(a),
        0 <= i < a.nodes.len(),
        0 <= j < a.nodes.len(),
        i != j,
    ensures
        code(a, i) != code(a, j),
{
    lemma_code_range(a, i);
    lemma_code_range(a, j);
    if a.nodes@[i].typ is And && a.nodes@[j].typ is And {
        if i < j {
            lemma_ands_below_mono(a.nodes@, i, j);
        } else {
            lemma_ands_below_mono(a.nodes@, j, i);
        }
    }
}

/// On an encoded graph every node keeps its id.
proof fn lemma_code_identity(a: Aig, i: int)
    requires
        a.wf(),
        roles_exact(a),
        encoded(a),
        0 <= i < a.nodes.len(),
    ensures
        code(a, i) == i,
{
    let base = 1 + a.inputs.len() + a.latchs.len();
    assert(node_ok(a.nodes@, i));
    assert((a.nodes@[i]).typ is And <==> i >= base);
    if a.nodes@[i].typ is And {
        lemma_ands_below_encoded(a, i);
    } else if i == 0 {
        assert(!(exists|k: int| 0 <= k < a.inputs.len() && a.inputs@[k] == i)) by {
            if exists|k: int| 0 <= k < a.inputs.len() && a.inputs@[k] == i {
                let k = choose|k: int| 0 <= k < a.inputs.len() && a.inputs@[k] == i;
                assert(a.inputs@[k] == 1 + k);
            }
        }
        assert(!(exists|k: int| 0 <= k < a.latchs.len() && a.latchs@[k].input == i)) by {
            if exists|k: int| 0 <= k < a.latchs.len() && a.latchs@[k].input == i {
                let k = choose|k: int| 0 <= k < a.latchs.len() && a.latchs@[k].input == i;
                assert(a.latchs@[k].input == 1 + a.inputs.len() + k);
            }
        }
    } else if i <= a.inputs.len() {
        assert(a.inputs@[i - 1] == i);
        let k = choose|k: int| 0 <= k < a.inputs.len() && a.inputs@[k] == i;
        assert(a.inputs@[k] == 1 + k);
    } else {
        let k0 = i - 1 - a.inputs.len();
        assert(a.latchs@[k0].input == i);
        assert(!(exists|k: int| 0 <= k < a.inputs.len() && a.inputs@[k] == i)) by {
            if exists|k: int| 0 <= k < a.inputs.len() && a.inputs@[k] == i {
                let k = choose|k: int| 0 <= k < a.inputs.len() && a.inputs@[k] == i;
                assert(a.inputs@[k] == 1 + k);
            }
        }
        let k = choose|k: int| 0 <= k < a.latchs.len() && a.latchs@[k].input == i;
        assert(a.latchs@[k].input == 1 + a.inputs.len() + k);
    }
}

/// The new id of node `i`: 0 for the constant, then the inputs in order,
/// then the latch leaves in order, then the AND nodes in arena order.
pub open spec fn code(a: Aig, i: int) -> int {
    if a.nodes@[i].typ is And {
        1 + a.inputs.len() + a.latchs.len() + ands_below(a.nodes@, i)
    } else if exists|k: int| 0 <= k < a.inputs.len() && a.inputs@[k] == i {
        1 + choose|k: int| 0 <= k < a.inputs.len() && a.inputs@[k] == i
    } else if exists|k: int| 0 <= k < a.latchs.len() && a.latchs@[k].input == i {
        1 + a.inputs.len() + choose|k: int| 0 <= k < a.latchs.len() && a.latchs@[k].input == i
    } else {
        0
    }
}

/// An edge of `a` in the new numbering.
pub open spec fn code_edge(a: Aig, e: AigEdge) -> AigEdge {
    AigEdge { id: code(a, e.id as int) as usize, complement: e.complement }
}

/// The AND node `j` of `a` in the new numbering.
pub open spec fn coded_and(a: Aig, j: int) -> AigNode {
    let g0 = code_edge(a, a.nodes@[j].typ->And_0);
    let g1 = code_edge(a, a.nodes@[j].typ->And_1);
    AigNode { id: code(a, j) as usize, typ: AigNodeType::And(canon(g0, g1).0, canon(g0, g1).1) }
}

fn enc_edge(enc: &Vec<usize>, e: AigEdge) -> (r: AigEdge)
    requires
        (e.id as int) < enc.len(),
    ensures
        r == (AigEdge { id: enc@[e.id as int], complement: e.complement }),
{
    AigEdge { id: enc[e.id], complement: e.complement }
}

fn enc_edges(enc: &Vec<usize>, es: &Vec<AigEdge>) -> (r: Vec<AigEdge>)
    requires
        edges_in(es@, enc.len() as int),
    ensures
        r.len() == es.len(),
        forall|k: int| 0 <= k < es.len() ==> #[trigger] r@[k] == (AigEdge { id: enc@[es@[k].id as int], complement: es@[k].complement }),
{
    let mut r: Vec<AigEdge> = Vec::new();
    let mut i: usize = 0;
    while i < es.len()
        invariant
            i <= es.len(),
            edges_in(es@, enc.len() as int),
            r.len() == i,
            forall|k: int| 0 <= k < i ==> #[trigger] r@[k] == (AigEdge { id: enc@[es@[k].id as int], complement: es@[k].complement }),
        decreases es.len() - i,
    {
        assert(edge_in(es@[i as int], enc.len() as int));
        r.push(enc_edge(enc, es[i]));
        i += 1;
    }
    r
}

impl Aig {
    /// The new id of each node, as `code` gives it.
    fn encode_map(&self) -> (enc: Vec<usize>)
        requires
            self.wf(),
            roles_exact(*self),
            self.inputs.len() + self.latchs.len() + self.nodes.len() < usize::MAX,
        ensures
            enc.len() == self.nodes.len(),
            forall|i: int| 0 <= i < self.nodes.len() ==> #[trigger] enc@[i] == code(*self, i),
    {
        let n = self.nodes.len();
        let ni = self.inputs.len();
        let nl = self.latchs.len();
        let mut enc: Vec<usize> = vec![0usize; n];
        let mut k: usize = 0;
        while k < ni
            invariant
                self.wf(),
                roles_exact(*self),
                n == self.nodes.len(),
                ni == self.inputs.len(),
                k <= ni,
                enc.len() == n,
                enc@[0] == 0,
                forall|k2: int| 0 <= k2 < k ==> enc@[#[trigger] self.inputs@[k2] as int] == 1 + k2,
            decreases ni - k,
        {
            assert(is_leaf_at(self.nodes@, self.inputs@[k as int]));
            assert(node_ok(self.nodes@, 0));
            enc.set(self.inputs[k], k + 1);
            k += 1;
        }
        let mut k: usize = 0;
        while k < nl
            invariant
                self.wf(),
                roles_exact(*self),
                n == self.nodes.len(),
                ni == self.inputs.len(),
                nl == self.latchs.len(),
                ni + nl + n < usize::MAX,
                k <= nl,
                enc.len() == n,
                enc@[0] == 0,
                forall|k2: int| 0 <= k2 < ni ==> enc@[#[trigger] self.inputs@[k2] as int] == 1 + k2,
                forall|k2: int| 0 <= k2 < k ==> enc@[#[trigger] self.latchs@[k2].input as int] == 1 + ni + k2,
            decreases nl - k,
        {
            assert(latch_ok(self.nodes@, self.latchs@[k as int]));
            assert(node_ok(self.nodes@, 0));
            enc.set(self.latchs[k].input, ni + k + 1);
            k += 1;
        }
        let mut max_id: usize = ni + nl;
        let mut i: usize = 0;
        while i < n
            invariant
                self.wf(),
                roles_exact(*self),
                n == self.nodes.len(),
                ni == self.inputs.len(),
                nl == self.latchs.len(),
                ni + nl + n < usize::MAX,
                i <= n,
                enc.len() == n,
                enc@[0] == 0,
                max_id == ni + nl + ands_below(self.nodes@, i as int),
                ands_below(self.nodes@, i as int) <= i,
                forall|k2: int| 0 <= k2 < ni ==> enc@[#[trigger] self.inputs@[k2] as int] == 1 + k2,
                forall|k2: int| 0 <= k2 < nl ==> enc@[#[trigger] self.latchs@[k2].input as int] == 1 + ni + k2,
                forall|j: int| 0 <= j < i && (#[trigger] self.nodes@[j]).typ is And ==> enc@[j] == 1 + ni + nl + ands_below(self.nodes@, j),
            decreases n - i,
        {
            if self.nodes[i].is_and() {
                max_id += 1;
                enc.set(i, max_id);
                assert forall|k2: int| 0 <= k2 < ni implies enc@[#[trigger] self.inputs@[k2] as int] == 1 + k2 by {
                    assert(is_leaf_at(self.nodes@, self.inputs@[k2]));
                }
                assert forall|k2: int| 0 <= k2 < nl implies enc@[#[trigger] self.latchs@[k2].input as int] == 1 + ni + k2 by {
                    assert(latch_ok(self.nodes@, self.latchs@[k2]));
                }
            }
            i += 1;
        }
        assert forall|i: int| 0 <= i < n implies #[trigger] enc@[i] == code(*self, i) by {
            assert(node_ok(self.nodes@, i));
            if !(self.nodes@[i].typ is And) {
                if exists|k: int| 0 <= k < self.inputs.len() && self.inputs@[k] == i {
                    let k = choose|k: int| 0 <= k < self.inputs.len() && self.inputs@[k] == i;
                    assert(enc@[self.inputs@[k] as int] == 1 + k);
                } else if exists|k: int| 0 <= k < self.latchs.len() && self.latchs@[k].input == i {
                    let k = choose|k: int| 0 <= k < self.latchs.len() && self.latchs@[k].input == i;
                    assert(enc@[self.latchs@[k].input as int] == 1 + ni + k);
                } else {
                    assert(!(self.nodes@[i].typ is Leaf));
                }
            }
        }
        enc
    }

    /// The same circuit renumbered by `code`: the constant, the inputs, the
    /// latch leaves and the AND nodes in arena order, with every edge, latch
    /// and name carried over.
    #[verifier::rlimit(60)]
    pub fn reencode(&self) -> (r: Self)
        requires
            self.wf(),
            roles_exact(*self),
            self.inputs.len() + self.latchs.len() + self.nodes.len() < usize::MAX,
            forall|id: usize| #[trigger] symbol_names(self.symbols).contains_key(id) ==> (id as int) < self.nodes.len(),
        ensures
            r.wf(),
            r.nodes.len() == 1 + self.inputs.len() + self.latchs.len() + ands_below(self.nodes@, self.nodes.len() as int),
            r.inputs.len() == self.inputs.len(),
            forall|k: int| 0 <= k < r.inputs.len() ==> #[trigger] r.inputs@[k] == 1 + k,
            r.latchs.len() == self.latchs.len(),
            forall|k: int| 0 <= k < r.latchs.len() ==> #[trigger] r.latchs@[k] == (AigLatch {
                input: (1 + self.inputs.len() + k) as usize,
                next: code_edge(*self, self.latchs@[k].next),
                init: match self.latchs@[k].init {
                    Some(e) => Some(code_edge(*self, e)),
                    None => None,
                },
            }),
            forall|i: int| 0 <= i < self.nodes.len() && (#[trigger] self.nodes@[i]).typ is And ==> r.nodes@[code(*self, i)] == coded_and(*self, i),
            forall|k: int| 1 <= k < 1 + self.inputs.len() + self.latchs.len() ==> (#[trigger] r.nodes@[k]).typ is Leaf,
            r.outputs.len() == self.outputs.len(),
            forall|k: int| 0 <= k < r.outputs.len() ==> #[trigger] r.outputs@[k] == code_edge(*self, self.outputs@[k]),
            r.bads.len() == self.bads.len(),
            forall|k: int| 0 <= k < r.bads.len() ==> #[trigger] r.bads@[k] == code_edge(*self, self.bads@[k]),
            r.constraints.len() == self.constraints.len(),
            forall|k: int| 0 <= k < r.constraints.len() ==> #[trigger] r.constraints@[k] == code_edge(*self, self.constraints@[k]),
            r.fairness.len() == self.fairness.len(),
            forall|k: int| 0 <= k < r.fairness.len() ==> #[trigger] r.fairness@[k] == code_edge(*self, self.fairness@[k]),
            r.justice.len() == self.justice.len(),
            forall|j: int| 0 <= j < r.justice.len() ==> (#[trigger] r.justice@[j]).len() == self.justice@[j].len(),
            forall|j: int, k: int| 0 <= j < r.justice.len() && 0 <= k < r.justice@[j].len() ==> #[trigger] r.justice@[j]@[k] == code_edge(*self, self.justice@[j]@[k]),
            forall|id: usize| #[trigger] symbol_names(self.symbols).contains_key(id) ==> symbol_names(r.symbols).contains_key(code(*self, id as int) as usize)
                && symbol_names(r.symbols)[code(*self, id as int) as usize] == symbol_names(self.symbols)[id],
            forall|x: usize| #[trigger] symbol_names(r.symbols).contains_key(x) ==> exists|id: usize|
                #[trigger] symbol_names(self.symbols).contains_key(id) && code(*self, id as int) == x,
            reencode_post(*self, r),
    {
        let enc = self.encode_map();
        let n = self.nodes.len();
        let ni = self.inputs.len();
        let nl = self.latchs.len();
        let mut nodes: Vec<AigNode> = vec![AigNode { id: 0, typ: AigNodeType::False }];
        let mut inputs: Vec<usize> = Vec::new();
        let mut k: usize = 0;
        while k < ni
            invariant
                k <= ni,
                nodes.len() == 1 + k,
                nodes@[0] == (AigNode { id: 0, typ: AigNodeType::False }),
                forall|p: int| 1 <= p < nodes.len() ==> #[trigger] nodes@[p] == (AigNode { id: p as usize, typ: AigNodeType::Leaf }),
                inputs.len() == k,
                forall|p: int| 0 <= p < k ==> #[trigger] inputs@[p] == 1 + p,
            decreases ni - k,
        {
            nodes.push(AigNode { id: k + 1, typ: AigNodeType::Leaf });
            inputs.push(k + 1);
            k += 1;
        }
        let mut k: usize = 0;
        while k < nl
            invariant
                ni + nl + n < usize::MAX,
                k <= nl,
                nodes.len() == 1 + ni + k,
                nodes@[0] == (AigNode { id: 0, typ: AigNodeType::False }),
                forall|p: int| 1 <= p < nodes.len() ==> #[trigger] nodes@[p] == (AigNode { id: p as usize, typ: AigNodeType::Leaf }),
            decreases nl - k,
        {
            nodes.push(AigNode { id: ni + k + 1, typ: AigNodeType::Leaf });
            k += 1;
        }
        self.push_ands(&enc, &mut nodes);
        assert forall|x: int| 0 <= x < n implies (#[trigger] enc@[x] as int) < nodes.len() by {
            self.lemma_code_below(x, n as int);
        }
        let mut latchs: Vec<AigLatch> = Vec::new();
        let mut k: usize = 0;
        while k < nl
            invariant
                self.wf(),
                nl == self.latchs.len(),
                ni == self.inputs.len(),
                ni + nl + n < usize::MAX,
                n == self.nodes.len(),
                enc.len() == n,
                forall|x: int| 0 <= x < n ==> #[trigger] enc@[x] == code(*self, x),
                forall|x: int| 0 <= x < n ==> (#[trigger] enc@[x] as int) < nodes.len(),
                nodes.len() >= 1 + ni + nl,
                forall|p: int| 1 <= p < 1 + ni + nl ==> #[trigger] nodes@[p] == (AigNode { id: p as usize, typ: AigNodeType::Leaf }),
                k <= nl,
                latchs.len() == k,
                forall|p: int| 0 <= p < k ==> latch_ok(nodes@, #[trigger] latchs@[p]),
                forall|p: int| 0 <= p < k ==> #[trigger] latchs@[p] == (AigLatch {
                    input: (1 + ni + p) as usize,
                    next: code_edge(*self, self.latchs@[p].next),
                    init: match self.latchs@[p].init {
                        Some(e) => Some(code_edge(*self, e)),
                        None => None,
                    },
                }),
            decreases nl - k,
        {
            let l = self.latchs[k];
            assert(latch_ok(self.nodes@, l));
            let next = enc_edge(&enc, l.next);
            let init = match l.init {
                Some(e) => Some(enc_edge(&enc, e)),
                None => None,
            };
            latchs.push(AigLatch { input: ni + k + 1, next, init });
            assert(nodes@[1 + ni + k] == (AigNode { id: (1 + ni + k) as usize, typ: AigNodeType::Leaf }));
            k += 1;
        }
        let outputs = enc_edges(&enc, &self.outputs);
        let bads = enc_edges(&enc, &self.bads);
        let constraints = enc_edges(&enc, &self.constraints);
        let fairness = enc_edges(&enc, &self.fairness);
        let mut justice: Vec<Vec<AigEdge>> = Vec::new();
        let mut j: usize = 0;
        while j < self.justice.len()
            invariant
                self.wf(),
                n == self.nodes.len(),
                enc.len() == n,
                forall|x: int| 0 <= x < n ==> #[trigger] enc@[x] == code(*self, x),
                j <= self.justice.len(),
                justice.len() == j,
                forall|j2: int| 0 <= j2 < j ==> (#[trigger] justice@[j2]).len() == self.justice@[j2].len(),
                forall|j2: int, k2: int| 0 <= j2 < j && 0 <= k2 < justice@[j2].len() ==> #[trigger] justice@[j2]@[k2] == code_edge(*self, self.justice@[j2]@[k2]),
            decreases self.justice.len() - j,
        {
            assert(edges_in(self.justice@[j as int]@, n as int));
            let e = enc_edges(&enc, &self.justice[j]);
            proof {
                assert forall|k2: int| 0 <= k2 < e.len() implies #[trigger] e@[k2] == code_edge(*self, self.justice@[j as int]@[k2]) by {
                    assert(edge_in(self.justice@[j as int]@[k2], n as int));
                }
            }
            justice.push(e);
            j += 1;
        }
        let keep_all: Vec<bool> = vec![true; n];
        let symbols = rekey_symbols(&self.symbols, &enc, &keep_all);
        proof {
            assert forall|id: usize| #[trigger] symbol_names(self.symbols).contains_key(id) implies symbol_names(symbols).contains_key(code(*self, id as int) as usize)
                && symbol_names(symbols)[code(*self, id as int) as usize] == symbol_names(self.symbols)[id] by {
                assert(enc@[id as int] == code(*self, id as int));
                let x = enc@[id as int];
                let id2 = choose|id2: usize| #[trigger] symbol_names(self.symbols).contains_key(id2) && (id2 as int) < enc.len() && keep_all@[id2 as int] && enc@[id2 as int] == x
                    && symbol_names(symbols)[x] == symbol_names(self.symbols)[id2];
                if id2 != id {
                    lemma_code_injective(*self, id as int, id2 as int);
                }
            }
            assert forall|x: usize| #[trigger] symbol_names(symbols).contains_key(x) implies (x as int) < nodes.len() && exists|id: usize|
                #[trigger] symbol_names(self.symbols).contains_key(id) && code(*self, id as int) == x by {
                let id2 = choose|id2: usize| #[trigger] symbol_names(self.symbols).contains_key(id2) && (id2 as int) < enc.len() && keep_all@[id2 as int] && enc@[id2 as int] == x
                    && symbol_names(symbols)[x] == symbol_names(self.symbols)[id2];
            }
        }
        let len = nodes.len();
        assert(crate::aig::nodes_wf(nodes@));
        assert forall|k2: int| 0 <= k2 < inputs.len() implies is_leaf_at(nodes@, #[trigger] inputs@[k2]) by {
            assert(nodes@[1 + k2] == (AigNode { id: (1 + k2) as usize, typ: AigNodeType::Leaf }));
        }
        assert forall|x: int| 0 <= x < n implies code(*self, x) < len by {
            assert(enc@[x] == code(*self, x));
        }
        assert(edges_in(outputs@, len as int)) by {
            assert forall|k2: int| 0 <= k2 < outputs.len() implies edge_in(#[trigger] outputs@[k2], len as int) by {
                assert(edge_in(self.outputs@[k2], n as int));
            }
        }
        assert(edges_in(bads@, len as int)) by {
            assert forall|k2: int| 0 <= k2 < bads.len() implies edge_in(#[trigger] bads@[k2], len as int) by {
                assert(edge_in(self.bads@[k2], n as int));
            }
        }
        assert(edges_in(constraints@, len as int)) by {
            assert forall|k2: int| 0 <= k2 < constraints.len() implies edge_in(#[trigger] constraints@[k2], len as int) by {
                assert(edge_in(self.constraints@[k2], n as int));
            }
        }
        assert(edges_in(fairness@, len as int)) by {
            assert forall|k2: int| 0 <= k2 < fairness.len() implies edge_in(#[trigger] fairness@[k2], len as int) by {
                assert(edge_in(self.fairness@[k2], n as int));
            }
        }
        assert forall|j2: int| 0 <= j2 < justice.len() implies edges_in(#[trigger] justice@[j2]@, len as int) by {
            assert(edges_in(self.justice@[j2]@, n as int));
            assert forall|k2: int| 0 <= k2 < justice@[j2].len() implies edge_in(#[trigger] justice@[j2]@[k2], len as int) by {
                assert(edge_in(self.justice@[j2]@[k2], n as int));
            }
        }
        let r = Aig { nodes, inputs, latchs, outputs, bads, constraints, justice, fairness, symbols };
        proof {
            self.lemma_reencode_post(r);
        }
        r
    }

    /// Appends the AND nodes, renumbered, after the leaves.
    fn push_ands(&self, enc: &Vec<usize>, nodes: &mut Vec<AigNode>)
        requires
            self.wf(),
            roles_exact(*self),
            self.inputs.len() + self.latchs.len() + self.nodes.len() < usize::MAX,
            enc.len() == self.nodes.len(),
            forall|x: int| 0 <= x < self.nodes.len() ==> #[trigger] enc@[x] == code(*self, x),
            old(nodes).len() == 1 + self.inputs.len() + self.latchs.len(),
            old(nodes)@[0] == (AigNode { id: 0, typ: AigNodeType::False }),
            forall|p: int| 1 <= p < old(nodes).len() ==> #[trigger] old(nodes)@[p] == (AigNode { id: p as usize, typ: AigNodeType::Leaf }),
        ensures
            final(nodes).len() == 1 + self.inputs.len() + self.latchs.len() + ands_below(self.nodes@, self.nodes.len() as int),
            final(nodes)@[0] == (AigNode { id: 0, typ: AigNodeType::False }),
            forall|p: int| 1 <= p < 1 + self.inputs.len() + self.latchs.len() ==> #[trigger] final(nodes)@[p] == (AigNode { id: p as usize, typ: AigNodeType::Leaf }),
            forall|p: int| 0 <= p < final(nodes).len() ==> #[trigger] node_ok(final(nodes)@, p),
            forall|j: int| 0 <= j < self.nodes.len() && (#[trigger] self.nodes@[j]).typ is And ==> final(nodes)@[code(*self, j)] == coded_and(*self, j),
            forall|p: int| 1 + self.inputs.len() + self.latchs.len() <= p < final(nodes).len() ==> (#[trigger] final(nodes)@[p]).typ is And,
    {
        let n = self.nodes.len();
        let ni = self.inputs.len();
        let nl = self.latchs.len();
        assert forall|p: int| 0 <= p < nodes.len() implies #[trigger] node_ok(nodes@, p) by {}
        let mut i: usize = 0;
        while i < n
            invariant
                self.wf(),
                roles_exact(*self),
                ni == self.inputs.len(),
                nl == self.latchs.len(),
                n == self.nodes.len(),
                ni + nl + n < usize::MAX,
                enc.len() == n,
                forall|x: int| 0 <= x < n ==> #[trigger] enc@[x] == code(*self, x),
                i <= n,
                nodes.len() == 1 + ni + nl + ands_below(self.nodes@, i as int),
                ands_below(self.nodes@, i as int) <= i,
                nodes@[0] == (AigNode { id: 0, typ: AigNodeType::False }),
                forall|p: int| 1 <= p < 1 + ni + nl ==> #[trigger] nodes@[p] == (AigNode { id: p as usize, typ: AigNodeType::Leaf }),
                forall|p: int| 1 + ni + nl <= p < nodes.len() ==> (#[trigger] nodes@[p]).typ is And,
                forall|p: int| 0 <= p < nodes.len() ==> #[trigger] node_ok(nodes@, p),
                forall|j: int| 0 <= j < i && (#[trigger] self.nodes@[j]).typ is And ==> nodes@[code(*self, j)] == coded_and(*self, j),
            decreases n - i,
        {
            if self.nodes[i].is_and() {
                let f0 = self.nodes[i].fanin0();
                let f1 = self.nodes[i].fanin1();
                assert(node_ok(self.nodes@, i as int));
                let g0 = enc_edge(&enc, f0);
                let g1 = enc_edge(&enc, f1);
                proof {
                    self.lemma_code_below(f0.id as int, i as int);
                    self.lemma_code_below(f1.id as int, i as int);
                }
                let id = nodes.len();
                let ghost prev = nodes@;
                nodes.push(AigNode::new_and(id, g0, g1));
                assert(nodes@[code(*self, i as int)] == coded_and(*self, i as int));
                assert forall|p: int| 0 <= p < nodes.len() implies #[trigger] node_ok(nodes@, p) by {
                    if p < prev.len() {
                        assert(node_ok(prev, p));
                    }
                }
                assert forall|j: int| 0 <= j < i + 1 && (#[trigger] self.nodes@[j]).typ is And implies nodes@[code(*self, j)] == coded_and(*self, j) by {
                    if j < i {
                        lemma_ands_below_mono(self.nodes@, j, i as int);
                    }
                }
            }
            i += 1;
        }
    }

    /// The facts of `reencode_post` from those that `reencode` states.
    proof fn lemma_reencode_post(&self, r: Aig)
        requires
            self.wf(),
            roles_exact(*self),
            r.wf(),
            r.nodes.len() == 1 + self.inputs.len() + self.latchs.len() + ands_below(self.nodes@, self.nodes.len() as int),
            r.inputs.len() == self.inputs.len(),
            forall|k: int| 0 <= k < r.inputs.len() ==> #[trigger] r.inputs@[k] == 1 + k,
            r.latchs.len() == self.latchs.len(),
            forall|k: int| 0 <= k < r.latchs.len() ==> #[trigger] r.latchs@[k] == (AigLatch {
                input: (1 + self.inputs.len() + k) as usize,
                next: code_edge(*self, self.latchs@[k].next),
                init: match self.latchs@[k].init {
                    Some(e) => Some(code_edge(*self, e)),
                    None => None,
                },
            }),
            forall|i: int| 0 <= i < self.nodes.len() && (#[trigger] self.nodes@[i]).typ is And ==> r.nodes@[code(*self, i)] == coded_and(*self, i),
            forall|k: int| 1 <= k < 1 + self.inputs.len() + self.latchs.len() ==> (#[trigger] r.nodes@[k]).typ is Leaf,
            forall|p: int| 1 + self.inputs.len() + self.latchs.len() <= p < r.nodes.len() ==> (#[trigger] r.nodes@[p]).typ is And,
            forall|k: int| 0 <= k < r.outputs.len() ==> #[trigger] r.outputs@[k] == code_edge(*self, self.outputs@[k]),
            r.outputs.len() == self.outputs.len(),
            forall|k: int| 0 <= k < r.bads.len() ==> #[trigger] r.bads@[k] == code_edge(*self, self.bads@[k]),
            r.bads.len() == self.bads.len(),
            forall|k: int| 0 <= k < r.constraints.len() ==> #[trigger] r.constraints@[k] == code_edge(*self, self.constraints@[k]),
            r.constraints.len() == self.constraints.len(),
            forall|k: int| 0 <= k < r.fairness.len() ==> #[trigger] r.fairness@[k] == code_edge(*self, self.fairness@[k]),
            r.fairness.len() == self.fairness.len(),
            r.justice.len() == self.justice.len(),
            forall|j: int| 0 <= j < r.justice.len() ==> (#[trigger] r.justice@[j]).len() == self.justice@[j].len(),
            forall|j: int, k: int| 0 <= j < r.justice.len() && 0 <= k < r.justice@[j].len() ==> #[trigger] r.justice@[j]@[k] == code_edge(*self, self.justice@[j]@[k]),
            forall|x: usize| #[trigger] symbol_names(r.symbols).contains_key(x) ==> (x as int) < r.nodes.len(),
            forall|id: usize| #[trigger] symbol_names(self.symbols).contains_key(id) ==> (id as int) < self.nodes.len(),
            forall|id: usize| #[trigger] symbol_names(self.symbols).contains_key(id) ==> symbol_names(r.symbols).contains_key(code(*self, id as int) as usize)
                && symbol_names(r.symbols)[code(*self, id as int) as usize] == symbol_names(self.symbols)[id],
            forall|x: usize| #[trigger] symbol_names(r.symbols).contains_key(x) ==> exists|id: usize|
                #[trigger] symbol_names(self.symbols).contains_key(id) && code(*self, id as int) == x,
        ensures
            reencode_post(*self, r),
    {
        let ni = self.inputs.len() as int;
        let nl = self.latchs.len() as int;
        assert forall|i: int| 0 <= i < r.nodes.len() implies ((#[trigger] r.nodes@[i]).typ is And <==> i >= 1 + ni + nl) by {
            assert(node_ok(r.nodes@, i));
        }
        assert(encoded(r));
        assert forall|i: int| 0 <= i < r.nodes.len() && (#[trigger] r.nodes@[i]).typ is Leaf implies (exists|k: int|
            0 <= k < r.inputs.len() && r.inputs@[k] == i) || (exists|k: int| 0 <= k < r.latchs.len() && r.latchs@[k].input == i) by {
            assert(node_ok(r.nodes@, i));
            if i <= ni {
                assert(r.inputs@[i - 1] == i);
            } else {
                assert(r.latchs@[i - 1 - ni].input == i);
            }
        }
        assert(roles_exact(r));
        if encoded(*self) {
            assert forall|i: int| 0 <= i < self.nodes.len() implies #[trigger] code(*self, i) == i by {
                lemma_code_identity(*self, i);
            }
            lemma_ands_below_encoded(*self, self.nodes.len() as int);
            assert forall|e: AigEdge| (e.id as int) < self.nodes.len() implies #[trigger] code_edge(*self, e) == e by {
                assert(code(*self, e.id as int) == e.id);
            }
            assert forall|i: int| 0 <= i < self.nodes.len() implies r.nodes@[i] == self.nodes@[i] by {
                assert(node_ok(self.nodes@, i));
                assert(node_ok(r.nodes@, i));
                assert(code(*self, i) == i);
                if self.nodes@[i].typ is And {
                    let f0 = self.nodes@[i].typ->And_0;
                    let f1 = self.nodes@[i].typ->And_1;
                    assert(code_edge(*self, f0) == f0);
                    assert(code_edge(*self, f1) == f1);
                }
            }
            assert(r.nodes@ =~= self.nodes@);
            assert(r.inputs@ =~= self.inputs@);
            assert forall|k: int| 0 <= k < self.latchs.len() implies r.latchs@[k] == self.latchs@[k] by {
                assert(latch_ok(self.nodes@, self.latchs@[k]));
                assert(code_edge(*self, self.latchs@[k].next) == self.latchs@[k].next);
                if self.latchs@[k].init is Some {
                    assert(code_edge(*self, self.latchs@[k].init->0) == self.latchs@[k].init->0);
                }
            }
            assert(r.latchs@ =~= self.latchs@);
            assert forall|k: int| 0 <= k < self.outputs.len() implies r.outputs@[k] == self.outputs@[k] by {
                assert(edge_in(self.outputs@[k], self.nodes.len() as int));
            }
            assert(r.outputs@ =~= self.outputs@);
            assert forall|k: int| 0 <= k < self.bads.len() implies r.bads@[k] == self.bads@[k] by {
                assert(edge_in(self.bads@[k], self.nodes.len() as int));
            }
            assert(r.bads@ =~= self.bads@);
            assert forall|k: int| 0 <= k < self.constraints.len() implies r.constraints@[k] == self.constraints@[k] by {
                assert(edge_in(self.constraints@[k], self.nodes.len() as int));
            }
            assert(r.constraints@ =~= self.constraints@);
            assert forall|k: int| 0 <= k < self.fairness.len() implies r.fairness@[k] == self.fairness@[k] by {
                assert(edge_in(self.fairness@[k], self.nodes.len() as int));
            }
            assert(r.fairness@ =~= self.fairness@);
            assert(symbol_names(r.symbols) =~= symbol_names(self.symbols)) by {
                assert forall|x: usize| #[trigger] symbol_names(r.symbols).contains_key(x) implies symbol_names(self.symbols).contains_key(x) by {
                    let id = choose|id: usize| #[trigger] symbol_names(self.symbols).contains_key(id) && code(*self, id as int) == x;
                    assert(code(*self, id as int) == id);
                }
                assert forall|x: usize| #[trigger] symbol_names(self.symbols).contains_key(x) implies symbol_names(r.symbols).contains_key(x)
                    && symbol_names(r.symbols)[x] == symbol_names(self.symbols)[x] by {
                    assert(code(*self, x as int) == x);
                }
            }
            assert forall|j: int| 0 <= j < self.justice.len() implies r.justice@[j]@ =~= self.justice@[j]@ by {
                assert(edges_in(self.justice@[j]@, self.nodes.len() as int));
                assert forall|k: int| 0 <= k < self.justice@[j].len() implies r.justice@[j]@[k] == self.justice@[j]@[k] by {
                    assert(edge_in(self.justice@[j]@[k], self.nodes.len() as int));
                }
            }
        }
    }

    /// A fanin below `i` gets a new id below that of the AND node `i`.
    proof fn lemma_code_below(&self, x: int, i: int)
        requires
            self.wf(),
            roles_exact(*self),
            0 <= x < i <= self.nodes.len(),
        ensures
            0 <= code(*self, x) < 1 + self.inputs.len() + self.latchs.len() + ands_below(self.nodes@, i),
    {
        lemma_ands_below_mono(self.nodes@, x, i);
    }
}

} // verus!
