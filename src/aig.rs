//! The graph container, its structural invariant and its Boolean semantics.
use crate::edge::{neg, AigEdge};
use crate::node::{canon, AigLatch, AigNode, AigNodeType};
use crate::symbols::{symbol_names, symbols_new, SymbolMap};
use vstd::prelude::*;

verus! {

/// A sequential circuit: the node arena (indexed by id) and its role lists.
#[derive(Debug)]
pub struct Aig {
    pub nodes: Vec<AigNode>,
    pub inputs: Vec<usize>,
    pub latchs: Vec<AigLatch>,
    pub outputs: Vec<AigEdge>,
    pub bads: Vec<AigEdge>,
    pub constraints: Vec<AigEdge>,
    pub justice: Vec<Vec<AigEdge>>,
    pub fairness: Vec<AigEdge>,
    pub symbols: SymbolMap,
}

/// The constant-true edge.
pub open spec fn true_edge() -> AigEdge {
    AigEdge { id: 0, complement: true }
}

/// The constant-false edge.
pub open spec fn false_edge() -> AigEdge {
    AigEdge { id: 0, complement: false }
}

/// Node `i` carries its own id, the constant sits at id 0 only, and an AND
/// node has ordered fanins with smaller ids.
pub open spec fn node_ok(nodes: Seq<AigNode>, i: int) -> bool {
    &&& nodes[i].id == i
    &&& match nodes[i].typ {
        AigNodeType::False => i == 0,
        AigNodeType::Leaf => i != 0,
        AigNodeType::And(f0, f1) => f0.id <= f1.id && (f1.id as int) < i,
    }
}

pub open spec fn nodes_wf(nodes: Seq<AigNode>) -> bool {
    &&& nodes.len() >= 1
    &&& nodes[0].typ is False
    &&& forall|i: int| 0 <= i < nodes.len() ==> #[trigger] node_ok(nodes, i)
}

pub open spec fn edge_in(e: AigEdge, n: int) -> bool {
    (e.id as int) < n
}

pub open spec fn edges_in(es: Seq<AigEdge>, n: int) -> bool {
    forall|k: int| 0 <= k < es.len() ==> edge_in(#[trigger] es[k], n)
}

pub open spec fn is_leaf_at(nodes: Seq<AigNode>, id: usize) -> bool {
    &&& (id as int) < nodes.len()
    &&& nodes[id as int].typ is Leaf
}

pub open spec fn latch_ok(nodes: Seq<AigNode>, l: AigLatch) -> bool {
    &&& is_leaf_at(nodes, l.input)
    &&& edge_in(l.next, nodes.len() as int)
    &&& (l.init is Some ==> edge_in(l.init->0, nodes.len() as int))
}

/// Two lists of justice sets hold the same edges.
pub open spec fn same_sets(a: Seq<Vec<AigEdge>>, b: Seq<Vec<AigEdge>>) -> bool {
    &&& a.len() == b.len()
    &&& forall|k: int| 0 <= k < a.len() ==> #[trigger] a[k]@ == b[k]@
}

/// The value of node `i` when each leaf `j` takes `vals[j]`.
pub open spec fn node_val(nodes: Seq<AigNode>, vals: Seq<bool>, i: nat) -> bool
    decreases i,
{
    if i < nodes.len() {
        match nodes[i as int].typ {
            AigNodeType::False => false,
            AigNodeType::Leaf => vals[i as int],
            AigNodeType::And(f0, f1) => if (f0.id as nat) < i && (f1.id as nat) < i {
                (node_val(nodes, vals, f0.id as nat) != f0.complement) && (node_val(
                    nodes,
                    vals,
                    f1.id as nat,
                ) != f1.complement)
            } else {
                false
            },
        }
    } else {
        false
    }
}

/// The value of an edge: its node's value, inverted when complemented.
pub open spec fn edge_val(nodes: Seq<AigNode>, vals: Seq<bool>, e: AigEdge) -> bool {
    node_val(nodes, vals, e.id as nat) != e.complement
}

/// All edges of `es` are true.
pub open spec fn all_true(nodes: Seq<AigNode>, vals: Seq<bool>, es: Seq<AigEdge>) -> bool
    decreases es.len(),
{
    if es.len() == 0 {
        true
    } else {
        all_true(nodes, vals, es.drop_last()) && edge_val(nodes, vals, es.last())
    }
}

/// Some edge of `es` is true.
pub open spec fn any_true(nodes: Seq<AigNode>, vals: Seq<bool>, es: Seq<AigEdge>) -> bool
    decreases es.len(),
{
    if es.len() == 0 {
        false
    } else {
        any_true(nodes, vals, es.drop_last()) || edge_val(nodes, vals, es.last())
    }
}

/// What `new_and_node` returns without allocating, if anything: the folds of
/// constants, of equal and of complementary fanins.
pub open spec fn fold_and(a: AigEdge, b: AigEdge) -> Option<AigEdge> {
    let (x, y) = canon(a, b);
    if x == true_edge() {
        Some(y)
    } else if x == false_edge() {
        Some(false_edge())
    } else if y == true_edge() {
        Some(x)
    } else if y == false_edge() {
        Some(false_edge())
    } else if x == y {
        Some(x)
    } else if x == neg(y) {
        Some(false_edge())
    } else {
        None
    }
}

/// Evaluation only looks at the nodes below the one evaluated: a longer
/// arena with the same prefix gives the same values there.
pub proof fn lemma_node_val_prefix(s1: Seq<AigNode>, s2: Seq<AigNode>, vals: Seq<bool>, i: nat)
    requires
        s1.is_prefix_of(s2),
        i < s1.len(),
    ensures
        node_val(s2, vals, i) == node_val(s1, vals, i),
    decreases i,
{
    assert(s2[i as int] == s1[i as int]);
    match s1[i as int].typ {
        AigNodeType::And(f0, f1) => {
            if (f0.id as nat) < i && (f1.id as nat) < i {
                lemma_node_val_prefix(s1, s2, vals, f0.id as nat);
                lemma_node_val_prefix(s1, s2, vals, f1.id as nat);
            }
        },
        _ => {},
    }
}

pub proof fn lemma_edge_val_prefix(s1: Seq<AigNode>, s2: Seq<AigNode>, e: AigEdge)
    requires
        s1.is_prefix_of(s2),
        (e.id as int) < s1.len(),
    ensures
        forall|vals: Seq<bool>| edge_val(s2, vals, e) == edge_val(s1, vals, e),
{
    assert forall|vals: Seq<bool>| edge_val(s2, vals, e) == edge_val(s1, vals, e) by {
        lemma_node_val_prefix(s1, s2, vals, e.id as nat);
    }
}

/// Canonical fanin ordering: in a well-formed graph the first fanin of every
/// AND node is on a node id no greater than that of the second, and both are
/// below the node's own id.
pub proof fn lemma_canonical_fanins(a: Aig)
    requires
        a.wf(),
    ensures
        forall|i: int| 0 <= i < a.nodes.len() && (#[trigger] a.nodes@[i]).typ is And ==> a.nodes@[i].typ->And_0.id
            <= a.nodes@[i].typ->And_1.id && (a.nodes@[i].typ->And_1.id as int) < i,
{
    assert forall|i: int| 0 <= i < a.nodes.len() && (#[trigger] a.nodes@[i]).typ is And implies a.nodes@[i].typ->And_0.id
        <= a.nodes@[i].typ->And_1.id && (a.nodes@[i].typ->And_1.id as int) < i by {
        assert(node_ok(a.nodes@, i));
    }
}

/// `a` and `b` have the same arena, role lists and names.
pub open spec fn same_graph(a: Aig, b: Aig) -> bool {
    &&& b.nodes@ == a.nodes@
    &&& b.inputs@ == a.inputs@
    &&& b.latchs@ == a.latchs@
    &&& b.outputs@ == a.outputs@
    &&& b.bads@ == a.bads@
    &&& b.constraints@ == a.constraints@
    &&& b.fairness@ == a.fairness@
    &&& same_sets(b.justice@, a.justice@)
    &&& symbol_names(b.symbols) == symbol_names(a.symbols)
}

/// Node values only depend on the leaf values at or below the node.
pub proof fn lemma_node_val_local(nodes: Seq<AigNode>, b1: Seq<bool>, b2: Seq<bool>, i: nat)
    requires
        forall|j: int| 0 <= j <= i && j < nodes.len() ==> b1[j] == b2[j],
    ensures
        node_val(nodes, b1, i) == node_val(nodes, b2, i),
    decreases i,
{
    if i < nodes.len() {
        match nodes[i as int].typ {
            AigNodeType::And(f0, f1) => {
                if (f0.id as nat) < i && (f1.id as nat) < i {
                    lemma_node_val_local(nodes, b1, b2, f0.id as nat);
                    lemma_node_val_local(nodes, b1, b2, f1.id as nat);
                }
            },
            _ => {},
        }
    }
}

/// Copies a vector of plain values.
pub(crate) fn copy_vec<T: Copy>(v: &Vec<T>) -> (r: Vec<T>)
    ensures
        r@ == v@,
{
    let mut r: Vec<T> = Vec::new();
    let mut i: usize = 0;
    while i < v.len()
        invariant
            i <= v.len(),
            r@ == v@.take(i as int),
        decreases v.len() - i,
    {
        r.push(v[i]);
        i += 1;
        assert(r@ =~= v@.take(i as int));
    }
    assert(r@ =~= v@);
    r
}

/// Copies the justice sets.
pub(crate) fn copy_sets(v: &Vec<Vec<AigEdge>>) -> (r: Vec<Vec<AigEdge>>)
    ensures
        same_sets(r@, v@),
{
    let mut r: Vec<Vec<AigEdge>> = Vec::new();
    let mut i: usize = 0;
    while i < v.len()
        invariant
            i <= v.len(),
            same_sets(r@, v@.take(i as int)),
        decreases v.len() - i,
    {
        let j = copy_vec(&v[i]);
        r.push(j);
        i += 1;
    }
    r
}

impl Aig {
    /// The structural invariant.
    pub open spec fn wf(&self) -> bool {
        let n = self.nodes.len() as int;
        &&& nodes_wf(self.nodes@)
        &&& forall|k: int| 0 <= k < self.inputs.len() ==> is_leaf_at(self.nodes@, #[trigger] self.inputs[k])
        &&& forall|k: int| 0 <= k < self.latchs.len() ==> latch_ok(self.nodes@, #[trigger] self.latchs[k])
        &&& edges_in(self.outputs@, n)
        &&& edges_in(self.bads@, n)
        &&& edges_in(self.constraints@, n)
        &&& edges_in(self.fairness@, n)
        &&& forall|j: int| 0 <= j < self.justice.len() ==> edges_in(#[trigger] self.justice[j]@, n)
    }

    /// Everything but the arena is the same in `self` and `o`.
    pub open spec fn same_roles(&self, o: &Aig) -> bool {
        &&& self.inputs@ == o.inputs@
        &&& self.latchs@ == o.latchs@
        &&& self.outputs@ == o.outputs@
        &&& self.bads@ == o.bads@
        &&& self.constraints@ == o.constraints@
        &&& same_sets(self.justice@, o.justice@)
        &&& self.fairness@ == o.fairness@
        &&& symbol_names(self.symbols) == symbol_names(o.symbols)
    }

    /// An empty graph: the constant node alone.
    pub fn new() -> (r: Self)
        ensures
            r.wf(),
            r.nodes@ == seq![AigNode { id: 0, typ: AigNodeType::False }],
            r.inputs@.len() == 0,
            r.latchs@.len() == 0,
            r.outputs@.len() == 0,
            r.bads@.len() == 0,
            r.constraints@.len() == 0,
            r.justice@.len() == 0,
            r.fairness@.len() == 0,
            symbol_names(r.symbols) =~= Map::empty(),
    {
        let r = Aig {
            nodes: vec![AigNode { id: 0, typ: AigNodeType::False }],
            inputs: Vec::new(),
            latchs: Vec::new(),
            outputs: Vec::new(),
            bads: Vec::new(),
            constraints: Vec::new(),
            justice: Vec::new(),
            fairness: Vec::new(),
            symbols: symbols_new(),
        };
        assert(node_ok(r.nodes@, 0));
        r
    }

    /// Appends a leaf node and returns its id.
    pub fn new_leaf_node(&mut self) -> (r: usize)
        requires
            old(self).wf(),
        ensures
            final(self).wf(),
            r == old(self).nodes.len(),
            final(self).nodes@ == old(self).nodes@.push(AigNode { id: r, typ: AigNodeType::Leaf }),
            final(self).same_roles(old(self)),
    {
        let id = self.nodes.len();
        self.nodes.push(AigNode { id, typ: AigNodeType::Leaf });
        assert(node_ok(self.nodes@, id as int));
        assert forall|i: int| 0 <= i < self.nodes.len() implies #[trigger] node_ok(self.nodes@, i) by {
            if i < id {
                assert(node_ok(old(self).nodes@, i));
            }
        }
        id
    }

    /// Appends a primary input and returns its id.
    pub fn new_input(&mut self) -> (r: usize)
        requires
            old(self).wf(),
        ensures
            final(self).wf(),
            r == old(self).nodes.len(),
            final(self).nodes@ == old(self).nodes@.push(AigNode { id: r, typ: AigNodeType::Leaf }),
            final(self).inputs@ == old(self).inputs@.push(r),
            final(self).latchs@ == old(self).latchs@,
            final(self).outputs@ == old(self).outputs@,
            final(self).bads@ == old(self).bads@,
            final(self).constraints@ == old(self).constraints@,
            same_sets(final(self).justice@, old(self).justice@),
            final(self).fairness@ == old(self).fairness@,
            symbol_names(final(self).symbols) == symbol_names(old(self).symbols),
    {
        let input = self.new_leaf_node();
        self.inputs.push(input);
        input
    }

    /// Registers an existing leaf as a primary input.
    pub fn add_input(&mut self, input: usize)
        requires
            old(self).wf(),
            is_leaf_at(old(self).nodes@, input),
        ensures
            final(self).wf(),
            final(self).nodes@ == old(self).nodes@,
            final(self).inputs@ == old(self).inputs@.push(input),
            final(self).latchs@ == old(self).latchs@,
            final(self).outputs@ == old(self).outputs@,
            final(self).bads@ == old(self).bads@,
            final(self).constraints@ == old(self).constraints@,
            same_sets(final(self).justice@, old(self).justice@),
            final(self).fairness@ == old(self).fairness@,
            symbol_names(final(self).symbols) == symbol_names(old(self).symbols),
    {
        self.inputs.push(input);
    }

    /// Appends a latch with a fresh leaf and returns the leaf's id. `next`
    /// and `init` may refer to the new leaf itself.
    pub fn new_latch(&mut self, next: AigEdge, init: Option<AigEdge>) -> (r: usize)
        requires
            old(self).wf(),
            next.id <= old(self).nodes.len(),
            init is Some ==> init->0.id <= old(self).nodes.len(),
        ensures
            final(self).wf(),
            r == old(self).nodes.len(),
            final(self).nodes@ == old(self).nodes@.push(AigNode { id: r, typ: AigNodeType::Leaf }),
            final(self).inputs@ == old(self).inputs@,
            final(self).latchs@ == old(self).latchs@.push(AigLatch { input: r, next, init }),
            final(self).outputs@ == old(self).outputs@,
            final(self).bads@ == old(self).bads@,
            final(self).constraints@ == old(self).constraints@,
            same_sets(final(self).justice@, old(self).justice@),
            final(self).fairness@ == old(self).fairness@,
            symbol_names(final(self).symbols) == symbol_names(old(self).symbols),
    {
        let input = self.new_leaf_node();
        self.latchs.push(AigLatch::new(input, next, init));
        input
    }

    /// Registers an existing leaf as a latch.
    pub fn add_latch(&mut self, input: usize, next: AigEdge, init: Option<AigEdge>)
        requires
            old(self).wf(),
            latch_ok(old(self).nodes@, AigLatch { input, next, init }),
        ensures
            final(self).wf(),
            final(self).nodes@ == old(self).nodes@,
            final(self).inputs@ == old(self).inputs@,
            final(self).latchs@ == old(self).latchs@.push(AigLatch { input, next, init }),
            final(self).outputs@ == old(self).outputs@,
            final(self).bads@ == old(self).bads@,
            final(self).constraints@ == old(self).constraints@,
            same_sets(final(self).justice@, old(self).justice@),
            final(self).fairness@ == old(self).fairness@,
            symbol_names(final(self).symbols) == symbol_names(old(self).symbols),
    {
        self.latchs.push(AigLatch::new(input, next, init));
    }

    /// Appends an AND node of the two fanins, without folding, and returns
    /// its positive edge.
    pub fn trivial_new_and_node(&mut self, fanin0: AigEdge, fanin1: AigEdge) -> (r: AigEdge)
        requires
            old(self).wf(),
            edge_in(fanin0, old(self).nodes.len() as int),
            edge_in(fanin1, old(self).nodes.len() as int),
        ensures
            final(self).wf(),
            r == (AigEdge { id: old(self).nodes.len() as usize, complement: false }),
            final(self).nodes@ == old(self).nodes@.push(
                AigNode {
                    id: r.id,
                    typ: AigNodeType::And(canon(fanin0, fanin1).0, canon(fanin0, fanin1).1),
                },
            ),
            final(self).same_roles(old(self)),
            forall|vals: Seq<bool>|
                #![trigger edge_val(final(self).nodes@, vals, r)]
                edge_val(final(self).nodes@, vals, r) == (edge_val(final(self).nodes@, vals, fanin0)
                    && edge_val(final(self).nodes@, vals, fanin1)),
    {
        let nodeid = self.nodes.len();
        let and = AigNode::new_and(nodeid, fanin0, fanin1);
        self.nodes.push(and);
        assert(node_ok(self.nodes@, nodeid as int));
        assert forall|i: int| 0 <= i < self.nodes.len() implies #[trigger] node_ok(self.nodes@, i) by {
            if i < nodeid {
                assert(node_ok(old(self).nodes@, i));
            }
        }
        let r = AigEdge { id: nodeid, complement: false };
        assert forall|vals: Seq<bool>|
            #![trigger edge_val(self.nodes@, vals, r)]
            edge_val(self.nodes@, vals, r) == (edge_val(self.nodes@, vals, fanin0) && edge_val(
                self.nodes@,
                vals,
                fanin1,
            )) by {
            assert(node_val(self.nodes@, vals, nodeid as nat) == (edge_val(self.nodes@, vals, canon(fanin0, fanin1).0)
                && edge_val(self.nodes@, vals, canon(fanin0, fanin1).1)));
        }
        r
    }
}

} // verus!
