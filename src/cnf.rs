//! Tseitin encoding of a graph into clauses over its node ids, with compact
//! encodings of XOR and if-then-else subgraphs.
use crate::aig::{edge_in, edge_val, edges_in, latch_ok, node_ok, node_val, Aig};
use crate::edge::{neg, AigEdge};
use crate::logic_form::{AigClause, AigCnf};
use crate::node::AigNode;
use vstd::prelude::*;

verus! {

/// Node `n` is `AND(!x, !y)` with `x` and `y` AND nodes.
pub open spec fn nand_pair(nodes: Seq<AigNode>, n: int) -> bool {
    &&& 0 <= n < nodes.len()
    &&& nodes[n].typ is And
    &&& nodes[n].typ->And_0.complement
    &&& nodes[n].typ->And_1.complement
    &&& (nodes[n].typ->And_0.id as int) < nodes.len()
    &&& (nodes[n].typ->And_1.id as int) < nodes.len()
    &&& nodes[nodes[n].typ->And_0.id as int].typ is And
    &&& nodes[nodes[n].typ->And_1.id as int].typ is And
}

/// The fanins of the two children of a `nand_pair` node.
pub open spec fn gf00(nodes: Seq<AigNode>, n: int) -> AigEdge {
    nodes[nodes[n].typ->And_0.id as int].typ->And_0
}

pub open spec fn gf01(nodes: Seq<AigNode>, n: int) -> AigEdge {
    nodes[nodes[n].typ->And_0.id as int].typ->And_1
}

pub open spec fn gf10(nodes: Seq<AigNode>, n: int) -> AigEdge {
    nodes[nodes[n].typ->And_1.id as int].typ->And_0
}

pub open spec fn gf11(nodes: Seq<AigNode>, n: int) -> AigEdge {
    nodes[nodes[n].typ->And_1.id as int].typ->And_1
}

/// The XOR that node `n` encodes, if it does: `n = AND(!AND(a, b),
/// !AND(!a, !b))` with `a` and `b` on distinct nodes gives `(a, b)`.
pub open spec fn xor_of(nodes: Seq<AigNode>, n: int) -> Option<(AigEdge, AigEdge)> {
    if nand_pair(nodes, n) && gf00(nodes, n) == neg(gf10(nodes, n)) && gf01(nodes, n) == neg(gf11(nodes, n))
        && gf00(nodes, n).id != gf01(nodes, n).id {
        Some((gf00(nodes, n), gf01(nodes, n)))
    } else {
        None
    }
}

/// The if-then-else that node `n` encodes, if it does: one fanin of the
/// first child is the complement of one fanin of the second; it is the
/// condition, and the negations of the two other fanins are the branches,
/// all on distinct nodes. The first matching pair, in the order `00/10`,
/// `00/11`, `01/10`, `01/11`, decides.
pub open spec fn ite_of(nodes: Seq<AigNode>, n: int) -> Option<(AigEdge, AigEdge, AigEdge)> {
    if !nand_pair(nodes, n) {
        None
    } else {
        let (a, b, c, d) = (gf00(nodes, n), gf01(nodes, n), gf10(nodes, n), gf11(nodes, n));
        let m: Option<(AigEdge, AigEdge, AigEdge)> = if a == neg(c) {
            Some((a, neg(b), neg(d)))
        } else if a == neg(d) {
            Some((a, neg(b), neg(c)))
        } else if b == neg(c) {
            Some((b, neg(a), neg(d)))
        } else if b == neg(d) {
            Some((b, neg(a), neg(c)))
        } else {
            None
        };
        match m {
            Some((i, t, e)) => if i.id != t.id && i.id != e.id && t.id != e.id {
                m
            } else {
                None
            },
            None => None,
        }
    }
}

/// A clause holds when one of its edges does.
pub open spec fn clause_holds(nodes: Seq<AigNode>, vals: Seq<bool>, c: Seq<AigEdge>) -> bool {
    exists|k: int| 0 <= k < c.len() && edge_val(nodes, vals, #[trigger] c[k])
}

/// A clause holds under an assignment of a value to each node id.
pub open spec fn clause_sat(v: Seq<bool>, c: Seq<AigEdge>) -> bool {
    exists|k: int| 0 <= k < c.len() && (v[c[k].id as int] != (#[trigger] c[k]).complement)
}

/// Each clause holds when every node takes the value that the circuit gives
/// it.
pub open spec fn sound(nodes: Seq<AigNode>, cnf: Seq<AigClause>) -> bool {
    forall|vals: Seq<bool>, k: int| 0 <= k < cnf.len() ==> #[trigger] clause_holds(nodes, vals, cnf[k].lits@)
}

/// The positive edge of node `n`.
pub open spec fn pos(n: int) -> AigEdge {
    AigEdge { id: n as usize, complement: false }
}

/// The three clauses of `n <-> f0 & f1`.
pub open spec fn and_clauses(n: int, f0: AigEdge, f1: AigEdge) -> Seq<Seq<AigEdge>> {
    seq![seq![neg(pos(n)), f0], seq![neg(pos(n)), f1], seq![pos(n), neg(f0), neg(f1)]]
}

/// The clause `c` is in `cnf`.
pub open spec fn in_cnf(cnf: Seq<AigClause>, c: Seq<AigEdge>) -> bool {
    exists|k: int| 0 <= k < cnf.len() && cnf[k].lits@ == c
}

/// All clauses of `cls` are in `cnf`.
pub open spec fn has_all(cnf: Seq<AigClause>, cls: Seq<Seq<AigEdge>>) -> bool {
    forall|q: int| 0 <= q < cls.len() ==> #[trigger] in_cnf(cnf, cls[q])
}

/// The AND node `i` has its three clauses in `cnf`.
pub open spec fn has_and(nodes: Seq<AigNode>, cnf: Seq<AigClause>, i: int) -> bool {
    &&& nodes[i].typ is And
    &&& has_all(cnf, and_clauses(i, nodes[i].typ->And_0, nodes[i].typ->And_1))
}

/// The four clauses of `n <-> x ^ y`.
pub open spec fn xor_clauses(n: int, x: AigEdge, y: AigEdge) -> Seq<Seq<AigEdge>> {
    seq![seq![neg(x), y, pos(n)], seq![x, neg(y), pos(n)], seq![x, y, neg(pos(n))], seq![neg(x), neg(y), neg(pos(n))]]
}

/// The four clauses of `n <-> (c ? t : e)`.
pub open spec fn ite_clauses(n: int, c: AigEdge, t: AigEdge, e: AigEdge) -> Seq<Seq<AigEdge>> {
    seq![seq![t, neg(c), neg(pos(n))], seq![neg(t), neg(c), pos(n)], seq![e, c, neg(pos(n))], seq![neg(e), c, pos(n)]]
}

/// The edges that the encoding of node `i` is over: the XOR or
/// if-then-else pattern's inputs when `optimize` finds one, else the fanins.
pub open spec fn def_inputs(nodes: Seq<AigNode>, i: int, optimize: bool) -> Seq<AigEdge> {
    if optimize && xor_of(nodes, i) is Some {
        seq![(xor_of(nodes, i)->0).0, (xor_of(nodes, i)->0).1]
    } else if optimize && ite_of(nodes, i) is Some {
        seq![(ite_of(nodes, i)->0).0, (ite_of(nodes, i)->0).1, (ite_of(nodes, i)->0).2]
    } else {
        seq![nodes[i].typ->And_0, nodes[i].typ->And_1]
    }
}

/// The clauses that encode node `i`.
pub open spec fn def_clauses(nodes: Seq<AigNode>, i: int, optimize: bool) -> Seq<Seq<AigEdge>> {
    if optimize && xor_of(nodes, i) is Some {
        xor_clauses(i, (xor_of(nodes, i)->0).0, (xor_of(nodes, i)->0).1)
    } else if optimize && ite_of(nodes, i) is Some {
        ite_clauses(i, (ite_of(nodes, i)->0).0, (ite_of(nodes, i)->0).1, (ite_of(nodes, i)->0).2)
    } else {
        and_clauses(i, nodes[i].typ->And_0, nodes[i].typ->And_1)
    }
}

/// Where the literal of node `i` sits in clause `q` of its encoding.
pub open spec fn owner_pos(nodes: Seq<AigNode>, i: int, optimize: bool, q: int) -> int {
    if optimize && (xor_of(nodes, i) is Some || ite_of(nodes, i) is Some) {
        2
    } else {
        0
    }
}

/// The AND node `i` has the clauses of its encoding in `cnf`.
pub open spec fn has_enc(nodes: Seq<AigNode>, cnf: Seq<AigClause>, i: int, optimize: bool) -> bool {
    &&& nodes[i].typ is And
    &&& has_all(cnf, def_clauses(nodes, i, optimize))
}

/// Clause `c` is one of the clauses that encode node `i`.
pub open spec fn enc_clause(nodes: Seq<AigNode>, c: Seq<AigEdge>, i: int, optimize: bool) -> bool {
    exists|q: int| 0 <= q < def_clauses(nodes, i, optimize).len() && #[trigger] def_clauses(nodes, i, optimize)[q] == c
}

/// Clause `c` encodes some flagged AND node at or above `lo`.
pub open spec fn from_enc(nodes: Seq<AigNode>, refs: Seq<bool>, lo: int, c: Seq<AigEdge>, optimize: bool) -> bool {
    exists|i: int| lo <= i < nodes.len() && refs[i] && nodes[i].typ is And && #[trigger] enc_clause(nodes, c, i, optimize)
}

/// Edge `q` of the encoding inputs of node `j` is on node `i`.
pub open spec fn enc_input(nodes: Seq<AigNode>, j: int, i: int, optimize: bool) -> bool {
    exists|q: int| 0 <= q < def_inputs(nodes, j, optimize).len() && #[trigger] def_inputs(nodes, j, optimize)[q].id as int == i
}

/// Node `i` is flagged for a reason: it is a root, or an input of the
/// encoding of a flagged AND node above it, at or above `lo`.
pub open spec fn ref_supported(a: Aig, refs: Seq<bool>, lo: int, i: int, optimize: bool) -> bool {
    ||| root_ref(a, i)
    ||| exists|j: int| i < j < a.nodes.len() && lo <= j && refs[j] && a.nodes@[j].typ is And && #[trigger] enc_input(a.nodes@, j, i, optimize)
}

/// Node `i` is encoded for a reason: it is a root, or an input of the
/// encoding of an encoded node above it. The encoded nodes thus lie in the
/// least set that holds the roots and the encoding inputs of its members.
pub open spec fn enc_supported(a: Aig, cnf: Seq<AigClause>, i: int, optimize: bool) -> bool {
    ||| root_ref(a, i)
    ||| exists|j: int| i < j < a.nodes.len() && has_enc(a.nodes@, cnf, j, optimize) && #[trigger] enc_input(a.nodes@, j, i, optimize)
}

/// The clauses of `cnf` from index `lo` on come node by node, from the
/// highest node id down.
pub open spec fn descending(nodes: Seq<AigNode>, cnf: Seq<AigClause>, lo: int, optimize: bool) -> bool {
    forall|k1: int, k2: int, i1: int, i2: int|
        lo <= k1 < k2 < cnf.len() && 0 < i1 < nodes.len() && 0 < i2 < nodes.len() && nodes[i1].typ is And && nodes[i2].typ is And
            && #[trigger] enc_clause(nodes, cnf[k1].lits@, i1, optimize) && #[trigger] enc_clause(nodes, cnf[k2].lits@, i2, optimize)
            ==> i1 >= i2
}

/// Clause `c` is the unit clause on node 0, or one of the clauses of the
/// encoding of an encoded node of `cnf`.
pub open spec fn clause_of_enc(nodes: Seq<AigNode>, cnf: Seq<AigClause>, c: Seq<AigEdge>, optimize: bool) -> bool {
    ||| c == unit_true()
    ||| exists|i: int| 0 < i < nodes.len() && has_enc(nodes, cnf, i, optimize) && #[trigger] enc_clause(nodes, c, i, optimize)
}

/// The unit clause that makes node 0 false: the constant-true edge.
pub open spec fn unit_true() -> Seq<AigEdge> {
    seq![AigEdge { id: 0, complement: true }]
}

/// Every AND node among the inputs of an encoded node is encoded too.
pub open spec fn enc_closed(nodes: Seq<AigNode>, cnf: Seq<AigClause>, optimize: bool) -> bool {
    forall|i: int, q: int|
        0 < i < nodes.len() && #[trigger] has_enc(nodes, cnf, i, optimize) && 0 <= q < def_inputs(nodes, i, optimize).len()
            && nodes[def_inputs(nodes, i, optimize)[q].id as int].typ is And
            ==> has_enc(nodes, cnf, #[trigger] def_inputs(nodes, i, optimize)[q].id as int, optimize)
}

/// Literal `p` of clause `c` is on a flagged node at or above `lo`, and
/// every other literal of `c` is on a smaller node.
pub open spec fn is_owner(c: Seq<AigEdge>, refs: Seq<bool>, lo: int, p: int) -> bool {
    &&& 0 <= p < c.len()
    &&& lo <= c[p].id < refs.len()
    &&& refs[c[p].id as int]
    &&& forall|p2: int| 0 <= p2 < c.len() && p2 != p ==> (#[trigger] c[p2].id as int) < c[p].id
}

pub open spec fn owned(c: Seq<AigEdge>, refs: Seq<bool>, lo: int) -> bool {
    exists|p: int| 0 <= p < c.len() && #[trigger] is_owner(c, refs, lo, p)
}

/// Node `i` is the node of a root edge: a latch's next-state edge, a
/// constraint, bad, output, justice or fairness edge.
pub open spec fn root_ref(a: Aig, i: int) -> bool {
    ||| (exists|k: int| 0 <= k < a.latchs.len() && a.latchs@[k].next.id == i)
    ||| (exists|k: int| 0 <= k < a.constraints.len() && a.constraints@[k].id == i)
    ||| (exists|k: int| 0 <= k < a.bads.len() && a.bads@[k].id == i)
    ||| (exists|k: int| 0 <= k < a.outputs.len() && a.outputs@[k].id == i)
    ||| (exists|j: int, k: int| 0 <= j < a.justice.len() && 0 <= k < a.justice@[j].len() && a.justice@[j]@[k].id == i)
    ||| (exists|k: int| 0 <= k < a.fairness.len() && a.fairness@[k].id == i)
}

/// The clauses of an AND node hold of the circuit's values.
proof fn lemma_and_sound(nodes: Seq<AigNode>, n: int)
    requires
        0 < n < nodes.len(),
        node_ok(nodes, n),
        nodes[n].typ is And,
    ensures
        forall|vals: Seq<bool>, q: int| 0 <= q < 3 ==> #[trigger] clause_holds(nodes, vals, and_clauses(n, nodes[n].typ->And_0, nodes[n].typ->And_1)[q]),
{
    let f0 = nodes[n].typ->And_0;
    let f1 = nodes[n].typ->And_1;
    assert forall|vals: Seq<bool>, q: int| 0 <= q < 3 implies #[trigger] clause_holds(nodes, vals, and_clauses(n, f0, f1)[q]) by {
        let c = and_clauses(n, f0, f1)[q];
        let vn = node_val(nodes, vals, n as nat);
        assert(vn == (edge_val(nodes, vals, f0) && edge_val(nodes, vals, f1)));
        if q == 0 {
            if vn { assert(edge_val(nodes, vals, c[1])); } else { assert(edge_val(nodes, vals, c[0])); }
        } else if q == 1 {
            if vn { assert(edge_val(nodes, vals, c[1])); } else { assert(edge_val(nodes, vals, c[0])); }
        } else {
            if vn { assert(edge_val(nodes, vals, c[0])); } else if !edge_val(nodes, vals, f0) { assert(edge_val(nodes, vals, c[1])); } else { assert(edge_val(nodes, vals, c[2])); }
        }
    }
}

/// The clauses of an XOR node hold of the circuit's values.
proof fn lemma_xor_sound(nodes: Seq<AigNode>, n: int)
    requires
        0 < n < nodes.len(),
        forall|i: int| 0 <= i < nodes.len() ==> #[trigger] node_ok(nodes, i),
        xor_of(nodes, n) is Some,
    ensures
        forall|vals: Seq<bool>, q: int| 0 <= q < 4 ==> #[trigger] clause_holds(nodes, vals, xor_clauses(n, (xor_of(nodes, n)->0).0, (xor_of(nodes, n)->0).1)[q]),
{
    let (x, y) = xor_of(nodes, n)->0;
    let f0 = nodes[n].typ->And_0;
    let f1 = nodes[n].typ->And_1;
    assert(node_ok(nodes, n));
    assert(node_ok(nodes, f0.id as int));
    assert(node_ok(nodes, f1.id as int));
    assert forall|vals: Seq<bool>, q: int| 0 <= q < 4 implies #[trigger] clause_holds(nodes, vals, xor_clauses(n, x, y)[q]) by {
        let c = xor_clauses(n, x, y)[q];
        let vn = node_val(nodes, vals, n as nat);
        let vx = edge_val(nodes, vals, x);
        let vy = edge_val(nodes, vals, y);
        assert(node_val(nodes, vals, f0.id as nat) == (vx && vy));
        assert(node_val(nodes, vals, f1.id as nat) == (!vx && !vy));
        assert(vn == (vx != vy));
        if edge_val(nodes, vals, c[0]) {
        } else if edge_val(nodes, vals, c[1]) {
            assert(edge_val(nodes, vals, c[1]));
        } else {
            assert(edge_val(nodes, vals, c[2]));
        }
    }
}

/// The clauses of an if-then-else node hold of the circuit's values.
proof fn lemma_ite_sound(nodes: Seq<AigNode>, n: int)
    requires
        0 < n < nodes.len(),
        forall|i: int| 0 <= i < nodes.len() ==> #[trigger] node_ok(nodes, i),
        ite_of(nodes, n) is Some,
    ensures
        forall|vals: Seq<bool>, q: int| 0 <= q < 4 ==> #[trigger] clause_holds(nodes, vals, ite_clauses(n, (ite_of(nodes, n)->0).0, (ite_of(nodes, n)->0).1, (ite_of(nodes, n)->0).2)[q]),
{
    let (c, t, e) = ite_of(nodes, n)->0;
    let f0 = nodes[n].typ->And_0;
    let f1 = nodes[n].typ->And_1;
    assert(node_ok(nodes, n));
    assert(node_ok(nodes, f0.id as int));
    assert(node_ok(nodes, f1.id as int));
    assert forall|vals: Seq<bool>, q: int| 0 <= q < 4 implies #[trigger] clause_holds(nodes, vals, ite_clauses(n, c, t, e)[q]) by {
        let cl = ite_clauses(n, c, t, e)[q];
        let vn = node_val(nodes, vals, n as nat);
        let v00 = edge_val(nodes, vals, gf00(nodes, n));
        let v01 = edge_val(nodes, vals, gf01(nodes, n));
        let v10 = edge_val(nodes, vals, gf10(nodes, n));
        let v11 = edge_val(nodes, vals, gf11(nodes, n));
        assert(nand_pair(nodes, n));
        assert(node_val(nodes, vals, f0.id as nat) == (v00 && v01));
        assert(node_val(nodes, vals, f1.id as nat) == (v10 && v11));
        assert(vn == (!(v00 && v01) && !(v10 && v11)));
        assert(vn == (if edge_val(nodes, vals, c) { edge_val(nodes, vals, t) } else { edge_val(nodes, vals, e) }));
        if edge_val(nodes, vals, cl[0]) {
        } else if edge_val(nodes, vals, cl[1]) {
            assert(edge_val(nodes, vals, cl[1]));
        } else {
            assert(edge_val(nodes, vals, cl[2]));
        }
    }
}

fn clause2(a: AigEdge, b: AigEdge) -> (r: AigClause)
    ensures
        r.lits@ == seq![a, b],
{
    let mut v: Vec<AigEdge> = Vec::new();
    v.push(a);
    v.push(b);
    AigClause { lits: v }
}

fn clause3(a: AigEdge, b: AigEdge, c: AigEdge) -> (r: AigClause)
    ensures
        r.lits@ == seq![a, b, c],
{
    let mut v: Vec<AigEdge> = Vec::new();
    v.push(a);
    v.push(b);
    v.push(c);
    AigClause { lits: v }
}

impl Aig {
    /// The XOR pattern at node `n`, as `xor_of` states it.
    pub fn is_xor(&self, n: usize) -> (r: Option<(AigEdge, AigEdge)>)
        requires
            self.wf(),
            (n as int) < self.nodes.len(),
        ensures
            r == xor_of(self.nodes@, n as int),
    {
        if !self.nodes[n].is_and() {
            return None;
        }
        assert(node_ok(self.nodes@, n as int));
        let (fanin0, fanin1) = self.nodes[n].fanin();
        if !fanin0.compl() || !fanin1.compl() || !self.nodes[fanin0.id].is_and() || !self.nodes[fanin1.id].is_and() {
            return None;
        }
        let (fanin00, fanin01) = self.nodes[fanin0.id].fanin();
        let (fanin10, fanin11) = self.nodes[fanin1.id].fanin();
        if fanin00 == fanin10.not() && fanin01 == fanin11.not() {
            if fanin00.id == fanin01.id {
                return None;
            }
            return Some((fanin00, fanin01));
        }
        None
    }

    /// The if-then-else pattern at node `n`, as `ite_of` states it.
    pub fn is_ite(&self, n: usize) -> (r: Option<(AigEdge, AigEdge, AigEdge)>)
        requires
            self.wf(),
            (n as int) < self.nodes.len(),
        ensures
            r == ite_of(self.nodes@, n as int),
    {
        if !self.nodes[n].is_and() {
            return None;
        }
        assert(node_ok(self.nodes@, n as int));
        let (fanin0, fanin1) = self.nodes[n].fanin();
        if !fanin0.compl() || !fanin1.compl() || !self.nodes[fanin0.id].is_and() || !self.nodes[fanin1.id].is_and() {
            return None;
        }
        let (fanin00, fanin01) = self.nodes[fanin0.id].fanin();
        let (fanin10, fanin11) = self.nodes[fanin1.id].fanin();
        let (i, t, e) = if fanin00 == fanin10.not() {
            (fanin00, fanin01.not(), fanin11.not())
        } else if fanin00 == fanin11.not() {
            (fanin00, fanin01.not(), fanin10.not())
        } else if fanin01 == fanin10.not() {
            (fanin01, fanin00.not(), fanin11.not())
        } else if fanin01 == fanin11.not() {
            (fanin01, fanin00.not(), fanin10.not())
        } else {
            return None;
        };
        if i.id == t.id || i.id == e.id || t.id == e.id {
            return None;
        }
        Some((i, t, e))
    }

    /// Flags the nodes of the root edges.
    fn get_root_refs(&self) -> (refs: Vec<bool>)
        requires
            self.wf(),
        ensures
            refs.len() == self.nodes.len(),
            forall|i: int| 0 <= i < self.nodes.len() && root_ref(*self, i) ==> #[trigger] refs@[i],
            forall|i: int| 0 <= i < self.nodes.len() && #[trigger] refs@[i] ==> root_ref(*self, i),
    {
        let n = self.nodes.len();
        let mut refs: Vec<bool> = vec![false; n];
        let mut k: usize = 0;
        while k < self.latchs.len()
            invariant
                self.wf(),
                n == self.nodes.len(),
                refs.len() == n,
                k <= self.latchs.len(),
                forall|k2: int| 0 <= k2 < k ==> refs@[#[trigger] self.latchs@[k2].next.id as int],
                forall|i: int| 0 <= i < n && #[trigger] refs@[i] ==> root_ref(*self, i),
            decreases self.latchs.len() - k,
        {
            assert(latch_ok(self.nodes@, self.latchs@[k as int]));
            refs.set(self.latchs[k].next.id, true);
            assert(self.latchs@[k as int].next.id == self.latchs[k as int].next.id);
            k += 1;
        }
        self.mark_root_edges(&mut refs, &self.constraints, 0);
        self.mark_root_edges(&mut refs, &self.bads, 1);
        self.mark_root_edges(&mut refs, &self.outputs, 2);
        let mut j: usize = 0;
        while j < self.justice.len()
            invariant
                self.wf(),
                n == self.nodes.len(),
                refs.len() == n,
                j <= self.justice.len(),
                forall|k2: int| 0 <= k2 < self.latchs.len() ==> refs@[#[trigger] self.latchs@[k2].next.id as int],
                forall|k2: int| 0 <= k2 < self.constraints.len() ==> refs@[#[trigger] self.constraints@[k2].id as int],
                forall|k2: int| 0 <= k2 < self.bads.len() ==> refs@[#[trigger] self.bads@[k2].id as int],
                forall|k2: int| 0 <= k2 < self.outputs.len() ==> refs@[#[trigger] self.outputs@[k2].id as int],
                forall|j2: int, k2: int| 0 <= j2 < j && 0 <= k2 < self.justice@[j2].len() ==> refs@[#[trigger] self.justice@[j2]@[k2].id as int],
                forall|i: int| 0 <= i < n && #[trigger] refs@[i] ==> root_ref(*self, i),
            decreases self.justice.len() - j,
        {
            assert(edges_in(self.justice@[j as int]@, n as int));
            let ghost pr = refs@;
            mark_edges(&mut refs, &self.justice[j]);
            assert forall|i: int| 0 <= i < n && #[trigger] refs@[i] implies root_ref(*self, i) by {
                if !pr[i] {
                    assert(edge_on(self.justice@[j as int]@, i));
                    let k = choose|k: int| 0 <= k < self.justice@[j as int]@.len() && #[trigger] self.justice@[j as int]@[k].id as int == i;
                    assert(0 <= j < self.justice.len() && 0 <= k < self.justice@[j as int].len() && self.justice@[j as int]@[k].id == i);
                }
            }
            j += 1;
        }
        self.mark_root_edges(&mut refs, &self.fairness, 3);
        assert forall|i: int| 0 <= i < n && root_ref(*self, i) implies #[trigger] refs@[i] by {
            if exists|j: int, k: int| 0 <= j < self.justice.len() && 0 <= k < self.justice@[j].len() && self.justice@[j]@[k].id == i {
                let (j, k) = choose|j: int, k: int| 0 <= j < self.justice.len() && 0 <= k < self.justice@[j].len() && self.justice@[j]@[k].id == i;
                assert(refs@[self.justice@[j]@[k].id as int]);
            } else if exists|k: int| 0 <= k < self.latchs.len() && self.latchs@[k].next.id == i {
                let k = choose|k: int| 0 <= k < self.latchs.len() && self.latchs@[k].next.id == i;
                assert(refs@[self.latchs@[k].next.id as int]);
            } else if exists|k: int| 0 <= k < self.constraints.len() && self.constraints@[k].id == i {
                let k = choose|k: int| 0 <= k < self.constraints.len() && self.constraints@[k].id == i;
                assert(refs@[self.constraints@[k].id as int]);
            } else if exists|k: int| 0 <= k < self.bads.len() && self.bads@[k].id == i {
                let k = choose|k: int| 0 <= k < self.bads.len() && self.bads@[k].id == i;
                assert(refs@[self.bads@[k].id as int]);
            } else if exists|k: int| 0 <= k < self.outputs.len() && self.outputs@[k].id == i {
                let k = choose|k: int| 0 <= k < self.outputs.len() && self.outputs@[k].id == i;
                assert(refs@[self.outputs@[k].id as int]);
            } else {
                let k = choose|k: int| 0 <= k < self.fairness.len() && self.fairness@[k].id == i;
                assert(refs@[self.fairness@[k].id as int]);
            }
        }
        refs
    }

    /// Flags the nodes of `es`, which is the list of constraints (`which`
    /// 0), bads (1), outputs (2) or fairness edges (3).
    fn mark_root_edges(&self, refs: &mut Vec<bool>, es: &Vec<AigEdge>, which: u8)
        requires
            self.wf(),
            old(refs).len() == self.nodes.len(),
            which == 0 ==> es@ == self.constraints@,
            which == 1 ==> es@ == self.bads@,
            which == 2 ==> es@ == self.outputs@,
            which == 3 ==> es@ == self.fairness@,
            which <= 3,
            forall|i: int| 0 <= i < self.nodes.len() && #[trigger] old(refs)@[i] ==> root_ref(*self, i),
        ensures
            final(refs).len() == old(refs).len(),
            forall|i: int| 0 <= i < old(refs).len() && old(refs)@[i] ==> #[trigger] final(refs)@[i],
            forall|k: int| 0 <= k < es.len() ==> final(refs)@[#[trigger] es@[k].id as int],
            forall|i: int| 0 <= i < self.nodes.len() && #[trigger] final(refs)@[i] ==> root_ref(*self, i),
    {
        let ghost pr = refs@;
        mark_edges(refs, es);
        assert forall|i: int| 0 <= i < self.nodes.len() && #[trigger] refs@[i] implies root_ref(*self, i) by {
            if !pr[i] {
                assert(edge_on(es@, i));
                let k = choose|k: int| 0 <= k < es@.len() && #[trigger] es@[k].id as int == i;
                assert(es@[k].id == i);
            }
        }
    }

    /// The CNF of the graph over node ids as variables: the Tseitin clauses
    /// of the AND nodes that the root edges depend on, from the highest id
    /// down, then the unit clause that makes node 0 false. With `optimize`,
    /// an XOR or if-then-else node gets its four-clause encoding over its
    /// pattern's inputs instead. Every clause holds when each node takes its
    /// value in the circuit; the encoded nodes are exactly those reached
    /// from the roots through encoding inputs.
    pub fn cnf(&self, optimize: bool) -> (r: AigCnf)
        requires
            self.wf(),
        ensures
            sound(self.nodes@, r.clauses@),
            in_cnf(r.clauses@, unit_true()),
            forall|i: int| 0 < i < self.nodes.len() && #[trigger] has_enc(self.nodes@, r.clauses@, i, optimize) ==> enc_supported(*self, r.clauses@, i, optimize),
            forall|i: int|
                0 < i < self.nodes.len() && root_ref(*self, i) && (#[trigger] self.nodes@[i]).typ is And ==> has_enc(self.nodes@, r.clauses@, i, optimize),
            enc_closed(self.nodes@, r.clauses@, optimize),
            forall|k: int| 0 <= k < r.clauses.len() ==> #[trigger] clause_of_enc(self.nodes@, r.clauses@, r.clauses@[k].lits@, optimize),
            descending(self.nodes@, r.clauses@, 0, optimize),
            !optimize ==> forall|i: int|
                0 < i < self.nodes.len() && root_ref(*self, i) && (#[trigger] self.nodes@[i]).typ is And ==> has_and(self.nodes@, r.clauses@, i),
            !optimize ==> forall|i: int|
                0 < i < self.nodes.len() && #[trigger] has_and(self.nodes@, r.clauses@, i) ==> {
                    &&& (self.nodes@[self.nodes@[i].typ->And_0.id as int].typ is And ==> has_and(self.nodes@, r.clauses@, self.nodes@[i].typ->And_0.id as int))
                    &&& (self.nodes@[self.nodes@[i].typ->And_1.id as int].typ is And ==> has_and(self.nodes@, r.clauses@, self.nodes@[i].typ->And_1.id as int))
                },
    {
        let mut r = self.encode_cone(optimize);
        let ghost before = r.clauses@;
        let mut unit: Vec<AigEdge> = Vec::new();
        unit.push(AigEdge::constant(true));
        r.add_clause(AigClause { lits: unit });
        proof {
            let after = r.clauses@;
            let n = self.nodes.len() as int;
            assert(after[before.len() as int].lits@ == unit_true());
            assert forall|k: int| 0 <= k < before.len() implies after[k] == before[k] by {}
            self.lemma_unit_transfer(before, after, optimize);
            self.lemma_unit_transfer(before, after, false);
            assert(in_cnf(after, unit_true()));
            assert(node_ok(self.nodes@, 0));
            assert forall|vals: Seq<bool>, k: int| 0 <= k < after.len() implies #[trigger] clause_holds(self.nodes@, vals, after[k].lits@) by {
                if k < before.len() {
                    assert(clause_holds(self.nodes@, vals, before[k].lits@));
                } else {
                    assert(edge_val(self.nodes@, vals, after[k].lits@[0]));
                }
            }
            assert forall|i: int| 0 < i < n && #[trigger] has_enc(self.nodes@, after, i, optimize) implies enc_supported(*self, after, i, optimize) by {
                assert(has_enc(self.nodes@, before, i, optimize));
                assert(enc_supported(*self, before, i, optimize));
                if !root_ref(*self, i) {
                    let j = choose|j: int| i < j < n && has_enc(self.nodes@, before, j, optimize) && #[trigger] enc_input(self.nodes@, j, i, optimize);
                    assert(has_enc(self.nodes@, after, j, optimize));
                }
            }
            assert forall|i: int| 0 < i < n && root_ref(*self, i) && (#[trigger] self.nodes@[i]).typ is And implies has_enc(self.nodes@, after, i, optimize) by {
                assert(has_enc(self.nodes@, before, i, optimize));
            }
            assert(enc_closed(self.nodes@, after, optimize)) by {
                assert forall|i: int, q: int| 0 < i < n && #[trigger] has_enc(self.nodes@, after, i, optimize) && 0 <= q < def_inputs(self.nodes@, i, optimize).len()
                    && self.nodes@[def_inputs(self.nodes@, i, optimize)[q].id as int].typ is And
                    implies has_enc(self.nodes@, after, #[trigger] def_inputs(self.nodes@, i, optimize)[q].id as int, optimize) by {
                    assert(has_enc(self.nodes@, before, i, optimize));
                    self.lemma_def_facts(i, optimize);
                    let x = def_inputs(self.nodes@, i, optimize)[q].id as int;
                    assert(has_enc(self.nodes@, before, x, optimize));
                    assert(x > 0) by {
                        assert(node_ok(self.nodes@, x));
                    }
                }
            }
            assert forall|k: int| 0 <= k < after.len() implies #[trigger] clause_of_enc(self.nodes@, after, after[k].lits@, optimize) by {
                if k < before.len() {
                    assert(clause_of_enc(self.nodes@, before, before[k].lits@, optimize));
                    if before[k].lits@ != unit_true() {
                        let i = choose|i: int| 0 < i < n && has_enc(self.nodes@, before, i, optimize) && #[trigger] enc_clause(self.nodes@, before[k].lits@, i, optimize);
                        assert(has_enc(self.nodes@, after, i, optimize));
                    }
                }
            }
            assert(descending(self.nodes@, after, 0, optimize)) by {
                assert forall|k1: int, k2: int, i1: int, i2: int|
                    0 <= k1 < k2 < after.len() && 0 < i1 < n && 0 < i2 < n && self.nodes@[i1].typ is And && self.nodes@[i2].typ is And
                        && #[trigger] enc_clause(self.nodes@, after[k1].lits@, i1, optimize) && #[trigger] enc_clause(self.nodes@, after[k2].lits@, i2, optimize)
                    implies i1 >= i2 by {
                    if k2 == before.len() {
                        self.lemma_def_facts(i2, optimize);
                        let q = choose|q: int| 0 <= q < def_clauses(self.nodes@, i2, optimize).len() && #[trigger] def_clauses(self.nodes@, i2, optimize)[q] == after[k2].lits@;
                        assert(def_clauses(self.nodes@, i2, optimize)[q].len() >= 2);
                    } else {
                        assert(after[k1] == before[k1] && after[k2] == before[k2]);
                    }
                }
            }
            if !optimize {
                assert forall|i: int| 0 < i < n && #[trigger] has_and(self.nodes@, after, i) implies {
                    &&& (self.nodes@[self.nodes@[i].typ->And_0.id as int].typ is And ==> has_and(self.nodes@, after, self.nodes@[i].typ->And_0.id as int))
                    &&& (self.nodes@[self.nodes@[i].typ->And_1.id as int].typ is And ==> has_and(self.nodes@, after, self.nodes@[i].typ->And_1.id as int))
                } by {
                    assert(has_enc(self.nodes@, after, i, false));
                    assert(has_and(self.nodes@, before, i));
                    assert(node_ok(self.nodes@, i));
                    let f0 = self.nodes@[i].typ->And_0.id as int;
                    let f1 = self.nodes@[i].typ->And_1.id as int;
                    assert(node_ok(self.nodes@, f0));
                    assert(node_ok(self.nodes@, f1));
                    if self.nodes@[f0].typ is And {
                        assert(has_and(self.nodes@, before, f0));
                        assert(has_enc(self.nodes@, before, f0, false));
                    }
                    if self.nodes@[f1].typ is And {
                        assert(has_and(self.nodes@, before, f1));
                        assert(has_enc(self.nodes@, before, f1, false));
                    }
                }
                assert forall|i: int| 0 < i < n && root_ref(*self, i) && (#[trigger] self.nodes@[i]).typ is And implies has_and(self.nodes@, after, i) by {
                    assert(has_and(self.nodes@, before, i));
                    assert(has_enc(self.nodes@, before, i, false));
                }
            }
        }
        r
    }

    /// Appending the unit clause changes no node's encoding.
    proof fn lemma_unit_transfer(&self, before: Seq<AigClause>, after: Seq<AigClause>, optimize: bool)
        requires
            self.wf(),
            after.len() == before.len() + 1,
            forall|k: int| 0 <= k < before.len() ==> after[k] == before[k],
            after[before.len() as int].lits@ == unit_true(),
        ensures
            forall|i: int| 0 < i < self.nodes.len() && (#[trigger] self.nodes@[i]).typ is And ==>
                (has_enc(self.nodes@, after, i, optimize) == has_enc(self.nodes@, before, i, optimize)),
    {
        assert forall|i: int| 0 < i < self.nodes.len() && (#[trigger] self.nodes@[i]).typ is And implies
            (has_enc(self.nodes@, after, i, optimize) == has_enc(self.nodes@, before, i, optimize)) by {
            self.lemma_def_facts(i, optimize);
            let d = def_clauses(self.nodes@, i, optimize);
            assert forall|q: int| 0 <= q < d.len() implies (#[trigger] in_cnf(after, d[q]) == in_cnf(before, d[q])) by {
                if in_cnf(after, d[q]) {
                    let k = choose|k: int| 0 <= k < after.len() && after[k].lits@ == d[q];
                    if k == before.len() {
                        assert(d[q].len() >= 2);
                    } else {
                        assert(before[k] == after[k]);
                    }
                }
                if in_cnf(before, d[q]) {
                    let k = choose|k: int| 0 <= k < before.len() && before[k].lits@ == d[q];
                    assert(after[k] == before[k]);
                }
            }
            if has_enc(self.nodes@, after, i, optimize) {
                assert forall|q: int| 0 <= q < d.len() implies #[trigger] in_cnf(before, d[q]) by {
                    assert(in_cnf(after, d[q]));
                }
            }
            if has_enc(self.nodes@, before, i, optimize) {
                assert forall|q: int| 0 <= q < d.len() implies #[trigger] in_cnf(after, d[q]) by {
                    assert(in_cnf(before, d[q]));
                }
            }
        }
    }

    fn encode_cone(&self, optimize: bool) -> (r: AigCnf)
        requires
            self.wf(),
        ensures
            sound(self.nodes@, r.clauses@),
            forall|i: int| 0 < i < self.nodes.len() && #[trigger] has_enc(self.nodes@, r.clauses@, i, optimize) ==> enc_supported(*self, r.clauses@, i, optimize),
            forall|i: int|
                0 < i < self.nodes.len() && root_ref(*self, i) && (#[trigger] self.nodes@[i]).typ is And ==> has_enc(self.nodes@, r.clauses@, i, optimize),
            enc_closed(self.nodes@, r.clauses@, optimize),
            forall|k: int| 0 <= k < r.clauses.len() ==> #[trigger] clause_of_enc(self.nodes@, r.clauses@, r.clauses@[k].lits@, optimize),
            descending(self.nodes@, r.clauses@, 0, optimize),
            !optimize ==> forall|i: int|
                0 < i < self.nodes.len() && root_ref(*self, i) && (#[trigger] self.nodes@[i]).typ is And ==> has_and(self.nodes@, r.clauses@, i),
            !optimize ==> forall|i: int|
                0 < i < self.nodes.len() && #[trigger] has_and(self.nodes@, r.clauses@, i) ==> {
                    &&& (self.nodes@[self.nodes@[i].typ->And_0.id as int].typ is And ==> has_and(self.nodes@, r.clauses@, self.nodes@[i].typ->And_0.id as int))
                    &&& (self.nodes@[self.nodes@[i].typ->And_1.id as int].typ is And ==> has_and(self.nodes@, r.clauses@, self.nodes@[i].typ->And_1.id as int))
                },
    {
        let n = self.nodes.len();
        let mut refs = self.get_root_refs();
        let mut ans = AigCnf::new();
        let ghost roots = refs@;
        assert forall|i: int| 0 <= i < n && root_ref(*self, i) implies #[trigger] roots[i] by {}
        assert forall|i: int| 0 <= i < n && #[trigger] refs@[i] implies ref_supported(*self, refs@, n as int, i, optimize) by {}
        let mut id: usize = n;
        while id > 1
            invariant
                self.wf(),
                n == self.nodes.len(),
                1 <= id <= n,
                refs.len() == n,
                roots.len() == n,
                forall|i: int| 0 <= i < n && roots[i] ==> #[trigger] refs@[i],
                forall|i: int| 0 <= i < n && root_ref(*self, i) ==> #[trigger] roots[i],
                sound(self.nodes@, ans.clauses@),
                forall|j: int| id <= j < n && #[trigger] refs@[j] && self.nodes@[j].typ is And ==> has_enc(self.nodes@, ans.clauses@, j, optimize),
                forall|j: int, q: int| id <= j < n && #[trigger] refs@[j] && self.nodes@[j].typ is And && 0 <= q < def_inputs(self.nodes@, j, optimize).len()
                    ==> refs@[#[trigger] def_inputs(self.nodes@, j, optimize)[q].id as int],
                forall|k: int| 0 <= k < ans.clauses.len() ==> #[trigger] owned(ans.clauses@[k].lits@, refs@, id as int),
                forall|k: int| 0 <= k < ans.clauses.len() ==> #[trigger] from_enc(self.nodes@, refs@, id as int, ans.clauses@[k].lits@, optimize),
                descending(self.nodes@, ans.clauses@, 0, optimize),
                forall|i: int| 0 <= i < n && #[trigger] refs@[i] ==> ref_supported(*self, refs@, id as int, i, optimize),
            decreases id,
        {
            id -= 1;
            if self.nodes[id].is_and() && refs[id] {
                assert(node_ok(self.nodes@, id as int));
                assert(node_ok(self.nodes@, self.nodes@[id as int].typ->And_0.id as int));
                assert(node_ok(self.nodes@, self.nodes@[id as int].typ->And_1.id as int));
                let ghost before = ans.clauses@;
                let ghost rb = refs@;
                let nd = AigEdge { id, complement: false };
                let mut done = false;
                if optimize {
                    match self.is_xor(id) {
                        Some((x, y)) => {
                            proof { lemma_xor_sound(self.nodes@, id as int); }
                            refs.set(x.id, true);
                            refs.set(y.id, true);
                            ans.add_clause(clause3(x.not(), y, nd));
                            ans.add_clause(clause3(x, y.not(), nd));
                            ans.add_clause(clause3(x, y, nd.not()));
                            ans.add_clause(clause3(x.not(), y.not(), nd.not()));
                            done = true;
                        },
                        None => {},
                    }
                    if !done {
                        match self.is_ite(id) {
                            Some((c, t, e)) => {
                                proof { lemma_ite_sound(self.nodes@, id as int); }
                                refs.set(c.id, true);
                                refs.set(t.id, true);
                                refs.set(e.id, true);
                                ans.add_clause(clause3(t, c.not(), nd.not()));
                                ans.add_clause(clause3(t.not(), c.not(), nd));
                                ans.add_clause(clause3(e, c, nd.not()));
                                ans.add_clause(clause3(e.not(), c, nd));
                                done = true;
                            },
                            None => {},
                        }
                    }
                }
                if !done {
                    let f0 = self.nodes[id].fanin0();
                    let f1 = self.nodes[id].fanin1();
                    proof { lemma_and_sound(self.nodes@, id as int); }
                    refs.set(f0.id, true);
                    refs.set(f1.id, true);
                    ans.add_clause(clause2(nd.not(), f0));
                    ans.add_clause(clause2(nd.not(), f1));
                    ans.add_clause(clause3(nd, f0.not(), f1.not()));
                }
                proof {
                    let d = def_clauses(self.nodes@, id as int, optimize);
                    let ins = def_inputs(self.nodes@, id as int, optimize);
                    assert(ans.clauses.len() == before.len() + d.len());
                    assert forall|q: int| 0 <= q < d.len() implies #[trigger] ans.clauses@[before.len() + q].lits@ == d[q] by {}
                    assert forall|k: int| 0 <= k < before.len() implies ans.clauses@[k] == before[k] by {}
                    self.lemma_def_facts(id as int, optimize);
                    self.lemma_sound_extend(before, ans.clauses@, d);
                    assert forall|q: int| 0 <= q < ins.len() implies refs@[#[trigger] ins[q].id as int] by {}
                    assert forall|i: int| 0 <= i < n && refs@[i] && !rb[i] implies exists|q: int| 0 <= q < ins.len() && ins[q].id as int == i by {
                        if optimize && xor_of(self.nodes@, id as int) is Some {
                            assert(ins[0].id as int == i || ins[1].id as int == i);
                        } else if optimize && ite_of(self.nodes@, id as int) is Some {
                            assert(ins[0].id as int == i || ins[1].id as int == i || ins[2].id as int == i);
                        } else {
                            assert(ins[0].id as int == i || ins[1].id as int == i);
                        }
                    }
                    assert forall|j: int| 0 <= j < n && rb[j] implies #[trigger] refs@[j] by {}
                    assert forall|j: int| id <= j < n && #[trigger] refs@[j] && self.nodes@[j].typ is And implies has_enc(self.nodes@, ans.clauses@, j, optimize) by {
                        let cls = def_clauses(self.nodes@, j, optimize);
                        if j > id {
                            assert(rb[j]);
                            assert(has_enc(self.nodes@, before, j, optimize));
                            assert forall|q: int| 0 <= q < cls.len() implies #[trigger] in_cnf(ans.clauses@, cls[q]) by {
                                assert(in_cnf(before, cls[q]));
                                let k = choose|k: int| 0 <= k < before.len() && before[k].lits@ == cls[q];
                                assert(ans.clauses@[k] == before[k]);
                            }
                        } else {
                            assert forall|q: int| 0 <= q < cls.len() implies #[trigger] in_cnf(ans.clauses@, cls[q]) by {
                                assert(ans.clauses@[before.len() + q].lits@ == cls[q]);
                            }
                        }
                    }
                    assert forall|j: int, q: int| id <= j < n && #[trigger] refs@[j] && self.nodes@[j].typ is And && 0 <= q < def_inputs(self.nodes@, j, optimize).len()
                        implies refs@[#[trigger] def_inputs(self.nodes@, j, optimize)[q].id as int] by {
                        if j > id {
                            assert(rb[j]);
                            self.lemma_def_facts(j, optimize);
                            assert(rb[def_inputs(self.nodes@, j, optimize)[q].id as int]);
                        }
                    }
                    assert forall|k: int| 0 <= k < ans.clauses.len() implies #[trigger] owned(ans.clauses@[k].lits@, refs@, id as int) by {
                        if k < before.len() {
                            assert(ans.clauses@[k] == before[k]);
                            assert(owned(before[k].lits@, rb, id + 1));
                            let p = choose|p: int| 0 <= p < before[k].lits@.len() && #[trigger] is_owner(before[k].lits@, rb, id + 1, p);
                            assert(is_owner(ans.clauses@[k].lits@, refs@, id as int, p));
                        } else {
                            let q = k - before.len();
                            assert(ans.clauses@[before.len() + q].lits@ == d[q]);
                            let p = owner_pos(self.nodes@, id as int, optimize, q);
                            assert(is_owner(d[q], refs@, id as int, p));
                        }
                    }
                    assert forall|i: int| 0 <= i < n && #[trigger] refs@[i] implies ref_supported(*self, refs@, id as int, i, optimize) by {
                        if rb[i] {
                            assert(ref_supported(*self, rb, id + 1, i, optimize));
                            if !root_ref(*self, i) {
                                let j = choose|j: int| i < j < n && id + 1 <= j && rb[j] && self.nodes@[j].typ is And && #[trigger] enc_input(self.nodes@, j, i, optimize);
                                assert(refs@[j]);
                            }
                        } else {
                            let q = choose|q: int| 0 <= q < ins.len() && ins[q].id as int == i;
                            assert(enc_input(self.nodes@, id as int, i, optimize));
                        }
                    }
                    assert(descending(self.nodes@, ans.clauses@, 0, optimize)) by {
                        assert forall|k1: int, k2: int, i1: int, i2: int|
                            0 <= k1 < k2 < ans.clauses.len() && 0 < i1 < n && 0 < i2 < n && self.nodes@[i1].typ is And && self.nodes@[i2].typ is And
                                && #[trigger] enc_clause(self.nodes@, ans.clauses@[k1].lits@, i1, optimize) && #[trigger] enc_clause(self.nodes@, ans.clauses@[k2].lits@, i2, optimize)
                            implies i1 >= i2 by {
                            if k2 < before.len() {
                                assert(ans.clauses@[k1] == before[k1] && ans.clauses@[k2] == before[k2]);
                            } else {
                                let q2 = k2 - before.len();
                                assert(ans.clauses@[before.len() + q2].lits@ == d[q2]);
                                assert(enc_clause(self.nodes@, ans.clauses@[k2].lits@, id as int, optimize));
                                self.lemma_enc_clause_unique(ans.clauses@[k2].lits@, i2, id as int, optimize);
                                if k1 < before.len() {
                                    assert(ans.clauses@[k1] == before[k1]);
                                    assert(from_enc(self.nodes@, rb, id + 1, before[k1].lits@, optimize));
                                    let i3 = choose|i3: int| id + 1 <= i3 < n && rb[i3] && self.nodes@[i3].typ is And && #[trigger] enc_clause(self.nodes@, before[k1].lits@, i3, optimize);
                                    self.lemma_enc_clause_unique(before[k1].lits@, i1, i3, optimize);
                                } else {
                                    let q1 = k1 - before.len();
                                    assert(ans.clauses@[before.len() + q1].lits@ == d[q1]);
                                    assert(enc_clause(self.nodes@, ans.clauses@[k1].lits@, id as int, optimize));
                                    self.lemma_enc_clause_unique(ans.clauses@[k1].lits@, i1, id as int, optimize);
                                }
                            }
                        }
                    }
                    assert forall|k: int| 0 <= k < ans.clauses.len() implies #[trigger] from_enc(self.nodes@, refs@, id as int, ans.clauses@[k].lits@, optimize) by {
                        if k < before.len() {
                            assert(ans.clauses@[k] == before[k]);
                            assert(from_enc(self.nodes@, rb, id + 1, before[k].lits@, optimize));
                            let i2 = choose|i2: int| id + 1 <= i2 < n && rb[i2] && self.nodes@[i2].typ is And && #[trigger] enc_clause(self.nodes@, before[k].lits@, i2, optimize);
                            assert(refs@[i2]);
                        } else {
                            let q = k - before.len();
                            assert(ans.clauses@[before.len() + q].lits@ == d[q]);
                            assert(enc_clause(self.nodes@, ans.clauses@[k].lits@, id as int, optimize));
                        }
                    }
                }
            } else {
                proof {
                    assert forall|k: int| 0 <= k < ans.clauses.len() implies #[trigger] owned(ans.clauses@[k].lits@, refs@, id as int) by {
                        assert(owned(ans.clauses@[k].lits@, refs@, id + 1));
                        let p = choose|p: int| 0 <= p < ans.clauses@[k].lits@.len() && #[trigger] is_owner(ans.clauses@[k].lits@, refs@, id + 1, p);
                        assert(is_owner(ans.clauses@[k].lits@, refs@, id as int, p));
                    }
                    assert forall|i: int| 0 <= i < n && #[trigger] refs@[i] implies ref_supported(*self, refs@, id as int, i, optimize) by {
                        assert(ref_supported(*self, refs@, id + 1, i, optimize));
                    }
                    assert forall|k: int| 0 <= k < ans.clauses.len() implies #[trigger] from_enc(self.nodes@, refs@, id as int, ans.clauses@[k].lits@, optimize) by {
                        assert(from_enc(self.nodes@, refs@, id + 1, ans.clauses@[k].lits@, optimize));
                        let i2 = choose|i2: int| id + 1 <= i2 < n && refs@[i2] && self.nodes@[i2].typ is And && #[trigger] enc_clause(self.nodes@, ans.clauses@[k].lits@, i2, optimize);
                    }
                }
            }
        }
        proof {
            assert forall|i: int| 0 < i < n && root_ref(*self, i) && (#[trigger] self.nodes@[i]).typ is And implies has_enc(self.nodes@, ans.clauses@, i, optimize) by {
                assert(roots[i]);
                assert(refs@[i]);
            }
            assert forall|k: int| 0 <= k < ans.clauses.len() implies #[trigger] clause_of_enc(self.nodes@, ans.clauses@, ans.clauses@[k].lits@, optimize) by {
                assert(from_enc(self.nodes@, refs@, 1, ans.clauses@[k].lits@, optimize));
                let i2 = choose|i2: int| 1 <= i2 < n && refs@[i2] && self.nodes@[i2].typ is And && #[trigger] enc_clause(self.nodes@, ans.clauses@[k].lits@, i2, optimize);
                assert(id == 1);
                assert(has_enc(self.nodes@, ans.clauses@, i2, optimize));
            }
            assert forall|i: int| 0 < i < n && #[trigger] has_enc(self.nodes@, ans.clauses@, i, optimize) implies refs@[i] by {
                self.lemma_def_facts(i, optimize);
                let cls = def_clauses(self.nodes@, i, optimize);
                assert(in_cnf(ans.clauses@, cls[0]));
                let k = choose|k: int| 0 <= k < ans.clauses.len() && ans.clauses@[k].lits@ == cls[0];
                assert(owned(ans.clauses@[k].lits@, refs@, 1));
                let p = choose|p: int| 0 <= p < cls[0].len() && #[trigger] is_owner(cls[0], refs@, 1, p);
                let p0 = owner_pos(self.nodes@, i, optimize, 0);
                if p != p0 {
                    assert(cls[0][p0].id < cls[0][p].id);
                    assert(cls[0][p].id < cls[0][p0].id);
                }
            }
            assert(enc_closed(self.nodes@, ans.clauses@, optimize)) by {
                assert forall|i: int, q: int| 0 < i < n && #[trigger] has_enc(self.nodes@, ans.clauses@, i, optimize) && 0 <= q < def_inputs(self.nodes@, i, optimize).len()
                    && self.nodes@[def_inputs(self.nodes@, i, optimize)[q].id as int].typ is And
                    implies has_enc(self.nodes@, ans.clauses@, #[trigger] def_inputs(self.nodes@, i, optimize)[q].id as int, optimize) by {
                    self.lemma_def_facts(i, optimize);
                    assert(refs@[i]);
                    let x = def_inputs(self.nodes@, i, optimize)[q].id as int;
                    assert(refs@[x]);
                    assert(x > 0) by {
                        assert(node_ok(self.nodes@, x));
                    }
                }
            }
            assert forall|i: int| 0 < i < n && #[trigger] has_enc(self.nodes@, ans.clauses@, i, optimize) implies enc_supported(*self, ans.clauses@, i, optimize) by {
                assert(refs@[i]);
                assert(ref_supported(*self, refs@, 1, i, optimize));
                if !root_ref(*self, i) {
                    let j = choose|j: int| i < j < n && 1 <= j && refs@[j] && self.nodes@[j].typ is And && #[trigger] enc_input(self.nodes@, j, i, optimize);
                    assert(has_enc(self.nodes@, ans.clauses@, j, optimize));
                }
            }
            if !optimize {
                assert forall|i: int| 0 < i < n && #[trigger] has_and(self.nodes@, ans.clauses@, i) implies {
                    &&& (self.nodes@[self.nodes@[i].typ->And_0.id as int].typ is And ==> has_and(self.nodes@, ans.clauses@, self.nodes@[i].typ->And_0.id as int))
                    &&& (self.nodes@[self.nodes@[i].typ->And_1.id as int].typ is And ==> has_and(self.nodes@, ans.clauses@, self.nodes@[i].typ->And_1.id as int))
                } by {
                    assert(has_enc(self.nodes@, ans.clauses@, i, false));
                    assert(def_inputs(self.nodes@, i, false)[0] == self.nodes@[i].typ->And_0);
                    assert(def_inputs(self.nodes@, i, false)[1] == self.nodes@[i].typ->And_1);
                }
            }
        }
        ans
    }

    /// The encoding of an AND node `i`: its inputs have smaller ids, and in
    /// each of its clauses the literal of `i` sits at `owner_pos` while every
    /// other literal is on a smaller id.
    proof fn lemma_def_facts(&self, i: int, optimize: bool)
        requires
            self.wf(),
            0 < i < self.nodes.len(),
            self.nodes@[i].typ is And,
        ensures
            forall|q: int| 0 <= q < def_inputs(self.nodes@, i, optimize).len() ==> (#[trigger] def_inputs(self.nodes@, i, optimize)[q].id as int) < i,
            def_clauses(self.nodes@, i, optimize).len() > 0,
            forall|q: int| 0 <= q < def_clauses(self.nodes@, i, optimize).len() ==> (#[trigger] def_clauses(self.nodes@, i, optimize)[q]).len() >= 2,
            forall|q: int| 0 <= q < def_clauses(self.nodes@, i, optimize).len() ==> {
                let c = #[trigger] def_clauses(self.nodes@, i, optimize)[q];
                let p = owner_pos(self.nodes@, i, optimize, q);
                &&& 0 <= p < c.len()
                &&& c[p].id == i
                &&& forall|p2: int| 0 <= p2 < c.len() && p2 != p ==> (#[trigger] c[p2].id as int) < i
            },
    {
        let nodes = self.nodes@;
        assert(node_ok(nodes, i));
        assert(node_ok(nodes, nodes[i].typ->And_0.id as int));
        assert(node_ok(nodes, nodes[i].typ->And_1.id as int));
    }

    /// A clause encodes at most one node: the node of its largest literal.
    proof fn lemma_enc_clause_unique(&self, c: Seq<AigEdge>, i1: int, i2: int, optimize: bool)
        requires
            self.wf(),
            0 < i1 < self.nodes.len(),
            0 < i2 < self.nodes.len(),
            self.nodes@[i1].typ is And,
            self.nodes@[i2].typ is And,
            enc_clause(self.nodes@, c, i1, optimize),
            enc_clause(self.nodes@, c, i2, optimize),
        ensures
            i1 == i2,
    {
        self.lemma_def_facts(i1, optimize);
        self.lemma_def_facts(i2, optimize);
        let q1 = choose|q: int| 0 <= q < def_clauses(self.nodes@, i1, optimize).len() && #[trigger] def_clauses(self.nodes@, i1, optimize)[q] == c;
        let q2 = choose|q: int| 0 <= q < def_clauses(self.nodes@, i2, optimize).len() && #[trigger] def_clauses(self.nodes@, i2, optimize)[q] == c;
        let p1 = owner_pos(self.nodes@, i1, optimize, q1);
        let p2 = owner_pos(self.nodes@, i2, optimize, q2);
        assert(c[p1].id == i1);
        assert(c[p2].id == i2);
        if p1 != p2 {
            assert((c[p2].id as int) < i1);
            assert((c[p1].id as int) < i2);
        }
    }

    /// Appending clauses that hold keeps the CNF sound.
    proof fn lemma_sound_extend(&self, before: Seq<AigClause>, after: Seq<AigClause>, added: Seq<Seq<AigEdge>>)
        requires
            sound(self.nodes@, before),
            after.len() == before.len() + added.len(),
            forall|k: int| 0 <= k < before.len() ==> after[k] == before[k],
            forall|q: int| 0 <= q < added.len() ==> #[trigger] after[before.len() + q].lits@ == added[q],
            forall|vals: Seq<bool>, q: int| 0 <= q < added.len() ==> #[trigger] clause_holds(self.nodes@, vals, added[q]),
        ensures
            sound(self.nodes@, after),
    {
        assert forall|vals: Seq<bool>, k: int| 0 <= k < after.len() implies #[trigger] clause_holds(self.nodes@, vals, after[k].lits@) by {
            if k < before.len() {
                assert(after[k] == before[k]);
                assert(clause_holds(self.nodes@, vals, before[k].lits@));
            } else {
                assert(after[before.len() + (k - before.len())].lits@ == added[k - before.len()]);
                assert(clause_holds(self.nodes@, vals, added[k - before.len()]));
            }
        }
    }
}

/// Flags the nodes of the edges of `es`.
fn mark_edges(refs: &mut Vec<bool>, es: &Vec<AigEdge>)
    requires
        edges_in(es@, old(refs).len() as int),
    ensures
        final(refs).len() == old(refs).len(),
        forall|i: int| 0 <= i < old(refs).len() && old(refs)@[i] ==> #[trigger] final(refs)@[i],
        forall|k: int| 0 <= k < es.len() ==> final(refs)@[#[trigger] es@[k].id as int],
        forall|i: int| 0 <= i < old(refs).len() && #[trigger] final(refs)@[i] && !old(refs)@[i] ==> edge_on(es@, i),
{
    let mut i: usize = 0;
    let ghost o = refs@;
    while i < es.len()
        invariant
            i <= es.len(),
            refs.len() == o.len(),
            edges_in(es@, o.len() as int),
            forall|x: int| 0 <= x < o.len() && o[x] ==> #[trigger] refs@[x],
            forall|k: int| 0 <= k < i ==> refs@[#[trigger] es@[k].id as int],
            forall|x: int| 0 <= x < o.len() && #[trigger] refs@[x] && !o[x] ==> edge_on(es@, x),
        decreases es.len() - i,
    {
        assert(edge_in(es@[i as int], o.len() as int));
        refs.set(es[i].id, true);
        assert(es@[i as int].id as int == es@[i as int].id as int);
        i += 1;
    }
}

/// Some edge of `es` is on node `i`.
pub open spec fn edge_on(es: Seq<AigEdge>, i: int) -> bool {
    exists|k: int| 0 <= k < es.len() && #[trigger] es[k].id as int == i
}

/// The value of a literal under an assignment to the node ids.
pub open spec fn lv(v: Seq<bool>, e: AigEdge) -> bool {
    v[e.id as int] != e.complement
}

proof fn lemma_sat2(v: Seq<bool>, a: AigEdge, b: AigEdge)
    ensures
        clause_sat(v, seq![a, b]) <==> (lv(v, a) || lv(v, b)),
{
    let c = seq![a, b];
    if lv(v, a) {
        assert(v[c[0].id as int] != c[0].complement);
    } else if lv(v, b) {
        assert(v[c[1].id as int] != c[1].complement);
    }
}

proof fn lemma_sat3(v: Seq<bool>, a: AigEdge, b: AigEdge, d: AigEdge)
    ensures
        clause_sat(v, seq![a, b, d]) <==> (lv(v, a) || lv(v, b) || lv(v, d)),
{
    let c = seq![a, b, d];
    if lv(v, a) {
        assert(v[c[0].id as int] != c[0].complement);
    } else if lv(v, b) {
        assert(v[c[1].id as int] != c[1].complement);
    } else if lv(v, d) {
        assert(v[c[2].id as int] != c[2].complement);
    }
}

/// The other direction of equisatisfiability, for both encodings: an
/// assignment to the node ids that satisfies a set of clauses holding the
/// unit clause on node 0 and the encoding of every AND node of a closed set
/// agrees, on each such node, with the circuit evaluated with the leaves
/// taken from the assignment. With the soundness that `cnf` states, the
/// XOR and if-then-else encoding and the plain one are equisatisfiable with
/// the circuit on the same roots, and with each other.
pub proof fn lemma_cnf_models_agree(a: Aig, cnf: Seq<AigClause>, v: Seq<bool>, optimize: bool)
    requires
        a.wf(),
        v.len() == a.nodes.len(),
        in_cnf(cnf, unit_true()),
        forall|k: int| 0 <= k < cnf.len() ==> #[trigger] clause_sat(v, cnf[k].lits@),
        enc_closed(a.nodes@, cnf, optimize),
    ensures
        forall|i: int| 0 < i < a.nodes.len() && #[trigger] has_enc(a.nodes@, cnf, i, optimize) ==> v[i] == node_val(a.nodes@, v, i as nat),
{
    let k0 = choose|k: int| 0 <= k < cnf.len() && cnf[k].lits@ == unit_true();
    assert(clause_sat(v, cnf[k0].lits@));
    assert(!v[0]);
    assert forall|i: int| 0 < i < a.nodes.len() && #[trigger] has_enc(a.nodes@, cnf, i, optimize) implies v[i] == node_val(a.nodes@, v, i as nat) by {
        lemma_cnf_agree_at(a, cnf, v, optimize, i as nat);
    }
}

proof fn lemma_cnf_agree_at(a: Aig, cnf: Seq<AigClause>, v: Seq<bool>, optimize: bool, i: nat)
    requires
        a.wf(),
        v.len() == a.nodes.len(),
        !v[0],
        forall|k: int| 0 <= k < cnf.len() ==> #[trigger] clause_sat(v, cnf[k].lits@),
        enc_closed(a.nodes@, cnf, optimize),
        0 < i < a.nodes.len(),
        has_enc(a.nodes@, cnf, i as int, optimize),
    ensures
        v[i as int] == node_val(a.nodes@, v, i),
    decreases i,
{
    let nodes = a.nodes@;
    assert(node_ok(nodes, i as int));
    a.lemma_def_facts(i as int, optimize);
    let ins = def_inputs(nodes, i as int, optimize);
    let cls = def_clauses(nodes, i as int, optimize);
    // each input of the encoding has, under `v`, its value in the circuit
    assert forall|q: int| 0 <= q < ins.len() implies lv(v, #[trigger] ins[q]) == edge_val(nodes, v, ins[q]) by {
        let x = ins[q].id as int;
        assert(node_ok(nodes, x));
        if nodes[x].typ is And {
            assert(has_enc(nodes, cnf, x, optimize));
            lemma_cnf_agree_at(a, cnf, v, optimize, x as nat);
        } else if nodes[x].typ is False {
            assert(x == 0);
        }
    }
    // every clause of the encoding holds under `v`
    assert forall|q: int| 0 <= q < cls.len() implies clause_sat(v, #[trigger] cls[q]) by {
        assert(in_cnf(cnf, cls[q]));
        let k = choose|k: int| 0 <= k < cnf.len() && cnf[k].lits@ == cls[q];
        assert(clause_sat(v, cnf[k].lits@));
    }
    let n = pos(i as int);
    let f0 = nodes[i as int].typ->And_0;
    let f1 = nodes[i as int].typ->And_1;
    assert(node_ok(nodes, f0.id as int));
    assert(node_ok(nodes, f1.id as int));
    if optimize && xor_of(nodes, i as int) is Some {
        let (x, y) = xor_of(nodes, i as int)->0;
        assert(clause_sat(v, cls[0]) && clause_sat(v, cls[1]) && clause_sat(v, cls[2]) && clause_sat(v, cls[3]));
        lemma_sat3(v, neg(x), y, n);
        lemma_sat3(v, x, neg(y), n);
        lemma_sat3(v, x, y, neg(n));
        lemma_sat3(v, neg(x), neg(y), neg(n));
        assert(lv(v, x) == edge_val(nodes, v, ins[0]));
        assert(lv(v, y) == edge_val(nodes, v, ins[1]));
        assert(v[i as int] == (lv(v, x) != lv(v, y)));
        let ex = edge_val(nodes, v, x);
        let ey = edge_val(nodes, v, y);
        assert(node_val(nodes, v, f0.id as nat) == (ex && ey));
        assert(node_val(nodes, v, f1.id as nat) == (!ex && !ey));
    } else if optimize && ite_of(nodes, i as int) is Some {
        let (c, t, e) = ite_of(nodes, i as int)->0;
        assert(clause_sat(v, cls[0]) && clause_sat(v, cls[1]) && clause_sat(v, cls[2]) && clause_sat(v, cls[3]));
        lemma_sat3(v, t, neg(c), neg(n));
        lemma_sat3(v, neg(t), neg(c), n);
        lemma_sat3(v, e, c, neg(n));
        lemma_sat3(v, neg(e), c, n);
        assert(lv(v, c) == edge_val(nodes, v, ins[0]));
        assert(lv(v, t) == edge_val(nodes, v, ins[1]));
        assert(lv(v, e) == edge_val(nodes, v, ins[2]));
        assert(v[i as int] == (if lv(v, c) { lv(v, t) } else { lv(v, e) }));
        assert(nand_pair(nodes, i as int));
        let v00 = edge_val(nodes, v, gf00(nodes, i as int));
        let v01 = edge_val(nodes, v, gf01(nodes, i as int));
        let v10 = edge_val(nodes, v, gf10(nodes, i as int));
        let v11 = edge_val(nodes, v, gf11(nodes, i as int));
        assert(node_val(nodes, v, f0.id as nat) == (v00 && v01));
        assert(node_val(nodes, v, f1.id as nat) == (v10 && v11));
    } else {
        assert(clause_sat(v, cls[0]) && clause_sat(v, cls[1]) && clause_sat(v, cls[2]));
        lemma_sat2(v, neg(n), f0);
        lemma_sat2(v, neg(n), f1);
        lemma_sat3(v, n, neg(f0), neg(f1));
        assert(lv(v, f0) == edge_val(nodes, v, ins[0]));
        assert(lv(v, f1) == edge_val(nodes, v, ins[1]));
    }
}

} // verus!
