//! The AIGER bridge as plain records: a graph built from the records that an
//! AIGER reader yields, and the records that a writer takes.
use crate::aig::{edge_in, edges_in, is_leaf_at, latch_ok, node_ok, nodes_wf, Aig};
use crate::edge::{edge_lit, lit_edge, AigEdge};
use crate::node::{canon, AigLatch, AigNode, AigNodeType};
use crate::symbols::{symbol_names, symbols_insert, symbols_new};
use vstd::prelude::*;

verus! {

/// An input, latch, output, bad, constraint, justice or fairness record.
/// `next` and `reset` are used by latches, `lits` by justice records.
pub struct AigerSymbol {
    pub lit: u32,
    pub next: u32,
    pub reset: u32,
    pub lits: Vec<u32>,
    pub name: Option<String>,
}

/// An AND record: `lhs = rhs0 & rhs1`.
#[derive(Debug, Clone, Copy, PartialEq, Eq, Structural)]
pub struct AigerAnd {
    pub lhs: u32,
    pub rhs0: u32,
    pub rhs1: u32,
}

/// The contents of an AIGER file.
pub struct Aiger {
    pub maxvar: u32,
    pub inputs: Vec<AigerSymbol>,
    pub latches: Vec<AigerSymbol>,
    pub outputs: Vec<AigerSymbol>,
    pub bad: Vec<AigerSymbol>,
    pub constraints: Vec<AigerSymbol>,
    pub justice: Vec<AigerSymbol>,
    pub fairness: Vec<AigerSymbol>,
    pub ands: Vec<AigerAnd>,
}

/// The variable of a literal.
pub open spec fn var(l: u32) -> int {
    l as int / 2
}

/// The number of nodes of the graph: the inputs, latches and AND gates,
/// and the constant.
pub open spec fn node_count(a: Aiger) -> int {
    a.inputs.len() + a.latches.len() + a.ands.len() + 1
}

pub open spec fn lit_in(l: u32, n: int) -> bool {
    var(l) < n
}

pub open spec fn syms_in(s: Seq<AigerSymbol>, n: int) -> bool {
    forall|k: int| 0 <= k < s.len() ==> lit_in(#[trigger] s[k].lit, n)
}

/// `v` is the variable of an AND record.
pub open spec fn and_var(a: Aiger, v: int) -> bool {
    exists|k: int| 0 <= k < a.ands.len() && var(#[trigger] a.ands@[k].lhs) == v
}

/// The records describe a well-formed graph: every variable is below the
/// node count and the leaves' variables are not 0; no AND variable is
/// defined twice or is an input or latch; AND inputs come before their AND;
/// a latch reset on the latch's own variable is its positive literal.
pub open spec fn aiger_valid(a: Aiger) -> bool {
    let n = node_count(a);
    &&& n < 0x8000_0000
    &&& forall|k: int| 0 <= k < a.inputs.len() ==> 1 <= #[trigger] var(a.inputs@[k].lit) < n && !and_var(a, var(a.inputs@[k].lit))
    &&& forall|k: int| 0 <= k < a.latches.len() ==> {
        &&& 1 <= #[trigger] var(a.latches@[k].lit) < n
        &&& !and_var(a, var(a.latches@[k].lit))
        &&& lit_in(a.latches@[k].next, n)
        &&& lit_in(a.latches@[k].reset, n)
        &&& (var(a.latches@[k].reset) == var(a.latches@[k].lit) ==> a.latches@[k].reset == a.latches@[k].lit)
    }
    &&& forall|k: int| 0 <= k < a.ands.len() ==> {
        &&& 1 <= #[trigger] var(a.ands@[k].lhs) < n
        &&& var(a.ands@[k].rhs0) < var(a.ands@[k].lhs)
        &&& var(a.ands@[k].rhs1) < var(a.ands@[k].lhs)
    }
    &&& forall|k1: int, k2: int| 0 <= k1 < k2 < a.ands.len() ==> var(#[trigger] a.ands@[k1].lhs) != var(#[trigger] a.ands@[k2].lhs)
    &&& syms_in(a.outputs@, n)
    &&& syms_in(a.bad@, n)
    &&& syms_in(a.constraints@, n)
    &&& syms_in(a.fairness@, n)
    &&& forall|j: int, k: int| 0 <= j < a.justice.len() && 0 <= k < a.justice@[j].lits.len() ==> lit_in(#[trigger] a.justice@[j].lits@[k], n)
}

/// Some named input or latch record has variable `x` and name `s`.
pub open spec fn named_record(a: Aiger, x: usize, s: Seq<char>) -> bool {
    ||| exists|k: int| 0 <= k < a.inputs.len() && (#[trigger] a.inputs@[k]).name is Some && var(a.inputs@[k].lit) == x
        && a.inputs@[k].name->0@ == s
    ||| exists|k: int| 0 <= k < a.latches.len() && (#[trigger] a.latches@[k]).name is Some && var(a.latches@[k].lit) == x
        && a.latches@[k].name->0@ == s
}

/// The edge of a literal.
pub open spec fn lit_e(l: u32) -> AigEdge {
    lit_edge(l as nat)
}

/// The edges of the `lit` fields of `s` are `es`.
pub open spec fn sym_edges(s: Seq<AigerSymbol>, es: Seq<AigEdge>) -> bool {
    &&& s.len() == es.len()
    &&& forall|k: int| 0 <= k < s.len() ==> #[trigger] es[k] == lit_e(s[k].lit)
}

/// The latch of a latch record: a reset on its own variable is undefined.
pub open spec fn latch_of(s: AigerSymbol) -> AigLatch {
    AigLatch {
        input: var(s.lit) as usize,
        next: lit_e(s.next),
        init: if var(s.reset) == var(s.lit) { None } else { Some(lit_e(s.reset)) },
    }
}

fn edge_of(l: u32) -> (r: AigEdge)
    ensures
        r == lit_e(l),
{
    AigEdge::from_lit_code(l as usize)
}

fn edges_of(s: &Vec<AigerSymbol>, n: usize) -> (r: Vec<AigEdge>)
    requires
        syms_in(s@, n as int),
    ensures
        sym_edges(s@, r@),
        edges_in(r@, n as int),
{
    let mut r: Vec<AigEdge> = Vec::new();
    let mut i: usize = 0;
    while i < s.len()
        invariant
            i <= s.len(),
            syms_in(s@, n as int),
            r.len() == i,
            forall|k: int| 0 <= k < i ==> #[trigger] r@[k] == lit_e(s@[k].lit),
            edges_in(r@, n as int),
        decreases s.len() - i,
    {
        assert(lit_in(s@[i as int].lit, n as int));
        r.push(edge_of(s[i].lit));
        i += 1;
    }
    r
}

fn lits_in(s: &Vec<AigerSymbol>, n: usize) -> (r: bool)
    ensures
        r == syms_in(s@, n as int),
{
    let mut i: usize = 0;
    while i < s.len()
        invariant
            i <= s.len(),
            forall|k: int| 0 <= k < i ==> lit_in(#[trigger] s@[k].lit, n as int),
        decreases s.len() - i,
    {
        if (s[i].lit / 2) as usize >= n {
            assert(!lit_in(s@[i as int].lit, n as int));
            return false;
        }
        i += 1;
    }
    true
}

fn lit_of(e: AigEdge) -> (r: u32)
    requires
        e.id < 0x8000_0000,
    ensures
        r as nat == edge_lit(e),
{
    (2 * e.id + if e.complement { 1usize } else { 0usize }) as u32
}

fn plain_symbol(lit: u32) -> (r: AigerSymbol)
    ensures
        r.lit == lit,
        r.lits@.len() == 0,
        r.name is None,
{
    AigerSymbol { lit, next: 0, reset: 0, lits: Vec::new(), name: None }
}

fn edge_symbols(es: &Vec<AigEdge>, n: usize) -> (r: Vec<AigerSymbol>)
    requires
        edges_in(es@, n as int),
        n <= 0x8000_0000,
    ensures
        r.len() == es.len(),
        forall|k: int| 0 <= k < es.len() ==> (#[trigger] r@[k]).lit as nat == edge_lit(es@[k]),
{
    let mut r: Vec<AigerSymbol> = Vec::new();
    let mut i: usize = 0;
    while i < es.len()
        invariant
            i <= es.len(),
            edges_in(es@, n as int),
            n <= 0x8000_0000,
            r.len() == i,
            forall|k: int| 0 <= k < i ==> (#[trigger] r@[k]).lit as nat == edge_lit(es@[k]),
        decreases es.len() - i,
    {
        assert(edge_in(es@[i as int], n as int));
        r.push(plain_symbol(lit_of(es[i])));
        i += 1;
    }
    r
}

/// The AND record of node `n`: its literal, then the literal of its second
/// fanin, then that of its first.
pub open spec fn and_record(n: AigNode) -> AigerAnd {
    AigerAnd { lhs: (2 * n.id) as u32, rhs0: edge_lit(n.typ->And_1) as u32, rhs1: edge_lit(n.typ->And_0) as u32 }
}

/// The AND records of the AND nodes of `nodes`, in order.
pub open spec fn and_records(nodes: Seq<AigNode>) -> Seq<AigerAnd>
    decreases nodes.len(),
{
    if nodes.len() == 0 {
        Seq::empty()
    } else if nodes.last().typ is And {
        and_records(nodes.drop_last()).push(and_record(nodes.last()))
    } else {
        and_records(nodes.drop_last())
    }
}

/// The literal of a latch's reset: its initial edge, or its own positive
/// literal when undefined.
pub open spec fn reset_lit(l: AigLatch) -> nat {
    match l.init {
        Some(e) => edge_lit(e),
        None => 2 * (l.input as nat),
    }
}

impl Aig {
    /// The records of this graph: an AND record `(2 i, fanin1, fanin0)` per
    /// AND node `i` in id order, an input record per input, a latch record
    /// per latch with its next-state literal and its reset (the initial edge,
    /// or the latch's own literal when undefined), names from the symbol
    /// map, and a record per output, bad, constraint, justice set and
    /// fairness edge.
    pub fn to_aiger(&self) -> (r: Aiger)
        requires
            self.wf(),
            self.nodes.len() <= 0x8000_0000,
        ensures
            r.maxvar == self.nodes.len() - 1,
            r.ands@ == and_records(self.nodes@),
            r.inputs.len() == self.inputs.len(),
            forall|k: int| 0 <= k < r.inputs.len() ==> (#[trigger] r.inputs@[k]).lit == 2 * self.inputs@[k],
            forall|k: int| 0 <= k < r.inputs.len() ==> ((#[trigger] r.inputs@[k]).name is Some <==> symbol_names(self.symbols).contains_key(self.inputs@[k])),
            forall|k: int| 0 <= k < r.inputs.len() && (#[trigger] r.inputs@[k]).name is Some ==> r.inputs@[k].name->0@ == symbol_names(self.symbols)[self.inputs@[k]],
            r.latches.len() == self.latchs.len(),
            forall|k: int| 0 <= k < r.latches.len() ==> {
                &&& (#[trigger] r.latches@[k]).lit == 2 * self.latchs@[k].input
                &&& r.latches@[k].next as nat == edge_lit(self.latchs@[k].next)
                &&& r.latches@[k].reset as nat == reset_lit(self.latchs@[k])
                &&& (r.latches@[k].name is Some <==> symbol_names(self.symbols).contains_key(self.latchs@[k].input))
                &&& (r.latches@[k].name is Some ==> r.latches@[k].name->0@ == symbol_names(self.symbols)[self.latchs@[k].input])
            },
            r.outputs.len() == self.outputs.len(),
            forall|k: int| 0 <= k < r.outputs.len() ==> (#[trigger] r.outputs@[k]).lit as nat == edge_lit(self.outputs@[k]),
            r.bad.len() == self.bads.len(),
            forall|k: int| 0 <= k < r.bad.len() ==> (#[trigger] r.bad@[k]).lit as nat == edge_lit(self.bads@[k]),
            r.constraints.len() == self.constraints.len(),
            forall|k: int| 0 <= k < r.constraints.len() ==> (#[trigger] r.constraints@[k]).lit as nat == edge_lit(self.constraints@[k]),
            r.fairness.len() == self.fairness.len(),
            forall|k: int| 0 <= k < r.fairness.len() ==> (#[trigger] r.fairness@[k]).lit as nat == edge_lit(self.fairness@[k]),
            r.justice.len() == self.justice.len(),
            forall|j: int| 0 <= j < r.justice.len() ==> (#[trigger] r.justice@[j]).lits.len() == self.justice@[j].len(),
            forall|j: int, k: int| 0 <= j < r.justice.len() && 0 <= k < r.justice@[j].lits.len() ==> #[trigger] r.justice@[j].lits@[k] as nat == edge_lit(self.justice@[j]@[k]),
    {
        let n = self.nodes.len();
        let mut ands: Vec<AigerAnd> = Vec::new();
        let mut i: usize = 0;
        assert(self.nodes@.take(0) =~= Seq::<AigNode>::empty());
        while i < n
            invariant
                self.wf(),
                n == self.nodes.len(),
                n <= 0x8000_0000,
                i <= n,
                ands@ == and_records(self.nodes@.take(i as int)),
            decreases n - i,
        {
            proof {
                assert(self.nodes@.take(i + 1).drop_last() =~= self.nodes@.take(i as int));
                assert(self.nodes@.take(i + 1).last() == self.nodes@[i as int]);
            }
            assert(node_ok(self.nodes@, i as int));
            if self.nodes[i].is_and() {
                let f0 = self.nodes[i].fanin0();
                let f1 = self.nodes[i].fanin1();
                ands.push(AigerAnd { lhs: (2 * i) as u32, rhs0: lit_of(f1), rhs1: lit_of(f0) });

            } else {

            }
            i += 1;
        }
        assert(self.nodes@.take(n as int) =~= self.nodes@);
        let mut inputs: Vec<AigerSymbol> = Vec::new();
        let mut k: usize = 0;
        while k < self.inputs.len()
            invariant
                self.wf(),
                n == self.nodes.len(),
                n <= 0x8000_0000,
                k <= self.inputs.len(),
                inputs.len() == k,
                forall|q: int| 0 <= q < k ==> (#[trigger] inputs@[q]).lit == 2 * self.inputs@[q],
                forall|q: int| 0 <= q < k ==> ((#[trigger] inputs@[q]).name is Some <==> symbol_names(self.symbols).contains_key(self.inputs@[q])),
                forall|q: int| 0 <= q < k && (#[trigger] inputs@[q]).name is Some ==> inputs@[q].name->0@ == symbol_names(self.symbols)[self.inputs@[q]],
            decreases self.inputs.len() - k,
        {
            let id = self.inputs[k];
            assert(is_leaf_at(self.nodes@, id));
            let name = self.get_symbol(id);
            inputs.push(AigerSymbol { lit: (2 * id) as u32, next: 0, reset: 0, lits: Vec::new(), name });
            k += 1;
        }
        let mut latches: Vec<AigerSymbol> = Vec::new();
        let mut k: usize = 0;
        while k < self.latchs.len()
            invariant
                self.wf(),
                n == self.nodes.len(),
                n <= 0x8000_0000,
                k <= self.latchs.len(),
                latches.len() == k,
                forall|q: int| 0 <= q < k ==> {
                    &&& (#[trigger] latches@[q]).lit == 2 * self.latchs@[q].input
                    &&& latches@[q].next as nat == edge_lit(self.latchs@[q].next)
                    &&& latches@[q].reset as nat == reset_lit(self.latchs@[q])
                    &&& (latches@[q].name is Some <==> symbol_names(self.symbols).contains_key(self.latchs@[q].input))
                    &&& (latches@[q].name is Some ==> latches@[q].name->0@ == symbol_names(self.symbols)[self.latchs@[q].input])
                },
            decreases self.latchs.len() - k,
        {
            let l = self.latchs[k];
            assert(latch_ok(self.nodes@, l));
            let lit = (2 * l.input) as u32;
            let reset = match l.init {
                Some(e) => lit_of(e),
                None => lit,
            };
            let name = self.get_symbol(l.input);
            latches.push(AigerSymbol { lit, next: lit_of(l.next), reset, lits: Vec::new(), name });
            k += 1;
        }
        let outputs = edge_symbols(&self.outputs, n);
        let bad = edge_symbols(&self.bads, n);
        let constraints = edge_symbols(&self.constraints, n);
        let fairness = edge_symbols(&self.fairness, n);
        let mut justice: Vec<AigerSymbol> = Vec::new();
        let mut j: usize = 0;
        while j < self.justice.len()
            invariant
                self.wf(),
                n == self.nodes.len(),
                n <= 0x8000_0000,
                j <= self.justice.len(),
                justice.len() == j,
                forall|j2: int| 0 <= j2 < j ==> (#[trigger] justice@[j2]).lits.len() == self.justice@[j2].len(),
                forall|j2: int, q: int| 0 <= j2 < j && 0 <= q < justice@[j2].lits.len() ==> #[trigger] justice@[j2].lits@[q] as nat == edge_lit(self.justice@[j2]@[q]),
            decreases self.justice.len() - j,
        {
            let es = &self.justice[j];
            assert(edges_in(es@, n as int));
            let mut lits: Vec<u32> = Vec::new();
            let mut q: usize = 0;
            while q < es.len()
                invariant
                    edges_in(es@, n as int),
                    n <= 0x8000_0000,
                    q <= es.len(),
                    lits.len() == q,
                    forall|q2: int| 0 <= q2 < q ==> #[trigger] lits@[q2] as nat == edge_lit(es@[q2]),
                decreases es.len() - q,
            {
                assert(edge_in(es@[q as int], n as int));
                lits.push(lit_of(es[q]));
                q += 1;
            }
            justice.push(AigerSymbol { lit: 0, next: 0, reset: 0, lits, name: None });
            j += 1;
        }
        Aiger { maxvar: (n - 1) as u32, inputs, latches, outputs, bad, constraints, justice, fairness, ands }
    }

    /// Checks whether the records describe a well-formed graph.
    pub fn aiger_is_valid(ag: &Aiger) -> (r: bool)
        ensures
            r == aiger_valid(*ag),
    {
        let ni = ag.inputs.len();
        let nl = ag.latches.len();
        let na = ag.ands.len();
        if ni >= 0x8000_0000 || nl >= 0x8000_0000 || na >= 0x8000_0000 {
            return false;
        }
        if (ni as u64) + (nl as u64) + (na as u64) + 1 >= 0x8000_0000 {
            return false;
        }
        let n = ni + nl + na + 1;
        // which variables the AND records define
        let mut def: Vec<bool> = vec![false; n];
        let mut k: usize = 0;
        while k < na
            invariant
                n == node_count(*ag),
                n < 0x8000_0000,
                na == ag.ands.len(),
                def.len() == n,
                k <= na,
                forall|p: int| 0 <= p < k ==> {
                    &&& 1 <= #[trigger] var(ag.ands@[p].lhs) < n
                    &&& var(ag.ands@[p].rhs0) < var(ag.ands@[p].lhs)
                    &&& var(ag.ands@[p].rhs1) < var(ag.ands@[p].lhs)
                },
                forall|p1: int, p2: int| 0 <= p1 < p2 < k ==> var(#[trigger] ag.ands@[p1].lhs) != var(#[trigger] ag.ands@[p2].lhs),
                forall|v: int| 0 <= v < n ==> (#[trigger] def@[v] <==> exists|p: int| 0 <= p < k && var(ag.ands@[p].lhs) == v),
            decreases na - k,
        {
            let a = ag.ands[k];
            let v = (a.lhs / 2) as usize;
            if v == 0 || v >= n || a.rhs0 / 2 >= a.lhs / 2 || a.rhs1 / 2 >= a.lhs / 2 {
                assert(var(ag.ands@[k as int].lhs) == v);
                return false;
            }
            if def[v] {
                proof {
                    let p = choose|p: int| 0 <= p < k && var(ag.ands@[p].lhs) == v;
                    assert(var(ag.ands@[p].lhs) == var(ag.ands@[k as int].lhs));
                }
                return false;
            }
            def.set(v, true);
            assert forall|w: int| 0 <= w < n implies (#[trigger] def@[w] <==> exists|p: int| 0 <= p < k + 1 && var(ag.ands@[p].lhs) == w) by {
                if w == v {
                    assert(var(ag.ands@[k as int].lhs) == w);
                }
            }
            k += 1;
        }
        assert forall|v: int| 0 <= v < n implies (def@[v] <==> and_var(*ag, v)) by {
            if def@[v] {
                let p = choose|p: int| 0 <= p < na && var(ag.ands@[p].lhs) == v;
                assert(var(ag.ands@[p].lhs) == v);
            }
        }
        let mut k: usize = 0;
        while k < ni
            invariant
                n == node_count(*ag),
                def.len() == n,
                forall|v: int| 0 <= v < n ==> (def@[v] <==> and_var(*ag, v)),
                k <= ni,
                ni == ag.inputs.len(),
                forall|p: int| 0 <= p < k ==> 1 <= #[trigger] var(ag.inputs@[p].lit) < n && !and_var(*ag, var(ag.inputs@[p].lit)),
            decreases ni - k,
        {
            let v = (ag.inputs[k].lit / 2) as usize;
            if v == 0 || v >= n || def[v] {
                assert(var(ag.inputs@[k as int].lit) == v);
                return false;
            }
            k += 1;
        }
        let mut k: usize = 0;
        while k < nl
            invariant
                n == node_count(*ag),
                def.len() == n,
                forall|v: int| 0 <= v < n ==> (def@[v] <==> and_var(*ag, v)),
                k <= nl,
                nl == ag.latches.len(),
                forall|p: int| 0 <= p < k ==> {
                    &&& 1 <= #[trigger] var(ag.latches@[p].lit) < n
                    &&& !and_var(*ag, var(ag.latches@[p].lit))
                    &&& lit_in(ag.latches@[p].next, n as int)
                    &&& lit_in(ag.latches@[p].reset, n as int)
                    &&& (var(ag.latches@[p].reset) == var(ag.latches@[p].lit) ==> ag.latches@[p].reset == ag.latches@[p].lit)
                },
            decreases nl - k,
        {
            let l = &ag.latches[k];
            let v = (l.lit / 2) as usize;
            if v == 0 || v >= n || def[v] || (l.next / 2) as usize >= n || (l.reset / 2) as usize >= n {
                assert(var(ag.latches@[k as int].lit) == v);
                return false;
            }
            if l.reset / 2 == l.lit / 2 && l.reset != l.lit {
                assert(var(ag.latches@[k as int].lit) == v);
                return false;
            }
            k += 1;
        }
        if !lits_in(&ag.outputs, n) || !lits_in(&ag.bad, n) || !lits_in(&ag.constraints, n) || !lits_in(&ag.fairness, n) {
            return false;
        }
        let mut j: usize = 0;
        while j < ag.justice.len()
            invariant
                n == node_count(*ag),
                j <= ag.justice.len(),
                forall|j2: int, p: int| 0 <= j2 < j && 0 <= p < ag.justice@[j2].lits.len() ==> lit_in(#[trigger] ag.justice@[j2].lits@[p], n as int),
            decreases ag.justice.len() - j,
        {
            let mut p: usize = 0;
            while p < ag.justice[j].lits.len()
                invariant
                    n == node_count(*ag),
                    j < ag.justice.len(),
                    p <= ag.justice@[j as int].lits.len(),
                    forall|j2: int, q: int| 0 <= j2 < j && 0 <= q < ag.justice@[j2].lits.len() ==> lit_in(#[trigger] ag.justice@[j2].lits@[q], n as int),
                    forall|q: int| 0 <= q < p ==> lit_in(#[trigger] ag.justice@[j as int].lits@[q], n as int),
                decreases ag.justice@[j as int].lits.len() - p,
            {
                if (ag.justice[j].lits[p] / 2) as usize >= n {
                    assert(!lit_in(ag.justice@[j as int].lits@[p as int], n as int));
                    return false;
                }
                p += 1;
            }
            j += 1;
        }
        true
    }

    /// The graph of the records, or `None` when they do not describe a
    /// well-formed graph. Node `v` is the AND of an AND record with `lhs`
    /// variable `v`, and a leaf otherwise; latches take their next-state
    /// literal and, unless it is on their own variable, their reset literal
    /// as initial edge; names of inputs and latches go to the symbol map.
    pub fn from_aiger(ag: &Aiger) -> (r: Option<Aig>)
        ensures
            r is Some <==> aiger_valid(*ag),
            r is Some ==> {
                let a = r->0;
                &&& a.wf()
                &&& a.nodes.len() == node_count(*ag)
                &&& forall|k: int| 0 <= k < ag.ands.len() ==> #[trigger] a.nodes@[var(ag.ands@[k].lhs)] == (AigNode {
                    id: var(ag.ands@[k].lhs) as usize,
                    typ: AigNodeType::And(canon(lit_e(ag.ands@[k].rhs0), lit_e(ag.ands@[k].rhs1)).0, canon(lit_e(ag.ands@[k].rhs0), lit_e(ag.ands@[k].rhs1)).1),
                })
                &&& forall|v: int| 1 <= v < a.nodes.len() && !and_var(*ag, v) ==> (#[trigger] a.nodes@[v]).typ is Leaf
                &&& a.inputs.len() == ag.inputs.len()
                &&& forall|k: int| 0 <= k < a.inputs.len() ==> #[trigger] a.inputs@[k] == var(ag.inputs@[k].lit)
                &&& a.latchs.len() == ag.latches.len()
                &&& forall|k: int| 0 <= k < a.latchs.len() ==> #[trigger] a.latchs@[k] == latch_of(ag.latches@[k])
                &&& sym_edges(ag.outputs@, a.outputs@)
                &&& sym_edges(ag.bad@, a.bads@)
                &&& sym_edges(ag.constraints@, a.constraints@)
                &&& sym_edges(ag.fairness@, a.fairness@)
                &&& a.justice.len() == ag.justice.len()
                &&& forall|j: int| 0 <= j < a.justice.len() ==> (#[trigger] a.justice@[j]).len() == ag.justice@[j].lits.len()
                &&& forall|j: int, k: int| 0 <= j < a.justice.len() && 0 <= k < a.justice@[j].len() ==> #[trigger] a.justice@[j]@[k] == lit_e(ag.justice@[j].lits@[k])
                &&& forall|x: usize| #[trigger] symbol_names(a.symbols).contains_key(x) ==> named_record(*ag, x, symbol_names(a.symbols)[x])
                &&& forall|x: usize| #[trigger] symbol_names(a.symbols).contains_key(x) ==> (x as int) < a.nodes.len()
                &&& forall|k: int| 0 <= k < ag.inputs.len() && (#[trigger] ag.inputs@[k]).name is Some ==> symbol_names(a.symbols).contains_key(var(ag.inputs@[k].lit) as usize)
                &&& forall|k: int| 0 <= k < ag.latches.len() && (#[trigger] ag.latches@[k]).name is Some ==> symbol_names(a.symbols).contains_key(var(ag.latches@[k].lit) as usize)
            },
    {
        if !Self::aiger_is_valid(ag) {
            return None;
        }
        let n = ag.inputs.len() + ag.latches.len() + ag.ands.len() + 1;
        let mut nodes: Vec<AigNode> = Vec::new();
        nodes.push(AigNode { id: 0, typ: AigNodeType::False });
        let mut i: usize = 1;
        while i < n
            invariant
                1 <= i <= n,
                nodes.len() == i,
                nodes@[0] == (AigNode { id: 0, typ: AigNodeType::False }),
                forall|p: int| 1 <= p < i ==> #[trigger] nodes@[p] == (AigNode { id: p as usize, typ: AigNodeType::Leaf }),
            decreases n - i,
        {
            nodes.push(AigNode { id: i, typ: AigNodeType::Leaf });
            i += 1;
        }
        let mut k: usize = 0;
        while k < ag.ands.len()
            invariant
                aiger_valid(*ag),
                n == node_count(*ag),
                nodes.len() == n,
                k <= ag.ands.len(),
                nodes@[0] == (AigNode { id: 0, typ: AigNodeType::False }),
                forall|p: int| 0 <= p < n ==> #[trigger] node_ok(nodes@, p),
                forall|p: int| 0 <= p < k ==> #[trigger] nodes@[var(ag.ands@[p].lhs)] == (AigNode {
                    id: var(ag.ands@[p].lhs) as usize,
                    typ: AigNodeType::And(canon(lit_e(ag.ands@[p].rhs0), lit_e(ag.ands@[p].rhs1)).0, canon(lit_e(ag.ands@[p].rhs0), lit_e(ag.ands@[p].rhs1)).1),
                }),
                forall|v: int| 1 <= v < n && !(exists|p: int| 0 <= p < k && var(ag.ands@[p].lhs) == v) ==> (#[trigger] nodes@[v]).typ is Leaf,
            decreases ag.ands.len() - k,
        {
            let a = ag.ands[k];
            assert(1 <= var(ag.ands@[k as int].lhs) < n);
            let v = (a.lhs / 2) as usize;
            let ghost prev = nodes@;
            nodes.set(v, AigNode::new_and(v, edge_of(a.rhs0), edge_of(a.rhs1)));
            assert forall|p: int| 0 <= p < n implies #[trigger] node_ok(nodes@, p) by {
                if p != v {
                    assert(node_ok(prev, p));
                }
            }
            assert forall|p: int| 0 <= p < k + 1 implies #[trigger] nodes@[var(ag.ands@[p].lhs)] == (AigNode {
                id: var(ag.ands@[p].lhs) as usize,
                typ: AigNodeType::And(canon(lit_e(ag.ands@[p].rhs0), lit_e(ag.ands@[p].rhs1)).0, canon(lit_e(ag.ands@[p].rhs0), lit_e(ag.ands@[p].rhs1)).1),
            }) by {
                if p < k {
                    assert(var(ag.ands@[p].lhs) != var(ag.ands@[k as int].lhs));
                }
            }
            assert forall|w: int| 1 <= w < n && !(exists|p: int| 0 <= p < k + 1 && var(ag.ands@[p].lhs) == w) implies (#[trigger] nodes@[w]).typ is Leaf by {
                assert(var(ag.ands@[k as int].lhs) != w);
                assert(!(exists|p: int| 0 <= p < k && var(ag.ands@[p].lhs) == w)) by {
                    if exists|p: int| 0 <= p < k && var(ag.ands@[p].lhs) == w {
                        let p = choose|p: int| 0 <= p < k && var(ag.ands@[p].lhs) == w;
                        assert(0 <= p < k + 1 && var(ag.ands@[p].lhs) == w);
                    }
                }
            }
            k += 1;
        }
        assert forall|v: int| 1 <= v < n && !and_var(*ag, v) implies (#[trigger] nodes@[v]).typ is Leaf by {
            assert(!(exists|p: int| 0 <= p < ag.ands.len() && var(ag.ands@[p].lhs) == v)) by {
                if exists|p: int| 0 <= p < ag.ands.len() && var(ag.ands@[p].lhs) == v {
                    let p = choose|p: int| 0 <= p < ag.ands.len() && var(ag.ands@[p].lhs) == v;
                    assert(var(ag.ands@[p].lhs) == v);
                }
            }
        }
        let mut symbols = symbols_new();
        let mut inputs: Vec<usize> = Vec::new();
        let mut k: usize = 0;
        while k < ag.inputs.len()
            invariant
                aiger_valid(*ag),
                n == node_count(*ag),
                nodes.len() == n,
                forall|v: int| 1 <= v < n && !and_var(*ag, v) ==> (#[trigger] nodes@[v]).typ is Leaf,
                k <= ag.inputs.len(),
                inputs.len() == k,
                forall|p: int| 0 <= p < k ==> #[trigger] inputs@[p] == var(ag.inputs@[p].lit),
                forall|p: int| 0 <= p < k ==> is_leaf_at(nodes@, #[trigger] inputs@[p]),
                forall|x: usize| #[trigger] symbol_names(symbols).contains_key(x) ==> named_record(*ag, x, symbol_names(symbols)[x]),
                forall|p: int| 0 <= p < k && (#[trigger] ag.inputs@[p]).name is Some ==> symbol_names(symbols).contains_key(var(ag.inputs@[p].lit) as usize),
            decreases ag.inputs.len() - k,
        {
            let s = &ag.inputs[k];
            assert(1 <= var(ag.inputs@[k as int].lit) < n);
            let v = (s.lit / 2) as usize;
            let ghost before = symbol_names(symbols);
            match &s.name {
                Some(name) => {
                    symbols_insert(&mut symbols, v, name.clone());
                    assert forall|x: usize| #[trigger] symbol_names(symbols).contains_key(x) implies named_record(*ag, x, symbol_names(symbols)[x]) by {
                        if x == v {
                            assert(ag.inputs@[k as int].name is Some && var(ag.inputs@[k as int].lit) == x);
                        } else {
                            assert(before.contains_key(x));
                        }
                    }
                },
                None => {},
            }
            inputs.push(v);
            k += 1;
        }
        let mut latchs: Vec<AigLatch> = Vec::new();
        let mut k: usize = 0;
        while k < ag.latches.len()
            invariant
                aiger_valid(*ag),
                n == node_count(*ag),
                nodes.len() == n,
                forall|v: int| 1 <= v < n && !and_var(*ag, v) ==> (#[trigger] nodes@[v]).typ is Leaf,
                k <= ag.latches.len(),
                latchs.len() == k,
                forall|p: int| 0 <= p < k ==> #[trigger] latchs@[p] == latch_of(ag.latches@[p]),
                forall|p: int| 0 <= p < k ==> latch_ok(nodes@, #[trigger] latchs@[p]),
                forall|x: usize| #[trigger] symbol_names(symbols).contains_key(x) ==> named_record(*ag, x, symbol_names(symbols)[x]),
                forall|p: int| 0 <= p < ag.inputs.len() && (#[trigger] ag.inputs@[p]).name is Some ==> symbol_names(symbols).contains_key(var(ag.inputs@[p].lit) as usize),
                forall|p: int| 0 <= p < k && (#[trigger] ag.latches@[p]).name is Some ==> symbol_names(symbols).contains_key(var(ag.latches@[p].lit) as usize),
            decreases ag.latches.len() - k,
        {
            let s = &ag.latches[k];
            assert(1 <= var(ag.latches@[k as int].lit) < n);
            let v = (s.lit / 2) as usize;
            let init = if s.reset / 2 == s.lit / 2 {
                None
            } else {
                Some(edge_of(s.reset))
            };
            let ghost before = symbol_names(symbols);
            match &s.name {
                Some(name) => {
                    symbols_insert(&mut symbols, v, name.clone());
                    assert forall|x: usize| #[trigger] symbol_names(symbols).contains_key(x) implies named_record(*ag, x, symbol_names(symbols)[x]) by {
                        if x == v {
                            assert(ag.latches@[k as int].name is Some && var(ag.latches@[k as int].lit) == x);
                        } else {
                            assert(before.contains_key(x));
                        }
                    }
                },
                None => {},
            }
            latchs.push(AigLatch { input: v, next: edge_of(s.next), init });
            k += 1;
        }
        let outputs = edges_of(&ag.outputs, n);
        let bads = edges_of(&ag.bad, n);
        let constraints = edges_of(&ag.constraints, n);
        let fairness = edges_of(&ag.fairness, n);
        let mut justice: Vec<Vec<AigEdge>> = Vec::new();
        let mut j: usize = 0;
        while j < ag.justice.len()
            invariant
                aiger_valid(*ag),
                n == node_count(*ag),
                j <= ag.justice.len(),
                justice.len() == j,
                forall|j2: int| 0 <= j2 < j ==> (#[trigger] justice@[j2]).len() == ag.justice@[j2].lits.len(),
                forall|j2: int, p: int| 0 <= j2 < j && 0 <= p < justice@[j2].len() ==> #[trigger] justice@[j2]@[p] == lit_e(ag.justice@[j2].lits@[p]),
                forall|j2: int| 0 <= j2 < j ==> edges_in(#[trigger] justice@[j2]@, n as int),
            decreases ag.justice.len() - j,
        {
            let mut e: Vec<AigEdge> = Vec::new();
            let mut p: usize = 0;
            while p < ag.justice[j].lits.len()
                invariant
                    aiger_valid(*ag),
                    n == node_count(*ag),
                    j < ag.justice.len(),
                    p <= ag.justice@[j as int].lits.len(),
                    e.len() == p,
                    forall|q: int| 0 <= q < p ==> #[trigger] e@[q] == lit_e(ag.justice@[j as int].lits@[q]),
                    edges_in(e@, n as int),
                decreases ag.justice@[j as int].lits.len() - p,
            {
                assert(lit_in(ag.justice@[j as int].lits@[p as int], n as int));
                e.push(edge_of(ag.justice[j].lits[p]));
                p += 1;
            }
            justice.push(e);
            j += 1;
        }
        assert forall|x: usize| #[trigger] symbol_names(symbols).contains_key(x) implies (x as int) < n by {
            assert(named_record(*ag, x, symbol_names(symbols)[x]));
            if exists|k: int| 0 <= k < ag.inputs.len() && (#[trigger] ag.inputs@[k]).name is Some && var(ag.inputs@[k].lit) == x
                && ag.inputs@[k].name->0@ == symbol_names(symbols)[x] {
                let k = choose|k: int| 0 <= k < ag.inputs.len() && (#[trigger] ag.inputs@[k]).name is Some && var(ag.inputs@[k].lit) == x
                    && ag.inputs@[k].name->0@ == symbol_names(symbols)[x];
                assert(1 <= var(ag.inputs@[k].lit) < n);
            } else {
                let k = choose|k: int| 0 <= k < ag.latches.len() && (#[trigger] ag.latches@[k]).name is Some && var(ag.latches@[k].lit) == x
                    && ag.latches@[k].name->0@ == symbol_names(symbols)[x];
                assert(1 <= var(ag.latches@[k].lit) < n);
            }
        }
        let a = Aig { nodes, inputs, latchs, outputs, bads, constraints, justice, fairness, symbols };
        assert(nodes_wf(a.nodes@));
        Some(a)
    }
}

} // verus!
