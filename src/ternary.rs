//! Three-valued simulation over 0, 1 and X (unknown).
use crate::aig::{is_leaf_at, latch_ok, node_ok, Aig};
use crate::edge::AigEdge;
use crate::node::{AigLatch, AigNode, AigNodeType};
use vstd::prelude::*;

verus! {

/// A three-valued signal: false, true, or unknown.
#[derive(Debug, Clone, Copy, PartialEq, Eq, Structural)]
pub enum Ternary {
    False,
    True,
    X,
}

pub open spec fn t_not(a: Ternary) -> Ternary {
    match a {
        Ternary::False => Ternary::True,
        Ternary::True => Ternary::False,
        Ternary::X => Ternary::X,
    }
}

pub open spec fn t_not_if(a: Ternary, c: bool) -> Ternary {
    if c {
        t_not(a)
    } else {
        a
    }
}

pub open spec fn t_and(a: Ternary, b: Ternary) -> Ternary {
    if a == Ternary::False || b == Ternary::False {
        Ternary::False
    } else if a == Ternary::True && b == Ternary::True {
        Ternary::True
    } else {
        Ternary::X
    }
}

/// `a` is `b` or unknown: it is no more defined than `b`.
pub open spec fn t_le(a: Ternary, b: Ternary) -> bool {
    a == Ternary::X || a == b
}

impl Ternary {
    pub fn not(self) -> (r: Ternary)
        ensures
            r == t_not(self),
    {
        match self {
            Ternary::False => Ternary::True,
            Ternary::True => Ternary::False,
            Ternary::X => Ternary::X,
        }
    }

    pub fn not_if(self, c: bool) -> (r: Ternary)
        ensures
            r == t_not_if(self, c),
    {
        if c {
            self.not()
        } else {
            self
        }
    }

    pub fn and(self, o: Ternary) -> (r: Ternary)
        ensures
            r == t_and(self, o),
    {
        if self == Ternary::False || o == Ternary::False {
            Ternary::False
        } else if self == Ternary::True && o == Ternary::True {
            Ternary::True
        } else {
            Ternary::X
        }
    }
}

/// The value that the last of `ids` equal to `i` takes in `vals`, or
/// `dflt` when none is.
pub open spec fn assign(ids: Seq<usize>, vals: Seq<Ternary>, i: int, dflt: Ternary) -> Ternary
    decreases ids.len(),
{
    if ids.len() == 0 {
        dflt
    } else if ids.last() == i {
        vals[ids.len() - 1]
    } else {
        assign(ids.drop_last(), vals, i, dflt)
    }
}

/// The same over the leaves of latches.
pub open spec fn assign_latch(ls: Seq<AigLatch>, vals: Seq<Ternary>, i: int, dflt: Ternary) -> Ternary
    decreases ls.len(),
{
    if ls.len() == 0 {
        dflt
    } else if ls.last().input == i {
        vals[ls.len() - 1]
    } else {
        assign_latch(ls.drop_last(), vals, i, dflt)
    }
}

/// The leaf values: a latch leaf takes its state, an input its input value,
/// any other node X.
pub open spec fn leaf_vals(a: Aig, input: Seq<Ternary>, state: Seq<Ternary>) -> Seq<Ternary> {
    Seq::new(a.nodes.len() as nat, |i: int| assign_latch(a.latchs@, state, i, assign(a.inputs@, input, i, Ternary::X)))
}

/// The ternary value of node `i` when the leaves take `base`.
pub open spec fn t_val(nodes: Seq<AigNode>, base: Seq<Ternary>, i: nat) -> Ternary
    decreases i,
{
    if i < nodes.len() {
        match nodes[i as int].typ {
            AigNodeType::False => Ternary::False,
            AigNodeType::Leaf => base[i as int],
            AigNodeType::And(f0, f1) => if (f0.id as nat) < i && (f1.id as nat) < i {
                t_and(
                    t_not_if(t_val(nodes, base, f0.id as nat), f0.complement),
                    t_not_if(t_val(nodes, base, f1.id as nat), f1.complement),
                )
            } else {
                Ternary::False
            },
        }
    } else {
        Ternary::False
    }
}

/// The values of all nodes.
pub open spec fn t_vals(nodes: Seq<AigNode>, base: Seq<Ternary>) -> Seq<Ternary> {
    Seq::new(nodes.len(), |i: int| t_val(nodes, base, i as nat))
}

proof fn lemma_assign_step(ids: Seq<usize>, vals: Seq<Ternary>, k: int, i: int, dflt: Ternary)
    requires
        0 <= k < ids.len(),
    ensures
        assign(ids.take(k + 1), vals, i, dflt) == if ids[k] == i { vals[k] } else { assign(ids.take(k), vals, i, dflt) },
{
    assert(ids.take(k + 1).drop_last() =~= ids.take(k));
}

proof fn lemma_assign_latch_step(ls: Seq<AigLatch>, vals: Seq<Ternary>, k: int, i: int, dflt: Ternary)
    requires
        0 <= k < ls.len(),
    ensures
        assign_latch(ls.take(k + 1), vals, i, dflt) == if ls[k].input == i { vals[k] } else { assign_latch(ls.take(k), vals, i, dflt) },
{
    assert(ls.take(k + 1).drop_last() =~= ls.take(k));
}

proof fn lemma_assign_mono(ids: Seq<usize>, v1: Seq<Ternary>, v2: Seq<Ternary>, i: int, d1: Ternary, d2: Ternary)
    requires
        t_le(d1, d2),
        forall|k: int| 0 <= k < ids.len() ==> t_le(#[trigger] v1[k], v2[k]),
    ensures
        t_le(assign(ids, v1, i, d1), assign(ids, v2, i, d2)),
    decreases ids.len(),
{
    if ids.len() > 0 && ids.last() != i {
        lemma_assign_mono(ids.drop_last(), v1, v2, i, d1, d2);
    }
}

proof fn lemma_assign_latch_mono(ls: Seq<AigLatch>, v1: Seq<Ternary>, v2: Seq<Ternary>, i: int, d1: Ternary, d2: Ternary)
    requires
        t_le(d1, d2),
        forall|k: int| 0 <= k < ls.len() ==> t_le(#[trigger] v1[k], v2[k]),
    ensures
        t_le(assign_latch(ls, v1, i, d1), assign_latch(ls, v2, i, d2)),
    decreases ls.len(),
{
    if ls.len() > 0 && ls.last().input != i {
        lemma_assign_latch_mono(ls.drop_last(), v1, v2, i, d1, d2);
    }
}

proof fn lemma_t_val_mono(nodes: Seq<AigNode>, b1: Seq<Ternary>, b2: Seq<Ternary>, i: nat)
    requires
        b1.len() == nodes.len(),
        b2.len() == nodes.len(),
        forall|k: int| 0 <= k < nodes.len() ==> t_le(#[trigger] b1[k], b2[k]),
    ensures
        t_le(t_val(nodes, b1, i), t_val(nodes, b2, i)),
    decreases i,
{
    if i < nodes.len() {
        match nodes[i as int].typ {
            AigNodeType::And(f0, f1) => {
                if (f0.id as nat) < i && (f1.id as nat) < i {
                    lemma_t_val_mono(nodes, b1, b2, f0.id as nat);
                    lemma_t_val_mono(nodes, b1, b2, f1.id as nat);
                }
            },
            _ => {},
        }
    }
}

/// Ternary monotonicity: when each input and state value is either kept or
/// replaced by X, every node's value is either kept or becomes X, never the
/// opposite constant.
pub proof fn lemma_ternary_monotone(
    a: Aig,
    in1: Seq<Ternary>,
    in2: Seq<Ternary>,
    st1: Seq<Ternary>,
    st2: Seq<Ternary>,
)
    requires
        a.wf(),
        in1.len() == a.inputs.len(),
        in2.len() == a.inputs.len(),
        st1.len() == a.latchs.len(),
        st2.len() == a.latchs.len(),
        forall|k: int| 0 <= k < in1.len() ==> t_le(#[trigger] in1[k], in2[k]),
        forall|k: int| 0 <= k < st1.len() ==> t_le(#[trigger] st1[k], st2[k]),
    ensures
        forall|i: int| 0 <= i < a.nodes.len() ==> t_le(
            #[trigger] t_vals(a.nodes@, leaf_vals(a, in1, st1))[i],
            t_vals(a.nodes@, leaf_vals(a, in2, st2))[i],
        ),
{
    let b1 = leaf_vals(a, in1, st1);
    let b2 = leaf_vals(a, in2, st2);
    assert forall|k: int| 0 <= k < a.nodes.len() implies t_le(#[trigger] b1[k], b2[k]) by {
        lemma_assign_mono(a.inputs@, in1, in2, k, Ternary::X, Ternary::X);
        lemma_assign_latch_mono(a.latchs@, st1, st2, k, assign(a.inputs@, in1, k, Ternary::X), assign(a.inputs@, in2, k, Ternary::X));
    }
    assert forall|i: int| 0 <= i < a.nodes.len() implies t_le(
        #[trigger] t_vals(a.nodes@, b1)[i],
        t_vals(a.nodes@, b2)[i],
    ) by {
        lemma_t_val_mono(a.nodes@, b1, b2, i as nat);
    }
}

impl Aig {
    /// One step of ternary simulation: node 0 is 0, each input and latch
    /// leaf takes its given value, and each AND node the ternary AND of its
    /// fanins' values, inverted as the fanin edges are.
    pub fn ternary_simulate(&self, input: &[Ternary], state: &[Ternary]) -> (r: Vec<Ternary>)
        requires
            self.wf(),
            input@.len() == self.inputs.len(),
            state@.len() == self.latchs.len(),
        ensures
            r@ == t_vals(self.nodes@, leaf_vals(*self, input@, state@)),
    {
        let n = self.nodes.len();
        let mut ans: Vec<Ternary> = vec![Ternary::X; n];
        ans.set(0, Ternary::False);
        assert(self.inputs@.take(0).len() == 0);
        let mut k: usize = 0;
        while k < self.inputs.len()
            invariant
                self.wf(),
                n == self.nodes.len(),
                input@.len() == self.inputs.len(),
                k <= self.inputs.len(),
                ans.len() == n,
                ans@[0] == Ternary::False,
                forall|x: int| 0 < x < n ==> #[trigger] ans@[x] == assign(self.inputs@.take(k as int), input@, x, Ternary::X),
            decreases self.inputs.len() - k,
        {
            assert(is_leaf_at(self.nodes@, self.inputs@[k as int]));
            assert(node_ok(self.nodes@, 0));
            ans.set(self.inputs[k], input[k]);
            assert forall|x: int| 0 < x < n implies #[trigger] ans@[x] == assign(self.inputs@.take(k + 1), input@, x, Ternary::X) by {
                lemma_assign_step(self.inputs@, input@, k as int, x, Ternary::X);
            }
            k += 1;
        }
        assert(self.inputs@.take(self.inputs.len() as int) =~= self.inputs@);
        let mut k: usize = 0;
        while k < self.latchs.len()
            invariant
                self.wf(),
                n == self.nodes.len(),
                state@.len() == self.latchs.len(),
                k <= self.latchs.len(),
                ans.len() == n,
                ans@[0] == Ternary::False,
                forall|x: int| 0 < x < n ==> #[trigger] ans@[x] == assign_latch(self.latchs@.take(k as int), state@, x, assign(self.inputs@, input@, x, Ternary::X)),
            decreases self.latchs.len() - k,
        {
            assert(latch_ok(self.nodes@, self.latchs@[k as int]));
            assert(node_ok(self.nodes@, 0));
            ans.set(self.latchs[k].input, state[k]);
            assert forall|x: int| 0 < x < n implies #[trigger] ans@[x] == assign_latch(self.latchs@.take(k + 1), state@, x, assign(self.inputs@, input@, x, Ternary::X)) by {
                lemma_assign_latch_step(self.latchs@, state@, k as int, x, assign(self.inputs@, input@, x, Ternary::X));
            }
            k += 1;
        }
        assert(self.latchs@.take(self.latchs.len() as int) =~= self.latchs@);
        let ghost base = leaf_vals(*self, input@, state@);
        let mut i: usize = 1;
        while i < n
            invariant
                self.wf(),
                n == self.nodes.len(),
                base == leaf_vals(*self, input@, state@),
                1 <= i <= n,
                ans.len() == n,
                ans@[0] == Ternary::False,
                forall|x: int| 0 < x < i ==> #[trigger] ans@[x] == t_val(self.nodes@, base, x as nat),
                forall|x: int| i <= x < n ==> #[trigger] ans@[x] == base[x],
            decreases n - i,
        {
            assert(node_ok(self.nodes@, i as int));
            if self.nodes[i].is_and() {
                let f0 = self.nodes[i].fanin0();
                let f1 = self.nodes[i].fanin1();
                assert(node_ok(self.nodes@, 0));
                assert(ans@[f0.id as int] == t_val(self.nodes@, base, f0.id as nat));
                assert(ans@[f1.id as int] == t_val(self.nodes@, base, f1.id as nat));
                let v0 = ans[f0.id].not_if(f0.complement);
                let v1 = ans[f1.id].not_if(f1.complement);
                ans.set(i, v0.and(v1));
            }
            i += 1;
        }
        assert(node_ok(self.nodes@, 0));
        assert(ans@ =~= t_vals(self.nodes@, base));
        ans
    }
}

/// A sequential ternary simulator: the latch state, and the node values of
/// the last step.
pub struct TernarySimulate<'a> {
    pub aig: &'a Aig,
    pub state: Vec<Ternary>,
    pub value: Vec<Ternary>,
}

impl<'a> TernarySimulate<'a> {
    pub fn new(aig: &'a Aig, state: Vec<Ternary>) -> (r: Self)
        requires
            state@.len() == aig.latchs.len(),
        ensures
            r.aig == aig,
            r.state@ == state@,
            r.value@.len() == 0,
    {
        TernarySimulate { aig, state, value: Vec::new() }
    }

    /// Simulates one step from the current state, then moves each latch to
    /// the value of its next-state edge.
    pub fn simulate(&mut self, input: Vec<Ternary>)
        requires
            old(self).aig.wf(),
            input@.len() == old(self).aig.inputs.len(),
            old(self).state@.len() == old(self).aig.latchs.len(),
        ensures
            final(self).aig == old(self).aig,
            final(self).value@ == t_vals(old(self).aig.nodes@, leaf_vals(*old(self).aig, input@, old(self).state@)),
            final(self).state@.len() == old(self).state@.len(),
            forall|k: int| 0 <= k < final(self).state.len() ==> #[trigger] final(self).state@[k] == t_not_if(
                final(self).value@[old(self).aig.latchs@[k].next.id as int],
                old(self).aig.latchs@[k].next.complement,
            ),
    {
        self.value = self.aig.ternary_simulate(input.as_slice(), self.state.as_slice());
        let mut i: usize = 0;
        while i < self.aig.latchs.len()
            invariant
                self.aig == old(self).aig,
                self.aig.wf(),
                self.value@.len() == self.aig.nodes.len(),
                self.value@ == t_vals(old(self).aig.nodes@, leaf_vals(*old(self).aig, input@, old(self).state@)),
                self.state@.len() == self.aig.latchs.len(),
                i <= self.aig.latchs.len(),
                forall|k: int| 0 <= k < i ==> #[trigger] self.state@[k] == t_not_if(
                    self.value@[self.aig.latchs@[k].next.id as int],
                    self.aig.latchs@[k].next.complement,
                ),
            decreases self.aig.latchs.len() - i,
        {
            let ln = self.aig.latchs[i].next;
            assert(latch_ok(self.aig.nodes@, self.aig.latchs@[i as int]));
            let v = self.value[ln.id].not_if(ln.complement);
            self.state.set(i, v);
            i += 1;
        }
    }

    /// The value of an edge in the last step.
    pub fn value(&self, e: AigEdge) -> (r: Ternary)
        requires
            (e.id as int) < self.value.len(),
        ensures
            r == t_not_if(self.value@[e.id as int], e.complement),
    {
        self.value[e.id].not_if(e.complement)
    }
}

} // verus!
