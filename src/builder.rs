//! The folding AND constructor and the gates derived from it.
use crate::aig::{
    all_true, any_true, edge_in, edge_val, edges_in, fold_and, lemma_edge_val_prefix, true_edge,
    Aig,
};
use crate::edge::{neg, AigEdge};
use crate::node::{canon, AigNode, AigNodeType};
use vstd::prelude::*;

verus! {

/// `new` is `old` with nodes appended at the end of the arena, and the same
/// role lists.
pub open spec fn grows(old: Aig, new: Aig) -> bool {
    &&& new.wf()
    &&& old.nodes@.is_prefix_of(new.nodes@)
    &&& new.same_roles(&old)
}

pub proof fn lemma_prefix_trans(a: Seq<AigNode>, b: Seq<AigNode>, c: Seq<AigNode>)
    requires
        a.is_prefix_of(b),
        b.is_prefix_of(c),
    ensures
        a.is_prefix_of(c),
{
    assert forall|i: int| 0 <= i < a.len() implies a[i] == c[i] by {
        assert(a[i] == b.subrange(0, a.len() as int)[i]);
        assert(b[i] == c.subrange(0, b.len() as int)[i]);
    }
    assert(a =~= c.subrange(0, a.len() as int));
}

pub proof fn lemma_prefix_refl(a: Seq<AigNode>)
    ensures
        a.is_prefix_of(a),
{
    assert(a =~= a.subrange(0, a.len() as int));
}

pub proof fn lemma_prefix_push(a: Seq<AigNode>, n: AigNode)
    ensures
        a.is_prefix_of(a.push(n)),
{
    assert(a =~= a.push(n).subrange(0, a.len() as int));
}

/// `any_true` of edges is the negation of `all_true` of their negations.
pub proof fn lemma_any_all(nodes: Seq<AigNode>, vals: Seq<bool>, es: Seq<AigEdge>, ns: Seq<AigEdge>)
    requires
        ns.len() == es.len(),
        forall|k: int| 0 <= k < es.len() ==> #[trigger] ns[k] == neg(es[k]),
    ensures
        any_true(nodes, vals, es) == !all_true(nodes, vals, ns),
    decreases es.len(),
{
    if es.len() > 0 {
        lemma_any_all(nodes, vals, es.drop_last(), ns.drop_last());
    }
}

/// One more edge in the conjunction.
pub proof fn lemma_all_true_step(nodes: Seq<AigNode>, vals: Seq<bool>, es: Seq<AigEdge>, i: int)
    requires
        0 <= i < es.len(),
    ensures
        all_true(nodes, vals, es.take(i + 1)) == (all_true(nodes, vals, es.take(i)) && edge_val(
            nodes,
            vals,
            es[i],
        )),
        all_true(nodes, vals, es.take(0)),
{
    assert(es.take(i + 1).drop_last() =~= es.take(i));
    assert(es.take(0).len() == 0);
}

/// All edges of `es` keep their values in an arena that extends `s1`.
pub proof fn lemma_all_true_prefix(s1: Seq<AigNode>, s2: Seq<AigNode>, vals: Seq<bool>, es: Seq<AigEdge>)
    requires
        s1.is_prefix_of(s2),
        edges_in(es, s1.len() as int),
    ensures
        all_true(s2, vals, es) == all_true(s1, vals, es),
    decreases es.len(),
{
    if es.len() > 0 {
        lemma_all_true_prefix(s1, s2, vals, es.drop_last());
        lemma_edge_val_prefix(s1, s2, es.last());
    }
}

impl Aig {
    /// The AND of two edges, folded where the result is a constant or one of
    /// the fanins, else a new AND node.
    pub fn new_and_node(&mut self, fanin0: AigEdge, fanin1: AigEdge) -> (r: AigEdge)
        requires
            old(self).wf(),
            edge_in(fanin0, old(self).nodes.len() as int),
            edge_in(fanin1, old(self).nodes.len() as int),
        ensures
            grows(*old(self), *final(self)),
            fold_and(fanin0, fanin1) is Some ==> r == fold_and(fanin0, fanin1)->0 && final(self).nodes@
                == old(self).nodes@,
            fold_and(fanin0, fanin1) is None ==> r == (AigEdge {
                id: old(self).nodes.len() as usize,
                complement: false,
            }) && final(self).nodes@ == old(self).nodes@.push(
                AigNode {
                    id: r.id,
                    typ: AigNodeType::And(canon(fanin0, fanin1).0, canon(fanin0, fanin1).1),
                },
            ),
            edge_in(r, final(self).nodes.len() as int),
            forall|vals: Seq<bool>|
                #![trigger edge_val(final(self).nodes@, vals, r)]
                edge_val(final(self).nodes@, vals, r) == (edge_val(old(self).nodes@, vals, fanin0)
                    && edge_val(old(self).nodes@, vals, fanin1)),
    {
        proof {
            lemma_prefix_refl(self.nodes@);
        }
        let (a, b) = if fanin0.id > fanin1.id {
            (fanin1, fanin0)
        } else {
            (fanin0, fanin1)
        };
        assert(self.nodes@[0].typ is False);
        if a == AigEdge::constant(true) {
            return b;
        }
        if a == AigEdge::constant(false) {
            return AigEdge::constant(false);
        }
        if b == AigEdge::constant(true) {
            return a;
        }
        if b == AigEdge::constant(false) {
            return AigEdge::constant(false);
        }
        if a == b {
            a
        } else if a == b.not() {
            AigEdge::constant(false)
        } else {
            let ghost prev = self.nodes@;
            let r = self.trivial_new_and_node(a, b);
            proof {
                lemma_prefix_push(prev, self.nodes@.last());
                lemma_edge_val_prefix(prev, self.nodes@, a);
                lemma_edge_val_prefix(prev, self.nodes@, b);
            }
            r
        }
    }

    /// The OR of two edges without folding: a new AND node of the negations.
    pub fn trivial_new_or_node(&mut self, fanin0: AigEdge, fanin1: AigEdge) -> (r: AigEdge)
        requires
            old(self).wf(),
            edge_in(fanin0, old(self).nodes.len() as int),
            edge_in(fanin1, old(self).nodes.len() as int),
        ensures
            grows(*old(self), *final(self)),
            final(self).nodes.len() == old(self).nodes.len() + 1,
            r == (AigEdge { id: old(self).nodes.len() as usize, complement: true }),
            forall|vals: Seq<bool>|
                #![trigger edge_val(final(self).nodes@, vals, r)]
                edge_val(final(self).nodes@, vals, r) == (edge_val(old(self).nodes@, vals, fanin0)
                    || edge_val(old(self).nodes@, vals, fanin1)),
    {
        let ghost prev = self.nodes@;
        let r = self.trivial_new_and_node(fanin0.not(), fanin1.not());
        proof {
            lemma_prefix_push(prev, self.nodes@.last());
            lemma_edge_val_prefix(prev, self.nodes@, fanin0);
            lemma_edge_val_prefix(prev, self.nodes@, fanin1);
        }
        r.not()
    }

    /// The OR of two edges: the negated AND of their negations.
    pub fn new_or_node(&mut self, fanin0: AigEdge, fanin1: AigEdge) -> (r: AigEdge)
        requires
            old(self).wf(),
            edge_in(fanin0, old(self).nodes.len() as int),
            edge_in(fanin1, old(self).nodes.len() as int),
        ensures
            grows(*old(self), *final(self)),
            edge_in(r, final(self).nodes.len() as int),
            fold_and(neg(fanin0), neg(fanin1)) is Some ==> r == neg(
                fold_and(neg(fanin0), neg(fanin1))->0,
            ) && final(self).nodes@ == old(self).nodes@,
            fold_and(neg(fanin0), neg(fanin1)) is None ==> final(self).nodes.len() == old(
                self,
            ).nodes.len() + 1,
            forall|vals: Seq<bool>|
                #![trigger edge_val(final(self).nodes@, vals, r)]
                edge_val(final(self).nodes@, vals, r) == (edge_val(old(self).nodes@, vals, fanin0)
                    || edge_val(old(self).nodes@, vals, fanin1)),
    {
        let r = self.new_and_node(fanin0.not(), fanin1.not());
        assert forall|vals: Seq<bool>|
            #![trigger edge_val(self.nodes@, vals, neg(r))]
            edge_val(self.nodes@, vals, neg(r)) == (edge_val(old(self).nodes@, vals, fanin0)
                || edge_val(old(self).nodes@, vals, fanin1)) by {
            assert(edge_val(self.nodes@, vals, r) == (edge_val(old(self).nodes@, vals, neg(fanin0))
                && edge_val(old(self).nodes@, vals, neg(fanin1))));
        }
        r.not()
    }

    /// The implication `fanin0 -> fanin1`.
    pub fn new_imply_node(&mut self, fanin0: AigEdge, fanin1: AigEdge) -> (r: AigEdge)
        requires
            old(self).wf(),
            edge_in(fanin0, old(self).nodes.len() as int),
            edge_in(fanin1, old(self).nodes.len() as int),
        ensures
            grows(*old(self), *final(self)),
            edge_in(r, final(self).nodes.len() as int),
            forall|vals: Seq<bool>|
                #![trigger edge_val(final(self).nodes@, vals, r)]
                edge_val(final(self).nodes@, vals, r) == (!edge_val(old(self).nodes@, vals, fanin0)
                    || edge_val(old(self).nodes@, vals, fanin1)),
    {
        self.new_or_node(fanin0.not(), fanin1)
    }

    /// The equivalence `fanin0 <-> fanin1`: the OR of `fanin0 & fanin1` and
    /// `!fanin0 & !fanin1`.
    pub fn new_eq_node(&mut self, fanin0: AigEdge, fanin1: AigEdge) -> (r: AigEdge)
        requires
            old(self).wf(),
            edge_in(fanin0, old(self).nodes.len() as int),
            edge_in(fanin1, old(self).nodes.len() as int),
        ensures
            grows(*old(self), *final(self)),
            edge_in(r, final(self).nodes.len() as int),
            forall|vals: Seq<bool>|
                #![trigger edge_val(final(self).nodes@, vals, r)]
                edge_val(final(self).nodes@, vals, r) == (edge_val(old(self).nodes@, vals, fanin0)
                    == edge_val(old(self).nodes@, vals, fanin1)),
    {
        let ghost s0 = self.nodes@;
        let x = self.new_and_node(fanin0, fanin1);
        let ghost s1 = self.nodes@;
        let y = self.new_and_node(fanin0.not(), fanin1.not());
        let ghost s2 = self.nodes@;
        proof {
            lemma_edge_val_prefix(s0, s1, fanin0);
            lemma_edge_val_prefix(s0, s1, fanin1);
            lemma_edge_val_prefix(s1, s2, x);
        }
        let r = self.new_or_node(x, y);
        proof {
            lemma_prefix_trans(s0, s1, s2);
            lemma_prefix_trans(s0, s2, self.nodes@);
        }
        r
    }

    /// The conjunction of all edges of `fanin`, folded as `new_and_node`
    /// folds; the constant true when `fanin` is empty.
    pub fn new_ands_node(&mut self, fanin: Vec<AigEdge>) -> (r: AigEdge)
        requires
            old(self).wf(),
            edges_in(fanin@, old(self).nodes.len() as int),
        ensures
            grows(*old(self), *final(self)),
            edge_in(r, final(self).nodes.len() as int),
            fanin.len() == 0 ==> r == true_edge() && final(self).nodes@ == old(self).nodes@,
            fanin.len() == 1 ==> r == fanin[0] && final(self).nodes@ == old(self).nodes@,
            forall|vals: Seq<bool>|
                #![trigger edge_val(final(self).nodes@, vals, r)]
                edge_val(final(self).nodes@, vals, r) == all_true(old(self).nodes@, vals, fanin@),
    {
        proof {
            lemma_prefix_refl(self.nodes@);
        }
        if fanin.len() == 0 {
            return AigEdge::constant(true);
        }
        if fanin.len() == 1 {
            assert forall|vals: Seq<bool>|
                #![trigger edge_val(self.nodes@, vals, fanin@[0])]
                edge_val(self.nodes@, vals, fanin@[0]) == all_true(self.nodes@, vals, fanin@) by {
                lemma_all_true_step(self.nodes@, vals, fanin@, 0);
                assert(fanin@.take(1) =~= fanin@);
            }
            return fanin[0];
        }
        let ghost s0 = self.nodes@;
        let mut res = AigEdge::constant(true);
        let mut i: usize = 0;
        assert(fanin@.take(0) =~= Seq::<AigEdge>::empty());
        while i < fanin.len()
            invariant
                i <= fanin.len(),
                s0 == old(self).nodes@,
                grows(*old(self), *self),
                edge_in(res, self.nodes.len() as int),
                edges_in(fanin@, s0.len() as int),
                forall|vals: Seq<bool>|
                    #![trigger edge_val(self.nodes@, vals, res)]
                    edge_val(self.nodes@, vals, res) == all_true(s0, vals, fanin@.take(i as int)),
            decreases fanin.len() - i,
        {
            let f = fanin[i];
            let ghost s1 = self.nodes@;
            let ghost pres = res;
            assert(edge_in(fanin@[i as int], s0.len() as int));
            proof {
                lemma_edge_val_prefix(s0, s1, f);
            }
            res = self.new_and_node(res, f);
            proof {
                lemma_prefix_trans(s0, s1, self.nodes@);
                assert(fanin@.take(i + 1).drop_last() =~= fanin@.take(i as int));
            }
            assert forall|vals: Seq<bool>|
                #![trigger edge_val(self.nodes@, vals, res)]
                edge_val(self.nodes@, vals, res) == all_true(s0, vals, fanin@.take(i + 1)) by {
                assert(edge_val(s1, vals, pres) == all_true(s0, vals, fanin@.take(i as int)));
            }
            i += 1;
        }
        assert(fanin@.take(i as int) =~= fanin@);
        res
    }

    /// The conjunction of all edges of `fanin` as a chain of new AND nodes,
    /// without folding; the constant true when `fanin` is empty.
    pub fn trivial_new_ands_node(&mut self, fanin: Vec<AigEdge>) -> (r: AigEdge)
        requires
            old(self).wf(),
            edges_in(fanin@, old(self).nodes.len() as int),
        ensures
            grows(*old(self), *final(self)),
            edge_in(r, final(self).nodes.len() as int),
            fanin.len() == 0 ==> r == true_edge() && final(self).nodes@ == old(self).nodes@,
            fanin.len() == 1 ==> r == fanin[0] && final(self).nodes@ == old(self).nodes@,
            fanin.len() >= 2 ==> final(self).nodes.len() == old(self).nodes.len() + fanin.len() - 1,
            forall|vals: Seq<bool>|
                #![trigger edge_val(final(self).nodes@, vals, r)]
                edge_val(final(self).nodes@, vals, r) == all_true(old(self).nodes@, vals, fanin@),
    {
        proof {
            lemma_prefix_refl(self.nodes@);
        }
        if fanin.len() == 0 {
            return AigEdge::constant(true);
        }
        if fanin.len() == 1 {
            assert forall|vals: Seq<bool>|
                #![trigger edge_val(self.nodes@, vals, fanin@[0])]
                edge_val(self.nodes@, vals, fanin@[0]) == all_true(self.nodes@, vals, fanin@) by {
                lemma_all_true_step(self.nodes@, vals, fanin@, 0);
                assert(fanin@.take(1) =~= fanin@);
            }
            return fanin[0];
        }
        let ghost s0 = self.nodes@;
        assert(edge_in(fanin@[0], s0.len() as int));
        assert(edge_in(fanin@[1], s0.len() as int));
        let mut res = self.trivial_new_and_node(fanin[0], fanin[1]);
        proof {
            lemma_prefix_push(s0, self.nodes@.last());
            lemma_edge_val_prefix(s0, self.nodes@, fanin@[0]);
            lemma_edge_val_prefix(s0, self.nodes@, fanin@[1]);
        }
        assert forall|vals: Seq<bool>|
            #![trigger edge_val(self.nodes@, vals, res)]
            edge_val(self.nodes@, vals, res) == all_true(s0, vals, fanin@.take(2)) by {
            lemma_all_true_step(s0, vals, fanin@, 0);
            lemma_all_true_step(s0, vals, fanin@, 1);
        }
        let mut i: usize = 2;
        while i < fanin.len()
            invariant
                2 <= i <= fanin.len(),
                s0 == old(self).nodes@,
                grows(*old(self), *self),
                self.nodes.len() == s0.len() + i - 1,
                edge_in(res, self.nodes.len() as int),
                edges_in(fanin@, s0.len() as int),
                forall|vals: Seq<bool>|
                    #![trigger edge_val(self.nodes@, vals, res)]
                    edge_val(self.nodes@, vals, res) == all_true(s0, vals, fanin@.take(i as int)),
            decreases fanin.len() - i,
        {
            let f = fanin[i];
            let ghost s1 = self.nodes@;
            let ghost pres = res;
            assert(edge_in(fanin@[i as int], s0.len() as int));
            res = self.trivial_new_and_node(res, f);
            proof {
                lemma_prefix_push(s1, self.nodes@.last());
                lemma_prefix_trans(s0, s1, self.nodes@);
                lemma_edge_val_prefix(s0, self.nodes@, f);
                lemma_edge_val_prefix(s1, self.nodes@, pres);
                assert(fanin@.take(i + 1).drop_last() =~= fanin@.take(i as int));
            }
            assert forall|vals: Seq<bool>|
                #![trigger edge_val(self.nodes@, vals, res)]
                edge_val(self.nodes@, vals, res) == all_true(s0, vals, fanin@.take(i + 1)) by {
                assert(edge_val(s1, vals, pres) == all_true(s0, vals, fanin@.take(i as int)));
            }
            i += 1;
        }
        assert(fanin@.take(i as int) =~= fanin@);
        res
    }

    /// The disjunction of all edges of `fanin`: the negated conjunction of
    /// their negations; the constant false when `fanin` is empty.
    pub fn new_ors_node(&mut self, fanin: Vec<AigEdge>) -> (r: AigEdge)
        requires
            old(self).wf(),
            edges_in(fanin@, old(self).nodes.len() as int),
        ensures
            grows(*old(self), *final(self)),
            edge_in(r, final(self).nodes.len() as int),
            forall|vals: Seq<bool>|
                #![trigger edge_val(final(self).nodes@, vals, r)]
                edge_val(final(self).nodes@, vals, r) == any_true(old(self).nodes@, vals, fanin@),
    {
        let ns = negate_all(&fanin);
        let r = self.new_ands_node(ns);
        proof {
            assert forall|vals: Seq<bool>|
                #![trigger edge_val(self.nodes@, vals, neg(r))]
                edge_val(self.nodes@, vals, neg(r)) == any_true(old(self).nodes@, vals, fanin@) by {
                lemma_any_all(old(self).nodes@, vals, fanin@, ns@);
                assert(edge_val(self.nodes@, vals, r) == all_true(old(self).nodes@, vals, ns@));
            }
        }
        r.not()
    }

    /// The disjunction of all edges of `fanin` without folding.
    pub fn trivial_new_ors_node(&mut self, fanin: Vec<AigEdge>) -> (r: AigEdge)
        requires
            old(self).wf(),
            edges_in(fanin@, old(self).nodes.len() as int),
        ensures
            grows(*old(self), *final(self)),
            edge_in(r, final(self).nodes.len() as int),
            fanin.len() >= 2 ==> final(self).nodes.len() == old(self).nodes.len() + fanin.len() - 1,
            forall|vals: Seq<bool>|
                #![trigger edge_val(final(self).nodes@, vals, r)]
                edge_val(final(self).nodes@, vals, r) == any_true(old(self).nodes@, vals, fanin@),
    {
        let ns = negate_all(&fanin);
        let r = self.trivial_new_ands_node(ns);
        proof {
            assert forall|vals: Seq<bool>|
                #![trigger edge_val(self.nodes@, vals, neg(r))]
                edge_val(self.nodes@, vals, neg(r)) == any_true(old(self).nodes@, vals, fanin@) by {
                lemma_any_all(old(self).nodes@, vals, fanin@, ns@);
                assert(edge_val(self.nodes@, vals, r) == all_true(old(self).nodes@, vals, ns@));
            }
        }
        r.not()
    }
}

/// The negation of each edge.
pub fn negate_all(es: &Vec<AigEdge>) -> (r: Vec<AigEdge>)
    ensures
        r.len() == es.len(),
        forall|k: int| 0 <= k < es.len() ==> #[trigger] r[k] == neg(es[k]),
{
    let mut r: Vec<AigEdge> = Vec::new();
    let mut i: usize = 0;
    while i < es.len()
        invariant
            i <= es.len(),
            r.len() == i,
            forall|k: int| 0 <= k < i ==> #[trigger] r[k] == neg(es[k]),
        decreases es.len() - i,
    {
        r.push(es[i].not());
        i += 1;
    }
    r
}

} // verus!
