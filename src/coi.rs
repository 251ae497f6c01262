//! Cone of influence: backward reachability over AND fanins and latch
//! next-state edges.
use crate::aig::{node_ok, Aig};
use crate::node::{AigLatch, AigNode};
use crate::symbols::{node_ids, node_set_insert, node_set_new, NodeSet};
use vstd::prelude::*;

verus! {

/// The number of unset flags.
pub open spec fn count_false(s: Seq<bool>) -> nat
    decreases s.len(),
{
    if s.len() == 0 {
        0
    } else {
        count_false(s.drop_last()) + (if s.last() {
            0nat
        } else {
            1nat
        })
    }
}

proof fn lemma_count_false_set(s: Seq<bool>, i: int)
    requires
        0 <= i < s.len(),
        !s[i],
    ensures
        count_false(s.update(i, true)) + 1 == count_false(s),
    decreases s.len(),
{
    let t = s.update(i, true);
    if i < s.len() - 1 {
        assert(t.drop_last() =~= s.drop_last().update(i, true));
        lemma_count_false_set(s.drop_last(), i);
    } else {
        assert(t.drop_last() =~= s.drop_last());
    }
}

/// Node `j` reaches node `i` in one step: `i` is a fanin of the AND node
/// `j`, or the next-state target of a latch whose leaf is `j`.
pub open spec fn step(nodes: Seq<AigNode>, latchs: Seq<AigLatch>, j: int, i: int) -> bool {
    ||| (nodes[j].typ is And && (nodes[j].typ->And_0.id == i || nodes[j].typ->And_1.id == i))
    ||| (exists|k: int| 0 <= k < latchs.len() && #[trigger] latchs[k].input == j && latchs[k].next.id == i)
}

/// A flagged node is closed when its successors are flagged.
pub open spec fn closed_at(nodes: Seq<AigNode>, latchs: Seq<AigLatch>, flag: Seq<bool>, j: int) -> bool {
    &&& (nodes[j].typ is And ==> flag[nodes[j].typ->And_0.id as int] && flag[nodes[j].typ->And_1.id as int])
    &&& forall|k: int| 0 <= k < latchs.len() && #[trigger] latchs[k].input == j ==> flag[latchs[k].next.id as int]
}

/// A flagged node is supported when it is the constant, a root, or a
/// successor of a flagged node.
pub open spec fn supported_at(
    nodes: Seq<AigNode>,
    latchs: Seq<AigLatch>,
    roots: Seq<usize>,
    flag: Seq<bool>,
    i: int,
) -> bool {
    ||| i == 0
    ||| roots.contains(i as usize)
    ||| exists|j: int| 0 <= j < flag.len() && #[trigger] flag[j] && step(nodes, latchs, j, i)
}

/// `dist` ranks the flagged nodes: each one that is neither the constant
/// nor a root is one step from a flagged node of smaller rank.
pub open spec fn ranked(nodes: Seq<AigNode>, latchs: Seq<AigLatch>, roots: Seq<usize>, flag: Seq<bool>, dist: Seq<nat>) -> bool {
    &&& dist.len() == flag.len()
    &&& forall|i: int| 0 <= i < flag.len() && #[trigger] flag[i] ==> i == 0 || roots.contains(i as usize) || exists|j: int|
        0 <= j < flag.len() && flag[j] && dist[j] < dist[i] && #[trigger] step(nodes, latchs, j, i)
}

/// Every flagged node is reached from the constant or a root by a chain of
/// steps: some ranking exists.
pub open spec fn all_reached(nodes: Seq<AigNode>, latchs: Seq<AigLatch>, roots: Seq<usize>, flag: Seq<bool>) -> bool {
    exists|dist: Seq<nat>| ranked(nodes, latchs, roots, flag, dist)
}

/// `flag` marks the cone of influence of `roots`: it holds the constant and
/// the roots, is closed under `step`, and holds only ids reached from the
/// constant or a root by steps, so it is the least such set.
pub open spec fn is_coi(nodes: Seq<AigNode>, latchs: Seq<AigLatch>, roots: Seq<usize>, flag: Seq<bool>) -> bool {
    &&& flag.len() == nodes.len()
    &&& flag[0]
    &&& forall|k: int| 0 <= k < roots.len() ==> flag[#[trigger] roots[k] as int]
    &&& forall|j: int| 0 <= j < flag.len() && #[trigger] flag[j] ==> closed_at(nodes, latchs, flag, j)
    &&& forall|i: int| 0 <= i < flag.len() && #[trigger] flag[i] ==> supported_at(nodes, latchs, roots, flag, i)
    &&& all_reached(nodes, latchs, roots, flag)
}

/// The membership flags of a set of ids below `n`.
pub open spec fn set_flags(ids: Set<usize>, n: nat) -> Seq<bool> {
    Seq::new(n, |i: int| ids.contains(i as usize))
}

/// The membership flags of a list of ids below `n`.
pub open spec fn flags_of(ids: Seq<usize>, n: nat) -> Seq<bool> {
    Seq::new(n, |i: int| ids.contains(i as usize))
}

/// The ids are strictly ascending.
pub open spec fn ascending(ids: Seq<usize>) -> bool {
    forall|a: int, b: int| 0 <= a < b < ids.len() ==> ids[a] < ids[b]
}

/// The queue holds distinct flagged ids.
pub open spec fn queue_ok(flag: Seq<bool>, queue: Seq<usize>) -> bool {
    &&& forall|q: int| 0 <= q < queue.len() ==> (#[trigger] queue[q] as int) < flag.len() && flag[queue[q] as int]
    &&& queue.no_duplicates()
}

/// Flags `t` and queues it, unless it is flagged already.
fn mark(flag: &mut Vec<bool>, queue: &mut Vec<usize>, t: usize)
    requires
        (t as int) < old(flag).len(),
        queue_ok(old(flag)@, old(queue)@),
    ensures
        queue_ok(final(flag)@, final(queue)@),
        final(flag).len() == old(flag).len(),
        final(queue).len() >= old(queue).len(),
        final(flag)@[t as int],
        forall|y: int| 0 <= y < old(flag).len() && old(flag)@[y] ==> #[trigger] final(flag)@[y],
        forall|y: int| 0 <= y < old(flag).len() && #[trigger] final(flag)@[y] && !old(flag)@[y] ==> y == t,
        forall|y: usize| #[trigger] final(queue)@.contains(y) ==> old(queue)@.contains(y) || y == t,
        forall|y: usize| old(queue)@.contains(y) ==> #[trigger] final(queue)@.contains(y),
        old(flag)@[t as int] ==> final(flag)@ == old(flag)@ && final(queue)@ == old(queue)@,
        !old(flag)@[t as int] ==> count_false(final(flag)@) + 1 == count_false(old(flag)@)
            && final(queue)@ == old(queue)@.push(t) && final(queue)@.contains(t),
{
    if !flag[t] {
        proof {
            lemma_count_false_set(flag@, t as int);
        }
        let ghost oq = queue@;
        assert(!queue@.contains(t));
        flag.set(t, true);
        queue.push(t);
        assert(queue@[queue@.len() - 1] == t);
        assert forall|y: usize| #[trigger] queue@.contains(y) implies oq.contains(y) || y == t by {
            let q = choose|q: int| 0 <= q < queue@.len() && queue@[q] == y;
            if q < oq.len() {
                assert(oq[q] == y);
            }
        }
        assert forall|y: usize| oq.contains(y) implies #[trigger] queue@.contains(y) by {
            let q = choose|q: int| 0 <= q < oq.len() && oq[q] == y;
            assert(queue@[q] == y);
        }
    }
}

impl Aig {
    /// The flags of the cone of influence of `root`: it holds the constant
    /// and the roots, is closed under `step`, and holds nothing else that
    /// is not reached in one step from a flagged node.
    pub fn coi_flags(&self, root: &[usize]) -> (flag: Vec<bool>)
        requires
            self.wf(),
            forall|k: int| 0 <= k < root@.len() ==> (#[trigger] root@[k] as int) < self.nodes.len(),
        ensures
            is_coi(self.nodes@, self.latchs@, root@, flag@),
    {
        let n = self.nodes.len();
        let mut flag: Vec<bool> = vec![false; n];
        let mut queue: Vec<usize> = Vec::new();
        flag.set(0, true);
        let ghost mut dist: Seq<nat> = Seq::new(n as nat, |i: int| 0nat);
        assert(ranked(self.nodes@, self.latchs@, root@, flag@, dist));
        let mut k: usize = 0;
        while k < root.len()
            invariant
                self.wf(),
                n == self.nodes.len(),
                k <= root.len(),
                flag.len() == n,
                flag@[0],
                forall|k2: int| 0 <= k2 < root@.len() ==> (#[trigger] root@[k2] as int) < n,
                forall|k2: int| 0 <= k2 < k ==> flag@[#[trigger] root@[k2] as int],
                queue_ok(flag@, queue@),
                forall|j: int| 0 <= j < n && #[trigger] flag@[j] && !queue@.contains(j as usize) ==> j == 0,
                forall|i: int| 0 <= i < n && #[trigger] flag@[i] ==> supported_at(self.nodes@, self.latchs@, root@, flag@, i),
                ranked(self.nodes@, self.latchs@, root@, flag@, dist),
            decreases root.len() - k,
        {
            let r = root[k];
            let ghost before = flag@;
            let ghost bq = queue@;
            mark(&mut flag, &mut queue, r);
            assert(root@[k as int] == r);
            assert(root@.contains(r));
            assert forall|i: int| 0 <= i < n && #[trigger] flag@[i] implies supported_at(self.nodes@, self.latchs@, root@, flag@, i) by {
                if i != r {
                    assert(before[i]);
                    assert(supported_at(self.nodes@, self.latchs@, root@, before, i));
                    if !(i == 0 || root@.contains(i as usize)) {
                        let j = choose|j: int| 0 <= j < before.len() && #[trigger] before[j] && step(self.nodes@, self.latchs@, j, i);
                        assert(flag@[j]);
                    }
                }
            }
            assert forall|i: int| 0 <= i < flag.len() && #[trigger] flag@[i] implies i == 0 || root@.contains(i as usize) || exists|j: int|
                0 <= j < flag.len() && flag@[j] && dist[j] < dist[i] && #[trigger] step(self.nodes@, self.latchs@, j, i) by {
                if i != r {
                    assert(before[i]);
                    if !(i == 0 || root@.contains(i as usize)) {
                        let j = choose|j: int| 0 <= j < before.len() && before[j] && dist[j] < dist[i] && #[trigger] step(self.nodes@, self.latchs@, j, i);
                        assert(flag@[j]);
                    }
                }
            }
            assert forall|j: int| 0 <= j < n && #[trigger] flag@[j] && !queue@.contains(j as usize) implies j == 0 by {
                if j != r {
                    assert(before[j]);
                    if bq.contains(j as usize) {
                        assert(queue@.contains(j as usize));
                    }
                } else if !before[j] {
                    assert(queue@.contains(r));
                } else {
                    assert(bq.contains(j as usize) || j == 0);
                }
            }
            k += 1;
        }
        assert(closed_at(self.nodes@, self.latchs@, flag@, 0)) by {
            assert forall|k2: int| 0 <= k2 < self.latchs.len() && #[trigger] self.latchs@[k2].input == 0 implies flag@[self.latchs@[k2].next.id as int] by {
                assert(crate::aig::latch_ok(self.nodes@, self.latchs@[k2]));
            }
        }
        while queue.len() > 0
            invariant
                self.wf(),
                n == self.nodes.len(),
                flag.len() == n,
                flag@[0],
                forall|k2: int| 0 <= k2 < root@.len() ==> (#[trigger] root@[k2] as int) < n,
                forall|k2: int| 0 <= k2 < root@.len() ==> flag@[#[trigger] root@[k2] as int],
                queue_ok(flag@, queue@),
                forall|j: int| 0 <= j < n && #[trigger] flag@[j] && !queue@.contains(j as usize) ==> closed_at(self.nodes@, self.latchs@, flag@, j),
                forall|i: int| 0 <= i < n && #[trigger] flag@[i] ==> supported_at(self.nodes@, self.latchs@, root@, flag@, i),
                ranked(self.nodes@, self.latchs@, root@, flag@, dist),
            decreases count_false(flag@), queue.len(),
        {
            let ghost fq = queue@;
            let x = queue.pop().unwrap();
            let ghost before = flag@;
            let ghost bq = queue@;
            let ghost cf0 = count_false(flag@);
            assert(fq == bq.push(x));
            assert(fq[fq.len() - 1] == x);
            assert(!bq.contains(x)) by {
                if bq.contains(x) {
                    let q = choose|q: int| 0 <= q < bq.len() && bq[q] == x;
                    assert(fq[q] == fq[fq.len() - 1]);
                }
            }
            assert(queue_ok(flag@, queue@)) by {
                assert forall|q: int| 0 <= q < queue@.len() implies (#[trigger] queue@[q] as int) < flag@.len() && flag@[queue@[q] as int] by {
                    assert(fq[q] == queue@[q]);
                }
            }
            assert(flag@[x as int]);
            if self.nodes[x].is_and() {
                let f0 = self.nodes[x].fanin0().id;
                let f1 = self.nodes[x].fanin1().id;
                assert(node_ok(self.nodes@, x as int));
                mark(&mut flag, &mut queue, f0);
                let ghost q1 = queue@;
                let ghost fl1 = flag@;
                mark(&mut flag, &mut queue, f1);
                assert forall|y: int| 0 <= y < n && #[trigger] flag@[y] && !before[y] implies queue@.contains(y as usize) by {
                    if y == f0 && !before[y] {
                        assert(q1.contains(f0));
                    }
                }
            } else {
                let mut k: usize = 0;
                while k < self.latchs.len()
                    invariant
                        self.wf(),
                        n == self.nodes.len(),
                        flag.len() == n,
                        k <= self.latchs.len(),
                        queue_ok(flag@, queue@),
                        forall|y: int| 0 <= y < n && before[y] ==> #[trigger] flag@[y],
                        forall|y: int| 0 <= y < n && #[trigger] flag@[y] && !before[y] ==> step(self.nodes@, self.latchs@, x as int, y),
                        forall|y: int| 0 <= y < n && #[trigger] flag@[y] && !before[y] ==> queue@.contains(y as usize),
                        forall|y: usize| #[trigger] queue@.contains(y) ==> bq.contains(y) || (!before[y as int] && flag@[y as int]),
                        forall|y: usize| bq.contains(y) ==> #[trigger] queue@.contains(y),
                        count_false(flag@) + queue.len() == cf0 + bq.len(),
                        queue.len() >= bq.len(),
                        forall|k2: int| 0 <= k2 < k && #[trigger] self.latchs@[k2].input == x ==> flag@[self.latchs@[k2].next.id as int],
                    decreases self.latchs.len() - k,
                {
                    if self.latchs[k].input == x {
                        let t = self.latchs[k].next.id;
                        assert(crate::aig::latch_ok(self.nodes@, self.latchs@[k as int]));
                        let ghost pf = flag@;
                        let ghost pq = queue@;
                        mark(&mut flag, &mut queue, t);
                        assert(step(self.nodes@, self.latchs@, x as int, t as int));
                        assert forall|y: usize| #[trigger] queue@.contains(y) implies bq.contains(y) || (!before[y as int] && flag@[y as int]) by {
                            if pq.contains(y) {
                            } else {
                                assert(y == t);
                                if before[t as int] {
                                    assert(pf[t as int]);
                                }
                            }
                        }
                    }
                    k += 1;
                }
            }
            assert forall|y: int| 0 <= y < n && before[y] implies #[trigger] flag@[y] by {}
            assert(count_false(flag@) + queue.len() == cf0 + bq.len());
            assert(queue.len() >= bq.len());
            assert(closed_at(self.nodes@, self.latchs@, flag@, x as int));
            assert forall|j: int| 0 <= j < n && #[trigger] flag@[j] && !queue@.contains(j as usize) implies closed_at(self.nodes@, self.latchs@, flag@, j) by {
                if j != x {
                    if before[j] {
                        assert(!fq.contains(j as usize)) by {
                            if fq.contains(j as usize) {
                                let q = choose|q: int| 0 <= q < fq.len() && fq[q] == j as usize;
                                if q < bq.len() {
                                    assert(bq[q] == j as usize);
                                    assert(queue@.contains(j as usize));
                                }
                            }
                        }
                        assert(closed_at(self.nodes@, self.latchs@, before, j));
                        assert forall|k2: int| 0 <= k2 < self.latchs.len() && #[trigger] self.latchs@[k2].input == j implies flag@[self.latchs@[k2].next.id as int] by {
                            assert(before[self.latchs@[k2].next.id as int]);
                        }
                        assert(node_ok(self.nodes@, j));
                        if self.nodes@[j].typ is And {
                            assert(before[self.nodes@[j].typ->And_0.id as int]);
                            assert(before[self.nodes@[j].typ->And_1.id as int]);
                        }
                    } else {
                        assert(queue@.contains(j as usize));
                    }
                }
            }
            assert forall|i: int| 0 <= i < n && #[trigger] flag@[i] implies supported_at(self.nodes@, self.latchs@, root@, flag@, i) by {
                if before[i] {
                    assert(supported_at(self.nodes@, self.latchs@, root@, before, i));
                    if !(i == 0 || root@.contains(i as usize)) {
                        let j = choose|j: int| 0 <= j < before.len() && #[trigger] before[j] && step(self.nodes@, self.latchs@, j, i);
                        assert(flag@[j]);
                    }
                } else {
                    assert(step(self.nodes@, self.latchs@, x as int, i));
                    assert(flag@[x as int]);
                }
            }
            proof {
                let dist2 = Seq::new(n as nat, |y: int| if flag@[y] && !before[y] { dist[x as int] + 1 } else { dist[y] });
                assert forall|i: int| 0 <= i < flag.len() && #[trigger] flag@[i] implies i == 0 || root@.contains(i as usize) || exists|j: int|
                    0 <= j < flag.len() && flag@[j] && dist2[j] < dist2[i] && #[trigger] step(self.nodes@, self.latchs@, j, i) by {
                    if before[i] {
                        if !(i == 0 || root@.contains(i as usize)) {
                            let j = choose|j: int| 0 <= j < before.len() && before[j] && dist[j] < dist[i] && #[trigger] step(self.nodes@, self.latchs@, j, i);
                            assert(flag@[j] && dist2[j] == dist[j]);
                        }
                    } else {
                        assert(step(self.nodes@, self.latchs@, x as int, i));
                        assert(flag@[x as int] && dist2[x as int] == dist[x as int]);
                    }
                }
                dist = dist2;
            }
        }
        assert(all_reached(self.nodes@, self.latchs@, root@, flag@));
        flag
    }

    /// The cone of influence of `root`, as ascending node ids: the constant,
    /// the roots, and everything they reach through AND fanins and latch
    /// next-state edges.
    pub fn coi(&self, root: &[usize]) -> (r: NodeSet)
        requires
            self.wf(),
            forall|k: int| 0 <= k < root@.len() ==> (#[trigger] root@[k] as int) < self.nodes.len(),
        ensures
            forall|x: usize| #[trigger] node_ids(r).contains(x) ==> (x as int) < self.nodes.len(),
            is_coi(self.nodes@, self.latchs@, root@, set_flags(node_ids(r), self.nodes.len() as nat)),
    {
        let flag = self.coi_flags(root);
        let n = self.nodes.len();
        let mut r = node_set_new();
        let mut i: usize = 0;
        while i < n
            invariant
                i <= n,
                flag.len() == n,
                forall|x: usize| #[trigger] node_ids(r).contains(x) <==> ((x as int) < i && flag@[x as int]),
            decreases n - i,
        {
            if flag[i] {
                node_set_insert(&mut r, i);
            }
            i += 1;
        }
        assert(set_flags(node_ids(r), n as nat) =~= flag@);
        r
    }
}

/// The ids whose flag is set, ascending.
pub fn ids_of(flag: &Vec<bool>) -> (r: Vec<usize>)
    ensures
        ascending(r@),
        forall|k: int| 0 <= k < r.len() ==> (#[trigger] r@[k] as int) < flag.len(),
        forall|i: int| 0 <= i < flag.len() ==> (r@.contains(i as usize) == #[trigger] flag@[i]),
{
    let mut r: Vec<usize> = Vec::new();
    let mut i: usize = 0;
    while i < flag.len()
        invariant
            i <= flag.len(),
            ascending(r@),
            forall|k: int| 0 <= k < r.len() ==> (#[trigger] r@[k] as int) < i,
            forall|x: int| 0 <= x < i ==> (r@.contains(x as usize) == #[trigger] flag@[x]),
        decreases flag.len() - i,
    {
        let ghost pr = r@;
        if flag[i] {
            r.push(i);
            assert(r@[r.len() - 1] == i);
        }
        assert forall|x: int| 0 <= x < i + 1 implies (r@.contains(x as usize) == #[trigger] flag@[x]) by {
            if r@.contains(x as usize) && x < i {
                let k = choose|k: int| 0 <= k < r.len() && r@[k] == x as usize;
                if k < pr.len() {
                    assert(pr[k] == x);
                }
            }
            if pr.contains(x as usize) {
                let k = choose|k: int| 0 <= k < pr.len() && pr[k] == x as usize;
                assert(r@[k] == x);
            }
            if x == i && r@.contains(x as usize) {
                let k = choose|k: int| 0 <= k < r.len() && r@[k] == x as usize;
                if k < pr.len() {
                    assert(pr[k] < i);
                }
            }
        }
        i += 1;
    }
    r
}

} // verus!
