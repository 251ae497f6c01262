//! Nodes of the arena and latches.
use crate::edge::AigEdge;
use vstd::prelude::*;

verus! {

/// A latch: its current-state leaf, its next-state edge and its initial value
/// (`None` when undefined).
#[derive(Debug, Clone, Copy, PartialEq, Eq, Structural)]
pub struct AigLatch {
    pub input: usize,
    pub next: AigEdge,
    pub init: Option<AigEdge>,
}

impl AigLatch {
    pub fn new(input: usize, next: AigEdge, init: Option<AigEdge>) -> (r: Self)
        ensures
            r == (AigLatch { input, next, init }),
    {
        AigLatch { input, next, init }
    }
}

/// What a node is: the constant false, a leaf (input or latch output), or a
/// two-input AND gate.
#[derive(Debug, Clone, Copy, PartialEq, Eq, Structural)]
pub enum AigNodeType {
    False,
    Leaf,
    And(AigEdge, AigEdge),
}

#[derive(Debug, Clone, Copy, PartialEq, Eq, Structural)]
pub struct AigNode {
    pub id: usize,
    pub typ: AigNodeType,
}

/// The fanin pair in canonical order: the smaller node id first.
pub open spec fn canon(a: AigEdge, b: AigEdge) -> (AigEdge, AigEdge) {
    if a.id > b.id {
        (b, a)
    } else {
        (a, b)
    }
}

impl AigNode {
    pub fn node_id(&self) -> (r: usize)
        ensures
            r == self.id,
    {
        self.id
    }

    pub fn is_and(&self) -> (r: bool)
        ensures
            r == self.typ is And,
    {
        matches!(self.typ, AigNodeType::And(_, _))
    }

    pub fn is_leaf(&self) -> (r: bool)
        ensures
            r == self.typ is Leaf,
    {
        matches!(self.typ, AigNodeType::Leaf)
    }

    pub fn fanin0(&self) -> (r: AigEdge)
        requires
            self.typ is And,
        ensures
            r == self.typ->And_0,
    {
        match self.typ {
            AigNodeType::And(f, _) => f,
            _ => AigEdge { id: 0, complement: false },
        }
    }

    pub fn fanin1(&self) -> (r: AigEdge)
        requires
            self.typ is And,
        ensures
            r == self.typ->And_1,
    {
        match self.typ {
            AigNodeType::And(_, f) => f,
            _ => AigEdge { id: 0, complement: false },
        }
    }

    pub fn fanin(&self) -> (r: (AigEdge, AigEdge))
        requires
            self.typ is And,
        ensures
            r == (self.typ->And_0, self.typ->And_1),
    {
        (self.fanin0(), self.fanin1())
    }

    pub fn set_fanin0(&mut self, fanin: AigEdge)
        requires
            old(self).typ is And,
        ensures
            final(self).id == old(self).id,
            final(self).typ == AigNodeType::And(fanin, old(self).typ->And_1),
    {
        let f1 = self.fanin1();
        self.typ = AigNodeType::And(fanin, f1);
    }

    pub fn set_fanin1(&mut self, fanin: AigEdge)
        requires
            old(self).typ is And,
        ensures
            final(self).id == old(self).id,
            final(self).typ == AigNodeType::And(old(self).typ->And_0, fanin),
    {
        let f0 = self.fanin0();
        self.typ = AigNodeType::And(f0, fanin);
    }

    /// The same node with its own id and its fanin ids passed through `map`.
    pub fn map<M>(&self, map: &M) -> (r: Self)
        where
            M: Fn(usize) -> usize,
        requires
            map.requires((self.id,)),
            self.typ is And ==> map.requires((self.typ->And_0.id,)),
            self.typ is And ==> map.requires((self.typ->And_1.id,)),
        ensures
            map.ensures((self.id,), r.id),
            (self.typ is False) == (r.typ is False),
            (self.typ is Leaf) == (r.typ is Leaf),
            (self.typ is And) == (r.typ is And),
            self.typ is And ==> {
                &&& map.ensures((self.typ->And_0.id,), r.typ->And_0.id)
                &&& map.ensures((self.typ->And_1.id,), r.typ->And_1.id)
                &&& r.typ->And_0.complement == self.typ->And_0.complement
                &&& r.typ->And_1.complement == self.typ->And_1.complement
            },
    {
        let id = map(self.id);
        let typ = match self.typ {
            AigNodeType::And(f0, f1) => AigNodeType::And(f0.map(map), f1.map(map)),
            AigNodeType::False => AigNodeType::False,
            AigNodeType::Leaf => AigNodeType::Leaf,
        };
        AigNode { id, typ }
    }

    /// An AND node with its fanins put in canonical order.
    pub fn new_and(id: usize, fanin0: AigEdge, fanin1: AigEdge) -> (r: Self)
        ensures
            r.id == id,
            r.typ == AigNodeType::And(canon(fanin0, fanin1).0, canon(fanin0, fanin1).1),
    {
        if fanin0.id > fanin1.id {
            AigNode { id, typ: AigNodeType::And(fanin1, fanin0) }
        } else {
            AigNode { id, typ: AigNodeType::And(fanin0, fanin1) }
        }
    }
}

} // verus!
