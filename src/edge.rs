//! Inversion-aware references into the node arena.
use vstd::prelude::*;

verus! {

/// An edge is a node id together with an inversion bit.
#[derive(Debug, Clone, Copy, Hash, PartialEq, Eq, Structural)]
pub struct AigEdge {
    pub id: usize,
    pub complement: bool,
}

/// The SAT literal that an edge stands for: `2 * id + 1` when the edge is
/// complemented, `2 * id` otherwise.
pub open spec fn edge_lit(e: AigEdge) -> nat {
    2 * (e.id as nat) + (if e.complement { 1nat } else { 0nat })
}

/// The edge that a SAT literal stands for.
pub open spec fn lit_edge(l: nat) -> AigEdge {
    AigEdge { id: (l / 2) as usize, complement: l % 2 == 1 }
}

/// The edge with its inversion bit flipped.
pub open spec fn neg(e: AigEdge) -> AigEdge {
    AigEdge { id: e.id, complement: !e.complement }
}

impl AigEdge {
    pub fn new(id: usize, complement: bool) -> (r: Self)
        ensures
            r.id == id,
            r.complement == complement,
    {
        AigEdge { id, complement }
    }

    pub fn node_id(&self) -> (r: usize)
        ensures
            r == self.id,
    {
        self.id
    }

    pub fn compl(&self) -> (r: bool)
        ensures
            r == self.complement,
    {
        self.complement
    }

    pub fn set_nodeid(&mut self, nodeid: usize)
        ensures
            final(self).id == nodeid,
            final(self).complement == old(self).complement,
    {
        self.id = nodeid;
    }

    pub fn set_compl(&mut self, compl: bool)
        ensures
            final(self).id == old(self).id,
            final(self).complement == compl,
    {
        self.complement = compl;
    }

    /// The negation of this edge.
    pub fn not(self) -> (r: Self)
        ensures
            r == neg(self),
    {
        AigEdge { id: self.id, complement: !self.complement }
    }

    pub fn not_if(self, x: bool) -> (r: Self)
        ensures
            r == (if x { neg(self) } else { self }),
    {
        if x {
            self.not()
        } else {
            self
        }
    }

    /// The constant edge: true when `polarity` is true, false otherwise.
    pub fn constant(polarity: bool) -> (r: Self)
        ensures
            r.id == 0,
            r.complement == polarity,
    {
        AigEdge { id: 0, complement: polarity }
    }

    pub fn is_const(&self) -> (r: bool)
        ensures
            r == (self.id == 0),
    {
        self.id == 0
    }

    pub fn is_constant(&self, polarity: bool) -> (r: bool)
        ensures
            r == (self.id == 0 && self.complement == polarity),
    {
        *self == Self::constant(polarity)
    }

    pub fn try_to_constant(self) -> (r: Option<bool>)
        ensures
            self.id == 0 ==> r == Some(self.complement),
            self.id != 0 ==> r.is_none(),
    {
        if self.is_constant(true) {
            Some(true)
        } else if self.is_constant(false) {
            Some(false)
        } else {
            None
        }
    }

    pub fn to_constant(self) -> (r: bool)
        requires
            self.id == 0,
        ensures
            r == self.complement,
    {
        match self.try_to_constant() {
            Some(b) => b,
            None => false,
        }
    }

    /// The edge of a SAT literal code: its variable, inverted when the
    /// literal is negative (odd).
    pub fn from_lit_code(lit: usize) -> (r: Self)
        ensures
            r == lit_edge(lit as nat),
    {
        AigEdge { id: lit / 2, complement: lit % 2 == 1 }
    }

    /// The SAT literal code of this edge.
    pub fn lit_code(&self) -> (r: usize)
        requires
            self.id <= (usize::MAX - 1) / 2,
        ensures
            r as nat == edge_lit(*self),
    {
        2 * self.id + if self.complement { 1 } else { 0 }
    }

    /// The same edge with its node id passed through `map`.
    pub fn map<M>(&self, map: &M) -> (r: Self)
        where
            M: Fn(usize) -> usize,
        requires
            map.requires((self.id,)),
        ensures
            map.ensures((self.id,), r.id),
            r.complement == self.complement,
    {
        AigEdge { id: map(self.id), complement: self.complement }
    }
}

impl From<usize> for AigEdge {
    fn from(value: usize) -> (r: Self) {
        AigEdge { id: value, complement: false }
    }
}

impl vstd::std_specs::convert::FromSpecImpl<usize> for AigEdge {
    open spec fn obeys_from_spec() -> bool {
        true
    }

    open spec fn from_spec(v: usize) -> AigEdge {
        AigEdge { id: v, complement: false }
    }
}

impl std::ops::Not for AigEdge {
    type Output = AigEdge;

    fn not(self) -> (r: AigEdge)
        ensures
            r == neg(self),
    {
        AigEdge { id: self.id, complement: !self.complement }
    }
}

impl vstd::std_specs::ops::NotSpecImpl for AigEdge {
    open spec fn obeys_not_spec() -> bool {
        true
    }

    open spec fn not_req(self) -> bool {
        true
    }

    open spec fn not_spec(self) -> AigEdge {
        neg(self)
    }
}

/// Negating twice gives the edge back; the literal of an edge gives the edge
/// back; the constant-true edge has literal 1 and the constant-false edge 0.
pub proof fn lemma_edge_duality(e: AigEdge)
    ensures
        neg(neg(e)) == e,
        lit_edge(edge_lit(e)) == e,
        edge_lit(AigEdge { id: 0, complement: true }) == 1,
        edge_lit(AigEdge { id: 0, complement: false }) == 0,
{
}

} // verus!
