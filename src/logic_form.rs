//! Clauses, cubes, and their conjunctions and disjunctions, over edges.
use crate::builder::negate_all;
use crate::edge::{neg, AigEdge};
use vstd::prelude::*;

verus! {

/// A disjunction of edges.
#[derive(Clone, Debug)]
pub struct AigClause {
    pub lits: Vec<AigEdge>,
}

/// A conjunction of edges.
#[derive(Clone, Debug)]
pub struct AigCube {
    pub lits: Vec<AigEdge>,
}

/// A conjunction of clauses.
#[derive(Clone, Debug)]
pub struct AigCnf {
    pub clauses: Vec<AigClause>,
}

/// A disjunction of cubes.
#[derive(Clone, Debug)]
pub struct AigDnf {
    pub cubes: Vec<AigCube>,
}

/// `b` holds the negations of the edges of `a`, in order.
pub open spec fn negated(a: Seq<AigEdge>, b: Seq<AigEdge>) -> bool {
    &&& a.len() == b.len()
    &&& forall|k: int| 0 <= k < a.len() ==> #[trigger] b[k] == neg(a[k])
}

impl AigClause {
    pub fn new() -> (r: Self)
        ensures
            r.lits@.len() == 0,
    {
        AigClause { lits: Vec::new() }
    }

    /// The cube of the negated edges (de Morgan).
    pub fn not(&self) -> (r: AigCube)
        ensures
            negated(self.lits@, r.lits@),
    {
        AigCube { lits: negate_all(&self.lits) }
    }
}

impl AigCube {
    pub fn new() -> (r: Self)
        ensures
            r.lits@.len() == 0,
    {
        AigCube { lits: Vec::new() }
    }

    /// The clause of the negated edges (de Morgan).
    pub fn not(&self) -> (r: AigClause)
        ensures
            negated(self.lits@, r.lits@),
    {
        AigClause { lits: negate_all(&self.lits) }
    }
}

impl From<Vec<AigEdge>> for AigClause {
    fn from(lits: Vec<AigEdge>) -> (r: Self) {
        AigClause { lits }
    }
}

impl vstd::std_specs::convert::FromSpecImpl<Vec<AigEdge>> for AigClause {
    open spec fn obeys_from_spec() -> bool {
        true
    }

    open spec fn from_spec(v: Vec<AigEdge>) -> AigClause {
        AigClause { lits: v }
    }
}

impl From<Vec<AigEdge>> for AigCube {
    fn from(lits: Vec<AigEdge>) -> (r: Self) {
        AigCube { lits }
    }
}

impl vstd::std_specs::convert::FromSpecImpl<Vec<AigEdge>> for AigCube {
    open spec fn obeys_from_spec() -> bool {
        true
    }

    open spec fn from_spec(v: Vec<AigEdge>) -> AigCube {
        AigCube { lits: v }
    }
}

impl Default for AigClause {
    fn default() -> (r: Self)
        ensures
            r.lits@.len() == 0,
    {
        Self::new()
    }
}

impl Default for AigCube {
    fn default() -> (r: Self)
        ensures
            r.lits@.len() == 0,
    {
        Self::new()
    }
}

impl AigCnf {
    pub fn new() -> (r: Self)
        ensures
            r.clauses@.len() == 0,
    {
        AigCnf { clauses: Vec::new() }
    }

    pub fn add_clause(&mut self, clause: AigClause)
        ensures
            final(self).clauses@ == old(self).clauses@.push(clause),
    {
        self.clauses.push(clause);
    }
}

impl Default for AigCnf {
    fn default() -> (r: Self)
        ensures
            r.clauses@.len() == 0,
    {
        Self::new()
    }
}

impl AigDnf {
    pub fn new() -> (r: Self)
        ensures
            r.cubes@.len() == 0,
    {
        AigDnf { cubes: Vec::new() }
    }

    pub fn add_cube(&mut self, cube: AigCube)
        ensures
            final(self).cubes@ == old(self).cubes@.push(cube),
    {
        self.cubes.push(cube);
    }

    /// The disjunction of both: the cubes of `self`, then those of `rhs`.
    pub fn add(self, rhs: Self) -> (r: Self)
        ensures
            r.cubes@ == self.cubes@ + rhs.cubes@,
    {
        let mut cubes = self.cubes;
        let mut more = rhs.cubes;
        cubes.append(&mut more);
        AigDnf { cubes }
    }

    /// The negation: the CNF of the negated cubes (de Morgan).
    pub fn not(&self) -> (r: AigCnf)
        ensures
            r.clauses.len() == self.cubes.len(),
            forall|k: int| 0 <= k < self.cubes.len() ==> negated(
                (#[trigger] self.cubes@[k]).lits@,
                r.clauses@[k].lits@,
            ),
    {
        let mut cnf = AigCnf::new();
        let mut i: usize = 0;
        while i < self.cubes.len()
            invariant
                i <= self.cubes.len(),
                cnf.clauses.len() == i,
                forall|k: int| 0 <= k < i ==> negated(
                    (#[trigger] self.cubes@[k]).lits@,
                    cnf.clauses@[k].lits@,
                ),
            decreases self.cubes.len() - i,
        {
            let c = self.cubes[i].not();
            cnf.add_clause(c);
            i += 1;
        }
        cnf
    }
}

impl Default for AigDnf {
    fn default() -> (r: Self)
        ensures
            r.cubes@.len() == 0,
    {
        Self::new()
    }
}

} // verus!
