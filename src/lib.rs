//! And-Inverter Graphs: edges, nodes, the graph container, and the
//! algorithms over it (CNF encoding, cone of influence, re-encoding,
//! unrolling, merging, property transforms, ternary simulation).
use vstd::prelude::*;

pub mod aig;
pub mod aiger;
pub mod builder;
pub mod cnf;
pub mod coi;
pub mod edge;
pub mod logic_form;
pub mod merge;
pub mod node;
pub mod queries;
pub mod reencode;
pub mod strash;
pub mod refine;
pub mod symbols;
pub mod ternary;
pub mod transforms;
pub mod unroll;

pub use aig::Aig;
pub use edge::AigEdge;
pub use logic_form::{AigClause, AigCnf, AigCube, AigDnf};
pub use node::{AigLatch, AigNode, AigNodeType};
pub use symbols::NodeSet;
pub use ternary::{Ternary, TernarySimulate};

verus! {

} // verus!
