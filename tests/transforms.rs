use aig::Ternary::{False as F, True as T};
use aig::{Aig, AigClause, AigCube, AigDnf, AigEdge};

#[test]
fn aig_move_folds_constraints() {
    let mut aig = Aig::new();
    let a: AigEdge = aig.new_input().into();
    let b: AigEdge = aig.new_input().into();
    aig.constraints.push(a);
    aig.bads.push(b);
    let m = aig.aig_move();
    assert!(m.constraints.is_empty());
    assert_eq!(m.latchs.len(), 1);
    let l = m.latchs[0];
    assert_eq!(l.input, 3);
    assert_eq!(l.init, Some(AigEdge::constant(true)));
    let bad = m.bads[0];
    let v = m.ternary_simulate(&[T, T], &[T]);
    assert_eq!(v[bad.node_id()].not_if(bad.compl()), T);
    let v = m.ternary_simulate(&[F, T], &[T]);
    assert_eq!(v[bad.node_id()].not_if(bad.compl()), F);
    let v = m.ternary_simulate(&[T, T], &[F]);
    assert_eq!(v[bad.node_id()].not_if(bad.compl()), F);
}

#[test]
fn compress_property_joins_bads() {
    let mut aig = Aig::new();
    let a: AigEdge = aig.new_input().into();
    let b: AigEdge = aig.new_input().into();
    aig.bads.push(a);
    aig.bads.push(!b);
    let old = aig.compress_property();
    assert_eq!(old, vec![a, !b]);
    assert_eq!(aig.bads.len(), 1);
    let p = aig.bads[0];
    let v = aig.ternary_simulate(&[F, T], &[]);
    assert_eq!(v[p.node_id()].not_if(p.compl()), F);
    let v = aig.ternary_simulate(&[F, F], &[]);
    assert_eq!(v[p.node_id()].not_if(p.compl()), T);
}

#[test]
fn gate_init_becomes_constraint() {
    let mut aig = Aig::new();
    let a: AigEdge = aig.new_input().into();
    let l = aig.new_latch(AigEdge::constant(false), Some(a));
    let l2 = aig.new_latch(AigEdge::constant(false), Some(AigEdge::constant(true)));
    aig.gate_init_to_constraint();
    assert_eq!(aig.latchs.len(), 3);
    assert_eq!(aig.latchs[0].init, None);
    assert_eq!(aig.latchs[1].init, Some(AigEdge::constant(true)));
    assert_eq!(aig.latchs[1].input, l2);
    let init = aig.latchs[2];
    assert_eq!(init.next, AigEdge::constant(false));
    assert_eq!(init.init, Some(AigEdge::constant(true)));
    assert_eq!(aig.constraints.len(), 1);
    let c = aig.constraints[0];
    // initial frame: the latch must equal its gated value
    let v = aig.ternary_simulate(&[T], &[F, T, T]);
    assert_eq!(v[c.node_id()].not_if(c.compl()), F);
    let v = aig.ternary_simulate(&[T], &[T, T, T]);
    assert_eq!(v[c.node_id()].not_if(c.compl()), T);
    // later frames: no constraint
    let v = aig.ternary_simulate(&[T], &[F, T, F]);
    assert_eq!(v[c.node_id()].not_if(c.compl()), T);
    assert_eq!(l, 2);
}

#[test]
fn gate_init_without_gates_changes_nothing() {
    let mut aig = Aig::new();
    let _l = aig.new_latch(AigEdge::constant(false), Some(AigEdge::constant(false)));
    aig.gate_init_to_constraint();
    assert_eq!(aig.latchs.len(), 1);
    assert!(aig.constraints.is_empty());
}

#[test]
fn clause_cube_duality() {
    let a = AigEdge::new(1, false);
    let b = AigEdge::new(2, true);
    let c = AigClause::from(vec![a, b]);
    let q: AigCube = c.not();
    assert_eq!(q.lits, vec![!a, !b]);
    assert_eq!(q.not().lits, c.lits);
    let mut d = AigDnf::new();
    d.add_cube(AigCube::from(vec![a]));
    let mut d2 = AigDnf::default();
    d2.add_cube(AigCube::from(vec![b, a]));
    let d = d.add(d2);
    assert_eq!(d.cubes.len(), 2);
    let cnf = d.not();
    assert_eq!(cnf.clauses.len(), 2);
    assert_eq!(cnf.clauses[0].lits, vec![!a]);
    assert_eq!(cnf.clauses[1].lits, vec![!b, !a]);
    let mut e = aig::AigCnf::new();
    e.add_clause(AigClause::new());
    assert_eq!(e.clauses.len(), 1);
    assert!(AigCube::new().lits.is_empty());
}
