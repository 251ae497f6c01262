use aig::Ternary::{False as F, True as T, X};
use aig::{Aig, AigEdge, TernarySimulate};

fn and2() -> (Aig, AigEdge) {
    let mut aig = Aig::new();
    let a: AigEdge = aig.new_input().into();
    let b: AigEdge = aig.new_input().into();
    let n = aig.new_and_node(a, b);
    (aig, n)
}

#[test]
fn ternary_and_gate() {
    let (aig, n) = and2();
    assert_eq!(aig.ternary_simulate(&[X, F], &[])[n.node_id()], F);
    assert_eq!(aig.ternary_simulate(&[X, T], &[])[n.node_id()], X);
    assert_eq!(aig.ternary_simulate(&[X, X], &[])[n.node_id()], X);
    assert_eq!(aig.ternary_simulate(&[T, T], &[])[n.node_id()], T);
    assert_eq!(aig.ternary_simulate(&[T, T], &[])[0], F);
}

#[test]
fn ternary_operators() {
    assert_eq!(X.not(), X);
    assert_eq!(T.not(), F);
    assert_eq!(X.and(F), F);
    assert_eq!(X.and(T), X);
    assert_eq!(X.and(X), X);
    assert_eq!(X.not().and(T.not()).not(), T);
    assert_eq!(F.not().and(X.not()).not(), X);
    assert_eq!(T.not_if(true), F);
}

#[test]
fn ternary_monotone_example() {
    let mut aig = Aig::new();
    let a: AigEdge = aig.new_input().into();
    let b: AigEdge = aig.new_input().into();
    let c: AigEdge = aig.new_input().into();
    let x = aig.new_or_node(a, b);
    let y = aig.new_and_node(x, !c);
    let full = aig.ternary_simulate(&[T, F, F], &[]);
    let part = aig.ternary_simulate(&[X, F, F], &[]);
    for i in 0..aig.num_nodes() {
        assert!(part[i] == X || part[i] == full[i]);
    }
    assert_eq!(full[y.node_id()], T);
    assert_eq!(part[y.node_id()], X);
}

#[test]
fn sequential_simulation() {
    let mut aig = Aig::new();
    let i: AigEdge = aig.new_input().into();
    let l = aig.new_latch(AigEdge::constant(false), Some(AigEdge::constant(false)));
    let le = AigEdge::new(l, false);
    let next = aig.new_or_node(i, le);
    aig.latchs[0].next = next;
    let mut sim = TernarySimulate::new(&aig, vec![F]);
    sim.simulate(vec![F]);
    assert_eq!(sim.state, vec![F]);
    assert_eq!(sim.value(le), F);
    sim.simulate(vec![T]);
    assert_eq!(sim.state, vec![T]);
    assert_eq!(sim.value(next), T);
    sim.simulate(vec![F]);
    assert_eq!(sim.state, vec![T]);
    assert_eq!(sim.value(!le), F);
}
