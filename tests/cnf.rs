use aig::{Aig, AigClause, AigEdge};

fn has_clause(cnf: &[AigClause], lits: &[AigEdge]) -> bool {
    cnf.iter().any(|c| c.lits == lits)
}

fn xor_aig() -> (Aig, AigEdge, AigEdge, AigEdge) {
    let mut aig = Aig::new();
    let a: AigEdge = aig.new_input().into();
    let b: AigEdge = aig.new_input().into();
    let x = aig.new_and_node(a, b);
    let y = aig.new_and_node(!a, !b);
    let n = aig.new_and_node(!x, !y);
    aig.bads.push(n);
    (aig, a, b, n)
}

#[test]
fn xor_pattern() {
    let (aig, a, b, n) = xor_aig();
    assert_eq!(aig.is_xor(n.node_id()), Some((a, b)));
    assert_eq!(aig.is_xor(a.node_id()), None);
    let cnf = aig.cnf(true);
    let nd = AigEdge::new(n.node_id(), false);
    assert_eq!(cnf.clauses.len(), 5);
    assert!(has_clause(&cnf.clauses, &[AigEdge::constant(true)]));
    assert!(has_clause(&cnf.clauses, &[!a, b, nd]));
    assert!(has_clause(&cnf.clauses, &[a, !b, nd]));
    assert!(has_clause(&cnf.clauses, &[a, b, !nd]));
    assert!(has_clause(&cnf.clauses, &[!a, !b, !nd]));
}

#[test]
fn xor_plain_encoding() {
    let (aig, a, b, n) = xor_aig();
    let cnf = aig.cnf(false);
    // three AND nodes, three clauses each, and the unit clause on node 0
    assert_eq!(cnf.clauses.len(), 10);
    assert_eq!(cnf.clauses[9].lits, vec![AigEdge::constant(true)]);
    let nd = AigEdge::new(n.node_id(), false);
    let x = AigEdge::new(3, false);
    let y = AigEdge::new(4, false);
    assert!(has_clause(&cnf.clauses, &[!nd, !x]));
    assert!(has_clause(&cnf.clauses, &[!nd, !y]));
    assert!(has_clause(&cnf.clauses, &[nd, x, y]));
    assert!(has_clause(&cnf.clauses, &[!x, a]));
    assert!(has_clause(&cnf.clauses, &[!y, !b]));
}

#[test]
fn ite_pattern() {
    let mut aig = Aig::new();
    let c: AigEdge = aig.new_input().into();
    let t: AigEdge = aig.new_input().into();
    let e: AigEdge = aig.new_input().into();
    let x = aig.new_and_node(c, !t);
    let y = aig.new_and_node(!c, !e);
    let n = aig.new_and_node(!x, !y);
    aig.outputs.push(n);
    assert_eq!(aig.is_ite(n.node_id()), Some((c, t, e)));
    assert_eq!(aig.is_xor(n.node_id()), None);
    let cnf = aig.cnf(true);
    let nd = AigEdge::new(n.node_id(), false);
    assert_eq!(cnf.clauses.len(), 5);
    assert!(has_clause(&cnf.clauses, &[t, !c, !nd]));
    assert!(has_clause(&cnf.clauses, &[!t, !c, nd]));
    assert!(has_clause(&cnf.clauses, &[e, c, !nd]));
    assert!(has_clause(&cnf.clauses, &[!e, c, nd]));
}

#[test]
fn cnf_only_referenced_nodes() {
    let mut aig = Aig::new();
    let a: AigEdge = aig.new_input().into();
    let b: AigEdge = aig.new_input().into();
    let x = aig.new_and_node(a, b);
    let _unused = aig.new_and_node(a, !b);
    aig.constraints.push(x);
    let cnf = aig.cnf(false);
    assert_eq!(cnf.clauses.len(), 4);
    assert!(has_clause(&cnf.clauses, &[x, !a, !b]));
}

/// Every assignment to the inputs, extended by the circuit's values, satisfies
/// the CNF; and any total assignment that satisfies it agrees with the
/// circuit on the root node.
#[test]
fn cnf_equisatisfiable_on_small_circuit() {
    let (aig, _a, _b, n) = xor_aig();
    for optimize in [false, true] {
        let cnf = aig.cnf(optimize);
        let nv = aig.num_nodes();
        for bits in 0..(1u32 << nv) {
            let val = |e: &AigEdge| ((bits >> e.node_id()) & 1 == 1) != e.compl();
            if bits & 1 == 1 {
                continue;
            }
            let sat = cnf.clauses.iter().all(|c| c.lits.iter().any(|l| val(l)));
            let a = (bits >> 1) & 1 == 1;
            let b = (bits >> 2) & 1 == 1;
            if sat {
                assert_eq!(val(&n), a != b);
            }
        }
    }
}

#[test]
fn cnf_constant_fanin_forced() {
    let mut aig = Aig::new();
    let a: AigEdge = aig.new_input().into();
    let x = aig.trivial_new_and_node(a, AigEdge::constant(true));
    aig.bads.push(x);
    let cnf = aig.cnf(false);
    // node 0 false, x = a & true: every model has x == a
    for bits in 0..8u32 {
        let val = |e: &AigEdge| ((bits >> e.node_id()) & 1 == 1) != e.compl();
        let sat = cnf.clauses.iter().all(|c| c.lits.iter().any(|l| val(l)));
        if sat {
            assert_eq!(bits & 1, 0);
            assert_eq!(val(&x), val(&a));
        }
    }
}
