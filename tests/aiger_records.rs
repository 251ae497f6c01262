use aig::aiger::{Aiger, AigerAnd, AigerSymbol};
use aig::{Aig, AigEdge, AigNodeType};

fn sym(lit: u32) -> AigerSymbol {
    AigerSymbol { lit, next: 0, reset: 0, lits: vec![], name: None }
}

fn records() -> Aiger {
    // inputs 1, 2; latch 3 with next 7 and reset 0; AND 4 = 2 & !4; bad 8
    let mut latch = sym(6);
    latch.next = 9;
    latch.reset = 0;
    latch.name = Some("l".to_string());
    let mut i1 = sym(2);
    i1.name = Some("a".to_string());
    Aiger {
        maxvar: 4,
        inputs: vec![i1, sym(4)],
        latches: vec![latch],
        outputs: vec![],
        bad: vec![sym(8)],
        constraints: vec![sym(1)],
        justice: vec![AigerSymbol { lit: 0, next: 0, reset: 0, lits: vec![8, 3], name: None }],
        fairness: vec![],
        ands: vec![AigerAnd { lhs: 8, rhs0: 5, rhs1: 2 }],
    }
}

#[test]
fn aiger_import() {
    let aig = Aig::from_aiger(&records()).expect("well-formed records");
    assert_eq!(aig.num_nodes(), 5);
    assert_eq!(aig.inputs, vec![1, 2]);
    assert_eq!(aig.latchs[0].input, 3);
    assert_eq!(aig.latchs[0].next, AigEdge::new(4, true));
    assert_eq!(aig.latchs[0].init, Some(AigEdge::constant(false)));
    match aig.nodes[4].typ {
        AigNodeType::And(f0, f1) => {
            assert_eq!(f0, AigEdge::new(1, false));
            assert_eq!(f1, AigEdge::new(2, true));
        }
        _ => panic!("expected an AND node"),
    }
    assert_eq!(aig.bads, vec![AigEdge::new(4, false)]);
    assert_eq!(aig.constraints, vec![AigEdge::constant(true)]);
    assert_eq!(aig.justice, vec![vec![AigEdge::new(4, false), AigEdge::new(1, true)]]);
    assert_eq!(aig.get_symbol(1), Some("a".to_string()));
    assert_eq!(aig.get_symbol(3), Some("l".to_string()));
}

#[test]
fn aiger_undefined_reset() {
    let mut r = records();
    r.latches[0].reset = 6;
    let aig = Aig::from_aiger(&r).unwrap();
    assert_eq!(aig.latchs[0].init, None);
    r.latches[0].reset = 7;
    assert!(Aig::from_aiger(&r).is_none());
}

#[test]
fn aiger_rejects_malformed() {
    let mut r = records();
    r.ands[0].rhs0 = 9;
    assert!(Aig::from_aiger(&r).is_none());
    let mut r = records();
    r.bad[0].lit = 10;
    assert!(Aig::from_aiger(&r).is_none());
    let mut r = records();
    r.inputs[1].lit = 8;
    assert!(Aig::from_aiger(&r).is_none());
    let mut r = records();
    r.inputs[0].lit = 0;
    assert!(Aig::from_aiger(&r).is_none());
    let mut r = records();
    r.ands.push(AigerAnd { lhs: 8, rhs0: 2, rhs1: 4 });
    assert!(Aig::from_aiger(&r).is_none());
    assert!(Aig::aiger_is_valid(&records()));
}

#[test]
fn aiger_export() {
    let aig = Aig::from_aiger(&records()).unwrap();
    let out = aig.to_aiger();
    assert_eq!(out.maxvar, 4);
    assert_eq!(out.ands, vec![AigerAnd { lhs: 8, rhs0: 5, rhs1: 2 }]);
    assert_eq!(out.inputs.iter().map(|s| s.lit).collect::<Vec<_>>(), vec![2, 4]);
    assert_eq!(out.inputs[0].name, Some("a".to_string()));
    assert_eq!(out.inputs[1].name, None);
    assert_eq!(out.latches[0].lit, 6);
    assert_eq!(out.latches[0].next, 9);
    assert_eq!(out.latches[0].reset, 0);
    assert_eq!(out.bad[0].lit, 8);
    assert_eq!(out.constraints[0].lit, 1);
    assert_eq!(out.justice[0].lits, vec![8, 3]);
    let back = Aig::from_aiger(&out).unwrap();
    assert_eq!(back.nodes, aig.nodes);
    assert_eq!(back.latchs[0].next, aig.latchs[0].next);
}

#[test]
fn aiger_export_undefined_reset() {
    let mut aig = Aig::new();
    let l = aig.new_latch(AigEdge::constant(false), None);
    let out = aig.to_aiger();
    assert_eq!(out.latches[0].reset, 2 * l as u32);
}
