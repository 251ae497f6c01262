use aig::{AigEdge, AigLatch, AigNode, AigNodeType};

#[test]
fn edge_double_negation() {
    let e = AigEdge::new(5, false);
    assert_eq!(!!e, e);
    assert_eq!(e.not().not(), e);
    assert_eq!((!e).compl(), true);
    assert_eq!((!e).node_id(), 5);
}

#[test]
fn edge_literal_round_trip() {
    for id in 0..20usize {
        for c in [false, true] {
            let e = AigEdge::new(id, c);
            assert_eq!(AigEdge::from_lit_code(e.lit_code()), e);
        }
    }
    assert_eq!(AigEdge::new(3, true).lit_code(), 7);
    assert_eq!(AigEdge::new(3, false).lit_code(), 6);
    assert_eq!(AigEdge::from_lit_code(9), AigEdge::new(4, true));
}

#[test]
fn constant_literals() {
    assert_eq!(AigEdge::constant(true).lit_code(), 1);
    assert_eq!(AigEdge::constant(false).lit_code(), 0);
    assert!(AigEdge::constant(true).is_const());
    assert!(AigEdge::constant(true).is_constant(true));
    assert!(!AigEdge::constant(true).is_constant(false));
    assert_eq!(AigEdge::constant(false).try_to_constant(), Some(false));
    assert_eq!(AigEdge::constant(true).to_constant(), true);
    assert_eq!(AigEdge::new(2, true).try_to_constant(), None);
}

#[test]
fn edge_setters_and_map() {
    let mut e = AigEdge::new(1, false);
    e.set_nodeid(7);
    e.set_compl(true);
    assert_eq!(e, AigEdge::new(7, true));
    assert_eq!(e.not_if(true), AigEdge::new(7, false));
    assert_eq!(e.not_if(false), e);
    let m = e.map(&|x: usize| x + 10);
    assert_eq!(m, AigEdge::new(17, true));
    let f: AigEdge = 4usize.into();
    assert_eq!(f, AigEdge::new(4, false));
}

#[test]
fn node_accessors() {
    let n = AigNode::new_and(9, AigEdge::new(5, true), AigEdge::new(2, false));
    assert!(n.is_and());
    assert!(!n.is_leaf());
    assert_eq!(n.node_id(), 9);
    assert_eq!(n.fanin0(), AigEdge::new(2, false));
    assert_eq!(n.fanin1(), AigEdge::new(5, true));
    assert_eq!(n.fanin(), (AigEdge::new(2, false), AigEdge::new(5, true)));
    let mut m = n.clone();
    m.set_fanin0(AigEdge::new(1, true));
    m.set_fanin1(AigEdge::new(3, false));
    assert_eq!(m.fanin(), (AigEdge::new(1, true), AigEdge::new(3, false)));
    let s = n.map(&|x: usize| x * 2);
    assert_eq!(s.node_id(), 18);
    assert_eq!(s.fanin(), (AigEdge::new(4, false), AigEdge::new(10, true)));
    let leaf = AigNode { id: 3, typ: AigNodeType::Leaf };
    assert!(leaf.is_leaf());
    let l = AigLatch::new(3, AigEdge::new(4, false), None);
    assert_eq!(l.input, 3);
    assert_eq!(l.init, None);
}
