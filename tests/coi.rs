use aig::{Aig, AigEdge, AigNodeType, NodeSet};

#[test]
fn coi_refine_keeps_cone() {
    let mut aig = Aig::new();
    let i1: AigEdge = aig.new_input().into();
    let i2: AigEdge = aig.new_input().into();
    let _i3: AigEdge = aig.new_input().into();
    let x = aig.new_and_node(i1, i2);
    aig.bads.push(x);
    aig.set_symbol(2, "b");
    aig.set_symbol(3, "unused");
    let (r, restore) = aig.coi_refine();
    let leaves = r.nodes.iter().filter(|n| matches!(n.typ, AigNodeType::Leaf)).count();
    assert_eq!(leaves, 2);
    assert_eq!(restore, vec![0, 1, 2, 4]);
    assert_eq!(r.inputs, vec![1, 2]);
    assert_eq!(r.bads, vec![AigEdge::new(3, false)]);
    assert_eq!(r.get_symbol(2), Some("b".to_string()));
    assert_eq!(r.get_symbol(3), None);
}

#[test]
fn coi_closure() {
    let mut aig = Aig::new();
    let a: AigEdge = aig.new_input().into();
    let b: AigEdge = aig.new_input().into();
    let c: AigEdge = aig.new_input().into();
    let l = aig.new_latch(AigEdge::constant(false), None);
    let x = aig.new_and_node(a, b);
    let y = aig.new_and_node(c, AigEdge::new(l, false));
    aig.latchs[0].next = x;
    let members = |ids: &NodeSet| (0..aig.num_nodes()).filter(|i| ids.contains(*i)).collect::<Vec<_>>();
    let ids = aig.coi(&[y.node_id()]);
    // y -> c, l; l -> x (its next state); x -> a, b
    assert_eq!(members(&ids), vec![0, 1, 2, 3, 4, 5, 6]);
    assert_eq!(ids.len(), 7);
    let ids = aig.coi(&[x.node_id()]);
    assert_eq!(members(&ids), vec![0, 1, 2, 5]);
    assert_eq!(ids.len(), 4);
    let ids = aig.coi(&[]);
    assert_eq!(members(&ids), vec![0]);
    assert_eq!(ids.len(), 1);
}

#[test]
fn coi_refine_keeps_kept_names() {
    let mut aig = Aig::new();
    let i1: AigEdge = aig.new_input().into();
    let _i2: AigEdge = aig.new_input().into();
    let i3: AigEdge = aig.new_input().into();
    let x = aig.new_and_node(i1, i3);
    aig.outputs.push(x);
    aig.set_symbol(3, "c");
    aig.set_symbol(x.node_id(), "x");
    let (r, restore) = aig.coi_refine();
    assert_eq!(restore, vec![0, 1, 3, 4]);
    assert_eq!(r.inputs, vec![1, 2]);
    assert_eq!(r.get_symbol(2), Some("c".to_string()));
    assert_eq!(r.get_symbol(3), Some("x".to_string()));
}

#[test]
fn coi_self_looped_latch_stays_out() {
    let mut aig = Aig::new();
    let a: AigEdge = aig.new_input().into();
    let l = aig.new_latch(AigEdge::constant(false), None);
    aig.latchs[0].next = AigEdge::new(l, false);
    let ids = aig.coi(&[a.node_id()]);
    assert!(ids.contains(0) && ids.contains(1));
    assert!(!ids.contains(l));
}

#[test]
fn coi_refine_latch_roots() {
    // a latch with a constant initial value and no justice or fairness is
    // dropped when nothing reaches it
    let mut aig = Aig::new();
    let i1: AigEdge = aig.new_input().into();
    let l = aig.new_latch(AigEdge::constant(false), Some(AigEdge::constant(false)));
    aig.latchs[0].next = AigEdge::new(l, false);
    aig.bads.push(i1);
    let (r, restore) = aig.coi_refine();
    assert_eq!(restore, vec![0, 1]);
    assert!(r.latchs.is_empty());
    // a gated initial value roots the latch and its initial edge
    let mut g = Aig::new();
    let a: AigEdge = g.new_input().into();
    let b: AigEdge = g.new_input().into();
    let l = g.new_latch(AigEdge::constant(false), Some(b));
    g.latchs[0].next = AigEdge::new(l, true);
    g.bads.push(a);
    let (r, restore) = g.coi_refine();
    assert_eq!(restore, vec![0, 1, 2, 3]);
    assert_eq!(r.latchs.len(), 1);
    assert_eq!(r.latchs[0].input, 3);
    assert_eq!(r.latchs[0].init, Some(AigEdge::new(2, false)));
    // justice properties root every latch
    let mut h = Aig::new();
    let a: AigEdge = h.new_input().into();
    let l = h.new_latch(AigEdge::constant(false), Some(AigEdge::constant(false)));
    h.justice.push(vec![a]);
    let (r, restore) = h.coi_refine();
    assert_eq!(restore, vec![0, 1, l]);
    assert_eq!(r.latchs.len(), 1);
}
