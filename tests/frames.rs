use aig::Ternary::{False as F, True as T, X};
use aig::{Aig, AigEdge, AigNodeType};

fn latch_aig() -> Aig {
    let mut aig = Aig::new();
    let i: AigEdge = aig.new_input().into();
    let l = aig.new_latch(AigEdge::constant(false), Some(AigEdge::constant(false)));
    let le = AigEdge::new(l, false);
    let next = aig.new_and_node(i, le);
    aig.latchs[0].next = next;
    aig.bads.push(le);
    aig
}

#[test]
fn unroll_zero_is_identity() {
    let aig = latch_aig();
    let u = aig.unroll_to(0);
    assert_eq!(u.nodes, aig.nodes);
    assert_eq!(u.inputs, aig.inputs);
    assert_eq!(u.bads, aig.bads);
    assert_eq!(u.latchs[0].next, aig.latchs[0].next);
}

#[test]
fn unroll_two_frames() {
    let aig = latch_aig();
    let u = aig.unroll_to(2);
    assert_eq!(u.inputs.len(), aig.inputs.len() + 2);
    assert_eq!(u.bads.len(), 3);
    assert_eq!(u.latchs.len(), 1);
    // the earliest frame input at 0 keeps every copy of the bad at 0
    let v = u.ternary_simulate(&[F, X, X], &[F]);
    for b in u.bads.iter() {
        assert_eq!(v[b.node_id()].not_if(b.compl()), F);
    }
    let v = u.ternary_simulate(&[T, T, T], &[T]);
    for b in u.bads.iter() {
        assert_eq!(v[b.node_id()].not_if(b.compl()), T);
    }
}

#[test]
fn merge_offsets_ids() {
    let mut a = latch_aig();
    let b = latch_aig();
    let n = a.num_nodes();
    a.merge(&b);
    assert_eq!(a.num_nodes(), n + b.num_nodes() - 1);
    assert_eq!(a.inputs, vec![1, 1 + n - 1]);
    assert_eq!(a.latchs[1].input, 2 + n - 1);
    assert_eq!(a.latchs[1].next, AigEdge::new(3 + n - 1, false));
    assert_eq!(a.bads[1], AigEdge::new(2 + n - 1, false));
    match a.nodes[3 + n - 1].typ {
        AigNodeType::And(f0, f1) => {
            assert_eq!(f0, AigEdge::new(1 + n - 1, false));
            assert_eq!(f1, AigEdge::new(2 + n - 1, false));
        }
        _ => panic!("expected an AND node"),
    }
}

#[test]
fn reencode_orders_roles() {
    let mut g = Aig::new();
    let p: AigEdge = g.new_input().into();
    let q = g.new_and_node(p, AigEdge::constant(true));
    assert_eq!(q, p);
    let l2 = g.new_latch(AigEdge::constant(false), None);
    let z = g.new_and_node(p, AigEdge::new(l2, false));
    let w: AigEdge = g.new_input().into();
    let o = g.new_and_node(z, w);
    g.latchs[0].next = o;
    g.outputs.push(o);
    g.set_symbol(w.node_id(), "w");
    let r = g.reencode();
    // 0, inputs p and w, latch, then the ANDs in arena order
    assert_eq!(r.inputs, vec![1, 2]);
    assert_eq!(r.latchs[0].input, 3);
    assert_eq!(r.num_nodes(), g.num_nodes());
    assert_eq!(r.outputs, vec![AigEdge::new(5, false)]);
    assert_eq!(r.get_symbol(2), Some("w".to_string()));
    let rr = r.reencode();
    assert_eq!(rr.nodes, r.nodes);
    assert_eq!(rr.inputs, r.inputs);
    assert_eq!(rr.outputs, r.outputs);
    assert_eq!(rr.latchs[0].next, r.latchs[0].next);
}

#[test]
fn unroll_to_exact_frames() {
    let mut a = Aig::new();
    a.new_input();
    let l = a.new_leaf_node();
    let n = a.new_and_node(AigEdge::new(1, false), AigEdge::new(l, false));
    a.add_latch(l, n, Some(AigEdge::constant(false)));
    a.bads.push(n);
    let u = a.unroll_to(2);
    assert_eq!(u.inputs, vec![1, 4, 6]);
    assert_eq!(u.latchs.len(), 1);
    assert_eq!(u.latchs[0].input, 2);
    assert_eq!(u.latchs[0].init, Some(AigEdge::constant(false)));
    assert_eq!(u.latchs[0].next, AigEdge::new(7, false));
    assert_eq!(u.bads, vec![AigEdge::new(3, false), AigEdge::new(5, false), AigEdge::new(7, false)]);
    assert!(u.is_wf());
}

#[test]
fn reencode_keeps_names() {
    let mut g = Aig::new();
    let l = g.new_latch(AigEdge::constant(false), None);
    let p = g.new_input();
    g.set_symbol(l, "state");
    g.set_symbol(p, "in");
    let r = g.reencode();
    assert_eq!(r.get_symbol(1), Some("in".to_string()));
    assert_eq!(r.get_symbol(2), Some("state".to_string()));
    let rr = r.reencode();
    assert_eq!(rr.get_symbol(1), Some("in".to_string()));
    assert_eq!(rr.get_symbol(2), Some("state".to_string()));
}
