use aig::Ternary::{False as F, True as T};
use aig::{Aig, AigEdge, AigNodeType};

#[test]
fn constant_fold() {
    let mut aig = Aig::new();
    let x: AigEdge = aig.new_input().into();
    let n0 = aig.num_nodes();
    assert_eq!(aig.new_and_node(AigEdge::constant(false), x), AigEdge::constant(false));
    assert_eq!(aig.new_and_node(AigEdge::constant(true), x), x);
    assert_eq!(aig.new_and_node(x, !x), AigEdge::constant(false));
    assert_eq!(aig.new_and_node(x, x), x);
    assert_eq!(aig.num_nodes(), n0);
}

#[test]
fn new_and_allocates_canonical_node() {
    let mut aig = Aig::new();
    let a: AigEdge = aig.new_input().into();
    let b: AigEdge = aig.new_input().into();
    let n = aig.new_and_node(!b, a);
    assert_eq!(n, AigEdge::new(3, false));
    match aig.nodes[3].typ {
        AigNodeType::And(f0, f1) => {
            assert_eq!(f0, a);
            assert_eq!(f1, !b);
        }
        _ => panic!("expected an AND node"),
    }
    let t = aig.trivial_new_and_node(a, a);
    assert_eq!(t, AigEdge::new(4, false));
    assert_eq!(aig.ands_iter().len(), 2);
}

#[test]
fn derived_gates() {
    let mut aig = Aig::new();
    let a: AigEdge = aig.new_input().into();
    let b: AigEdge = aig.new_input().into();
    let o = aig.new_or_node(a, b);
    assert!(o.compl());
    let i = aig.new_imply_node(a, b);
    assert!(i.compl());
    let e = aig.new_eq_node(a, b);
    assert!(e.node_id() > b.node_id());
    assert_eq!(aig.new_ands_node(vec![]), AigEdge::constant(true));
    assert_eq!(aig.new_ands_node(vec![a]), a);
    assert_eq!(aig.new_ors_node(vec![]), AigEdge::constant(false));
    let before = aig.num_nodes();
    let t = aig.trivial_new_ands_node(vec![a, b, !a]);
    assert_eq!(aig.num_nodes(), before + 2);
    assert_eq!(t, AigEdge::new(before + 1, false));
    let to = aig.trivial_new_ors_node(vec![a, b]);
    assert!(to.compl());
    assert_eq!(aig.trivial_new_or_node(a, b), AigEdge::new(aig.num_nodes() - 1, true));
}

#[test]
fn ands_and_ors_evaluate() {
    let mut aig = Aig::new();
    let a: AigEdge = aig.new_input().into();
    let b: AigEdge = aig.new_input().into();
    let c: AigEdge = aig.new_input().into();
    let all = aig.new_ands_node(vec![a, b, c]);
    let any = aig.new_ors_node(vec![a, b, c]);
    aig.outputs.push(all);
    aig.outputs.push(any);
    let v = aig.ternary_simulate(&[T, T, T], &[]);
    assert_eq!(v[all.node_id()].not_if(all.compl()), T);
    let v = aig.ternary_simulate(&[T, F, T], &[]);
    assert_eq!(v[all.node_id()].not_if(all.compl()), F);
    assert_eq!(v[any.node_id()].not_if(any.compl()), T);
    let v = aig.ternary_simulate(&[F, F, F], &[]);
    assert_eq!(v[any.node_id()].not_if(any.compl()), F);
}

#[test]
fn symbols_and_ranges() {
    let mut aig = Aig::default();
    let a = aig.new_input();
    aig.set_symbol(a, "req");
    assert_eq!(aig.get_symbol(a), Some("req".to_string()));
    assert_eq!(aig.get_symbol(0), None);
    assert_eq!(aig.nodes_range(), 1..2);
    assert_eq!(aig.nodes_range_with_false(), 0..2);
    let l = aig.new_latch(AigEdge::new(a, false), Some(AigEdge::constant(false)));
    assert_eq!(l, 2);
    assert_eq!(aig.latchs.len(), 1);
    let leaf = aig.new_leaf_node();
    aig.add_input(leaf);
    assert_eq!(aig.inputs, vec![1, 3]);
    let leaf2 = aig.new_leaf_node();
    aig.add_latch(leaf2, AigEdge::constant(true), None);
    assert_eq!(aig.latchs[1].input, 4);
}

#[test]
fn fanin_cone_flags() {
    let mut aig = Aig::new();
    let a: AigEdge = aig.new_input().into();
    let b: AigEdge = aig.new_input().into();
    let c: AigEdge = aig.new_input().into();
    let x = aig.new_and_node(a, b);
    let _y = aig.new_and_node(b, c);
    let flags = aig.fanin_logic_cone(&[x]);
    assert_eq!(flags, vec![false, true, true, false, true, false]);
}

#[test]
fn test() {
    let mut aig = Aig::new();
    let i0: AigEdge = aig.new_input().into();
    let i1: AigEdge = aig.new_input().into();
    aig.new_and_node(i0, i1);
    assert_eq!(aig.num_nodes(), 4);
}

#[test]
fn clone_keeps_names_and_nodes() {
    let mut aig = Aig::new();
    let a = aig.new_input();
    let b = aig.new_input();
    aig.new_and_node(AigEdge::new(a, false), AigEdge::new(b, true));
    aig.set_symbol(b, "enable");
    let c = aig.clone();
    assert_eq!(c.nodes, aig.nodes);
    assert_eq!(c.inputs, aig.inputs);
    assert_eq!(c.get_symbol(b), Some("enable".to_string()));
    assert_eq!(c.get_symbol(a), None);
}

#[test]
fn well_formedness_check() {
    let mut aig = Aig::new();
    let a: AigEdge = aig.new_input().into();
    let b: AigEdge = aig.new_input().into();
    let x = aig.new_and_node(a, b);
    aig.outputs.push(x);
    assert!(aig.is_wf());
    aig.outputs.push(AigEdge::new(9, false));
    assert!(!aig.is_wf());
    aig.outputs.pop();
    aig.inputs.push(x.node_id());
    assert!(!aig.is_wf());
}
