use aig::{Aig, AigEdge, AigNodeType};

fn with_duplicates() -> Aig {
    let mut aig = Aig::new();
    let a: AigEdge = aig.new_input().into();
    let b: AigEdge = aig.new_input().into();
    let x = aig.trivial_new_and_node(a, b);
    let y = aig.trivial_new_and_node(b, a);
    let z = aig.trivial_new_and_node(x, !y);
    let w = aig.trivial_new_and_node(y, !b);
    aig.outputs.push(z);
    aig.bads.push(w);
    aig.set_symbol(y.node_id(), "y");
    aig
}

#[test]
fn strash_merges_equal_ands() {
    let aig = with_duplicates();
    let s = aig.strash();
    assert_eq!(s.num_nodes(), aig.num_nodes() - 1);
    let pairs: Vec<_> = s
        .nodes
        .iter()
        .filter_map(|n| match n.typ {
            AigNodeType::And(f0, f1) => Some((f0, f1)),
            _ => None,
        })
        .collect();
    for i in 0..pairs.len() {
        for j in i + 1..pairs.len() {
            assert_ne!(pairs[i], pairs[j]);
        }
    }
    assert_eq!(s.inputs, vec![1, 2]);
    assert_eq!(s.outputs, vec![AigEdge::new(4, false)]);
    assert_eq!(s.bads, vec![AigEdge::new(5, false)]);
    assert_eq!(s.get_symbol(3), Some("y".to_string()));
}

#[test]
fn strash_fixed_point() {
    let once = with_duplicates().strash();
    let twice = once.strash();
    assert_eq!(twice.nodes, once.nodes);
    assert_eq!(twice.inputs, once.inputs);
    assert_eq!(twice.outputs, once.outputs);
    assert_eq!(twice.bads, once.bads);
}

#[test]
fn strash_names_follow_nodes() {
    let once = with_duplicates().strash();
    let twice = once.strash();
    assert_eq!(once.get_symbol(3), Some("y".to_string()));
    assert_eq!(twice.get_symbol(3), Some("y".to_string()));
}
