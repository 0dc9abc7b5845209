use circles::fragment::{fragment_for, Fragment, FragmentKind};
use circles::graph::{contains_id, Descriptor, Graph, GraphError};

fn placed(g: &mut Graph, op: &str) -> u64 {
    g.create_node(op.to_string(), 0, Vec::new()).unwrap()
}

#[test]
fn new_node_starts_dirty_at_rank_zero() {
    let mut g = Graph::new();
    let a = g.create_node("Var".to_string(), 7, vec![1, 2]).unwrap();
    let n = g.node(a).unwrap();
    assert_eq!(n.rank, 0);
    assert!(n.dirty);
    assert_eq!(n.fragment, Fragment { kind: FragmentKind::Placeholder, inputs: 0, outputs: 1 });
    assert!(n.live_inputs.is_empty());
    assert_eq!(n.scalar, 7);
    assert_eq!(n.array, vec![1, 2]);
}

#[test]
fn handles_are_not_reused() {
    let mut g = Graph::new();
    let a = placed(&mut g, "Var");
    g.delete_node(a).unwrap();
    let b = placed(&mut g, "Var");
    assert_ne!(a, b);
}

#[test]
fn registry_tags() {
    assert_eq!(fragment_for("Var"), Fragment { kind: FragmentKind::Variable, inputs: 0, outputs: 1 });
    assert_eq!(fragment_for("0outs"), Fragment { kind: FragmentKind::Placeholder, inputs: 0, outputs: 0 });
    assert_eq!(fragment_for("2outs"), Fragment { kind: FragmentKind::Placeholder, inputs: 0, outputs: 2 });
    assert_eq!(fragment_for("4outs"), Fragment { kind: FragmentKind::Placeholder, inputs: 0, outputs: 4 });
    assert_eq!(fragment_for("5outs"), Fragment { kind: FragmentKind::Constant, inputs: 0, outputs: 1 });
    assert_eq!(fragment_for("var"), Fragment { kind: FragmentKind::Constant, inputs: 0, outputs: 1 });
    assert_eq!(fragment_for(""), Fragment { kind: FragmentKind::Constant, inputs: 0, outputs: 1 });
}

#[test]
fn placeholder_tags_give_declared_arity() {
    let mut g = Graph::new();
    let a = placed(&mut g, "0outs");
    let b = placed(&mut g, "2outs");
    let c = placed(&mut g, "no such op");
    g.rebuild();
    let fa = g.node(a).unwrap().fragment;
    let fb = g.node(b).unwrap().fragment;
    let fc = g.node(c).unwrap().fragment;
    assert_eq!((fa.inputs, fa.outputs), (0, 0));
    assert_eq!((fb.inputs, fb.outputs), (0, 2));
    assert_eq!((fc.inputs, fc.outputs), (0, 1));
    assert_eq!(fc.kind, FragmentKind::Constant);
}

#[test]
fn unknown_tag_clears_live_inputs() {
    let mut g = Graph::new();
    let a = g.create_node("Var".to_string(), 9, Vec::new()).unwrap();
    g.rebuild_fragments();
    assert_eq!(g.node(a).unwrap().live_inputs, vec![9]);
    g.set_operation(a, "mystery".to_string()).unwrap();
    g.rebuild_fragments();
    let n = g.node(a).unwrap();
    assert!(n.live_inputs.is_empty());
    assert_eq!(n.fragment, Fragment { kind: FragmentKind::Constant, inputs: 0, outputs: 1 });
}

#[test]
fn set_operation_only_flags_dirty() {
    let mut g = Graph::new();
    let a = placed(&mut g, "Var");
    g.rebuild_fragments();
    g.set_operation(a, "3outs".to_string()).unwrap();
    let n = g.node(a).unwrap();
    assert!(n.dirty);
    assert_eq!(n.fragment.kind, FragmentKind::Variable);
    assert_eq!(g.rebuild_fragments(), 1);
    let n = g.node(a).unwrap();
    assert!(!n.dirty);
    assert_eq!(n.fragment, Fragment { kind: FragmentKind::Placeholder, inputs: 0, outputs: 3 });
    assert_eq!(g.rebuild_fragments(), 0);
}

#[test]
fn set_operation_on_missing_node() {
    let mut g = Graph::new();
    assert_eq!(g.set_operation(3, "Var".to_string()), Err(GraphError::InvalidEndpoint));
}

#[test]
fn scalar_is_pushed_into_built_cell() {
    let mut g = Graph::new();
    let a = g.create_node("Var".to_string(), 1, Vec::new()).unwrap();
    g.set_scalar(a, 5).unwrap();
    assert!(g.node(a).unwrap().live_inputs.is_empty());
    g.rebuild_fragments();
    assert_eq!(g.node(a).unwrap().live_inputs, vec![5]);
    g.set_scalar(a, 6).unwrap();
    assert_eq!(g.node(a).unwrap().live_inputs, vec![6]);
    assert_eq!(g.node(a).unwrap().scalar, 6);
    assert_eq!(g.set_scalar(a + 1, 6), Err(GraphError::InvalidEndpoint));
}

#[test]
fn array_is_stored() {
    let mut g = Graph::new();
    let a = g.create_node("Var".to_string(), 1, Vec::new()).unwrap();
    g.rebuild_fragments();
    g.set_array(a, vec![4, 5]).unwrap();
    let n = g.node(a).unwrap();
    assert_eq!(n.array, vec![4, 5]);
    assert_eq!(n.live_inputs, vec![1]);
    assert_eq!(g.set_array(a + 1, vec![]), Err(GraphError::InvalidEndpoint));
}

#[test]
fn connect_appends_descriptors() {
    let mut g = Graph::new();
    let a = placed(&mut g, "Var");
    let b = placed(&mut g, "empty");
    let l = g.connect(a, 3, b, 4).unwrap();
    assert_eq!(g.output_descriptors(a), vec![Descriptor { slot: 3, source_type: 0, sink_type: 0 }]);
    assert_eq!(g.input_descriptors(b), vec![Descriptor { slot: 4, source_type: 0, sink_type: 0 }]);
    assert!(g.output_descriptors(b).is_empty());
    assert!(g.input_descriptors(a).is_empty());
    let link = g.link(l).unwrap();
    assert_eq!((link.source, link.sink), (a, b));
    assert!(link.open);
}

#[test]
fn connect_rejects_missing_node() {
    let mut g = Graph::new();
    let a = placed(&mut g, "Var");
    assert_eq!(g.connect(a, 0, a + 10, 0), Err(GraphError::InvalidEndpoint));
    assert_eq!(g.connect(a + 10, 0, a, 0), Err(GraphError::InvalidEndpoint));
    assert_eq!(g.links.len(), 0);
}

#[test]
fn connect_then_disconnect_round_trip() {
    let mut g = Graph::new();
    let a = placed(&mut g, "Var");
    let b = placed(&mut g, "Var");
    g.connect(b, 1, a, 2).unwrap();
    let outs_a = g.output_descriptors(a);
    let ins_a = g.input_descriptors(a);
    let outs_b = g.output_descriptors(b);
    let ins_b = g.input_descriptors(b);
    let l = g.connect(a, 0, b, 0).unwrap();
    assert_ne!(g.output_descriptors(a), outs_a);
    assert!(g.disconnect(l));
    assert_eq!(g.output_descriptors(a), outs_a);
    assert_eq!(g.input_descriptors(a), ins_a);
    assert_eq!(g.output_descriptors(b), outs_b);
    assert_eq!(g.input_descriptors(b), ins_b);
}

#[test]
fn disconnect_is_idempotent() {
    let mut g = Graph::new();
    let a = placed(&mut g, "Var");
    let b = placed(&mut g, "Var");
    let l = g.connect(a, 0, b, 0).unwrap();
    assert!(g.disconnect(l));
    assert!(!g.disconnect(l));
    assert!(g.link(l).is_none());
    assert_eq!(g.links.len(), 0);
}

#[test]
fn retype_sets_codes_and_flag() {
    let mut g = Graph::new();
    let a = placed(&mut g, "Var");
    let b = placed(&mut g, "Var");
    let l = g.connect(a, 0, b, 0).unwrap();
    g.rebuild();
    assert!(!g.link(l).unwrap().retyped);
    g.retype(l, 2, -3).unwrap();
    let link = g.link(l).unwrap();
    assert!(link.retyped);
    assert_eq!((link.source_type, link.sink_type), (2, -3));
    assert_eq!(g.output_descriptors(a), vec![Descriptor { slot: 0, source_type: 2, sink_type: -3 }]);
    assert_eq!(g.retype(l + 1, 0, 0), Err(GraphError::InvalidEndpoint));
}

#[test]
fn deleting_node_removes_its_links() {
    let mut g = Graph::new();
    let a = placed(&mut g, "Var");
    let b = placed(&mut g, "Var");
    let c = placed(&mut g, "Var");
    g.connect(a, 0, b, 0).unwrap();
    g.connect(c, 0, a, 0).unwrap();
    let kept = g.connect(b, 0, c, 0).unwrap();
    g.take_order_changed();
    assert_eq!(g.delete_node(a), Ok(2));
    assert!(g.node(a).is_none());
    assert_eq!(g.links.len(), 1);
    assert!(g.link(kept).is_some());
    assert!(g.take_order_changed());
    assert_eq!(g.delete_node(a), Err(GraphError::InvalidEndpoint));
}

#[test]
fn batch_delete_removes_shared_link_once() {
    let mut g = Graph::new();
    let a = placed(&mut g, "Var");
    let b = placed(&mut g, "empty");
    g.connect(a, 0, b, 0).unwrap();
    let removed = g.delete_node_cascade(&vec![a, b]);
    assert_eq!(removed, Ok(1));
    assert_eq!(g.nodes.len(), 0);
    assert_eq!(g.links.len(), 0);
}

#[test]
fn batch_delete_counts_each_link_once() {
    let mut g = Graph::new();
    let a = placed(&mut g, "Var");
    let b = placed(&mut g, "Var");
    let c = placed(&mut g, "Var");
    g.connect(a, 0, b, 0).unwrap();
    g.connect(b, 0, a, 1).unwrap();
    g.connect(b, 0, c, 0).unwrap();
    g.connect(c, 0, c, 1).unwrap();
    assert_eq!(g.delete_node_cascade(&vec![a, b, 99]), Err(GraphError::InvalidEndpoint));
    assert_eq!(g.nodes.len(), 3);
    assert_eq!(g.links.len(), 4);
    assert_eq!(g.delete_node_cascade(&vec![a, b]), Ok(3));
    assert_eq!(g.nodes.len(), 1);
    assert_eq!(g.links.len(), 1);
    assert_eq!(g.delete_node_cascade(&vec![]), Ok(0));
}

#[test]
fn bump_rank_clamps_at_zero() {
    let mut g = Graph::new();
    let a = placed(&mut g, "Var");
    g.bump_rank(a, false).unwrap();
    assert_eq!(g.node(a).unwrap().rank, 0);
    g.bump_rank(a, true).unwrap();
    g.bump_rank(a, true).unwrap();
    g.bump_rank(a, false).unwrap();
    assert_eq!(g.node(a).unwrap().rank, 1);
    assert!(g.take_order_changed());
    assert!(!g.take_order_changed());
    assert_eq!(g.bump_rank(a + 1, true), Err(GraphError::InvalidEndpoint));
}

#[test]
fn repair_scenario_fires_once() {
    let mut g = Graph::new();
    let a = placed(&mut g, "Var");
    let b = placed(&mut g, "empty");
    g.connect(a, 0, b, 0).unwrap();
    assert!(!g.take_order_changed());
    assert!(g.repair());
    assert_eq!(g.node(a).unwrap().rank, 0);
    assert_eq!(g.node(b).unwrap().rank, 1);
    assert!(g.take_order_changed());
    assert!(!g.take_order_changed());
    assert!(!g.repair());
    assert_eq!(g.node(b).unwrap().rank, 1);
    assert!(!g.take_order_changed());
}

#[test]
fn repair_is_one_hop() {
    let mut g = Graph::new();
    let a = placed(&mut g, "Var");
    let b = placed(&mut g, "Var");
    let c = placed(&mut g, "Var");
    g.connect(b, 0, c, 0).unwrap();
    g.connect(a, 0, b, 0).unwrap();
    g.repair();
    assert_eq!(g.node(b).unwrap().rank, 1);
    assert_eq!(g.node(c).unwrap().rank, 1);
    g.repair();
    assert_eq!(g.node(c).unwrap().rank, 2);
}

#[test]
fn repair_takes_highest_parent() {
    let mut g = Graph::new();
    let a = placed(&mut g, "Var");
    let b = placed(&mut g, "Var");
    let c = placed(&mut g, "Var");
    for _ in 0..4 {
        g.bump_rank(b, true).unwrap();
    }
    g.connect(a, 0, c, 0).unwrap();
    g.connect(b, 0, c, 1).unwrap();
    g.repair();
    assert_eq!(g.node(c).unwrap().rank, 5);
}

#[test]
fn rank_order_is_stable() {
    let mut g = Graph::new();
    let a = placed(&mut g, "Var");
    let b = placed(&mut g, "Var");
    let c = placed(&mut g, "Var");
    let d = placed(&mut g, "Var");
    g.bump_rank(a, true).unwrap();
    g.bump_rank(c, true).unwrap();
    g.bump_rank(c, true).unwrap();
    let order: Vec<u64> = g.rank_order().iter().map(|&i| g.nodes[i].id).collect();
    assert_eq!(order, vec![b, d, a, c]);
}

#[test]
fn rebuild_composes_in_rank_order() {
    let mut g = Graph::new();
    let a = g.create_node("Var".to_string(), 11, Vec::new()).unwrap();
    let b = placed(&mut g, "2outs");
    g.connect(a, 0, b, 1).unwrap();
    g.repair();
    g.bump_rank(a, true).unwrap();
    g.bump_rank(a, true).unwrap();
    let out = g.rebuild();
    assert!(!g.order_changed);
    assert_eq!(out.len(), 2);
    assert_eq!((out[0].node, out[0].rank), (b, 1));
    assert_eq!((out[1].node, out[1].rank), (a, 2));
    assert_eq!(out[0].fragment, Fragment { kind: FragmentKind::Placeholder, inputs: 0, outputs: 2 });
    assert_eq!(out[0].inputs, vec![Descriptor { slot: 1, source_type: 0, sink_type: 0 }]);
    assert_eq!(out[1].outputs, vec![Descriptor { slot: 0, source_type: 0, sink_type: 0 }]);
    assert_eq!(out[1].live_inputs, vec![11]);
    assert!(g.nodes.iter().all(|n| !n.dirty));
    assert!(g.links.iter().all(|l| !l.retyped));
}

#[test]
fn contains_id_finds_members() {
    assert!(contains_id(&vec![1, 2, 3], 2));
    assert!(!contains_id(&vec![1, 2, 3], 4));
    assert!(!contains_id(&vec![], 0));
}

#[test]
fn attached_links_lists_both_directions() {
    let mut g = Graph::new();
    let a = placed(&mut g, "Var");
    let b = placed(&mut g, "Var");
    let c = placed(&mut g, "Var");
    let l1 = g.connect(a, 0, b, 0).unwrap();
    let l2 = g.connect(c, 0, a, 0).unwrap();
    let l3 = g.connect(a, 1, a, 1).unwrap();
    g.connect(b, 0, c, 0).unwrap();
    assert_eq!(g.attached_links(a), vec![l1, l2, l3]);
    assert_eq!(g.delete_node(a), Ok(3));
    assert!(g.attached_links(a).is_empty());
}

#[test]
fn link_endpoints_are_listed_on_both_nodes() {
    let mut g = Graph::new();
    let a = placed(&mut g, "Var");
    let b = placed(&mut g, "Var");
    let l = g.connect(a, 0, b, 0).unwrap();
    let s = g.connect(b, 0, b, 1).unwrap();
    assert_eq!(g.node(a).unwrap().attached, vec![l]);
    assert_eq!(g.node(b).unwrap().attached, vec![l, s]);
    g.disconnect(l);
    assert!(g.node(a).unwrap().attached.is_empty());
    assert_eq!(g.node(b).unwrap().attached, vec![s]);
    g.delete_node_cascade(&vec![a]).unwrap();
    assert_eq!(g.node(b).unwrap().attached, vec![s]);
    assert_eq!(g.links.len(), 1);
}

#[test]
fn surviving_node_loses_index_entries_of_removed_links() {
    let mut g = Graph::new();
    let a = placed(&mut g, "Var");
    let b = placed(&mut g, "Var");
    let c = placed(&mut g, "Var");
    let l1 = g.connect(a, 0, c, 0).unwrap();
    let l2 = g.connect(b, 0, c, 1).unwrap();
    let l3 = g.connect(c, 0, b, 0).unwrap();
    assert_eq!(g.node(c).unwrap().attached, vec![l1, l2, l3]);
    assert_eq!(g.delete_node_cascade(&vec![a]), Ok(1));
    assert_eq!(g.node(c).unwrap().attached, vec![l2, l3]);
    assert_eq!(g.attached_links(c), vec![l2, l3]);
    assert_eq!(g.attached_links(a), Vec::<u64>::new());
}

#[test]
fn rebuild_leaves_every_node_clean() {
    let mut g = Graph::new();
    let a = placed(&mut g, "Var");
    let b = placed(&mut g, "1outs");
    g.rebuild();
    g.set_operation(a, "4outs".to_string()).unwrap();
    g.set_operation(b, "Var".to_string()).unwrap();
    g.rebuild();
    for n in &g.nodes {
        assert!(!n.dirty);
        assert_eq!(n.fragment, fragment_for(&n.operation));
    }
    assert_eq!(g.node(a).unwrap().fragment.outputs, 4);
    assert_eq!(g.node(b).unwrap().fragment.kind, FragmentKind::Variable);
}

#[test]
fn placeholder_exposes_no_cells() {
    let mut g = Graph::new();
    let a = g.create_node("Var".to_string(), 3, vec![1]).unwrap();
    g.rebuild_fragments();
    assert_eq!(g.node(a).unwrap().live_inputs, vec![3]);
    g.set_operation(a, "2outs".to_string()).unwrap();
    let b = g.create_node("2outs".to_string(), 3, vec![1]).unwrap();
    assert_eq!(g.rebuild_fragments(), 2);
    let na = g.node(a).unwrap();
    let nb = g.node(b).unwrap();
    assert_eq!(na.fragment, nb.fragment);
    assert!(na.live_inputs.is_empty());
    assert!(nb.live_inputs.is_empty());
}
