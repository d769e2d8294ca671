use flowsynth::behavior::{
    InterleavingOutputNode, NodeBehavior, ProductNode, SinNode, SumNode, WaveformNode,
};
use flowsynth::graph::{GraphError, NodeGraph};
use flowsynth::node::NodeId;
use flowsynth::sample::{ONE_BITS, ZERO_BITS};
use flowsynth::BUFFER_SIZE;

fn sum_node(n: usize) -> NodeBehavior {
    NodeBehavior::Sum(SumNode::new(n))
}

fn waveform(samples: &[f32]) -> NodeBehavior {
    let table: Vec<u32> = samples.iter().map(|s| s.to_bits()).collect();
    NodeBehavior::Waveform(WaveformNode::new(table))
}

fn edges_of(g: &NodeGraph) -> Vec<(usize, usize, usize, usize)> {
    let mut v = Vec::new();
    for k in 0..g.edge_count() {
        let e = g.edge_ref(k);
        v.push((e.from.0, e.from_out_idx, e.to.0, e.to_in_idx));
    }
    v
}

fn node_summary(g: &NodeGraph) -> Vec<(usize, String)> {
    let mut v = Vec::new();
    for k in 0..g.node_count() {
        let n = g.node_ref(k);
        v.push((n.id.0, n.name.clone()));
    }
    v
}

#[test]
fn node_ids_are_fresh_and_ascending() {
    let mut g = NodeGraph::new();
    let a = g.add_node("a", sum_node(2));
    let b = g.add_node("b", sum_node(2));
    assert_eq!(a.0, 1);
    assert_eq!(b.0, 2);
    g.remove_node(a).unwrap();
    let c = g.add_node("c", sum_node(2));
    assert_eq!(c.0, 3, "ids are never reused, even after removal");
}

#[test]
fn add_then_remove_leaves_graph_unchanged() {
    let mut g = NodeGraph::new();
    let a = g.add_node("a", sum_node(1));
    let b = g.add_node("b", sum_node(1));
    g.connect(a, 0, b, 0).unwrap();
    let nodes_before = node_summary(&g);
    let edges_before = edges_of(&g);
    let c = g.add_node("c", waveform(&[1.0]));
    g.remove_node(c).unwrap();
    assert_eq!(node_summary(&g), nodes_before);
    assert_eq!(edges_of(&g), edges_before);
}

#[test]
fn remove_node_drops_incident_edges() {
    let mut g = NodeGraph::new();
    let a = g.add_node("a", sum_node(1));
    let b = g.add_node("b", sum_node(2));
    let c = g.add_node("c", sum_node(1));
    g.connect(a, 0, b, 0).unwrap();
    g.connect(b, 0, c, 0).unwrap();
    g.connect(a, 0, b, 1).unwrap();
    assert_eq!(g.edge_count(), 3);
    g.remove_node(b).unwrap();
    assert_eq!(g.edge_count(), 0);
    assert_eq!(g.node_count(), 2);
}

#[test]
fn connect_then_disconnect_is_structurally_identity() {
    let mut g = NodeGraph::new();
    let a = g.add_node("a", sum_node(1));
    let b = g.add_node("b", sum_node(2));
    g.connect(a, 0, b, 1).unwrap();
    let nodes_before = node_summary(&g);
    let edges_before = edges_of(&g);
    g.connect(a, 0, b, 0).unwrap();
    g.disconnect(a, 0, b, 0).unwrap();
    assert_eq!(node_summary(&g), nodes_before);
    assert_eq!(edges_of(&g), edges_before);
}

#[test]
fn occupied_input_rejects_any_second_producer() {
    let mut g = NodeGraph::new();
    let a = g.add_node("a", sum_node(1));
    let b = g.add_node("b", sum_node(1));
    let c = g.add_node("c", sum_node(2));
    g.connect(a, 0, c, 0).unwrap();
    assert_eq!(g.connect(b, 0, c, 0), Err(GraphError::InputAlreadyConnected));
    assert_eq!(g.connect(a, 0, c, 0), Err(GraphError::InputAlreadyConnected));
    // the other input of c is still free
    assert_eq!(g.connect(b, 0, c, 1), Ok(()));
}

#[test]
fn port_index_equal_to_count_is_out_of_range() {
    let mut g = NodeGraph::new();
    let a = g.add_node("a", sum_node(2));
    let b = g.add_node("b", sum_node(2));
    assert_eq!(g.connect(a, 0, b, 2), Err(GraphError::PortOutOfRange));
    assert_eq!(g.connect(a, 1, b, 0), Err(GraphError::PortOutOfRange));
    assert_eq!(g.connect(a, 0, b, 1), Ok(()));
}

#[test]
fn unknown_node_is_rejected() {
    let mut g = NodeGraph::new();
    let a = g.add_node("a", sum_node(1));
    assert_eq!(g.remove_node(NodeId(77)), Err(GraphError::UnknownNode));
    assert_eq!(g.connect(NodeId(77), 0, a, 0), Err(GraphError::UnknownNode));
    assert_eq!(g.connect(a, 0, NodeId(77), 0), Err(GraphError::UnknownNode));
}

#[test]
fn disconnect_without_edge_is_rejected() {
    let mut g = NodeGraph::new();
    let a = g.add_node("a", sum_node(1));
    let b = g.add_node("b", sum_node(1));
    assert_eq!(g.disconnect(a, 0, b, 0), Err(GraphError::EdgeNotFound));
    g.connect(a, 0, b, 0).unwrap();
    assert_eq!(g.disconnect(b, 0, a, 0), Err(GraphError::EdgeNotFound));
}

#[test]
fn cycle_is_rejected_and_chain_still_ticks() {
    let mut g = NodeGraph::new();
    let a = g.add_node("a", sum_node(1));
    let b = g.add_node("b", sum_node(1));
    let c = g.add_node("c", sum_node(1));
    assert_eq!(g.connect(a, 0, b, 0), Ok(()));
    assert_eq!(g.connect(b, 0, c, 0), Ok(()));
    assert_eq!(g.connect(c, 0, a, 0), Err(GraphError::WouldCreateCycle));
    assert_eq!(g.edge_count(), 2);
    g.update();
    let block = g.output_block();
    assert_eq!(block.len(), 2 * BUFFER_SIZE);
    assert!(block.iter().all(|&s| s == ZERO_BITS));
}

#[test]
fn self_loop_is_a_cycle() {
    let mut g = NodeGraph::new();
    let a = g.add_node("a", sum_node(1));
    assert_eq!(g.connect(a, 0, a, 0), Err(GraphError::WouldCreateCycle));
}

#[test]
fn tick_orders_producers_before_consumers() {
    let mut g = NodeGraph::new();
    // insert the consumer chain before its producer to force reordering
    let s2 = g.add_node("late_sum", sum_node(1));
    let s1 = g.add_node("mid_sum", sum_node(1));
    let w = g.add_node("feed", waveform(&[0.25]));
    g.connect(w, 0, s1, 0).unwrap();
    g.connect(s1, 0, s2, 0).unwrap();
    g.update();
    // in one tick the value propagates down the whole chain
    let bits = 0.25f32.to_bits();
    for k in 0..g.node_count() {
        let n = g.node_ref(k);
        if n.name == "late_sum" {
            assert!(n.outs[0].buffer.iter().all(|&s| s == bits));
        }
    }
}

#[test]
fn unconnected_inputs_read_silence() {
    let mut g = NodeGraph::new();
    let a = g.add_node("a", sum_node(2));
    g.update();
    let n = g.node_ref(0);
    assert_eq!(n.id.0, a.0);
    assert!(n.ins[0].buffer.iter().all(|&s| s == ZERO_BITS));
    assert!(n.ins[1].buffer.iter().all(|&s| s == ZERO_BITS));
    assert!(n.outs[0].buffer.iter().all(|&s| s == ZERO_BITS));
}

#[test]
fn zero_input_behaviors_still_evaluate() {
    let mut g = NodeGraph::new();
    g.add_node("w", waveform(&[0.5]));
    g.add_node("s", sum_node(0));
    g.add_node("p", NodeBehavior::Product(ProductNode::new(0)));
    g.update();
    for k in 0..g.node_count() {
        let n = g.node_ref(k);
        assert_eq!(n.ins.len(), 0);
        match n.name.as_str() {
            "w" => assert!(n.outs[0].buffer.iter().all(|&s| s == 0.5f32.to_bits())),
            "s" => assert!(n.outs[0].buffer.iter().all(|&s| s == ZERO_BITS)),
            "p" => assert!(n.outs[0].buffer.iter().all(|&s| s == ONE_BITS)),
            _ => panic!("unexpected node"),
        }
    }
}

#[test]
fn waveform_table_cycles() {
    let mut g = NodeGraph::new();
    g.add_node("w", waveform(&[1.0, 2.0, 3.0]));
    g.update();
    let n = g.node_ref(0);
    for i in 0..BUFFER_SIZE {
        let expect = [1.0f32, 2.0, 3.0][i % 3].to_bits();
        assert_eq!(n.outs[0].buffer[i], expect);
    }
}

#[test]
fn snapshot_is_stable_across_edit_order() {
    let mut g1 = NodeGraph::new();
    let a1 = g1.add_node("alpha", waveform(&[1.0]));
    let b1 = g1.add_node("beta", sum_node(2));
    let c1 = g1.add_node("gamma", sum_node(1));
    g1.connect(a1, 0, b1, 0).unwrap();
    g1.connect(a1, 0, b1, 1).unwrap();
    g1.connect(b1, 0, c1, 0).unwrap();

    let mut g2 = NodeGraph::new();
    let a2 = g2.add_node("alpha", waveform(&[1.0]));
    let b2 = g2.add_node("beta", sum_node(2));
    let c2 = g2.add_node("gamma", sum_node(1));
    // same edges, connected in another order, with churn in between
    g2.connect(b2, 0, c2, 0).unwrap();
    g2.connect(a2, 0, b2, 1).unwrap();
    g2.disconnect(a2, 0, b2, 1).unwrap();
    g2.connect(a2, 0, b2, 1).unwrap();
    g2.connect(a2, 0, b2, 0).unwrap();

    assert_eq!(g1.to_dot(), g2.to_dot());
}

#[test]
fn snapshot_format_of_single_node() {
    let mut g = NodeGraph::new();
    g.add_node("a", sum_node(1));
    let text = g.to_dot();
    assert_eq!(
        text,
        "digraph {\n\tnode [shape=box]\n\n\tnode1 [label=\"0) a\"]\n\n}"
    );
}

#[test]
fn snapshot_lists_edges() {
    let mut g = NodeGraph::new();
    let a = g.add_node("a", waveform(&[1.0]));
    let b = g.add_node("b", sum_node(1));
    g.connect(a, 0, b, 0).unwrap();
    let text = g.to_dot();
    assert_eq!(
        text,
        "digraph {\n\tnode [shape=box]\n\n\tnode1 [label=\"0) a\"]\n\tnode2 [label=\"1) b\"]\n\n\tnode1 -> node2\n}"
    );
}

#[test]
fn behavior_descriptors_report_ports() {
    let info = SumNode::new(3).get_info();
    assert_eq!(info.kind_name, "SumNode");
    assert_eq!(info.num_ins, 3);
    assert_eq!(info.num_outs, 1);
    let info = ProductNode::new(2).get_info();
    assert_eq!(info.kind_name, "ProductNode");
    assert_eq!(info.num_ins, 2);
    let info = WaveformNode::new(vec![ZERO_BITS]).get_info();
    assert_eq!(info.kind_name, "WaveformNode");
    assert_eq!(info.num_ins, 0);
    let info = SinNode::new().get_info();
    assert_eq!(info.kind_name, "SinNode");
    assert_eq!(info.num_ins, 1);
    let info = InterleavingOutputNode::new().get_info();
    assert_eq!(info.kind_name, "InterleavingOutputNode");
    assert_eq!(info.num_ins, 2);
    assert_eq!(info.num_outs, 0);
}

#[test]
fn snapshot_renders_multi_digit_ids() {
    let mut g = NodeGraph::new();
    for i in 0..12 {
        g.add_node(&format!("n{}", i), sum_node(1));
    }
    for i in 0..11 {
        g.remove_node(NodeId(i + 1)).unwrap();
    }
    let text = g.to_dot();
    assert_eq!(
        text,
        "digraph {\n\tnode [shape=box]\n\n\tnode12 [label=\"0) n11\"]\n\n}"
    );
}

#[test]
fn structural_edits_mark_dirty_and_sorting_cleans() {
    let mut g = NodeGraph::new();
    assert!(!g.dirty());
    let a = g.add_node("a", sum_node(1));
    assert!(g.dirty());
    g.update();
    assert!(!g.dirty());
    let b = g.add_node("b", sum_node(1));
    g.update();
    g.connect(a, 0, b, 0).unwrap();
    assert!(g.dirty(), "a successful connect is a structural edit");
    g.update();
    assert!(!g.dirty());
    // a rejected edit leaves the graph, its flag included, untouched
    assert_eq!(g.connect(a, 0, b, 0), Err(GraphError::InputAlreadyConnected));
    assert!(!g.dirty());
    g.disconnect(a, 0, b, 0).unwrap();
    assert!(g.dirty());
    let _ = g.to_dot();
    assert!(!g.dirty());
    g.remove_node(b).unwrap();
    assert!(g.dirty());
}
