//! End-to-end tests of the dataflow engine: the example scenarios, the
//! per-node behaviours, traversal order, removal, and cycle handling.

use audio_graph::context::AudioContext;
use audio_graph::graph::{AudioGraph, Direction};
use audio_graph::node::{
    BoxedNode, ConstSig, Input, Inputs, Node, NodeData, NodeKind, Pass, Sum2,
};
use audio_graph::processor::Processor;

/// Two fixed-value sources emitting 10 and 43; a passthrough fed by the
/// 10-source; a 2-input sum fed by the passthrough and directly by the
/// 43-source; the destination fed by that sum.
fn build_demo_context() -> AudioContext {
    let mut context = AudioContext::new();
    let const_sig_10 = context.add_node(NodeKind::Const(ConstSig::new(10)));
    let const_sig_43 = context.add_node(NodeKind::Const(ConstSig::new(43)));
    let pass_node = context.add_node(NodeKind::Through(Pass));
    let sum_node = context.add_node(NodeKind::Sum(Sum2));
    context.connect(const_sig_10, pass_node);
    context.connect(pass_node, sum_node);
    context.connect(const_sig_43, sum_node);
    let dest = context.destination;
    context.connect(sum_node, dest);
    context
}

#[test]
fn scenario_two_sources_sum_to_53() {
    let mut context = build_demo_context();
    assert_eq!(context.next_block(), 53);
}

#[test]
fn scenario_destination_without_predecessors_yields_zero() {
    // The destination is a summation node; the sum over zero inputs is
    // defined as 0.
    let mut context = AudioContext::new();
    assert_eq!(context.next_block(), 0);
}

#[test]
fn scenario_three_node_chain_rooted_at_tail() {
    let mut g = AudioGraph::new();
    let a = g.add_node(NodeData::new(BoxedNode::new(NodeKind::Const(ConstSig::new(7)))));
    let b = g.add_node(NodeData::new(BoxedNode::new(NodeKind::Through(Pass))));
    let c = g.add_node(NodeData::new(BoxedNode::new(NodeKind::Through(Pass))));
    g.add_edge(a, b);
    g.add_edge(b, c);
    let mut processor = Processor::new();
    processor.process(&mut g, c);
    assert_eq!(g.buffer_of(c), 7);
}

#[test]
fn repeated_blocks_are_deterministic() {
    let mut context = build_demo_context();
    let first = context.next_block();
    let second = context.next_block();
    let third = context.next_block();
    assert_eq!(first, 53);
    assert_eq!(second, first);
    assert_eq!(third, first);
}

#[test]
fn traversal_visits_each_reachable_node_exactly_once() {
    let mut context = build_demo_context();
    context.next_block();
    let order = &context.processor.order;
    // Reachable from the destination: the destination, the sum, the
    // passthrough and the two sources — not the context's input node.
    assert_eq!(order.len(), 5);
    let mut i = 0;
    while i < order.len() {
        let mut j = i + 1;
        while j < order.len() {
            assert_ne!(order[i], order[j]);
            j += 1;
        }
        i += 1;
    }
    let dest = context.destination;
    assert!(order.contains(&dest));
    assert!(!order.contains(&context.input));
}

#[test]
fn producers_are_processed_before_consumers() {
    let mut context = build_demo_context();
    context.next_block();
    let order = &context.processor.order;
    // Every edge (from, to) among processed nodes has `from` earlier.
    let pos = |id: usize| order.iter().position(|&n| n == id);
    let g = &context.graph;
    let dest = context.destination;
    let dest_preds = g.neighbors(dest, Direction::Incoming);
    for &p in dest_preds.iter() {
        assert!(pos(p).unwrap() < pos(dest).unwrap());
        for &q in g.neighbors(p, Direction::Incoming).iter() {
            assert!(pos(q).unwrap() < pos(p).unwrap());
        }
    }
}

#[test]
fn self_edge_never_feeds_a_node_its_own_value() {
    let mut context = AudioContext::new();
    let src = context.add_node(NodeKind::Const(ConstSig::new(5)));
    let sum = context.add_node(NodeKind::Sum(Sum2));
    context.connect(src, sum);
    context.connect(sum, sum);
    let dest = context.destination;
    context.connect(sum, dest);
    // Were the self edge fed back, the sum would grow block over block.
    assert_eq!(context.next_block(), 5);
    assert_eq!(context.next_block(), 5);
}

#[test]
fn removal_keeps_other_identifiers_valid() {
    let mut context = AudioContext::new();
    let five = context.add_node(NodeKind::Const(ConstSig::new(5)));
    let seven = context.add_node(NodeKind::Const(ConstSig::new(7)));
    let dest = context.destination;
    context.connect(five, dest);
    context.connect(seven, dest);
    assert_eq!(context.next_block(), 12);
    context.graph.remove_node(seven);
    assert_eq!(context.next_block(), 5);
    assert!(context.graph.is_live(five));
    assert!(!context.graph.is_live(seven));
    // The traversal never references the removed node.
    assert!(!context.processor.order.contains(&seven));
}

#[test]
fn traversal_terminates_on_cycles() {
    let mut g = AudioGraph::new();
    let a = g.add_node(NodeData::new(BoxedNode::new(NodeKind::Through(Pass))));
    let b = g.add_node(NodeData::new(BoxedNode::new(NodeKind::Through(Pass))));
    let c = g.add_node(NodeData::new(BoxedNode::new(NodeKind::Through(Pass))));
    let d = g.add_node(NodeData::new(BoxedNode::new(NodeKind::Through(Pass))));
    g.add_edge(a, b);
    g.add_edge(b, c);
    g.add_edge(c, a);
    g.add_edge(c, d);
    let mut processor = Processor::new();
    processor.process(&mut g, d);
    assert_eq!(processor.order.len(), 4);
    for &n in &[a, b, c, d] {
        assert!(processor.order.contains(&n));
    }
}

#[test]
fn parallel_edges_collapse_to_one_input() {
    // The inputs are a mapping keyed by predecessor identifier: a source
    // connected by two parallel edges contributes one entry, not two.
    let mut context = AudioContext::new();
    let five = context.add_node(NodeKind::Const(ConstSig::new(5)));
    let dest = context.destination;
    context.connect(five, dest);
    context.connect(five, dest);
    assert_eq!(context.next_block(), 5);
}

#[test]
fn parallel_edges_do_not_double_count_among_others() {
    let mut context = AudioContext::new();
    let five = context.add_node(NodeKind::Const(ConstSig::new(5)));
    let three = context.add_node(NodeKind::Const(ConstSig::new(3)));
    let dest = context.destination;
    context.connect(five, dest);
    context.connect(three, dest);
    context.connect(five, dest);
    assert_eq!(context.next_block(), 8);
}

#[test]
fn summation_wraps_on_overflow() {
    let mut context = AudioContext::new();
    let big = context.add_node(NodeKind::Const(ConstSig::new(i32::MAX)));
    let one = context.add_node(NodeKind::Const(ConstSig::new(1)));
    let dest = context.destination;
    context.connect(big, dest);
    context.connect(one, dest);
    assert_eq!(context.next_block(), i32::MIN);
}

#[test]
fn passthrough_without_predecessor_keeps_prior_output() {
    let inputs = Inputs::new();
    let mut pass = Pass;
    let mut out: i32 = 42;
    pass.process(&inputs, &mut out);
    assert_eq!(out, 42);
}

#[test]
fn passthrough_copies_its_first_input() {
    let mut inputs = Inputs::new();
    inputs.push(Input::new(0, 9));
    inputs.push(Input::new(1, 11));
    let mut pass = Pass;
    let mut out: i32 = 0;
    pass.process(&inputs, &mut out);
    assert_eq!(out, 9);
}

#[test]
fn const_sig_writes_its_value() {
    let inputs = Inputs::new();
    let mut sig = ConstSig::new(-3);
    let mut out: i32 = 0;
    sig.process(&inputs, &mut out);
    assert_eq!(out, -3);
}

#[test]
fn summation_adds_all_inputs() {
    let mut inputs = Inputs::new();
    inputs.push(Input::new(0, 4));
    inputs.push(Input::new(1, -6));
    inputs.push(Input::new(2, 10));
    let mut sum = Sum2;
    let mut out: i32 = 99;
    sum.process(&inputs, &mut out);
    assert_eq!(out, 8);
}

#[test]
fn node_data_starts_with_zero_buffer() {
    let data = NodeData::new(BoxedNode::new(NodeKind::Through(Pass)));
    assert_eq!(data.buffer, 0);
    let input = Input::new(3, 8);
    assert_eq!(input.node_id, 3);
}

#[test]
fn neighbors_lists_both_directions_in_edge_order() {
    let mut g = AudioGraph::new();
    let a = g.add_node(NodeData::new(BoxedNode::new(NodeKind::Through(Pass))));
    let b = g.add_node(NodeData::new(BoxedNode::new(NodeKind::Through(Pass))));
    let c = g.add_node(NodeData::new(BoxedNode::new(NodeKind::Through(Pass))));
    let d = g.add_node(NodeData::new(BoxedNode::new(NodeKind::Through(Pass))));
    g.add_edge(a, b);
    g.add_edge(c, b);
    g.add_edge(b, d);
    assert_eq!(g.neighbors(b, Direction::Incoming), vec![a, c]);
    assert_eq!(g.neighbors(b, Direction::Outgoing), vec![d]);
    assert_eq!(g.neighbors(d, Direction::Outgoing), vec![]);
}
