//! The block-oriented front end: one graph store and one traversal engine,
//! with two fixed convenience nodes wired up at construction.

use vstd::prelude::*;

use crate::eval::{
    apply_schedule, lemma_repeated_evaluation_deterministic, lemma_same_shape_apply,
};
use crate::graph::AudioGraph;
use crate::node::{BoxedNode, NodeData, NodeKind, Pass, Sum2};
use crate::order::{
    lemma_same_shape_symmetric, lemma_same_shape_valid_order, no_reachable_cycle, valid_order,
};
use crate::processor::{ids, Processor};

verus! {

/// Owns exactly one graph store, one traversal engine, and two fixed
/// identifiers: the destination (a summing root whose value is the
/// externally observed result) and an input passthrough entry point. Both
/// are created at construction and meant never to be removed for the
/// lifetime of the context.
pub struct AudioContext {
    pub graph: AudioGraph,
    pub destination: usize,
    pub input: usize,
    pub processor: Processor,
}

impl AudioContext {
    /// The context's standing invariant: the store is well formed and both
    /// fixed identifiers are live.
    pub open spec fn wf(&self) -> bool {
        &&& self.graph.wf()
        &&& self.graph.live(self.destination as int)
        &&& self.graph.live(self.input as int)
    }

    pub fn new() -> (c: AudioContext)
        ensures
            c.wf(),
            c.destination != c.input,
            c.graph.num_slots() == 2,
            c.graph.kind_at(c.destination as int) is Sum,
            c.graph.kind_at(c.input as int) is Through,
            c.graph.edges_view() == Seq::<(int, int)>::empty(),
            c.graph.bufs() == seq![0int, 0int],
    {
        let mut graph = AudioGraph::new();
        let destination = graph.add_node(NodeData::new(BoxedNode::new(NodeKind::Sum(Sum2))));
        let input = graph.add_node(NodeData::new(BoxedNode::new(NodeKind::Through(Pass))));
        let processor = Processor::new();
        let c = AudioContext { graph, input, destination, processor };
        proof {
            assert(c.graph.bufs() =~= seq![0int, 0int]);
        }
        c
    }

    /// Wrap an arbitrary node behaviour into the store. The returned
    /// identifier is stable for the node's lifetime; the node's cached
    /// output starts at 0.
    pub fn add_node(&mut self, node: NodeKind) -> (id: usize)
        requires
            old(self).wf(),
        ensures
            final(self).wf(),
            id as int == old(self).graph.num_slots(),
            final(self).graph.num_slots() == old(self).graph.num_slots() + 1,
            final(self).graph.live(id as int),
            final(self).graph.kind_at(id as int) == node,
            final(self).graph.edges_view() == old(self).graph.edges_view(),
            final(self).graph.bufs() == old(self).graph.bufs().push(0),
            forall|i: int|
                0 <= i < old(self).graph.num_slots() ==> final(self).graph.slots@[i] == old(
                    self,
                ).graph.slots@[i],
            final(self).destination == old(self).destination,
            final(self).input == old(self).input,
    {
        self.graph.add_node(NodeData::new(BoxedNode::new(node)))
    }

    /// Connect `from` into `to`: from the next block on, `from`'s cached
    /// output is among `to`'s inputs. Both identifiers must be live;
    /// duplicate and self edges are not rejected here.
    pub fn connect(&mut self, from: usize, to: usize) -> (eid: usize)
        requires
            old(self).wf(),
            old(self).graph.live(from as int),
            old(self).graph.live(to as int),
        ensures
            final(self).wf(),
            eid as int == old(self).graph.edges_view().len(),
            final(self).graph.slots@ == old(self).graph.slots@,
            final(self).graph.edges_view() == old(self).graph.edges_view().push(
                (from as int, to as int),
            ),
            final(self).destination == old(self).destination,
            final(self).input == old(self).input,
    {
        self.graph.add_edge(from, to)
    }

    /// Evaluate one block and return the destination's resulting value: the
    /// single externally driven tick, and the only entry point that mutates
    /// cached outputs. The traversal visits every node reachable from the
    /// destination via predecessor edges exactly once, in a
    /// dependency-respecting order, and replays that order through the
    /// nodes' processing operations.
    pub fn next_block(&mut self) -> (r: i32)
        requires
            old(self).wf(),
        ensures
            final(self).wf(),
            old(self).graph.same_shape(final(self).graph),
            final(self).destination == old(self).destination,
            final(self).input == old(self).input,
            valid_order(
                old(self).graph,
                old(self).destination as int,
                ids(final(self).processor.order@),
            ),
            final(self).graph.bufs() == apply_schedule(
                old(self).graph,
                old(self).graph.bufs(),
                ids(final(self).processor.order@),
            ),
            r as int == final(self).graph.bufs()[old(self).destination as int],
    {
        self.processor.process(&mut self.graph, self.destination);
        self.graph.buffer_of(self.destination)
    }
}

/// Determinism: for a fixed acyclic graph (and so fixed source-node
/// outputs), repeated `next_block` calls yield identical destination values.
/// `c0` is a context before a first call, `c1` the context it leaves behind,
/// and `c2` the context after a second call; the hypotheses are exactly what
/// `next_block` ensures of each call. The second call reproduces every
/// cached output of the first, the destination's included.
pub proof fn lemma_next_block_deterministic(c0: AudioContext, c1: AudioContext, c2: AudioContext)
    requires
        c0.wf(),
        no_reachable_cycle(c0.graph, c0.destination as int),
        c0.graph.same_shape(c1.graph),
        c1.destination == c0.destination,
        valid_order(c0.graph, c0.destination as int, ids(c1.processor.order@)),
        c1.graph.bufs() == apply_schedule(
            c0.graph,
            c0.graph.bufs(),
            ids(c1.processor.order@),
        ),
        c1.graph.same_shape(c2.graph),
        valid_order(c1.graph, c1.destination as int, ids(c2.processor.order@)),
        c2.graph.bufs() == apply_schedule(
            c1.graph,
            c1.graph.bufs(),
            ids(c2.processor.order@),
        ),
    ensures
        c2.graph.bufs() == c1.graph.bufs(),
        c2.graph.bufs()[c0.destination as int] == c1.graph.bufs()[c0.destination as int],
{
    let root = c0.destination as int;
    let ord1 = ids(c1.processor.order@);
    let ord2 = ids(c2.processor.order@);
    lemma_same_shape_symmetric(c1.graph, c2.graph);
    lemma_same_shape_symmetric(c0.graph, c1.graph);
    lemma_same_shape_valid_order(c1.graph, c0.graph, root, ord2);
    assert forall|k: int| 0 <= k < ord2.len() implies c0.graph.live(#[trigger] ord2[k]) by {
        assert(c0.graph.live(ord2[k]));
    }
    lemma_same_shape_apply(c0.graph, c1.graph, c1.graph.bufs(), ord2);
    lemma_repeated_evaluation_deterministic(c0.graph, root, c0.graph.bufs(), ord1, ord2);
}

} // verus!
