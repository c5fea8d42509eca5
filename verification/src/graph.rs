//! The graph store: a mutable directed graph keyed by stable node
//! identifiers, holding one processing unit plus its cached output per slot.
//!
//! Slots are an arena: a node's identifier is its slot index, issued once and
//! never reused, so an identifier stays valid and unambiguous for as long as
//! its node exists, independent of unrelated insertions or removals. Removal
//! empties the slot and drops every edge touching it. Edge existence encodes
//! "feeds into"; parallel edges and self-edges are structurally permitted.

use vstd::prelude::*;
use vstd::pervasive::VecAdditionalExecFns;

use crate::node::{AudioNodeData, Inputs, Node, NodeKind, node_out};

verus! {

/// A directed, unweighted edge: `from` feeds into `to`.
#[derive(Clone, Copy)]
pub struct Edge {
    pub from: usize,
    pub to: usize,
}

/// The directed graph of processing nodes.
pub struct AudioGraph {
    pub slots: Vec<Option<AudioNodeData>>,
    pub edges: Vec<Edge>,
}

/// Which direct neighbours of a node to enumerate.
#[derive(Clone, Copy)]
pub enum Direction {
    Incoming,
    Outgoing,
}

/// The neighbours of `id` on the chosen side of the edge list, in
/// edge-insertion order, one entry per edge.
pub open spec fn adjacent_ids(es: Seq<(int, int)>, id: int, incoming: bool) -> Seq<int>
    decreases es.len(),
{
    if es.len() == 0 {
        Seq::empty()
    } else {
        let rest = adjacent_ids(es.drop_last(), id, incoming);
        if incoming {
            if es.last().1 == id {
                rest.push(es.last().0)
            } else {
                rest
            }
        } else {
            if es.last().0 == id {
                rest.push(es.last().1)
            } else {
                rest
            }
        }
    }
}

/// The edge list with the slot `x` removed: every edge touching `x` is
/// dropped, all others are kept in order.
pub open spec fn remove_touching(es: Seq<(int, int)>, x: int) -> Seq<(int, int)>
    decreases es.len(),
{
    if es.len() == 0 {
        es
    } else {
        let rest = remove_touching(es.drop_last(), x);
        if es.last().0 == x || es.last().1 == x {
            rest
        } else {
            rest.push(es.last())
        }
    }
}

pub proof fn lemma_remove_touching(es: Seq<(int, int)>, x: int, e: (int, int))
    ensures
        remove_touching(es, x).contains(e) <==> (es.contains(e) && e.0 != x && e.1 != x),
    decreases es.len(),
{
    if es.len() == 0 {
    } else {
        lemma_remove_touching(es.drop_last(), x, e);
        let rest = remove_touching(es.drop_last(), x);
        if remove_touching(es, x).contains(e) {
            if es.last().0 == x || es.last().1 == x {
                assert(rest.contains(e));
                let i = choose|i: int| 0 <= i < es.drop_last().len() && es.drop_last()[i] == e;
                assert(es[i] == e);
            } else {
                let j = choose|j: int|
                    0 <= j < rest.push(es.last()).len() && rest.push(es.last())[j] == e;
                if j < rest.len() {
                    assert(rest[j] == e);
                    assert(rest.contains(e));
                    let i = choose|i: int| 0 <= i < es.drop_last().len() && es.drop_last()[i] == e;
                    assert(es[i] == e);
                } else {
                    assert(e == es.last());
                    assert(es[es.len() - 1] == e);
                }
            }
        }
        if es.contains(e) && e.0 != x && e.1 != x {
            let i = choose|i: int| 0 <= i < es.len() && es[i] == e;
            if i < es.len() - 1 {
                assert(es.drop_last()[i] == e);
                assert(es.drop_last().contains(e));
                assert(rest.contains(e));
                let j = choose|j: int| 0 <= j < rest.len() && rest[j] == e;
                if es.last().0 == x || es.last().1 == x {
                } else {
                    assert(rest.push(es.last())[j] == e);
                }
            } else {
                assert(e == es.last());
                assert(rest.push(es.last())[rest.len() as int] == e);
            }
        }
    }
}

impl AudioGraph {
    /// The number of slots ever issued, live or empty.
    pub open spec fn num_slots(&self) -> int {
        self.slots@.len() as int
    }

    /// Identifier `i` resolves to a live node.
    pub open spec fn live(&self, i: int) -> bool {
        0 <= i < self.num_slots() && self.slots@[i] is Some
    }

    /// The processing unit held in slot `i`.
    pub open spec fn kind_at(&self, i: int) -> NodeKind {
        self.slots@[i]->Some_0.node.0
    }

    /// The cached output of slot `i`.
    pub open spec fn buf_at(&self, i: int) -> int {
        self.slots@[i]->Some_0.buffer as int
    }

    /// All cached outputs, as one sequence indexed by slot.
    pub open spec fn bufs(&self) -> Seq<int> {
        Seq::new(self.slots@.len(), |i: int| self.buf_at(i))
    }

    /// The edge list as (from, to) identifier pairs, in insertion order.
    pub open spec fn edges_view(&self) -> Seq<(int, int)> {
        self.edges@.map_values(|e: Edge| (e.from as int, e.to as int))
    }

    /// Some edge runs from `from` into `to`.
    pub open spec fn has_edge(&self, from: int, to: int) -> bool {
        self.edges_view().contains((from, to))
    }

    /// Well-formedness: every edge endpoint resolves to a live node. The
    /// constructors establish this and every operation preserves it, so a
    /// traversal never meets a dangling identifier.
    pub open spec fn wf(&self) -> bool {
        forall|k: int|
            0 <= k < self.edges_view().len() ==> self.live((#[trigger] self.edges_view()[k]).0)
                && self.live(self.edges_view()[k].1)
    }

    /// Both graphs hold the same slots and edges, apart from cached outputs:
    /// one block evaluation changes buffers and nothing else.
    pub open spec fn same_shape(self, other: AudioGraph) -> bool {
        &&& other.num_slots() == self.num_slots()
        &&& other.edges_view() == self.edges_view()
        &&& forall|i: int| 0 <= i < self.num_slots() ==> (other.live(i) <==> self.live(i))
        &&& forall|i: int| #[trigger] self.live(i) ==> other.kind_at(i) == self.kind_at(i)
    }

    pub fn new() -> (g: AudioGraph)
        ensures
            g.num_slots() == 0,
            g.edges_view() == Seq::<(int, int)>::empty(),
            g.wf(),
    {
        let g = AudioGraph { slots: Vec::new(), edges: Vec::new() };
        proof {
            assert(g.edges_view() =~= Seq::<(int, int)>::empty());
        }
        g
    }

    pub fn num_nodes(&self) -> (n: usize)
        ensures
            n as int == self.num_slots(),
    {
        self.slots.len()
    }

    pub fn num_edges(&self) -> (n: usize)
        ensures
            n as int == self.edges_view().len(),
    {
        self.edges.len()
    }

    pub fn edge_at(&self, k: usize) -> (e: (usize, usize))
        requires
            k < self.edges_view().len(),
        ensures
            (e.0 as int, e.1 as int) == self.edges_view()[k as int],
    {
        let ed = self.edges[k];
        (ed.from, ed.to)
    }

    pub fn is_live(&self, id: usize) -> (r: bool)
        ensures
            r == self.live(id as int),
    {
        id < self.slots.len() && self.slots[id].is_some()
    }

    /// Insert a node; the returned identifier is stable for the node's
    /// lifetime.
    pub fn add_node(&mut self, data: AudioNodeData) -> (id: usize)
        requires
            old(self).wf(),
        ensures
            id as int == old(self).num_slots(),
            final(self).num_slots() == old(self).num_slots() + 1,
            final(self).slots@ == old(self).slots@.push(Some(data)),
            final(self).edges_view() == old(self).edges_view(),
            final(self).live(id as int),
            final(self).kind_at(id as int) == data.node.0,
            final(self).bufs() == old(self).bufs().push(data.buffer as int),
            forall|i: int| 0 <= i < old(self).num_slots() ==> (final(self).live(i) <==> old(
                self,
            ).live(i)),
            forall|i: int| 0 <= i < old(self).num_slots() ==> final(self).slots@[i] == old(
                self,
            ).slots@[i],
            final(self).wf(),
    {
        let id = self.slots.len();
        self.slots.push(Some(data));
        proof {
            assert(self.bufs() =~= old(self).bufs().push(data.buffer as int));
            assert forall|k: int| 0 <= k < self.edges_view().len() implies self.live(
                (#[trigger] self.edges_view()[k]).0,
            ) && self.live(self.edges_view()[k].1) by {
                assert(self.edges_view()[k] == old(self).edges_view()[k]);
                assert(old(self).live((#[trigger] old(self).edges_view()[k]).0));
            }
        }
        id
    }

    /// Connect `from` into `to`. Both identifiers must be live; duplicate and
    /// self edges are permitted and not validated here.
    pub fn add_edge(&mut self, from: usize, to: usize) -> (eid: usize)
        requires
            old(self).wf(),
            old(self).live(from as int),
            old(self).live(to as int),
        ensures
            eid as int == old(self).edges_view().len(),
            final(self).slots@ == old(self).slots@,
            final(self).edges_view() == old(self).edges_view().push((from as int, to as int)),
            final(self).wf(),
    {
        let eid = self.edges.len();
        self.edges.push(Edge { from, to });
        proof {
            assert(self.edges_view() =~= old(self).edges_view().push((from as int, to as int)));
        }
        eid
    }

    /// Remove a node and every edge touching it. Identifiers of other
    /// surviving nodes stay valid and unambiguous; the removed identifier
    /// never resolves again.
    pub fn remove_node(&mut self, id: usize)
        requires
            old(self).wf(),
        ensures
            final(self).num_slots() == old(self).num_slots(),
            !final(self).live(id as int),
            forall|i: int|
                0 <= i < old(self).num_slots() && i != id as int ==> final(self).slots@[i] == old(
                    self,
                ).slots@[i],
            final(self).edges_view() == remove_touching(old(self).edges_view(), id as int),
            forall|a: int, b: int|
                #[trigger] final(self).has_edge(a, b) <==> (old(self).has_edge(a, b) && a != id
                    && b != id),
            final(self).wf(),
    {
        if id < self.slots.len() {
            self.slots.set(id, None);
        }
        let ghost old_view = self.edges_view();
        let mut kept: Vec<Edge> = Vec::new();
        let m = self.edges.len();
        let mut k: usize = 0;
        while k < m
            invariant
                k <= m,
                m as int == old_view.len(),
                self.edges@ == old(self).edges@,
                old_view == old(self).edges_view(),
                kept@.map_values(|e: Edge| (e.from as int, e.to as int)) == remove_touching(
                    old_view.take(k as int),
                    id as int,
                ),
            decreases m - k,
        {
            let e = self.edges[k];
            proof {
                assert(old_view.take(k as int + 1).drop_last() =~= old_view.take(k as int));
                assert(old_view.take(k as int + 1).last() == old_view[k as int]);
            }
            if e.from != id && e.to != id {
                kept.push(e);
            }
            k = k + 1;
            proof {
                assert(kept@.map_values(|e: Edge| (e.from as int, e.to as int)) =~= remove_touching(
                    old_view.take(k as int),
                    id as int,
                ));
            }
        }
        self.edges = kept;
        proof {
            assert(old_view.take(m as int) =~= old_view);
            assert(self.edges_view() == remove_touching(old_view, id as int));
            assert forall|a: int, b: int|
                #[trigger] self.has_edge(a, b) <==> (old(self).has_edge(a, b) && a != id
                    && b != id) by {
                lemma_remove_touching(old_view, id as int, (a, b));
            }
            assert forall|j: int| 0 <= j < self.edges_view().len() implies self.live(
                (#[trigger] self.edges_view()[j]).0,
            ) && self.live(self.edges_view()[j].1) by {
                let e = self.edges_view()[j];
                assert(self.edges_view().contains(e));
                lemma_remove_touching(old_view, id as int, e);
                assert(old_view.contains(e) && e.0 != id && e.1 != id);
                let k0 = choose|k0: int| 0 <= k0 < old_view.len() && old_view[k0] == e;
                assert(old(self).live((old(self).edges_view()[k0]).0));
                assert(old(self).live(e.0) && old(self).live(e.1));
            }
        }
    }

    /// The direct predecessors or successors of `id`, in edge-insertion
    /// order, one entry per edge: consistent within one unmutated graph
    /// state, but not guaranteed stable across structural edits.
    pub fn neighbors(&self, id: usize, dir: Direction) -> (r: Vec<usize>)
        ensures
            r@.map_values(|u: usize| u as int) == adjacent_ids(
                self.edges_view(),
                id as int,
                dir is Incoming,
            ),
    {
        let incoming = match dir {
            Direction::Incoming => true,
            Direction::Outgoing => false,
        };
        let mut r: Vec<usize> = Vec::new();
        let m = self.edges.len();
        let mut k: usize = 0;
        proof {
            assert(r@.map_values(|u: usize| u as int) =~= adjacent_ids(
                self.edges_view().take(0),
                id as int,
                incoming,
            ));
        }
        while k < m
            invariant
                k <= m,
                m as int == self.edges_view().len(),
                incoming == (dir is Incoming),
                r@.map_values(|u: usize| u as int) == adjacent_ids(
                    self.edges_view().take(k as int),
                    id as int,
                    incoming,
                ),
            decreases m - k,
        {
            let e = self.edges[k];
            proof {
                assert(self.edges_view().take(k as int + 1).drop_last() =~= self.edges_view().take(
                    k as int,
                ));
                assert(self.edges_view().take(k as int + 1).last() == self.edges_view()[k as int]);
            }
            if incoming {
                if e.to == id {
                    r.push(e.from);
                }
            } else {
                if e.from == id {
                    r.push(e.to);
                }
            }
            k = k + 1;
            proof {
                assert(r@.map_values(|u: usize| u as int) =~= adjacent_ids(
                    self.edges_view().take(k as int),
                    id as int,
                    incoming,
                ));
            }
        }
        proof {
            assert(self.edges_view().take(m as int) =~= self.edges_view());
        }
        r
    }

    /// Read the cached output of a live node.
    pub fn buffer_of(&self, id: usize) -> (r: i32)
        requires
            self.live(id as int),
        ensures
            r as int == self.bufs()[id as int],
    {
        match &self.slots[id] {
            Some(nd) => nd.buffer,
            None => 0,
        }
    }

    /// Run the processing operation of the node in slot `n` on the given
    /// inputs, materializing its output into the store in place.
    pub fn process_at(&mut self, n: usize, inputs: &Inputs)
        requires
            old(self).live(n as int),
        ensures
            final(self).num_slots() == old(self).num_slots(),
            final(self).edges_view() == old(self).edges_view(),
            forall|i: int|
                0 <= i < old(self).num_slots() && i != n as int ==> final(self).slots@[i] == old(
                    self,
                ).slots@[i],
            forall|i: int| 0 <= i < old(self).num_slots() ==> (final(self).live(i) <==> old(
                self,
            ).live(i)),
            forall|i: int| #[trigger] old(self).live(i) ==> final(self).kind_at(i) == old(
                self,
            ).kind_at(i),
            final(self).bufs() == old(self).bufs().update(
                n as int,
                node_out(old(self).kind_at(n as int), inputs@, old(self).bufs()[n as int]),
            ),
            old(self).wf() ==> final(self).wf(),
    {
        let slot = self.slots[n];
        match slot {
            Some(nd) => {
                let mut unit = nd.node;
                let mut out = nd.buffer;
                unit.process(inputs, &mut out);
                self.slots.set(n, Some(AudioNodeData { buffer: out, node: nd.node }));
                proof {
                    assert(self.bufs() =~= old(self).bufs().update(
                        n as int,
                        node_out(old(self).kind_at(n as int), inputs@, old(self).bufs()[n as int]),
                    ));
                }
            },
            None => {},
        }
    }
}

} // verus!
