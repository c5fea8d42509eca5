//! The traversal engine: computes and executes a dependency-respecting
//! evaluation order over the graph for one block.
//!
//! The engine runs a depth-first traversal over the predecessor-direction
//! view of the graph, seeded at the root, emitting nodes in reverse
//! post-order: a node is emitted only once every edge into it has been
//! examined, which on acyclic reachable subgraphs puts every producer before
//! each of its consumers. The engine then replays the emitted order, handing
//! each node its non-self predecessors' cached outputs and materializing the
//! node's output into the store. Traversal state (visited marks, the pending
//! stack, the emitted order, and the scratch input mapping) is owned by the
//! engine instance and reset, not reallocated, at the start of each call.

use vstd::prelude::*;
use vstd::pervasive::VecAdditionalExecFns;

use crate::eval::{apply_schedule, eval_step, inputs_from, lemma_inputs_from_ids};
use crate::graph::AudioGraph;
use crate::node::{Input, Inputs};
use crate::order::{
    is_rpath, lemma_rpath_closed, lemma_reach_step, pred_reach, reach, valid_order,
};

verus! {

/// Identifier sequences are stored as `usize` for indexing but reasoned
/// about as mathematical integers.
pub open spec fn ids(s: Seq<usize>) -> Seq<int> {
    s.map_values(|u: usize| u as int)
}

/// One entry of the pending stack: a node whose incoming edges are being
/// examined, and how far the scan over the edge list has come.
#[derive(Clone, Copy)]
pub struct Frame {
    pub node: usize,
    pub cursor: usize,
}

/// How many visited marks are set.
pub open spec fn num_true(s: Seq<bool>) -> int
    decreases s.len(),
{
    if s.len() == 0 {
        0
    } else {
        num_true(s.drop_last()) + if s.last() {
            1int
        } else {
            0int
        }
    }
}

proof fn lemma_num_true_bounds(s: Seq<bool>)
    ensures
        0 <= num_true(s) <= s.len(),
    decreases s.len(),
{
    if s.len() > 0 {
        lemma_num_true_bounds(s.drop_last());
    }
}

proof fn lemma_num_true_update(s: Seq<bool>, i: int)
    requires
        0 <= i < s.len(),
        !s[i],
    ensures
        num_true(s.update(i, true)) == num_true(s) + 1,
    decreases s.len(),
{
    let s2 = s.update(i, true);
    if i == s.len() - 1 {
        assert(s2.drop_last() =~= s.drop_last());
    } else {
        assert(s2.drop_last() =~= s.drop_last().update(i, true));
        assert(s.drop_last()[i] == s[i]);
        lemma_num_true_update(s.drop_last(), i);
        assert(s2.last() == s.last());
    }
}

/// The edge scan still pending over the whole stack: each frame has yet to
/// look at the edges from its cursor to the end of the edge list.
pub open spec fn work(st: Seq<Frame>, e: int) -> int
    decreases st.len(),
{
    if st.len() == 0 {
        0
    } else {
        work(st.drop_last(), e) + (e - st.last().cursor)
    }
}

proof fn lemma_work_nonneg(st: Seq<Frame>, e: int)
    requires
        forall|k: int| 0 <= k < st.len() ==> (#[trigger] st[k]).cursor <= e,
    ensures
        work(st, e) >= 0,
    decreases st.len(),
{
    if st.len() > 0 {
        assert forall|k: int| 0 <= k < st.drop_last().len() implies (#[trigger] st.drop_last()[k]).cursor
            <= e by {
            assert(st.drop_last()[k] == st[k]);
        }
        lemma_work_nonneg(st.drop_last(), e);
        assert(st[st.len() - 1].cursor <= e);
    }
}

/// The shape of the pending stack mid-traversal: frames hold visited, live
/// nodes with in-range cursors; the bottom frame is the root; consecutive
/// frames step from a node to one of its predecessors; no node is pending
/// twice; and every edge a cursor has passed over either does not point at
/// that frame's node or leads from an already-visited source.
pub open spec fn stack_ok(g: AudioGraph, root: int, vis: Seq<bool>, st: Seq<Frame>) -> bool {
    &&& forall|k: int|
        0 <= k < st.len() ==> (#[trigger] st[k]).node < vis.len() && vis[st[k].node as int]
            && st[k].cursor <= g.edges_view().len()
    &&& (st.len() > 0 ==> st[0].node as int == root)
    &&& forall|k: int|
        0 <= k < st.len() - 1 ==> g.has_edge((#[trigger] st[k + 1]).node as int, st[k].node as int)
    &&& forall|k1: int, k2: int|
        0 <= k1 < k2 < st.len() ==> (#[trigger] st[k1]).node != (#[trigger] st[k2]).node
    &&& forall|k: int, j: int|
        0 <= k < st.len() && 0 <= j < (#[trigger] st[k]).cursor ==> ((#[trigger] g.edges_view()[j]).1
            == st[k].node as int ==> vis[g.edges_view()[j].0])
}

/// The full invariant of the depth-first traversal loop.
pub open spec fn dfs_inv(
    g: AudioGraph,
    root: int,
    vis: Seq<bool>,
    st: Seq<Frame>,
    ord: Seq<int>,
) -> bool {
    &&& g.wf()
    &&& g.live(root)
    &&& vis.len() == g.num_slots()
    &&& vis[root]
    &&& forall|i: int| 0 <= i < vis.len() && #[trigger] vis[i] ==> g.live(i) && reach(g, root, i)
    &&& stack_ok(g, root, vis, st)
    &&& ord.no_duplicates()
    &&& forall|j: int| 0 <= j < ord.len() ==> 0 <= #[trigger] ord[j] < vis.len() && vis[ord[j]]
    &&& forall|j: int, k: int|
        0 <= j < ord.len() && 0 <= k < st.len() ==> #[trigger] ord[j] != (#[trigger] st[k]).node as int
    &&& forall|i: int|
        0 <= i < vis.len() && #[trigger] vis[i] ==> (ord.contains(i) || exists|k: int|
            0 <= k < st.len() && (#[trigger] st[k]).node as int == i)
    &&& forall|j: int, q: int|
        0 <= j < ord.len() && #[trigger] g.has_edge(q, #[trigger] ord[j]) ==> 0 <= q < vis.len()
            && vis[q]
    &&& forall|j: int, q: int|
        0 <= j < ord.len() && #[trigger] g.has_edge(q, #[trigger] ord[j]) && q != ord[j]
            ==> ord.subrange(0, j).contains(q) || pred_reach(g, q, ord[j])
}

/// The traversal engine. Scratch state lives here so that repeated block
/// evaluations over an unchanged graph shape reuse it in place.
pub struct Processor {
    pub visited: Vec<bool>,
    pub stack: Vec<Frame>,
    pub order: Vec<usize>,
    pub inputs: Inputs,
}

impl Processor {
    pub fn new() -> (p: Processor)
        ensures
            p.order@ == Seq::<usize>::empty(),
    {
        Processor {
            visited: Vec::new(),
            stack: Vec::new(),
            order: Vec::new(),
            inputs: Inputs::new(),
        }
    }

    /// Compute the evaluation order for the current block: a depth-first
    /// reverse post-order over the predecessor-direction view of the graph,
    /// seeded at `root`. Visits every node reachable from `root` via
    /// predecessor edges exactly once; terminates on cyclic graphs as well,
    /// because a node is marked visited before its predecessors are explored.
    pub fn compute_order(&mut self, graph: &AudioGraph, root: usize)
        requires
            graph.wf(),
            graph.live(root as int),
        ensures
            valid_order(*graph, root as int, ids(final(self).order@)),
            final(self).inputs == old(self).inputs,
    {
        let num_nodes = graph.num_nodes();
        let num_edges = graph.num_edges();
        self.visited.clear();
        let mut i: usize = 0;
        while i < num_nodes
            invariant
                i <= num_nodes,
                self.visited@.len() == i as int,
                forall|j: int| 0 <= j < i as int ==> !(#[trigger] self.visited@[j]),
                self.inputs == old(self).inputs,
            decreases num_nodes - i,
        {
            self.visited.push(false);
            i = i + 1;
        }
        self.stack.clear();
        self.order.clear();
        self.visited.set(root, true);
        self.stack.push(Frame { node: root, cursor: 0 });
        proof {
            assert(ids(self.order@) =~= Seq::<int>::empty());
            let vis = self.visited@;
            let st = self.stack@;
            let ord = ids(self.order@);
            assert(st[0].node as int == root as int);
            assert(vis[root as int]);
            assert forall|i2: int| 0 <= i2 < vis.len() && #[trigger] vis[i2] implies graph.live(i2)
                && reach(*graph, root as int, i2) by {
                assert(i2 == root as int);
            }
            assert forall|i2: int|
                0 <= i2 < vis.len() && #[trigger] vis[i2] implies (ord.contains(i2) || exists|k: int|
                0 <= k < st.len() && (#[trigger] st[k]).node as int == i2) by {
                assert(i2 == root as int);
                assert((st[0]).node as int == i2);
            }
            assert(dfs_inv(*graph, root as int, self.visited@, self.stack@, ids(self.order@)));
        }
        while self.stack.len() != 0
            invariant
                graph.wf(),
                graph.live(root as int),
                num_edges as int == graph.edges_view().len(),
                dfs_inv(*graph, root as int, self.visited@, self.stack@, ids(self.order@)),
                self.inputs == old(self).inputs,
            decreases
                    graph.num_slots() - num_true(self.visited@),
                    work(self.stack@, graph.edges_view().len() as int),
                    self.stack@.len() as int,
        {
            proof {
                lemma_num_true_bounds(self.visited@);
                lemma_work_nonneg(self.stack@, graph.edges_view().len() as int);
            }
            let ghost g = *graph;
            let ghost vis0 = self.visited@;
            let ghost st0 = self.stack@;
            let ghost ord0 = ids(self.order@);
            let top_idx = self.stack.len() - 1;
            let fr = self.stack[top_idx];
            if fr.cursor < num_edges {
                self.stack.set(top_idx, Frame { node: fr.node, cursor: fr.cursor + 1 });
                let ghost st1 = self.stack@;
                proof {
                    assert forall|k: int| 0 <= k < st1.len() implies (#[trigger] st1[k]).node
                        == st0[k].node by {
                        if k != top_idx as int {
                            assert(st1[k] == st0[k]);
                        }
                    }
                    assert(st1.drop_last() =~= st0.drop_last());
                    assert(st0.last() == fr);
                    assert(st1.last() == Frame { node: fr.node, cursor: (fr.cursor + 1) as usize });
                    assert(work(st1, graph.edges_view().len() as int) == work(
                        st0,
                        graph.edges_view().len() as int,
                    ) - 1);
                    assert forall|k: int| 0 <= k < st1.len() implies (#[trigger] st1[k]).cursor
                        <= graph.edges_view().len() as int by {
                        if k != top_idx as int {
                            assert(st1[k] == st0[k]);
                            assert(st0[k].cursor <= graph.edges_view().len());
                        }
                    }
                    lemma_work_nonneg(st1, graph.edges_view().len() as int);
                }
                let (efrom, eto) = graph.edge_at(fr.cursor);
                proof {
                    assert(g.edges_view()[fr.cursor as int] == (efrom as int, eto as int));
                    assert(g.live(efrom as int) && g.live(eto as int));
                }
                if eto == fr.node && !self.visited[efrom] {
                    self.visited.set(efrom, true);
                    self.stack.push(Frame { node: efrom, cursor: 0 });
                    proof {
                        lemma_num_true_update(vis0, efrom as int);
                        lemma_num_true_bounds(self.visited@);
                        assert(g.edges_view().contains((efrom as int, eto as int)));
                        assert(g.has_edge(efrom as int, fr.node as int));
                        assert(vis0[fr.node as int]);
                        assert(reach(g, root as int, fr.node as int));
                        lemma_reach_step(g, root as int, fr.node as int, efrom as int);
                        let st2 = self.stack@;
                        let vis2 = self.visited@;
                        assert(st2 == st1.push(Frame { node: efrom, cursor: 0 }));
                        assert forall|k: int| 0 <= k < st2.len() - 1 implies g.has_edge(
                            (#[trigger] st2[k + 1]).node as int,
                            st2[k].node as int,
                        ) by {
                            if k + 1 < st1.len() {
                                assert(st2[k] == st1[k] && st2[k + 1] == st1[k + 1]);
                                assert(st1[k].node == st0[k].node && st1[k + 1].node == st0[k
                                    + 1].node);
                                assert(g.has_edge(st0[k + 1].node as int, st0[k].node as int));
                            } else {
                                assert(st2[k + 1].node == efrom);
                                assert(st2[k] == st1[k]);
                                assert(st1[k].node == fr.node);
                            }
                        }
                        assert forall|k: int, j: int|
                            0 <= k < st2.len() && 0 <= j < (#[trigger] st2[k]).cursor implies ((
                        #[trigger] g.edges_view()[j]).1 == st2[k].node as int ==> vis2[g.edges_view()[j].0]) by {
                            if k < st1.len() {
                                assert(st2[k] == st1[k]);
                                if k == top_idx as int {
                                    if j < fr.cursor as int {
                                        assert(g.edges_view()[j].1 == st0[k].node as int
                                            ==> vis0[g.edges_view()[j].0]);
                                    } else {
                                        assert(j == fr.cursor as int);
                                        assert(g.edges_view()[j] == (efrom as int, eto as int));
                                    }
                                } else {
                                    assert(st1[k] == st0[k]);
                                    assert(g.edges_view()[j].1 == st0[k].node as int
                                        ==> vis0[g.edges_view()[j].0]);
                                }
                            } else {
                                assert(st2[k].cursor == 0);
                            }
                        }
                        assert forall|i2: int|
                            0 <= i2 < vis2.len() && #[trigger] vis2[i2] implies (ord0.contains(i2)
                            || exists|k: int|
                            0 <= k < st2.len() && (#[trigger] st2[k]).node as int == i2) by {
                            if i2 == efrom as int {
                                assert(st2[st2.len() - 1].node as int == i2);
                            } else {
                                assert(vis0[i2]);
                                if !ord0.contains(i2) {
                                    let k = choose|k: int|
                                        0 <= k < st0.len() && (#[trigger] st0[k]).node as int == i2;
                                    assert(st2[k].node == st1[k].node);
                                    assert(st2[k].node as int == i2);
                                }
                            }
                        }
                        assert(dfs_inv(g, root as int, self.visited@, self.stack@, ids(
                            self.order@,
                        )));
                    }
                } else {
                    proof {
                        let st2 = self.stack@;
                        let vis2 = self.visited@;
                        assert(st2 == st1);
                        assert forall|k: int, j: int|
                            0 <= k < st2.len() && 0 <= j < (#[trigger] st2[k]).cursor implies ((
                        #[trigger] g.edges_view()[j]).1 == st2[k].node as int ==> vis2[g.edges_view()[j].0]) by {
                            if k == top_idx as int {
                                if j < fr.cursor as int {
                                    assert(g.edges_view()[j].1 == st0[k].node as int
                                        ==> vis0[g.edges_view()[j].0]);
                                } else {
                                    assert(j == fr.cursor as int);
                                    assert(g.edges_view()[j] == (efrom as int, eto as int));
                                    if eto == fr.node {
                                        assert(vis0[efrom as int]);
                                    }
                                }
                            } else {
                                assert(st1[k] == st0[k]);
                                assert(g.edges_view()[j].1 == st0[k].node as int ==> vis0[g.edges_view()[j].0]);
                            }
                        }
                        assert forall|i2: int|
                            0 <= i2 < vis2.len() && #[trigger] vis2[i2] implies (ord0.contains(i2)
                            || exists|k: int|
                            0 <= k < st2.len() && (#[trigger] st2[k]).node as int == i2) by {
                            if !ord0.contains(i2) {
                                let k = choose|k: int|
                                    0 <= k < st0.len() && (#[trigger] st0[k]).node as int == i2;
                                assert(st2[k].node == st0[k].node);
                                assert(st2[k].node as int == i2);
                            }
                        }
                        assert(dfs_inv(g, root as int, self.visited@, self.stack@, ids(
                            self.order@,
                        )));
                    }
                }
            } else {
                let popped = self.stack.pop();
                self.order.push(fr.node);
                proof {
                    assert(fr.cursor as int == g.edges_view().len());
                    let st2 = self.stack@;
                    let ord2 = ids(self.order@);
                    assert(st2 =~= st0.drop_last());
                    assert(ord2 =~= ord0.push(fr.node as int));
                    assert(st0.last() == fr);
                    assert(work(st2, graph.edges_view().len() as int) == work(
                        st0,
                        graph.edges_view().len() as int,
                    ));
                    let n = fr.node as int;
                    // Every edge into n has been examined, so every direct
                    // predecessor of n is visited.
                    assert forall|q: int| #[trigger] g.has_edge(q, n) implies 0 <= q
                        < vis0.len() && vis0[q] by {
                        let j = choose|j: int|
                            0 <= j < g.edges_view().len() && g.edges_view()[j] == (q, n);
                        assert(0 <= j < st0[st0.len() - 1].cursor);
                        assert(g.edges_view()[j].1 == st0[st0.len() - 1].node as int);
                        assert(vis0[g.edges_view()[j].0]);
                        assert(g.live((#[trigger] g.edges_view()[j]).0));
                    }
                    // The new order entry keeps the dependency clause: a
                    // predecessor still pending on the stack reaches n along
                    // the stack's predecessor steps.
                    assert forall|q: int| #[trigger] g.has_edge(q, n) && q != n implies ord0.contains(
                        q,
                    ) || pred_reach(g, q, n) by {
                        assert(vis0[q]);
                        if !ord0.contains(q) {
                            let k0 = choose|k: int|
                                0 <= k < st0.len() && (#[trigger] st0[k]).node as int == q;
                            assert(k0 < st0.len() - 1);
                            let p = Seq::new((st0.len() - k0) as nat, |m: int| st0[k0 + m].node as int);
                            assert forall|m: int| 0 <= m < p.len() - 1 implies g.has_edge(
                                #[trigger] p[m + 1],
                                p[m],
                            ) by {
                                assert(g.has_edge(
                                    (#[trigger] st0[k0 + m + 1]).node as int,
                                    st0[k0 + m].node as int,
                                ));
                            }
                            assert(is_rpath(g, p));
                            assert(p[0] == q);
                            assert(p[p.len() - 1] == n);
                            assert(p.len() >= 2);
                            assert(pred_reach(g, q, n));
                        }
                    }
                    // Re-establish the loop invariant for the shrunk stack
                    // and grown order.
                    assert forall|j: int, k: int|
                        0 <= j < ord2.len() && 0 <= k < st2.len() implies #[trigger] ord2[j] != (
                    #[trigger] st2[k]).node as int by {
                        assert(st2[k] == st0[k]);
                        if j < ord0.len() {
                            assert(ord2[j] == ord0[j]);
                        } else {
                            assert(ord2[j] == n);
                            assert(st0[k].node != st0[st0.len() - 1].node);
                        }
                    }
                    assert(ord2.no_duplicates()) by {
                        assert forall|j1: int, j2: int|
                            0 <= j1 < j2 < ord2.len() implies ord2[j1] != ord2[j2] by {
                            if j2 < ord0.len() {
                                assert(ord2[j1] == ord0[j1] && ord2[j2] == ord0[j2]);
                            } else {
                                assert(ord2[j2] == n);
                                assert(ord2[j1] == ord0[j1]);
                                assert(ord0[j1] != st0[st0.len() - 1].node as int);
                            }
                        }
                    }
                    assert forall|i2: int|
                        0 <= i2 < vis0.len() && #[trigger] vis0[i2] implies (ord2.contains(i2)
                        || exists|k: int|
                        0 <= k < st2.len() && (#[trigger] st2[k]).node as int == i2) by {
                        if ord0.contains(i2) {
                            let j = choose|j: int| 0 <= j < ord0.len() && ord0[j] == i2;
                            assert(ord2[j] == i2);
                            assert(ord2.contains(i2));
                        } else {
                            let k = choose|k: int|
                                0 <= k < st0.len() && (#[trigger] st0[k]).node as int == i2;
                            if k == st0.len() - 1 {
                                assert(ord2[ord2.len() - 1] == i2);
                                assert(ord2.contains(i2));
                            } else {
                                assert(st2[k].node as int == i2);
                            }
                        }
                    }
                    assert forall|j: int, q: int|
                        0 <= j < ord2.len() && #[trigger] g.has_edge(q, #[trigger] ord2[j]) && q
                            != ord2[j] implies ord2.subrange(0, j).contains(q) || pred_reach(
                        g,
                        q,
                        ord2[j],
                    ) by {
                        assert(ord2.subrange(0, j) =~= ord0.subrange(0, j));
                        if j < ord0.len() {
                            assert(ord2[j] == ord0[j]);
                            assert(ord0.subrange(0, j).contains(q) || pred_reach(g, q, ord0[j]));
                        } else {
                            assert(ord2[j] == n);
                            if ord0.contains(q) {
                                assert(ord0.subrange(0, j) =~= ord0);
                            }
                        }
                    }
                    assert forall|j: int, q: int|
                        0 <= j < ord2.len() && #[trigger] g.has_edge(q, #[trigger] ord2[j]) implies 0
                        <= q < vis0.len() && vis0[q] by {
                        if j < ord0.len() {
                            assert(ord2[j] == ord0[j]);
                        } else {
                            assert(ord2[j] == n);
                        }
                    }
                    assert(dfs_inv(g, root as int, self.visited@, self.stack@, ids(self.order@)));
                }
            }
        }
        proof {
            let g = *graph;
            let vis = self.visited@;
            let ord = ids(self.order@);
            assert(self.stack@.len() == 0);
            assert forall|i2: int| 0 <= i2 < vis.len() && #[trigger] vis[i2] implies ord.contains(
                i2,
            ) by {
            }
            assert forall|x: int| #[trigger] ord.contains(x) implies reach(g, root as int, x) by {
                let j = choose|j: int| 0 <= j < ord.len() && ord[j] == x;
                assert(vis[ord[j]]);
            }
            assert forall|x: int| #[trigger] reach(g, root as int, x) implies ord.contains(x) by {
                assert(vis[root as int]);
                assert(ord.contains(root as int));
                if x != root as int {
                    let p = choose|p: Seq<int>|
                        #[trigger] is_rpath(g, p) && p.len() >= 2 && p[0] == root as int && p[p.len()
                            - 1] == x;
                    assert forall|n2: int, q: int|
                        #[trigger] ord.contains(n2) && #[trigger] g.has_edge(q, n2) implies ord.contains(
                        q,
                    ) by {
                        let j = choose|j: int| 0 <= j < ord.len() && ord[j] == n2;
                        assert(g.has_edge(q, ord[j]));
                        assert(vis[q]);
                    }
                    lemma_rpath_closed(g, ord, p);
                }
            }
            assert forall|k: int| 0 <= k < ord.len() implies g.live(#[trigger] ord[k]) by {
                assert(vis[ord[k]]);
            }
            assert(valid_order(g, root as int, ord));
        }
    }

    /// Evaluate one block: compute the order rooted at `node`, then process
    /// each emitted node in order, assembling its non-self predecessors'
    /// cached outputs into the scratch input mapping and materializing the
    /// node's output into the store in place.
    pub fn process(&mut self, graph: &mut AudioGraph, node: usize)
        requires
            old(graph).wf(),
            old(graph).live(node as int),
        ensures
            final(graph).wf(),
            (*old(graph)).same_shape(*final(graph)),
            valid_order(*old(graph), node as int, ids(final(self).order@)),
            final(graph).bufs() == apply_schedule(
                *old(graph),
                old(graph).bufs(),
                ids(final(self).order@),
            ),
    {
        self.compute_order(graph, node);
        let ghost g0 = *graph;
        let ghost ord = ids(self.order@);
        let count = self.order.len();
        let num_edges = graph.num_edges();
        proof {
            assert(g0.same_shape(g0));
            assert(ord.take(0) =~= Seq::<int>::empty());
        }
        let mut k: usize = 0;
        while k < count
            invariant
                count == self.order@.len(),
                ord == ids(self.order@),
                num_edges as int == g0.edges_view().len(),
                k <= count,
                valid_order(g0, node as int, ord),
                g0.wf(),
                (*graph).wf(),
                g0.same_shape(*graph),
                (*graph).bufs() == apply_schedule(g0, g0.bufs(), ord.take(k as int)),
            decreases count - k,
        {
            let n = self.order[k];
            proof {
                assert(ord[k as int] == n as int);
                assert(g0.live(ord[k as int]));
                assert((*graph).live(n as int));
            }
            self.inputs.clear();
            let ghost gk = *graph;
            let ghost bk = (*graph).bufs();
            let mut j: usize = 0;
            while j < num_edges
                invariant
                    j <= num_edges,
                    *graph == gk,
                    gk.wf(),
                    gk.live(n as int),
                    num_edges as int == gk.edges_view().len(),
                    count == self.order@.len(),
                    ord == ids(self.order@),
                    self.inputs@ == inputs_from(
                        gk.edges_view().take(j as int),
                        gk.bufs(),
                        n as int,
                    ),
                decreases num_edges - j,
            {
                let (efrom, eto) = graph.edge_at(j);
                proof {
                    assert(gk.edges_view()[j as int] == (efrom as int, eto as int));
                    assert(gk.live((#[trigger] gk.edges_view()[j as int]).0));
                }
                if eto == n && efrom != n {
                    // A predecessor connected by parallel edges contributes
                    // one entry: later edges from an already-entered source
                    // are skipped.
                    let dup = self.inputs.contains_id(efrom);
                    proof {
                        lemma_inputs_from_ids(
                            gk.edges_view().take(j as int),
                            gk.bufs(),
                            n as int,
                            efrom as int,
                        );
                    }
                    if !dup {
                        let v = graph.buffer_of(efrom);
                        self.inputs.push(Input::new(efrom, v));
                    }
                }
                j = j + 1;
                proof {
                    assert(gk.edges_view().take(j as int).drop_last() =~= gk.edges_view().take(
                        j as int - 1,
                    ));
                    assert(gk.edges_view().take(j as int).last() == gk.edges_view()[j as int - 1]);
                    assert(self.inputs@ =~= inputs_from(
                        gk.edges_view().take(j as int),
                        gk.bufs(),
                        n as int,
                    ));
                }
            }
            proof {
                assert(gk.edges_view().take(num_edges as int) =~= gk.edges_view());
                assert(gk.edges_view() == g0.edges_view());
            }
            graph.process_at(n, &self.inputs);
            k = k + 1;
            proof {
                // The step just taken is exactly `eval_step` of the abstract
                // replay: shapes agree, so the kinds and edges of the
                // original graph drive it.
                assert(g0.live(n as int));
                assert(gk.kind_at(n as int) == g0.kind_at(n as int));
                assert((*graph).bufs() == bk.update(
                    n as int,
                    crate::node::node_out(gk.kind_at(n as int), self.inputs@, bk[n as int]),
                ));
                assert(self.inputs@ == inputs_from(g0.edges_view(), bk, n as int));
                assert((*graph).bufs() == eval_step(g0, bk, n as int));
                assert(ord.take(k as int).drop_last() =~= ord.take(k as int - 1));
                assert(ord.take(k as int).last() == ord[k as int - 1]);
                assert(apply_schedule(g0, g0.bufs(), ord.take(k as int)) == eval_step(
                    g0,
                    apply_schedule(g0, g0.bufs(), ord.take(k as int - 1)),
                    ord[k as int - 1],
                ));
                assert forall|i: int| 0 <= i < g0.num_slots() implies ((*graph).live(i) <==> g0.live(
                    i,
                )) by {
                    assert(gk.live(i) <==> g0.live(i));
                }
                assert forall|i: int| #[trigger] g0.live(i) implies (*graph).kind_at(i)
                    == g0.kind_at(i) by {
                    assert(gk.live(i));
                    assert(gk.kind_at(i) == g0.kind_at(i));
                }
                assert(g0.same_shape(*graph));
            }
        }
        proof {
            assert(ord.take(count as int) =~= ord);
        }
    }
}

} // verus!
