//! Reachability along predecessor edges, acyclicity, and what it means for a
//! sequence of node identifiers to be a dependency-respecting evaluation
//! order.

use vstd::prelude::*;

use crate::graph::AudioGraph;

verus! {

/// A walk backward through the dependency structure: `p[0]` is the node the
/// walk starts at, and each later element is a direct predecessor of the one
/// before it.
pub open spec fn is_rpath(g: AudioGraph, p: Seq<int>) -> bool {
    p.len() >= 1 && forall|i: int| 0 <= i < p.len() - 1 ==> g.has_edge(#[trigger] p[i + 1], p[i])
}

/// `b` can be reached from `a` by at least one predecessor step.
pub open spec fn pred_reach(g: AudioGraph, a: int, b: int) -> bool {
    exists|p: Seq<int>|
        #[trigger] is_rpath(g, p) && p.len() >= 2 && p[0] == a && p[p.len() - 1] == b
}

/// `x` is `root` itself, or reachable from `root` via predecessor edges.
pub open spec fn reach(g: AudioGraph, root: int, x: int) -> bool {
    x == root || pred_reach(g, root, x)
}

/// No cycle runs through any node reachable from `root`: the reachable
/// subgraph is acyclic. A self-edge on a reachable node counts as a cycle.
pub open spec fn no_reachable_cycle(g: AudioGraph, root: int) -> bool {
    forall|p: Seq<int>|
        !(#[trigger] is_rpath(g, p) && p.len() >= 2 && p[0] == p[p.len() - 1] && reach(
            g,
            root,
            p[0],
        ))
}

/// A dependency-respecting evaluation order rooted at `root`:
/// - no node appears twice (exactly-once visitation);
/// - the order holds exactly the nodes reachable from `root` via predecessor
///   edges, `root` included;
/// - every node in it is live;
/// - each node comes after each of its direct non-self predecessors, except
///   that a predecessor reaching the node through a cycle may be outstanding
///   (its stale cached value is then used, the documented cycle limitation).
pub open spec fn valid_order(g: AudioGraph, root: int, ord: Seq<int>) -> bool {
    &&& ord.no_duplicates()
    &&& forall|x: int| #[trigger] ord.contains(x) ==> reach(g, root, x)
    &&& forall|x: int| #[trigger] reach(g, root, x) ==> ord.contains(x)
    &&& forall|k: int| 0 <= k < ord.len() ==> g.live(#[trigger] ord[k])
    &&& forall|k: int, q: int|
        0 <= k < ord.len() && #[trigger] g.has_edge(q, #[trigger] ord[k]) && q != ord[k]
            ==> ord.subrange(0, k).contains(q) || pred_reach(g, q, ord[k])
}

/// Reachability, liveness and hence validity of an evaluation order depend
/// only on the graph's shape, not on its cached outputs: a block evaluation
/// never changes which orders are valid.
pub proof fn lemma_same_shape_valid_order(g0: AudioGraph, g1: AudioGraph, root: int, ord: Seq<int>)
    requires
        g0.same_shape(g1),
        valid_order(g0, root, ord),
    ensures
        valid_order(g1, root, ord),
{
    assert(g1.edges_view() == g0.edges_view());
    assert forall|a: int, b: int| #[trigger] g1.has_edge(a, b) <==> g0.has_edge(a, b) by {}
    assert forall|p: Seq<int>| #[trigger] is_rpath(g1, p) <==> is_rpath(g0, p) by {
        if is_rpath(g1, p) {
            assert forall|i: int| 0 <= i < p.len() - 1 implies g0.has_edge(
                #[trigger] p[i + 1],
                p[i],
            ) by {
                assert(g1.has_edge(p[i + 1], p[i]));
            }
        }
        if is_rpath(g0, p) {
            assert forall|i: int| 0 <= i < p.len() - 1 implies g1.has_edge(
                #[trigger] p[i + 1],
                p[i],
            ) by {
                assert(g0.has_edge(p[i + 1], p[i]));
            }
        }
    }
    assert forall|x: int| #[trigger] ord.contains(x) implies reach(g1, root, x) by {
        assert(reach(g0, root, x));
        if x != root {
            let p = choose|p: Seq<int>|
                #[trigger] is_rpath(g0, p) && p.len() >= 2 && p[0] == root && p[p.len() - 1] == x;
            assert(is_rpath(g1, p));
        }
    }
    assert forall|x: int| #[trigger] reach(g1, root, x) implies ord.contains(x) by {
        if x != root {
            let p = choose|p: Seq<int>|
                #[trigger] is_rpath(g1, p) && p.len() >= 2 && p[0] == root && p[p.len() - 1] == x;
            assert(is_rpath(g0, p));
        }
        assert(reach(g0, root, x));
    }
    assert forall|k: int| 0 <= k < ord.len() implies g1.live(#[trigger] ord[k]) by {
        assert(g0.live(ord[k]));
    }
    assert forall|k: int, q: int|
        0 <= k < ord.len() && #[trigger] g1.has_edge(q, #[trigger] ord[k]) && q != ord[k] implies (
    ord.subrange(0, k).contains(q) || pred_reach(g1, q, ord[k])) by {
        assert(g0.has_edge(q, ord[k]));
        if !ord.subrange(0, k).contains(q) {
            assert(pred_reach(g0, q, ord[k]));
            let p = choose|p: Seq<int>|
                #[trigger] is_rpath(g0, p) && p.len() >= 2 && p[0] == q && p[p.len() - 1] == ord[k];
            assert(is_rpath(g1, p));
        }
    }
}

/// `same_shape` relates the two graphs both ways around.
pub proof fn lemma_same_shape_symmetric(g0: AudioGraph, g1: AudioGraph)
    requires
        g0.same_shape(g1),
    ensures
        g1.same_shape(g0),
{
    assert forall|i: int| #[trigger] g1.live(i) implies g0.kind_at(i) == g1.kind_at(i) by {
        assert(g0.live(i));
    }
}

/// Taking one predecessor step from a reachable node stays reachable.
pub proof fn lemma_reach_step(g: AudioGraph, root: int, n: int, q: int)
    requires
        reach(g, root, n),
        g.has_edge(q, n),
    ensures
        reach(g, root, q),
{
    if q != root {
        if n == root {
            let p = seq![root, q];
            assert(p[0int + 1] == q && p[0] == root);
            assert(is_rpath(g, p));
            assert(p[p.len() - 1] == q);
        } else {
            let p = choose|p: Seq<int>|
                #[trigger] is_rpath(g, p) && p.len() >= 2 && p[0] == root && p[p.len() - 1] == n;
            let p2 = p.push(q);
            assert forall|i: int| 0 <= i < p2.len() - 1 implies g.has_edge(
                #[trigger] p2[i + 1],
                p2[i],
            ) by {
                if i < p.len() - 1 {
                    assert(g.has_edge(p[i + 1], p[i]));
                    assert(p2[i + 1] == p[i + 1] && p2[i] == p[i]);
                } else {
                    assert(p2[i] == p[p.len() - 1]);
                    assert(p2[i + 1] == q);
                }
            }
            assert(is_rpath(g, p2));
            assert(p2[0] == root && p2[p2.len() - 1] == q);
        }
    }
}

/// A set of nodes (given as the contents of a sequence) that holds the start
/// of a backward walk and is closed under predecessor steps holds the walk's
/// end as well.
pub proof fn lemma_rpath_closed(g: AudioGraph, ord: Seq<int>, p: Seq<int>)
    requires
        is_rpath(g, p),
        ord.contains(p[0]),
        forall|n: int, q: int|
            #[trigger] ord.contains(n) && #[trigger] g.has_edge(q, n) ==> ord.contains(q),
    ensures
        ord.contains(p[p.len() - 1]),
    decreases p.len(),
{
    if p.len() == 1 {
    } else {
        assert(g.has_edge(p[0int + 1], p[0]));
        assert(ord.contains(p[1]));
        let p2 = p.subrange(1, p.len() as int);
        assert forall|i: int| 0 <= i < p2.len() - 1 implies g.has_edge(
            #[trigger] p2[i + 1],
            p2[i],
        ) by {
            assert(g.has_edge(p[i + 1 + 1], p[i + 1]));
        }
        assert(is_rpath(g, p2));
        assert(p2[0] == p[1]);
        lemma_rpath_closed(g, ord, p2);
        assert(p2[p2.len() - 1] == p[p.len() - 1]);
    }
}

/// Dependency ordering on acyclic reachable subgraphs: a node is never
/// evaluated before all of its direct non-self predecessors have been, within
/// the same block. The cycle escape hatch of `valid_order` cannot fire, so
/// each predecessor stands strictly earlier in the order.
pub proof fn lemma_dependency_ordering(g: AudioGraph, root: int, ord: Seq<int>)
    requires
        valid_order(g, root, ord),
        no_reachable_cycle(g, root),
    ensures
        forall|k: int, q: int|
            0 <= k < ord.len() && #[trigger] g.has_edge(q, #[trigger] ord[k]) && q != ord[k]
                ==> ord.subrange(0, k).contains(q),
{
    assert forall|k: int, q: int|
        0 <= k < ord.len() && #[trigger] g.has_edge(q, #[trigger] ord[k]) && q != ord[k]
            implies ord.subrange(0, k).contains(q) by {
        let n = ord[k];
        if !ord.subrange(0, k).contains(q) {
            assert(pred_reach(g, q, n));
            let p = choose|p: Seq<int>|
                #[trigger] is_rpath(g, p) && p.len() >= 2 && p[0] == q && p[p.len() - 1] == n;
            let c = p.push(q);
            assert forall|i: int| 0 <= i < c.len() - 1 implies g.has_edge(
                #[trigger] c[i + 1],
                c[i],
            ) by {
                if i < p.len() - 1 {
                    assert(g.has_edge(p[i + 1], p[i]));
                    assert(c[i + 1] == p[i + 1] && c[i] == p[i]);
                } else {
                    assert(c[i] == p[p.len() - 1]);
                    assert(c[i + 1] == q);
                }
            }
            assert(is_rpath(g, c));
            assert(c.len() >= 2 && c[0] == q && c[c.len() - 1] == q);
            assert(ord.contains(n));
            assert(reach(g, root, n));
            lemma_reach_step(g, root, n, q);
            assert(false);
        }
    }
}

/// A removed (or never-issued) identifier is never part of any valid
/// evaluation order: traversal only ever touches live nodes.
pub proof fn lemma_dead_node_not_ordered(g: AudioGraph, root: int, ord: Seq<int>, x: int)
    requires
        valid_order(g, root, ord),
        !g.live(x),
    ensures
        !ord.contains(x),
        forall|k: int| 0 <= k < ord.len() ==> ord[k] != x,
{
    assert forall|k: int| 0 <= k < ord.len() implies ord[k] != x by {
        assert(g.live(ord[k]));
    }
    if ord.contains(x) {
        let i = choose|i: int| 0 <= i < ord.len() && ord[i] == x;
    }
}

} // verus!
