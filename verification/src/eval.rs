//! The meaning of one block evaluation: which inputs each visited node is
//! handed, and how the cached outputs evolve as the evaluation order is
//! replayed. Ends with the determinism result: on an acyclic reachable
//! subgraph, replaying any further dependency-respecting order leaves every
//! cached output unchanged.

use vstd::prelude::*;

use crate::graph::AudioGraph;
use crate::node::node_out;
use crate::order::{lemma_dependency_ordering, no_reachable_cycle, valid_order};

verus! {

/// The transient input mapping assembled for node `n`: one entry per
/// distinct direct predecessor of `n` other than `n` itself, pairing the
/// predecessor's identifier with its cached value in `b`. Parallel edges
/// collapse to the one entry their shared source contributes; entries stand
/// in the order in which each predecessor's first edge was inserted.
pub open spec fn inputs_from(es: Seq<(int, int)>, b: Seq<int>, n: int) -> Seq<(int, int)>
    decreases es.len(),
{
    if es.len() == 0 {
        Seq::empty()
    } else {
        let rest = inputs_from(es.drop_last(), b, n);
        if es.last().1 == n && es.last().0 != n && !es.drop_last().contains((es.last().0, n)) {
            rest.push((es.last().0, b[es.last().0]))
        } else {
            rest
        }
    }
}

/// The key set of the input mapping: an identifier occurs among the inputs
/// assembled for `n` exactly when some edge runs from it into `n` and it is
/// not `n` itself.
pub proof fn lemma_inputs_from_ids(es: Seq<(int, int)>, b: Seq<int>, n: int, q: int)
    ensures
        (exists|i: int|
            0 <= i < inputs_from(es, b, n).len() && (#[trigger] inputs_from(es, b, n)[i]).0 == q)
            <==> (es.contains((q, n)) && q != n),
    decreases es.len(),
{
    if es.len() == 0 {
    } else {
        lemma_inputs_from_ids(es.drop_last(), b, n, q);
        let rest = inputs_from(es.drop_last(), b, n);
        let e = es.last();
        if exists|i: int|
            0 <= i < inputs_from(es, b, n).len() && (#[trigger] inputs_from(es, b, n)[i]).0 == q {
            let i = choose|i: int|
                0 <= i < inputs_from(es, b, n).len() && (#[trigger] inputs_from(es, b, n)[i]).0
                    == q;
            if e.1 == n && e.0 != n && !es.drop_last().contains((e.0, n)) {
                if i < rest.len() {
                    assert(inputs_from(es, b, n)[i] == rest[i]);
                    assert(es.drop_last().contains((q, n)));
                    let k = choose|k: int|
                        0 <= k < es.drop_last().len() && es.drop_last()[k] == (q, n);
                    assert(es[k] == (q, n));
                } else {
                    assert(inputs_from(es, b, n)[i] == (e.0, b[e.0]));
                    assert(es[es.len() - 1] == (q, n));
                }
            } else {
                assert(inputs_from(es, b, n)[i] == rest[i]);
                assert(es.drop_last().contains((q, n)));
                let k = choose|k: int| 0 <= k < es.drop_last().len() && es.drop_last()[k] == (q, n);
                assert(es[k] == (q, n));
            }
            assert(es.contains((q, n)) && q != n);
        }
        if es.contains((q, n)) && q != n {
            let k = choose|k: int| 0 <= k < es.len() && es[k] == (q, n);
            if k < es.len() - 1 {
                assert(es.drop_last()[k] == (q, n));
                assert(es.drop_last().contains((q, n)));
                let i = choose|i: int| 0 <= i < rest.len() && (#[trigger] rest[i]).0 == q;
                if e.1 == n && e.0 != n && !es.drop_last().contains((e.0, n)) {
                    assert(inputs_from(es, b, n)[i] == rest[i]);
                } else {
                    assert(inputs_from(es, b, n)[i] == rest[i]);
                }
            } else {
                assert(e == (q, n));
                if es.drop_last().contains((q, n)) {
                    let i = choose|i: int| 0 <= i < rest.len() && (#[trigger] rest[i]).0 == q;
                    assert(inputs_from(es, b, n)[i] == rest[i]);
                } else {
                    assert(inputs_from(es, b, n)[rest.len() as int] == (q, b[q]));
                }
            }
        }
    }
}

/// The input mapping has at most one entry per predecessor: parallel edges
/// contribute a single entry, as a mapping keyed by identifier must.
pub proof fn lemma_inputs_from_distinct(es: Seq<(int, int)>, b: Seq<int>, n: int)
    ensures
        forall|i1: int, i2: int|
            0 <= i1 < i2 < inputs_from(es, b, n).len() ==> (#[trigger] inputs_from(es, b, n)[i1]).0
                != (#[trigger] inputs_from(es, b, n)[i2]).0,
    decreases es.len(),
{
    if es.len() == 0 {
    } else {
        lemma_inputs_from_distinct(es.drop_last(), b, n);
        let rest = inputs_from(es.drop_last(), b, n);
        let e = es.last();
        assert forall|i1: int, i2: int|
            0 <= i1 < i2 < inputs_from(es, b, n).len() implies (#[trigger] inputs_from(
            es,
            b,
            n,
        )[i1]).0 != (#[trigger] inputs_from(es, b, n)[i2]).0 by {
            if e.1 == n && e.0 != n && !es.drop_last().contains((e.0, n)) {
                assert(inputs_from(es, b, n) == rest.push((e.0, b[e.0])));
                if i2 < rest.len() {
                    assert(inputs_from(es, b, n)[i1] == rest[i1]);
                    assert(inputs_from(es, b, n)[i2] == rest[i2]);
                } else {
                    assert(inputs_from(es, b, n)[i1] == rest[i1]);
                    assert(inputs_from(es, b, n)[i2] == (e.0, b[e.0]));
                    if rest[i1].0 == e.0 {
                        lemma_inputs_from_ids(es.drop_last(), b, n, e.0);
                        assert(es.drop_last().contains((e.0, n)));
                        assert(false);
                    }
                }
            } else {
                assert(inputs_from(es, b, n)[i1] == rest[i1]);
                assert(inputs_from(es, b, n)[i2] == rest[i2]);
            }
        }
    }
}

/// Self-edge exclusion: a node's own identifier never appears in the input
/// mapping passed to its own processing call.
pub proof fn lemma_self_input_excluded(es: Seq<(int, int)>, b: Seq<int>, n: int)
    ensures
        forall|i: int|
            0 <= i < inputs_from(es, b, n).len() ==> (#[trigger] inputs_from(es, b, n)[i]).0 != n,
    decreases es.len(),
{
    if es.len() == 0 {
    } else {
        lemma_self_input_excluded(es.drop_last(), b, n);
        let rest = inputs_from(es.drop_last(), b, n);
        assert forall|i: int|
            0 <= i < inputs_from(es, b, n).len() implies (#[trigger] inputs_from(es, b, n)[i]).0
            != n by {
            if es.last().1 == n && es.last().0 != n && !es.drop_last().contains((es.last().0, n)) {
                if i < rest.len() {
                    assert(inputs_from(es, b, n)[i] == rest[i]);
                }
            } else {
                assert(inputs_from(es, b, n)[i] == rest[i]);
            }
        }
    }
}

/// The inputs assembled for `n` depend only on the cached values of its
/// direct non-self predecessors.
pub proof fn lemma_inputs_from_agree(es: Seq<(int, int)>, b1: Seq<int>, b2: Seq<int>, n: int)
    requires
        forall|e: (int, int)|
            #[trigger] es.contains(e) && e.1 == n && e.0 != n ==> b1[e.0] == b2[e.0],
    ensures
        inputs_from(es, b1, n) == inputs_from(es, b2, n),
    decreases es.len(),
{
    if es.len() == 0 {
    } else {
        assert forall|e: (int, int)|
            #[trigger] es.drop_last().contains(e) && e.1 == n && e.0 != n implies b1[e.0]
            == b2[e.0] by {
            let i = choose|i: int| 0 <= i < es.drop_last().len() && es.drop_last()[i] == e;
            assert(es[i] == e);
            assert(es.contains(e));
        }
        lemma_inputs_from_agree(es.drop_last(), b1, b2, n);
        if es.last().1 == n && es.last().0 != n && !es.drop_last().contains((es.last().0, n)) {
            assert(es[es.len() - 1] == es.last());
            assert(es.contains(es.last()));
            assert(b1[es.last().0] == b2[es.last().0]);
        }
    }
}

/// One step of the replay: node `n` is processed with the inputs assembled
/// from the current cached outputs, and its own slot is updated in place.
pub open spec fn eval_step(g: AudioGraph, b: Seq<int>, n: int) -> Seq<int> {
    b.update(n, node_out(g.kind_at(n), inputs_from(g.edges_view(), b, n), b[n]))
}

/// The cached outputs after replaying an evaluation order left to right,
/// starting from the cached outputs `b`.
pub open spec fn apply_schedule(g: AudioGraph, b: Seq<int>, ord: Seq<int>) -> Seq<int>
    decreases ord.len(),
{
    if ord.len() == 0 {
        b
    } else {
        eval_step(g, apply_schedule(g, b, ord.drop_last()), ord.last())
    }
}

/// Every identifier in the sequence indexes into `b`.
pub open spec fn all_within(ord: Seq<int>, b: Seq<int>) -> bool {
    forall|j: int| 0 <= j < ord.len() ==> 0 <= #[trigger] ord[j] < b.len()
}

pub proof fn lemma_apply_len(g: AudioGraph, b: Seq<int>, ord: Seq<int>)
    requires
        all_within(ord, b),
    ensures
        apply_schedule(g, b, ord).len() == b.len(),
    decreases ord.len(),
{
    if ord.len() > 0 {
        assert forall|j: int| 0 <= j < ord.drop_last().len() implies 0 <= #[trigger] ord.drop_last()[j]
            < b.len() by {
            assert(ord.drop_last()[j] == ord[j]);
        }
        lemma_apply_len(g, b, ord.drop_last());
        assert(0 <= ord[ord.len() - 1] < b.len());
    }
}

/// A slot whose node the order never visits keeps its cached value.
pub proof fn lemma_apply_unchanged(g: AudioGraph, b: Seq<int>, ord: Seq<int>, m: int)
    requires
        all_within(ord, b),
        0 <= m < b.len(),
        !ord.contains(m),
    ensures
        apply_schedule(g, b, ord)[m] == b[m],
    decreases ord.len(),
{
    if ord.len() > 0 {
        assert forall|j: int| 0 <= j < ord.drop_last().len() implies 0 <= #[trigger] ord.drop_last()[j]
            < b.len() by {
            assert(ord.drop_last()[j] == ord[j]);
        }
        assert(!ord.drop_last().contains(m)) by {
            if ord.drop_last().contains(m) {
                let i = choose|i: int| 0 <= i < ord.drop_last().len() && ord.drop_last()[i] == m;
                assert(ord[i] == m);
            }
        }
        lemma_apply_unchanged(g, b, ord.drop_last(), m);
        lemma_apply_len(g, b, ord.drop_last());
        assert(ord[ord.len() - 1] != m);
    }
}

/// After position `k`, the order never visits `m` again: the value `m` holds
/// after the whole replay is the value it holds after the first `k` steps.
pub proof fn lemma_apply_skip_agrees(g: AudioGraph, b: Seq<int>, ord: Seq<int>, k: int, m: int)
    requires
        all_within(ord, b),
        0 <= m < b.len(),
        0 <= k <= ord.len(),
        forall|j: int| k <= j < ord.len() ==> #[trigger] ord[j] != m,
    ensures
        apply_schedule(g, b, ord)[m] == apply_schedule(g, b, ord.take(k))[m],
    decreases ord.len() - k,
{
    if k == ord.len() {
        assert(ord.take(k) =~= ord);
    } else {
        assert forall|j: int| 0 <= j < ord.drop_last().len() implies 0 <= #[trigger] ord.drop_last()[j]
            < b.len() by {
            assert(ord.drop_last()[j] == ord[j]);
        }
        assert forall|j: int| k <= j < ord.drop_last().len() implies #[trigger] ord.drop_last()[j]
            != m by {
            assert(ord.drop_last()[j] == ord[j]);
        }
        lemma_apply_skip_agrees(g, b, ord.drop_last(), k, m);
        assert(ord.drop_last().take(k) =~= ord.take(k));
        lemma_apply_len(g, b, ord.drop_last());
        assert(ord[ord.len() - 1] != m);
    }
}

/// Node `n` holds, in `b`, exactly the value its processing operation would
/// write were it run again on `b`: re-evaluating it changes nothing.
pub open spec fn stable_at(g: AudioGraph, b: Seq<int>, n: int) -> bool {
    b[n] == node_out(g.kind_at(n), inputs_from(g.edges_view(), b, n), b[n])
}

/// Writing a node's output twice for the same inputs writes the same value:
/// every node behaviour is a function of the inputs and the prior output, and
/// a prior output the behaviour itself produced is reproduced.
pub proof fn lemma_node_out_idempotent(g: AudioGraph, ins: Seq<(int, int)>, n: int, v: int)
    ensures
        node_out(g.kind_at(n), ins, node_out(g.kind_at(n), ins, v)) == node_out(
            g.kind_at(n),
            ins,
            v,
        ),
{
}

/// After one full replay of a dependency-respecting order over an acyclic
/// reachable subgraph, every visited node is stable: its cached value equals
/// what re-processing it on the final cached outputs would write.
pub proof fn lemma_apply_makes_stable(g: AudioGraph, b0: Seq<int>, root: int, ord: Seq<int>)
    requires
        b0.len() == g.num_slots(),
        valid_order(g, root, ord),
        no_reachable_cycle(g, root),
    ensures
        forall|k: int|
            0 <= k < ord.len() ==> stable_at(g, apply_schedule(g, b0, ord), #[trigger] ord[k]),
{
    let b1 = apply_schedule(g, b0, ord);
    let es = g.edges_view();
    assert(all_within(ord, b0)) by {
        assert forall|j: int| 0 <= j < ord.len() implies 0 <= #[trigger] ord[j] < b0.len() by {
            assert(g.live(ord[j]));
        }
    }
    lemma_dependency_ordering(g, root, ord);
    assert forall|k: int|
        0 <= k < ord.len() implies stable_at(g, apply_schedule(g, b0, ord), #[trigger] ord[k]) by {
        let n = ord[k];
        let bk = apply_schedule(g, b0, ord.take(k));
        let bk1 = apply_schedule(g, b0, ord.take(k + 1));
        assert(all_within(ord.take(k), b0)) by {
            assert forall|j: int| 0 <= j < ord.take(k).len() implies 0 <= #[trigger] ord.take(
                k,
            )[j] < b0.len() by {
                assert(ord.take(k)[j] == ord[j]);
            }
        }
        assert(all_within(ord.take(k + 1), b0)) by {
            assert forall|j: int| 0 <= j < ord.take(k + 1).len() implies 0 <= #[trigger] ord.take(
                k + 1,
            )[j] < b0.len() by {
                assert(ord.take(k + 1)[j] == ord[j]);
            }
        }
        lemma_apply_len(g, b0, ord.take(k));
        lemma_apply_len(g, b0, ord.take(k + 1));
        // Unfold one step: the value written for n at position k.
        assert(ord.take(k + 1).drop_last() =~= ord.take(k));
        assert(ord.take(k + 1).last() == n);
        assert(bk1 == eval_step(g, bk, n));
        assert(0 <= n < b0.len()) by {
            assert(g.live(ord[k]));
        }
        assert(bk1[n] == node_out(g.kind_at(n), inputs_from(es, bk, n), bk[n]));
        // n is visited exactly once, so its final value is the one written at k.
        assert forall|j: int| k + 1 <= j < ord.len() implies #[trigger] ord[j] != n by {
            assert(ord.no_duplicates());
        }
        lemma_apply_skip_agrees(g, b0, ord, k + 1, n);
        assert(b1[n] == bk1[n]);
        // Each non-self predecessor was finished before step k, so the inputs
        // assembled at step k equal those assembled from the final outputs.
        assert forall|e: (int, int)|
            #[trigger] es.contains(e) && e.1 == n && e.0 != n implies bk[e.0] == b1[e.0] by {
            let q = e.0;
            assert(g.has_edge(q, n));
            assert(ord.subrange(0, k).contains(q));
            let j = choose|j: int| 0 <= j < k && ord.subrange(0, k)[j] == q;
            assert(ord[j] == q);
            assert(0 <= q < b0.len()) by {
                assert(g.live(ord[j]));
            }
            assert forall|j2: int| j + 1 <= j2 < ord.len() implies #[trigger] ord[j2] != q by {
                assert(ord.no_duplicates());
            }
            lemma_apply_skip_agrees(g, b0, ord, j + 1, q);
            assert forall|j2: int| j + 1 <= j2 < ord.take(k).len() implies #[trigger] ord.take(
                k,
            )[j2] != q by {
                assert(ord.take(k)[j2] == ord[j2]);
                assert(ord.no_duplicates());
            }
            lemma_apply_skip_agrees(g, b0, ord.take(k), j + 1, q);
            assert(ord.take(k).take(j + 1) =~= ord.take(j + 1));
        }
        lemma_inputs_from_agree(es, bk, b1, n);
        lemma_node_out_idempotent(g, inputs_from(es, b1, n), n, bk[n]);
    }
}

/// Replaying any order over already-stable nodes leaves every cached output
/// unchanged.
pub proof fn lemma_apply_stable_fixed(g: AudioGraph, b: Seq<int>, ord: Seq<int>)
    requires
        all_within(ord, b),
        forall|j: int| 0 <= j < ord.len() ==> stable_at(g, b, #[trigger] ord[j]),
    ensures
        apply_schedule(g, b, ord) == b,
    decreases ord.len(),
{
    if ord.len() > 0 {
        assert forall|j: int| 0 <= j < ord.drop_last().len() implies 0 <= #[trigger] ord.drop_last()[j]
            < b.len() && stable_at(g, b, ord.drop_last()[j]) by {
            assert(ord.drop_last()[j] == ord[j]);
        }
        lemma_apply_stable_fixed(g, b, ord.drop_last());
        let n = ord.last();
        assert(stable_at(g, b, n));
        assert(apply_schedule(g, b, ord) == b.update(
            n,
            node_out(g.kind_at(n), inputs_from(g.edges_view(), b, n), b[n]),
        ));
        assert(apply_schedule(g, b, ord) =~= b);
    }
}

/// Replaying an order of live nodes reads only the graph's shape, never its
/// cached outputs: two shape-equal graphs replay identically.
pub proof fn lemma_same_shape_apply(g0: AudioGraph, g1: AudioGraph, b: Seq<int>, ord: Seq<int>)
    requires
        g0.same_shape(g1),
        forall|k: int| 0 <= k < ord.len() ==> g0.live(#[trigger] ord[k]),
    ensures
        apply_schedule(g0, b, ord) == apply_schedule(g1, b, ord),
    decreases ord.len(),
{
    if ord.len() > 0 {
        assert forall|k: int| 0 <= k < ord.drop_last().len() implies g0.live(
            #[trigger] ord.drop_last()[k],
        ) by {
            assert(ord.drop_last()[k] == ord[k]);
            assert(g0.live(ord[k]));
        }
        lemma_same_shape_apply(g0, g1, b, ord.drop_last());
        let n = ord.last();
        assert(g0.live(ord[ord.len() - 1]));
        assert(g1.kind_at(n) == g0.kind_at(n));
        assert(g1.edges_view() == g0.edges_view());
    }
}

/// Determinism of repeated block evaluation: with a fixed acyclic reachable
/// subgraph, replaying a second dependency-respecting order (the next block)
/// on top of a first one reproduces the same cached outputs — in particular
/// the same destination value.
pub proof fn lemma_repeated_evaluation_deterministic(
    g: AudioGraph,
    root: int,
    b0: Seq<int>,
    ord1: Seq<int>,
    ord2: Seq<int>,
)
    requires
        b0.len() == g.num_slots(),
        valid_order(g, root, ord1),
        valid_order(g, root, ord2),
        no_reachable_cycle(g, root),
    ensures
        apply_schedule(g, apply_schedule(g, b0, ord1), ord2) == apply_schedule(g, b0, ord1),
{
    let b1 = apply_schedule(g, b0, ord1);
    assert(all_within(ord1, b0)) by {
        assert forall|j: int| 0 <= j < ord1.len() implies 0 <= #[trigger] ord1[j] < b0.len() by {
            assert(g.live(ord1[j]));
        }
    }
    lemma_apply_len(g, b0, ord1);
    lemma_apply_makes_stable(g, b0, root, ord1);
    assert forall|j: int|
        0 <= j < ord2.len() implies 0 <= #[trigger] ord2[j] < b1.len() && stable_at(
        g,
        b1,
        ord2[j],
    ) by {
        assert(g.live(ord2[j]));
        assert(ord2.contains(ord2[j]));
        assert(crate::order::reach(g, root, ord2[j]));
        assert(ord1.contains(ord2[j]));
        let k = choose|k: int| 0 <= k < ord1.len() && ord1[k] == ord2[j];
        assert(stable_at(g, b1, ord1[k]));
    }
    lemma_apply_stable_fixed(g, b1, ord2);
}

} // verus!
