//! Topological scheduler: Kahn's algorithm over the validated graph, with a
//! FIFO ready-queue seeded and fed in node declaration order, so that the
//! computed order is deterministic and reproducible. Nodes left unscheduled
//! when the queue runs dry take part in a dependency cycle.

use vstd::prelude::*;

use crate::graph::{
    adj_targets, indeg_upto, ints, lemma_targets_upto_in_range, node_indeg, src_idx, targets_upto,
    tgt_idx, GraphError, ValidGraph,
};
use crate::models::{Edge, Node, Workflow};

verus! {

/// Number of positive entries among a sequence of counters.
pub open spec fn count_pos(s: Seq<int>) -> int
    decreases s.len(),
{
    if s.len() == 0 {
        0
    } else {
        count_pos(s.drop_last()) + if s.last() > 0 {
            1int
        } else {
            0int
        }
    }
}

proof fn lemma_count_pos_nonneg(s: Seq<int>)
    ensures
        count_pos(s) >= 0,
    decreases s.len(),
{
    if s.len() > 0 {
        lemma_count_pos_nonneg(s.drop_last());
    }
}

proof fn lemma_count_pos_update(s: Seq<int>, t: int, v: int)
    requires
        0 <= t < s.len(),
    ensures
        count_pos(s.update(t, v)) == count_pos(s) - (if s[t] > 0 {
            1int
        } else {
            0int
        }) + (if v > 0 {
            1int
        } else {
            0int
        }),
    decreases s.len(),
{
    if t == s.len() - 1 {
        assert(s.update(t, v).drop_last() =~= s.drop_last());
    } else {
        lemma_count_pos_update(s.drop_last(), t, v);
        assert(s.update(t, v).drop_last() =~= s.drop_last().update(t, v));
    }
}

/// Number of occurrences of `x` in `s`.
pub open spec fn occ(s: Seq<int>, x: int) -> int
    decreases s.len(),
{
    if s.len() == 0 {
        0
    } else {
        occ(s.drop_last(), x) + if s.last() == x {
            1int
        } else {
            0int
        }
    }
}

proof fn lemma_occ_push(s: Seq<int>, x: int, y: int)
    ensures
        occ(s.push(y), x) == occ(s, x) + if y == x {
            1int
        } else {
            0int
        },
{
    assert(s.push(y).drop_last() =~= s);
}

proof fn lemma_occ_take_le(s: Seq<int>, x: int, p: int, q: int)
    requires
        0 <= p <= q <= s.len(),
    ensures
        occ(s.take(p), x) <= occ(s.take(q), x),
    decreases q - p,
{
    if p < q {
        lemma_occ_take_le(s, x, p, q - 1);
        assert(s.take(q) =~= s.take(q - 1).push(s[q - 1]));
        lemma_occ_push(s.take(q - 1), x, s[q - 1]);
    }
}

/// Effect of expanding one scheduled node: every in-range entry of `ts` has
/// its counter decremented once, in order, and the entries whose counter
/// thereby reaches zero are collected, in that same order.
pub open spec fn dec_targets(indeg: Seq<int>, ts: Seq<int>) -> (Seq<int>, Seq<int>)
    decreases ts.len(),
{
    if ts.len() == 0 {
        (indeg, Seq::<int>::empty())
    } else {
        let rec = dec_targets(indeg, ts.drop_last());
        let t = ts.last();
        if 0 <= t < rec.0.len() {
            (
                rec.0.update(t, rec.0[t] - 1),
                if rec.0[t] - 1 == 0 {
                    rec.1.push(t)
                } else {
                    rec.1
                },
            )
        } else {
            rec
        }
    }
}

proof fn lemma_dec_targets(indeg: Seq<int>, ts: Seq<int>)
    ensures
        dec_targets(indeg, ts).0.len() == indeg.len(),
        count_pos(dec_targets(indeg, ts).0) == count_pos(indeg) - dec_targets(indeg, ts).1.len(),
        forall|x: int|
            0 <= x < indeg.len() ==> dec_targets(indeg, ts).0[x] == indeg[x] - occ(ts, x),
    decreases ts.len(),
{
    if ts.len() == 0 {
        assert forall|x: int| 0 <= x < indeg.len() implies dec_targets(indeg, ts).0[x] == indeg[x]
            - occ(ts, x) by {}
    } else {
        lemma_dec_targets(indeg, ts.drop_last());
        let rec = dec_targets(indeg, ts.drop_last());
        let t = ts.last();
        if 0 <= t < rec.0.len() {
            lemma_count_pos_update(rec.0, t, rec.0[t] - 1);
        }
        assert forall|x: int| 0 <= x < indeg.len() implies dec_targets(indeg, ts).0[x] == indeg[x]
            - occ(ts, x) by {
            if 0 <= t < rec.0.len() {
                if x == t {
                } else {
                    assert(dec_targets(indeg, ts).0[x] == rec.0[x]);
                }
            } else {
                assert(occ(ts, x) == occ(ts.drop_last(), x));
            }
        }
    }
}

/// One run of Kahn's algorithm from an intermediate state: `order` holds the
/// emitted nodes so far (the ready-queue is its suffix from `head` on), and
/// `indeg` the current counters. Each step expands the node at `head`,
/// appending the nodes whose counter reaches zero to the back of the queue.
pub open spec fn kahn(
    nodes: Seq<Node>,
    edges: Seq<Edge>,
    indeg: Seq<int>,
    order: Seq<int>,
    head: int,
) -> Seq<int>
    decreases order.len() - head + count_pos(indeg),
    via kahn_measure_decreases
{
    if head < 0 || head >= order.len() {
        order
    } else {
        let step = dec_targets(indeg, adj_targets(nodes, edges, order[head]));
        kahn(nodes, edges, step.0, order + step.1, head + 1)
    }
}

#[via_fn]
proof fn kahn_measure_decreases(
    nodes: Seq<Node>,
    edges: Seq<Edge>,
    indeg: Seq<int>,
    order: Seq<int>,
    head: int,
) {
    if 0 <= head < order.len() {
        let step = dec_targets(indeg, adj_targets(nodes, edges, order[head]));
        lemma_dec_targets(indeg, adj_targets(nodes, edges, order[head]));
        lemma_count_pos_nonneg(indeg);
        lemma_count_pos_nonneg(step.0);
    }
}

/// The initial counters: one in-degree per declared node.
pub open spec fn init_indeg(nodes: Seq<Node>, edges: Seq<Edge>) -> Seq<int> {
    Seq::new(nodes.len(), |t: int| node_indeg(nodes, edges, t))
}

/// The nodes among the first `k` whose in-degree is zero, in declaration
/// order: the initial contents of the ready-queue.
pub open spec fn seed_upto(nodes: Seq<Node>, edges: Seq<Edge>, k: int) -> Seq<int>
    decreases k,
{
    if k <= 0 || k > nodes.len() {
        Seq::empty()
    } else {
        let prev = seed_upto(nodes, edges, k - 1);
        if node_indeg(nodes, edges, k - 1) == 0 {
            prev.push(k - 1)
        } else {
            prev
        }
    }
}

/// The order Kahn's algorithm emits for this workflow: the unique run from
/// the declaration-order seed. It lists every node exactly once if and only
/// if the dependency graph is acyclic.
pub open spec fn kahn_order(nodes: Seq<Node>, edges: Seq<Edge>) -> Seq<int> {
    kahn(nodes, edges, init_indeg(nodes, edges), seed_upto(nodes, edges, nodes.len() as int), 0)
}

/// In-degree of node `t` counting only the edges among the first `k` whose
/// source has not been expanded yet (is not listed in `done`).
pub open spec fn rem_upto(nodes: Seq<Node>, edges: Seq<Edge>, done: Seq<int>, t: int, k: int) -> int
    decreases k,
{
    if k <= 0 || k > edges.len() {
        0
    } else {
        rem_upto(nodes, edges, done, t, k - 1) + if tgt_idx(nodes, edges, k - 1) == t
            && !done.contains(src_idx(nodes, edges, k - 1)) {
            1int
        } else {
            0int
        }
    }
}

/// In-degree of node `t` counting only edges from unexpanded sources.
pub open spec fn remaining_indeg(nodes: Seq<Node>, edges: Seq<Edge>, done: Seq<int>, t: int) -> int {
    rem_upto(nodes, edges, done, t, edges.len() as int)
}

proof fn lemma_rem_empty(nodes: Seq<Node>, edges: Seq<Edge>, t: int, k: int)
    ensures
        rem_upto(nodes, edges, Seq::empty(), t, k) == indeg_upto(nodes, edges, t, k),
    decreases k,
{
    if !(k <= 0 || k > edges.len()) {
        lemma_rem_empty(nodes, edges, t, k - 1);
    }
}

proof fn lemma_rem_nonneg(nodes: Seq<Node>, edges: Seq<Edge>, done: Seq<int>, t: int, k: int)
    ensures
        rem_upto(nodes, edges, done, t, k) >= 0,
    decreases k,
{
    if !(k <= 0 || k > edges.len()) {
        lemma_rem_nonneg(nodes, edges, done, t, k - 1);
    }
}

proof fn lemma_rem_le_indeg(nodes: Seq<Node>, edges: Seq<Edge>, done: Seq<int>, t: int, k: int)
    ensures
        rem_upto(nodes, edges, done, t, k) <= indeg_upto(nodes, edges, t, k),
    decreases k,
{
    if !(k <= 0 || k > edges.len()) {
        lemma_rem_le_indeg(nodes, edges, done, t, k - 1);
    }
}

/// Expanding `cur` removes from `t`'s remaining in-degree exactly the edges
/// from `cur` to `t`, which are the occurrences of `t` in `cur`'s adjacency.
proof fn lemma_rem_push(nodes: Seq<Node>, edges: Seq<Edge>, done: Seq<int>, cur: int, t: int, k: int)
    requires
        !done.contains(cur),
    ensures
        rem_upto(nodes, edges, done.push(cur), t, k) == rem_upto(nodes, edges, done, t, k) - occ(
            targets_upto(nodes, edges, cur, k),
            t,
        ),
    decreases k,
{
    if k <= 0 || k > edges.len() {
    } else {
        lemma_rem_push(nodes, edges, done, cur, t, k - 1);
        let s_ = src_idx(nodes, edges, k - 1);
        let t_ = tgt_idx(nodes, edges, k - 1);
        if s_ == cur {
            lemma_occ_push(targets_upto(nodes, edges, cur, k - 1), t, t_);
        } else {
            assert(targets_upto(nodes, edges, cur, k) == targets_upto(nodes, edges, cur, k - 1));
        }
        vstd::seq_lib::lemma_seq_contains_after_push(done, cur, s_);
    }
}

/// A node whose remaining in-degree is zero has every incoming edge's source
/// already expanded.
proof fn lemma_rem_zero(nodes: Seq<Node>, edges: Seq<Edge>, done: Seq<int>, t: int, k: int)
    requires
        k <= edges.len(),
        rem_upto(nodes, edges, done, t, k) == 0,
    ensures
        forall|j: int|
            0 <= j < k && #[trigger] tgt_idx(nodes, edges, j) == t ==> done.contains(
                src_idx(nodes, edges, j),
            ),
    decreases k,
{
    if k <= 0 || k > edges.len() {
    } else {
        lemma_rem_nonneg(nodes, edges, done, t, k - 1);
        lemma_rem_zero(nodes, edges, done, t, k - 1);
        assert forall|j: int|
            0 <= j < k && #[trigger] tgt_idx(nodes, edges, j) == t implies done.contains(
            src_idx(nodes, edges, j),
        ) by {
            if j == k - 1 {
                assert(rem_upto(nodes, edges, done, t, k - 1) == 0);
            }
        }
    }
}

/// A node whose remaining in-degree is positive has an incoming edge whose
/// source is still unexpanded.
proof fn lemma_rem_pos(nodes: Seq<Node>, edges: Seq<Edge>, done: Seq<int>, t: int, k: int)
    requires
        rem_upto(nodes, edges, done, t, k) > 0,
    ensures
        exists|j: int|
            0 <= j < k && j < edges.len() && #[trigger] tgt_idx(nodes, edges, j) == t
                && !done.contains(src_idx(nodes, edges, j)),
    decreases k,
{
    if k <= 0 || k > edges.len() {
    } else {
        let here = tgt_idx(nodes, edges, k - 1) == t && !done.contains(
            src_idx(nodes, edges, k - 1),
        );
        if here {
        } else {
            lemma_rem_pos(nodes, edges, done, t, k - 1);
        }
    }
}

proof fn lemma_ints_push(s: Seq<usize>, x: usize)
    ensures
        ints(s.push(x)) == ints(s).push(x as int),
{
    assert(ints(s.push(x)) =~= ints(s).push(x as int));
}

/// The order lists every node exactly once: no duplicates, every entry a
/// valid node index, every node index an entry.
pub open spec fn covers_nodes(ord: Seq<int>, n: int) -> bool {
    &&& ord.no_duplicates()
    &&& forall|j: int| 0 <= j < ord.len() ==> 0 <= #[trigger] ord[j] < n
    &&& forall|t: int| 0 <= t < n ==> ord.contains(t)
}

/// For every edge, the source's position precedes the target's position.
pub open spec fn respects_edges(nodes: Seq<Node>, edges: Seq<Edge>, ord: Seq<int>) -> bool {
    forall|j: int, k: int|
        #![trigger ord[j], tgt_idx(nodes, edges, k)]
        0 <= j < ord.len() && 0 <= k < edges.len() && ord[j] == tgt_idx(nodes, edges, k)
            ==> exists|i: int| 0 <= i < j && ord[i] == src_idx(nodes, edges, k)
}

/// Like `respects_edges`, but each source is moreover already expanded: it
/// sits before position `bound` in the order.
spec fn sources_expanded(nodes: Seq<Node>, edges: Seq<Edge>, ord: Seq<int>, bound: int) -> bool {
    forall|j: int, k: int|
        #![trigger ord[j], tgt_idx(nodes, edges, k)]
        0 <= j < ord.len() && 0 <= k < edges.len() && ord[j] == tgt_idx(nodes, edges, k)
            ==> exists|i: int| 0 <= i < j && i < bound && ord[i] == src_idx(nodes, edges, k)
}

/// The counters equal the in-degrees restricted to unexpanded sources.
spec fn counters_ok(nodes: Seq<Node>, edges: Seq<Edge>, indeg: Seq<int>, done: Seq<int>) -> bool {
    forall|t: int|
        0 <= t < nodes.len() ==> #[trigger] indeg[t] == remaining_indeg(nodes, edges, done, t)
}

/// A node's counter is zero exactly when the node has been emitted.
spec fn zeros_emitted(indeg: Seq<int>, ord: Seq<int>, n: int) -> bool {
    forall|t: int| 0 <= t < n ==> (#[trigger] indeg[t] == 0 <==> ord.contains(t))
}

/// A duplicate-free sequence of `n` values drawn from `0..n` holds each.
proof fn lemma_covers(ord: Seq<int>, n: int)
    requires
        ord.no_duplicates(),
        forall|j: int| 0 <= j < ord.len() ==> 0 <= #[trigger] ord[j] < n,
        ord.len() == n,
    ensures
        forall|t: int| 0 <= t < n ==> ord.contains(t),
{
    broadcast use vstd::seq_lib::seq_to_set_is_finite;

    ord.unique_seq_to_set();
    vstd::set_lib::lemma_int_range(0, n);
    assert(ord.to_set().subset_of(vstd::set_lib::set_int_range(0, n)));
    vstd::set_lib::lemma_subset_equality(ord.to_set(), vstd::set_lib::set_int_range(0, n));
    assert forall|t: int| 0 <= t < n implies ord.contains(t) by {
        assert(vstd::set_lib::set_int_range(0, n).contains(t));
        assert(ord.to_set().contains(t));
    }
}

/// A duplicate-free sequence of values drawn from `0..n` has at most `n`
/// entries.
proof fn lemma_distinct_len_le(ord: Seq<int>, n: int)
    requires
        0 <= n,
        ord.no_duplicates(),
        forall|j: int| 0 <= j < ord.len() ==> 0 <= #[trigger] ord[j] < n,
    ensures
        ord.len() <= n,
{
    broadcast use vstd::seq_lib::seq_to_set_is_finite;

    ord.unique_seq_to_set();
    vstd::set_lib::lemma_int_range(0, n);
    assert(ord.to_set().subset_of(vstd::set_lib::set_int_range(0, n)));
    vstd::set_lib::lemma_len_subset(ord.to_set(), vstd::set_lib::set_int_range(0, n));
}

/// A sequence of fewer than `n` values drawn from `0..n` misses some value.
proof fn lemma_missing(ord: Seq<int>, n: int)
    requires
        forall|j: int| 0 <= j < ord.len() ==> 0 <= #[trigger] ord[j] < n,
        ord.len() < n,
    ensures
        exists|t: int| 0 <= t < n && !ord.contains(t),
{
    broadcast use vstd::seq_lib::seq_to_set_is_finite;

    if forall|t: int| 0 <= t < n ==> ord.contains(t) {
        ord.lemma_cardinality_of_set();
        vstd::set_lib::lemma_int_range(0, n);
        assert(vstd::set_lib::set_int_range(0, n).subset_of(ord.to_set()));
        vstd::set_lib::lemma_len_subset(vstd::set_lib::set_int_range(0, n), ord.to_set());
        assert(false);
    }
}

/// The ids, in declaration order, of the nodes among the first `k` that
/// Kahn's algorithm leaves unscheduled.
pub open spec fn cycle_ids_upto(nodes: Seq<Node>, edges: Seq<Edge>, k: int) -> Seq<Seq<char>>
    decreases k,
{
    if k <= 0 || k > nodes.len() {
        Seq::empty()
    } else {
        let prev = cycle_ids_upto(nodes, edges, k - 1);
        if !kahn_order(nodes, edges).contains(k - 1) {
            prev.push(nodes[k - 1].id@)
        } else {
            prev
        }
    }
}

/// The ids of all nodes left unscheduled, in declaration order.
pub open spec fn cycle_ids(nodes: Seq<Node>, edges: Seq<Edge>) -> Seq<Seq<char>> {
    cycle_ids_upto(nodes, edges, nodes.len() as int)
}

proof fn lemma_cycle_ids_witness(nodes: Seq<Node>, edges: Seq<Edge>, t: int, k: int)
    requires
        0 <= t < k <= nodes.len(),
        !kahn_order(nodes, edges).contains(t),
    ensures
        cycle_ids_upto(nodes, edges, k).len() >= 1,
    decreases k,
{
    if t == k - 1 {
    } else {
        lemma_cycle_ids_witness(nodes, edges, t, k - 1);
    }
}

proof fn lemma_no_infinite_descent(
    nodes: Seq<Node>,
    edges: Seq<Edge>,
    topo: Seq<int>,
    t: int,
    j: int,
)
    requires
        covers_nodes(topo, nodes.len() as int),
        respects_edges(nodes, edges, topo),
        forall|x: int|
            0 <= x < nodes.len() && !kahn_order(nodes, edges).contains(x) ==> exists|k: int|
                0 <= k < edges.len() && #[trigger] tgt_idx(nodes, edges, k) == x && !kahn_order(
                    nodes,
                    edges,
                ).contains(src_idx(nodes, edges, k)),
        0 <= t < nodes.len(),
        !kahn_order(nodes, edges).contains(t),
        0 <= j < topo.len(),
    ensures
        topo[j] != t,
    decreases j,
{
    if topo[j] == t {
        let k = choose|k: int|
            0 <= k < edges.len() && #[trigger] tgt_idx(nodes, edges, k) == t && !kahn_order(
                nodes,
                edges,
            ).contains(src_idx(nodes, edges, k));
        let s = src_idx(nodes, edges, k);
        assert(topo[j] == tgt_idx(nodes, edges, k));
        let i = choose|i: int| 0 <= i < j && topo[i] == s;
        assert(0 <= topo[i] < nodes.len());
        lemma_no_infinite_descent(nodes, edges, topo, s, i);
    }
}

/// Soundness of cycle detection: when a run leaves nodes unscheduled — each
/// of them, as `schedule` ensures on error, behind an unscheduled
/// predecessor — then no dependency-respecting order covering every node
/// exists at all: the unscheduled nodes take part in a dependency cycle.
#[verifier::rlimit(50)]
pub proof fn lemma_unscheduled_means_cyclic(nodes: Seq<Node>, edges: Seq<Edge>, topo: Seq<int>)
    requires
        exists|t: int| 0 <= t < nodes.len() && !kahn_order(nodes, edges).contains(t),
        forall|x: int|
            0 <= x < nodes.len() && !kahn_order(nodes, edges).contains(x) ==> exists|k: int|
                0 <= k < edges.len() && #[trigger] tgt_idx(nodes, edges, k) == x && !kahn_order(
                    nodes,
                    edges,
                ).contains(src_idx(nodes, edges, k)),
    ensures
        !(covers_nodes(topo, nodes.len() as int) && respects_edges(nodes, edges, topo)),
{
    if covers_nodes(topo, nodes.len() as int) && respects_edges(nodes, edges, topo) {
        let t0 = choose|t: int| 0 <= t < nodes.len() && !kahn_order(nodes, edges).contains(t);
        assert(topo.contains(t0));
        let j0 = choose|j: int| 0 <= j < topo.len() && topo[j] == t0;
        lemma_no_infinite_descent(nodes, edges, topo, t0, j0);
        assert(false);
    }
}

/// Determinism of scheduling: any two orders that `schedule` can return for
/// the same workflow — both equal to the specification run — are identical;
/// ties among simultaneously ready nodes are broken by declaration order, so
/// re-scheduling the same workflow reproduces the same sequence.
pub proof fn lemma_schedule_deterministic(
    nodes: Seq<Node>,
    edges: Seq<Edge>,
    o1: Seq<usize>,
    o2: Seq<usize>,
)
    requires
        ints(o1) == kahn_order(nodes, edges),
        ints(o2) == kahn_order(nodes, edges),
    ensures
        o1 == o2,
{
    assert(ints(o1).len() == o1.len());
    assert(ints(o2).len() == o2.len());
    assert forall|i: int| 0 <= i < o1.len() implies o1[i] == o2[i] by {
        assert(ints(o1)[i] == o1[i] as int);
        assert(ints(o2)[i] == o2[i] as int);
        assert(ints(o1)[i] == ints(o2)[i]);
    }
    assert(o1 =~= o2);
}

/// Computes a topological order of the validated graph by Kahn's algorithm:
/// the ready-queue is seeded with all zero-in-degree nodes in declaration
/// order and fed FIFO, so ties are broken deterministically by declaration
/// order. Returns the scheduled node positions, or the set of node ids left
/// unscheduled — the members of at least one dependency cycle — before any
/// of them is dispatched.
#[verifier::loop_isolation(false)]
pub fn schedule(w: &Workflow, g: ValidGraph) -> (r: Result<Vec<usize>, GraphError>)
    requires
        g.wf(*w),
    ensures
        kahn_order(w.nodes@, w.edges@).len() <= w.nodes@.len(),
        r is Ok <==> kahn_order(w.nodes@, w.edges@).len() == w.nodes@.len(),
        r matches Ok(o) ==> ints(o@) == kahn_order(w.nodes@, w.edges@),
        r matches Ok(o) ==> covers_nodes(ints(o@), w.nodes@.len() as int),
        r matches Ok(o) ==> respects_edges(w.nodes@, w.edges@, ints(o@)),
        r matches Err(e) ==> ({
            let ids_spec = cycle_ids(w.nodes@, w.edges@);
            &&& e matches GraphError::Cycle(ids)
            &&& ids@.len() == ids_spec.len()
            &&& (forall|i: int| 0 <= i < ids@.len() ==> #[trigger] ids@[i]@ == ids_spec[i])
            &&& ids@.len() > 0
        }),
        r is Err ==> forall|t: int|
            0 <= t < w.nodes@.len() && !kahn_order(w.nodes@, w.edges@).contains(t)
                ==> exists|k: int|
                0 <= k < w.edges@.len() && #[trigger] tgt_idx(w.nodes@, w.edges@, k) == t
                    && !kahn_order(w.nodes@, w.edges@).contains(src_idx(w.nodes@, w.edges@, k)),
        forall|t: int|
            0 <= t < w.nodes@.len() && node_indeg(w.nodes@, w.edges@, t) == 0 ==> kahn_order(
                w.nodes@,
                w.edges@,
            ).contains(t),
{
    let ghost nodes = w.nodes@;
    let ghost edges = w.edges@;
    let n = w.nodes.len();
    let adj = g.adj;
    let mut indeg = g.indeg;
    let mut order: Vec<usize> = Vec::new();

    // Seed the ready-queue with the zero-in-degree nodes, declaration first.
    let mut t: usize = 0;
    while t < n
        invariant
            t <= n,
            indeg@ == g.indeg@,
            order@.len() <= t,
            ints(order@).no_duplicates(),
            ints(order@) == seed_upto(nodes, edges, t as int),
            forall|j: int| 0 <= j < order@.len() ==> #[trigger] order@[j] < t,
            forall|x: int|
                0 <= x < t ==> (#[trigger] ints(indeg@)[x] == 0 <==> ints(order@).contains(x)),
        decreases n - t,
    {
        let ghost order_prev = order@;
        if indeg[t] == 0 {
            order.push(t);
            proof {
                lemma_ints_push(order_prev, t);
                assert forall|a: int, b: int|
                    0 <= a < b < ints(order@).len() implies ints(order@)[a] != ints(
                    order@,
                )[b] by {
                    if b < ints(order_prev).len() {
                        assert(ints(order_prev)[a] != ints(order_prev)[b]);
                    } else {
                        assert(ints(order@)[b] == t as int);
                        assert(order_prev[a] < t);
                    }
                }
            }
        }
        proof {
            assert forall|x: int|
                0 <= x < t + 1 implies (#[trigger] ints(indeg@)[x] == 0 <==> ints(
                order@,
            ).contains(x)) by {
                if x < t {
                    if ints(order_prev).contains(x) {
                        let j = choose|j: int|
                            0 <= j < ints(order_prev).len() && ints(order_prev)[j] == x;
                        assert(ints(order@)[j] == x);
                    }
                    if ints(order@).contains(x) {
                        let j = choose|j: int| 0 <= j < ints(order@).len() && ints(order@)[j] == x;
                        assert(ints(order_prev).contains(x));
                    }
                } else {
                    if ints(indeg@)[x] == 0 {
                        assert(ints(order@)[ints(order@).len() - 1] == x);
                    } else {
                        if ints(order@).contains(x) {
                            let j = choose|j: int|
                                0 <= j < ints(order@).len() && ints(order@)[j] == x;
                            assert(order@[j] < t + 1);
                        }
                    }
                }
            }
        }
        t = t + 1;
    }
    proof {
        // The seed state is exactly the start state of the specification run.
        assert(ints(indeg@) =~= init_indeg(nodes, edges));
        assert forall|x: int| 0 <= x < n implies #[trigger] ints(indeg@)[x] == remaining_indeg(
            nodes,
            edges,
            ints(order@).take(0),
            x,
        ) by {
            lemma_rem_empty(nodes, edges, x, edges.len() as int);
            assert(ints(order@).take(0) =~= Seq::<int>::empty());
        }
        assert forall|j: int, k: int|
            #![trigger ints(order@)[j], tgt_idx(nodes, edges, k)]
            0 <= j < ints(order@).len() && 0 <= k < edges.len() && ints(order@)[j] == tgt_idx(
                nodes,
                edges,
                k,
            ) implies exists|i: int|
            0 <= i < j && i < 0 && ints(order@)[i] == src_idx(nodes, edges, k) by {
            let x = ints(order@)[j];
            assert(ints(order@).contains(x));
            assert(0 <= x < n);
            assert(ints(indeg@)[x] == 0);
            assert(g.indeg@[x] as int == node_indeg(nodes, edges, x));
            assert(node_indeg(nodes, edges, x) == 0);
            lemma_rem_empty(nodes, edges, x, edges.len() as int);
            lemma_rem_zero(nodes, edges, Seq::empty(), x, edges.len() as int);
            assert(Seq::<int>::empty().contains(src_idx(nodes, edges, k)));
            assert(false);
        }
    }

    // Expand the queue front to back; nodes reaching in-degree zero join the
    // back, so simultaneous arrivals keep edge-scan (declaration) order.
    let mut head: usize = 0;
    while head < order.len()
        invariant
            head <= order@.len() <= n,
            indeg@.len() == n,
            forall|j: int| 0 <= j < order@.len() ==> 0 <= #[trigger] ints(order@)[j] < n,
            ints(order@).no_duplicates(),
            counters_ok(nodes, edges, ints(indeg@), ints(order@).take(head as int)),
            zeros_emitted(ints(indeg@), ints(order@), n as int),
            sources_expanded(nodes, edges, ints(order@), head as int),
            kahn(nodes, edges, ints(indeg@), ints(order@), head as int) == kahn_order(
                nodes,
                edges,
            ),
        decreases n - head,
    {
        let cur = order[head];
        let ghost indeg_entry = ints(indeg@);
        let ghost order_entry = order@;
        let ghost done = ints(order@).take(head as int);
        let ghost ts = adj_targets(nodes, edges, cur as int);
        proof {
            assert(ints(order_entry)[head as int] == cur as int);
            assert(ints(adj@[cur as int]@) == ts);
            assert(!done.contains(cur as int)) by {
                if done.contains(cur as int) {
                    let i = choose|i: int| 0 <= i < done.len() && done[i] == cur as int;
                    assert(ints(order_entry)[i] == ints(order_entry)[head as int]);
                }
            }
            lemma_targets_upto_in_range(nodes, edges, cur as int, edges.len() as int);
        }
        let row_len = adj[cur].len();
        let mut p: usize = 0;
        while p < row_len
            invariant
                p <= row_len,
                indeg@.len() == n,
                order@.len() >= order_entry.len(),
                order@.take(order_entry.len() as int) == order_entry,
                ints(indeg@) == dec_targets(indeg_entry, ts.take(p as int)).0,
                ints(order@).skip(order_entry.len() as int) == dec_targets(
                    indeg_entry,
                    ts.take(p as int),
                ).1,
                forall|j: int| 0 <= j < order@.len() ==> 0 <= #[trigger] ints(order@)[j] < n,
                ints(order@).no_duplicates(),
                zeros_emitted(ints(indeg@), ints(order@), n as int),
                sources_expanded(nodes, edges, ints(order@), head as int + 1),
            decreases row_len - p,
        {
            let tn = adj[cur][p];
            proof {
                assert(ts[p as int] == tn as int);
                assert(0 <= tn < n);
                lemma_dec_targets(indeg_entry, ts.take(p as int));
                lemma_rem_push(nodes, edges, done, cur as int, tn as int, edges.len() as int);
                lemma_rem_nonneg(
                    nodes,
                    edges,
                    done.push(cur as int),
                    tn as int,
                    edges.len() as int,
                );
                lemma_occ_take_le(ts, tn as int, p as int + 1, ts.len() as int);
                assert(ts.take(p as int + 1) =~= ts.take(p as int).push(ts[p as int]));
                lemma_occ_push(ts.take(p as int), tn as int, ts[p as int]);
                // occ(ts.take(p), tn) + 1 <= occ(ts, tn) <= remaining in-degree,
                // so the counter is still at least one.
                assert(indeg_entry[tn as int] == remaining_indeg(nodes, edges, done, tn as int));
                assert(indeg_entry.len() == n);
                assert(dec_targets(indeg_entry, ts.take(p as int)).0[tn as int] == indeg_entry[tn as int]
                    - occ(ts.take(p as int), tn as int));
                assert(ts.take(ts.len() as int) =~= ts);
                assert(occ(ts, tn as int) <= indeg_entry[tn as int]);
                assert(occ(ts.take(p as int + 1), tn as int) == occ(ts.take(p as int), tn as int)
                    + 1);
                assert(occ(ts.take(p as int + 1), tn as int) <= occ(ts, tn as int));
                assert(ints(indeg@)[tn as int] >= 1);
            }
            let ghost indeg_before = ints(indeg@);
            let ghost order_before = order@;
            let v = indeg[tn];
            indeg[tn] = v - 1;
            proof {
                assert(ints(indeg@) =~= indeg_before.update(tn as int, v - 1 as int));
                lemma_dec_targets(indeg_entry, ts.take(p as int + 1));
            }
            if v - 1 == 0 {
                order.push(tn);
                proof {
                    lemma_ints_push(order_before, tn);
                    assert(!ints(order_before).contains(tn as int));
                    let new_ord = ints(order@);
                    let j_new = ints(order_before).len();
                    // The new entry keeps the order duplicate-free.
                    assert forall|a: int, b: int|
                        0 <= a < b < new_ord.len() implies new_ord[a] != new_ord[b] by {
                        if b < j_new {
                            assert(ints(order_before)[a] != ints(order_before)[b]);
                        } else {
                            assert(new_ord[b] == tn as int);
                            assert(new_ord[a] == ints(order_before)[a]);
                            assert(ints(order_before).contains(new_ord[a]));
                        }
                    }
                    assert(new_ord.no_duplicates());
                    // The mirror state steps exactly as the specification does.
                    assert(order@.take(order_entry.len() as int) =~= order_entry);
                    let u = ts.take(p as int + 1);
                    assert(u.drop_last() =~= ts.take(p as int));
                    assert(u.last() == tn as int);
                    assert(dec_targets(indeg_entry, u).1 == dec_targets(
                        indeg_entry,
                        ts.take(p as int),
                    ).1.push(tn as int));
                    assert(ints(order@).skip(order_entry.len() as int) =~= dec_targets(
                        indeg_entry,
                        ts.take(p as int + 1),
                    ).1);
                    // Zero counters still mark exactly the emitted nodes.
                    assert forall|x: int|
                        0 <= x < n implies (#[trigger] ints(indeg@)[x] == 0 <==> ints(
                        order@,
                    ).contains(x)) by {
                        vstd::seq_lib::lemma_seq_contains_after_push(
                            ints(order_before),
                            tn as int,
                            x,
                        );
                        if x != tn as int {
                            assert(ints(indeg@)[x] == indeg_before[x]);
                        }
                    }
                    // Every in-edge of the newly emitted node has an expanded
                    // source: its remaining in-degree just reached zero.
                    assert(remaining_indeg(nodes, edges, done.push(cur as int), tn as int) == 0);
                    lemma_rem_zero(
                        nodes,
                        edges,
                        done.push(cur as int),
                        tn as int,
                        edges.len() as int,
                    );
                    assert forall|j: int, k: int|
                        #![trigger new_ord[j], tgt_idx(nodes, edges, k)]
                        0 <= j < new_ord.len() && 0 <= k < edges.len() && new_ord[j] == tgt_idx(
                            nodes,
                            edges,
                            k,
                        ) implies exists|i: int|
                        0 <= i < j && i < head as int + 1 && new_ord[i] == src_idx(
                            nodes,
                            edges,
                            k,
                        ) by {
                        if j < j_new {
                            assert(ints(order_before)[j] == new_ord[j]);
                            let i = choose|i: int|
                                0 <= i < j && i < head as int + 1 && ints(order_before)[i]
                                    == src_idx(nodes, edges, k);
                            assert(new_ord[i] == src_idx(nodes, edges, k));
                        } else {
                            assert(new_ord[j] == tn as int);
                            assert(done.push(cur as int).contains(src_idx(nodes, edges, k)));
                            let i = choose|i: int|
                                0 <= i < done.push(cur as int).len() && done.push(cur as int)[i]
                                    == src_idx(nodes, edges, k);
                            assert(i <= head as int);
                            if i < head as int {
                                assert(done[i] == ints(order_entry)[i]);
                                assert(new_ord[i] == src_idx(nodes, edges, k));
                            } else {
                                assert(done.push(cur as int)[i] == cur as int);
                                assert(new_ord[head as int] == cur as int);
                            }
                        }
                    }
                }
            } else {
                proof {
                    assert(order@.take(order_entry.len() as int) =~= order_entry);
                    let u = ts.take(p as int + 1);
                    assert(u.drop_last() =~= ts.take(p as int));
                    assert(u.last() == tn as int);
                    assert(dec_targets(indeg_entry, u).1 == dec_targets(
                        indeg_entry,
                        ts.take(p as int),
                    ).1);
                    assert(ints(order@).skip(order_entry.len() as int) =~= dec_targets(
                        indeg_entry,
                        ts.take(p as int + 1),
                    ).1);
                    assert forall|x: int|
                        0 <= x < n implies (#[trigger] ints(indeg@)[x] == 0 <==> ints(
                        order@,
                    ).contains(x)) by {
                        if x != tn as int {
                            assert(ints(indeg@)[x] == indeg_before[x]);
                        } else {
                            assert(ints(indeg@)[x] == v - 1 >= 1);
                            if ints(order@).contains(x) {
                                assert(indeg_before[x] == 0);
                            }
                        }
                    }
                }
            }
            p = p + 1;
        }
        proof {
            assert(ts.take(row_len as int) =~= ts);
            let step = dec_targets(indeg_entry, ts);
            // Reassemble the order as entry-prefix plus newly emitted nodes,
            // matching one unfolding of the specification run.
            assert(ints(order@) =~= ints(order_entry) + step.1) by {
                assert(ints(order@).take(order_entry.len() as int) =~= ints(order_entry));
                assert(ints(order@) =~= ints(order@).take(order_entry.len() as int) + ints(
                    order@,
                ).skip(order_entry.len() as int));
            }
            assert(kahn(nodes, edges, indeg_entry, ints(order_entry), head as int) == kahn(
                nodes,
                edges,
                step.0,
                ints(order_entry) + step.1,
                head as int + 1,
            ));
            // The counters now reflect `cur` joining the expanded set.
            assert(ints(order@).take(head as int + 1) =~= done.push(cur as int)) by {
                assert forall|i: int| 0 <= i < head as int + 1 implies ints(order@)[i] == done.push(
                    cur as int,
                )[i] by {
                    assert(order@[i] == order_entry[i]);
                }
            }
            lemma_dec_targets(indeg_entry, ts);
            assert forall|x: int| 0 <= x < n implies #[trigger] ints(indeg@)[x] == remaining_indeg(
                nodes,
                edges,
                done.push(cur as int),
                x,
            ) by {
                lemma_rem_push(nodes, edges, done, cur as int, x, edges.len() as int);
            }
            lemma_distinct_len_le(ints(order@), n as int);
        }
        head = head + 1;
    }

    proof {
        // The specification run has reached its base case: the computed
        // order is exactly the specification's order.
        assert(kahn_order(nodes, edges) == ints(order@));
        assert(ints(order@).take(head as int) =~= ints(order@));
    }
    if order.len() == n {
        proof {
            lemma_covers(ints(order@), n as int);
            assert forall|j: int, k: int|
                #![trigger ints(order@)[j], tgt_idx(nodes, edges, k)]
                0 <= j < ints(order@).len() && 0 <= k < edges.len() && ints(order@)[j] == tgt_idx(
                    nodes,
                    edges,
                    k,
                ) implies exists|i: int|
                0 <= i < j && ints(order@)[i] == src_idx(nodes, edges, k) by {
                let i = choose|i: int|
                    0 <= i < j && i < head as int && ints(order@)[i] == src_idx(nodes, edges, k);
                assert(0 <= i < j && ints(order@)[i] == src_idx(nodes, edges, k));
            }
            assert forall|x: int|
                0 <= x < n && node_indeg(nodes, edges, x) == 0 implies kahn_order(
                nodes,
                edges,
            ).contains(x) by {
                assert(ints(order@).contains(x));
            }
        }
        Ok(order)
    } else {
        proof {
            lemma_missing(ints(order@), n as int);
            // Every unscheduled node keeps a positive counter, hence an
            // incoming edge from another unscheduled node.
            assert forall|x: int|
                0 <= x < n && !kahn_order(nodes, edges).contains(x) implies exists|k: int|
                0 <= k < edges.len() && #[trigger] tgt_idx(nodes, edges, k) == x && !kahn_order(
                    nodes,
                    edges,
                ).contains(src_idx(nodes, edges, k)) by {
                assert(!ints(order@).contains(x));
                assert(ints(indeg@)[x] != 0);
                assert(ints(indeg@)[x] == remaining_indeg(
                    nodes,
                    edges,
                    ints(order@).take(head as int),
                    x,
                ));
                lemma_rem_nonneg(nodes, edges, ints(order@), x, edges.len() as int);
                lemma_rem_pos(nodes, edges, ints(order@), x, edges.len() as int);
                let k = choose|k: int|
                    0 <= k < edges.len() && #[trigger] tgt_idx(nodes, edges, k) == x && !ints(
                        order@,
                    ).contains(src_idx(nodes, edges, k));
                assert(tgt_idx(nodes, edges, k) == x);
            }
            assert forall|x: int|
                0 <= x < n && node_indeg(nodes, edges, x) == 0 implies kahn_order(
                nodes,
                edges,
            ).contains(x) by {
                lemma_rem_le_indeg(nodes, edges, ints(order@), x, edges.len() as int);
                lemma_rem_nonneg(nodes, edges, ints(order@), x, edges.len() as int);
                assert(ints(indeg@)[x] == remaining_indeg(
                    nodes,
                    edges,
                    ints(order@).take(head as int),
                    x,
                ));
                assert(remaining_indeg(nodes, edges, ints(order@), x) == 0);
                assert(ints(indeg@)[x] == 0);
                assert(ints(order@).contains(x));
            }
        }
        let mut ids: Vec<String> = Vec::new();
        let mut t: usize = 0;
        while t < n
            invariant
                t <= n,
                ids@.len() == cycle_ids_upto(nodes, edges, t as int).len(),
                forall|i: int|
                    0 <= i < ids@.len() ==> #[trigger] ids@[i]@ == cycle_ids_upto(
                        nodes,
                        edges,
                        t as int,
                    )[i],
            decreases n - t,
        {
            let ghost ids_prev = ids@;
            if indeg[t] != 0 {
                ids.push(w.nodes[t].id.clone());
                proof {
                    assert(ints(indeg@)[t as int] != 0);
                    assert(!ints(order@).contains(t as int));
                    assert(!kahn_order(nodes, edges).contains(t as int));
                    assert(cycle_ids_upto(nodes, edges, t as int + 1) == cycle_ids_upto(
                        nodes,
                        edges,
                        t as int,
                    ).push(nodes[t as int].id@));
                    assert forall|i: int|
                        0 <= i < ids@.len() implies #[trigger] ids@[i]@ == cycle_ids_upto(
                        nodes,
                        edges,
                        t as int + 1,
                    )[i] by {
                        if i < ids_prev.len() {
                            assert(ids@[i] == ids_prev[i]);
                        } else {
                            assert(ids@[i] == w.nodes@[t as int].id);
                        }
                    }
                }
            } else {
                proof {
                    assert(ints(indeg@)[t as int] == 0);
                    assert(ints(order@).contains(t as int));
                    assert(kahn_order(nodes, edges).contains(t as int));
                    assert(cycle_ids_upto(nodes, edges, t as int + 1) == cycle_ids_upto(
                        nodes,
                        edges,
                        t as int,
                    ));
                }
            }
            t = t + 1;
        }
        proof {
            let ghost miss = choose|x: int| 0 <= x < n && !ints(order@).contains(x);
            lemma_cycle_ids_witness(nodes, edges, miss, n as int);
        }
        Err(GraphError::Cycle(ids))
    }
}

/// Like `schedule`, but reports the computed order as node ids rather than
/// node positions.
#[verifier::loop_isolation(false)]
pub fn schedule_ids(w: &Workflow, g: ValidGraph) -> (r: Result<Vec<String>, GraphError>)
    requires
        g.wf(*w),
    ensures
        r is Ok <==> kahn_order(w.nodes@, w.edges@).len() == w.nodes@.len(),
        r matches Ok(ids) ==> ({
            let ord = kahn_order(w.nodes@, w.edges@);
            &&& ids@.len() == ord.len()
            &&& forall|i: int| 0 <= i < ids@.len() ==> (#[trigger] ids@[i])@ == w.nodes@[ord[i]].id@
        }),
        r matches Err(e) ==> ({
            let ids_spec = cycle_ids(w.nodes@, w.edges@);
            &&& e matches GraphError::Cycle(ids)
            &&& ids@.len() == ids_spec.len()
            &&& (forall|i: int| 0 <= i < ids@.len() ==> #[trigger] ids@[i]@ == ids_spec[i])
            &&& ids@.len() > 0
        }),
{
    let ghost nodes = w.nodes@;
    let ghost edges = w.edges@;
    let ghost ord = kahn_order(nodes, edges);
    let order = match schedule(w, g) {
        Ok(o) => o,
        Err(e) => {
            return Err(e);
        },
    };
    let mut ids: Vec<String> = Vec::new();
    let mut i: usize = 0;
    while i < order.len()
        invariant
            i <= order@.len(),
            ints(order@) == ord,
            ids@.len() == i,
            forall|j: int| 0 <= j < i ==> (#[trigger] ids@[j])@ == nodes[ord[j]].id@,
        decreases order@.len() - i,
    {
        proof {
            assert(0 <= ints(order@)[i as int] < nodes.len());
        }
        ids.push(w.nodes[order[i]].id.clone());
        i = i + 1;
    }
    Ok(ids)
}

} // verus!
