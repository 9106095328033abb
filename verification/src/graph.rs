//! Graph builder/validator: turns a workflow's raw node and edge lists into
//! an adjacency structure and an in-degree counter, both keyed by node
//! declaration order, rejecting edges that reference undeclared node ids.

use vstd::prelude::*;

use crate::models::{Edge, Node, Workflow};

verus! {

/// An error detected while validating or scheduling the dependency graph.
#[derive(Debug, Clone, PartialEq, Eq)]
pub enum GraphError {
    /// An edge references a node id absent from the workflow's nodes; the
    /// payload is the offending edge's id.
    DanglingReference(String),
    /// One or more nodes never reach in-degree zero, so they take part in a
    /// dependency cycle; the payload lists their ids in declaration order.
    Cycle(Vec<String>),
}

/// Index of the first node at or after position `i` whose id is `id`, or -1
/// when no node from `i` on has that id.
pub open spec fn node_idx_from(nodes: Seq<Node>, id: Seq<char>, i: int) -> int
    decreases nodes.len() - i,
{
    if i < 0 || i >= nodes.len() {
        -1
    } else if nodes[i].id@ == id {
        i
    } else {
        node_idx_from(nodes, id, i + 1)
    }
}

/// Index of the first node with the given id, or -1 when absent.
pub open spec fn node_idx(nodes: Seq<Node>, id: Seq<char>) -> int {
    node_idx_from(nodes, id, 0)
}

/// Some node declares the given id.
pub open spec fn has_node(nodes: Seq<Node>, id: Seq<char>) -> bool {
    node_idx(nodes, id) >= 0
}

/// Both endpoints of the edge reference declared nodes.
pub open spec fn edge_ok(nodes: Seq<Node>, e: Edge) -> bool {
    has_node(nodes, e.source@) && has_node(nodes, e.target@)
}

/// The node index that edge `k`'s source resolves to.
pub open spec fn src_idx(nodes: Seq<Node>, edges: Seq<Edge>, k: int) -> int {
    node_idx(nodes, edges[k].source@)
}

/// The node index that edge `k`'s target resolves to.
pub open spec fn tgt_idx(nodes: Seq<Node>, edges: Seq<Edge>, k: int) -> int {
    node_idx(nodes, edges[k].target@)
}

/// Index of the first edge at or after `k` with a dangling endpoint, or -1
/// when every edge from `k` on resolves.
pub open spec fn first_dangling_from(nodes: Seq<Node>, edges: Seq<Edge>, k: int) -> int
    decreases edges.len() - k,
{
    if k < 0 || k >= edges.len() {
        -1
    } else if !edge_ok(nodes, edges[k]) {
        k
    } else {
        first_dangling_from(nodes, edges, k + 1)
    }
}

/// Index of the first edge with a dangling endpoint, or -1 when all resolve.
pub open spec fn first_dangling(nodes: Seq<Node>, edges: Seq<Edge>) -> int {
    first_dangling_from(nodes, edges, 0)
}

/// Targets (as node indices) of the edges among the first `k` whose source
/// resolves to node index `s`, in edge declaration order.
pub open spec fn targets_upto(nodes: Seq<Node>, edges: Seq<Edge>, s: int, k: int) -> Seq<int>
    decreases k,
{
    if k <= 0 || k > edges.len() {
        Seq::empty()
    } else {
        let prev = targets_upto(nodes, edges, s, k - 1);
        if src_idx(nodes, edges, k - 1) == s {
            prev.push(tgt_idx(nodes, edges, k - 1))
        } else {
            prev
        }
    }
}

/// The full adjacency row of node index `s`: the targets of all edges whose
/// source resolves to `s`, in edge declaration order.
pub open spec fn adj_targets(nodes: Seq<Node>, edges: Seq<Edge>, s: int) -> Seq<int> {
    targets_upto(nodes, edges, s, edges.len() as int)
}

/// Number of edges among the first `k` whose target resolves to node `t`.
pub open spec fn indeg_upto(nodes: Seq<Node>, edges: Seq<Edge>, t: int, k: int) -> int
    decreases k,
{
    if k <= 0 || k > edges.len() {
        0
    } else {
        indeg_upto(nodes, edges, t, k - 1) + if tgt_idx(nodes, edges, k - 1) == t {
            1int
        } else {
            0int
        }
    }
}

/// The in-degree of node index `t`: how many edges target it.
pub open spec fn node_indeg(nodes: Seq<Node>, edges: Seq<Edge>, t: int) -> int {
    indeg_upto(nodes, edges, t, edges.len() as int)
}

/// A sequence of machine-sized indices, as mathematical integers.
pub open spec fn ints(s: Seq<usize>) -> Seq<int> {
    s.map_values(|x: usize| x as int)
}

/// The validated in-memory graph of one workflow: an adjacency list and an
/// in-degree counter, both indexed by node declaration order.
#[derive(Debug)]
pub struct ValidGraph {
    /// `adj[s]` lists the targets of the edges whose source is node `s`, in
    /// edge declaration order.
    pub adj: Vec<Vec<usize>>,
    /// `indeg[t]` counts the edges whose target is node `t`.
    pub indeg: Vec<usize>,
}

impl ValidGraph {
    /// The graph faithfully represents the workflow's edges, and every edge
    /// of the workflow resolves.
    pub open spec fn wf(self, w: Workflow) -> bool {
        &&& self.adj@.len() == w.nodes@.len()
        &&& self.indeg@.len() == w.nodes@.len()
        &&& forall|s: int|
            0 <= s < w.nodes@.len() ==> ints(#[trigger] self.adj@[s]@) == adj_targets(
                w.nodes@,
                w.edges@,
                s,
            )
        &&& forall|t: int|
            0 <= t < w.nodes@.len() ==> #[trigger] self.indeg@[t] as int == node_indeg(
                w.nodes@,
                w.edges@,
                t,
            )
        &&& forall|k: int| 0 <= k < w.edges@.len() ==> edge_ok(w.nodes@, #[trigger] w.edges@[k])
    }
}

/// A resolved node index is a valid position among the nodes, and the id at
/// that position is the id looked up; no earlier position carries it.
pub proof fn lemma_node_idx_from(nodes: Seq<Node>, id: Seq<char>, i: int)
    requires
        0 <= i,
    ensures
        -1 <= node_idx_from(nodes, id, i) < nodes.len(),
        node_idx_from(nodes, id, i) >= 0 ==> {
            &&& i <= node_idx_from(nodes, id, i)
            &&& nodes[node_idx_from(nodes, id, i)].id@ == id
            &&& forall|j: int| i <= j < node_idx_from(nodes, id, i) ==> nodes[j].id@ != id
        },
        node_idx_from(nodes, id, i) == -1 ==> forall|j: int|
            i <= j < nodes.len() ==> nodes[j].id@ != id,
    decreases nodes.len() - i,
{
    if i < 0 || i >= nodes.len() {
    } else if nodes[i].id@ == id {
    } else {
        lemma_node_idx_from(nodes, id, i + 1);
    }
}

/// Every entry of an adjacency row of a fully resolved edge list is a valid
/// node index.
pub proof fn lemma_targets_upto_in_range(nodes: Seq<Node>, edges: Seq<Edge>, s: int, k: int)
    requires
        forall|j: int| 0 <= j < edges.len() ==> edge_ok(nodes, #[trigger] edges[j]),
    ensures
        forall|p: int|
            0 <= p < targets_upto(nodes, edges, s, k).len() ==> 0 <= #[trigger] targets_upto(
                nodes,
                edges,
                s,
                k,
            )[p] < nodes.len(),
    decreases k,
{
    if k <= 0 || k > edges.len() {
    } else {
        lemma_targets_upto_in_range(nodes, edges, s, k - 1);
        let prev = targets_upto(nodes, edges, s, k - 1);
        let curr = targets_upto(nodes, edges, s, k);
        if src_idx(nodes, edges, k - 1) == s {
            lemma_node_idx_from(nodes, edges[k - 1].target@, 0);
            assert forall|p: int| 0 <= p < curr.len() implies 0 <= #[trigger] curr[p]
                < nodes.len() by {
                if p < prev.len() {
                    assert(curr[p] == prev[p]);
                } else {
                    assert(curr[p] == tgt_idx(nodes, edges, k - 1));
                }
            }
        } else {
            assert(curr == prev);
        }
    }
}

/// When no edge is dangling the first-dangling scan reports -1; otherwise it
/// reports the position of the first edge with an undeclared endpoint.
pub proof fn lemma_first_dangling_from(nodes: Seq<Node>, edges: Seq<Edge>, k: int)
    requires
        0 <= k,
    ensures
        first_dangling_from(nodes, edges, k) == -1 ==> forall|j: int|
            k <= j < edges.len() ==> edge_ok(nodes, #[trigger] edges[j]),
        first_dangling_from(nodes, edges, k) >= 0 ==> {
            &&& k <= first_dangling_from(nodes, edges, k) < edges.len()
            &&& !edge_ok(nodes, edges[first_dangling_from(nodes, edges, k)])
        },
    decreases edges.len() - k,
{
    if k < 0 || k >= edges.len() {
    } else if !edge_ok(nodes, edges[k]) {
    } else {
        lemma_first_dangling_from(nodes, edges, k + 1);
    }
}

/// Finds the declaration position of the node carrying the given id.
fn find_node(nodes: &Vec<Node>, id: &String) -> (r: Option<usize>)
    ensures
        node_idx(nodes@, id@) >= 0 ==> r == Some(node_idx(nodes@, id@) as usize),
        node_idx(nodes@, id@) < 0 ==> r is None,
{
    let mut i: usize = 0;
    while i < nodes.len()
        invariant
            0 <= i <= nodes@.len(),
            node_idx(nodes@, id@) == node_idx_from(nodes@, id@, i as int),
        decreases nodes@.len() - i,
    {
        if nodes[i].id == *id {
            return Some(i);
        }
        i = i + 1;
    }
    None
}

/// Builds the adjacency structure and the in-degree counter of a workflow,
/// seeding every declared node at in-degree zero, or fails on the first edge
/// that references an undeclared node id. Performs no side effect beyond
/// producing the in-memory graph.
pub fn build(w: &Workflow) -> (r: Result<ValidGraph, GraphError>)
    ensures
        r is Ok <==> first_dangling(w.nodes@, w.edges@) == -1,
        r matches Ok(g) ==> g.wf(*w),
        r matches Err(e) ==> ({
            let k = first_dangling(w.nodes@, w.edges@);
            &&& 0 <= k < w.edges@.len()
            &&& !edge_ok(w.nodes@, w.edges@[k])
            &&& e matches GraphError::DanglingReference(id) && id@ == w.edges@[k].id@
        }),
{
    let ghost nodes = w.nodes@;
    let ghost edges = w.edges@;
    let n = w.nodes.len();
    let mut adj: Vec<Vec<usize>> = Vec::new();
    let mut indeg: Vec<usize> = Vec::new();
    let mut s: usize = 0;
    while s < n
        invariant
            adj@.len() == s,
            indeg@.len() == s,
            s <= n,
            forall|j: int| 0 <= j < s ==> (#[trigger] adj@[j]@).len() == 0,
            forall|j: int| 0 <= j < s ==> #[trigger] indeg@[j] == 0,
        decreases n - s,
    {
        adj.push(Vec::new());
        indeg.push(0);
        s = s + 1;
    }
    let mut k: usize = 0;
    while k < w.edges.len()
        invariant
            n == nodes.len(),
            nodes == w.nodes@,
            edges == w.edges@,
            k <= edges.len(),
            adj@.len() == n,
            indeg@.len() == n,
            first_dangling(nodes, edges) == first_dangling_from(nodes, edges, k as int),
            forall|j: int|
                0 <= j < n ==> ints(#[trigger] adj@[j]@) == targets_upto(
                    nodes,
                    edges,
                    j,
                    k as int,
                ),
            forall|j: int|
                0 <= j < n ==> #[trigger] indeg@[j] as int == indeg_upto(
                    nodes,
                    edges,
                    j,
                    k as int,
                ),
            forall|j: int| 0 <= j < n ==> #[trigger] indeg@[j] <= k,
        decreases edges.len() - k,
    {
        let edge = &w.edges[k];
        let si = match find_node(&w.nodes, &edge.source) {
            Some(si) => si,
            None => {
                proof {
                    lemma_node_idx_from(nodes, edge.source@, 0);
                }
                return Err(GraphError::DanglingReference(edge.id.clone()));
            },
        };
        let ti = match find_node(&w.nodes, &edge.target) {
            Some(ti) => ti,
            None => {
                proof {
                    lemma_node_idx_from(nodes, edge.target@, 0);
                }
                return Err(GraphError::DanglingReference(edge.id.clone()));
            },
        };
        proof {
            lemma_node_idx_from(nodes, edge.source@, 0);
            lemma_node_idx_from(nodes, edge.target@, 0);
        }
        let ghost adj_before = adj@;
        let ghost indeg_before = indeg@;
        adj[si].push(ti);
        indeg[ti] = indeg[ti] + 1;
        proof {
            assert(adj@[si as int]@ == adj_before[si as int]@.push(ti));
            assert forall|j: int| 0 <= j < n implies ints(#[trigger] adj@[j]@) == targets_upto(
                nodes,
                edges,
                j,
                k + 1,
            ) by {
                if j == si {
                    assert(ints(adj_before[j]@.push(ti)) =~= ints(adj_before[j]@).push(
                        ti as int,
                    ));
                } else {
                    assert(adj@[j]@ == adj_before[j]@);
                }
            }
            assert forall|j: int| 0 <= j < n implies #[trigger] indeg@[j] as int == indeg_upto(
                nodes,
                edges,
                j,
                k + 1,
            ) by {
                if j != ti {
                    assert(indeg@[j] == indeg_before[j]);
                }
            }
        }
        k = k + 1;
    }
    proof {
        lemma_first_dangling_from(nodes, edges, 0);
    }
    Ok(ValidGraph { adj, indeg })
}

} // verus!
