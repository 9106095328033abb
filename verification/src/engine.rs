//! Run orchestration: validate the workflow's graph, compute the schedule,
//! and dispatch every node in scheduled order, aborting on the first error
//! from any stage. The whole run is decided before any side effect: the
//! result is the exact sequence of repository actions for the caller to
//! perform, one node at a time, strictly sequentially.

use vstd::prelude::*;

use crate::dispatch::{dispatch_spec, missing_field, parse_action, Action, DispatchError};
use crate::graph::{build, first_dangling, ints, GraphError};
use crate::models::{Node, Workflow};
use crate::schedule::{cycle_ids, kahn_order, schedule};

verus! {

/// An error that aborts a workflow run before or during dispatch.
#[derive(Debug, Clone, PartialEq, Eq)]
pub enum WorkflowError {
    /// The dependency graph is malformed: a dangling edge reference or a
    /// dependency cycle, detected before any node is dispatched.
    Graph(GraphError),
    /// A node of the recognized action types lacks a required parameter.
    Dispatch {
        /// The id of the offending node.
        node_id: String,
        /// What that node's dispatch failed on.
        error: DispatchError,
    },
}

/// One entry of an execution plan: the action a node dispatches to, tagged
/// with the node's id so failures of the action can be attributed.
#[derive(Debug, Clone, PartialEq, Eq)]
pub struct Step {
    /// The id of the node the action was dispatched from.
    pub node_id: String,
    /// The repository action to perform.
    pub action: Action,
}

/// Position, within the scheduled order from `j` on, of the first node whose
/// parameter document lacks a required field, or -1 when every remaining
/// node dispatches.
pub open spec fn first_undispatchable(nodes: Seq<Node>, ord: Seq<int>, j: int) -> int
    decreases ord.len() - j,
{
    if j < 0 || j >= ord.len() {
        -1
    } else if missing_field(nodes[ord[j]]) is Some {
        j
    } else {
        first_undispatchable(nodes, ord, j + 1)
    }
}

/// Decides a whole workflow run: builds and validates the graph, schedules
/// the nodes topologically, and dispatches each scheduled node, returning
/// the full sequence of repository actions in execution order — or the
/// first error of the first failing stage, before any action is to run.
/// Owns no state; consumes the workflow document alone.
#[verifier::loop_isolation(false)]
pub fn plan_workflow(w: &Workflow) -> (r: Result<Vec<Step>, WorkflowError>)
    ensures
        ({
            let nodes = w.nodes@;
            let edges = w.edges@;
            let ord = kahn_order(nodes, edges);
            let fd = first_dangling(nodes, edges);
            let fu = first_undispatchable(nodes, ord, 0);
            &&& (r is Ok <==> fd == -1 && ord.len() == nodes.len() && fu == -1)
            &&& (fd >= 0 ==> ({
                &&& r matches Err(WorkflowError::Graph(GraphError::DanglingReference(id)))
                &&& id@ == edges[fd].id@
            }))
            &&& (fd == -1 && ord.len() < nodes.len() ==> ({
                let ids_spec = cycle_ids(nodes, edges);
                &&& r matches Err(WorkflowError::Graph(GraphError::Cycle(ids)))
                &&& ids@.len() == ids_spec.len()
                &&& (forall|i: int| 0 <= i < ids@.len() ==> #[trigger] ids@[i]@ == ids_spec[i])
            }))
            &&& (fd == -1 && ord.len() == nodes.len() && fu >= 0 ==> ({
                &&& r matches Err(WorkflowError::Dispatch { node_id, error })
                &&& node_id@ == nodes[ord[fu]].id@
                &&& error matches DispatchError::MissingField(f)
                &&& Some(f@) == missing_field(nodes[ord[fu]])
            }))
            &&& (r matches Ok(steps) ==> ({
                &&& steps@.len() == ord.len()
                &&& (forall|i: int|
                    0 <= i < steps@.len() ==> (#[trigger] steps@[i].node_id)@
                        == nodes[ord[i]].id@)
                &&& (forall|i: int|
                    0 <= i < steps@.len() ==> dispatch_spec(
                        nodes[ord[i]],
                        Ok(#[trigger] steps@[i].action),
                    ))
            }))
        }),
{
    let ghost nodes = w.nodes@;
    let ghost edges = w.edges@;
    let ghost ord = kahn_order(nodes, edges);
    let g = match build(w) {
        Ok(g) => g,
        Err(e) => {
            return Err(WorkflowError::Graph(e));
        },
    };
    let order = match schedule(w, g) {
        Ok(o) => o,
        Err(e) => {
            return Err(WorkflowError::Graph(e));
        },
    };
    let mut steps: Vec<Step> = Vec::new();
    let mut j: usize = 0;
    while j < order.len()
        invariant
            j <= order@.len(),
            ints(order@) == ord,
            ord.len() == nodes.len(),
            steps@.len() == j,
            first_undispatchable(nodes, ord, 0) == first_undispatchable(nodes, ord, j as int),
            forall|i: int|
                0 <= i < j ==> (#[trigger] steps@[i].node_id)@ == nodes[ord[i]].id@,
            forall|i: int|
                0 <= i < j ==> dispatch_spec(nodes[ord[i]], Ok(#[trigger] steps@[i].action)),
        decreases order@.len() - j,
    {
        proof {
            assert(0 <= ints(order@)[j as int] < nodes.len());
        }
        let node = &w.nodes[order[j]];
        match parse_action(node) {
            Ok(a) => {
                steps.push(Step { node_id: node.id.clone(), action: a });
                proof {
                    assert(missing_field(nodes[ord[j as int]]) is None);
                }
            },
            Err(e) => {
                proof {
                    assert(missing_field(nodes[ord[j as int]]) is Some);
                    assert(first_undispatchable(nodes, ord, j as int) == j as int);
                }
                return Err(WorkflowError::Dispatch { node_id: node.id.clone(), error: e });
            },
        }
        j = j + 1;
    }
    Ok(steps)
}

} // verus!
