use jgui::dispatch::{Action, DispatchError};
use jgui::engine::{plan_workflow, Step, WorkflowError};
use jgui::graph::{build, GraphError};
use jgui::models::{Edge, Node, Param, Workflow};
use jgui::schedule::{schedule, schedule_ids as schedule_node_ids};

fn node(id: &str, action_type: &str, params: &[(&str, &str)]) -> Node {
    Node {
        id: id.to_string(),
        action_type: action_type.to_string(),
        params: params
            .iter()
            .map(|(k, v)| Param { key: k.to_string(), value: v.to_string() })
            .collect(),
    }
}

fn edge(id: &str, source: &str, target: &str) -> Edge {
    Edge { id: id.to_string(), source: source.to_string(), target: target.to_string() }
}

fn schedule_ids(w: &Workflow) -> Result<Vec<String>, GraphError> {
    let g = build(w).expect("graph must build");
    schedule_node_ids(w, g)
}

#[test]
fn schedule_by_ids_and_by_positions_agree() {
    let w = Workflow {
        nodes: vec![node("a", "Noop", &[]), node("b", "Noop", &[])],
        edges: vec![edge("e1", "a", "b")],
    };
    let by_pos = schedule(&w, build(&w).unwrap()).unwrap();
    let by_id = schedule_node_ids(&w, build(&w).unwrap()).unwrap();
    let mapped: Vec<String> = by_pos.iter().map(|&i| w.nodes[i].id.clone()).collect();
    assert_eq!(by_id, mapped);
    assert_eq!(by_id, vec!["a".to_string(), "b".to_string()]);
}

#[test]
fn empty_workflow_plans_to_no_steps() {
    let w = Workflow { nodes: vec![], edges: vec![] };
    let steps = plan_workflow(&w).expect("empty workflow must plan");
    assert!(steps.is_empty());
}

#[test]
fn single_node_is_scheduled() {
    let w = Workflow { nodes: vec![node("a", "Get Diff", &[])], edges: vec![] };
    assert_eq!(schedule_ids(&w).unwrap(), vec!["a".to_string()]);
}

#[test]
fn ordering_respects_edges_and_lists_each_node_once() {
    // Diamond: a before b and c, both before d.
    let w = Workflow {
        nodes: vec![
            node("a", "Noop", &[]),
            node("b", "Noop", &[]),
            node("c", "Noop", &[]),
            node("d", "Noop", &[]),
        ],
        edges: vec![
            edge("e1", "a", "b"),
            edge("e2", "a", "c"),
            edge("e3", "b", "d"),
            edge("e4", "c", "d"),
        ],
    };
    let order = schedule_ids(&w).unwrap();
    assert_eq!(order.len(), 4);
    for id in ["a", "b", "c", "d"] {
        assert_eq!(order.iter().filter(|x| x.as_str() == id).count(), 1);
    }
    let pos = |id: &str| order.iter().position(|x| x == id).unwrap();
    assert!(pos("a") < pos("b"));
    assert!(pos("a") < pos("c"));
    assert!(pos("b") < pos("d"));
    assert!(pos("c") < pos("d"));
}

#[test]
fn scheduling_is_deterministic() {
    let w = Workflow {
        nodes: vec![
            node("n1", "Noop", &[]),
            node("n2", "Noop", &[]),
            node("n3", "Noop", &[]),
            node("n4", "Noop", &[]),
            node("n5", "Noop", &[]),
        ],
        edges: vec![edge("e1", "n2", "n4"), edge("e2", "n1", "n4")],
    };
    let first = schedule_ids(&w).unwrap();
    let second = schedule_ids(&w).unwrap();
    assert_eq!(first, second);
}

#[test]
fn ready_nodes_keep_declaration_order() {
    // All of a, b, c are ready at once: declaration order breaks the tie.
    let w = Workflow {
        nodes: vec![node("a", "Noop", &[]), node("b", "Noop", &[]), node("c", "Noop", &[])],
        edges: vec![],
    };
    assert_eq!(
        schedule_ids(&w).unwrap(),
        vec!["a".to_string(), "b".to_string(), "c".to_string()]
    );
}

#[test]
fn newly_ready_nodes_join_behind_the_seeded_queue() {
    // a waits on b; the seed is [b, c] and a joins after b's expansion,
    // behind c: FIFO order, not declaration order.
    let w = Workflow {
        nodes: vec![node("a", "Noop", &[]), node("b", "Noop", &[]), node("c", "Noop", &[])],
        edges: vec![edge("e1", "b", "a")],
    };
    assert_eq!(
        schedule_ids(&w).unwrap(),
        vec!["b".to_string(), "c".to_string(), "a".to_string()]
    );
}

#[test]
fn cycle_is_detected_and_lists_its_members() {
    let w = Workflow {
        nodes: vec![node("a", "Noop", &[]), node("b", "Noop", &[]), node("c", "Noop", &[])],
        edges: vec![edge("e1", "a", "b"), edge("e2", "b", "c"), edge("e3", "c", "a")],
    };
    match plan_workflow(&w) {
        Err(WorkflowError::Graph(GraphError::Cycle(ids))) => {
            assert_eq!(ids, vec!["a".to_string(), "b".to_string(), "c".to_string()]);
        }
        other => panic!("expected a cycle error, got {:?}", other),
    }
}

#[test]
fn self_loop_is_a_cycle() {
    let w = Workflow {
        nodes: vec![node("a", "Noop", &[])],
        edges: vec![edge("e1", "a", "a")],
    };
    match schedule_ids(&w) {
        Err(GraphError::Cycle(ids)) => assert_eq!(ids, vec!["a".to_string()]),
        other => panic!("expected a cycle error, got {:?}", other),
    }
}

#[test]
fn nodes_before_a_cycle_are_still_not_dispatched() {
    // d is runnable, but the cycle among a, b aborts the whole run first.
    let w = Workflow {
        nodes: vec![node("d", "Get Diff", &[]), node("a", "Noop", &[]), node("b", "Noop", &[])],
        edges: vec![edge("e1", "a", "b"), edge("e2", "b", "a")],
    };
    match plan_workflow(&w) {
        Err(WorkflowError::Graph(GraphError::Cycle(ids))) => {
            assert_eq!(ids, vec!["a".to_string(), "b".to_string()]);
        }
        other => panic!("expected a cycle error, got {:?}", other),
    }
}

#[test]
fn dangling_edge_fails_at_build_time() {
    let w = Workflow {
        nodes: vec![node("a", "Noop", &[])],
        edges: vec![edge("e1", "a", "ghost")],
    };
    match build(&w) {
        Err(GraphError::DanglingReference(id)) => assert_eq!(id, "e1"),
        other => panic!("expected a dangling reference, got {:?}", other),
    }
}

#[test]
fn dangling_source_is_reported_too() {
    let w = Workflow {
        nodes: vec![node("a", "Noop", &[])],
        edges: vec![edge("e9", "ghost", "a")],
    };
    match plan_workflow(&w) {
        Err(WorkflowError::Graph(GraphError::DanglingReference(id))) => assert_eq!(id, "e9"),
        other => panic!("expected a dangling reference, got {:?}", other),
    }
}

#[test]
fn first_dangling_edge_wins_over_a_later_cycle() {
    // Build-time validation runs before scheduling: the dangling edge is
    // reported even though the remaining edges form a cycle.
    let w = Workflow {
        nodes: vec![node("a", "Noop", &[]), node("b", "Noop", &[])],
        edges: vec![edge("bad", "a", "ghost"), edge("e1", "a", "b"), edge("e2", "b", "a")],
    };
    match plan_workflow(&w) {
        Err(WorkflowError::Graph(GraphError::DanglingReference(id))) => assert_eq!(id, "bad"),
        other => panic!("expected a dangling reference, got {:?}", other),
    }
}

#[test]
fn duplicate_edges_count_twice_toward_in_degree() {
    let w = Workflow {
        nodes: vec![node("a", "Noop", &[]), node("b", "Noop", &[])],
        edges: vec![edge("e1", "a", "b"), edge("e2", "a", "b")],
    };
    let g = build(&w).unwrap();
    assert_eq!(g.indeg, vec![0, 2]);
    assert_eq!(g.adj, vec![vec![1, 1], vec![]]);
    assert_eq!(schedule_ids(&w).unwrap(), vec!["a".to_string(), "b".to_string()]);
}

#[test]
fn build_produces_adjacency_and_in_degrees_by_declaration_order() {
    let w = Workflow {
        nodes: vec![node("x", "Noop", &[]), node("y", "Noop", &[]), node("z", "Noop", &[])],
        edges: vec![edge("e1", "y", "x"), edge("e2", "y", "z"), edge("e3", "x", "z")],
    };
    let g = build(&w).unwrap();
    assert_eq!(g.adj, vec![vec![2], vec![0, 2], vec![]]);
    assert_eq!(g.indeg, vec![1, 0, 2]);
}

#[test]
fn missing_commit_message_aborts_without_a_commit_step() {
    let w = Workflow {
        nodes: vec![node(
            "c",
            "Create Branch and Commit",
            &[("branchName", "feature-x")],
        )],
        edges: vec![],
    };
    match plan_workflow(&w) {
        Err(WorkflowError::Dispatch { node_id, error }) => {
            assert_eq!(node_id, "c");
            assert_eq!(error, DispatchError::MissingField("commitMessage".to_string()));
        }
        other => panic!("expected a missing field, got {:?}", other),
    }
}

#[test]
fn missing_branch_name_is_reported_first() {
    let w = Workflow {
        nodes: vec![node("c", "Create Branch and Commit", &[("commitMessage", "msg")])],
        edges: vec![],
    };
    match plan_workflow(&w) {
        Err(WorkflowError::Dispatch { node_id, error }) => {
            assert_eq!(node_id, "c");
            assert_eq!(error, DispatchError::MissingField("branchName".to_string()));
        }
        other => panic!("expected a missing field, got {:?}", other),
    }
}

#[test]
fn missing_patch_aborts_the_run() {
    let w = Workflow {
        nodes: vec![node("p", "Apply Patch", &[("label", "irrelevant")])],
        edges: vec![],
    };
    match plan_workflow(&w) {
        Err(WorkflowError::Dispatch { node_id, error }) => {
            assert_eq!(node_id, "p");
            assert_eq!(error, DispatchError::MissingField("patch".to_string()));
        }
        other => panic!("expected a missing field, got {:?}", other),
    }
}

#[test]
fn unknown_action_type_is_skipped_and_execution_continues() {
    let w = Workflow {
        nodes: vec![node("n", "Noop", &[]), node("d", "Get Diff", &[])],
        edges: vec![edge("e1", "n", "d")],
    };
    let steps = plan_workflow(&w).expect("unknown types are tolerated");
    assert_eq!(steps.len(), 2);
    assert_eq!(steps[0].node_id, "n");
    assert_eq!(steps[0].action, Action::Skip { action_type: "Noop".to_string() });
    assert_eq!(steps[1].node_id, "d");
    assert_eq!(steps[1].action, Action::GetDiff);
}

#[test]
fn end_to_end_plan_orders_the_three_repository_actions() {
    let w = Workflow {
        nodes: vec![
            node("a", "Get Diff", &[]),
            node("b", "Apply Patch", &[("patch", "--- a\n+++ b\n")]),
            node(
                "c",
                "Create Branch and Commit",
                &[("branchName", "feature-x"), ("commitMessage", "msg")],
            ),
        ],
        edges: vec![edge("e1", "a", "b"), edge("e2", "b", "c")],
    };
    let steps = plan_workflow(&w).expect("the workflow is well-formed");
    let expected = vec![
        Step { node_id: "a".to_string(), action: Action::GetDiff },
        Step {
            node_id: "b".to_string(),
            action: Action::ApplyPatch { patch: "--- a\n+++ b\n".to_string() },
        },
        Step {
            node_id: "c".to_string(),
            action: Action::CreateBranchAndCommit {
                branch_name: "feature-x".to_string(),
                commit_message: "msg".to_string(),
            },
        },
    ];
    assert_eq!(steps, expected);
}

#[test]
fn first_failing_node_in_schedule_order_is_reported() {
    // Both b and c lack fields; b is scheduled first and is reported.
    let w = Workflow {
        nodes: vec![
            node("c", "Apply Patch", &[]),
            node("b", "Create Branch and Commit", &[]),
        ],
        edges: vec![edge("e1", "b", "c")],
    };
    match plan_workflow(&w) {
        Err(WorkflowError::Dispatch { node_id, error }) => {
            assert_eq!(node_id, "b");
            assert_eq!(error, DispatchError::MissingField("branchName".to_string()));
        }
        other => panic!("expected a missing field, got {:?}", other),
    }
}
