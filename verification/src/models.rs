//! Data model: the workflow graph (nodes, edges), the per-node parameter
//! document, and the plain records exchanged with the remote session API.

use vstd::prelude::*;

verus! {

/// A source that an agent can operate on, typically a code repository.
#[derive(Debug, Clone, PartialEq, Eq)]
pub struct Source {
    /// The unique name of the source, typically `sources/{source_id}`.
    pub name: String,
}

/// The lifecycle state of a session.
#[derive(Debug, Clone, PartialEq, Eq)]
pub enum State {
    StateUnspecified,
    Queued,
    Planning,
    AwaitingPlanApproval,
    AwaitingUserFeedback,
    InProgress,
    Paused,
    Failed,
    Completed,
}

impl Default for State {
    /// The state of a session that reported none.
    fn default() -> (r: Self)
        ensures
            r == State::StateUnspecified,
    {
        State::StateUnspecified
    }
}

/// A single conversation or task that an agent is working on.
#[derive(Debug, Clone, PartialEq, Eq)]
pub struct Session {
    /// The unique name of the session, typically `sessions/{session_id}`.
    pub name: String,
    /// The human-readable title of the session; empty when absent.
    pub title: String,
    /// The state of the session.
    pub state: State,
}

/// The response to a request to list sources.
#[derive(Debug, Clone, PartialEq, Eq)]
pub struct ListSourcesResponse {
    /// The sources returned by the API.
    pub sources: Vec<Source>,
}

/// The response to a request to list sessions.
#[derive(Debug, Clone, PartialEq, Eq)]
pub struct ListSessionsResponse {
    /// The sessions returned by the API.
    pub sessions: Vec<Session>,
}

/// How far a new session automates its work.
#[derive(Debug, Clone, PartialEq, Eq)]
pub enum AutomationMode {
    AutoCreatePr,
}

impl Default for AutomationMode {
    /// The mode used when the caller names none.
    fn default() -> (r: Self)
        ensures
            r == AutomationMode::AutoCreatePr,
    {
        AutomationMode::AutoCreatePr
    }
}

/// The source context for a new session.
#[derive(Debug, Clone, PartialEq, Eq)]
pub struct SourceContext {
    /// The name of the source.
    pub source: String,
    /// The context for the GitHub repository.
    pub github_repo_context: GithubRepoContext,
}

/// The context for a GitHub repository.
#[derive(Debug, Clone, PartialEq, Eq)]
pub struct GithubRepoContext {
    /// The starting branch for the new session.
    pub starting_branch: String,
}

/// The request body for creating a new session.
#[derive(Debug, Clone, PartialEq, Eq)]
pub struct CreateSessionRequest {
    /// The user's prompt for the new session.
    pub prompt: String,
    /// The context for the source, including the repository information.
    pub source_context: SourceContext,
    /// The automation mode for the session.
    pub automation_mode: AutomationMode,
    /// The title of the session.
    pub title: String,
}

impl CreateSessionRequest {
    /// Assembles the request for a new session from its plain parts.
    pub fn new(prompt: String, source_name: String, starting_branch: String, title: String) -> (r:
        CreateSessionRequest)
        ensures
            r.prompt == prompt,
            r.source_context.source == source_name,
            r.source_context.github_repo_context.starting_branch == starting_branch,
            r.automation_mode == AutomationMode::AutoCreatePr,
            r.title == title,
    {
        CreateSessionRequest {
            prompt,
            source_context: SourceContext {
                source: source_name,
                github_repo_context: GithubRepoContext { starting_branch },
            },
            automation_mode: AutomationMode::AutoCreatePr,
            title,
        }
    }
}

/// The output of a tool execution.
#[derive(Debug, Clone, PartialEq, Eq)]
pub struct ToolOutput {
    /// The name of the tool that was executed.
    pub tool_name: String,
    /// The output of the tool.
    pub output: String,
}

/// The content of an activity, one shape per kind.
#[derive(Debug, Clone, PartialEq, Eq)]
pub enum ActivityContent {
    /// The output of a tool execution.
    ToolOutput(ToolOutput),
}

/// A single activity within a session.
#[derive(Debug, Clone, PartialEq, Eq)]
pub struct Activity {
    /// The unique name of the activity.
    pub name: String,
    /// The state of the activity.
    pub state: String,
    /// The content of the activity, when it has one.
    pub content: Option<ActivityContent>,
}

/// The response to a request to list activities.
#[derive(Debug, Clone, PartialEq, Eq)]
pub struct ListActivitiesResponse {
    /// The activities returned by the API.
    pub activities: Vec<Activity>,
    /// A token for the next page of results; absent when there are no more.
    pub next_page_token: Option<String>,
}

/// One entry of a node's parameter document.
#[derive(Debug, Clone, PartialEq, Eq)]
pub struct Param {
    /// The parameter's key.
    pub key: String,
    /// The parameter's value.
    pub value: String,
}

/// A unit of work in a workflow: an action type and its parameters.
#[derive(Debug, Clone, PartialEq, Eq)]
pub struct Node {
    /// The identifier of the node, unique within a workflow.
    pub id: String,
    /// The declared action type, interpreted by the dispatcher.
    pub action_type: String,
    /// The parameter document, an ordered key/value mapping whose required
    /// keys depend on the action type.
    pub params: Vec<Param>,
}

/// A directed dependency: the `source` node must execute before `target`.
#[derive(Debug, Clone, PartialEq, Eq)]
pub struct Edge {
    /// The unique identifier of the edge.
    pub id: String,
    /// The identifier of the source node.
    pub source: String,
    /// The identifier of the target node.
    pub target: String,
}

/// The full node/edge graph submitted for one execution pass.
///
/// The declaration order of `nodes` is significant: it breaks ties among
/// nodes that become ready simultaneously during scheduling.
#[derive(Debug, Clone, PartialEq, Eq)]
pub struct Workflow {
    /// The nodes of the workflow, in declaration order.
    pub nodes: Vec<Node>,
    /// The dependency edges of the workflow.
    pub edges: Vec<Edge>,
}

} // verus!
