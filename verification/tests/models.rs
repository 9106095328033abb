use jgui::models::{
    Activity, ActivityContent, AutomationMode, CreateSessionRequest, ListSessionsResponse,
    ListSourcesResponse, Session, Source, State, ToolOutput,
};

#[test]
fn session_state_defaults_to_unspecified() {
    assert_eq!(State::default(), State::StateUnspecified);
    let s = Session {
        name: "sessions/s1".to_string(),
        title: String::new(),
        state: State::default(),
    };
    assert_eq!(s.state, State::StateUnspecified);
}

#[test]
fn automation_mode_defaults_to_auto_create_pr() {
    assert_eq!(AutomationMode::default(), AutomationMode::AutoCreatePr);
}

#[test]
fn create_session_request_assembles_the_nested_context() {
    let r = CreateSessionRequest::new(
        "Test prompt".to_string(),
        "sources/github/test/test".to_string(),
        "main".to_string(),
        "Test Session".to_string(),
    );
    assert_eq!(r.prompt, "Test prompt");
    assert_eq!(r.source_context.source, "sources/github/test/test");
    assert_eq!(r.source_context.github_repo_context.starting_branch, "main");
    assert_eq!(r.automation_mode, AutomationMode::AutoCreatePr);
    assert_eq!(r.title, "Test Session");
}

#[test]
fn response_records_hold_their_items() {
    let sources = ListSourcesResponse {
        sources: vec![
            Source { name: "source1".to_string() },
            Source { name: "source2".to_string() },
        ],
    };
    assert_eq!(sources.sources.len(), 2);
    assert_eq!(sources.sources[0].name, "source1");

    let sessions = ListSessionsResponse {
        sessions: vec![Session {
            name: "session1".to_string(),
            title: "Session One".to_string(),
            state: State::InProgress,
        }],
    };
    assert_eq!(sessions.sessions[0].title, "Session One");
    assert_eq!(sessions.sessions[0].state, State::InProgress);
}

#[test]
fn activity_content_distinguishes_tool_output() {
    let a = Activity {
        name: "activity1".to_string(),
        state: "COMPLETED".to_string(),
        content: Some(ActivityContent::ToolOutput(ToolOutput {
            tool_name: "test-tool".to_string(),
            output: "Test tool output".to_string(),
        })),
    };
    match a.content {
        Some(ActivityContent::ToolOutput(t)) => {
            assert_eq!(t.tool_name, "test-tool");
            assert_eq!(t.output, "Test tool output");
        }
        None => panic!("expected tool output content"),
    }
}
