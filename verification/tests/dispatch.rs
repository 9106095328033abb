use jgui::dispatch::{get_param, parse_action, Action, DispatchError};
use jgui::models::{Node, Param};

fn node(id: &str, action_type: &str, params: &[(&str, &str)]) -> Node {
    Node {
        id: id.to_string(),
        action_type: action_type.to_string(),
        params: params
            .iter()
            .map(|(k, v)| Param { key: k.to_string(), value: v.to_string() })
            .collect(),
    }
}

#[test]
fn get_diff_needs_no_parameters() {
    let n = node("a", "Get Diff", &[]);
    assert_eq!(parse_action(&n), Ok(Action::GetDiff));
}

#[test]
fn apply_patch_carries_the_patch_text() {
    let n = node("a", "Apply Patch", &[("patch", "@@ -1 +1 @@\n")]);
    assert_eq!(
        parse_action(&n),
        Ok(Action::ApplyPatch { patch: "@@ -1 +1 @@\n".to_string() })
    );
}

#[test]
fn apply_patch_without_patch_is_a_missing_field() {
    let n = node("a", "Apply Patch", &[]);
    assert_eq!(
        parse_action(&n),
        Err(DispatchError::MissingField("patch".to_string()))
    );
}

#[test]
fn create_branch_and_commit_carries_both_fields() {
    let n = node(
        "a",
        "Create Branch and Commit",
        &[("commitMessage", "msg"), ("branchName", "topic")],
    );
    assert_eq!(
        parse_action(&n),
        Ok(Action::CreateBranchAndCommit {
            branch_name: "topic".to_string(),
            commit_message: "msg".to_string(),
        })
    );
}

#[test]
fn unknown_action_type_is_a_skip() {
    let n = node("a", "Summon Goblins", &[("label", "x")]);
    assert_eq!(
        parse_action(&n),
        Ok(Action::Skip { action_type: "Summon Goblins".to_string() })
    );
}

#[test]
fn lookup_takes_the_first_entry_with_the_key() {
    let n = node("a", "Apply Patch", &[("patch", "first"), ("patch", "second")]);
    assert_eq!(
        parse_action(&n),
        Ok(Action::ApplyPatch { patch: "first".to_string() })
    );
}

#[test]
fn action_types_match_exactly() {
    let near_miss = node("a", "Get Diff ", &[]);
    assert_eq!(
        parse_action(&near_miss),
        Ok(Action::Skip { action_type: "Get Diff ".to_string() })
    );
    let wrong_case = node("b", "get diff", &[]);
    assert_eq!(
        parse_action(&wrong_case),
        Ok(Action::Skip { action_type: "get diff".to_string() })
    );
}

#[test]
fn parameter_keys_match_exactly() {
    let n = node("a", "Apply Patch", &[("Patch", "wrong-case")]);
    assert_eq!(
        parse_action(&n),
        Err(DispatchError::MissingField("patch".to_string()))
    );
}

#[test]
fn get_param_distinguishes_absent_from_present() {
    let params = vec![
        Param { key: "k1".to_string(), value: "v1".to_string() },
        Param { key: "k2".to_string(), value: "v2".to_string() },
    ];
    assert_eq!(get_param(&params, "k2"), Some("v2".to_string()));
    assert_eq!(get_param(&params, "k3"), None);
    assert_eq!(get_param(&vec![], "k1"), None);
}
