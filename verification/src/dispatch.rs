//! Node dispatcher: inspects a node's declared action type, validates the
//! required parameters, and names the concrete repository action to invoke.
//! A missing required field is fatal; an unrecognized action type is not —
//! the node is skipped and execution continues.

use vstd::prelude::*;

use crate::models::{Node, Param};

verus! {

/// An error detected while dispatching a single node.
#[derive(Debug, Clone, PartialEq, Eq)]
pub enum DispatchError {
    /// A required parameter is absent for a recognized action type; the
    /// payload names the missing field.
    MissingField(String),
}

/// A concrete repository action, ready to be invoked against the repository
/// mutation collaborator. The dispatcher itself performs no side effect.
#[derive(Debug, Clone, PartialEq, Eq)]
pub enum Action {
    /// Compute the working-tree diff and surface it.
    GetDiff,
    /// Apply the given patch text to the working tree.
    ApplyPatch {
        /// The patch text to apply.
        patch: String,
    },
    /// Create a branch and commit the working tree onto it.
    CreateBranchAndCommit {
        /// The name of the branch to create.
        branch_name: String,
        /// The message of the commit to create.
        commit_message: String,
    },
    /// Do nothing: the node's action type is not recognized, which is
    /// tolerated for forward compatibility with newer workflow documents.
    Skip {
        /// The unrecognized action type, kept for reporting.
        action_type: String,
    },
}

/// The value at the first entry of the parameter document carrying `key`.
pub open spec fn lookup(params: Seq<Param>, key: Seq<char>) -> Option<Seq<char>>
    decreases params.len(),
{
    if params.len() == 0 {
        None
    } else if params[0].key@ == key {
        Some(params[0].value@)
    } else {
        lookup(params.drop_first(), key)
    }
}

/// The required field, if any, that the node's parameter document lacks:
/// "Apply Patch" requires `patch`; "Create Branch and Commit" requires
/// `branchName` and then `commitMessage`; every other action type requires
/// nothing.
pub open spec fn missing_field(n: Node) -> Option<Seq<char>> {
    if n.action_type@ == "Apply Patch"@ {
        if lookup(n.params@, "patch"@) is None {
            Some("patch"@)
        } else {
            None
        }
    } else if n.action_type@ == "Create Branch and Commit"@ {
        if lookup(n.params@, "branchName"@) is None {
            Some("branchName"@)
        } else if lookup(n.params@, "commitMessage"@) is None {
            Some("commitMessage"@)
        } else {
            None
        }
    } else {
        None
    }
}

/// What dispatching a node must yield: the error naming the first missing
/// required field when one is lacking; otherwise the exact action for each
/// recognized action type, and a skip carrying the declared type for an
/// unrecognized one.
pub open spec fn dispatch_spec(n: Node, r: Result<Action, DispatchError>) -> bool {
    match missing_field(n) {
        Some(f) => r matches Err(DispatchError::MissingField(g)) && g@ == f,
        None => {
            if n.action_type@ == "Get Diff"@ {
                r == Ok::<Action, DispatchError>(Action::GetDiff)
            } else if n.action_type@ == "Apply Patch"@ {
                r matches Ok(Action::ApplyPatch { patch }) && Some(patch@) == lookup(
                    n.params@,
                    "patch"@,
                )
            } else if n.action_type@ == "Create Branch and Commit"@ {
                r matches Ok(Action::CreateBranchAndCommit { branch_name, commit_message })
                    && Some(branch_name@) == lookup(n.params@, "branchName"@) && Some(
                    commit_message@,
                ) == lookup(n.params@, "commitMessage"@)
            } else {
                r matches Ok(Action::Skip { action_type }) && action_type@ == n.action_type@
            }
        },
    }
}

/// String comparison by contents.
fn str_eq(a: &String, b: &str) -> (r: bool)
    ensures
        r == (a@ == b@),
{
    let bs = String::from_str(b);
    *a == bs
}

/// Finds the value of the first parameter entry carrying the given key.
pub fn get_param(params: &Vec<Param>, key: &str) -> (r: Option<String>)
    ensures
        r is Some <==> lookup(params@, key@) is Some,
        r matches Some(v) ==> lookup(params@, key@) == Some(v@),
{
    proof {
        assert(params@.skip(0) =~= params@);
    }
    let mut i: usize = 0;
    while i < params.len()
        invariant
            i <= params@.len(),
            lookup(params@, key@) == lookup(params@.skip(i as int), key@),
        decreases params@.len() - i,
    {
        proof {
            assert(params@.skip(i as int)[0] == params@[i as int]);
            assert(params@.skip(i as int).drop_first() =~= params@.skip(i as int + 1));
        }
        if str_eq(&params[i].key, key) {
            return Some(params[i].value.clone());
        }
        i = i + 1;
    }
    proof {
        assert(params@.skip(params@.len() as int) =~= Seq::<Param>::empty());
    }
    None
}

/// Inspects the node's declared action type, validates its required
/// parameters, and returns the action to invoke: the node's dispatch
/// decision, with all side effects left to the caller.
pub fn parse_action(n: &Node) -> (r: Result<Action, DispatchError>)
    ensures
        dispatch_spec(*n, r),
{
    proof {
        // The recognized action types are pairwise distinct literals.
        reveal_strlit("Get Diff");
        reveal_strlit("Apply Patch");
        reveal_strlit("Create Branch and Commit");
        assert("Get Diff"@.len() == 8);
        assert("Apply Patch"@.len() == 11);
        assert("Get Diff"@ != "Apply Patch"@);
        assert("Get Diff"@ != "Create Branch and Commit"@);
    }
    if str_eq(&n.action_type, "Get Diff") {
        Ok(Action::GetDiff)
    } else if str_eq(&n.action_type, "Apply Patch") {
        match get_param(&n.params, "patch") {
            Some(patch) => Ok(Action::ApplyPatch { patch }),
            None => Err(DispatchError::MissingField(String::from_str("patch"))),
        }
    } else if str_eq(&n.action_type, "Create Branch and Commit") {
        let branch_name = match get_param(&n.params, "branchName") {
            Some(b) => b,
            None => {
                return Err(DispatchError::MissingField(String::from_str("branchName")));
            },
        };
        let commit_message = match get_param(&n.params, "commitMessage") {
            Some(m) => m,
            None => {
                return Err(DispatchError::MissingField(String::from_str("commitMessage")));
            },
        };
        Ok(Action::CreateBranchAndCommit { branch_name, commit_message })
    } else {
        Ok(Action::Skip { action_type: n.action_type.clone() })
    }
}

} // verus!
