//! The branch that a folder is on.

use orchestrator_core::git::{
    clone_args, clone_outcome, current_branch, current_branch_args, CommandOutput, Fetch,
    FetchEvent, FetchStep, GitError,
};

fn said(stdout: &str) -> CommandOutput {
    CommandOutput {
        success: true,
        exit_code: Some(0),
        stdout: stdout.to_string(),
        stderr: String::new(),
    }
}

fn complained(stderr: &str) -> CommandOutput {
    CommandOutput {
        success: false,
        exit_code: Some(128),
        stdout: String::new(),
        stderr: stderr.to_string(),
    }
}

#[test]
fn reports_the_real_current_branch_name() {
    assert_eq!(current_branch("/repo", &said("main\n")).unwrap(), "main");
}

#[test]
fn does_not_hardcode_an_assumed_default_branch_name() {
    assert_eq!(current_branch("/repo", &said("trunk\n")).unwrap(), "trunk");
}

#[test]
fn tracks_a_real_branch_switch() {
    assert_eq!(
        current_branch("/repo", &said("feature/new-invoicing\n")).unwrap(),
        "feature/new-invoicing"
    );
}

#[test]
fn rejects_a_directory_that_is_not_a_git_repo_at_all() {
    let output =
        complained("fatal: not a git repository (or any of the parent directories): .git\n");
    let err = current_branch("/tmp/x", &output).unwrap_err();
    assert!(matches!(err, GitError::NotARepo(_)));
    assert_eq!(err.message(), "\"/tmp/x\" is not inside a git working directory");
}

#[test]
fn rejects_a_repo_with_no_commits_yet() {
    let output = complained(
        "fatal: ambiguous argument 'HEAD': unknown revision or path not in the working tree.\n",
    );
    let err = current_branch("/repo", &output).unwrap_err();
    assert!(matches!(err, GitError::NoCommitsYet(_)));
    assert_eq!(err.message(), "\"/repo\" has no commits yet, so it has no resolvable branch");
}

#[test]
fn rejects_a_detached_head() {
    let err = current_branch("/repo", &said("HEAD\n")).unwrap_err();
    assert!(matches!(err, GitError::DetachedHead(_)));
    assert_eq!(err.message(), "\"/repo\" is on a detached HEAD, not a named branch");
}

#[test]
fn another_complaint_is_passed_on() {
    let err = current_branch("/repo", &complained("  fatal: odd\n")).unwrap_err();
    assert_eq!(err.message(), "git exited with Some(128): fatal: odd");
    assert_eq!(GitError::Spawn("gone".to_string()).message(), "couldn't run git: gone");
}

/// A path is shown with its quotes and special characters escaped.
#[test]
fn a_path_is_shown_quoted() {
    assert_eq!(
        GitError::NotARepo("/a \"b\"\n".to_string()).message(),
        "\"/a \\\"b\\\"\\n\" is not inside a git working directory"
    );
}

#[test]
fn git_is_run_in_the_folder() {
    assert_eq!(
        current_branch_args("/repo"),
        vec!["-C", "/repo", "rev-parse", "--abbrev-ref", "HEAD"]
    );
    assert_eq!(
        clone_args("https://example.com/a.git", "/dest"),
        vec!["clone", "--depth", "1", "https://example.com/a.git", "/dest"]
    );
    assert!(clone_outcome(&said("")).is_ok());
    assert_eq!(
        clone_outcome(&complained("no such repository\n")).unwrap_err().message(),
        "git exited with Some(128): no such repository"
    );
}

/// Does every step of a fetch, and lists them; `git` ends as given.
fn steps(mut fetch: Fetch, git: FetchEvent) -> Vec<FetchStep> {
    let mut out = vec![];
    loop {
        out.push(fetch.step);
        match fetch.step {
            FetchStep::Finished { .. } => return out,
            FetchStep::Run => fetch.on_event(git),
            _ => fetch.on_event(FetchEvent::Done),
        }
    }
}

#[test]
fn a_repository_that_is_there_is_left_alone() {
    assert_eq!(
        steps(Fetch::new(true, true), FetchEvent::Failed),
        vec![FetchStep::Finished { complete: true }]
    );
}

#[test]
fn a_fetch_is_complete_when_git_succeeded() {
    assert_eq!(
        steps(Fetch::new(false, true), FetchEvent::Done),
        vec![
            FetchStep::MakeParent,
            FetchStep::Clear,
            FetchStep::Run,
            FetchStep::Finished { complete: true }
        ]
    );
    assert_eq!(
        steps(Fetch::new(false, false), FetchEvent::Impossible),
        vec![FetchStep::MakeParent, FetchStep::Run, FetchStep::Finished { complete: false }]
    );
}

#[test]
fn a_half_fetch_is_discarded() {
    assert_eq!(
        steps(Fetch::new(false, false), FetchEvent::Failed),
        vec![
            FetchStep::MakeParent,
            FetchStep::Run,
            FetchStep::Discard,
            FetchStep::Finished { complete: false }
        ]
    );
    let mut fetch = Fetch::new(false, false);
    fetch.on_event(FetchEvent::Impossible);
    assert_eq!(fetch.step, FetchStep::Finished { complete: false });
}
