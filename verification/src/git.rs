//! What `git` says about the branch of a folder.

use crate::odoo;
use crate::text;
use vstd::prelude::*;
use vstd::string::*;

verus! {

/// What a run of a command left.
#[derive(Debug)]
pub struct CommandOutput {
    pub success: bool,
    pub exit_code: Option<i32>,
    pub stdout: String,
    pub stderr: String,
}

/// Why a folder has no branch.
#[derive(Debug)]
pub enum GitError {
    NotARepo(String),
    DetachedHead(String),
    NoCommitsYet(String),
    Spawn(String),
    CommandFailed { exit_code: Option<i32>, stderr: String },
}

/// What is shown of an error.
pub open spec fn git_error_text(e: GitError) -> Seq<char> {
    match e {
        GitError::NotARepo(path) => text::quoted_debug(path@)
            + " is not inside a git working directory"@,
        GitError::DetachedHead(path) => text::quoted_debug(path@)
            + " is on a detached HEAD, not a named branch"@,
        GitError::NoCommitsYet(path) => text::quoted_debug(path@)
            + " has no commits yet, so it has no resolvable branch"@,
        GitError::Spawn(source) => "couldn't run git: "@ + source@,
        GitError::CommandFailed { exit_code, stderr } => "git exited with "@
            + odoo::exit_code_text(exit_code) + ": "@ + stderr@,
    }
}

impl GitError {
    /// What is shown of the error.
    pub fn message(&self) -> (r: String)
        ensures
            r@ == git_error_text(*self),
    {
        match self {
            GitError::NotARepo(path) => text::joined(
                text::debug_quoted(path.as_str()).as_str(),
                " is not inside a git working directory",
            ),
            GitError::DetachedHead(path) => text::joined(
                text::debug_quoted(path.as_str()).as_str(),
                " is on a detached HEAD, not a named branch",
            ),
            GitError::NoCommitsYet(path) => text::joined(
                text::debug_quoted(path.as_str()).as_str(),
                " has no commits yet, so it has no resolvable branch",
            ),
            GitError::Spawn(source) => text::joined("couldn't run git: ", source.as_str()),
            GitError::CommandFailed { exit_code, stderr } => {
                let mut out = text::joined("git exited with ", odoo::show_exit_code(*exit_code).as_str());
                out.append(": ");
                out.append(stderr.as_str());
                out
            },
        }
    }
}

/// What `git` is run with to learn the branch of a folder.
pub fn current_branch_args(repo_path: &str) -> (r: Vec<String>)
    ensures
        text::views(r@) == seq!["-C"@, repo_path@, "rev-parse"@, "--abbrev-ref"@, "HEAD"@],
{
    let mut out: Vec<String> = Vec::new();
    out.push("-C".to_owned());
    out.push(repo_path.to_owned());
    out.push("rev-parse".to_owned());
    out.push("--abbrev-ref".to_owned());
    out.push("HEAD".to_owned());
    assert(text::views(out@) =~= seq![
        "-C"@,
        repo_path@,
        "rev-parse"@,
        "--abbrev-ref"@,
        "HEAD"@,
    ]);
    out
}

/// What comes of asking for the branch of a folder.
pub open spec fn is_branch_answer(
    repo_path: Seq<char>,
    output: CommandOutput,
    r: Result<String, GitError>,
) -> bool {
    let said = text::trimmed(output.stdout@);
    let complaint = text::trimmed(output.stderr@);
    if !output.success {
        if text::has_part(complaint, "not a git repository"@) {
            r matches Err(GitError::NotARepo(p)) && p@ == repo_path
        } else if text::has_part(complaint, "ambiguous argument 'HEAD'"@) {
            r matches Err(GitError::NoCommitsYet(p)) && p@ == repo_path
        } else {
            r matches Err(GitError::CommandFailed { exit_code, stderr }) && exit_code
                == output.exit_code && stderr@ == complaint
        }
    } else if said == "HEAD"@ {
        r matches Err(GitError::DetachedHead(p)) && p@ == repo_path
    } else {
        r matches Ok(branch) && branch@ == said
    }
}

/// The branch that `git` named; or why there is none: no repository, no commit yet, or a
/// detached head.
pub fn current_branch(repo_path: &str, output: &CommandOutput) -> (r: Result<String, GitError>)
    ensures
        is_branch_answer(repo_path@, *output, r),
{
    let stdout = text::trim(output.stdout.as_str());
    if !output.success {
        let stderr = text::trim(output.stderr.as_str());
        if text::contains_part(stderr.as_str(), "not a git repository") {
            return Err(GitError::NotARepo(repo_path.to_owned()));
        }
        if text::contains_part(stderr.as_str(), "ambiguous argument 'HEAD'") {
            return Err(GitError::NoCommitsYet(repo_path.to_owned()));
        }
        return Err(GitError::CommandFailed { exit_code: output.exit_code, stderr });
    }
    if text::same_text(stdout.as_str(), "HEAD") {
        return Err(GitError::DetachedHead(repo_path.to_owned()));
    }
    Ok(stdout)
}

// --- fetching -------------------------------------------------------------

/// What `git` is run with to fetch a repository without its history.
pub fn clone_args(url: &str, dest: &str) -> (r: Vec<String>)
    ensures
        text::views(r@) == seq!["clone"@, "--depth"@, "1"@, url@, dest@],
{
    let mut out: Vec<String> = Vec::new();
    out.push("clone".to_owned());
    out.push("--depth".to_owned());
    out.push("1".to_owned());
    out.push(url.to_owned());
    out.push(dest.to_owned());
    assert(text::views(out@) =~= seq!["clone"@, "--depth"@, "1"@, url@, dest@]);
    out
}

/// Whether a repository was fetched; if not, what `git` complained.
pub fn clone_outcome(output: &CommandOutput) -> (r: Result<(), GitError>)
    ensures
        match r {
            Ok(_) => output.success,
            Err(e) => {
                &&& !output.success
                &&& e matches GitError::CommandFailed { exit_code, stderr }
                &&& exit_code == output.exit_code
                &&& stderr@ == text::trimmed(output.stderr@)
            },
        },
{
    if output.success {
        Ok(())
    } else {
        Err(
            GitError::CommandFailed {
                exit_code: output.exit_code,
                stderr: text::trim(output.stderr.as_str()),
            },
        )
    }
}

/// What to do next to fetch a repository to a folder.
#[derive(Debug, Clone, Copy, PartialEq, Eq, Structural)]
pub enum FetchStep {
    /// Make the folder above it.
    MakeParent,
    /// Remove what an earlier attempt left. That it fails does not matter.
    Clear,
    /// Run `git`.
    Run,
    /// Remove what was fetched by halves. That it fails does not matter.
    Discard,
    /// The fetch is over; `complete` says whether the repository is there.
    Finished { complete: bool },
}

/// How a step of a fetch went.
#[derive(Debug, Clone, Copy, PartialEq, Eq, Structural)]
pub enum FetchEvent {
    /// It was done.
    Done,
    /// It could not be done: the folder could not be made, or `git` not be started.
    Impossible,
    /// `git` ended with an error.
    Failed,
}

/// A fetch of a repository. `clears` says whether what an earlier attempt left is removed first.
#[derive(Debug, Clone, Copy, PartialEq, Eq, Structural)]
pub struct Fetch {
    pub clears: bool,
    pub step: FetchStep,
}

/// What comes after a step.
pub open spec fn step_after(f: Fetch, event: FetchEvent) -> FetchStep {
    match f.step {
        FetchStep::MakeParent => if event is Impossible {
            FetchStep::Finished { complete: false }
        } else if f.clears {
            FetchStep::Clear
        } else {
            FetchStep::Run
        },
        FetchStep::Clear => FetchStep::Run,
        FetchStep::Run => match event {
            FetchEvent::Done => FetchStep::Finished { complete: true },
            FetchEvent::Failed => FetchStep::Discard,
            FetchEvent::Impossible => FetchStep::Finished { complete: false },
        },
        FetchStep::Discard => FetchStep::Finished { complete: false },
        FetchStep::Finished { complete } => FetchStep::Finished { complete },
    }
}

impl Fetch {
    /// A fetch that has not begun. Where the repository is there, nothing is to be done.
    pub fn new(there: bool, clears: bool) -> (r: Self)
        ensures
            r.clears == clears,
            r.step == (if there {
                FetchStep::Finished { complete: true }
            } else {
                FetchStep::MakeParent
            }),
    {
        let step = if there {
            FetchStep::Finished { complete: true }
        } else {
            FetchStep::MakeParent
        };
        Fetch { clears, step }
    }

    /// A step was tried.
    pub fn on_event(&mut self, event: FetchEvent)
        ensures
            *final(self) == (Fetch { clears: old(self).clears, step: step_after(*old(self), event) }),
    {
        self.step = match self.step {
            FetchStep::MakeParent => match event {
                FetchEvent::Impossible => FetchStep::Finished { complete: false },
                _ => {
                    if self.clears {
                        FetchStep::Clear
                    } else {
                        FetchStep::Run
                    }
                },
            },
            FetchStep::Clear => FetchStep::Run,
            FetchStep::Run => match event {
                FetchEvent::Done => FetchStep::Finished { complete: true },
                FetchEvent::Failed => FetchStep::Discard,
                FetchEvent::Impossible => FetchStep::Finished { complete: false },
            },
            FetchStep::Discard => FetchStep::Finished { complete: false },
            FetchStep::Finished { complete } => FetchStep::Finished { complete },
        };
    }
}

/// Where a fetch comes to after some events.
pub open spec fn fetched(f: Fetch, events: Seq<FetchEvent>) -> Fetch
    decreases events.len(),
{
    if events.len() == 0 {
        f
    } else {
        let before = fetched(f, events.drop_last());
        Fetch { clears: before.clears, step: step_after(before, events.last()) }
    }
}

/// A fetch is complete only once `git` succeeded: after any events, one that began without the
/// repository and is complete had `git` end well.
pub proof fn law_a_fetch_is_complete_when_git_succeeded(f: Fetch, events: Seq<FetchEvent>)
    requires
        f.step is MakeParent,
        fetched(f, events).step == (FetchStep::Finished { complete: true }),
    ensures
        exists|i: int|
            0 <= i < events.len() && #[trigger] events[i] is Done && fetched(
                f,
                events.take(i),
            ).step is Run,
    decreases events.len(),
{
    assert(events.len() > 0);
    let before = fetched(f, events.drop_last());
    assert(events.drop_last() =~= events.take(events.len() - 1));
    if before.step is Run {
        assert(events[events.len() - 1] is Done);
    } else {
        law_a_fetch_is_complete_when_git_succeeded(f, events.drop_last());
        let i = choose|i: int|
            0 <= i < events.len() - 1 && #[trigger] events.drop_last()[i] is Done && fetched(
                f,
                events.drop_last().take(i),
            ).step is Run;
        assert(events.drop_last().take(i) =~= events.take(i));
        assert(events[i] is Done);
    }
}

/// What was fetched by halves is not left: where `git` ended with an error, what it left is
/// removed next.
pub proof fn law_a_half_fetch_is_discarded(f: Fetch)
    requires
        f.step is Run,
    ensures
        step_after(f, FetchEvent::Failed) is Discard,
{
}

/// A branch is answered exactly where git succeeds and names one, and the answer is that name
/// without the white space round it.
pub proof fn law_a_branch_is_what_git_names(
    repo_path: Seq<char>,
    output: CommandOutput,
    r: Result<String, GitError>,
    name: Seq<char>,
    end: Seq<char>,
)
    requires
        is_branch_answer(repo_path, output, r),
        output.stdout@ == name + end,
        forall|i: int| 0 <= i < end.len() ==> text::is_white(#[trigger] end[i]),
        name.len() > 0,
        !text::is_white(name[0]),
        !text::is_white(name.last()),
    ensures
        r is Ok <==> output.success && name != "HEAD"@,
        r matches Ok(branch) ==> branch@ == name,
        output.success && name == "HEAD"@ ==> (r matches Err(GitError::DetachedHead(p)) && p@
            == repo_path),
        !output.success ==> r is Err,
        !output.success && text::has_part(text::trimmed(output.stderr@), "not a git repository"@)
            ==> (r matches Err(GitError::NotARepo(p)) && p@ == repo_path),
{
    let none = Seq::<char>::empty();
    text::law_trimming_takes_off_white_space(none, name, end);
    assert(none + name + end =~= name + end);
}

/// A fetch makes the folder above, clears what is there where that is asked for, runs, and ends:
/// complete only after a run that was done. What has ended stays as it ended.
pub proof fn law_a_fetch_goes_step_by_step(f: Fetch, event: FetchEvent)
    ensures
        f.step is MakeParent && !(event is Impossible) ==> (step_after(f, event) is Clear <==>
            f.clears) && (step_after(f, event) is Run <==> !f.clears),
        f.step is MakeParent && event is Impossible ==> step_after(f, event) == (
        FetchStep::Finished { complete: false }),
        f.step is Clear ==> step_after(f, event) is Run,
        f.step is Discard ==> step_after(f, event) == (FetchStep::Finished { complete: false }),
        f.step is Finished ==> step_after(f, event) == f.step,
        f.step is Run ==> (step_after(f, event) == (FetchStep::Finished { complete: true })
            <==> event is Done) && (step_after(f, event) is Discard <==> event is Failed),
        !(f.step is Finished) && step_after(f, event) == (FetchStep::Finished { complete: true })
            ==> f.step is Run && event is Done,
{
}

} // verus!
