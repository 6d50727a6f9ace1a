//! What the command line says.

use vstd::prelude::*;

verus! {

/// The whole command line.
#[derive(Debug)]
pub struct Cli {
    pub command: Option<Command>,
    pub commit: CommitArgs,
    pub global: GlobalArgs,
}

/// What to do.
#[derive(Debug)]
pub enum Command {
    /// Write a commit message for the staged changes. This is the default.
    Commit(CommitArgs),
    /// Suggest a better name for the current branch.
    Branch(BranchArgs),
    /// Suggest how the commits on this branch could be squashed.
    Squash(SquashArgs),
    /// Inspect and edit the configuration.
    Config { action: ConfigAction },
}

/// What to do with the configuration.
#[derive(Debug)]
#[allow(inconsistent_fields)]
pub enum ConfigAction {
    /// Print the path of the config file that would be written.
    Path,
    /// Print one resolved setting, or every setting when no key is given.
    Get { key: Option<String> },
    /// Set one setting in the user config file.
    SetKey { key: String, value: String },
    /// Open the user config file in the editor.
    Edit,
}

/// Settings that apply to every command, including the config layer overrides.
#[derive(Debug)]
pub struct GlobalArgs {
    /// Print the result to stdout and change nothing.
    pub print: bool,
    /// Print one JSON object to stdout when the run finishes.
    pub json: bool,
    /// Print newline-delimited JSON events to stdout as they happen.
    pub json_stream: bool,
    /// Silence progress on stderr.
    pub quiet: bool,
    /// Report timings on stderr when the run finishes.
    pub timing: bool,
    /// Override the configured model.
    pub model: Option<String>,
    /// Override the configured API endpoint.
    pub endpoint: Option<String>,
    /// Override how many previous commits are shown to the model.
    pub context_commits: Option<usize>,
    /// Override how many times the model may read a withheld diff. 0 disables it.
    pub max_tool_calls: Option<u32>,
    /// Override how many messages to generate. Above 1 opens a picker.
    pub candidates: Option<usize>,
    /// Ask for conventional commit format regardless of the config.
    pub conventional: bool,
    /// Stream the model's thinking instead of collapsing it to a summary.
    pub show_thinking: bool,
}

/// What to commit, and how.
#[derive(Debug)]
pub struct CommitArgs {
    /// Edit the message before committing.
    pub review: bool,
    /// Do not ask for confirmation before committing.
    pub yes: bool,
    /// Read the diff from stdin instead of from git.
    pub stdin_diff: bool,
    /// Replace the previous commit.
    pub amend: bool,
    /// Add a Signed-off-by trailer.
    pub signoff: bool,
    /// Sign the commit with GPG.
    pub gpg_sign: bool,
    /// Skip the pre-commit and commit-msg hooks.
    pub skip_hooks: bool,
    /// Force the conventional commit type, for example `feat`.
    pub kind: Option<String>,
    /// Force the conventional commit scope.
    pub scope: Option<String>,
    /// Issue to reference in the message.
    pub issue: Option<String>,
}

/// How to name the branch.
#[derive(Debug)]
pub struct BranchArgs {
    /// Rename the local branch to the chosen suggestion.
    pub rename: bool,
    /// Compare against this ref instead of the default branch.
    pub onto: Option<String>,
}

/// How to squash the branch.
#[derive(Debug)]
pub struct SquashArgs {
    /// Compare against this ref instead of the default branch.
    pub onto: Option<String>,
}

impl Default for GlobalArgs {
    /// No flag given.
    fn default() -> (r: Self)
        ensures
            r == (GlobalArgs {
                print: false,
                json: false,
                json_stream: false,
                quiet: false,
                timing: false,
                model: None,
                endpoint: None,
                context_commits: None,
                max_tool_calls: None,
                candidates: None,
                conventional: false,
                show_thinking: false,
            }),
    {
        GlobalArgs {
            print: false,
            json: false,
            json_stream: false,
            quiet: false,
            timing: false,
            model: None,
            endpoint: None,
            context_commits: None,
            max_tool_calls: None,
            candidates: None,
            conventional: false,
            show_thinking: false,
        }
    }
}

impl Default for CommitArgs {
    /// No flag given.
    fn default() -> (r: Self)
        ensures
            r == (CommitArgs {
                review: false,
                yes: false,
                stdin_diff: false,
                amend: false,
                signoff: false,
                gpg_sign: false,
                skip_hooks: false,
                kind: None,
                scope: None,
                issue: None,
            }),
    {
        CommitArgs {
            review: false,
            yes: false,
            stdin_diff: false,
            amend: false,
            signoff: false,
            gpg_sign: false,
            skip_hooks: false,
            kind: None,
            scope: None,
            issue: None,
        }
    }
}

impl Default for BranchArgs {
    /// No flag given.
    fn default() -> (r: Self)
        ensures
            r == (BranchArgs { rename: false, onto: None }),
    {
        BranchArgs { rename: false, onto: None }
    }
}

impl Default for SquashArgs {
    /// No flag given.
    fn default() -> (r: Self)
        ensures
            r == (SquashArgs { onto: None }),
    {
        SquashArgs { onto: None }
    }
}

} // verus!
