//! What can end a run.

use crate::config;
use crate::config::ConfigError;
use crate::git;
use crate::git::GitError;
use crate::model;
use crate::model::ModelError;
use crate::text;
use vstd::prelude::*;

verus! {

/// What can end a run.
#[derive(Debug)]
pub enum Error {
    Git(GitError),
    Config(ConfigError),
    Model(ModelError),
    /// Something could not be read or written, for the reason given.
    Io(String),
    Aborted,
    DetachedHead,
    OnDefaultBranch(String),
    NoCommitsOnBranch(String, String),
    NoUsableName,
    NothingToSquash(usize),
    NoEditor,
}

/// The stable identifier a caller matches on.
pub open spec fn error_code(error: Error) -> Seq<char> {
    match error {
        Error::Git(GitError::NotARepository) => "not_a_repository"@,
        Error::Git(GitError::NothingStaged) => "no_staged_changes"@,
        Error::Git(_) => "git_failed"@,
        Error::Config(ConfigError::NoApiKey) => "no_api_key"@,
        Error::Config(_) => "bad_config"@,
        Error::Model(_) => "model_error"@,
        Error::Io(_) => "io_error"@,
        Error::Aborted => "aborted"@,
        Error::DetachedHead => "detached_head"@,
        Error::OnDefaultBranch(_) => "on_default_branch"@,
        Error::NoCommitsOnBranch(_, _) => "no_commits_on_branch"@,
        Error::NoUsableName => "no_usable_name"@,
        Error::NothingToSquash(_) => "nothing_to_squash"@,
        Error::NoEditor => "no_editor"@,
    }
}

/// The exit code of a run that ends with an error.
pub open spec fn error_exit(error: Error) -> u8 {
    match error {
        Error::Git(GitError::NothingStaged) => 2,
        Error::Git(GitError::NotARepository) => 3,
        Error::Config(ConfigError::NoApiKey) => 4,
        Error::Model(_) => 5,
        Error::Aborted => 130,
        _ => 1,
    }
}

/// What the error is, in words.
pub open spec fn error_text(error: Error) -> Seq<char> {
    match error {
        Error::Git(error) => git::git_error_text(error),
        Error::Config(error) => config::config_error_text(error),
        Error::Model(error) => model::model_error_text(error),
        Error::Io(why) => why@,
        Error::Aborted => "aborted"@,
        Error::DetachedHead => "HEAD is detached, so there is no branch to name"@,
        Error::OnDefaultBranch(branch) => branch@
            + " is the default branch, so there is nothing to rename"@,
        Error::NoCommitsOnBranch(branch, onto) => branch@ + " has no commits that "@ + onto@
            + " does not already have"@,
        Error::NoUsableName => "every suggested name is already taken"@,
        Error::NothingToSquash(commits) => "this branch has "@ + text::decimal(commits as nat)
            + " commits that the base does not, so there is nothing to squash"@,
        Error::NoEditor => "$EDITOR is not set"@,
    }
}

impl Error {
    /// The stable identifier a caller matches on. It is the same string in the
    /// JSON error event and in the exit code table.
    pub fn code(&self) -> (r: &'static str)
        ensures
            r@ == error_code(*self),
    {
        match self {
            Error::Git(GitError::NotARepository) => "not_a_repository",
            Error::Git(GitError::NothingStaged) => "no_staged_changes",
            Error::Git(_) => "git_failed",
            Error::Config(ConfigError::NoApiKey) => "no_api_key",
            Error::Config(_) => "bad_config",
            Error::Model(_) => "model_error",
            Error::Io(_) => "io_error",
            Error::Aborted => "aborted",
            Error::DetachedHead => "detached_head",
            Error::OnDefaultBranch(_) => "on_default_branch",
            Error::NoCommitsOnBranch(_, _) => "no_commits_on_branch",
            Error::NoUsableName => "no_usable_name",
            Error::NothingToSquash(_) => "nothing_to_squash",
            Error::NoEditor => "no_editor",
        }
    }

    /// The exit code of a run that ends with the error.
    pub fn exit_code(&self) -> (r: u8)
        ensures
            r == error_exit(*self),
    {
        match self {
            Error::Git(GitError::NothingStaged) => 2,
            Error::Git(GitError::NotARepository) => 3,
            Error::Config(ConfigError::NoApiKey) => 4,
            Error::Model(_) => 5,
            Error::Aborted => 130,
            _ => 1,
        }
    }

    /// What the error is, in words.
    pub fn message(&self) -> (r: String)
        ensures
            r@ == error_text(*self),
    {
        match self {
            Error::Git(error) => error.message(),
            Error::Config(error) => error.message(),
            Error::Model(error) => error.message(),
            Error::Io(why) => why.clone(),
            Error::Aborted => "aborted".to_owned(),
            Error::DetachedHead => "HEAD is detached, so there is no branch to name".to_owned(),
            Error::OnDefaultBranch(branch) => {
                let mut out = branch.clone();
                out.append(" is the default branch, so there is nothing to rename");
                out
            },
            Error::NoCommitsOnBranch(branch, onto) => {
                let mut out = branch.clone();
                out.append(" has no commits that ");
                out.append(onto.as_str());
                out.append(" does not already have");
                out
            },
            Error::NoUsableName => "every suggested name is already taken".to_owned(),
            Error::NothingToSquash(commits) => {
                let mut out = "this branch has ".to_owned();
                out.append(text::number(*commits as u128).as_str());
                out.append(" commits that the base does not, so there is nothing to squash");
                out
            },
            Error::NoEditor => "$EDITOR is not set".to_owned(),
        }
    }
}

/// The editor that is named first, unless its name is blank.
pub open spec fn preferred_editor(visual: Option<String>, fallback: Option<String>) -> Option<String> {
    let named = if visual is Some {
        visual
    } else {
        fallback
    };
    match named {
        Some(name) if !text::blank(name@) => named,
        _ => None,
    }
}

/// The editor the user prefers, if they have said. `VISUAL` wins over
/// `EDITOR` because that is the order every other tool uses.
pub fn editor(visual: Option<String>, fallback: Option<String>) -> (r: Option<String>)
    ensures
        r == match visual {
            Some(name) => if text::blank(name@) {
                None
            } else {
                visual
            },
            None => match fallback {
                Some(name) => if text::blank(name@) {
                    None
                } else {
                    fallback
                },
                None => None,
            },
        },
        r == preferred_editor(visual, fallback),
{
    let preferred = match visual {
        Some(name) => Some(name),
        None => fallback,
    };
    match preferred {
        Some(name) => if text::is_blank(name.as_str()) {
            None
        } else {
            Some(name)
        },
        None => None,
    }
}

/// A run that ends with an error never exits as if it had succeeded, and the codes
/// that a caller tells apart are told apart.
pub proof fn law_exit_codes_tell_errors_apart(error: Error)
    ensures
        error_exit(error) != 0,
        error_exit(error) == 2 <==> error matches Error::Git(GitError::NothingStaged),
        error_exit(error) == 3 <==> error matches Error::Git(GitError::NotARepository),
        error_exit(error) == 4 <==> error matches Error::Config(ConfigError::NoApiKey),
        error_exit(error) == 5 <==> error is Model,
        error_exit(error) == 130 <==> error is Aborted,
{
}

/// Each identifier stands for one kind of error, so a caller that matches on it knows
/// which it was.
pub proof fn law_codes_tell_errors_apart(error: Error)
    ensures
        error_code(error) == "not_a_repository"@ <==> error matches Error::Git(GitError::NotARepository),
        error_code(error) == "no_staged_changes"@ <==> error matches Error::Git(GitError::NothingStaged),
        error_code(error) == "no_api_key"@ <==> error matches Error::Config(ConfigError::NoApiKey),
        error_code(error) == "model_error"@ <==> error matches Error::Model(_),
        error_code(error) == "io_error"@ <==> error matches Error::Io(_),
        error_code(error) == "aborted"@ <==> error matches Error::Aborted,
        error_code(error) == "detached_head"@ <==> error matches Error::DetachedHead,
        error_code(error) == "on_default_branch"@ <==> error matches Error::OnDefaultBranch(_),
        error_code(error) == "no_commits_on_branch"@ <==> error matches Error::NoCommitsOnBranch(_, _),
        error_code(error) == "no_usable_name"@ <==> error matches Error::NoUsableName,
        error_code(error) == "nothing_to_squash"@ <==> error matches Error::NothingToSquash(_),
        error_code(error) == "no_editor"@ <==> error matches Error::NoEditor,
        error_code(error) == "git_failed"@ <==> (error matches Error::Git(cause) && !(cause is NotARepository)
            && !(cause is NothingStaged)),
        error_code(error) == "bad_config"@ <==> (error matches Error::Config(cause) && !(cause is NoApiKey)),
{
    reveal_strlit("not_a_repository");
    reveal_strlit("no_staged_changes");
    reveal_strlit("no_api_key");
    reveal_strlit("model_error");
    reveal_strlit("io_error");
    reveal_strlit("aborted");
    reveal_strlit("detached_head");
    reveal_strlit("on_default_branch");
    reveal_strlit("no_commits_on_branch");
    reveal_strlit("no_usable_name");
    reveal_strlit("nothing_to_squash");
    reveal_strlit("no_editor");
    reveal_strlit("git_failed");
    reveal_strlit("bad_config");
    assert("not_a_repository"@.len() == 16 && "no_staged_changes"@.len() == 17 && "no_api_key"@.len() == 10 && "model_error"@.len() == 11 && "io_error"@.len() == 8 && "aborted"@.len() == 7 && "detached_head"@.len() == 13 && "on_default_branch"@.len() == 17 && "no_commits_on_branch"@.len() == 20 && "no_usable_name"@.len() == 14 && "nothing_to_squash"@.len() == 17 && "no_editor"@.len() == 9 && "git_failed"@.len() == 10 && "bad_config"@.len() == 10);
    assert("no_api_key"@[0] == 'n' && "git_failed"@[0] == 'g' && "bad_config"@[0] == 'b');
    assert("no_staged_changes"@[0] == 'n' && "no_staged_changes"@[2] == '_' && "on_default_branch"@[0] == 'o' && "on_default_branch"@[2] == '_' && "nothing_to_squash"@[0] == 'n' && "nothing_to_squash"@[2] == 't');
}

/// What an error says names what it is about, and an error of one part of the run says what
/// that part says.
pub proof fn law_errors_name_what_they_are_about(error: Error)
    ensures
        error matches Error::Git(cause) ==> error_text(error) == git::git_error_text(cause),
        error matches Error::Config(cause) ==> error_text(error) == config::config_error_text(
            cause,
        ),
        error matches Error::Model(cause) ==> error_text(error) == model::model_error_text(cause),
        error matches Error::Io(why) ==> error_text(error) == why@,
        error matches Error::OnDefaultBranch(branch) ==> text::starts_with(
            error_text(error),
            branch@ + " is the default branch"@,
        ),
        error matches Error::NoCommitsOnBranch(branch, onto) ==> text::starts_with(
            error_text(error),
            branch@ + " has no commits that "@ + onto@,
        ),
        error matches Error::NothingToSquash(commits) ==> text::starts_with(
            error_text(error),
            "this branch has "@ + text::decimal(commits as nat) + " commits"@,
        ),
{
    let t = error_text(error);
    match error {
        Error::OnDefaultBranch(branch) => {
            reveal_strlit(" is the default branch");
            reveal_strlit(" is the default branch, so there is nothing to rename");
            let start = branch@ + " is the default branch"@;
            assert(t.take(start.len() as int) =~= start);
        },
        Error::NoCommitsOnBranch(branch, onto) => {
            let start = branch@ + " has no commits that "@ + onto@;
            assert(t.take(start.len() as int) =~= start);
        },
        Error::NothingToSquash(commits) => {
            reveal_strlit(" commits");
            reveal_strlit(" commits that the base does not, so there is nothing to squash");
            let start = "this branch has "@ + text::decimal(commits as nat) + " commits"@;
            assert(t.take(start.len() as int) =~= start);
        },
        _ => {},
    }
}

/// The first variable that is set names the editor, and the second counts only where the
/// first is not set; a blank name is none.
pub proof fn law_first_editor_counts(visual: Option<String>, fallback: Option<String>)
    ensures
        visual matches Some(name) ==> (if text::all_white(name@) {
            preferred_editor(visual, fallback) is None
        } else {
            preferred_editor(visual, fallback) == visual
        }),
        visual is None ==> preferred_editor(visual, fallback) == preferred_editor(fallback, None),
        preferred_editor(None, None) is None,
{
    if let Some(name) = visual {
        text::law_trim_takes_white_space_off_the_ends(name@);
    }
}

/// What ends a run without a value to name is said in one sentence, and no two of them say
/// the same.
pub proof fn law_plain_errors_are_said(error: Error)
    ensures
        error is Aborted ==> error_text(error) == "aborted"@,
        error is DetachedHead ==> text::starts_with(error_text(error), "HEAD is detached"@),
        error is NoUsableName ==> error_text(error) == "every suggested name is already taken"@,
        error is NoEditor ==> text::starts_with(error_text(error), "$EDITOR is not set"@),
        error matches Error::NoCommitsOnBranch(branch, onto) ==> error_text(error) == branch@
            + " has no commits that "@ + onto@ + " does not already have"@,
        error matches Error::NothingToSquash(commits) ==> text::has_end(
            error_text(error),
            " commits that the base does not, so there is nothing to squash"@,
        ),
        error matches Error::OnDefaultBranch(branch) ==> error_text(error) == branch@
            + " is the default branch, so there is nothing to rename"@,
{
    let t = error_text(error);
    if error is DetachedHead {
        reveal_strlit("HEAD is detached");
        reveal_strlit("HEAD is detached, so there is no branch to name");
        assert(t.take(16) =~= "HEAD is detached"@);
    }
    if error is NoEditor {
        assert(t.take("$EDITOR is not set"@.len() as int) =~= "$EDITOR is not set"@);
    }
    if let Error::NothingToSquash(commits) = error {
        let end = " commits that the base does not, so there is nothing to squash"@;
        assert(t.skip(t.len() - end.len()) =~= end);
    }
}

} // verus!
