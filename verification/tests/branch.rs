//! Naming a branch, squashing one, and what can go wrong.

use auto_commit::branch;
use auto_commit::branch::{
    branch_to_name, labels, listing, plan, pushed_note, usable, Suggestion,
};
use auto_commit::cli::{BranchArgs, GlobalArgs};
use auto_commit::config::ConfigError;
use auto_commit::error::{editor, Error};
use auto_commit::git::GitError;
use auto_commit::model::ModelError;
use auto_commit::squash;
use auto_commit::squash::{render, Group};

fn strings(list: &[&str]) -> Vec<String> {
    list.iter().map(|text| (*text).to_owned()).collect()
}

fn suggestions(list: &[(&str, &str)]) -> Vec<Suggestion> {
    list.iter()
        .map(|(name, reason)| Suggestion {
            name: (*name).to_owned(),
            reason: (*reason).to_owned(),
        })
        .collect()
}

fn group(commits: &[&str], subject: &str, body: &str) -> Group {
    Group {
        commits: strings(commits),
        subject: subject.to_owned(),
        body: body.to_owned(),
    }
}

#[test]
fn the_default_branch_is_not_renamed() {
    assert!(matches!(branch_to_name(None, "main"), Err(Error::DetachedHead)));
    assert!(matches!(
        branch_to_name(Some("main".to_owned()), "origin/main"),
        Err(Error::OnDefaultBranch(name)) if name == "main"
    ));
    assert!(matches!(
        branch_to_name(Some("main".to_owned()), "origin/origin/main"),
        Err(Error::OnDefaultBranch(_))
    ));
    assert_eq!(branch_to_name(Some("fix".to_owned()), "origin/main").unwrap(), "fix");
    assert!(branch::require_commits(&strings(&["a"]), "fix", "main").is_ok());
    assert!(matches!(
        branch::require_commits(&Vec::new(), "fix", "main"),
        Err(Error::NoCommitsOnBranch(name, onto)) if name == "fix" && onto == "main"
    ));
}

#[test]
fn the_branch_is_described() {
    assert_eq!(
        branch::prompt("c", "o", "s", &strings(&["1", "2"]), &strings(&["x", "y"])),
        "# Branch names already in this repository\n\nx\ny\n\n# The current name\n\nc\n\n\
         # Commits on this branch, against o\n\n1\n2\n\n# What the branch changes\n\ns"
    );
    assert!(branch::instructions().starts_with("You name git branches. "));
    assert!(branch::instructions().ends_with("naming the convention it follows."));
}

#[test]
fn names_that_exist_are_dropped() {
    let list = suggestions(&[("a", "x"), ("b", "y"), ("c", "z")]);
    let kept = usable(&list, &vec![true, false, false]).unwrap();
    assert_eq!(listing(&kept), strings(&["b  y", "c  z"]));
    assert_eq!(labels(&kept), strings(&["b  (y)", "c  (z)"]));
    assert!(matches!(usable(&list, &vec![true, true, true]), Err(Error::NoUsableName)));
    assert!(matches!(usable(&Vec::new(), &Vec::new()), Err(Error::NoUsableName)));
}

#[test]
fn suggestions_are_listed_or_used() {
    let list = BranchArgs { rename: false, onto: None };
    let rename = BranchArgs { rename: true, onto: None };
    let print = GlobalArgs { print: true, ..GlobalArgs::default() };
    let listed = plan(3, &list, &GlobalArgs::default(), true);
    assert!(listed.list && !listed.rename && !listed.ask);
    let renamed = plan(3, &rename, &GlobalArgs::default(), true);
    assert!(!renamed.list && renamed.rename && renamed.ask);
    assert!(!plan(1, &rename, &GlobalArgs::default(), true).ask);
    assert!(!plan(3, &rename, &GlobalArgs::default(), false).ask);
    assert!(plan(3, &rename, &print, true).list);
    let printed = plan(3, &rename, &print, true);
    assert!(!printed.rename && !printed.ask);
}

#[test]
fn a_pushed_branch_gets_the_commands() {
    assert_eq!(
        pushed_note("old", "fork/old", "new"),
        "\nold was pushed to fork/old. To move it there as well:\n  git push -u fork new\n  \
         git push fork --delete old\n"
    );
    assert!(pushed_note("old", "odd", "new").contains("git push -u origin new"));
}

#[test]
fn a_plan_is_rendered_with_its_command() {
    let groups = vec![
        group(&["1 a", "2 b"], "first", " why\nso "),
        group(&[], "second", " "),
    ];
    assert_eq!(
        render(&groups, "base", 5),
        "5 commits would become 2.\n\n1. first\n     1 a\n     2 b\n\n   why\n   so\n\n\
         2. second\n\nTo apply:\n  git rebase -i base\n"
    );
    assert_eq!(
        render(&vec![group(&["1"], "say \"hi\"", "")], "base", 2),
        "2 commits would become 1.\n\n1. say \"hi\"\n     1\n\nTo apply:\n  \
         git reset --soft base\n  git commit -m \"say \\\"hi\\\"\"\n"
    );
    assert!(render(&Vec::new(), "base", 2).ends_with("git rebase -i base\n"));
}

#[test]
fn two_commits_can_be_squashed() {
    assert!(squash::require_commits(&strings(&["a", "b"])).is_ok());
    assert!(matches!(
        squash::require_commits(&strings(&["a"])),
        Err(Error::NothingToSquash(1))
    ));
    assert_eq!(
        squash::prompt("o", &strings(&["1", "2"]), "s"),
        "# Commits on this branch, against o, oldest last\n\n1\n2\n\n\
         # What the branch changes overall\n\ns"
    );
    assert!(squash::instructions().starts_with("You group a branch's commits"));
}

#[test]
fn errors_have_codes_and_words() {
    let cases = vec![
        (Error::Git(GitError::NothingStaged), "no_staged_changes", 2),
        (Error::Git(GitError::NotARepository), "not_a_repository", 3),
        (Error::Git(GitError::Spawn("x".to_owned())), "git_failed", 1),
        (Error::Config(ConfigError::NoApiKey), "no_api_key", 4),
        (Error::Config(ConfigError::UnknownKey("k".to_owned())), "bad_config", 1),
        (Error::Model(ModelError::Empty), "model_error", 5),
        (Error::Io("x".to_owned()), "io_error", 1),
        (Error::Aborted, "aborted", 130),
        (Error::DetachedHead, "detached_head", 1),
        (Error::OnDefaultBranch("b".to_owned()), "on_default_branch", 1),
        (
            Error::NoCommitsOnBranch("b".to_owned(), "o".to_owned()),
            "no_commits_on_branch",
            1,
        ),
        (Error::NoUsableName, "no_usable_name", 1),
        (Error::NothingToSquash(1), "nothing_to_squash", 1),
        (Error::NoEditor, "no_editor", 1),
    ];
    for (error, code, exit) in &cases {
        assert_eq!(error.code(), *code);
        assert_eq!(error.exit_code(), *exit);
    }
    let words: Vec<String> = cases.iter().map(|(error, _, _)| error.message()).collect();
    assert_eq!(words[4], "no such setting: k");
    assert_eq!(words[5], "the model returned nothing");
    assert_eq!(words[6], "x");
    assert_eq!(words[7], "aborted");
    assert_eq!(words[8], "HEAD is detached, so there is no branch to name");
    assert_eq!(words[9], "b is the default branch, so there is nothing to rename");
    assert_eq!(words[10], "b has no commits that o does not already have");
    assert_eq!(words[11], "every suggested name is already taken");
    assert_eq!(
        words[12],
        "this branch has 1 commits that the base does not, so there is nothing to squash"
    );
    assert_eq!(words[13], "$EDITOR is not set");
}

#[test]
fn the_visual_editor_wins() {
    let name = |text: &str| Some(text.to_owned());
    assert_eq!(editor(name("vi"), name("ed")), name("vi"));
    assert_eq!(editor(None, name("ed")), name("ed"));
    assert_eq!(editor(name(" "), name("ed")), None);
    assert_eq!(editor(None, None), None);
}
