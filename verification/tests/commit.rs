//! Messages, prompts and the session around them.

use auto_commit::cli::{CommitArgs, GlobalArgs};
use auto_commit::commit::{
    body_allowed, body_lines, commits_used, conclude, confirmation, context_event, context_prompt,
    decision, decisions, draft, edited, interactive, items, needs_feedback, nothing_staged, pick,
    proposal_summary, system_prompt, waits, Decision, Message, Next, Outcome, Pick, Session,
};
use auto_commit::config::Config;
use auto_commit::git::{build_diff, PastCommit};
use auto_commit::model::ChatMessage;
use auto_commit::output::{Event, Piece, Tint};
use auto_commit::picker::Choice;

fn message(subject: &str, body: &str) -> Message {
    Message { subject: subject.to_owned(), body: body.to_owned() }
}

fn past(subject: &str, body: &str) -> PastCommit {
    PastCommit { subject: subject.to_owned(), body: body.to_owned() }
}

fn spoken(pieces: &[Piece]) -> String {
    pieces.iter().map(|piece| piece.text.as_str()).collect()
}

fn session(args: &CommitArgs, global: &GlobalArgs, asks: bool) -> Session {
    Session::begin(
        "rules".to_owned(),
        "context".to_owned(),
        &Config::default(),
        args,
        global,
        asks,
    )
}

#[test]
fn a_subject_and_body_split_on_the_blank_line() {
    let message = Message::parse(
        "fix(git): read the staged diff\n\nThe old code sent\n`git diff HEAD`.\n",
    );

    assert_eq!(message.subject, "fix(git): read the staged diff");
    assert_eq!(message.body, "The old code sent\n`git diff HEAD`.");
    assert_eq!(
        message.render(),
        "fix(git): read the staged diff\n\nThe old code sent\n`git diff HEAD`."
    );
}

#[test]
fn a_subject_on_its_own_renders_without_a_trailing_blank_line() {
    let message = Message::parse("  bump the lockfile  ");

    assert_eq!(message.subject, "bump the lockfile");
    assert_eq!(message.render(), "bump the lockfile");
}

#[test]
fn a_message_reads_back_from_its_text() {
    for (subject, body) in [
        (" add a thing ", " why\n\nand how \n"),
        ("one", ""),
        ("two\nlines", "b"),
        ("", " "),
        ("\u{3000}wide\u{3000}", "\t"),
    ] {
        let back = Message::parse(&message(subject, body).render());
        assert_eq!(back.subject, subject.trim());
        assert_eq!(back.body, body.trim());
    }
    let loose = Message::parse("subject\nmore\nlines");
    assert_eq!(loose.subject, "subject");
    assert_eq!(loose.body, "more\nlines");
    assert_eq!(Message::parse("").subject, "");
    assert_eq!(Message::parse(" a \n\n b \n\n c ").subject, "a");
    assert_eq!(Message::parse(" a \n\n b \n\n c ").body, "b \n\n c");
}

#[test]
fn proposals_are_listed_by_subject() {
    let list = vec![message("a", "x"), message("b", "")];
    assert_eq!(proposal_summary(&list), "- a\n- b");
    assert_eq!(proposal_summary(&Vec::new()), "");
    let shown = items(&list);
    assert_eq!(shown[0].title, "a");
    assert_eq!(shown[0].detail, "x");
    assert_eq!(shown.len(), 2);
}

#[test]
fn a_body_is_shown_after_a_blank_line() {
    assert_eq!(
        body_lines(&message("s", " a\nb \n")),
        vec!["".to_owned(), "a".to_owned(), "b".to_owned()]
    );
    assert!(body_lines(&message("s", " \n ")).is_empty());
}

#[test]
fn a_history_without_bodies_outranks_the_setting() {
    let bare = |count: usize| {
        let mut list: Vec<PastCommit> = Vec::new();
        for _ in 0..count {
            list.push(past("s", ""));
        }
        list
    };
    let on = Config::default();
    assert!(body_allowed(&on, &Vec::new()));
    assert!(!body_allowed(&on, &bare(1)));
    let mut mixed = bare(4);
    mixed.push(past("s", "b"));
    assert!(body_allowed(&on, &mixed));
    mixed.push(past("s", ""));
    assert!(!body_allowed(&on, &mixed));
    let off = Config { body: false, ..Config::default() };
    assert!(!body_allowed(&off, &Vec::new()));
}

#[test]
fn the_instructions_fit_the_shape_that_is_asked_for() {
    let args = CommitArgs::default();
    let single = system_prompt(&Config::default(), &args, true);
    assert_eq!(
        single,
        "You are an experienced programmer writing the commit message for a staged change.\n\n\
         Reply with the message and nothing else. No preamble, no code fences, no quotes. \
         The first line is the subject: imperative mood, no trailing full stop. \
         Keep the subject under 72 characters.\
         \nThen a blank line, then a body explaining why the change was made, wrapped at 72 \
         characters. Leave the body out when the subject already says everything.\
         \n\nMatch the conventions of the previous commits you are shown: their mood, their \
         prefixes, their width, whether they carry a body. Those examples outrank any habit of \
         your own. Do not invent a convention they do not use."
    );
    let several = Config { candidates: 3, conventional_commits: true, ..Config::default() };
    let asked = CommitArgs {
        kind: Some("fix".to_owned()),
        scope: Some("git".to_owned()),
        issue: Some("#12".to_owned()),
        ..CommitArgs::default()
    };
    let prompt = system_prompt(&several, &asked, false);
    assert!(prompt.contains("Propose 3 different messages for this one change"));
    assert!(!prompt.contains("nothing else"));
    assert!(prompt.contains("\nLeave every body as an empty string."));
    assert!(prompt.contains("`type(scope): subject`"));
    assert!(prompt.ends_with(
        "\n\nThe type must be `fix`.\n\nThe scope must be `git`.\n\nReference issue #12 in the message."
    ));
    assert!(system_prompt(&several, &asked, true).contains("\nThe body explains why"));
    assert!(system_prompt(&Config::default(), &args, false)
        .contains("\nWrite the subject only. No body."));
}

#[test]
fn the_context_ends_with_the_diff() {
    let diff = "diff --git a/x b/x\n+y\n";
    let plan = build_diff(&Config::default(), "1\t0\tx", diff).unwrap();
    let prompt = context_prompt(
        &vec![past("s", "b"), past("t", "")],
        &Some("u".to_owned()),
        &Some("v".to_owned()),
        &Some("w".to_owned()),
        &plan,
    );
    assert_eq!(
        prompt,
        format!(
            "# Recent commits in this repository\n\ns\nb\n---\nt\n---\n\n\
             # Recent commits touching these same files\n\nu\n\n\
             # Current branch\n\nw\n\n\
             # This repository's commit template, which states its convention outright\n\nv\n\n\
             # Every file in the staged change\n\n{}\n\n# The staged diff\n\n{diff}",
            plan.manifest()
        )
    );
    let lock = build_diff(&Config::default(), "1\t0\tx\n1\t0\tCargo.lock", diff).unwrap();
    let prompt = context_prompt(&Vec::new(), &None, &None, &None, &lock);
    assert!(prompt.starts_with("# Every file in the staged change\n\n"));
    assert!(prompt.contains("The hunks of the withheld files are not below."));
    let alone = build_diff(&Config::default(), "1\t0\tCargo.lock", "").unwrap();
    let prompt = context_prompt(&Vec::new(), &None, &None, &None, &alone);
    assert!(prompt.contains("None of these hunks are below"));
}

#[test]
fn comments_are_dropped_from_an_edited_message() {
    let written = draft(&message("subject", "body"));
    assert_eq!(
        written,
        "subject\n\nbody\n\n# Lines starting with # are dropped. Save an empty message to cancel.\n"
    );
    let saved = edited(&written).unwrap();
    assert_eq!(saved.subject, "subject");
    assert_eq!(saved.body, "body");
    let kept = edited("  # c\na # b\n\n#c\nd\n").unwrap();
    assert_eq!(kept.subject, "a # b");
    assert_eq!(kept.body, "d");
    assert!(edited("# only\n  #comments\n\n").is_none());
}

#[test]
fn a_decision_is_read_from_the_list() {
    assert_eq!(decisions().len(), 5);
    assert!(matches!(decision(0, None), Decision::Commit));
    assert!(matches!(decision(1, None), Decision::Edit));
    assert!(matches!(decision(2, None), Decision::Cancel));
    assert!(matches!(decision(2, Some("  ".to_owned())), Decision::Cancel));
    assert!(matches!(decision(2, Some(" x".to_owned())), Decision::Feedback(said) if said == " x"));
    assert!(matches!(decision(3, None), Decision::Reload));
    assert!(matches!(decision(4, None), Decision::Cancel));
    assert!(needs_feedback(2));
    assert!(!needs_feedback(3));
    assert!(matches!(pick(Choice::Item(1)), Pick::Message(1)));
    assert!(matches!(pick(Choice::Edit(2)), Pick::Edit(2)));
    assert!(matches!(pick(Choice::Reload), Pick::Reload));
    assert!(matches!(pick(Choice::Cancel), Pick::Cancel));
    assert!(matches!(pick(Choice::Feedback("f".to_owned())), Pick::Feedback(said) if said == "f"));
}

#[test]
fn the_confirmation_shows_what_is_stored() {
    let config = Config { subject_max_len: 4, ..Config::default() };
    let pieces = confirmation(&message("subject", "a\n\nb"), &config);
    assert_eq!(
        spoken(&pieces),
        "\n  subject\n  7 characters, 3 over the 4 you configured\n\n  a\n\n  b\n\n"
    );
    assert_eq!(pieces[2].tint, Tint::Bold);
    let short = confirmation(&message("subj", ""), &config);
    assert_eq!(spoken(&short), "\n  subj\n\n");
}

#[test]
fn what_is_not_staged_is_listed_for_a_person() {
    let dirty = vec![("M".to_owned(), "a".to_owned()), ("??".to_owned(), "b".to_owned())];
    assert_eq!(spoken(&nothing_staged(&dirty, true)), "\n  M   a\n  ??  b\n\n");
    assert!(nothing_staged(&dirty, false).is_empty());
    assert!(nothing_staged(&Vec::new(), true).is_empty());
}

#[test]
fn the_screen_waits_only_for_someone_who_can_answer() {
    assert!(interactive(true, true, true));
    assert!(!interactive(true, false, true));
    let plain = CommitArgs::default();
    let yes = CommitArgs { yes: true, ..CommitArgs::default() };
    let print = GlobalArgs { print: true, ..GlobalArgs::default() };
    assert!(waits(true, &plain, &GlobalArgs::default()));
    assert!(!waits(false, &plain, &GlobalArgs::default()));
    assert!(!waits(true, &yes, &GlobalArgs::default()));
    assert!(!waits(true, &plain, &print));
    let piped = CommitArgs { stdin_diff: true, ..CommitArgs::default() };
    assert!(!waits(true, &piped, &GlobalArgs::default()));
}

#[test]
fn one_proposal_is_confirmed_and_several_are_chosen_from() {
    let mut talk = session(&CommitArgs::default(), &GlobalArgs::default(), true);
    assert_eq!(talk.messages.len(), 2);
    assert!(matches!(talk.proposed(Vec::new()), Next::NoAnswer));
    assert!(matches!(talk.proposed(vec![message("a", "")]), Next::Confirm(0)));
    assert!(matches!(
        talk.proposed(vec![message("a", ""), message("b", "")]),
        Next::Choose
    ));
    assert!(matches!(talk.picked(Pick::Cancel), Next::Aborted));
    assert!(matches!(talk.picked(Pick::Reload), Next::Reload));
    assert!(matches!(talk.picked(Pick::Edit(1)), Next::Edit(m) if m.subject == "b"));
    assert!(matches!(talk.picked(Pick::Message(1)), Next::Confirm(1)));
    assert!(matches!(talk.decided(1, Decision::Commit), Next::Done(m) if m.subject == "b"));
    assert!(!talk.review);
    assert!(matches!(talk.decided(0, Decision::Edit), Next::Done(m) if m.subject == "a"));
    assert!(talk.review);
    assert!(matches!(talk.decided(0, Decision::Reload), Next::Reload));
    assert!(matches!(talk.decided(0, Decision::Cancel), Next::Aborted));
    assert!(matches!(talk.saved(None), Next::Aborted));
    assert!(matches!(talk.saved(Some(message("c", ""))), Next::Done(m) if m.subject == "c"));
    assert_eq!(talk.messages.len(), 2);
}

#[test]
fn a_rejected_round_stays_in_the_conversation() {
    let mut talk = session(&CommitArgs::default(), &GlobalArgs::default(), true);
    talk.proposed(vec![message("a", ""), message("b", "")]);
    assert!(matches!(talk.picked(Pick::Feedback("shorter".to_owned())), Next::Generate));
    assert_eq!(talk.messages.len(), 4);
    assert!(matches!(&talk.messages[0], ChatMessage::System(text) if text == "rules"));
    assert!(matches!(&talk.messages[1], ChatMessage::User(text) if text == "context"));
    assert!(matches!(
        &talk.messages[2],
        ChatMessage::Assistant(Some(text), None) if text == "- a\n- b"
    ));
    assert!(matches!(
        &talk.messages[3],
        ChatMessage::User(text)
            if text == "None of those are right. shorter\n\nPropose 1 new ones that answer that."
    ));
    talk.proposed(vec![message("c", "")]);
    assert!(matches!(
        talk.decided(0, Decision::Feedback("longer".to_owned())),
        Next::Generate
    ));
    assert_eq!(talk.messages.len(), 6);
}

#[test]
fn nobody_is_asked_where_nobody_can_answer() {
    let mut silent = session(&CommitArgs::default(), &GlobalArgs::default(), false);
    assert!(matches!(
        silent.proposed(vec![message("a", ""), message("b", "")]),
        Next::Done(m) if m.subject == "a"
    ));
    let yes = CommitArgs { yes: true, ..CommitArgs::default() };
    let mut direct = session(&yes, &GlobalArgs::default(), true);
    assert!(matches!(direct.proposed(vec![message("a", "")]), Next::Done(_)));
    assert!(matches!(
        direct.proposed(vec![message("a", ""), message("b", "")]),
        Next::Choose
    ));
    assert!(matches!(direct.picked(Pick::Message(1)), Next::Done(m) if m.subject == "b"));
}

#[test]
fn a_message_is_printed_or_handed_to_git() {
    let args = CommitArgs { amend: true, skip_hooks: true, ..CommitArgs::default() };
    let (event, outcome) = conclude(&message(" a ", "b"), true, &args, &GlobalArgs::default());
    assert!(matches!(event, Event::Message { subject, body } if subject == " a " && body == "b"));
    match outcome {
        Outcome::Commit(text, options) => {
            assert_eq!(text, "a\n\nb");
            assert!(options.review && options.amend && options.skip_hooks);
            assert!(!options.signoff && !options.gpg_sign);
        }
        Outcome::Print(_) => panic!("it was printed"),
    }
    let print = GlobalArgs { print: true, ..GlobalArgs::default() };
    assert!(matches!(
        conclude(&message("a", ""), false, &args, &print).1,
        Outcome::Print(text) if text == "a"
    ));
}

#[test]
fn the_context_of_a_run_is_reported() {
    let diff = "diff --git a/x b/x\n+y\n";
    let plan = build_diff(&Config::default(), "1\t2\tx\n3\t0\tgo.sum", diff).unwrap();
    let used = commits_used(&vec![past("s", "")], &Some("a\nb".to_owned()));
    assert_eq!(used, 3);
    assert_eq!(commits_used(&Vec::new(), &None), 0);
    match context_event(&plan, used, &Config::default()) {
        Event::Context {
            staged_files,
            included,
            withheld,
            added,
            deleted,
            diff_bytes,
            commits_used,
            model,
        } => {
            assert_eq!((staged_files, included), (2, 1));
            assert_eq!(withheld, vec!["go.sum".to_owned()]);
            assert_eq!((added, deleted), (4, 2));
            assert_eq!(diff_bytes, diff.len());
            assert_eq!(commits_used, 3);
            assert_eq!(model, "gpt-5.6-luna");
        }
        _ => panic!("another event"),
    }
}
