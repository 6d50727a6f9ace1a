//! Writing the message of a commit.

use crate::cli::{CommitArgs, GlobalArgs};
use crate::config;
use crate::config::Config;
use crate::git;
use crate::git::{CommitOptions, Diff, PastCommit, PastView};
use crate::model;
use crate::model::{ChatMessage, ChatView};
use crate::output;
use crate::output::{Event, EventView, Piece, PieceView, Tint};
use crate::picker;
use crate::picker::{Choice, Item};
use crate::text;
use vstd::prelude::*;

verus! {

/// One proposed commit message. The subject and body stay apart until the
/// moment the message is handed to git, so the picker and the length warning
/// can both work on the subject alone.
#[derive(Debug)]
pub struct Message {
    pub subject: String,
    pub body: String,
}

/// What a [`Message`] says.
pub struct MessageView {
    pub subject: Seq<char>,
    pub body: Seq<char>,
}

impl View for Message {
    type V = MessageView;

    open spec fn view(&self) -> MessageView {
        MessageView { subject: self.subject@, body: self.body@ }
    }
}

impl Clone for Message {
    /// The same message.
    fn clone(&self) -> (r: Self)
        ensures
            r@ == self@,
    {
        Message { subject: self.subject.clone(), body: self.body.clone() }
    }
}

/// What the messages of a list say.
pub open spec fn message_views(messages: Seq<Message>) -> Seq<MessageView> {
    Seq::new(messages.len(), |i: int| messages[i]@)
}

/// The text that git stores for a message: the subject, and the body after a blank
/// line where there is one.
pub open spec fn rendered(message: MessageView) -> Seq<char> {
    if text::blank(message.body) {
        text::trim(message.subject)
    } else {
        text::trim(message.subject) + "\n\n"@ + text::trim(message.body)
    }
}

/// The message that a text is: its parts before and after the first blank line, or
/// its first line and the rest.
pub open spec fn parsed(source: Seq<char>) -> MessageView {
    let trimmed = text::trim(source);
    match text::split_once(trimmed, "\n\n"@) {
        Some(parts) => MessageView {
            subject: text::trim(parts.0),
            body: text::trim(parts.1),
        },
        None => {
            let lines = text::lines(trimmed);
            if lines.len() == 0 {
                MessageView { subject: Seq::empty(), body: Seq::empty() }
            } else {
                MessageView {
                    subject: lines[0],
                    body: text::join(lines.drop_first(), "\n"@),
                }
            }
        },
    }
}

impl Message {
    /// The text that git stores for the message.
    pub fn render(&self) -> (r: String)
        ensures
            r@ == rendered(self@),
    {
        let mut out = text::trimmed(self.subject.as_str());
        if !text::is_blank(self.body.as_str()) {
            out.append("\n\n");
            out.append(text::trimmed(self.body.as_str()).as_str());
        }
        out
    }

    /// The message that a text is.
    pub fn parse(source: &str) -> (r: Self)
        ensures
            r@ == parsed(source@),
    {
        let trimmed = text::trimmed(source);
        match text::split_at_first(trimmed.as_str(), "\n\n") {
            Some(parts) => Message {
                subject: text::trimmed(parts.0.as_str()),
                body: text::trimmed(parts.1.as_str()),
            },
            None => {
                let lines = text::lines_of(trimmed.as_str());
                let ghost all = text::texts(lines@);
                if lines.len() == 0 {
                    let r = Message { subject: String::new(), body: String::new() };
                    assert(r.subject@ =~= Seq::empty() && r.body@ =~= Seq::empty());
                    return r;
                }
                let mut rest: Vec<String> = Vec::new();
                for i in 1..lines.len()
                    invariant
                        rest.len() == i - 1,
                        forall|j: int| 0 <= j < i - 1 ==> #[trigger] rest@[j] == lines@[j + 1],
                {
                    rest.push(lines[i].clone());
                }
                assert(text::texts(rest@) =~= all.drop_first());
                assert(all[0] == lines@[0]@);
                Message {
                    subject: lines[0].clone(),
                    body: text::joined(rest.as_slice(), "\n"),
                }
            },
        }
    }
}

/// The lines that list the proposals.
pub open spec fn proposal_lines(candidates: Seq<MessageView>) -> Seq<Seq<char>> {
    Seq::new(candidates.len(), |i: int| "- "@ + candidates[i].subject)
}

/// What the model proposed last round, written back as its own turn so the
/// feedback that follows has something to refer to.
pub fn proposal_summary(candidates: &Vec<Message>) -> (r: String)
    ensures
        r@ == text::join(proposal_lines(message_views(candidates@)), "\n"@),
{
    let mut lines: Vec<String> = Vec::new();
    for i in 0..candidates.len()
        invariant
            lines.len() == i,
            forall|j: int| 0 <= j < i ==> #[trigger] lines@[j]@ == "- "@ + candidates@[j].subject@,
    {
        let mut line = "- ".to_owned();
        line.append(candidates[i].subject.as_str());
        lines.push(line);
    }
    assert(text::texts(lines@) =~= proposal_lines(message_views(candidates@)));
    text::joined(lines.as_slice(), "\n")
}

/// The body of a message as lines, with a blank one first where there is a body.
pub open spec fn body_texts(body: Seq<char>) -> Seq<Seq<char>> {
    if text::blank(body) {
        Seq::empty()
    } else {
        seq![Seq::empty()] + text::lines(text::trim(body))
    }
}

/// The body as it will be stored, with a blank leading line when there is one,
/// so a message with a body reads the way git will show it.
pub fn body_lines(message: &Message) -> (r: Vec<String>)
    ensures
        text::texts(r@) == body_texts(message@.body),
{
    let mut out: Vec<String> = Vec::new();
    if text::is_blank(message.body.as_str()) {
        assert(text::texts(out@) =~= Seq::empty());
        return out;
    }
    let body = text::trimmed(message.body.as_str());
    let mut lines = text::lines_of(body.as_str());
    let ghost all = text::texts(lines@);
    let ghost before = lines@;
    let first = String::new();
    assert(first@ =~= Seq::empty());
    out.push(first);
    out.append(&mut lines);
    assert(text::texts(out@) =~= seq![Seq::empty()] + all);
    out
}

/// How many commits carry a body.
pub open spec fn bodies(recent: Seq<PastView>) -> nat
    decreases recent.len(),
{
    if recent.len() == 0 {
        0
    } else {
        bodies(recent.drop_last()) + if recent.last().body.len() > 0 {
            1nat
        } else {
            0
        }
    }
}

/// Whether a message may have a body, by the setting and by the commits of the past: at
/// least one in five of them carries one.
pub open spec fn may_have_body(setting: bool, recent: Seq<PastView>) -> bool {
    setting && recent.len() <= 5 * bodies(recent)
}

/// A history that almost never carries a body outranks the `body` setting.
/// Asked to explain itself, a model writes a body every time, so the
/// instruction to match the examples is not enough on its own.
pub fn body_allowed(config: &Config, recent: &Vec<PastCommit>) -> (r: bool)
    ensures
        r == (config@.body && bodies(git::past_views(recent@)) * 5 >= recent@.len()),
        r == may_have_body(config@.body, git::past_views(recent@)),
{
    let mut with_body: usize = 0;
    let ghost all = git::past_views(recent@);
    let total = recent.len();
    for i in 0..total
        invariant
            total == recent@.len(),
            all == git::past_views(recent@),
            with_body <= i,
            with_body == bodies(all.take(i as int)),
    {
        assert(all.take(i + 1).drop_last() =~= all.take(i as int));
        assert(all.take(i + 1).last() == recent@[i as int]@);
        if text::char_count(recent[i].body.as_str()) > 0 {
            with_body = with_body + 1;
        }
    }
    assert(all.take(all.len() as int) =~= all);
    config.body && with_body as u128 * 5 >= total as u128
}

// ---------------------------------------------------------------------------
// Prompts
// ---------------------------------------------------------------------------

/// What the model is told of the shape of its answer.
pub open spec fn shape_text(candidates: nat) -> Seq<char> {
    if candidates <= 1 {
        "Reply with the message and nothing else. No preamble, no code fences, no quotes. The first line is the subject: imperative mood, no trailing full stop."@
    } else {
        "Propose "@ + text::decimal(candidates)
            + " different messages for this one change, in the `messages` array. Each carries a `subject` and a `body`. Make them genuinely different in what they emphasise, not rewordings of each other. The subject is in the imperative mood, with no trailing full stop."@
    }
}

/// What the model is told of the body.
pub open spec fn body_text(body: bool, single: bool) -> Seq<char> {
    if body && single {
        "\nThen a blank line, then a body explaining why the change was made, wrapped at 72 characters. Leave the body out when the subject already says everything."@
    } else if body {
        "\nThe body explains why the change was made, wrapped at 72 characters. Leave it as an empty string when the subject already says everything."@
    } else if single {
        "\nWrite the subject only. No body."@
    } else {
        "\nLeave every body as an empty string."@
    }
}

/// What the model is told where something is asked for on the command line.
pub open spec fn asked(before: Seq<char>, what: Option<Seq<char>>, after: Seq<char>) -> Seq<char> {
    match what {
        Some(what) => before + what + after,
        None => Seq::empty(),
    }
}

/// The instructions.
pub open spec fn instructions(
    config: config::ConfigView,
    body: bool,
    kind: Option<Seq<char>>,
    scope: Option<Seq<char>>,
    issue: Option<Seq<char>>,
) -> Seq<char> {
    "You are an experienced programmer writing the commit message for a staged change.\n\n"@
        + shape_text(config.candidates as nat) + " Keep the subject under "@ + text::decimal(
        config.subject_max_len as nat,
    ) + " characters."@ + body_text(body, config.candidates <= 1)
        + "\n\nMatch the conventions of the previous commits you are shown: their mood, their prefixes, their width, whether they carry a body. Those examples outrank any habit of your own. Do not invent a convention they do not use."@
        + if config.conventional_commits {
        "\n\nUse the conventional commits format: `type(scope): subject`, where type is one of feat, fix, docs, style, refactor, perf, test, build, ci, chore or revert. The scope is optional."@
    } else {
        Seq::empty()
    } + asked("\n\nThe type must be `"@, kind, "`."@) + asked(
        "\n\nThe scope must be `"@,
        scope,
        "`."@,
    ) + asked("\n\nReference issue "@, issue, " in the message."@)
}

fn push_asked(prompt: &mut String, before: &str, what: &Option<String>, after: &str)
    ensures
        final(prompt)@ == old(prompt)@ + asked(before@, text::opt_text(*what), after@),
{
    match what {
        Some(what) => {
            prompt.append(before);
            prompt.append(what.as_str());
            prompt.append(after);
            assert(prompt@ =~= old(prompt)@ + (before@ + what@ + after@));
        },
        None => {
            assert(prompt@ + Seq::<char>::empty() =~= prompt@);
        },
    }
}

/// The two paths ask for different shapes, so they need different
/// instructions. Telling a model to "reply with the message and nothing else"
/// while handing it a schema that wants an array of them is a contradiction,
/// and a model that resolves it by returning an empty array is not wrong.
pub fn system_prompt(config: &Config, args: &CommitArgs, body: bool) -> (r: String)
    ensures
        r@ == instructions(
            config@,
            body,
            text::opt_text(args.kind),
            text::opt_text(args.scope),
            text::opt_text(args.issue),
        ),
{
    let mut prompt = "You are an experienced programmer writing the commit message for a staged change.\n\n".to_owned();
    let ghost start = prompt@;
    if config.candidates <= 1 {
        prompt.append("Reply with the message and nothing else. No preamble, no code fences, no quotes. The first line is the subject: imperative mood, no trailing full stop.");
    } else {
        prompt.append("Propose ");
        prompt.append(text::number(config.candidates as u128).as_str());
        prompt.append(" different messages for this one change, in the `messages` array. Each carries a `subject` and a `body`. Make them genuinely different in what they emphasise, not rewordings of each other. The subject is in the imperative mood, with no trailing full stop.");
    }
    assert(prompt@ =~= start + shape_text(config@.candidates as nat));
    prompt.append(" Keep the subject under ");
    prompt.append(text::number(config.subject_max_len as u128).as_str());
    prompt.append(" characters.");
    if body {
        if config.candidates <= 1 {
            prompt.append("\nThen a blank line, then a body explaining why the change was made, wrapped at 72 characters. Leave the body out when the subject already says everything.");
        } else {
            prompt.append("\nThe body explains why the change was made, wrapped at 72 characters. Leave it as an empty string when the subject already says everything.");
        }
    } else if config.candidates <= 1 {
        prompt.append("\nWrite the subject only. No body.");
    } else {
        prompt.append("\nLeave every body as an empty string.");
    }
    prompt.append("\n\nMatch the conventions of the previous commits you are shown: their mood, their prefixes, their width, whether they carry a body. Those examples outrank any habit of your own. Do not invent a convention they do not use.");
    if config.conventional_commits {
        prompt.append("\n\nUse the conventional commits format: `type(scope): subject`, where type is one of feat, fix, docs, style, refactor, perf, test, build, ci, chore or revert. The scope is optional.");
    } else {
        assert(prompt@ + Seq::<char>::empty() =~= prompt@);
    }
    push_asked(&mut prompt, "\n\nThe type must be `", &args.kind, "`.");
    push_asked(&mut prompt, "\n\nThe scope must be `", &args.scope, "`.");
    push_asked(&mut prompt, "\n\nReference issue ", &args.issue, " in the message.");
    prompt
}

/// One commit of the past, as an example.
pub open spec fn example_text(commit: PastView) -> Seq<char> {
    commit.subject + "\n"@ + (if commit.body.len() > 0 {
        commit.body + "\n"@
    } else {
        Seq::empty()
    }) + "---\n"@
}

/// The commits of the past, as examples.
pub open spec fn example_texts(recent: Seq<PastView>) -> Seq<char>
    decreases recent.len(),
{
    if recent.len() == 0 {
        Seq::empty()
    } else {
        example_texts(recent.drop_last()) + example_text(recent.last())
    }
}

/// The part of the context that shows the commits of the past, if there are any.
pub open spec fn history_text(recent: Seq<PastView>) -> Seq<char> {
    if recent.len() == 0 {
        Seq::empty()
    } else {
        "# Recent commits in this repository\n\n"@ + example_texts(recent) + "\n"@
    }
}

/// What the model is told of the hunks that are not below. How hard to push depends
/// on what is left. A model with some hunks can judge whether the withheld ones
/// matter; a model with none cannot, and guessing from file names alone is how
/// "update" gets written.
pub open spec fn withheld_text(diff: git::DiffView) -> Seq<char> {
    if text::blank(diff.included) {
        "\nNone of these hunks are below: every file was withheld. You cannot describe this change from the file names, so call `search_diff` or `read_diff` and read enough of it to say what actually changed before you answer.\n"@
    } else if diff.withheld.len() > 0 {
        "\nThe hunks of the withheld files are not below. Call `search_diff` or `read_diff` if one of them looks like it might be the point of this commit rather than noise.\n"@
    } else {
        Seq::empty()
    }
}

/// The context: what stays the same first, the diff last.
pub open spec fn context_text(
    recent: Seq<PastView>,
    touching: Option<Seq<char>>,
    template: Option<Seq<char>>,
    branch: Option<Seq<char>>,
    diff: git::DiffView,
) -> Seq<char> {
    history_text(recent) + asked(
        "# Recent commits touching these same files\n\n"@,
        touching,
        "\n\n"@,
    ) + asked("# Current branch\n\n"@, branch, "\n\n"@) + asked(
        "# This repository's commit template, which states its convention outright\n\n"@,
        template,
        "\n\n"@,
    ) + "# Every file in the staged change\n\n"@ + git::manifest_text(
        diff.files,
        git::widest(diff.files),
    ) + "\n"@ + withheld_text(diff) + "\n# The staged diff\n\n"@ + diff.included
}

/// Context first, diff last. The stable part of the prompt sits at the front
/// so a provider that caches prefixes can reuse it between runs.
pub fn context_prompt(
    recent: &Vec<PastCommit>,
    touching: &Option<String>,
    template: &Option<String>,
    branch: &Option<String>,
    diff: &Diff,
) -> (r: String)
    ensures
        r@ == context_text(
            git::past_views(recent@),
            text::opt_text(*touching),
            text::opt_text(*template),
            text::opt_text(*branch),
            diff@,
        ),
{
    let mut prompt = String::new();
    assert(prompt@ =~= Seq::empty());
    let ghost all = git::past_views(recent@);
    if recent.len() > 0 {
        prompt.append("# Recent commits in this repository\n\n");
        let ghost head = "# Recent commits in this repository\n\n"@;
        assert(prompt@ =~= head + example_texts(all.take(0)));
        for i in 0..recent.len()
            invariant
                all == git::past_views(recent@),
                prompt@ == head + example_texts(all.take(i as int)),
        {
            let ghost before = prompt@;
            let ghost commit = all[i as int];
            assert(all.take(i + 1).drop_last() =~= all.take(i as int));
            assert(all.take(i + 1).last() == recent@[i as int]@);
            prompt.append(recent[i].subject.as_str());
            prompt.append("\n");
            if text::char_count(recent[i].body.as_str()) > 0 {
                prompt.append(recent[i].body.as_str());
                prompt.append("\n");
            }
            prompt.append("---\n");
            assert(prompt@ =~= before + example_text(commit));
            assert(prompt@ =~= head + example_texts(all.take(i + 1)));
        }
        assert(all.take(all.len() as int) =~= all);
        prompt.append("\n");
    }
    assert(prompt@ =~= history_text(all));
    push_asked(&mut prompt, "# Recent commits touching these same files\n\n", touching, "\n\n");
    push_asked(&mut prompt, "# Current branch\n\n", branch, "\n\n");
    push_asked(
        &mut prompt,
        "# This repository's commit template, which states its convention outright\n\n",
        template,
        "\n\n",
    );
    prompt.append("# Every file in the staged change\n\n");
    prompt.append(diff.manifest().as_str());
    prompt.append("\n");
    if text::is_blank(diff.included_text()) {
        prompt.append("\nNone of these hunks are below: every file was withheld. You cannot describe this change from the file names, so call `search_diff` or `read_diff` and read enough of it to say what actually changed before you answer.\n");
    } else if diff.has_withheld() {
        prompt.append("\nThe hunks of the withheld files are not below. Call `search_diff` or `read_diff` if one of them looks like it might be the point of this commit rather than noise.\n");
    } else {
        assert(prompt@ + Seq::<char>::empty() =~= prompt@);
    }
    prompt.append("\n# The staged diff\n\n");
    prompt.append(diff.included_text());
    prompt
}

// ---------------------------------------------------------------------------
// Editing
// ---------------------------------------------------------------------------

/// What the editor is opened with.
pub open spec fn draft_text(message: MessageView) -> Seq<char> {
    rendered(message)
        + "\n\n# Lines starting with # are dropped. Save an empty message to cancel.\n"@
}

/// What the editor is opened with: the message, and what becomes of it.
pub fn draft(message: &Message) -> (r: String)
    ensures
        r@ == draft_text(message@),
{
    let mut out = message.render();
    out.append("\n\n# Lines starting with # are dropped. Save an empty message to cancel.\n");
    out
}

/// Whether a line is a comment.
pub open spec fn is_comment(line: Seq<char>) -> bool {
    text::starts_with(text::trim_start(line), "#"@)
}

/// The lines that are no comments.
pub open spec fn without_comments(lines: Seq<Seq<char>>) -> Seq<Seq<char>>
    decreases lines.len(),
{
    if lines.len() == 0 {
        Seq::empty()
    } else {
        let before = without_comments(lines.drop_last());
        if is_comment(lines.last()) {
            before
        } else {
            before.push(lines.last())
        }
    }
}

/// What is left of a saved text without its comments.
pub open spec fn saved_text(source: Seq<char>) -> Seq<char> {
    text::join(without_comments(text::lines(source)), "\n"@)
}

/// The message that was saved in the editor, or none where nothing is left of it.
pub fn edited(source: &str) -> (r: Option<Message>)
    ensures
        match r {
            Some(message) => !text::blank(saved_text(source@)) && message@ == parsed(
                saved_text(source@),
            ),
            None => text::blank(saved_text(source@)),
        },
{
    let lines = text::lines_of(source);
    let ghost all = text::texts(lines@);
    let mut kept: Vec<String> = Vec::new();
    assert(text::texts(kept@) =~= without_comments(all.take(0)));
    for i in 0..lines.len()
        invariant
            all == text::texts(lines@),
            text::texts(kept@) == without_comments(all.take(i as int)),
    {
        assert(all.take(i + 1).drop_last() =~= all.take(i as int));
        assert(all.take(i + 1).last() == lines@[i as int]@);
        let start = text::trimmed_start(lines[i].as_str());
        if !text::begins_with(start.as_str(), "#") {
            let ghost before = text::texts(kept@);
            kept.push(lines[i].clone());
            assert(text::texts(kept@) =~= before.push(all[i as int]));
        }
    }
    assert(all.take(all.len() as int) =~= all);
    let left = text::joined(kept.as_slice(), "\n");
    if text::is_blank(left.as_str()) {
        None
    } else {
        Some(Message::parse(left.as_str()))
    }
}

// ---------------------------------------------------------------------------
// Asking
// ---------------------------------------------------------------------------

/// Whether there is someone to ask.
pub fn interactive(human: bool, stdin_terminal: bool, stderr_terminal: bool) -> (r: bool)
    ensures
        r == (human && stdin_terminal && stderr_terminal),
{
    human && stdin_terminal && stderr_terminal
}

/// Whether there is someone to wait for, and nothing has said go already.
pub open spec fn waits_for_go(interactive: bool, args: CommitArgs, global: GlobalArgs) -> bool {
    interactive && !(args.yes || global.print || args.stdin_diff)
}

/// Whether the screen waits before anything is sent. Nothing is sent until you say
/// so, so the staging area can go on changing while the screen is up. `--yes` and
/// `--print` have already said go, and a diff read from stdin cannot change.
pub fn waits(interactive: bool, args: &CommitArgs, global: &GlobalArgs) -> (r: bool)
    ensures
        r == (interactive && !args.yes && !global.print && !args.stdin_diff),
        r == waits_for_go(interactive, *args, *global),
{
    interactive && !args.yes && !global.print && !args.stdin_diff
}

/// Whether one message is asked for. It streams, so the subject appears early; several
/// cannot, because a half-written JSON object is not readable.
pub fn asks_for_one(config: &Config) -> (r: bool)
    ensures
        r == (config.candidates <= 1),
{
    config.candidates <= 1
}

/// What to do with the message that was chosen.
#[derive(Debug)]
pub enum Decision {
    Commit,
    Edit,
    Feedback(String),
    Reload,
    Cancel,
}

/// What the reader did with the proposed messages.
#[derive(Debug)]
pub enum Pick {
    Message(usize),
    Edit(usize),
    Feedback(String),
    Reload,
    Cancel,
}

/// What the choice of the picker means.
pub fn pick(choice: Choice) -> (r: Pick)
    ensures
        r == match choice {
            Choice::Item(index) => Pick::Message(index),
            Choice::Edit(index) => Pick::Edit(index),
            Choice::Feedback(text) => Pick::Feedback(text),
            Choice::Reload => Pick::Reload,
            Choice::Cancel => Pick::Cancel,
        },
{
    match choice {
        Choice::Item(index) => Pick::Message(index),
        Choice::Edit(index) => Pick::Edit(index),
        Choice::Feedback(text) => Pick::Feedback(text),
        Choice::Reload => Pick::Reload,
        Choice::Cancel => Pick::Cancel,
    }
}

/// The items of the picker for these messages. The body of the highlighted message
/// shows inside the list rather than above it.
pub fn items(candidates: &Vec<Message>) -> (r: Vec<Item>)
    ensures
        picker::item_views(r@) == Seq::new(
            candidates@.len(),
            |i: int|
                (picker::ItemView {
                    title: candidates@[i].subject@,
                    detail: candidates@[i].body@,
                }),
        ),
{
    let mut out: Vec<Item> = Vec::new();
    for i in 0..candidates.len()
        invariant
            out.len() == i,
            forall|j: int|
                0 <= j < i ==> #[trigger] out@[j]@ == (picker::ItemView {
                    title: candidates@[j].subject@,
                    detail: candidates@[j].body@,
                }),
    {
        out.push(
            Item { title: candidates[i].subject.clone(), detail: candidates[i].body.clone() },
        );
    }
    assert(picker::item_views(out@) =~= Seq::new(
        candidates@.len(),
        |i: int|
            (picker::ItemView { title: candidates@[i].subject@, detail: candidates@[i].body@ }),
    ));
    out
}

/// What can be decided about a message, in the order it is listed.
pub open spec fn decision_labels() -> Seq<Seq<char>> {
    seq![
        "commit"@,
        "edit first"@,
        "try again, with feedback"@,
        "reload the staged change and try again"@,
        "cancel"@,
    ]
}

/// What can be decided about a message, in the order it is listed.
pub fn decisions() -> (r: Vec<String>)
    ensures
        text::texts(r@) == decision_labels(),
{
    let list = vec![
        "commit".to_owned(),
        "edit first".to_owned(),
        "try again, with feedback".to_owned(),
        "reload the staged change and try again".to_owned(),
        "cancel".to_owned(),
    ];
    assert(text::texts(list@) =~= decision_labels());
    list
}

/// Whether a decision needs feedback to be typed.
pub fn needs_feedback(index: usize) -> (r: bool)
    ensures
        r == (index == 2),
{
    index == 2
}

/// What is decided at a place in the list, with the feedback that was typed there.
pub open spec fn decision_at(index: nat, feedback: Option<String>) -> Decision {
    match feedback {
        Some(said) if index == 2 && !text::blank(said@) => Decision::Feedback(said),
        _ => if index == 0 {
            Decision::Commit
        } else if index == 1 {
            Decision::Edit
        } else if index == 3 {
            Decision::Reload
        } else {
            Decision::Cancel
        },
    }
}

/// What was decided, from the place in the list and the feedback, where that was
/// asked for. Blank feedback is none, and cancels.
pub fn decision(index: usize, feedback: Option<String>) -> (r: Decision)
    ensures
        r == if index == 0 {
            Decision::Commit
        } else if index == 1 {
            Decision::Edit
        } else if index == 2 {
            match feedback {
                Some(said) => if text::blank(said@) {
                    Decision::Cancel
                } else {
                    Decision::Feedback(said)
                },
                None => Decision::Cancel,
            }
        } else if index == 3 {
            Decision::Reload
        } else {
            Decision::Cancel
        },
        r == decision_at(index as nat, feedback),
{
    if index == 0 {
        Decision::Commit
    } else if index == 1 {
        Decision::Edit
    } else if index == 2 {
        match feedback {
            Some(said) => if text::is_blank(said.as_str()) {
                Decision::Cancel
            } else {
                Decision::Feedback(said)
            },
            None => Decision::Cancel,
        }
    } else if index == 3 {
        Decision::Reload
    } else {
        Decision::Cancel
    }
}

/// The warning about a subject that is too long.
pub open spec fn over_text(len: nat, limit: nat) -> Seq<char> {
    text::decimal(len) + " characters, "@ + text::decimal((len - limit) as nat) + " over the "@
        + text::decimal(limit) + " you configured"@
}

/// The pieces that show lines of a body, indented; an empty line has no indent.
pub open spec fn body_pieces(lines: Seq<Seq<char>>) -> Seq<PieceView>
    decreases lines.len(),
{
    if lines.len() == 0 {
        Seq::empty()
    } else {
        let before = body_pieces(lines.drop_last());
        if lines.last().len() == 0 {
            before.push(output::line_end())
        } else {
            before.push(output::piece("  "@ + lines.last(), Tint::Plain)).push(output::line_end())
        }
    }
}

/// The pieces that show a message before it is committed.
pub open spec fn confirmation_pieces(message: MessageView, limit: nat) -> Seq<PieceView> {
    let head = seq![
        output::line_end(),
        output::piece("  "@, Tint::Plain),
        output::piece(message.subject, Tint::Bold),
        output::line_end(),
    ];
    let warned = if message.subject.len() > limit {
        head + seq![
            output::piece("  "@, Tint::Plain),
            output::piece(over_text(message.subject.len(), limit), Tint::Yellow),
            output::line_end(),
        ]
    } else {
        head
    };
    warned + body_pieces(body_texts(message.body)) + seq![output::line_end()]
}

fn push_piece(list: &mut Vec<Piece>, text: String, tint: Tint)
    ensures
        output::pieces(final(list)@) == output::pieces(old(list)@).push(
            output::piece(text@, tint),
        ),
{
    list.push(Piece { text, tint });
    assert(output::pieces(list@) =~= output::pieces(old(list)@).push(output::piece(text@, tint)));
}

/// Shows exactly what git is about to store. The message is rendered the same way
/// whether it came from a picker or straight through, so nothing reaches a commit
/// that was not on screen first.
#[verifier::rlimit(60)]
pub fn confirmation(message: &Message, config: &Config) -> (r: Vec<Piece>)
    ensures
        output::pieces(r@) == confirmation_pieces(message@, config@.subject_max_len as nat),
{
    let mut list: Vec<Piece> = Vec::new();
    assert(output::pieces(list@) =~= Seq::empty());
    push_piece(&mut list, "\n".to_owned(), Tint::Plain);
    push_piece(&mut list, "  ".to_owned(), Tint::Plain);
    push_piece(&mut list, message.subject.clone(), Tint::Bold);
    push_piece(&mut list, "\n".to_owned(), Tint::Plain);
    let len = text::char_count(message.subject.as_str());
    let limit = config.subject_max_len;
    if len > limit {
        let mut warning = text::number(len as u128);
        warning.append(" characters, ");
        warning.append(text::number((len - limit) as u128).as_str());
        warning.append(" over the ");
        warning.append(text::number(limit as u128).as_str());
        warning.append(" you configured");
        push_piece(&mut list, "  ".to_owned(), Tint::Plain);
        push_piece(&mut list, warning, Tint::Yellow);
        push_piece(&mut list, "\n".to_owned(), Tint::Plain);
    }
    let ghost upper = output::pieces(list@);
    let lines = body_lines(message);
    let ghost all = text::texts(lines@);
    assert(upper + body_pieces(all.take(0)) =~= upper);
    for i in 0..lines.len()
        invariant
            all == text::texts(lines@),
            output::pieces(list@) == upper + body_pieces(all.take(i as int)),
    {
        assert(all.take(i + 1).drop_last() =~= all.take(i as int));
        assert(all.take(i + 1).last() == lines@[i as int]@);
        if text::char_count(lines[i].as_str()) > 0 {
            let mut indented = "  ".to_owned();
            indented.append(lines[i].as_str());
            push_piece(&mut list, indented, Tint::Plain);
        }
        push_piece(&mut list, "\n".to_owned(), Tint::Plain);
        assert(output::pieces(list@) =~= upper + body_pieces(all.take(i + 1)));
    }
    assert(all.take(all.len() as int) =~= all);
    push_piece(&mut list, "\n".to_owned(), Tint::Plain);
    assert(output::pieces(list@) =~= confirmation_pieces(
        message@,
        config@.subject_max_len as nat,
    ));
    list
}

/// The pieces that list what is changed but not staged.
pub open spec fn dirty_pieces(dirty: Seq<(Seq<char>, Seq<char>)>) -> Seq<PieceView>
    decreases dirty.len(),
{
    if dirty.len() == 0 {
        Seq::empty()
    } else {
        dirty_pieces(dirty.drop_last()) + seq![
            output::piece("  "@, Tint::Plain),
            output::piece(text::pad_end(dirty.last().0, 2), Tint::Yellow),
            output::piece("  "@ + dirty.last().1, Tint::Plain),
            output::line_end(),
        ]
    }
}

/// What is said where nothing is staged, besides the error. Nothing staged is the
/// case the tool is reached for most often, so it says what is there rather than
/// only what is missing. The list only, with no heading of its own: the error
/// printed after it says what the list means.
pub fn nothing_staged(dirty: &Vec<(String, String)>, human: bool) -> (r: Vec<Piece>)
    ensures
        output::pieces(r@) == if human && dirty@.len() > 0 {
            seq![output::line_end()] + dirty_pieces(git::pair_texts(dirty@)) + seq![
                output::line_end(),
            ]
        } else {
            Seq::empty()
        },
{
    let mut list: Vec<Piece> = Vec::new();
    assert(output::pieces(list@) =~= Seq::empty());
    if !human || dirty.len() == 0 {
        return list;
    }
    push_piece(&mut list, "\n".to_owned(), Tint::Plain);
    let ghost all = git::pair_texts(dirty@);
    assert(output::pieces(list@) =~= seq![output::line_end()] + dirty_pieces(all.take(0)));
    for i in 0..dirty.len()
        invariant
            all == git::pair_texts(dirty@),
            output::pieces(list@) == seq![output::line_end()] + dirty_pieces(all.take(i as int)),
    {
        assert(all.take(i + 1).drop_last() =~= all.take(i as int));
        assert(all.take(i + 1).last() == (dirty@[i as int].0@, dirty@[i as int].1@));
        let mut path = "  ".to_owned();
        path.append(dirty[i].1.as_str());
        push_piece(&mut list, "  ".to_owned(), Tint::Plain);
        push_piece(&mut list, text::padded_end(dirty[i].0.as_str(), 2), Tint::Yellow);
        push_piece(&mut list, path, Tint::Plain);
        push_piece(&mut list, "\n".to_owned(), Tint::Plain);
        assert(output::pieces(list@) =~= seq![output::line_end()] + dirty_pieces(
            all.take(i + 1),
        ));
    }
    assert(all.take(all.len() as int) =~= all);
    push_piece(&mut list, "\n".to_owned(), Tint::Plain);
    assert(output::pieces(list@) =~= seq![output::line_end()] + dirty_pieces(all) + seq![
        output::line_end(),
    ]);
    list
}

// ---------------------------------------------------------------------------
// The session
// ---------------------------------------------------------------------------

/// How many commit examples actually reached the prompt, which is not the
/// configured count when the repository is younger than that.
pub fn commits_used(recent: &Vec<PastCommit>, touching: &Option<String>) -> (r: usize)
    requires
        recent@.len() + (match *touching {
            Some(log) => text::lines(log@).len(),
            None => 0,
        }) <= usize::MAX,
    ensures
        r == recent@.len() + match *touching {
            Some(log) => text::lines(log@).len(),
            None => 0,
        },
{
    match touching {
        Some(log) => {
            let lines = text::lines_of(log.as_str());
            assert(text::texts(lines@).len() == lines@.len());
            recent.len() + lines.len()
        },
        None => recent.len(),
    }
}

/// The event that says what the messages are written from.
pub fn context_event(diff: &Diff, commits_used: usize, config: &Config) -> (r: Event)
    requires
        git::total_added(diff@.files) <= u64::MAX,
        git::total_deleted(diff@.files) <= u64::MAX,
    ensures
        r@ == (EventView::Context {
            staged_files: diff@.files.len(),
            included: git::shown_paths(diff@.files).len(),
            withheld: crate::ordered::keys(diff@.withheld),
            added: git::total_added(diff@.files),
            deleted: git::total_deleted(diff@.files),
            diff_bytes: text::byte_len(diff@.included),
            commits_used: commits_used as nat,
            model: config@.model,
        }),
{
    let (added, deleted) = diff.totals();
    let included = diff.included_paths();
    assert(text::texts(included@).len() == included@.len());
    Event::Context {
        staged_files: diff.file_list().len(),
        included: included.len(),
        withheld: diff.withheld_paths(),
        added,
        deleted,
        diff_bytes: text::bytes_in(diff.included_text()),
        commits_used,
        model: config.model.clone(),
    }
}

/// Where a session is: the conversation so far, the messages that were proposed
/// last, and how it goes on.
pub struct Session {
    pub messages: Vec<ChatMessage>,
    pub candidates: Vec<Message>,
    /// How many messages are asked for.
    pub wanted: usize,
    /// Whether the message is edited in git's own editor before it is stored.
    pub review: bool,
    /// Whether the first message is taken as it is.
    pub direct: bool,
    /// Whether there is someone to ask.
    pub interactive: bool,
}

/// What a [`Session`] holds.
pub struct SessionView {
    pub messages: Seq<ChatView>,
    pub candidates: Seq<MessageView>,
    pub wanted: usize,
    pub review: bool,
    pub direct: bool,
    pub interactive: bool,
}

impl View for Session {
    type V = SessionView;

    open spec fn view(&self) -> SessionView {
        SessionView {
            messages: model::chat(self.messages@),
            candidates: message_views(self.candidates@),
            wanted: self.wanted,
            review: self.review,
            direct: self.direct,
            interactive: self.interactive,
        }
    }
}

/// What is to be done next.
#[derive(Debug)]
pub enum Next {
    /// Ask the model for messages.
    Generate,
    /// Let the reader choose among the messages.
    Choose,
    /// Show the message at that place, and ask what to do with it.
    Confirm(usize),
    /// Open this message in the editor.
    Edit(Message),
    /// Read the staging area again, and begin anew.
    Reload,
    /// Store this message.
    Done(Message),
    /// The model did not answer.
    NoAnswer,
    /// The reader gave up.
    Aborted,
}

/// What a [`Next`] says.
pub enum NextView {
    Generate,
    Choose,
    Confirm(nat),
    Edit(MessageView),
    Reload,
    Done(MessageView),
    NoAnswer,
    Aborted,
}

impl View for Next {
    type V = NextView;

    open spec fn view(&self) -> NextView {
        match self {
            Next::Generate => NextView::Generate,
            Next::Choose => NextView::Choose,
            Next::Confirm(index) => NextView::Confirm(*index as nat),
            Next::Edit(message) => NextView::Edit(message@),
            Next::Reload => NextView::Reload,
            Next::Done(message) => NextView::Done(message@),
            Next::NoAnswer => NextView::NoAnswer,
            Next::Aborted => NextView::Aborted,
        }
    }
}

/// What the reader said of the messages, written for the model.
pub open spec fn rejection_text(feedback: Seq<char>, wanted: nat) -> Seq<char> {
    "None of those are right. "@ + feedback + "\n\nPropose "@ + text::decimal(
        if wanted < 1 {
            1
        } else {
            wanted
        },
    ) + " new ones that answer that."@
}

/// The session after the messages were rejected. Each rejected round stays in the
/// conversation, so a second attempt knows what it already proposed and why you
/// did not want it.
pub open spec fn rejected(session: SessionView, feedback: Seq<char>) -> SessionView {
    SessionView {
        messages: session.messages.push(
            ChatView::Assistant(
                Some(text::join(proposal_lines(session.candidates), "\n"@)),
                None,
            ),
        ).push(ChatView::User(rejection_text(feedback, session.wanted as nat))),
        ..session
    }
}

/// What follows when the message at a place is chosen. Where it is taken as it is,
/// or nobody can be asked, it is stored.
pub open spec fn chosen(session: SessionView, index: nat) -> NextView {
    if session.direct || !session.interactive {
        NextView::Done(session.candidates[index as int])
    } else {
        NextView::Confirm(index)
    }
}

/// What follows when messages were proposed. One that nobody has to choose is taken.
pub open spec fn after_proposals(session: SessionView) -> NextView {
    if session.candidates.len() == 0 {
        NextView::NoAnswer
    } else if session.candidates.len() > 1 && session.interactive {
        NextView::Choose
    } else {
        chosen(session, 0)
    }
}

/// The session, and what follows, when the reader picked something.
pub open spec fn after_pick(session: SessionView, pick: Pick) -> (SessionView, NextView) {
    match pick {
        Pick::Message(index) => (session, chosen(session, index as nat)),
        Pick::Edit(index) => (session, NextView::Edit(session.candidates[index as int])),
        Pick::Feedback(feedback) => (rejected(session, feedback@), NextView::Generate),
        Pick::Reload => (session, NextView::Reload),
        Pick::Cancel => (session, NextView::Aborted),
    }
}

/// The session, and what follows, when the reader decided about the message at a place.
pub open spec fn after_decision(session: SessionView, index: nat, decision: Decision) -> (
    SessionView,
    NextView,
) {
    match decision {
        Decision::Commit => (session, NextView::Done(session.candidates[index as int])),
        Decision::Edit => (
            SessionView { review: true, ..session },
            NextView::Done(session.candidates[index as int]),
        ),
        Decision::Feedback(feedback) => (rejected(session, feedback@), NextView::Generate),
        Decision::Reload => (session, NextView::Reload),
        Decision::Cancel => (session, NextView::Aborted),
    }
}

impl Session {
    /// Begins a session with the instructions and the context.
    pub fn begin(
        instructions: String,
        context: String,
        config: &Config,
        args: &CommitArgs,
        global: &GlobalArgs,
        interactive: bool,
    ) -> (r: Self)
        ensures
            r@ == (SessionView {
                messages: seq![ChatView::System(instructions@), ChatView::User(context@)],
                candidates: Seq::empty(),
                wanted: config@.candidates,
                review: args.review,
                direct: global.print || args.yes,
                interactive,
            }),
    {
        let messages = vec![model::system(instructions), model::user(context)];
        assert(model::chat(messages@) =~= seq![
            ChatView::System(instructions@),
            ChatView::User(context@),
        ]);
        let candidates: Vec<Message> = Vec::new();
        assert(message_views(candidates@) =~= Seq::empty());
        Session {
            messages,
            candidates,
            wanted: config.candidates,
            review: args.review,
            direct: global.print || args.yes,
            interactive,
        }
    }

    fn take(&self, index: usize) -> (r: Next)
        requires
            index < self@.candidates.len(),
        ensures
            r@ == chosen(self@, index as nat),
    {
        if self.direct || !self.interactive {
            assert(self@.candidates[index as int] == self.candidates@[index as int]@);
            Next::Done(self.candidates[index].clone())
        } else {
            Next::Confirm(index)
        }
    }

    fn reject(&mut self, feedback: &str)
        ensures
            final(self)@ == rejected(old(self)@, feedback@),
    {
        let summary = proposal_summary(&self.candidates);
        let wanted: usize = if self.wanted < 1 {
            1
        } else {
            self.wanted
        };
        let mut said = "None of those are right. ".to_owned();
        said.append(feedback);
        said.append("\n\nPropose ");
        said.append(text::number(wanted as u128).as_str());
        said.append(" new ones that answer that.");
        model::push_message(&mut self.messages, model::assistant(summary));
        model::push_message(&mut self.messages, model::user(said));
    }

    /// Takes in what the model proposed. An empty list is the model failing to
    /// answer, not the user declining, so it must not be reported as an abort. One
    /// proposal needs no list: the confirmation that follows shows it and carries
    /// the same feedback option.
    pub fn proposed(&mut self, candidates: Vec<Message>) -> (r: Next)
        ensures
            final(self)@ == (SessionView {
                candidates: message_views(candidates@),
                ..old(self)@
            }),
            r@ == if candidates@.len() == 0 {
                NextView::NoAnswer
            } else if candidates@.len() == 1 || !old(self)@.interactive {
                chosen(final(self)@, 0)
            } else {
                NextView::Choose
            },
            r@ == after_proposals(final(self)@),
    {
        let count = candidates.len();
        self.candidates = candidates;
        if count == 0 {
            Next::NoAnswer
        } else if count == 1 || !self.interactive {
            self.take(0)
        } else {
            Next::Choose
        }
    }

    /// Takes in what the reader did with the proposed messages. An edited message
    /// goes straight through. It is yours now, so there is nothing left to confirm
    /// about the wording.
    pub fn picked(&mut self, pick: Pick) -> (r: Next)
        requires
            match pick {
                Pick::Message(index) => index < old(self)@.candidates.len(),
                Pick::Edit(index) => index < old(self)@.candidates.len(),
                _ => true,
            },
        ensures
            final(self)@ == match pick {
                Pick::Feedback(feedback) => rejected(old(self)@, feedback@),
                _ => old(self)@,
            },
            r@ == match pick {
                Pick::Cancel => NextView::Aborted,
                Pick::Feedback(_) => NextView::Generate,
                Pick::Reload => NextView::Reload,
                Pick::Edit(index) => NextView::Edit(old(self)@.candidates[index as int]),
                Pick::Message(index) => chosen(old(self)@, index as nat),
            },
            (final(self)@, r@) == after_pick(old(self)@, pick),
    {
        match pick {
            Pick::Cancel => Next::Aborted,
            Pick::Feedback(feedback) => {
                self.reject(feedback.as_str());
                Next::Generate
            },
            Pick::Reload => Next::Reload,
            Pick::Edit(index) => {
                assert(self@.candidates[index as int] == self.candidates@[index as int]@);
                Next::Edit(self.candidates[index].clone())
            },
            Pick::Message(index) => self.take(index),
        }
    }

    /// Takes in what was decided about the message at a place.
    pub fn decided(&mut self, index: usize, decision: Decision) -> (r: Next)
        requires
            index < old(self)@.candidates.len(),
        ensures
            final(self)@ == match decision {
                Decision::Feedback(feedback) => rejected(old(self)@, feedback@),
                Decision::Edit => SessionView { review: true, ..old(self)@ },
                _ => old(self)@,
            },
            r@ == match decision {
                Decision::Commit => NextView::Done(old(self)@.candidates[index as int]),
                Decision::Edit => NextView::Done(old(self)@.candidates[index as int]),
                Decision::Feedback(_) => NextView::Generate,
                Decision::Reload => NextView::Reload,
                Decision::Cancel => NextView::Aborted,
            },
            (final(self)@, r@) == after_decision(old(self)@, index as nat, decision),
    {
        assert(self@.candidates[index as int] == self.candidates@[index as int]@);
        match decision {
            Decision::Commit => Next::Done(self.candidates[index].clone()),
            Decision::Edit => {
                self.review = true;
                Next::Done(self.candidates[index].clone())
            },
            Decision::Feedback(feedback) => {
                self.reject(feedback.as_str());
                Next::Generate
            },
            Decision::Reload => Next::Reload,
            Decision::Cancel => Next::Aborted,
        }
    }

    /// Takes in what was saved in the editor, if anything was.
    pub fn saved(&self, message: Option<Message>) -> (r: Next)
        ensures
            r@ == match message {
                Some(message) => NextView::Done(message@),
                None => NextView::Aborted,
            },
    {
        match message {
            Some(message) => Next::Done(message),
            None => Next::Aborted,
        }
    }
}

/// How the chosen message leaves.
#[derive(Debug)]
pub enum Outcome {
    /// It is printed.
    Print(String),
    /// It is handed to git.
    Commit(String, CommitOptions),
}

/// How a commit is to be made that these flags ask for.
pub open spec fn commit_options(review: bool, args: CommitArgs) -> CommitOptions {
    CommitOptions {
        skip_hooks: args.skip_hooks,
        gpg_sign: args.gpg_sign,
        signoff: args.signoff,
        amend: args.amend,
        review,
    }
}

/// The event that says which message was chosen, and how it leaves: printed where
/// that was asked for, and handed to git otherwise.
pub fn conclude(chosen: &Message, review: bool, args: &CommitArgs, global: &GlobalArgs) -> (r: (
    Event,
    Outcome,
))
    ensures
        r.0@ == (EventView::Message { subject: chosen.subject@, body: chosen.body@ }),
        if global.print {
            r.1 matches Outcome::Print(text) && text@ == rendered(chosen@)
        } else {
            r.1 matches Outcome::Commit(text, options) && text@ == rendered(chosen@) && options == (
            CommitOptions {
                review,
                amend: args.amend,
                signoff: args.signoff,
                gpg_sign: args.gpg_sign,
                skip_hooks: args.skip_hooks,
            })
        },
        r.1 matches Outcome::Commit(_, options) ==> options == commit_options(review, *args),
{
    let event = Event::Message { subject: chosen.subject.clone(), body: chosen.body.clone() };
    let message = chosen.render();
    if global.print {
        (event, Outcome::Print(message))
    } else {
        (
            event,
            Outcome::Commit(
                message,
                CommitOptions {
                    review,
                    amend: args.amend,
                    signoff: args.signoff,
                    gpg_sign: args.gpg_sign,
                    skip_hooks: args.skip_hooks,
                },
            ),
        )
    }
}

// ---------------------------------------------------------------------------
// Laws
// ---------------------------------------------------------------------------

/// Whether a message is told apart from its text: the subject says something, or
/// nothing does, and it holds no blank line, which would end it early. Without a
/// body it is one line, as the next one would be taken for the body.
pub open spec fn is_clear(message: MessageView) -> bool {
    let subject = text::trim(message.subject);
    if text::blank(message.body) {
        !subject.contains('\n')
    } else {
        subject.len() > 0 && text::find_text(subject, "\n\n"@) is None
    }
}

/// Reading the text of a message gives the message back, without the white space
/// around its subject and its body.
pub proof fn law_message_reads_back(message: MessageView)
    requires
        is_clear(message),
    ensures
        parsed(rendered(message)) == (MessageView {
            subject: text::trim(message.subject),
            body: text::trim(message.body),
        }),
{
    reveal_strlit("\n\n");
    let subject = text::trim(message.subject);
    let body = text::trim(message.body);
    let gap = "\n\n"@;
    text::lemma_trim_ends(message.subject);
    text::lemma_trim_ends(message.body);
    text::lemma_trim_fixed(subject);
    text::lemma_trim_fixed(body);
    if text::blank(message.body) {
        assert(body =~= Seq::empty());
        assert forall|m: int| 0 <= m <= subject.len() implies !text::starts_with(
            #[trigger] subject.skip(m),
            gap,
        ) by {
            if text::starts_with(subject.skip(m), gap) {
                assert(subject.skip(m).take(2)[0] == '\n');
                assert(subject[m] == '\n');
            }
        }
        text::lemma_find_text(subject, gap);
        if subject.len() > 0 {
            text::lemma_find(subject, '\n');
            let n = text::find(subject, '\n') as int;
            if n < subject.len() {
                assert(subject[n] == '\n');
            }
            assert(text::lines(subject) =~= seq![subject]);
            assert(text::lines(subject).drop_first() =~= Seq::empty());
        } else {
            assert(subject =~= Seq::empty());
        }
    } else {
        let whole = subject + gap + body;
        let n = subject.len() as int;
        text::lemma_trim_fixed(whole);
        text::lemma_find_text(subject, gap);
        assert(whole.skip(n).take(2) =~= gap);
        assert forall|m: int| 0 <= m < n implies !text::starts_with(
            #[trigger] whole.skip(m),
            gap,
        ) by {
            if text::starts_with(whole.skip(m), gap) {
                assert(whole.skip(m).take(2)[0] == '\n' && whole.skip(m).take(2)[1] == '\n');
                assert(whole[m] == '\n' && whole[m + 1] == '\n');
                if m + 1 < n {
                    assert(subject.skip(m).take(2) =~= gap);
                }
            }
        }
        text::lemma_find_text_at(whole, gap, n);
        assert(whole.take(n) =~= subject);
        assert(whole.skip(n + 2) =~= body);
    }
}

/// The text of a message never has white space around it, so a subject on its own
/// has no blank line after it.
pub proof fn law_rendered_text_is_trim(message: MessageView)
    requires
        text::trim(message.subject).len() > 0,
    ensures
        text::trim(rendered(message)) == rendered(message),
        text::blank(message.body) ==> rendered(message) == text::trim(message.subject),
{
    text::lemma_trim_ends(message.subject);
    text::lemma_trim_ends(message.body);
    text::lemma_trim_fixed(rendered(message));
}

/// Each rejected round stays in the conversation: everything said before is still
/// there, then what was proposed, then what the reader said of it.
pub proof fn law_rejected_rounds_stay(session: SessionView, feedback: Seq<char>)
    ensures
        ({
            let after = rejected(session, feedback).messages;
            let before = session.messages;
            &&& after.len() == before.len() + 2
            &&& after.take(before.len() as int) == before
            &&& after[before.len() as int] == ChatView::Assistant(
                Some(text::join(proposal_lines(session.candidates), "\n"@)),
                None,
            )
            &&& after[before.len() as int + 1] == ChatView::User(
                rejection_text(feedback, session.wanted as nat),
            )
        }),
{
    assert(rejected(session, feedback).messages.take(session.messages.len() as int)
        =~= session.messages);
}

/// Nothing is stored unseen: where there is someone to ask, and the first message
/// is not taken as it is, a message that is chosen is shown first.
pub proof fn law_nothing_is_stored_unseen(session: SessionView, index: nat)
    requires
        session.interactive,
        !session.direct,
    ensures
        chosen(session, index) == NextView::Confirm(index),
{
}

/// No comment is left in what was saved, and no other line is dropped.
pub proof fn law_comments_are_dropped(lines: Seq<Seq<char>>, line: Seq<char>)
    ensures
        without_comments(lines).contains(line) <==> lines.contains(line) && !is_comment(line),
    decreases lines.len(),
{
    if lines.len() > 0 {
        let rest = lines.drop_last();
        let before = without_comments(rest);
        let after = without_comments(lines);
        law_comments_are_dropped(rest, line);
        if after.contains(line) {
            let i = choose|i: int| 0 <= i < after.len() && after[i] == line;
            if i < before.len() {
                assert(before[i] == line);
                let j = choose|j: int| 0 <= j < rest.len() && rest[j] == line;
                assert(lines[j] == line);
            } else {
                assert(lines[lines.len() - 1] == line);
            }
        }
        if lines.contains(line) && !is_comment(line) {
            let j = choose|j: int| 0 <= j < lines.len() && lines[j] == line;
            if j < rest.len() {
                assert(rest[j] == line);
                let i = choose|i: int| 0 <= i < before.len() && before[i] == line;
                assert(after[i] == line);
            } else {
                assert(after.last() == line);
            }
        }
    }
}

/// The diff comes last in the context.
pub proof fn law_diff_comes_last(
    recent: Seq<PastView>,
    touching: Option<Seq<char>>,
    template: Option<Seq<char>>,
    branch: Option<Seq<char>>,
    diff: git::DiffView,
)
    ensures
        ({
            let prompt = context_text(recent, touching, template, branch, diff);
            &&& prompt.len() >= diff.included.len()
            &&& prompt.skip(prompt.len() - diff.included.len()) == diff.included
        }),
{
    let prompt = context_text(recent, touching, template, branch, diff);
    assert(prompt.skip(prompt.len() - diff.included.len()) =~= diff.included);
}

/// The sentence on the conventional commits format.
pub open spec fn conventional_sentence() -> Seq<char> {
    "\n\nUse the conventional commits format: `type(scope): subject`, where type is one of feat, fix, docs, style, refactor, perf, test, build, ci, chore or revert. The scope is optional."@
}

/// The instructions without anything that was asked for.
pub open spec fn plain_instructions(config: config::ConfigView, body: bool) -> Seq<char> {
    instructions(
        config::ConfigView { conventional_commits: false, ..config },
        body,
        None,
        None,
        None,
    )
}

/// Everything that is asked for is told once, behind what is told in any case, and each
/// thing by itself: the conventional commits format where that is set, then the type, the
/// scope and the issue where they are given. No number of candidates changes that, nor
/// whether a body is allowed.
pub proof fn law_what_is_asked_for_is_told(
    config: config::ConfigView,
    body: bool,
    kind: Option<Seq<char>>,
    scope: Option<Seq<char>>,
    issue: Option<Seq<char>>,
)
    ensures
        instructions(config, body, kind, scope, issue) == plain_instructions(config, body)
            + (if config.conventional_commits {
            conventional_sentence()
        } else {
            Seq::empty()
        }) + (match kind {
            Some(kind) => "\n\nThe type must be `"@ + kind + "`."@,
            None => Seq::empty(),
        }) + (match scope {
            Some(scope) => "\n\nThe scope must be `"@ + scope + "`."@,
            None => Seq::empty(),
        }) + (match issue {
            Some(issue) => "\n\nReference issue "@ + issue + " in the message."@,
            None => Seq::empty(),
        }),
{
    assert(instructions(config, body, kind, scope, issue) =~= plain_instructions(config, body)
        + (if config.conventional_commits {
        conventional_sentence()
    } else {
        Seq::empty()
    }) + (match kind {
        Some(kind) => "\n\nThe type must be `"@ + kind + "`."@,
        None => Seq::empty(),
    }) + (match scope {
        Some(scope) => "\n\nThe scope must be `"@ + scope + "`."@,
        None => Seq::empty(),
    }) + (match issue {
        Some(issue) => "\n\nReference issue "@ + issue + " in the message."@,
        None => Seq::empty(),
    }));
}

/// The instructions hold the sentence on the conventional commits format exactly where
/// that is set, for every number of candidates and whether or not a body is allowed. (A
/// type, a scope or an issue that holds the sentence itself brings it along.)
pub proof fn law_conventional_format_is_told_where_set(
    config: config::ConfigView,
    body: bool,
    kind: Option<Seq<char>>,
    scope: Option<Seq<char>>,
    issue: Option<Seq<char>>,
)
    ensures
        text::has_part(instructions(config, body, None, None, None), conventional_sentence())
            <==> config.conventional_commits,
        config.conventional_commits ==> text::has_part(
            instructions(config, body, kind, scope, issue),
            conventional_sentence(),
        ),
        !config.conventional_commits && holds_no_bracket(kind) && holds_no_bracket(scope)
            && holds_no_bracket(issue) ==> !text::has_part(
            instructions(config, body, kind, scope, issue),
            conventional_sentence(),
        ),
{
    law_what_is_asked_for_is_told(config, body, kind, scope, issue);
    law_what_is_asked_for_is_told(config, body, None, None, None);
    let plain = plain_instructions(config, body);
    if config.conventional_commits {
        let all = instructions(config, body, kind, scope, issue);
        let n = plain.len() as int;
        let k = conventional_sentence().len() as int;
        assert(all.skip(n).take(k) =~= conventional_sentence());
        assert(text::starts_with(all.skip(n), conventional_sentence()));
        let bare = instructions(config, body, None, None, None);
        assert(bare.skip(n).take(k) =~= conventional_sentence());
        assert(text::starts_with(bare.skip(n), conventional_sentence()));
    } else {
        lemma_plain_holds_no_bracket(config, body);
        lemma_sentence_needs_bracket(instructions(config, body, None, None, None));
        if holds_no_bracket(kind) && holds_no_bracket(scope) && holds_no_bracket(issue) {
            reveal_strlit("\n\nThe type must be `");
            reveal_strlit("`.");
            reveal_strlit("\n\nThe scope must be `");
            reveal_strlit("\n\nReference issue ");
            reveal_strlit(" in the message.");
            assert(!"\n\nThe type must be `"@.contains('('));
            assert(!"`."@.contains('('));
            assert(!"\n\nThe scope must be `"@.contains('('));
            assert(!"\n\nReference issue "@.contains('('));
            assert(!" in the message."@.contains('('));
            let a = match kind {
                Some(kind) => "\n\nThe type must be `"@ + kind + "`."@,
                None => Seq::empty(),
            };
            let b = match scope {
                Some(scope) => "\n\nThe scope must be `"@ + scope + "`."@,
                None => Seq::empty(),
            };
            let c = match issue {
                Some(issue) => "\n\nReference issue "@ + issue + " in the message."@,
                None => Seq::empty(),
            };
            if let Some(kind) = kind {
                lemma_none_in_three("\n\nThe type must be `"@, kind, "`."@, '(');
            }
            if let Some(scope) = scope {
                lemma_none_in_three("\n\nThe scope must be `"@, scope, "`."@, '(');
            }
            if let Some(issue) = issue {
                lemma_none_in_three("\n\nReference issue "@, issue, " in the message."@, '(');
            }
            lemma_none_in_three(plain, Seq::empty(), a, '(');
            lemma_none_in_three(plain + Seq::empty() + a, b, c, '(');
            lemma_sentence_needs_bracket(instructions(config, body, kind, scope, issue));
        }
    }
}

/// Whether what is asked for, if anything, holds no opening bracket.
pub open spec fn holds_no_bracket(what: Option<Seq<char>>) -> bool {
    match what {
        Some(what) => !what.contains('('),
        None => true,
    }
}

proof fn lemma_none_in_three(a: Seq<char>, b: Seq<char>, d: Seq<char>, c: char)
    requires
        !a.contains(c),
        !b.contains(c),
        !d.contains(c),
    ensures
        !(a + b + d).contains(c),
{
    let all = a + b + d;
    assert forall|i: int| 0 <= i < all.len() implies all[i] != c by {
        if i < a.len() {
            assert(a.contains(a[i]));
        } else if i < a.len() + b.len() {
            assert(b.contains(b[i - a.len()]));
        } else {
            assert(d.contains(d[i - a.len() - b.len()]));
        }
    }
}

proof fn lemma_sentence_needs_bracket(s: Seq<char>)
    requires
        !s.contains('('),
    ensures
        !text::has_part(s, conventional_sentence()),
{
    let sentence = conventional_sentence();
    reveal_strlit("\n\nUse the conventional commits format: `type(scope): subject`, where type is one of feat, fix, docs, style, refactor, perf, test, build, ci, chore or revert. The scope is optional.");
    assert(sentence[44] == '(');
    if text::has_part(s, sentence) {
        let at = choose|at: int|
            0 <= at <= s.len() && text::starts_with(#[trigger] s.skip(at), sentence);
        assert(s.skip(at).take(sentence.len() as int)[44] == s[at + 44]);
        assert(s.contains(s[at + 44]));
    }
}

proof fn lemma_plain_holds_no_bracket(config: config::ConfigView, body: bool)
    ensures
        !plain_instructions(config, body).contains('('),
{
    lemma_literals_hold_no_bracket();
    text::lemma_decimal_reads_back(config.candidates as nat);
    text::lemma_decimal_reads_back(config.subject_max_len as nat);
    assert(!text::decimal(config.candidates as nat).contains('('));
    assert(!text::decimal(config.subject_max_len as nat).contains('('));
    let shape = shape_text(config.candidates as nat);
    let rest = body_text(body, config.candidates <= 1);
    let intro = "You are an experienced programmer writing the commit message for a staged change.\n\n"@;
    let keep = " Keep the subject under "@;
    let chars = " characters."@;
    let conventions = "\n\nMatch the conventions of the previous commits you are shown: their mood, their prefixes, their width, whether they carry a body. Those examples outrank any habit of your own. Do not invent a convention they do not use."@;
    if config.candidates > 1 {
        lemma_none_in_three("Propose "@, text::decimal(config.candidates as nat), " different messages for this one change, in the `messages` array. Each carries a `subject` and a `body`. Make them genuinely different in what they emphasise, not rewordings of each other. The subject is in the imperative mood, with no trailing full stop."@, '(');
    }
    lemma_none_in_three(intro, shape, keep, '(');
    lemma_none_in_three(
        intro + shape + keep,
        text::decimal(config.subject_max_len as nat),
        chars,
        '(',
    );
    let start = intro + shape + keep + text::decimal(config.subject_max_len as nat) + chars;
    lemma_none_in_three(start, rest, conventions, '(');
    assert(plain_instructions(config, body) =~= start + rest + conventions);
}

proof fn lemma_literals_hold_no_bracket()
    ensures
        !"You are an experienced programmer writing the commit message for a staged change.\n\n"@.contains('('),
        !"Reply with the message and nothing else. No preamble, no code fences, no quotes. The first line is the subject: imperative mood, no trailing full stop."@.contains('('),
        !"Propose "@.contains('('),
        !" different messages for this one change, in the `messages` array. Each carries a `subject` and a `body`. Make them genuinely different in what they emphasise, not rewordings of each other. The subject is in the imperative mood, with no trailing full stop."@.contains('('),
        !" Keep the subject under "@.contains('('),
        !" characters."@.contains('('),
        !"\nThen a blank line, then a body explaining why the change was made, wrapped at 72 characters. Leave the body out when the subject already says everything."@.contains('('),
        !"\nThe body explains why the change was made, wrapped at 72 characters. Leave it as an empty string when the subject already says everything."@.contains('('),
        !"\nWrite the subject only. No body."@.contains('('),
        !"\nLeave every body as an empty string."@.contains('('),
        !"\n\nMatch the conventions of the previous commits you are shown: their mood, their prefixes, their width, whether they carry a body. Those examples outrank any habit of your own. Do not invent a convention they do not use."@.contains('('),
{
    reveal_strlit("You are an experienced programmer writing the commit message for a staged change.\n\n");
    assert(!"You are an experienced programmer writing the commit message for a staged change.\n\n"@.contains('('));
    reveal_strlit("Reply with the message and nothing else. No preamble, no code fences, no quotes. The first line is the subject: imperative mood, no trailing full stop.");
    assert(!"Reply with the message and nothing else. No preamble, no code fences, no quotes. The first line is the subject: imperative mood, no trailing full stop."@.contains('('));
    reveal_strlit("Propose ");
    assert(!"Propose "@.contains('('));
    reveal_strlit(" different messages for this one change, in the `messages` array. Each carries a `subject` and a `body`. Make them genuinely different in what they emphasise, not rewordings of each other. The subject is in the imperative mood, with no trailing full stop.");
    assert(!" different messages for this one change, in the `messages` array. Each carries a `subject` and a `body`. Make them genuinely different in what they emphasise, not rewordings of each other. The subject is in the imperative mood, with no trailing full stop."@.contains('('));
    reveal_strlit(" Keep the subject under ");
    assert(!" Keep the subject under "@.contains('('));
    reveal_strlit(" characters.");
    assert(!" characters."@.contains('('));
    reveal_strlit("\nThen a blank line, then a body explaining why the change was made, wrapped at 72 characters. Leave the body out when the subject already says everything.");
    assert(!"\nThen a blank line, then a body explaining why the change was made, wrapped at 72 characters. Leave the body out when the subject already says everything."@.contains('('));
    reveal_strlit("\nThe body explains why the change was made, wrapped at 72 characters. Leave it as an empty string when the subject already says everything.");
    assert(!"\nThe body explains why the change was made, wrapped at 72 characters. Leave it as an empty string when the subject already says everything."@.contains('('));
    reveal_strlit("\nWrite the subject only. No body.");
    assert(!"\nWrite the subject only. No body."@.contains('('));
    reveal_strlit("\nLeave every body as an empty string.");
    assert(!"\nLeave every body as an empty string."@.contains('('));
    reveal_strlit("\n\nMatch the conventions of the previous commits you are shown: their mood, their prefixes, their width, whether they carry a body. Those examples outrank any habit of your own. Do not invent a convention they do not use.");
    assert(!"\n\nMatch the conventions of the previous commits you are shown: their mood, their prefixes, their width, whether they carry a body. Those examples outrank any habit of your own. Do not invent a convention they do not use."@.contains('('));
}

/// The instructions ask for one message, or for as many as there are to be candidates;
/// state the length that the subject is held to; ask for a body where one is allowed and
/// rule it out where not; and point at the conventions of the past.
pub proof fn law_instructions_fit_the_settings(
    config: config::ConfigView,
    body: bool,
    kind: Option<Seq<char>>,
    scope: Option<Seq<char>>,
    issue: Option<Seq<char>>,
)
    ensures
        text::starts_with(
            instructions(config, body, kind, scope, issue),
            "You are an experienced programmer writing the commit message for a staged change.\n\n"@ + (if config.candidates <= 1 {
                "Reply with the message and nothing else. No preamble, no code fences, no quotes. The first line is the subject: imperative mood, no trailing full stop."@
            } else {
                "Propose "@ + text::decimal(config.candidates as nat)
                    + " different messages for this one change, in the `messages` array. Each carries a `subject` and a `body`. Make them genuinely different in what they emphasise, not rewordings of each other. The subject is in the imperative mood, with no trailing full stop."@
            }) + " Keep the subject under "@ + text::decimal(config.subject_max_len as nat)
                + " characters."@ + (match (body, config.candidates <= 1) {
                (true, true) => "\nThen a blank line, then a body explaining why the change was made, wrapped at 72 characters. Leave the body out when the subject already says everything."@,
                (true, false) => "\nThe body explains why the change was made, wrapped at 72 characters. Leave it as an empty string when the subject already says everything."@,
                (false, true) => "\nWrite the subject only. No body."@,
                (false, false) => "\nLeave every body as an empty string."@,
            }) + "\n\nMatch the conventions of the previous commits you are shown: their mood, their prefixes, their width, whether they carry a body. Those examples outrank any habit of your own. Do not invent a convention they do not use."@,
        ),
{
    law_what_is_asked_for_is_told(config, body, kind, scope, issue);
    let plain = plain_instructions(config, body);
    let all = instructions(config, body, kind, scope, issue);
    assert(all.take(plain.len() as int) =~= plain);
    assert(plain =~= "You are an experienced programmer writing the commit message for a staged change.\n\n"@ + shape_text(config.candidates as nat) + " Keep the subject under "@
        + text::decimal(config.subject_max_len as nat) + " characters."@ + body_text(
        body,
        config.candidates <= 1,
    ) + "\n\nMatch the conventions of the previous commits you are shown: their mood, their prefixes, their width, whether they carry a body. Those examples outrank any habit of your own. Do not invent a convention they do not use."@);
}

/// The context tells everything it is given, each thing under its own heading and in the
/// same order, and leaves out the headings of what there is none of. The files and the
/// diff come last, whatever stands before them.
pub proof fn law_context_tells_everything(
    recent: Seq<PastView>,
    touching: Option<Seq<char>>,
    template: Option<Seq<char>>,
    branch: Option<Seq<char>>,
    diff: git::DiffView,
)
    ensures
        context_text(recent, touching, template, branch, diff) == (if recent.len() > 0 {
            "# Recent commits in this repository\n\n"@ + example_texts(recent) + "\n"@
        } else {
            Seq::empty()
        }) + (match touching {
            Some(log) => "# Recent commits touching these same files\n\n"@ + log + "\n\n"@,
            None => Seq::empty(),
        }) + (match branch {
            Some(branch) => "# Current branch\n\n"@ + branch + "\n\n"@,
            None => Seq::empty(),
        }) + (match template {
            Some(template) =>
            "# This repository's commit template, which states its convention outright\n\n"@
                + template + "\n\n"@,
            None => Seq::empty(),
        }) + context_text(Seq::empty(), None, None, None, diff),
        text::starts_with(
            context_text(Seq::empty(), None, None, None, diff),
            "# Every file in the staged change\n\n"@ + git::manifest_text(
                diff.files,
                git::widest(diff.files),
            ) + "\n"@,
        ),
        text::has_end(
            context_text(recent, touching, template, branch, diff),
            "\n# The staged diff\n\n"@ + diff.included,
        ),
        text::has_part(
            context_text(recent, touching, template, branch, diff),
            git::manifest_text(diff.files, git::widest(diff.files)),
        ),
{
    let all = context_text(recent, touching, template, branch, diff);
    let plain = context_text(Seq::empty(), None, None, None, diff);
    let manifest = git::manifest_text(diff.files, git::widest(diff.files));
    let front = (if recent.len() > 0 {
        "# Recent commits in this repository\n\n"@ + example_texts(recent) + "\n"@
    } else {
        Seq::empty()
    }) + (match touching {
        Some(log) => "# Recent commits touching these same files\n\n"@ + log + "\n\n"@,
        None => Seq::empty(),
    }) + (match branch {
        Some(branch) => "# Current branch\n\n"@ + branch + "\n\n"@,
        None => Seq::empty(),
    }) + (match template {
        Some(template) =>
        "# This repository's commit template, which states its convention outright\n\n"@
            + template + "\n\n"@,
        None => Seq::empty(),
    });
    let none = Seq::<char>::empty();
    let title = "# Every file in the staged change\n\n"@;
    let feed = "\n"@;
    let note = withheld_text(diff);
    let heading = "\n# The staged diff\n\n"@;
    lemma_parts_follow(front, title, manifest, feed, note, heading, diff.included);
    lemma_parts_follow(none + none + none + none, title, manifest, feed, note, heading, diff.included);
    assert(none + none + none + none =~= none);
    let rest = title + manifest + feed + note + heading + diff.included;
    assert(none + rest =~= rest);
}

proof fn lemma_parts_follow(
    front: Seq<char>,
    title: Seq<char>,
    manifest: Seq<char>,
    feed: Seq<char>,
    note: Seq<char>,
    heading: Seq<char>,
    included: Seq<char>,
)
    ensures
        ({
            let all = front + title + manifest + feed + note + heading + included;
            &&& all == front + (title + manifest + feed + note + heading + included)
            &&& text::starts_with(all, front + title + manifest + feed)
            &&& text::starts_with(
                title + manifest + feed + note + heading + included,
                title + manifest + feed,
            )
            &&& text::has_end(all, heading + included)
            &&& text::has_part(all, manifest)
        }),
{
    let all = front + title + manifest + feed + note + heading + included;
    let rest = title + manifest + feed + note + heading + included;
    assert(all =~= front + rest);
    let head = front + title + manifest + feed;
    assert(all.take(head.len() as int) =~= head);
    let start = title + manifest + feed;
    assert(rest.take(start.len() as int) =~= start);
    let end = heading + included;
    assert(all.skip(all.len() - end.len()) =~= end);
    text::lemma_part_between(front + title, manifest, feed + note + heading + included);
    assert(all =~= front + title + manifest + (feed + note + heading + included));
}

/// The model is told to read what is withheld where nothing else is shown, and that it may
/// where something is withheld; where nothing is withheld the diff follows the files.
pub proof fn law_withheld_hunks_are_announced(diff: git::DiffView)
    ensures
        context_text(Seq::empty(), None, None, None, diff) == "# Every file in the staged change\n\n"@
            + git::manifest_text(diff.files, git::widest(diff.files)) + "\n"@
            + (if text::all_white(diff.included) {
            "\nNone of these hunks are below: every file was withheld. You cannot describe this change from the file names, so call `search_diff` or `read_diff` and read enough of it to say what actually changed before you answer.\n"@
        } else if diff.withheld.len() > 0 {
            "\nThe hunks of the withheld files are not below. Call `search_diff` or `read_diff` if one of them looks like it might be the point of this commit rather than noise.\n"@
        } else {
            Seq::empty()
        }) + "\n# The staged diff\n\n"@ + diff.included,
{
    text::law_trim_takes_white_space_off_the_ends(diff.included);
    assert(context_text(Seq::empty(), None, None, None, diff)
        =~= "# Every file in the staged change\n\n"@ + git::manifest_text(
        diff.files,
        git::widest(diff.files),
    ) + "\n"@ + withheld_text(diff) + "\n# The staged diff\n\n"@ + diff.included);
}

/// The commits of the past are shown one by one, each with its body, if it has one.
pub proof fn law_every_past_commit_is_shown(a: Seq<PastView>, b: Seq<PastView>, commit: PastView)
    ensures
        example_texts(Seq::empty()) == Seq::<char>::empty(),
        example_texts(a + b) == example_texts(a) + example_texts(b),
        commit.body.len() == 0 ==> example_texts(seq![commit]) == commit.subject + "\n---\n"@,
        commit.body.len() > 0 ==> example_texts(seq![commit]) == commit.subject + "\n"@
            + commit.body + "\n---\n"@,
        bodies(a + b) == bodies(a) + bodies(b),
        bodies(seq![commit]) == if commit.body.len() > 0 {
            1nat
        } else {
            0
        },
        bodies(Seq::empty()) == 0,
    decreases b.len(),
{
    reveal_strlit("\n");
    reveal_strlit("---\n");
    reveal_strlit("\n---\n");
    assert("\n---\n"@ =~= "\n"@ + "---\n"@);
    reveal_with_fuel(example_texts, 2);
    reveal_with_fuel(bodies, 2);
    assert(seq![commit].drop_last() =~= Seq::<PastView>::empty());
    if commit.body.len() == 0 {
        assert(example_texts(seq![commit]) =~= commit.subject + "\n---\n"@);
    } else {
        assert(example_texts(seq![commit]) =~= commit.subject + "\n"@ + commit.body
            + "\n---\n"@);
    }
    if b.len() == 0 {
        assert(a + b =~= a);
        assert(example_texts(a + b) =~= example_texts(a) + example_texts(b));
    } else {
        law_every_past_commit_is_shown(a, b.drop_last(), commit);
        assert((a + b).drop_last() =~= a + b.drop_last());
        assert(example_texts(a + b) =~= example_texts(a) + example_texts(b));
    }
}

/// A line is a comment where the first character that is no white space is a number sign,
/// and only there.
pub proof fn law_comments_start_with_a_number_sign(
    gap: Seq<char>,
    c: char,
    rest: Seq<char>,
)
    requires
        text::all_white(gap),
        !text::is_white(c),
    ensures
        !is_comment(gap),
        is_comment(gap + seq![c] + rest) <==> c == '#',
    decreases gap.len(),
{
    reveal_strlit("#");
    let line = gap + seq![c] + rest;
    lemma_gap_is_dropped(gap, seq![c] + rest);
    assert(line =~= gap + (seq![c] + rest));
    let start = seq![c] + rest;
    assert(start.take(1) =~= seq![c]);
    assert("#"@ =~= seq!['#']);
    assert(seq![c][0] == c && seq!['#'][0] == '#');
    lemma_gap_is_dropped(gap, Seq::empty());
    assert(gap + Seq::<char>::empty() =~= gap);
}

proof fn lemma_gap_is_dropped(gap: Seq<char>, rest: Seq<char>)
    requires
        text::all_white(gap),
        rest.len() == 0 || !text::is_white(rest[0]),
    ensures
        text::trim_start(gap + rest) == rest,
    decreases gap.len(),
{
    let all = gap + rest;
    if gap.len() == 0 {
        assert(all =~= rest);
    } else {
        let below = gap.drop_first();
        assert forall|i: int| 0 <= i < below.len() implies text::is_white(#[trigger] below[i]) by {
            assert(below[i] == gap[i + 1]);
        }
        lemma_gap_is_dropped(below, rest);
        assert(all.drop_first() =~= below + rest);
        assert(all[0] == gap[0]);
    }
}

/// Lines stay in their order when the comments are dropped: each is looked at by itself.
pub proof fn law_lines_are_kept_one_by_one(a: Seq<Seq<char>>, b: Seq<Seq<char>>, line: Seq<char>)
    ensures
        without_comments(a + b) == without_comments(a) + without_comments(b),
        without_comments(seq![line]) == if is_comment(line) {
            Seq::empty()
        } else {
            seq![line]
        },
    decreases b.len(),
{
    reveal_with_fuel(without_comments, 2);
    assert(seq![line].drop_last() =~= Seq::<Seq<char>>::empty());
    assert(without_comments(seq![line]) =~= if is_comment(line) {
        Seq::empty()
    } else {
        seq![line]
    });
    if b.len() == 0 {
        assert(a + b =~= a);
        assert(without_comments(a + b) =~= without_comments(a) + without_comments(b));
    } else {
        law_lines_are_kept_one_by_one(a, b.drop_last(), line);
        assert((a + b).drop_last() =~= a + b.drop_last());
        assert(without_comments(a + b) =~= without_comments(a) + without_comments(b));
    }
}

/// The editor opens with the message itself, and a comment behind it that says how to
/// cancel.
pub proof fn law_draft_starts_with_the_message(message: MessageView)
    ensures
        text::starts_with(draft_text(message), rendered(message)),
        draft_text(message).skip(rendered(message).len() as int)
            == "\n\n# Lines starting with # are dropped. Save an empty message to cancel.\n"@,
{
    assert(draft_text(message).take(rendered(message).len() as int) =~= rendered(message));
    assert(draft_text(message).skip(rendered(message).len() as int)
        =~= "\n\n# Lines starting with # are dropped. Save an empty message to cancel.\n"@);
}

/// The text of a message starts with its subject, and where there is a body it follows
/// after a blank line and ends the text; nothing else is added.
pub proof fn law_text_is_subject_and_body(message: MessageView)
    ensures
        text::starts_with(rendered(message), text::trim(message.subject)),
        text::all_white(message.body) ==> rendered(message) == text::trim(message.subject),
        !text::all_white(message.body) ==> rendered(message) == text::trim(message.subject)
            + "\n\n"@ + text::trim(message.body),
{
    text::law_trim_takes_white_space_off_the_ends(message.body);
    let s = text::trim(message.subject);
    assert(rendered(message).take(s.len() as int) =~= s);
}

/// Where no blank line parts a text, its first line is the subject, and the lines behind it
/// are the body.
pub proof fn law_first_line_is_the_subject(line: Seq<char>, rest: Seq<char>)
    requires
        !line.contains('\n'),
        text::trim(line) == line,
        line.len() > 0,
        rest.len() > 0,
        !text::is_white(rest.last()),
        !text::has_part(line.push('\n') + rest, "\n\n"@),
    ensures
        parsed(line.push('\n') + rest) == (MessageView {
            subject: line,
            body: text::join(text::lines(rest), "\n"@),
        }),
        parsed(line) == (MessageView { subject: line, body: Seq::empty() }),
{
    reveal_strlit("\n\n");
    let all = line.push('\n') + rest;
    text::lemma_trim_ends(line);
    text::lemma_trim_fixed(all);
    text::law_split_is_at_the_first(all, "\n\n"@);
    assert(text::is_white('\r'));
    text::law_lines_are_read_one_by_one(line, rest);
    assert(text::lines(all).drop_first() =~= text::lines(rest));
    text::law_split_is_at_the_first(line, "\n\n"@);
    if text::has_part(line, "\n\n"@) {
        text::lemma_part_of_more(line, "\n\n"@, seq!['\n'] + rest);
        assert(line + (seq!['\n'] + rest) =~= all);
    }
    assert(text::lines(line).drop_first() =~= Seq::<Seq<char>>::empty());
}

/// The proposals are listed one on a line, in order, each by its subject.
pub proof fn law_proposals_are_listed(candidates: Seq<MessageView>, i: int)
    requires
        0 <= i < candidates.len(),
    ensures
        proposal_lines(candidates).len() == candidates.len(),
        proposal_lines(candidates)[i] == "- "@ + candidates[i].subject,
        text::has_part(
            text::join(proposal_lines(candidates), "\n"@),
            "- "@ + candidates[i].subject,
        ),
{
    text::lemma_join_holds(proposal_lines(candidates), "\n"@, i);
}

/// The body is shown line by line behind a blank line, and not at all where it is blank.
pub proof fn law_body_is_shown_line_by_line(body: Seq<char>)
    ensures
        text::all_white(body) ==> body_texts(body).len() == 0,
        !text::all_white(body) ==> body_texts(body).len() > 0 && body_texts(body)[0].len() == 0
            && body_texts(body).drop_first() == text::lines(text::trim(body)),
{
    text::law_trim_takes_white_space_off_the_ends(body);
    if !text::all_white(body) {
        assert(body_texts(body).drop_first() =~= text::lines(text::trim(body)));
    }
}

/// The lines of a body are shown one by one, each indented by two spaces unless it is
/// empty.
pub proof fn law_body_lines_are_indented(
    a: Seq<Seq<char>>,
    b: Seq<Seq<char>>,
    line: Seq<char>,
)
    ensures
        body_pieces(a + b) == body_pieces(a) + body_pieces(b),
        output::spoken(body_pieces(seq![line])) == if line.len() == 0 {
            "\n"@
        } else {
            "  "@ + line + "\n"@
        },
        body_pieces(Seq::empty()) == Seq::<PieceView>::empty(),
    decreases b.len(),
{
    reveal_with_fuel(body_pieces, 2);
    assert(seq![line].drop_last() =~= Seq::<Seq<char>>::empty());
    output::lemma_spoken_one(output::line_end());
    let indented = output::piece("  "@ + line, Tint::Plain);
    output::lemma_spoken_one(indented);
    output::lemma_spoken(seq![indented], seq![output::line_end()]);
    if line.len() == 0 {
        assert(body_pieces(seq![line]) =~= seq![output::line_end()]);
    } else {
        assert(body_pieces(seq![line]) =~= seq![indented] + seq![output::line_end()]);
        assert(output::spoken(body_pieces(seq![line])) =~= "  "@ + line + "\n"@);
    }
    if b.len() == 0 {
        assert(a + b =~= a);
        assert(body_pieces(a + b) =~= body_pieces(a) + body_pieces(b));
    } else {
        law_body_lines_are_indented(a, b.drop_last(), line);
        assert((a + b).drop_last() =~= a + b.drop_last());
        assert(body_pieces(a + b) =~= body_pieces(a) + body_pieces(b));
    }
}

/// Before it is stored, the whole message is on the screen: its subject, a warning exactly
/// where the subject is longer than allowed, and every line of the body.
pub proof fn law_whole_message_is_confirmed(message: MessageView, limit: nat)
    ensures
        output::spoken(confirmation_pieces(message, limit)) == "\n  "@ + message.subject + "\n"@ + (
        if message.subject.len() > limit {
            "  "@ + text::decimal(message.subject.len()) + " characters, "@ + text::decimal(
                (message.subject.len() - limit) as nat,
            ) + " over the "@ + text::decimal(limit) + " you configured"@ + "\n"@
        } else {
            Seq::empty()
        }) + output::spoken(body_pieces(body_texts(message.body))) + "\n"@,
        confirmation_pieces(message, limit)[2] == output::piece(message.subject, Tint::Bold),
        (exists|i: int|
            0 <= i < confirmation_pieces(message, limit).len() && (
            #[trigger] confirmation_pieces(message, limit)[i]).tint == Tint::Yellow)
            <==> message.subject.len() > limit,
{
    let end = output::line_end();
    let gap = output::piece("  "@, Tint::Plain);
    let subject = output::piece(message.subject, Tint::Bold);
    let over = output::piece(over_text(message.subject.len(), limit), Tint::Yellow);
    let head = seq![end, gap, subject, end];
    let body = body_pieces(body_texts(message.body));
    let all = confirmation_pieces(message, limit);
    reveal_strlit("\n  ");
    reveal_strlit("\n");
    reveal_strlit("  ");
    assert("\n  "@ =~= "\n"@ + "  "@);
    output::lemma_spoken_one(end);
    output::lemma_spoken_one(gap);
    output::lemma_spoken_one(subject);
    output::lemma_spoken_one(over);
    output::lemma_spoken(seq![end], seq![gap]);
    output::lemma_spoken(seq![end] + seq![gap], seq![subject]);
    output::lemma_spoken(seq![end] + seq![gap] + seq![subject], seq![end]);
    assert(head =~= seq![end] + seq![gap] + seq![subject] + seq![end]);
    assert(output::spoken(head) =~= "\n  "@ + message.subject + "\n"@);
    lemma_body_is_plain(body_texts(message.body));
    assert(all[2] == subject);
    if message.subject.len() > limit {
        let warning = seq![gap, over, end];
        output::lemma_spoken(seq![gap], seq![over]);
        output::lemma_spoken(seq![gap] + seq![over], seq![end]);
        assert(warning =~= seq![gap] + seq![over] + seq![end]);
        output::lemma_spoken(head, warning);
        output::lemma_spoken(head + warning, body);
        output::lemma_spoken(head + warning + body, seq![end]);
        assert(all[5].tint == Tint::Yellow);
        assert(output::spoken(all) =~= "\n  "@ + message.subject + "\n"@ + ("  "@ + text::decimal(
            message.subject.len(),
        ) + " characters, "@ + text::decimal((message.subject.len() - limit) as nat)
            + " over the "@ + text::decimal(limit) + " you configured"@ + "\n"@) + output::spoken(body)
            + "\n"@);
    } else {
        output::lemma_spoken(head, body);
        output::lemma_spoken(head + body, seq![end]);
        assert(output::spoken(all) =~= "\n  "@ + message.subject + "\n"@ + Seq::<char>::empty() + output::spoken(body)
            + "\n"@);
        assert forall|i: int| 0 <= i < all.len() implies (#[trigger] all[i]).tint
            != Tint::Yellow by {
            if head.len() <= i < head.len() + body.len() {
                assert(all[i] == body[i - head.len()]);
            }
        }
    }
}

proof fn lemma_body_is_plain(lines: Seq<Seq<char>>)
    ensures
        forall|i: int|
            0 <= i < body_pieces(lines).len() ==> (#[trigger] body_pieces(lines)[i]).tint
                == Tint::Plain,
    decreases lines.len(),
{
    if lines.len() > 0 {
        lemma_body_is_plain(lines.drop_last());
    }
}

/// The warning says how long the subject is, by how much that is too long, and what is
/// allowed.
pub proof fn law_warning_counts(limit: nat, over: nat)
    ensures
        over_text(limit + over, limit) == text::decimal(limit + over) + " characters, "@
            + text::decimal(over) + " over the "@ + text::decimal(limit) + " you configured"@,
{
}

/// What is not staged is listed one file on a line, with its status and its path.
pub proof fn law_every_unstaged_file_is_listed(
    a: Seq<(Seq<char>, Seq<char>)>,
    b: Seq<(Seq<char>, Seq<char>)>,
    status: Seq<char>,
    path: Seq<char>,
)
    ensures
        dirty_pieces(a + b) == dirty_pieces(a) + dirty_pieces(b),
        output::spoken(dirty_pieces(seq![(status, path)])) == "  "@ + text::pad_end(status, 2) + "  "@ + path
            + "\n"@,
        dirty_pieces(Seq::empty()) == Seq::<PieceView>::empty(),
    decreases b.len(),
{
    reveal_with_fuel(dirty_pieces, 2);
    let one = seq![(status, path)];
    assert(one.drop_last() =~= Seq::<(Seq<char>, Seq<char>)>::empty());
    let gap = output::piece("  "@, Tint::Plain);
    let shown = output::piece(text::pad_end(status, 2), Tint::Yellow);
    let name = output::piece("  "@ + path, Tint::Plain);
    let end = output::line_end();
    output::lemma_spoken_one(gap);
    output::lemma_spoken_one(shown);
    output::lemma_spoken_one(name);
    output::lemma_spoken_one(end);
    output::lemma_spoken(seq![gap], seq![shown]);
    output::lemma_spoken(seq![gap] + seq![shown], seq![name]);
    output::lemma_spoken(seq![gap] + seq![shown] + seq![name], seq![end]);
    assert(dirty_pieces(one) =~= seq![gap] + seq![shown] + seq![name] + seq![end]);
    assert(output::spoken(dirty_pieces(one)) =~= "  "@ + text::pad_end(status, 2) + "  "@ + path + "\n"@);
    if b.len() == 0 {
        assert(a + b =~= a);
        assert(dirty_pieces(a + b) =~= dirty_pieces(a) + dirty_pieces(b));
    } else {
        law_every_unstaged_file_is_listed(a, b.drop_last(), status, path);
        assert((a + b).drop_last() =~= a + b.drop_last());
        assert(dirty_pieces(a + b) =~= dirty_pieces(a) + dirty_pieces(b));
    }
}

/// A rejection tells the model what the reader said, word for word, and how many new
/// messages to propose, which is never none. It changes nothing else of the session.
pub proof fn law_rejections_pass_the_feedback_on(
    session: SessionView,
    feedback: Seq<char>,
    wanted: nat,
)
    ensures
        text::starts_with(rejection_text(feedback, wanted), "None of those are right. "@ + feedback),
        wanted > 0 ==> rejection_text(feedback, wanted).skip(
            ("None of those are right. "@ + feedback).len() as int,
        ) == "\n\nPropose "@ + text::decimal(wanted) + " new ones that answer that."@,
        rejection_text(feedback, 0) == rejection_text(feedback, 1),
        rejected(session, feedback) == (SessionView {
            messages: rejected(session, feedback).messages,
            ..session
        }),
{
    let head = "None of those are right. "@ + feedback;
    let all = rejection_text(feedback, wanted);
    assert(all.take(head.len() as int) =~= head);
    if wanted > 0 {
        assert(all.skip(head.len() as int) =~= "\n\nPropose "@ + text::decimal(wanted)
            + " new ones that answer that."@);
    }
}

/// A message that is taken as it is, or that nobody can be asked about, is stored, and it
/// is the one that was chosen.
pub proof fn law_chosen_message_is_stored(session: SessionView, index: nat)
    ensures
        session.direct ==> chosen(session, index) == NextView::Done(
            session.candidates[index as int],
        ),
        !session.interactive ==> chosen(session, index) == NextView::Done(
            session.candidates[index as int],
        ),
        chosen(session, index) matches NextView::Done(message) ==> message
            == session.candidates[index as int],
        chosen(session, index) matches NextView::Confirm(shown) ==> shown == index,
{
}

/// The place of a decision in the list is the place under which it is made: committing
/// first, then editing, feedback, reloading, and giving up last.
pub proof fn law_decisions_stand_in_their_places(index: int)
    requires
        0 <= index < decision_labels().len(),
    ensures
        decision_labels().len() == 5,
        index == 0 ==> decision_labels()[index] == "commit"@,
        index == 1 ==> decision_labels()[index] == "edit first"@,
        index == 2 ==> decision_labels()[index] == "try again, with feedback"@,
        index == 3 ==> decision_labels()[index] == "reload the staged change and try again"@,
        index == 4 ==> decision_labels()[index] == "cancel"@,
{
}

/// A text is a message whatever white space stands around it: what stands before its first
/// blank line is the subject, and what stands behind it the body, and nothing but white
/// space is a message that says nothing.
pub proof fn law_blank_line_parts_a_message(source: Seq<char>)
    ensures
        parsed(source) == parsed(text::trim(source)),
        text::split_once(text::trim(source), "\n\n"@) matches Some(parts) ==> parsed(source) == (
        MessageView { subject: text::trim(parts.0), body: text::trim(parts.1) }),
        text::all_white(source) ==> parsed(source).subject.len() == 0 && parsed(
            source,
        ).body.len() == 0,
{
    text::lemma_trim_ends(source);
    text::lemma_trim_fixed(text::trim(source));
    text::law_trim_takes_white_space_off_the_ends(source);
    if text::all_white(source) {
        let none = text::trim(source);
        reveal_strlit("\n\n");
        text::law_split_is_at_the_first(none, "\n\n"@);
        text::law_parts_put_a_text_together(none, "\n\n"@, none, none);
        assert(text::lines(none).len() == 0);
    }
}

/// What was saved is read line by line: a comment leaves nothing behind, and any other line
/// stands before what is left of those that follow it.
pub proof fn law_saved_lines_are_kept(line: Seq<char>, rest: Seq<char>)
    requires
        !line.contains('\n'),
        line.len() == 0 || line.last() != '\r',
    ensures
        is_comment(line) ==> saved_text(line.push('\n') + rest) == saved_text(rest),
        !is_comment(line) && without_comments(text::lines(rest)).len() > 0 ==> saved_text(
            line.push('\n') + rest,
        ) == line + "\n"@ + saved_text(rest),
        !is_comment(line) && without_comments(text::lines(rest)).len() == 0 ==> saved_text(
            line.push('\n') + rest,
        ) == line,
        saved_text(Seq::empty()).len() == 0,
{
    text::law_lines_are_read_one_by_one(line, rest);
    let more = text::lines(rest);
    law_lines_are_kept_one_by_one(seq![line], more, line);
    let kept = without_comments(more);
    text::law_joins_are_put_together(seq![line], kept, line, "\n"@);
    if is_comment(line) {
        assert(Seq::<Seq<char>>::empty() + kept =~= kept);
    } else if kept.len() == 0 {
        assert(seq![line] + kept =~= seq![line]);
    }
    assert(without_comments(text::lines(Seq::<char>::empty())).len() == 0);
}

/// A body is asked for only where the setting allows it, and where one commit in five of
/// the past carries one, so always in a repository without commits. One more commit with a
/// body never rules it out, and one more without never brings it in.
pub proof fn law_history_outranks_the_setting(recent: Seq<PastView>, commit: PastView)
    ensures
        !may_have_body(false, recent),
        may_have_body(true, Seq::empty()),
        may_have_body(true, recent) <==> recent.len() <= 5 * bodies(recent),
        recent.len() > 0 && bodies(recent) == 0 ==> !may_have_body(true, recent),
        commit.body.len() > 0 && may_have_body(true, recent) ==> may_have_body(
            true,
            recent.push(commit),
        ),
        commit.body.len() == 0 && !may_have_body(true, recent) ==> !may_have_body(
            true,
            recent.push(commit),
        ),
{
    assert(recent.push(commit).drop_last() =~= recent);
}

/// The screen waits for a person, and for nobody else; and for none who has said go
/// already, or whose change cannot change any more.
pub proof fn law_screen_waits_for_a_person(args: CommitArgs, global: GlobalArgs)
    ensures
        !waits_for_go(false, args, global),
        args.yes || global.print || args.stdin_diff ==> !waits_for_go(true, args, global),
        !args.yes && !global.print && !args.stdin_diff ==> waits_for_go(true, args, global),
{
}

/// What is decided at a place is what the list says there: whatever feedback came with it
/// counts only where it was asked for, and blank feedback cancels, as does every place that
/// is not in the list.
pub proof fn law_decisions_mean_what_they_say(index: nat, feedback: Option<String>)
    ensures
        index < 5 && decision_labels()[index as int] == "commit"@ ==> decision_at(index, feedback)
            is Commit,
        index < 5 && decision_labels()[index as int] == "edit first"@ ==> decision_at(
            index,
            feedback,
        ) is Edit,
        index < 5 && decision_labels()[index as int] == "try again, with feedback"@ ==> (
        match feedback {
            Some(said) => if text::all_white(said@) {
                decision_at(index, feedback) is Cancel
            } else {
                decision_at(index, feedback) == Decision::Feedback(said)
            },
            None => decision_at(index, feedback) is Cancel,
        }),
        index < 5 && decision_labels()[index as int] == "reload the staged change and try again"@
            ==> decision_at(index, feedback) is Reload,
        index < 5 && decision_labels()[index as int] == "cancel"@ ==> decision_at(index, feedback)
            is Cancel,
        index >= 5 ==> decision_at(index, feedback) is Cancel,
{
    if let Some(said) = feedback {
        text::law_trim_takes_white_space_off_the_ends(said@);
    }
    reveal_strlit("commit");
    reveal_strlit("edit first");
    reveal_strlit("try again, with feedback");
    reveal_strlit("reload the staged change and try again");
    reveal_strlit("cancel");
    assert("commit"@.len() == 6 && "edit first"@.len() == 10 && "try again, with feedback"@.len()
        == 24 && "reload the staged change and try again"@.len() == 38 && "cancel"@.len() == 6);
    assert("commit"@[1] == 'o' && "cancel"@[1] == 'a');
}

/// Every way through a session: nothing proposed is no answer, and one that was proposed,
/// or any where nobody can choose, is taken; giving up stores nothing and changes nothing;
/// feedback asks again; and what is stored is the message that the reader had before them.
pub proof fn law_session_goes_on_as_decided(
    session: SessionView,
    index: usize,
    feedback: String,
)
    requires
        index < session.candidates.len(),
    ensures
        session.candidates.len() == 1 || !session.interactive ==> after_proposals(session)
            == chosen(session, 0),
        session.candidates.len() > 1 && session.interactive ==> after_proposals(session)
            is Choose,
        after_proposals(SessionView { candidates: Seq::empty(), ..session }) is NoAnswer,
        after_pick(session, Pick::Cancel) == (session, NextView::Aborted),
        after_pick(session, Pick::Reload) == (session, NextView::Reload),
        after_pick(session, Pick::Message(index)) == (session, chosen(session, index as nat)),
        after_pick(session, Pick::Edit(index)) == (
            session,
            NextView::Edit(session.candidates[index as int]),
        ),
        after_pick(session, Pick::Feedback(feedback)) == (
            rejected(session, feedback@),
            NextView::Generate,
        ),
        after_decision(session, index as nat, Decision::Cancel) == (session, NextView::Aborted),
        after_decision(session, index as nat, Decision::Reload) == (session, NextView::Reload),
        after_decision(session, index as nat, Decision::Commit) == (
            session,
            NextView::Done(session.candidates[index as int]),
        ),
        after_decision(session, index as nat, Decision::Edit).1 == NextView::Done(
            session.candidates[index as int],
        ),
        after_decision(session, index as nat, Decision::Edit).0.review,
        after_decision(session, index as nat, Decision::Feedback(feedback)) == after_pick(
            session,
            Pick::Feedback(feedback),
        ),
{
}

/// Each flag of the command line reaches git as its own flag, and none as another.
pub proof fn law_flags_reach_git(review: bool, args: CommitArgs)
    ensures
        ({
            let flags = git::commit_flags(commit_options(review, args));
            &&& flags.contains("-e"@) <==> review
            &&& flags.contains("--amend"@) <==> args.amend
            &&& flags.contains("--signoff"@) <==> args.signoff
            &&& flags.contains("--gpg-sign"@) <==> args.gpg_sign
            &&& flags.contains("--no-verify"@) <==> args.skip_hooks
        }),
{
    git::law_flags_are_passed_where_asked_for(commit_options(review, args));
}

/// What is said of a list of messages is what each of them holds, one for one.
pub proof fn law_messages_say_what_they_hold(messages: Seq<Message>, i: int)
    ensures
        message_views(messages).len() == messages.len(),
        0 <= i < messages.len() ==> message_views(messages)[i] == (MessageView {
            subject: messages[i].subject@,
            body: messages[i].body@,
        }),
{
}

} // verus!
