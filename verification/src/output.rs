//! What a run reports, and how it is shown.
//!
//! The reporter decides; whoever drives it writes. Each call returns the effects
//! that are to be carried out, in order.

use crate::branch;
use crate::branch::{Suggestion, SuggestionView};
use crate::cli::GlobalArgs;
use crate::outside;
use crate::squash;
use crate::squash::{Group, GroupView};
use crate::text;
use vstd::prelude::*;

verus! {

/// Everything the run produces, in the order it happens. The human reporter
/// renders these on stderr, the JSON reporters write them to stdout.
#[derive(Debug)]
#[allow(inconsistent_fields)]
pub enum Event {
    Context {
        staged_files: usize,
        included: usize,
        withheld: Vec<String>,
        added: u64,
        deleted: u64,
        diff_bytes: usize,
        commits_used: usize,
        model: String,
    },
    Tool { name: String, arguments: serde_json::Value, returned_bytes: usize },
    /// A reasoning model's thinking, which arrives long before its answer.
    /// Shown dimmed on stderr so a twenty second wait is not a blank screen.
    Reasoning { text: String },
    Delta { text: String },
    /// Progress for an answer that cannot be shown as it streams, because a
    /// half-written JSON object is not readable.
    Writing { bytes: usize },
    Message { subject: String, body: String },
    Branch { candidates: Vec<Suggestion> },
    Squash { groups: Vec<Group> },
    Renamed { from: String, to: String },
    Committed { sha: String },
    Error { code: String, message: String },
}

/// What an [`Event`] says. The arguments of a tool call are shown as JSON.
#[allow(inconsistent_fields)]
pub enum EventView {
    Context {
        staged_files: nat,
        included: nat,
        withheld: Seq<Seq<char>>,
        added: nat,
        deleted: nat,
        diff_bytes: nat,
        commits_used: nat,
        model: Seq<char>,
    },
    Tool { name: Seq<char>, arguments: Seq<char>, returned_bytes: nat },
    Reasoning { text: Seq<char> },
    Delta { text: Seq<char> },
    Writing { bytes: nat },
    Message { subject: Seq<char>, body: Seq<char> },
    Branch { candidates: Seq<SuggestionView> },
    Squash { groups: Seq<GroupView> },
    Renamed { from: Seq<char>, to: Seq<char> },
    Committed { sha: Seq<char> },
    Error { code: Seq<char>, message: Seq<char> },
}

impl View for Event {
    type V = EventView;

    open spec fn view(&self) -> EventView {
        match self {
            Event::Context {
                staged_files,
                included,
                withheld,
                added,
                deleted,
                diff_bytes,
                commits_used,
                model,
            } => EventView::Context {
                staged_files: *staged_files as nat,
                included: *included as nat,
                withheld: text::texts(withheld@),
                added: *added as nat,
                deleted: *deleted as nat,
                diff_bytes: *diff_bytes as nat,
                commits_used: *commits_used as nat,
                model: model@,
            },
            Event::Tool { name, arguments, returned_bytes } => EventView::Tool {
                name: name@,
                arguments: outside::json_shown(*arguments),
                returned_bytes: *returned_bytes as nat,
            },
            Event::Reasoning { text } => EventView::Reasoning { text: text@ },
            Event::Delta { text } => EventView::Delta { text: text@ },
            Event::Writing { bytes } => EventView::Writing { bytes: *bytes as nat },
            Event::Message { subject, body } => EventView::Message {
                subject: subject@,
                body: body@,
            },
            Event::Branch { candidates } => EventView::Branch {
                candidates: branch::suggestions(candidates@),
            },
            Event::Squash { groups } => EventView::Squash { groups: squash::groups(groups@) },
            Event::Renamed { from, to } => EventView::Renamed { from: from@, to: to@ },
            Event::Committed { sha } => EventView::Committed { sha: sha@ },
            Event::Error { code, message } => EventView::Error { code: code@, message: message@ },
        }
    }
}

/// What the events of a list say.
pub open spec fn event_views(list: Seq<Event>) -> Seq<EventView> {
    Seq::new(list.len(), |i: int| list[i]@)
}

/// Who the output is for.
#[derive(Debug, Clone, Copy, PartialEq, Eq, Structural)]
pub enum Mode {
    Human,
    Json,
    JsonStream,
}

/// How a piece of text is to look, where the terminal has colours.
#[derive(Debug, Clone, Copy, PartialEq, Eq, Structural)]
pub enum Tint {
    Plain,
    Bold,
    Dim,
    Green,
    Red,
    Yellow,
    Cyan,
}

/// A piece of text that looks one way.
#[derive(Debug)]
pub struct Piece {
    pub text: String,
    pub tint: Tint,
}

/// What a [`Piece`] says.
pub struct PieceView {
    pub text: Seq<char>,
    pub tint: Tint,
}

impl View for Piece {
    type V = PieceView;

    open spec fn view(&self) -> PieceView {
        PieceView { text: self.text@, tint: self.tint }
    }
}

/// What the pieces of a list say.
pub open spec fn pieces(list: Seq<Piece>) -> Seq<PieceView> {
    Seq::new(list.len(), |i: int| list[i]@)
}

/// Something to carry out.
#[derive(Debug)]
pub enum Effect {
    /// Write the pieces to stderr, one after the other.
    Say(Vec<Piece>),
    /// Write the pieces to stderr, one after the other, as a part of the preview.
    Draft(Vec<Piece>),
    /// Put up a spinner with a message, in the place of any that is up.
    Spin(String),
    /// Change the message of the spinner that is up.
    Remark(String),
    /// Take the spinner down.
    Unspin,
    /// Write to stderr how long the model thought, in nanoseconds, as a dimmed
    /// line of its own.
    Thought(u128),
    /// Take the preview off the terminal again, so that what comes next stands where
    /// it began. The text is all of it. What else was written since stays.
    Clear(String),
    /// Write a line to stdout.
    Print(String),
}

/// What an [`Effect`] says.
pub enum EffectView {
    Say(Seq<PieceView>),
    Draft(Seq<PieceView>),
    Spin(Seq<char>),
    Remark(Seq<char>),
    Unspin,
    Thought(u128),
    Clear(Seq<char>),
    Print(Seq<char>),
}

impl View for Effect {
    type V = EffectView;

    open spec fn view(&self) -> EffectView {
        match self {
            Effect::Say(list) => EffectView::Say(pieces(list@)),
            Effect::Draft(list) => EffectView::Draft(pieces(list@)),
            Effect::Spin(message) => EffectView::Spin(message@),
            Effect::Remark(message) => EffectView::Remark(message@),
            Effect::Unspin => EffectView::Unspin,
            Effect::Thought(nanos) => EffectView::Thought(*nanos),
            Effect::Clear(text) => EffectView::Clear(text@),
            Effect::Print(line) => EffectView::Print(line@),
        }
    }
}

/// What the effects of a list say.
pub open spec fn effects(list: Seq<Effect>) -> Seq<EffectView> {
    Seq::new(list.len(), |i: int| list[i]@)
}

/// Keeps track of what is on screen, and decides what is shown.
pub struct Reporter {
    pub mode: Mode,
    pub quiet: bool,
    pub timing: bool,
    /// Whether stderr is a terminal.
    pub terminal: bool,
    pub first_token: Option<u128>,
    pub tool_calls: u32,
    /// Whether a spinner is up.
    pub spinning: bool,
    pub folded: serde_json::Map<String, serde_json::Value>,
    pub tools: Vec<serde_json::Value>,
    pub streaming_line: bool,
    /// What the preview is made of so far.
    pub streamed: String,
    pub reasoning_line: bool,
    pub first_reasoning: Option<u128>,
    /// Whether the next piece of thinking begins a line.
    pub reasoning_fresh: bool,
    pub show_thinking: bool,
    pub thinking: String,
    pub thought_for: Option<u128>,
}

/// What a [`Reporter`] keeps. Times are in nanoseconds since the run began.
pub struct ReporterView {
    pub mode: Mode,
    pub quiet: bool,
    pub timing: bool,
    pub terminal: bool,
    pub first_token: Option<u128>,
    pub tool_calls: u32,
    pub spinning: bool,
    pub folded: serde_json::Map<String, serde_json::Value>,
    pub tools: Seq<serde_json::Value>,
    pub streaming_line: bool,
    pub streamed: Seq<char>,
    pub reasoning_line: bool,
    pub first_reasoning: Option<u128>,
    pub reasoning_fresh: bool,
    pub show_thinking: bool,
    pub thinking: Seq<char>,
    pub thought_for: Option<u128>,
}

impl View for Reporter {
    type V = ReporterView;

    open spec fn view(&self) -> ReporterView {
        ReporterView {
            mode: self.mode,
            quiet: self.quiet,
            timing: self.timing,
            terminal: self.terminal,
            first_token: self.first_token,
            tool_calls: self.tool_calls,
            spinning: self.spinning,
            folded: self.folded,
            tools: self.tools@,
            streaming_line: self.streaming_line,
            streamed: self.streamed@,
            reasoning_line: self.reasoning_line,
            first_reasoning: self.first_reasoning,
            reasoning_fresh: self.reasoning_fresh,
            show_thinking: self.show_thinking,
            thinking: self.thinking@,
            thought_for: self.thought_for,
        }
    }
}

// ---------------------------------------------------------------------------
// Steps
// ---------------------------------------------------------------------------

/// A state of the reporter, and the effects that led to it.
pub struct Step {
    pub state: ReporterView,
    pub done: Seq<EffectView>,
}

/// Nothing happened yet.
pub open spec fn begin(state: ReporterView) -> Step {
    Step { state, done: Seq::empty() }
}

/// One more effect.
pub open spec fn and(step: Step, effect: EffectView) -> Step {
    Step { done: step.done.push(effect), ..step }
}

/// One piece of text.
pub open spec fn piece(text: Seq<char>, tint: Tint) -> PieceView {
    PieceView { text, tint }
}

/// The end of a line.
pub open spec fn line_end() -> PieceView {
    piece("\n"@, Tint::Plain)
}

/// Progress belongs on stderr, and only when a person is watching.
pub open spec fn progress(state: ReporterView) -> bool {
    state.mode == Mode::Human && !state.quiet
}

/// A line of progress.
pub open spec fn told(step: Step, message: Seq<char>) -> Step {
    and(step, EffectView::Say(seq![piece(message, Tint::Plain), line_end()]))
}

/// The spinner is put up, or the message is printed where there can be none.
pub open spec fn started(step: Step, message: Seq<char>) -> Step {
    if !progress(step.state) {
        step
    } else if !step.state.terminal {
        told(step, message)
    } else {
        and(
            Step { state: ReporterView { spinning: true, ..step.state }, ..step },
            EffectView::Spin(message),
        )
    }
}

/// The message of the spinner changes, or is printed where there is none.
pub open spec fn stepped(step: Step, message: Seq<char>) -> Step {
    if step.state.spinning {
        and(step, EffectView::Remark(message))
    } else if progress(step.state) {
        told(step, message)
    } else {
        step
    }
}

/// The spinner is taken down.
pub open spec fn stopped(step: Step) -> Step {
    if step.state.spinning {
        and(
            Step { state: ReporterView { spinning: false, ..step.state }, ..step },
            EffectView::Unspin,
        )
    } else {
        step
    }
}

/// The line that the thinking is on is ended, if there is one.
pub open spec fn thinking_line_ended(step: Step) -> Step {
    if step.state.reasoning_line {
        and(
            Step { state: ReporterView { reasoning_line: false, ..step.state }, ..step },
            EffectView::Say(seq![line_end()]),
        )
    } else {
        step
    }
}

/// The streamed preview is cleared, if there is one, so that the final rendering is
/// not printed twice. What was written elsewhere than to a terminal cannot be taken
/// back, so there its line is ended.
pub open spec fn stream_ended(step: Step) -> Step {
    if step.state.streaming_line {
        and(
            Step {
                state: ReporterView {
                    streaming_line: false,
                    streamed: Seq::empty(),
                    ..step.state
                },
                ..step
            },
            if step.state.terminal {
                EffectView::Clear(step.state.streamed)
            } else {
                EffectView::Say(seq![line_end()])
            },
        )
    } else {
        step
    }
}

/// The thinking block is closed: collapsed, it is replaced with how long it took;
/// expanded, its last line is ended.
pub open spec fn thinking_ended(step: Step, now: u128) -> Step {
    if step.state.first_reasoning is Some && step.state.thought_for is None {
        let closed = thinking_line_ended(
            Step { state: ReporterView { thought_for: Some(now), ..step.state }, ..step },
        );
        if progress(closed.state) {
            and(stopped(closed), EffectView::Thought(now))
        } else {
            closed
        }
    } else {
        thinking_line_ended(step)
    }
}

/// A word for the spinner while the model thinks.
pub open spec fn musing_word(nanos: u128) -> Seq<char> {
    let n = (nanos / 3_000_000_000) % 6;
    if n == 0 {
        "thinking"@
    } else if n == 1 {
        "pondering"@
    } else if n == 2 {
        "mulling it over"@
    } else if n == 3 {
        "weighing it up"@
    } else if n == 4 {
        "still pondering"@
    } else {
        "nearly there, probably"@
    }
}

// ---------------------------------------------------------------------------
// Rendering for a person
// ---------------------------------------------------------------------------

/// How many of the staged files are shown to the model.
pub open spec fn files_text(included: nat, staged_files: nat) -> Seq<char> {
    if included == staged_files {
        text::decimal(staged_files) + " files"@
    } else {
        text::decimal(included) + " of "@ + text::decimal(staged_files) + " files"@
    }
}

/// The line that says which model and how much context produced the answer.
pub open spec fn context_line(
    staged_files: nat,
    included: nat,
    added: nat,
    deleted: nat,
    commits_used: nat,
    model: Seq<char>,
) -> EffectView {
    EffectView::Say(
        seq![
            piece("  "@, Tint::Plain),
            piece(files_text(included, staged_files), Tint::Bold),
            piece("  "@, Tint::Plain),
            piece("+"@ + text::decimal(added), Tint::Green),
            piece(" "@, Tint::Plain),
            piece("-"@ + text::decimal(deleted), Tint::Red),
            piece("  "@, Tint::Plain),
            piece(
                text::decimal(commits_used) + " commits of context, "@ + model,
                Tint::Dim,
            ),
            line_end(),
        ],
    )
}

/// The line that names the withheld files.
pub open spec fn withheld_line(withheld: Seq<Seq<char>>) -> EffectView {
    EffectView::Say(
        seq![
            piece("  "@, Tint::Plain),
            piece("withheld"@, Tint::Yellow),
            piece(" "@, Tint::Plain),
            piece(text::join(withheld, ", "@), Tint::Dim),
            line_end(),
        ],
    )
}

/// The line for a tool call.
pub open spec fn tool_line(name: Seq<char>, arguments: Seq<char>, returned_bytes: nat) -> EffectView {
    EffectView::Say(
        seq![
            piece("tool"@, Tint::Cyan),
            piece(" "@ + name + " "@ + arguments + " "@, Tint::Plain),
            piece("("@ + text::decimal(returned_bytes) + " bytes)"@, Tint::Dim),
            line_end(),
        ],
    )
}

/// The pieces that show the first `n` parts of some thinking, indented to sit
/// under the run, and dimmed because it is working out rather than an answer.
/// `fresh` says whether the first part begins a line.
pub open spec fn thinking_pieces(parts: Seq<Seq<char>>, fresh: bool, n: nat) -> Seq<PieceView>
    decreases n,
{
    if n == 0 {
        Seq::empty()
    } else {
        let before = thinking_pieces(parts, fresh, (n - 1) as nat);
        let indented = if n > 1 || fresh {
            before.push(piece("  "@, Tint::Plain))
        } else {
            before
        };
        indented.push(piece(parts[n - 1], Tint::Dim))
    }
}

/// Whether what comes after some thinking begins a line.
pub open spec fn fresh_after(parts: Seq<Seq<char>>, fresh: bool) -> bool {
    if parts.len() == 0 {
        fresh
    } else {
        parts.last().len() > 0 && parts.last().last() == '\n'
    }
}

/// Some thinking is shown as it is.
pub open spec fn thinking_shown(step: Step, thought: Seq<char>) -> Step {
    let opened = if step.state.reasoning_line {
        step
    } else {
        let s = stopped(step);
        Step { state: ReporterView { reasoning_line: true, ..s.state }, ..s }
    };
    let parts = text::line_parts(thought);
    let fresh = opened.state.reasoning_fresh;
    and(
        Step {
            state: ReporterView { reasoning_fresh: fresh_after(parts, fresh), ..opened.state },
            ..opened
        },
        EffectView::Say(thinking_pieces(parts, fresh, parts.len())),
    )
}

/// The context of the run is shown: a printed line, not a spinner message. It says
/// which model and how much context produced the answer, and that is worth keeping
/// on screen rather than clearing when the spinner stops.
pub open spec fn context_shown(
    step: Step,
    staged_files: nat,
    included: nat,
    withheld: Seq<Seq<char>>,
    added: nat,
    deleted: nat,
    commits_used: nat,
    model: Seq<char>,
) -> Step {
    if !progress(step.state) {
        step
    } else {
        let line = and(
            stopped(step),
            context_line(staged_files, included, added, deleted, commits_used, model),
        );
        if withheld.len() > 0 {
            and(line, withheld_line(withheld))
        } else {
            line
        }
    }
}

/// A tool call is shown. It is a decision the model made about your diff, so it
/// gets a line of its own rather than a spinner flicker, and a preview makes room.
pub open spec fn tool_shown(
    step: Step,
    name: Seq<char>,
    arguments: Seq<char>,
    returned_bytes: nat,
    now: u128,
) -> Step {
    if !progress(step.state) {
        step
    } else {
        started(
            and(
                stopped(stream_ended(thinking_ended(step, now))),
                tool_line(name, arguments, returned_bytes),
            ),
            "reading it back"@,
        )
    }
}

/// Some thinking arrived. It is kept whichever way it is shown. Collapsed, it is a
/// spinner message; without a spinner to replace it, nothing is printed.
pub open spec fn thinking_came(step: Step, thought: Seq<char>, now: u128) -> Step {
    let kept = Step {
        state: ReporterView { thinking: step.state.thinking + thought, ..step.state },
        ..step
    };
    if !progress(kept.state) {
        kept
    } else if kept.state.show_thinking {
        thinking_shown(kept, thought)
    } else if kept.state.spinning {
        stepped(kept, musing_word(now))
    } else {
        kept
    }
}

/// Progress of an answer that is not shown as it streams. It is only worth showing
/// where it can replace the previous count.
pub open spec fn writing_shown(step: Step, bytes: nat, now: u128) -> Step {
    if step.state.spinning {
        stepped(
            thinking_ended(step, now),
            "writing the answer, "@ + text::decimal(bytes) + " bytes"@,
        )
    } else {
        step
    }
}

/// A part of the draft is shown, dimmed, because it is being written. The message
/// is rendered properly once it is complete.
pub open spec fn draft_shown(step: Step, draft: Seq<char>, now: u128) -> Step {
    if !progress(step.state) {
        step
    } else {
        let ended = thinking_ended(step, now);
        let opened = if ended.state.streaming_line {
            Step {
                state: ReporterView { streamed: ended.state.streamed + draft, ..ended.state },
                ..ended
            }
        } else {
            let s = stopped(ended);
            Step {
                state: ReporterView { streaming_line: true, streamed: draft, ..s.state },
                ..s
            }
        };
        and(opened, EffectView::Draft(seq![piece(draft, Tint::Dim)]))
    }
}

/// What came of the run is shown.
pub open spec fn outcome_shown(step: Step, before: Seq<char>, name: Seq<char>) -> Step {
    if progress(step.state) {
        and(
            step,
            EffectView::Say(
                seq![piece(before, Tint::Plain), piece(name, Tint::Green), line_end()],
            ),
        )
    } else {
        step
    }
}

/// An error is shown, whoever is watching.
pub open spec fn error_shown(step: Step, message: Seq<char>) -> Step {
    and(
        stopped(step),
        EffectView::Say(
            seq![
                piece("auto-commit:"@, Tint::Red),
                piece(" "@ + message, Tint::Plain),
                line_end(),
            ],
        ),
    )
}

/// What an event does on the screen of a person.
pub open spec fn rendered(start: ReporterView, event: Event, now: u128) -> Step {
    let step = begin(start);
    match event {
        Event::Context {
            staged_files,
            included,
            withheld,
            added,
            deleted,
            diff_bytes,
            commits_used,
            model,
        } => context_shown(
            step,
            staged_files as nat,
            included as nat,
            text::texts(withheld@),
            added as nat,
            deleted as nat,
            commits_used as nat,
            model@,
        ),
        Event::Tool { name, arguments, returned_bytes } => tool_shown(
            step,
            name@,
            outside::json_shown(arguments),
            returned_bytes as nat,
            now,
        ),
        Event::Reasoning { text: thought } => thinking_came(step, thought@, now),
        Event::Writing { bytes } => writing_shown(step, bytes as nat, now),
        Event::Delta { text: draft } => draft_shown(step, draft@, now),
        Event::Message { .. } => step,
        Event::Branch { .. } => step,
        Event::Squash { .. } => step,
        Event::Renamed { from, to } => outcome_shown(step, "renamed "@ + from@ + " to "@, to@),
        Event::Committed { sha } => outcome_shown(step, "committed "@, sha@),
        Event::Error { code, message } => error_shown(step, message@),
    }
}

// ---------------------------------------------------------------------------
// Folding into one object
// ---------------------------------------------------------------------------

/// The field of the single object that an event is folded into. Deltas, thinking
/// and progress build up something that is reported whole.
pub open spec fn fold_key(event: Event) -> Option<Seq<char>> {
    match event {
        Event::Delta { .. } => None,
        Event::Reasoning { .. } => None,
        Event::Writing { .. } => None,
        Event::Tool { .. } => Some("tools"@),
        Event::Context { .. } => Some("context"@),
        Event::Message { .. } => Some("message"@),
        Event::Branch { .. } => Some("branch"@),
        Event::Squash { .. } => Some("squash"@),
        Event::Renamed { .. } => Some("renamed"@),
        Event::Committed { .. } => Some("committed"@),
        Event::Error { .. } => Some("error"@),
    }
}

/// The tool calls that are folded so far, after an event whose JSON is `value`.
pub open spec fn folded_tools(
    tools: Seq<serde_json::Value>,
    event: Event,
    value: serde_json::Value,
) -> Seq<serde_json::Value> {
    if event is Tool {
        tools.push(value)
    } else {
        tools
    }
}

/// What the single object holds after an event whose JSON is `value`.
pub open spec fn folded_entries(
    entries: Map<Seq<char>, serde_json::Value>,
    tools: Seq<serde_json::Value>,
    event: Event,
    value: serde_json::Value,
) -> Map<Seq<char>, serde_json::Value> {
    match fold_key(event) {
        None => entries,
        Some(key) => if event is Tool {
            entries.insert(key, outside::json_array_of(tools.push(value)))
        } else {
            entries.insert(key, value)
        },
    }
}

/// What an event changes before it is shown: the times of the first token and of
/// the first thinking, and the count of tool calls.
pub open spec fn noted(state: ReporterView, event: Event, now: u128) -> ReporterView {
    ReporterView {
        first_token: if (event is Delta || event is Writing) && state.first_token is None {
            Some(now)
        } else {
            state.first_token
        },
        first_reasoning: if event is Reasoning && state.first_reasoning is None {
            Some(now)
        } else {
            state.first_reasoning
        },
        tool_calls: if event is Tool {
            (state.tool_calls + 1) as u32
        } else {
            state.tool_calls
        },
        ..state
    }
}

// ---------------------------------------------------------------------------
// The reporter
// ---------------------------------------------------------------------------

/// Where a reporter is, and what is to be carried out so far.
pub open spec fn at(reporter: Reporter, out: Seq<Effect>) -> Step {
    Step { state: reporter@, done: effects(out) }
}

fn emit(out: &mut Vec<Effect>, effect: Effect)
    ensures
        effects(final(out)@) == effects(old(out)@).push(effect@),
{
    out.push(effect);
    assert(effects(out@) =~= effects(old(out)@).push(effect@));
}

fn bit(text: &str, tint: Tint) -> (r: Piece)
    ensures
        r@ == piece(text@, tint),
{
    Piece { text: text.to_owned(), tint }
}

fn bit_of(text: String, tint: Tint) -> (r: Piece)
    ensures
        r@ == piece(text@, tint),
{
    Piece { text, tint }
}

/// A number between two texts.
fn counted(before: &str, n: u128, after: &str) -> (r: String)
    ensures
        r@ == before@ + text::decimal(n as nat) + after@,
{
    let mut out = before.to_owned();
    out.append(text::number(n).as_str());
    out.append(after);
    out
}

/// A word for the spinner while the model thinks, after so many nanoseconds. It
/// changes every few seconds so a long wait reads as something happening rather
/// than a stall.
pub fn musing(nanos: u128) -> (r: String)
    ensures
        r@ == musing_word(nanos),
{
    let n: u128 = (nanos / 3_000_000_000) % 6;
    if n == 0 {
        "thinking".to_owned()
    } else if n == 1 {
        "pondering".to_owned()
    } else if n == 2 {
        "mulling it over".to_owned()
    } else if n == 3 {
        "weighing it up".to_owned()
    } else if n == 4 {
        "still pondering".to_owned()
    } else {
        "nearly there, probably".to_owned()
    }
}

/// What a reporter begins with.
pub open spec fn is_new(r: ReporterView, args: GlobalArgs, terminal: bool) -> bool {
    &&& r.mode == if args.json {
        Mode::Json
    } else if args.json_stream {
        Mode::JsonStream
    } else {
        Mode::Human
    }
    &&& r.quiet == args.quiet
    &&& r.timing == args.timing
    &&& r.terminal == terminal
    &&& r.first_token is None
    &&& r.tool_calls == 0
    &&& !r.spinning
    &&& outside::object_entries(r.folded).dom() == Set::<Seq<char>>::empty()
    &&& r.tools == Seq::<serde_json::Value>::empty()
    &&& !r.streaming_line
    &&& r.streamed == Seq::<char>::empty()
    &&& !r.reasoning_line
    &&& r.first_reasoning is None
    &&& r.reasoning_fresh
    &&& r.show_thinking == args.show_thinking
    &&& r.thinking == Seq::<char>::empty()
    &&& r.thought_for is None
}

impl Reporter {
    /// A reporter for a run with these flags. `terminal` says whether stderr is
    /// one.
    pub fn new(args: &GlobalArgs, terminal: bool) -> (r: Self)
        ensures
            is_new(r@, *args, terminal),
    {
        let mode = if args.json {
            Mode::Json
        } else if args.json_stream {
            Mode::JsonStream
        } else {
            Mode::Human
        };
        let thinking = String::new();
        let streamed = String::new();
        assert(thinking@ =~= Seq::empty());
        assert(streamed@ =~= Seq::empty());
        Reporter {
            mode,
            quiet: args.quiet,
            timing: args.timing,
            terminal,
            first_token: None,
            tool_calls: 0,
            spinning: false,
            folded: outside::new_object(),
            tools: Vec::new(),
            streaming_line: false,
            streamed,
            reasoning_line: false,
            first_reasoning: None,
            reasoning_fresh: true,
            show_thinking: args.show_thinking,
            thinking,
            thought_for: None,
        }
    }

    /// Progress belongs on stderr, and only when a person is watching.
    pub fn shows_progress(&self) -> (r: bool)
        ensures
            r == progress(self@),
    {
        self.mode == Mode::Human && !self.quiet
    }

    fn tell(&self, message: &str, out: &mut Vec<Effect>)
        ensures
            at(*self, final(out)@) == told(at(*self, old(out)@), message@),
    {
        let list = vec![bit(message, Tint::Plain), bit("\n", Tint::Plain)];
        assert(pieces(list@) =~= seq![piece(message@, Tint::Plain), line_end()]);
        emit(out, Effect::Say(list));
    }

    fn end_line(out: &mut Vec<Effect>)
        ensures
            effects(final(out)@) == effects(old(out)@).push(EffectView::Say(seq![line_end()])),
    {
        let list = vec![bit("\n", Tint::Plain)];
        assert(pieces(list@) =~= seq![line_end()]);
        emit(out, Effect::Say(list));
    }

    fn start_into(&mut self, message: &str, out: &mut Vec<Effect>)
        ensures
            at(*final(self), final(out)@) == started(at(*old(self), old(out)@), message@),
    {
        if !self.shows_progress() {
            return;
        }
        if !self.terminal {
            self.tell(message, out);
            return;
        }
        self.spinning = true;
        emit(out, Effect::Spin(message.to_owned()));
    }

    fn step_into(&self, message: &str, out: &mut Vec<Effect>)
        ensures
            at(*self, final(out)@) == stepped(at(*self, old(out)@), message@),
    {
        if self.spinning {
            emit(out, Effect::Remark(message.to_owned()));
        } else if self.shows_progress() {
            self.tell(message, out);
        }
    }

    fn stop_into(&mut self, out: &mut Vec<Effect>)
        ensures
            at(*final(self), final(out)@) == stopped(at(*old(self), old(out)@)),
    {
        if self.spinning {
            self.spinning = false;
            emit(out, Effect::Unspin);
        }
    }

    fn end_thinking_line(&mut self, out: &mut Vec<Effect>)
        ensures
            at(*final(self), final(out)@) == thinking_line_ended(at(*old(self), old(out)@)),
    {
        if self.reasoning_line {
            Self::end_line(out);
            self.reasoning_line = false;
        }
    }

    /// Closes the thinking block. Collapsed, that means replacing it with how
    /// long it took; expanded, ending the last line.
    fn end_reasoning_into(&mut self, now: u128, out: &mut Vec<Effect>)
        ensures
            at(*final(self), final(out)@) == thinking_ended(at(*old(self), old(out)@), now),
    {
        if self.first_reasoning.is_some() && self.thought_for.is_none() {
            self.thought_for = Some(now);
            self.end_thinking_line(out);
            if self.shows_progress() {
                self.stop_into(out);
                emit(out, Effect::Thought(now));
            }
        } else {
            self.end_thinking_line(out);
        }
    }

    fn end_stream_into(&mut self, out: &mut Vec<Effect>)
        ensures
            at(*final(self), final(out)@) == stream_ended(at(*old(self), old(out)@)),
    {
        if self.streaming_line {
            self.streaming_line = false;
            if self.terminal {
                emit(out, Effect::Clear(self.streamed.clone()));
            } else {
                Self::end_line(out);
            }
            self.streamed = String::new();
            assert(self.streamed@ =~= Seq::empty());
        }
    }

    /// Shows that something goes on.
    pub fn start(&mut self, message: &str) -> (r: Vec<Effect>)
        ensures
            at(*final(self), r@) == started(begin(old(self)@), message@),
    {
        let mut out: Vec<Effect> = Vec::new();
        assert(effects(out@) =~= Seq::empty());
        self.start_into(message, &mut out);
        out
    }

    /// Shows that something else goes on.
    pub fn step(&self, message: &str) -> (r: Vec<Effect>)
        ensures
            at(*self, r@) == stepped(begin(self@), message@),
    {
        let mut out: Vec<Effect> = Vec::new();
        assert(effects(out@) =~= Seq::empty());
        self.step_into(message, &mut out);
        out
    }

    /// Takes the spinner down.
    pub fn stop(&mut self) -> (r: Vec<Effect>)
        ensures
            at(*final(self), r@) == stopped(begin(old(self)@)),
    {
        let mut out: Vec<Effect> = Vec::new();
        assert(effects(out@) =~= Seq::empty());
        self.stop_into(&mut out);
        out
    }

    /// Clears the streamed preview so the final rendering is not printed twice. Where
    /// stderr is no terminal, it ends the line.
    pub fn end_stream(&mut self) -> (r: Vec<Effect>)
        ensures
            at(*final(self), r@) == stream_ended(begin(old(self)@)),
    {
        let mut out: Vec<Effect> = Vec::new();
        assert(effects(out@) =~= Seq::empty());
        self.end_stream_into(&mut out);
        out
    }

    /// Closes every open line and clears the spinner, so whatever prints next
    /// starts at column zero. A prompt that lands halfway along a spinner line
    /// is the most obvious way a CLI looks broken.
    pub fn settle(&mut self, now: u128) -> (r: Vec<Effect>)
        ensures
            at(*final(self), r@) == stream_ended(thinking_ended(stopped(begin(old(self)@)), now)),
    {
        let mut out: Vec<Effect> = Vec::new();
        assert(effects(out@) =~= Seq::empty());
        self.stop_into(&mut out);
        self.end_reasoning_into(now, &mut out);
        self.end_stream_into(&mut out);
        out
    }

    /// Whether a person is watching.
    pub fn is_human(&self) -> (r: bool)
        ensures
            r == (self@.mode == Mode::Human),
    {
        self.mode == Mode::Human
    }

    /// What the model has thought, if it has thought at all. The picker offers to
    /// print it only when there is something to print.
    pub fn thinking(&self) -> (r: Option<String>)
        ensures
            text::opt_text(r) == if text::blank(self@.thinking) {
                None
            } else {
                Some(self@.thinking)
            },
    {
        if text::is_blank(self.thinking.as_str()) {
            None
        } else {
            Some(self.thinking.clone())
        }
    }

    /// Turned on from the config once it has been read, which is after this
    /// was built from the flags.
    pub fn set_show_thinking(&mut self, show: bool)
        ensures
            final(self)@ == (ReporterView {
                show_thinking: old(self)@.show_thinking || show,
                ..old(self)@
            }),
    {
        self.show_thinking = self.show_thinking || show;
    }

    /// The payload, and the only thing that ever reaches stdout in human mode.
    pub fn payload(&self, text: &str) -> (r: Vec<Effect>)
        ensures
            effects(r@) == if self@.mode == Mode::Human {
                seq![EffectView::Print(text@)]
            } else {
                Seq::empty()
            },
    {
        let mut out: Vec<Effect> = Vec::new();
        if self.is_human() {
            out.push(Effect::Print(text.to_owned()));
            assert(effects(out@) =~= seq![EffectView::Print(text@)]);
        } else {
            assert(effects(out@) =~= Seq::empty());
        }
        out
    }

    fn show_parts(parts: &Vec<String>, fresh: bool) -> (r: Vec<Piece>)
        ensures
            pieces(r@) == thinking_pieces(text::texts(parts@), fresh, parts@.len()),
    {
        let mut list: Vec<Piece> = Vec::new();
        let ghost all = text::texts(parts@);
        assert(pieces(list@) =~= Seq::empty());
        for i in 0..parts.len()
            invariant
                all == text::texts(parts@),
                pieces(list@) == thinking_pieces(all, fresh, i as nat),
        {
            let ghost before = pieces(list@);
            let ghost first = list@;
            if i > 0 || fresh {
                list.push(bit("  ", Tint::Plain));
                assert(pieces(list@) =~= before.push(piece("  "@, Tint::Plain)));
            }
            let ghost second = pieces(list@);
            list.push(bit(parts[i].as_str(), Tint::Dim));
            assert(pieces(list@) =~= second.push(piece(all[i as int], Tint::Dim)));
        }
        list
    }

    fn show_thought(&mut self, thought: &str, out: &mut Vec<Effect>)
        ensures
            at(*final(self), final(out)@) == thinking_shown(at(*old(self), old(out)@), thought@),
    {
        if !self.reasoning_line {
            self.stop_into(out);
            self.reasoning_line = true;
        }
        let parts = text::line_parts_of(thought);
        let ghost all = text::texts(parts@);
        let list = Self::show_parts(&parts, self.reasoning_fresh);
        if parts.len() > 0 {
            let last = text::chars_of(parts[parts.len() - 1].as_str());
            assert(all.last() == last@);
            self.reasoning_fresh = last.len() > 0 && last[last.len() - 1] == '\n';
        }
        emit(out, Effect::Say(list));
    }

    fn show_context(
        &mut self,
        staged_files: usize,
        included: usize,
        withheld: &Vec<String>,
        added: u64,
        deleted: u64,
        commits_used: usize,
        model: &str,
        out: &mut Vec<Effect>,
    )
        ensures
            at(*final(self), final(out)@) == context_shown(
                at(*old(self), old(out)@),
                staged_files as nat,
                included as nat,
                text::texts(withheld@),
                added as nat,
                deleted as nat,
                commits_used as nat,
                model@,
            ),
    {
        if !self.shows_progress() {
            return;
        }
        self.stop_into(out);
        let files = if included == staged_files {
            let mut files = text::number(staged_files as u128);
            files.append(" files");
            files
        } else {
            let mut files = text::number(included as u128);
            files.append(" of ");
            files.append(text::number(staged_files as u128).as_str());
            files.append(" files");
            files
        };
        let mut source = text::number(commits_used as u128);
        source.append(" commits of context, ");
        source.append(model);
        let mut plus = "+".to_owned();
        plus.append(text::number(added as u128).as_str());
        let mut minus = "-".to_owned();
        minus.append(text::number(deleted as u128).as_str());
        let list = vec![
            bit("  ", Tint::Plain),
            bit_of(files, Tint::Bold),
            bit("  ", Tint::Plain),
            bit_of(plus, Tint::Green),
            bit(" ", Tint::Plain),
            bit_of(minus, Tint::Red),
            bit("  ", Tint::Plain),
            bit_of(source, Tint::Dim),
            bit("\n", Tint::Plain),
        ];
        assert(pieces(list@) =~= context_line(
            staged_files as nat,
            included as nat,
            added as nat,
            deleted as nat,
            commits_used as nat,
            model@,
        )->Say_0);
        emit(out, Effect::Say(list));
        if withheld.len() > 0 {
            let list = vec![
                bit("  ", Tint::Plain),
                bit("withheld", Tint::Yellow),
                bit(" ", Tint::Plain),
                bit_of(text::joined(withheld.as_slice(), ", "), Tint::Dim),
                bit("\n", Tint::Plain),
            ];
            assert(pieces(list@) =~= withheld_line(text::texts(withheld@))->Say_0);
            emit(out, Effect::Say(list));
        }
    }

    fn show_tool(
        &mut self,
        name: &str,
        arguments: &serde_json::Value,
        returned_bytes: usize,
        now: u128,
        out: &mut Vec<Effect>,
    )
        ensures
            at(*final(self), final(out)@) == tool_shown(
                at(*old(self), old(out)@),
                name@,
                outside::json_shown(*arguments),
                returned_bytes as nat,
                now,
            ),
    {
        if !self.shows_progress() {
            return;
        }
        self.end_reasoning_into(now, out);
        self.end_stream_into(out);
        self.stop_into(out);
        let mut call = " ".to_owned();
        call.append(name);
        call.append(" ");
        call.append(outside::show_json(arguments).as_str());
        call.append(" ");
        let list = vec![
            bit("tool", Tint::Cyan),
            bit_of(call, Tint::Plain),
            bit_of(counted("(", returned_bytes as u128, " bytes)"), Tint::Dim),
            bit("\n", Tint::Plain),
        ];
        assert(pieces(list@) =~= tool_line(
            name@,
            outside::json_shown(*arguments),
            returned_bytes as nat,
        )->Say_0);
        emit(out, Effect::Say(list));
        self.start_into("reading it back", out);
    }

    fn take_thought(&mut self, thought: &str, now: u128, out: &mut Vec<Effect>)
        ensures
            at(*final(self), final(out)@) == thinking_came(
                at(*old(self), old(out)@),
                thought@,
                now,
            ),
    {
        self.thinking.append(thought);
        if !self.shows_progress() {
            return;
        }
        if self.show_thinking {
            self.show_thought(thought, out);
        } else if self.spinning {
            self.step_into(musing(now).as_str(), out);
        }
    }

    fn show_writing(&mut self, bytes: usize, now: u128, out: &mut Vec<Effect>)
        ensures
            at(*final(self), final(out)@) == writing_shown(
                at(*old(self), old(out)@),
                bytes as nat,
                now,
            ),
    {
        if self.spinning {
            self.end_reasoning_into(now, out);
            self.step_into(
                counted("writing the answer, ", bytes as u128, " bytes").as_str(),
                out,
            );
        }
    }

    fn show_draft(&mut self, draft: &str, now: u128, out: &mut Vec<Effect>)
        ensures
            at(*final(self), final(out)@) == draft_shown(at(*old(self), old(out)@), draft@, now),
    {
        if !self.shows_progress() {
            return;
        }
        self.end_reasoning_into(now, out);
        if self.streaming_line {
            self.streamed.append(draft);
        } else {
            self.stop_into(out);
            self.streaming_line = true;
            self.streamed = draft.to_owned();
        }
        let list = vec![bit(draft, Tint::Dim)];
        assert(pieces(list@) =~= seq![piece(draft@, Tint::Dim)]);
        emit(out, Effect::Draft(list));
    }

    fn show_outcome(&self, before: &str, name: &str, out: &mut Vec<Effect>)
        ensures
            at(*self, final(out)@) == outcome_shown(at(*self, old(out)@), before@, name@),
    {
        if self.shows_progress() {
            let list = vec![
                bit(before, Tint::Plain),
                bit(name, Tint::Green),
                bit("\n", Tint::Plain),
            ];
            assert(pieces(list@) =~= seq![
                piece(before@, Tint::Plain),
                piece(name@, Tint::Green),
                line_end(),
            ]);
            emit(out, Effect::Say(list));
        }
    }

    fn show_error(&mut self, message: &str, out: &mut Vec<Effect>)
        ensures
            at(*final(self), final(out)@) == error_shown(at(*old(self), old(out)@), message@),
    {
        self.stop_into(out);
        let mut after = " ".to_owned();
        after.append(message);
        let list = vec![
            bit("auto-commit:", Tint::Red),
            bit_of(after, Tint::Plain),
            bit("\n", Tint::Plain),
        ];
        assert(pieces(list@) =~= seq![
            piece("auto-commit:"@, Tint::Red),
            piece(" "@ + message@, Tint::Plain),
            line_end(),
        ]);
        emit(out, Effect::Say(list));
    }

    /// What an event does on the screen of a person.
    fn render(&mut self, event: &Event, now: u128) -> (r: Vec<Effect>)
        ensures
            at(*final(self), r@) == rendered(old(self)@, *event, now),
    {
        let mut out: Vec<Effect> = Vec::new();
        assert(effects(out@) =~= Seq::empty());
        match event {
            Event::Context {
                staged_files,
                included,
                withheld,
                added,
                deleted,
                diff_bytes: _,
                commits_used,
                model,
            } => self.show_context(
                *staged_files,
                *included,
                withheld,
                *added,
                *deleted,
                *commits_used,
                model.as_str(),
                &mut out,
            ),
            Event::Tool { name, arguments, returned_bytes } => self.show_tool(
                name.as_str(),
                arguments,
                *returned_bytes,
                now,
                &mut out,
            ),
            Event::Reasoning { text: thought } => self.take_thought(
                thought.as_str(),
                now,
                &mut out,
            ),
            Event::Writing { bytes } => self.show_writing(*bytes, now, &mut out),
            Event::Delta { text: draft } => self.show_draft(draft.as_str(), now, &mut out),
            Event::Message { .. } => {},
            Event::Branch { .. } => {},
            Event::Squash { .. } => {},
            Event::Renamed { from, to } => {
                let mut before = "renamed ".to_owned();
                before.append(from.as_str());
                before.append(" to ");
                self.show_outcome(before.as_str(), to.as_str(), &mut out)
            },
            Event::Committed { sha } => self.show_outcome("committed ", sha.as_str(), &mut out),
            Event::Error { code: _, message } => self.show_error(message.as_str(), &mut out),
        }
        out
    }

    /// The single-object shape is the same events folded into named fields.
    /// Deltas are dropped, because the message they build up is also here.
    fn fold(&mut self, event: &Event, value: serde_json::Value)
        ensures
            final(self)@ == (ReporterView {
                folded: final(self)@.folded,
                tools: folded_tools(old(self)@.tools, *event, value),
                ..old(self)@
            }),
            outside::object_entries(final(self)@.folded) == folded_entries(
                outside::object_entries(old(self)@.folded),
                old(self)@.tools,
                *event,
                value,
            ),
            fold_key(*event) is None ==> final(self)@.folded == old(self)@.folded,
    {
        match event {
            // Deltas and reasoning build up something already reported whole.
            Event::Delta { .. } => {},
            Event::Reasoning { .. } => {},
            Event::Writing { .. } => {},
            Event::Tool { .. } => {
                self.tools.push(value);
                let tools = outside::array_of(&self.tools);
                outside::insert_member(&mut self.folded, "tools", tools);
            },
            Event::Context { .. } => {
                outside::insert_member(&mut self.folded, "context", value);
            },
            Event::Message { .. } => {
                outside::insert_member(&mut self.folded, "message", value);
            },
            Event::Branch { .. } => {
                outside::insert_member(&mut self.folded, "branch", value);
            },
            Event::Squash { .. } => {
                outside::insert_member(&mut self.folded, "squash", value);
            },
            Event::Renamed { .. } => {
                outside::insert_member(&mut self.folded, "renamed", value);
            },
            Event::Committed { .. } => {
                outside::insert_member(&mut self.folded, "committed", value);
            },
            Event::Error { .. } => {
                outside::insert_member(&mut self.folded, "error", value);
            },
        }
    }

    /// Notes what an event says of the run, whichever way it is shown.
    fn note(&mut self, event: &Event, now: u128)
        requires
            event is Tool ==> old(self)@.tool_calls < u32::MAX,
        ensures
            final(self)@ == noted(old(self)@, *event, now),
    {
        match event {
            Event::Delta { .. } => {
                if self.first_token.is_none() {
                    self.first_token = Some(now);
                }
            },
            Event::Writing { .. } => {
                if self.first_token.is_none() {
                    self.first_token = Some(now);
                }
            },
            Event::Reasoning { .. } => {
                if self.first_reasoning.is_none() {
                    self.first_reasoning = Some(now);
                }
            },
            Event::Tool { .. } => {
                self.tool_calls = self.tool_calls + 1;
            },
            _ => {},
        }
    }

    /// Takes in one event, after so many nanoseconds. `line` is its JSON text, which
    /// is looked at where events are printed as they happen, and `value` its JSON,
    /// which is looked at where they are folded into one object; each where it has
    /// one.
    pub fn event(
        &mut self,
        event: &Event,
        line: Option<&str>,
        value: Option<serde_json::Value>,
        now: u128,
    ) -> (r: Vec<Effect>)
        requires
            event is Tool ==> old(self)@.tool_calls < u32::MAX,
        ensures
            match old(self)@.mode {
                Mode::Human => at(*final(self), r@) == rendered(
                    noted(old(self)@, *event, now),
                    *event,
                    now,
                ),
                Mode::JsonStream => {
                    &&& final(self)@ == noted(old(self)@, *event, now)
                    &&& effects(r@) == match line {
                        Some(line) => seq![EffectView::Print(line@)],
                        None => Seq::empty(),
                    }
                },
                Mode::Json => {
                    &&& effects(r@) == Seq::<EffectView>::empty()
                    &&& match value {
                        None => final(self)@ == noted(old(self)@, *event, now),
                        Some(value) => {
                            &&& final(self)@ == (ReporterView {
                                folded: final(self)@.folded,
                                tools: folded_tools(old(self)@.tools, *event, value),
                                ..noted(old(self)@, *event, now)
                            })
                            &&& outside::object_entries(final(self)@.folded) == folded_entries(
                                outside::object_entries(old(self)@.folded),
                                old(self)@.tools,
                                *event,
                                value,
                            )
                            &&& fold_key(*event) is None ==> final(self)@.folded
                                == old(self)@.folded
                        },
                    }
                },
            },
    {
        let mut out: Vec<Effect> = Vec::new();
        assert(effects(out@) =~= Seq::empty());
        self.note(event, now);
        match self.mode {
            Mode::Human => self.render(event, now),
            Mode::JsonStream => {
                if let Some(line) = line {
                    out.push(Effect::Print(line.to_owned()));
                    assert(effects(out@) =~= seq![EffectView::Print(line@)]);
                }
                out
            },
            Mode::Json => {
                if let Some(value) = value {
                    self.fold(event, value);
                }
                out
            },
        }
    }
}

// ---------------------------------------------------------------------------
// Taking the preview back
// ---------------------------------------------------------------------------

/// A piece that was written to stderr since a preview began.
#[derive(Debug)]
pub struct Trace {
    /// Whether it is a part of the preview.
    pub draft: bool,
    pub piece: Piece,
}

/// All that was written.
pub open spec fn trace_text(traces: Seq<Trace>) -> Seq<char>
    decreases traces.len(),
{
    if traces.len() == 0 {
        Seq::empty()
    } else {
        trace_text(traces.drop_last()) + traces.last().piece.text@
    }
}

/// What was written beside the preview.
pub open spec fn beside(traces: Seq<Trace>) -> Seq<PieceView>
    decreases traces.len(),
{
    if traces.len() == 0 {
        Seq::empty()
    } else {
        let before = beside(traces.drop_last());
        if traces.last().draft {
            before
        } else {
            before.push(traces.last().piece@)
        }
    }
}

/// What has to be taken off the terminal for a preview to go, and what has to be
/// written again after that, because it is no part of the preview.
pub fn taken_back(traces: &Vec<Trace>) -> (r: (String, Vec<Piece>))
    ensures
        r.0@ == trace_text(traces@),
        pieces(r.1@) == beside(traces@),
{
    let mut written = String::new();
    let mut again: Vec<Piece> = Vec::new();
    assert(written@ =~= Seq::empty());
    assert(pieces(again@) =~= Seq::empty());
    for i in 0..traces.len()
        invariant
            written@ == trace_text(traces@.take(i as int)),
            pieces(again@) == beside(traces@.take(i as int)),
    {
        let ghost before = pieces(again@);
        assert(traces@.take(i + 1).drop_last() =~= traces@.take(i as int));
        let trace = &traces[i];
        written.append(trace.piece.text.as_str());
        if !trace.draft {
            again.push(Piece { text: trace.piece.text.clone(), tint: trace.piece.tint });
            assert(pieces(again@) =~= before.push(trace.piece@));
        }
    }
    assert(traces@.take(traces@.len() as int) =~= traces@);
    (written, again)
}

// ---------------------------------------------------------------------------
// The end of a run
// ---------------------------------------------------------------------------

/// A moment of the run in milliseconds, if it came.
pub open spec fn moment_text(nanos: Option<u128>) -> Seq<char> {
    match nanos {
        Some(nanos) => text::decimal((nanos / 1_000_000) as nat) + " ms"@,
        None => "none"@,
    }
}

/// The line that says how long what took.
pub open spec fn timing_text(state: ReporterView, now: u128) -> Seq<char> {
    "timing: first thought "@ + moment_text(state.first_reasoning) + ", first token "@
        + moment_text(state.first_token) + ", "@ + text::decimal(state.tool_calls as nat)
        + " tool calls, "@ + text::decimal((now / 1_000_000) as nat) + " ms total"@
}

/// What a run ends with: the spinner is taken down, the single object is printed
/// where one was asked for, and then how long what took, where that was.
pub open spec fn finished(state: ReporterView, now: u128) -> Seq<EffectView> {
    let stop = stopped(begin(state)).done;
    let printed = if state.mode == Mode::Json {
        match outside::object_rendered(state.folded) {
            Some(line) => stop.push(EffectView::Print(line)),
            None => stop,
        }
    } else {
        stop
    };
    if state.timing {
        printed.push(
            EffectView::Say(seq![piece(timing_text(state, now), Tint::Plain), line_end()]),
        )
    } else {
        printed
    }
}

fn moment(nanos: Option<u128>) -> (r: String)
    ensures
        r@ == moment_text(nanos),
{
    match nanos {
        Some(nanos) => {
            let mut out = text::number(nanos / 1_000_000);
            out.append(" ms");
            out
        },
        None => "none".to_owned(),
    }
}

impl Reporter {
    /// Ends the run.
    pub fn finish(&mut self, now: u128) -> (r: Vec<Effect>)
        ensures
            effects(r@) == finished(old(self)@, now),
            !final(self)@.spinning,
            final(self)@ == (ReporterView {
                spinning: false,
                folded: final(self)@.folded,
                ..old(self)@
            }),
            if old(self)@.mode == Mode::Json {
                outside::object_entries(final(self)@.folded).dom() == Set::<Seq<char>>::empty()
            } else {
                final(self)@.folded == old(self)@.folded
            },
    {
        let mut out: Vec<Effect> = Vec::new();
        assert(effects(out@) =~= Seq::empty());
        self.stop_into(&mut out);
        if self.mode == Mode::Json {
            if let Some(line) = outside::render_object(&self.folded) {
                emit(&mut out, Effect::Print(line));
            }
            self.folded = outside::new_object();
        }
        if self.timing {
            let mut line = "timing: first thought ".to_owned();
            line.append(moment(self.first_reasoning).as_str());
            line.append(", first token ");
            line.append(moment(self.first_token).as_str());
            line.append(", ");
            line.append(text::number(self.tool_calls as u128).as_str());
            line.append(" tool calls, ");
            line.append(text::number(now / 1_000_000).as_str());
            line.append(" ms total");
            let list = vec![bit_of(line, Tint::Plain), bit("\n", Tint::Plain)];
            assert(pieces(list@) =~= seq![
                piece(timing_text(old(self)@, now), Tint::Plain),
                line_end(),
            ]);
            emit(&mut out, Effect::Say(list));
        }
        out
    }
}

// ---------------------------------------------------------------------------
// Laws
// ---------------------------------------------------------------------------

/// Whether no effect writes to stdout.
pub open spec fn off_stdout(done: Seq<EffectView>) -> bool {
    forall|i: int| 0 <= i < done.len() ==> !(#[trigger] done[i] is Print)
}

/// No event writes to stdout while a person is watching: what is meant for stdout
/// is the payload alone.
pub proof fn law_events_stay_off_stdout(start: ReporterView, event: Event, now: u128)
    ensures
        off_stdout(rendered(start, event, now).done),
{
}

/// A spinner is only ever up when a person is watching a terminal.
pub open spec fn spins_for_a_person(state: ReporterView) -> bool {
    state.spinning ==> progress(state) && state.terminal
}

/// No event, and no start of something new, puts up a spinner that nobody watches.
pub proof fn law_spinner_is_watched(
    start: ReporterView,
    event: Event,
    message: Seq<char>,
    now: u128,
)
    requires
        spins_for_a_person(start),
    ensures
        spins_for_a_person(noted(start, event, now)),
        spins_for_a_person(rendered(start, event, now).state),
        spins_for_a_person(started(begin(start), message).state),
        spins_for_a_person(stepped(begin(start), message).state),
        spins_for_a_person(
            stream_ended(thinking_ended(stopped(begin(start)), now)).state,
        ),
{
}

/// A quiet run says nothing but its errors.
pub proof fn law_quiet_is_silent(start: ReporterView, event: Event, message: Seq<char>, now: u128)
    requires
        start.quiet,
        spins_for_a_person(start),
        event !is Error,
    ensures
        rendered(start, event, now).done == Seq::<EffectView>::empty(),
        started(begin(start), message).done == Seq::<EffectView>::empty(),
        stepped(begin(start), message).done == Seq::<EffectView>::empty(),
{
}

/// An error is always shown, last.
pub proof fn law_errors_are_shown(start: ReporterView, event: Event, now: u128)
    requires
        event is Error,
    ensures
        rendered(start, event, now).done.len() > 0,
        rendered(start, event, now).done.last() == EffectView::Say(
            seq![
                piece("auto-commit:"@, Tint::Red),
                piece(" "@ + event->Error_message@, Tint::Plain),
                line_end(),
            ],
        ),
{
}

/// Once settled, no line is open and no spinner is up.
pub proof fn law_settled(start: ReporterView, now: u128)
    ensures
        ({
            let state = stream_ended(thinking_ended(stopped(begin(start)), now)).state;
            &&& !state.spinning
            &&& !state.streaming_line
            &&& !state.reasoning_line
        }),
{
}

/// The preview is cleared, so that the final rendering is not printed twice: what is
/// taken off the terminal is all that was streamed, and clearing it again changes
/// nothing.
pub proof fn law_preview_is_cleared(start: ReporterView)
    requires
        start.streaming_line,
        start.terminal,
    ensures
        ({
            let once = stream_ended(begin(start));
            &&& once.done == seq![EffectView::Clear(start.streamed)]
            &&& !once.state.streaming_line
            &&& once.state.streamed == Seq::<char>::empty()
            &&& stream_ended(once) == once
        }),
{
}

/// No part of a preview is lost sight of. Whatever event comes while there is one,
/// the preview goes on with exactly what is written of it, or all of it is cleared;
/// and thinking leaves it where it is.
pub proof fn law_preview_is_kept_whole(start: ReporterView, event: Event, now: u128)
    requires
        start.streaming_line,
        start.terminal,
    ensures
        ({
            let step = rendered(start, event, now);
            if event is Delta && progress(start) {
                &&& step.state.streaming_line
                &&& step.state.streamed == start.streamed + event->Delta_text@
                &&& step.done.last() == EffectView::Draft(
                    seq![piece(event->Delta_text@, Tint::Dim)],
                )
                &&& forall|i: int|
                    0 <= i < step.done.len() - 1 ==> !(#[trigger] step.done[i] is Draft)
            } else {
                &&& forall|i: int| 0 <= i < step.done.len() ==> !(#[trigger] step.done[i] is Draft)
                &&& step.state.streaming_line ==> step.state.streamed == start.streamed
                &&& !step.state.streaming_line ==> step.done.contains(
                    EffectView::Clear(start.streamed),
                )
            }
        }),
        event is Reasoning ==> rendered(start, event, now).state.streaming_line,
{
    let step = rendered(start, event, now);
    if event is Tool && progress(start) {
        let ended = thinking_ended(begin(start), now);
        assert(step.done[ended.done.len() as int] == EffectView::Clear(start.streamed));
    }
}

/// How long the model thought is said once: closing the thinking block again
/// changes nothing.
pub proof fn law_thinking_ends_once(step: Step, now: u128, later: u128)
    ensures
        thinking_ended(thinking_ended(step, now), later) == thinking_ended(step, now),
{
}

/// Thinking is kept whichever way it is rendered, and nothing else adds to it.
pub proof fn law_thinking_is_kept(start: ReporterView, event: Event, now: u128)
    ensures
        rendered(start, event, now).state.thinking == match event {
            Event::Reasoning { text: thought } => start.thinking + thought@,
            _ => start.thinking,
        },
{
}

/// Deltas, thinking and progress are not in the single object.
pub proof fn law_deltas_are_dropped(
    entries: Map<Seq<char>, serde_json::Value>,
    tools: Seq<serde_json::Value>,
    event: Event,
    value: serde_json::Value,
)
    requires
        event is Delta || event is Reasoning || event is Writing,
    ensures
        folded_entries(entries, tools, event, value) == entries,
        folded_tools(tools, event, value) == tools,
{
}

/// Of events of one kind the last is in the single object, except that every tool
/// call is; and no event touches the field of another kind.
pub proof fn law_each_kind_has_its_field(
    entries: Map<Seq<char>, serde_json::Value>,
    tools: Seq<serde_json::Value>,
    event: Event,
    value: serde_json::Value,
    key: Seq<char>,
)
    requires
        fold_key(event) is Some,
    ensures
        ({
            let after = folded_entries(entries, tools, event, value);
            &&& after.dom().contains(fold_key(event)->0)
            &&& after[fold_key(event)->0] == if event is Tool {
                outside::json_array_of(folded_tools(tools, event, value))
            } else {
                value
            }
            &&& key != fold_key(event)->0 ==> after.dom().contains(key) == entries.dom().contains(
                key,
            ) && after[key] == entries[key]
        }),
{
}

/// What a list of pieces says, without its colours.
pub open spec fn spoken(pieces: Seq<PieceView>) -> Seq<char> {
    text::concat(Seq::new(pieces.len(), |i: int| pieces[i].text))
}

/// What two lists of pieces say is what each says.
pub proof fn lemma_spoken(a: Seq<PieceView>, b: Seq<PieceView>)
    ensures
        spoken(a + b) == spoken(a) + spoken(b),
    decreases b.len(),
{
    let all = Seq::new((a + b).len(), |i: int| (a + b)[i].text);
    if b.len() == 0 {
        assert(a + b =~= a);
        assert(spoken(b) =~= Seq::empty());
        assert(spoken(a) + spoken(b) =~= spoken(a));
    } else {
        lemma_spoken(a, b.drop_last());
        assert((a + b).drop_last() =~= a + b.drop_last());
        assert(all.drop_last() =~= Seq::new(
            (a + b.drop_last()).len(),
            |i: int| (a + b.drop_last())[i].text,
        ));
        let second = Seq::new(b.len(), |i: int| b[i].text);
        assert(second.drop_last() =~= Seq::new(b.drop_last().len(), |i: int| b.drop_last()[i].text));
        assert(spoken(a + b) =~= spoken(a) + spoken(b));
    }
}

/// One piece says its text.
pub proof fn lemma_spoken_one(piece: PieceView)
    ensures
        spoken(seq![piece]) == piece.text,
{
    let texts = Seq::new(1, |i: int| seq![piece][i].text);
    assert(texts.drop_last() =~= Seq::<Seq<char>>::empty());
    reveal_with_fuel(text::concat, 2);
    assert(spoken(seq![piece]) =~= piece.text);
}

/// What an effect writes to stderr, without its colours.
pub open spec fn written(effect: EffectView) -> Seq<char> {
    match effect {
        EffectView::Say(list) => spoken(list),
        EffectView::Draft(list) => spoken(list),
        _ => Seq::empty(),
    }
}

/// What the messages are written from is told in one line: how many files are shown of how
/// many, the lines added and deleted, the number of commits, and the model. The files that
/// are withheld are named in a second, where there are any.
pub proof fn law_context_is_told(start: ReporterView, event: Event, now: u128)
    requires
        event is Context,
        start.mode == Mode::Human,
        !start.quiet,
    ensures
        event matches Event::Context {
            staged_files,
            included,
            withheld,
            added,
            deleted,
            diff_bytes,
            commits_used,
            model,
        } && {
            let done = rendered(start, event, now).done;
            let line = "  "@ + (if included == staged_files {
                text::decimal(staged_files as nat)
            } else {
                text::decimal(included as nat) + " of "@ + text::decimal(staged_files as nat)
            }) + " files  +"@ + text::decimal(added as nat) + " -"@ + text::decimal(
                deleted as nat,
            ) + "  "@ + text::decimal(commits_used as nat) + " commits of context, "@ + model@
                + "\n"@;
            let first = if start.spinning {
                1int
            } else {
                0int
            };
            &&& done.len() == first + 1 + (if withheld@.len() > 0 {
                1int
            } else {
                0int
            })
            &&& start.spinning ==> done[0] == EffectView::Unspin
            &&& done[first] is Say
            &&& written(done[first]) == line
            &&& withheld@.len() > 0 ==> done[first + 1] is Say && written(done[first + 1])
                == "  withheld "@ + text::join(text::texts(withheld@), ", "@) + "\n"@
        },
{
    if let Event::Context {
        staged_files,
        included,
        withheld,
        added,
        deleted,
        diff_bytes,
        commits_used,
        model,
    } = event {
        let done = rendered(start, event, now).done;
        let files = files_text(included as nat, staged_files as nat);
        let list = seq![
            piece("  "@, Tint::Plain),
            piece(files, Tint::Bold),
            piece("  "@, Tint::Plain),
            piece("+"@ + text::decimal(added as nat), Tint::Green),
            piece(" "@, Tint::Plain),
            piece("-"@ + text::decimal(deleted as nat), Tint::Red),
            piece("  "@, Tint::Plain),
            piece(
                text::decimal(commits_used as nat) + " commits of context, "@ + model@,
                Tint::Dim,
            ),
            line_end(),
        ];
        lemma_spoken_all(list);
        reveal_with_fuel(spoken_up_to, 10);
        reveal_strlit(" files  +");
        reveal_strlit(" files");
        reveal_strlit("  ");
        reveal_strlit("+");
        reveal_strlit(" ");
        reveal_strlit("-");
        reveal_strlit(" -");
        assert(" files  +"@ =~= " files"@ + "  "@ + "+"@);
        assert(" -"@ =~= " "@ + "-"@);
        let shown = if included == staged_files {
            text::decimal(staged_files as nat)
        } else {
            text::decimal(included as nat) + " of "@ + text::decimal(staged_files as nat)
        };
        assert(files =~= shown + " files"@);
        assert(spoken(list) =~= "  "@ + shown + " files  +"@ + text::decimal(added as nat) + " -"@
            + text::decimal(deleted as nat) + "  "@ + text::decimal(commits_used as nat)
            + " commits of context, "@ + model@ + "\n"@);
        let names = seq![
            piece("  "@, Tint::Plain),
            piece("withheld"@, Tint::Yellow),
            piece(" "@, Tint::Plain),
            piece(text::join(text::texts(withheld@), ", "@), Tint::Dim),
            line_end(),
        ];
        lemma_spoken_all(names);
        reveal_strlit("  withheld ");
        reveal_strlit("withheld");
        assert("  withheld "@ =~= "  "@ + "withheld"@ + " "@);
        assert(spoken(names) =~= "  withheld "@ + text::join(text::texts(withheld@), ", "@)
            + "\n"@);
        assert(text::texts(withheld@).len() == withheld@.len());
    }
}

/// What the first pieces of a list say.
spec fn spoken_up_to(list: Seq<PieceView>, n: nat) -> Seq<char>
    decreases n,
{
    if n == 0 {
        Seq::empty()
    } else {
        spoken_up_to(list, (n - 1) as nat) + list[n - 1].text
    }
}

proof fn lemma_spoken_up_to(list: Seq<PieceView>, n: nat)
    requires
        n <= list.len(),
    ensures
        spoken(list.take(n as int)) == spoken_up_to(list, n),
    decreases n,
{
    if n > 0 {
        lemma_spoken_up_to(list, (n - 1) as nat);
        let before = list.take(n - 1);
        lemma_spoken(before, seq![list[n - 1]]);
        lemma_spoken_one(list[n - 1]);
        assert(list.take(n as int) =~= before + seq![list[n - 1]]);
    } else {
        assert(spoken(list.take(0)) =~= Seq::empty());
    }
}

proof fn lemma_spoken_all(list: Seq<PieceView>)
    ensures
        spoken(list) == spoken_up_to(list, list.len()),
{
    lemma_spoken_up_to(list, list.len());
    assert(list.take(list.len() as int) =~= list);
}

/// A tool call is told with its name, its arguments and the size of what came back, and
/// then the wait goes on.
pub proof fn law_tool_call_is_told(start: ReporterView, event: Event, now: u128)
    requires
        event is Tool,
        start.mode == Mode::Human,
        !start.quiet,
    ensures
        event matches Event::Tool { name, arguments, returned_bytes } && {
            let done = rendered(start, event, now).done;
            &&& done.len() >= 2
            &&& done[done.len() - 2] is Say
            &&& written(done[done.len() - 2]) == "tool "@ + name@ + " "@ + outside::json_shown(
                arguments,
            ) + " ("@ + text::decimal(returned_bytes as nat) + " bytes)\n"@
            &&& start.terminal ==> done.last() == EffectView::Spin("reading it back"@)
            &&& !start.terminal ==> written(done.last()) == "reading it back\n"@
        },
{
    if let Event::Tool { name, arguments, returned_bytes } = event {
        let step = stopped(stream_ended(thinking_ended(begin(start), now)));
        assert(step.state.mode == start.mode && step.state.quiet == start.quiet
            && step.state.terminal == start.terminal);
        let shown = outside::json_shown(arguments);
        let list = seq![
            piece("tool"@, Tint::Cyan),
            piece(" "@ + name@ + " "@ + shown + " "@, Tint::Plain),
            piece("("@ + text::decimal(returned_bytes as nat) + " bytes)"@, Tint::Dim),
            line_end(),
        ];
        lemma_spoken_all(list);
        reveal_with_fuel(spoken_up_to, 5);
        reveal_strlit("tool ");
        reveal_strlit("tool");
        reveal_strlit(" ");
        reveal_strlit(" (");
        reveal_strlit("(");
        reveal_strlit(" bytes)\n");
        reveal_strlit(" bytes)");
        reveal_strlit("\n");
        assert("tool "@ =~= "tool"@ + " "@);
        assert(" ("@ =~= " "@ + "("@);
        assert(" bytes)\n"@ =~= " bytes)"@ + "\n"@);
        assert(spoken(list) =~= "tool "@ + name@ + " "@ + shown + " ("@ + text::decimal(
            returned_bytes as nat,
        ) + " bytes)\n"@);
        let wait = seq![piece("reading it back"@, Tint::Plain), line_end()];
        lemma_spoken_all(wait);
        reveal_strlit("reading it back\n");
        reveal_strlit("reading it back");
        assert("reading it back\n"@ =~= "reading it back"@ + "\n"@);
        assert(spoken(wait) =~= "reading it back\n"@);
    }
}

/// What was done is told with its names, and so is an error, with its message.
pub proof fn law_outcomes_are_told(start: ReporterView, event: Event, now: u128)
    ensures
        (event matches Event::Renamed { from, to } && progress(start)) ==> {
            let done = rendered(start, event, now).done;
            &&& done.len() == 1
            &&& done[0] is Say
            &&& written(done[0]) == "renamed "@ + event->from@ + " to "@ + event->to@ + "\n"@
        },
        (event matches Event::Committed { sha } && progress(start)) ==> {
            let done = rendered(start, event, now).done;
            &&& done.len() == 1
            &&& done[0] is Say
            &&& written(done[0]) == "committed "@ + event->sha@ + "\n"@
        },
        event matches Event::Error { code, message } ==> {
            let done = rendered(start, event, now).done;
            &&& done.len() > 0
            &&& done.last() is Say
            &&& written(done.last()) == "auto-commit: "@ + message@ + "\n"@
        },
        event is Message || event is Branch || event is Squash ==> rendered(
            start,
            event,
            now,
        ).done.len() == 0 && rendered(start, event, now).state == start,
{
    reveal_with_fuel(spoken_up_to, 4);
    match event {
        Event::Renamed { from, to } => {
            let list = seq![
                piece("renamed "@ + from@ + " to "@, Tint::Plain),
                piece(to@, Tint::Green),
                line_end(),
            ];
            lemma_spoken_all(list);
            assert(spoken(list) =~= "renamed "@ + from@ + " to "@ + to@ + "\n"@);
        },
        Event::Committed { sha } => {
            let list = seq![
                piece("committed "@, Tint::Plain),
                piece(sha@, Tint::Green),
                line_end(),
            ];
            lemma_spoken_all(list);
            assert(spoken(list) =~= "committed "@ + sha@ + "\n"@);
        },
        Event::Error { code, message } => {
            let list = seq![
                piece("auto-commit:"@, Tint::Red),
                piece(" "@ + message@, Tint::Plain),
                line_end(),
            ];
            lemma_spoken_all(list);
            reveal_strlit("auto-commit: ");
            reveal_strlit("auto-commit:");
            reveal_strlit(" ");
            assert("auto-commit: "@ =~= "auto-commit:"@ + " "@);
            assert(spoken(list) =~= "auto-commit: "@ + message@ + "\n"@);
        },
        _ => {},
    }
}

/// Progress is shown to a person who did not ask for quiet, and to nobody else: as a
/// spinner on a terminal, and as lines elsewhere. Each message takes the place of the one
/// before it, and taking the spinner down twice is taking it down once.
pub proof fn law_progress_is_shown(start: ReporterView, message: Seq<char>)
    ensures
        progress(start) <==> start.mode == Mode::Human && !start.quiet,
        !progress(start) ==> started(begin(start), message) == begin(start),
        progress(start) && start.terminal ==> started(begin(start), message).done == seq![
            EffectView::Spin(message),
        ] && started(begin(start), message).state == (ReporterView { spinning: true, ..start }),
        progress(start) && !start.terminal ==> started(begin(start), message).done.len() == 1
            && written(started(begin(start), message).done[0]) == message + "\n"@ && started(
            begin(start),
            message,
        ).state == start,
        stepped(begin(start), message).state == start,
        start.spinning ==> stepped(begin(start), message).done == seq![
            EffectView::Remark(message),
        ],
        !start.spinning && progress(start) ==> stepped(begin(start), message).done.len() == 1
            && written(stepped(begin(start), message).done[0]) == message + "\n"@,
        !start.spinning && !progress(start) ==> stepped(begin(start), message).done.len() == 0,
        start.spinning ==> stopped(begin(start)).done == seq![EffectView::Unspin],
        !start.spinning ==> stopped(begin(start)).done.len() == 0,
        stopped(begin(start)).state == (ReporterView { spinning: false, ..start }),
        stopped(stopped(begin(start))) == stopped(begin(start)),
{
    let list = seq![piece(message, Tint::Plain), line_end()];
    lemma_spoken_all(list);
    reveal_with_fuel(spoken_up_to, 3);
    assert(spoken(list) =~= message + "\n"@);
    assert(started(begin(start), message).done =~= seq![EffectView::Spin(message)]
        || !(progress(start) && start.terminal));
    if start.spinning {
        assert(stepped(begin(start), message).done =~= seq![EffectView::Remark(message)]);
        assert(stopped(begin(start)).done =~= seq![EffectView::Unspin]);
    }
}

/// A part of the answer is shown as it is, dimmed, behind what was shown before it; and
/// the size of an answer that cannot be shown is told where the spinner is up.
pub proof fn law_answer_is_shown_as_it_comes(start: ReporterView, event: Event, now: u128)
    ensures
        (event matches Event::Delta { text: part } && progress(start)) ==> {
            let step = rendered(start, event, now);
            &&& step.done.len() > 0
            &&& step.done.last() is Draft
            &&& written(step.done.last()) == event->Delta_text@
            &&& step.state.streaming_line
            &&& start.streaming_line ==> step.state.streamed == start.streamed
                + event->Delta_text@
            &&& !start.streaming_line ==> step.state.streamed == event->Delta_text@
        },
        (event matches Event::Writing { bytes } && start.spinning && start.first_reasoning is None)
            ==> rendered(start, event, now).done.last() == EffectView::Remark(
            "writing the answer, "@ + text::decimal(event->bytes as nat) + " bytes"@,
        ),
        event is Writing && !start.spinning ==> rendered(start, event, now) == begin(start),
{
    if let Event::Delta { text: part } = event {
        lemma_spoken_one(piece(part@, Tint::Dim));
    }
}

/// How long the model thought is told when it stops, once, and only where it thought and
/// where progress is shown.
pub proof fn law_thinking_time_is_told(start: ReporterView, now: u128)
    ensures
        start.first_reasoning is Some && start.thought_for is None ==> {
            let ended = thinking_ended(begin(start), now);
            &&& ended.state.thought_for == Some(now)
            &&& progress(start) ==> ended.done.len() > 0 && ended.done.last()
                == EffectView::Thought(now) && !ended.state.spinning
            &&& !progress(start) ==> forall|i: int|
                0 <= i < ended.done.len() ==> !(#[trigger] ended.done[i] is Thought)
        },
        start.first_reasoning is None || start.thought_for is Some ==> {
            let ended = thinking_ended(begin(start), now);
            &&& ended.state.thought_for == start.thought_for
            &&& forall|i: int|
                0 <= i < ended.done.len() ==> !(#[trigger] ended.done[i] is Thought)
        },
        !thinking_ended(begin(start), now).state.reasoning_line,
{
}

/// Thinking that is shown is shown whole: its parts, in order, make up what came, and each
/// that begins a line is indented.
pub proof fn law_thinking_is_shown_whole(parts: Seq<Seq<char>>, fresh: bool, n: nat)
    requires
        n < parts.len(),
    ensures
        thinking_pieces(parts, fresh, 0).len() == 0,
        thinking_pieces(parts, fresh, n + 1) == thinking_pieces(parts, fresh, n) + (if n > 0
            || fresh {
            seq![piece("  "@, Tint::Plain), piece(parts[n as int], Tint::Dim)]
        } else {
            seq![piece(parts[n as int], Tint::Dim)]
        }),
        spoken(thinking_pieces(parts, fresh, n + 1)) == spoken(thinking_pieces(parts, fresh, n)) + (
        if n > 0 || fresh {
            "  "@ + parts[n as int]
        } else {
            parts[n as int]
        }),
{
    let before = thinking_pieces(parts, fresh, n);
    let gap = piece("  "@, Tint::Plain);
    let shown = piece(parts[n as int], Tint::Dim);
    lemma_spoken_one(gap);
    lemma_spoken_one(shown);
    if n > 0 || fresh {
        assert(thinking_pieces(parts, fresh, n + 1) =~= before + seq![gap, shown]);
        lemma_spoken(before, seq![gap, shown]);
        lemma_spoken(seq![gap], seq![shown]);
        assert(seq![gap, shown] =~= seq![gap] + seq![shown]);
    } else {
        assert(thinking_pieces(parts, fresh, n + 1) =~= before + seq![shown]);
        lemma_spoken(before, seq![shown]);
    }
}

/// Thinking is shown where that is asked for, and otherwise only moves the spinner on. The
/// next part is indented where this one ended with a line.
pub proof fn law_thinking_is_shown_where_asked(start: ReporterView, event: Event, now: u128)
    requires
        event is Reasoning,
        event->Reasoning_text@.len() > 0,
    ensures
        ({
            let step = rendered(start, event, now);
            let thought = event->Reasoning_text@;
            let parts = text::line_parts(thought);
            &&& step.state.thinking == start.thinking + thought
            &&& progress(start) && start.show_thinking ==> {
                &&& step.done.len() > 0
                &&& step.done.last() == EffectView::Say(
                    thinking_pieces(parts, start.reasoning_fresh, parts.len()),
                )
                &&& step.state.reasoning_line
                &&& step.state.reasoning_fresh <==> thought.last() == '\n'
            }
            &&& progress(start) && !start.show_thinking && start.spinning ==> step.done == seq![
                EffectView::Remark(musing_word(now)),
            ]
            &&& progress(start) && !start.show_thinking && !start.spinning ==> step.done.len()
                == 0
            &&& !progress(start) ==> step.done.len() == 0
        }),
{
    let thought = event->Reasoning_text@;
    text::law_line_parts_make_up_the_text(thought);
    let step = rendered(start, event, now);
    if progress(start) && !start.show_thinking && start.spinning {
        assert(step.done =~= seq![EffectView::Remark(musing_word(now))]);
    }
}

/// The word for the wait changes every three seconds, goes through six, and begins again.
pub proof fn law_musing_goes_round(nanos: u128, later: u128)
    ensures
        nanos / 3_000_000_000 == later / 3_000_000_000 ==> musing_word(nanos) == musing_word(later),
        later / 3_000_000_000 == nanos / 3_000_000_000 + 1 ==> musing_word(nanos) != musing_word(
            later,
        ),
        later / 3_000_000_000 == nanos / 3_000_000_000 + 6 ==> musing_word(nanos) == musing_word(
            later,
        ),
        nanos < 3_000_000_000 ==> musing_word(nanos) == "thinking"@,
{
    reveal_strlit("thinking");
    reveal_strlit("pondering");
    reveal_strlit("mulling it over");
    reveal_strlit("weighing it up");
    reveal_strlit("still pondering");
    reveal_strlit("nearly there, probably");
    assert("thinking"@.len() == 8 && "pondering"@.len() == 9 && "mulling it over"@.len() == 15
        && "weighing it up"@.len() == 14 && "still pondering"@.len() == 15
        && "nearly there, probably"@.len() == 22);
}

/// The moment of the first word and of the first thought are noted once, and each tool call
/// is counted; nothing else is noted.
pub proof fn law_moments_are_noted_once(state: ReporterView, event: Event, now: u128)
    ensures
        ({
            let after = noted(state, event, now);
            &&& state.first_token is Some ==> after.first_token == state.first_token
            &&& state.first_token is None ==> (after.first_token == Some(now) <==> event is Delta
                || event is Writing)
            &&& state.first_token is None && after.first_token != Some(now)
                ==> after.first_token is None
            &&& state.first_reasoning is Some ==> after.first_reasoning == state.first_reasoning
            &&& state.first_reasoning is None ==> (after.first_reasoning == Some(now)
                <==> event is Reasoning)
            &&& state.first_reasoning is None && after.first_reasoning != Some(now)
                ==> after.first_reasoning is None
            &&& event is Tool && state.tool_calls < u32::MAX ==> after.tool_calls
                == state.tool_calls + 1
            &&& event !is Tool ==> after.tool_calls == state.tool_calls
            &&& after == (ReporterView {
                first_token: after.first_token,
                first_reasoning: after.first_reasoning,
                tool_calls: after.tool_calls,
                ..state
            })
        }),
{
}

/// What was written is read back piece by piece, and what is not of the preview stays, in
/// order.
pub proof fn law_traces_are_told_one_by_one(a: Seq<Trace>, b: Seq<Trace>, trace: Trace)
    ensures
        trace_text(a + b) == trace_text(a) + trace_text(b),
        trace_text(seq![trace]) == trace.piece.text@,
        beside(a + b) == beside(a) + beside(b),
        trace.draft ==> beside(seq![trace]).len() == 0,
        !trace.draft ==> beside(seq![trace]) == seq![trace.piece@],
    decreases b.len(),
{
    reveal_with_fuel(trace_text, 2);
    reveal_with_fuel(beside, 2);
    assert(seq![trace].drop_last() =~= Seq::<Trace>::empty());
    assert(trace_text(seq![trace]) =~= trace.piece.text@);
    if !trace.draft {
        assert(beside(seq![trace]) =~= seq![trace.piece@]);
    }
    if b.len() == 0 {
        assert(a + b =~= a);
        assert(trace_text(a + b) =~= trace_text(a) + trace_text(b));
        assert(beside(a + b) =~= beside(a) + beside(b));
    } else {
        law_traces_are_told_one_by_one(a, b.drop_last(), trace);
        assert((a + b).drop_last() =~= a + b.drop_last());
        assert(trace_text(a + b) =~= trace_text(a) + trace_text(b));
        assert(beside(a + b) =~= beside(a) + beside(b));
    }
}

/// Times are told in whole milliseconds.
pub proof fn law_times_are_told_in_milliseconds(state: ReporterView, ms: nat, rest: nat)
    requires
        rest < 1_000_000,
        ms * 1_000_000 + rest <= u128::MAX,
    ensures
        moment_text(Some((ms * 1_000_000 + rest) as u128)) == text::decimal(ms) + " ms"@,
        moment_text(None) == "none"@,
        text::has_end(
            timing_text(state, (ms * 1_000_000 + rest) as u128),
            ", "@ + text::decimal(state.tool_calls as nat) + " tool calls, "@ + text::decimal(ms)
                + " ms total"@,
        ),
        text::starts_with(
            timing_text(state, (ms * 1_000_000 + rest) as u128),
            "timing: first thought "@ + moment_text(state.first_reasoning) + ", first token "@
                + moment_text(state.first_token) + ", "@,
        ),
{
    let now = (ms * 1_000_000 + rest) as u128;
    assert((ms * 1_000_000 + rest) / 1_000_000 == ms) by (nonlinear_arith)
        requires
            rest < 1_000_000,
    ;
    let all = timing_text(state, now);
    let end = ", "@ + text::decimal(state.tool_calls as nat) + " tool calls, "@ + text::decimal(ms)
        + " ms total"@;
    assert(all.skip(all.len() - end.len()) =~= end);
    let start = "timing: first thought "@ + moment_text(state.first_reasoning) + ", first token "@
        + moment_text(state.first_token) + ", "@;
    assert(all.take(start.len() as int) =~= start);
}

/// At the end the spinner is taken down, the single object is printed where one is wanted,
/// and the times are told last, where they are asked for.
pub proof fn law_finish_tells_what_is_asked_for(state: ReporterView, now: u128)
    ensures
        state.timing ==> finished(state, now).len() > 0 && written(finished(state, now).last())
            == timing_text(state, now) + "\n"@,
        state.timing ==> finished(state, now).drop_last() == finished(
            ReporterView { timing: false, ..state },
            now,
        ),
        state.mode == Mode::Json && !state.timing ==> (outside::object_rendered(
            state.folded,
        ) matches Some(line) ==> finished(state, now).len() > 0 && finished(state, now).last()
            == EffectView::Print(line)),
        state.mode != Mode::Json && !state.timing && state.spinning ==> finished(state, now)
            == seq![EffectView::Unspin],
        state.mode != Mode::Json && !state.timing && !state.spinning ==> finished(state, now).len()
            == 0,
        state.spinning ==> finished(state, now).len() > 0 && finished(state, now)[0]
            == EffectView::Unspin,
{
    let list = seq![piece(timing_text(state, now), Tint::Plain), line_end()];
    lemma_spoken_all(list);
    reveal_with_fuel(spoken_up_to, 3);
    assert(spoken(list) =~= timing_text(state, now) + "\n"@);
    if state.timing {
        let plain = ReporterView { timing: false, ..state };
        assert(stopped(begin(plain)).done == stopped(begin(state)).done);
        assert(finished(state, now).drop_last() =~= finished(plain, now));
    }
    if state.mode != Mode::Json && !state.timing && state.spinning {
        assert(finished(state, now) =~= seq![EffectView::Unspin]);
    }
}

/// A new run reports as it is asked to, and has nothing to report yet.
pub proof fn law_new_run_reports_as_asked(r: ReporterView, args: GlobalArgs, terminal: bool)
    requires
        is_new(r, args, terminal),
    ensures
        args.json ==> r.mode == Mode::Json,
        !args.json && args.json_stream ==> r.mode == Mode::JsonStream,
        !args.json && !args.json_stream ==> r.mode == Mode::Human,
        progress(r) <==> !args.json && !args.json_stream && !args.quiet,
        r.timing == args.timing,
        r.show_thinking == args.show_thinking,
        r.terminal == terminal,
        r.tool_calls == 0 && r.first_token is None && r.first_reasoning is None
            && r.thought_for is None,
        stopped(begin(r)).done.len() == 0,
        stream_ended(begin(r)).done.len() == 0,
        r.thinking.len() == 0,
        r.tools.len() == 0,
{
}

/// A preview off a terminal cannot be taken back, so it is ended with its line; and where
/// there is no preview, nothing is done.
pub proof fn law_preview_is_ended(start: ReporterView)
    ensures
        start.streaming_line && !start.terminal ==> stream_ended(begin(start)).done == seq![
            EffectView::Say(seq![line_end()]),
        ] && stream_ended(begin(start)).state == (ReporterView {
            streaming_line: false,
            streamed: Seq::empty(),
            ..start
        }),
        !start.streaming_line ==> stream_ended(begin(start)) == begin(start),
        line_end() == (PieceView { text: "\n"@, tint: Tint::Plain }),
{
    if start.streaming_line && !start.terminal {
        assert(stream_ended(begin(start)).done =~= seq![EffectView::Say(seq![line_end()])]);
    }
}

/// What is added is green, what is removed is red, what is withheld is marked yellow, a
/// tool cyan, and what was made green.
pub proof fn law_colours_tell_apart(
    staged_files: nat,
    included: nat,
    added: nat,
    deleted: nat,
    commits_used: nat,
    name: Seq<char>,
    withheld: Seq<Seq<char>>,
)
    ensures
        context_line(staged_files, included, added, deleted, commits_used, name) matches EffectView::Say(
            list,
        ) && list.contains(PieceView { text: "+"@ + text::decimal(added), tint: Tint::Green })
            && list.contains(PieceView { text: "-"@ + text::decimal(deleted), tint: Tint::Red }),
        withheld_line(withheld) matches EffectView::Say(list) && list.contains(
            PieceView { text: "withheld"@, tint: Tint::Yellow },
        ) && list.contains(
            PieceView { text: text::join(withheld, ", "@), tint: Tint::Dim },
        ),
        tool_line(name, name, added) matches EffectView::Say(list) && list[0] == (PieceView {
            text: "tool"@,
            tint: Tint::Cyan,
        }),
{
    let line = context_line(staged_files, included, added, deleted, commits_used, name)->Say_0;
    assert(line[3] == (PieceView { text: "+"@ + text::decimal(added), tint: Tint::Green }));
    assert(line[5] == (PieceView { text: "-"@ + text::decimal(deleted), tint: Tint::Red }));
    let names = withheld_line(withheld)->Say_0;
    assert(names[1] == (PieceView { text: "withheld"@, tint: Tint::Yellow }));
    assert(names[3] == (PieceView { text: text::join(withheld, ", "@), tint: Tint::Dim }));
}

/// What is said of a list is what each of its entries holds, one for one.
pub proof fn law_lists_say_what_they_hold(list: Seq<Piece>, done: Seq<Effect>, i: int)
    ensures
        pieces(list).len() == list.len(),
        0 <= i < list.len() ==> pieces(list)[i] == (PieceView {
            text: list[i].text@,
            tint: list[i].tint,
        }),
        effects(done).len() == done.len(),
        0 <= i < done.len() ==> effects(done)[i] == done[i]@,
{
}

} // verus!
