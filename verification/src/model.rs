//! Talking to a model: what it is asked, what it streams back, and the tools it
//! may call.

use crate::config;
use crate::config::{Config, ConfigError};
use crate::git;
use crate::git::Diff;
use crate::output;
use crate::output::{Event, EventView};
use crate::outside;
use crate::text;
use vstd::prelude::*;

verus! {

/// What can go wrong with a model.
#[derive(Debug)]
#[allow(inconsistent_fields)]
pub enum ModelError {
    /// The request failed, for the reason given.
    Api(String),
    /// Nothing came back.
    Empty,
    /// What came back does not fit. The reason alone says nothing about what
    /// actually came back, which is the one thing needed to tell a bad schema
    /// from a bad model.
    Shape { reason: String, text: String },
}

/// What an error of a model is, in words.
pub open spec fn model_error_text(error: ModelError) -> Seq<char> {
    match error {
        ModelError::Api(why) => why@,
        ModelError::Empty => "the model returned nothing"@,
        ModelError::Shape { reason, text } => "the model returned a shape that does not fit: "@
            + reason@ + "\nit returned: "@ + text@,
    }
}

impl ModelError {
    /// What the error is, in words.
    pub fn message(&self) -> (r: String)
        ensures
            r@ == model_error_text(*self),
    {
        match self {
            ModelError::Api(why) => why.clone(),
            ModelError::Empty => "the model returned nothing".to_owned(),
            ModelError::Shape { reason, text } => {
                let mut out = "the model returned a shape that does not fit: ".to_owned();
                out.append(reason.as_str());
                out.append("\nit returned: ");
                out.append(text.as_str());
                out
            },
        }
    }
}

/// One tool call, rebuilt from the chunks a stream delivers it in.
#[derive(Debug)]
pub struct PartialCall {
    pub id: String,
    pub name: String,
    pub arguments: String,
}

/// What a [`PartialCall`] says.
pub struct CallView {
    pub id: Seq<char>,
    pub name: Seq<char>,
    pub arguments: Seq<char>,
}

impl View for PartialCall {
    type V = CallView;

    open spec fn view(&self) -> CallView {
        CallView { id: self.id@, name: self.name@, arguments: self.arguments@ }
    }
}

/// What the calls of a list say.
pub open spec fn call_views(calls: Seq<PartialCall>) -> Seq<CallView> {
    Seq::new(calls.len(), |i: int| calls[i]@)
}

/// A message of a conversation.
#[derive(Debug)]
pub enum ChatMessage {
    System(String),
    User(String),
    /// What the model said, and the tools that it called.
    Assistant(Option<String>, Option<Vec<PartialCall>>),
    /// What a call with that id gave.
    Tool(String, String),
}

/// What a [`ChatMessage`] says.
pub enum ChatView {
    System(Seq<char>),
    User(Seq<char>),
    Assistant(Option<Seq<char>>, Option<Seq<CallView>>),
    Tool(Seq<char>, Seq<char>),
}

impl View for ChatMessage {
    type V = ChatView;

    open spec fn view(&self) -> ChatView {
        match self {
            ChatMessage::System(text) => ChatView::System(text@),
            ChatMessage::User(text) => ChatView::User(text@),
            ChatMessage::Assistant(content, calls) => ChatView::Assistant(
                text::opt_text(*content),
                match calls {
                    Some(calls) => Some(call_views(calls@)),
                    None => None,
                },
            ),
            ChatMessage::Tool(id, content) => ChatView::Tool(id@, content@),
        }
    }
}

/// What the messages of a conversation say.
pub open spec fn chat(messages: Seq<ChatMessage>) -> Seq<ChatView> {
    Seq::new(messages.len(), |i: int| messages[i]@)
}

/// The instructions of a conversation.
pub fn system(text: String) -> (r: ChatMessage)
    ensures
        r@ == ChatView::System(text@),
{
    ChatMessage::System(text)
}

/// What the model is told.
pub fn user(text: String) -> (r: ChatMessage)
    ensures
        r@ == ChatView::User(text@),
{
    ChatMessage::User(text)
}

/// What the model said before.
pub fn assistant(text: String) -> (r: ChatMessage)
    ensures
        r@ == ChatView::Assistant(Some(text@), None),
{
    ChatMessage::Assistant(Some(text), None)
}

/// Adds a message to a conversation.
pub fn push_message(messages: &mut Vec<ChatMessage>, message: ChatMessage)
    ensures
        chat(final(messages)@) == chat(old(messages)@).push(message@),
{
    messages.push(message);
    assert(chat(messages@) =~= chat(old(messages)@).push(message@));
}

fn copy_calls(calls: &Vec<PartialCall>) -> (r: Vec<PartialCall>)
    ensures
        call_views(r@) == call_views(calls@),
{
    let mut out: Vec<PartialCall> = Vec::new();
    for i in 0..calls.len()
        invariant
            out.len() == i,
            forall|j: int| 0 <= j < i ==> #[trigger] out@[j]@ == calls@[j]@,
    {
        let call = &calls[i];
        out.push(
            PartialCall {
                id: call.id.clone(),
                name: call.name.clone(),
                arguments: call.arguments.clone(),
            },
        );
    }
    assert(call_views(out@) =~= call_views(calls@));
    out
}

impl Clone for ChatMessage {
    /// The same message.
    fn clone(&self) -> (r: Self)
        ensures
            r@ == self@,
    {
        match self {
            ChatMessage::System(text) => ChatMessage::System(text.clone()),
            ChatMessage::User(text) => ChatMessage::User(text.clone()),
            ChatMessage::Assistant(content, calls) => ChatMessage::Assistant(
                content.clone(),
                match calls {
                    Some(calls) => Some(copy_calls(calls)),
                    None => None,
                },
            ),
            ChatMessage::Tool(id, content) => ChatMessage::Tool(id.clone(), content.clone()),
        }
    }
}

// ---------------------------------------------------------------------------
// The model
// ---------------------------------------------------------------------------

/// A text without the slashes at its end.
pub open spec fn without_slashes(s: Seq<char>) -> Seq<char>
    decreases s.len(),
{
    if s.len() > 0 && s.last() == '/' {
        without_slashes(s.drop_last())
    } else {
        s
    }
}

fn strip_slashes(s: &str) -> (r: String)
    ensures
        r@ == without_slashes(s@),
{
    let v = text::chars_of(s);
    let mut n: usize = v.len();
    assert(v@.take(n as int) =~= v@);
    while n > 0 && v[n - 1] == '/'
        invariant
            n <= v@.len(),
            without_slashes(v@.take(n as int)) == without_slashes(v@),
        decreases n,
    {
        assert(v@.take(n as int).drop_last() =~= v@.take(n - 1));
        n = n - 1;
    }
    let r = text::substring(&v, 0, n);
    assert(r@ =~= v@.take(n as int));
    r
}

/// The model that is asked, and how far it may go.
pub struct Model {
    pub api_key: String,
    pub api_base: String,
    pub name: String,
    pub max_tool_calls: u32,
    pub max_tool_bytes: usize,
}

impl Model {
    /// Both the key and the endpoint are read here rather than at config load,
    /// because either may live in a file that only this process should open.
    ///
    /// `key_file` and `endpoint_file` are what the files that the config names
    /// hold, or why they cannot be read; `vars` are the variables that hold a key.
    pub fn new(
        config: &Config,
        key_file: Result<String, String>,
        vars: &Vec<Option<String>>,
        endpoint_file: Result<String, String>,
    ) -> (r: Result<Model, ConfigError>)
        ensures
            match (config@.api_key_file, key_file) {
                (Some(path), Err(why)) => {
                    &&& r matches Err(ConfigError::Read { path: p, reason })
                    &&& p@ == path
                    &&& reason == why
                },
                (None, _) if config::first_set(config::var_texts(vars@)) is None => {
                    r matches Err(ConfigError::NoApiKey)
                },
                _ => match (config@.endpoint_file, endpoint_file) {
                    (Some(path), Err(why)) => {
                        &&& r matches Err(ConfigError::Read { path: p, reason })
                        &&& p@ == path
                        &&& reason == why
                    },
                    _ => {
                        &&& r matches Ok(model)
                        &&& model.api_key@ == match (config@.api_key_file, key_file) {
                            (Some(_), Ok(contents)) => text::trim(contents@),
                            _ => config::first_set(config::var_texts(vars@))->0,
                        }
                        &&& model.api_base@ == without_slashes(
                            match (config@.endpoint_file, endpoint_file) {
                                (Some(_), Ok(contents)) => text::trim(contents@),
                                _ => config@.endpoint,
                            },
                        )
                        &&& model.name@ == config@.model
                        &&& model.max_tool_calls == config@.max_tool_calls
                        &&& model.max_tool_bytes == config@.max_tool_bytes
                    },
                },
            },
    {
        let api_key = match config.api_key(key_file, vars) {
            Ok(key) => key,
            Err(error) => {
                return Err(error);
            },
        };
        let endpoint = match config.endpoint(endpoint_file) {
            Ok(endpoint) => endpoint,
            Err(error) => {
                return Err(error);
            },
        };
        Ok(
            Model {
                api_key,
                api_base: strip_slashes(endpoint.as_str()),
                name: config.model.clone(),
                max_tool_calls: config.max_tool_calls,
                max_tool_bytes: config.max_tool_bytes,
            },
        )
    }
}

/// What a tool takes.
#[derive(Debug)]
pub struct Parameter {
    pub name: String,
    pub kind: String,
    pub description: String,
}

/// A tool that the model may call. It takes all of its parameters and no others.
#[derive(Debug)]
pub struct Tool {
    pub name: String,
    pub description: String,
    pub parameters: Vec<Parameter>,
}

/// What a [`Parameter`] says: its name, its type and what it means.
pub struct ParameterView {
    pub name: Seq<char>,
    pub kind: Seq<char>,
    pub description: Seq<char>,
}

/// What a [`Tool`] says.
pub struct ToolView {
    pub name: Seq<char>,
    pub description: Seq<char>,
    pub parameters: Seq<ParameterView>,
}

impl View for Parameter {
    type V = ParameterView;

    open spec fn view(&self) -> ParameterView {
        ParameterView { name: self.name@, kind: self.kind@, description: self.description@ }
    }
}

impl View for Tool {
    type V = ToolView;

    open spec fn view(&self) -> ToolView {
        ToolView {
            name: self.name@,
            description: self.description@,
            parameters: Seq::new(self.parameters@.len(), |i: int| self.parameters@[i]@),
        }
    }
}

/// The tools that the model may call where these files are withheld.
pub open spec fn retrieval_tools(withheld: Seq<Seq<char>>) -> Seq<ToolView> {
    seq![
        ToolView {
            name: "read_diff"@,
            description: "Read part of the diff of a file whose hunks were withheld from the prompt. Withheld files: "@
                + text::join(withheld, ", "@) + "."@,
            parameters: seq![
                ParameterView {
                    name: "path"@,
                    kind: "string"@,
                    description: "One of the withheld files."@,
                },
                ParameterView {
                    name: "offset"@,
                    kind: "integer"@,
                    description: "First line of the diff to return."@,
                },
                ParameterView {
                    name: "limit"@,
                    kind: "integer"@,
                    description: "How many lines to return."@,
                },
            ],
        },
        ToolView {
            name: "search_diff"@,
            description: "Search every withheld diff for a regular expression. Use this to find the one dependency or symbol that explains a large withheld change."@,
            parameters: seq![
                ParameterView {
                    name: "pattern"@,
                    kind: "string"@,
                    description: "A regular expression, case insensitive."@,
                },
            ],
        },
    ]
}

/// What an optional diff holds.
pub open spec fn opt_diff(diff: Option<&Diff>) -> Option<git::DiffView> {
    match diff {
        Some(diff) => Some(diff@),
        None => None,
    }
}

/// The tools that are offered: only when something was actually withheld.
pub open spec fn offered(diff: Option<git::DiffView>, max_tool_calls: u32) -> Option<Seq<ToolView>> {
    match diff {
        Some(diff) => if diff.withheld.len() > 0 && max_tool_calls > 0 {
            Some(retrieval_tools(crate::ordered::keys(diff.withheld)))
        } else {
            None
        },
        None => None,
    }
}

/// What an optional list of tools says.
pub open spec fn opt_tools(tools: Option<Vec<Tool>>) -> Option<Seq<ToolView>> {
    match tools {
        Some(tools) => Some(Seq::new(tools@.len(), |i: int| tools@[i]@)),
        None => None,
    }
}

fn parameter(name: &str, kind: &str, description: &str) -> (r: Parameter)
    ensures
        r@ == (ParameterView { name: name@, kind: kind@, description: description@ }),
{
    Parameter {
        name: name.to_owned(),
        kind: kind.to_owned(),
        description: description.to_owned(),
    }
}

impl Model {
    /// The tools are only offered when something was actually withheld, so a
    /// diff that fits entirely in the prompt can never spend a round trip on
    /// retrieval.
    pub fn tools(&self, diff: Option<&Diff>) -> (r: Option<Vec<Tool>>)
        ensures
            opt_tools(r) == offered(opt_diff(diff), self.max_tool_calls),
    {
        let diff = match diff {
            Some(diff) => diff,
            None => {
                return None;
            },
        };
        if !diff.has_withheld() || self.max_tool_calls == 0 {
            return None;
        }
        let paths = diff.withheld_paths();
        let mut about = "Read part of the diff of a file whose hunks were withheld from the prompt. Withheld files: ".to_owned();
        about.append(text::joined(paths.as_slice(), ", ").as_str());
        about.append(".");
        let read = Tool {
            name: "read_diff".to_owned(),
            description: about,
            parameters: vec![
                parameter("path", "string", "One of the withheld files."),
                parameter("offset", "integer", "First line of the diff to return."),
                parameter("limit", "integer", "How many lines to return."),
            ],
        };
        let search = Tool {
            name: "search_diff".to_owned(),
            description: "Search every withheld diff for a regular expression. Use this to find the one dependency or symbol that explains a large withheld change.".to_owned(),
            parameters: vec![
                parameter("pattern", "string", "A regular expression, case insensitive."),
            ],
        };
        let ghost want = retrieval_tools(crate::ordered::keys(diff@.withheld));
        assert(read@.parameters =~= want[0].parameters);
        assert(search@.parameters =~= want[1].parameters);
        let tools = vec![read, search];
        assert(opt_tools(Some(tools))->0 =~= want);
        Some(tools)
    }
}

// ---------------------------------------------------------------------------
// What a stream delivers
// ---------------------------------------------------------------------------

/// A part of the function of a tool call.
#[derive(Debug)]
pub struct FunctionChunk {
    pub name: Option<String>,
    pub arguments: Option<String>,
}

/// A part of a tool call. The index says of which.
#[derive(Debug)]
pub struct ToolCallChunk {
    pub index: u32,
    pub id: Option<String>,
    pub function: Option<FunctionChunk>,
}

/// What one choice of a chunk adds. Not every field is in every provider's
/// schema, so each of them is optional.
#[derive(Debug)]
pub struct ChunkDelta {
    pub content: Option<String>,
    /// Providers disagree on the name of the thinking, so both spellings in the
    /// wild are accepted.
    pub reasoning_content: Option<String>,
    pub reasoning: Option<String>,
    pub tool_calls: Option<Vec<ToolCallChunk>>,
}

/// One choice of a chunk.
#[derive(Debug)]
pub struct ChunkChoice {
    pub delta: ChunkDelta,
}

/// This crate's own view of a streamed chunk, which has a field for the thinking a
/// reasoning model emits before its answer. That thinking is the only sign of life
/// during a long wait.
#[derive(Debug)]
pub struct Chunk {
    pub choices: Vec<ChunkChoice>,
}

/// The thinking in a chunk, under either of its names.
pub open spec fn thought_in(delta: ChunkDelta) -> Option<Seq<char>> {
    match delta.reasoning_content {
        Some(text) => Some(text@),
        None => text::opt_text(delta.reasoning),
    }
}

impl ChunkDelta {
    /// The thinking in a chunk, under either of its names.
    pub fn reasoning(&self) -> (r: Option<String>)
        ensures
            text::opt_text(r) == thought_in(*self),
    {
        match &self.reasoning_content {
            Some(text) => Some(text.clone()),
            None => self.reasoning.clone(),
        }
    }
}

/// A call of which nothing is known yet.
pub open spec fn empty_call() -> CallView {
    CallView { id: Seq::empty(), name: Seq::empty(), arguments: Seq::empty() }
}

/// The calls, with room for one at an index.
pub open spec fn grown(calls: Seq<CallView>, index: nat) -> Seq<CallView> {
    if calls.len() <= index {
        calls + Seq::new((index + 1 - calls.len()) as nat, |i: int| empty_call())
    } else {
        calls
    }
}

/// A call after one more part of it. The id and the name are replaced; the
/// arguments go on.
pub open spec fn continued(call: CallView, part: ToolCallChunk) -> CallView {
    CallView {
        id: match part.id {
            Some(id) => id@,
            None => call.id,
        },
        name: match part.function {
            Some(function) => match function.name {
                Some(name) => name@,
                None => call.name,
            },
            None => call.name,
        },
        arguments: match part.function {
            Some(function) => match function.arguments {
                Some(arguments) => call.arguments + arguments@,
                None => call.arguments,
            },
            None => call.arguments,
        },
    }
}

/// The calls after one more part of one of them.
pub open spec fn with_part(calls: Seq<CallView>, part: ToolCallChunk) -> Seq<CallView> {
    let room = grown(calls, part.index as nat);
    room.update(part.index as int, continued(room[part.index as int], part))
}

/// The calls after the first `n` parts.
pub open spec fn with_parts(calls: Seq<CallView>, parts: Seq<ToolCallChunk>, n: nat) -> Seq<CallView>
    decreases n,
{
    if n == 0 {
        calls
    } else {
        with_part(with_parts(calls, parts, (n - 1) as nat), parts[n - 1])
    }
}

/// A round of a run: what was said so far, what of the answer has arrived, and how
/// much more of the budget for tools there is.
pub struct Round {
    pub messages: Vec<ChatMessage>,
    /// In how many more rounds tools are offered.
    pub rounds_left: u32,
    /// How many more calls may read a withheld diff.
    pub calls_left: u32,
    pub content: String,
    pub calls: Vec<PartialCall>,
    /// Whether the answer is shown as it streams.
    pub show_deltas: bool,
}

/// What a [`Round`] holds.
pub struct RoundView {
    pub messages: Seq<ChatView>,
    pub rounds_left: u32,
    pub calls_left: u32,
    pub content: Seq<char>,
    pub calls: Seq<CallView>,
    pub show_deltas: bool,
}

impl View for Round {
    type V = RoundView;

    open spec fn view(&self) -> RoundView {
        RoundView {
            messages: chat(self.messages@),
            rounds_left: self.rounds_left,
            calls_left: self.calls_left,
            content: self.content@,
            calls: call_views(self.calls@),
            show_deltas: self.show_deltas,
        }
    }
}

/// The event for thinking, where there is some.
pub open spec fn thought_events(delta: ChunkDelta) -> Seq<EventView> {
    match thought_in(delta) {
        Some(text) => if text.len() > 0 {
            seq![EventView::Reasoning { text }]
        } else {
            Seq::empty()
        },
        None => Seq::empty(),
    }
}

/// The event for a part of the answer. A structured answer is not readable
/// half-written, so only the plain text path shows its deltas.
pub open spec fn answer_events(content: Seq<char>, delta: ChunkDelta, show_deltas: bool) -> Seq<
    EventView,
> {
    match delta.content {
        Some(text) => if text@.len() == 0 {
            Seq::empty()
        } else if show_deltas {
            seq![EventView::Delta { text: text@ }]
        } else {
            seq![EventView::Writing { bytes: text::byte_len(content + text@) }]
        },
        None => Seq::empty(),
    }
}

/// A round after one more chunk.
pub open spec fn absorbed(round: RoundView, delta: ChunkDelta) -> RoundView {
    RoundView {
        content: match delta.content {
            Some(text) => round.content + text@,
            None => round.content,
        },
        calls: match delta.tool_calls {
            Some(parts) => with_parts(round.calls, parts@, parts@.len()),
            None => round.calls,
        },
        ..round
    }
}

fn push_event(events: &mut Vec<Event>, event: Event)
    ensures
        output::event_views(final(events)@) == output::event_views(old(events)@).push(event@),
{
    events.push(event);
    assert(output::event_views(events@) =~= output::event_views(old(events)@).push(event@));
}

/// Takes in one more part of a call.
fn take_part(calls: &mut Vec<PartialCall>, part: &ToolCallChunk)
    ensures
        call_views(final(calls)@) == with_part(call_views(old(calls)@), *part),
{
    let ghost start = call_views(calls@);
    let index = part.index as usize;
    while calls.len() <= index
        invariant
            index == part.index,
            start.len() <= calls@.len() || start.len() > index,
            calls@.len() <= index + 1 || calls@.len() == start.len(),
            start.len() <= calls@.len(),
            call_views(calls@) == start + Seq::new(
                (calls@.len() - start.len()) as nat,
                |i: int| empty_call(),
            ),
        decreases index + 1 - calls@.len(),
    {
        let ghost before = call_views(calls@);
        let call = PartialCall {
            id: String::new(),
            name: String::new(),
            arguments: String::new(),
        };
        assert(call.id@ =~= Seq::empty() && call.name@ =~= Seq::empty() && call.arguments@
            =~= Seq::empty());
        calls.push(call);
        assert(call_views(calls@) =~= before.push(empty_call()));
        assert(call_views(calls@) =~= start + Seq::new(
            (calls@.len() - start.len()) as nat,
            |i: int| empty_call(),
        ));
    }
    let ghost room = call_views(calls@);
    assert(room =~= grown(start, part.index as nat));
    let old_call = &calls[index];
    let id = match &part.id {
        Some(id) => id.clone(),
        None => old_call.id.clone(),
    };
    let mut name = old_call.name.clone();
    let mut arguments = old_call.arguments.clone();
    if let Some(function) = &part.function {
        if let Some(new_name) = &function.name {
            name = new_name.clone();
        }
        if let Some(more) = &function.arguments {
            arguments.append(more.as_str());
        }
    }
    let call = PartialCall { id, name, arguments };
    let ghost view = call@;
    assert(view == continued(room[index as int], *part));
    calls[index] = call;
    assert(call_views(calls@) =~= room.update(index as int, view));
}

impl Round {
    /// Takes in one chunk of the stream, and gives the events that report it. Only
    /// the first choice counts; a chunk without one changes nothing.
    pub fn absorb(&mut self, chunk: &Chunk) -> (r: Vec<Event>)
        ensures
            if chunk.choices@.len() == 0 {
                &&& final(self)@ == old(self)@
                &&& output::event_views(r@) == Seq::<EventView>::empty()
            } else {
                let delta = chunk.choices@[0].delta;
                &&& final(self)@ == absorbed(old(self)@, delta)
                &&& output::event_views(r@) == thought_events(delta) + answer_events(
                    old(self)@.content,
                    delta,
                    old(self)@.show_deltas,
                )
            },
    {
        let mut events: Vec<Event> = Vec::new();
        assert(output::event_views(events@) =~= Seq::empty());
        if chunk.choices.len() == 0 {
            return events;
        }
        let delta = &chunk.choices[0].delta;
        if let Some(text) = delta.reasoning() {
            if text::char_count(text.as_str()) > 0 {
                push_event(&mut events, Event::Reasoning { text });
            }
        }
        assert(output::event_views(events@) =~= thought_events(*delta));
        let ghost before = output::event_views(events@);
        if let Some(text) = &delta.content {
            let ghost content = self.content@;
            self.content.append(text.as_str());
            if text::char_count(text.as_str()) > 0 {
                let event = if self.show_deltas {
                    Event::Delta { text: text.clone() }
                } else {
                    Event::Writing { bytes: text::bytes_in(self.content.as_str()) }
                };
                push_event(&mut events, event);
            }
        }
        assert(output::event_views(events@) =~= before + answer_events(
            old(self)@.content,
            *delta,
            old(self)@.show_deltas,
        ));
        if let Some(parts) = &delta.tool_calls {
            let ghost start = call_views(self.calls@);
            let ghost state = *self;
            for i in 0..parts.len()
                invariant
                    call_views(self.calls@) == with_parts(start, parts@, i as nat),
                    self@ == (RoundView { calls: call_views(self.calls@), ..state@ }),
            {
                take_part(&mut self.calls, &parts[i]);
            }
        }
        events
    }
}

// ---------------------------------------------------------------------------
// The end of a round
// ---------------------------------------------------------------------------

/// The arguments that a call gives. What is not JSON gives none.
pub open spec fn call_arguments(source: Seq<char>) -> git::ArgumentsView {
    match outside::json_parsed(source) {
        Some(value) => git::json_arguments(value),
        None => git::ArgumentsView { path: None, offset: None, limit: None, pattern: None },
    }
}

/// How the arguments of a call are shown.
pub open spec fn shown_arguments(source: Seq<char>) -> Seq<char> {
    match outside::json_parsed(source) {
        Some(value) => outside::json_shown(value),
        None => "{}"@,
    }
}

/// What a call gives the model.
pub open spec fn call_result(diff: Option<git::DiffView>, call: CallView, max_tool_bytes: nat) -> Seq<
    char,
> {
    match diff {
        Some(diff) => git::tool_reply(
            diff,
            call.name,
            call_arguments(call.arguments),
            max_tool_bytes,
        ),
        None => "no diff is available to read"@,
    }
}

/// How many calls of a round read something: no more than are left.
pub open spec fn reads(round: RoundView) -> nat {
    if round.calls.len() <= round.calls_left {
        round.calls.len()
    } else {
        round.calls_left as nat
    }
}

/// What a call is answered that comes when no reads are left.
pub open spec fn spent_text() -> Seq<char> {
    "the budget for tool calls is spent, so nothing was read"@
}

/// The messages that answer calls, one each, in order. The first `n` read
/// something.
pub open spec fn call_messages(
    diff: Option<git::DiffView>,
    calls: Seq<CallView>,
    max_tool_bytes: nat,
    n: nat,
) -> Seq<ChatView> {
    Seq::new(
        calls.len(),
        |i: int|
            ChatView::Tool(
                calls[i].id,
                if i < n {
                    call_result(diff, calls[i], max_tool_bytes)
                } else {
                    spent_text()
                },
            ),
    )
}

/// The events that report the first `n` calls, one each, in order.
pub open spec fn call_events(
    diff: Option<git::DiffView>,
    calls: Seq<CallView>,
    max_tool_bytes: nat,
    n: nat,
) -> Seq<EventView> {
    Seq::new(
        n,
        |i: int|
            EventView::Tool {
                name: calls[i].name,
                arguments: shown_arguments(calls[i].arguments),
                returned_bytes: text::byte_len(call_result(diff, calls[i], max_tool_bytes)),
            },
    )
}

/// What the model said in a round that ends with calls.
pub open spec fn said(round: RoundView) -> ChatView {
    ChatView::Assistant(
        if round.content.len() == 0 {
            None
        } else {
            Some(round.content)
        },
        Some(round.calls),
    )
}

/// The round after one that ended with calls. A model that keeps asking has to stop
/// somewhere, so there is one round less in which it is offered tools, and every
/// call that read something is one less that may.
pub open spec fn next_round(
    round: RoundView,
    diff: Option<git::DiffView>,
    max_tool_bytes: nat,
) -> RoundView {
    RoundView {
        messages: round.messages.push(said(round)) + call_messages(
            diff,
            round.calls,
            max_tool_bytes,
            reads(round),
        ),
        rounds_left: if round.rounds_left == 0 {
            0
        } else {
            (round.rounds_left - 1) as u32
        },
        calls_left: (round.calls_left - reads(round)) as u32,
        content: Seq::empty(),
        calls: Seq::empty(),
        ..round
    }
}

/// How a round ends.
pub enum RoundEnd {
    /// The run is over: the answer, or that there is none.
    Answer(Result<String, ModelError>),
    /// The calls were answered. These events report those that read something, and
    /// another round follows.
    Again(Vec<Event>),
}

/// Makes the call, and gives its result with the arguments it was made with.
fn make_call(diff: Option<&Diff>, call: &PartialCall, max_tool_bytes: usize) -> (r: (
    String,
    serde_json::Value,
))
    requires
        diff matches Some(diff) ==> diff.wf(),
    ensures
        r.0@ == call_result(opt_diff(diff), call@, max_tool_bytes as nat),
        outside::json_shown(r.1) == shown_arguments(call@.arguments),
{
    let arguments = match outside::parse_json(call.arguments.as_str()) {
        Some(value) => value,
        None => outside::empty_object(),
    };
    assert(git::json_arguments(arguments) == call_arguments(call@.arguments)) by {
        if outside::json_parsed(call@.arguments) is None {
            assert(outside::json_text_at(arguments, "path"@) is None);
            assert(outside::json_number_at(arguments, "offset"@) is None);
            assert(outside::json_number_at(arguments, "limit"@) is None);
            assert(outside::json_text_at(arguments, "pattern"@) is None);
        }
    }
    let result = match diff {
        Some(diff) => diff.call_tool(call.name.as_str(), &arguments, max_tool_bytes),
        None => "no diff is available to read".to_owned(),
    };
    (result, arguments)
}

impl Model {
    /// Begins a run: the messages, and as many reads as are allowed.
    pub fn begin(&self, messages: Vec<ChatMessage>, show_deltas: bool) -> (r: Round)
        ensures
            r@ == (RoundView {
                messages: chat(messages@),
                rounds_left: self.max_tool_calls,
                calls_left: self.max_tool_calls,
                content: Seq::empty(),
                calls: Seq::empty(),
                show_deltas,
            }),
    {
        let content = String::new();
        let calls: Vec<PartialCall> = Vec::new();
        assert(content@ =~= Seq::empty());
        assert(call_views(calls@) =~= Seq::empty());
        Round {
            messages,
            rounds_left: self.max_tool_calls,
            calls_left: self.max_tool_calls,
            content,
            calls,
            show_deltas,
        }
    }

    /// The tools that are offered in a round: none once there were as many rounds of
    /// calls as reads are allowed.
    pub fn round_tools(&self, round: &Round, diff: Option<&Diff>) -> (r: Option<Vec<Tool>>)
        ensures
            opt_tools(r) == if round@.rounds_left > 0 {
                offered(opt_diff(diff), self.max_tool_calls)
            } else {
                None
            },
    {
        if round.rounds_left > 0 {
            self.tools(diff)
        } else {
            None
        }
    }

    /// Ends a round. Without calls, what arrived is the answer, unless it is blank.
    /// With calls, each is answered, and the next round begins: as many as there are
    /// reads left by reading, and the others by saying that the budget is spent.
    pub fn end_round(&self, round: &mut Round, diff: Option<&Diff>) -> (r: RoundEnd)
        requires
            diff matches Some(diff) ==> diff.wf(),
        ensures
            if old(round)@.calls.len() == 0 {
                &&& final(round)@ == old(round)@
                &&& match r {
                    RoundEnd::Answer(Ok(text)) => !text::blank(old(round)@.content) && text@
                        == old(round)@.content,
                    RoundEnd::Answer(Err(error)) => text::blank(old(round)@.content)
                        && error is Empty,
                    RoundEnd::Again(_) => false,
                }
            } else {
                &&& final(round)@ == next_round(
                    old(round)@,
                    opt_diff(diff),
                    self.max_tool_bytes as nat,
                )
                &&& r matches RoundEnd::Again(events)
                &&& output::event_views(events@) == call_events(
                    opt_diff(diff),
                    old(round)@.calls,
                    self.max_tool_bytes as nat,
                    reads(old(round)@),
                )
            },
    {
        if round.calls.len() == 0 {
            return if text::is_blank(round.content.as_str()) {
                RoundEnd::Answer(Err(ModelError::Empty))
            } else {
                RoundEnd::Answer(Ok(round.content.clone()))
            };
        }
        let ghost start = round@;
        let ghost view = opt_diff(diff);
        let ghost limit = self.max_tool_bytes as nat;
        if round.rounds_left > 0 {
            round.rounds_left = round.rounds_left - 1;
        }
        let left = round.calls_left as usize;
        let n = if round.calls.len() <= left {
            round.calls.len()
        } else {
            left
        };
        round.calls_left = round.calls_left - n as u32;
        let content = if text::char_count(round.content.as_str()) == 0 {
            None
        } else {
            Some(round.content.clone())
        };
        let calls = copy_calls(&round.calls);
        let ghost asked = call_views(calls@);
        push_message(&mut round.messages, ChatMessage::Assistant(content, Some(copy_calls(&round.calls))));
        let ghost head = start.messages.push(said(start));
        let ghost answers = call_messages(view, asked, limit, n as nat);
        let ghost reports = call_events(view, asked, limit, n as nat);
        assert(chat(round.messages@) == head);
        let mut events: Vec<Event> = Vec::new();
        assert(output::event_views(events@) =~= reports.take(0));
        assert(head + answers.take(0) =~= head);
        let ghost state = round@;
        for i in 0..calls.len()
            invariant
                diff matches Some(diff) ==> diff.wf(),
                view == opt_diff(diff),
                limit == self.max_tool_bytes as nat,
                asked == call_views(calls@),
                n <= calls@.len(),
                answers == call_messages(view, asked, limit, n as nat),
                reports == call_events(view, asked, limit, n as nat),
                round@ == (RoundView { messages: chat(round.messages@), ..state }),
                chat(round.messages@) == head + answers.take(i as int),
                output::event_views(events@) == if i < n {
                    reports.take(i as int)
                } else {
                    reports
                },
        {
            let call = &calls[i];
            assert(call@ == asked[i as int]);
            let result = if i < n {
                let (result, arguments) = make_call(diff, call, self.max_tool_bytes);
                let returned_bytes = text::bytes_in(result.as_str());
                push_event(
                    &mut events,
                    Event::Tool { name: call.name.clone(), arguments, returned_bytes },
                );
                assert(output::event_views(events@) =~= reports.take(i + 1));
                assert(reports.take(n as int) =~= reports);
                result
            } else {
                "the budget for tool calls is spent, so nothing was read".to_owned()
            };
            push_message(&mut round.messages, ChatMessage::Tool(call.id.clone(), result));
            assert(chat(round.messages@) =~= head + answers.take(i + 1));
        }
        assert(answers.take(answers.len() as int) =~= answers);
        round.content = String::new();
        round.calls = Vec::new();
        assert(round.content@ =~= Seq::empty());
        assert(call_views(round.calls@) =~= Seq::empty());
        RoundEnd::Again(events)
    }
}

// ---------------------------------------------------------------------------
// Laws
// ---------------------------------------------------------------------------

/// A diff that fits entirely in the prompt is never offered tools, and nor is any
/// where tools are switched off.
pub proof fn law_tools_only_for_withheld(diff: Option<git::DiffView>, max_tool_calls: u32)
    ensures
        offered(diff, max_tool_calls) is Some <==> diff is Some && diff->0.withheld.len() > 0
            && max_tool_calls > 0,
{
}

/// The conversation only grows: what was said before a round of calls is still
/// there after it, then comes what the model said, then one answer for each call,
/// in order, under its id: what it read, or that there are no reads left.
pub proof fn law_every_call_is_answered(
    round: RoundView,
    diff: Option<git::DiffView>,
    max_tool_bytes: nat,
    i: int,
)
    requires
        0 <= i < round.calls.len(),
    ensures
        ({
            let after = next_round(round, diff, max_tool_bytes).messages;
            let before = round.messages;
            &&& after.len() == before.len() + 1 + round.calls.len()
            &&& after.take(before.len() as int) == before
            &&& after[before.len() as int] == said(round)
            &&& after[before.len() + 1 + i] == ChatView::Tool(
                round.calls[i].id,
                if i < round.calls_left {
                    call_result(diff, round.calls[i], max_tool_bytes)
                } else {
                    spent_text()
                },
            )
        }),
{
    let after = next_round(round, diff, max_tool_bytes).messages;
    assert(after.take(round.messages.len() as int) =~= round.messages);
}

/// A round in which the model said this, and made these calls.
pub open spec fn replied(round: RoundView, reply: (Seq<char>, Seq<CallView>)) -> RoundView {
    RoundView { content: reply.0, calls: reply.1, ..round }
}

/// Where a run is after replies that each ended with calls.
pub open spec fn after_replies(
    round: RoundView,
    diff: Option<git::DiffView>,
    max_tool_bytes: nat,
    replies: Seq<(Seq<char>, Seq<CallView>)>,
) -> RoundView
    decreases replies.len(),
{
    if replies.len() == 0 {
        round
    } else {
        let before = after_replies(round, diff, max_tool_bytes, replies.drop_last());
        next_round(replied(before, replies.last()), diff, max_tool_bytes)
    }
}

/// The events of the calls of those replies.
pub open spec fn reply_events(
    round: RoundView,
    diff: Option<git::DiffView>,
    max_tool_bytes: nat,
    replies: Seq<(Seq<char>, Seq<CallView>)>,
) -> Seq<EventView>
    decreases replies.len(),
{
    if replies.len() == 0 {
        Seq::empty()
    } else {
        let before = after_replies(round, diff, max_tool_bytes, replies.drop_last());
        let last = replied(before, replies.last());
        reply_events(round, diff, max_tool_bytes, replies.drop_last()) + call_events(
            diff,
            last.calls,
            max_tool_bytes,
            reads(last),
        )
    }
}

/// A model that keeps asking has to stop somewhere: whatever it replies, and however
/// many calls it makes in one reply, over a whole run it reads no more often than
/// is allowed, so never where that is not at all; each read is reported and takes
/// one off the budget. And tools are offered in as many rounds as reads are allowed,
/// and in none after that.
pub proof fn law_tool_budget_runs_out(
    round: RoundView,
    diff: Option<git::DiffView>,
    max_tool_bytes: nat,
    replies: Seq<(Seq<char>, Seq<CallView>)>,
)
    ensures
        ({
            let after = after_replies(round, diff, max_tool_bytes, replies);
            let events = reply_events(round, diff, max_tool_bytes, replies);
            &&& events.len() + after.calls_left == round.calls_left
            &&& events.len() <= round.calls_left
            &&& forall|i: int| 0 <= i < events.len() ==> #[trigger] events[i] is Tool
            &&& after.rounds_left == text::less(round.rounds_left as nat, replies.len())
        }),
    decreases replies.len(),
{
    if replies.len() > 0 {
        law_tool_budget_runs_out(round, diff, max_tool_bytes, replies.drop_last());
    }
}

/// It does not matter where a stream breaks the arguments of a call: two parts
/// rebuild the same call as one.
pub proof fn law_calls_are_rebuilt(
    calls: Seq<CallView>,
    whole: ToolCallChunk,
    first: ToolCallChunk,
    second: ToolCallChunk,
)
    requires
        first.index == whole.index,
        second.index == whole.index,
        first.id == whole.id,
        second.id is None,
        whole.function matches Some(w) && first.function matches Some(f)
            && second.function matches Some(s) && f.name == w.name && s.name is None
            && w.arguments is Some && f.arguments is Some && s.arguments is Some
            && w.arguments->0@ == f.arguments->0@ + s.arguments->0@,
    ensures
        with_part(with_part(calls, first), second) == with_part(calls, whole),
{
    let index = whole.index as int;
    let room = grown(calls, whole.index as nat);
    let once = with_part(calls, first);
    assert(grown(once, whole.index as nat) == once);
    let a = first.function->0.arguments->0@;
    let b = second.function->0.arguments->0@;
    assert(room[index].arguments + a + b =~= room[index].arguments + (a + b));
    assert(with_part(once, second) =~= with_part(calls, whole));
}

/// Chunks add up: the answer is what they carry, one after the other.
pub proof fn law_answer_is_the_sum_of_its_chunks(
    round: RoundView,
    first: ChunkDelta,
    second: ChunkDelta,
)
    ensures
        absorbed(absorbed(round, first), second).content == round.content + git::text_or_empty(
            text::opt_text(first.content),
        ) + git::text_or_empty(text::opt_text(second.content)),
{
    let none = Seq::<char>::empty();
    assert(round.content + none =~= round.content);
    let once = absorbed(round, first).content;
    assert(once + none =~= once);
}

/// It makes no difference how many slashes an endpoint ends with.
pub proof fn law_slashes_at_the_end_do_not_matter(s: Seq<char>)
    ensures
        without_slashes(s.push('/')) == without_slashes(s),
        s.len() > 0 && s.last() != '/' ==> without_slashes(s) == s,
        without_slashes(Seq::empty()) == Seq::<char>::empty(),
{
    assert(s.push('/').drop_last() =~= s);
}

/// The tools that are offered are the two that can be called, and the first of them names
/// every file that is withheld.
pub proof fn law_offered_tools_name_the_withheld_files(
    diff: git::DiffView,
    max_tool_calls: u32,
    i: int,
)
    requires
        max_tool_calls > 0,
        0 <= i < diff.withheld.len(),
    ensures
        offered(Some(diff), max_tool_calls) matches Some(tools) && {
            &&& tools.len() == 2
            &&& tools[0].name == "read_diff"@
            &&& tools[1].name == "search_diff"@
            &&& text::has_part(tools[0].description, diff.withheld[i].0)
            &&& tools[0].parameters.len() == 3
            &&& tools[0].parameters[0].name == "path"@ && tools[0].parameters[0].kind == "string"@
            &&& tools[0].parameters[1].name == "offset"@ && tools[0].parameters[1].kind
                == "integer"@
            &&& tools[0].parameters[2].name == "limit"@ && tools[0].parameters[2].kind
                == "integer"@
            &&& tools[1].parameters.len() == 1
            &&& tools[1].parameters[0].name == "pattern"@ && tools[1].parameters[0].kind
                == "string"@
        },
{
    let names = crate::ordered::keys(diff.withheld);
    let before =
        "Read part of the diff of a file whose hunks were withheld from the prompt. Withheld files: "@;
    text::lemma_join_holds(names, ", "@, i);
    text::lemma_part_within(before, text::join(names, ", "@), names[i], "."@);
}

/// A part of a call changes that call alone, and the calls before it get room: its id and
/// its name are what the part says, if it says anything, and its arguments go on.
pub proof fn law_parts_change_one_call(calls: Seq<CallView>, part: ToolCallChunk, i: int)
    ensures
        with_part(calls, part).len() == if calls.len() <= part.index {
            part.index as nat + 1
        } else {
            calls.len()
        },
        0 <= i < calls.len() && i != part.index ==> with_part(calls, part)[i] == calls[i],
        calls.len() <= i < part.index ==> with_part(calls, part)[i] == (CallView {
            id: Seq::empty(),
            name: Seq::empty(),
            arguments: Seq::empty(),
        }),
        ({
            let before = if part.index < calls.len() {
                calls[part.index as int]
            } else {
                CallView { id: Seq::empty(), name: Seq::empty(), arguments: Seq::empty() }
            };
            let after = with_part(calls, part)[part.index as int];
            &&& part.id matches Some(id) ==> after.id == id@
            &&& part.id is None ==> after.id == before.id
            &&& part.function is None ==> after.name == before.name && after.arguments
                == before.arguments
            &&& part.function matches Some(function) ==> {
                &&& function.name matches Some(name) ==> after.name == name@
                &&& function.name is None ==> after.name == before.name
                &&& function.arguments matches Some(arguments) ==> after.arguments
                    == before.arguments + arguments@
                &&& function.arguments is None ==> after.arguments == before.arguments
            }
        }),
{
}

/// Parts are taken in one after the other, so it makes no difference in how many chunks
/// they arrive.
pub proof fn law_parts_are_taken_in_one_by_one(
    calls: Seq<CallView>,
    first: Seq<ToolCallChunk>,
    second: Seq<ToolCallChunk>,
    n: nat,
)
    requires
        n <= second.len(),
    ensures
        with_parts(calls, first, 0) == calls,
        with_parts(calls, first + second, first.len() + n) == with_parts(
            with_parts(calls, first, first.len()),
            second,
            n,
        ),
        n > 0 ==> with_parts(calls, second, n) == with_part(
            with_parts(calls, second, (n - 1) as nat),
            second[n - 1],
        ),
    decreases n,
{
    if n == 0 {
        lemma_first_parts(calls, first, second, first.len());
    } else {
        law_parts_are_taken_in_one_by_one(calls, first, second, (n - 1) as nat);
        assert((first + second)[first.len() + n - 1] == second[n - 1]);
    }
}

proof fn lemma_first_parts(
    calls: Seq<CallView>,
    first: Seq<ToolCallChunk>,
    second: Seq<ToolCallChunk>,
    n: nat,
)
    requires
        n <= first.len(),
    ensures
        with_parts(calls, first + second, n) == with_parts(calls, first, n),
    decreases n,
{
    if n > 0 {
        lemma_first_parts(calls, first, second, (n - 1) as nat);
        assert((first + second)[n - 1] == first[n - 1]);
    }
}

/// Thinking is told where there is some, under the first of its names that is used.
pub proof fn law_thinking_is_told(delta: ChunkDelta)
    ensures
        delta.reasoning_content matches Some(thought) ==> (thought@.len() > 0 ==> thought_events(
            delta,
        ) == seq![EventView::Reasoning { text: thought@ }]) && (thought@.len() == 0
            ==> thought_events(delta).len() == 0),
        delta.reasoning_content is None ==> (delta.reasoning matches Some(thought) ==> (
        thought@.len() > 0 ==> thought_events(delta) == seq![
            EventView::Reasoning { text: thought@ },
        ]) && (thought@.len() == 0 ==> thought_events(delta).len() == 0)),
        delta.reasoning_content is None && delta.reasoning is None ==> thought_events(delta).len()
            == 0,
{
}

/// A part of the answer is told where there is one: as it is where deltas are shown, and
/// by the size of the answer so far where not.
pub proof fn law_answer_is_told(content: Seq<char>, delta: ChunkDelta)
    ensures
        delta.content is None ==> answer_events(content, delta, true).len() == 0 && answer_events(
            content,
            delta,
            false,
        ).len() == 0,
        delta.content matches Some(part) ==> (part@.len() > 0 ==> answer_events(
            content,
            delta,
            true,
        ) == seq![EventView::Delta { text: part@ }] && answer_events(content, delta, false)
            == seq![
            EventView::Writing { bytes: text::byte_len(content) + text::byte_len(part@) },
        ]) && (part@.len() == 0 ==> answer_events(content, delta, true).len() == 0
            && answer_events(content, delta, false).len() == 0),
{
    if let Some(part) = delta.content {
        text::lemma_byte_len_add(content, part@);
    }
}

/// A chunk adds to the answer and to the calls, and to nothing else; one that carries
/// nothing changes nothing.
pub proof fn law_chunks_only_add(round: RoundView, delta: ChunkDelta)
    ensures
        absorbed(round, delta).messages == round.messages,
        absorbed(round, delta).rounds_left == round.rounds_left,
        absorbed(round, delta).calls_left == round.calls_left,
        absorbed(round, delta).show_deltas == round.show_deltas,
        text::starts_with(absorbed(round, delta).content, round.content),
        delta.content is None ==> absorbed(round, delta).content == round.content,
        delta.tool_calls is None ==> absorbed(round, delta).calls == round.calls,
        delta.tool_calls matches Some(parts) ==> absorbed(round, delta).calls == with_parts(
            round.calls,
            parts@,
            parts@.len(),
        ),
{
    let after = absorbed(round, delta).content;
    assert(after.take(round.content.len() as int) =~= round.content);
}

/// What a call gives is what the tool gives for the arguments that the call's text holds;
/// a text that is no JSON holds none, and without a diff there is nothing to read.
pub proof fn law_calls_reach_the_tools(
    diff: Option<git::DiffView>,
    call: CallView,
    max_tool_bytes: nat,
)
    ensures
        diff is None ==> call_result(diff, call, max_tool_bytes)
            == "no diff is available to read"@,
        (diff matches Some(d) && outside::json_parsed(call.arguments) matches Some(value))
            ==> call_result(diff, call, max_tool_bytes) == git::tool_reply(
            diff->0,
            call.name,
            git::ArgumentsView {
                path: outside::json_text_at(outside::json_parsed(call.arguments)->0, "path"@),
                offset: outside::json_number_at(
                    outside::json_parsed(call.arguments)->0,
                    "offset"@,
                ),
                limit: outside::json_number_at(outside::json_parsed(call.arguments)->0, "limit"@),
                pattern: outside::json_text_at(
                    outside::json_parsed(call.arguments)->0,
                    "pattern"@,
                ),
            },
            max_tool_bytes,
        ),
        (diff matches Some(d) && outside::json_parsed(call.arguments) is None) ==> call_result(
            diff,
            call,
            max_tool_bytes,
        ) == git::tool_reply(
            diff->0,
            call.name,
            git::ArgumentsView { path: None, offset: None, limit: None, pattern: None },
            max_tool_bytes,
        ),
{
}

/// Each call that reads something is reported once, under its name and with the size of
/// what the model was answered.
pub proof fn law_every_read_is_reported(
    round: RoundView,
    diff: Option<git::DiffView>,
    max_tool_bytes: nat,
    i: int,
)
    requires
        0 <= i < round.calls.len(),
        i < round.calls_left,
    ensures
        ({
            let events = call_events(diff, round.calls, max_tool_bytes, reads(round));
            let answer = next_round(round, diff, max_tool_bytes).messages[round.messages.len() + 1
                + i];
            &&& events.len() == if round.calls.len() <= round.calls_left {
                round.calls.len()
            } else {
                round.calls_left as nat
            }
            &&& events[i] matches EventView::Tool { name, arguments, returned_bytes }
            &&& name == round.calls[i].name
            &&& outside::json_parsed(round.calls[i].arguments) matches Some(value) ==> arguments
                == outside::json_shown(value)
            &&& outside::json_parsed(round.calls[i].arguments) is None ==> arguments == "{}"@
            &&& answer matches ChatView::Tool(id, reply)
            &&& id == round.calls[i].id
            &&& returned_bytes == text::byte_len(reply)
        }),
{
}

/// A round of calls leaves the answer and the calls empty for the next, uses up one round
/// and one read for each call that read something, and keeps how the answer is shown. What
/// the model said is kept with its calls.
pub proof fn law_next_round_starts_afresh(
    round: RoundView,
    diff: Option<git::DiffView>,
    max_tool_bytes: nat,
)
    ensures
        ({
            let next = next_round(round, diff, max_tool_bytes);
            &&& next.content.len() == 0
            &&& next.calls.len() == 0
            &&& next.show_deltas == round.show_deltas
            &&& round.rounds_left > 0 ==> next.rounds_left == round.rounds_left - 1
            &&& round.rounds_left == 0 ==> next.rounds_left == 0
            &&& round.calls.len() <= round.calls_left ==> next.calls_left == round.calls_left
                - round.calls.len()
            &&& round.calls.len() > round.calls_left ==> next.calls_left == 0
            &&& round.content.len() > 0 ==> next.messages[round.messages.len() as int]
                == ChatView::Assistant(Some(round.content), Some(round.calls))
            &&& round.content.len() == 0 ==> next.messages[round.messages.len() as int]
                == ChatView::Assistant(None, Some(round.calls))
        }),
{
}

/// What an error of a model says holds the reason, and what came back.
pub proof fn law_errors_name_what_they_are_about(error: ModelError)
    ensures
        error matches ModelError::Api(why) ==> model_error_text(error) == why@,
        error matches ModelError::Shape { reason, text } ==> text::has_part(
            model_error_text(error),
            reason@,
        ) && text::has_end(model_error_text(error), "\nit returned: "@ + text@),
{
    if let ModelError::Shape { reason, text } = error {
        let t = model_error_text(error);
        let start = "the model returned a shape that does not fit: "@;
        let end = "\nit returned: "@ + text@;
        text::lemma_part_between(start, reason@, end);
        assert(t =~= start + reason@ + end);
        assert(t.skip(t.len() - end.len()) =~= end);
    }
}

/// What is said of a list is what each of its entries holds, one for one.
pub proof fn law_lists_say_what_they_hold(
    calls: Seq<PartialCall>,
    messages: Seq<ChatMessage>,
    i: int,
)
    ensures
        call_views(calls).len() == calls.len(),
        0 <= i < calls.len() ==> call_views(calls)[i] == (CallView {
            id: calls[i].id@,
            name: calls[i].name@,
            arguments: calls[i].arguments@,
        }),
        chat(messages).len() == messages.len(),
        0 <= i < messages.len() ==> chat(messages)[i] == match messages[i] {
            ChatMessage::System(said) => ChatView::System(said@),
            ChatMessage::User(said) => ChatView::User(said@),
            ChatMessage::Assistant(content, None) => ChatView::Assistant(
                text::opt_text(content),
                None,
            ),
            ChatMessage::Assistant(content, Some(made)) => ChatView::Assistant(
                text::opt_text(content),
                Some(call_views(made@)),
            ),
            ChatMessage::Tool(id, said) => ChatView::Tool(id@, said@),
        },
{
}

} // verus!
