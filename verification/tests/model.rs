//! Rounds of a run: chunks, tool calls and answers.

use auto_commit::config::{Config, ConfigError};
use auto_commit::git::{build_diff, Diff};
use auto_commit::model::{
    assistant, system, user, ChatMessage, Chunk, ChunkChoice, ChunkDelta, FunctionChunk, Model,
    ModelError, Round, RoundEnd, ToolCallChunk,
};
use auto_commit::output::Event;

fn model(max_tool_calls: u32) -> Model {
    let config = Config { max_tool_calls, ..Config::default() };
    Model::new(
        &config,
        Err("unused".to_owned()),
        &vec![Some("key".to_owned())],
        Err("unused".to_owned()),
    )
    .unwrap()
}

fn lockfile() -> Diff {
    let diff = "diff --git a/go.sum b/go.sum\n+one\n+two\n";
    build_diff(&Config::default(), "2\t0\tgo.sum", diff).unwrap()
}

fn nothing() -> ChunkDelta {
    ChunkDelta { content: None, reasoning_content: None, reasoning: None, tool_calls: None }
}

fn chunk(delta: ChunkDelta) -> Chunk {
    Chunk { choices: vec![ChunkChoice { delta }] }
}

fn content(text: &str) -> Chunk {
    chunk(ChunkDelta { content: Some(text.to_owned()), ..nothing() })
}

fn call(index: u32, id: Option<&str>, name: Option<&str>, arguments: Option<&str>) -> Chunk {
    let owned = |text: Option<&str>| text.map(|text| text.to_owned());
    chunk(ChunkDelta {
        tool_calls: Some(vec![ToolCallChunk {
            index,
            id: owned(id),
            function: Some(FunctionChunk { name: owned(name), arguments: owned(arguments) }),
        }]),
        ..nothing()
    })
}

fn begin(model: &Model, show_deltas: bool) -> Round {
    model.begin(vec![system("s".to_owned()), user("u".to_owned())], show_deltas)
}

#[test]
fn messages_keep_their_roles() {
    assert!(matches!(system("a".to_owned()), ChatMessage::System(text) if text == "a"));
    assert!(matches!(user("a".to_owned()), ChatMessage::User(text) if text == "a"));
    assert!(matches!(
        assistant("a".to_owned()).clone(),
        ChatMessage::Assistant(Some(text), None) if text == "a"
    ));
}

#[test]
fn a_model_is_made_from_the_configuration() {
    let mut config = Config { endpoint: "https://x/v1//".to_owned(), ..Config::default() };
    let vars = vec![None, Some(" k ".to_owned())];
    let made = Model::new(&config, Err("a".to_owned()), &vars, Err("b".to_owned())).unwrap();
    assert_eq!(made.api_key, "k");
    assert_eq!(made.api_base, "https://x/v1");
    assert_eq!(made.name, "gpt-5.6-luna");
    assert_eq!((made.max_tool_calls, made.max_tool_bytes), (2, 24_000));
    config.endpoint_file = Some("/e".to_owned());
    assert!(matches!(
        Model::new(&config, Err("a".to_owned()), &vars, Err("b".to_owned())),
        Err(ConfigError::Read { path, reason }) if path == "/e" && reason == "b"
    ));
    let made = Model::new(&config, Err("a".to_owned()), &vars, Ok(" /u/ \n".to_owned())).unwrap();
    assert_eq!(made.api_base, "/u");
    assert!(matches!(
        Model::new(&config, Err("a".to_owned()), &vec![None], Err("b".to_owned())),
        Err(ConfigError::NoApiKey)
    ));
}

#[test]
fn tools_are_offered_only_for_withheld_files() {
    let shown = build_diff(&Config::default(), "1\t0\ta.rs", "").unwrap();
    let withheld = lockfile();
    assert!(model(2).tools(None).is_none());
    assert!(model(2).tools(Some(&shown)).is_none());
    assert!(model(0).tools(Some(&withheld)).is_none());
    let tools = model(2).tools(Some(&withheld)).unwrap();
    assert_eq!(tools.len(), 2);
    assert_eq!(tools[0].name, "read_diff");
    assert_eq!(
        tools[0].description,
        "Read part of the diff of a file whose hunks were withheld from the prompt. \
         Withheld files: go.sum."
    );
    let names: Vec<&str> =
        tools[0].parameters.iter().map(|parameter| parameter.name.as_str()).collect();
    assert_eq!(names, vec!["path", "offset", "limit"]);
    assert_eq!(tools[1].name, "search_diff");
    assert_eq!(tools[1].parameters[0].kind, "string");
}

#[test]
fn chunks_add_up_to_an_answer() {
    let model = model(2);
    let mut round = begin(&model, true);
    assert!(round.absorb(&Chunk { choices: Vec::new() }).is_empty());
    assert!(round.absorb(&content("")).is_empty());
    let events = round.absorb(&content("a"));
    assert!(matches!(&events[0], Event::Delta { text } if text == "a"));
    round.absorb(&content("b"));
    assert_eq!(round.content, "ab");
    match model.end_round(&mut round, None) {
        RoundEnd::Answer(Ok(text)) => assert_eq!(text, "ab"),
        _ => panic!("there is an answer"),
    }
}

#[test]
fn a_structured_answer_reports_its_size() {
    let model = model(2);
    let mut round = begin(&model, false);
    round.absorb(&content("\u{e9}"));
    let events = round.absorb(&content("b"));
    assert!(matches!(events[0], Event::Writing { bytes: 3 }));
}

#[test]
fn thinking_goes_by_either_name() {
    let model = model(2);
    let mut round = begin(&model, true);
    let both = chunk(ChunkDelta {
        reasoning_content: Some("a".to_owned()),
        reasoning: Some("b".to_owned()),
        content: Some("c".to_owned()),
        tool_calls: None,
    });
    let events = round.absorb(&both);
    assert_eq!(events.len(), 2);
    assert!(matches!(&events[0], Event::Reasoning { text } if text == "a"));
    assert!(matches!(&events[1], Event::Delta { text } if text == "c"));
    let other = chunk(ChunkDelta { reasoning: Some("b".to_owned()), ..nothing() });
    assert!(matches!(&round.absorb(&other)[0], Event::Reasoning { text } if text == "b"));
    let empty = chunk(ChunkDelta { reasoning: Some("".to_owned()), ..nothing() });
    assert!(round.absorb(&empty).is_empty());
}

#[test]
fn a_blank_answer_is_none() {
    let model = model(2);
    let mut round = begin(&model, true);
    round.absorb(&content(" \n"));
    match model.end_round(&mut round, None) {
        RoundEnd::Answer(Err(error)) => assert_eq!(error.message(), "the model returned nothing"),
        _ => panic!("there is no answer"),
    }
    assert_eq!(ModelError::Api("why".to_owned()).message(), "why");
    let shape = ModelError::Shape { reason: "eof".to_owned(), text: "{".to_owned() };
    assert_eq!(
        shape.message(),
        "the model returned a shape that does not fit: eof\nit returned: {"
    );
}

#[test]
fn calls_are_rebuilt_and_answered() {
    let model = model(2);
    let diff = lockfile();
    let mut round = begin(&model, true);
    assert_eq!(model.round_tools(&round, Some(&diff)).unwrap().len(), 2);
    round.absorb(&call(1, Some("two"), Some("search_diff"), Some("{\"pattern\":")));
    round.absorb(&call(0, Some("one"), Some("read_diff"), Some("not json")));
    round.absorb(&call(1, None, None, Some("\"TWO\"}")));
    assert_eq!(round.calls.len(), 2);
    assert_eq!(round.calls[1].arguments, "{\"pattern\":\"TWO\"}");
    let events = match model.end_round(&mut round, Some(&diff)) {
        RoundEnd::Again(events) => events,
        RoundEnd::Answer(_) => panic!("there were calls"),
    };
    assert_eq!(events.len(), 2);
    let unread = "no withheld diff for \"\". Withheld files: go.sum";
    match &events[0] {
        Event::Tool { name, arguments, returned_bytes } => {
            assert_eq!(name, "read_diff");
            assert_eq!(arguments.to_string(), "{}");
            assert_eq!(*returned_bytes, unread.len());
        }
        _ => panic!("another event"),
    }
    match &events[1] {
        Event::Tool { name, arguments, .. } => {
            assert_eq!(name, "search_diff");
            assert_eq!(arguments["pattern"], "TWO");
        }
        _ => panic!("another event"),
    }
    assert_eq!(round.messages.len(), 5);
    assert!(matches!(
        &round.messages[2],
        ChatMessage::Assistant(None, Some(calls)) if calls.len() == 2 && calls[0].id == "one"
    ));
    assert!(matches!(
        &round.messages[3],
        ChatMessage::Tool(id, text) if id == "one" && text == unread
    ));
    assert!(matches!(
        &round.messages[4],
        ChatMessage::Tool(id, text) if id == "two" && text == "go.sum:2: +two\n"
    ));
    assert!(round.calls.is_empty() && round.content.is_empty());
    assert_eq!((round.calls_left, round.rounds_left), (0, 1));
}

#[test]
fn no_more_is_read_than_the_budget_allows() {
    let spent = "the budget for tool calls is spent, so nothing was read";
    let diff = lockfile();
    for budget in 0..4 {
        let model = model(budget);
        let mut round = begin(&model, true);
        assert_eq!(model.round_tools(&round, Some(&diff)).is_some(), budget > 0);
        let mut read = 0;
        for asked in 0..4 {
            for index in 0..asked {
                let pattern = Some("{\"pattern\":\"TWO\"}");
                round.absorb(&call(index, Some("id"), Some("search_diff"), pattern));
            }
            let before = round.messages.len();
            let events = match model.end_round(&mut round, Some(&diff)) {
                RoundEnd::Again(events) => events,
                RoundEnd::Answer(_) => {
                    assert_eq!(asked, 0);
                    continue;
                }
            };
            assert_eq!(round.messages.len(), before + 1 + asked as usize);
            for (index, message) in round.messages[before + 1..].iter().enumerate() {
                let answer = if index < events.len() { "go.sum:2: +two\n" } else { spent };
                assert!(matches!(message, ChatMessage::Tool(_, text) if text == answer));
            }
            read += events.len() as u32;
            assert_eq!(read + round.calls_left, budget);
            assert_eq!(round.rounds_left, budget.saturating_sub(asked));
            let offered = model.round_tools(&round, Some(&diff)).is_some();
            assert_eq!(offered, asked < budget);
        }
        assert_eq!(read, budget);
    }
}

#[test]
fn a_call_without_a_diff_is_answered_too() {
    let model = model(2);
    let mut round = begin(&model, true);
    round.absorb(&content("let me see"));
    round.absorb(&call(0, Some("x"), Some("read_diff"), None));
    assert!(matches!(model.end_round(&mut round, None), RoundEnd::Again(_)));
    assert!(matches!(
        &round.messages[2],
        ChatMessage::Assistant(Some(text), Some(_)) if text == "let me see"
    ));
    assert!(matches!(
        &round.messages[3],
        ChatMessage::Tool(_, text) if text == "no diff is available to read"
    ));
    assert_eq!(round.calls_left, 1);
}
