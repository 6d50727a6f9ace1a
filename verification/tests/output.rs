//! What a run reports, for a person and for a program.

use auto_commit::cli::GlobalArgs;
use auto_commit::output::{
    musing, taken_back, Effect, Event, Mode, Piece, Reporter, Tint, Trace,
};

const SECOND: u128 = 1_000_000_000;

fn shown(effects: &[Effect]) -> Vec<String> {
    effects
        .iter()
        .map(|effect| match effect {
            Effect::Say(pieces) => pieces.iter().map(|piece| piece.text.as_str()).collect(),
            Effect::Draft(pieces) => {
                let text: String = pieces.iter().map(|piece| piece.text.as_str()).collect();
                format!("[draft {text}]")
            }
            Effect::Spin(message) => format!("[spin {message}]"),
            Effect::Remark(message) => format!("[remark {message}]"),
            Effect::Unspin => "[unspin]".to_owned(),
            Effect::Thought(nanos) => format!("[thought {nanos}]"),
            Effect::Clear(text) => format!("[clear {text}]"),
            Effect::Print(line) => format!("[print {line}]"),
        })
        .collect()
}

fn person() -> Reporter {
    Reporter::new(&GlobalArgs::default(), true)
}

fn context(included: usize, withheld: &[&str]) -> Event {
    Event::Context {
        staged_files: 3,
        included,
        withheld: withheld.iter().map(|path| (*path).to_owned()).collect(),
        added: 5,
        deleted: 6,
        diff_bytes: 7,
        commits_used: 8,
        model: "m".to_owned(),
    }
}

fn tool(name: &str) -> Event {
    Event::Tool {
        name: name.to_owned(),
        arguments: serde_json::from_str("{ \"path\" : \"p\" }").unwrap(),
        returned_bytes: 9,
    }
}

fn json_value(source: &str) -> Option<serde_json::Value> {
    serde_json::from_str(source).ok()
}

fn delta(text: &str) -> Event {
    Event::Delta { text: text.to_owned() }
}

fn thought(text: &str) -> Event {
    Event::Reasoning { text: text.to_owned() }
}

#[test]
fn the_mode_follows_the_flags() {
    let json = GlobalArgs { json: true, json_stream: true, ..GlobalArgs::default() };
    assert_eq!(Reporter::new(&json, true).mode, Mode::Json);
    let stream = GlobalArgs { json_stream: true, ..GlobalArgs::default() };
    assert_eq!(Reporter::new(&stream, true).mode, Mode::JsonStream);
    assert!(person().is_human());
    assert!(!Reporter::new(&json, true).is_human());
}

#[test]
fn a_spinner_is_for_a_terminal() {
    let mut reporter = person();
    assert_eq!(shown(&reporter.start("a")), vec!["[spin a]"]);
    assert_eq!(shown(&reporter.step("b")), vec!["[remark b]"]);
    assert_eq!(shown(&reporter.stop()), vec!["[unspin]"]);
    assert!(reporter.stop().is_empty());
    assert_eq!(shown(&reporter.step("c")), vec!["c\n"]);
    let mut piped = Reporter::new(&GlobalArgs::default(), false);
    assert_eq!(shown(&piped.start("a")), vec!["a\n"]);
    let quiet = GlobalArgs { quiet: true, ..GlobalArgs::default() };
    let mut silent = Reporter::new(&quiet, true);
    assert!(silent.start("a").is_empty());
    assert!(silent.step("a").is_empty());
    assert!(!silent.shows_progress());
}

#[test]
fn the_context_is_a_line() {
    let mut reporter = person();
    reporter.start("a");
    let effects = reporter.event(&context(3, &[]), None, None, 0);
    assert_eq!(shown(&effects), vec!["[unspin]", "  3 files  +5 -6  8 commits of context, m\n"]);
    let effects = reporter.event(&context(1, &["x", "y"]), None, None, 0);
    assert_eq!(
        shown(&effects),
        vec!["  1 of 3 files  +5 -6  8 commits of context, m\n", "  withheld x, y\n"]
    );
    match &effects[0] {
        Effect::Say(pieces) => {
            let tints: Vec<Tint> = pieces.iter().map(|piece| piece.tint).collect();
            assert_eq!(tints[1], Tint::Bold);
            assert_eq!(tints[3], Tint::Green);
            assert_eq!(tints[5], Tint::Red);
            assert_eq!(tints[7], Tint::Dim);
        }
        _ => panic!("nothing was said"),
    }
}

#[test]
fn a_tool_call_has_a_line_of_its_own() {
    let mut reporter = person();
    reporter.start("a");
    let effects = reporter.event(&tool("read_diff"), None, None, 0);
    assert_eq!(
        shown(&effects),
        vec![
            "[unspin]",
            "tool read_diff {\"path\":\"p\"} (9 bytes)\n",
            "[spin reading it back]",
        ]
    );
    assert_eq!(reporter.tool_calls, 1);
}

#[test]
fn collapsed_thinking_is_replaced_with_its_time() {
    let mut reporter = person();
    reporter.start("a");
    assert_eq!(shown(&reporter.event(&thought("hm"), None, None, SECOND)), vec!["[remark thinking]"]);
    assert_eq!(
        shown(&reporter.event(&thought("..."), None, None, 4 * SECOND)),
        vec!["[remark pondering]"]
    );
    let effects = reporter.event(&delta("x"), None, None, 5 * SECOND);
    assert_eq!(shown(&effects), vec!["[unspin]", "[thought 5000000000]", "[draft x]"]);
    assert_eq!(shown(&reporter.event(&delta("y"), None, None, 6 * SECOND)), vec!["[draft y]"]);
    assert_eq!(reporter.thinking(), Some("hm...".to_owned()));
    assert_eq!(shown(&reporter.end_stream()), vec!["[clear xy]"]);
    assert!(reporter.end_stream().is_empty());
    assert_eq!(reporter.first_token, Some(5 * SECOND));
    assert_eq!(reporter.first_reasoning, Some(SECOND));
}

#[test]
fn the_preview_is_cleared() {
    let mut reporter = person();
    reporter.event(&delta("one"), None, None, 0);
    reporter.event(&delta("\ntwo"), None, None, 0);
    assert_eq!(
        shown(&reporter.event(&tool("t"), None, None, 0)),
        vec!["[clear one\ntwo]", "tool t {\"path\":\"p\"} (9 bytes)\n", "[spin reading it back]"]
    );
    assert_eq!(shown(&reporter.event(&delta("three"), None, None, 0)), vec!["[unspin]", "[draft three]"]);
    assert!(reporter.event(&thought("hm"), None, None, 0).is_empty());
    assert_eq!(
        shown(&reporter.event(&delta("four"), None, None, 7)),
        vec!["[thought 7]", "[draft four]"]
    );
    reporter.set_show_thinking(true);
    assert_eq!(shown(&reporter.event(&thought("a"), None, None, 8)), vec!["  a"]);
    assert_eq!(shown(&reporter.event(&delta("five"), None, None, 9)), vec!["\n", "[draft five]"]);
    assert_eq!(shown(&reporter.settle(9)), vec!["[clear threefourfive]"]);
    assert!(reporter.end_stream().is_empty());
    let mut piped = Reporter::new(&GlobalArgs::default(), false);
    piped.event(&delta("x"), None, None, 0);
    assert_eq!(shown(&piped.end_stream()), vec!["\n"]);
}

#[test]
fn what_stands_beside_a_preview_is_written_again() {
    let trace = |draft: bool, text: &str, tint: Tint| Trace {
        draft,
        piece: Piece { text: text.to_owned(), tint },
    };
    let traces = vec![
        trace(true, "one", Tint::Dim),
        trace(false, "  hm", Tint::Red),
        trace(false, "\n", Tint::Plain),
        trace(true, "two", Tint::Dim),
    ];
    let (written, again) = taken_back(&traces);
    assert_eq!(written, "one  hm\ntwo");
    assert_eq!(again.len(), 2);
    assert_eq!((again[0].text.as_str(), again[0].tint), ("  hm", Tint::Red));
    assert_eq!(again[1].text, "\n");
}

#[test]
fn shown_thinking_is_indented() {
    let mut reporter = person();
    reporter.set_show_thinking(true);
    reporter.set_show_thinking(false);
    reporter.start("a");
    assert_eq!(
        shown(&reporter.event(&thought("one\ntw"), None, None, 0)),
        vec!["[unspin]", "  one\n  tw"]
    );
    assert_eq!(shown(&reporter.event(&thought("o\n"), None, None, 0)), vec!["o\n"]);
    assert_eq!(shown(&reporter.event(&thought("three"), None, None, 0)), vec!["  three"]);
    assert_eq!(
        shown(&reporter.settle(2 * SECOND)),
        vec!["\n", "[thought 2000000000]"]
    );
    assert!(reporter.settle(3 * SECOND).is_empty());
}

#[test]
fn progress_of_an_answer_needs_a_spinner() {
    let mut reporter = person();
    let writing = Event::Writing { bytes: 12 };
    assert!(reporter.event(&writing, None, None, 7).is_empty());
    reporter.start("a");
    assert_eq!(
        shown(&reporter.event(&writing, None, None, 8)),
        vec!["[remark writing the answer, 12 bytes]"]
    );
    assert_eq!(reporter.first_token, Some(7));
}

#[test]
fn what_came_of_the_run_is_said() {
    let mut reporter = person();
    let renamed = Event::Renamed { from: "a".to_owned(), to: "b".to_owned() };
    assert_eq!(shown(&reporter.event(&renamed, None, None, 0)), vec!["renamed a to b\n"]);
    let committed = Event::Committed { sha: "abc".to_owned() };
    assert_eq!(shown(&reporter.event(&committed, None, None, 0)), vec!["committed abc\n"]);
    let message = Event::Message { subject: "s".to_owned(), body: "b".to_owned() };
    assert!(reporter.event(&message, None, None, 0).is_empty());
    let quiet = GlobalArgs { quiet: true, ..GlobalArgs::default() };
    let mut silent = Reporter::new(&quiet, true);
    assert!(silent.event(&committed, None, None, 0).is_empty());
    assert!(silent.event(&delta("x"), None, None, 0).is_empty());
    let error = Event::Error { code: "c".to_owned(), message: "m".to_owned() };
    assert_eq!(shown(&silent.event(&error, None, None, 0)), vec!["auto-commit: m\n"]);
}

#[test]
fn only_the_payload_reaches_stdout() {
    let reporter = person();
    assert_eq!(shown(&reporter.payload("p")), vec!["[print p]"]);
    let json = GlobalArgs { json: true, ..GlobalArgs::default() };
    assert!(Reporter::new(&json, true).payload("p").is_empty());
}

#[test]
fn a_stream_prints_each_event() {
    let stream = GlobalArgs { json_stream: true, ..GlobalArgs::default() };
    let mut reporter = Reporter::new(&stream, true);
    assert_eq!(shown(&reporter.event(&delta("x"), Some("{}"), None, 3)), vec!["[print {}]"]);
    assert!(reporter.event(&delta("x"), None, None, 4).is_empty());
    assert_eq!(reporter.first_token, Some(3));
    assert!(reporter.start("a").is_empty());
}

#[test]
fn one_object_holds_the_last_of_each_kind() {
    let json = GlobalArgs { json: true, ..GlobalArgs::default() };
    let mut reporter = Reporter::new(&json, true);
    let message = Event::Message { subject: "s".to_owned(), body: "b".to_owned() };
    reporter.event(&message, None, json_value("{\"subject\":\"old\"}"), 0);
    reporter.event(&message, None, json_value("{\"subject\":\"new\"}"), 0);
    reporter.event(&delta("x"), None, json_value("{\"text\":\"x\"}"), 0);
    reporter.event(&thought("x"), None, json_value("{\"text\":\"x\"}"), 0);
    reporter.event(&tool("a"), None, json_value("{\"name\":\"a\"}"), 0);
    reporter.event(&tool("b"), None, json_value("{\"name\":\"b\"}"), 0);
    reporter.event(&Event::Committed { sha: "c".to_owned() }, None, None, 0);
    let effects = shown(&reporter.finish(0));
    assert_eq!(effects.len(), 1);
    let line = effects[0].strip_prefix("[print ").and_then(|rest| rest.strip_suffix("]")).unwrap();
    let value: serde_json::Value = serde_json::from_str(line).unwrap();
    assert_eq!(value["message"]["subject"], "new");
    assert_eq!(value["tools"][0]["name"], "a");
    assert_eq!(value["tools"][1]["name"], "b");
    assert_eq!(value.as_object().unwrap().len(), 2);
    assert_eq!(shown(&reporter.finish(0)), vec!["[print {}]"]);
}

#[test]
fn the_timing_is_reported_at_the_end() {
    let timed = GlobalArgs { timing: true, ..GlobalArgs::default() };
    let mut reporter = Reporter::new(&timed, true);
    reporter.start("a");
    reporter.event(&tool("a"), None, None, 0);
    reporter.event(&delta("x"), None, None, 1_500_000);
    assert_eq!(
        shown(&reporter.finish(2_999_999)),
        vec!["timing: first thought none, first token 1 ms, 1 tool calls, 2 ms total\n"]
    );
    assert!(person().finish(0).is_empty());
}

#[test]
fn the_words_go_round() {
    let words: Vec<String> = (0..7).map(|n: u128| musing(n * 3 * SECOND)).collect();
    assert_eq!(
        words,
        vec![
            "thinking",
            "pondering",
            "mulling it over",
            "weighing it up",
            "still pondering",
            "nearly there, probably",
            "thinking",
        ]
    );
    assert_eq!(musing(3 * SECOND - 1), "thinking");
}
