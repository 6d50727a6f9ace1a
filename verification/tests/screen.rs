//! Rows for a terminal, and the list to choose from.

use auto_commit::picker::{frame, open, Choice, Item, Key, Opening, Press, State};
use auto_commit::screen;
use auto_commit::screen::{cut, look, paint, rows_taken, size, wrap, Hue, Ink, Line};

fn shown(line: &Line) -> String {
    line.0.iter().map(|span| span.text.as_str()).collect()
}

fn state() -> State {
    State { cursor_at: 0, thinking_open: false, feedback: None }
}

fn key(key: Key) -> Press {
    Press { key, control: false }
}

fn list() -> Vec<Item> {
    vec![
        Item { title: "a".to_owned(), detail: " why\nhow ".to_owned() },
        Item { title: "b".to_owned(), detail: "b detail".to_owned() },
        Item { title: "c".to_owned(), detail: "".to_owned() },
    ]
}

#[test]
fn a_terminal_is_never_too_small() {
    assert_eq!(size(0, 0), (40, 10));
    assert_eq!(size(40, 10), (40, 10));
    assert_eq!(size(200, 60), (200, 60));
}

#[test]
fn a_cut_counts_characters() {
    assert_eq!(cut("abc", 3), "abc");
    assert_eq!(cut("abcd", 3), "ab");
    assert_eq!(cut("\u{e9}\u{e9}\u{e9}", 2), "\u{e9}");
    assert_eq!(cut("a", 0), "");
    assert_eq!(cut("", 0), "");
}

#[test]
fn rows_are_cut_at_the_edge() {
    let row = screen::line("abc".to_owned(), Ink::Bold)
        .with("def".to_owned(), Ink::Dim)
        .with("g".to_owned(), Ink::Plain);
    let drawn = paint(&vec![row], 5);
    assert_eq!(drawn.len(), 1);
    assert_eq!(shown(&drawn[0]), "abcdg");
    assert_eq!(drawn[0].0[1].ink, Ink::Dim);
    let exact = paint(&vec![screen::line("abc".to_owned(), Ink::Plain).with("x".to_owned(), Ink::Dim)], 3);
    assert_eq!(exact[0].0.len(), 1);
}

#[test]
fn inks_have_their_looks() {
    assert_eq!(look(Ink::Plain).hue, None);
    assert!(look(Ink::Dim).dim && !look(Ink::Dim).bold);
    assert!(look(Ink::Bold).bold);
    assert_eq!(look(Ink::Accent).hue, Some(Hue::Cyan));
    assert!(look(Ink::Chosen).bold && look(Ink::Chosen).hue == Some(Hue::Cyan));
    assert_eq!(look(Ink::Added).hue, Some(Hue::Green));
    assert_eq!(look(Ink::Removed).hue, Some(Hue::Red));
}

#[test]
fn words_fill_rows() {
    assert!(wrap("", 20).is_empty());
    assert_eq!(wrap("a b", 0), vec!["a b"]);
    assert_eq!(
        wrap("aaaaaaaaaa bbbbbbbbb c", 20),
        vec!["aaaaaaaaaa bbbbbbbbb", "c"]
    );
    assert_eq!(
        wrap("one\n\n  two   three ", 20),
        vec!["one", "", "two three"]
    );
    let long = "x".repeat(30);
    assert_eq!(wrap(&format!("a {long} b"), 20), vec!["a", long.as_str(), "b"]);
    let text = "the quick brown fox jumps over the lazy dog again and again";
    assert_eq!(wrap(text, 20).join(" "), text);
    assert!(wrap(text, 20).iter().all(|row| row.chars().count() <= 20));
}

#[test]
fn an_empty_list_cancels_and_a_pipe_takes_the_first() {
    assert!(matches!(open(0, true), Opening::Settled(Choice::Cancel)));
    assert!(matches!(open(2, false), Opening::Settled(Choice::Item(0))));
    assert!(matches!(open(2, true), Opening::Ask(state) if state.cursor_at == 0));
}

#[test]
fn the_cursor_goes_round() {
    let mut at = state();
    assert!(at.press(key(Key::Up), 3, false, false).is_none());
    assert_eq!(at.cursor_at, 2);
    at.press(key(Key::Down), 3, false, false);
    assert_eq!(at.cursor_at, 0);
    at.press(key(Key::Tab), 3, false, false);
    at.press(key(Key::Char('j')), 3, false, false);
    assert_eq!(at.cursor_at, 2);
    at.press(key(Key::Char('k')), 3, false, false);
    assert_eq!(at.cursor_at, 1);
    assert!(matches!(at.press(key(Key::Enter), 3, false, false), Some(Choice::Item(1))));
    assert!(matches!(at.press(key(Key::Char('e')), 3, false, true), Some(Choice::Edit(1))));
    assert!(at.press(key(Key::Char('e')), 3, false, false).is_none());
}

#[test]
fn digits_choose_an_item() {
    let mut at = state();
    assert!(matches!(at.press(key(Key::Char('3')), 3, false, false), Some(Choice::Item(2))));
    assert!(at.press(key(Key::Char('4')), 3, false, false).is_none());
    assert!(at.press(key(Key::Char('0')), 3, false, false).is_none());
    assert!(at.press(key(Key::Char('x')), 3, false, false).is_none());
    assert!(at.press(key(Key::Other), 3, false, false).is_none());
}

#[test]
fn the_list_is_left_in_several_ways() {
    let mut at = state();
    assert!(matches!(at.press(key(Key::Esc), 3, false, false), Some(Choice::Cancel)));
    assert!(matches!(at.press(key(Key::Char('q')), 3, false, false), Some(Choice::Cancel)));
    assert!(matches!(at.press(key(Key::Char('r')), 3, false, false), Some(Choice::Reload)));
    let interrupt = Press { key: Key::Char('c'), control: true };
    assert!(matches!(at.press(interrupt, 3, false, false), Some(Choice::Cancel)));
    assert!(at.press(key(Key::Char('c')), 3, false, false).is_none());
}

#[test]
fn the_thinking_is_toggled() {
    let mut at = state();
    at.press(key(Key::Char('t')), 3, false, false);
    assert!(!at.thinking_open);
    at.press(key(Key::Char('t')), 3, true, false);
    assert!(at.thinking_open);
    at.press(key(Key::Char('t')), 3, true, false);
    assert!(!at.thinking_open);
}

#[test]
fn typing_takes_every_key() {
    let mut at = state();
    at.press(key(Key::Char('f')), 3, true, true);
    assert_eq!(at.feedback, Some("".to_owned()));
    assert!(at.press(key(Key::Enter), 3, true, true).is_none());
    at.press(key(Key::Backspace), 3, true, true);
    for typed in ['q', ' ', '\u{e9}', '1'] {
        assert!(at.press(key(Key::Char(typed)), 3, true, true).is_none());
    }
    at.press(key(Key::Backspace), 3, true, true);
    at.press(key(Key::Up), 3, true, true);
    assert_eq!(at.feedback, Some("q \u{e9}".to_owned()));
    assert_eq!(at.cursor_at, 0);
    assert!(matches!(
        at.press(key(Key::Enter), 3, true, true),
        Some(Choice::Feedback(text)) if text == "q \u{e9}"
    ));
    at.press(key(Key::Esc), 3, true, true);
    assert_eq!(at.feedback, None);
    at.press(key(Key::Char('f')), 3, true, true);
    let interrupt = Press { key: Key::Char('c'), control: true };
    assert!(matches!(at.press(interrupt, 3, true, true), Some(Choice::Cancel)));
}

#[test]
fn only_the_highlighted_item_shows_its_detail() {
    let lines = frame("Which?", &list(), None, false, &state(), 80, 24);
    let texts: Vec<String> = lines.iter().map(shown).collect();
    assert_eq!(
        texts,
        vec![
            "  Which?",
            "",
            "> 1  a",
            "     why",
            "     how",
            "  2  b",
            "  3  c",
            "",
            "  f  give feedback   r  reload   q  cancel",
            "  up and down to move, enter to choose",
        ]
    );
    assert_eq!(lines[2].0[0].ink, Ink::Chosen);
}

#[test]
fn the_keys_that_work_are_named() {
    let mut at = state();
    at.cursor_at = 2;
    let lines = frame("p", &list(), Some("x"), true, &at, 80, 24);
    assert_eq!(
        shown(&lines[lines.len() - 2]),
        "  e  edit   f  give feedback   r  reload   t  show thinking   q  cancel"
    );
    at.thinking_open = true;
    let lines = frame("p", &list(), Some(" x "), true, &at, 80, 24);
    let texts: Vec<String> = lines.iter().map(shown).collect();
    assert_eq!(texts[5], "");
    assert_eq!(texts[6], "    x");
    assert!(texts[8].contains("t  hide thinking"));
    at.feedback = Some("no".to_owned());
    let lines = frame("p", &list(), None, true, &at, 80, 24);
    assert_eq!(shown(&lines[lines.len() - 2]), "  feedback: no\u{2588}");
    assert_eq!(shown(&lines[lines.len() - 1]), "  enter to send, esc to go back");
}

#[test]
fn the_panel_is_trimmed_to_what_fits() {
    let mut at = state();
    at.cursor_at = 2;
    at.thinking_open = true;
    let thinking = "line\n".repeat(50);
    for height in 12..40 {
        let lines = frame("p", &list(), Some(&thinking), true, &at, 80, height);
        assert!(lines.len() <= height, "height {height}");
    }
    let lines = frame("p", &list(), Some(&thinking), true, &at, 80, 15);
    assert_eq!(shown(&lines[6]), "    line");
    assert_eq!(shown(&lines[9]), "    and 47 more lines");
}

#[test]
fn the_detail_is_trimmed_to_what_fits() {
    let items = vec![Item { title: "t".to_owned(), detail: "x\n".repeat(40) }];
    let lines = frame("?", &items, None, false, &state(), 80, 24);
    let texts: Vec<String> = lines.iter().map(shown).collect();
    assert_eq!(texts.len(), 24);
    assert_eq!(texts[2], "> 1  t");
    assert_eq!(texts[19], "     x");
    assert_eq!(texts[20], "     and 23 more lines");
    assert_eq!(texts[21], "");
    assert_eq!(frame("?", &items, None, false, &state(), 80, 46).len(), 46);
    assert_eq!(shown(&frame("?", &items, None, false, &state(), 80, 46)[42]), "     x");
    let mut at = state();
    at.thinking_open = true;
    for height in 6..60 {
        for thinking in ["", "one", &"line\n".repeat(50)] {
            let lines = frame("?", &items, Some(thinking), true, &at, 80, height);
            assert!(lines.len() <= height, "height {height}");
        }
    }
    let lines = frame("?", &items, Some("one"), true, &at, 80, 24);
    assert_eq!(shown(&lines[18]), "     and 25 more lines");
    assert_eq!(shown(&lines[19]), "");
    assert_eq!(shown(&lines[20]), "    and 1 more lines");
}

#[test]
fn what_was_written_takes_the_rows_that_it_breaks_into() {
    assert_eq!(rows_taken("", 10), 1);
    assert_eq!(rows_taken("0123456789", 10), 1);
    assert_eq!(rows_taken("0123456789a", 10), 2);
    assert_eq!(rows_taken("a\n\nb\n", 10), 4);
    assert_eq!(rows_taken("abc\nabcdef", 2), 5);
    assert_eq!(rows_taken("abc\nd", 0), 2);
}
