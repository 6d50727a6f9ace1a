//! A list to choose from, where the highlighted item shows its detail.

use crate::screen;
use crate::screen::{line, push_row, Ink, Line, SpanView};
use crate::text;
use vstd::prelude::*;

verus! {

/// One choice, with the detail that only shows while it is highlighted. The
/// detail is why this exists rather than a list of one-line labels: a commit
/// body has to be read before the message carrying it is picked.
#[derive(Debug)]
pub struct Item {
    pub title: String,
    pub detail: String,
}

/// What an [`Item`] says.
pub struct ItemView {
    pub title: Seq<char>,
    pub detail: Seq<char>,
}

impl View for Item {
    type V = ItemView;

    open spec fn view(&self) -> ItemView {
        ItemView { title: self.title@, detail: self.detail@ }
    }
}

/// What the items of a list say.
pub open spec fn item_views(items: Seq<Item>) -> Seq<ItemView> {
    Seq::new(items.len(), |i: int| items[i]@)
}

/// What the reader did with the list.
#[derive(Debug)]
pub enum Choice {
    Item(usize),
    Edit(usize),
    Feedback(String),
    Reload,
    Cancel,
}

/// What a [`Choice`] says.
pub enum ChoiceView {
    Item(nat),
    Edit(nat),
    Feedback(Seq<char>),
    Reload,
    Cancel,
}

impl View for Choice {
    type V = ChoiceView;

    open spec fn view(&self) -> ChoiceView {
        match self {
            Choice::Item(index) => ChoiceView::Item(*index as nat),
            Choice::Edit(index) => ChoiceView::Edit(*index as nat),
            Choice::Feedback(text) => ChoiceView::Feedback(text@),
            Choice::Reload => ChoiceView::Reload,
            Choice::Cancel => ChoiceView::Cancel,
        }
    }
}

/// A choice, if one was made.
pub open spec fn choice_view(choice: Option<Choice>) -> Option<ChoiceView> {
    match choice {
        Some(choice) => Some(choice@),
        None => None,
    }
}

/// A key.
#[derive(Debug, Clone, Copy, PartialEq, Eq, Structural)]
pub enum Key {
    Char(char),
    Up,
    Down,
    Tab,
    Enter,
    Esc,
    Backspace,
    Other,
}

/// A key that was pressed, and whether the control key was held.
#[derive(Debug, Clone, Copy, PartialEq, Eq, Structural)]
pub struct Press {
    pub key: Key,
    pub control: bool,
}

/// Where the reader is in the list.
#[derive(Debug)]
pub struct State {
    pub cursor_at: usize,
    pub thinking_open: bool,
    /// The feedback that is being typed, while the field is open.
    pub feedback: Option<String>,
}

/// What a [`State`] says.
pub struct StateView {
    pub cursor_at: nat,
    pub thinking_open: bool,
    pub feedback: Option<Seq<char>>,
}

impl View for State {
    type V = StateView;

    open spec fn view(&self) -> StateView {
        StateView {
            cursor_at: self.cursor_at as nat,
            thinking_open: self.thinking_open,
            feedback: text::opt_text(self.feedback),
        }
    }
}

/// What a key does.
pub struct Turn {
    pub state: StateView,
    pub choice: Option<ChoiceView>,
}

/// The list stays up.
pub open spec fn stay(state: StateView) -> Turn {
    Turn { state, choice: None }
}

/// The list is done.
pub open spec fn done(state: StateView, choice: ChoiceView) -> Turn {
    Turn { state, choice: Some(choice) }
}

/// What a key does while feedback is typed. That takes every printable key, so the
/// list shortcuts only apply while the field is closed.
pub open spec fn typed(state: StateView, written: Seq<char>, key: Key) -> Turn {
    match key {
        Key::Char(c) => stay(StateView { feedback: Some(written.push(c)), ..state }),
        Key::Backspace => stay(
            StateView {
                feedback: Some(
                    if written.len() == 0 {
                        written
                    } else {
                        written.drop_last()
                    },
                ),
                ..state
            },
        ),
        Key::Esc => stay(StateView { feedback: None, ..state }),
        Key::Enter => if text::blank(written) {
            stay(state)
        } else {
            done(state, ChoiceView::Feedback(written))
        },
        _ => stay(state),
    }
}

/// The cursor one up, going round.
pub open spec fn above(at: nat, count: nat) -> nat {
    if at == 0 {
        (count - 1) as nat
    } else {
        (at - 1) as nat
    }
}

/// The cursor one down, going round.
pub open spec fn below(at: nat, count: nat) -> nat {
    if at + 1 == count {
        0
    } else {
        at + 1
    }
}

/// What a printable key does in the list.
pub open spec fn shortcut(
    state: StateView,
    c: char,
    count: nat,
    has_thinking: bool,
    can_edit: bool,
) -> Turn {
    if c == 'k' {
        stay(StateView { cursor_at: above(state.cursor_at, count), ..state })
    } else if c == 'j' {
        stay(StateView { cursor_at: below(state.cursor_at, count), ..state })
    } else if c == 'q' {
        done(state, ChoiceView::Cancel)
    } else if c == 'f' {
        stay(StateView { feedback: Some(Seq::empty()), ..state })
    } else if c == 'r' {
        done(state, ChoiceView::Reload)
    } else if c == 'e' && can_edit {
        done(state, ChoiceView::Edit(state.cursor_at))
    } else if c == 't' && has_thinking {
        stay(StateView { thinking_open: !state.thinking_open, ..state })
    } else if '1' <= c && c <= '9' && (c as int - '1' as int) < count {
        done(state, ChoiceView::Item((c as int - '1' as int) as nat))
    } else {
        stay(state)
    }
}

/// What a key does in a list of `count` items.
pub open spec fn pressed(
    state: StateView,
    press: Press,
    count: nat,
    has_thinking: bool,
    can_edit: bool,
) -> Turn {
    if press.control && press.key == Key::Char('c') {
        done(state, ChoiceView::Cancel)
    } else {
        match state.feedback {
            Some(written) => typed(state, written, press.key),
            None => match press.key {
                Key::Up => stay(
                    StateView { cursor_at: above(state.cursor_at, count), ..state },
                ),
                Key::Down => stay(
                    StateView { cursor_at: below(state.cursor_at, count), ..state },
                ),
                Key::Tab => stay(
                    StateView { cursor_at: below(state.cursor_at, count), ..state },
                ),
                Key::Enter => done(state, ChoiceView::Item(state.cursor_at)),
                Key::Esc => done(state, ChoiceView::Cancel),
                Key::Char(c) => shortcut(state, c, count, has_thinking, can_edit),
                _ => stay(state),
            },
        }
    }
}

/// How asking begins.
#[derive(Debug)]
pub enum Opening {
    /// There is nothing to ask.
    Settled(Choice),
    /// The list is to be shown.
    Ask(State),
}

/// How asking for one of `count` items begins. An empty list cancels, and without
/// a terminal the first item is taken.
pub fn open(count: usize, terminal: bool) -> (r: Opening)
    ensures
        if count == 0 {
            r matches Opening::Settled(choice) && choice@ == ChoiceView::Cancel
        } else if !terminal {
            r matches Opening::Settled(choice) && choice@ == ChoiceView::Item(0)
        } else {
            r matches Opening::Ask(state) && state@ == (StateView {
                cursor_at: 0,
                thinking_open: false,
                feedback: None,
            })
        },
{
    if count == 0 {
        Opening::Settled(Choice::Cancel)
    } else if !terminal {
        Opening::Settled(Choice::Item(0))
    } else {
        Opening::Ask(State { cursor_at: 0, thinking_open: false, feedback: None })
    }
}

impl State {
    fn type_key(&mut self, written: &String, key: Key) -> (r: Option<Choice>)
        requires
            old(self)@.feedback == Some(written@),
        ensures
            (Turn { state: final(self)@, choice: choice_view(r) }) == typed(
                old(self)@,
                written@,
                key,
            ),
    {
        match key {
            Key::Char(c) => {
                let mut longer = written.clone();
                longer.push(c);
                self.feedback = Some(longer);
                None
            },
            Key::Backspace => {
                let v = text::chars_of(written.as_str());
                if v.len() > 0 {
                    let shorter = text::substring(&v, 0, v.len() - 1);
                    assert(shorter@ =~= written@.drop_last());
                    self.feedback = Some(shorter);
                }
                None
            },
            Key::Esc => {
                self.feedback = None;
                None
            },
            Key::Enter => if text::is_blank(written.as_str()) {
                None
            } else {
                Some(Choice::Feedback(written.clone()))
            },
            _ => None,
        }
    }

    fn move_up(&mut self, count: usize)
        requires
            old(self).cursor_at < count,
        ensures
            final(self)@ == (StateView {
                cursor_at: above(old(self)@.cursor_at, count as nat),
                ..old(self)@
            }),
    {
        self.cursor_at = if self.cursor_at == 0 {
            count - 1
        } else {
            self.cursor_at - 1
        };
    }

    fn move_down(&mut self, count: usize)
        requires
            old(self).cursor_at < count,
        ensures
            final(self)@ == (StateView {
                cursor_at: below(old(self)@.cursor_at, count as nat),
                ..old(self)@
            }),
    {
        self.cursor_at = if self.cursor_at + 1 == count {
            0
        } else {
            self.cursor_at + 1
        };
    }

    fn shortcut_key(&mut self, c: char, count: usize, has_thinking: bool, can_edit: bool) -> (r:
        Option<Choice>)
        requires
            old(self).cursor_at < count,
        ensures
            (Turn { state: final(self)@, choice: choice_view(r) }) == shortcut(
                old(self)@,
                c,
                count as nat,
                has_thinking,
                can_edit,
            ),
    {
        if c == 'k' {
            self.move_up(count);
            None
        } else if c == 'j' {
            self.move_down(count);
            None
        } else if c == 'q' {
            Some(Choice::Cancel)
        } else if c == 'f' {
            let nothing = String::new();
            assert(nothing@ =~= Seq::empty());
            self.feedback = Some(nothing);
            None
        } else if c == 'r' {
            Some(Choice::Reload)
        } else if c == 'e' && can_edit {
            Some(Choice::Edit(self.cursor_at))
        } else if c == 't' && has_thinking {
            // A toggle, not a print. Pressing it twice puts the panel away
            // again rather than printing the same thinking a second time.
            self.thinking_open = !self.thinking_open;
            None
        } else if '1' <= c && c <= '9' {
            let index = (c as u32 - '1' as u32) as usize;
            if index < count {
                Some(Choice::Item(index))
            } else {
                None
            }
        } else {
            None
        }
    }

    /// Takes in one key, in a list of `count` items, and says what was chosen once
    /// something is.
    ///
    /// `has_thinking` enables the key that shows it, and `can_edit` the one that
    /// opens the editor.
    pub fn press(&mut self, press: Press, count: usize, has_thinking: bool, can_edit: bool) -> (r:
        Option<Choice>)
        requires
            old(self).cursor_at < count,
        ensures
            (Turn { state: final(self)@, choice: choice_view(r) }) == pressed(
                old(self)@,
                press,
                count as nat,
                has_thinking,
                can_edit,
            ),
            final(self).cursor_at < count,
    {
        if press.control && press.key == Key::Char('c') {
            return Some(Choice::Cancel);
        }
        let written = self.feedback.clone();
        if let Some(written) = written {
            return self.type_key(&written, press.key);
        }
        match press.key {
            Key::Up => {
                self.move_up(count);
                None
            },
            Key::Down => {
                self.move_down(count);
                None
            },
            Key::Tab => {
                self.move_down(count);
                None
            },
            Key::Enter => Some(Choice::Item(self.cursor_at)),
            Key::Esc => Some(Choice::Cancel),
            Key::Char(c) => self.shortcut_key(c, count, has_thinking, can_edit),
            _ => None,
        }
    }
}

// ---------------------------------------------------------------------------
// The frame
// ---------------------------------------------------------------------------

/// Rows in one ink, each with the same indent.
pub open spec fn indented(indent: Seq<char>, lines: Seq<Seq<char>>, ink: Ink) -> Seq<Seq<SpanView>> {
    Seq::new(lines.len(), |i: int| screen::row(indent + lines[i], ink))
}

/// The detail of an item, trimmed to the room that is left for it. Where it does not
/// fit, the last row of the room says how much is not shown.
pub open spec fn detail_rows(body: Seq<Seq<char>>, room: nat) -> Seq<Seq<SpanView>> {
    if body.len() <= room {
        indented("     "@, body, Ink::Dim)
    } else if room == 0 {
        Seq::empty()
    } else {
        indented("     "@, body.take(room - 1), Ink::Dim).push(
            screen::row(
                "     and "@ + text::decimal((body.len() + 1 - room) as nat) + " more lines"@,
                Ink::Dim,
            ),
        )
    }
}

/// The rows of one item. Only the highlighted one shows its detail, in the room that
/// is left for it.
pub open spec fn item_rows(
    item: ItemView,
    index: nat,
    picked: bool,
    width: nat,
    room: nat,
) -> Seq<Seq<SpanView>> {
    let number = text::decimal(index + 1);
    if picked {
        seq![screen::row("> "@ + number + "  "@ + item.title, Ink::Chosen)] + detail_rows(
            screen::wrapped(text::trim(item.detail), text::less(width, 5)),
            room,
        )
    } else {
        seq![screen::row("  "@ + number + "  "@ + item.title, Ink::Plain)]
    }
}

/// The rows of the first `n` items.
pub open spec fn list_rows(
    items: Seq<ItemView>,
    cursor_at: nat,
    width: nat,
    room: nat,
    n: nat,
) -> Seq<Seq<SpanView>>
    decreases n,
{
    if n == 0 {
        Seq::empty()
    } else {
        list_rows(items, cursor_at, width, room, (n - 1) as nat) + item_rows(
            items[n - 1],
            (n - 1) as nat,
            n - 1 == cursor_at,
            width,
            room,
        )
    }
}

/// The prompt, and the list under it, with so much room for the detail.
pub open spec fn list_part(
    prompt: Seq<char>,
    items: Seq<ItemView>,
    cursor_at: nat,
    width: nat,
    room: nat,
) -> Seq<Seq<SpanView>> {
    seq![screen::row("  "@ + prompt, Ink::Bold), screen::row(""@, Ink::Plain)] + list_rows(
        items,
        cursor_at,
        width,
        room,
        items.len(),
    )
}

/// The panel with the thinking, trimmed to the room that is left for it, and a row
/// that says how much is not shown.
pub open spec fn thinking_rows(body: Seq<Seq<char>>, room: nat) -> Seq<Seq<SpanView>> {
    if body.len() <= room {
        indented("    "@, body, Ink::Dim)
    } else {
        indented("    "@, body.take(room as int), Ink::Dim).push(
            screen::row(
                "    and "@ + text::decimal((body.len() - room) as nat) + " more lines"@,
                Ink::Dim,
            ),
        )
    }
}

/// The rows of the terminal that are left beside the prompt, the titles and the keys.
pub open spec fn spare_rows(count: nat, height: nat) -> nat {
    text::less(height, count + 5)
}

/// The rows that the panel with the thinking takes at least: the one above it, and
/// one that says how much is not shown.
pub open spec fn least_rows(body: Seq<Seq<char>>) -> nat {
    if body.len() == 0 {
        1
    } else {
        2
    }
}

/// What stands above the keys: the list, and the panel where it is open. A frame
/// taller than the terminal scrolls, so the panels are trimmed to what is left for
/// them: the detail leaves the thinking the least that it takes, and the thinking
/// goes where there is no room even for that.
pub open spec fn upper_part(
    prompt: Seq<char>,
    items: Seq<ItemView>,
    thinking: Option<Seq<char>>,
    state: StateView,
    width: nat,
    height: nat,
) -> Seq<Seq<SpanView>> {
    let spare = spare_rows(items.len(), height);
    let whole = list_part(prompt, items, state.cursor_at, width, spare);
    match thinking {
        Some(thinking) if state.thinking_open => {
            let body = screen::wrapped(text::trim(thinking), text::less(width, 4));
            if spare < least_rows(body) {
                whole
            } else {
                let room = (spare - least_rows(body)) as nat;
                let above = list_part(prompt, items, state.cursor_at, width, room).push(
                    screen::row(""@, Ink::Plain),
                );
                above + thinking_rows(body, text::less(height, above.len() + 6))
            }
        },
        _ => whole,
    }
}

/// The keys that do something in the list.
pub open spec fn actions(has_thinking: bool, thinking_open: bool, can_edit: bool) -> Seq<Seq<char>> {
    let edit = if can_edit {
        seq!["e  edit"@]
    } else {
        Seq::empty()
    };
    let toggle = if !has_thinking {
        Seq::empty()
    } else if thinking_open {
        seq!["t  hide thinking"@]
    } else {
        seq!["t  show thinking"@]
    };
    edit + seq!["f  give feedback"@, "r  reload"@] + toggle + seq!["q  cancel"@]
}

/// The rows that say which keys do what.
pub open spec fn key_rows(has_thinking: bool, can_edit: bool, state: StateView) -> Seq<
    Seq<SpanView>,
> {
    match state.feedback {
        Some(written) => seq![
            screen::row(""@, Ink::Plain),
            screen::row("  feedback: "@ + written + "\u{2588}"@, Ink::Accent),
            screen::row("  enter to send, esc to go back"@, Ink::Dim),
        ],
        None => seq![
            screen::row(""@, Ink::Plain),
            screen::row(
                "  "@ + text::join(
                    actions(has_thinking, state.thinking_open, can_edit),
                    "   "@,
                ),
                Ink::Accent,
            ),
            screen::row("  up and down to move, enter to choose"@, Ink::Dim),
        ],
    }
}

/// The frame that shows the list, in a terminal of this size.
pub open spec fn frame_rows(
    prompt: Seq<char>,
    items: Seq<ItemView>,
    thinking: Option<Seq<char>>,
    can_edit: bool,
    state: StateView,
    width: nat,
    height: nat,
) -> Seq<Seq<SpanView>> {
    upper_part(prompt, items, thinking, state, width, height) + key_rows(
        thinking is Some,
        can_edit,
        state,
    )
}

/// The text of an optional string slice.
pub open spec fn opt_str(s: Option<&str>) -> Option<Seq<char>> {
    match s {
        Some(s) => Some(s@),
        None => None,
    }
}

/// Adds the first `n` rows of a text, in one ink, each with the same indent.
fn push_indented(indent: &str, texts: &Vec<String>, n: usize, ink: Ink, lines: &mut Vec<Line>)
    requires
        n <= texts@.len(),
    ensures
        screen::rows(final(lines)@) == screen::rows(old(lines)@) + indented(
            indent@,
            text::texts(texts@).take(n as int),
            ink,
        ),
{
    let ghost start = screen::rows(lines@);
    let ghost all = text::texts(texts@);
    assert(start + indented(indent@, all.take(0), ink) =~= start);
    for i in 0..n
        invariant
            n <= texts@.len(),
            all == text::texts(texts@),
            screen::rows(lines@) == start + indented(indent@, all.take(i as int), ink),
    {
        let mut row = indent.to_owned();
        row.append(texts[i].as_str());
        push_row(lines, line(row, ink));
        assert(indented(indent@, all.take(i + 1), ink) =~= indented(
            indent@,
            all.take(i as int),
            ink,
        ).push(screen::row(indent@ + all[i as int], ink)));
        assert(screen::rows(lines@) =~= start + indented(indent@, all.take(i + 1), ink));
    }
}

fn push_more(before: &str, n: usize, lines: &mut Vec<Line>)
    ensures
        screen::rows(final(lines)@) == screen::rows(old(lines)@).push(
            screen::row(before@ + text::decimal(n as nat) + " more lines"@, Ink::Dim),
        ),
{
    let mut more = before.to_owned();
    more.append(text::number(n as u128).as_str());
    more.append(" more lines");
    push_row(lines, line(more, Ink::Dim));
}

fn push_detail(detail: &str, width: usize, room: usize, lines: &mut Vec<Line>)
    ensures
        screen::rows(final(lines)@) == screen::rows(old(lines)@) + detail_rows(
            screen::wrapped(text::trim(detail@), text::less(width as nat, 5)),
            room as nat,
        ),
{
    let ghost start = screen::rows(lines@);
    let trimmed = text::trimmed(detail);
    let body = screen::wrap(trimmed.as_str(), text::saturating_less(width, 5));
    let ghost texts = text::texts(body@);
    if body.len() <= room {
        push_indented("     ", &body, body.len(), Ink::Dim, lines);
        assert(texts.take(texts.len() as int) =~= texts);
    } else if room > 0 {
        push_indented("     ", &body, room - 1, Ink::Dim, lines);
        push_more("     and ", body.len() - (room - 1), lines);
        assert(screen::rows(lines@) =~= start + detail_rows(texts, room as nat));
    } else {
        assert(start + detail_rows(texts, room as nat) =~= start);
    }
}

fn push_item(
    item: &Item,
    index: usize,
    picked: bool,
    width: usize,
    room: usize,
    lines: &mut Vec<Line>,
)
    requires
        index < usize::MAX,
    ensures
        screen::rows(final(lines)@) == screen::rows(old(lines)@) + item_rows(
            item@,
            index as nat,
            picked,
            width as nat,
            room as nat,
        ),
{
    let ghost start = screen::rows(lines@);
    let mut row = if picked {
        "> ".to_owned()
    } else {
        "  ".to_owned()
    };
    row.append(text::number((index + 1) as u128).as_str());
    row.append("  ");
    row.append(item.title.as_str());
    if picked {
        push_row(lines, line(row, Ink::Chosen));
        push_detail(item.detail.as_str(), width, room, lines);
    } else {
        push_row(lines, line(row, Ink::Plain));
    }
    assert(screen::rows(lines@) =~= start + item_rows(
        item@,
        index as nat,
        picked,
        width as nat,
        room as nat,
    ));
}

fn push_list(
    prompt: &str,
    items: &Vec<Item>,
    cursor_at: usize,
    width: usize,
    room: usize,
    lines: &mut Vec<Line>,
)
    requires
        old(lines)@.len() == 0,
    ensures
        screen::rows(final(lines)@) == list_part(
            prompt@,
            item_views(items@),
            cursor_at as nat,
            width as nat,
            room as nat,
        ),
{
    let mut title = "  ".to_owned();
    title.append(prompt);
    let ghost head = seq![screen::row("  "@ + prompt@, Ink::Bold), screen::row(""@, Ink::Plain)];
    push_row(lines, line(title, Ink::Bold));
    push_row(lines, line("".to_owned(), Ink::Plain));
    let ghost all = item_views(items@);
    assert(screen::rows(lines@) =~= head);
    assert(head + list_rows(all, cursor_at as nat, width as nat, room as nat, 0) =~= head);
    for i in 0..items.len()
        invariant
            all == item_views(items@),
            screen::rows(lines@) == head + list_rows(
                all,
                cursor_at as nat,
                width as nat,
                room as nat,
                i as nat,
            ),
    {
        push_item(&items[i], i, i == cursor_at, width, room, lines);
        assert(screen::rows(lines@) =~= head + list_rows(
            all,
            cursor_at as nat,
            width as nat,
            room as nat,
            (i + 1) as nat,
        ));
    }
}

fn push_thinking(body: &Vec<String>, height: usize, lines: &mut Vec<Line>)
    ensures
        screen::rows(final(lines)@) == screen::rows(old(lines)@) + thinking_rows(
            text::texts(body@),
            text::less(height as nat, old(lines)@.len() + 6),
        ),
{
    let ghost start = screen::rows(lines@);
    // Room for what is already queued plus the keys below.
    let room = text::saturating_less(text::saturating_less(height, lines.len()), 6);
    let ghost texts = text::texts(body@);
    let shown = if body.len() <= room {
        body.len()
    } else {
        room
    };
    push_indented("    ", body, shown, Ink::Dim, lines);
    assert(texts.take(texts.len() as int) =~= texts);
    if shown < body.len() {
        push_more("    and ", body.len() - shown, lines);
        assert(screen::rows(lines@) =~= start + thinking_rows(texts, room as nat));
    }
}

fn action_list(has_thinking: bool, thinking_open: bool, can_edit: bool) -> (r: Vec<String>)
    ensures
        text::texts(r@) == actions(has_thinking, thinking_open, can_edit),
{
    let mut list: Vec<String> = Vec::new();
    if can_edit {
        list.push("e  edit".to_owned());
    }
    list.push("f  give feedback".to_owned());
    list.push("r  reload".to_owned());
    if has_thinking {
        if thinking_open {
            list.push("t  hide thinking".to_owned());
        } else {
            list.push("t  show thinking".to_owned());
        }
    }
    list.push("q  cancel".to_owned());
    assert(text::texts(list@) =~= actions(has_thinking, thinking_open, can_edit));
    list
}

fn push_keys(has_thinking: bool, can_edit: bool, state: &State, lines: &mut Vec<Line>)
    ensures
        screen::rows(final(lines)@) == screen::rows(old(lines)@) + key_rows(
            has_thinking,
            can_edit,
            state@,
        ),
{
    let ghost start = screen::rows(lines@);
    push_row(lines, line("".to_owned(), Ink::Plain));
    match &state.feedback {
        Some(written) => {
            let mut field = "  feedback: ".to_owned();
            field.append(written.as_str());
            field.append("\u{2588}");
            push_row(lines, line(field, Ink::Accent));
            push_row(lines, line("  enter to send, esc to go back".to_owned(), Ink::Dim));
        },
        None => {
            let list = action_list(has_thinking, state.thinking_open, can_edit);
            let mut row = "  ".to_owned();
            row.append(text::joined(list.as_slice(), "   ").as_str());
            push_row(lines, line(row, Ink::Accent));
            push_row(lines, line("  up and down to move, enter to choose".to_owned(), Ink::Dim));
        },
    }
    assert(screen::rows(lines@) =~= start + key_rows(has_thinking, can_edit, state@));
}

/// The frame that shows the list, in a terminal of this size.
pub fn frame(
    prompt: &str,
    items: &Vec<Item>,
    thinking: Option<&str>,
    can_edit: bool,
    state: &State,
    width: usize,
    height: usize,
) -> (r: Vec<Line>)
    ensures
        screen::rows(r@) == frame_rows(
            prompt@,
            item_views(items@),
            opt_str(thinking),
            can_edit,
            state@,
            width as nat,
            height as nat,
        ),
{
    let mut lines: Vec<Line> = Vec::new();
    let spare = text::saturating_less(text::saturating_less(height, items.len()), 5);
    let mut panel: Option<Vec<String>> = None;
    let mut room = spare;
    if state.thinking_open {
        if let Some(thinking) = thinking {
            let trimmed = text::trimmed(thinking);
            let body = screen::wrap(trimmed.as_str(), text::saturating_less(width, 4));
            let least = if body.len() == 0 {
                1
            } else {
                2
            };
            if spare >= least {
                room = spare - least;
                panel = Some(body);
            }
        }
    }
    push_list(prompt, items, state.cursor_at, width, room, &mut lines);
    if let Some(body) = &panel {
        push_row(&mut lines, line("".to_owned(), Ink::Plain));
        push_thinking(body, height, &mut lines);
    }
    push_keys(thinking.is_some(), can_edit, state, &mut lines);
    lines
}

// ---------------------------------------------------------------------------
// Laws
// ---------------------------------------------------------------------------

/// The cursor stays in the list, and what is chosen is in it.
pub proof fn law_choices_are_in_the_list(
    state: StateView,
    press: Press,
    count: nat,
    has_thinking: bool,
    can_edit: bool,
)
    requires
        state.cursor_at < count,
    ensures
        ({
            let turn = pressed(state, press, count, has_thinking, can_edit);
            &&& turn.state.cursor_at < count
            &&& turn.choice matches Some(ChoiceView::Item(index)) ==> index < count
            &&& turn.choice matches Some(ChoiceView::Edit(index)) ==> index < count && can_edit
        }),
{
}

/// Feedback that is sent is never blank.
pub proof fn law_feedback_says_something(
    state: StateView,
    press: Press,
    count: nat,
    has_thinking: bool,
    can_edit: bool,
)
    ensures
        pressed(state, press, count, has_thinking, can_edit).choice matches Some(
            ChoiceView::Feedback(written),
        ) ==> !text::blank(written),
{
}

/// While feedback is typed, no printable key is a shortcut: it goes into the
/// feedback, and nothing else changes.
pub proof fn law_typing_takes_every_key(
    state: StateView,
    c: char,
    count: nat,
    has_thinking: bool,
    can_edit: bool,
)
    requires
        state.feedback is Some,
    ensures
        pressed(
            state,
            Press { key: Key::Char(c), control: false },
            count,
            has_thinking,
            can_edit,
        ) == stay(StateView { feedback: Some(state.feedback->0.push(c)), ..state }),
{
}

/// The rest of the keys of a list undo each other: the key that shows the thinking
/// hides it again, down undoes up, and backspace undoes what was typed.
pub proof fn law_keys_undo_each_other(
    state: StateView,
    written: Seq<char>,
    c: char,
    count: nat,
    has_thinking: bool,
    can_edit: bool,
)
    requires
        state.cursor_at < count,
        state.feedback is None,
    ensures
        ({
            let t = Press { key: Key::Char('t'), control: false };
            let once = pressed(state, t, count, has_thinking, can_edit).state;
            pressed(once, t, count, has_thinking, can_edit) == stay(state)
        }),
        ({
            let up = Press { key: Key::Up, control: false };
            let down = Press { key: Key::Down, control: false };
            let moved = pressed(state, up, count, has_thinking, can_edit).state;
            pressed(moved, down, count, has_thinking, can_edit) == stay(state)
        }),
        ({
            let writing = StateView { feedback: Some(written), ..state };
            let longer = typed(writing, written, Key::Char(c)).state;
            typed(longer, longer.feedback->0, Key::Backspace) == stay(writing)
        }),
{
    assert(written.push(c).drop_last() =~= written);
}

/// The way out always works.
pub proof fn law_interrupt_cancels(
    state: StateView,
    count: nat,
    has_thinking: bool,
    can_edit: bool,
)
    ensures
        pressed(
            state,
            Press { key: Key::Char('c'), control: true },
            count,
            has_thinking,
            can_edit,
        ).choice == Some(ChoiceView::Cancel),
{
}

proof fn lemma_list_len(items: Seq<ItemView>, cursor_at: nat, width: nat, room: nat, n: nat)
    ensures
        list_rows(items, cursor_at, width, room, n).len() <= n + if cursor_at < n {
            room
        } else {
            0
        },
    decreases n,
{
    if n > 0 {
        lemma_list_len(items, cursor_at, width, room, (n - 1) as nat);
    }
}

/// The panels are trimmed to what fits: wherever the prompt, the titles and the keys
/// fit the terminal, the whole frame does, so the row count that is used to erase it
/// is right.
pub proof fn law_frame_fits(
    prompt: Seq<char>,
    items: Seq<ItemView>,
    thinking: Option<Seq<char>>,
    can_edit: bool,
    state: StateView,
    width: nat,
    height: nat,
)
    requires
        items.len() + 5 <= height,
    ensures
        frame_rows(prompt, items, thinking, can_edit, state, width, height).len() <= height,
{
    let spare = spare_rows(items.len(), height);
    lemma_list_len(items, state.cursor_at, width, spare, items.len());
    if let Some(thinking) = thinking {
        let body = screen::wrapped(text::trim(thinking), text::less(width, 4));
        if spare >= least_rows(body) {
            let room = (spare - least_rows(body)) as nat;
            lemma_list_len(items, state.cursor_at, width, room, items.len());
        }
    }
}

/// Nothing is trimmed that fits: where the whole detail of the highlighted item has
/// room beside the prompt, the titles and the keys, all of it is shown.
pub proof fn law_fitting_detail_is_whole(item: ItemView, index: nat, width: nat, count: nat, height: nat)
    requires
        screen::wrapped(text::trim(item.detail), text::less(width, 5)).len() + count + 5 <= height,
    ensures
        item_rows(item, index, true, width, spare_rows(count, height)).skip(1) == indented(
            "     "@,
            screen::wrapped(text::trim(item.detail), text::less(width, 5)),
            Ink::Dim,
        ),
{
    let body = screen::wrapped(text::trim(item.detail), text::less(width, 5));
    assert(item_rows(item, index, true, width, spare_rows(count, height)).skip(1) =~= indented(
        "     "@,
        body,
        Ink::Dim,
    ));
}

/// A key that is not offered does nothing: without thinking there is nothing to
/// show, and without an editor nothing to open.
pub proof fn law_only_offered_keys_work(
    state: StateView,
    count: nat,
    thinking_open: bool,
    can_edit: bool,
    has_thinking: bool,
    i: int,
)
    requires
        state.feedback is None,
        0 <= i < actions(has_thinking, thinking_open, can_edit).len(),
    ensures
        ({
            let first = actions(has_thinking, thinking_open, can_edit)[i][0];
            &&& !has_thinking ==> first != 't'
            &&& !can_edit ==> first != 'e'
        }),
        !has_thinking ==> pressed(
            state,
            Press { key: Key::Char('t'), control: false },
            count,
            has_thinking,
            can_edit,
        ) == stay(state),
        !can_edit ==> pressed(
            state,
            Press { key: Key::Char('e'), control: false },
            count,
            has_thinking,
            can_edit,
        ) == stay(state),
{
    reveal_strlit("e  edit");
    reveal_strlit("f  give feedback");
    reveal_strlit("r  reload");
    reveal_strlit("t  hide thinking");
    reveal_strlit("t  show thinking");
    reveal_strlit("q  cancel");
}

/// The arrows, the tab and their letters move by one, and from one end to the other;
/// nothing is chosen by moving.
pub proof fn law_keys_move_by_one(
    state: StateView,
    count: nat,
    has_thinking: bool,
    can_edit: bool,
)
    requires
        state.cursor_at < count,
        state.feedback is None,
    ensures
        ({
            let next = stay(
                StateView {
                    cursor_at: if state.cursor_at + 1 < count {
                        state.cursor_at + 1
                    } else {
                        0
                    },
                    ..state
                },
            );
            let back = stay(
                StateView {
                    cursor_at: if state.cursor_at > 0 {
                        (state.cursor_at - 1) as nat
                    } else {
                        (count - 1) as nat
                    },
                    ..state
                },
            );
            &&& pressed(
                state,
                Press { key: Key::Down, control: false },
                count,
                has_thinking,
                can_edit,
            ) == next
            &&& pressed(
                state,
                Press { key: Key::Tab, control: false },
                count,
                has_thinking,
                can_edit,
            ) == next
            &&& pressed(
                state,
                Press { key: Key::Char('j'), control: false },
                count,
                has_thinking,
                can_edit,
            ) == next
            &&& pressed(
                state,
                Press { key: Key::Up, control: false },
                count,
                has_thinking,
                can_edit,
            ) == back
            &&& pressed(
                state,
                Press { key: Key::Char('k'), control: false },
                count,
                has_thinking,
                can_edit,
            ) == back
        }),
{
}

/// What ends the choice: enter takes the item under the cursor, a digit the item of that
/// number where there is one, `e` edits where that can be done, `r` reloads, and `q` and
/// escape give up. No key but these ends it.
pub proof fn law_keys_choose(
    state: StateView,
    press: Press,
    count: nat,
    has_thinking: bool,
    can_edit: bool,
)
    requires
        state.cursor_at < count,
        state.feedback is None,
        !press.control,
    ensures
        ({
            let turn = pressed(state, press, count, has_thinking, can_edit);
            let digit = match press.key {
                Key::Char(c) => c as int - '0' as int,
                _ => 0,
            };
            &&& press.key == Key::Enter ==> turn.choice == Some(ChoiceView::Item(state.cursor_at))
            &&& press.key == Key::Esc || press.key == Key::Char('q') ==> turn.choice == Some(
                ChoiceView::Cancel,
            )
            &&& press.key == Key::Char('r') ==> turn.choice == Some(ChoiceView::Reload)
            &&& press.key == Key::Char('e') && can_edit ==> turn.choice == Some(
                ChoiceView::Edit(state.cursor_at),
            )
            &&& 1 <= digit <= 9 && digit <= count ==> turn.choice == Some(
                ChoiceView::Item((digit - 1) as nat),
            )
            &&& 1 <= digit <= 9 && digit > count ==> turn.choice is None
            &&& turn.choice is Some ==> press.key == Key::Enter || press.key == Key::Esc
                || press.key == Key::Char('q') || press.key == Key::Char('r') || (press.key
                == Key::Char('e') && can_edit) || 1 <= digit <= 9
            &&& turn.choice is Some ==> turn.state == state
        }),
{
}

/// `f` opens an empty field for feedback, `t` shows or hides the thinking where there is
/// some, and a key that means nothing changes nothing.
pub proof fn law_keys_open_and_close(
    state: StateView,
    press: Press,
    count: nat,
    has_thinking: bool,
    can_edit: bool,
)
    requires
        state.cursor_at < count,
        state.feedback is None,
        !press.control,
    ensures
        ({
            let turn = pressed(state, press, count, has_thinking, can_edit);
            &&& press.key == Key::Char('f') ==> turn == stay(
                StateView { feedback: Some(Seq::empty()), ..state },
            )
            &&& press.key == Key::Char('t') && has_thinking ==> turn == stay(
                StateView { thinking_open: !state.thinking_open, ..state },
            )
            &&& press.key == Key::Backspace || press.key == Key::Other ==> turn == stay(state)
            &&& turn.state.feedback != state.feedback ==> press.key == Key::Char('f')
            &&& turn.state.thinking_open != state.thinking_open ==> press.key == Key::Char('t')
                && has_thinking
        }),
{
}

/// In the field, escape closes it without sending, enter sends what was typed, as it was
/// typed, unless that is blank, backspace takes the last character off, and moving does
/// nothing. Neither the cursor nor the thinking changes.
pub proof fn law_feedback_is_sent_as_typed(
    state: StateView,
    written: Seq<char>,
    press: Press,
    count: nat,
    has_thinking: bool,
    can_edit: bool,
)
    requires
        state.feedback == Some(written),
        !press.control,
    ensures
        ({
            let turn = pressed(state, press, count, has_thinking, can_edit);
            &&& press.key == Key::Esc ==> turn == stay(StateView { feedback: None, ..state })
            &&& press.key == Key::Enter && !text::all_white(written) ==> turn.choice == Some(
                ChoiceView::Feedback(written),
            )
            &&& press.key == Key::Enter && text::all_white(written) ==> turn == stay(state)
            &&& press.key == Key::Backspace && written.len() > 0 ==> turn == stay(
                StateView { feedback: Some(written.take(written.len() - 1)), ..state },
            )
            &&& press.key == Key::Up || press.key == Key::Down || press.key == Key::Tab
                || press.key == Key::Other ==> turn == stay(state)
            &&& turn.state.cursor_at == state.cursor_at
            &&& turn.state.thinking_open == state.thinking_open
            &&& turn.choice is Some ==> press.key == Key::Enter
        }),
{
    text::law_trim_takes_white_space_off_the_ends(written);
    if written.len() > 0 {
        assert(written.drop_last() =~= written.take(written.len() - 1));
    }
}

/// Every item has its row, with its number and its title; the one under the cursor is
/// marked, and no other is.
pub proof fn law_every_item_is_listed(
    items: Seq<ItemView>,
    cursor_at: nat,
    width: nat,
    room: nat,
    n: nat,
    i: int,
)
    requires
        0 <= i < n <= items.len(),
    ensures
        list_rows(items, cursor_at, width, room, n).contains(
            if i == cursor_at {
                screen::row("> "@ + text::decimal((i + 1) as nat) + "  "@ + items[i].title, Ink::Chosen)
            } else {
                screen::row("  "@ + text::decimal((i + 1) as nat) + "  "@ + items[i].title, Ink::Plain)
            },
        ),
        list_rows(items, cursor_at, width, room, n) == list_rows(
            items,
            cursor_at,
            width,
            room,
            (n - 1) as nat,
        ) + item_rows(items[n - 1], (n - 1) as nat, n - 1 == cursor_at, width, room),
        i != cursor_at ==> item_rows(items[i], i as nat, false, width, room).len() == 1,
    decreases n,
{
    let all = list_rows(items, cursor_at, width, room, n);
    let before = list_rows(items, cursor_at, width, room, (n - 1) as nat);
    let here = item_rows(items[n - 1], (n - 1) as nat, n - 1 == cursor_at, width, room);
    let want = if i == cursor_at {
        screen::row("> "@ + text::decimal((i + 1) as nat) + "  "@ + items[i].title, Ink::Chosen)
    } else {
        screen::row("  "@ + text::decimal((i + 1) as nat) + "  "@ + items[i].title, Ink::Plain)
    };
    if i == n - 1 {
        assert(here[0] == want);
        assert(all[before.len() as int] == want);
    } else {
        law_every_item_is_listed(items, cursor_at, width, room, (n - 1) as nat, i);
        let at = choose|at: int| 0 <= at < before.len() && before[at] == want;
        assert(all[at] == want);
    }
}

/// Of details that do not fit, the lines that are shown and those that are said to be more
/// are all there are, and the rows fill the room.
pub proof fn law_details_add_up(body: Seq<Seq<char>>, room: nat, i: int)
    ensures
        body.len() <= room ==> detail_rows(body, room).len() == body.len(),
        body.len() > room ==> detail_rows(body, room).len() == room,
        0 <= i < body.len() && body.len() <= room ==> detail_rows(body, room)[i] == screen::row(
            "     "@ + body[i],
            Ink::Dim,
        ),
        0 <= i < room - 1 && body.len() > room ==> detail_rows(body, room)[i] == screen::row(
            "     "@ + body[i],
            Ink::Dim,
        ),
        body.len() > room && room > 0 ==> detail_rows(body, room).last() == screen::row(
            "     and "@ + text::decimal((body.len() - (room - 1)) as nat) + " more lines"@,
            Ink::Dim,
        ),
{
}

/// Of thinking that does not fit, the lines that are shown and those that are said to be
/// more are all there are.
pub proof fn law_thinking_adds_up(body: Seq<Seq<char>>, room: nat, i: int)
    ensures
        body.len() <= room ==> thinking_rows(body, room).len() == body.len(),
        body.len() > room ==> thinking_rows(body, room).len() == room + 1,
        0 <= i < body.len() && i < room ==> thinking_rows(body, room)[i] == screen::row(
            "    "@ + body[i],
            Ink::Dim,
        ),
        body.len() > room ==> thinking_rows(body, room).last() == screen::row(
            "    and "@ + text::decimal((body.len() - room) as nat) + " more lines"@,
            Ink::Dim,
        ),
{
}

/// The keys that are listed are those that do something: editing where that can be done,
/// the thinking where there is some, and the others always.
pub proof fn law_keys_are_listed(has_thinking: bool, thinking_open: bool, can_edit: bool)
    ensures
        ({
            let keys = actions(has_thinking, thinking_open, can_edit);
            &&& keys.contains("e  edit"@) <==> can_edit
            &&& keys.contains("t  show thinking"@) <==> has_thinking && !thinking_open
            &&& keys.contains("t  hide thinking"@) <==> has_thinking && thinking_open
            &&& keys.contains("f  give feedback"@)
            &&& keys.contains("r  reload"@)
            &&& keys.last() == "q  cancel"@
            &&& keys.len() == 3 + (if can_edit {
                1int
            } else {
                0
            }) + (if has_thinking {
                1int
            } else {
                0
            })
        }),
{
    reveal_strlit("e  edit");
    reveal_strlit("t  show thinking");
    reveal_strlit("t  hide thinking");
    reveal_strlit("f  give feedback");
    reveal_strlit("r  reload");
    reveal_strlit("q  cancel");
    assert("e  edit"@[0] == 'e' && "t  show thinking"@[0] == 't' && "t  hide thinking"@[0] == 't'
        && "f  give feedback"@[0] == 'f' && "r  reload"@[0] == 'r' && "q  cancel"@[0] == 'q'
        && "t  show thinking"@[3] == 's' && "t  hide thinking"@[3] == 'h');
    let keys = actions(has_thinking, thinking_open, can_edit);
    let e = if can_edit {
        1int
    } else {
        0int
    };
    if can_edit {
        assert(keys[0] == "e  edit"@);
    }
    assert(keys[e] == "f  give feedback"@);
    assert(keys[e + 1] == "r  reload"@);
    if has_thinking && thinking_open {
        assert(keys[e + 2] == "t  hide thinking"@);
    }
    if has_thinking && !thinking_open {
        assert(keys[e + 2] == "t  show thinking"@);
    }
}

/// The screen starts with the question, and ends with the keys, or with what is being
/// typed, in full.
pub proof fn law_frame_asks_and_tells_the_keys(
    prompt: Seq<char>,
    items: Seq<ItemView>,
    thinking: Option<Seq<char>>,
    can_edit: bool,
    state: StateView,
    width: nat,
    height: nat,
)
    ensures
        ({
            let rows = frame_rows(prompt, items, thinking, can_edit, state, width, height);
            &&& rows.len() >= 5
            &&& rows[0] == screen::row("  "@ + prompt, Ink::Bold)
            &&& state.feedback matches Some(written) ==> rows[rows.len() - 2] == screen::row(
                "  feedback: "@ + written + "\u{2588}"@,
                Ink::Accent,
            )
            &&& state.feedback matches Some(written) ==> rows.last() == screen::row(
                "  enter to send, esc to go back"@,
                Ink::Dim,
            )
            &&& state.feedback is None ==> rows[rows.len() - 2] == screen::row(
                "  "@ + text::join(
                    actions(thinking is Some, state.thinking_open, can_edit),
                    "   "@,
                ),
                Ink::Accent,
            )
            &&& state.feedback is None ==> rows.last() == screen::row(
                "  up and down to move, enter to choose"@,
                Ink::Dim,
            )
        }),
{
}

/// The thinking is on the screen where it is open and there is room for it, behind the
/// items; and where it is closed, or there is none, the items have all the room.
pub proof fn law_open_thinking_is_shown(
    prompt: Seq<char>,
    items: Seq<ItemView>,
    thinking: Option<Seq<char>>,
    state: StateView,
    width: nat,
    height: nat,
)
    ensures
        thinking is None || !state.thinking_open ==> upper_part(
            prompt,
            items,
            thinking,
            state,
            width,
            height,
        ) == list_part(
            prompt,
            items,
            state.cursor_at,
            width,
            if height > items.len() + 5 {
                (height - items.len() - 5) as nat
            } else {
                0
            },
        ),
        (thinking matches Some(thought) && state.thinking_open && height >= items.len() + 7) ==> {
            let body = screen::wrapped(
                text::trim(thinking->0),
                if width >= 4 {
                    (width - 4) as nat
                } else {
                    0
                },
            );
            let room = height - items.len() - 5 - (if body.len() == 0 {
                1int
            } else {
                2int
            });
            let above = list_part(prompt, items, state.cursor_at, width, room as nat).push(
                screen::row(""@, Ink::Plain),
            );
            upper_part(prompt, items, thinking, state, width, height) == above + thinking_rows(
                body,
                if height >= above.len() + 6 {
                    (height - above.len() - 6) as nat
                } else {
                    0
                },
            )
        },
{
}

/// The item under the cursor shows its detail below its title, wrapped to the width that
/// the indent leaves and cut to the room there is; and the list is the question, a blank
/// row, and every item.
pub proof fn law_detail_follows_its_title(
    prompt: Seq<char>,
    items: Seq<ItemView>,
    item: ItemView,
    index: nat,
    cursor_at: nat,
    width: nat,
    room: nat,
)
    ensures
        item_rows(item, index, true, width, room).drop_first() == detail_rows(
            screen::wrapped(
                text::trim(item.detail),
                if width >= 5 {
                    (width - 5) as nat
                } else {
                    0
                },
            ),
            room,
        ),
        list_part(prompt, items, cursor_at, width, room) == seq![
            screen::row("  "@ + prompt, Ink::Bold),
            screen::row(Seq::empty(), Ink::Plain),
        ] + list_rows(items, cursor_at, width, room, items.len()),
{
    reveal_strlit("");
    assert(""@ =~= Seq::<char>::empty());
    assert(item_rows(item, index, true, width, room).drop_first() =~= detail_rows(
        screen::wrapped(text::trim(item.detail), text::less(width, 5)),
        room,
    ));
}

/// What is said of a list of items is what each of them holds, one for one.
pub proof fn law_items_say_what_they_hold(items: Seq<Item>, i: int)
    ensures
        item_views(items).len() == items.len(),
        0 <= i < items.len() ==> item_views(items)[i] == (ItemView {
            title: items[i].title@,
            detail: items[i].detail@,
        }),
{
}

} // verus!
