//! Rows of text for a terminal: how they are broken, cut and coloured.

use crate::text;
use vstd::prelude::*;

verus! {

/// How a piece of a row looks.
#[derive(Debug, Clone, Copy, PartialEq, Eq, Structural)]
pub enum Ink {
    Plain,
    Dim,
    Bold,
    Accent,
    Chosen,
    Added,
    Removed,
}

/// A colour.
#[derive(Debug, Clone, Copy, PartialEq, Eq, Structural)]
pub enum Hue {
    Cyan,
    Green,
    Red,
}

/// What a terminal is told for an ink.
#[derive(Debug, Clone, Copy, PartialEq, Eq, Structural)]
pub struct Look {
    pub hue: Option<Hue>,
    pub bold: bool,
    pub dim: bool,
}

/// What a terminal is told for an ink.
pub open spec fn ink_look(ink: Ink) -> Look {
    Look {
        hue: match ink {
            Ink::Accent => Some(Hue::Cyan),
            Ink::Chosen => Some(Hue::Cyan),
            Ink::Added => Some(Hue::Green),
            Ink::Removed => Some(Hue::Red),
            _ => None,
        },
        bold: ink == Ink::Bold || ink == Ink::Chosen,
        dim: ink == Ink::Dim,
    }
}

/// What a terminal is told for an ink.
pub fn look(ink: Ink) -> (r: Look)
    ensures
        r == ink_look(ink),
{
    Look {
        hue: match ink {
            Ink::Accent => Some(Hue::Cyan),
            Ink::Chosen => Some(Hue::Cyan),
            Ink::Added => Some(Hue::Green),
            Ink::Removed => Some(Hue::Red),
            _ => None,
        },
        bold: ink == Ink::Bold || ink == Ink::Chosen,
        dim: ink == Ink::Dim,
    }
}

/// A piece of a row, in one ink.
#[derive(Debug)]
pub struct Span {
    pub text: String,
    pub ink: Ink,
}

/// What a [`Span`] says.
pub struct SpanView {
    pub text: Seq<char>,
    pub ink: Ink,
}

impl View for Span {
    type V = SpanView;

    open spec fn view(&self) -> SpanView {
        SpanView { text: self.text@, ink: self.ink }
    }
}

/// One row of a frame, in as many inks as it needs. A tree row carries its
/// path in one ink and its counts in two others, so a row cannot be a single
/// string with a single colour.
#[derive(Debug)]
pub struct Line(pub Vec<Span>);

impl View for Line {
    type V = Seq<SpanView>;

    open spec fn view(&self) -> Seq<SpanView> {
        Seq::new(self.0@.len(), |i: int| self.0@[i]@)
    }
}

/// What the rows of a frame say.
pub open spec fn rows(lines: Seq<Line>) -> Seq<Seq<SpanView>> {
    Seq::new(lines.len(), |i: int| lines[i]@)
}

/// A row in one ink.
pub open spec fn row(text: Seq<char>, ink: Ink) -> Seq<SpanView> {
    seq![SpanView { text, ink }]
}

/// A row in one ink.
pub fn line(text: String, ink: Ink) -> (r: Line)
    ensures
        r@ == row(text@, ink),
{
    let r = Line(vec![Span { text, ink }]);
    assert(r@ =~= row(text@, ink));
    r
}

impl Line {
    /// The row with one more piece after it.
    pub fn with(self, text: String, ink: Ink) -> (r: Self)
        ensures
            r@ == self@ + row(text@, ink),
    {
        let mut spans = self.0;
        let ghost before = spans@;
        spans.push(Span { text, ink });
        let r = Line(spans);
        assert(r@ =~= self@ + row(text@, ink));
        r
    }
}

/// Adds a row to a frame.
pub fn push_row(lines: &mut Vec<Line>, line: Line)
    ensures
        rows(final(lines)@) == rows(old(lines)@).push(line@),
{
    lines.push(line);
    assert(rows(lines@) =~= rows(old(lines)@).push(line@));
}

/// The room a frame has to work with, in a terminal that says it has so many
/// columns and rows. Both are floored, because a frame drawn for a two row
/// terminal is worse than one that overflows it.
pub fn size(columns: u16, rows: u16) -> (r: (usize, usize))
    ensures
        r.0 == if columns < 40 {
            40
        } else {
            columns as int
        },
        r.1 == if rows < 10 {
            10
        } else {
            rows as int
        },
{
    let width: usize = if columns < 40 {
        40
    } else {
        columns as usize
    };
    let height: usize = if rows < 10 {
        10
    } else {
        rows as usize
    };
    (width, height)
}

// ---------------------------------------------------------------------------
// Cutting
// ---------------------------------------------------------------------------

/// A text cut to a width, counting characters. What is too long loses one
/// character more than it must.
pub open spec fn cut_text(s: Seq<char>, width: nat) -> Seq<char> {
    if s.len() <= width {
        s
    } else if width == 0 {
        Seq::empty()
    } else {
        s.take(width - 1)
    }
}

/// Truncates on a character boundary, counting characters rather than bytes so
/// a multi byte character is never cut in half.
pub fn cut(text: &str, width: usize) -> (r: String)
    ensures
        r@ == cut_text(text@, width as nat),
{
    let v = text::chars_of(text);
    if v.len() <= width {
        return text.to_owned();
    }
    let keep = if width == 0 {
        0
    } else {
        width - 1
    };
    let r = text::substring(&v, 0, keep);
    assert(r@ =~= cut_text(text@, width as nat));
    r
}

/// The first pieces of a row, as far as so many columns go.
pub open spec fn clipped(spans: Seq<SpanView>, left: nat) -> Seq<SpanView>
    decreases spans.len(),
{
    if spans.len() == 0 || left == 0 {
        Seq::empty()
    } else {
        let shown = cut_text(spans[0].text, left);
        seq![SpanView { text: shown, ink: spans[0].ink }] + clipped(
            spans.drop_first(),
            (left - shown.len()) as nat,
        )
    }
}

/// The rows of a frame as they are drawn.
pub open spec fn clipped_rows(lines: Seq<Seq<SpanView>>, width: nat) -> Seq<Seq<SpanView>> {
    Seq::new(lines.len(), |i: int| clipped(lines[i], width))
}

/// How many columns a row takes.
pub open spec fn columns(spans: Seq<SpanView>) -> nat
    decreases spans.len(),
{
    if spans.len() == 0 {
        0
    } else {
        spans[0].text.len() + columns(spans.drop_first())
    }
}

/// A row that fits in so many columns, as much of it as goes in.
fn clip(line: &Line, width: usize) -> (r: Line)
    ensures
        r@ == clipped(line@, width as nat),
{
    let mut out: Vec<Span> = Vec::new();
    let mut left: usize = width;
    let ghost all = line@;
    let ghost shown: Seq<SpanView> = Seq::empty();
    assert(all.skip(0) =~= all);
    assert(shown + clipped(all, left as nat) =~= clipped(all, left as nat));
    let total = line.0.len();
    let mut i: usize = 0;
    while i < total && left > 0
        invariant
            total == line.0@.len(),
            i <= total,
            all == line@,
            shown =~= Seq::new(out@.len(), |j: int| out@[j]@),
            shown + clipped(all.skip(i as int), left as nat) == clipped(all, width as nat),
        decreases total - i,
    {
        let ghost rest = all.skip(i as int);
        let ghost before = shown;
        let span = &line.0[i];
        let text = cut(span.text.as_str(), left);
        let used = text::char_count(text.as_str());
        let ghost view = SpanView { text: text@, ink: span.ink };
        assert(rest[0] == span@);
        assert(rest.drop_first() =~= all.skip(i + 1));
        out.push(Span { text, ink: span.ink });
        proof {
            shown = before.push(view);
            assert(before + (seq![view] + clipped(rest.drop_first(), (left - used) as nat))
                =~= shown + clipped(rest.drop_first(), (left - used) as nat));
        }
        left = left - used;
        i = i + 1;
    }
    assert(clipped(all.skip(i as int), left as nat) =~= Seq::empty());
    assert(shown + Seq::<SpanView>::empty() =~= shown);
    let r = Line(out);
    assert(r@ =~= shown);
    r
}

/// What is drawn for a frame in so many columns: every row, cut at the right edge.
pub fn paint(lines: &Vec<Line>, width: usize) -> (r: Vec<Line>)
    ensures
        rows(r@) == clipped_rows(rows(lines@), width as nat),
{
    let mut out: Vec<Line> = Vec::new();
    for i in 0..lines.len()
        invariant
            out.len() == i,
            forall|j: int|
                0 <= j < i ==> #[trigger] out@[j]@ == clipped(lines@[j]@, width as nat),
    {
        out.push(clip(&lines[i], width));
    }
    assert(rows(out@) =~= clipped_rows(rows(lines@), width as nat));
    out
}

// ---------------------------------------------------------------------------
// Wrapping
// ---------------------------------------------------------------------------

/// The rows that words fill, each taking as many as fit; `current` is on the first
/// already.
pub open spec fn filled(words: Seq<Seq<char>>, current: Seq<char>, width: nat) -> Seq<Seq<char>>
    decreases words.len(),
{
    if words.len() == 0 {
        seq![current]
    } else if current.len() == 0 {
        filled(words.drop_first(), words[0], width)
    } else if current.len() + 1 + words[0].len() > width {
        seq![current] + filled(words.drop_first(), words[0], width)
    } else {
        filled(words.drop_first(), current + " "@ + words[0], width)
    }
}

/// The rows that paragraphs fill, one after the other.
pub open spec fn wrapped_lines(paragraphs: Seq<Seq<char>>, width: nat) -> Seq<Seq<char>>
    decreases paragraphs.len(),
{
    if paragraphs.len() == 0 {
        Seq::empty()
    } else {
        wrapped_lines(paragraphs.drop_last(), width) + filled(
            text::words(paragraphs.last()),
            Seq::empty(),
            width,
        )
    }
}

/// The width that rows are wrapped at, at least twenty columns.
pub open spec fn wrap_width(width: nat) -> nat {
    if width < 20 {
        20
    } else {
        width
    }
}

/// Greedy word wrap.
pub open spec fn wrapped(s: Seq<char>, width: nat) -> Seq<Seq<char>> {
    wrapped_lines(text::lines(s), wrap_width(width))
}

/// Fills rows with the words of one paragraph.
fn fill(paragraph: &str, width: usize, out: &mut Vec<String>)
    ensures
        text::texts(final(out)@) == text::texts(old(out)@) + filled(
            text::words(paragraph@),
            Seq::empty(),
            width as nat,
        ),
{
    let words = text::words_of(paragraph);
    let ghost all = text::texts(words@);
    let ghost start = text::texts(out@);
    let ghost whole = filled(all, Seq::empty(), width as nat);
    let mut current = String::new();
    assert(current@ =~= Seq::empty());
    assert(all.skip(0) =~= all);
    for i in 0..words.len()
        invariant
            all == text::texts(words@),
            text::texts(out@) + filled(all.skip(i as int), current@, width as nat) == start + whole,
    {
        let ghost rest = all.skip(i as int);
        let ghost before = text::texts(out@);
        assert(rest[0] == words@[i as int]@);
        assert(rest.drop_first() =~= all.skip(i + 1));
        let have = text::char_count(current.as_str());
        let need = text::char_count(words[i].as_str());
        if have == 0 {
            current = words[i].clone();
        } else if have >= width || need > width - have - 1 {
            let ghost old_out = out@;
            let ghost done = current@;
            out.push(current);
            assert(text::texts(out@) =~= before.push(done));
            current = words[i].clone();
            assert(before + (seq![done] + filled(rest.drop_first(), rest[0], width as nat))
                =~= text::texts(out@) + filled(rest.drop_first(), rest[0], width as nat));
        } else {
            current.append(" ");
            current.append(words[i].as_str());
        }
    }
    assert(all.skip(all.len() as int) =~= Seq::empty());
    let ghost before = text::texts(out@);
    let ghost done = current@;
    out.push(current);
    assert(text::texts(out@) =~= before + seq![done]);
}

/// Greedy word wrap. Existing line breaks are kept, because a commit body uses
/// them to separate paragraphs.
pub fn wrap(text: &str, width: usize) -> (r: Vec<String>)
    ensures
        text::texts(r@) == wrapped(text@, width as nat),
{
    let width: usize = if width < 20 {
        20
    } else {
        width
    };
    let mut out: Vec<String> = Vec::new();
    let paragraphs = text::lines_of(text);
    let ghost all = text::texts(paragraphs@);
    assert(text::texts(out@) =~= wrapped_lines(all.take(0), width as nat));
    for i in 0..paragraphs.len()
        invariant
            all == text::texts(paragraphs@),
            text::texts(out@) == wrapped_lines(all.take(i as int), width as nat),
    {
        fill(paragraphs[i].as_str(), width, &mut out);
        assert(all.take(i + 1).drop_last() =~= all.take(i as int));
        assert(all.take(i + 1).last() == paragraphs@[i as int]@);
    }
    assert(all.take(all.len() as int) =~= all);
    out
}

// ---------------------------------------------------------------------------
// Text that was written as it is
// ---------------------------------------------------------------------------

/// How many rows of a terminal a line takes that the terminal breaks. Each character
/// takes one column, and an empty line takes a row.
pub open spec fn rows_of_line(len: nat, width: nat) -> nat {
    if len == 0 || width == 0 {
        1
    } else {
        (len - 1) as nat / width + 1
    }
}

/// How many rows lines take.
pub open spec fn rows_of_lines(lines: Seq<Seq<char>>, width: nat) -> nat
    decreases lines.len(),
{
    if lines.len() == 0 {
        0
    } else {
        rows_of_lines(lines.drop_last(), width) + rows_of_line(lines.last().len(), width)
    }
}

/// How many rows of a terminal of this width a text takes that was written to it, the
/// one that the cursor is left on among them, as far as they can be counted.
pub fn rows_taken(written: &str, width: usize) -> (r: usize)
    ensures
        r == if rows_of_lines(text::split(written@, '\n'), width as nat) <= usize::MAX {
            rows_of_lines(text::split(written@, '\n'), width as nat)
        } else {
            usize::MAX as nat
        },
{
    let lines = text::split_on(written, '\n');
    let ghost all = text::texts(lines@);
    let mut rows: usize = 0;
    for i in 0..lines.len()
        invariant
            all == text::texts(lines@),
            rows == if rows_of_lines(all.take(i as int), width as nat) <= usize::MAX {
                rows_of_lines(all.take(i as int), width as nat)
            } else {
                usize::MAX as nat
            },
    {
        assert(all.take(i + 1).drop_last() =~= all.take(i as int));
        assert(all.take(i + 1).last() == lines@[i as int]@);
        let len = text::char_count(lines[i].as_str());
        let more = if len == 0 || width == 0 {
            1
        } else {
            assert((len - 1) as nat / width as nat <= len - 1) by (nonlinear_arith)
                requires
                    len > 0,
                    width > 0,
            ;
            (len - 1) / width + 1
        };
        rows = if more <= usize::MAX - rows {
            rows + more
        } else {
            usize::MAX
        };
    }
    assert(all.take(all.len() as int) =~= all);
    rows
}

// ---------------------------------------------------------------------------
// Laws
// ---------------------------------------------------------------------------

/// A cut text is a beginning of the text that fits the width, and the whole text
/// where that fits.
pub proof fn law_cut_fits(s: Seq<char>, width: nat)
    ensures
        cut_text(s, width).len() <= width,
        cut_text(s, width) == s.take(cut_text(s, width).len() as int),
        s.len() <= width ==> cut_text(s, width) == s,
{
    assert(s.take(s.len() as int) =~= s);
    assert(s.take(0) =~= Seq::empty());
}

/// No row that is drawn goes past the right edge.
pub proof fn law_clipped_rows_fit(spans: Seq<SpanView>, left: nat)
    ensures
        columns(clipped(spans, left)) <= left,
    decreases spans.len(),
{
    if spans.len() > 0 && left > 0 {
        let shown = cut_text(spans[0].text, left);
        let rest = clipped(spans.drop_first(), (left - shown.len()) as nat);
        law_clipped_rows_fit(spans.drop_first(), (left - shown.len()) as nat);
        let out = clipped(spans, left);
        assert(out.drop_first() =~= rest);
    }
}

/// A row that fits is drawn as it is.
pub proof fn law_fitting_rows_are_whole(spans: Seq<SpanView>, left: nat)
    requires
        columns(spans) < left,
    ensures
        clipped(spans, left) == spans,
    decreases spans.len(),
{
    if spans.len() > 0 {
        law_fitting_rows_are_whole(spans.drop_first(), (left - spans[0].text.len()) as nat);
        assert(seq![spans[0]] + spans.drop_first() =~= spans);
    }
}

/// A wrapped row fits the width, unless it is one word that does not.
pub proof fn law_wrapped_rows_fit(
    words: Seq<Seq<char>>,
    current: Seq<char>,
    width: nat,
    i: int,
)
    requires
        current.len() <= width || words.contains(current),
        0 <= i < filled(words, current, width).len(),
    ensures
        filled(words, current, width)[i].len() <= width || words.contains(
            filled(words, current, width)[i],
        ),
{
    lemma_fill_fits(words, words, current, width, i);
}

proof fn lemma_fill_fits(
    all: Seq<Seq<char>>,
    words: Seq<Seq<char>>,
    current: Seq<char>,
    width: nat,
    i: int,
)
    requires
        forall|j: int| 0 <= j < words.len() ==> all.contains(#[trigger] words[j]),
        current.len() <= width || all.contains(current),
        0 <= i < filled(words, current, width).len(),
    ensures
        filled(words, current, width)[i].len() <= width || all.contains(
            filled(words, current, width)[i],
        ),
    decreases words.len(),
{
    if words.len() > 0 {
        let rest = words.drop_first();
        assert forall|j: int| 0 <= j < rest.len() implies all.contains(#[trigger] rest[j]) by {
            assert(rest[j] == words[j + 1]);
        }
        assert(all.contains(words[0]));
        if current.len() == 0 {
            lemma_fill_fits(all, rest, words[0], width, i);
        } else if current.len() + 1 + words[0].len() > width {
            if i > 0 {
                lemma_fill_fits(all, rest, words[0], width, i - 1);
            }
        } else {
            reveal_strlit(" ");
            lemma_fill_fits(all, rest, current + " "@ + words[0], width, i);
        }
    }
}

/// Wrapping loses no word, adds none and keeps their order: the rows of a
/// paragraph, joined with spaces, are its words, joined with spaces.
pub proof fn law_wrapping_keeps_words(paragraph: Seq<char>, width: nat)
    ensures
        text::join(filled(text::words(paragraph), Seq::empty(), width), " "@) == text::join(
            text::words(paragraph),
            " "@,
        ),
{
    text::lemma_words(paragraph);
    lemma_fill_keeps_words(text::words(paragraph), Seq::empty(), width);
}

proof fn lemma_fill_keeps_words(words: Seq<Seq<char>>, current: Seq<char>, width: nat)
    requires
        forall|j: int| 0 <= j < words.len() ==> #[trigger] words[j].len() > 0,
    ensures
        filled(words, current, width).len() > 0,
        text::join(filled(words, current, width), " "@) == if current.len() == 0 {
            text::join(words, " "@)
        } else if words.len() == 0 {
            current
        } else {
            current + " "@ + text::join(words, " "@)
        },
    decreases words.len(),
{
    let out = filled(words, current, width);
    if words.len() > 0 {
        let first = words[0];
        let rest = words.drop_first();
        assert forall|j: int| 0 <= j < rest.len() implies #[trigger] rest[j].len() > 0 by {
            assert(rest[j] == words[j + 1]);
        }
        assert(first.len() > 0);
        assert(words =~= seq![first] + rest);
        text::lemma_join_front(first, rest, " "@);
        lemma_fill_keeps_words(rest, first, width);
        if current.len() > 0 {
            if current.len() + 1 + first.len() > width {
                text::lemma_join_front(current, filled(rest, first, width), " "@);
            } else {
                let longer = current + " "@ + first;
                lemma_fill_keeps_words(rest, longer, width);
                if rest.len() > 0 {
                    let more = text::join(rest, " "@);
                    assert(longer + " "@ + more =~= current + " "@ + (first + " "@ + more));
                }
            }
        }
    } else if current.len() == 0 {
        assert(current =~= text::join(words, " "@));
    }
}

/// Every paragraph keeps a row of its own, even an empty one.
pub proof fn law_line_breaks_are_kept(paragraphs: Seq<Seq<char>>, width: nat)
    ensures
        wrapped_lines(paragraphs, width).len() >= paragraphs.len(),
    decreases paragraphs.len(),
{
    if paragraphs.len() > 0 {
        law_line_breaks_are_kept(paragraphs.drop_last(), width);
        text::lemma_words(paragraphs.last());
        lemma_fill_keeps_words(text::words(paragraphs.last()), Seq::empty(), width);
    }
}

/// Wrapping is greedy: a row ends only where the word that begins the next one
/// would not have fitted on it.
pub proof fn law_wrapping_is_greedy(words: Seq<Seq<char>>, current: Seq<char>, width: nat, i: int)
    requires
        forall|j: int| 0 <= j < words.len() ==> #[trigger] words[j].len() > 0,
        0 <= i < filled(words, current, width).len() - 1,
    ensures
        exists|j: int|
            0 <= j < words.len() && text::starts_with(
                filled(words, current, width)[i + 1],
                #[trigger] words[j],
            ) && filled(words, current, width)[i].len() + 1 + words[j].len() > width,
    decreases words.len(),
{
    let out = filled(words, current, width);
    let first = words[0];
    let rest = words.drop_first();
    assert forall|j: int| 0 <= j < rest.len() implies #[trigger] rest[j].len() > 0 by {
        assert(rest[j] == words[j + 1]);
    }
    assert(first.len() > 0);
    let (line, at) = if current.len() == 0 {
        (first, i)
    } else if current.len() + 1 + first.len() > width {
        (first, i - 1)
    } else {
        (current + " "@ + first, i)
    };
    if at >= 0 {
        law_wrapping_is_greedy(rest, line, width, at);
        let j = choose|j: int|
            0 <= j < rest.len() && text::starts_with(
                filled(rest, line, width)[at + 1],
                #[trigger] rest[j],
            ) && filled(rest, line, width)[at].len() + 1 + rest[j].len() > width;
        assert(words[j + 1] == rest[j]);
    } else {
        lemma_first_row(rest, first, width);
        assert(words[0] == first);
    }
}

proof fn lemma_first_row(words: Seq<Seq<char>>, current: Seq<char>, width: nat)
    requires
        current.len() > 0,
    ensures
        filled(words, current, width).len() > 0,
        text::starts_with(filled(words, current, width)[0], current),
    decreases words.len(),
{
    let row = filled(words, current, width)[0];
    if words.len() == 0 || current.len() + 1 + words[0].len() > width {
        assert(row.take(current.len() as int) =~= current);
    } else {
        let longer = current + " "@ + words[0];
        lemma_first_row(words.drop_first(), longer, width);
        assert(longer.take(current.len() as int) =~= current);
        assert(row.take(current.len() as int) =~= row.take(longer.len() as int).take(
            current.len() as int,
        ));
    }
}

/// Each ink has a look of its own: the accent is cyan and what is chosen is that and bold,
/// what is added is green, what is removed is red.
pub proof fn law_inks_are_told_apart(a: Ink, b: Ink)
    ensures
        ink_look(a) == ink_look(b) ==> a == b,
        ink_look(a).bold <==> a == Ink::Bold || a == Ink::Chosen,
        ink_look(a).dim <==> a == Ink::Dim,
        ink_look(a).hue == Some(Hue::Cyan) <==> a == Ink::Accent || a == Ink::Chosen,
        ink_look(a).hue == Some(Hue::Green) <==> a == Ink::Added,
        ink_look(a).hue == Some(Hue::Red) <==> a == Ink::Removed,
{
}

/// A text that is too long is cut to one character less than there is room for.
pub proof fn law_cut_leaves_one_free(s: Seq<char>, width: nat)
    ensures
        s.len() > width && width > 0 ==> cut_text(s, width).len() == width - 1 && text::starts_with(
            s,
            cut_text(s, width),
        ),
        s.len() > width && width == 0 ==> cut_text(s, width).len() == 0,
        s.len() <= width ==> cut_text(s, width) == s,
{
}

/// Spans take up columns one after the other.
pub proof fn law_columns_add_up(a: Seq<SpanView>, b: Seq<SpanView>, text: Seq<char>, ink: Ink)
    ensures
        columns(a + b) == columns(a) + columns(b),
        columns(row(text, ink)) == text.len(),
        columns(Seq::empty()) == 0,
    decreases a.len(),
{
    reveal_with_fuel(columns, 2);
    assert(row(text, ink).drop_first() =~= Seq::<SpanView>::empty());
    if a.len() == 0 {
        assert(a + b =~= b);
    } else {
        law_columns_add_up(a.drop_first(), b, text, ink);
        assert((a + b).drop_first() =~= a.drop_first() + b);
    }
}

/// A row is clipped from its end: the spans that fit stay as they are, and what follows is
/// clipped to the room that they leave. No span changes its ink.
pub proof fn law_rows_are_clipped_from_the_end(a: Seq<SpanView>, b: Seq<SpanView>, left: nat)
    ensures
        columns(a) < left ==> clipped(a + b, left) == a + clipped(b, (left - columns(a)) as nat),
        clipped(b, 0).len() == 0,
        left > 0 && b.len() > 0 ==> clipped(b, left).len() > 0 && clipped(b, left)[0] == (
        SpanView { text: cut_text(b[0].text, left), ink: b[0].ink }),
    decreases a.len(),
{
    if columns(a) < left {
        if a.len() == 0 {
            assert(a + b =~= b);
            assert(a + clipped(b, left) =~= clipped(b, left));
        } else {
            let rest = a.drop_first();
            law_rows_are_clipped_from_the_end(rest, b, (left - a[0].text.len()) as nat);
            assert((a + b).drop_first() =~= rest + b);
            assert(clipped(a + b, left) =~= a + clipped(b, (left - columns(a)) as nat));
        }
    }
}

/// A text is wrapped line by line, and each line by itself, word by word. There is always
/// room for twenty characters.
pub proof fn law_lines_are_wrapped_one_by_one(
    a: Seq<Seq<char>>,
    b: Seq<Seq<char>>,
    line: Seq<char>,
    width: nat,
)
    ensures
        wrapped_lines(a + b, width) == wrapped_lines(a, width) + wrapped_lines(b, width),
        wrapped_lines(seq![line], width) == filled(text::words(line), Seq::empty(), width),
        wrap_width(width) >= 20,
        width >= 20 ==> wrap_width(width) == width,
        width < 20 ==> wrapped(line, width) == wrapped(line, 20),
    decreases b.len(),
{
    reveal_with_fuel(wrapped_lines, 2);
    assert(seq![line].drop_last() =~= Seq::<Seq<char>>::empty());
    assert(wrapped_lines(seq![line], width) =~= filled(text::words(line), Seq::empty(), width));
    if b.len() == 0 {
        assert(a + b =~= a);
        assert(wrapped_lines(a + b, width) =~= wrapped_lines(a, width) + wrapped_lines(b, width));
    } else {
        law_lines_are_wrapped_one_by_one(a, b.drop_last(), line, width);
        assert((a + b).drop_last() =~= a + b.drop_last());
        assert(wrapped_lines(a + b, width) =~= wrapped_lines(a, width) + wrapped_lines(b, width));
    }
}

/// A line takes as many rows as it needs and no more, and an empty one takes a row too;
/// the rows of several lines add up.
pub proof fn law_rows_are_counted(
    a: Seq<Seq<char>>,
    b: Seq<Seq<char>>,
    line: Seq<char>,
    width: nat,
)
    ensures
        rows_of_lines(a + b, width) == rows_of_lines(a, width) + rows_of_lines(b, width),
        rows_of_lines(seq![line], width) == rows_of_line(line.len(), width),
        width > 0 && line.len() > 0 ==> (rows_of_line(line.len(), width) - 1) * width < line.len()
            <= rows_of_line(line.len(), width) * width,
        line.len() == 0 || width == 0 ==> rows_of_line(line.len(), width) == 1,
    decreases b.len(),
{
    reveal_with_fuel(rows_of_lines, 2);
    assert(seq![line].drop_last() =~= Seq::<Seq<char>>::empty());
    if width > 0 && line.len() > 0 {
        let n = (line.len() - 1) as nat;
        let q = n / width;
        vstd::arithmetic::div_mod::lemma_fundamental_div_mod(n as int, width as int);
        vstd::arithmetic::div_mod::lemma_mod_bound(n as int, width as int);
        assert(width * q == q * width) by (nonlinear_arith);
        assert((q + 1) * width == q * width + width) by (nonlinear_arith);
    }
    if b.len() == 0 {
        assert(a + b =~= a);
    } else {
        law_rows_are_counted(a, b.drop_last(), line, width);
        assert((a + b).drop_last() =~= a + b.drop_last());
    }
}

/// What a row shows, without its inks.
pub open spec fn shown(spans: Seq<SpanView>) -> Seq<char> {
    text::concat(Seq::new(spans.len(), |i: int| spans[i].text))
}

/// What a row shows with one more span is what it showed, and the span's text.
pub proof fn lemma_shown_with(spans: Seq<SpanView>, text: Seq<char>, ink: Ink)
    ensures
        shown(row(text, ink)) == text,
        shown(spans + row(text, ink)) == shown(spans) + text,
        shown(Seq::empty()) == Seq::<char>::empty(),
{
    let all = spans + row(text, ink);
    let texts = Seq::new(all.len(), |i: int| all[i].text);
    assert(texts.drop_last() =~= Seq::new(spans.len(), |i: int| spans[i].text));
    let one = Seq::new(row(text, ink).len(), |i: int| row(text, ink)[i].text);
    assert(one.drop_last() =~= Seq::<Seq<char>>::empty());
    reveal_with_fuel(text::concat, 2);
    assert(shown(row(text, ink)) =~= text);
}

/// Every row is clipped, each by itself, and a text is wrapped line by line.
pub proof fn law_each_row_is_clipped(
    lines: Seq<Seq<SpanView>>,
    s: Seq<char>,
    width: nat,
    i: int,
)
    ensures
        clipped_rows(lines, width).len() == lines.len(),
        0 <= i < lines.len() ==> clipped_rows(lines, width)[i] == clipped(lines[i], width),
        width >= 20 ==> wrapped(s, width) == wrapped_lines(text::lines(s), width),
        width < 20 ==> wrapped(s, width) == wrapped_lines(text::lines(s), 20),
{
}

/// What is said of a list of rows is what each of them holds, one for one.
pub proof fn law_rows_say_what_they_hold(lines: Seq<Line>, i: int, j: int)
    ensures
        rows(lines).len() == lines.len(),
        0 <= i < lines.len() ==> rows(lines)[i].len() == lines[i].0@.len(),
        0 <= i < lines.len() && 0 <= j < lines[i].0@.len() ==> rows(lines)[i][j] == (SpanView {
            text: lines[i].0@[j].text@,
            ink: lines[i].0@[j].ink,
        }),
{
}

} // verus!
