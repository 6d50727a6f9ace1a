//! The staged change: what git reports of it, and what of it fits in a prompt.

use crate::config;
use crate::config::Config;
use crate::ordered;
use crate::ordered::TextMap;
use crate::outside;
use crate::text;
use globset::{Glob, GlobSet};
use vstd::prelude::*;

verus! {

/// What can go wrong with git.
#[derive(Debug)]
pub enum GitError {
    /// Git could not be started, for the reason given.
    Spawn(String),
    /// Git ran and failed.
    Failed { command: String, stderr: String },
    /// There is no repository here.
    NotARepository,
    /// The staging area is empty.
    NothingStaged,
    /// An exclude pattern is not one, for the reason given.
    BadGlob(String, String),
}

/// What became of the hunks of one file.
#[derive(Debug, Clone, Copy, PartialEq, Eq, Structural)]
pub enum FileState {
    Included,
    Truncated { kept: usize, total: usize },
    Withheld { bytes: usize },
    Binary,
}

/// One entry per changed file. Every file reaches the model as one of these
/// lines, whether or not its hunks do.
#[derive(Debug)]
pub struct FileChange {
    pub path: String,
    pub added: Option<u64>,
    pub deleted: Option<u64>,
    pub state: FileState,
}

/// What a [`FileChange`] says.
pub struct ChangeView {
    pub path: Seq<char>,
    pub added: Option<u64>,
    pub deleted: Option<u64>,
    pub state: FileState,
}

impl View for FileChange {
    type V = ChangeView;

    open spec fn view(&self) -> ChangeView {
        ChangeView {
            path: self.path@,
            added: self.added,
            deleted: self.deleted,
            state: self.state,
        }
    }
}

impl Clone for FileChange {
    /// The same change again.
    fn clone(&self) -> (r: Self)
        ensures
            r == *self,
    {
        FileChange {
            path: self.path.clone(),
            added: self.added,
            deleted: self.deleted,
            state: self.state,
        }
    }
}

/// What each change of a list says.
pub open spec fn changes(files: Seq<FileChange>) -> Seq<ChangeView> {
    Seq::new(files.len(), |i: int| files[i]@)
}

/// The staged change, split into what the model is shown up front and what it
/// has to ask for. Nothing is hidden: every changed file appears in the
/// manifest, so the model can see that a lockfile moved even when its hunks
/// were withheld.
pub struct Diff {
    pub files: Vec<FileChange>,
    pub included: String,
    withheld: TextMap<String>,
}

/// What a [`Diff`] holds. The withheld files stand in the order of their paths,
/// each with its diff.
pub struct DiffView {
    pub files: Seq<ChangeView>,
    pub included: Seq<char>,
    pub withheld: Seq<(Seq<char>, Seq<char>)>,
}

/// Entries whose values are strings, with the text of each.
pub open spec fn text_pairs(entries: Seq<(Seq<char>, String)>) -> Seq<(Seq<char>, Seq<char>)> {
    Seq::new(entries.len(), |i: int| (entries[i].0, entries[i].1@))
}

impl View for Diff {
    type V = DiffView;

    closed spec fn view(&self) -> DiffView {
        DiffView {
            files: changes(self.files@),
            included: self.included@,
            withheld: text_pairs(self.withheld.pairs()),
        }
    }
}

impl Diff {
    /// The withheld files are in order, and none occurs twice.
    pub closed spec fn wf(self) -> bool {
        self.withheld.wf()
    }
}

/// Putting a string in puts its text in.
proof fn lemma_text_pairs_put(entries: Seq<(Seq<char>, String)>, key: Seq<char>, value: String)
    ensures
        text_pairs(ordered::put(entries, key, value)) == ordered::put(
            text_pairs(entries),
            key,
            value@,
        ),
    decreases entries.len(),
{
    let t = text_pairs(entries);
    if entries.len() > 0 {
        lemma_text_pairs_put(entries.drop_first(), key, value);
        assert(text_pairs(entries.drop_first()) =~= t.drop_first());
    }
    assert(text_pairs(ordered::put(entries, key, value)) =~= ordered::put(t, key, value@));
}

/// Finding a string finds its text.
proof fn lemma_text_pairs_get(entries: Seq<(Seq<char>, String)>, key: Seq<char>)
    ensures
        ordered::get(text_pairs(entries), key) == text::opt_text(ordered::get(entries, key)),
    decreases entries.len(),
{
    if entries.len() > 0 {
        lemma_text_pairs_get(entries.drop_first(), key);
        assert(text_pairs(entries.drop_first()) =~= text_pairs(entries).drop_first());
    }
}

// ---------------------------------------------------------------------------
// Reading what git printed
// ---------------------------------------------------------------------------

/// Whether a line of a diff begins the part of a file.
pub open spec fn is_header(line: Seq<char>) -> bool {
    text::starts_with(line, "diff --git "@)
}

/// The path that a header names.
pub open spec fn header_path(line: Seq<char>) -> Option<Seq<char>> {
    if is_header(line) {
        match text::split_once(line.skip("diff --git "@.len() as int), " b/"@) {
            Some(parts) => Some(parts.1),
            None => None,
        }
    } else {
        None
    }
}

/// How many lines stand before the next header.
pub open spec fn section_len(lines: Seq<Seq<char>>) -> nat
    decreases lines.len(),
{
    if lines.len() == 0 || is_header(lines[0]) {
        0
    } else {
        1 + section_len(lines.drop_first())
    }
}

/// Lines put together again, each with a line feed.
pub open spec fn unlines(lines: Seq<Seq<char>>) -> Seq<char>
    decreases lines.len(),
{
    if lines.len() == 0 {
        Seq::empty()
    } else {
        unlines(lines.drop_last()) + lines.last().push('\n')
    }
}

/// `section_len` never counts past the end.
pub proof fn lemma_section_len(lines: Seq<Seq<char>>)
    ensures
        section_len(lines) <= lines.len(),
    decreases lines.len(),
{
    if lines.len() > 0 {
        lemma_section_len(lines.drop_first());
    }
}

/// The parts of a diff, in order: for each header that names a path, that path
/// and the lines from the header up to the next one.
pub open spec fn sections(lines: Seq<Seq<char>>) -> Seq<(Seq<char>, Seq<char>)>
    decreases lines.len(),
{
    if lines.len() == 0 {
        Seq::empty()
    } else {
        let n = 1 + section_len(lines.drop_first()) as int;
        proof {
            lemma_section_len(lines.drop_first());
        }
        let rest = sections(lines.skip(n));
        match header_path(lines[0]) {
            Some(path) => seq![(path, unlines(lines.take(n)))] + rest,
            None => rest,
        }
    }
}

/// Entries put in one after the other.
pub open spec fn put_all(parts: Seq<(Seq<char>, Seq<char>)>) -> Seq<(Seq<char>, Seq<char>)>
    decreases parts.len(),
{
    if parts.len() == 0 {
        Seq::empty()
    } else {
        ordered::put(put_all(parts.drop_last()), parts.last().0, parts.last().1)
    }
}

/// The diff of each file, by path. Where two headers name one path, the last
/// counts.
pub open spec fn file_chunks(diff: Seq<char>) -> Seq<(Seq<char>, Seq<char>)> {
    put_all(sections(text::lines(diff)))
}

/// A run of lines without a header, up to one or up to the end, is a section.
proof fn lemma_section_end(lines: Seq<Seq<char>>, n: int)
    requires
        0 <= n <= lines.len(),
        forall|i: int| 0 <= i < n ==> !is_header(#[trigger] lines[i]),
        n < lines.len() ==> is_header(lines[n]),
    ensures
        section_len(lines) == n,
    decreases lines.len(),
{
    if n > 0 {
        let rest = lines.drop_first();
        assert forall|i: int| 0 <= i < n - 1 implies !is_header(#[trigger] rest[i]) by {
            assert(rest[i] == lines[i + 1]);
        }
        assert(!is_header(lines[0]));
        lemma_section_end(rest, n - 1);
    }
}

/// Splits a unified diff into one chunk per file, keyed by the path in the
/// `diff --git` header.
pub fn split_by_file(diff: &str) -> (r: TextMap<String>)
    ensures
        r.wf(),
        text_pairs(r.pairs()) == file_chunks(diff@),
{
    let lines = text::lines_of(diff);
    let ghost all = text::texts(lines@);
    let mut chunks: TextMap<String> = TextMap::new();
    let mut path: Option<String> = None;
    let mut current = String::new();
    let ghost mut done: Seq<(Seq<char>, Seq<char>)> = Seq::empty();
    let ghost mut start: int = 0;
    proof {
        assert(all.skip(0) =~= all);
        assert(done + sections(all.skip(0)) =~= sections(all));
        assert(text_pairs(chunks.pairs()) =~= put_all(done));
    }
    for i in 0..lines.len()
        invariant
            all == text::texts(lines@),
            chunks.wf(),
            text_pairs(chunks.pairs()) == put_all(done),
            0 <= start <= i <= lines@.len(),
            start == i ==> i == 0,
            sections(all) == done + sections(all.skip(start)),
            forall|j: int| start < j < i ==> !is_header(#[trigger] all[j]),
            text::opt_text(path) == if start < i {
                header_path(all[start])
            } else {
                None
            },
            current@ == if path is Some {
                unlines(all.subrange(start, i as int))
            } else {
                Seq::empty()
            },
    {
        let line = lines[i].as_str();
        assert(line@ == all[i as int]);
        if let Some(header) = text::after_prefix(line, "diff --git ") {
            proof {
                if start < i {
                    lemma_close_section(all, done, start, i as int);
                }
            }
            let ghost was = text::opt_text(path);
            if let Some(previous) = path {
                let chunk = current;
                current = String::new();
                proof {
                    lemma_text_pairs_put(chunks.pairs(), previous@, chunk);
                    let part = (previous@, chunk@);
                    assert(done.push(part).drop_last() =~= done);
                    done = done.push(part);
                }
                chunks.insert(previous, chunk);
            }
            proof {
                start = i as int;
            }
            path = match text::split_at_first(header.as_str(), " b/") {
                Some(parts) => Some(parts.1),
                None => None,
            };
        }
        if path.is_some() {
            let ghost before = current@;
            assert(before == unlines(all.subrange(start, i as int)));
            current.append(line);
            current.push('\n');
            assert(all.subrange(start, i + 1).drop_last() =~= all.subrange(start, i as int));
            proof {
                if start == i {
                    assert(all.subrange(start, i as int) =~= Seq::empty());
                }
            }
            assert(all.subrange(start, i + 1).last() == line@);
            assert(current@ =~= before + line@.push('\n'));
            assert(current@ =~= unlines(all.subrange(start, i + 1)));
        }
    }
    proof {
        if start < all.len() {
            lemma_close_section(all, done, start, all.len() as int);
        }
        assert(sections(all.skip(all.len() as int)) =~= Seq::empty());
    }
    if let Some(last) = path {
        proof {
            lemma_text_pairs_put(chunks.pairs(), last@, current);
            let part = (last@, current@);
            assert(done.push(part).drop_last() =~= done);
            done = done.push(part);
        }
        chunks.insert(last, current);
    }
    assert(done + sections(all.skip(all.len() as int)) =~= done);
    chunks
}

/// Where the part of a file ends, the parts after it are what is left.
proof fn lemma_close_section(
    all: Seq<Seq<char>>,
    done: Seq<(Seq<char>, Seq<char>)>,
    start: int,
    end: int,
)
    requires
        0 <= start < end <= all.len(),
        forall|j: int| start < j < end ==> !is_header(#[trigger] all[j]),
        end < all.len() ==> is_header(all[end]),
        sections(all) == done + sections(all.skip(start)),
    ensures
        sections(all) == match header_path(all[start]) {
            Some(path) => done.push((path, unlines(all.subrange(start, end)))),
            None => done,
        } + sections(all.skip(end)),
{
    let rest = all.skip(start);
    let below = rest.drop_first();
    assert forall|i: int| 0 <= i < end - start - 1 implies !is_header(#[trigger] below[i]) by {
        assert(below[i] == all[start + 1 + i]);
    }
    if end < all.len() {
        assert(below[end - start - 1] == all[end]);
    }
    lemma_section_end(below, end - start - 1);
    assert(rest.skip(end - start) =~= all.skip(end));
    assert(rest.take(end - start) =~= all.subrange(start, end));
    assert(rest[0] == all[start]);
    match header_path(all[start]) {
        Some(path) => {
            let part = (path, unlines(all.subrange(start, end)));
            assert(done + (seq![part] + sections(all.skip(end))) =~= done.push(part) + sections(
                all.skip(end),
            ));
        },
        None => {},
    }
}

/// The count that a field of `--numstat` writes, where it writes one.
pub open spec fn parse_count(field: Seq<char>) -> Option<u64> {
    match text::parse_unsigned(field, u64::MAX as nat) {
        Some(n) => Some(n as u64),
        None => None,
    }
}

/// What a line of `git diff --numstat` says: the path, and the lines added and
/// deleted. A count that is not a number belongs to a binary file.
pub open spec fn numstat_entry(line: Seq<char>) -> Option<(Seq<char>, Option<u64>, Option<u64>)> {
    match text::split_once(line, "\t"@) {
        Some(first) => match text::split_once(first.1, "\t"@) {
            Some(second) => Some((second.1, parse_count(first.0), parse_count(second.0))),
            None => None,
        },
        None => None,
    }
}

/// What the lines say, without those that say nothing.
pub open spec fn numstat_entries(lines: Seq<Seq<char>>) -> Seq<
    (Seq<char>, Option<u64>, Option<u64>),
>
    decreases lines.len(),
{
    if lines.len() == 0 {
        Seq::empty()
    } else {
        let before = numstat_entries(lines.drop_last());
        match numstat_entry(lines.last()) {
            Some(entry) => before.push(entry),
            None => before,
        }
    }
}

/// The texts of parsed `--numstat` lines.
pub open spec fn entry_texts(entries: Seq<(String, Option<u64>, Option<u64>)>) -> Seq<
    (Seq<char>, Option<u64>, Option<u64>),
> {
    Seq::new(entries.len(), |i: int| (entries[i].0@, entries[i].1, entries[i].2))
}

/// Reads the output of `git diff --numstat`.
pub fn parse_numstat(numstat: &str) -> (r: Vec<(String, Option<u64>, Option<u64>)>)
    ensures
        entry_texts(r@) == numstat_entries(text::lines(numstat@)),
{
    let lines = text::lines_of(numstat);
    let ghost all = text::texts(lines@);
    let mut out: Vec<(String, Option<u64>, Option<u64>)> = Vec::new();
    assert(entry_texts(out@) =~= Seq::empty());
    for i in 0..lines.len()
        invariant
            all == text::texts(lines@),
            entry_texts(out@) == numstat_entries(all.take(i as int)),
    {
        let ghost before = entry_texts(out@);
        assert(all.take(i + 1).drop_last() =~= all.take(i as int));
        assert(all.take(i + 1).last() == lines@[i as int]@);
        if let Some(first) = text::split_at_first(lines[i].as_str(), "\t") {
            if let Some(second) = text::split_at_first(first.1.as_str(), "\t") {
                let added = text::read_u64(first.0.as_str());
                let deleted = text::read_u64(second.0.as_str());
                out.push((second.1, added, deleted));
                assert(entry_texts(out@) =~= before.push((second.1@, added, deleted)));
            }
        }
    }
    assert(all.take(lines@.len() as int) =~= all);
    out
}

// ---------------------------------------------------------------------------
// What fits in the prompt
// ---------------------------------------------------------------------------

/// The longest beginning of a text that is made of whole lines and takes at most
/// `limit` bytes.
pub open spec fn line_floor(s: Seq<char>, limit: nat) -> Seq<char>
    decreases s.len(),
{
    if s.len() == 0 || (text::byte_len(s) <= limit && s.last() == '\n') {
        s
    } else {
        line_floor(s.drop_last(), limit)
    }
}

/// A beginning of a text takes no more bytes than the text.
proof fn lemma_prefix_bytes(s: Seq<char>, n: int)
    requires
        0 <= n <= s.len(),
    ensures
        text::byte_len(s.take(n)) <= text::byte_len(s),
{
    text::lemma_byte_len_add(s.take(n), s.skip(n));
    assert(s.take(n) + s.skip(n) =~= s);
}

/// What `line_floor` gives: a beginning of the text, within the limit, that ends
/// with a line or is empty.
pub proof fn lemma_line_floor(s: Seq<char>, limit: nat)
    ensures
        line_floor(s, limit).len() <= s.len(),
        line_floor(s, limit) == s.take(line_floor(s, limit).len() as int),
        text::byte_len(line_floor(s, limit)) <= limit,
        line_floor(s, limit).len() > 0 ==> line_floor(s, limit).last() == '\n',
        forall|n: int|
            #![trigger s.take(n)]
            0 < n <= s.len() && text::byte_len(s.take(n)) <= limit && s.take(n).last() == '\n'
                ==> n <= line_floor(s, limit).len(),
    decreases s.len(),
{
    if s.len() == 0 || (text::byte_len(s) <= limit && s.last() == '\n') {
        assert(s.take(s.len() as int) =~= s);
    } else {
        let rest = s.drop_last();
        lemma_line_floor(rest, limit);
        let m = line_floor(rest, limit).len() as int;
        assert(rest.take(m) =~= s.take(m));
        assert forall|n: int|
            #![trigger s.take(n)]
            0 < n <= s.len() && text::byte_len(s.take(n)) <= limit && s.take(n).last()
                == '\n' implies n <= m by {
            if n < s.len() {
                assert(rest.take(n) =~= s.take(n));
            } else {
                assert(s.take(n) =~= s);
            }
        }
    }
}

/// How many characters and bytes `line_floor` keeps.
fn whole_lines(v: &Vec<char>, limit: usize, total: usize) -> (r: (usize, usize))
    requires
        total == text::byte_len(v@),
    ensures
        r.0 <= v@.len(),
        v@.take(r.0 as int) == line_floor(v@, limit as nat),
        r.1 == text::byte_len(line_floor(v@, limit as nat)),
{
    let mut bytes: usize = 0;
    let mut kept: usize = 0;
    let mut kept_bytes: usize = 0;
    assert(v@.take(0) =~= Seq::empty());
    for i in 0..v.len()
        invariant
            total == text::byte_len(v@),
            bytes == text::byte_len(v@.take(i as int)),
            kept <= i,
            v@.take(kept as int) == line_floor(v@.take(i as int), limit as nat),
            kept_bytes == text::byte_len(v@.take(kept as int)),
    {
        let c = v[i];
        let ghost longer = v@.take(i + 1);
        assert(longer.drop_last() =~= v@.take(i as int));
        assert(longer =~= v@.take(i as int).push(c));
        proof {
            text::lemma_byte_len_push(v@.take(i as int), c);
            lemma_prefix_bytes(v@, i + 1);
        }
        bytes = bytes + text::bytes_in_char(c);
        if bytes <= limit && c == '\n' {
            kept = i + 1;
            kept_bytes = bytes;
        }
    }
    assert(v@.take(v@.len() as int) =~= v@);
    (kept, kept_bytes)
}

/// Cutting a diff mid-line produces a hunk that reads as corrupt, so a
/// truncation always lands on a line boundary.
pub fn floor_to_line(text: &str, limit: usize) -> (r: usize)
    ensures
        r == text::byte_len(line_floor(text@, limit as nat)),
{
    let total = text::bytes_in(text);
    let v = text::chars_of(text);
    let kept = whole_lines(&v, limit, total);
    kept.1
}

/// How much of the diff of one file is shown, at most.
pub open spec fn kept_part(chunk: Seq<char>, max_file: nat) -> Seq<char> {
    if text::byte_len(chunk) > max_file {
        line_floor(chunk, max_file)
    } else {
        chunk
    }
}

/// What becomes of the hunks of a file when `used` bytes of the prompt are
/// taken. A binary file has none. A file that is excluded, or that does not fit
/// any more, is withheld; one that is too large on its own is truncated.
pub open spec fn place(
    added: Option<u64>,
    excluded: bool,
    chunk: Seq<char>,
    used: nat,
    max_total: nat,
    max_file: nat,
) -> FileState {
    let kept = kept_part(chunk, max_file);
    if added is None {
        FileState::Binary
    } else if excluded || used + text::byte_len(kept) > max_total {
        FileState::Withheld { bytes: text::byte_len(chunk) as usize }
    } else if text::byte_len(kept) < text::byte_len(chunk) {
        FileState::Truncated {
            kept: text::byte_len(kept) as usize,
            total: text::byte_len(chunk) as usize,
        }
    } else {
        FileState::Included
    }
}

/// The diff that belongs to an entry. A path that an earlier entry named has
/// none left.
pub open spec fn chunk_of(
    entries: Seq<(Seq<char>, Option<u64>, Option<u64>)>,
    chunks: Seq<(Seq<char>, Seq<char>)>,
    k: int,
) -> Seq<char> {
    if exists|j: int| 0 <= j < k && #[trigger] entries[j].0 == entries[k].0 {
        Seq::empty()
    } else {
        match ordered::get(chunks, entries[k].0) {
            Some(chunk) => chunk,
            None => Seq::empty(),
        }
    }
}

/// The staged change that the first `n` entries make, one after the other.
pub open spec fn arranged(
    entries: Seq<(Seq<char>, Option<u64>, Option<u64>)>,
    excluded: Seq<bool>,
    chunks: Seq<(Seq<char>, Seq<char>)>,
    max_total: nat,
    max_file: nat,
    n: nat,
) -> DiffView
    decreases n,
{
    if n == 0 {
        DiffView { files: Seq::empty(), included: Seq::empty(), withheld: Seq::empty() }
    } else {
        let k = n - 1;
        let before = arranged(entries, excluded, chunks, max_total, max_file, k as nat);
        let entry = entries[k];
        let chunk = chunk_of(entries, chunks, k);
        let used = text::byte_len(before.included);
        let state = place(entry.1, excluded[k], chunk, used, max_total, max_file);
        DiffView {
            files: before.files.push(
                ChangeView { path: entry.0, added: entry.1, deleted: entry.2, state },
            ),
            included: match state {
                FileState::Included | FileState::Truncated { .. } => before.included + kept_part(
                    chunk,
                    max_file,
                ),
                _ => before.included,
            },
            withheld: match state {
                FileState::Withheld { .. } => ordered::put(before.withheld, entry.0, chunk),
                _ => before.withheld,
            },
        }
    }
}

/// Decides, entry by entry, what is shown and what is withheld. `excluded` says
/// for each entry whether an exclude pattern matches its path.
pub fn arrange(
    entries: Vec<(String, Option<u64>, Option<u64>)>,
    excluded: &Vec<bool>,
    chunks: TextMap<String>,
    max_total: usize,
    max_file: usize,
) -> (r: Diff)
    requires
        excluded@.len() == entries@.len(),
        chunks.wf(),
    ensures
        r.wf(),
        r@ == arranged(
            entry_texts(entries@),
            excluded@,
            text_pairs(chunks.pairs()),
            max_total as nat,
            max_file as nat,
            entries@.len(),
        ),
{
    let ghost all = entry_texts(entries@);
    let ghost given = text_pairs(chunks.pairs());
    let mut left = chunks;
    let mut files: Vec<FileChange> = Vec::new();
    let mut included = String::new();
    let mut used: usize = 0;
    let mut withheld: TextMap<String> = TextMap::new();
    let ghost mut view = arranged(all, excluded@, given, max_total as nat, max_file as nat, 0);
    proof {
        assert(changes(files@) =~= view.files);
        assert(text_pairs(withheld.pairs()) =~= view.withheld);
        assert forall|p: Seq<char>| text::opt_text(#[trigger] ordered::get(left.pairs(), p)) == (if (
        exists|j: int| 0 <= j < 0 && #[trigger] all[j].0 == p) {
            None
        } else {
            ordered::get(given, p)
        }) by {
            lemma_text_pairs_get(left.pairs(), p);
        }
    }
    for i in 0..entries.len()
        invariant
            all == entry_texts(entries@),
            excluded@.len() == entries@.len(),
            left.wf(),
            withheld.wf(),
            view == arranged(
                all,
                excluded@,
                given,
                max_total as nat,
                max_file as nat,
                i as nat,
            ),
            changes(files@) == view.files,
            included@ == view.included,
            text_pairs(withheld.pairs()) == view.withheld,
            used == text::byte_len(included@),
            used <= max_total,
            forall|p: Seq<char>|
                text::opt_text(#[trigger] ordered::get(left.pairs(), p)) == (if (exists|j: int|
                    0 <= j < i && #[trigger] all[j].0 == p) {
                    None
                } else {
                    ordered::get(given, p)
                }),
    {
        let path = &entries[i].0;
        let added = entries[i].1;
        let deleted = entries[i].2;
        let ghost taken = left.pairs();
        let ghost chunk_text = chunk_of(all, given, i as int);
        let ghost before = view;
        proof {
            ordered::lemma_del(taken, path@);
            assert(all[i as int] == (path@, added, deleted));
        }
        let chunk = match left.remove(path.as_str()) {
            Some(chunk) => chunk,
            None => String::new(),
        };
        proof {
            assert(text::opt_text(ordered::get(taken, path@)) == (if (exists|j: int|
                0 <= j < i && #[trigger] all[j].0 == path@) {
                None
            } else {
                ordered::get(given, path@)
            }));
            assert(chunk@ =~= chunk_text);
            assert forall|p: Seq<char>|
                text::opt_text(#[trigger] ordered::get(left.pairs(), p)) == (if (exists|j: int|
                    0 <= j < i + 1 && #[trigger] all[j].0 == p) {
                    None
                } else {
                    ordered::get(given, p)
                }) by {
                if p == path@ {
                    assert(all[i as int].0 == p);
                } else {
                    assert(ordered::get(left.pairs(), p) == ordered::get(taken, p));
                    if exists|j: int| 0 <= j < i + 1 && #[trigger] all[j].0 == p {
                        let j = choose|j: int| 0 <= j < i + 1 && #[trigger] all[j].0 == p;
                        assert(j < i);
                    }
                }
            }
            view = arranged(
                all,
                excluded@,
                given,
                max_total as nat,
                max_file as nat,
                (i + 1) as nat,
            );
        }
        let total = text::bytes_in(chunk.as_str());
        let v = text::chars_of(chunk.as_str());
        let kept: (usize, usize) = if total > max_file {
            whole_lines(&v, max_file, total)
        } else {
            assert(v@.take(v@.len() as int) =~= v@);
            (v.len(), total)
        };
        let ghost part = kept_part(chunk_text, max_file as nat);
        assert(v@.take(kept.0 as int) == part);
        assert(kept.1 == text::byte_len(part));
        let state = if added.is_none() {
            FileState::Binary
        } else if excluded[i] || kept.1 > max_total - used {
            proof {
                lemma_text_pairs_put(withheld.pairs(), path@, chunk);
            }
            withheld.insert(path.clone(), chunk);
            FileState::Withheld { bytes: total }
        } else {
            let shown = text::substring(&v, 0, kept.0);
            assert(shown@ =~= part);
            included.append(shown.as_str());
            proof {
                text::lemma_byte_len_add(before.included, part);
            }
            used = used + kept.1;
            if kept.1 < total {
                FileState::Truncated { kept: kept.1, total }
            } else {
                FileState::Included
            }
        };
        assert(state == place(
            added,
            excluded@[i as int],
            chunk_text,
            text::byte_len(before.included),
            max_total as nat,
            max_file as nat,
        ));
        files.push(FileChange { path: path.clone(), added, deleted, state });
        assert(changes(files@) =~= before.files.push(
            ChangeView { path: path@, added, deleted, state },
        ));
    }
    Diff { files, included, withheld }
}

/// The globs that patterns parse to.
pub open spec fn parsed_globs(patterns: Seq<Seq<char>>) -> Seq<Glob> {
    Seq::new(patterns.len(), |i: int| outside::glob_parsed(patterns[i])->Ok_0)
}

/// The first pattern that is not one, and why.
pub open spec fn first_bad(patterns: Seq<Seq<char>>) -> Option<(Seq<char>, Seq<char>)>
    decreases patterns.len(),
{
    if patterns.len() == 0 {
        None
    } else {
        match outside::glob_parsed(patterns[0]) {
            Ok(glob) => first_bad(patterns.drop_first()),
            Err(error) => Some((patterns[0], outside::glob_error_shown(error))),
        }
    }
}

/// What is wrong with the patterns: the first that does not parse, or all of
/// them where they cannot be matched together.
pub open spec fn bad_globs(patterns: Seq<Seq<char>>) -> Option<(Seq<char>, Seq<char>)> {
    match first_bad(patterns) {
        Some(bad) => Some(bad),
        None => match outside::globs_built(parsed_globs(patterns)) {
            Ok(set) => None,
            Err(error) => Some((text::join(patterns, ","@), outside::glob_error_shown(error))),
        },
    }
}

/// Whether some pattern matches a path.
pub open spec fn excludes(patterns: Seq<Seq<char>>, path: Seq<char>) -> bool {
    exists|i: int|
        0 <= i < patterns.len() && #[trigger] outside::glob_matches(
            parsed_globs(patterns)[i],
            path,
        )
}

/// Compiles the exclude patterns.
fn glob_set(patterns: &Vec<String>) -> (r: Result<GlobSet, GitError>)
    ensures
        match r {
            Ok(set) => {
                &&& bad_globs(text::texts(patterns@)) is None
                &&& outside::set_globs(set) == parsed_globs(text::texts(patterns@))
            },
            Err(GitError::BadGlob(pattern, reason)) => bad_globs(text::texts(patterns@)) == Some(
                (pattern@, reason@),
            ),
            Err(_) => false,
        },
{
    let ghost all = text::texts(patterns@);
    let mut builder = outside::new_builder();
    assert(all.skip(0) =~= all);
    assert(parsed_globs(all).take(0) =~= Seq::empty());
    for i in 0..patterns.len()
        invariant
            all == text::texts(patterns@),
            first_bad(all) == first_bad(all.skip(i as int)),
            outside::builder_globs(builder) == parsed_globs(all).take(i as int),
    {
        assert(all.skip(i as int).drop_first() =~= all.skip(i + 1));
        assert(all.skip(i as int)[0] == patterns@[i as int]@);
        match outside::parse_glob(patterns[i].as_str()) {
            Ok(glob) => {
                outside::add_glob(&mut builder, glob);
                assert(parsed_globs(all)[i as int] == glob);
                assert(parsed_globs(all).take(i as int).push(glob) =~= parsed_globs(all).take(
                    i + 1,
                ));
            },
            Err(error) => {
                return Err(
                    GitError::BadGlob(patterns[i].clone(), outside::glob_error_text(&error)),
                );
            },
        }
    }
    assert(parsed_globs(all).take(patterns@.len() as int) =~= parsed_globs(all));
    match outside::build_set(&builder) {
        Ok(set) => Ok(set),
        Err(error) => Err(
            GitError::BadGlob(
                text::joined(patterns.as_slice(), ","),
                outside::glob_error_text(&error),
            ),
        ),
    }
}

/// For each entry, whether some pattern matches its path.
pub open spec fn exclusions(
    entries: Seq<(Seq<char>, Option<u64>, Option<u64>)>,
    patterns: Seq<Seq<char>>,
) -> Seq<bool> {
    Seq::new(entries.len(), |i: int| excludes(patterns, entries[i].0))
}

/// The staged change that git's two reports make under a configuration.
pub open spec fn staged_view(config: Config, numstat: Seq<char>, diff: Seq<char>) -> DiffView {
    let entries = numstat_entries(text::lines(numstat));
    arranged(
        entries,
        exclusions(entries, text::texts(config.exclude@)),
        file_chunks(diff),
        config.max_diff_bytes as nat,
        config.max_file_diff_bytes as nat,
        entries.len(),
    )
}

/// How reading the staged change ends: with nothing staged, with a bad exclude
/// pattern, or with the change.
pub open spec fn is_staged(
    config: Config,
    numstat: Seq<char>,
    diff: Seq<char>,
    r: Result<Diff, GitError>,
) -> bool {
    let patterns = text::texts(config.exclude@);
    if numstat_entries(text::lines(numstat)).len() == 0 {
        r is Err && r->Err_0 is NothingStaged
    } else {
        match bad_globs(patterns) {
            Some(bad) => {
                &&& r matches Err(GitError::BadGlob(pattern, reason))
                &&& pattern@ == bad.0
                &&& reason@ == bad.1
            },
            None => {
                &&& r matches Ok(plan)
                &&& plan.wf()
                &&& plan@ == staged_view(config, numstat, diff)
            },
        }
    }
}

/// Reads the staged change and decides what fits in the prompt. Files are
/// dropped from the prompt body, never from the manifest.
pub fn build_diff(config: &Config, numstat: &str, diff: &str) -> (r: Result<Diff, GitError>)
    ensures
        is_staged(*config, numstat@, diff@, r),
{
    let entries = parse_numstat(numstat);
    let ghost all = entry_texts(entries@);
    if entries.len() == 0 {
        assert(all.len() == 0);
        return Err(GitError::NothingStaged);
    }
    assert(all.len() == entries@.len());
    let ghost patterns = text::texts(config.exclude@);
    let set = match glob_set(&config.exclude) {
        Ok(set) => set,
        Err(error) => {
            return Err(error);
        },
    };
    let mut excluded: Vec<bool> = Vec::new();
    for i in 0..entries.len()
        invariant
            all == entry_texts(entries@),
            outside::set_globs(set) == parsed_globs(patterns),
            excluded@ == exclusions(all, patterns).take(i as int),
    {
        let hit = outside::set_is_match(&set, entries[i].0.as_str());
        excluded.push(hit);
        assert(exclusions(all, patterns)[i as int] == excludes(patterns, entries@[i as int].0@));
        assert(excluded@ =~= exclusions(all, patterns).take(i + 1));
    }
    assert(exclusions(all, patterns).take(all.len() as int) =~= exclusions(all, patterns));
    let chunks = split_by_file(diff);
    Ok(
        arrange(
            entries,
            &excluded,
            chunks,
            config.max_diff_bytes,
            config.max_file_diff_bytes,
        ),
    )
}

/// Whether the hunks of a file have begun after these lines of its diff.
pub open spec fn in_hunks(lines: Seq<Seq<char>>) -> bool {
    exists|i: int| 0 <= i < lines.len() && text::starts_with(#[trigger] lines[i], "@@"@)
}

/// Whether a line is changed in the direction of a sign, after the lines of the
/// diff before it. The lines that name the two files are not, and they stand
/// before the first hunk: in a hunk, every line with the sign counts, whatever it
/// goes on with.
pub open spec fn is_changed(before: Seq<Seq<char>>, line: Seq<char>, sign: char) -> bool {
    text::starts_with(line, seq![sign]) && (in_hunks(before) || !text::starts_with(
        line,
        seq![sign, sign, sign],
    ))
}

/// How many lines of the diff of a file are changed in the direction of a sign.
pub open spec fn count_changed(lines: Seq<Seq<char>>, sign: char) -> nat
    decreases lines.len(),
{
    if lines.len() == 0 {
        0
    } else {
        count_changed(lines.drop_last(), sign) + if is_changed(
            lines.drop_last(),
            lines.last(),
            sign,
        ) {
            1nat
        } else {
            0nat
        }
    }
}

/// Counts the lines that are changed in the direction of a sign.
fn count_lines(lines: &Vec<String>, sign: char) -> (n: usize)
    ensures
        n == count_changed(text::texts(lines@), sign),
{
    let ghost all = text::texts(lines@);
    let mut n: usize = 0;
    let mut begun = false;
    let mut one = String::new();
    one.push(sign);
    let mut three = String::new();
    three.push(sign);
    three.push(sign);
    three.push(sign);
    assert(one@ =~= seq![sign]);
    assert(three@ =~= seq![sign, sign, sign]);
    for i in 0..lines.len()
        invariant
            all == text::texts(lines@),
            one@ == seq![sign],
            three@ == seq![sign, sign, sign],
            begun == in_hunks(all.take(i as int)),
            n == count_changed(all.take(i as int), sign),
            n <= i,
    {
        let ghost before = all.take(i as int);
        let ghost after = all.take(i + 1);
        assert(after.drop_last() =~= before);
        let line = lines[i].as_str();
        assert(after.last() == line@);
        if text::begins_with(line, one.as_str()) && (begun || !text::begins_with(
            line,
            three.as_str(),
        )) {
            n = n + 1;
        }
        if text::begins_with(line, "@@") {
            begun = true;
            assert(text::starts_with(after[i as int], "@@"@));
        }
        assert(begun == in_hunks(after)) by {
            if in_hunks(before) {
                let k = choose|k: int|
                    0 <= k < before.len() && text::starts_with(#[trigger] before[k], "@@"@);
                assert(after[k] == before[k]);
            }
            if in_hunks(after) {
                let k = choose|k: int|
                    0 <= k < after.len() && text::starts_with(#[trigger] after[k], "@@"@);
                if k < i {
                    assert(after[k] == before[k]);
                }
            }
        }
    }
    assert(all.take(lines@.len() as int) =~= all);
    n
}

/// The line of `--numstat` that the hunks of one file make.
pub open spec fn counted_line(part: (Seq<char>, Seq<char>)) -> Seq<char> {
    let lines = text::lines(part.1);
    text::decimal(count_changed(lines, '+')) + "\t"@ + text::decimal(count_changed(lines, '-'))
        + "\t"@ + part.0
}

/// The lines of `--numstat` that a diff makes.
pub open spec fn counted_lines(parts: Seq<(Seq<char>, Seq<char>)>) -> Seq<Seq<char>> {
    Seq::new(parts.len(), |i: int| counted_line(parts[i]))
}

/// The `--numstat` report that a diff makes.
pub open spec fn counted_numstat(diff: Seq<char>) -> Seq<char> {
    text::join(counted_lines(file_chunks(diff)), "\n"@)
}

/// The same split applied to a diff that did not come from git, for
/// `--stdin-diff`. Callers that supply their own diff get no numstat, so the
/// counts come from the hunks.
pub fn diff_from_text(config: &Config, diff: &str) -> (r: Result<Diff, GitError>)
    ensures
        is_staged(*config, counted_numstat(diff@), diff@, r),
{
    let chunks = split_by_file(diff);
    let ghost parts = text_pairs(chunks.pairs());
    let mut counted: Vec<String> = Vec::new();
    let total = chunks.len();
    for i in 0..total
        invariant
            total == parts.len(),
            parts == text_pairs(chunks.pairs()),
            text::texts(counted@) == counted_lines(parts).take(i as int),
    {
        let ghost before = text::texts(counted@);
        let lines = text::lines_of(chunks.value(i).as_str());
        let mut line = text::number(count_lines(&lines, '+') as u128);
        line.append("\t");
        line.append(text::number(count_lines(&lines, '-') as u128).as_str());
        line.append("\t");
        line.append(chunks.key(i).as_str());
        assert(line@ =~= counted_line(parts[i as int]));
        counted.push(line);
        assert(text::texts(counted@) =~= before.push(line@));
        assert(text::texts(counted@) =~= counted_lines(parts).take(i + 1));
    }
    assert(counted_lines(parts).take(parts.len() as int) =~= counted_lines(parts));
    let numstat = text::joined(counted.as_slice(), "\n");
    build_diff(config, numstat.as_str(), diff)
}

// ---------------------------------------------------------------------------
// What a diff says
// ---------------------------------------------------------------------------

/// A size in bytes, or in kilobytes from one on.
pub open spec fn size_text(bytes: nat) -> Seq<char> {
    if bytes < 1024 {
        text::decimal(bytes) + " B"@
    } else {
        text::decimal(bytes / 1024) + " KB"@
    }
}

/// A size in bytes, or in kilobytes from one on.
pub fn kb(bytes: usize) -> (r: String)
    ensures
        r@ == size_text(bytes as nat),
{
    if bytes < 1024 {
        let mut out = text::number(bytes as u128);
        out.append(" B");
        out
    } else {
        let mut out = text::number((bytes / 1024) as u128);
        out.append(" KB");
        out
    }
}

/// What became of a file, in words.
pub open spec fn state_text(state: FileState) -> Seq<char> {
    match state {
        FileState::Included => "included"@,
        FileState::Truncated { kept, total } => "included, first "@ + size_text(kept as nat)
            + " of "@ + size_text(total as nat),
        FileState::Withheld { bytes } => "withheld, "@ + size_text(bytes as nat) + " of diff"@,
        FileState::Binary => "binary, no diff"@,
    }
}

impl FileChange {
    /// What became of the file, in words.
    pub fn describe(&self) -> (r: String)
        ensures
            r@ == state_text(self.state),
    {
        match self.state {
            FileState::Included => "included".to_owned(),
            FileState::Truncated { kept, total } => {
                let mut out = "included, first ".to_owned();
                out.append(kb(kept).as_str());
                out.append(" of ");
                out.append(kb(total).as_str());
                out
            },
            FileState::Withheld { bytes } => {
                let mut out = "withheld, ".to_owned();
                out.append(kb(bytes).as_str());
                out.append(" of diff");
                out
            },
            FileState::Binary => "binary, no diff".to_owned(),
        }
    }
}

/// The longest path, in bytes.
pub open spec fn widest(files: Seq<ChangeView>) -> nat
    decreases files.len(),
{
    if files.len() == 0 {
        0
    } else {
        let before = widest(files.drop_last());
        let last = text::byte_len(files.last().path);
        if before < last {
            last
        } else {
            before
        }
    }
}

/// The lines added and deleted in a file, or that it is binary.
pub open spec fn counts_text(file: ChangeView) -> Seq<char> {
    match (file.added, file.deleted) {
        (Some(added), Some(deleted)) => "+"@ + text::decimal(added as nat) + " -"@ + text::decimal(
            deleted as nat,
        ),
        _ => "binary"@,
    }
}

/// The line of the manifest for one file.
pub open spec fn manifest_line(file: ChangeView, width: nat) -> Seq<char> {
    text::pad_end(file.path, width) + "  "@ + text::pad_start(counts_text(file), 12) + "  "@
        + state_text(file.state) + "\n"@
}

/// The manifest of the files: one line for each, in order.
pub open spec fn manifest_text(files: Seq<ChangeView>, width: nat) -> Seq<char>
    decreases files.len(),
{
    if files.len() == 0 {
        Seq::empty()
    } else {
        manifest_text(files.drop_last(), width) + manifest_line(files.last(), width)
    }
}

/// The paths of the files.
pub open spec fn all_paths(files: Seq<ChangeView>) -> Seq<Seq<char>> {
    Seq::new(files.len(), |i: int| files[i].path)
}

/// The paths of the files that are not withheld.
pub open spec fn shown_paths(files: Seq<ChangeView>) -> Seq<Seq<char>>
    decreases files.len(),
{
    if files.len() == 0 {
        Seq::empty()
    } else {
        let before = shown_paths(files.drop_last());
        if files.last().state is Withheld {
            before
        } else {
            before.push(files.last().path)
        }
    }
}

/// A count, where there is one.
pub open spec fn count_or_zero(count: Option<u64>) -> nat {
    match count {
        Some(n) => n as nat,
        None => 0,
    }
}

/// The lines added in all files.
pub open spec fn total_added(files: Seq<ChangeView>) -> nat
    decreases files.len(),
{
    if files.len() == 0 {
        0
    } else {
        total_added(files.drop_last()) + count_or_zero(files.last().added)
    }
}

/// The lines deleted in all files.
pub open spec fn total_deleted(files: Seq<ChangeView>) -> nat
    decreases files.len(),
{
    if files.len() == 0 {
        0
    } else {
        total_deleted(files.drop_last()) + count_or_zero(files.last().deleted)
    }
}

/// The first files have no more lines than all of them.
proof fn lemma_totals_grow(files: Seq<ChangeView>, n: int)
    requires
        0 <= n <= files.len(),
    ensures
        total_added(files.take(n)) <= total_added(files),
        total_deleted(files.take(n)) <= total_deleted(files),
    decreases files.len() - n,
{
    if n < files.len() {
        lemma_totals_grow(files, n + 1);
        assert(files.take(n + 1).drop_last() =~= files.take(n));
    } else {
        assert(files.take(n) =~= files);
    }
}

/// What the model gets when it asks for lines of a withheld diff.
pub open spec fn read_reply(diff: DiffView, path: Seq<char>, offset: nat, limit: nat) -> Seq<char> {
    match ordered::get(diff.withheld, path) {
        None => "no withheld diff for "@ + outside::debug_quoted(path) + ". Withheld files: "@
            + text::join(ordered::keys(diff.withheld), ", "@),
        Some(chunk) => {
            let lines = text::lines(chunk);
            if offset >= lines.len() {
                path + " has "@ + text::decimal(lines.len()) + " lines, "@ + text::decimal(offset)
                    + " is past the end"@
            } else {
                let end = if offset + limit < lines.len() {
                    offset + limit
                } else {
                    lines.len()
                };
                path + " lines "@ + text::decimal(offset) + ".."@ + text::decimal(end) + " of "@
                    + text::decimal(lines.len()) + "\n"@ + text::join(
                    lines.subrange(offset as int, end as int),
                    "\n"@,
                )
            }
        },
    }
}

/// The lines of one withheld diff that match, each with its path and number.
/// `matched` says of each line whether it does.
pub open spec fn file_hits(
    path: Seq<char>,
    lines: Seq<Seq<char>>,
    matched: Seq<bool>,
    n: nat,
) -> Seq<(Seq<char>, nat, Seq<char>)>
    decreases n,
{
    if n == 0 {
        Seq::empty()
    } else {
        let before = file_hits(path, lines, matched, (n - 1) as nat);
        if matched[n - 1] {
            before.push((path, (n - 1) as nat, lines[n - 1]))
        } else {
            before
        }
    }
}

/// The lines of the first `n` withheld diffs that match.
pub open spec fn search_hits(
    withheld: Seq<(Seq<char>, Seq<char>)>,
    matched: Seq<Seq<bool>>,
    n: nat,
) -> Seq<(Seq<char>, nat, Seq<char>)>
    decreases n,
{
    if n == 0 {
        Seq::empty()
    } else {
        let lines = text::lines(withheld[n - 1].1);
        search_hits(withheld, matched, (n - 1) as nat) + file_hits(
            withheld[n - 1].0,
            lines,
            matched[n - 1],
            lines.len(),
        )
    }
}

/// The line that reports a match.
pub open spec fn hit_line(hit: (Seq<char>, nat, Seq<char>)) -> Seq<char> {
    hit.0 + ":"@ + text::decimal(hit.1) + ": "@ + text::trim_end(hit.2) + "\n"@
}

/// The lines that report the first `n` matches, until the budget is spent.
pub open spec fn hit_lines(hits: Seq<(Seq<char>, nat, Seq<char>)>, budget: nat, n: nat) -> Seq<char>
    decreases n,
{
    if n == 0 {
        Seq::empty()
    } else {
        let before = hit_lines(hits, budget, (n - 1) as nat);
        if text::byte_len(before) < budget {
            before + hit_line(hits[n - 1])
        } else {
            before
        }
    }
}

/// What the model gets when its search finds these lines.
pub open spec fn search_reply(
    pattern: Seq<char>,
    hits: Seq<(Seq<char>, nat, Seq<char>)>,
    budget: nat,
) -> Seq<char> {
    let out = hit_lines(hits, budget, hits.len());
    if hits.len() == 0 {
        "no match for "@ + outside::debug_quoted(pattern) + " in any withheld diff"@
    } else if text::byte_len(out) >= budget {
        out + "... "@ + text::decimal(hits.len()) + " matches in total, output truncated\n"@
    } else {
        out
    }
}

/// For each line of each withheld diff, whether an expression matches it.
pub open spec fn regex_flags(regex: regex::Regex, withheld: Seq<(Seq<char>, Seq<char>)>) -> Seq<
    Seq<bool>,
> {
    Seq::new(
        withheld.len(),
        |i: int|
            Seq::new(
                text::lines(withheld[i].1).len(),
                |j: int| outside::regex_matches(regex, text::lines(withheld[i].1)[j]),
            ),
    )
}

/// What a search for a pattern gives: an error where the pattern is not a
/// regular expression, and the matching lines otherwise. Case does not matter.
pub open spec fn search_outcome(diff: DiffView, pattern: Seq<char>, budget: nat) -> Seq<char> {
    match outside::regex_built(pattern, true, 0x10_0000) {
        Err(error) => outside::debug_quoted(pattern) + " is not a valid regular expression: "@
            + outside::regex_error_shown(error),
        Ok(regex) => search_reply(
            pattern,
            search_hits(diff.withheld, regex_flags(regex, diff.withheld), diff.withheld.len()),
            budget,
        ),
    }
}

/// The flags of each list.
pub open spec fn flags(matched: Seq<Vec<bool>>) -> Seq<Seq<bool>> {
    Seq::new(matched.len(), |i: int| matched[i]@)
}

/// One flag for each line of each withheld diff.
pub open spec fn flags_fit(withheld: Seq<(Seq<char>, Seq<char>)>, matched: Seq<Seq<bool>>) -> bool {
    &&& matched.len() == withheld.len()
    &&& forall|i: int|
        0 <= i < withheld.len() ==> #[trigger] matched[i].len() == text::lines(withheld[i].1).len()
}

/// A line that matched, with its path and number.
struct Hit {
    path: String,
    number: usize,
    line: String,
}

spec fn hit_texts(hits: Seq<Hit>) -> Seq<(Seq<char>, nat, Seq<char>)> {
    Seq::new(hits.len(), |i: int| (hits[i].path@, hits[i].number as nat, hits[i].line@))
}

/// The arguments of a retrieval tool call, as far as the model gave them.
#[derive(Debug)]
pub struct ToolArguments {
    pub path: Option<String>,
    pub offset: Option<u64>,
    pub limit: Option<u64>,
    pub pattern: Option<String>,
}

/// What a [`ToolArguments`] says.
pub struct ArgumentsView {
    pub path: Option<Seq<char>>,
    pub offset: Option<u64>,
    pub limit: Option<u64>,
    pub pattern: Option<Seq<char>>,
}

impl View for ToolArguments {
    type V = ArgumentsView;

    open spec fn view(&self) -> ArgumentsView {
        ArgumentsView {
            path: text::opt_text(self.path),
            offset: self.offset,
            limit: self.limit,
            pattern: text::opt_text(self.pattern),
        }
    }
}

/// The arguments that a JSON value gives.
pub open spec fn json_arguments(value: serde_json::Value) -> ArgumentsView {
    ArgumentsView {
        path: outside::json_text_at(value, "path"@),
        offset: outside::json_number_at(value, "offset"@),
        limit: outside::json_number_at(value, "limit"@),
        pattern: outside::json_text_at(value, "pattern"@),
    }
}

/// A text, or nothing where there is none.
pub open spec fn text_or_empty(s: Option<Seq<char>>) -> Seq<char> {
    match s {
        Some(s) => s,
        None => Seq::empty(),
    }
}

/// What the model gets when it calls a tool.
pub open spec fn tool_reply(
    diff: DiffView,
    name: Seq<char>,
    arguments: ArgumentsView,
    budget: nat,
) -> Seq<char> {
    if name == "read_diff"@ {
        read_reply(
            diff,
            text_or_empty(arguments.path),
            match arguments.offset {
                Some(n) => n as usize as nat,
                None => 0,
            },
            match arguments.limit {
                Some(n) => n as usize as nat,
                None => 200,
            },
        )
    } else if name == "search_diff"@ {
        search_outcome(diff, text_or_empty(arguments.pattern), budget)
    } else {
        "no such tool: "@ + name
    }
}

/// Reads the arguments of a tool call from JSON.
pub fn tool_arguments(source: &serde_json::Value) -> (r: ToolArguments)
    ensures
        r@ == json_arguments(*source),
{
    ToolArguments {
        path: outside::json_str(source, "path"),
        offset: outside::json_u64(source, "offset"),
        limit: outside::json_u64(source, "limit"),
        pattern: outside::json_str(source, "pattern"),
    }
}

impl Diff {
    /// The withheld files are in the order of their paths, so none occurs twice.
    pub proof fn law_withheld_is_sorted(self)
        requires
            self.wf(),
        ensures
            ordered::sorted(self@.withheld),
    {
        let p = self.withheld.pairs();
        assert forall|i: int, j: int| 0 <= i < j < p.len() implies text::text_lt(
            #[trigger] self@.withheld[i].0,
            #[trigger] self@.withheld[j].0,
        ) by {
            assert(text::text_lt(p[i].0, p[j].0));
        }
    }

    /// The files, in order.
    pub fn file_list(&self) -> (r: &Vec<FileChange>)
        ensures
            changes(r@) == self@.files,
    {
        &self.files
    }

    /// The hunks that are shown.
    pub fn included_text(&self) -> (r: &str)
        ensures
            r@ == self@.included,
    {
        self.included.as_str()
    }

    /// The manifest: every changed file, one line each.
    pub fn manifest(&self) -> (r: String)
        ensures
            r@ == manifest_text(self@.files, widest(self@.files)),
    {
        let ghost files = changes(self.files@);
        let mut width: usize = 0;
        for i in 0..self.files.len()
            invariant
                files == changes(self.files@),
                width == widest(files.take(i as int)),
        {
            assert(files.take(i + 1).drop_last() =~= files.take(i as int));
            let n = text::bytes_in(self.files[i].path.as_str());
            if width < n {
                width = n;
            }
        }
        assert(files.take(self.files@.len() as int) =~= files);
        let mut out = String::new();
        for i in 0..self.files.len()
            invariant
                files == changes(self.files@),
                out@ == manifest_text(files.take(i as int), width as nat),
        {
            assert(files.take(i + 1).drop_last() =~= files.take(i as int));
            let file = &self.files[i];
            let ghost before = out@;
            let mut counts = "binary".to_owned();
            if let (Some(added), Some(deleted)) = (file.added, file.deleted) {
                counts = "+".to_owned();
                counts.append(text::number(added as u128).as_str());
                counts.append(" -");
                counts.append(text::number(deleted as u128).as_str());
            }
            assert(counts@ =~= counts_text(file@));
            out.append(text::padded_end(file.path.as_str(), width).as_str());
            out.append("  ");
            out.append(text::padded_start(counts.as_str(), 12).as_str());
            out.append("  ");
            out.append(file.describe().as_str());
            out.append("\n");
            assert(out@ =~= before + manifest_line(file@, width as nat));
        }
        out
    }

    /// The paths of the withheld files, in order.
    pub fn withheld_paths(&self) -> (r: Vec<String>)
        ensures
            text::texts(r@) == ordered::keys(self@.withheld),
    {
        let mut out: Vec<String> = Vec::new();
        let total = self.withheld.len();
        for i in 0..total
            invariant
                total == self@.withheld.len(),
                text::texts(out@) == ordered::keys(self@.withheld).take(i as int),
        {
            let ghost before = text::texts(out@);
            let key = self.withheld.key(i).clone();
            out.push(key);
            assert(text::texts(out@) =~= before.push(key@));
            assert(text::texts(out@) =~= ordered::keys(self@.withheld).take(i + 1));
        }
        assert(ordered::keys(self@.withheld).take(total as int) =~= ordered::keys(self@.withheld));
        out
    }

    /// The paths of the files whose hunks are not withheld, in order.
    pub fn included_paths(&self) -> (r: Vec<String>)
        ensures
            text::texts(r@) == shown_paths(self@.files),
    {
        let ghost files = changes(self.files@);
        let mut out: Vec<String> = Vec::new();
        assert(text::texts(out@) =~= Seq::empty());
        for i in 0..self.files.len()
            invariant
                files == changes(self.files@),
                text::texts(out@) == shown_paths(files.take(i as int)),
        {
            assert(files.take(i + 1).drop_last() =~= files.take(i as int));
            let ghost before = text::texts(out@);
            let file = &self.files[i];
            match file.state {
                FileState::Withheld { .. } => {},
                _ => {
                    let path = file.path.clone();
                    out.push(path);
                    assert(text::texts(out@) =~= before.push(path@));
                },
            }
        }
        assert(files.take(self.files@.len() as int) =~= files);
        out
    }

    /// Whether the lines added, and the lines removed, across the whole staged
    /// change can be counted.
    pub fn totals_fit(&self) -> (r: bool)
        ensures
            r == (total_added(self@.files) <= u64::MAX && total_deleted(self@.files) <= u64::MAX),
    {
        let ghost files = changes(self.files@);
        let mut added: u64 = 0;
        let mut deleted: u64 = 0;
        for i in 0..self.files.len()
            invariant
                files == changes(self.files@),
                added == total_added(files.take(i as int)),
                deleted == total_deleted(files.take(i as int)),
        {
            assert(files.take(i + 1).drop_last() =~= files.take(i as int));
            proof {
                lemma_totals_grow(files, i + 1);
            }
            let more = self.files[i].added.unwrap_or(0);
            let less = self.files[i].deleted.unwrap_or(0);
            if more > u64::MAX - added || less > u64::MAX - deleted {
                return false;
            }
            added = added + more;
            deleted = deleted + less;
        }
        assert(files.take(self.files@.len() as int) =~= files);
        true
    }

    /// Lines added and removed across the whole staged change. Binary files
    /// have no counts, so they contribute nothing rather than zero.
    pub fn totals(&self) -> (r: (u64, u64))
        requires
            total_added(self@.files) <= u64::MAX,
            total_deleted(self@.files) <= u64::MAX,
        ensures
            r.0 == total_added(self@.files),
            r.1 == total_deleted(self@.files),
    {
        let ghost files = changes(self.files@);
        let mut added: u64 = 0;
        let mut deleted: u64 = 0;
        for i in 0..self.files.len()
            invariant
                files == changes(self.files@),
                total_added(files) <= u64::MAX,
                total_deleted(files) <= u64::MAX,
                added == total_added(files.take(i as int)),
                deleted == total_deleted(files.take(i as int)),
        {
            assert(files.take(i + 1).drop_last() =~= files.take(i as int));
            proof {
                lemma_totals_grow(files, i + 1);
            }
            added = added + self.files[i].added.unwrap_or(0);
            deleted = deleted + self.files[i].deleted.unwrap_or(0);
        }
        assert(files.take(self.files@.len() as int) =~= files);
        (added, deleted)
    }

    /// The paths of all files, in order.
    pub fn paths(&self) -> (r: Vec<String>)
        ensures
            text::texts(r@) == all_paths(self@.files),
    {
        let ghost files = changes(self.files@);
        let mut out: Vec<String> = Vec::new();
        for i in 0..self.files.len()
            invariant
                files == changes(self.files@),
                text::texts(out@) == all_paths(files).take(i as int),
        {
            let ghost before = text::texts(out@);
            let path = self.files[i].path.clone();
            out.push(path);
            assert(text::texts(out@) =~= before.push(path@));
            assert(text::texts(out@) =~= all_paths(files).take(i + 1));
        }
        assert(all_paths(files).take(self.files@.len() as int) =~= all_paths(files));
        out
    }

    /// Whether the hunks of any file are withheld.
    pub fn has_withheld(&self) -> (r: bool)
        ensures
            r == (self@.withheld.len() > 0),
    {
        self.withheld.len() > 0
    }

    /// A slice of one withheld file's diff, so a large lockfile change can be
    /// read a few hundred lines at a time.
    pub fn read_withheld(&self, path: &str, offset: usize, limit: usize) -> (r: String)
        requires
            self.wf(),
        ensures
            r@ == read_reply(self@, path@, offset as nat, limit as nat),
    {
        proof {
            lemma_text_pairs_get(self.withheld.pairs(), path@);
        }
        match self.withheld.find(path) {
            None => {
                let mut out = "no withheld diff for ".to_owned();
                out.append(outside::quote(path).as_str());
                out.append(". Withheld files: ");
                let paths = self.withheld_paths();
                out.append(text::joined(paths.as_slice(), ", ").as_str());
                out
            },
            Some(chunk) => {
                let lines = text::lines_of(chunk.as_str());
                let ghost all = text::texts(lines@);
                let total = lines.len();
                let mut out = path.to_owned();
                if offset >= total {
                    out.append(" has ");
                    out.append(text::number(total as u128).as_str());
                    out.append(" lines, ");
                    out.append(text::number(offset as u128).as_str());
                    out.append(" is past the end");
                    return out;
                }
                let end = if limit < total - offset {
                    offset + limit
                } else {
                    total
                };
                let mut part: Vec<String> = Vec::new();
                for i in offset..end
                    invariant
                        offset <= end <= lines@.len(),
                        all == text::texts(lines@),
                        text::texts(part@) == all.subrange(offset as int, i as int),
                {
                    let ghost before = text::texts(part@);
                    let line = lines[i].clone();
                    part.push(line);
                    assert(text::texts(part@) =~= before.push(line@));
                    assert(text::texts(part@) =~= all.subrange(offset as int, i + 1));
                }
                out.append(" lines ");
                out.append(text::number(offset as u128).as_str());
                out.append("..");
                out.append(text::number(end as u128).as_str());
                out.append(" of ");
                out.append(text::number(total as u128).as_str());
                out.append("\n");
                out.append(text::joined(part.as_slice(), "\n").as_str());
                out
            },
        }
    }

    /// Dispatches one retrieval tool call. The model names the tool; the
    /// diff decides what it can see.
    pub fn answer_tool(&self, name: &str, arguments: &ToolArguments, budget: usize) -> (r: String)
        requires
            self.wf(),
        ensures
            r@ == tool_reply(self@, name@, arguments@, budget as nat),
    {
        let nothing = String::new();
        assert(nothing@ =~= Seq::empty());
        if text::same(name, "read_diff") {
            let path = match &arguments.path {
                Some(path) => path.as_str(),
                None => nothing.as_str(),
            };
            let offset = match arguments.offset {
                Some(n) => n as usize,
                None => 0,
            };
            let limit = match arguments.limit {
                Some(n) => n as usize,
                None => 200,
            };
            self.read_withheld(path, offset, limit)
        } else if text::same(name, "search_diff") {
            let pattern = match &arguments.pattern {
                Some(pattern) => pattern.as_str(),
                None => nothing.as_str(),
            };
            self.search_withheld(pattern, budget)
        } else {
            let mut out = "no such tool: ".to_owned();
            out.append(name);
            out
        }
    }

    /// Dispatches one retrieval tool call. The model names the tool; the
    /// diff decides what it can see.
    pub fn call_tool(&self, name: &str, arguments: &serde_json::Value, budget: usize) -> (r: String)
        requires
            self.wf(),
        ensures
            r@ == tool_reply(self@, name@, json_arguments(*arguments), budget as nat),
    {
        let parsed = tool_arguments(arguments);
        self.answer_tool(name, &parsed, budget)
    }

    /// Reports the lines that matched. `matched` says of each line of each
    /// withheld diff whether it did.
    pub fn report_matches(&self, pattern: &str, matched: &Vec<Vec<bool>>, budget: usize) -> (r:
        String)
        requires
            flags_fit(self@.withheld, flags(matched@)),
        ensures
            r@ == search_reply(
                pattern@,
                search_hits(self@.withheld, flags(matched@), self@.withheld.len()),
                budget as nat,
            ),
    {
        let ghost withheld = self@.withheld;
        let mut hits: Vec<Hit> = Vec::new();
        let total = self.withheld.len();
        assert(hit_texts(hits@) =~= Seq::empty());
        for i in 0..total
            invariant
                withheld == self@.withheld,
                total == withheld.len(),
                flags_fit(withheld, flags(matched@)),
                hit_texts(hits@) == search_hits(withheld, flags(matched@), i as nat),
        {
            let ghost before = hit_texts(hits@);
            let path = self.withheld.key(i);
            let lines = text::lines_of(self.withheld.value(i).as_str());
            let ghost all = text::texts(lines@);
            let row = &matched[i];
            assert(flags(matched@)[i as int] == row@);
            assert(all == text::lines(withheld[i as int].1));
            assert(before =~= before + file_hits(path@, all, row@, 0));
            for j in 0..lines.len()
                invariant
                    all == text::texts(lines@),
                    row@.len() == lines@.len(),
                    hit_texts(hits@) == before + file_hits(path@, all, row@, j as nat),
            {
                let ghost so_far = hit_texts(hits@);
                if row[j] {
                    let hit = Hit { path: path.clone(), number: j, line: lines[j].clone() };
                    hits.push(hit);
                    assert(hit_texts(hits@) =~= so_far.push((path@, j as nat, all[j as int])));
                    assert(so_far.push((path@, j as nat, all[j as int])) =~= before + file_hits(
                        path@,
                        all,
                        row@,
                        (j + 1) as nat,
                    ));
                }
            }
        }
        let ghost found = hit_texts(hits@);
        let mut out = String::new();
        for i in 0..hits.len()
            invariant
                found == hit_texts(hits@),
                out@ == hit_lines(found, budget as nat, i as nat),
        {
            if text::bytes_in(out.as_str()) < budget {
                let hit = &hits[i];
                let ghost before = out@;
                out.append(hit.path.as_str());
                out.append(":");
                out.append(text::number(hit.number as u128).as_str());
                out.append(": ");
                out.append(text::trimmed_end(hit.line.as_str()).as_str());
                out.append("\n");
                assert(out@ =~= before + hit_line(found[i as int]));
            }
        }
        if hits.len() == 0 {
            let mut none = "no match for ".to_owned();
            none.append(outside::quote(pattern).as_str());
            none.append(" in any withheld diff");
            return none;
        }
        if text::bytes_in(out.as_str()) >= budget {
            out.append("... ");
            out.append(text::number(hits.len() as u128).as_str());
            out.append(" matches in total, output truncated\n");
        }
        out
    }

    /// Matching lines across every withheld diff. A lockfile change that
    /// matters usually matters because of one named package, so a search finds
    /// it in one call where paging would take twenty.
    pub fn search_withheld(&self, pattern: &str, budget: usize) -> (r: String)
        ensures
            r@ == search_outcome(self@, pattern@, budget as nat),
    {
        let regex = match outside::build_regex(pattern, true, 0x10_0000) {
            Ok(regex) => regex,
            Err(error) => {
                let mut out = outside::quote(pattern);
                out.append(" is not a valid regular expression: ");
                out.append(outside::regex_error_text(&error).as_str());
                return out;
            },
        };
        let ghost withheld = self@.withheld;
        let ghost wanted = regex_flags(regex, withheld);
        let mut matched: Vec<Vec<bool>> = Vec::new();
        let total = self.withheld.len();
        for i in 0..total
            invariant
                withheld == self@.withheld,
                total == withheld.len(),
                wanted == regex_flags(regex, withheld),
                flags(matched@) == wanted.take(i as int),
        {
            let ghost before = flags(matched@);
            let lines = text::lines_of(self.withheld.value(i).as_str());
            let ghost all = text::texts(lines@);
            assert(all == text::lines(withheld[i as int].1));
            let mut row: Vec<bool> = Vec::new();
            for j in 0..lines.len()
                invariant
                    all == text::texts(lines@),
                    row@.len() == j,
                    forall|k: int|
                        0 <= k < j ==> row@[k] == #[trigger] outside::regex_matches(regex, all[k]),
            {
                row.push(outside::regex_is_match(&regex, lines[j].as_str()));
            }
            assert(row@ =~= wanted[i as int]);
            matched.push(row);
            assert(flags(matched@) =~= before.push(row@));
            assert(flags(matched@) =~= wanted.take(i + 1));
        }
        assert(wanted.take(total as int) =~= wanted);
        self.report_matches(pattern, &matched, budget)
    }
}

// ---------------------------------------------------------------------------
// What is asked of git, and what its answers say
// ---------------------------------------------------------------------------

/// What came of running git.
#[derive(Debug)]
pub struct Finished {
    pub success: bool,
    pub stdout: String,
    pub stderr: String,
}

/// What a git command gave: its standard output, or the error git printed.
pub fn command_output(args: &Vec<String>, run: Result<Finished, String>) -> (r: Result<
    String,
    GitError,
>)
    ensures
        match run {
            Err(why) => r == Err::<String, GitError>(GitError::Spawn(why)),
            Ok(finished) => if finished.success {
                r == Ok::<String, GitError>(finished.stdout)
            } else {
                &&& r matches Err(GitError::Failed { command, stderr })
                &&& command@ == text::join(text::texts(args@), " "@)
                &&& stderr@ == text::trim(finished.stderr@)
            },
        },
{
    match run {
        Err(why) => Err(GitError::Spawn(why)),
        Ok(finished) => if finished.success {
            Ok(finished.stdout)
        } else {
            Err(
                GitError::Failed {
                    command: text::joined(args.as_slice(), " "),
                    stderr: text::trimmed(finished.stderr.as_str()),
                },
            )
        },
    }
}

/// What an answer that is allowed to come back empty says, if anything.
pub open spec fn answer_text(output: Result<String, GitError>) -> Option<Seq<char>> {
    match output {
        Ok(stdout) => if text::blank(stdout@) {
            None
        } else {
            Some(text::trim(stdout@))
        },
        Err(_) => None,
    }
}

/// Like the output of a command, but an exit code is an answer rather than a
/// failure. Used for the queries that are allowed to come back empty, such as a
/// config lookup.
pub fn optional_answer(output: Result<String, GitError>) -> (r: Option<String>)
    ensures
        text::opt_text(r) == answer_text(output),
{
    match output {
        Ok(stdout) => if text::is_blank(stdout.as_str()) {
            None
        } else {
            Some(text::trimmed(stdout.as_str()))
        },
        Err(_) => None,
    }
}

/// The root of the repository, from what git says of it.
pub fn repo_root(output: Result<String, GitError>) -> (r: Result<String, GitError>)
    ensures
        match output {
            Ok(stdout) => r matches Ok(root) && root@ == text::trim(stdout@),
            Err(_) => r matches Err(GitError::NotARepository),
        },
{
    match output {
        Ok(stdout) => Ok(text::trimmed(stdout.as_str())),
        Err(_) => Err(GitError::NotARepository),
    }
}

/// What git says in one line, without the white space around it.
pub fn trimmed_answer(output: Result<String, GitError>) -> (r: Result<String, GitError>)
    ensures
        match output {
            Ok(stdout) => r matches Ok(answer) && answer@ == text::trim(stdout@),
            Err(error) => r == Err::<String, GitError>(error),
        },
{
    match output {
        Ok(stdout) => Ok(text::trimmed(stdout.as_str())),
        Err(error) => Err(error),
    }
}

/// The branch that is checked out, from what git says `HEAD` is.
pub fn branch_name(output: Result<String, GitError>) -> (r: Option<String>)
    ensures
        text::opt_text(r) == match answer_text(output) {
            Some(name) => if name == "HEAD"@ {
                None
            } else {
                Some(name)
            },
            None => None,
        },
{
    match optional_answer(output) {
        Some(name) => if text::same(name.as_str(), "HEAD") {
            None
        } else {
            Some(name)
        },
        None => None,
    }
}

/// Where the commit message template of a repository is kept.
pub open spec fn template_file(root: Seq<char>, configured: Option<Seq<char>>) -> Seq<char> {
    let path = match configured {
        Some(path) => path,
        None => ".gitmessage"@,
    };
    if configured is Some && text::starts_with(path, "/"@) {
        path
    } else {
        config::join_path(root, path)
    }
}

/// Where the commit message template of a repository is kept: where it says, or
/// else in `.gitmessage`.
pub fn template_path(root: &str, configured: Option<&str>) -> (r: String)
    ensures
        r@ == match configured {
            Some(path) => if text::starts_with(path@, "/"@) {
                path@
            } else {
                config::join_path(root@, path@)
            },
            None => config::join_path(root@, ".gitmessage"@),
        },
        r@ == template_file(root@, config::opt_str_text(configured)),
{
    match configured {
        Some(path) => if text::begins_with(path, "/") {
            path.to_owned()
        } else {
            config::joined_path(root, path)
        },
        None => config::joined_path(root, ".gitmessage"),
    }
}

/// The commit message template this repository asks for, if it has one. A
/// template states the convention outright, so it outranks any example.
pub fn commit_template(file: Option<String>) -> (r: Option<String>)
    ensures
        r == match file {
            Some(template) => if text::blank(template@) {
                None
            } else {
                file
            },
            None => None,
        },
{
    match file {
        Some(template) => if text::is_blank(template.as_str()) {
            None
        } else {
            Some(template)
        },
        None => None,
    }
}

fn with_number(prefix: &str, count: usize) -> (r: String)
    ensures
        r@ == prefix@ + text::decimal(count as nat),
{
    let mut out = prefix.to_owned();
    out.append(text::number(count as u128).as_str());
    out
}

/// What is asked of git for the last commits.
pub fn recent_commits_args(count: usize) -> (r: Vec<String>)
    ensures
        text::texts(r@) == seq![
            "log"@,
            "-n"@ + text::decimal(count as nat),
            "--format=%s%n%b%n---"@,
        ],
{
    let args = vec![
        "log".to_owned(),
        with_number("-n", count),
        "--format=%s%n%b%n---".to_owned(),
    ];
    assert(text::texts(args@) =~= seq![
        "log"@,
        "-n"@ + text::decimal(count as nat),
        "--format=%s%n%b%n---"@,
    ]);
    args
}

/// A commit of the past. One that carries no body has an empty one.
#[derive(Debug)]
pub struct PastCommit {
    pub subject: String,
    pub body: String,
}

/// What a [`PastCommit`] says.
pub struct PastView {
    pub subject: Seq<char>,
    pub body: Seq<char>,
}

impl View for PastCommit {
    type V = PastView;

    open spec fn view(&self) -> PastView {
        PastView { subject: self.subject@, body: self.body@ }
    }
}

/// What the commits of a list say.
pub open spec fn past_views(commits: Seq<PastCommit>) -> Seq<PastView> {
    Seq::new(commits.len(), |i: int| commits[i]@)
}

/// The commit that the lines of one record describe: the subject comes first,
/// and what follows is the body.
pub open spec fn past_commit(record: Seq<Seq<char>>) -> PastView {
    PastView {
        subject: record[0],
        body: text::trim(text::join(record.drop_first(), "\n"@)),
    }
}

/// The commits that the lines of a log describe. A line of three dashes ends a
/// record, and so does the end of the log; a record without lines is none.
pub open spec fn logged(lines: Seq<Seq<char>>, record: Seq<Seq<char>>) -> Seq<PastView>
    decreases lines.len(),
{
    let ended = if record.len() == 0 {
        Seq::empty()
    } else {
        seq![past_commit(record)]
    };
    if lines.len() == 0 {
        ended
    } else if lines[0] == "---"@ {
        ended + logged(lines.drop_first(), Seq::empty())
    } else {
        logged(lines.drop_first(), record.push(lines[0]))
    }
}

fn commit_of(record: &Vec<String>) -> (r: PastCommit)
    requires
        record.len() > 0,
    ensures
        r@ == past_commit(text::texts(record@)),
{
    let mut rest: Vec<String> = Vec::new();
    for i in 1..record.len()
        invariant
            rest.len() == i - 1,
            forall|j: int| 0 <= j < i - 1 ==> #[trigger] rest@[j] == record@[j + 1],
    {
        rest.push(record[i].clone());
    }
    assert(text::texts(rest@) =~= text::texts(record@).drop_first());
    let body = text::joined(rest.as_slice(), "\n");
    PastCommit { subject: record[0].clone(), body: text::trimmed(body.as_str()) }
}

/// The commits that a log describes.
pub fn recent_commits(log: Option<&str>) -> (r: Vec<PastCommit>)
    ensures
        past_views(r@) == match log {
            Some(log) => logged(text::lines(log@), Seq::empty()),
            None => Seq::empty(),
        },
{
    let mut out: Vec<PastCommit> = Vec::new();
    let log = match log {
        Some(log) => log,
        None => {
            assert(past_views(out@) =~= Seq::empty());
            return out;
        },
    };
    let lines = text::lines_of(log);
    let mut record: Vec<String> = Vec::new();
    let ghost all = text::texts(lines@);
    let ghost whole = logged(all, Seq::empty());
    assert(all.skip(0) =~= all);
    assert(text::texts(record@) =~= Seq::empty());
    assert(past_views(out@) + whole =~= whole);
    for i in 0..lines.len()
        invariant
            all == text::texts(lines@),
            past_views(out@) + logged(all.skip(i as int), text::texts(record@)) == whole,
    {
        let ghost rest = all.skip(i as int);
        assert(rest.drop_first() =~= all.skip(i + 1));
        assert(rest[0] == lines@[i as int]@);
        if text::same(lines[i].as_str(), "---") {
            let ghost before = past_views(out@);
            if record.len() > 0 {
                let commit = commit_of(&record);
                let ghost view = commit@;
                let ghost old_out = out@;
                out.push(commit);
                assert(past_views(out@) =~= past_views(old_out) + seq![view]);
            } else {
                assert(before + Seq::<PastView>::empty() =~= before);
            }
            let ghost ended = if record@.len() == 0 {
                Seq::empty()
            } else {
                seq![past_commit(text::texts(record@))]
            };
            assert(past_views(out@) =~= before + ended);
            assert(before + (ended + logged(rest.drop_first(), Seq::empty())) =~= (before + ended)
                + logged(rest.drop_first(), Seq::empty()));
            record = Vec::new();
            assert(text::texts(record@) =~= Seq::empty());
        } else {
            let ghost old_record = text::texts(record@);
            record.push(lines[i].clone());
            assert(text::texts(record@) =~= old_record.push(rest[0]));
        }
    }
    assert(all.skip(all.len() as int) =~= Seq::empty());
    if record.len() > 0 {
        let commit = commit_of(&record);
        let ghost view = commit@;
        let ghost old_out = out@;
        out.push(commit);
        assert(past_views(out@) =~= past_views(old_out) + seq![view]);
    } else {
        assert(past_views(out@) + Seq::<PastView>::empty() =~= past_views(out@));
    }
    out
}

/// What is asked of git for the commits that touch the same files as the staged
/// change. These carry the conventions of this part of the tree, which a
/// repository-wide sample dilutes. Where there are no files, nothing is asked.
pub fn commits_touching_args(paths: &Vec<String>, count: usize) -> (r: Option<Vec<String>>)
    ensures
        match r {
            Some(args) => paths@.len() > 0 && text::texts(args@) == seq![
                "log"@,
                "-n"@ + text::decimal(count as nat),
                "--format=%s"@,
                "--"@,
            ] + text::texts(paths@),
            None => paths@.len() == 0,
        },
{
    if paths.len() == 0 {
        return None;
    }
    let mut args = vec![
        "log".to_owned(),
        with_number("-n", count),
        "--format=%s".to_owned(),
        "--".to_owned(),
    ];
    let ghost head = seq![
        "log"@,
        "-n"@ + text::decimal(count as nat),
        "--format=%s"@,
        "--"@,
    ];
    assert(text::texts(args@) =~= head);
    assert(head + text::texts(paths@.take(0)) =~= head);
    for i in 0..paths.len()
        invariant
            text::texts(args@) == head + text::texts(paths@.take(i as int)),
    {
        let ghost old_args = args@;
        args.push(paths[i].clone());
        assert(text::texts(args@) =~= text::texts(old_args).push(paths@[i as int]@));
        assert(text::texts(paths@.take(i + 1)) =~= text::texts(paths@.take(i as int)).push(
            paths@[i as int]@,
        ));
        assert(text::texts(args@) =~= head + text::texts(paths@.take(i + 1)));
    }
    assert(paths@.take(paths@.len() as int) =~= paths@);
    Some(args)
}

/// The file that a line of `git status --porcelain` names, with its status. A
/// rename reads `R  old -> new`; the new name is the useful half.
pub open spec fn status_entry(line: Seq<char>) -> Option<(Seq<char>, Seq<char>)> {
    match text::split_bytes(line, 3) {
        Some(parts) => Some((text::trim(parts.0), text::after_last(parts.1, " -> "@))),
        None => None,
    }
}

/// The files that the lines of `git status --porcelain` name, each with its
/// status. A line that is too short for a status names none.
pub open spec fn status_entries(lines: Seq<Seq<char>>) -> Seq<(Seq<char>, Seq<char>)>
    decreases lines.len(),
{
    if lines.len() == 0 {
        Seq::empty()
    } else {
        let before = status_entries(lines.drop_last());
        match status_entry(lines.last()) {
            Some(entry) => before.push(entry),
            None => before,
        }
    }
}

/// The texts of a list of pairs.
pub open spec fn pair_texts(pairs: Seq<(String, String)>) -> Seq<(Seq<char>, Seq<char>)> {
    Seq::new(pairs.len(), |i: int| (pairs[i].0@, pairs[i].1@))
}

/// Files changed in the working tree but not staged, each with its porcelain
/// status, so the "nothing staged" message can say what is there instead of
/// only what is missing.
///
/// Read without trimming: the first column of a porcelain line is a space for
/// an unstaged change, and trimming it shifts every field of that line.
pub fn unstaged_files(porcelain: &str) -> (r: Vec<(String, String)>)
    ensures
        pair_texts(r@) == status_entries(text::lines(porcelain@)),
{
    let lines = text::lines_of(porcelain);
    let mut out: Vec<(String, String)> = Vec::new();
    let ghost all = text::texts(lines@);
    assert(pair_texts(out@) =~= status_entries(all.take(0)));
    for i in 0..lines.len()
        invariant
            all == text::texts(lines@),
            pair_texts(out@) == status_entries(all.take(i as int)),
    {
        assert(all.take(i + 1).drop_last() =~= all.take(i as int));
        assert(all.take(i + 1).last() == lines@[i as int]@);
        if let Some(parts) = text::split_at_byte(lines[i].as_str(), 3) {
            let ghost before = out@;
            out.push(
                (
                    text::trimmed(parts.0.as_str()),
                    text::part_after_last(parts.1.as_str(), " -> "),
                ),
            );
            assert(pair_texts(out@) =~= pair_texts(before).push(
                (text::trim(parts.0@), text::after_last(parts.1@, " -> "@)),
            ));
        }
    }
    assert(all.take(all.len() as int) =~= all);
    out
}

/// The next step in finding the default branch.
#[derive(Debug)]
pub enum Probe {
    /// Ask git whether this names something.
    Ask(String),
    /// This is the default branch.
    Found(String),
}

/// The names that the default branch may have.
pub open spec fn default_names() -> Seq<Seq<char>> {
    seq!["origin/main"@, "origin/master"@, "main"@, "master"@]
}

/// The first of the answers that is yes.
pub open spec fn first_yes(answers: Seq<bool>) -> Option<nat>
    decreases answers.len(),
{
    if answers.len() == 0 {
        None
    } else if answers[0] {
        Some(0)
    } else {
        match first_yes(answers.drop_first()) {
            Some(n) => Some(n + 1),
            None => None,
        }
    }
}

/// The default branch: what the remote says it is, or else the first of the usual
/// names that exists, or else `HEAD`. `answers` says of the names that were asked
/// for, in order, which exist.
pub fn default_branch(head: Option<String>, answers: &Vec<bool>) -> (r: Probe)
    requires
        answers@.len() <= default_names().len(),
    ensures
        match head {
            Some(head) => r == Probe::Found(head),
            None => match first_yes(answers@) {
                Some(n) => r matches Probe::Found(name) && name@ == default_names()[n as int],
                None => if answers@.len() < default_names().len() {
                    r matches Probe::Ask(name) && name@ == default_names()[answers@.len() as int]
                } else {
                    r matches Probe::Found(name) && name@ == "HEAD"@
                },
            },
        },
{
    if let Some(head) = head {
        return Probe::Found(head);
    }
    let names = vec![
        "origin/main".to_owned(),
        "origin/master".to_owned(),
        "main".to_owned(),
        "master".to_owned(),
    ];
    assert(text::texts(names@) =~= default_names());
    assert(answers@.skip(0) =~= answers@);
    for i in 0..answers.len()
        invariant
            head is None,
            text::texts(names@) == default_names(),
            answers@.len() <= names@.len(),
            match first_yes(answers@.skip(i as int)) {
                Some(n) => first_yes(answers@) == Some((i + n) as nat),
                None => first_yes(answers@) is None,
            },
    {
        assert(answers@.skip(i as int).drop_first() =~= answers@.skip(i + 1));
        if answers[i] {
            assert(default_names()[i as int] == names@[i as int]@);
            return Probe::Found(names[i].clone());
        }
    }
    assert(answers@.skip(answers@.len() as int) =~= Seq::empty());
    if answers.len() < names.len() {
        assert(default_names()[answers@.len() as int] == names@[answers@.len() as int]@);
        Probe::Ask(names[answers.len()].clone())
    } else {
        Probe::Found("HEAD".to_owned())
    }
}

/// What is asked of git for the names of recent branches, local and remote.
/// Without these a suggestion invents a convention instead of matching the one in
/// use.
pub fn recent_branches_args(count: usize) -> (r: Vec<String>)
    ensures
        text::texts(r@) == seq![
            "for-each-ref"@,
            "--sort=-committerdate"@,
            "--count="@ + text::decimal(count as nat),
            "--format=%(refname:short)"@,
            "refs/heads"@,
            "refs/remotes"@,
        ],
{
    let args = vec![
        "for-each-ref".to_owned(),
        "--sort=-committerdate".to_owned(),
        with_number("--count=", count),
        "--format=%(refname:short)".to_owned(),
        "refs/heads".to_owned(),
        "refs/remotes".to_owned(),
    ];
    assert(text::texts(args@) =~= seq![
        "for-each-ref"@,
        "--sort=-committerdate"@,
        "--count="@ + text::decimal(count as nat),
        "--format=%(refname:short)"@,
        "refs/heads"@,
        "refs/remotes"@,
    ]);
    args
}

/// The lines of a listing, where there is one.
pub fn recent_branches(listing: Option<&str>) -> (r: Vec<String>)
    ensures
        text::texts(r@) == match listing {
            Some(listing) => text::lines(listing@),
            None => Seq::empty(),
        },
{
    match listing {
        Some(listing) => text::lines_of(listing),
        None => {
            let none: Vec<String> = Vec::new();
            assert(text::texts(none@) =~= Seq::empty());
            none
        },
    }
}

/// What is asked of git for the commits since a base.
pub fn commits_since_args(base: &str) -> (r: Vec<String>)
    ensures
        text::texts(r@) == seq!["log"@, "--format=%H %s"@, base@ + "..HEAD"@],
{
    let mut range = base.to_owned();
    range.append("..HEAD");
    let args = vec!["log".to_owned(), "--format=%H %s".to_owned(), range];
    assert(text::texts(args@) =~= seq!["log"@, "--format=%H %s"@, base@ + "..HEAD"@]);
    args
}

/// The commits since a base, one line each.
pub fn commits_since(output: Result<String, GitError>) -> (r: Result<Vec<String>, GitError>)
    ensures
        match output {
            Ok(log) => r matches Ok(commits) && text::texts(commits@) == text::lines(log@),
            Err(error) => r == Err::<Vec<String>, GitError>(error),
        },
{
    match output {
        Ok(log) => Ok(text::lines_of(log.as_str())),
        Err(error) => Err(error),
    }
}

/// How a commit is to be made.
#[derive(Debug, Clone, Copy, PartialEq, Eq, Structural)]
pub struct CommitOptions {
    pub review: bool,
    pub amend: bool,
    pub signoff: bool,
    pub gpg_sign: bool,
    pub skip_hooks: bool,
}

/// A flag, where it is asked for.
pub open spec fn flag_if(asked: bool, flag: Seq<char>) -> Seq<Seq<char>> {
    if asked {
        seq![flag]
    } else {
        Seq::empty()
    }
}

/// The arguments of git for a commit whose message comes on its standard input.
pub open spec fn commit_flags(options: CommitOptions) -> Seq<Seq<char>> {
    seq!["commit"@, "-F"@, "-"@] + flag_if(options.review, "-e"@) + flag_if(
        options.amend,
        "--amend"@,
    ) + flag_if(options.signoff, "--signoff"@) + flag_if(options.gpg_sign, "--gpg-sign"@)
        + flag_if(options.skip_hooks, "--no-verify"@)
}

fn push_flag(args: &mut Vec<String>, asked: bool, flag: &str)
    ensures
        text::texts(final(args)@) == text::texts(old(args)@) + flag_if(asked, flag@),
{
    if asked {
        args.push(flag.to_owned());
        assert(text::texts(args@) =~= text::texts(old(args)@) + flag_if(asked, flag@));
    } else {
        assert(text::texts(args@) =~= text::texts(old(args)@) + flag_if(asked, flag@));
    }
}

/// The arguments of git for a commit whose message comes on its standard input.
/// Git runs its own hooks and opens its own editor.
pub fn commit_args(options: &CommitOptions) -> (r: Vec<String>)
    ensures
        text::texts(r@) == commit_flags(*options),
{
    let mut args = vec!["commit".to_owned(), "-F".to_owned(), "-".to_owned()];
    assert(text::texts(args@) =~= seq!["commit"@, "-F"@, "-"@]);
    push_flag(&mut args, options.review, "-e");
    push_flag(&mut args, options.amend, "--amend");
    push_flag(&mut args, options.signoff, "--signoff");
    push_flag(&mut args, options.gpg_sign, "--gpg-sign");
    push_flag(&mut args, options.skip_hooks, "--no-verify");
    args
}

/// What an error of git is, in words.
pub open spec fn git_error_text(error: GitError) -> Seq<char> {
    match error {
        GitError::Spawn(why) => "could not run git: "@ + why@,
        GitError::Failed { command, stderr } => "git "@ + command@ + " failed: "@ + stderr@,
        GitError::NotARepository => {
            "not inside a git repository. Run this from a repository, or `git init` one"@
        },
        GitError::NothingStaged => {
            "nothing is staged. Stage what belongs in this commit with `git add -p`, then run auto-commit again"@
        },
        GitError::BadGlob(pattern, why) => outside::debug_quoted(pattern@)
            + " is not a valid exclude pattern: "@ + why@,
    }
}

impl GitError {
    /// What the error is, in words.
    pub fn message(&self) -> (r: String)
        ensures
            r@ == git_error_text(*self),
    {
        match self {
            GitError::Spawn(why) => {
                let mut out = "could not run git: ".to_owned();
                out.append(why.as_str());
                out
            },
            GitError::Failed { command, stderr } => {
                let mut out = "git ".to_owned();
                out.append(command.as_str());
                out.append(" failed: ");
                out.append(stderr.as_str());
                out
            },
            GitError::NotARepository => {
                "not inside a git repository. Run this from a repository, or `git init` one".to_owned()
            },
            GitError::NothingStaged => {
                "nothing is staged. Stage what belongs in this commit with `git add -p`, then run auto-commit again".to_owned()
            },
            GitError::BadGlob(pattern, why) => {
                let mut out = outside::quote(pattern.as_str());
                out.append(" is not a valid exclude pattern: ");
                out.append(why.as_str());
                out
            },
        }
    }
}

// ---------------------------------------------------------------------------
// Laws
// ---------------------------------------------------------------------------

/// Files are dropped from the prompt body, never from the manifest: every file
/// that git names is listed, in git's order, with git's counts.
pub proof fn law_every_file_is_listed(
    entries: Seq<(Seq<char>, Option<u64>, Option<u64>)>,
    excluded: Seq<bool>,
    chunks: Seq<(Seq<char>, Seq<char>)>,
    max_total: nat,
    max_file: nat,
    n: nat,
)
    ensures
        ({
            let files = arranged(entries, excluded, chunks, max_total, max_file, n).files;
            &&& files.len() == n
            &&& forall|i: int|
                #![trigger files[i]]
                0 <= i < n ==> files[i].path == entries[i].0 && files[i].added == entries[i].1
                    && files[i].deleted == entries[i].2
        }),
    decreases n,
{
    if n > 0 {
        law_every_file_is_listed(entries, excluded, chunks, max_total, max_file, (n - 1) as nat);
    }
}

/// What is shown up front never takes more than the budget.
pub proof fn law_included_stays_within_budget(
    entries: Seq<(Seq<char>, Option<u64>, Option<u64>)>,
    excluded: Seq<bool>,
    chunks: Seq<(Seq<char>, Seq<char>)>,
    max_total: nat,
    max_file: nat,
    n: nat,
)
    ensures
        text::byte_len(
            arranged(entries, excluded, chunks, max_total, max_file, n).included,
        ) <= max_total,
    decreases n,
{
    if n > 0 {
        let k = n - 1;
        let before = arranged(entries, excluded, chunks, max_total, max_file, k as nat);
        law_included_stays_within_budget(
            entries,
            excluded,
            chunks,
            max_total,
            max_file,
            k as nat,
        );
        text::lemma_byte_len_add(
            before.included,
            kept_part(chunk_of(entries, chunks, k), max_file),
        );
    }
}

/// A truncation keeps a beginning of the diff of a file that is within the limit
/// and ends with a line, if it keeps anything; a diff within the limit is kept
/// whole.
pub proof fn law_truncation_keeps_whole_lines(chunk: Seq<char>, max_file: nat)
    ensures
        ({
            let kept = kept_part(chunk, max_file);
            &&& kept.len() <= chunk.len()
            &&& kept == chunk.take(kept.len() as int)
            &&& text::byte_len(kept) <= max_file
            &&& kept == chunk || kept.len() == 0 || kept.last() == '\n'
            &&& text::byte_len(chunk) <= max_file ==> kept == chunk
        }),
{
    lemma_line_floor(chunk, max_file);
    assert(chunk.take(chunk.len() as int) =~= chunk);
}

/// The files that can be asked for are exactly those that the manifest lists as
/// withheld, each once, in order.
pub proof fn law_withheld_files_are_those_listed(
    entries: Seq<(Seq<char>, Option<u64>, Option<u64>)>,
    excluded: Seq<bool>,
    chunks: Seq<(Seq<char>, Seq<char>)>,
    max_total: nat,
    max_file: nat,
    n: nat,
)
    requires
        n <= entries.len(),
    ensures
        ({
            let diff = arranged(entries, excluded, chunks, max_total, max_file, n);
            &&& ordered::sorted(diff.withheld)
            &&& forall|i: int|
                #![trigger diff.files[i]]
                0 <= i < n && diff.files[i].state is Withheld ==> ordered::get(
                    diff.withheld,
                    diff.files[i].path,
                ) is Some
            &&& forall|key: Seq<char>|
                #[trigger] ordered::get(diff.withheld, key) is Some ==> exists|i: int|
                    0 <= i < n && #[trigger] diff.files[i].path == key && diff.files[i].state is Withheld
        }),
    decreases n,
{
    let diff = arranged(entries, excluded, chunks, max_total, max_file, n);
    law_every_file_is_listed(entries, excluded, chunks, max_total, max_file, n);
    if n > 0 {
        let k = n - 1;
        let before = arranged(entries, excluded, chunks, max_total, max_file, k as nat);
        law_withheld_files_are_those_listed(
            entries,
            excluded,
            chunks,
            max_total,
            max_file,
            k as nat,
        );
        law_every_file_is_listed(entries, excluded, chunks, max_total, max_file, k as nat);
        ordered::lemma_put(before.withheld, entries[k].0, chunk_of(entries, chunks, k));
        assert forall|i: int|
            #![trigger diff.files[i]]
            0 <= i < n && diff.files[i].state is Withheld implies ordered::get(
            diff.withheld,
            diff.files[i].path,
        ) is Some by {
            if i < k {
                assert(diff.files[i] == before.files[i]);
            }
        }
        assert forall|key: Seq<char>|
            #[trigger] ordered::get(diff.withheld, key) is Some implies exists|i: int|
            0 <= i < n && #[trigger] diff.files[i].path == key && diff.files[i].state is Withheld by {
            if key == entries[k].0 && diff.files[k].state is Withheld {
                assert(diff.files[k].path == key);
            } else {
                assert(ordered::get(before.withheld, key) is Some);
                let j = choose|j: int|
                    0 <= j < k && #[trigger] before.files[j].path == key
                        && before.files[j].state is Withheld;
                assert(diff.files[j] == before.files[j]);
            }
        }
    }
}

/// The diff that is handed out for a withheld file is the whole of it, and a
/// binary file, or one that is shown, has nothing to retrieve. A path that is
/// named twice has its hunks under the first of the two, and one diff to hand out,
/// so the paths differ.
pub proof fn law_withheld_files_can_be_retrieved(
    entries: Seq<(Seq<char>, Option<u64>, Option<u64>)>,
    excluded: Seq<bool>,
    chunks: Seq<(Seq<char>, Seq<char>)>,
    max_total: nat,
    max_file: nat,
    n: nat,
)
    requires
        n <= entries.len(),
        forall|i: int, j: int|
            0 <= i < j < entries.len() ==> #[trigger] entries[i].0 != #[trigger] entries[j].0,
    ensures
        ({
            let diff = arranged(entries, excluded, chunks, max_total, max_file, n);
            forall|i: int|
                #![trigger diff.files[i]]
                0 <= i < n ==> ordered::get(diff.withheld, diff.files[i].path) == (
                if diff.files[i].state is Withheld {
                    Some(chunk_of(entries, chunks, i))
                } else {
                    None
                })
        }),
    decreases n,
{
    let diff = arranged(entries, excluded, chunks, max_total, max_file, n);
    law_every_file_is_listed(entries, excluded, chunks, max_total, max_file, n);
    if n > 0 {
        let k = n - 1;
        let before = arranged(entries, excluded, chunks, max_total, max_file, k as nat);
        let chunk = chunk_of(entries, chunks, k);
        law_withheld_files_can_be_retrieved(
            entries,
            excluded,
            chunks,
            max_total,
            max_file,
            k as nat,
        );
        law_withheld_files_are_those_listed(
            entries,
            excluded,
            chunks,
            max_total,
            max_file,
            k as nat,
        );
        law_every_file_is_listed(entries, excluded, chunks, max_total, max_file, k as nat);
        ordered::lemma_put(before.withheld, entries[k].0, chunk);
        assert forall|i: int|
            #![trigger diff.files[i]]
            0 <= i < n implies ordered::get(diff.withheld, diff.files[i].path) == (
        if diff.files[i].state is Withheld {
            Some(chunk_of(entries, chunks, i))
        } else {
            None
        }) by {
            if i < k {
                assert(diff.files[i] == before.files[i]);
                assert(entries[i].0 != entries[k].0);
            } else if ordered::get(before.withheld, entries[k].0) is Some {
                let j = choose|j: int|
                    0 <= j < k && #[trigger] before.files[j].path == entries[k].0;
                assert(entries[j].0 != entries[k].0);
            }
        }
    }
}

/// The manifest holds a line for every file, and the line begins with its path.
pub proof fn law_manifest_names_every_file(files: Seq<ChangeView>, width: nat, i: int)
    requires
        0 <= i < files.len(),
    ensures
        text::has_part(manifest_text(files, width), manifest_line(files[i], width)),
        text::starts_with(manifest_line(files[i], width), files[i].path),
    decreases files.len(),
{
    let line = manifest_line(files[i], width);
    assert(line.take(files[i].path.len() as int) =~= files[i].path);
    if i == files.len() - 1 {
        text::lemma_part_at_end(manifest_text(files.drop_last(), width), line);
    } else {
        law_manifest_names_every_file(files.drop_last(), width, i);
        text::lemma_part_of_more(
            manifest_text(files.drop_last(), width),
            line,
            manifest_line(files.last(), width),
        );
    }
}

/// Reading a withheld diff page by page misses nothing: a page holds the lines
/// from where it begins to where the next one does.
pub proof fn law_pages_follow_each_other(
    diff: DiffView,
    path: Seq<char>,
    offset: nat,
    limit: nat,
)
    requires
        ordered::get(diff.withheld, path) is Some,
        offset < text::lines(ordered::get(diff.withheld, path)->0).len(),
        limit > 0,
    ensures
        ({
            let lines = text::lines(ordered::get(diff.withheld, path)->0);
            let end = if offset + limit < lines.len() {
                offset + limit
            } else {
                lines.len()
            };
            &&& offset < end
            &&& read_reply(diff, path, offset, limit) == path + " lines "@ + text::decimal(offset)
                + ".."@ + text::decimal(end) + " of "@ + text::decimal(lines.len()) + "\n"@
                + text::join(lines.subrange(offset as int, end as int), "\n"@)
            &&& lines.take(offset as int) + lines.subrange(offset as int, end as int)
                == lines.take(end as int)
        }),
{
    let lines = text::lines(ordered::get(diff.withheld, path)->0);
    let end = if offset + limit < lines.len() {
        offset + limit
    } else {
        lines.len()
    };
    assert(lines.take(offset as int) + lines.subrange(offset as int, end as int) =~= lines.take(
        end as int,
    ));
}

proof fn lemma_file_hits(path: Seq<char>, lines: Seq<Seq<char>>, matched: Seq<bool>, n: nat, j: int)
    requires
        0 <= j < n,
        matched[j],
    ensures
        file_hits(path, lines, matched, n).contains((path, j as nat, lines[j])),
    decreases n,
{
    let hits = file_hits(path, lines, matched, n);
    let before = file_hits(path, lines, matched, (n - 1) as nat);
    if j == n - 1 {
        assert(hits.last() == (path, j as nat, lines[j]));
    } else {
        lemma_file_hits(path, lines, matched, (n - 1) as nat, j);
        let at = choose|at: int|
            0 <= at < before.len() && before[at] == (path, j as nat, lines[j]);
        assert(hits[at] == before[at]);
    }
}

/// A search looks at every line of every withheld diff: each line that matches
/// is found, under its path and its number.
pub proof fn law_search_finds_every_match(
    withheld: Seq<(Seq<char>, Seq<char>)>,
    matched: Seq<Seq<bool>>,
    n: nat,
    i: int,
    j: int,
)
    requires
        0 <= i < n <= withheld.len(),
        0 <= j < text::lines(withheld[i].1).len(),
        matched[i][j],
    ensures
        search_hits(withheld, matched, n).contains(
            (withheld[i].0, j as nat, text::lines(withheld[i].1)[j]),
        ),
    decreases n,
{
    let lines = text::lines(withheld[n - 1].1);
    let before = search_hits(withheld, matched, (n - 1) as nat);
    let here = file_hits(withheld[n - 1].0, lines, matched[n - 1], lines.len());
    let hits = search_hits(withheld, matched, n);
    let hit = (withheld[i].0, j as nat, text::lines(withheld[i].1)[j]);
    if i == n - 1 {
        lemma_file_hits(withheld[i].0, lines, matched[i], lines.len(), j);
        let at = choose|at: int| 0 <= at < here.len() && here[at] == hit;
        assert(hits[before.len() + at] == hit);
    } else {
        law_search_finds_every_match(withheld, matched, (n - 1) as nat, i, j);
        let at = choose|at: int| 0 <= at < before.len() && before[at] == hit;
        assert(hits[at] == hit);
    }
}

/// Whether one match comes before another: in the order of the paths, and in one file
/// in the order of its lines.
pub open spec fn hit_before(a: (Seq<char>, nat, Seq<char>), b: (Seq<char>, nat, Seq<char>)) -> bool {
    text::text_lt(a.0, b.0) || (a.0 == b.0 && a.1 < b.1)
}

proof fn lemma_file_hits_in_order(
    path: Seq<char>,
    lines: Seq<Seq<char>>,
    matched: Seq<bool>,
    n: nat,
)
    ensures
        ({
            let hits = file_hits(path, lines, matched, n);
            &&& forall|i: int|
                0 <= i < hits.len() ==> (#[trigger] hits[i]).0 == path && hits[i].1 < n
                    && hits[i].2 == lines[hits[i].1 as int] && matched[hits[i].1 as int]
            &&& forall|i: int, j: int|
                0 <= i < j < hits.len() ==> (#[trigger] hits[i]).1 < (#[trigger] hits[j]).1
        }),
    decreases n,
{
    if n > 0 {
        lemma_file_hits_in_order(path, lines, matched, (n - 1) as nat);
        let before = file_hits(path, lines, matched, (n - 1) as nat);
        let hits = file_hits(path, lines, matched, n);
        assert forall|i: int| 0 <= i < hits.len() implies (#[trigger] hits[i]).0 == path && hits[i].1
            < n && hits[i].2 == lines[hits[i].1 as int] && matched[hits[i].1 as int] by {
            if i < before.len() {
                assert(hits[i] == before[i]);
            }
        }
        assert forall|i: int, j: int| 0 <= i < j < hits.len() implies (#[trigger] hits[i]).1 < (
        #[trigger] hits[j]).1 by {
            assert(hits[i] == before[i]);
            if j < before.len() {
                assert(hits[j] == before[j]);
            }
        }
    }
}

/// Whether a match is a line, that matches, of the withheld diff at a place.
pub open spec fn is_hit_of(
    withheld: Seq<(Seq<char>, Seq<char>)>,
    matched: Seq<Seq<bool>>,
    hit: (Seq<char>, nat, Seq<char>),
    f: int,
) -> bool {
    &&& hit.0 == withheld[f].0
    &&& hit.1 < text::lines(withheld[f].1).len()
    &&& hit.2 == text::lines(withheld[f].1)[hit.1 as int]
    &&& matched[f][hit.1 as int]
}

proof fn lemma_hits_are_lines(
    withheld: Seq<(Seq<char>, Seq<char>)>,
    matched: Seq<Seq<bool>>,
    n: nat,
    i: int,
)
    requires
        n <= withheld.len(),
        0 <= i < search_hits(withheld, matched, n).len(),
    ensures
        exists|f: int|
            0 <= f < n && #[trigger] is_hit_of(
                withheld,
                matched,
                search_hits(withheld, matched, n)[i],
                f,
            ),
    decreases n,
{
    if n > 0 {
        let lines = text::lines(withheld[n - 1].1);
        let before = search_hits(withheld, matched, (n - 1) as nat);
        if i < before.len() {
            lemma_hits_are_lines(withheld, matched, (n - 1) as nat, i);
            let f = choose|f: int|
                0 <= f < n - 1 && #[trigger] is_hit_of(withheld, matched, before[i], f);
            assert(is_hit_of(withheld, matched, search_hits(withheld, matched, n)[i], f));
        } else {
            lemma_file_hits_in_order(withheld[n - 1].0, lines, matched[n - 1], lines.len());
            let here = file_hits(withheld[n - 1].0, lines, matched[n - 1], lines.len());
            assert(here[i - before.len()] == search_hits(withheld, matched, n)[i]);
            assert(is_hit_of(withheld, matched, search_hits(withheld, matched, n)[i], n - 1));
        }
    }
}

/// The matches of a search come in the order of their paths, and in one file in the
/// order of its lines, so none comes twice.
pub proof fn law_search_goes_in_order(
    withheld: Seq<(Seq<char>, Seq<char>)>,
    matched: Seq<Seq<bool>>,
    n: nat,
    i: int,
    j: int,
)
    requires
        ordered::sorted(withheld),
        n <= withheld.len(),
        0 <= i < j < search_hits(withheld, matched, n).len(),
    ensures
        ({
            let hits = search_hits(withheld, matched, n);
            hit_before(hits[i], hits[j]) && (hits[i].0, hits[i].1) != (hits[j].0, hits[j].1)
        }),
    decreases n,
{
    if n > 0 {
        let hits = search_hits(withheld, matched, n);
        let lines = text::lines(withheld[n - 1].1);
        let before = search_hits(withheld, matched, (n - 1) as nat);
        let here = file_hits(withheld[n - 1].0, lines, matched[n - 1], lines.len());
        lemma_file_hits_in_order(withheld[n - 1].0, lines, matched[n - 1], lines.len());
        if j < before.len() {
            law_search_goes_in_order(withheld, matched, (n - 1) as nat, i, j);
        } else {
            assert(here[j - before.len()] == hits[j]);
            if i < before.len() {
                lemma_hits_are_lines(withheld, matched, (n - 1) as nat, i);
                let f = choose|f: int|
                    0 <= f < n - 1 && #[trigger] is_hit_of(withheld, matched, before[i], f);
                assert(text::text_lt(withheld[f].0, withheld[n - 1].0));
                text::lemma_text_lt_irreflexive(hits[j].0);
            } else {
                assert(here[i - before.len()] == hits[i]);
            }
        }
    }
}

/// The path and the number that a search reports read the line back: a read of one
/// line from there gives that line.
pub proof fn law_search_numbers_read_back(
    diff: DiffView,
    matched: Seq<Seq<bool>>,
    i: int,
)
    requires
        ordered::sorted(diff.withheld),
        0 <= i < search_hits(diff.withheld, matched, diff.withheld.len()).len(),
    ensures
        ({
            let (path, number, line) = search_hits(
                diff.withheld,
                matched,
                diff.withheld.len(),
            )[i];
            &&& ordered::get(diff.withheld, path) matches Some(chunk)
            &&& read_reply(diff, path, number, 1) == path + " lines "@ + text::decimal(number)
                + ".."@ + text::decimal(number + 1) + " of "@ + text::decimal(
                text::lines(chunk).len(),
            ) + "\n"@ + line
        }),
{
    let withheld = diff.withheld;
    let hit = search_hits(withheld, matched, withheld.len())[i];
    lemma_hits_are_lines(withheld, matched, withheld.len(), i);
    let f = choose|f: int|
        0 <= f < withheld.len() && #[trigger] is_hit_of(withheld, matched, hit, f);
    assert forall|k: int| f <= k < withheld.len() implies !text::text_lt(
        #[trigger] withheld[k].0,
        hit.0,
    ) by {
        text::lemma_text_lt_irreflexive(hit.0);
        if k > f {
            assert(text::text_lt(withheld[f].0, withheld[k].0));
            if text::text_lt(withheld[k].0, hit.0) {
                text::lemma_text_lt_transitive(hit.0, withheld[k].0, hit.0);
            }
        }
    }
    assert forall|k: int| 0 <= k < f implies text::text_lt(#[trigger] withheld[k].0, hit.0) by {
        assert(text::text_lt(withheld[k].0, withheld[f].0));
    }
    ordered::lemma_slot(withheld, hit.0, withheld[f].1, f);
    let lines = text::lines(withheld[f].1);
    assert(lines.subrange(hit.1 as int, hit.1 as int + 1) =~= seq![hit.2]);
}

/// While the budget lasts, every match that is found is reported.
pub proof fn law_search_reports_within_budget(
    hits: Seq<(Seq<char>, nat, Seq<char>)>,
    budget: nat,
    n: nat,
    i: int,
)
    requires
        0 <= i < n <= hits.len(),
        text::byte_len(hit_lines(hits, budget, n)) < budget,
    ensures
        text::has_part(hit_lines(hits, budget, n), hit_line(hits[i])),
    decreases n,
{
    let before = hit_lines(hits, budget, (n - 1) as nat);
    if text::byte_len(before) < budget {
        if i == n - 1 {
            text::lemma_part_at_end(before, hit_line(hits[i]));
        } else {
            law_search_reports_within_budget(hits, budget, (n - 1) as nat, i);
            text::lemma_part_of_more(before, hit_line(hits[i]), hit_line(hits[n - 1]));
        }
    }
}

/// What is shown up front and what is withheld are all there is: a file is listed
/// under the paths that are shown exactly where it is not withheld.
pub proof fn law_shown_paths_are_the_rest(files: Seq<ChangeView>, i: int)
    requires
        0 <= i < files.len(),
        files[i].state !is Withheld,
    ensures
        shown_paths(files).contains(files[i].path),
    decreases files.len(),
{
    let shown = shown_paths(files);
    let before = shown_paths(files.drop_last());
    if i == files.len() - 1 {
        assert(shown.last() == files[i].path);
    } else {
        law_shown_paths_are_the_rest(files.drop_last(), i);
        let at = choose|at: int| 0 <= at < before.len() && before[at] == files[i].path;
        assert(shown[at] == files[i].path);
    }
}

proof fn lemma_unlines_add(a: Seq<Seq<char>>, b: Seq<Seq<char>>)
    ensures
        unlines(a + b) == unlines(a) + unlines(b),
    decreases b.len(),
{
    if b.len() == 0 {
        assert(a + b =~= a);
        assert(unlines(a) + unlines(b) =~= unlines(a));
    } else {
        lemma_unlines_add(a, b.drop_last());
        assert((a + b).drop_last() =~= a + b.drop_last());
        assert(unlines(a + b) =~= unlines(a) + unlines(b));
    }
}

/// The lines of a text, put together again, are the text, if each ends with a line
/// feed and with nothing else.
proof fn lemma_lines_put_together(s: Seq<char>)
    requires
        !s.contains('\r'),
        s.len() > 0 ==> s.last() == '\n',
    ensures
        unlines(text::lines(s)) == s,
    decreases s.len(),
{
    if s.len() == 0 {
        assert(unlines(text::lines(s)) =~= s);
    } else {
        text::lemma_find(s, '\n');
        let n = text::find(s, '\n') as int;
        if n >= s.len() {
            assert(s[s.len() - 1] == '\n');
        } else {
            let first = s.take(n);
            let rest = s.skip(n + 1);
            assert forall|i: int| 0 <= i < s.len() implies s[i] != '\r' by {
                if s[i] == '\r' {
                    assert(s.contains('\r'));
                }
            }
            assert(text::strip_cr(first) == first);
            assert(!rest.contains('\r'));
            if rest.len() > 0 {
                assert(rest.last() == s.last());
            }
            lemma_lines_put_together(rest);
            lemma_unlines_add(seq![first], text::lines(rest));
            assert(seq![first].drop_last() =~= Seq::empty());
            assert(unlines(Seq::<Seq<char>>::empty()) + first.push('\n') =~= first.push('\n'));
            assert(first.push('\n') + rest =~= s);
        }
    }
}

proof fn lemma_next_header(lines: Seq<Seq<char>>)
    ensures
        section_len(lines.skip(section_len(lines) as int)) == 0,
    decreases lines.len(),
{
    lemma_section_len(lines);
    if lines.len() == 0 || is_header(lines[0]) {
        assert(lines.skip(0) =~= lines);
    } else {
        lemma_next_header(lines.drop_first());
        assert(lines.drop_first().skip(section_len(lines.drop_first()) as int) =~= lines.skip(
            section_len(lines) as int,
        ));
    }
}

/// The texts of parts, one after the other.
pub open spec fn part_texts(parts: Seq<(Seq<char>, Seq<char>)>) -> Seq<char>
    decreases parts.len(),
{
    if parts.len() == 0 {
        Seq::empty()
    } else {
        parts[0].1 + part_texts(parts.drop_first())
    }
}

proof fn lemma_sections_put_together(lines: Seq<Seq<char>>)
    requires
        forall|i: int|
            0 <= i < lines.len() && is_header(#[trigger] lines[i]) ==> header_path(lines[i]) is Some,
    ensures
        part_texts(sections(lines)) == unlines(lines.skip(section_len(lines) as int)),
    decreases lines.len(),
{
    if lines.len() == 0 {
        assert(lines.skip(0) =~= Seq::empty());
    } else {
        let n = 1 + section_len(lines.drop_first()) as int;
        lemma_section_len(lines.drop_first());
        let rest = lines.skip(n);
        assert forall|i: int| 0 <= i < rest.len() && is_header(#[trigger] rest[i]) implies header_path(
            rest[i],
        ) is Some by {
            assert(rest[i] == lines[i + n]);
        }
        lemma_sections_put_together(rest);
        lemma_next_header(lines.drop_first());
        assert(lines.drop_first().skip(n - 1) =~= rest);
        assert(rest.skip(0) =~= rest);
        if is_header(lines[0]) {
            let part = (header_path(lines[0])->0, unlines(lines.take(n)));
            assert(sections(lines) =~= seq![part] + sections(rest));
            assert((seq![part] + sections(rest)).drop_first() =~= sections(rest));
            assert(lines.take(n) + rest =~= lines);
            lemma_unlines_add(lines.take(n), rest);
            assert(lines.skip(0) =~= lines);
        }
    }
}

proof fn lemma_put_all_gives(parts: Seq<(Seq<char>, Seq<char>)>)
    requires
        forall|i: int, j: int|
            0 <= i < j < parts.len() ==> (#[trigger] parts[i]).0 != (#[trigger] parts[j]).0,
    ensures
        ordered::sorted(put_all(parts)),
        forall|i: int|
            0 <= i < parts.len() ==> ordered::get(put_all(parts), (#[trigger] parts[i]).0) == Some(
                parts[i].1,
            ),
    decreases parts.len(),
{
    if parts.len() > 0 {
        let rest = parts.drop_last();
        assert forall|i: int, j: int| 0 <= i < j < rest.len() implies (#[trigger] rest[i]).0 != (
        #[trigger] rest[j]).0 by {
            assert(parts[i].0 != parts[j].0);
        }
        lemma_put_all_gives(rest);
        ordered::lemma_put(put_all(rest), parts.last().0, parts.last().1);
        assert forall|i: int| 0 <= i < parts.len() implies ordered::get(
            put_all(parts),
            (#[trigger] parts[i]).0,
        ) == Some(parts[i].1) by {
            if i < rest.len() {
                assert(rest[i] == parts[i]);
                assert(parts[i].0 != parts[parts.len() - 1].0);
            }
        }
    }
}

/// The diffs that are kept under these paths, one after the other.
pub open spec fn gathered(paths: Seq<Seq<char>>, chunks: Seq<(Seq<char>, Seq<char>)>) -> Seq<char>
    decreases paths.len(),
{
    if paths.len() == 0 {
        Seq::empty()
    } else {
        ordered::get(chunks, paths[0])->0 + gathered(paths.drop_first(), chunks)
    }
}

proof fn lemma_gathered(
    parts: Seq<(Seq<char>, Seq<char>)>,
    chunks: Seq<(Seq<char>, Seq<char>)>,
)
    requires
        forall|i: int|
            0 <= i < parts.len() ==> ordered::get(chunks, (#[trigger] parts[i]).0) == Some(
                parts[i].1,
            ),
    ensures
        gathered(ordered::keys(parts), chunks) == part_texts(parts),
    decreases parts.len(),
{
    if parts.len() > 0 {
        let rest = parts.drop_first();
        assert forall|i: int| 0 <= i < rest.len() implies ordered::get(
            chunks,
            (#[trigger] rest[i]).0,
        ) == Some(rest[i].1) by {
            assert(rest[i] == parts[i + 1]);
        }
        lemma_gathered(rest, chunks);
        assert(ordered::keys(parts).drop_first() =~= ordered::keys(rest));
        assert(ordered::keys(parts)[0] == parts[0].0);
    }
}

/// The split loses nothing: where every header names a path, and no two the same, the
/// diffs of the files, in the order of their headers, are the whole diff from the
/// first header on, line by line. So they are the diff itself where it begins with a
/// header and every line of it ends with a line feed and nothing else.
pub proof fn law_split_loses_nothing(diff: Seq<char>)
    requires
        forall|i: int|
            0 <= i < text::lines(diff).len() && is_header(#[trigger] text::lines(diff)[i])
                ==> header_path(text::lines(diff)[i]) is Some,
        forall|i: int, j: int|
            0 <= i < j < sections(text::lines(diff)).len() ==> (#[trigger] sections(
                text::lines(diff),
            )[i]).0 != (#[trigger] sections(text::lines(diff))[j]).0,
    ensures
        ({
            let lines = text::lines(diff);
            let whole = gathered(ordered::keys(sections(lines)), file_chunks(diff));
            &&& whole == unlines(lines.skip(section_len(lines) as int))
            &&& !diff.contains('\r') && (diff.len() > 0 ==> diff.last() == '\n') && section_len(
                lines,
            ) == 0 ==> whole == diff
        }),
{
    let lines = text::lines(diff);
    lemma_put_all_gives(sections(lines));
    lemma_gathered(sections(lines), file_chunks(diff));
    lemma_sections_put_together(lines);
    if !diff.contains('\r') && (diff.len() > 0 ==> diff.last() == '\n') {
        lemma_lines_put_together(diff);
        assert(lines.skip(0) =~= lines);
    }
}

/// The entries that the hunks of a diff make: each file with the lines that its
/// hunks add and delete.
pub open spec fn hunk_entries(parts: Seq<(Seq<char>, Seq<char>)>) -> Seq<
    (Seq<char>, Option<u64>, Option<u64>),
> {
    Seq::new(
        parts.len(),
        |i: int|
            (
                parts[i].0,
                Some(count_changed(text::lines(parts[i].1), '+') as u64),
                Some(count_changed(text::lines(parts[i].1), '-') as u64),
            ),
    )
}

proof fn lemma_counted_line(part: (Seq<char>, Seq<char>))
    requires
        !part.0.contains('\n'),
        part.0.len() > 0 ==> part.0.last() != '\r',
        count_changed(text::lines(part.1), '+') <= u64::MAX,
        count_changed(text::lines(part.1), '-') <= u64::MAX,
    ensures
        counted_line(part).len() > 0,
        !counted_line(part).contains('\n'),
        counted_line(part).last() != '\r',
        numstat_entry(counted_line(part)) == Some(hunk_entries(seq![part])[0]),
{
    reveal_strlit("\t");
    let tab = "\t"@;
    let a = count_changed(text::lines(part.1), '+');
    let b = count_changed(text::lines(part.1), '-');
    let added = text::decimal(a);
    let deleted = text::decimal(b);
    text::lemma_decimal_reads_back(a);
    text::lemma_decimal_reads_back(b);
    let line = counted_line(part);
    let rest = deleted + tab + part.0;
    assert(line =~= added + tab + rest);
    assert forall|i: int| 0 <= i < line.len() implies line[i] != '\n' by {
        if i < added.len() {
            assert(text::is_digit(added[i]));
        } else if i > added.len() && i < added.len() + 1 + deleted.len() {
            assert(line[i] == deleted[i - added.len() - 1]);
            assert(text::is_digit(deleted[i - added.len() - 1]));
        } else if i > added.len() + 1 + deleted.len() {
            let k = i - added.len() - 2 - deleted.len();
            assert(line[i] == part.0[k]);
            if part.0[k] == '\n' {
                assert(part.0.contains('\n'));
            }
        }
    }
    if part.0.len() == 0 {
        assert(line.last() == '\t');
    } else {
        assert(line.last() == part.0.last());
    }
    lemma_first_tab(added, rest);
    lemma_first_tab(deleted, part.0);
    assert(added[0] != '+') by {
        assert(text::is_digit(added[0]));
    }
    assert(deleted[0] != '+') by {
        assert(text::is_digit(deleted[0]));
    }
}

proof fn lemma_first_tab(digits: Seq<char>, rest: Seq<char>)
    requires
        text::all_digits(digits),
    ensures
        text::split_once(digits + "\t"@ + rest, "\t"@) == Some((digits, rest)),
{
    reveal_strlit("\t");
    let tab = "\t"@;
    let whole = digits + tab + rest;
    let n = digits.len() as int;
    assert(whole.skip(n).take(1) =~= tab);
    assert forall|m: int| 0 <= m < n implies !text::starts_with(#[trigger] whole.skip(m), tab) by {
        assert(text::is_digit(digits[m]));
        assert(whole.skip(m).take(1)[0] == digits[m]);
    }
    text::lemma_find_text_at(whole, tab, n);
    assert(whole.take(n) =~= digits);
    assert(whole.skip(n + 1) =~= rest);
}

proof fn lemma_section_paths(lines: Seq<Seq<char>>)
    requires
        forall|i: int| 0 <= i < lines.len() ==> !(#[trigger] lines[i]).contains('\n'),
    ensures
        forall|i: int|
            0 <= i < sections(lines).len() ==> !(#[trigger] sections(lines)[i]).0.contains('\n'),
    decreases lines.len(),
{
    if lines.len() > 0 {
        let n = 1 + section_len(lines.drop_first()) as int;
        lemma_section_len(lines.drop_first());
        let rest = lines.skip(n);
        assert forall|i: int| 0 <= i < rest.len() implies !(#[trigger] rest[i]).contains('\n') by {
            assert(rest[i] == lines[i + n]);
        }
        lemma_section_paths(rest);
        if let Some(path) = header_path(lines[0]) {
            if path.contains('\n') {
                let k = choose|k: int| 0 <= k < path.len() && path[k] == '\n';
                let start = "diff --git "@.len() as int;
                let after = lines[0].skip(start);
                let at = text::find_text(after, " b/"@)->0 as int + " b/"@.len();
                text::lemma_find_text_bound(after, " b/"@);
                assert(path == after.skip(at));
                assert(lines[0][start + at + k] == '\n');
                assert(lines[0].contains('\n'));
            }
            assert forall|i: int| 0 <= i < sections(lines).len() implies !(
            #[trigger] sections(lines)[i]).0.contains('\n') by {
                if i > 0 {
                    assert(sections(lines)[i] == sections(rest)[i - 1]);
                } else {
                    assert(sections(lines)[0].0 == path);
                }
            }
        } else {
            assert(sections(lines) == sections(rest));
        }
    }
}

proof fn lemma_put_all_paths(parts: Seq<(Seq<char>, Seq<char>)>)
    requires
        forall|i: int| 0 <= i < parts.len() ==> !(#[trigger] parts[i]).0.contains('\n'),
    ensures
        forall|i: int|
            0 <= i < put_all(parts).len() ==> !(#[trigger] put_all(parts)[i]).0.contains('\n'),
    decreases parts.len(),
{
    if parts.len() > 0 {
        let rest = parts.drop_last();
        let before = put_all(rest);
        lemma_put_all_paths(rest);
        ordered::lemma_put_entries(before, parts.last().0, parts.last().1);
        assert forall|i: int| 0 <= i < put_all(parts).len() implies !(
        #[trigger] put_all(parts)[i]).0.contains('\n') by {
            let entry = put_all(parts)[i];
            if entry != parts.last() {
                let j = choose|j: int| 0 <= j < before.len() && before[j] == entry;
                assert(!before[j].0.contains('\n'));
            } else {
                assert(!parts[parts.len() - 1].0.contains('\n'));
            }
        }
    }
}

/// Of a diff that did not come from git, the counts come from the hunks: every file
/// that the diff names is listed, with the lines that its hunks add and delete. A
/// path that ends with a carriage return would lose it with the end of its line.
pub proof fn law_counts_come_from_the_hunks(diff: Seq<char>)
    requires
        forall|i: int|
            0 <= i < file_chunks(diff).len() && (#[trigger] file_chunks(diff)[i]).0.len() > 0
                ==> file_chunks(diff)[i].0.last() != '\r',
        forall|i: int|
            0 <= i < file_chunks(diff).len() ==> count_changed(
                text::lines((#[trigger] file_chunks(diff)[i]).1),
                '+',
            ) <= u64::MAX && count_changed(text::lines(file_chunks(diff)[i].1), '-') <= u64::MAX,
    ensures
        numstat_entries(text::lines(counted_numstat(diff))) == hunk_entries(file_chunks(diff)),
{
    let parts = file_chunks(diff);
    let lines = counted_lines(parts);
    text::lemma_lines_hold_no_line_feed(diff);
    lemma_section_paths(text::lines(diff));
    lemma_put_all_paths(sections(text::lines(diff)));
    assert forall|i: int| 0 <= i < lines.len() implies (#[trigger] lines[i]).len() > 0
        && !lines[i].contains('\n') && lines[i].last() != '\r' by {
        assert(!parts[i].0.contains('\n'));
        lemma_counted_line(parts[i]);
    }
    text::lemma_joined_lines(lines);
    lemma_entries_of_counted(parts, parts.len() as int);
    assert(lines.take(lines.len() as int) =~= lines);
    assert(hunk_entries(parts).take(parts.len() as int) =~= hunk_entries(parts));
}

/// How many lines begin with a sign.
pub open spec fn count_signed(lines: Seq<Seq<char>>, sign: char) -> nat
    decreases lines.len(),
{
    if lines.len() == 0 {
        0
    } else {
        count_signed(lines.drop_last(), sign) + if text::starts_with(lines.last(), seq![sign]) {
            1nat
        } else {
            0nat
        }
    }
}

/// Only what stands before the hunks of a file can be a header: behind the line
/// that opens the first of them, every line that begins with a sign is counted.
pub proof fn law_every_line_of_a_hunk_counts(
    head: Seq<Seq<char>>,
    opening: Seq<char>,
    hunks: Seq<Seq<char>>,
    sign: char,
)
    requires
        text::starts_with(opening, "@@"@),
        sign == '+' || sign == '-',
    ensures
        count_changed(head.push(opening) + hunks, sign) == count_changed(head, sign)
            + count_signed(hunks, sign),
    decreases hunks.len(),
{
    let start = head.push(opening);
    if hunks.len() == 0 {
        reveal_strlit("@@");
        assert(start + hunks =~= start);
        assert(start.drop_last() =~= head);
        assert(opening[0] == opening.take(2)[0]);
        if text::starts_with(opening, seq![sign]) {
            assert(opening[0] == opening.take(1)[0]);
        }
    } else {
        let rest = hunks.drop_last();
        law_every_line_of_a_hunk_counts(head, opening, rest, sign);
        let all = start + hunks;
        assert(all.drop_last() =~= start + rest);
        assert((start + rest)[head.len() as int] == opening);
        assert(in_hunks(start + rest));
    }
}

proof fn lemma_entries_of_counted(parts: Seq<(Seq<char>, Seq<char>)>, n: int)
    requires
        0 <= n <= parts.len(),
        forall|i: int| 0 <= i < parts.len() ==> !(#[trigger] parts[i]).0.contains('\n'),
        forall|i: int|
            0 <= i < parts.len() && (#[trigger] parts[i]).0.len() > 0 ==> parts[i].0.last() != '\r',
        forall|i: int|
            0 <= i < parts.len() ==> count_changed(text::lines((#[trigger] parts[i]).1), '+')
                <= u64::MAX && count_changed(text::lines(parts[i].1), '-') <= u64::MAX,
    ensures
        numstat_entries(counted_lines(parts).take(n)) == hunk_entries(parts).take(n),
    decreases n,
{
    let lines = counted_lines(parts);
    if n == 0 {
        assert(lines.take(0) =~= Seq::empty());
        assert(hunk_entries(parts).take(0) =~= Seq::empty());
    } else {
        lemma_entries_of_counted(parts, n - 1);
        assert(lines.take(n).drop_last() =~= lines.take(n - 1));
        lemma_counted_line(parts[n - 1]);
        assert(hunk_entries(seq![parts[n - 1]])[0] == hunk_entries(parts)[n - 1]);
        assert(hunk_entries(parts).take(n) =~= hunk_entries(parts).take(n - 1).push(
            hunk_entries(parts)[n - 1],
        ));
    }
}

/// Nothing is hidden: whatever becomes of its hunks, every file that git names has a
/// line in the manifest of the staged change, and the line begins with its path.
pub proof fn law_nothing_is_hidden(config: Config, numstat: Seq<char>, diff: Seq<char>, i: int)
    requires
        0 <= i < numstat_entries(text::lines(numstat)).len(),
    ensures
        ({
            let files = staged_view(config, numstat, diff).files;
            let line = manifest_line(files[i], widest(files));
            &&& text::has_part(manifest_text(files, widest(files)), line)
            &&& text::starts_with(line, numstat_entries(text::lines(numstat))[i].0)
        }),
{
    let entries = numstat_entries(text::lines(numstat));
    let files = staged_view(config, numstat, diff).files;
    law_every_file_is_listed(
        entries,
        exclusions(entries, text::texts(config.exclude@)),
        file_chunks(diff),
        config.max_diff_bytes as nat,
        config.max_file_diff_bytes as nat,
        entries.len(),
    );
    law_manifest_names_every_file(files, widest(files), i);
    assert(files[i].path == entries[i].0);
}

/// The hunks of an entry that no other entry shares the path of: those that the diff has
/// under that path.
pub open spec fn hunks_of(chunks: Seq<(Seq<char>, Seq<char>)>, path: Seq<char>) -> Seq<char> {
    match ordered::get(chunks, path) {
        Some(chunk) => chunk,
        None => Seq::empty(),
    }
}

/// No hunk is lost. A file is binary exactly where it has no number of lines added. Any
/// other is withheld with all of its hunks, or the beginning of them is shown, cut at the
/// end of a line where they are too long. It is shown where no pattern excludes it and
/// there is room for it behind what is shown already, and only there.
pub proof fn law_hunks_survive(
    entries: Seq<(Seq<char>, Option<u64>, Option<u64>)>,
    excluded: Seq<bool>,
    chunks: Seq<(Seq<char>, Seq<char>)>,
    max_total: nat,
    max_file: nat,
    n: nat,
    i: int,
)
    requires
        0 <= i < n <= entries.len(),
        forall|j: int| 0 <= j < n && j != i ==> #[trigger] entries[j].0 != entries[i].0,
    ensures
        ({
            let diff = arranged(entries, excluded, chunks, max_total, max_file, n);
            let before = arranged(entries, excluded, chunks, max_total, max_file, i as nat);
            let after = arranged(entries, excluded, chunks, max_total, max_file, (i + 1) as nat);
            let state = diff.files[i].state;
            let chunk = hunks_of(chunks, entries[i].0);
            let kept = if text::byte_len(chunk) <= max_file {
                chunk
            } else {
                line_floor(chunk, max_file)
            };
            let fits = text::byte_len(before.included) + text::byte_len(kept) <= max_total;
            &&& state is Binary <==> entries[i].1 is None
            &&& entries[i].1 is Some ==> ordered::get(diff.withheld, entries[i].0) == Some(chunk)
                || text::has_part(diff.included, kept)
            &&& text::starts_with(diff.included, after.included)
            &&& entries[i].1 is Some && !excluded[i] && fits ==> {
                &&& after.included == before.included + kept
                &&& text::has_part(diff.included, kept)
                &&& ordered::get(diff.withheld, entries[i].0) is None
                &&& text::byte_len(chunk) <= max_file ==> state is Included
                &&& text::byte_len(chunk) > max_file ==> state == (FileState::Truncated {
                    kept: text::byte_len(kept) as usize,
                    total: text::byte_len(chunk) as usize,
                })
            }
            &&& entries[i].1 is Some && (excluded[i] || !fits) ==> {
                &&& after.included == before.included
                &&& ordered::get(diff.withheld, entries[i].0) == Some(chunk)
                &&& state == (FileState::Withheld { bytes: text::byte_len(chunk) as usize })
            }
            &&& entries[i].1 is None ==> after.included == before.included && ordered::get(
                diff.withheld,
                entries[i].0,
            ) is None
        }),
    decreases n,
{
    let chunk = hunks_of(chunks, entries[i].0);
    let kept = kept_part(chunk, max_file);
    let before = arranged(entries, excluded, chunks, max_total, max_file, i as nat);
    let after = arranged(entries, excluded, chunks, max_total, max_file, (i + 1) as nat);
    let diff = arranged(entries, excluded, chunks, max_total, max_file, n);
    let k = n - 1;
    let last = arranged(entries, excluded, chunks, max_total, max_file, k as nat);
    law_every_file_is_listed(entries, excluded, chunks, max_total, max_file, k as nat);
    law_withheld_files_are_those_listed(entries, excluded, chunks, max_total, max_file, k as nat);
    ordered::lemma_put(last.withheld, entries[k].0, chunk_of(entries, chunks, k));
    if i == k {
        assert(chunk_of(entries, chunks, i) == chunk);
        lemma_line_floor(chunk, max_file);
        if ordered::get(before.withheld, entries[i].0) is Some {
            let j = choose|j: int|
                0 <= j < i && #[trigger] before.files[j].path == entries[i].0;
            assert(entries[j].0 == entries[i].0);
        }
        assert(diff.included.take(diff.included.len() as int) =~= diff.included);
        text::lemma_part_at_end(before.included, kept);
    } else {
        law_hunks_survive(entries, excluded, chunks, max_total, max_file, k as nat, i);
        assert(entries[k].0 != entries[i].0);
        assert(diff.files[i] == last.files[i]);
        let more = kept_part(chunk_of(entries, chunks, k), max_file);
        if diff.included == last.included + more {
            if text::has_part(last.included, kept) {
                text::lemma_part_of_more(last.included, kept, more);
            }
            assert(diff.included.take(after.included.len() as int) =~= last.included.take(
                after.included.len() as int,
            ));
        }
    }
}

/// A path that is named once more adds nothing to what is shown: its hunks go with the
/// entry that names it first.
pub proof fn law_hunks_go_with_the_first(
    entries: Seq<(Seq<char>, Option<u64>, Option<u64>)>,
    excluded: Seq<bool>,
    chunks: Seq<(Seq<char>, Seq<char>)>,
    max_total: nat,
    max_file: nat,
    i: int,
    j: int,
)
    requires
        0 <= i < j < entries.len(),
        entries[i].0 == entries[j].0,
    ensures
        arranged(entries, excluded, chunks, max_total, max_file, (j + 1) as nat).included
            == arranged(entries, excluded, chunks, max_total, max_file, j as nat).included,
{
    let before = arranged(entries, excluded, chunks, max_total, max_file, j as nat);
    assert(chunk_of(entries, chunks, j) =~= Seq::empty());
    assert(kept_part(Seq::empty(), max_file) =~= Seq::empty());
    assert(before.included + Seq::<char>::empty() =~= before.included);
}

/// Of a staged change no hunk is lost either: a file is binary exactly where git counts
/// no lines added, and otherwise is withheld with its whole diff or has the beginning of
/// its diff shown. A file that some pattern matches is never shown.
pub proof fn law_staged_hunks_survive(config: Config, numstat: Seq<char>, diff: Seq<char>, i: int)
    requires
        0 <= i < numstat_entries(text::lines(numstat)).len(),
        forall|j: int|
            0 <= j < numstat_entries(text::lines(numstat)).len() && j != i
                ==> #[trigger] numstat_entries(text::lines(numstat))[j].0 != numstat_entries(
                text::lines(numstat),
            )[i].0,
    ensures
        ({
            let view = staged_view(config, numstat, diff);
            let entry = numstat_entries(text::lines(numstat))[i];
            let chunk = hunks_of(file_chunks(diff), entry.0);
            let max_file = config.max_file_diff_bytes as nat;
            let kept = if text::byte_len(chunk) <= max_file {
                chunk
            } else {
                line_floor(chunk, max_file)
            };
            let matched = exists|p: int|
                0 <= p < config.exclude@.len() && outside::glob_matches(
                    outside::glob_parsed((#[trigger] config.exclude@[p])@)->Ok_0,
                    entry.0,
                );
            &&& view.files[i].path == entry.0
            &&& view.files[i].state is Binary <==> entry.1 is None
            &&& entry.1 is Some ==> ordered::get(view.withheld, entry.0) == Some(chunk)
                || text::has_part(view.included, kept)
            &&& entry.1 is Some && matched ==> ordered::get(view.withheld, entry.0) == Some(chunk)
                && view.files[i].state is Withheld
            &&& entry.1 is Some && !matched && text::byte_len(
                arranged(
                    numstat_entries(text::lines(numstat)),
                    exclusions(
                        numstat_entries(text::lines(numstat)),
                        text::texts(config.exclude@),
                    ),
                    file_chunks(diff),
                    config.max_diff_bytes as nat,
                    max_file,
                    i as nat,
                ).included,
            ) + text::byte_len(kept) <= config.max_diff_bytes ==> {
                &&& text::has_part(view.included, kept)
                &&& ordered::get(view.withheld, entry.0) is None
                &&& view.files[i].state is Included <==> text::byte_len(chunk) <= max_file
                &&& view.files[i].state is Truncated <==> text::byte_len(chunk) > max_file
            }
        }),
{
    let entries = numstat_entries(text::lines(numstat));
    let patterns = text::texts(config.exclude@);
    let excluded = exclusions(entries, patterns);
    law_every_file_is_listed(
        entries,
        excluded,
        file_chunks(diff),
        config.max_diff_bytes as nat,
        config.max_file_diff_bytes as nat,
        entries.len(),
    );
    law_hunks_survive(
        entries,
        excluded,
        file_chunks(diff),
        config.max_diff_bytes as nat,
        config.max_file_diff_bytes as nat,
        entries.len(),
        i,
    );
    let path = entries[i].0;
    if excluded[i] {
        let p = choose|p: int|
            0 <= p < patterns.len() && #[trigger] outside::glob_matches(
                parsed_globs(patterns)[p],
                path,
            );
        assert(config.exclude@[p]@ == patterns[p]);
    } else {
        assert forall|p: int| 0 <= p < config.exclude@.len() implies !outside::glob_matches(
            outside::glob_parsed((#[trigger] config.exclude@[p])@)->Ok_0,
            path,
        ) by {
            assert(patterns[p] == config.exclude@[p]@);
            assert(!outside::glob_matches(parsed_globs(patterns)[p], path));
        }
    }
}

/// Git's counts are read line by line: each line that has the lines added, the lines
/// deleted and a path between tabs is one entry, and any other line is none. A path may
/// hold tabs of its own.
pub proof fn law_counts_are_read_line_by_line(
    a: Seq<Seq<char>>,
    b: Seq<Seq<char>>,
    added: Seq<char>,
    deleted: Seq<char>,
    path: Seq<char>,
)
    requires
        !added.contains('\t'),
        !deleted.contains('\t'),
    ensures
        numstat_entries(a + b) == numstat_entries(a) + numstat_entries(b),
        numstat_entries(seq![added + "\t"@ + deleted + "\t"@ + path]) == seq![
            (path, parse_count(added), parse_count(deleted)),
        ],
        numstat_entries(seq![added]) == Seq::<(Seq<char>, Option<u64>, Option<u64>)>::empty(),
        numstat_entries(seq![added + "\t"@ + deleted]) == Seq::<
            (Seq<char>, Option<u64>, Option<u64>),
        >::empty(),
    decreases b.len(),
{
    reveal_strlit("\t");
    reveal_with_fuel(numstat_entries, 2);
    let line = added + "\t"@ + deleted + "\t"@ + path;
    lemma_tab_first(added, deleted + "\t"@ + path);
    assert(line =~= added + "\t"@ + (deleted + "\t"@ + path));
    lemma_tab_first(deleted, path);
    let short = added + "\t"@ + deleted;
    lemma_tab_first(added, deleted);
    lemma_no_tab(added);
    lemma_no_tab(deleted);
    let none = Seq::<(Seq<char>, Option<u64>, Option<u64>)>::empty();
    assert(seq![line].drop_last() =~= Seq::<Seq<char>>::empty());
    assert(seq![short].drop_last() =~= Seq::<Seq<char>>::empty());
    assert(seq![added].drop_last() =~= Seq::<Seq<char>>::empty());
    assert(numstat_entries(seq![line]) =~= seq![(path, parse_count(added), parse_count(deleted))]);
    if b.len() == 0 {
        assert(a + b =~= a);
        assert(numstat_entries(a + b) =~= numstat_entries(a) + numstat_entries(b));
    } else {
        law_counts_are_read_line_by_line(a, b.drop_last(), added, deleted, path);
        assert((a + b).drop_last() =~= a + b.drop_last());
        assert(numstat_entries(a + b) =~= numstat_entries(a) + numstat_entries(b));
    }
}

proof fn lemma_tab_first(field: Seq<char>, rest: Seq<char>)
    requires
        !field.contains('\t'),
    ensures
        text::split_once(field + "\t"@ + rest, "\t"@) == Some((field, rest)),
{
    reveal_strlit("\t");
    let s = field + "\t"@ + rest;
    text::law_split_is_at_the_first(s, "\t"@);
    text::lemma_part_between(field, "\t"@, rest);
    let (before, after) = text::split_once(s, "\t"@)->0;
    assert(s[field.len() as int] == '\t');
    assert(s.skip(field.len() as int).take(1) =~= "\t"@);
    assert(text::starts_with(s.skip(field.len() as int), "\t"@));
    if before.len() < field.len() {
        assert(s[before.len() as int] == "\t"@[0]);
        assert(field[before.len() as int] == '\t');
    }
    assert(before.len() == field.len());
    let n = field.len() as int;
    assert((before + "\t"@ + after).take(n) =~= before);
    assert(s.take(n) =~= field);
    assert((before + "\t"@ + after).skip(n + 1) =~= after);
    assert(s.skip(n + 1) =~= rest);
}

proof fn lemma_no_tab(field: Seq<char>)
    requires
        !field.contains('\t'),
    ensures
        text::split_once(field, "\t"@) is None,
{
    reveal_strlit("\t");
    text::law_split_is_at_the_first(field, "\t"@);
    if text::has_part(field, "\t"@) {
        let at = choose|at: int|
            0 <= at <= field.len() && text::starts_with(#[trigger] field.skip(at), "\t"@);
        assert(field.skip(at).take(1)[0] == field[at]);
        assert(field.contains(field[at]));
    }
}

/// A count is a number, if it is in range, and nothing else is.
pub proof fn law_counts_are_numbers(n: nat, field: Seq<char>)
    ensures
        n <= u64::MAX ==> parse_count(text::decimal(n)) == Some(n as u64),
        n > u64::MAX ==> parse_count(text::decimal(n)) is None,
        parse_count("-"@) is None,
        (exists|i: int| 1 <= i < field.len() && !text::is_digit(#[trigger] field[i]))
            ==> parse_count(field) is None,
        field.len() == 0 ==> parse_count(field) is None,
{
    text::law_numbers_read_back(n, field, u64::MAX as nat);
    reveal_strlit("-");
    assert("-"@[0] == '-');
}

/// Patterns are looked at one by one: the first that does not parse is the one that is
/// reported, whatever follows it, and where all parse none is.
pub proof fn law_first_bad_pattern_is_reported(
    good: Seq<Seq<char>>,
    pattern: Seq<char>,
    rest: Seq<Seq<char>>,
)
    requires
        forall|i: int|
            0 <= i < good.len() ==> outside::glob_parsed(#[trigger] good[i]) is Ok,
    ensures
        first_bad(good) is None,
        outside::glob_parsed(pattern) matches Err(error) ==> first_bad(
            good + seq![pattern] + rest,
        ) == Some((pattern, outside::glob_error_shown(error))),
        outside::glob_parsed(pattern) matches Err(error) ==> bad_globs(
            good + seq![pattern] + rest,
        ) == Some((pattern, outside::glob_error_shown(error))),
        outside::globs_built(parsed_globs(good)) matches Err(error) ==> bad_globs(good) == Some(
            (text::join(good, ","@), outside::glob_error_shown(error)),
        ),
        outside::globs_built(parsed_globs(good)) is Ok ==> bad_globs(good) is None,
    decreases good.len(),
{
    let all = good + seq![pattern] + rest;
    if good.len() == 0 {
        assert(all[0] == pattern);
    } else {
        let below = good.drop_first();
        assert forall|i: int| 0 <= i < below.len() implies outside::glob_parsed(
            #[trigger] below[i],
        ) is Ok by {
            assert(below[i] == good[i + 1]);
        }
        law_first_bad_pattern_is_reported(below, pattern, rest);
        assert(outside::glob_parsed(good[0]) is Ok);
        assert(all.drop_first() =~= below + seq![pattern] + rest);
    }
}

/// A path is excluded where one of the patterns matches it, so one more pattern excludes
/// what it matches and nothing else.
pub proof fn law_each_pattern_excludes_what_it_matches(
    patterns: Seq<Seq<char>>,
    pattern: Seq<char>,
    path: Seq<char>,
)
    ensures
        !excludes(Seq::empty(), path),
        excludes(patterns.push(pattern), path) <==> excludes(patterns, path)
            || outside::glob_matches(outside::glob_parsed(pattern)->Ok_0, path),
{
    let more = patterns.push(pattern);
    if excludes(patterns, path) {
        let i = choose|i: int|
            0 <= i < patterns.len() && #[trigger] outside::glob_matches(
                parsed_globs(patterns)[i],
                path,
            );
        assert(parsed_globs(more)[i] == parsed_globs(patterns)[i]);
    }
    assert(parsed_globs(more)[patterns.len() as int] == outside::glob_parsed(pattern)->Ok_0);
    if excludes(more, path) {
        let i = choose|i: int|
            0 <= i < more.len() && #[trigger] outside::glob_matches(parsed_globs(more)[i], path);
        if i < patterns.len() {
            assert(parsed_globs(patterns)[i] == parsed_globs(more)[i]);
        }
    }
}

/// Reading the staged change fails where there is no entry at all or the patterns are bad,
/// and gives the whole of it otherwise.
pub proof fn law_staging_succeeds_where_it_can(
    config: Config,
    numstat: Seq<char>,
    diff: Seq<char>,
    r: Result<Diff, GitError>,
)
    requires
        is_staged(config, numstat, diff, r),
    ensures
        r is Ok <==> numstat_entries(text::lines(numstat)).len() > 0 && bad_globs(
            text::texts(config.exclude@),
        ) is None,
        r matches Err(GitError::NothingStaged) <==> numstat_entries(text::lines(numstat)).len()
            == 0,
        r matches Ok(plan) ==> plan@.files.len() == numstat_entries(text::lines(numstat)).len(),
        r matches Ok(plan) ==> plan.wf() && plan@ == arranged(
            numstat_entries(text::lines(numstat)),
            exclusions(numstat_entries(text::lines(numstat)), text::texts(config.exclude@)),
            file_chunks(diff),
            config.max_diff_bytes as nat,
            config.max_file_diff_bytes as nat,
            numstat_entries(text::lines(numstat)).len(),
        ),
        (r is Err && !(r->Err_0 is NothingStaged)) ==> {
            &&& r->Err_0 matches GitError::BadGlob(pattern, reason)
            &&& bad_globs(text::texts(config.exclude@)) == Some((pattern@, reason@))
        },
{
    let entries = numstat_entries(text::lines(numstat));
    law_every_file_is_listed(
        entries,
        exclusions(entries, text::texts(config.exclude@)),
        file_chunks(diff),
        config.max_diff_bytes as nat,
        config.max_file_diff_bytes as nat,
        entries.len(),
    );
}

/// A search finds exactly the lines that the expression matches: a line of a withheld
/// diff is among the hits, under its path and its number, if and only if the expression
/// matches that line, and nothing else is among them.
pub proof fn law_search_finds_what_the_expression_matches(
    withheld: Seq<(Seq<char>, Seq<char>)>,
    regex: regex::Regex,
    f: int,
    j: int,
    i: int,
)
    requires
        ordered::sorted(withheld),
    ensures
        0 <= f < withheld.len() && 0 <= j < text::lines(withheld[f].1).len() ==> (search_hits(
            withheld,
            regex_flags(regex, withheld),
            withheld.len(),
        ).contains((withheld[f].0, j as nat, text::lines(withheld[f].1)[j]))
            <==> outside::regex_matches(regex, text::lines(withheld[f].1)[j])),
        ({
            let hits = search_hits(withheld, regex_flags(regex, withheld), withheld.len());
            0 <= i < hits.len() ==> exists|g: int|
                0 <= g < withheld.len() && (#[trigger] withheld[g]).0 == hits[i].0 && hits[i].1
                    < text::lines(withheld[g].1).len() && text::lines(
                    withheld[g].1,
                )[hits[i].1 as int] == hits[i].2 && outside::regex_matches(regex, hits[i].2)
        }),
{
    let matched = regex_flags(regex, withheld);
    let hits = search_hits(withheld, matched, withheld.len());
    if 0 <= i < hits.len() {
        lemma_hits_are_lines(withheld, matched, withheld.len(), i);
        let g = choose|g: int|
            0 <= g < withheld.len() && #[trigger] is_hit_of(withheld, matched, hits[i], g);
        assert(withheld[g].0 == hits[i].0);
    }
    if 0 <= f < withheld.len() && 0 <= j < text::lines(withheld[f].1).len() {
        let line = text::lines(withheld[f].1)[j];
        let hit = (withheld[f].0, j as nat, line);
        assert(matched[f][j] == outside::regex_matches(regex, line));
        if matched[f][j] {
            law_search_finds_every_match(withheld, matched, withheld.len(), f, j);
        }
        if hits.contains(hit) {
            let at = choose|at: int| 0 <= at < hits.len() && hits[at] == hit;
            lemma_hits_are_lines(withheld, matched, withheld.len(), at);
            let g = choose|g: int|
                0 <= g < withheld.len() && #[trigger] is_hit_of(withheld, matched, hit, g);
            if g != f {
                text::lemma_text_lt_irreflexive(hit.0);
                if g < f {
                    assert(text::text_lt(withheld[g].0, withheld[f].0));
                } else {
                    assert(text::text_lt(withheld[f].0, withheld[g].0));
                }
            }
        }
    }
}

/// What a search tells the model is what the expression matches. Where it matches a line
/// and the reply stays within the budget, the reply holds that line behind its path and
/// its number; and it says that there is no match exactly where no line matches. Case does
/// not matter.
pub proof fn law_search_tells_what_the_expression_matches(
    diff: DiffView,
    pattern: Seq<char>,
    budget: nat,
    f: int,
    j: int,
)
    requires
        ordered::sorted(diff.withheld),
        outside::regex_built(pattern, true, 0x10_0000) is Ok,
        0 <= f < diff.withheld.len(),
        0 <= j < text::lines(diff.withheld[f].1).len(),
        outside::regex_matches(
            outside::regex_built(pattern, true, 0x10_0000)->Ok_0,
            text::lines(diff.withheld[f].1)[j],
        ),
    ensures
        text::byte_len(search_outcome(diff, pattern, budget)) < budget ==> text::has_part(
            search_outcome(diff, pattern, budget),
            diff.withheld[f].0 + ":"@ + text::decimal(j as nat) + ": "@ + text::trim_end(
                text::lines(diff.withheld[f].1)[j],
            ) + "\n"@,
        ),
        text::byte_len(search_outcome(diff, pattern, budget)) >= budget ==> text::has_end(
            search_outcome(diff, pattern, budget),
            " matches in total, output truncated\n"@,
        ),
{
    let regex = outside::regex_built(pattern, true, 0x10_0000)->Ok_0;
    let withheld = diff.withheld;
    let matched = regex_flags(regex, withheld);
    let hits = search_hits(withheld, matched, withheld.len());
    let hit = (withheld[f].0, j as nat, text::lines(withheld[f].1)[j]);
    law_search_finds_what_the_expression_matches(withheld, regex, f, j, 0);
    let at = choose|at: int| 0 <= at < hits.len() && hits[at] == hit;
    let out = hit_lines(hits, budget, hits.len());
    if text::byte_len(out) < budget {
        law_search_reports_within_budget(hits, budget, hits.len(), at);
    } else {
        let outcome = search_outcome(diff, pattern, budget);
        let end = " matches in total, output truncated\n"@;
        assert(outcome.skip(outcome.len() - end.len()) =~= end);
        text::lemma_byte_len_add(out, "... "@ + text::decimal(hits.len()) + end);
        assert(outcome =~= out + ("... "@ + text::decimal(hits.len()) + end));
    }
}

/// Where no line of a withheld diff matches, the reply says so, and names the pattern;
/// where the pattern is no expression, the reply says that.
pub proof fn law_search_says_where_nothing_matches(
    diff: DiffView,
    pattern: Seq<char>,
    budget: nat,
)
    requires
        ordered::sorted(diff.withheld),
    ensures
        (outside::regex_built(pattern, true, 0x10_0000) matches Ok(regex) && forall|f: int, j: int|
            0 <= f < diff.withheld.len() && 0 <= j < text::lines(diff.withheld[f].1).len()
                ==> !outside::regex_matches(
                regex,
                #[trigger] text::lines(diff.withheld[f].1)[j],
            )) ==> search_outcome(diff, pattern, budget) == "no match for "@
            + outside::debug_quoted(pattern) + " in any withheld diff"@,
        outside::regex_built(pattern, true, 0x10_0000) matches Err(error) ==> search_outcome(
            diff,
            pattern,
            budget,
        ) == outside::debug_quoted(pattern) + " is not a valid regular expression: "@
            + outside::regex_error_shown(error),
{
    if let Ok(regex) = outside::regex_built(pattern, true, 0x10_0000) {
        let withheld = diff.withheld;
        let hits = search_hits(withheld, regex_flags(regex, withheld), withheld.len());
        if (forall|f: int, j: int|
            0 <= f < withheld.len() && 0 <= j < text::lines(withheld[f].1).len()
                ==> !outside::regex_matches(regex, #[trigger] text::lines(withheld[f].1)[j]))
            && hits.len() > 0 {
            law_search_finds_what_the_expression_matches(withheld, regex, 0, 0, 0);
            let g = choose|g: int|
                0 <= g < withheld.len() && (#[trigger] withheld[g]).0 == hits[0].0 && hits[0].1
                    < text::lines(withheld[g].1).len() && text::lines(
                    withheld[g].1,
                )[hits[0].1 as int] == hits[0].2 && outside::regex_matches(regex, hits[0].2);
            assert(!outside::regex_matches(
                regex,
                text::lines(withheld[g].1)[hits[0].1 as int],
            ));
        }
    }
}

/// The hits are reported one by one, whole, from the first on, for as long as the budget
/// is not used up.
pub proof fn law_hits_are_reported_until_the_budget_is_spent(
    hits: Seq<(Seq<char>, nat, Seq<char>)>,
    budget: nat,
    n: nat,
) -> (m: nat)
    requires
        n <= hits.len(),
    ensures
        m <= n,
        hit_lines(hits, budget, n) == reported_hits(hits, m),
        m > 0 ==> text::byte_len(reported_hits(hits, (m - 1) as nat)) < budget,
        m < n ==> text::byte_len(reported_hits(hits, m)) >= budget,
    decreases n,
{
    if n == 0 {
        0
    } else {
        let m = law_hits_are_reported_until_the_budget_is_spent(hits, budget, (n - 1) as nat);
        if text::byte_len(hit_lines(hits, budget, (n - 1) as nat)) < budget {
            let a = reported_lines(hits, n);
            assert(a.drop_last() =~= reported_lines(hits, (n - 1) as nat));
            n
        } else {
            m
        }
    }
}

/// The lines that report the first matches: path, number and line, without the white
/// space at its end.
pub open spec fn reported_lines(hits: Seq<(Seq<char>, nat, Seq<char>)>, m: nat) -> Seq<Seq<char>> {
    Seq::new(
        m,
        |i: int|
            hits[i].0 + ":"@ + text::decimal(hits[i].1) + ": "@ + text::trim_end(hits[i].2)
                + "\n"@,
    )
}

/// The lines that report the first matches, one after the other.
pub open spec fn reported_hits(hits: Seq<(Seq<char>, nat, Seq<char>)>, m: nat) -> Seq<char> {
    text::concat(reported_lines(hits, m))
}

/// A request for a path that has no withheld diff is answered with every path that has
/// one, and a request past the end with the number of lines there are.
pub proof fn law_wrong_reads_are_answered(
    diff: DiffView,
    path: Seq<char>,
    offset: nat,
    limit: nat,
    i: int,
)
    ensures
        ordered::get(diff.withheld, path) is None && 0 <= i < diff.withheld.len()
            ==> text::has_part(read_reply(diff, path, offset, limit), diff.withheld[i].0),
        ordered::get(diff.withheld, path) is None ==> text::starts_with(
            read_reply(diff, path, offset, limit),
            "no withheld diff for "@ + outside::debug_quoted(path) + ". Withheld files: "@,
        ),
        (ordered::get(diff.withheld, path) matches Some(chunk) && offset >= text::lines(
            chunk,
        ).len()) ==> read_reply(diff, path, offset, limit) == path + " has "@ + text::decimal(
            text::lines(ordered::get(diff.withheld, path)->0).len(),
        ) + " lines, "@ + text::decimal(offset) + " is past the end"@,
{
    let reply = read_reply(diff, path, offset, limit);
    if ordered::get(diff.withheld, path) is None {
        let names = ordered::keys(diff.withheld);
        let head = "no withheld diff for "@ + outside::debug_quoted(path) + ". Withheld files: "@;
        assert(reply.take(head.len() as int) =~= head);
        if 0 <= i < diff.withheld.len() {
            text::lemma_join_holds(names, ", "@, i);
            text::lemma_part_within(head, text::join(names, ", "@), names[i], Seq::empty());
            assert(head + text::join(names, ", "@) + Seq::<char>::empty() =~= reply);
        }
    }
}

/// A tool is called by its name. What the model leaves out is the first line, two hundred
/// lines, and an empty path or pattern; and a name that is no tool's is told back, whatever
/// comes with it.
pub proof fn law_tools_are_called_by_name(
    diff: DiffView,
    name: Seq<char>,
    arguments: ArgumentsView,
    budget: nat,
)
    ensures
        (arguments.path matches Some(path) && arguments.offset matches Some(offset)
            && arguments.limit matches Some(limit)) ==> tool_reply(
            diff,
            "read_diff"@,
            arguments,
            budget,
        ) == read_reply(
            diff,
            arguments.path->0,
            arguments.offset->0 as usize as nat,
            arguments.limit->0 as usize as nat,
        ),
        tool_reply(
            diff,
            "read_diff"@,
            ArgumentsView { path: None, offset: None, limit: None, ..arguments },
            budget,
        ) == read_reply(diff, Seq::empty(), 0, 200),
        tool_reply(
            diff,
            "read_diff"@,
            ArgumentsView { offset: None, ..arguments },
            budget,
        ) == tool_reply(
            diff,
            "read_diff"@,
            ArgumentsView { offset: Some(0), ..arguments },
            budget,
        ),
        tool_reply(
            diff,
            "read_diff"@,
            ArgumentsView { limit: None, ..arguments },
            budget,
        ) == tool_reply(
            diff,
            "read_diff"@,
            ArgumentsView { limit: Some(200), ..arguments },
            budget,
        ),
        arguments.pattern matches Some(pattern) ==> tool_reply(
            diff,
            "search_diff"@,
            arguments,
            budget,
        ) == search_outcome(diff, pattern, budget),
        arguments.pattern is None ==> tool_reply(diff, "search_diff"@, arguments, budget)
            == search_outcome(diff, Seq::empty(), budget),
        name != "read_diff"@ && name != "search_diff"@ ==> tool_reply(
            diff,
            name,
            arguments,
            budget,
        ) == "no such tool: "@ + name,
{
    reveal_strlit("read_diff");
    reveal_strlit("search_diff");
    assert("read_diff"@.len() != "search_diff"@.len());
}

/// The header of a file names its path behind the second `b/`, if the path before it
/// holds no space; and a line that does not start as a header does names none.
pub proof fn law_headers_name_the_path(old_path: Seq<char>, path: Seq<char>, line: Seq<char>)
    requires
        !old_path.contains(' '),
    ensures
        header_path("diff --git a/"@ + old_path + " b/"@ + path) == Some(path),
        is_header("diff --git a/"@ + old_path + " b/"@ + path),
        !text::starts_with(line, "diff --git "@) ==> header_path(line) is None,
{
    reveal_strlit("diff --git a/");
    reveal_strlit("diff --git ");
    reveal_strlit(" b/");
    let header = "diff --git a/"@ + old_path + " b/"@ + path;
    let n = "diff --git "@.len() as int;
    assert(header.take(n) =~= "diff --git "@);
    let rest = header.skip(n);
    let first = seq!['a', '/'] + old_path;
    assert(rest =~= first + " b/"@ + path);
    text::law_split_is_at_the_first(rest, " b/"@);
    text::lemma_part_between(first, " b/"@, path);
    let (before, after) = text::split_once(rest, " b/"@)->0;
    let m = first.len() as int;
    assert(rest.skip(m).take(3) =~= " b/"@);
    assert(text::starts_with(rest.skip(m), " b/"@));
    let k = before.len() as int;
    assert(rest[k] == (before + " b/"@ + after)[k]);
    assert(rest[k] == ' ');
    if k < m {
        assert(first[k] == ' ');
        if k >= 2 {
            assert(old_path[k - 2] == ' ');
            assert(old_path.contains(' '));
        }
    }
    assert(k == m);
    assert((before + " b/"@ + after).skip(m + 3) =~= after);
    assert(rest.skip(m + 3) =~= path);
}

proof fn lemma_section_ends_at_header(lines: Seq<Seq<char>>, rest: Seq<Seq<char>>)
    requires
        forall|i: int| 0 <= i < lines.len() ==> !is_header(#[trigger] lines[i]),
        rest.len() == 0 || is_header(rest[0]),
    ensures
        section_len(lines + rest) == lines.len(),
    decreases lines.len(),
{
    let all = lines + rest;
    if lines.len() == 0 {
        assert(all =~= rest);
    } else {
        let below = lines.drop_first();
        assert forall|i: int| 0 <= i < below.len() implies !is_header(#[trigger] below[i]) by {
            assert(below[i] == lines[i + 1]);
        }
        lemma_section_ends_at_header(below, rest);
        assert(all.drop_first() =~= below + rest);
        assert(all[0] == lines[0]);
    }
}

/// A diff is split at its headers: what stands from one header up to the next belongs to
/// the path that the header names, line for line.
pub proof fn law_diff_is_split_at_its_headers(
    header: Seq<char>,
    lines: Seq<Seq<char>>,
    rest: Seq<Seq<char>>,
)
    requires
        forall|i: int| 0 <= i < lines.len() ==> !is_header(#[trigger] lines[i]),
        rest.len() == 0 || is_header(rest[0]),
    ensures
        header_path(header) matches Some(path) ==> sections(seq![header] + lines + rest) == seq![
            (path, unlines(seq![header] + lines)),
        ] + sections(rest),
        header_path(header) is None ==> sections(seq![header] + lines + rest) == sections(rest),
        sections(lines + rest) == sections(rest),
{
    let all = seq![header] + lines + rest;
    lemma_section_ends_at_header(lines, rest);
    assert(all.drop_first() =~= lines + rest);
    let n = 1 + lines.len() as int;
    assert(all.skip(n) =~= rest);
    assert(all.take(n) =~= seq![header] + lines);
    if lines.len() == 0 {
        assert(lines + rest =~= rest);
    } else {
        let below = lines.drop_first();
        assert forall|i: int| 0 <= i < below.len() implies !is_header(#[trigger] below[i]) by {
            assert(below[i] == lines[i + 1]);
        }
        lemma_section_ends_at_header(below, rest);
        let part = lines + rest;
        assert(part.drop_first() =~= below + rest);
        assert(part.skip(lines.len() as int) =~= rest);
        assert(part[0] == lines[0]);
        assert(header_path(part[0]) is None);
    }
}

/// Lines are put together one after the other, each with a line feed.
pub proof fn law_lines_are_put_together(a: Seq<Seq<char>>, b: Seq<Seq<char>>, line: Seq<char>)
    ensures
        unlines(a + b) == unlines(a) + unlines(b),
        unlines(seq![line]) == line + "\n"@,
        unlines(Seq::empty()) == Seq::<char>::empty(),
{
    reveal_strlit("\n");
    lemma_unlines_add(a, b);
    assert(seq![line].drop_last() =~= Seq::<Seq<char>>::empty());
    reveal_with_fuel(unlines, 2);
    assert(unlines(seq![line]) =~= line + "\n"@);
}

/// Where a diff has two parts for one path, the last is the one that counts, and the parts
/// of other paths stay.
pub proof fn law_the_last_part_counts(
    parts: Seq<(Seq<char>, Seq<char>)>,
    path: Seq<char>,
    chunk: Seq<char>,
    other: Seq<char>,
)
    ensures
        ordered::sorted(put_all(parts)),
        ordered::get(put_all(parts.push((path, chunk))), path) == Some(chunk),
        other != path ==> ordered::get(put_all(parts.push((path, chunk))), other)
            == ordered::get(put_all(parts), other),
    decreases parts.len(),
{
    let more = parts.push((path, chunk));
    assert(more.drop_last() =~= parts);
    if parts.len() > 0 {
        law_the_last_part_counts(parts.drop_last(), parts.last().0, parts.last().1, other);
        ordered::lemma_put(put_all(parts.drop_last()), parts.last().0, parts.last().1);
    }
    ordered::lemma_put(put_all(parts), path, chunk);
}

/// What is said of several files is what is said of each: the manifest has one line after
/// the other, the lines added and deleted add up, and the paths shown follow each other.
pub proof fn law_files_are_told_one_by_one(
    a: Seq<ChangeView>,
    b: Seq<ChangeView>,
    file: ChangeView,
    width: nat,
)
    ensures
        manifest_text(a + b, width) == manifest_text(a, width) + manifest_text(b, width),
        manifest_text(seq![file], width) == manifest_line(file, width),
        total_added(a + b) == total_added(a) + total_added(b),
        total_deleted(a + b) == total_deleted(a) + total_deleted(b),
        total_added(seq![file]) == match file.added {
            Some(n) => n as nat,
            None => 0,
        },
        total_deleted(seq![file]) == match file.deleted {
            Some(n) => n as nat,
            None => 0,
        },
        shown_paths(a + b) == shown_paths(a) + shown_paths(b),
        shown_paths(seq![file]) == match file.state {
            FileState::Withheld { .. } => Seq::<Seq<char>>::empty(),
            _ => seq![file.path],
        },
        all_paths(a + b) == all_paths(a) + all_paths(b),
        all_paths(seq![file]) == seq![file.path],
    decreases b.len(),
{
    let one = seq![file];
    assert(one.drop_last() =~= Seq::<ChangeView>::empty());
    reveal_with_fuel(manifest_text, 2);
    reveal_with_fuel(total_added, 2);
    reveal_with_fuel(total_deleted, 2);
    reveal_with_fuel(shown_paths, 2);
    assert(manifest_text(one, width) =~= manifest_line(file, width));
    assert(shown_paths(one) =~= match file.state {
        FileState::Withheld { .. } => Seq::<Seq<char>>::empty(),
        _ => seq![file.path],
    });
    assert(all_paths(a + b) =~= all_paths(a) + all_paths(b));
    assert(all_paths(one) =~= seq![file.path]);
    if b.len() == 0 {
        assert(a + b =~= a);
        assert(manifest_text(a + b, width) =~= manifest_text(a, width) + manifest_text(b, width));
        assert(shown_paths(a + b) =~= shown_paths(a) + shown_paths(b));
    } else {
        law_files_are_told_one_by_one(a, b.drop_last(), file, width);
        assert((a + b).drop_last() =~= a + b.drop_last());
        assert(manifest_text(a + b, width) =~= manifest_text(a, width) + manifest_text(b, width));
        assert(shown_paths(a + b) =~= shown_paths(a) + shown_paths(b));
    }
}

/// A line of the manifest holds the path, the lines added and deleted, and what became of
/// the file with its size, and ends there.
pub proof fn law_manifest_line_tells_all(file: ChangeView, width: nat)
    ensures
        text::starts_with(manifest_line(file, width), file.path),
        (file.added matches Some(added) && file.deleted matches Some(deleted)) ==> text::has_part(
            manifest_line(file, width),
            "+"@ + text::decimal(file.added->0 as nat) + " -"@ + text::decimal(
                file.deleted->0 as nat,
            ) + "  "@,
        ),
        file.added is None || file.deleted is None ==> text::has_part(
            manifest_line(file, width),
            "binary  "@,
        ),
        text::has_end(
            manifest_line(file, width),
            "  "@ + (match file.state {
                FileState::Included => "included"@,
                FileState::Truncated { kept, total } => "included, first "@ + size_text(
                    kept as nat,
                ) + " of "@ + size_text(total as nat),
                FileState::Withheld { bytes } => "withheld, "@ + size_text(bytes as nat)
                    + " of diff"@,
                FileState::Binary => "binary, no diff"@,
            }) + "\n"@,
        ),
        manifest_line(file, width).len() == (if file.path.len() < width {
            width
        } else {
            file.path.len()
        }) + 4 + (if counts_text(file).len() < 12 {
            12
        } else {
            counts_text(file).len()
        }) + state_text(file.state).len() + 1,
{
    let line = manifest_line(file, width);
    reveal_strlit("  ");
    reveal_strlit("\n");
    assert(line.take(file.path.len() as int) =~= file.path);
    let end = "  "@ + state_text(file.state) + "\n"@;
    assert(line.skip(line.len() - end.len()) =~= end);
    let counts = counts_text(file);
    let padded = text::pad_start(counts, 12);
    let gap = padded.take(padded.len() - counts.len());
    assert(padded =~= gap + counts);
    let after = state_text(file.state) + "\n"@;
    let before = text::pad_end(file.path, width) + "  "@ + gap;
    text::lemma_part_between(before, counts + "  "@, after);
    assert(line =~= before + (counts + "  "@) + after);
    reveal_strlit("binary  ");
    reveal_strlit("binary");
    assert("binary  "@ =~= "binary"@ + "  "@);
}

/// A size is told in bytes below one kilobyte, and in whole kilobytes from there on.
pub proof fn law_sizes_are_told(bytes: nat, kilobytes: nat)
    ensures
        bytes < 1024 ==> size_text(bytes) == text::decimal(bytes) + " B"@,
        kilobytes > 0 && bytes < 1024 ==> size_text(1024 * kilobytes + bytes) == text::decimal(
            kilobytes,
        ) + " KB"@,
{
    if bytes < 1024 {
        assert((1024 * kilobytes + bytes) / 1024 == kilobytes) by (nonlinear_arith)
            requires
                bytes < 1024,
        ;
    }
}

/// The column of paths is as wide as the longest path, and no wider.
pub proof fn law_column_fits_the_longest_path(files: Seq<ChangeView>)
    ensures
        forall|i: int|
            0 <= i < files.len() ==> text::byte_len((#[trigger] files[i]).path) <= widest(files),
        files.len() > 0 ==> exists|i: int|
            0 <= i < files.len() && text::byte_len((#[trigger] files[i]).path) == widest(files),
        files.len() == 0 ==> widest(files) == 0,
    decreases files.len(),
{
    if files.len() > 0 {
        let rest = files.drop_last();
        law_column_fits_the_longest_path(rest);
        assert forall|i: int| 0 <= i < files.len() implies text::byte_len(
            (#[trigger] files[i]).path,
        ) <= widest(files) by {
            if i < rest.len() {
                assert(rest[i] == files[i]);
            }
        }
        if widest(rest) < text::byte_len(files.last().path) || rest.len() == 0 {
            assert(text::byte_len(files[files.len() - 1].path) == widest(files));
        } else {
            let i = choose|i: int|
                0 <= i < rest.len() && text::byte_len((#[trigger] rest[i]).path) == widest(rest);
            assert(files[i] == rest[i]);
        }
    }
}

/// A line counts where it begins with the sign, unless it begins with three and stands
/// before the first hunk; and no other line does. So each line adds one or nothing.
pub proof fn law_changed_lines_are_counted(
    lines: Seq<Seq<char>>,
    line: Seq<char>,
    sign: char,
)
    ensures
        count_changed(Seq::empty(), sign) == 0,
        count_signed(Seq::empty(), sign) == 0,
        line.len() > 0 && line[0] == sign ==> count_signed(lines.push(line), sign)
            == count_signed(lines, sign) + 1,
        line.len() == 0 || line[0] != sign ==> count_signed(lines.push(line), sign)
            == count_signed(lines, sign),
        line.len() == 0 || line[0] != sign ==> count_changed(lines.push(line), sign)
            == count_changed(lines, sign),
        line.len() > 0 && line[0] == sign && !(line.len() >= 3 && line[1] == sign && line[2]
            == sign) ==> count_changed(lines.push(line), sign) == count_changed(lines, sign) + 1,
        line.len() >= 3 && line[0] == sign && line[1] == sign && line[2] == sign
            ==> count_changed(lines.push(line), sign) == count_changed(lines, sign) + (if exists|
            i: int,
        |
            0 <= i < lines.len() && text::starts_with(#[trigger] lines[i], "@@"@) {
            1nat
        } else {
            0
        }),
{
    let more = lines.push(line);
    assert(more.drop_last() =~= lines);
    if line.len() > 0 {
        assert(line.take(1)[0] == line[0]);
        assert(line[0] == sign ==> line.take(1) =~= seq![sign]);
        assert(seq![sign][0] == sign);
    }
    if line.len() >= 3 {
        let three = line.take(3);
        assert(three[0] == line[0] && three[1] == line[1] && three[2] == line[2]);
        assert(seq![sign, sign, sign][1] == sign && seq![sign, sign, sign][2] == sign);
        if line[0] == sign && line[1] == sign && line[2] == sign {
            assert(three =~= seq![sign, sign, sign]);
        }
    }
}

/// An answer of git is what it says without the white space around it, and no answer
/// where that is nothing or where it failed.
pub proof fn law_answers_are_trimmed(output: Result<String, GitError>)
    ensures
        output is Err ==> answer_text(output) is None,
        output matches Ok(stdout) ==> (answer_text(output) is None <==> text::all_white(stdout@)),
        output matches Ok(stdout) ==> (!text::all_white(stdout@) ==> answer_text(output) == Some(
            text::trim(stdout@),
        )),
{
    if let Ok(stdout) = output {
        text::law_trim_takes_white_space_off_the_ends(stdout@);
    }
}

/// A log is read record by record, each up to a line of three dashes: its first line is
/// the subject, and what follows, without the white space around it, the body.
pub proof fn law_log_is_read_record_by_record(
    subject: Seq<char>,
    body: Seq<Seq<char>>,
    rest: Seq<Seq<char>>,
)
    requires
        subject != "---"@,
        forall|i: int| 0 <= i < body.len() ==> #[trigger] body[i] != "---"@,
    ensures
        logged(Seq::empty(), Seq::empty()) == Seq::<PastView>::empty(),
        logged(seq!["---"@] + rest, Seq::empty()) == logged(rest, Seq::empty()),
        logged(seq![subject] + body + seq!["---"@] + rest, Seq::empty()) == seq![
            PastView { subject, body: text::trim(text::join(body, "\n"@)) },
        ] + logged(rest, Seq::empty()),
        logged(seq![subject] + body, Seq::empty()) == seq![
            PastView { subject, body: text::trim(text::join(body, "\n"@)) },
        ],
{
    let none = Seq::<Seq<char>>::empty();
    let empty = seq!["---"@] + rest;
    assert(empty.drop_first() =~= rest);
    assert(Seq::<PastView>::empty() + logged(rest, none) =~= logged(rest, none));
    let all = seq![subject] + body;
    assert forall|i: int| 0 <= i < all.len() implies #[trigger] all[i] != "---"@ by {
        if i > 0 {
            assert(all[i] == body[i - 1]);
        }
    }
    lemma_record_grows(none, all, seq!["---"@] + rest);
    assert(none + all =~= all);
    assert(seq![subject] + body + seq!["---"@] + rest =~= all + (seq!["---"@] + rest));
    assert(all.drop_first() =~= body);
    lemma_record_grows(none, all, none);
    assert(all + none =~= all);
}

proof fn lemma_record_grows(
    record: Seq<Seq<char>>,
    lines: Seq<Seq<char>>,
    rest: Seq<Seq<char>>,
)
    requires
        forall|i: int| 0 <= i < lines.len() ==> #[trigger] lines[i] != "---"@,
    ensures
        logged(lines + rest, record) == logged(rest, record + lines),
    decreases lines.len(),
{
    let all = lines + rest;
    if lines.len() == 0 {
        assert(all =~= rest);
        assert(record + lines =~= record);
    } else {
        let below = lines.drop_first();
        assert forall|i: int| 0 <= i < below.len() implies #[trigger] below[i] != "---"@ by {
            assert(below[i] == lines[i + 1]);
        }
        lemma_record_grows(record.push(lines[0]), below, rest);
        assert(all.drop_first() =~= below + rest);
        assert(all[0] == lines[0]);
        assert(record.push(lines[0]) + below =~= record + lines);
    }
}

/// The files that are not staged are read line by line: two characters and a space are the
/// status, and the rest is the path, or the new path behind an arrow.
pub proof fn law_status_is_read_line_by_line(
    a: Seq<Seq<char>>,
    b: Seq<Seq<char>>,
    x: char,
    y: char,
    path: Seq<char>,
    short: Seq<char>,
)
    requires
        (x as u32) < 128,
        (y as u32) < 128,
        text::byte_len(short) < 3,
    ensures
        status_entries(a + b) == status_entries(a) + status_entries(b),
        !text::has_part(path, " -> "@) ==> status_entries(seq![seq![x, y, ' '] + path]) == seq![
            (text::trim(seq![x, y, ' ']), path),
        ],
        status_entries(seq![seq![x, y, ' '] + path]) == seq![
            (text::trim(seq![x, y, ' ']), text::after_last(path, " -> "@)),
        ],
        status_entries(seq![short]) == Seq::<(Seq<char>, Seq<char>)>::empty(),
    decreases b.len(),
{
    let line = seq![x, y, ' '] + path;
    assert(seq![line].drop_last() =~= Seq::<Seq<char>>::empty());
    assert(seq![short].drop_last() =~= Seq::<Seq<char>>::empty());
    reveal_with_fuel(status_entries, 2);
    text::law_bytes_part_a_text(line, 3);
    let head = line.take(3);
    assert(head =~= seq![x, y, ' ']);
    assert(line.skip(3) =~= path);
    reveal_with_fuel(text::byte_len, 4);
    assert(head.drop_first() =~= seq![y, ' ']);
    assert(head.drop_first().drop_first() =~= seq![' ']);
    assert(head.drop_first().drop_first().drop_first() =~= Seq::empty());
    assert(text::byte_len(head) == 3);
    reveal_strlit(" -> ");
    text::law_the_last_is_cut_off(path, " -> "@);
    assert(status_entries(seq![line]) =~= seq![
        (text::trim(seq![x, y, ' ']), text::after_last(path, " -> "@)),
    ]);
    text::law_bytes_part_a_text(short, 3);
    if let Some((before, after)) = text::split_bytes(short, 3) {
        text::lemma_byte_len_add(before, after);
    }
    if b.len() == 0 {
        assert(a + b =~= a);
        assert(status_entries(a + b) =~= status_entries(a) + status_entries(b));
    } else {
        law_status_is_read_line_by_line(a, b.drop_last(), x, y, path, short);
        assert((a + b).drop_last() =~= a + b.drop_last());
        assert(status_entries(a + b) =~= status_entries(a) + status_entries(b));
    }
}

/// Of the usual names of a default branch, the first that exists counts; those of the
/// remote come first.
pub proof fn law_first_name_that_exists_counts(no: Seq<bool>, rest: Seq<bool>)
    requires
        forall|i: int| 0 <= i < no.len() ==> !#[trigger] no[i],
    ensures
        first_yes(no) is None,
        first_yes(no + seq![true] + rest) == Some(no.len()),
        default_names() == seq!["origin/main"@, "origin/master"@, "main"@, "master"@],
    decreases no.len(),
{
    let all = no + seq![true] + rest;
    if no.len() > 0 {
        let below = no.drop_first();
        assert forall|i: int| 0 <= i < below.len() implies !#[trigger] below[i] by {
            assert(below[i] == no[i + 1]);
        }
        law_first_name_that_exists_counts(below, rest);
        assert(all.drop_first() =~= below + seq![true] + rest);
        assert(!all[0]) by {
            assert(all[0] == no[0]);
        }
    } else {
        assert(all[0]);
    }
}

/// Git gets the message on its standard input, and each flag exactly where it is asked for.
pub proof fn law_flags_are_passed_where_asked_for(options: CommitOptions)
    ensures
        commit_flags(options).take(3) == seq!["commit"@, "-F"@, "-"@],
        commit_flags(options).contains("-e"@) <==> options.review,
        commit_flags(options).contains("--amend"@) <==> options.amend,
        commit_flags(options).contains("--signoff"@) <==> options.signoff,
        commit_flags(options).contains("--gpg-sign"@) <==> options.gpg_sign,
        commit_flags(options).contains("--no-verify"@) <==> options.skip_hooks,
{
    let all = commit_flags(options);
    assert(all.take(3) =~= seq!["commit"@, "-F"@, "-"@]);
    reveal_strlit("commit");
    reveal_strlit("-F");
    reveal_strlit("-");
    reveal_strlit("-e");
    reveal_strlit("--amend");
    reveal_strlit("--signoff");
    reveal_strlit("--gpg-sign");
    reveal_strlit("--no-verify");
    assert("-"@.len() == 1 && "-e"@.len() == 2 && "-F"@.len() == 2 && "commit"@.len() == 6);
    assert("commit"@[0] == 'c' && "-F"@[1] == 'F' && "-e"@[1] == 'e' && "--amend"@.len() == 7
        && "--signoff"@.len() == 9 && "--gpg-sign"@.len() == 10 && "--no-verify"@.len() == 11);
    let fixed = seq!["commit"@, "-F"@, "-"@];
    let a = flag_if(options.review, "-e"@);
    let b = flag_if(options.amend, "--amend"@);
    let c = flag_if(options.signoff, "--signoff"@);
    let d = flag_if(options.gpg_sign, "--gpg-sign"@);
    let e = flag_if(options.skip_hooks, "--no-verify"@);
    if options.review {
        assert(all[3] == "-e"@);
    }
    if options.amend {
        assert(all[(fixed + a).len() as int] == "--amend"@);
    }
    if options.signoff {
        assert(all[(fixed + a + b).len() as int] == "--signoff"@);
    }
    if options.gpg_sign {
        assert(all[(fixed + a + b + c).len() as int] == "--gpg-sign"@);
    }
    if options.skip_hooks {
        assert(all[(fixed + a + b + c + d).len() as int] == "--no-verify"@);
    }
}

/// What an error of git says names what it is about: the command, what it printed, the
/// pattern, the reason.
pub proof fn law_errors_name_what_they_are_about(error: GitError)
    ensures
        error matches GitError::Spawn(why) ==> git_error_text(error) == "could not run git: "@
            + why@,
        error matches GitError::Failed { command, stderr } ==> text::starts_with(
            git_error_text(error),
            "git "@ + command@ + " failed: "@,
        ) && text::has_end(git_error_text(error), stderr@),
        error matches GitError::NotARepository ==> text::starts_with(
            git_error_text(error),
            "not inside a git repository."@,
        ),
        error matches GitError::NothingStaged ==> text::starts_with(
            git_error_text(error),
            "nothing is staged."@,
        ),
        error matches GitError::BadGlob(pattern, why) ==> text::starts_with(
            git_error_text(error),
            outside::debug_quoted(pattern@) + " is not a valid exclude pattern: "@,
        ) && text::has_end(git_error_text(error), why@),
{
    let t = git_error_text(error);
    match error {
        GitError::Spawn(why) => {},
        GitError::Failed { command, stderr } => {
            let head = "git "@ + command@ + " failed: "@;
            assert(t.take(head.len() as int) =~= head);
            assert(t.skip(t.len() - stderr@.len()) =~= stderr@);
        },
        GitError::NotARepository => {
            reveal_strlit(
                "not inside a git repository. Run this from a repository, or `git init` one",
            );
            reveal_strlit("not inside a git repository.");
            assert(t.take(28) =~= "not inside a git repository."@);
        },
        GitError::NothingStaged => {
            reveal_strlit(
                "nothing is staged. Stage what belongs in this commit with `git add -p`, then run auto-commit again",
            );
            reveal_strlit("nothing is staged.");
            assert(t.take(18) =~= "nothing is staged."@);
        },
        GitError::BadGlob(pattern, why) => {
            let head = outside::debug_quoted(pattern@) + " is not a valid exclude pattern: "@;
            assert(t.take(head.len() as int) =~= head);
            assert(t.skip(t.len() - why@.len()) =~= why@);
        },
    }
}

/// A header names what stands behind the first ` b/` in it.
pub proof fn law_headers_are_read_from_the_first_mark(rest: Seq<char>)
    ensures
        header_path("diff --git "@ + rest) == match text::split_once(rest, " b/"@) {
            Some(parts) => Some(parts.1),
            None => None,
        },
{
    let n = "diff --git "@.len() as int;
    let line = "diff --git "@ + rest;
    assert(line.take(n) =~= "diff --git "@);
    assert(line.skip(n) =~= rest);
}

/// A field of git's counts is read as any number is.
pub proof fn law_fields_are_read_as_numbers(field: Seq<char>)
    ensures
        match text::parse_unsigned(field, u64::MAX as nat) {
            Some(n) => parse_count(field) == Some(n as u64) && n <= u64::MAX,
            None => parse_count(field) is None,
        },
{
}

/// A request for no lines is answered with none.
pub proof fn law_no_lines_are_read_where_none_are_asked_for(
    diff: DiffView,
    path: Seq<char>,
    offset: nat,
)
    requires
        ordered::get(diff.withheld, path) is Some,
        offset < text::lines(ordered::get(diff.withheld, path)->0).len(),
    ensures
        read_reply(diff, path, offset, 0) == path + " lines "@ + text::decimal(offset) + ".."@
            + text::decimal(offset) + " of "@ + text::decimal(
            text::lines(ordered::get(diff.withheld, path)->0).len(),
        ) + "\n"@,
{
    let lines = text::lines(ordered::get(diff.withheld, path)->0);
    assert(lines.subrange(offset as int, offset as int) =~= Seq::<Seq<char>>::empty());
    let head = path + " lines "@ + text::decimal(offset) + ".."@ + text::decimal(offset) + " of "@
        + text::decimal(lines.len()) + "\n"@;
    assert(head + text::join(Seq::empty(), "\n"@) =~= head);
}

/// A reply to a search is the lines that report its hits; where they use up the budget, it
/// goes on to say how many hits there are in all.
pub proof fn law_search_reply_is_its_hits(
    pattern: Seq<char>,
    hits: Seq<(Seq<char>, nat, Seq<char>)>,
    budget: nat,
)
    requires
        hits.len() > 0,
    ensures
        ({
            let out = hit_lines(hits, budget, hits.len());
            &&& text::byte_len(out) < budget ==> search_reply(pattern, hits, budget) == out
            &&& text::byte_len(out) >= budget ==> search_reply(pattern, hits, budget) == out
                + "... "@ + text::decimal(hits.len()) + " matches in total, output truncated\n"@
        }),
        budget > 0 ==> text::starts_with(
            search_reply(pattern, hits, budget),
            hits[0].0 + ":"@ + text::decimal(hits[0].1) + ": "@ + text::trim_end(hits[0].2) + "\n"@,
        ),
{
    if budget > 0 {
        lemma_first_hit_is_reported(hits, budget, hits.len());
        let out = hit_lines(hits, budget, hits.len());
        let line = hit_line(hits[0]);
        let reply = search_reply(pattern, hits, budget);
        assert(reply.take(line.len() as int) =~= out.take(line.len() as int));
    }
}

proof fn lemma_first_hit_is_reported(
    hits: Seq<(Seq<char>, nat, Seq<char>)>,
    budget: nat,
    n: nat,
)
    requires
        0 < n <= hits.len(),
        budget > 0,
    ensures
        text::starts_with(hit_lines(hits, budget, n), hit_line(hits[0])),
    decreases n,
{
    let line = hit_line(hits[0]);
    let out = hit_lines(hits, budget, n);
    if n == 1 {
        reveal_with_fuel(hit_lines, 2);
        assert(out =~= line);
        assert(out.take(line.len() as int) =~= line);
    } else {
        lemma_first_hit_is_reported(hits, budget, (n - 1) as nat);
        let before = hit_lines(hits, budget, (n - 1) as nat);
        assert(out.take(line.len() as int) =~= before.take(line.len() as int));
    }
}

/// A path from the root of the machine is taken as it is, and any other is one below the
/// root of the repository; where none is set, the usual one is.
pub proof fn law_template_lies_in_the_repository(root: Seq<char>, path: Seq<char>)
    ensures
        text::starts_with(path, "/"@) ==> template_file(root, Some(path)) == path,
        !text::starts_with(path, "/"@) ==> text::starts_with(template_file(root, Some(path)), root)
            && text::has_end(template_file(root, Some(path)), path),
        template_file(root, None) == template_file(root, Some(".gitmessage"@)),
{
    config::law_paths_are_joined(root, path, path);
    reveal_strlit(".gitmessage");
    reveal_strlit("/");
    let usual = ".gitmessage"@;
    if text::starts_with(usual, "/"@) {
        assert(usual.take(1)[0] == usual[0]);
        assert("/"@[0] == '/');
        assert(usual[0] == '.');
    }
}

/// What is said of a list is what each of its entries holds, one for one.
pub proof fn law_lists_say_what_they_hold(
    files: Seq<FileChange>,
    entries: Seq<(String, Option<u64>, Option<u64>)>,
    commits: Seq<PastCommit>,
    pairs: Seq<(String, String)>,
    matched: Seq<Vec<bool>>,
    i: int,
)
    ensures
        changes(files).len() == files.len(),
        0 <= i < files.len() ==> changes(files)[i] == (ChangeView {
            path: files[i].path@,
            added: files[i].added,
            deleted: files[i].deleted,
            state: files[i].state,
        }),
        entry_texts(entries).len() == entries.len(),
        0 <= i < entries.len() ==> entry_texts(entries)[i] == (
            entries[i].0@,
            entries[i].1,
            entries[i].2,
        ),
        past_views(commits).len() == commits.len(),
        0 <= i < commits.len() ==> past_views(commits)[i] == (PastView {
            subject: commits[i].subject@,
            body: commits[i].body@,
        }),
        pair_texts(pairs).len() == pairs.len(),
        0 <= i < pairs.len() ==> pair_texts(pairs)[i] == (pairs[i].0@, pairs[i].1@),
        flags(matched).len() == matched.len(),
        0 <= i < matched.len() ==> flags(matched)[i] == matched[i]@,
{
}

/// An error of git says nothing but what it is about.
pub proof fn law_errors_say_no_more(error: GitError)
    ensures
        error matches GitError::Failed { command, stderr } ==> git_error_text(error) == "git "@
            + command@ + " failed: "@ + stderr@,
        error matches GitError::BadGlob(pattern, why) ==> git_error_text(error)
            == outside::debug_quoted(pattern@) + " is not a valid exclude pattern: "@ + why@,
{
}

} // verus!
