//! The staged change as a tree on the screen, and what is done about it.

use crate::git;
use crate::git::{ChangeView, Diff, FileChange, FileState, GitError};
use crate::ordered;
use crate::ordered::TextMap;
use crate::picker::{Key, Press};
use crate::screen;
use crate::screen::{line, push_row, Ink, Line, SpanView};
use crate::text;
use vstd::prelude::*;

verus! {

/// A directory, with the directories and the files that it holds. A file is known
/// by its place among the changes.
pub struct Node {
    pub directories: Vec<(String, Node)>,
    pub files: TextMap<usize>,
}

/// The directories that a directory holds.
pub open spec fn folders(node: Node) -> TextMap<Node> {
    TextMap { entries: node.directories }
}

/// What a [`Node`] holds, each in the order of its name.
pub struct Tree {
    pub directories: Seq<(Seq<char>, Tree)>,
    pub files: Seq<(Seq<char>, nat)>,
}

/// The trees of the first entries.
pub open spec fn subtrees(entries: Seq<(String, Node)>) -> Seq<(Seq<char>, Tree)>
    decreases entries,
{
    if entries.len() == 0 {
        Seq::empty()
    } else {
        subtrees(entries.drop_last()).push((entries.last().0@, node_tree(entries.last().1)))
    }
}

/// What a directory holds.
pub open spec fn node_tree(node: Node) -> Tree
    decreases node,
{
    Tree {
        directories: subtrees(node.directories@),
        files: ordered::mapped(node.files.pairs(), |n: usize| n as nat),
    }
}

/// The names in a directory, and in every directory below it, are in order.
pub open spec fn all_sorted(entries: Seq<(String, Node)>) -> bool
    decreases entries,
{
    entries.len() > 0 ==> all_sorted(entries.drop_last()) && node_sorted(entries.last().1)
}

/// The names in a directory, and in every directory below it, are in order.
pub open spec fn node_sorted(node: Node) -> bool
    decreases node,
{
    folders(node).wf() && node.files.wf() && all_sorted(node.directories@)
}

/// A directory that holds nothing.
pub open spec fn empty_tree() -> Tree {
    Tree { directories: Seq::empty(), files: Seq::empty() }
}

/// The directory of that name, or an empty one.
pub open spec fn subtree(tree: Tree, name: Seq<char>) -> Tree {
    match ordered::get(tree.directories, name) {
        Some(below) => below,
        None => empty_tree(),
    }
}

/// The tree with a file at a path.
pub open spec fn placed(tree: Tree, parts: Seq<Seq<char>>, index: nat) -> Tree
    decreases parts.len(),
{
    if parts.len() <= 1 {
        Tree { files: ordered::put(tree.files, parts[0], index), ..tree }
    } else {
        Tree {
            directories: ordered::put(
                tree.directories,
                parts[0],
                placed(subtree(tree, parts[0]), parts.drop_first(), index),
            ),
            ..tree
        }
    }
}

/// The tree of the first `n` paths.
pub open spec fn built(paths: Seq<Seq<char>>, n: nat) -> Tree
    decreases n,
{
    if n == 0 {
        empty_tree()
    } else {
        placed(built(paths, (n - 1) as nat), text::split(paths[n - 1], '/'), (n - 1) as nat)
    }
}

/// The paths of changes.
pub open spec fn change_paths(files: Seq<FileChange>) -> Seq<Seq<char>> {
    Seq::new(files.len(), |i: int| files[i].path@)
}

proof fn lemma_subtrees(entries: Seq<(String, Node)>)
    ensures
        subtrees(entries).len() == entries.len(),
        forall|i: int|
            0 <= i < entries.len() ==> #[trigger] subtrees(entries)[i] == (
                entries[i].0@,
                node_tree(entries[i].1),
            ),
        all_sorted(entries) <==> forall|i: int|
            0 <= i < entries.len() ==> node_sorted(#[trigger] entries[i].1),
    decreases entries.len(),
{
    if entries.len() > 0 {
        let rest = entries.drop_last();
        lemma_subtrees(rest);
        assert forall|i: int| 0 <= i < entries.len() implies #[trigger] subtrees(entries)[i] == (
            entries[i].0@,
            node_tree(entries[i].1),
        ) by {
            if i < rest.len() {
                assert(subtrees(rest)[i] == (rest[i].0@, node_tree(rest[i].1)));
            }
        }
        if all_sorted(entries) {
            assert forall|i: int| 0 <= i < entries.len() implies node_sorted(
                #[trigger] entries[i].1,
            ) by {
                if i < rest.len() {
                    assert(rest[i].1 == entries[i].1);
                }
            }
        }
        if forall|i: int| 0 <= i < entries.len() ==> node_sorted(#[trigger] entries[i].1) {
            assert forall|i: int| 0 <= i < rest.len() implies node_sorted(#[trigger] rest[i].1) by {
                assert(rest[i].1 == entries[i].1);
            }
            assert(node_sorted(entries[entries.len() - 1].1));
        }
    }
}

/// The directories of a tree are those of its node.
proof fn lemma_directories(node: Node)
    ensures
        node_tree(node).directories == ordered::mapped(
            folders(node).pairs(),
            |n: Node| node_tree(n),
        ),
{
    lemma_subtrees(node.directories@);
    assert(node_tree(node).directories =~= ordered::mapped(
        folders(node).pairs(),
        |n: Node| node_tree(n),
    ));
}

/// A directory stays in order when one in order is put in.
proof fn lemma_kept_sorted(before: Node, after: Node, name: Seq<char>, child: Node)
    requires
        node_sorted(before),
        node_sorted(child),
        after.files == before.files,
        folders(after).wf(),
        folders(after).pairs() == ordered::put(folders(before).pairs(), name, child),
    ensures
        node_sorted(after),
{
    let was = folders(before).pairs();
    let is = folders(after).pairs();
    lemma_subtrees(before.directories@);
    lemma_subtrees(after.directories@);
    ordered::lemma_put_entries(was, name, child);
    assert forall|i: int| 0 <= i < after.directories@.len() implies node_sorted(
        #[trigger] after.directories@[i].1,
    ) by {
        assert(is[i].1 == after.directories@[i].1);
        if is[i] != (name, child) {
            let j = choose|j: int| 0 <= j < was.len() && was[j] == is[i];
            assert(node_sorted(before.directories@[j].1));
        }
    }
}

impl Node {
    /// A directory that holds nothing.
    pub fn new() -> (r: Self)
        ensures
            node_sorted(r),
            node_tree(r) == empty_tree(),
    {
        let directories: Vec<(String, Node)> = Vec::new();
        let files: TextMap<usize> = TextMap::new();
        let r = Node { directories, files };
        proof {
            lemma_subtrees(r.directories@);
            assert(node_tree(r).directories =~= Seq::empty());
            assert(node_tree(r).files =~= Seq::empty());
        }
        r
    }

    /// Puts a file at a path, below the first `at` parts of it.
    fn place(&mut self, parts: &Vec<String>, at: usize, index: usize)
        requires
            node_sorted(*old(self)),
            at < parts@.len(),
        ensures
            node_sorted(*final(self)),
            node_tree(*final(self)) == placed(
                node_tree(*old(self)),
                text::texts(parts@).skip(at as int),
                index as nat,
            ),
        decreases parts@.len() - at,
    {
        let ghost before = node_tree(*self);
        let ghost names = text::texts(parts@).skip(at as int);
        let ghost f = |n: usize| n as nat;
        let ghost g = |n: Node| node_tree(n);
        assert(names[0] == parts@[at as int]@);
        proof {
            lemma_directories(*self);
            lemma_subtrees(self.directories@);
        }
        let total = parts.len();
        if at == total - 1 {
            proof {
                ordered::lemma_mapped(self.files.pairs(), f, names[0], index);
            }
            self.files.insert(parts[at].clone(), index);
        } else {
            let ghost pairs = folders(*self).pairs();
            proof {
                let v: Node = arbitrary();
                ordered::lemma_mapped(pairs, g, names[0], v);
                ordered::lemma_present(pairs, names[0]);
            }
            let mut map: TextMap<Node> = TextMap::new();
            std::mem::swap(&mut map.entries, &mut self.directories);
            let mut child = match map.remove(parts[at].as_str()) {
                Some(child) => child,
                None => Node::new(),
            };
            assert(node_tree(child) == subtree(before, names[0]));
            assert(node_sorted(child));
            assert(names.drop_first() =~= text::texts(parts@).skip(at + 1));
            child.place(parts, at + 1, index);
            let ghost placed_child = child;
            proof {
                ordered::lemma_put_after_del(pairs, names[0], placed_child);
                ordered::lemma_mapped(pairs, g, names[0], placed_child);
            }
            map.insert(parts[at].clone(), child);
            self.directories = map.entries;
            proof {
                lemma_directories(*self);
                lemma_kept_sorted(*old(self), *self, names[0], placed_child);
            }
        }
    }
}

proof fn lemma_split_parts(s: Seq<char>, c: char)
    ensures
        text::split(s, c).len() > 0,
    decreases s.len(),
{
    if text::find(s, c) < s.len() {
        lemma_split_parts(s.skip(text::find(s, c) as int + 1), c);
    }
}

/// The tree of the changed files: each file under the directories of its path.
pub fn build(files: &Vec<FileChange>) -> (r: Node)
    ensures
        node_sorted(r),
        node_tree(r) == built(change_paths(files@), files@.len()),
{
    let mut root = Node::new();
    let ghost paths = change_paths(files@);
    for index in 0..files.len()
        invariant
            paths == change_paths(files@),
            node_sorted(root),
            node_tree(root) == built(paths, index as nat),
    {
        let parts = text::split_on(files[index].path.as_str(), '/');
        proof {
            lemma_split_parts(paths[index as int], '/');
            assert(text::texts(parts@).skip(0) =~= text::texts(parts@));
            assert(text::texts(parts@).len() == parts@.len());
        }
        root.place(&parts, 0, index);
    }
    root
}

// ---------------------------------------------------------------------------
// Rows
// ---------------------------------------------------------------------------

/// One row per file and per directory that holds them, in the order they are
/// drawn. The place is kept rather than the path, because the row it lands on
/// needs the whole change to write its columns.
#[derive(Debug)]
pub struct Row {
    pub label: String,
    pub change: Option<usize>,
}

/// What a [`Row`] says.
pub struct RowView {
    pub label: Seq<char>,
    pub change: Option<nat>,
}

impl View for Row {
    type V = RowView;

    open spec fn view(&self) -> RowView {
        RowView {
            label: self.label@,
            change: match self.change {
                Some(index) => Some(index as nat),
                None => None,
            },
        }
    }
}

/// What the rows of a list say.
pub open spec fn row_views(list: Seq<Row>) -> Seq<RowView> {
    Seq::new(list.len(), |i: int| list[i]@)
}

/// What stands before a name, which is the last of its directory or not.
pub open spec fn branch_text(last: bool) -> Seq<char> {
    if last {
        "└─ "@
    } else {
        "├─ "@
    }
}

/// What stands before the names below one, which is the last of its directory or
/// not.
pub open spec fn carry_text(last: bool) -> Seq<char> {
    if last {
        "   "@
    } else {
        "│  "@
    }
}

/// What stands before a name, and before the names below it.
pub fn connectors(last: bool) -> (r: (&'static str, &'static str))
    ensures
        r.0@ == branch_text(last),
        r.1@ == carry_text(last),
{
    if last {
        ("└─ ", "   ")
    } else {
        ("├─ ", "│  ")
    }
}

/// Whether a directory holds one directory and nothing else.
pub open spec fn is_passage(tree: Tree) -> bool {
    tree.files.len() == 0 && tree.directories.len() == 1
}

/// The rows of one directory and of what is below it. A directory that holds one
/// directory and nothing else is written as one path. Without this,
/// `src/main/java/com` spends four rows saying nothing.
pub open spec fn directory_rows(name: Seq<char>, tree: Tree, prefix: Seq<char>, last: bool) -> Seq<
    RowView,
>
    decreases tree, 1int,
{
    if is_passage(tree) {
        directory_rows(
            name + "/"@ + tree.directories[0].0,
            tree.directories[0].1,
            prefix,
            last,
        )
    } else {
        seq![RowView { label: prefix + branch_text(last) + name + "/"@, change: None }]
            + tree_rows(tree, prefix + carry_text(last))
    }
}

/// The rows of the first `n` directories, of `total` names.
pub open spec fn directories_rows(
    directories: Seq<(Seq<char>, Tree)>,
    total: nat,
    prefix: Seq<char>,
    n: nat,
) -> Seq<RowView>
    decreases directories, n,
{
    if n == 0 || n > directories.len() {
        Seq::empty()
    } else {
        directories_rows(directories, total, prefix, (n - 1) as nat) + directory_rows(
            directories[n - 1].0,
            directories[n - 1].1,
            prefix,
            n == total,
        )
    }
}

/// The rows of files. The last of them is the last of its directory.
pub open spec fn files_rows(files: Seq<(Seq<char>, nat)>, prefix: Seq<char>) -> Seq<RowView> {
    Seq::new(
        files.len(),
        |i: int|
            RowView {
                label: prefix + branch_text(i + 1 == files.len()) + files[i].0,
                change: Some(files[i].1),
            },
    )
}

/// The rows of what a directory holds: the directories first, then the files.
pub open spec fn tree_rows(tree: Tree, prefix: Seq<char>) -> Seq<RowView>
    decreases tree, 0int,
{
    directories_rows(
        tree.directories,
        tree.directories.len() + tree.files.len(),
        prefix,
        tree.directories.len(),
    ) + files_rows(tree.files, prefix)
}

fn push_directory(name: String, node: &Node, prefix: &str, last: bool, out: &mut Vec<Row>)
    requires
        node_sorted(*node),
    ensures
        row_views(final(out)@) == row_views(old(out)@) + directory_rows(
            name@,
            node_tree(*node),
            prefix@,
            last,
        ),
    decreases *node, 1int,
{
    let ghost tree = node_tree(*node);
    let ghost start = row_views(out@);
    proof {
        lemma_subtrees(node.directories@);
    }
    if node.files.len() == 0 && node.directories.len() == 1 {
        let mut longer = name;
        longer.append("/");
        longer.append(node.directories[0].0.as_str());
        assert(tree.directories[0] == (
            node.directories@[0].0@,
            node_tree(node.directories@[0].1),
        ));
        assert(node_sorted(node.directories@[0].1));
        push_directory(longer, &node.directories[0].1, prefix, last, out);
    } else {
        let (branch, carry) = connectors(last);
        let mut label = prefix.to_owned();
        label.append(branch);
        label.append(name.as_str());
        label.append("/");
        let row = Row { label, change: None };
        let ghost view = row@;
        out.push(row);
        assert(row_views(out@) =~= start.push(view));
        let mut below = prefix.to_owned();
        below.append(carry);
        walk(node, below.as_str(), out);
        assert(row_views(out@) =~= start + directory_rows(name@, tree, prefix@, last));
    }
}

/// The rows of what a directory holds, each with a prefix: the directories first,
/// then the files.
pub fn walk(node: &Node, prefix: &str, out: &mut Vec<Row>)
    requires
        node_sorted(*node),
    ensures
        row_views(final(out)@) == row_views(old(out)@) + tree_rows(node_tree(*node), prefix@),
    decreases *node, 0int,
{
    let ghost tree = node_tree(*node);
    let ghost start = row_views(out@);
    let ghost total = tree.directories.len() + tree.files.len();
    proof {
        lemma_subtrees(node.directories@);
    }
    let files = node.files.len();
    let directories = node.directories.len();
    assert(directories_rows(tree.directories, total, prefix@, 0) =~= Seq::empty());
    assert(start + Seq::<RowView>::empty() =~= start);
    for i in 0..directories
        invariant
            tree == node_tree(*node),
            directories == node.directories@.len(),
            directories == tree.directories.len(),
            files == tree.files.len(),
            total == directories + files,
            node_sorted(*node),
            row_views(out@) == start + directories_rows(
                tree.directories,
                total,
                prefix@,
                i as nat,
            ),
    {
        let ghost before = row_views(out@);
        let last = files == 0 && i == directories - 1;
        proof {
            lemma_subtrees(node.directories@);
        }
        assert(tree.directories[i as int].1 == node_tree(node.directories@[i as int].1));
        push_directory(
            node.directories[i].0.clone(),
            &node.directories[i].1,
            prefix,
            last,
            out,
        );
        assert(row_views(out@) =~= start + directories_rows(
            tree.directories,
            total,
            prefix@,
            (i + 1) as nat,
        ));
    }
    let ghost upper = row_views(out@);
    let ghost rows = files_rows(tree.files, prefix@);
    assert(upper + rows.take(0) =~= upper);
    for i in 0..files
        invariant
            tree == node_tree(*node),
            files == tree.files.len(),
            files == node.files.pairs().len(),
            rows == files_rows(tree.files, prefix@),
            row_views(out@) == upper + rows.take(i as int),
    {
        let ghost before = row_views(out@);
        let (branch, _) = connectors(i == files - 1);
        let mut label = prefix.to_owned();
        label.append(branch);
        label.append(node.files.key(i).as_str());
        let row = Row { label, change: Some(*node.files.value(i)) };
        let ghost view = row@;
        out.push(row);
        assert(row_views(out@) =~= before.push(view));
        assert(rows[i as int] == view);
        assert(upper + rows.take(i + 1) =~= (upper + rows.take(i as int)).push(view));
    }
    assert(rows.take(rows.len() as int) =~= rows);
    assert(row_views(out@) =~= start + tree_rows(tree, prefix@));
}

// ---------------------------------------------------------------------------
// The tree on the screen
// ---------------------------------------------------------------------------

/// How many files, in words.
pub open spec fn count_text(files: nat) -> Seq<char> {
    if files == 1 {
        "1 file"@
    } else {
        text::decimal(files) + " files"@
    }
}

/// How many files, in words.
pub fn count(files: usize) -> (r: String)
    ensures
        r@ == count_text(files as nat),
{
    if files == 1 {
        "1 file".to_owned()
    } else {
        let mut out = text::number(files as u128);
        out.append(" files");
        out
    }
}

/// Why a file's hunks will not reach the model, when they will not.
pub open spec fn note_text(state: FileState) -> Seq<char> {
    match state {
        FileState::Included => ""@,
        FileState::Binary => ""@,
        FileState::Truncated { .. } => "truncated"@,
        FileState::Withheld { .. } => "withheld"@,
    }
}

/// Why a file's hunks will not reach the model, when they will not. A
/// withheld file still shapes the message, so it is worth a word here.
pub fn note(state: &FileState) -> (r: &'static str)
    ensures
        r@ == note_text(*state),
{
    match state {
        FileState::Included => "",
        FileState::Binary => "",
        FileState::Truncated { .. } => "truncated",
        FileState::Withheld { .. } => "withheld",
    }
}

/// The rows that are shown in so many, of so many files. Where they do not all fit,
/// one row goes to saying what is not shown; and so it does where some file has no
/// row of its own, because its path is named twice.
pub open spec fn kept_rows(rows: Seq<RowView>, files: nat, budget: nat) -> Seq<RowView> {
    if rows.len() > budget || (rows.len() == budget && file_count(rows) < files) {
        rows.take(text::less(budget, 1) as int)
    } else {
        rows
    }
}

/// How many rows are files.
pub open spec fn file_count(rows: Seq<RowView>) -> nat
    decreases rows.len(),
{
    if rows.len() == 0 {
        0
    } else {
        file_count(rows.drop_last()) + if rows.last().change is Some {
            1nat
        } else {
            0
        }
    }
}

/// The longest label.
pub open spec fn longest(rows: Seq<RowView>) -> nat
    decreases rows.len(),
{
    if rows.len() == 0 {
        0
    } else {
        let before = longest(rows.drop_last());
        if before < rows.last().label.len() {
            rows.last().label.len()
        } else {
            before
        }
    }
}

/// The column that the counts line up on. Long paths push the counts off the right
/// edge, so it stops well before it.
pub open spec fn count_column(rows: Seq<RowView>, width: nat) -> nat {
    if longest(rows) < text::less(width, 22) {
        longest(rows)
    } else {
        text::less(width, 22)
    }
}

/// A label, filled up to the column.
pub open spec fn label_text(label: Seq<char>, column: nat) -> Seq<char> {
    "  "@ + label + text::repeat(' ', text::less(column, label.len()) + 2)
}

/// The line for a row of the tree: a directory has its name, and a file has its
/// counts too.
pub open spec fn row_line(row: RowView, files: Seq<ChangeView>, column: nat) -> Seq<SpanView> {
    let label = label_text(row.label, column);
    match row.change {
        Some(index) if index < files.len() => {
            let change = files[index as int];
            let counts = match (change.added, change.deleted) {
                (Some(added), Some(deleted)) => screen::row(label, Ink::Plain) + screen::row(
                    text::pad_start("+"@ + text::decimal(added as nat), 6),
                    Ink::Added,
                ) + screen::row(
                    " "@ + text::pad_end("-"@ + text::decimal(deleted as nat), 6),
                    Ink::Removed,
                ),
                _ => screen::row(label, Ink::Plain) + screen::row(
                    text::pad_start("binary"@, 13),
                    Ink::Dim,
                ),
            };
            counts + screen::row(note_text(change.state), Ink::Dim)
        },
        _ => screen::row(label, Ink::Dim),
    }
}

/// The lines of the tree, of which these rows are kept. Where there is no room at
/// all, nothing is said of what is not shown.
pub open spec fn kept_lines(
    kept: Seq<RowView>,
    files: Seq<ChangeView>,
    width: nat,
    budget: nat,
) -> Seq<Seq<SpanView>> {
    let lines = Seq::new(
        kept.len(),
        |i: int| row_line(kept[i], files, count_column(kept, width)),
    );
    if file_count(kept) < files.len() && budget > 0 {
        lines.push(
            screen::row(
                "  and "@ + count_text((files.len() - file_count(kept)) as nat) + " not shown"@,
                Ink::Dim,
            ),
        )
    } else {
        lines
    }
}

/// All rows of the tree of these changes.
pub open spec fn all_rows(files: Seq<ChangeView>) -> Seq<RowView> {
    tree_rows(built(git::all_paths(files), files.len()), Seq::empty())
}

/// The tree, trimmed to the rows it was given.
pub open spec fn tree_lines(files: Seq<ChangeView>, width: nat, budget: nat) -> Seq<Seq<SpanView>> {
    kept_lines(kept_rows(all_rows(files), files.len(), budget), files, width, budget)
}

/// How many rows are files, and the column that the counts line up on.
fn measure(rows: &Vec<Row>, width: usize) -> (r: (usize, usize))
    ensures
        r.0 == file_count(row_views(rows@)),
        r.1 == count_column(row_views(rows@), width as nat),
{
    let mut shown: usize = 0;
    let mut column: usize = 0;
    let total = rows.len();
    let ghost all = row_views(rows@);
    for i in 0..total
        invariant
            total == rows@.len(),
            all == row_views(rows@),
            shown <= i,
            shown == file_count(all.take(i as int)),
            column == longest(all.take(i as int)),
    {
        assert(all.take(i + 1).drop_last() =~= all.take(i as int));
        assert(all.take(i + 1).last() == rows@[i as int]@);
        if rows[i].change.is_some() {
            shown = shown + 1;
        }
        let len = text::char_count(rows[i].label.as_str());
        if column < len {
            column = len;
        }
    }
    assert(all.take(all.len() as int) =~= all);
    let limit = text::saturating_less(width, 22);
    (
        shown,
        if column < limit {
            column
        } else {
            limit
        },
    )
}

fn file_line(label: String, change: &FileChange) -> (r: Line)
    ensures
        r@ == match (change@.added, change@.deleted) {
            (Some(added), Some(deleted)) => screen::row(label@, Ink::Plain) + screen::row(
                text::pad_start("+"@ + text::decimal(added as nat), 6),
                Ink::Added,
            ) + screen::row(
                " "@ + text::pad_end("-"@ + text::decimal(deleted as nat), 6),
                Ink::Removed,
            ) + screen::row(note_text(change@.state), Ink::Dim),
            _ => screen::row(label@, Ink::Plain) + screen::row(
                text::pad_start("binary"@, 13),
                Ink::Dim,
            ) + screen::row(note_text(change@.state), Ink::Dim),
        },
{
    let start = line(label, Ink::Plain);
    let counts = match (change.added, change.deleted) {
        (Some(added), Some(deleted)) => {
            let mut plus = "+".to_owned();
            plus.append(text::number(added as u128).as_str());
            let mut minus = "-".to_owned();
            minus.append(text::number(deleted as u128).as_str());
            let mut spaced = " ".to_owned();
            spaced.append(text::padded_end(minus.as_str(), 6).as_str());
            start.with(text::padded_start(plus.as_str(), 6), Ink::Added).with(spaced, Ink::Removed)
        },
        _ => start.with(text::padded_start("binary", 13), Ink::Dim),
    };
    counts.with(note(&change.state).to_owned(), Ink::Dim)
}

fn line_of(row: &Row, files: &Vec<FileChange>, column: usize) -> (r: Line)
    requires
        column <= usize::MAX - 2,
    ensures
        r@ == row_line(row@, git::changes(files@), column as nat),
{
    let mut label = "  ".to_owned();
    label.append(row.label.as_str());
    let pad = text::saturating_less(column, text::char_count(row.label.as_str())) + 2;
    text::push_repeated(&mut label, ' ', pad);
    match row.change {
        Some(index) => {
            if index < files.len() {
                return file_line(label, &files[index]);
            }
        },
        None => {},
    }
    line(label, Ink::Dim)
}

/// The tree, trimmed to the rows it was given. A staged change of four
/// hundred files is not worth a screen, and scrolling one is not worth the
/// keys it would take.
pub fn tree(files: &Vec<FileChange>, width: usize, budget: usize) -> (r: Vec<Line>)
    ensures
        screen::rows(r@) == tree_lines(git::changes(files@), width as nat, budget as nat),
{
    let mut rows: Vec<Row> = Vec::new();
    let root = build(files);
    let ghost views = git::changes(files@);
    assert(change_paths(files@) =~= git::all_paths(views));
    let nothing = String::new();
    assert(nothing@ =~= Seq::empty());
    assert(row_views(rows@) =~= Seq::empty());
    walk(&root, nothing.as_str(), &mut rows);
    let ghost all = all_rows(views);
    assert(row_views(rows@) =~= all);
    let (listed, _) = measure(&rows, width);
    let ghost kept = kept_rows(all, files@.len(), budget as nat);
    if rows.len() > budget || (rows.len() == budget && listed < files.len()) {
        rows.truncate(text::saturating_less(budget, 1));
        assert(row_views(rows@) =~= kept);
    }
    let (shown, column) = measure(&rows, width);
    let mut lines: Vec<Line> = Vec::new();
    for i in 0..rows.len()
        invariant
            views == git::changes(files@),
            kept == row_views(rows@),
            column == count_column(kept, width as nat),
            lines.len() == i,
            forall|j: int|
                0 <= j < i ==> #[trigger] lines@[j]@ == row_line(kept[j], views, column as nat),
    {
        lines.push(line_of(&rows[i], files, column));
    }
    let ghost drawn = Seq::new(
        kept.len(),
        |i: int| row_line(kept[i], views, count_column(kept, width as nat)),
    );
    assert(screen::rows(lines@) =~= drawn);
    if shown < files.len() && budget > 0 {
        let mut more = "  and ".to_owned();
        more.append(count(files.len() - shown).as_str());
        more.append(" not shown");
        push_row(&mut lines, line(more, Ink::Dim));
    }
    lines
}

// ---------------------------------------------------------------------------
// The screen that waits
// ---------------------------------------------------------------------------

/// The first rows of the frame: what is staged, and how much it changes.
pub open spec fn header_row(files: nat, added: nat, deleted: nat) -> Seq<SpanView> {
    screen::row("  "@ + count_text(files) + " staged"@, Ink::Bold) + screen::row(
        "   +"@ + text::decimal(added),
        Ink::Added,
    ) + screen::row(" -"@ + text::decimal(deleted), Ink::Removed)
}

/// The frame for what is staged, or for nothing, in a terminal of this size.
pub open spec fn frame_rows(staged: Option<Seq<ChangeView>>, width: nat, height: nat) -> Seq<
    Seq<SpanView>,
> {
    match staged {
        Some(files) => seq![
            header_row(files.len(), git::total_added(files), git::total_deleted(files)),
            screen::row(""@, Ink::Plain),
        ] + tree_lines(files, width, text::less(height, 6)) + seq![
            screen::row(""@, Ink::Plain),
            screen::row("  y  write the message   q  cancel"@, Ink::Accent),
            screen::row("  watching the staging area for changes"@, Ink::Dim),
        ],
        None => seq![
            screen::row("  nothing staged"@, Ink::Bold),
            screen::row(""@, Ink::Plain),
            screen::row("  stage what belongs in this commit with `git add -p`"@, Ink::Dim),
            screen::row(""@, Ink::Plain),
            screen::row("  q  cancel"@, Ink::Accent),
            screen::row("  watching the staging area for changes"@, Ink::Dim),
        ],
    }
}

/// The files of what is staged.
pub open spec fn staged_files(staged: Option<&Diff>) -> Option<Seq<ChangeView>> {
    match staged {
        Some(diff) => Some(diff@.files),
        None => None,
    }
}

/// The frame for what is staged, or for nothing, in a terminal of this size.
pub fn frame(staged: Option<&Diff>, width: usize, height: usize) -> (r: Vec<Line>)
    requires
        staged matches Some(diff) ==> git::total_added(diff@.files) <= u64::MAX
            && git::total_deleted(diff@.files) <= u64::MAX,
    ensures
        screen::rows(r@) == frame_rows(staged_files(staged), width as nat, height as nat),
{
    let mut lines: Vec<Line> = Vec::new();
    assert(screen::rows(lines@) =~= Seq::empty());
    match staged {
        Some(diff) => {
            // The header, the blank line under it, and the three rows of footer.
            let budget = text::saturating_less(height, 6);
            let (added, deleted) = diff.totals();
            let files = diff.file_list();
            let mut title = "  ".to_owned();
            title.append(count(files.len()).as_str());
            title.append(" staged");
            let mut plus = "   +".to_owned();
            plus.append(text::number(added as u128).as_str());
            let mut minus = " -".to_owned();
            minus.append(text::number(deleted as u128).as_str());
            push_row(
                &mut lines,
                line(title, Ink::Bold).with(plus, Ink::Added).with(minus, Ink::Removed),
            );
            push_row(&mut lines, line("".to_owned(), Ink::Plain));
            let mut tree = tree(files, width, budget);
            let ghost upper = screen::rows(lines@);
            let ghost middle = screen::rows(tree@);
            let ghost before = lines@;
            let ghost rest = tree@;
            lines.append(&mut tree);
            assert(screen::rows(lines@) =~= upper + middle);
            push_row(&mut lines, line("".to_owned(), Ink::Plain));
            push_row(
                &mut lines,
                line("  y  write the message   q  cancel".to_owned(), Ink::Accent),
            );
        },
        None => {
            push_row(&mut lines, line("  nothing staged".to_owned(), Ink::Bold));
            push_row(&mut lines, line("".to_owned(), Ink::Plain));
            push_row(
                &mut lines,
                line(
                    "  stage what belongs in this commit with `git add -p`".to_owned(),
                    Ink::Dim,
                ),
            );
            push_row(&mut lines, line("".to_owned(), Ink::Plain));
            push_row(&mut lines, line("  q  cancel".to_owned(), Ink::Accent));
        },
    }
    push_row(&mut lines, line("  watching the staging area for changes".to_owned(), Ink::Dim));
    assert(screen::rows(lines@) =~= frame_rows(
        staged_files(staged),
        width as nat,
        height as nat,
    ));
    lines
}

/// What is staged, as far as it was read, and by what it is noticed that it moved.
pub struct Watch {
    pub staged: Option<Diff>,
    pub fingerprint: String,
}

/// What a key does while the screen waits.
pub enum Verdict {
    /// The message is to be written from this.
    Go(Diff),
    /// Nothing is to be done.
    Abort,
    /// The screen goes on waiting.
    Wait,
}

/// Whether a key says go.
pub open spec fn says_go(press: Press) -> bool {
    !(press.control && press.key == Key::Char('c')) && (press.key == Key::Char('y') || press.key
        == Key::Enter)
}

/// Whether a key says stop.
pub open spec fn says_stop(press: Press) -> bool {
    (press.control && press.key == Key::Char('c')) || press.key == Key::Esc || press.key
        == Key::Char('q')
}

impl Watch {
    /// Takes in a key, if one was pressed. Nothing staged has nothing to write
    /// about, so the key that starts the run does nothing until something is.
    pub fn key(&mut self, press: Option<Press>) -> (r: Verdict)
        ensures
            match press {
                Some(press) => if says_stop(press) {
                    r is Abort && *final(self) == *old(self)
                } else if says_go(press) && old(self).staged is Some {
                    &&& r == Verdict::Go(old(self).staged->0)
                    &&& final(self).staged is None
                    &&& final(self).fingerprint == old(self).fingerprint
                } else {
                    r is Wait && *final(self) == *old(self)
                },
                None => r is Wait && *final(self) == *old(self),
            },
    {
        if let Some(press) = press {
            if press.control && press.key == Key::Char('c') {
                return Verdict::Abort;
            }
            if press.key == Key::Esc || press.key == Key::Char('q') {
                return Verdict::Abort;
            }
            if press.key == Key::Char('y') || press.key == Key::Enter {
                if let Some(diff) = self.staged.take() {
                    return Verdict::Go(diff);
                }
            }
        }
        Verdict::Wait
    }

    /// Takes in a new fingerprint of the staging area, and says whether it has to
    /// be read again.
    pub fn look(&mut self, fingerprint: String) -> (r: bool)
        ensures
            r == (fingerprint@ != old(self).fingerprint@),
            final(self).fingerprint@ == fingerprint@,
            final(self).staged == old(self).staged,
    {
        if text::same(fingerprint.as_str(), self.fingerprint.as_str()) {
            return false;
        }
        self.fingerprint = fingerprint;
        true
    }

    /// Takes in the staging area as it was read again. Nothing staged is no error
    /// here; any other is handed back.
    pub fn reread(&mut self, read: Result<Diff, GitError>) -> (r: Option<GitError>)
        ensures
            final(self).fingerprint == old(self).fingerprint,
            match read {
                Ok(diff) => r is None && final(self).staged == Some(diff),
                Err(GitError::NothingStaged) => r is None && final(self).staged is None,
                Err(error) => r == Some(error) && final(self).staged == old(self).staged,
            },
    {
        match read {
            Ok(diff) => {
                self.staged = Some(diff);
                None
            },
            Err(GitError::NothingStaged) => {
                self.staged = None;
                None
            },
            Err(error) => Some(error),
        }
    }
}

// ---------------------------------------------------------------------------
// Laws
// ---------------------------------------------------------------------------

/// How many files directories hold.
pub open spec fn files_below(directories: Seq<(Seq<char>, Tree)>) -> nat
    decreases directories,
{
    if directories.len() == 0 {
        0
    } else {
        files_below(directories.drop_first()) + files_in(directories[0].1)
    }
}

/// How many files a directory holds, with those below it.
pub open spec fn files_in(tree: Tree) -> nat
    decreases tree,
{
    files_below(tree.directories) + tree.files.len()
}

/// The names in directories are in order, at every level.
pub open spec fn below_sorted(directories: Seq<(Seq<char>, Tree)>) -> bool
    decreases directories,
{
    directories.len() > 0 ==> below_sorted(directories.drop_first()) && tree_sorted(
        directories[0].1,
    )
}

/// The names in a directory are in order, at every level.
pub open spec fn tree_sorted(tree: Tree) -> bool
    decreases tree,
{
    ordered::sorted(tree.directories) && ordered::sorted(tree.files) && below_sorted(
        tree.directories,
    )
}

/// The file at a path.
pub open spec fn found(tree: Tree, parts: Seq<Seq<char>>) -> Option<nat>
    decreases parts.len(),
{
    if parts.len() <= 1 {
        ordered::get(tree.files, parts[0])
    } else {
        found(subtree(tree, parts[0]), parts.drop_first())
    }
}

/// No path occurs twice.
pub open spec fn distinct(paths: Seq<Seq<char>>) -> bool {
    forall|i: int, j: int|
        0 <= i < j < paths.len() ==> #[trigger] paths[i] != #[trigger] paths[j]
}

proof fn lemma_file_count_add(a: Seq<RowView>, b: Seq<RowView>)
    ensures
        file_count(a + b) == file_count(a) + file_count(b),
    decreases b.len(),
{
    if b.len() == 0 {
        assert(a + b =~= a);
    } else {
        lemma_file_count_add(a, b.drop_last());
        assert((a + b).drop_last() =~= a + b.drop_last());
    }
}

proof fn lemma_files_below_push(directories: Seq<(Seq<char>, Tree)>, more: (Seq<char>, Tree))
    ensures
        files_below(directories.push(more)) == files_below(directories) + files_in(more.1),
    decreases directories.len(),
{
    let all = directories.push(more);
    if directories.len() == 0 {
        assert(all.drop_first() =~= Seq::empty());
        assert(files_below(all.drop_first()) == 0);
    } else {
        lemma_files_below_push(directories.drop_first(), more);
        assert(all.drop_first() =~= directories.drop_first().push(more));
    }
}

proof fn lemma_files_rows_count(files: Seq<(Seq<char>, nat)>, prefix: Seq<char>, n: int)
    requires
        0 <= n <= files.len(),
    ensures
        file_count(files_rows(files, prefix).take(n)) == n,
    decreases n,
{
    let rows = files_rows(files, prefix);
    if n > 0 {
        lemma_files_rows_count(files, prefix, n - 1);
        assert(rows.take(n).drop_last() =~= rows.take(n - 1));
    }
}

/// A directory has as many rows of files as it holds files.
proof fn lemma_directory_count(name: Seq<char>, tree: Tree, prefix: Seq<char>, last: bool)
    ensures
        file_count(directory_rows(name, tree, prefix, last)) == files_in(tree),
    decreases tree, 1int,
{
    if is_passage(tree) {
        let below = tree.directories[0];
        lemma_directory_count(name + "/"@ + below.0, below.1, prefix, last);
        assert(files_below(tree.directories.drop_first()) == 0);
    } else {
        let head = seq![
            RowView { label: prefix + branch_text(last) + name + "/"@, change: None },
        ];
        let rest = tree_rows(tree, prefix + carry_text(last));
        lemma_tree_count(tree, prefix + carry_text(last));
        lemma_file_count_add(head, rest);
        assert(head.drop_last() =~= Seq::empty());
        assert(file_count(head.drop_last()) == 0);
    }
}

proof fn lemma_directories_count(
    directories: Seq<(Seq<char>, Tree)>,
    total: nat,
    prefix: Seq<char>,
    n: nat,
)
    requires
        n <= directories.len(),
    ensures
        file_count(directories_rows(directories, total, prefix, n)) == files_below(
            directories.take(n as int),
        ),
    decreases directories, n,
{
    if n == 0 {
        assert(directories.take(0) =~= Seq::empty());
    } else {
        let k = n - 1;
        lemma_directories_count(directories, total, prefix, k as nat);
        lemma_directory_count(directories[k].0, directories[k].1, prefix, n == total);
        lemma_file_count_add(
            directories_rows(directories, total, prefix, k as nat),
            directory_rows(directories[k].0, directories[k].1, prefix, n == total),
        );
        lemma_files_below_push(directories.take(k), directories[k]);
        assert(directories.take(n as int) =~= directories.take(k).push(directories[k]));
    }
}

/// A tree has as many rows of files as it holds files.
proof fn lemma_tree_count(tree: Tree, prefix: Seq<char>)
    ensures
        file_count(tree_rows(tree, prefix)) == files_in(tree),
    decreases tree, 0int,
{
    let n = tree.directories.len();
    let total = n + tree.files.len();
    lemma_directories_count(tree.directories, total, prefix, n);
    assert(tree.directories.take(n as int) =~= tree.directories);
    lemma_files_rows_count(tree.files, prefix, tree.files.len() as int);
    let rows = files_rows(tree.files, prefix);
    assert(rows.take(rows.len() as int) =~= rows);
    lemma_file_count_add(directories_rows(tree.directories, total, prefix, n), rows);
}

proof fn lemma_rest_sorted<V>(entries: Seq<(Seq<char>, V)>)
    requires
        ordered::sorted(entries),
        entries.len() > 0,
    ensures
        ordered::sorted(entries.drop_first()),
{
    let rest = entries.drop_first();
    assert forall|i: int, j: int| 0 <= i < j < rest.len() implies text::text_lt(
        #[trigger] rest[i].0,
        #[trigger] rest[j].0,
    ) by {
        assert(text::text_lt(entries[i + 1].0, entries[j + 1].0));
    }
}

/// A name that comes before the first is not there.
proof fn lemma_before_first<V>(entries: Seq<(Seq<char>, V)>, key: Seq<char>)
    requires
        ordered::sorted(entries),
        entries.len() > 0,
        text::text_lt(key, entries[0].0),
    ensures
        ordered::get(entries, key) is None,
{
    assert forall|i: int| 0 <= i < entries.len() implies #[trigger] entries[i].0 != key by {
        if i > 0 {
            assert(text::text_lt(entries[0].0, entries[i].0));
            text::lemma_text_lt_transitive(key, entries[0].0, entries[i].0);
        }
        text::lemma_text_lt_irreflexive(key);
    }
    ordered::lemma_absent(entries, key);
}

/// Putting a file in adds one, unless it takes the place of one.
proof fn lemma_put_len<V>(entries: Seq<(Seq<char>, V)>, key: Seq<char>, value: V)
    requires
        ordered::sorted(entries),
    ensures
        ordered::put(entries, key, value).len() == entries.len() + if ordered::get(
            entries,
            key,
        ) is Some {
            0int
        } else {
            1
        },
    decreases entries.len(),
{
    if entries.len() > 0 {
        lemma_rest_sorted(entries);
        if text::text_lt(key, entries[0].0) {
            lemma_before_first(entries, key);
        } else {
            lemma_put_len(entries.drop_first(), key, value);
        }
    }
}

/// What putting a directory in does to the files below.
proof fn lemma_put_files(
    directories: Seq<(Seq<char>, Tree)>,
    name: Seq<char>,
    tree: Tree,
)
    requires
        ordered::sorted(directories),
        below_sorted(directories),
        tree_sorted(tree),
    ensures
        files_below(ordered::put(directories, name, tree)) + match ordered::get(
            directories,
            name,
        ) {
            Some(was) => files_in(was),
            None => 0,
        } == files_below(directories) + files_in(tree),
        below_sorted(ordered::put(directories, name, tree)),
    decreases directories.len(),
{
    let after = ordered::put(directories, name, tree);
    if directories.len() == 0 {
        assert(after.drop_first() =~= Seq::empty());
        assert(files_below(after.drop_first()) == 0);
        assert(below_sorted(after.drop_first()));
    } else {
        let rest = directories.drop_first();
        lemma_rest_sorted(directories);
        if text::text_lt(name, directories[0].0) {
            lemma_before_first(directories, name);
            assert(after.drop_first() =~= directories);
        } else if directories[0].0 == name {
            assert(after.drop_first() =~= rest);
        } else {
            lemma_put_files(rest, name, tree);
            assert(after.drop_first() =~= ordered::put(rest, name, tree));
        }
    }
}

/// A directory that is there is in order.
proof fn lemma_subtree_sorted(directories: Seq<(Seq<char>, Tree)>, name: Seq<char>)
    requires
        below_sorted(directories),
    ensures
        ordered::get(directories, name) matches Some(below) ==> tree_sorted(below),
    decreases directories.len(),
{
    if directories.len() > 0 {
        lemma_subtree_sorted(directories.drop_first(), name);
    }
}

proof fn lemma_empty_tree()
    ensures
        tree_sorted(empty_tree()),
        files_in(empty_tree()) == 0,
{
    assert(files_below(empty_tree().directories) == 0);
}

/// Placing a file keeps the order and adds one file, unless one was there.
proof fn lemma_placed(tree: Tree, parts: Seq<Seq<char>>, index: nat)
    requires
        tree_sorted(tree),
        parts.len() > 0,
    ensures
        tree_sorted(placed(tree, parts, index)),
        files_in(placed(tree, parts, index)) == files_in(tree) + if found(tree, parts) is Some {
            0int
        } else {
            1
        },
    decreases parts.len(),
{
    if parts.len() == 1 {
        lemma_put_len(tree.files, parts[0], index);
        ordered::lemma_put(tree.files, parts[0], index);
    } else {
        let sub = subtree(tree, parts[0]);
        lemma_empty_tree();
        lemma_subtree_sorted(tree.directories, parts[0]);
        lemma_placed(sub, parts.drop_first(), index);
        let below = placed(sub, parts.drop_first(), index);
        lemma_put_files(tree.directories, parts[0], below);
        ordered::lemma_put(tree.directories, parts[0], below);
    }
}

/// What is found after a file is placed: that file, at its path, and everything
/// else as it was.
proof fn lemma_found(tree: Tree, parts: Seq<Seq<char>>, index: nat, other: Seq<Seq<char>>)
    requires
        tree_sorted(tree),
        parts.len() > 0,
        other.len() > 0,
    ensures
        found(placed(tree, parts, index), other) == if other == parts {
            Some(index)
        } else {
            found(tree, other)
        },
    decreases parts.len(),
{
    let after = placed(tree, parts, index);
    if parts.len() == 1 {
        ordered::lemma_put(tree.files, parts[0], index);
        if other.len() == 1 && other[0] == parts[0] {
            assert(other =~= parts);
        }
    } else {
        let sub = subtree(tree, parts[0]);
        let below = placed(sub, parts.drop_first(), index);
        lemma_empty_tree();
        lemma_subtree_sorted(tree.directories, parts[0]);
        ordered::lemma_put(tree.directories, parts[0], below);
        if other.len() > 1 {
            if other[0] == parts[0] {
                lemma_found(sub, parts.drop_first(), index, other.drop_first());
                if other.drop_first() == parts.drop_first() {
                    assert(other =~= seq![other[0]] + other.drop_first());
                    assert(parts =~= seq![parts[0]] + parts.drop_first());
                }
            } else {
                assert(subtree(after, other[0]) == subtree(tree, other[0]));
            }
        }
    }
}

/// Two texts with the same parts are the same.
proof fn lemma_split_tells_apart(a: Seq<char>, b: Seq<char>, c: char)
    requires
        text::split(a, c) == text::split(b, c),
    ensures
        a == b,
    decreases a.len(),
{
    let n = text::find(a, c) as int;
    let m = text::find(b, c) as int;
    text::lemma_find(a, c);
    text::lemma_find(b, c);
    lemma_split_parts(a, c);
    lemma_split_parts(b, c);
    let pa = text::split(a, c);
    let pb = text::split(b, c);
    if n >= a.len() {
        assert(pa.len() == 1);
        if m < b.len() {
            lemma_split_parts(b.skip(m + 1), c);
        }
        assert(pa[0] == a);
        assert(pb[0] == b);
    } else {
        lemma_split_parts(a.skip(n + 1), c);
        if m >= b.len() {
            assert(pb.len() == 1);
        }
        assert(pa[0] == a.take(n));
        assert(pb[0] == b.take(m));
        assert(a.take(n).len() == b.take(m).len());
        assert(pa.drop_first() =~= text::split(a.skip(n + 1), c));
        assert(pb.drop_first() =~= text::split(b.skip(m + 1), c));
        lemma_split_tells_apart(a.skip(n + 1), b.skip(m + 1), c);
        assert forall|i: int| 0 <= i < a.len() && i < b.len() implies a[i] == b[i] by {
            if i < n {
                assert(a.take(n)[i] == b.take(m)[i]);
            } else if i > n {
                assert(a.skip(n + 1)[i - n - 1] == b.skip(n + 1)[i - n - 1]);
            }
        }
        assert(a.skip(n + 1).len() == b.skip(n + 1).len());
        assert(a =~= b);
    }
}

/// The tree of paths that differ holds every file, at its path.
proof fn lemma_built(paths: Seq<Seq<char>>, n: nat)
    requires
        n <= paths.len(),
        distinct(paths),
    ensures
        tree_sorted(built(paths, n)),
        files_in(built(paths, n)) == n,
        forall|i: int|
            0 <= i < n ==> found(built(paths, n), text::split(#[trigger] paths[i], '/')) == Some(
                i as nat,
            ),
        forall|i: int|
            n <= i < paths.len() ==> found(
                built(paths, n),
                text::split(#[trigger] paths[i], '/'),
            ) is None,
    decreases n,
{
    if n == 0 {
        lemma_empty_tree();
        assert forall|i: int| 0 <= i < paths.len() implies found(
            built(paths, 0),
            text::split(#[trigger] paths[i], '/'),
        ) is None by {
            lemma_split_parts(paths[i], '/');
            lemma_nothing_found(text::split(paths[i], '/'));
        }
    } else {
        let k = n - 1;
        let before = built(paths, k as nat);
        lemma_built(paths, k as nat);
        let parts = text::split(paths[k], '/');
        lemma_split_parts(paths[k], '/');
        lemma_placed(before, parts, k as nat);
        assert forall|i: int| 0 <= i < paths.len() implies found(
            built(paths, n),
            text::split(#[trigger] paths[i], '/'),
        ) == (if i == k {
            Some(k as nat)
        } else {
            found(before, text::split(paths[i], '/'))
        }) by {
            let other = text::split(paths[i], '/');
            lemma_split_parts(paths[i], '/');
            lemma_found(before, parts, k as nat, other);
            if other == parts {
                lemma_split_tells_apart(paths[i], paths[k], '/');
            }
        }
    }
}

proof fn lemma_nothing_found(parts: Seq<Seq<char>>)
    requires
        parts.len() > 0,
    ensures
        found(empty_tree(), parts) is None,
    decreases parts.len(),
{
    if parts.len() > 1 {
        lemma_nothing_found(parts.drop_first());
    }
}

/// Whether a row is that of a file, and ends with its name.
pub open spec fn is_row_of(row: RowView, index: nat, name: Seq<char>) -> bool {
    &&& row.change == Some(index)
    &&& row.label.len() >= name.len()
    &&& row.label.skip(row.label.len() - name.len()) == name
}

/// Whether there is a row for a file.
pub open spec fn has_row(rows: Seq<RowView>, index: nat, name: Seq<char>) -> bool {
    exists|r: int| 0 <= r < rows.len() && is_row_of(#[trigger] rows[r], index, name)
}

proof fn lemma_has_row_add(a: Seq<RowView>, b: Seq<RowView>, index: nat, name: Seq<char>)
    requires
        has_row(a, index, name) || has_row(b, index, name),
    ensures
        has_row(a + b, index, name),
{
    if has_row(a, index, name) {
        let r = choose|r: int| 0 <= r < a.len() && is_row_of(#[trigger] a[r], index, name);
        assert((a + b)[r] == a[r]);
    } else {
        let r = choose|r: int| 0 <= r < b.len() && is_row_of(#[trigger] b[r], index, name);
        assert((a + b)[a.len() + r] == b[r]);
    }
}

proof fn lemma_directory_has_row(
    name: Seq<char>,
    tree: Tree,
    prefix: Seq<char>,
    last: bool,
    parts: Seq<Seq<char>>,
    index: nat,
)
    requires
        parts.len() > 0,
        found(tree, parts) == Some(index),
    ensures
        has_row(directory_rows(name, tree, prefix, last), index, parts.last()),
    decreases parts.len(), 1int,
{
    if is_passage(tree) {
        let below = tree.directories[0];
        if parts.len() > 1 {
            assert(tree.directories.drop_first() =~= Seq::empty());
            if below.0 != parts[0] {
                assert(ordered::get(tree.directories.drop_first(), parts[0]) is None);
                lemma_nothing_found(parts.drop_first());
            }
            lemma_directory_has_row(
                name + "/"@ + below.0,
                below.1,
                prefix,
                last,
                parts.drop_first(),
                index,
            );
        }
    } else {
        lemma_tree_has_row(tree, prefix + carry_text(last), parts, index);
        lemma_has_row_add(
            seq![RowView { label: prefix + branch_text(last) + name + "/"@, change: None }],
            tree_rows(tree, prefix + carry_text(last)),
            index,
            parts.last(),
        );
    }
}

proof fn lemma_directories_have_row(
    directories: Seq<(Seq<char>, Tree)>,
    total: nat,
    prefix: Seq<char>,
    n: nat,
    k: int,
    index: nat,
    name: Seq<char>,
)
    requires
        0 <= k < n <= directories.len(),
        has_row(
            directory_rows(directories[k].0, directories[k].1, prefix, k + 1 == total),
            index,
            name,
        ),
    ensures
        has_row(directories_rows(directories, total, prefix, n), index, name),
    decreases n,
{
    if k < n - 1 {
        lemma_directories_have_row(directories, total, prefix, (n - 1) as nat, k, index, name);
    }
    lemma_has_row_add(
        directories_rows(directories, total, prefix, (n - 1) as nat),
        directory_rows(directories[n - 1].0, directories[n - 1].1, prefix, n == total),
        index,
        name,
    );
}

proof fn lemma_tree_has_row(tree: Tree, prefix: Seq<char>, parts: Seq<Seq<char>>, index: nat)
    requires
        parts.len() > 0,
        found(tree, parts) == Some(index),
    ensures
        has_row(tree_rows(tree, prefix), index, parts.last()),
    decreases parts.len(), 0int,
{
    let n = tree.directories.len();
    let total = n + tree.files.len();
    if parts.len() == 1 {
        ordered::lemma_present(tree.files, parts[0]);
        let at = choose|at: int|
            0 <= at < tree.files.len() && #[trigger] tree.files[at] == (parts[0], index);
        let row = files_rows(tree.files, prefix)[at];
        assert(row.label.skip(row.label.len() - parts[0].len()) =~= parts[0]);
        assert(is_row_of(row, index, parts.last()));
    } else {
        ordered::lemma_present(tree.directories, parts[0]);
        if ordered::get(tree.directories, parts[0]) is None {
            lemma_nothing_found(parts.drop_first());
        }
        let below = ordered::get(tree.directories, parts[0])->0;
        let k = choose|k: int|
            0 <= k < n && #[trigger] tree.directories[k] == (parts[0], below);
        lemma_directory_has_row(
            parts[0],
            below,
            prefix,
            k + 1 == total,
            parts.drop_first(),
            index,
        );
        lemma_directories_have_row(
            tree.directories,
            total,
            prefix,
            n,
            k,
            index,
            parts.last(),
        );
    }
    lemma_has_row_add(
        directories_rows(tree.directories, total, prefix, n),
        files_rows(tree.files, prefix),
        index,
        parts.last(),
    );
}

/// Every changed file has a row in the whole tree, which ends with the name of the
/// file, and no row of a file is there besides.
pub proof fn law_every_file_has_a_row(files: Seq<ChangeView>, i: int)
    requires
        distinct(git::all_paths(files)),
        0 <= i < files.len(),
    ensures
        has_row(all_rows(files), i as nat, text::split(files[i].path, '/').last()),
        file_count(all_rows(files)) == files.len(),
{
    let paths = git::all_paths(files);
    lemma_built(paths, files.len());
    lemma_split_parts(paths[i], '/');
    assert(found(built(paths, files.len()), text::split(paths[i], '/')) == Some(i as nat));
    lemma_tree_has_row(
        built(paths, files.len()),
        Seq::empty(),
        text::split(paths[i], '/'),
        i as nat,
    );
    lemma_tree_count(built(paths, files.len()), Seq::empty());
}

/// The tree never takes more rows than it was given, whatever the changes are.
pub proof fn law_tree_fits(files: Seq<ChangeView>, width: nat, budget: nat)
    ensures
        tree_lines(files, width, budget).len() <= budget,
{
}

/// Whether a directory holds something, and every directory below it does.
pub open spec fn node_full(tree: Tree) -> bool
    decreases tree,
{
    tree.directories.len() + tree.files.len() > 0 && all_full(tree.directories)
}

/// Whether every one of some directories holds something, and so on below them.
pub open spec fn all_full(directories: Seq<(Seq<char>, Tree)>) -> bool
    decreases directories,
{
    directories.len() > 0 ==> all_full(directories.drop_last()) && node_full(directories.last().1)
}

proof fn lemma_all_full(directories: Seq<(Seq<char>, Tree)>)
    ensures
        all_full(directories) <==> forall|i: int|
            0 <= i < directories.len() ==> node_full(#[trigger] directories[i].1),
    decreases directories.len(),
{
    if directories.len() > 0 {
        let rest = directories.drop_last();
        lemma_all_full(rest);
        if all_full(directories) {
            assert forall|i: int| 0 <= i < directories.len() implies node_full(
                #[trigger] directories[i].1,
            ) by {
                if i < rest.len() {
                    assert(rest[i].1 == directories[i].1);
                }
            }
        }
        if forall|i: int| 0 <= i < directories.len() ==> node_full(#[trigger] directories[i].1) {
            assert forall|i: int| 0 <= i < rest.len() implies node_full(#[trigger] rest[i].1) by {
                assert(rest[i].1 == directories[i].1);
            }
            assert(node_full(directories[directories.len() - 1].1));
        }
    }
}

proof fn lemma_put_some<V>(entries: Seq<(Seq<char>, V)>, key: Seq<char>, value: V)
    ensures
        ordered::put(entries, key, value).len() > 0,
{
}

proof fn lemma_placed_full(tree: Tree, parts: Seq<Seq<char>>, index: nat)
    requires
        all_full(tree.directories),
    ensures
        node_full(placed(tree, parts, index)),
    decreases parts.len(),
{
    if parts.len() <= 1 {
        lemma_put_some(tree.files, parts[0], index);
    } else {
        let below = subtree(tree, parts[0]);
        lemma_all_full(tree.directories);
        ordered::lemma_present(tree.directories, parts[0]);
        if let Some(found) = ordered::get(tree.directories, parts[0]) {
            let i = choose|i: int|
                0 <= i < tree.directories.len() && #[trigger] tree.directories[i] == (
                    parts[0],
                    found,
                );
            assert(node_full(tree.directories[i].1));
        } else {
            assert(all_full(Seq::<(Seq<char>, Tree)>::empty()));
        }
        lemma_placed_full(below, parts.drop_first(), index);
        let child = placed(below, parts.drop_first(), index);
        let after = ordered::put(tree.directories, parts[0], child);
        ordered::lemma_put_entries(tree.directories, parts[0], child);
        lemma_put_some(tree.directories, parts[0], child);
        assert forall|i: int| 0 <= i < after.len() implies node_full(#[trigger] after[i].1) by {
            if after[i] != (parts[0], child) {
                let j = choose|j: int|
                    0 <= j < tree.directories.len() && tree.directories[j] == after[i];
                assert(node_full(tree.directories[j].1));
            }
        }
        lemma_all_full(after);
    }
}

proof fn lemma_built_full(paths: Seq<Seq<char>>, n: nat)
    ensures
        all_full(built(paths, n).directories),
        n > 0 ==> node_full(built(paths, n)),
    decreases n,
{
    if n > 0 {
        lemma_built_full(paths, (n - 1) as nat);
        lemma_placed_full(
            built(paths, (n - 1) as nat),
            text::split(paths[n - 1], '/'),
            (n - 1) as nat,
        );
    }
}

/// Whether there are rows, and the last of them is a file.
pub open spec fn ends_with_file(rows: Seq<RowView>) -> bool {
    rows.len() > 0 && rows.last().change is Some
}

proof fn lemma_directory_ends(name: Seq<char>, tree: Tree, prefix: Seq<char>, last: bool)
    requires
        node_full(tree),
    ensures
        ends_with_file(directory_rows(name, tree, prefix, last)),
    decreases tree, 1int,
{
    if is_passage(tree) {
        lemma_all_full(tree.directories);
        let below = tree.directories[0];
        assert(node_full(tree.directories[0].1));
        lemma_directory_ends(name + "/"@ + below.0, below.1, prefix, last);
    } else {
        lemma_tree_ends(tree, prefix + carry_text(last));
    }
}

proof fn lemma_tree_ends(tree: Tree, prefix: Seq<char>)
    requires
        node_full(tree),
    ensures
        ends_with_file(tree_rows(tree, prefix)),
    decreases tree, 0int,
{
    let n = tree.directories.len();
    if tree.files.len() == 0 {
        lemma_all_full(tree.directories);
        let k = n - 1;
        assert(node_full(tree.directories[k].1));
        lemma_directory_ends(tree.directories[k].0, tree.directories[k].1, prefix, true);
        assert(tree_rows(tree, prefix) =~= directories_rows(tree.directories, n, prefix, n));
    } else {
        let rows = files_rows(tree.files, prefix);
        assert(tree_rows(tree, prefix).last() == rows.last());
    }
}

proof fn lemma_fewer_files(rows: Seq<RowView>, n: int)
    requires
        ends_with_file(rows),
        0 <= n < rows.len(),
    ensures
        file_count(rows.take(n)) < file_count(rows),
{
    let head = rows.take(n);
    let rest = rows.skip(n);
    assert(head + rest =~= rows);
    lemma_file_count_add(head, rest);
    assert(rest.last() == rows.last());
}

/// Every row that was given is used: of paths that differ, the tree shows all rows
/// where they fit, and fills the rows where they do not, and then there is a file
/// that it does not show.
pub proof fn law_tree_fills_its_rows(files: Seq<ChangeView>, width: nat, budget: nat)
    requires
        budget >= 1,
        distinct(git::all_paths(files)),
    ensures
        tree_lines(files, width, budget).len() == if all_rows(files).len() <= budget {
            all_rows(files).len()
        } else {
            budget
        },
        all_rows(files).len() > budget ==> file_count(
            kept_rows(all_rows(files), files.len(), budget),
        ) < files.len(),
{
    let rows = all_rows(files);
    if files.len() == 0 {
        lemma_built(git::all_paths(files), 0);
        assert(rows =~= Seq::empty());
    } else {
        law_every_file_has_a_row(files, 0);
        if rows.len() > budget {
            lemma_built_full(git::all_paths(files), files.len());
            lemma_tree_ends(built(git::all_paths(files), files.len()), Seq::empty());
            lemma_fewer_files(rows, text::less(budget, 1) as int);
        }
    }
}

/// The whole frame stays within the terminal, with a row to spare, so the row
/// count that is used to erase it is right.
pub proof fn law_frame_fits(staged: Option<Seq<ChangeView>>, width: nat, height: nat)
    requires
        height >= 7,
    ensures
        frame_rows(staged, width, height).len() < height,
{
    if let Some(files) = staged {
        law_tree_fits(files, width, text::less(height, 6));
    }
}

/// The row of a file shows its label, the lines added and deleted, each in its column, and
/// what became of its hunks, where that is worth a word; the row of a directory shows its
/// label alone.
pub proof fn law_rows_tell_the_counts(row: RowView, files: Seq<ChangeView>, column: nat)
    ensures
        row.change is None ==> screen::shown(row_line(row, files, column)) == label_text(
            row.label,
            column,
        ),
        (row.change matches Some(index) && index < files.len()) ==> {
            let change = files[row.change->0 as int];
            screen::shown(row_line(row, files, column)) == label_text(row.label, column) + (if (
            change.added is Some && change.deleted is Some) {
                text::pad_start("+"@ + text::decimal(change.added->0 as nat), 6) + " "@
                    + text::pad_end("-"@ + text::decimal(change.deleted->0 as nat), 6)
            } else {
                "       binary"@
            }) + (match change.state {
                FileState::Truncated { .. } => "truncated"@,
                FileState::Withheld { .. } => "withheld"@,
                _ => Seq::empty(),
            })
        },
{
    let label = label_text(row.label, column);
    let none = Seq::<SpanView>::empty();
    screen::lemma_shown_with(none, label, Ink::Dim);
    screen::lemma_shown_with(none, label, Ink::Plain);
    if row.change is Some && row.change->0 < files.len() {
        let change = files[row.change->0 as int];
        let start = screen::row(label, Ink::Plain);
        let note = note_text(change.state);
        reveal_strlit("");
        assert(""@ =~= Seq::<char>::empty());
        if change.added is Some && change.deleted is Some {
            let plus = text::pad_start("+"@ + text::decimal(change.added->0 as nat), 6);
            let minus = " "@ + text::pad_end("-"@ + text::decimal(change.deleted->0 as nat), 6);
            screen::lemma_shown_with(start, plus, Ink::Added);
            let two = start + screen::row(plus, Ink::Added);
            screen::lemma_shown_with(two, minus, Ink::Removed);
            screen::lemma_shown_with(two + screen::row(minus, Ink::Removed), note, Ink::Dim);
            assert(screen::shown(row_line(row, files, column)) =~= label + (plus + " "@
                + text::pad_end("-"@ + text::decimal(change.deleted->0 as nat), 6)) + note);
        } else {
            let binary = text::pad_start("binary"@, 13);
            reveal_strlit("binary");
            reveal_strlit("       binary");
            assert(binary =~= "       binary"@);
            screen::lemma_shown_with(start, binary, Ink::Dim);
            screen::lemma_shown_with(start + screen::row(binary, Ink::Dim), note, Ink::Dim);
            assert(screen::shown(row_line(row, files, column)) =~= label + binary + note);
        }
    }
}

/// A label stands behind two spaces, and its column is filled up with spaces, of which two
/// are always there.
pub proof fn law_labels_fill_their_column(label: Seq<char>, column: nat)
    ensures
        text::starts_with(label_text(label, column), "  "@ + label),
        label.len() <= column ==> label_text(label, column).len() == 2 + column + 2,
        label.len() > column ==> label_text(label, column).len() == 2 + label.len() + 2,
        forall|i: int|
            2 + label.len() <= i < label_text(label, column).len() ==> #[trigger] label_text(
                label,
                column,
            )[i] == ' ',
{
    reveal_strlit("  ");
    let all = label_text(label, column);
    assert(all.take(("  "@ + label).len() as int) =~= "  "@ + label);
}

/// Files are counted in words: one file, and any other number of files.
pub proof fn law_files_are_counted_in_words(files: nat)
    ensures
        files == 1 ==> count_text(files) == "1 file"@,
        files != 1 ==> count_text(files) == text::decimal(files) + " files"@,
{
}

/// The rows are counted one by one: those of files count, those of directories do not. The
/// widest label is as wide as any, and is one of them.
pub proof fn law_rows_are_counted(a: Seq<RowView>, b: Seq<RowView>, row: RowView)
    ensures
        file_count(a + b) == file_count(a) + file_count(b),
        file_count(seq![row]) == if row.change is Some {
            1nat
        } else {
            0
        },
        longest(seq![row]) == row.label.len(),
        longest(a + b) >= longest(a) && longest(a + b) >= longest(b),
        longest(a + b) == longest(a) || longest(a + b) == longest(b),
    decreases b.len(),
{
    reveal_with_fuel(file_count, 2);
    reveal_with_fuel(longest, 2);
    assert(seq![row].drop_last() =~= Seq::<RowView>::empty());
    if b.len() == 0 {
        assert(a + b =~= a);
    } else {
        law_rows_are_counted(a, b.drop_last(), row);
        assert((a + b).drop_last() =~= a + b.drop_last());
    }
}

/// The column of the counts stands behind the widest label, unless that would leave less
/// than the counts and the note need.
pub proof fn law_counts_keep_their_room(rows: Seq<RowView>, width: nat)
    ensures
        longest(rows) + 22 <= width ==> count_column(rows, width) == longest(rows),
        longest(rows) + 22 > width && width >= 22 ==> count_column(rows, width) == width - 22,
        width < 22 ==> count_column(rows, width) == 0,
{
}

/// The rows that are shown are the first ones; and where some are left out, the last line
/// says how many files are not shown, so that they and the files shown are all there are.
pub proof fn law_left_out_files_are_counted(
    files: Seq<ChangeView>,
    width: nat,
    budget: nat,
    i: int,
)
    ensures
        ({
            let rows = all_rows(files);
            let kept = kept_rows(rows, files.len(), budget);
            let lines = tree_lines(files, width, budget);
            &&& kept == rows.take(kept.len() as int)
            &&& rows.len() < budget ==> kept == rows
            &&& 0 <= i < kept.len() ==> lines[i] == row_line(
                rows[i],
                files,
                count_column(kept, width),
            )
            &&& file_count(kept) < files.len() && budget > 0 ==> lines.len() == kept.len() + 1
                && lines.last() == screen::row(
                "  and "@ + count_text((files.len() - file_count(kept)) as nat) + " not shown"@,
                Ink::Dim,
            )
            &&& file_count(kept) >= files.len() ==> lines.len() == kept.len()
        }),
{
    let rows = all_rows(files);
    let kept = kept_rows(rows, files.len(), budget);
    assert(rows.take(rows.len() as int) =~= rows);
    assert(kept.len() <= rows.len()) by {
        if rows.len() > budget || (rows.len() == budget && file_count(rows) < files.len()) {
            assert(text::less(budget, 1) <= rows.len());
        }
    }
}

/// What hangs on the last branch hangs on a corner and has nothing below it; what hangs on
/// another hangs on a tee, and the line goes on.
pub proof fn law_branches_are_drawn(last: bool)
    ensures
        last ==> branch_text(last) == "└─ "@ && carry_text(last) == "   "@,
        !last ==> branch_text(last) == "├─ "@ && carry_text(last) == "│  "@,
{
}

/// A directory that holds nothing but one directory shares its row with it; any other has a
/// row of its own, above the rows of what it holds.
pub proof fn law_passages_share_a_row(
    name: Seq<char>,
    tree: Tree,
    prefix: Seq<char>,
    last: bool,
)
    ensures
        tree.files.len() == 0 && tree.directories.len() == 1 ==> directory_rows(
            name,
            tree,
            prefix,
            last,
        ) == directory_rows(
            name + "/"@ + tree.directories[0].0,
            tree.directories[0].1,
            prefix,
            last,
        ),
        !(tree.files.len() == 0 && tree.directories.len() == 1) ==> directory_rows(
            name,
            tree,
            prefix,
            last,
        ) == seq![
            RowView {
                label: prefix + (if last {
                    "└─ "@
                } else {
                    "├─ "@
                }) + name + "/"@,
                change: None,
            },
        ] + tree_rows(
            tree,
            prefix + (if last {
                "   "@
            } else {
                "│  "@
            }),
        ),
{
}

/// The rows of a tree are those of its directories, one after the other, and then those of
/// its files; the last of them all hangs on the corner, and only that one.
pub proof fn law_directories_come_before_files(tree: Tree, prefix: Seq<char>, i: int, n: nat)
    ensures
        ({
            let total = tree.directories.len() + tree.files.len();
            let rows = tree_rows(tree, prefix);
            let upper = directories_rows(tree.directories, total, prefix, tree.directories.len());
            &&& rows.len() == upper.len() + tree.files.len()
            &&& rows.take(upper.len() as int) == upper
            &&& 0 <= i < tree.files.len() ==> rows[upper.len() + i] == (RowView {
                label: prefix + (if i == tree.files.len() - 1 {
                    "└─ "@
                } else {
                    "├─ "@
                }) + tree.files[i].0,
                change: Some(tree.files[i].1),
            })
            &&& n < tree.directories.len() ==> directories_rows(
                tree.directories,
                total,
                prefix,
                n + 1,
            ) == directories_rows(tree.directories, total, prefix, n) + directory_rows(
                tree.directories[n as int].0,
                tree.directories[n as int].1,
                prefix,
                n + 1 == total,
            )
        }),
{
    let total = tree.directories.len() + tree.files.len();
    let rows = tree_rows(tree, prefix);
    let upper = directories_rows(tree.directories, total, prefix, tree.directories.len());
    assert(rows.take(upper.len() as int) =~= upper);
}

/// The screen starts with how much is staged, or that nothing is, and ends with the keys.
pub proof fn law_frame_tells_what_is_staged(
    files: Seq<ChangeView>,
    width: nat,
    height: nat,
)
    ensures
        ({
            let rows = frame_rows(Some(files), width, height);
            &&& rows.len() >= 5
            &&& screen::shown(rows[0]) == "  "@ + count_text(files.len()) + " staged   +"@
                + text::decimal(git::total_added(files)) + " -"@ + text::decimal(
                git::total_deleted(files),
            )
            &&& rows.subrange(2, rows.len() - 3) == tree_lines(
                files,
                width,
                if height >= 6 {
                    (height - 6) as nat
                } else {
                    0
                },
            )
            &&& rows[rows.len() - 2] == screen::row(
                "  y  write the message   q  cancel"@,
                Ink::Accent,
            )
            &&& rows.last() == screen::row("  watching the staging area for changes"@, Ink::Dim)
        }),
        ({
            let rows = frame_rows(None, width, height);
            &&& rows[0] == screen::row("  nothing staged"@, Ink::Bold)
            &&& rows[rows.len() - 2] == screen::row("  q  cancel"@, Ink::Accent)
            &&& rows.last() == screen::row("  watching the staging area for changes"@, Ink::Dim)
        }),
{
    let rows = frame_rows(Some(files), width, height);
    let title = "  "@ + count_text(files.len()) + " staged"@;
    let plus = "   +"@ + text::decimal(git::total_added(files));
    let minus = " -"@ + text::decimal(git::total_deleted(files));
    let one = screen::row(title, Ink::Bold);
    screen::lemma_shown_with(Seq::empty(), title, Ink::Bold);
    screen::lemma_shown_with(one, plus, Ink::Added);
    screen::lemma_shown_with(one + screen::row(plus, Ink::Added), minus, Ink::Removed);
    reveal_strlit(" staged");
    reveal_strlit("   +");
    reveal_strlit(" staged   +");
    assert(" staged   +"@ =~= " staged"@ + "   +"@);
    assert(screen::shown(rows[0]) =~= "  "@ + count_text(files.len()) + " staged   +"@
        + text::decimal(git::total_added(files)) + " -"@ + text::decimal(
        git::total_deleted(files),
    ));
    let tree = tree_lines(files, width, text::less(height, 6));
    assert(rows.subrange(2, rows.len() - 3) =~= tree);
}

/// `y` and enter say go; `q`, escape and the interrupt say stop; no key says both, and no
/// other says either.
pub proof fn law_keys_say_go_or_stop(press: Press)
    ensures
        !(says_go(press) && says_stop(press)),
        !press.control && (press.key == Key::Char('y') || press.key == Key::Enter) ==> says_go(
            press,
        ),
        press.key == Key::Char('q') || press.key == Key::Esc ==> says_stop(press),
        press.control && press.key == Key::Char('c') ==> says_stop(press),
        !press.control && press.key == Key::Char('c') ==> !says_stop(press) && !says_go(press),
        says_go(press) ==> press.key == Key::Char('y') || press.key == Key::Enter,
        says_stop(press) ==> press.key == Key::Char('q') || press.key == Key::Esc || press.key
            == Key::Char('c'),
{
}

/// A file that is put into a tree is found under its path, and no file that is there is
/// lost or moved.
pub proof fn law_placed_files_are_found(
    tree: Tree,
    parts: Seq<Seq<char>>,
    index: nat,
    other: Seq<Seq<char>>,
)
    requires
        tree_sorted(tree),
        parts.len() > 0,
        other.len() > 0,
    ensures
        found(placed(tree, parts, index), parts) == Some(index),
        other != parts ==> found(placed(tree, parts, index), other) == found(tree, other),
        tree_sorted(placed(tree, parts, index)),
        found(tree, parts) is None ==> files_in(placed(tree, parts, index)) == files_in(tree) + 1,
{
    lemma_found(tree, parts, index, parts);
    lemma_found(tree, parts, index, other);
    lemma_placed(tree, parts, index);
}

/// What is said of a list is what each of its entries holds, one for one.
pub proof fn law_lists_say_what_they_hold(list: Seq<Row>, files: Seq<FileChange>, i: int)
    ensures
        row_views(list).len() == list.len(),
        0 <= i < list.len() ==> row_views(list)[i].label == list[i].label@,
        0 <= i < list.len() && list[i].change is None ==> row_views(list)[i].change is None,
        0 <= i < list.len() ==> (list[i].change matches Some(index) ==> row_views(list)[i].change
            == Some(index as nat)),
        change_paths(files).len() == files.len(),
        0 <= i < files.len() ==> change_paths(files)[i] == files[i].path@,
{
}

} // verus!
