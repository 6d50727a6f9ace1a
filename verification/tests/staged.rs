//! The tree of the staged change, and the screen that waits.

use auto_commit::config::Config;
use auto_commit::git::{build_diff, Diff, FileChange, FileState, GitError};
use auto_commit::picker::{Key, Press};
use auto_commit::screen::{Ink, Line};
use auto_commit::staged::{
    build, connectors, count, frame, note, tree, walk, Verdict, Watch,
};

fn changed(paths: &[&str]) -> Vec<FileChange> {
    paths
        .iter()
        .map(|path| FileChange {
            path: (*path).to_owned(),
            added: Some(1),
            deleted: Some(0),
            state: FileState::Included,
        })
        .collect()
}

fn labels(files: &Vec<FileChange>) -> Vec<String> {
    let mut rows = Vec::new();
    walk(&build(files), "", &mut rows);

    rows.into_iter().map(|row| row.label).collect()
}

fn shown(line: &Line) -> String {
    line.0.iter().map(|span| span.text.as_str()).collect()
}

fn staged() -> Diff {
    build_diff(&Config::default(), "1\t2\ta\n-\t-\tb.png", "").unwrap()
}

fn pressed(key: Key) -> Option<Press> {
    Some(Press { key, control: false })
}

#[test]
fn files_sit_under_the_directory_that_holds_them() {
    assert_eq!(
        labels(&changed(&["src/git.rs", "src/main.rs", "README.md"])),
        vec![
            "├─ src/".to_owned(),
            "│  ├─ git.rs".to_owned(),
            "│  └─ main.rs".to_owned(),
            "└─ README.md".to_owned(),
        ]
    );
}

#[test]
fn a_directory_holding_only_a_directory_is_written_as_one_path() {
    assert_eq!(
        labels(&changed(&["nix/modules/home.nix"])),
        vec!["└─ nix/modules/".to_owned(), "   └─ home.nix".to_owned()]
    );
}

/// A frame taller than the terminal scrolls, and the row count used to
/// erase it is then wrong, so this bound is what keeps the screen still.
#[test]
fn the_tree_never_takes_more_rows_than_it_was_given() {
    let files = changed(&["a.rs", "src/b.rs", "src/c.rs", "src/deep/d.rs"]);

    for budget in 1..8 {
        assert!(tree(&files, 80, budget).len() <= budget, "budget {budget}");
    }
}

#[test]
fn every_file_has_a_row_that_knows_its_place() {
    let files = changed(&["b/x", "a", "b/c/d/y", "b"]);
    let mut rows = Vec::new();
    walk(&build(&files), "", &mut rows);
    let mut places: Vec<usize> = rows.iter().filter_map(|row| row.change).collect();
    places.sort();
    assert_eq!(places, vec![0, 1, 2, 3]);
    assert_eq!(
        labels(&changed(&["b/x", "a", "b/c/d/y", "b"])),
        vec![
            "├─ b/".to_owned(),
            "│  ├─ c/d/".to_owned(),
            "│  │  └─ y".to_owned(),
            "│  └─ x".to_owned(),
            "├─ a".to_owned(),
            "└─ b".to_owned(),
        ]
    );
    assert!(labels(&changed(&[])).is_empty());
    assert_eq!(connectors(true), ("└─ ", "   "));
    assert_eq!(connectors(false), ("├─ ", "│  "));
}

#[test]
fn one_path_that_is_named_twice_has_one_row() {
    assert_eq!(labels(&changed(&["a", "a"])), vec!["└─ a".to_owned()]);
    let lines = tree(&changed(&["a", "a"]), 80, 2);
    assert_eq!(lines.len(), 2);
    assert_eq!(shown(&lines[1]), "  and 1 file not shown");
    let lines = tree(&changed(&["a", "a"]), 80, 1);
    assert_eq!(lines.len(), 1);
    assert_eq!(shown(&lines[0]), "  and 2 files not shown");
    for budget in 0..8 {
        let files = changed(&["b/a", "b/a", "c", "b/d", "c"]);
        assert!(tree(&files, 80, budget).len() <= budget, "budget {budget}");
    }
}

#[test]
fn counts_line_up_in_a_column() {
    let mut files = changed(&["src/long_name.rs", "a"]);
    files[0].deleted = Some(12);
    files[1].added = None;
    files[1].state = FileState::Withheld { bytes: 3 };
    let lines = tree(&files, 80, 10);
    assert_eq!(shown(&lines[0]), format!("  {:<18}  ", "├─ src/"));
    assert_eq!(shown(&lines[1]), "  │  └─ long_name.rs      +1 -12   ");
    assert_eq!(shown(&lines[2]), format!("  {:<18}  {:>13}withheld", "└─ a", "binary"));
    assert_eq!(lines[0].0[0].ink, Ink::Dim);
    assert_eq!(lines[1].0[1].ink, Ink::Added);
    assert_eq!(lines[1].0[2].ink, Ink::Removed);
    let narrow = tree(&files, 30, 10);
    assert_eq!(shown(&narrow[2]), format!("  {:<8}  {:>13}withheld", "└─ a", "binary"));
}

#[test]
fn what_is_not_shown_is_said() {
    let files = changed(&["a", "b", "c", "d"]);
    let lines = tree(&files, 80, 3);
    assert_eq!(lines.len(), 3);
    assert_eq!(shown(&lines[2]), "  and 2 files not shown");
    assert_eq!(tree(&files, 80, 4).len(), 4);
    assert_eq!(count(1), "1 file");
    assert_eq!(count(0), "0 files");
    assert_eq!(note(&FileState::Truncated { kept: 1, total: 2 }), "truncated");
    assert_eq!(note(&FileState::Included), "");
}

#[test]
fn the_frame_fits_the_terminal() {
    let paths: Vec<String> = (0..40).map(|index| format!("dir{index}/file")).collect();
    let numstat: String = paths.iter().map(|path| format!("1\t0\t{path}\n")).collect();
    let plan = build_diff(&Config::default(), &numstat, "").unwrap();
    for height in 7..60 {
        assert!(frame(Some(&plan), 80, height).len() < height, "height {height}");
        assert!(frame(None, 80, height).len() < height, "height {height}");
    }
    let plan = staged();
    let lines = frame(Some(&plan), 80, 24);
    assert_eq!(shown(&lines[0]), "  2 files staged   +1 -2");
    assert_eq!(shown(&lines[1]), "");
    assert_eq!(shown(&lines[5]), "  y  write the message   q  cancel");
    assert_eq!(shown(&lines[6]), "  watching the staging area for changes");
    let none = frame(None, 80, 24);
    assert_eq!(shown(&none[0]), "  nothing staged");
    assert_eq!(shown(&none[4]), "  q  cancel");
}

#[test]
fn a_key_starts_the_run_only_when_something_is_staged() {
    let mut watch = Watch { staged: None, fingerprint: "f".to_owned() };
    assert!(matches!(watch.key(pressed(Key::Enter)), Verdict::Wait));
    assert!(matches!(watch.key(None), Verdict::Wait));
    assert!(matches!(watch.key(pressed(Key::Char('q'))), Verdict::Abort));
    assert!(matches!(watch.key(pressed(Key::Esc)), Verdict::Abort));
    assert!(matches!(
        watch.key(Some(Press { key: Key::Char('c'), control: true })),
        Verdict::Abort
    ));
    assert!(!watch.look("f".to_owned()));
    assert!(watch.look("g".to_owned()));
    assert!(!watch.look("g".to_owned()));
    assert!(watch.reread(Ok(staged())).is_none());
    assert!(matches!(watch.key(pressed(Key::Char('x'))), Verdict::Wait));
    assert!(matches!(watch.key(pressed(Key::Char('y'))), Verdict::Go(diff) if diff.paths().len() == 2));
    assert!(watch.staged.is_none());
    assert!(watch.reread(Ok(staged())).is_none());
    assert!(watch.reread(Err(GitError::NothingStaged)).is_none());
    assert!(watch.staged.is_none());
    assert!(matches!(
        watch.reread(Err(GitError::NotARepository)),
        Some(GitError::NotARepository)
    ));
}

#[test]
fn the_tree_fills_the_rows_that_it_was_given() {
    let files = changed(&["a.rs", "src/b.rs", "src/c.rs", "src/deep/d.rs"]);
    let all = labels(&files).len();
    for budget in 1..10 {
        let lines = tree(&files, 80, budget);
        assert_eq!(lines.len(), all.min(budget));
        let last = shown(&lines[lines.len() - 1]);
        assert_eq!(last.ends_with("not shown"), all > budget);
    }
}
