//! The staged change: what is shown, what is withheld, what can be asked for.

use auto_commit::config::Config;
use auto_commit::git::{
    branch_name, build_diff, command_output, commit_args, commit_template, commits_since,
    commits_since_args,
    commits_touching_args, default_branch, diff_from_text, floor_to_line, kb,
    optional_answer, parse_numstat, recent_branches, recent_branches_args, recent_commits,
    recent_commits_args, repo_root, split_by_file, template_path, tool_arguments,
    trimmed_answer, unstaged_files,
    CommitOptions, Diff, FileChange, FileState, Finished, GitError, Probe,
};

fn config() -> Config {
    Config {
        max_diff_bytes: 400,
        max_file_diff_bytes: 200,
        ..Config::default()
    }
}

fn diff_for(path: &str, lines: usize) -> String {
    let mut text =
        format!("diff --git a/{path} b/{path}\n--- a/{path}\n+++ b/{path}\n@@ -0,0 +1 @@\n");

    for index in 0..lines {
        text.push_str(&format!("+line {index}\n"));
    }

    text
}

fn strings(list: &[&str]) -> Vec<String> {
    list.iter().map(|text| (*text).to_owned()).collect()
}

fn lockfile() -> Diff {
    build_diff(&config(), "40\t0\tyarn.lock", &diff_for("yarn.lock", 40)).unwrap()
}

#[test]
fn a_withheld_file_still_reaches_the_manifest() {
    let diff = format!(
        "{}{}",
        diff_for("src/main.rs", 2),
        diff_for("pnpm-lock.yaml", 3)
    );
    let numstat = "2\t0\tsrc/main.rs\n3\t0\tpnpm-lock.yaml";

    let plan = build_diff(&config(), numstat, &diff).unwrap();
    let manifest = plan.manifest();

    assert!(manifest.contains("pnpm-lock.yaml"));
    assert!(manifest.contains("withheld"));
    assert!(manifest.contains("+3 -0"));

    assert!(plan.included.contains("src/main.rs"));
    assert!(!plan.included.contains("pnpm-lock.yaml"));
    assert_eq!(plan.withheld_paths(), vec!["pnpm-lock.yaml".to_owned()]);
}

#[test]
fn a_withheld_file_can_be_searched_and_read() {
    let diff = diff_for("yarn.lock", 40);
    let plan = build_diff(&config(), "40\t0\tyarn.lock", &diff).unwrap();

    let hit = plan.search_withheld("line 7$", 4096);
    assert!(hit.contains("yarn.lock:"), "{hit}");
    assert!(hit.contains("+line 7"), "{hit}");

    let miss = plan.search_withheld("nothing here", 4096);
    assert!(miss.starts_with("no match"), "{miss}");

    let slice = plan.read_withheld("yarn.lock", 4, 2);
    assert!(slice.contains("+line 0"), "{slice}");
    assert!(!slice.contains("+line 3"), "{slice}");

    let wrong = plan.read_withheld("not-a-file", 0, 10);
    assert!(wrong.starts_with("no withheld diff"), "{wrong}");
}

#[test]
fn an_oversized_file_is_truncated_on_a_line_boundary() {
    let plan = build_diff(&config(), "60\t0\tbig.rs", &diff_for("big.rs", 60)).unwrap();

    assert!(matches!(plan.files[0].state, FileState::Truncated { .. }));

    assert!(plan.included.ends_with('\n'));
    assert!(plan.included.len() <= 200);
    assert!(plan.manifest().contains("included, first"));
}

#[test]
fn a_binary_file_is_named_but_has_nothing_to_retrieve() {
    let plan = build_diff(&config(), "-\t-\tlogo.png", "").unwrap();

    assert_eq!(plan.files[0].state, FileState::Binary);
    assert!(plan.manifest().contains("binary"));
    assert!(!plan.has_withheld());
}

#[test]
fn an_empty_staging_area_is_an_error_rather_than_an_empty_prompt() {
    assert!(matches!(
        build_diff(&config(), "", ""),
        Err(GitError::NothingStaged)
    ));
}

#[test]
fn every_file_is_listed_in_order_whatever_becomes_of_it() {
    let diff = format!(
        "{}{}{}",
        diff_for("a.rs", 2),
        diff_for("Cargo.lock", 2),
        diff_for("b.rs", 60)
    );
    let numstat = "2\t0\ta.rs\n-\t-\tlogo.png\n2\t0\tCargo.lock\n60\t0\tb.rs\n";
    let plan = build_diff(&config(), numstat, &diff).unwrap();
    assert_eq!(plan.paths(), strings(&["a.rs", "logo.png", "Cargo.lock", "b.rs"]));
    assert_eq!(plan.included_paths(), strings(&["a.rs", "logo.png", "b.rs"]));
    assert_eq!(plan.withheld_paths(), strings(&["Cargo.lock"]));
    assert_eq!(plan.files[0].state, FileState::Included);
    assert_eq!(plan.files[1].state, FileState::Binary);
    assert!(plan.totals_fit());
    assert_eq!(plan.totals(), (64, 0));
    assert!(plan.included.len() <= 400);
}

#[test]
fn what_does_not_fit_any_more_is_withheld() {
    let diff = format!("{}{}", diff_for("a.rs", 10), diff_for("b.rs", 10));
    let small = Config { max_diff_bytes: diff_for("a.rs", 10).len(), ..config() };
    let plan = build_diff(&small, "10\t0\ta.rs\n10\t0\tb.rs", &diff).unwrap();
    assert_eq!(plan.included, diff_for("a.rs", 10));
    assert_eq!(plan.files[1].state, FileState::Withheld { bytes: diff_for("b.rs", 10).len() });
    assert!(plan.has_withheld());
    let whole = plan.read_withheld("b.rs", 0, 1000);
    assert_eq!(
        whole,
        format!("b.rs lines 0..14 of 14\n{}", diff_for("b.rs", 10).trim_end())
    );
}

#[test]
fn a_pattern_that_is_none_is_named() {
    let bad = Config { exclude: strings(&["*.lock", "a[", "b["]), ..config() };
    match build_diff(&bad, "1\t0\ta.rs", "") {
        Err(GitError::BadGlob(pattern, reason)) => {
            assert_eq!(pattern, "a[");
            assert!(!reason.is_empty());
            assert_eq!(
                GitError::BadGlob(pattern, reason.clone()).message(),
                format!("\"a[\" is not a valid exclude pattern: {reason}")
            );
        }
        _ => panic!("the pattern was taken"),
    }
}

#[test]
fn exclude_patterns_match_whole_directories() {
    let numstat = "1\t0\tvendor/deep/x.rs\n1\t0\tsrc/vendor.rs\n1\t0\tsub/app.min.js";
    let plan = build_diff(&config(), numstat, "").unwrap();
    assert_eq!(plan.withheld_paths(), strings(&["sub/app.min.js", "vendor/deep/x.rs"]));
}

#[test]
fn pages_of_a_withheld_diff_follow_each_other() {
    let plan = lockfile();
    assert_eq!(
        plan.read_withheld("yarn.lock", 4, 2),
        "yarn.lock lines 4..6 of 44\n+line 0\n+line 1"
    );
    assert_eq!(
        plan.read_withheld("yarn.lock", 42, 200),
        "yarn.lock lines 42..44 of 44\n+line 38\n+line 39"
    );
    assert_eq!(
        plan.read_withheld("yarn.lock", 44, 1),
        "yarn.lock has 44 lines, 44 is past the end"
    );
    assert_eq!(
        plan.read_withheld("a\"b", 0, 1),
        "no withheld diff for \"a\\\"b\". Withheld files: yarn.lock"
    );
    assert_eq!(
        plan.read_withheld("yarn.lock", 3, usize::MAX).lines().count(),
        42
    );
}

#[test]
fn a_search_reports_until_the_budget_is_spent() {
    let plan = lockfile();
    assert_eq!(plan.search_withheld("LINE 7$", 4096), "yarn.lock:11: +line 7\n");
    assert_eq!(
        plan.search_withheld("line 3", 1),
        "yarn.lock:7: +line 3\n... 11 matches in total, output truncated\n"
    );
    assert_eq!(
        plan.search_withheld("absent", 10),
        "no match for \"absent\" in any withheld diff"
    );
    assert!(plan
        .search_withheld("(", 10)
        .starts_with("\"(\" is not a valid regular expression: "));
}

#[test]
fn tools_are_dispatched_by_name() {
    let plan = lockfile();
    let arguments =
        serde_json::from_str("{\"path\": \"yarn.lock\", \"offset\": 4, \"limit\": 1}").unwrap();
    assert_eq!(
        plan.call_tool("read_diff", &arguments, 10),
        "yarn.lock lines 4..5 of 44\n+line 0"
    );
    let bare = serde_json::from_str("{\"path\": \"yarn.lock\"}").unwrap();
    assert!(plan
        .call_tool("read_diff", &bare, 10)
        .starts_with("yarn.lock lines 0..44 of 44\n"));
    let pattern = serde_json::from_str("{\"pattern\": \"line 39\"}").unwrap();
    assert_eq!(
        plan.call_tool("search_diff", &pattern, 4096),
        "yarn.lock:43: +line 39\n"
    );
    assert_eq!(plan.call_tool("rm", &pattern, 10), "no such tool: rm");
    let parsed = tool_arguments(&arguments);
    assert_eq!(parsed.path, Some("yarn.lock".to_owned()));
    assert_eq!(parsed.offset, Some(4));
    assert_eq!(parsed.limit, Some(1));
    assert_eq!(parsed.pattern, None);
    let odd = serde_json::from_str("{\"path\": 3, \"offset\": -4}").unwrap();
    assert_eq!(tool_arguments(&odd).path, None);
    assert_eq!(tool_arguments(&odd).offset, None);
}

#[test]
fn the_manifest_lines_up() {
    let plan = build_diff(&config(), "2\t10\ta.rs\n-\t-\tlogo.png", &diff_for("a.rs", 2)).unwrap();
    assert_eq!(
        plan.manifest(),
        format!(
            "a.rs      {:>12}  included\nlogo.png  {:>12}  {}\n",
            "+2 -10",
            "binary",
            plan.files[1].describe()
        )
    );
}

#[test]
fn counts_of_a_plain_diff_come_from_its_hunks() {
    let diff = "noise\ndiff --git a/x b/x\n--- a/x\n+++ b/x\n-old\n+new\n+more\ndiff --git a/y b/y\n";
    let plan = diff_from_text(&config(), diff).unwrap();
    assert_eq!(plan.paths(), strings(&["x", "y"]));
    assert_eq!(plan.files[0].added, Some(2));
    assert_eq!(plan.files[0].deleted, Some(1));
    assert_eq!(plan.files[1].added, Some(0));
    assert!(matches!(diff_from_text(&config(), ""), Err(GitError::NothingStaged)));
}

#[test]
fn every_line_of_a_hunk_counts() {
    let diff = "diff --git a/a.c b/a.c\n--- a/a.c\n+++ b/a.c\n@@ -0,0 +1 @@\n+++i;\n";
    let plan = diff_from_text(&Config::default(), diff).unwrap();
    assert_eq!(plan.totals(), (1, 0));
    let diff = "diff --git a/q b/q\n--- a/q\n+++ b/q\n@@ -1,2 +1 @@\n--- x\n----\n++++\n keep\n\
                diff --git a/r b/r\n--- a/r\n+++ b/r\n@@ -1 +1 @@\n-a\n+b\n";
    let plan = diff_from_text(&Config::default(), diff).unwrap();
    assert_eq!((plan.files[0].added, plan.files[0].deleted), (Some(1), Some(2)));
    assert_eq!(plan.totals(), (2, 3));
}

#[test]
fn a_diff_is_split_by_its_headers() {
    let chunks = split_by_file("diff --git a/b b/b\nx\r\ndiff --git broken\ny\ndiff --git a/a b/a\nz");
    assert_eq!(chunks.len(), 2);
    assert_eq!(chunks.key(0), "a");
    assert_eq!(chunks.value(0), "diff --git a/a b/a\nz\n");
    assert_eq!(chunks.key(1), "b");
    assert_eq!(chunks.value(1), "diff --git a/b b/b\nx\n");
    assert!(chunks.find("c").is_none());
}

#[test]
fn numstat_lines_are_read() {
    let entries = parse_numstat("1\t2\ta\tb\n-\t-\tc\nnonsense\n+3\t99999999999999999999\td\n");
    assert_eq!(entries.len(), 3);
    assert_eq!(entries[0], ("a\tb".to_owned(), Some(1), Some(2)));
    assert_eq!(entries[1], ("c".to_owned(), None, None));
    assert_eq!(entries[2], ("d".to_owned(), Some(3), None));
}

#[test]
fn a_cut_falls_between_lines_and_characters() {
    assert_eq!(floor_to_line("ab\ncd\n", 5), 3);
    assert_eq!(floor_to_line("ab\ncd\n", 6), 6);
    assert_eq!(floor_to_line("ab\ncd\n", 100), 6);
    assert_eq!(floor_to_line("abcd", 3), 0);
    assert_eq!(floor_to_line("a\n\u{e9}\n", 3), 2);
}

#[test]
fn sizes_and_states_are_described() {
    assert_eq!(kb(1023), "1023 B");
    assert_eq!(kb(1024), "1 KB");
    assert_eq!(kb(5000), "4 KB");
    let change = |state: FileState| FileChange {
        path: "p".to_owned(),
        added: Some(1),
        deleted: Some(0),
        state,
    };
    assert_eq!(change(FileState::Included).describe(), "included");
    assert_eq!(
        change(FileState::Truncated { kept: 2048, total: 4096 }).describe(),
        "included, first 2 KB of 4 KB"
    );
}

#[test]
fn the_output_of_git_is_an_answer_or_an_error() {
    let args = strings(&["merge-base", "HEAD", "main"]);
    let finished = |success: bool| {
        Ok(Finished {
            success,
            stdout: "out\n".to_owned(),
            stderr: " fatal: no \n".to_owned(),
        })
    };
    assert_eq!(command_output(&args, finished(true)).unwrap(), "out\n");
    match command_output(&args, finished(false)) {
        Err(error) => assert_eq!(error.message(), "git merge-base HEAD main failed: fatal: no"),
        Ok(_) => panic!("a failure was taken for an answer"),
    }
    match command_output(&args, Err("not found".to_owned())) {
        Err(error) => assert_eq!(error.message(), "could not run git: not found"),
        Ok(_) => panic!("nothing ran"),
    }
    assert_eq!(optional_answer(Ok(" a b \n".to_owned())), Some("a b".to_owned()));
    assert_eq!(optional_answer(Ok(" \n".to_owned())), None);
    assert_eq!(optional_answer(Err(GitError::NothingStaged)), None);
    assert_eq!(repo_root(Ok("/r\n".to_owned())).unwrap(), "/r");
    match repo_root(Err(GitError::NothingStaged)) {
        Err(error) => assert_eq!(
            error.message(),
            "not inside a git repository. Run this from a repository, or `git init` one"
        ),
        Ok(_) => panic!("there is no root"),
    }
    assert_eq!(trimmed_answer(Ok(" abc\n".to_owned())).unwrap(), "abc");
    assert!(matches!(
        trimmed_answer(Err(GitError::NotARepository)),
        Err(GitError::NotARepository)
    ));
    assert_eq!(commits_since(Ok("1 a\n2 b\n".to_owned())).unwrap(), strings(&["1 a", "2 b"]));
    assert!(matches!(
        commits_since(Err(GitError::NotARepository)),
        Err(GitError::NotARepository)
    ));
    assert_eq!(branch_name(Ok("main\n".to_owned())), Some("main".to_owned()));
    assert_eq!(branch_name(Ok("HEAD\n".to_owned())), None);
    assert!(GitError::NothingStaged.message().starts_with("nothing is staged. Stage what"));
}

#[test]
fn a_template_is_found_where_the_repository_says() {
    assert_eq!(template_path("/r", Some("/etc/t")), "/etc/t");
    assert_eq!(template_path("/r", Some("t")), "/r/t");
    assert_eq!(template_path("/r/", None), "/r/.gitmessage");
    assert_eq!(commit_template(Some(" \n".to_owned())), None);
    assert_eq!(commit_template(Some(" t\n".to_owned())), Some(" t\n".to_owned()));
    assert_eq!(commit_template(None), None);
}

#[test]
fn a_log_is_read_commit_by_commit() {
    let log = "first\n\n---\nsecond\nwhy it\nis so\n\n---\n---\nthird";
    let commits = recent_commits(Some(log));
    assert_eq!(commits.len(), 3);
    assert_eq!(commits[0].subject, "first");
    assert_eq!(commits[0].body, "");
    assert_eq!(commits[1].subject, "second");
    assert_eq!(commits[1].body, "why it\nis so");
    assert_eq!(commits[2].subject, "third");
    assert!(recent_commits(None).is_empty());
    assert_eq!(
        recent_commits_args(10),
        strings(&["log", "-n10", "--format=%s%n%b%n---"])
    );
    assert_eq!(commits_touching_args(&Vec::new(), 5), None);
    assert_eq!(
        commits_touching_args(&strings(&["a", "b"]), 5),
        Some(strings(&["log", "-n5", "--format=%s", "--", "a", "b"]))
    );
    assert_eq!(commits_since_args("abc"), strings(&["log", "--format=%H %s", "abc..HEAD"]));
    assert_eq!(
        recent_branches_args(50),
        strings(&[
            "for-each-ref",
            "--sort=-committerdate",
            "--count=50",
            "--format=%(refname:short)",
            "refs/heads",
            "refs/remotes",
        ])
    );
    assert_eq!(recent_branches(Some("a\nb")), strings(&["a", "b"]));
    assert!(recent_branches(None).is_empty());
}

#[test]
fn the_first_column_of_a_status_counts() {
    let dirty = unstaged_files(" M src/a.rs\n?? b\nR  old -> new\nxx\nR  a -> b -> c\n");
    let pairs: Vec<(&str, &str)> =
        dirty.iter().map(|(status, path)| (status.as_str(), path.as_str())).collect();
    assert_eq!(pairs, vec![("M", "src/a.rs"), ("??", "b"), ("R", "new"), ("R", "c")]);
    assert!(unstaged_files("\u{e9}\u{e9}x").is_empty());
}

#[test]
fn the_default_branch_is_looked_for_in_order() {
    assert!(matches!(
        default_branch(Some("origin/trunk".to_owned()), &Vec::new()),
        Probe::Found(name) if name == "origin/trunk"
    ));
    let asked = |answers: Vec<bool>| match default_branch(None, &answers) {
        Probe::Ask(name) => format!("ask {name}"),
        Probe::Found(name) => format!("found {name}"),
    };
    assert_eq!(asked(vec![]), "ask origin/main");
    assert_eq!(asked(vec![false]), "ask origin/master");
    assert_eq!(asked(vec![false, false]), "ask main");
    assert_eq!(asked(vec![false, false, true]), "found main");
    assert_eq!(asked(vec![false, false, false]), "ask master");
    assert_eq!(asked(vec![false, false, false, false]), "found HEAD");
}

#[test]
fn a_commit_is_made_with_the_flags_that_were_asked_for() {
    let none = CommitOptions {
        review: false,
        amend: false,
        signoff: false,
        gpg_sign: false,
        skip_hooks: false,
    };
    assert_eq!(commit_args(&none), strings(&["commit", "-F", "-"]));
    let all = CommitOptions {
        review: true,
        amend: true,
        signoff: true,
        gpg_sign: true,
        skip_hooks: true,
    };
    assert_eq!(
        commit_args(&all),
        strings(&[
            "commit",
            "-F",
            "-",
            "-e",
            "--amend",
            "--signoff",
            "--gpg-sign",
            "--no-verify",
        ])
    );
}

#[test]
fn matches_come_in_order_and_read_back() {
    let diff = format!("{}{}", diff_for("b/go.sum", 3), diff_for("a/go.sum", 12));
    let settings = Config { exclude: strings(&["**/go.sum"]), ..Config::default() };
    let plan = build_diff(&settings, "3\t0\tb/go.sum\n12\t0\ta/go.sum", &diff).unwrap();
    let hits = plan.search_withheld("line 1", 4096);
    let lines: Vec<&str> = hits.lines().collect();
    assert_eq!(
        lines,
        vec!["a/go.sum:5: +line 1", "a/go.sum:14: +line 10", "a/go.sum:15: +line 11", "b/go.sum:5: +line 1"]
    );
    assert_eq!(plan.read_withheld("a/go.sum", 14, 1), "a/go.sum lines 14..15 of 16\n+line 10");
}

#[test]
fn the_split_loses_nothing() {
    let parts = [diff_for("z", 2), diff_for("a", 1), diff_for("m", 0)];
    let chunks = split_by_file(&parts.concat());
    let found = |path: &str| chunks.find(path).cloned();
    assert_eq!(found("z"), Some(parts[0].clone()));
    assert_eq!(found("a"), Some(parts[1].clone()));
    assert_eq!(found("m"), Some(parts[2].clone()));
    assert_eq!(chunks.len(), 3);
}
