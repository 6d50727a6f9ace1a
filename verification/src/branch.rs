//! Naming a branch.

use crate::cli::{BranchArgs, GlobalArgs};
use crate::error::Error;
use crate::text;
use vstd::prelude::*;

verus! {

/// One proposed branch name, with the reason it fits this repository.
#[derive(Debug)]
pub struct Suggestion {
    pub name: String,
    pub reason: String,
}

/// What a [`Suggestion`] says.
pub struct SuggestionView {
    pub name: Seq<char>,
    pub reason: Seq<char>,
}

impl View for Suggestion {
    type V = SuggestionView;

    open spec fn view(&self) -> SuggestionView {
        SuggestionView { name: self.name@, reason: self.reason@ }
    }
}

/// What the suggestions of a list say.
pub open spec fn suggestions(list: Seq<Suggestion>) -> Seq<SuggestionView> {
    Seq::new(list.len(), |i: int| list[i]@)
}

/// A name without the remote that it is on.
pub open spec fn local_name(name: Seq<char>) -> Seq<char>
    decreases name.len(),
{
    proof {
        reveal_strlit("origin/");
    }
    if text::starts_with(name, "origin/"@) {
        local_name(name.skip("origin/"@.len() as int))
    } else {
        name
    }
}

fn local(name: &str) -> (r: String)
    ensures
        r@ == local_name(name@),
{
    proof {
        reveal_strlit("origin/");
        assert("origin/"@.len() > 0);
    }
    let mut left = name.to_owned();
    loop
        invariant
            "origin/"@.len() > 0,
            local_name(left@) == local_name(name@),
        decreases left@.len(),
    {
        match text::after_prefix(left.as_str(), "origin/") {
            Some(rest) => {
                left = rest;
            },
            None => {
                return left;
            },
        }
    }
}

/// The branch that is to be named, or why there is none.
pub open spec fn named_branch(current: Option<String>, onto: Seq<char>) -> Result<String, Error> {
    match current {
        Some(name) if local_name(onto) != name@ => Ok(name),
        Some(name) => Err(Error::OnDefaultBranch(name)),
        None => Err(Error::DetachedHead),
    }
}

/// The branch that is to be named: the current one, unless there is none, or it is
/// the one that it is compared against.
pub fn branch_to_name(current: Option<String>, onto: &str) -> (r: Result<String, Error>)
    ensures
        match current {
            None => r matches Err(Error::DetachedHead),
            Some(name) => if local_name(onto@) == name@ {
                r == Err::<String, Error>(Error::OnDefaultBranch(name))
            } else {
                r == Ok::<String, Error>(name)
            },
        },
        r == named_branch(current, onto@),
{
    match current {
        None => Err(Error::DetachedHead),
        Some(name) => if text::same(local(onto).as_str(), name.as_str()) {
            Err(Error::OnDefaultBranch(name))
        } else {
            Ok(name)
        },
    }
}

/// Refuses a branch that has no commits of its own.
pub fn require_commits(commits: &Vec<String>, current: &str, onto: &str) -> (r: Result<(), Error>)
    ensures
        if commits@.len() == 0 {
            r matches Err(Error::NoCommitsOnBranch(a, b)) && a@ == current@ && b@ == onto@
        } else {
            r is Ok
        },
{
    if commits.len() == 0 {
        Err(Error::NoCommitsOnBranch(current.to_owned(), onto.to_owned()))
    } else {
        Ok(())
    }
}

/// The instructions for naming a branch.
pub open spec fn instructions_text() -> Seq<char> {
    "You name git branches. You are given the branch's diff, its commits, and the branch names already in use in this repository.\n\nPropose three names. Match the convention the existing names show: their prefixes, their separators, their case, whether they carry a ticket id. That convention outranks any habit of your own. Do not propose a name that already exists. Give one short reason per name, naming the convention it follows."@
}

/// The instructions for naming a branch.
pub fn instructions() -> (r: String)
    ensures
        r@ == instructions_text(),
{
    "You name git branches. You are given the branch's diff, its commits, and the branch names already in use in this repository.\n\nPropose three names. Match the convention the existing names show: their prefixes, their separators, their case, whether they carry a ticket id. That convention outranks any habit of your own. Do not propose a name that already exists. Give one short reason per name, naming the convention it follows.".to_owned()
}

/// What the model is told of the branch.
pub open spec fn prompt_text(
    current: Seq<char>,
    onto: Seq<char>,
    stat: Seq<char>,
    commits: Seq<Seq<char>>,
    branches: Seq<Seq<char>>,
) -> Seq<char> {
    "# Branch names already in this repository\n\n"@ + text::join(branches, "\n"@) + "\n\n"@
        + "# The current name\n\n"@ + current + "\n\n"@ + "# Commits on this branch, against "@
        + onto + "\n\n"@ + text::join(commits, "\n"@) + "\n\n"@
        + "# What the branch changes\n\n"@ + stat
}

/// What the model is told of the branch.
pub fn prompt(
    current: &str,
    onto: &str,
    stat: &str,
    commits: &Vec<String>,
    branches: &Vec<String>,
) -> (r: String)
    ensures
        r@ == prompt_text(current@, onto@, stat@, text::texts(commits@), text::texts(branches@)),
{
    let mut prompt = "# Branch names already in this repository\n\n".to_owned();
    prompt.append(text::joined(branches.as_slice(), "\n").as_str());
    prompt.append("\n\n");
    prompt.append("# The current name\n\n");
    prompt.append(current);
    prompt.append("\n\n");
    prompt.append("# Commits on this branch, against ");
    prompt.append(onto);
    prompt.append("\n\n");
    prompt.append(text::joined(commits.as_slice(), "\n").as_str());
    prompt.append("\n\n");
    prompt.append("# What the branch changes\n\n");
    prompt.append(stat);
    prompt
}

/// The first `n` suggestions whose names are not taken.
pub open spec fn untaken(list: Seq<SuggestionView>, taken: Seq<bool>, n: nat) -> Seq<SuggestionView>
    decreases n,
{
    if n == 0 {
        Seq::empty()
    } else {
        let before = untaken(list, taken, (n - 1) as nat);
        if taken[n - 1] {
            before
        } else {
            before.push(list[n - 1])
        }
    }
}

/// The suggestions that can be used. A name that already exists cannot be used,
/// whatever the model thought. `taken` says of each whether it does.
pub fn usable(candidates: &Vec<Suggestion>, taken: &Vec<bool>) -> (r: Result<Vec<Suggestion>, Error>)
    requires
        taken@.len() == candidates@.len(),
    ensures
        ({
            let kept = untaken(suggestions(candidates@), taken@, candidates@.len());
            if kept.len() == 0 {
                r matches Err(Error::NoUsableName)
            } else {
                r matches Ok(list) && suggestions(list@) == kept
            }
        }),
{
    let mut kept: Vec<Suggestion> = Vec::new();
    let ghost all = suggestions(candidates@);
    assert(suggestions(kept@) =~= untaken(all, taken@, 0));
    for i in 0..candidates.len()
        invariant
            taken@.len() == candidates@.len(),
            all == suggestions(candidates@),
            suggestions(kept@) == untaken(all, taken@, i as nat),
    {
        if !taken[i] {
            let ghost before = suggestions(kept@);
            kept.push(
                Suggestion {
                    name: candidates[i].name.clone(),
                    reason: candidates[i].reason.clone(),
                },
            );
            assert(suggestions(kept@) =~= before.push(all[i as int]));
        }
    }
    assert(suggestions(kept@).len() == kept@.len());
    if kept.len() == 0 {
        Err(Error::NoUsableName)
    } else {
        Ok(kept)
    }
}

/// The lines that list the suggestions.
pub fn listing(candidates: &Vec<Suggestion>) -> (r: Vec<String>)
    ensures
        text::texts(r@) == Seq::new(
            candidates@.len(),
            |i: int| candidates@[i].name@ + "  "@ + candidates@[i].reason@,
        ),
{
    let mut out: Vec<String> = Vec::new();
    for i in 0..candidates.len()
        invariant
            out.len() == i,
            forall|j: int|
                0 <= j < i ==> #[trigger] out@[j]@ == candidates@[j].name@ + "  "@
                    + candidates@[j].reason@,
    {
        let mut line = candidates[i].name.clone();
        line.append("  ");
        line.append(candidates[i].reason.as_str());
        out.push(line);
    }
    assert(text::texts(out@) =~= Seq::new(
        candidates@.len(),
        |i: int| candidates@[i].name@ + "  "@ + candidates@[i].reason@,
    ));
    out
}

/// The labels under which the suggestions can be chosen.
pub fn labels(candidates: &Vec<Suggestion>) -> (r: Vec<String>)
    ensures
        text::texts(r@) == Seq::new(
            candidates@.len(),
            |i: int| candidates@[i].name@ + "  ("@ + candidates@[i].reason@ + ")"@,
        ),
{
    let mut out: Vec<String> = Vec::new();
    for i in 0..candidates.len()
        invariant
            out.len() == i,
            forall|j: int|
                0 <= j < i ==> #[trigger] out@[j]@ == candidates@[j].name@ + "  ("@
                    + candidates@[j].reason@ + ")"@,
    {
        let mut line = candidates[i].name.clone();
        line.append("  (");
        line.append(candidates[i].reason.as_str());
        line.append(")");
        out.push(line);
    }
    assert(text::texts(out@) =~= Seq::new(
        candidates@.len(),
        |i: int| candidates@[i].name@ + "  ("@ + candidates@[i].reason@ + ")"@,
    ));
    out
}

/// What is done with the suggestions.
#[derive(Debug, Clone, Copy, PartialEq, Eq, Structural)]
pub struct Plan {
    /// They are listed.
    pub list: bool,
    /// The branch is renamed to one of them.
    pub rename: bool,
    /// Someone has to be asked which.
    pub ask: bool,
}

/// What is done with so many suggestions.
pub open spec fn plan_of(count: nat, rename: bool, print: bool, human: bool) -> Plan {
    if rename && !print {
        Plan { list: false, rename: true, ask: human && count != 1 }
    } else {
        Plan { list: true, rename: false, ask: false }
    }
}

/// What is done with so many suggestions. They are listed unless the branch is
/// renamed, which it never is where only printing was asked for; and one needs no
/// asking, nor does a run that no person watches.
pub fn plan(count: usize, args: &BranchArgs, global: &GlobalArgs, human: bool) -> (r: Plan)
    ensures
        r == (Plan {
            list: global.print || !args.rename,
            rename: args.rename && !global.print,
            ask: args.rename && !global.print && count != 1 && human,
        }),
        r == plan_of(count as nat, args.rename, global.print, human),
{
    Plan {
        list: global.print || !args.rename,
        rename: args.rename && !global.print,
        ask: args.rename && !global.print && count != 1 && human,
    }
}

/// The remote of an upstream branch.
pub open spec fn remote_of(upstream: Seq<char>) -> Seq<char> {
    match text::split_once(upstream, "/"@) {
        Some(parts) => parts.0,
        None => "origin"@,
    }
}

/// What is said where a renamed branch was pushed. The remote is never touched, so
/// a pushed branch gets the commands rather than a surprise.
pub open spec fn pushed_text(current: Seq<char>, upstream: Seq<char>, name: Seq<char>) -> Seq<char> {
    "\n"@ + current + " was pushed to "@ + upstream
        + ". To move it there as well:\n  git push -u "@ + remote_of(upstream) + " "@ + name
        + "\n  git push "@ + remote_of(upstream) + " --delete "@ + current + "\n"@
}

/// What is said where a renamed branch was pushed.
pub fn pushed_note(current: &str, upstream: &str, name: &str) -> (r: String)
    ensures
        r@ == pushed_text(current@, upstream@, name@),
{
    let remote = match text::split_at_first(upstream, "/") {
        Some(parts) => parts.0,
        None => "origin".to_owned(),
    };
    let mut out = "\n".to_owned();
    out.append(current);
    out.append(" was pushed to ");
    out.append(upstream);
    out.append(". To move it there as well:\n  git push -u ");
    out.append(remote.as_str());
    out.append(" ");
    out.append(name);
    out.append("\n  git push ");
    out.append(remote.as_str());
    out.append(" --delete ");
    out.append(current);
    out.append("\n");
    out
}

// ---------------------------------------------------------------------------
// Laws
// ---------------------------------------------------------------------------

/// No name that exists is kept, and every other one is, in order of preference.
pub proof fn law_taken_names_are_dropped(
    list: Seq<SuggestionView>,
    taken: Seq<bool>,
    n: nat,
    i: int,
)
    requires
        0 <= i < n <= list.len(),
        taken.len() == list.len(),
    ensures
        !taken[i] ==> untaken(list, taken, n).contains(list[i]),
        forall|j: int|
            0 <= j < untaken(list, taken, n).len() ==> exists|k: int|
                0 <= k < n && !taken[k] && list[k] == #[trigger] untaken(list, taken, n)[j],
    decreases n,
{
    let kept = untaken(list, taken, n);
    let before = untaken(list, taken, (n - 1) as nat);
    if n > 1 {
        let m = if i < n - 1 {
            i
        } else {
            0
        };
        law_taken_names_are_dropped(list, taken, (n - 1) as nat, m);
    }
    if !taken[i] {
        if i < n - 1 {
            let at = choose|at: int| 0 <= at < before.len() && before[at] == list[i];
            assert(kept[at] == list[i]);
        } else {
            assert(kept.last() == list[i]);
        }
    }
    assert forall|j: int| 0 <= j < kept.len() implies exists|k: int|
        0 <= k < n && !taken[k] && list[k] == #[trigger] kept[j] by {
        if j < before.len() {
            assert(kept[j] == before[j]);
            let k = choose|k: int| 0 <= k < n - 1 && !taken[k] && list[k] == before[j];
            assert(!taken[k] && list[k] == kept[j]);
        } else {
            assert(!taken[n - 1] && list[n - 1] == kept[j]);
        }
    }
}

/// Suggestions are looked at one by one, in the order in which the model gave them: each
/// stays behind those before it, unless its name is taken.
pub proof fn law_suggestions_stay_in_order(list: Seq<SuggestionView>, taken: Seq<bool>, n: nat)
    requires
        n < list.len(),
        taken.len() == list.len(),
    ensures
        untaken(list, taken, 0).len() == 0,
        taken[n as int] ==> untaken(list, taken, n + 1) == untaken(list, taken, n),
        !taken[n as int] ==> untaken(list, taken, n + 1) == untaken(list, taken, n) + seq![
            list[n as int],
        ],
{
    if !taken[n as int] {
        assert(untaken(list, taken, n + 1) =~= untaken(list, taken, n) + seq![list[n as int]]);
    }
}

/// A branch is the same branch on the remote, however often the remote is named before it,
/// and a name without the remote is its own.
pub proof fn law_remote_does_not_matter(name: Seq<char>)
    ensures
        local_name("origin/"@ + name) == local_name(name),
        !text::starts_with(name, "origin/"@) ==> local_name(name) == name,
        !text::starts_with(local_name(name), "origin/"@),
    decreases name.len(),
{
    reveal_strlit("origin/");
    let n = "origin/"@.len() as int;
    let whole = "origin/"@ + name;
    assert(whole.take(n) =~= "origin/"@);
    assert(whole.skip(n) =~= name);
    if text::starts_with(name, "origin/"@) {
        law_remote_does_not_matter(name.skip(n));
    }
}

/// The prompt tells everything it is given: every name in use, the current name, what the
/// branch is compared against, every commit, and what changed.
pub proof fn law_prompt_tells_everything(
    current: Seq<char>,
    onto: Seq<char>,
    stat: Seq<char>,
    commits: Seq<Seq<char>>,
    branches: Seq<Seq<char>>,
    i: int,
    j: int,
)
    ensures
        ({
            let prompt = prompt_text(current, onto, stat, commits, branches);
            &&& text::starts_with(
                prompt,
                "# Branch names already in this repository\n\n"@ + text::join(branches, "\n"@)
                    + "\n\n"@,
            )
            &&& text::has_part(prompt, "# The current name\n\n"@ + current + "\n\n"@)
            &&& text::has_part(
                prompt,
                "# Commits on this branch, against "@ + onto + "\n\n"@ + text::join(
                    commits,
                    "\n"@,
                ) + "\n\n"@,
            )
            &&& text::has_end(prompt, "# What the branch changes\n\n"@ + stat)
            &&& 0 <= i < branches.len() ==> text::has_part(prompt, branches[i])
            &&& 0 <= j < commits.len() ==> text::has_part(prompt, commits[j])
        }),
{
    let prompt = prompt_text(current, onto, stat, commits, branches);
    let gap = "\n\n"@;
    let title = "# Branch names already in this repository\n\n"@;
    let names = text::join(branches, "\n"@);
    let now = "# The current name\n\n"@ + current + gap;
    let against = "# Commits on this branch, against "@ + onto + gap;
    let list = text::join(commits, "\n"@);
    let changes = "# What the branch changes\n\n"@ + stat;
    let a = title + names + gap;
    let b = against + list + gap;
    assert(prompt =~= a + now + b + changes);
    assert(prompt.take(a.len() as int) =~= a);
    assert(prompt.skip(prompt.len() - changes.len()) =~= changes);
    text::lemma_part_between(a, now, b + changes);
    assert(prompt =~= a + now + (b + changes));
    text::lemma_part_between(a + now, b, changes);
    if 0 <= i < branches.len() {
        text::lemma_join_holds(branches, "\n"@, i);
        text::lemma_part_within(title, names, branches[i], gap + now + b + changes);
        assert(prompt =~= title + names + (gap + now + b + changes));
    }
    if 0 <= j < commits.len() {
        text::lemma_join_holds(commits, "\n"@, j);
        text::lemma_part_within(a + now + against, list, commits[j], gap + changes);
        assert(prompt =~= (a + now + against) + list + (gap + changes));
    }
}

/// The remote of an upstream branch is what stands before its first slash.
pub proof fn law_remote_stands_before_the_slash(remote: Seq<char>, branch: Seq<char>)
    requires
        !remote.contains('/'),
    ensures
        remote_of(remote + "/"@ + branch) == remote,
        remote_of(remote) == "origin"@,
{
    reveal_strlit("/");
    let all = remote + "/"@ + branch;
    text::law_split_is_at_the_first(all, "/"@);
    text::lemma_part_between(remote, "/"@, branch);
    let (before, after) = text::split_once(all, "/"@)->0;
    let n = remote.len() as int;
    let k = before.len() as int;
    assert(all.skip(n).take(1) =~= "/"@);
    assert(text::starts_with(all.skip(n), "/"@));
    assert((before + "/"@ + after)[k] == '/');
    if k < n {
        assert(remote[k] == '/');
    }
    assert((before + "/"@ + after).take(n) =~= before);
    assert(all.take(n) =~= remote);
    text::law_split_is_at_the_first(remote, "/"@);
    if text::has_part(remote, "/"@) {
        let at = choose|at: int|
            0 <= at <= remote.len() && text::starts_with(#[trigger] remote.skip(at), "/"@);
        assert(remote.skip(at).take(1)[0] == remote[at]);
        assert(remote.contains(remote[at]));
    }
}

/// A branch that was pushed gets both commands: one that pushes the new name, and one that
/// deletes the old.
pub proof fn law_pushed_branch_gets_both_commands(
    current: Seq<char>,
    upstream: Seq<char>,
    name: Seq<char>,
)
    ensures
        text::starts_with(
            pushed_text(current, upstream, name),
            "\n"@ + current + " was pushed to "@ + upstream + "."@,
        ),
        text::has_part(
            pushed_text(current, upstream, name),
            "\n  git push -u "@ + remote_of(upstream) + " "@ + name + "\n"@,
        ),
        text::has_end(
            pushed_text(current, upstream, name),
            "\n  git push "@ + remote_of(upstream) + " --delete "@ + current + "\n"@,
        ),
{
    reveal_strlit(". To move it there as well:\n  git push -u ");
    reveal_strlit("\n  git push -u ");
    reveal_strlit(".");
    reveal_strlit("\n  git push ");
    reveal_strlit("\n");
    reveal_strlit("  git push ");
    let dot = "."@;
    let words = ". To move it there as well:\n  git push -u "@;
    let m = words.len() - "\n  git push -u "@.len();
    assert(words.skip(m) =~= "\n  git push -u "@);
    assert(words =~= words.take(m) + "\n  git push -u "@);
    let remote = remote_of(upstream);
    let all = pushed_text(current, upstream, name);
    let start = "\n"@ + current + " was pushed to "@ + upstream;
    assert(all.take((start + dot).len() as int) =~= start + dot);
    let end = "\n  git push "@ + remote + " --delete "@ + current + "\n"@;
    assert(all.skip(all.len() - end.len()) =~= end);
    assert("\n  git push "@ =~= "\n"@ + "  git push "@);
    let before = start + words.take(m);
    let part = "\n  git push -u "@ + remote + " "@ + name + "\n"@;
    let after = "  git push "@ + remote + " --delete "@ + current + "\n"@;
    text::lemma_part_between(before, part, after);
    lemma_note_parts(start, words, words.take(m), "\n  git push -u "@, remote, name, "\n  git push "@, "\n"@, "  git push "@, " --delete "@ + current + "\n"@);
    assert(all =~= start + words + remote + " "@ + name + "\n  git push "@ + remote
        + (" --delete "@ + current + "\n"@));
    assert(after =~= "  git push "@ + remote + (" --delete "@ + current + "\n"@));
}

proof fn lemma_note_parts(
    start: Seq<char>,
    words: Seq<char>,
    first: Seq<char>,
    second: Seq<char>,
    remote: Seq<char>,
    name: Seq<char>,
    push: Seq<char>,
    feed: Seq<char>,
    command: Seq<char>,
    rest: Seq<char>,
)
    requires
        words == first + second,
        push == feed + command,
    ensures
        start + words + remote + " "@ + name + push + remote + rest == (start + first) + (second
            + remote + " "@ + name + feed) + (command + remote + rest),
{
    assert(start + words + remote + " "@ + name + push + remote + rest =~= (start + first) + (second
        + remote + " "@ + name + feed) + (command + remote + rest));
}

/// A branch is refused only where there is none, or where it is the one that it would be
/// compared against, here or on the remote.
pub proof fn law_default_branch_is_not_renamed(current: Option<String>, onto: Seq<char>)
    ensures
        current is None ==> named_branch(current, onto) == Err::<String, Error>(
            Error::DetachedHead,
        ),
        current matches Some(name) ==> (name@ == onto && !text::starts_with(onto, "origin/"@)
            ==> named_branch(current, onto) == Err::<String, Error>(Error::OnDefaultBranch(name))
            && named_branch(current, "origin/"@ + onto) == Err::<String, Error>(
            Error::OnDefaultBranch(name),
        )),
        current matches Some(name) ==> (name@ != onto && !text::starts_with(onto, "origin/"@)
            ==> named_branch(current, onto) == Ok::<String, Error>(name) && named_branch(
            current,
            "origin/"@ + onto,
        ) == Ok::<String, Error>(name)),
{
    law_remote_does_not_matter(onto);
}

/// Suggestions are listed or the branch is renamed, never both; where only printing was
/// asked for nothing is renamed; and someone is asked exactly where there is a choice to
/// make and a person to make it.
pub proof fn law_suggestions_are_listed_or_used(count: nat, rename: bool, print: bool, human: bool)
    ensures
        ({
            let plan = plan_of(count, rename, print, human);
            &&& plan.list != plan.rename
            &&& print ==> plan.list
            &&& !rename ==> plan.list
            &&& rename && !print ==> plan.rename
            &&& plan.ask <==> plan.rename && human && count != 1
        }),
{
}

/// What is said of a list of suggestions is what each of them holds, one for one.
pub proof fn law_suggestions_say_what_they_hold(list: Seq<Suggestion>, i: int)
    ensures
        suggestions(list).len() == list.len(),
        0 <= i < list.len() ==> suggestions(list)[i] == (SuggestionView {
            name: list[i].name@,
            reason: list[i].reason@,
        }),
{
}

} // verus!
