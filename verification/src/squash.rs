//! Grouping the commits of a branch.

use crate::error::Error;
use crate::outside;
use crate::text;
use vstd::prelude::*;

verus! {

/// One group of commits that belong together, with the message the squashed
/// commit would carry.
#[derive(Debug)]
pub struct Group {
    pub commits: Vec<String>,
    pub subject: String,
    pub body: String,
}

/// What a [`Group`] says.
pub struct GroupView {
    pub commits: Seq<Seq<char>>,
    pub subject: Seq<char>,
    pub body: Seq<char>,
}

impl View for Group {
    type V = GroupView;

    open spec fn view(&self) -> GroupView {
        GroupView {
            commits: text::texts(self.commits@),
            subject: self.subject@,
            body: self.body@,
        }
    }
}

/// What the groups of a list say.
pub open spec fn groups(list: Seq<Group>) -> Seq<GroupView> {
    Seq::new(list.len(), |i: int| list[i]@)
}

/// Refuses a branch that has nothing to squash.
pub fn require_commits(commits: &Vec<String>) -> (r: Result<(), Error>)
    ensures
        r == if commits@.len() < 2 {
            Err(Error::NothingToSquash(commits@.len() as usize))
        } else {
            Ok(())
        },
{
    if commits.len() < 2 {
        Err(Error::NothingToSquash(commits.len()))
    } else {
        Ok(())
    }
}

/// The instructions for grouping commits.
pub open spec fn instructions_text() -> Seq<char> {
    "You group a branch's commits into the smallest number of commits that still tell the story of the change.\n\nEach group lists the commits it absorbs, in order, and carries one message: an imperative subject, then a body. Commits that only fix an earlier commit on this branch belong in that commit's group. Do not merge two groups that change unrelated things just to reach a smaller number.\n\nMatch the style of the commit subjects you are shown."@
}

/// The instructions for grouping commits.
pub fn instructions() -> (r: String)
    ensures
        r@ == instructions_text(),
{
    "You group a branch's commits into the smallest number of commits that still tell the story of the change.\n\nEach group lists the commits it absorbs, in order, and carries one message: an imperative subject, then a body. Commits that only fix an earlier commit on this branch belong in that commit's group. Do not merge two groups that change unrelated things just to reach a smaller number.\n\nMatch the style of the commit subjects you are shown.".to_owned()
}

/// What the model is told of the branch.
pub open spec fn prompt_text(onto: Seq<char>, commits: Seq<Seq<char>>, stat: Seq<char>) -> Seq<char> {
    "# Commits on this branch, against "@ + onto + ", oldest last\n\n"@ + text::join(
        commits,
        "\n"@,
    ) + "\n\n"@ + "# What the branch changes overall\n\n"@ + stat
}

/// What the model is told of the branch.
pub fn prompt(onto: &str, commits: &Vec<String>, stat: &str) -> (r: String)
    ensures
        r@ == prompt_text(onto@, text::texts(commits@), stat@),
{
    let mut prompt = "# Commits on this branch, against ".to_owned();
    prompt.append(onto);
    prompt.append(", oldest last\n\n");
    prompt.append(text::joined(commits.as_slice(), "\n").as_str());
    prompt.append("\n\n");
    prompt.append("# What the branch changes overall\n\n");
    prompt.append(stat);
    prompt
}

/// A text whose lines but the first are indented.
pub open spec fn hung(s: Seq<char>) -> Seq<char>
    decreases s.len(),
{
    if s.len() == 0 {
        Seq::empty()
    } else if s.last() == '\n' {
        hung(s.drop_last()) + "\n   "@
    } else {
        hung(s.drop_last()).push(s.last())
    }
}

fn hang(s: &str) -> (r: String)
    ensures
        r@ == hung(s@),
{
    let v = text::chars_of(s);
    let mut out = String::new();
    assert(out@ =~= hung(v@.take(0)));
    for i in 0..v.len()
        invariant
            out@ == hung(v@.take(i as int)),
    {
        assert(v@.take(i + 1).drop_last() =~= v@.take(i as int));
        if v[i] == '\n' {
            out.append("\n   ");
        } else {
            out.push(v[i]);
        }
    }
    assert(v@.take(v@.len() as int) =~= v@);
    out
}

/// The commits of a group, one line each.
pub open spec fn commit_lines(commits: Seq<Seq<char>>) -> Seq<char>
    decreases commits.len(),
{
    if commits.len() == 0 {
        Seq::empty()
    } else {
        commit_lines(commits.drop_last()) + "     "@ + commits.last() + "\n"@
    }
}

/// One group, under its number.
pub open spec fn group_text(group: GroupView, number: nat) -> Seq<char> {
    text::decimal(number) + ". "@ + group.subject + "\n"@ + commit_lines(group.commits) + (
    if text::blank(group.body) {
        Seq::empty()
    } else {
        "\n   "@ + hung(text::trim(group.body)) + "\n"@
    }) + "\n"@
}

/// The groups, numbered from one.
pub open spec fn group_texts(list: Seq<GroupView>) -> Seq<char>
    decreases list.len(),
{
    if list.len() == 0 {
        Seq::empty()
    } else {
        group_texts(list.drop_last()) + group_text(list.last(), list.len())
    }
}

/// The command that would do what is proposed.
pub open spec fn apply_text(list: Seq<GroupView>, base: Seq<char>) -> Seq<char> {
    if list.len() == 1 {
        "To apply:\n  git reset --soft "@ + base + "\n  git commit -m "@ + outside::debug_quoted(
            list[0].subject,
        ) + "\n"@
    } else {
        "To apply:\n  git rebase -i "@ + base + "\n"@
    }
}

/// What is proposed for so many commits.
pub open spec fn proposal_text(list: Seq<GroupView>, base: Seq<char>, commits: nat) -> Seq<char> {
    text::decimal(commits) + " commits would become "@ + text::decimal(list.len()) + ".\n\n"@
        + group_texts(list) + apply_text(list, base)
}

fn push_group(out: &mut String, group: &Group, number: usize)
    ensures
        final(out)@ == old(out)@ + group_text(group@, number as nat),
{
    let ghost start = out@;
    out.append(text::number(number as u128).as_str());
    out.append(". ");
    out.append(group.subject.as_str());
    out.append("\n");
    let ghost head = out@;
    let ghost all = text::texts(group.commits@);
    assert(head + commit_lines(all.take(0)) =~= head);
    for i in 0..group.commits.len()
        invariant
            all == text::texts(group.commits@),
            out@ == head + commit_lines(all.take(i as int)),
    {
        assert(all.take(i + 1).drop_last() =~= all.take(i as int));
        assert(all.take(i + 1).last() == group.commits@[i as int]@);
        out.append("     ");
        out.append(group.commits[i].as_str());
        out.append("\n");
        assert(out@ =~= head + commit_lines(all.take(i + 1)));
    }
    assert(all.take(all.len() as int) =~= all);
    if !text::is_blank(group.body.as_str()) {
        let body = text::trimmed(group.body.as_str());
        out.append("\n   ");
        out.append(hang(body.as_str()).as_str());
        out.append("\n");
    }
    out.append("\n");
    assert(out@ =~= start + group_text(group@, number as nat));
}

/// Read only, by design. This says what would be done and the command that would do
/// it, and history is never rewritten.
pub fn render(list: &Vec<Group>, base: &str, commits: usize) -> (r: String)
    ensures
        r@ == proposal_text(groups(list@), base@, commits as nat),
{
    let mut out = text::number(commits as u128);
    out.append(" commits would become ");
    out.append(text::number(list.len() as u128).as_str());
    out.append(".\n\n");
    let ghost head = out@;
    let ghost all = groups(list@);
    assert(head + group_texts(all.take(0)) =~= head);
    for i in 0..list.len()
        invariant
            all == groups(list@),
            out@ == head + group_texts(all.take(i as int)),
    {
        assert(all.take(i + 1).drop_last() =~= all.take(i as int));
        assert(all.take(i + 1).last() == list@[i as int]@);
        push_group(&mut out, &list[i], i + 1);
        assert(out@ =~= head + group_texts(all.take(i + 1)));
    }
    assert(all.take(all.len() as int) =~= all);
    let ghost upper = out@;
    if list.len() == 1 {
        assert(all[0] == list@[0]@);
        out.append("To apply:\n  git reset --soft ");
        out.append(base);
        out.append("\n  git commit -m ");
        out.append(outside::quote(list[0].subject.as_str()).as_str());
        out.append("\n");
    } else {
        out.append("To apply:\n  git rebase -i ");
        out.append(base);
        out.append("\n");
    }
    assert(out@ =~= upper + apply_text(all, base@));
    out
}

// ---------------------------------------------------------------------------
// Laws
// ---------------------------------------------------------------------------

/// The commits of a group are listed one by one: those of two lists, one after the
/// other, are listed as the first and then the second are, and one commit is listed
/// as a line of its own.
pub proof fn law_commits_are_listed_one_by_one(
    a: Seq<Seq<char>>,
    b: Seq<Seq<char>>,
    commit: Seq<char>,
)
    ensures
        commit_lines(a + b) == commit_lines(a) + commit_lines(b),
        commit_lines(seq![commit]) == "     "@ + commit + "\n"@,
    decreases b.len(),
{
    reveal_with_fuel(commit_lines, 2);
    assert(seq![commit].drop_last() =~= Seq::empty());
    assert(commit_lines(seq![commit]) =~= "     "@ + commit + "\n"@);
    if b.len() == 0 {
        assert(a + b =~= a);
        assert(commit_lines(a) + commit_lines(b) =~= commit_lines(a));
    } else {
        law_commits_are_listed_one_by_one(a, b.drop_last(), commit);
        assert((a + b).drop_last() =~= a + b.drop_last());
        assert(commit_lines(a + b) =~= commit_lines(a) + commit_lines(b));
    }
}

proof fn lemma_commit_lines(commits: Seq<Seq<char>>)
    ensures
        commit_lines(commits) == text::concat(
            Seq::new(commits.len(), |i: int| "     "@ + commits[i] + "\n"@),
        ),
    decreases commits.len(),
{
    let lines = Seq::new(commits.len(), |i: int| "     "@ + commits[i] + "\n"@);
    if commits.len() > 0 {
        let rest = commits.drop_last();
        lemma_commit_lines(rest);
        assert(lines.drop_last() =~= Seq::new(rest.len(), |i: int| "     "@ + rest[i] + "\n"@));
        assert(commit_lines(commits) =~= commit_lines(rest) + ("     "@ + commits.last() + "\n"@));
    }
}

/// The body is hung below its first line, and nothing of it is lost: each line break
/// is followed by three spaces, and every other character is kept as it is.
pub proof fn law_bodies_are_hung(a: Seq<char>, b: Seq<char>, c: char)
    ensures
        hung(a + b) == hung(a) + hung(b),
        hung(seq![c]) == if c == '\n' {
            "\n   "@
        } else {
            seq![c]
        },
    decreases b.len(),
{
    reveal_with_fuel(hung, 2);
    assert(seq![c].drop_last() =~= Seq::empty());
    assert(hung(seq![c]) =~= if c == '\n' {
        "\n   "@
    } else {
        seq![c]
    });
    if b.len() == 0 {
        assert(a + b =~= a);
        assert(hung(a) + hung(b) =~= hung(a));
    } else {
        law_bodies_are_hung(a, b.drop_last(), c);
        assert((a + b).drop_last() =~= a + b.drop_last());
        assert(hung(a + b) =~= hung(a) + hung(b));
    }
}

proof fn lemma_group_within(list: Seq<GroupView>, g: int)
    requires
        0 <= g < list.len(),
    ensures
        text::has_part(group_texts(list), group_text(list[g], (g + 1) as nat)),
    decreases list.len(),
{
    let rest = list.drop_last();
    if g == list.len() - 1 {
        text::lemma_part_at_end(group_texts(rest), group_text(list[g], (g + 1) as nat));
    } else {
        lemma_group_within(rest, g);
        text::lemma_part_of_more(
            group_texts(rest),
            group_text(list[g], (g + 1) as nat),
            group_text(list.last(), list.len()),
        );
    }
}

/// Every group is proposed, under its number: its subject, then a line for each of its
/// commits, in order and nothing between them, then its body, if it has one.
pub proof fn law_every_commit_is_proposed(
    list: Seq<GroupView>,
    base: Seq<char>,
    commits: nat,
    g: int,
    c: int,
)
    requires
        0 <= g < list.len(),
        0 <= c < list[g].commits.len(),
    ensures
        text::has_part(
            proposal_text(list, base, commits),
            text::decimal((g + 1) as nat) + ". "@ + list[g].subject + "\n"@ + text::concat(
                Seq::new(
                    list[g].commits.len(),
                    |i: int| "     "@ + list[g].commits[i] + "\n"@,
                ),
            ) + "\n"@ + if text::trim(list[g].body).len() == 0 {
                Seq::empty()
            } else {
                "   "@ + hung(text::trim(list[g].body)) + "\n\n"@
            },
        ),
        text::has_part(
            proposal_text(list, base, commits),
            "     "@ + list[g].commits[c] + "\n"@,
        ),
{
    let group = list[g];
    let number = text::decimal((g + 1) as nat);
    let lines = Seq::new(group.commits.len(), |i: int| "     "@ + group.commits[i] + "\n"@);
    lemma_commit_lines(group.commits);
    lemma_group_within(list, g);
    reveal_strlit("\n");
    reveal_strlit("\n\n");
    reveal_strlit("\n   ");
    reveal_strlit("   ");
    let block = number + ". "@ + group.subject + "\n"@ + text::concat(lines) + "\n"@
        + if text::trim(group.body).len() == 0 {
        Seq::empty()
    } else {
        "   "@ + hung(text::trim(group.body)) + "\n\n"@
    };
    assert(group_text(group, (g + 1) as nat) =~= block);
    let head = text::decimal(commits) + " commits would become "@ + text::decimal(list.len())
        + ".\n\n"@;
    let tail = apply_text(list, base);
    text::lemma_part_within(head, group_texts(list), block, tail);
    assert(head + group_texts(list) + tail =~= proposal_text(list, base, commits));
    let upper = group.commits.take(c);
    let one = seq![group.commits[c]];
    let lower = group.commits.skip(c + 1);
    assert(group.commits =~= upper + one + lower);
    law_commits_are_listed_one_by_one(upper + one, lower, group.commits[c]);
    law_commits_are_listed_one_by_one(upper, one, group.commits[c]);
    let line = "     "@ + group.commits[c] + "\n"@;
    text::lemma_part_between(commit_lines(upper), line, commit_lines(lower));
    let before = number + ". "@ + group.subject + "\n"@;
    let after = "\n"@ + if text::trim(group.body).len() == 0 {
        Seq::empty()
    } else {
        "   "@ + hung(text::trim(group.body)) + "\n\n"@
    };
    text::lemma_part_within(before, commit_lines(group.commits), line, after);
    assert(before + commit_lines(group.commits) + after =~= group_text(group, (g + 1) as nat));
    let whole = group_texts(list);
    let at = choose|at: int|
        0 <= at <= whole.len() && text::starts_with(
            #[trigger] whole.skip(at),
            group_text(group, (g + 1) as nat),
        );
    let len = group_text(group, (g + 1) as nat).len() as int;
    assert(whole =~= whole.take(at) + group_text(group, (g + 1) as nat) + whole.skip(at + len)) by {
        assert(whole.skip(at).take(len) == group_text(group, (g + 1) as nat));
        assert forall|i: int| at <= i < at + len implies whole[i] == #[trigger] group_text(
            group,
            (g + 1) as nat,
        )[i - at] by {
            assert(whole.skip(at).take(len)[i - at] == whole[i]);
        }
    }
    text::lemma_part_within(
        whole.take(at),
        group_text(group, (g + 1) as nat),
        line,
        whole.skip(at + len),
    );
    text::lemma_part_within(head, whole, line, tail);
}

/// A proposal begins with what would become of how many commits, and ends with the
/// command that would do it. One more group adds nothing but itself.
pub proof fn law_proposal_is_made_of_its_groups(
    list: Seq<GroupView>,
    group: GroupView,
    base: Seq<char>,
    commits: nat,
)
    ensures
        text::starts_with(
            proposal_text(list, base, commits),
            text::decimal(commits) + " commits would become "@ + text::decimal(list.len())
                + ".\n\n"@,
        ),
        list.len() == 1 ==> text::has_end(
            proposal_text(list, base, commits),
            "To apply:\n  git reset --soft "@ + base + "\n  git commit -m "@
                + outside::debug_quoted(list[0].subject) + "\n"@,
        ),
        list.len() != 1 ==> text::has_end(
            proposal_text(list, base, commits),
            "To apply:\n  git rebase -i "@ + base + "\n"@,
        ),
        group_texts(list.push(group)) == group_texts(list) + text::decimal(list.len() + 1) + ". "@
            + group.subject + "\n"@ + commit_lines(group.commits) + (if text::trim(
            group.body,
        ).len() == 0 {
            Seq::empty()
        } else {
            "\n   "@ + hung(text::trim(group.body)) + "\n"@
        }) + "\n"@,
{
    let whole = proposal_text(list, base, commits);
    let head = text::decimal(commits) + " commits would become "@ + text::decimal(list.len())
        + ".\n\n"@;
    assert(whole.take(head.len() as int) =~= head);
    let tail = apply_text(list, base);
    assert(whole.skip(whole.len() - tail.len()) =~= tail);
    assert(list.push(group).drop_last() =~= list);
    let end = (if text::trim(group.body).len() == 0 {
        Seq::empty()
    } else {
        "\n   "@ + hung(text::trim(group.body)) + "\n"@
    });
    assert(group_texts(list.push(group)) =~= group_texts(list) + text::decimal(list.len() + 1)
        + ". "@ + group.subject + "\n"@ + commit_lines(group.commits) + end + "\n"@);
}

/// What the model is told of the branch holds what it is compared against, every
/// commit, and what the branch changes, which comes last.
pub proof fn law_prompt_tells_everything(
    onto: Seq<char>,
    commits: Seq<Seq<char>>,
    stat: Seq<char>,
    i: int,
)
    ensures
        text::has_part(prompt_text(onto, commits, stat), onto),
        0 <= i < commits.len() ==> text::has_part(prompt_text(onto, commits, stat), commits[i]),
        text::has_end(
            prompt_text(onto, commits, stat),
            "\n\n# What the branch changes overall\n\n"@ + stat,
        ),
        prompt_text(onto, commits, stat) == "# Commits on this branch, against "@ + onto
            + ", oldest last\n\n"@ + text::join(commits, "\n"@)
            + "\n\n# What the branch changes overall\n\n"@ + stat,
{
    reveal_strlit("\n\n");
    reveal_strlit("# What the branch changes overall\n\n");
    reveal_strlit("\n\n# What the branch changes overall\n\n");
    let first = "# Commits on this branch, against "@;
    let middle = ", oldest last\n\n"@;
    let last = "\n\n# What the branch changes overall\n\n"@;
    let list = text::join(commits, "\n"@);
    let whole = prompt_text(onto, commits, stat);
    assert(last =~= "\n\n"@ + "# What the branch changes overall\n\n"@);
    assert(whole =~= first + onto + (middle + list + last + stat));
    text::lemma_part_between(first, onto, middle + list + last + stat);
    if 0 <= i < commits.len() {
        text::lemma_join_holds(commits, "\n"@, i);
        text::lemma_part_within(first + onto + middle, list, commits[i], last + stat);
        assert(whole =~= first + onto + middle + list + (last + stat));
    }
    assert(whole.skip(whole.len() - (last + stat).len()) =~= last + stat);
    assert(whole =~= first + onto + middle + list + last + stat);
}

/// What is said of a list of groups is what each of them holds, one for one.
pub proof fn law_groups_say_what_they_hold(list: Seq<Group>, i: int)
    ensures
        groups(list).len() == list.len(),
        0 <= i < list.len() ==> groups(list)[i] == (GroupView {
            subject: list[i].subject@,
            body: list[i].body@,
            commits: text::texts(list[i].commits@),
        }),
{
}

} // verus!
