//! The working tree and index state of a repository.
use vstd::prelude::*;
use crate::repo::{branch_label, branch_label_text};
use crate::text::{
    decimal, opt_text, push_char, push_decimal, push_repeated, repeated, same_text, texts,
};

verus! {

/// The status bits of one path, as git reports them.
pub struct StatusFlags {
    pub index_new: bool,
    pub index_modified: bool,
    pub index_deleted: bool,
    pub index_renamed: bool,
    pub index_typechange: bool,
    pub wt_new: bool,
    pub wt_modified: bool,
    pub wt_deleted: bool,
    pub wt_renamed: bool,
    pub wt_typechange: bool,
    pub conflicted: bool,
}

/// How a path differs between HEAD and the index, the first that applies of:
/// added, modified, deleted, renamed, typechange.
pub open spec fn index_status_text(s: StatusFlags) -> Option<Seq<char>> {
    if s.index_new {
        Some("added"@)
    } else if s.index_modified {
        Some("modified"@)
    } else if s.index_deleted {
        Some("deleted"@)
    } else if s.index_renamed {
        Some("renamed"@)
    } else if s.index_typechange {
        Some("typechange"@)
    } else {
        None
    }
}

/// How a path differs between the index and the working tree, the first that
/// applies of: untracked, modified, deleted, renamed, typechange, conflicted.
pub open spec fn workdir_status_text(s: StatusFlags) -> Option<Seq<char>> {
    if s.wt_new {
        Some("untracked"@)
    } else if s.wt_modified {
        Some("modified"@)
    } else if s.wt_deleted {
        Some("deleted"@)
    } else if s.wt_renamed {
        Some("renamed"@)
    } else if s.wt_typechange {
        Some("typechange"@)
    } else if s.conflicted {
        Some("conflicted"@)
    } else {
        None
    }
}

/// The staged change of a path, by name.
pub fn map_index_status(s: &StatusFlags) -> (name: Option<String>)
    ensures
        opt_text(name) == index_status_text(*s),
{
    if s.index_new {
        Some(String::from_str("added"))
    } else if s.index_modified {
        Some(String::from_str("modified"))
    } else if s.index_deleted {
        Some(String::from_str("deleted"))
    } else if s.index_renamed {
        Some(String::from_str("renamed"))
    } else if s.index_typechange {
        Some(String::from_str("typechange"))
    } else {
        None
    }
}

/// The unstaged change of a path, by name.
pub fn map_workdir_status(s: &StatusFlags) -> (name: Option<String>)
    ensures
        opt_text(name) == workdir_status_text(*s),
{
    if s.wt_new {
        Some(String::from_str("untracked"))
    } else if s.wt_modified {
        Some(String::from_str("modified"))
    } else if s.wt_deleted {
        Some(String::from_str("deleted"))
    } else if s.wt_renamed {
        Some(String::from_str("renamed"))
    } else if s.wt_typechange {
        Some(String::from_str("typechange"))
    } else if s.conflicted {
        Some(String::from_str("conflicted"))
    } else {
        None
    }
}

/// One path as the status walk reports it.
pub struct RawStatusEntry {
    /// The path, when it is valid UTF-8.
    pub path: Option<String>,
    /// The path before a rename between HEAD and the index.
    pub old_path: Option<String>,
    pub flags: StatusFlags,
}

/// One path in the status report.
pub struct StatusEntry {
    pub path: String,
    pub old_path: Option<String>,
    pub index_status: Option<String>,
    pub workdir_status: Option<String>,
}

/// The upstream of the current branch and how far the two have diverged.
pub struct Tracking {
    pub upstream: String,
    pub ahead: usize,
    pub behind: usize,
}

/// The status report of a repository.
pub struct StatusOutput {
    pub repo: String,
    pub branch: Option<String>,
    pub upstream: Option<String>,
    pub ahead: Option<usize>,
    pub behind: Option<usize>,
    pub clean: bool,
    pub staged: usize,
    pub unstaged: usize,
    pub untracked: usize,
    pub entries: Vec<StatusEntry>,
}

/// The report line for one path reported by the status walk.
pub open spec fn entry_matches(e: StatusEntry, r: RawStatusEntry) -> bool {
    &&& e.path@ == (match r.path {
        Some(p) => p@,
        None => Seq::<char>::empty(),
    })
    &&& opt_text(e.old_path) == opt_text(r.old_path)
    &&& opt_text(e.index_status) == index_status_text(r.flags)
    &&& opt_text(e.workdir_status) == workdir_status_text(r.flags)
}

/// The number of paths with a staged change.
pub open spec fn staged_count(raw: Seq<RawStatusEntry>) -> nat
    decreases raw.len(),
{
    if raw.len() == 0 {
        0
    } else {
        staged_count(raw.drop_last()) + (if index_status_text(raw.last().flags) is Some {
            1nat
        } else {
            0nat
        })
    }
}

/// The number of untracked paths.
pub open spec fn untracked_count(raw: Seq<RawStatusEntry>) -> nat
    decreases raw.len(),
{
    if raw.len() == 0 {
        0
    } else {
        untracked_count(raw.drop_last()) + (if workdir_status_text(raw.last().flags) == Some(
            "untracked"@,
        ) {
            1nat
        } else {
            0nat
        })
    }
}

/// The number of tracked paths with an unstaged change.
pub open spec fn unstaged_count(raw: Seq<RawStatusEntry>) -> nat
    decreases raw.len(),
{
    if raw.len() == 0 {
        0
    } else {
        unstaged_count(raw.drop_last()) + (match workdir_status_text(raw.last().flags) {
            Some(t) => if t != "untracked"@ { 1nat } else { 0nat },
            None => 0nat,
        })
    }
}

/// Every counted change belongs to a listed path: a report counts at most one staged
/// and one unstaged or untracked change for each path, and nothing for no paths.
pub proof fn lemma_status_counts_bounded(raw: Seq<RawStatusEntry>)
    ensures
        staged_count(raw) <= raw.len(),
        unstaged_count(raw) + untracked_count(raw) <= raw.len(),
        raw.len() == 0 ==> staged_count(raw) == 0 && unstaged_count(raw) == 0 && untracked_count(
            raw,
        ) == 0,
    decreases raw.len(),
{
    if raw.len() > 0 {
        lemma_status_counts_bounded(raw.drop_last());
    }
}

/// Some index flag of `f` is set: the path has a staged change.
pub open spec fn changed_in_index(f: StatusFlags) -> bool {
    f.index_new || f.index_modified || f.index_deleted || f.index_renamed || f.index_typechange
}

/// Some working-tree flag of `f`, or the conflict flag, is set.
pub open spec fn changed_in_worktree(f: StatusFlags) -> bool {
    f.wt_new || f.wt_modified || f.wt_deleted || f.wt_renamed || f.wt_typechange || f.conflicted
}

/// Each index flag names its own change: a path whose only index flag is one of
/// new, modified, deleted, renamed, typechange is added, modified, deleted,
/// renamed or typechange; a path with no index flag has no staged change, and
/// one with some index flag has one.
pub proof fn lemma_index_status_names(s: StatusFlags)
    ensures
        index_status_text(s) is Some <==> changed_in_index(s),
        s.index_new && !s.index_modified && !s.index_deleted && !s.index_renamed
            && !s.index_typechange ==> index_status_text(s) == Some("added"@),
        s.index_modified && !s.index_new && !s.index_deleted && !s.index_renamed
            && !s.index_typechange ==> index_status_text(s) == Some("modified"@),
        s.index_deleted && !s.index_new && !s.index_modified && !s.index_renamed
            && !s.index_typechange ==> index_status_text(s) == Some("deleted"@),
        s.index_renamed && !s.index_new && !s.index_modified && !s.index_deleted
            && !s.index_typechange ==> index_status_text(s) == Some("renamed"@),
        s.index_typechange && !s.index_new && !s.index_modified && !s.index_deleted
            && !s.index_renamed ==> index_status_text(s) == Some("typechange"@),
{
}

/// Each working-tree flag names its own change: a path whose only such flag is one
/// of new, modified, deleted, renamed, typechange, conflicted is untracked,
/// modified, deleted, renamed, typechange or conflicted; a path with none of them
/// has no unstaged change, and one with some of them has one.
pub proof fn lemma_workdir_status_names(s: StatusFlags)
    ensures
        workdir_status_text(s) is Some <==> changed_in_worktree(s),
        workdir_status_text(s) == Some("untracked"@) <==> s.wt_new,
        s.wt_modified && !s.wt_new && !s.wt_deleted && !s.wt_renamed && !s.wt_typechange
            && !s.conflicted ==> workdir_status_text(s) == Some("modified"@),
        s.wt_deleted && !s.wt_new && !s.wt_modified && !s.wt_renamed && !s.wt_typechange
            && !s.conflicted ==> workdir_status_text(s) == Some("deleted"@),
        s.wt_renamed && !s.wt_new && !s.wt_modified && !s.wt_deleted && !s.wt_typechange
            && !s.conflicted ==> workdir_status_text(s) == Some("renamed"@),
        s.wt_typechange && !s.wt_new && !s.wt_modified && !s.wt_deleted && !s.wt_renamed
            && !s.conflicted ==> workdir_status_text(s) == Some("typechange"@),
        s.conflicted && !s.wt_new && !s.wt_modified && !s.wt_deleted && !s.wt_renamed
            && !s.wt_typechange ==> workdir_status_text(s) == Some("conflicted"@),
{
    reveal_strlit("untracked");
    reveal_strlit("modified");
    reveal_strlit("deleted");
    reveal_strlit("renamed");
    reveal_strlit("typechange");
    reveal_strlit("conflicted");
    assert("untracked"@.len() == 9);
    assert("modified"@.len() == 8);
    assert("deleted"@.len() == 7);
    assert("renamed"@.len() == 7);
    assert("typechange"@.len() == 10);
    assert("conflicted"@.len() == 10);
}

/// The counts of a status report: the staged paths are those with an index flag,
/// the untracked ones those that are new in the working tree, and every other path
/// with a working-tree flag or a conflict is unstaged, whatever its change; so
/// unstaged and untracked together are the paths with a working-tree change.
pub proof fn lemma_status_counts(raw: Seq<RawStatusEntry>)
    ensures
        staged_count(raw) == raw.filter(|r: RawStatusEntry| changed_in_index(r.flags)).len(),
        untracked_count(raw) == raw.filter(|r: RawStatusEntry| r.flags.wt_new).len(),
        unstaged_count(raw) == raw.filter(
            |r: RawStatusEntry| !r.flags.wt_new && changed_in_worktree(r.flags),
        ).len(),
        unstaged_count(raw) + untracked_count(raw) == raw.filter(
            |r: RawStatusEntry| changed_in_worktree(r.flags),
        ).len(),
    decreases raw.len(),
{
    let p_staged = |r: RawStatusEntry| changed_in_index(r.flags);
    let p_untracked = |r: RawStatusEntry| r.flags.wt_new;
    let p_unstaged = |r: RawStatusEntry| !r.flags.wt_new && changed_in_worktree(r.flags);
    let p_changed = |r: RawStatusEntry| changed_in_worktree(r.flags);
    if raw.len() == 0 {
        reveal(Seq::filter);
    } else {
        let init = raw.drop_last();
        let last = raw.last();
        lemma_status_counts(init);
        assert(raw == init.push(last));
        init.lemma_filter_push(last, p_staged);
        init.lemma_filter_push(last, p_untracked);
        init.lemma_filter_push(last, p_unstaged);
        init.lemma_filter_push(last, p_changed);
        lemma_index_status_names(last.flags);
        lemma_workdir_status_names(last.flags);
    }
}

fn copy_text(s: &Option<String>) -> (c: Option<String>)
    ensures
        opt_text(c) == opt_text(*s),
{
    match s {
        Some(t) => Some(t.clone()),
        None => None,
    }
}

/// The upstream of the current branch, when there is a current branch and it has one.
pub open spec fn branch_tracking(branch: Option<String>, tracking: Option<Tracking>) -> Option<Tracking> {
    if branch is Some {
        tracking
    } else {
        None
    }
}

/// Builds the status report from the paths that the status walk reported, in its
/// order, and the upstream of the current branch: a detached HEAD has none.
pub fn status_output(
    repo: String,
    branch: Option<String>,
    tracking: Option<Tracking>,
    raw: &Vec<RawStatusEntry>,
) -> (out: StatusOutput)
    ensures
        out.repo == repo,
        out.branch == branch,
        opt_text(out.upstream) == (match branch_tracking(branch, tracking) {
            Some(t) => Some(t.upstream@),
            None => None,
        }),
        out.ahead == (match branch_tracking(branch, tracking) {
            Some(t) => Some(t.ahead),
            None => None,
        }),
        out.behind == (match branch_tracking(branch, tracking) {
            Some(t) => Some(t.behind),
            None => None,
        }),
        out.upstream is Some == out.ahead is Some,
        out.ahead is Some == out.behind is Some,
        out.upstream is Some ==> out.branch is Some,
        out.entries.len() == raw.len(),
        forall|i: int| 0 <= i < raw.len() ==> entry_matches(#[trigger] out.entries@[i], raw@[i]),
        out.clean == (raw.len() == 0),
        out.staged == staged_count(raw@),
        out.unstaged == unstaged_count(raw@),
        out.untracked == untracked_count(raw@),
{
    let tracking = if branch.is_some() {
        tracking
    } else {
        None
    };
    let (upstream, ahead, behind) = match tracking {
        Some(t) => (Some(t.upstream), Some(t.ahead), Some(t.behind)),
        None => (None, None, None),
    };
    let mut entries: Vec<StatusEntry> = Vec::new();
    let mut staged: usize = 0;
    let mut unstaged: usize = 0;
    let mut untracked: usize = 0;
    let mut i: usize = 0;
    while i < raw.len()
        invariant
            i <= raw.len(),
            entries.len() == i,
            forall|k: int| 0 <= k < i ==> entry_matches(#[trigger] entries@[k], raw@[k]),
            staged == staged_count(raw@.take(i as int)),
            unstaged == unstaged_count(raw@.take(i as int)),
            untracked == untracked_count(raw@.take(i as int)),
            staged <= i && unstaged + untracked <= i,
        decreases raw.len() - i,
    {
        let r = &raw[i];
        let path = match &r.path {
            Some(p) => p.clone(),
            None => String::new(),
        };
        let index_status = map_index_status(&r.flags);
        let workdir_status = map_workdir_status(&r.flags);
        proof {
            assert(raw@.take(i + 1).drop_last() =~= raw@.take(i as int));
        }
        if index_status.is_some() {
            staged = staged + 1;
        }
        match &workdir_status {
            Some(ws) => {
                if same_text(ws.as_str(), "untracked") {
                    untracked = untracked + 1;
                } else {
                    unstaged = unstaged + 1;
                }
            },
            None => {},
        }
        entries.push(
            StatusEntry { path, old_path: copy_text(&r.old_path), index_status, workdir_status },
        );
        i = i + 1;
    }
    proof {
        assert(raw@.take(raw.len() as int) =~= raw@);
    }
    let clean = entries.len() == 0;
    StatusOutput {
        repo,
        branch,
        upstream,
        ahead,
        behind,
        clean,
        staged,
        unstaged,
        untracked,
        entries,
    }
}

/// The one-letter code of a change name: A, M, D, R, T, ? or U, and a space for
/// any other name.
pub open spec fn status_letter(s: Seq<char>) -> char {
    if s == "added"@ {
        'A'
    } else if s == "modified"@ {
        'M'
    } else if s == "deleted"@ {
        'D'
    } else if s == "renamed"@ {
        'R'
    } else if s == "typechange"@ {
        'T'
    } else if s == "untracked"@ {
        '?'
    } else if s == "conflicted"@ {
        'U'
    } else {
        ' '
    }
}

/// The one-letter code of a change name.
pub fn status_char(s: &str) -> (c: char)
    ensures
        c == status_letter(s@),
{
    if same_text(s, "added") {
        'A'
    } else if same_text(s, "modified") {
        'M'
    } else if same_text(s, "deleted") {
        'D'
    } else if same_text(s, "renamed") {
        'R'
    } else if same_text(s, "typechange") {
        'T'
    } else if same_text(s, "untracked") {
        '?'
    } else if same_text(s, "conflicted") {
        'U'
    } else {
        ' '
    }
}

/// The upstream part of the status table's first line.
pub open spec fn upstream_label(o: StatusOutput) -> Seq<char> {
    match (o.upstream, o.ahead, o.behind) {
        (Some(u), Some(a), Some(b)) => " \u{2192} "@ + u@ + " (+"@ + decimal(a as nat) + " -"@
            + decimal(b as nat) + ")"@,
        (Some(u), _, _) => " \u{2192} "@ + u@,
        _ => Seq::<char>::empty(),
    }
}

/// The table row of one path: its two change letters, the path, and where it was
/// renamed from.
pub open spec fn status_row(e: StatusEntry) -> Seq<char> {
    let idx = match e.index_status {
        Some(s) => status_letter(s@),
        None => ' ',
    };
    let wt = match e.workdir_status {
        Some(s) => status_letter(s@),
        None => ' ',
    };
    let rename = match e.old_path {
        Some(op) => " (from "@ + op@ + ")"@,
        None => Seq::<char>::empty(),
    };
    seq![' ', idx, wt, ' '] + e.path@ + rename
}

/// The lines of the status table.
pub open spec fn status_table_lines(o: StatusOutput) -> Seq<Seq<char>> {
    let first = "branch: "@ + branch_label(o.branch) + upstream_label(o);
    if o.clean {
        seq![first, "working tree clean"@]
    } else {
        seq![
            first,
            "staged: "@ + decimal(o.staged as nat) + "  unstaged: "@ + decimal(o.unstaged as nat)
                + "  untracked: "@ + decimal(o.untracked as nat),
            repeated('-', 70),
        ] + Seq::new(o.entries.len() as nat, |i: int| status_row(o.entries@[i]))
    }
}

fn status_row_text(e: &StatusEntry) -> (t: String)
    ensures
        t@ == status_row(*e),
{
    let idx = match &e.index_status {
        Some(s) => status_char(s.as_str()),
        None => ' ',
    };
    let wt = match &e.workdir_status {
        Some(s) => status_char(s.as_str()),
        None => ' ',
    };
    let mut t = String::new();
    push_char(&mut t, ' ');
    push_char(&mut t, idx);
    push_char(&mut t, wt);
    push_char(&mut t, ' ');
    t.append(e.path.as_str());
    match &e.old_path {
        Some(op) => {
            t.append(" (from ");
            t.append(op.as_str());
            t.append(")");
        },
        None => {},
    }
    proof {
        assert(t@ =~= status_row(*e));
    }
    t
}

/// The status table, line by line.
pub fn status_table(o: &StatusOutput) -> (lines: Vec<String>)
    ensures
        texts(lines@) == status_table_lines(*o),
{
    let mut first = String::from_str("branch: ");
    first.append(branch_label_text(&o.branch).as_str());
    match (&o.upstream, o.ahead, o.behind) {
        (Some(u), Some(a), Some(b)) => {
            first.append(" \u{2192} ");
            first.append(u.as_str());
            first.append(" (+");
            push_decimal(&mut first, a as u64);
            first.append(" -");
            push_decimal(&mut first, b as u64);
            first.append(")");
        },
        (Some(u), _, _) => {
            first.append(" \u{2192} ");
            first.append(u.as_str());
        },
        _ => {},
    }
    proof {
        assert(first@ =~= "branch: "@ + branch_label(o.branch) + upstream_label(*o));
    }
    let mut lines: Vec<String> = Vec::new();
    lines.push(first);
    if o.clean {
        lines.push(String::from_str("working tree clean"));
        proof {
            assert(texts(lines@) =~= status_table_lines(*o));
        }
        return lines;
    }
    let mut counts = String::from_str("staged: ");
    push_decimal(&mut counts, o.staged as u64);
    counts.append("  unstaged: ");
    push_decimal(&mut counts, o.unstaged as u64);
    counts.append("  untracked: ");
    push_decimal(&mut counts, o.untracked as u64);
    lines.push(counts);
    let mut rule = String::new();
    push_repeated(&mut rule, '-', 70);
    lines.push(rule);
    let ghost head = texts(lines@);
    let mut i: usize = 0;
    while i < o.entries.len()
        invariant
            i <= o.entries.len(),
            lines.len() == 3 + i,
            texts(lines@) == head + Seq::new(i as nat, |k: int| status_row(o.entries@[k])),
        decreases o.entries.len() - i,
    {
        let row = status_row_text(&o.entries[i]);
        let ghost prev = lines@;
        lines.push(row);
        i = i + 1;
        proof {
            assert(lines@ == prev.push(row));
            assert(texts(lines@) =~= texts(prev).push(row@));
            assert(texts(lines@) =~= head + Seq::new(i as nat, |k: int| status_row(o.entries@[k])));
        }
    }
    proof {
        assert(texts(lines@) =~= status_table_lines(*o));
    }
    lines
}

} // verus!
