//! Commit history: which commits a log shows, what it says of each, and its table.
use vstd::prelude::*;
use crate::calendar::{civil_date, format_epoch, iso_date, timestamp_day};
use crate::object_id::ObjectId;
use crate::repo::{branch_label, branch_label_text};
use crate::text::{
    can_truncate, commit_body, contains, contains_text, decimal, lowercase, lowercase_of,
    message_body, opt_text, padded_right, push_decimal, push_padded_right,
    repeated, rule, texts, truncate, truncated,
};

verus! {

/// The text of an optional string, empty when there is none.
pub open spec fn text_or_empty(o: Option<String>) -> Seq<char> {
    match o {
        Some(s) => s@,
        None => Seq::<char>::empty(),
    }
}

/// The text of an optional string, empty when there is none.
pub fn string_or_empty(o: &Option<String>) -> (s: String)
    ensures
        s@ == text_or_empty(*o),
{
    match o {
        Some(t) => t.clone(),
        None => String::new(),
    }
}

/// A commit as the history walk reads it. Texts that are not valid UTF-8 are `None`.
pub struct CommitRecord {
    pub id: ObjectId,
    pub message: Option<String>,
    pub summary: Option<String>,
    pub author_name: Option<String>,
    pub author_email: Option<String>,
    /// Seconds since 1970-01-01.
    pub author_time: i64,
    pub committer_name: Option<String>,
    pub committer_email: Option<String>,
    /// Seconds since 1970-01-01.
    pub commit_time: i64,
    pub parents: Vec<ObjectId>,
}

/// A commit in the log.
pub struct CommitEntry {
    pub hash: String,
    pub short_hash: String,
    pub author_name: String,
    pub author_email: String,
    pub author_time: i64,
    pub committer_name: String,
    pub committer_email: String,
    pub commit_time: i64,
    pub summary: String,
    pub body: Option<String>,
    /// The abbreviated ids of the parents.
    pub parents: Vec<String>,
    pub is_merge: bool,
}

/// The commit history report.
pub struct LogOutput {
    pub repo: String,
    pub branch: Option<String>,
    pub count: usize,
    pub commits: Vec<CommitEntry>,
}

/// `e` is what the log says of the commit `r`.
pub open spec fn describes(e: CommitEntry, r: CommitRecord) -> bool {
    &&& e.hash@ == r.id@
    &&& e.hash@.len() == 40
    &&& e.short_hash@ == r.id@.take(7)
    &&& e.short_hash@.len() == 7
    &&& e.author_name@ == text_or_empty(r.author_name)
    &&& e.author_email@ == text_or_empty(r.author_email)
    &&& e.author_time == r.author_time
    &&& e.committer_name@ == text_or_empty(r.committer_name)
    &&& e.committer_email@ == text_or_empty(r.committer_email)
    &&& e.commit_time == r.commit_time
    &&& e.summary@ == text_or_empty(r.summary)
    &&& opt_text(e.body) == message_body(text_or_empty(r.message))
    &&& e.parents.len() == r.parents.len()
    &&& forall|i: int|
        0 <= i < r.parents.len() ==> #[trigger] e.parents@[i]@ == r.parents@[i]@.take(7)
            && e.parents@[i]@.len() == 7
    &&& e.is_merge == (r.parents.len() > 1)
}

/// Collects the commits of a history walk that a log shows, in walk order, up to
/// its limit.
pub struct LogCollector {
    limit: usize,
    no_merges: bool,
    grep: Option<String>,
    author: Option<String>,
    commits: Vec<CommitEntry>,
}

impl LogCollector {
    /// The most commits the log shows.
    pub closed spec fn limit(&self) -> usize {
        self.limit
    }

    /// Merge commits are left out.
    pub closed spec fn no_merges(&self) -> bool {
        self.no_merges
    }

    /// The lowercased text that a shown commit's lowercased message contains.
    pub closed spec fn grep_pattern(&self) -> Option<Seq<char>> {
        opt_text(self.grep)
    }

    /// The lowercased text that a shown commit's lowercased author name or email contains.
    pub closed spec fn author_pattern(&self) -> Option<Seq<char>> {
        opt_text(self.author)
    }

    /// The commits collected so far, in walk order.
    pub closed spec fn entries(&self) -> Seq<CommitEntry> {
        self.commits@
    }

    /// The collector holds no more than its limit, and no merge when merges are
    /// left out.
    #[verifier::type_invariant]
    spec fn well_formed(&self) -> bool {
        &&& self.commits.len() <= self.limit
        &&& self.no_merges ==> forall|i: int|
            0 <= i < self.commits.len() ==> !(#[trigger] self.commits@[i]).is_merge
    }

    /// A collector for a log of at most `limit` commits, filtered by author and
    /// message text, both matched without regard to case, and without merges when
    /// `no_merges` holds.
    pub fn new(limit: usize, author: Option<&str>, grep: Option<&str>, no_merges: bool) -> (c:
        LogCollector)
        ensures
            c.limit() == limit,
            c.no_merges() == no_merges,
            c.grep_pattern() == (match grep {
                Some(g) => Some(lowercase_of(g@)),
                None => None,
            }),
            c.author_pattern() == (match author {
                Some(a) => Some(lowercase_of(a@)),
                None => None,
            }),
            c.entries() == Seq::<CommitEntry>::empty(),
    {
        let grep_lower = match grep {
            Some(g) => Some(lowercase(g)),
            None => None,
        };
        let author_lower = match author {
            Some(a) => Some(lowercase(a)),
            None => None,
        };
        LogCollector { limit, no_merges, grep: grep_lower, author: author_lower, commits: Vec::new() }
    }

    /// Whether the log has room for another commit.
    pub fn wants_more(&self) -> (more: bool)
        ensures
            more == (self.entries().len() < self.limit()),
            self.entries().len() <= self.limit(),
    {
        proof {
            use_type_invariant(self);
        }
        self.commits.len() < self.limit
    }

    /// Looks at the next commit of the walk, and keeps it when the filters let it
    /// through.
    pub fn offer(&mut self, r: &CommitRecord)
        requires
            old(self).entries().len() < old(self).limit(),
        ensures
            final(self).entries().len() <= final(self).limit(),
            final(self).no_merges() ==> forall|i: int|
                0 <= i < final(self).entries().len() ==> !(#[trigger] final(self).entries()[i]).is_merge,
            final(self).limit() == old(self).limit(),
            final(self).no_merges() == old(self).no_merges(),
            final(self).grep_pattern() == old(self).grep_pattern(),
            final(self).author_pattern() == old(self).author_pattern(),
            shows(old(self), r) ==> {
                &&& final(self).entries().len() == old(self).entries().len() + 1
                &&& final(self).entries().drop_last() == old(self).entries()
                &&& describes(final(self).entries().last(), *r)
            },
            !shows(old(self), r) ==> final(self).entries() == old(self).entries(),
    {
        proof {
            use_type_invariant(&*self);
        }
        if self.no_merges && r.parents.len() > 1 {
            return;
        }
        let message = string_or_empty(&r.message);
        match &self.grep {
            Some(g) => {
                let lowered = lowercase(message.as_str());
                if !contains(lowered.as_str(), g.as_str()) {
                    return;
                }
            },
            None => {},
        }
        let author_name = string_or_empty(&r.author_name);
        let author_email = string_or_empty(&r.author_email);
        match &self.author {
            Some(a) => {
                let name_lower = lowercase(author_name.as_str());
                let email_lower = lowercase(author_email.as_str());
                if !contains(name_lower.as_str(), a.as_str()) && !contains(
                    email_lower.as_str(),
                    a.as_str(),
                ) {
                    return;
                }
            },
            None => {},
        }
        let mut parents: Vec<String> = Vec::new();
        let mut i: usize = 0;
        while i < r.parents.len()
            invariant
                i <= r.parents.len(),
                parents.len() == i,
                forall|k: int|
                    0 <= k < i ==> #[trigger] parents@[k]@ == r.parents@[k]@.take(7) && parents@[k]@.len()
                        == 7,
            decreases r.parents.len() - i,
        {
            parents.push(r.parents[i].short());
            i = i + 1;
        }
        let entry = CommitEntry {
            hash: r.id.hex(),
            short_hash: r.id.short(),
            author_name,
            author_email,
            author_time: r.author_time,
            committer_name: string_or_empty(&r.committer_name),
            committer_email: string_or_empty(&r.committer_email),
            commit_time: r.commit_time,
            summary: string_or_empty(&r.summary),
            body: commit_body(message.as_str()),
            parents,
            is_merge: r.parents.len() > 1,
        };
        let ghost before = self.commits@;
        let mut commits: Vec<CommitEntry> = Vec::new();
        std::mem::swap(&mut commits, &mut self.commits);
        commits.push(entry);
        proof {
            assert(commits@.drop_last() =~= before);
        }
        self.commits = commits;
    }

    /// The log report of the collected commits.
    pub fn finish(self, repo: String, branch: Option<String>) -> (out: LogOutput)
        ensures
            out.repo == repo,
            out.branch == branch,
            out.commits@ == self.entries(),
            out.count == out.commits.len(),
            out.count <= self.limit(),
            self.no_merges() ==> forall|i: int|
                0 <= i < out.commits.len() ==> !(#[trigger] out.commits@[i]).is_merge,
    {
        proof {
            use_type_invariant(&self);
        }
        let count = self.commits.len();
        LogOutput { repo, branch, count, commits: self.commits }
    }
}

/// The log shows the commit `r`: it passes the merge, message and author filters.
pub open spec fn shows(c: &LogCollector, r: &CommitRecord) -> bool {
    &&& !(c.no_merges() && r.parents.len() > 1)
    &&& match c.grep_pattern() {
        Some(g) => contains_text(lowercase_of(text_or_empty(r.message)), g),
        None => true,
    }
    &&& match c.author_pattern() {
        Some(a) => contains_text(lowercase_of(text_or_empty(r.author_name)), a)
            || contains_text(lowercase_of(text_or_empty(r.author_email)), a),
        None => true,
    }
}

/// A shown commit passes every filter that is set: its lowercased message contains
/// the message pattern, its lowercased author name or email contains the author
/// pattern, and it is no merge when merges are left out.
pub proof fn lemma_shown_commit_matches(c: LogCollector, r: CommitRecord)
    requires
        shows(&c, &r),
    ensures
        c.grep_pattern() matches Some(g) ==> contains_text(lowercase_of(text_or_empty(r.message)), g),
        c.author_pattern() matches Some(a) ==> contains_text(lowercase_of(text_or_empty(r.author_name)), a)
            || contains_text(lowercase_of(text_or_empty(r.author_email)), a),
        c.no_merges() ==> r.parents.len() <= 1,
{
}

/// A commit that passes every filter that is set is shown.
pub proof fn lemma_matching_commit_shown(c: LogCollector, r: CommitRecord)
    requires
        c.grep_pattern() matches Some(g) ==> contains_text(lowercase_of(text_or_empty(r.message)), g),
        c.author_pattern() matches Some(a) ==> contains_text(lowercase_of(text_or_empty(r.author_name)), a)
            || contains_text(lowercase_of(text_or_empty(r.author_email)), a),
        c.no_merges() ==> r.parents.len() <= 1,
    ensures
        shows(&c, &r),
{
}

/// Without an author pattern, whether a commit is shown does not depend on who made
/// it: two commits with the same message and the same number of parents are both
/// shown or both left out.
pub proof fn lemma_message_filter_ignores_author(c: LogCollector, r1: CommitRecord, r2: CommitRecord)
    requires
        c.author_pattern() is None,
        text_or_empty(r1.message) == text_or_empty(r2.message),
        r1.parents.len() == r2.parents.len(),
    ensures
        shows(&c, &r1) == shows(&c, &r2),
{
}

/// The table row of a commit: abbreviated id, author, date, a mark for merges, and
/// the summary.
pub open spec fn log_row(c: CommitEntry) -> Seq<char> {
    padded_right(c.short_hash@, 9) + seq![' '] + padded_right(truncated(c.author_name@, 20), 22)
        + seq![' '] + padded_right(iso_date(civil_date(timestamp_day(c.commit_time))), 12) + seq![
        ' ',
    ] + (if c.is_merge {
        "\u{2387} "@
    } else {
        "  "@
    }) + truncated(c.summary@, 55)
}

/// The table can shorten the author and summary of every commit of `o`.
pub open spec fn log_table_fits(o: LogOutput) -> bool {
    forall|i: int|
        0 <= i < o.commits.len() ==> can_truncate((#[trigger] o.commits@[i]).author_name@, 20)
            && can_truncate(o.commits@[i].summary@, 55)
}

/// The lines of the log table.
pub open spec fn log_table_lines(o: LogOutput) -> Seq<Seq<char>> {
    seq![
        "repo: "@ + o.repo@ + "  branch: "@ + branch_label(o.branch) + "  commits: "@ + decimal(
            o.count as nat,
        ),
        repeated('-', 100),
        padded_right("HASH"@, 9) + seq![' '] + padded_right("AUTHOR"@, 22) + seq![' ']
            + padded_right("DATE"@, 12) + " MESSAGE"@,
        repeated('-', 100),
    ] + Seq::new(o.commits.len() as nat, |i: int| log_row(o.commits@[i])) + seq![
        repeated('-', 100),
    ]
}

fn log_row_text(c: &CommitEntry) -> (t: String)
    requires
        can_truncate(c.author_name@, 20),
        can_truncate(c.summary@, 55),
    ensures
        t@ == log_row(*c),
{
    let mut t = String::new();
    push_padded_right(&mut t, c.short_hash.as_str(), 9);
    t.append(" ");
    let author = truncate(c.author_name.as_str(), 20);
    push_padded_right(&mut t, author.as_str(), 22);
    t.append(" ");
    let date = format_epoch(c.commit_time);
    push_padded_right(&mut t, date.as_str(), 12);
    t.append(" ");
    if c.is_merge {
        t.append("\u{2387} ");
    } else {
        t.append("  ");
    }
    let summary = truncate(c.summary.as_str(), 55);
    t.append(summary.as_str());
    proof {
        reveal_strlit(" ");
        assert(t@ =~= log_row(*c));
    }
    t
}

/// The log table, line by line.
pub fn log_table(o: &LogOutput) -> (lines: Vec<String>)
    requires
        log_table_fits(*o),
    ensures
        texts(lines@) == log_table_lines(*o),
{
    let mut first = String::from_str("repo: ");
    first.append(o.repo.as_str());
    first.append("  branch: ");
    first.append(branch_label_text(&o.branch).as_str());
    first.append("  commits: ");
    push_decimal(&mut first, o.count as u64);
    let mut header = String::new();
    push_padded_right(&mut header, "HASH", 9);
    header.append(" ");
    push_padded_right(&mut header, "AUTHOR", 22);
    header.append(" ");
    push_padded_right(&mut header, "DATE", 12);
    header.append(" MESSAGE");
    proof {
        reveal_strlit(" ");
    }
    let spec_lines = Ghost(log_table_lines(*o));
    proof {
        assert(first@ =~= spec_lines@[0]);
        assert(header@ =~= spec_lines@[2]);
    }
    let mut lines: Vec<String> = Vec::new();
    let r1 = rule(100);
    let r2 = rule(100);
    let ghost head = seq![first@, r1@, header@, r2@];
    lines.push(first);
    lines.push(r1);
    lines.push(header);
    lines.push(r2);
    proof {
        assert(texts(lines@) =~= head);
    }
    let mut i: usize = 0;
    while i < o.commits.len()
        invariant
            i <= o.commits.len(),
            log_table_fits(*o),
            texts(lines@) == head + Seq::new(i as nat, |k: int| log_row(o.commits@[k])),
        decreases o.commits.len() - i,
    {
        let row = log_row_text(&o.commits[i]);
        let ghost prev = lines@;
        lines.push(row);
        i = i + 1;
        proof {
            assert(texts(lines@) =~= texts(prev).push(row@));
            assert(texts(lines@) =~= head + Seq::new(i as nat, |k: int| log_row(o.commits@[k])));
        }
    }
    let ghost prev = lines@;
    let last = rule(100);
    lines.push(last);
    proof {
        assert(texts(lines@) =~= texts(prev).push(last@));
        assert(texts(lines@) =~= log_table_lines(*o));
    }
    lines
}

} // verus!
