//! Tag listing: what is said of each tag, the newest first, and the table.
use vstd::prelude::*;
use vstd::utf8::{decode_utf8, valid_utf8};
use crate::calendar::{civil_date, format_epoch, iso_date, timestamp_day};
use crate::object_id::ObjectId;
use crate::text::{rule, 
    can_truncate, chars_of, decimal, opt_text, padded_right, push_decimal, push_padded_right,
    repeated, texts, trim_chars, trim_leading_copies, lemma_trim_leading_text_done, lemma_trimmed_is_trimmed, trim_leading_text,
    trimmed, truncate,
    truncated, utf8_text, vec_to_string,
};

verus! {

/// Who made an annotated tag, and when.
pub struct Tagger {
    pub name: Option<String>,
    /// Seconds since 1970-01-01.
    pub time: i64,
}

/// What the tag walk found a tag to point at.
pub enum TagTarget {
    /// A tag object: its target, the target's commit time (`None` when the
    /// target is a tree, a blob or another tag object), its message when it is
    /// text, and its tagger.
    Annotated {
        target: ObjectId,
        target_time: Option<i64>,
        message: Option<String>,
        tagger: Option<Tagger>,
    },
    /// A commit named directly, and its commit time.
    Lightweight { commit: ObjectId, time: i64 },
    /// Neither a tag object nor a commit.
    Other,
}

/// A tag as the tag walk reads it.
pub struct TagRecord {
    /// The full reference name, as bytes.
    pub name_bytes: Vec<u8>,
    pub target: TagTarget,
}

/// A tag in the listing.
pub struct TagEntry {
    pub name: String,
    /// The abbreviated id of the target.
    pub commit: String,
    pub commit_time: i64,
    pub message: Option<String>,
    pub tagger_name: Option<String>,
    pub tagger_time: Option<i64>,
    pub is_annotated: bool,
}

/// The tag listing report.
pub struct TagsOutput {
    pub repo: String,
    pub count: usize,
    pub tags: Vec<TagEntry>,
}

/// The short name of a tag: its reference name as text (empty when it is not
/// UTF-8), without leading `refs/tags/`.
pub open spec fn tag_name(bytes: Seq<u8>) -> Seq<char> {
    trim_leading_text(
        if valid_utf8(bytes) {
            decode_utf8(bytes)
        } else {
            Seq::<char>::empty()
        },
        "refs/tags/"@,
    )
}

/// The message of an annotated tag: trimmed, and `None` when nothing is left.
pub open spec fn tag_message(message: Option<String>) -> Option<Seq<char>> {
    match message {
        Some(m) => if trimmed(m@).len() == 0 {
            None
        } else {
            Some(trimmed(m@))
        },
        None => None,
    }
}

/// A tag's short name never starts with `refs/tags/`, and a tag's message is
/// non-empty and has no white space at either end.
pub proof fn lemma_tag_texts(bytes: Seq<u8>, message: Option<String>)
    ensures
        !("refs/tags/"@.len() <= tag_name(bytes).len() && tag_name(bytes).take(
            "refs/tags/"@.len() as int,
        ) == "refs/tags/"@),
        tag_message(message) matches Some(t) ==> t.len() > 0 && trimmed(t) == t,
{
    reveal_strlit("refs/tags/");
    let full = if valid_utf8(bytes) {
        decode_utf8(bytes)
    } else {
        Seq::<char>::empty()
    };
    lemma_trim_leading_text_done(full, "refs/tags/"@);
    if let Some(m) = message {
        lemma_trimmed_is_trimmed(m@);
    }
}

/// A tag is listed when it leads to a commit: directly, or through a tag
/// object whose target is a commit. Other tags are skipped.
pub open spec fn is_listed_tag(r: TagRecord) -> bool {
    match r.target {
        TagTarget::Annotated { target_time, .. } => target_time is Some,
        TagTarget::Lightweight { .. } => true,
        TagTarget::Other => false,
    }
}

/// `e` is what the listing says of the listed tag `r`.
pub open spec fn describes_tag(e: TagEntry, r: TagRecord) -> bool {
    &&& e.name@ == tag_name(r.name_bytes@)
    &&& match r.target {
        TagTarget::Annotated { target, target_time, message, tagger } => {
            &&& e.commit@ == target@.take(7)
            &&& e.commit@.len() == 7
            &&& target_time == Some(e.commit_time)
            &&& opt_text(e.message) == tag_message(message)
            &&& opt_text(e.tagger_name) == (match tagger {
                Some(t) => opt_text(t.name),
                None => None,
            })
            &&& e.tagger_time == (match tagger {
                Some(t) => Some(t.time),
                None => None,
            })
            &&& e.is_annotated
        },
        TagTarget::Lightweight { commit, time } => {
            &&& e.commit@ == commit@.take(7)
            &&& e.commit@.len() == 7
            &&& e.commit_time == time
            &&& e.message is None
            &&& e.tagger_name is None
            &&& e.tagger_time is None
            &&& !e.is_annotated
        },
        TagTarget::Other => false,
    }
}

/// The listed tags of `rs`, in order.
pub open spec fn listed_tags(rs: Seq<TagRecord>) -> Seq<TagRecord>
    decreases rs.len(),
{
    if rs.len() == 0 {
        seq![]
    } else if is_listed_tag(rs.last()) {
        listed_tags(rs.drop_last()).push(rs.last())
    } else {
        listed_tags(rs.drop_last())
    }
}

/// `x` placed into `sorted` after every tag that is not older than it.
pub open spec fn insert_tag(sorted: Seq<TagEntry>, x: TagEntry) -> Seq<TagEntry>
    decreases sorted.len(),
{
    if sorted.len() == 0 {
        seq![x]
    } else if x.commit_time > sorted.last().commit_time {
        insert_tag(sorted.drop_last(), x).push(sorted.last())
    } else {
        sorted.push(x)
    }
}

/// The tags of `s`, most recent commit first; tags with equal times keep their order.
pub open spec fn sorted_tags(s: Seq<TagEntry>) -> Seq<TagEntry>
    decreases s.len(),
{
    if s.len() == 0 {
        s
    } else {
        insert_tag(sorted_tags(s.drop_last()), s.last())
    }
}

/// The first `limit` tags of `s`, or all of them when `limit` is 0.
pub open spec fn limited(s: Seq<TagEntry>, limit: usize) -> Seq<TagEntry> {
    if limit > 0 && s.len() > limit {
        s.take(limit as int)
    } else {
        s
    }
}

/// Newer commits come first in `s`.
pub open spec fn newest_first(s: Seq<TagEntry>) -> bool {
    forall|i: int, j: int|
        0 <= i < j < s.len() ==> (#[trigger] s[i]).commit_time >= (#[trigger] s[j]).commit_time
}

/// `built` lists the listed tags of `records`, one entry for each, in order.
pub open spec fn lists_tags(built: Seq<TagEntry>, records: Seq<TagRecord>) -> bool {
    let listed = listed_tags(records);
    &&& built.len() == listed.len()
    &&& forall|k: int| 0 <= k < built.len() ==> describes_tag(#[trigger] built[k], listed[k])
}

proof fn lemma_insert_tag_at(s: Seq<TagEntry>, x: TagEntry, p: int)
    requires
        0 <= p <= s.len(),
        forall|k: int| p <= k < s.len() ==> x.commit_time > (#[trigger] s[k]).commit_time,
        p == 0 || x.commit_time <= s[p - 1].commit_time,
    ensures
        insert_tag(s, x) == s.insert(p, x),
    decreases s.len(),
{
    if s.len() == 0 {
        assert(s.insert(p, x) =~= seq![x]);
    } else if p == s.len() {
        assert(s.insert(p, x) =~= s.push(x));
    } else {
        lemma_insert_tag_at(s.drop_last(), x, p);
        assert(s.insert(p, x) =~= s.drop_last().insert(p, x).push(s.last()));
    }
}

proof fn lemma_insert_tag_keeps_order(s: Seq<TagEntry>, x: TagEntry)
    requires
        newest_first(s),
    ensures
        newest_first(insert_tag(s, x)),
        insert_tag(s, x).to_multiset() == s.to_multiset().insert(x),
        insert_tag(s, x).len() == s.len() + 1,
    decreases s.len(),
{
    broadcast use vstd::seq_lib::group_to_multiset_ensures;

    if s.len() == 0 {
        assert(seq![x] =~= Seq::<TagEntry>::empty().push(x));
    } else if x.commit_time > s.last().commit_time {
        let t = s.drop_last();
        assert forall|i: int, j: int| 0 <= i < j < t.len() implies (#[trigger] t[i]).commit_time
            >= (#[trigger] t[j]).commit_time by {
            assert(t[i] == s[i] && t[j] == s[j]);
        }
        lemma_insert_tag_keeps_order(t, x);
        let r = insert_tag(t, x);
        let l = s.last();
        assert forall|i: int| 0 <= i < r.len() implies (#[trigger] r[i]).commit_time >= l.commit_time by {
            assert(r.to_multiset().count(r[i]) > 0);
            if r[i] != x {
                assert(t.to_multiset().count(r[i]) > 0);
                assert(t.contains(r[i]));
                let k = choose|k: int| 0 <= k < t.len() && t[k] == r[i];
                assert(s[k] == t[k]);
                assert(s[k].commit_time >= s[s.len() - 1].commit_time);
            }
        }
        assert(s =~= t.push(l));
    }
}

/// Sorting puts the newest commits first and keeps the same tags.
pub proof fn lemma_sorted_tags(s: Seq<TagEntry>)
    ensures
        newest_first(sorted_tags(s)),
        sorted_tags(s).to_multiset() == s.to_multiset(),
        sorted_tags(s).len() == s.len(),
    decreases s.len(),
{
    broadcast use vstd::seq_lib::group_to_multiset_ensures;

    if s.len() > 0 {
        lemma_sorted_tags(s.drop_last());
        lemma_insert_tag_keeps_order(sorted_tags(s.drop_last()), s.last());
        assert(s =~= s.drop_last().push(s.last()));
    }
}

/// A tag listing holds at most `limit` tags when `limit` is set, newest first.
pub proof fn lemma_tags_output(built: Seq<TagEntry>, limit: usize, out: Seq<TagEntry>)
    requires
        out == limited(sorted_tags(built), limit),
    ensures
        limit > 0 ==> out.len() <= limit,
        newest_first(out),
        out.len() <= built.len(),
{
    lemma_sorted_tags(built);
}

fn insert_tag_sorted(v: &mut Vec<TagEntry>, x: TagEntry)
    ensures
        final(v)@ == insert_tag(old(v)@, x),
{
    let mut p = v.len();
    while p > 0 && x.commit_time > v[p - 1].commit_time
        invariant
            p <= v.len(),
            forall|k: int| p <= k < v.len() ==> x.commit_time > (#[trigger] v@[k]).commit_time,
        decreases p,
    {
        p = p - 1;
    }
    proof {
        lemma_insert_tag_at(v@, x, p as int);
    }
    v.insert(p, x);
}

/// The short name of a tag, from its full reference name.
pub fn tag_name_text(bytes: &Vec<u8>) -> (name: String)
    ensures
        name@ == tag_name(bytes@),
{
    let full = match utf8_text(bytes.as_slice()) {
        Some(s) => s.to_owned(),
        None => String::new(),
    };
    trim_leading_copies(full.as_str(), "refs/tags/")
}

fn tag_message_text(message: &Option<String>) -> (m: Option<String>)
    ensures
        opt_text(m) == tag_message(*message),
{
    match message {
        Some(text) => {
            let kept = trim_chars(&chars_of(text.as_str()));
            if kept.len() == 0 {
                None
            } else {
                Some(vec_to_string(&kept))
            }
        },
        None => None,
    }
}

/// The listing of one tag, when it is listed.
pub fn tag_entry(r: &TagRecord) -> (e: Option<TagEntry>)
    ensures
        e is Some <==> is_listed_tag(*r),
        e matches Some(t) ==> describes_tag(t, *r),
{
    match &r.target {
        TagTarget::Annotated { target, target_time, message, tagger } => {
            let commit_time = match target_time {
                Some(t) => *t,
                None => {
                    return None;
                },
            };
            let (tagger_name, tagger_time) = match tagger {
                Some(t) => (
                    match &t.name {
                        Some(n) => Some(n.clone()),
                        None => None,
                    },
                    Some(t.time),
                ),
                None => (None, None),
            };
            Some(
                TagEntry {
                    name: tag_name_text(&r.name_bytes),
                    commit: target.short(),
                    commit_time,
                    message: tag_message_text(message),
                    tagger_name,
                    tagger_time,
                    is_annotated: true,
                },
            )
        },
        TagTarget::Lightweight { commit, time } => Some(
            TagEntry {
                name: tag_name_text(&r.name_bytes),
                commit: commit.short(),
                commit_time: *time,
                message: None,
                tagger_name: None,
                tagger_time: None,
                is_annotated: false,
            },
        ),
        TagTarget::Other => None,
    }
}

/// Builds the tag listing from the tags that the walk read, in its order: the
/// newest commits first, and at most `limit` of them when `limit` is not 0.
pub fn tags_output(repo: String, limit: usize, records: &Vec<TagRecord>) -> (out: TagsOutput)
    ensures
        out.repo == repo,
        out.count == out.tags.len(),
        exists|built: Seq<TagEntry>|
            lists_tags(built, records@) && out.tags@ == limited(sorted_tags(built), limit),
{
    let mut tags: Vec<TagEntry> = Vec::new();
    let ghost mut built: Seq<TagEntry> = seq![];
    let mut i: usize = 0;
    while i < records.len()
        invariant
            i <= records.len(),
            lists_tags(built, records@.take(i as int)),
            tags@ == sorted_tags(built),
        decreases records.len() - i,
    {
        let e = tag_entry(&records[i]);
        proof {
            assert(records@.take(i + 1).drop_last() =~= records@.take(i as int));
            assert(records@.take(i + 1).last() == records@[i as int]);
        }
        match e {
            Some(t) => {
                proof {
                    assert(sorted_tags(built.push(t)) == insert_tag(sorted_tags(built), t)) by {
                        assert(built.push(t).drop_last() =~= built);
                    }
                    built = built.push(t);
                }
                insert_tag_sorted(&mut tags, t);
            },
            None => {},
        }
        i = i + 1;
    }
    proof {
        assert(records@.take(records.len() as int) =~= records@);
    }
    if limit > 0 {
        tags.truncate(limit);
    }
    let count = tags.len();
    TagsOutput { repo, count, tags }
}

/// The message of a tag as the table shows it, or `-`.
pub open spec fn message_label(m: Option<String>) -> Seq<char> {
    match m {
        Some(t) => t@,
        None => "-"@,
    }
}

/// The table row of a tag.
pub open spec fn tag_row(t: TagEntry) -> Seq<char> {
    padded_right(truncated(t.name@, 24), 25) + seq![' '] + padded_right(t.commit@, 9) + seq![' ']
        + padded_right(iso_date(civil_date(timestamp_day(t.commit_time))), 12) + seq![' ']
        + padded_right(
        if t.is_annotated {
            "ann"@
        } else {
            "lite"@
        },
        5,
    ) + seq![' '] + truncated(message_label(t.message), 30)
}

/// A tag's row ends, after a space, with its message shortened to 30 bytes when it
/// has one, and with `-` shortened the same way when it has none, whatever the
/// kind of tag.
pub proof fn lemma_tag_row_ends_with_message(t: TagEntry)
    ensures
        ({
            let tail = truncated(
                match t.message {
                    Some(m) => m@,
                    None => "-"@,
                },
                30,
            );
            let row = tag_row(t);
            &&& tail.len() < row.len()
            &&& row.skip(row.len() - tail.len()) == tail
            &&& row[row.len() - tail.len() - 1] == ' '
        }),
{
    let tail = truncated(message_label(t.message), 30);
    let row = tag_row(t);
    let head = padded_right(truncated(t.name@, 24), 25) + seq![' '] + padded_right(t.commit@, 9)
        + seq![' '] + padded_right(iso_date(civil_date(timestamp_day(t.commit_time))), 12) + seq![
        ' ',
    ] + padded_right(
        if t.is_annotated {
            "ann"@
        } else {
            "lite"@
        },
        5,
    );
    assert(row == head + seq![' '] + tail);
    assert(row.skip(row.len() - tail.len()) =~= tail);
    assert(row[row.len() - tail.len() - 1] == (head + seq![' '])[head.len() as int]);
}

/// The table can shorten the name and message of every tag of `o`.
pub open spec fn tags_table_fits(o: TagsOutput) -> bool {
    forall|i: int|
        0 <= i < o.tags.len() ==> can_truncate((#[trigger] o.tags@[i]).name@, 24) && can_truncate(
            message_label(o.tags@[i].message),
            30,
        )
}

/// The lines of the tag table.
pub open spec fn tags_table_lines(o: TagsOutput) -> Seq<Seq<char>> {
    let first = "repo: "@ + o.repo@ + "  tags: "@ + decimal(o.count as nat);
    if o.tags.len() == 0 {
        seq![first, "(no tags)"@]
    } else {
        seq![
            first,
            repeated('-', 80),
            padded_right("TAG"@, 25) + seq![' '] + padded_right("COMMIT"@, 9) + seq![' ']
                + padded_right("DATE"@, 12) + seq![' '] + padded_right("TYPE"@, 5) + " MESSAGE"@,
            repeated('-', 80),
        ] + Seq::new(o.tags.len() as nat, |i: int| tag_row(o.tags@[i]))
    }
}

fn tag_row_text(t: &TagEntry) -> (row: String)
    requires
        can_truncate(t.name@, 24),
        can_truncate(message_label(t.message), 30),
    ensures
        row@ == tag_row(*t),
{
    let mut row = String::new();
    push_padded_right(&mut row, truncate(t.name.as_str(), 24).as_str(), 25);
    row.append(" ");
    push_padded_right(&mut row, t.commit.as_str(), 9);
    row.append(" ");
    push_padded_right(&mut row, format_epoch(t.commit_time).as_str(), 12);
    row.append(" ");
    if t.is_annotated {
        push_padded_right(&mut row, "ann", 5);
    } else {
        push_padded_right(&mut row, "lite", 5);
    }
    row.append(" ");
    let msg = match &t.message {
        Some(m) => truncate(m.as_str(), 30),
        None => truncate("-", 30),
    };
    row.append(msg.as_str());
    proof {
        reveal_strlit(" ");
        assert(row@ =~= tag_row(*t));
    }
    row
}

/// The tag table, line by line.
pub fn tags_table(o: &TagsOutput) -> (lines: Vec<String>)
    requires
        tags_table_fits(*o),
    ensures
        texts(lines@) == tags_table_lines(*o),
{
    let mut first = String::from_str("repo: ");
    first.append(o.repo.as_str());
    first.append("  tags: ");
    push_decimal(&mut first, o.count as u64);
    let mut lines: Vec<String> = Vec::new();
    if o.tags.len() == 0 {
        lines.push(first);
        lines.push(String::from_str("(no tags)"));
        proof {
            assert(texts(lines@) =~= tags_table_lines(*o));
        }
        return lines;
    }
    let mut header = String::new();
    push_padded_right(&mut header, "TAG", 25);
    header.append(" ");
    push_padded_right(&mut header, "COMMIT", 9);
    header.append(" ");
    push_padded_right(&mut header, "DATE", 12);
    header.append(" ");
    push_padded_right(&mut header, "TYPE", 5);
    header.append(" MESSAGE");
    let spec_lines = Ghost(tags_table_lines(*o));
    proof {
        reveal_strlit(" ");
        assert(first@ =~= spec_lines@[0]);
        assert(header@ =~= spec_lines@[2]);
    }
    let r1 = rule(80);
    let r2 = rule(80);
    let ghost head = seq![first@, r1@, header@, r2@];
    lines.push(first);
    lines.push(r1);
    lines.push(header);
    lines.push(r2);
    proof {
        assert(texts(lines@) =~= head);
    }
    let mut i: usize = 0;
    while i < o.tags.len()
        invariant
            i <= o.tags.len(),
            tags_table_fits(*o),
            texts(lines@) == head + Seq::new(i as nat, |k: int| tag_row(o.tags@[k])),
        decreases o.tags.len() - i,
    {
        let row = tag_row_text(&o.tags[i]);
        let ghost prev = lines@;
        lines.push(row);
        i = i + 1;
        proof {
            assert(texts(lines@) =~= texts(prev).push(row@));
            assert(texts(lines@) =~= head + Seq::new(i as nat, |k: int| tag_row(o.tags@[k])));
        }
    }
    proof {
        assert(texts(lines@) =~= tags_table_lines(*o));
    }
    lines
}

} // verus!
