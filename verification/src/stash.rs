//! Stash listing: what is said of each stash entry, and the table.
use vstd::prelude::*;
use crate::calendar::{civil_date, format_epoch, iso_date, timestamp_day};
use crate::object_id::ObjectId;
use crate::text::{rule, 
    can_truncate, decimal, decimal_text, padded_right, push_decimal, push_padded_right, repeated,
    texts, truncate, truncated,
};

verus! {

/// A stash entry as the stash walk reads it.
pub struct StashRecord {
    pub index: usize,
    pub message: String,
    pub id: ObjectId,
    /// The commit time of the stash commit, when the commit could be read.
    pub time: Option<i64>,
}

/// A stash entry in the listing.
pub struct StashEntry {
    pub index: usize,
    pub message: String,
    /// The abbreviated id of the stash commit.
    pub commit: String,
    /// Seconds since 1970-01-01; 0 when the commit could not be read.
    pub time: i64,
}

/// The stash listing report.
pub struct StashOutput {
    pub repo: String,
    pub count: usize,
    pub entries: Vec<StashEntry>,
}

/// `e` is what the listing says of the stash entry `r`.
pub open spec fn describes_stash(e: StashEntry, r: StashRecord) -> bool {
    &&& e.index == r.index
    &&& e.message@ == r.message@
    &&& e.commit@ == r.id@.take(7)
    &&& e.commit@.len() == 7
    &&& e.time == (match r.time {
        Some(t) => t,
        None => 0,
    })
}

/// Builds the stash listing from the entries that the stash walk read, in its order.
pub fn stash_output(repo: String, records: &Vec<StashRecord>) -> (out: StashOutput)
    ensures
        out.repo == repo,
        out.entries.len() == records.len(),
        out.count == out.entries.len(),
        forall|i: int| 0 <= i < records.len() ==> describes_stash(#[trigger] out.entries@[i], records@[i]),
{
    let mut entries: Vec<StashEntry> = Vec::new();
    let mut i: usize = 0;
    while i < records.len()
        invariant
            i <= records.len(),
            entries.len() == i,
            forall|k: int| 0 <= k < i ==> describes_stash(#[trigger] entries@[k], records@[k]),
        decreases records.len() - i,
    {
        let r = &records[i];
        let time = match r.time {
            Some(t) => t,
            None => 0,
        };
        entries.push(StashEntry { index: r.index, message: r.message.clone(), commit: r.id.short(), time });
        i = i + 1;
    }
    let count = entries.len();
    StashOutput { repo, count, entries }
}

/// The table row of a stash entry.
pub open spec fn stash_row(e: StashEntry) -> Seq<char> {
    padded_right(decimal(e.index as nat), 6) + seq![' '] + padded_right(e.commit@, 12) + seq![' ']
        + padded_right(iso_date(civil_date(timestamp_day(e.time))), 12) + seq![' '] + truncated(
        e.message@,
        45,
    )
}

/// The table can shorten the message of every entry of `o`.
pub open spec fn stash_table_fits(o: StashOutput) -> bool {
    forall|i: int| 0 <= i < o.entries.len() ==> can_truncate((#[trigger] o.entries@[i]).message@, 45)
}

/// The lines of the stash table.
pub open spec fn stash_table_lines(o: StashOutput) -> Seq<Seq<char>> {
    let first = "repo: "@ + o.repo@ + "  stash entries: "@ + decimal(o.count as nat);
    if o.entries.len() == 0 {
        seq![first, "(no stash entries)"@]
    } else {
        seq![
            first,
            repeated('-', 80),
            padded_right("INDEX"@, 6) + seq![' '] + padded_right("COMMIT"@, 12) + seq![' ']
                + padded_right("DATE"@, 12) + " MESSAGE"@,
            repeated('-', 80),
        ] + Seq::new(o.entries.len() as nat, |i: int| stash_row(o.entries@[i]))
    }
}

fn stash_row_text(e: &StashEntry) -> (t: String)
    requires
        can_truncate(e.message@, 45),
    ensures
        t@ == stash_row(*e),
{
    let mut t = String::new();
    push_padded_right(&mut t, decimal_text(e.index as u64).as_str(), 6);
    t.append(" ");
    push_padded_right(&mut t, e.commit.as_str(), 12);
    t.append(" ");
    push_padded_right(&mut t, format_epoch(e.time).as_str(), 12);
    t.append(" ");
    t.append(truncate(e.message.as_str(), 45).as_str());
    proof {
        reveal_strlit(" ");
        assert(t@ =~= stash_row(*e));
    }
    t
}

/// The stash table, line by line.
pub fn stash_table(o: &StashOutput) -> (lines: Vec<String>)
    requires
        stash_table_fits(*o),
    ensures
        texts(lines@) == stash_table_lines(*o),
{
    let mut first = String::from_str("repo: ");
    first.append(o.repo.as_str());
    first.append("  stash entries: ");
    push_decimal(&mut first, o.count as u64);
    let mut lines: Vec<String> = Vec::new();
    if o.entries.len() == 0 {
        lines.push(first);
        lines.push(String::from_str("(no stash entries)"));
        proof {
            assert(texts(lines@) =~= stash_table_lines(*o));
        }
        return lines;
    }
    let mut header = String::new();
    push_padded_right(&mut header, "INDEX", 6);
    header.append(" ");
    push_padded_right(&mut header, "COMMIT", 12);
    header.append(" ");
    push_padded_right(&mut header, "DATE", 12);
    header.append(" MESSAGE");
    let spec_lines = Ghost(stash_table_lines(*o));
    proof {
        reveal_strlit(" ");
        assert(first@ =~= spec_lines@[0]);
        assert(header@ =~= spec_lines@[2]);
    }
    let r1 = rule(80);
    let r2 = rule(80);
    let ghost head = seq![first@, r1@, header@, r2@];
    lines.push(first);
    lines.push(r1);
    lines.push(header);
    lines.push(r2);
    proof {
        assert(texts(lines@) =~= head);
    }
    let mut i: usize = 0;
    while i < o.entries.len()
        invariant
            i <= o.entries.len(),
            stash_table_fits(*o),
            texts(lines@) == head + Seq::new(i as nat, |k: int| stash_row(o.entries@[k])),
        decreases o.entries.len() - i,
    {
        let row = stash_row_text(&o.entries[i]);
        let ghost prev = lines@;
        lines.push(row);
        i = i + 1;
        proof {
            assert(texts(lines@) =~= texts(prev).push(row@));
            assert(texts(lines@) =~= head + Seq::new(i as nat, |k: int| stash_row(o.entries@[k])));
        }
    }
    proof {
        assert(texts(lines@) =~= stash_table_lines(*o));
    }
    lines
}

} // verus!
