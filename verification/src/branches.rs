//! Branch listing: which branches are shown, what is said of each, their order,
//! and the table.
use vstd::prelude::*;
use crate::log::{string_or_empty, text_or_empty};
use crate::object_id::ObjectId;
use crate::status::Tracking;
use crate::text::{rule, 
    can_truncate, decimal, decimal_text, lemma_text_before_order, opt_text, padded_left,
    padded_right, push_decimal, push_padded_left, push_padded_right, repeated, text_before,
    text_less, texts, truncate, truncated, lemma_truncated_fits,
};

verus! {

/// Which branches a listing covers.
pub enum BranchScope {
    All,
    Remote,
    Local,
}

/// The branches to list: all of them when `all` is set, else the remote-tracking
/// ones when `remote` is set, else the local ones.
pub fn branch_scope(remote: bool, all: bool) -> (scope: BranchScope)
    ensures
        all ==> scope is All,
        !all && remote ==> scope is Remote,
        !all && !remote ==> scope is Local,
{
    if all {
        BranchScope::All
    } else if remote {
        BranchScope::Remote
    } else {
        BranchScope::Local
    }
}

/// The commit at the tip of a branch.
pub struct TipCommit {
    pub id: ObjectId,
    /// Commit time, in seconds since 1970-01-01.
    pub time: i64,
    pub summary: Option<String>,
}

/// A branch as the branch walk reads it.
pub struct BranchRecord {
    /// The branch's short name, when it is valid UTF-8.
    pub name: Option<String>,
    pub is_remote: bool,
    /// The tip, when the branch peels to a commit.
    pub tip: Option<TipCommit>,
    /// The upstream and divergence of a local branch that has one.
    pub tracking: Option<Tracking>,
}

/// A branch in the listing.
pub struct BranchEntry {
    pub name: String,
    pub current: bool,
    pub remote: bool,
    pub upstream: Option<String>,
    pub ahead: Option<usize>,
    pub behind: Option<usize>,
    /// The abbreviated id of the tip.
    pub commit: String,
    pub commit_time: i64,
    pub summary: String,
}

/// The branch listing report.
pub struct BranchesOutput {
    pub repo: String,
    pub current: Option<String>,
    pub count: usize,
    pub branches: Vec<BranchEntry>,
}

/// A branch is listed when its name is text and its tip is a commit.
pub open spec fn is_listed(r: BranchRecord) -> bool {
    r.name is Some && r.tip is Some
}

/// The listed branches of `rs`, in order.
pub open spec fn listed_records(rs: Seq<BranchRecord>) -> Seq<BranchRecord>
    decreases rs.len(),
{
    if rs.len() == 0 {
        seq![]
    } else if is_listed(rs.last()) {
        listed_records(rs.drop_last()).push(rs.last())
    } else {
        listed_records(rs.drop_last())
    }
}

/// `e` is what the listing says of the listed branch `r`, given the current branch.
pub open spec fn describes_branch(e: BranchEntry, current: Option<Seq<char>>, r: BranchRecord) -> bool {
    let name = r.name->0@;
    let tip = r.tip->0;
    &&& e.name@ == name
    &&& e.remote == r.is_remote
    &&& e.current == (!r.is_remote && current == Some(name))
    &&& opt_text(e.upstream) == (match r.tracking {
        Some(t) => if r.is_remote { None } else { Some(t.upstream@) },
        None => None,
    })
    &&& e.ahead == (match r.tracking {
        Some(t) => if r.is_remote { None } else { Some(t.ahead) },
        None => None,
    })
    &&& e.behind == (match r.tracking {
        Some(t) => if r.is_remote { None } else { Some(t.behind) },
        None => None,
    })
    &&& e.commit@ == tip.id@.take(7)
    &&& e.commit@.len() == 7
    &&& e.commit_time == tip.time
    &&& e.summary@ == text_or_empty(tip.summary)
}

/// `a` is listed before `b`: the current branch first, then by name.
pub open spec fn branch_before(a: BranchEntry, b: BranchEntry) -> bool {
    (a.current && !b.current) || (a.current == b.current && text_before(a.name@, b.name@))
}

/// `x` placed into `sorted` after every entry that it does not come before.
pub open spec fn insert_branch(sorted: Seq<BranchEntry>, x: BranchEntry) -> Seq<BranchEntry>
    decreases sorted.len(),
{
    if sorted.len() == 0 {
        seq![x]
    } else if branch_before(x, sorted.last()) {
        insert_branch(sorted.drop_last(), x).push(sorted.last())
    } else {
        sorted.push(x)
    }
}

/// The entries of `s` in listing order; entries that tie keep their order.
pub open spec fn sorted_branches(s: Seq<BranchEntry>) -> Seq<BranchEntry>
    decreases s.len(),
{
    if s.len() == 0 {
        s
    } else {
        insert_branch(sorted_branches(s.drop_last()), s.last())
    }
}

/// No entry of `s` comes before an earlier one.
pub open spec fn in_listing_order(s: Seq<BranchEntry>) -> bool {
    forall|i: int, j: int| 0 <= i < j < s.len() ==> !branch_before(#[trigger] s[j], #[trigger] s[i])
}

proof fn lemma_insert_branch_at(s: Seq<BranchEntry>, x: BranchEntry, p: int)
    requires
        0 <= p <= s.len(),
        forall|k: int| p <= k < s.len() ==> branch_before(x, #[trigger] s[k]),
        p == 0 || !branch_before(x, s[p - 1]),
    ensures
        insert_branch(s, x) == s.insert(p, x),
    decreases s.len(),
{
    if s.len() == 0 {
        assert(s.insert(p, x) =~= seq![x]);
    } else if p == s.len() {
        assert(s.insert(p, x) =~= s.push(x));
    } else {
        lemma_insert_branch_at(s.drop_last(), x, p);
        assert(s.insert(p, x) =~= s.drop_last().insert(p, x).push(s.last()));
    }
}

/// Inserting keeps any property that every entry has.
proof fn lemma_insert_branch_keeps(s: Seq<BranchEntry>, x: BranchEntry, p: spec_fn(BranchEntry) -> bool)
    requires
        forall|i: int| 0 <= i < s.len() ==> p(#[trigger] s[i]),
        p(x),
    ensures
        forall|i: int| 0 <= i < insert_branch(s, x).len() ==> p(#[trigger] insert_branch(s, x)[i]),
    decreases s.len(),
{
    let r = insert_branch(s, x);
    if s.len() == 0 {
        assert(r =~= seq![x]);
    } else if branch_before(x, s.last()) {
        let t = s.drop_last();
        assert forall|i: int| 0 <= i < t.len() implies p(#[trigger] t[i]) by {
            assert(t[i] == s[i]);
        }
        lemma_insert_branch_keeps(t, x, p);
        let q = insert_branch(t, x);
        assert(r == q.push(s.last()));
        assert forall|i: int| 0 <= i < r.len() implies p(#[trigger] r[i]) by {
            if i < q.len() {
                assert(r[i] == q[i]);
            } else {
                assert(r[i] == s[s.len() - 1]);
            }
        }
    } else {
        assert(r == s.push(x));
        assert forall|i: int| 0 <= i < r.len() implies p(#[trigger] r[i]) by {
            if i < s.len() {
                assert(r[i] == s[i]);
            }
        }
    }
}

/// The entry for a branch is current exactly when it is a local branch named like
/// the current branch.
pub open spec fn current_flag_ok(b: BranchEntry, current: Option<Seq<char>>) -> bool {
    b.current ==> !b.remote && current == Some(b.name@)
}

/// If `b` does not come before `a`, nor `c` before `b`, then `c` does not come before `a`.
proof fn lemma_not_before_transitive(a: BranchEntry, b: BranchEntry, c: BranchEntry)
    requires
        !branch_before(b, a),
        !branch_before(c, b),
    ensures
        !branch_before(c, a),
{
    lemma_text_before_order(a.name@, b.name@, c.name@);
    lemma_text_before_order(b.name@, a.name@, c.name@);
    lemma_text_before_order(c.name@, b.name@, a.name@);
    lemma_text_before_order(b.name@, c.name@, a.name@);
    lemma_text_before_order(a.name@, c.name@, b.name@);
    lemma_text_before_order(c.name@, a.name@, b.name@);
}

proof fn lemma_insert_branch_keeps_order(s: Seq<BranchEntry>, x: BranchEntry)
    requires
        in_listing_order(s),
    ensures
        in_listing_order(insert_branch(s, x)),
        insert_branch(s, x).to_multiset() == s.to_multiset().insert(x),
        insert_branch(s, x).len() == s.len() + 1,
    decreases s.len(),
{
    broadcast use vstd::seq_lib::group_to_multiset_ensures;

    if s.len() == 0 {
        assert(seq![x] =~= Seq::<BranchEntry>::empty().push(x));
    } else if branch_before(x, s.last()) {
        let t = s.drop_last();
        assert forall|i: int, j: int| 0 <= i < j < t.len() implies !branch_before(#[trigger] t[j], #[trigger] t[i]) by {
            assert(t[i] == s[i] && t[j] == s[j]);
        }
        lemma_insert_branch_keeps_order(t, x);
        let r = insert_branch(t, x);
        let l = s.last();
        // Every element of r is x or an element of t, and none comes after l.
        assert forall|i: int| 0 <= i < r.len() implies !branch_before(l, #[trigger] r[i]) by {
            assert(r.to_multiset().count(r[i]) > 0);
            if r[i] != x {
                assert(t.to_multiset().count(r[i]) > 0);
                assert(t.contains(r[i]));
                let k = choose|k: int| 0 <= k < t.len() && t[k] == r[i];
                assert(s[k] == t[k]);
                assert(!branch_before(s[s.len() - 1], s[k]));
            } else {
                lemma_text_before_order(x.name@, l.name@, x.name@);
            }
        }
        assert(s =~= t.push(l));
    } else {
        let l = s.last();
        assert forall|i: int| 0 <= i < s.len() implies !branch_before(x, #[trigger] s[i]) by {
            if i < s.len() - 1 {
                lemma_not_before_transitive(s[i], l, x);
            }
        }
    }
}

/// A sorted listing is in listing order, and holds the same entries as before.
pub proof fn lemma_sorted_branches(s: Seq<BranchEntry>)
    ensures
        in_listing_order(sorted_branches(s)),
        sorted_branches(s).to_multiset() == s.to_multiset(),
        sorted_branches(s).len() == s.len(),
    decreases s.len(),
{
    broadcast use vstd::seq_lib::group_to_multiset_ensures;

    if s.len() > 0 {
        lemma_sorted_branches(s.drop_last());
        lemma_insert_branch_keeps_order(sorted_branches(s.drop_last()), s.last());
        assert(s =~= s.drop_last().push(s.last()));
    }
}

/// In a listing in listing order, the current branch, when listed, comes first.
pub proof fn lemma_current_branch_first(s: Seq<BranchEntry>, i: int)
    requires
        in_listing_order(s),
        0 <= i < s.len(),
        s[i].current,
    ensures
        s[0].current,
{
    if i > 0 {
        assert(!branch_before(s[i], s[0]));
    }
}

fn branch_less(a: &BranchEntry, b: &BranchEntry) -> (lt: bool)
    ensures
        lt == branch_before(*a, *b),
{
    (a.current && !b.current) || (a.current == b.current && text_less(a.name.as_str(), b.name.as_str()))
}

fn insert_sorted(v: &mut Vec<BranchEntry>, x: BranchEntry)
    ensures
        final(v)@ == insert_branch(old(v)@, x),
        exists|p: int| 0 <= p <= old(v)@.len() && final(v)@ == old(v)@.insert(p, x),
{
    let mut p = v.len();
    while p > 0 && branch_less(&x, &v[p - 1])
        invariant
            p <= v.len(),
            forall|k: int| p <= k < v.len() ==> branch_before(x, #[trigger] v@[k]),
        decreases p,
    {
        p = p - 1;
    }
    proof {
        lemma_insert_branch_at(v@, x, p as int);
    }
    let ghost before = v@;
    v.insert(p, x);
    proof {
        assert(v@ == before.insert(p as int, x));
    }
}

/// No two listed local branches of `rs` have the same name, as git keeps them.
pub open spec fn local_names_distinct(rs: Seq<BranchRecord>) -> bool {
    forall|a: int, b: int|
        0 <= a < b < rs.len() && is_listed(#[trigger] rs[a]) && is_listed(#[trigger] rs[b])
            && !rs[a].is_remote && !rs[b].is_remote ==> rs[a].name->0@ != rs[b].name->0@
}

/// At most one entry of `s` is marked current.
pub open spec fn at_most_one_current(s: Seq<BranchEntry>) -> bool {
    forall|i: int, j: int|
        0 <= i < s.len() && 0 <= j < s.len() && (#[trigger] s[i]).current && (#[trigger] s[j]).current
            ==> i == j
}

/// Some entry of `s` is marked current.
pub open spec fn has_current(s: Seq<BranchEntry>) -> bool {
    exists|k: int| 0 <= k < s.len() && (#[trigger] s[k]).current
}

/// Record `m` of `rs` is a listed local branch named `current`.
pub open spec fn names_current(rs: Seq<BranchRecord>, m: int, current: Option<Seq<char>>) -> bool {
    is_listed(rs[m]) && !rs[m].is_remote && current == Some(rs[m].name->0@)
}

proof fn lemma_insert_current(s: Seq<BranchEntry>, x: BranchEntry, p: int)
    requires
        0 <= p <= s.len(),
        at_most_one_current(s),
        x.current ==> !has_current(s),
    ensures
        at_most_one_current(s.insert(p, x)),
        has_current(s.insert(p, x)) ==> x.current || has_current(s),
{
    let r = s.insert(p, x);
    assert forall|i: int, j: int|
        0 <= i < r.len() && 0 <= j < r.len() && (#[trigger] r[i]).current && (#[trigger] r[j]).current
        implies i == j by {
        let si = if i < p { i } else { i - 1 };
        let sj = if j < p { j } else { j - 1 };
        if i != p && j != p {
            assert(r[i] == s[si] && r[j] == s[sj]);
        } else if i != p {
            assert(r[i] == s[si]);
        } else if j != p {
            assert(r[j] == s[sj]);
        }
    }
    if has_current(r) {
        let k = choose|k: int| 0 <= k < r.len() && (#[trigger] r[k]).current;
        if k != p {
            let sk = if k < p { k } else { k - 1 };
            assert(r[k] == s[sk]);
        }
    }
}

/// The listing of one branch, when it is listed.
pub fn branch_entry(current: &Option<String>, r: &BranchRecord) -> (e: Option<BranchEntry>)
    ensures
        e is Some <==> is_listed(*r),
        e matches Some(b) ==> describes_branch(b, opt_text(*current), *r),
{
    let name = match &r.name {
        Some(n) => n.clone(),
        None => return None,
    };
    let tip = match &r.tip {
        Some(t) => t,
        None => return None,
    };
    let is_current = !r.is_remote && match current {
        Some(c) => crate::text::same_text(c.as_str(), name.as_str()),
        None => false,
    };
    let (upstream, ahead, behind) = if !r.is_remote {
        match &r.tracking {
            Some(t) => (Some(t.upstream.clone()), Some(t.ahead), Some(t.behind)),
            None => (None, None, None),
        }
    } else {
        (None, None, None)
    };
    Some(
        BranchEntry {
            name,
            current: is_current,
            remote: r.is_remote,
            upstream,
            ahead,
            behind,
            commit: tip.id.short(),
            commit_time: tip.time,
            summary: string_or_empty(&tip.summary),
        },
    )
}

/// `built` lists the listed branches of `records`, one entry for each, in order.
pub open spec fn lists(built: Seq<BranchEntry>, current: Option<Seq<char>>, records: Seq<BranchRecord>) -> bool {
    let listed = listed_records(records);
    &&& built.len() == listed.len()
    &&& forall|k: int| 0 <= k < built.len() ==> describes_branch(#[trigger] built[k], current, listed[k])
}

/// Builds the branch listing from the branches that the walk read, in its order.
pub fn branches_output(repo: String, current: Option<String>, records: &Vec<BranchRecord>) -> (out:
    BranchesOutput)
    ensures
        out.repo == repo,
        out.current == current,
        out.count == out.branches.len(),
        exists|built: Seq<BranchEntry>|
            lists(built, opt_text(current), records@) && out.branches@ == sorted_branches(built),
        forall|i: int|
            0 <= i < out.branches.len() ==> current_flag_ok(#[trigger] out.branches@[i], opt_text(current)),
        forall|i: int, j: int|
            0 <= i < out.branches.len() && 0 <= j < out.branches.len() && (#[trigger] out.branches@[i]).current
                && (#[trigger] out.branches@[j]).current ==> out.branches@[i].name@ == out.branches@[j].name@,
        local_names_distinct(records@) ==> at_most_one_current(out.branches@),
{
    let mut branches: Vec<BranchEntry> = Vec::new();
    let ghost mut built: Seq<BranchEntry> = seq![];
    let mut i: usize = 0;
    while i < records.len()
        invariant
            i <= records.len(),
            lists(built, opt_text(current), records@.take(i as int)),
            branches@ == sorted_branches(built),
            forall|k: int| 0 <= k < branches.len() ==> current_flag_ok(#[trigger] branches@[k], opt_text(current)),
            has_current(branches@) ==> exists|m: int| 0 <= m < i && names_current(records@, m, opt_text(current)),
            local_names_distinct(records@) ==> at_most_one_current(branches@),
        decreases records.len() - i,
    {
        let e = branch_entry(&current, &records[i]);
        proof {
            assert(records@.take(i + 1).drop_last() =~= records@.take(i as int));
            assert(records@.take(i + 1).last() == records@[i as int]);
        }
        match e {
            Some(b) => {
                proof {
                    assert(sorted_branches(built.push(b)) == insert_branch(sorted_branches(built), b)) by {
                        assert(built.push(b).drop_last() =~= built);
                    }
                    built = built.push(b);
                    let cur = opt_text(current);
                    lemma_insert_branch_keeps(branches@, b, |e: BranchEntry| current_flag_ok(e, cur));
                    if b.current {
                        assert(names_current(records@, i as int, cur));
                    }
                }
                let ghost before = branches@;
                let ghost distinct = local_names_distinct(records@);
                proof {
                    if distinct && b.current && has_current(before) {
                        let m = choose|m: int| 0 <= m < i && names_current(records@, m, opt_text(current));
                        assert(records@[m].name->0@ != records@[i as int].name->0@);
                    }
                }
                insert_sorted(&mut branches, b);
                proof {
                    let p = choose|p: int| 0 <= p <= before.len() && branches@ == before.insert(p, b);
                    if distinct {
                        lemma_insert_current(before, b, p);
                    } else if has_current(branches@) {
                        let k = choose|k: int| 0 <= k < branches@.len() && (#[trigger] branches@[k]).current;
                        if k != p {
                            let sk = if k < p { k } else { k - 1 };
                            assert(branches@[k] == before[sk]);
                            assert(has_current(before));
                        }
                    }
                }
            },
            None => {},
        }
        i = i + 1;
    }
    proof {
        assert(records@.take(records.len() as int) =~= records@);
    }
    let count = branches.len();
    BranchesOutput { repo, current, count, branches }
}

/// In a branch listing, the current branch, when listed, comes first; the listing
/// is in listing order and holds one entry for each listed branch.
pub proof fn lemma_branches_output_order(built: Seq<BranchEntry>, out: Seq<BranchEntry>)
    requires
        out == sorted_branches(built),
    ensures
        in_listing_order(out),
        out.to_multiset() == built.to_multiset(),
        forall|i: int| 0 <= i < out.len() && (#[trigger] out[i]).current ==> out[0].current,
{
    lemma_sorted_branches(built);
    assert forall|i: int| 0 <= i < out.len() && (#[trigger] out[i]).current implies out[0].current by {
        lemma_current_branch_first(out, i);
    }
}

/// A count in the branch table: its decimal digits, or `-` when there is none.
pub open spec fn count_label(n: Option<usize>) -> Seq<char> {
    match n {
        Some(k) => decimal(k as nat),
        None => "-"@,
    }
}

/// The upstream of a branch as the table shows it, or `-`.
pub open spec fn upstream_label(u: Option<String>) -> Seq<char> {
    match u {
        Some(t) => t@,
        None => "-"@,
    }
}

/// The table row of a branch.
pub open spec fn branch_row(b: BranchEntry) -> Seq<char> {
    (if b.current {
        "* "@
    } else {
        "  "@
    }) + padded_right(truncated(b.name@, 34), 35) + seq![' '] + padded_right(
        truncated(upstream_label(b.upstream), 29),
        30,
    ) + seq![' '] + padded_left(count_label(b.ahead), 6, ' ') + seq![' '] + padded_left(
        count_label(b.behind),
        7,
        ' ',
    ) + "  "@ + padded_right(b.commit@, 9) + seq![' '] + truncated(b.summary@, 30) + (if b.remote {
        " [remote]"@
    } else {
        Seq::<char>::empty()
    })
}

/// A branch's row starts with `*` exactly when the branch is current. From the
/// 70th character on it shows, right-aligned in 6 columns, the decimal digits of
/// how far the branch is ahead of its upstream, then a space, then, right-aligned
/// in 7 columns, how far it is behind; each is `-` when there is no count, and the
/// counts are shown whether or not the branch is current.
pub proof fn lemma_branch_row_counts(b: BranchEntry)
    requires
        can_truncate(b.name@, 34),
        can_truncate(upstream_label(b.upstream), 29),
    ensures
        ({
            let ahead = padded_left(
                match b.ahead {
                    Some(n) => decimal(n as nat),
                    None => "-"@,
                },
                6,
                ' ',
            );
            let behind = padded_left(
                match b.behind {
                    Some(n) => decimal(n as nat),
                    None => "-"@,
                },
                7,
                ' ',
            );
            let row = branch_row(b);
            &&& (row[0] == '*') == b.current
            &&& row.len() >= 70 + ahead.len() + behind.len()
            &&& row.subrange(69, 69 + ahead.len() as int) == ahead
            &&& row[69 + ahead.len() as int] == ' '
            &&& row.subrange(70 + ahead.len() as int, 70 + ahead.len() + behind.len() as int) == behind
        }),
{
    reveal_strlit("* ");
    reveal_strlit("  ");
    lemma_truncated_fits(b.name@, 34);
    lemma_truncated_fits(upstream_label(b.upstream), 29);
    let mark = if b.current {
        "* "@
    } else {
        "  "@
    };
    let name = padded_right(truncated(b.name@, 34), 35);
    let up = padded_right(truncated(upstream_label(b.upstream), 29), 30);
    let ahead = padded_left(count_label(b.ahead), 6, ' ');
    let behind = padded_left(count_label(b.behind), 7, ' ');
    let rest = "  "@ + padded_right(b.commit@, 9) + seq![' '] + truncated(b.summary@, 30) + (
    if b.remote {
        " [remote]"@
    } else {
        Seq::<char>::empty()
    });
    let head = mark + name + seq![' '] + up + seq![' '];
    assert(name.len() == 35);
    assert(up.len() == 30);
    assert(head.len() == 69);
    let row = branch_row(b);
    assert(row == head + ahead + seq![' '] + behind + rest);
    assert(row[0] == mark[0]);
    assert(row.subrange(69, 69 + ahead.len() as int) =~= ahead);
    assert(row.subrange(70 + ahead.len() as int, 70 + ahead.len() + behind.len() as int) =~= behind);
}

/// The table can shorten the texts of every branch of `o`.
pub open spec fn branches_table_fits(o: BranchesOutput) -> bool {
    forall|i: int|
        0 <= i < o.branches.len() ==> {
            &&& can_truncate((#[trigger] o.branches@[i]).name@, 34)
            &&& can_truncate(upstream_label(o.branches@[i].upstream), 29)
            &&& can_truncate(o.branches@[i].summary@, 30)
        }
}

/// The lines of the branch table.
pub open spec fn branches_table_lines(o: BranchesOutput) -> Seq<Seq<char>> {
    seq![
        "repo: "@ + o.repo@ + "  branches: "@ + decimal(o.count as nat),
        repeated('-', 90),
        "  "@ + padded_right("BRANCH"@, 35) + seq![' '] + padded_right("UPSTREAM"@, 30) + seq![' ']
            + padded_left("AHEAD"@, 6, ' ') + seq![' '] + padded_left("BEHIND"@, 7, ' ') + "  "@
            + padded_right("COMMIT"@, 9) + " MESSAGE"@,
        repeated('-', 90),
    ] + Seq::new(o.branches.len() as nat, |i: int| branch_row(o.branches@[i]))
}

fn count_label_text(n: Option<usize>) -> (t: String)
    ensures
        t@ == count_label(n),
{
    match n {
        Some(k) => decimal_text(k as u64),
        None => String::from_str("-"),
    }
}

fn branch_row_text(b: &BranchEntry) -> (t: String)
    requires
        can_truncate(b.name@, 34),
        can_truncate(upstream_label(b.upstream), 29),
        can_truncate(b.summary@, 30),
    ensures
        t@ == branch_row(*b),
{
    let mut t = if b.current {
        String::from_str("* ")
    } else {
        String::from_str("  ")
    };
    push_padded_right(&mut t, truncate(b.name.as_str(), 34).as_str(), 35);
    t.append(" ");
    let upstream = match &b.upstream {
        Some(u) => truncate(u.as_str(), 29),
        None => truncate("-", 29),
    };
    push_padded_right(&mut t, upstream.as_str(), 30);
    t.append(" ");
    push_padded_left(&mut t, count_label_text(b.ahead).as_str(), 6, ' ');
    t.append(" ");
    push_padded_left(&mut t, count_label_text(b.behind).as_str(), 7, ' ');
    t.append("  ");
    push_padded_right(&mut t, b.commit.as_str(), 9);
    t.append(" ");
    t.append(truncate(b.summary.as_str(), 30).as_str());
    if b.remote {
        t.append(" [remote]");
    }
    proof {
        reveal_strlit(" ");
        assert(t@ =~= branch_row(*b));
    }
    t
}

/// The branch table, line by line.
pub fn branches_table(o: &BranchesOutput) -> (lines: Vec<String>)
    requires
        branches_table_fits(*o),
    ensures
        texts(lines@) == branches_table_lines(*o),
{
    let mut first = String::from_str("repo: ");
    first.append(o.repo.as_str());
    first.append("  branches: ");
    push_decimal(&mut first, o.count as u64);
    let mut header = String::from_str("  ");
    push_padded_right(&mut header, "BRANCH", 35);
    header.append(" ");
    push_padded_right(&mut header, "UPSTREAM", 30);
    header.append(" ");
    push_padded_left(&mut header, "AHEAD", 6, ' ');
    header.append(" ");
    push_padded_left(&mut header, "BEHIND", 7, ' ');
    header.append("  ");
    push_padded_right(&mut header, "COMMIT", 9);
    header.append(" MESSAGE");
    let spec_lines = Ghost(branches_table_lines(*o));
    proof {
        reveal_strlit(" ");
        assert(first@ =~= spec_lines@[0]);
        assert(header@ =~= spec_lines@[2]);
    }
    let r1 = rule(90);
    let r2 = rule(90);
    let ghost head = seq![first@, r1@, header@, r2@];
    let mut lines: Vec<String> = Vec::new();
    lines.push(first);
    lines.push(r1);
    lines.push(header);
    lines.push(r2);
    proof {
        assert(texts(lines@) =~= head);
    }
    let mut i: usize = 0;
    while i < o.branches.len()
        invariant
            i <= o.branches.len(),
            branches_table_fits(*o),
            texts(lines@) == head + Seq::new(i as nat, |k: int| branch_row(o.branches@[k])),
        decreases o.branches.len() - i,
    {
        let row = branch_row_text(&o.branches[i]);
        let ghost prev = lines@;
        lines.push(row);
        i = i + 1;
        proof {
            assert(texts(lines@) =~= texts(prev).push(row@));
            assert(texts(lines@) =~= head + Seq::new(i as nat, |k: int| branch_row(o.branches@[k])));
        }
    }
    proof {
        assert(texts(lines@) =~= branches_table_lines(*o));
    }
    lines
}

} // verus!
