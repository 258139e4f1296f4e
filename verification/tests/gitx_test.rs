// The reports of a small history, built from the records that a repository walk
// hands over: three commits (one of them a merge), two branches, a stash entry
// and two tags.

use gitx::branches::{branch_scope, branches_output, BranchRecord, BranchScope, TipCommit};
use gitx::log::{CommitRecord, LogCollector, LogOutput};
use gitx::object_id::ObjectId;
use gitx::stash::{stash_output, StashRecord};
use gitx::status::{status_output, RawStatusEntry, StatusFlags, Tracking};
use gitx::tags::{tags_output, TagRecord, TagTarget, Tagger};

fn oid(fill: char) -> ObjectId {
    ObjectId::from_hex(std::iter::repeat(fill).take(40).collect()).unwrap()
}

fn commit(fill: char, message: &str, author: &str, time: i64, parents: &[char]) -> CommitRecord {
    CommitRecord {
        id: oid(fill),
        message: Some(message.to_string()),
        summary: Some(message.lines().next().unwrap_or("").to_string()),
        author_name: Some(author.to_string()),
        author_email: Some(format!("{}@example.com", author.to_lowercase())),
        author_time: time,
        committer_name: Some(author.to_string()),
        committer_email: Some(format!("{}@example.com", author.to_lowercase())),
        commit_time: time,
        parents: parents.iter().map(|c| oid(*c)).collect(),
    }
}

fn history() -> Vec<CommitRecord> {
    vec![
        commit('c', "Merge branch 'feature'", "Alice", 1_700_000_300, &['b', 'a']),
        commit('b', "Add feature\n\nLonger description.\n", "Bob", 1_700_000_200, &['a']),
        commit('a', "Initial commit", "Alice", 1_700_000_100, &[]),
    ]
}

fn run_log(limit: usize, author: Option<&str>, grep: Option<&str>, no_merges: bool) -> LogOutput {
    let mut collector = LogCollector::new(limit, author, grep, no_merges);
    for record in history().iter() {
        if !collector.wants_more() {
            break;
        }
        collector.offer(record);
    }
    collector.finish("/work/repo".to_string(), Some("main".to_string()))
}

fn clean_flags() -> StatusFlags {
    StatusFlags {
        index_new: false,
        index_modified: false,
        index_deleted: false,
        index_renamed: false,
        index_typechange: false,
        wt_new: false,
        wt_modified: false,
        wt_deleted: false,
        wt_renamed: false,
        wt_typechange: false,
        conflicted: false,
    }
}

fn branch(name: &str, remote: bool, fill: char, time: i64) -> BranchRecord {
    BranchRecord {
        name: Some(name.to_string()),
        is_remote: remote,
        tip: Some(TipCommit { id: oid(fill), time, summary: Some("tip".to_string()) }),
        tracking: None,
    }
}

fn tag_records() -> Vec<TagRecord> {
    vec![
        TagRecord {
            name_bytes: b"refs/tags/v1.0".to_vec(),
            target: TagTarget::Lightweight { commit: oid('a'), time: 1_700_000_100 },
        },
        TagRecord {
            name_bytes: b"refs/tags/v2.0".to_vec(),
            target: TagTarget::Annotated {
                target: oid('b'),
                target_time: Some(1_700_000_200),
                message: Some("Release 2.0\n".to_string()),
                tagger: Some(Tagger { name: Some("Alice".to_string()), time: 1_700_000_250 }),
            },
        },
    ]
}

#[test]
fn gitx_log_returns_commits() {
    let output = run_log(50, None, None, false);
    assert_eq!(output.commits.len(), output.count);
    assert!(output.count > 0, "repo must have at least one commit");
    assert_eq!(output.repo, "/work/repo");
}

#[test]
fn gitx_log_commit_fields() {
    let output = run_log(1, None, None, false);
    let commit = &output.commits[0];
    assert_eq!(commit.short_hash.len(), 7);
    assert_eq!(commit.hash.len(), 40);
    assert_eq!(commit.author_name, "Alice");
    assert_eq!(commit.author_email, "alice@example.com");
    assert_eq!(commit.author_time, 1_700_000_300);
    assert_eq!(commit.commit_time, 1_700_000_300);
    assert_eq!(commit.summary, "Merge branch 'feature'");
    assert!(commit.is_merge);
    assert_eq!(commit.parents, vec!["bbbbbbb".to_string(), "aaaaaaa".to_string()]);
}

#[test]
fn gitx_log_limit_respected() {
    let output = run_log(3, None, None, false);
    let count = output.commits.len();
    assert!(count <= 3, "limit=3 must return at most 3 commits, got {}", count);
    assert_eq!(output.count, count);
    let output = run_log(2, None, None, false);
    assert_eq!(output.count, 2);
}

#[test]
fn gitx_log_no_merges_flag() {
    let output = run_log(50, None, None, true);
    for commit in &output.commits {
        assert_eq!(commit.is_merge, false, "is_merge must be false when --no-merges is set");
    }
    assert_eq!(output.count, 2);
}

#[test]
fn gitx_status_structure() {
    let mut modified = clean_flags();
    modified.wt_modified = true;
    let mut added = clean_flags();
    added.index_new = true;
    let mut untracked = clean_flags();
    untracked.wt_new = true;
    let raw = vec![
        RawStatusEntry { path: Some("src/lib.rs".to_string()), old_path: None, flags: modified },
        RawStatusEntry { path: Some("new.rs".to_string()), old_path: None, flags: added },
        RawStatusEntry { path: Some("notes.txt".to_string()), old_path: None, flags: untracked },
    ];
    let output = status_output("/work/repo".to_string(), Some("main".to_string()), None, &raw);
    assert_eq!(output.repo, "/work/repo");
    assert!(!output.clean);
    assert_eq!(output.entries.len(), 3);
    assert_eq!(output.staged, 1);
    assert_eq!(output.unstaged, 1);
    assert_eq!(output.untracked, 1);
}

#[test]
fn gitx_status_branch_present() {
    let raw: Vec<RawStatusEntry> = Vec::new();
    let tracking = Some(Tracking { upstream: "origin/main".to_string(), ahead: 2, behind: 1 });
    let output = status_output("/work/repo".to_string(), Some("main".to_string()), tracking, &raw);
    assert_eq!(output.branch, Some("main".to_string()));
    assert!(output.clean);
    assert_eq!(output.upstream, Some("origin/main".to_string()));
    assert_eq!(output.ahead, Some(2));
    assert_eq!(output.behind, Some(1));
    let detached = status_output("/work/repo".to_string(), None, None, &raw);
    assert_eq!(detached.branch, None);
}

#[test]
fn gitx_branches_returns_at_least_one() {
    assert!(matches!(branch_scope(false, true), BranchScope::All));
    let records = vec![branch("origin/main", true, 'a', 1_700_000_100)];
    let output = branches_output("/work/repo".to_string(), None, &records);
    assert_eq!(output.branches.len(), output.count);
    assert!(output.count >= 1, "must have at least one branch");
    assert_eq!(output.repo, "/work/repo");
}

#[test]
fn gitx_branches_fields() {
    let records = vec![branch("origin/main", true, 'a', 1_700_000_100)];
    let output = branches_output("/work/repo".to_string(), None, &records);
    let b = &output.branches[0];
    assert_eq!(b.name, "origin/main");
    assert!(!b.current);
    assert!(b.remote);
    assert_eq!(b.commit, "aaaaaaa");
    assert_eq!(b.commit.len(), 7);
    assert_eq!(b.commit_time, 1_700_000_100);
    assert_eq!(b.summary, "tip");
}

#[test]
fn gitx_branches_current_first() {
    let records = vec![
        branch("alpha", false, 'a', 1),
        branch("main", false, 'b', 2),
        branch("beta", false, 'c', 3),
    ];
    let output = branches_output("/work/repo".to_string(), Some("main".to_string()), &records);
    let branches = &output.branches;
    if branches.len() > 1 {
        let has_current = branches.iter().any(|b| b.current);
        if has_current {
            assert!(branches[0].current, "current branch must sort first");
        }
    }
    let names: Vec<&str> = branches.iter().map(|b| b.name.as_str()).collect();
    assert_eq!(names, vec!["main", "alpha", "beta"]);
}

#[test]
fn gitx_stash_structure() {
    let records = vec![StashRecord {
        index: 0,
        message: "WIP on main: abc".to_string(),
        id: oid('d'),
        time: Some(1_700_000_400),
    }];
    let output = stash_output("/work/repo".to_string(), &records);
    assert_eq!(output.repo, "/work/repo");
    assert_eq!(output.count, 1);
    assert_eq!(output.entries.len(), output.count);
    assert_eq!(output.entries[0].commit, "ddddddd");
}

#[test]
fn gitx_tags_structure() {
    let output = tags_output("/work/repo".to_string(), 0, &tag_records());
    assert_eq!(output.repo, "/work/repo");
    assert_eq!(output.count, 2);
    assert_eq!(output.tags.len(), output.count);
    assert_eq!(output.tags[0].name, "v2.0");
    assert_eq!(output.tags[1].name, "v1.0");
}

#[test]
fn gitx_tags_limit() {
    let output = tags_output("/work/repo".to_string(), 1, &tag_records());
    let count = output.tags.len();
    assert!(count <= 1, "limit=1 must return at most 1 tag, got {}", count);
    assert_eq!(output.tags[0].name, "v2.0");
}
