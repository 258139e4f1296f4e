// Concrete cases for each part of the library: dates, text helpers, status codes,
// filters, orderings and the tables.

use gitx::branches::{branch_entry, branch_scope, branches_output, branches_table, BranchRecord, BranchScope, TipCommit};
use gitx::calendar::{days_to_civil, days_to_ymd, format_epoch};
use gitx::log::{log_table, CommitRecord, LogCollector};
use gitx::object_id::ObjectId;
use gitx::repo::{head_branch, repo_workdir, HeadInfo};
use gitx::stash::{stash_output, stash_table, StashRecord};
use gitx::status::{
    map_index_status, map_workdir_status, status_char, status_output, status_table, RawStatusEntry,
    StatusFlags, Tracking,
};
use gitx::tags::{tag_entry, tag_name_text, tags_output, tags_table, TagRecord, TagTarget, Tagger};
use gitx::text::{commit_body, contains, decimal_text, same_text, text_less, truncate};

fn oid(fill: char) -> ObjectId {
    ObjectId::from_hex(std::iter::repeat(fill).take(40).collect()).unwrap()
}

fn flags() -> StatusFlags {
    StatusFlags {
        index_new: false,
        index_modified: false,
        index_deleted: false,
        index_renamed: false,
        index_typechange: false,
        wt_new: false,
        wt_modified: false,
        wt_deleted: false,
        wt_renamed: false,
        wt_typechange: false,
        conflicted: false,
    }
}

fn record(fill: char, message: &str, author: &str, email: &str, parents: usize) -> CommitRecord {
    CommitRecord {
        id: oid(fill),
        message: Some(message.to_string()),
        summary: Some(message.lines().next().unwrap_or("").to_string()),
        author_name: Some(author.to_string()),
        author_email: Some(email.to_string()),
        author_time: 1_700_000_000,
        committer_name: Some("Committer".to_string()),
        committer_email: Some("committer@example.com".to_string()),
        commit_time: 1_700_000_000,
        parents: (0..parents).map(|_| oid('0')).collect(),
    }
}

#[test]
fn days_to_ymd_epoch_is_first_of_january_1970() {
    assert_eq!(days_to_ymd(0), (1970, 1, 1));
}

#[test]
fn days_to_ymd_leap_day_and_century() {
    assert_eq!(days_to_ymd(11016), (2000, 2, 29));
    assert_eq!(days_to_ymd(11017), (2000, 3, 1));
    assert_eq!(days_to_ymd(2932897), (10000, 1, 1));
    assert_eq!(days_to_ymd(59), (1970, 3, 1));
    assert_eq!(days_to_ymd(364), (1970, 12, 31));
    assert_eq!(days_to_ymd(365), (1971, 1, 1));
}

#[test]
fn days_to_ymd_largest_accepted_day() {
    assert_eq!(days_to_ymd(u64::MAX - 719468), (50505469855533109, 4, 22));
}

#[test]
fn format_epoch_dates() {
    assert_eq!(format_epoch(0), "1970-01-01");
    assert_eq!(format_epoch(86399), "1970-01-01");
    assert_eq!(format_epoch(86400), "1970-01-02");
    assert_eq!(format_epoch(951_782_400), "2000-02-29");
    assert_eq!(format_epoch(1_700_000_000), "2023-11-14");
    assert_eq!(format_epoch(253_402_300_800), "10000-01-01");
}

#[test]
fn format_epoch_before_1970() {
    assert_eq!(format_epoch(-1), "1969-12-31");
    assert_eq!(format_epoch(-86400), "1969-12-31");
    assert_eq!(format_epoch(-86401), "1969-12-30");
    assert_eq!(format_epoch(-62_167_219_200), "0000-01-01");
    assert_eq!(format_epoch(-62_167_219_201), "-001-12-31");
    assert_eq!(format_epoch(-62_514_115_200), "-011-01-03");
}

#[test]
fn format_epoch_extremes() {
    assert_eq!(format_epoch(i64::MIN), "-292277022657-01-27");
    assert_eq!(format_epoch(i64::MAX), "292277026596-12-04");
    assert_eq!(format_epoch(-62_167_219_201), format!("{:04}-{:02}-{:02}", -1, 12, 31));
}

#[test]
fn days_to_civil_signed_days() {
    assert_eq!(days_to_civil(0), (1970, 1, 1));
    assert_eq!(days_to_civil(-1), (1969, 12, 31));
    assert_eq!(days_to_civil(-719468), (0, 3, 1));
    assert_eq!(days_to_civil(-719469), (0, 2, 29));
    assert_eq!(days_to_civil(11016), (2000, 2, 29));
    assert_eq!(days_to_civil(i64::MIN), (-25252734927764585, 6, 7));
    assert_eq!(days_to_civil(i64::MAX), (25252734927768524, 7, 27));
}

#[test]
fn truncate_keeps_short_text() {
    assert_eq!(truncate("hello", 10), "hello");
    assert_eq!(truncate("hello", 5), "hello");
    assert_eq!(truncate("", 0), "");
}

#[test]
fn truncate_shortens_long_text() {
    assert_eq!(truncate("hello world", 5), "hell\u{2026}");
    assert_eq!(truncate("ab", 0), "\u{2026}");
    assert_eq!(truncate("ab", 1), "\u{2026}");
    assert_eq!(truncate("h\u{e9}llo", 4), "h\u{e9}\u{2026}");
}

#[test]
fn status_char_codes() {
    assert_eq!(status_char("added"), 'A');
    assert_eq!(status_char("modified"), 'M');
    assert_eq!(status_char("deleted"), 'D');
    assert_eq!(status_char("renamed"), 'R');
    assert_eq!(status_char("typechange"), 'T');
    assert_eq!(status_char("untracked"), '?');
    assert_eq!(status_char("conflicted"), 'U');
    assert_eq!(status_char("other"), ' ');
    assert_eq!(status_char(""), ' ');
}

#[test]
fn index_status_takes_first_matching_change() {
    let mut f = flags();
    assert_eq!(map_index_status(&f), None);
    f.index_modified = true;
    f.index_deleted = true;
    assert_eq!(map_index_status(&f), Some("modified".to_string()));
    f.index_new = true;
    assert_eq!(map_index_status(&f), Some("added".to_string()));
    let mut g = flags();
    g.index_typechange = true;
    assert_eq!(map_index_status(&g), Some("typechange".to_string()));
    g.index_renamed = true;
    assert_eq!(map_index_status(&g), Some("renamed".to_string()));
}

#[test]
fn workdir_status_takes_first_matching_change() {
    let mut f = flags();
    assert_eq!(map_workdir_status(&f), None);
    f.conflicted = true;
    assert_eq!(map_workdir_status(&f), Some("conflicted".to_string()));
    f.wt_typechange = true;
    assert_eq!(map_workdir_status(&f), Some("typechange".to_string()));
    f.wt_renamed = true;
    assert_eq!(map_workdir_status(&f), Some("renamed".to_string()));
    f.wt_deleted = true;
    assert_eq!(map_workdir_status(&f), Some("deleted".to_string()));
    f.wt_modified = true;
    assert_eq!(map_workdir_status(&f), Some("modified".to_string()));
    f.wt_new = true;
    assert_eq!(map_workdir_status(&f), Some("untracked".to_string()));
}

#[test]
fn status_counts_and_entries() {
    let mut staged_and_modified = flags();
    staged_and_modified.index_modified = true;
    staged_and_modified.wt_modified = true;
    let mut renamed = flags();
    renamed.index_renamed = true;
    let raw = vec![
        RawStatusEntry { path: Some("a.rs".to_string()), old_path: None, flags: staged_and_modified },
        RawStatusEntry { path: None, old_path: Some("old.rs".to_string()), flags: renamed },
    ];
    let out = status_output("r".to_string(), None, None, &raw);
    assert_eq!(out.staged, 2);
    assert_eq!(out.unstaged, 1);
    assert_eq!(out.untracked, 0);
    assert!(!out.clean);
    assert_eq!(out.entries[0].path, "a.rs");
    assert_eq!(out.entries[0].index_status, Some("modified".to_string()));
    assert_eq!(out.entries[0].workdir_status, Some("modified".to_string()));
    assert_eq!(out.entries[1].path, "");
    assert_eq!(out.entries[1].old_path, Some("old.rs".to_string()));
    assert_eq!(out.entries[1].index_status, Some("renamed".to_string()));
    assert_eq!(out.entries[1].workdir_status, None);
    assert_eq!(out.upstream, None);
    assert_eq!(out.ahead, None);
}

#[test]
fn status_table_lines() {
    let mut f = flags();
    f.index_renamed = true;
    f.wt_modified = true;
    let mut u = flags();
    u.wt_new = true;
    let raw = vec![
        RawStatusEntry { path: Some("new.rs".to_string()), old_path: Some("old.rs".to_string()), flags: f },
        RawStatusEntry { path: Some("x.txt".to_string()), old_path: None, flags: u },
    ];
    let tracking = Some(Tracking { upstream: "origin/main".to_string(), ahead: 2, behind: 1 });
    let out = status_output("r".to_string(), Some("main".to_string()), tracking, &raw);
    let lines = status_table(&out);
    assert_eq!(
        lines,
        vec![
            "branch: main \u{2192} origin/main (+2 -1)".to_string(),
            "staged: 1  unstaged: 1  untracked: 1".to_string(),
            "-".repeat(70),
            " RM new.rs (from old.rs)".to_string(),
            "  ? x.txt".to_string(),
        ]
    );
    let clean = status_output("r".to_string(), None, None, &Vec::new());
    assert_eq!(
        status_table(&clean),
        vec!["branch: (detached HEAD)".to_string(), "working tree clean".to_string()]
    );
}

#[test]
fn repo_workdir_trims_trailing_slashes() {
    assert_eq!(repo_workdir(Some("/work/repo/")), "/work/repo");
    assert_eq!(repo_workdir(Some("/work/repo//")), "/work/repo");
    assert_eq!(repo_workdir(Some("/work/repo")), "/work/repo");
    assert_eq!(repo_workdir(None), ".");
}

#[test]
fn head_branch_only_for_branches() {
    let on_branch = HeadInfo { is_branch: true, shorthand: Some("main".to_string()) };
    assert_eq!(head_branch(Some(on_branch)), Some("main".to_string()));
    let detached = HeadInfo { is_branch: false, shorthand: Some("HEAD".to_string()) };
    assert_eq!(head_branch(Some(detached)), None);
    assert_eq!(head_branch(None), None);
}

#[test]
fn commit_body_after_blank_line() {
    assert_eq!(
        commit_body("Subject\n\nBody line 1\nBody line 2\n"),
        Some("Body line 1\nBody line 2".to_string())
    );
    assert_eq!(commit_body("Subject"), None);
    assert_eq!(commit_body("Subject\n\n   \n\t\n"), None);
    assert_eq!(commit_body("Subject\r\n\r\nBody\r\nmore\r\n"), Some("Body\nmore".to_string()));
    assert_eq!(commit_body("Subject\nsecond\nthird"), None);
    assert_eq!(commit_body("subject\nwrapped\nthird\n\nbody text"), Some("body text".to_string()));
    assert_eq!(commit_body("Subject\n \t\nBody"), Some("Body".to_string()));
    assert_eq!(commit_body("Subject\n\nfirst\n\nsecond\n"), Some("first\n\nsecond".to_string()));
    assert_eq!(commit_body(""), None);
}

#[test]
fn contains_finds_substrings() {
    assert!(contains("Hello world", "o w"));
    assert!(contains("abc", ""));
    assert!(contains("", ""));
    assert!(!contains("ab", "abc"));
    assert!(!contains("Hello", "hello"));
}

#[test]
fn same_text_and_order() {
    assert!(same_text("abc", "abc"));
    assert!(!same_text("abc", "abd"));
    assert!(text_less("Zeta", "alpha"));
    assert!(text_less("main", "main2"));
    assert!(!text_less("main", "main"));
    assert!(!text_less("b", "a"));
}

#[test]
fn decimal_text_digits() {
    assert_eq!(decimal_text(0), "0");
    assert_eq!(decimal_text(42), "42");
    assert_eq!(decimal_text(u64::MAX), "18446744073709551615");
}

#[test]
fn object_id_rejects_malformed_text() {
    assert!(ObjectId::from_hex("abc".to_string()).is_none());
    assert!(ObjectId::from_hex("A".repeat(40)).is_none());
    assert!(ObjectId::from_hex("g".repeat(40)).is_none());
    let id = ObjectId::from_hex("0123456789abcdef0123456789abcdef01234567".to_string()).unwrap();
    assert_eq!(id.short(), "0123456");
    assert_eq!(id.hex(), "0123456789abcdef0123456789abcdef01234567");
}

#[test]
fn log_filters_by_author_ignoring_case() {
    let mut c = LogCollector::new(10, Some("ALICE"), None, false);
    c.offer(&record('a', "one", "Alice Smith", "a@example.com", 1));
    c.offer(&record('b', "two", "Bob", "bob@example.com", 1));
    c.offer(&record('c', "three", "Carol", "ALICE@example.com", 1));
    let out = c.finish("r".to_string(), None);
    assert_eq!(out.count, 2);
    assert_eq!(out.commits[0].summary, "one");
    assert_eq!(out.commits[1].summary, "three");
}

#[test]
fn log_filter_lowercases_non_ascii_letters() {
    let mut c = LogCollector::new(10, Some("\u{c5}SA"), None, false);
    c.offer(&record('a', "one", "\u{e5}sa", "x@example.com", 1));
    c.offer(&record('b', "two", "Asa", "y@example.com", 1));
    let out = c.finish("r".to_string(), None);
    assert_eq!(out.count, 1);
    assert_eq!(out.commits[0].summary, "one");
}

#[test]
fn log_filters_by_message_ignoring_case() {
    let mut c = LogCollector::new(10, None, Some("FIX"), false);
    c.offer(&record('a', "Fix the bug\n\nDetails here", "A", "a@x", 1));
    c.offer(&record('b', "Add feature", "B", "b@x", 1));
    c.offer(&record('c', "Feature\n\nAlso fixes a typo", "C", "c@x", 1));
    let out = c.finish("r".to_string(), None);
    assert_eq!(out.count, 2);
    assert_eq!(out.commits[0].body, Some("Details here".to_string()));
    assert_eq!(out.commits[1].summary, "Feature");
}

#[test]
fn log_stops_wanting_at_limit() {
    let mut c = LogCollector::new(1, None, None, false);
    assert!(c.wants_more());
    c.offer(&record('a', "one", "A", "a@x", 0));
    assert!(!c.wants_more());
    let zero = LogCollector::new(0, None, None, false);
    assert!(!zero.wants_more());
}

#[test]
fn log_table_lines() {
    let mut c = LogCollector::new(10, None, None, false);
    c.offer(&record('c', "Merge branch 'x'", "Alice", "a@x", 2));
    c.offer(&record('d', "A rather long summary line that goes on and on past the column width", "B", "b@x", 1));
    let out = c.finish("/work/repo".to_string(), Some("main".to_string()));
    let lines = log_table(&out);
    let rule = "-".repeat(100);
    assert_eq!(lines.len(), 7);
    assert_eq!(lines[0], "repo: /work/repo  branch: main  commits: 2");
    assert_eq!(lines[1], rule);
    assert_eq!(lines[2], format!("{:<9} {:<22} {:<12} MESSAGE", "HASH", "AUTHOR", "DATE"));
    assert_eq!(lines[3], rule);
    assert_eq!(
        lines[4],
        format!("{:<9} {:<22} {:<12} {}{}", "ccccccc", "Alice", "2023-11-14", "\u{2387} ", "Merge branch 'x'")
    );
    assert_eq!(
        lines[5],
        format!(
            "{:<9} {:<22} {:<12} {}{}",
            "ddddddd",
            "B",
            "2023-11-14",
            "  ",
            "A rather long summary line that goes on and on past th\u{2026}"
        )
    );
    assert_eq!(lines[6], rule);
}

fn branch(name: &str, remote: bool, tracking: Option<Tracking>) -> BranchRecord {
    BranchRecord {
        name: Some(name.to_string()),
        is_remote: remote,
        tip: Some(TipCommit { id: oid('e'), time: 1_700_000_000, summary: Some("tip commit".to_string()) }),
        tracking,
    }
}

#[test]
fn branch_scope_choices() {
    assert!(matches!(branch_scope(true, true), BranchScope::All));
    assert!(matches!(branch_scope(true, false), BranchScope::Remote));
    assert!(matches!(branch_scope(false, false), BranchScope::Local));
}

#[test]
fn branches_skip_unlisted_and_sort() {
    let mut no_name = branch("x", false, None);
    no_name.name = None;
    let mut no_tip = branch("y", false, None);
    no_tip.tip = None;
    let records = vec![
        branch("zeta", false, None),
        no_name,
        branch("origin/main", true, Some(Tracking { upstream: "u".to_string(), ahead: 1, behind: 1 })),
        no_tip,
        branch("Alpha", false, None),
        branch("main", false, Some(Tracking { upstream: "origin/main".to_string(), ahead: 3, behind: 0 })),
    ];
    let out = branches_output("r".to_string(), Some("main".to_string()), &records);
    let names: Vec<&str> = out.branches.iter().map(|b| b.name.as_str()).collect();
    assert_eq!(names, vec!["main", "Alpha", "origin/main", "zeta"]);
    assert_eq!(out.count, 4);
    assert!(out.branches[0].current);
    assert_eq!(out.branches[0].upstream, Some("origin/main".to_string()));
    assert_eq!(out.branches[0].ahead, Some(3));
    assert_eq!(out.branches[0].behind, Some(0));
    // A remote-tracking branch has no upstream, whatever was read.
    assert_eq!(out.branches[2].upstream, None);
    assert_eq!(out.branches[2].ahead, None);
}

#[test]
fn remote_branch_named_like_current_is_not_current() {
    let e = branch_entry(&Some("main".to_string()), &branch("main", true, None)).unwrap();
    assert!(!e.current);
    assert!(e.remote);
}

#[test]
fn branches_table_lines() {
    let records = vec![
        branch("main", false, Some(Tracking { upstream: "origin/main".to_string(), ahead: 3, behind: 0 })),
        branch("origin/main", true, None),
    ];
    let out = branches_output("r".to_string(), Some("main".to_string()), &records);
    let lines = branches_table(&out);
    let rule = "-".repeat(90);
    assert_eq!(lines.len(), 6);
    assert_eq!(lines[0], "repo: r  branches: 2");
    assert_eq!(lines[1], rule);
    assert_eq!(
        lines[2],
        format!("  {:<35} {:<30} {:>6} {:>7}  {:<9} MESSAGE", "BRANCH", "UPSTREAM", "AHEAD", "BEHIND", "COMMIT")
    );
    assert_eq!(lines[3], rule);
    assert_eq!(
        lines[4],
        format!("{}{:<35} {:<30} {:>6} {:>7}  {:<9} {}{}", "* ", "main", "origin/main", "3", "0", "eeeeeee", "tip commit", "")
    );
    assert_eq!(
        lines[5],
        format!("{}{:<35} {:<30} {:>6} {:>7}  {:<9} {}{}", "  ", "origin/main", "-", "-", "-", "eeeeeee", "tip commit", " [remote]")
    );
}

#[test]
fn stash_time_defaults_to_zero() {
    let records = vec![
        StashRecord { index: 0, message: "WIP on main".to_string(), id: oid('1'), time: Some(1_700_000_000) },
        StashRecord { index: 1, message: "older".to_string(), id: oid('2'), time: None },
    ];
    let out = stash_output("r".to_string(), &records);
    assert_eq!(out.entries[0].time, 1_700_000_000);
    assert_eq!(out.entries[1].time, 0);
    assert_eq!(out.entries[1].index, 1);
    assert_eq!(out.entries[1].commit, "2222222");
    let lines = stash_table(&out);
    assert_eq!(lines[0], "repo: r  stash entries: 2");
    assert_eq!(lines[2], format!("{:<6} {:<12} {:<12} MESSAGE", "INDEX", "COMMIT", "DATE"));
    assert_eq!(lines[4], format!("{:<6} {:<12} {:<12} {}", 0, "1111111", "2023-11-14", "WIP on main"));
    assert_eq!(lines[5], format!("{:<6} {:<12} {:<12} {}", 1, "2222222", "1970-01-01", "older"));
    let empty = stash_output("r".to_string(), &Vec::new());
    assert_eq!(stash_table(&empty), vec!["repo: r  stash entries: 0".to_string(), "(no stash entries)".to_string()]);
}

#[test]
fn tag_names_lose_every_refs_tags_prefix() {
    assert_eq!(tag_name_text(&b"refs/tags/v1".to_vec()), "v1");
    assert_eq!(tag_name_text(&b"refs/tags/refs/tags/v1".to_vec()), "v1");
    assert_eq!(tag_name_text(&b"v1".to_vec()), "v1");
    assert_eq!(tag_name_text(&b"refs/tags/caf\xc3\xa9".to_vec()), "caf\u{e9}");
    assert_eq!(tag_name_text(&vec![0xff, 0xfe]), "");
}

#[test]
fn tags_sorted_newest_first_and_limited() {
    let records = vec![
        TagRecord { name_bytes: b"refs/tags/old".to_vec(), target: TagTarget::Lightweight { commit: oid('1'), time: 100 } },
        TagRecord { name_bytes: b"refs/tags/tree".to_vec(), target: TagTarget::Other },
        TagRecord {
            name_bytes: b"refs/tags/new".to_vec(),
            target: TagTarget::Annotated {
                target: oid('2'),
                target_time: Some(300),
                message: Some("  \n".to_string()),
                tagger: Some(Tagger { name: None, time: 310 }),
            },
        },
        TagRecord {
            name_bytes: b"refs/tags/mid".to_vec(),
            target: TagTarget::Annotated { target: oid('3'), target_time: Some(200), message: Some(" Notes \n".to_string()), tagger: None },
        },
        TagRecord {
            name_bytes: b"refs/tags/blob".to_vec(),
            target: TagTarget::Annotated { target: oid('5'), target_time: None, message: Some("a blob".to_string()), tagger: None },
        },
        TagRecord { name_bytes: b"refs/tags/same".to_vec(), target: TagTarget::Lightweight { commit: oid('4'), time: 100 } },
    ];
    let out = tags_output("r".to_string(), 0, &records);
    let names: Vec<&str> = out.tags.iter().map(|t| t.name.as_str()).collect();
    assert_eq!(names, vec!["new", "mid", "old", "same"]);
    assert_eq!(out.count, 4);
    assert_eq!(out.tags[0].message, None);
    assert_eq!(out.tags[0].tagger_name, None);
    assert_eq!(out.tags[0].tagger_time, Some(310));
    assert!(out.tags[0].is_annotated);
    assert_eq!(out.tags[1].commit_time, 200);
    assert_eq!(out.tags[1].commit, "3333333");
    assert_eq!(out.tags[1].message, Some("Notes".to_string()));
    assert!(!out.tags[2].is_annotated);
    let limited = tags_output("r".to_string(), 3, &records);
    assert_eq!(limited.count, 3);
    assert_eq!(limited.tags[2].name, "old");
}

#[test]
fn tags_table_lines() {
    let records = vec![TagRecord {
        name_bytes: b"refs/tags/v1".to_vec(),
        target: TagTarget::Lightweight { commit: oid('1'), time: 1_700_000_000 },
    }];
    let out = tags_output("r".to_string(), 0, &records);
    let lines = tags_table(&out);
    assert_eq!(lines[0], "repo: r  tags: 1");
    assert_eq!(lines[1], "-".repeat(80));
    assert_eq!(lines[2], format!("{:<25} {:<9} {:<12} {:<5} MESSAGE", "TAG", "COMMIT", "DATE", "TYPE"));
    assert_eq!(lines[4], format!("{:<25} {:<9} {:<12} {:<5} {}", "v1", "1111111", "2023-11-14", "lite", "-"));
    let empty = tags_output("r".to_string(), 0, &Vec::new());
    assert_eq!(tags_table(&empty), vec!["repo: r  tags: 0".to_string(), "(no tags)".to_string()]);
}

#[test]
fn commit_body_agrees_with_std_lines_after_first_blank() {
    let messages = [
        "Subject\n\nBody",
        "Subject\n\na\rb\r\nc\r",
        "S\r\n\r\n  indented\n\n\nlast\n\n",
        "S\nT\nU\nV",
        "S\nT\n\nU\nV",
        "\n\n\n",
        "only\n",
        "S\n\n\u{3000}wide space\u{a0}\u{2029}",
    ];
    for m in messages.iter() {
        let rest = m
            .lines()
            .skip_while(|l| !l.trim().is_empty())
            .skip(1)
            .collect::<Vec<_>>()
            .join("\n");
        let trimmed = rest.trim();
        let expected = if trimmed.is_empty() { None } else { Some(trimmed.to_string()) };
        assert_eq!(commit_body(m), expected, "message {:?}", m);
    }
}

#[test]
fn truncate_agrees_with_byte_slicing() {
    let texts = ["", "a", "hello world", "h\u{e9}llo w\u{f6}rld", "\u{65e5}\u{672c}\u{8a9e}"];
    for s in texts.iter() {
        for max in 0..16usize {
            let cut = max.saturating_sub(1);
            if s.len() > max && !s.is_char_boundary(cut) {
                continue;
            }
            let expected = if s.len() <= max { s.to_string() } else { format!("{}\u{2026}", &s[..cut]) };
            assert_eq!(truncate(s, max), expected, "text {:?} max {}", s, max);
        }
    }
}

#[test]
fn truncate_twice_is_truncate_once() {
    for (s, max) in [("hello world", 5usize), ("h\u{e9}llo", 4), ("ab", 1), ("short", 10), ("abcdef", 6)] {
        let once = truncate(s, max);
        assert_eq!(truncate(&once, max), once, "text {:?} max {}", s, max);
    }
}

#[test]
fn format_epoch_keeps_order_and_shape() {
    let times: [i64; 6] = [0, 86_399, 86_400, 951_782_400, 1_700_000_000, 253_402_300_799];
    for w in times.windows(2) {
        let a = format_epoch(w[0]);
        let b = format_epoch(w[1]);
        assert_eq!(a.len(), 10);
        assert_eq!(b.len(), 10);
        assert!(a <= b, "{} then {}", a, b);
    }
}

#[test]
fn status_without_branch_has_no_upstream() {
    let tracking = Some(Tracking { upstream: "origin/main".to_string(), ahead: 2, behind: 1 });
    let out = status_output("r".to_string(), None, tracking, &Vec::new());
    assert_eq!(out.branch, None);
    assert_eq!(out.upstream, None);
    assert_eq!(out.ahead, None);
    assert_eq!(out.behind, None);
    assert!(out.clean);
}

#[test]
fn tag_whose_target_is_not_a_commit_is_skipped() {
    let blob = TagRecord {
        name_bytes: b"refs/tags/notes".to_vec(),
        target: TagTarget::Annotated { target: oid('6'), target_time: None, message: Some("n".to_string()), tagger: None },
    };
    assert!(tag_entry(&blob).is_none());
    let out = tags_output("r".to_string(), 0, &vec![blob]);
    assert_eq!(out.count, 0);
    assert!(out.tags.is_empty());
}

#[test]
fn one_current_branch_among_distinct_names() {
    let records = vec![
        branch("dev", false, None),
        branch("main", false, None),
        branch("origin/main", true, None),
        branch("main-old", false, None),
    ];
    let out = branches_output("r".to_string(), Some("main".to_string()), &records);
    let current: Vec<&str> = out.branches.iter().filter(|b| b.current).map(|b| b.name.as_str()).collect();
    assert_eq!(current, vec!["main"]);
}
