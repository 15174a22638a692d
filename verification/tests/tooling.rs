//! Tests of the satellite tooling logic: contributor extraction, date
//! arithmetic, staleness reports, cloning decisions, and the GitHub
//! listing helpers.

use repofleet::authors::{parse_name_list, top_authors_from_shortlog};
use repofleet::cloneops::{
    build_repo_lookup_url, clone_args, default_remote_urls, lookup_ssh_key, org_of_repospec,
    sha_from_ls_remote, worktree_state, ConfigEntry, ConfigSection,
};
use repofleet::cloneops::parse_config;
use repofleet::dates::{age_days, epoch_days, parse_rfc3339, parse_ymd, u64_to_string};
use repofleet::github::{collect_repo_page, sort_repo_listing, PageRepo, RepoType};
use repofleet::span::{commit_in_window, parse_duration, parse_span};
use repofleet::stale::{
    author_stats, entries_of_author, sort_entries_by_age, stale_branch_entries, stale_pr_entries,
    PrRecord, StaleEntry,
};

fn strings(items: &[&str]) -> Vec<String> {
    items.iter().map(|s| s.to_string()).collect()
}

#[test]
fn test_top_authors_from_shortlog() {
    let text = "   12\tAlice Smith\n    5\tBob\n";
    let authors = top_authors_from_shortlog(text, 5, &Vec::new());
    assert_eq!(authors, strings(&["Alice Smith (12)", "Bob (5)"]));
}

#[test]
fn test_top_authors_exclusion_and_limit() {
    let text = "  9 Carol\n  7 Dave\n  3 Erin\n";
    let excluded = top_authors_from_shortlog(text, 5, &strings(&["Dave"]));
    assert_eq!(excluded, strings(&["Carol (9)", "Erin (3)"]));
    let limited = top_authors_from_shortlog(text, 1, &Vec::new());
    assert_eq!(limited, strings(&["Carol (9)"]));
}

#[test]
fn test_parse_name_list_trims_and_dedups() {
    let names = parse_name_list(" alice \n\nbob\nalice\n  \n");
    assert_eq!(names, strings(&["alice", "bob"]));
}

#[test]
fn test_parse_ymd_validates_calendar() {
    assert_eq!(parse_ymd("2023-01-02"), Some((2023, 1, 2)));
    assert_eq!(parse_ymd("2024-02-29"), Some((2024, 2, 29)));
    assert_eq!(parse_ymd("2023-02-29"), None);
    assert_eq!(parse_ymd("2023-13-01"), None);
    assert_eq!(parse_ymd("2023-1-01"), None);
    assert_eq!(parse_ymd("not-a-date!"), None);
}

#[test]
fn test_epoch_days_known_values() {
    assert_eq!(epoch_days(1970, 1, 1), 0);
    assert_eq!(epoch_days(1970, 1, 2), 1);
    assert_eq!(epoch_days(1969, 12, 31), -1);
    assert_eq!(epoch_days(2023, 1, 1), 19358);
}

#[test]
fn test_age_days_truncates_toward_zero() {
    assert_eq!(age_days(86400 * 3 + 100, 0), 3);
    assert_eq!(age_days(0, 86400 * 3 + 100), -3);
    assert_eq!(age_days(500, 0), 0);
}

#[test]
fn test_u64_to_string_renders_decimal() {
    assert_eq!(u64_to_string(0), "0");
    assert_eq!(u64_to_string(7), "7");
    assert_eq!(u64_to_string(1234), "1234");
    assert_eq!(u64_to_string(1000000), "1000000");
}

#[test]
fn test_parse_rfc3339_forms() {
    // 2023-01-01T00:00:00Z is 1672531200 seconds after the epoch.
    assert_eq!(parse_rfc3339("2023-01-01T00:00:00Z"), Some(1672531200));
    assert_eq!(
        parse_rfc3339("2023-01-02T03:04:05Z"),
        Some(1672531200 + 86400 + 3 * 3600 + 4 * 60 + 5)
    );
    assert_eq!(
        parse_rfc3339("2023-01-01T01:00:00+01:00"),
        Some(1672531200)
    );
    assert_eq!(
        parse_rfc3339("2023-01-01T00:00:00-00:30"),
        Some(1672531200 + 1800)
    );
    assert_eq!(
        parse_rfc3339("2023-01-01T00:00:00.123456Z"),
        Some(1672531200)
    );
    assert_eq!(parse_rfc3339("2023-01-01 00:00:00Z"), None);
    assert_eq!(parse_rfc3339("2023-01-01T00:00:00"), None);
}

#[test]
fn test_stale_branch_entries_filters_by_age() {
    // The chosen "now" is one hundred days after 2020-01-01 midnight.
    let day_zero: i64 = epoch_days(2020, 1, 1) * 86400;
    let now = day_zero + 100 * 86400;
    let text = "2020-01-01 origin/feature-x Alice B\n2020-03-25 origin/fresh Bob\nmalformed\n";
    let entries = stale_branch_entries(text, 30, now);
    assert_eq!(entries.len(), 1);
    assert_eq!(entries[0].name, "feature-x");
    assert_eq!(entries[0].age_days, 100);
    assert_eq!(entries[0].author, "Alice B");
}

#[test]
fn test_stale_pr_entries_renders_titles() {
    let now = 1672531200 + 50 * 86400;
    let prs = vec![
        PrRecord {
            title: "Fix bug".to_string(),
            number: 123,
            created_at: "2023-01-01T00:00:00Z".to_string(),
            author: Some("user1".to_string()),
        },
        PrRecord {
            title: "Anonymous change".to_string(),
            number: 7,
            created_at: "2023-01-01T00:00:00Z".to_string(),
            author: None,
        },
        PrRecord {
            title: "Too new".to_string(),
            number: 8,
            created_at: "2023-02-15T00:00:00Z".to_string(),
            author: Some("user2".to_string()),
        },
    ];
    let entries = stale_pr_entries(prs, 30, now);
    assert_eq!(entries.len(), 2);
    assert_eq!(entries[0].name, "Fix bug (pr 123)");
    assert_eq!(entries[0].author, "user1");
    assert_eq!(entries[1].name, "Anonymous change (pr 7)");
    assert_eq!(entries[1].author, "Unknown");
}

fn entry(name: &str, age: i64, author: &str) -> StaleEntry {
    StaleEntry {
        name: name.to_string(),
        age_days: age,
        author: author.to_string(),
    }
}

#[test]
fn test_author_branches_structure() {
    let entries = vec![
        entry("feature-branch", 10, "user1"),
        entry("bugfix-branch", 20, "user1"),
    ];
    let grouped = entries_of_author(&entries, "user1");
    assert_eq!(grouped.len(), 2);
    let stats = author_stats(&entries);
    assert_eq!(stats.len(), 1);
    assert_eq!(stats[0].count, 2);
}

#[test]
fn test_max_age_calculation() {
    let branch_list = vec![
        entry("branch1", 10, "user1"),
        entry("branch2", 25, "user2"),
        entry("branch3", 15, "user1"),
    ];
    let stats = author_stats(&branch_list);
    assert_eq!(stats[0].max_age, 25);
    assert_eq!(branch_list.len(), 3);
}

#[test]
fn test_author_stats_order_and_counts() {
    let entries = vec![
        entry("a", 10, "user1"),
        entry("b", 25, "user2"),
        entry("c", 15, "user1"),
    ];
    let stats = author_stats(&entries);
    assert_eq!(stats.len(), 2);
    assert_eq!(stats[0].author, "user2");
    assert_eq!(stats[0].count, 1);
    assert_eq!(stats[0].max_age, 25);
    assert_eq!(stats[1].author, "user1");
    assert_eq!(stats[1].count, 2);
    assert_eq!(stats[1].max_age, 15);
}

#[test]
fn test_branch_sorting_by_days() {
    let entries = vec![
        entry("old-branch", 30, "user1"),
        entry("newer-branch", 10, "user1"),
        entry("oldest-branch", 50, "user1"),
        entry("middle-branch", 20, "user1"),
        entry("single-branch", 15, "user2"),
    ];
    let user1 = sort_entries_by_age(entries_of_author(&entries, "user1"));
    assert_eq!(user1.len(), 4);
    let days: Vec<i64> = user1.iter().map(|e| e.age_days).collect();
    assert_eq!(days, vec![50, 30, 20, 10]);
    let names: Vec<&str> = user1.iter().map(|e| e.name.as_str()).collect();
    assert_eq!(
        names,
        vec!["oldest-branch", "old-branch", "middle-branch", "newer-branch"]
    );
    let user2 = sort_entries_by_age(entries_of_author(&entries, "user2"));
    assert_eq!(user2.len(), 1);
    assert_eq!(user2[0].age_days, 15);
}

#[test]
fn test_remote_urls_constant() {
    let urls = default_remote_urls();
    assert_eq!(urls.len(), 2);
    assert_eq!(urls[0], "ssh://git@github.com");
    assert_eq!(urls[1], "https://github.com");
}

#[test]
fn test_build_repo_lookup_url_separator() {
    assert_eq!(
        build_repo_lookup_url("git@github.com", "org/repo"),
        "git@github.com:org/repo"
    );
    assert_eq!(
        build_repo_lookup_url("ssh://git@github.com", "org/repo"),
        "ssh://git@github.com/org/repo"
    );
}

#[test]
fn test_sha_from_ls_remote_picks_head() {
    let output = "abc123\tHEAD\ndef456\trefs/heads/main\n";
    assert_eq!(sha_from_ls_remote(output), Some("abc123".to_string()));
    assert_eq!(sha_from_ls_remote("def456\trefs/heads/main\n"), None);
}

#[test]
fn test_worktree_state_reads_porcelain() {
    let (untracked, changed) = worktree_state("?? foo.txt\n M bar.rs\n?? baz/\n");
    assert_eq!(untracked, strings(&["foo.txt", "baz/"]));
    assert!(changed);
    let (none, unchanged) = worktree_state("");
    assert!(none.is_empty());
    assert!(!unchanged);
}

#[test]
fn test_clone_args_with_and_without_mirror() {
    let plain = clone_args("org/repo", "/dest/org/repo", "https://github.com", None);
    assert_eq!(
        plain,
        strings(&["clone", "https://github.com/org/repo", "/dest/org/repo"])
    );
    let mirrored = clone_args(
        "org/repo",
        "/dest/org/repo",
        "ssh://git@github.com",
        Some("/mirrors"),
    );
    assert_eq!(
        mirrored,
        strings(&[
            "clone",
            "ssh://git@github.com/org/repo",
            "/dest/org/repo",
            "--reference",
            "/mirrors/org/repo.git",
        ])
    );
}

#[test]
fn test_org_of_repospec_shapes() {
    assert_eq!(org_of_repospec("org/repo"), "org");
    assert_eq!(org_of_repospec("my-org/my-repo"), "my-org");
    assert_eq!(org_of_repospec("org/repo/extra"), "org");
    assert_eq!(org_of_repospec("invalid-no-slash"), "invalid-no-slash");
}

#[test]
fn test_lookup_ssh_key_with_fallback() {
    let sections = vec![
        ConfigSection {
            name: "org.default".to_string(),
            entries: vec![ConfigEntry {
                key: "sshkey".to_string(),
                value: Some("/keys/default".to_string()),
            }],
        },
        ConfigSection {
            name: "org.testorg".to_string(),
            entries: vec![ConfigEntry {
                key: "sshkey".to_string(),
                value: Some("/path/to/key".to_string()),
            }],
        },
    ];
    assert_eq!(
        lookup_ssh_key(&sections, "testorg"),
        Ok(Some("/path/to/key".to_string()))
    );
    assert_eq!(
        lookup_ssh_key(&sections, "elsewhere"),
        Ok(Some("/keys/default".to_string()))
    );
    // A configuration without a matching or default section is an
    // error, so the clone aborts instead of proceeding without a key.
    assert!(lookup_ssh_key(&Vec::new(), "testorg").is_err());
}

#[test]
fn test_repo_type_urls_and_labels() {
    assert_eq!(
        RepoType::User.repo_url("alice"),
        "https://api.github.com/users/alice/repos"
    );
    assert_eq!(
        RepoType::Org.repo_url("acme"),
        "https://api.github.com/orgs/acme/repos"
    );
    assert_eq!(RepoType::User.label(), "users");
    assert_eq!(RepoType::Org.label(), "orgs");
}

#[test]
fn test_repo_type_from_account_kind() {
    assert_eq!(RepoType::from_account_kind("User"), Some(RepoType::User));
    assert_eq!(
        RepoType::from_account_kind("Organization"),
        Some(RepoType::Org)
    );
    assert_eq!(RepoType::from_account_kind("Bot"), None);
}

#[test]
fn test_collect_repo_page_filters_archived() {
    let page = vec![
        PageRepo {
            full_name: "o/live".to_string(),
            created_at: "2021-05-06T07:08:09Z".to_string(),
            archived: false,
        },
        PageRepo {
            full_name: "o/old".to_string(),
            created_at: "2019-01-02T00:00:00Z".to_string(),
            archived: true,
        },
    ];
    let rows = collect_repo_page(page.clone(), false);
    assert_eq!(rows.len(), 1);
    assert_eq!(rows[0].name, "o/live");
    assert_eq!(rows[0].created, "2021-05-06");
    let all = collect_repo_page(page, true);
    assert_eq!(all.len(), 2);
}

#[test]
fn test_sort_repo_listing_by_date() {
    let page = vec![
        PageRepo {
            full_name: "o/new".to_string(),
            created_at: "2022-01-01T00:00:00Z".to_string(),
            archived: false,
        },
        PageRepo {
            full_name: "o/old".to_string(),
            created_at: "2015-06-01T00:00:00Z".to_string(),
            archived: false,
        },
        PageRepo {
            full_name: "o/mid".to_string(),
            created_at: "2019-03-01T00:00:00Z".to_string(),
            archived: false,
        },
    ];
    let sorted = sort_repo_listing(collect_repo_page(page, false));
    let names: Vec<&str> = sorted.iter().map(|r| r.name.as_str()).collect();
    assert_eq!(names, vec!["o/old", "o/mid", "o/new"]);
}

#[test]
fn test_parse_duration_units() {
    assert_eq!(parse_duration("6m"), Some(6 * 4 * 604800));
    assert_eq!(parse_duration("1y"), Some(52 * 604800));
    assert_eq!(parse_duration("2w"), Some(2 * 604800));
    assert_eq!(parse_duration("90d"), Some(90 * 86400));
    assert_eq!(parse_duration("-3d"), Some(-3 * 86400));
    assert_eq!(parse_duration("+3d"), Some(3 * 86400));
    assert_eq!(parse_duration("3x"), None);
    assert_eq!(parse_duration("d"), None);
    assert_eq!(parse_duration(""), None);
}

#[test]
fn test_parse_duration_large_counts() {
    assert_eq!(parse_duration("9999999999d"), Some(9_999_999_999 * 86400));
    assert_eq!(parse_duration("-9999999999d"), Some(-9_999_999_999 * 86400));
    // A span past the signed 64-bit second bound is rejected, not wrapped.
    assert_eq!(parse_duration("999999999999999999d"), None);
    assert_eq!(parse_duration("9999999999999999999d"), None);
}

#[test]
fn test_parse_span_shapes() {
    assert_eq!(parse_span("6m"), Some((None, 6 * 4 * 604800)));
    assert_eq!(
        parse_span("1y:6m"),
        Some((Some(52 * 604800), 6 * 4 * 604800))
    );
    assert_eq!(parse_span("1y:6m:2w"), None);
    assert_eq!(parse_span("bogus"), None);
}

#[test]
fn test_commit_in_window_bounds() {
    let now = 1_000_000;
    let until = 1000;
    assert!(commit_in_window(999_500, now, until));
    assert!(!commit_in_window(999_000, now, until));
    assert!(!commit_in_window(1_000_000, now, until));
    assert!(!commit_in_window(998_000, now, until));
}

#[test]
fn test_parse_config_sections() {
    let text = "; a comment\n[org.testorg]\nsshkey = /path/to/key\nflag\n[org.default]\nsshkey=/keys/default\n";
    let sections = parse_config(text);
    assert_eq!(sections.len(), 2);
    assert_eq!(sections[0].name, "org.testorg");
    assert_eq!(sections[0].entries.len(), 2);
    assert_eq!(sections[0].entries[0].key, "sshkey");
    assert_eq!(sections[0].entries[0].value, Some("/path/to/key".to_string()));
    assert_eq!(sections[0].entries[1].key, "flag");
    assert_eq!(sections[0].entries[1].value, None);
    assert_eq!(sections[1].entries[0].value, Some("/keys/default".to_string()));
}

#[test]
fn test_parse_config_then_lookup() {
    let text = "[org.testorg]\nsshkey = /path/to/key\n";
    let sections = parse_config(text);
    assert_eq!(
        lookup_ssh_key(&sections, "testorg"),
        Ok(Some("/path/to/key".to_string()))
    );
    assert!(lookup_ssh_key(&sections, "unknown").is_err());
}
