//! Tests of the ownership-analysis core: CODEOWNERS parsing, coverage,
//! the presentation mapping, and whole-repository reports.

use repofleet::codeowners::{load_ownership, parse_codeowners, OwnershipTable};
use repofleet::coverage::{determine_unowned_paths, gather_code_files, is_code_file};
use repofleet::mapping::{build_repo_mapping, MappingEntry, OwnerValue};
use repofleet::report::{
    any_not_owned, process_repo, sorted_entries, PathsReport, RepoReport, RepoStatus,
};

fn strings(items: &[&str]) -> Vec<String> {
    items.iter().map(|s| s.to_string()).collect()
}

fn table_entries(t: &OwnershipTable) -> Vec<(String, Vec<String>)> {
    match t {
        OwnershipTable::Present(es) => es
            .iter()
            .map(|e| (e.pattern.clone(), e.owners.clone()))
            .collect(),
        _ => panic!("expected a Present table"),
    }
}

fn lookup<'a>(rows: &'a [(String, Vec<String>)], key: &str) -> &'a Vec<String> {
    &rows.iter().find(|(k, _)| k == key).expect("key missing").1
}

#[test]
fn test_is_code_file() {
    assert!(is_code_file("test.py"));
    assert!(is_code_file("test.js"));
    assert!(is_code_file("test.ts"));
    assert!(is_code_file("Dockerfile"));
    assert!(is_code_file("Makefile"));
    assert!(!is_code_file("test.txt"));
    assert!(!is_code_file("README.md"));
}

#[test]
fn test_is_code_file_nested_and_case() {
    assert!(is_code_file("tools/build/Dockerfile"));
    assert!(is_code_file("src/APP.PY"));
    assert!(is_code_file("deploy/main.Tf"));
    assert!(!is_code_file(".gitignore"));
    assert!(!is_code_file("noextension"));
    assert!(!is_code_file("dir.py/file"));
}

#[test]
fn test_parse_codeowners_basic() {
    let t = parse_codeowners("* @alice\n/docs/ @bob @carol\n");
    let rows = table_entries(&t);
    assert_eq!(rows.len(), 2);
    assert_eq!(lookup(&rows, "/"), &strings(&["alice"]));
    assert_eq!(lookup(&rows, "/docs/"), &strings(&["bob", "carol"]));
}

#[test]
fn test_parse_codeowners_last_line_wins() {
    let t = parse_codeowners("* @alice\n/docs/ @bob\n* @zoe\n");
    let rows = table_entries(&t);
    assert_eq!(rows.len(), 2);
    assert_eq!(lookup(&rows, "/"), &strings(&["zoe"]));
}

#[test]
fn test_parse_codeowners_skips_comments_and_short_lines() {
    let t = parse_codeowners("# heading\n\n   \nlonelytoken\n/src/ @dev\n");
    let rows = table_entries(&t);
    assert_eq!(rows.len(), 1);
    assert_eq!(lookup(&rows, "/src/"), &strings(&["dev"]));
}

#[test]
fn test_parse_codeowners_crlf_and_at_signs() {
    let t = parse_codeowners("/a/ @@double\r\n/b/ plain\r\n");
    let rows = table_entries(&t);
    assert_eq!(lookup(&rows, "/a/"), &strings(&["double"]));
    assert_eq!(lookup(&rows, "/b/"), &strings(&["plain"]));
}

#[test]
fn test_parsing_is_idempotent() {
    let content = "* @alice\n/docs/ @bob\n# note\nsolo\n";
    let first = parse_codeowners(content);
    let second = parse_codeowners(content);
    assert_eq!(first, second);
}

#[test]
fn test_load_classifies_missing_and_empty() {
    assert!(matches!(load_ownership(None), OwnershipTable::Missing));
    assert!(matches!(
        load_ownership(Some("# just comments\n\n# more\n")),
        OwnershipTable::Empty
    ));
    assert!(matches!(
        load_ownership(Some("* @alice\n")),
        OwnershipTable::Present(_)
    ));
}

#[test]
fn test_determine_unowned_paths_buckets() {
    let t = parse_codeowners("/docs/ @bob\n");
    let entries = match t {
        OwnershipTable::Present(es) => es,
        _ => panic!("expected entries"),
    };
    let files = strings(&["src/main.py", "README.yml", "docs/guide.html"]);
    let unowned = determine_unowned_paths(&entries, &files);
    assert_eq!(unowned.len(), 2);
    assert!(unowned.contains(&"/src/".to_string()));
    assert!(unowned.contains(&"/".to_string()));
}

#[test]
fn test_determine_unowned_paths_empty_when_covered() {
    let t = parse_codeowners("* @alice\n");
    let entries = match t {
        OwnershipTable::Present(es) => es,
        _ => panic!("expected entries"),
    };
    let files = strings(&["src/main.py", "docs/a.html"]);
    let unowned = determine_unowned_paths(&entries, &files);
    assert!(unowned.is_empty());
}

#[test]
fn test_gather_code_files_excludes_git_trees() {
    let files = strings(&[
        ".git/config.py",
        ".github/workflows/ci.yml",
        "src/main.py",
        "notes.txt",
    ]);
    let code = gather_code_files(&files);
    assert_eq!(code, strings(&["src/main.py"]));
}

#[test]
fn test_mapping_order_mixed_depth() {
    let t = parse_codeowners("/a/b/ @deep\n* @alice\n");
    let entries = match t {
        OwnershipTable::Present(es) => es,
        _ => panic!("expected entries"),
    };
    let unowned = strings(&["/docs/"]);
    let rows: Vec<MappingEntry> = build_repo_mapping(&entries, &unowned);
    let keys: Vec<&str> = rows.iter().map(|r| r.path.as_str()).collect();
    assert_eq!(keys, vec!["/", "/docs/", "/a/b/"]);
    assert_eq!(rows[1].value, OwnerValue::Unowned);
}

#[test]
fn test_mapping_values_single_and_many() {
    let t = parse_codeowners("/one/ @a\n/two/ @a @b\n");
    let entries = match t {
        OwnershipTable::Present(es) => es,
        _ => panic!("expected entries"),
    };
    let rows = build_repo_mapping(&entries, &Vec::new());
    let one = rows.iter().find(|r| r.path == "/one/").unwrap();
    let two = rows.iter().find(|r| r.path == "/two/").unwrap();
    assert_eq!(one.value, OwnerValue::One("a".to_string()));
    assert_eq!(two.value, OwnerValue::Many(strings(&["a", "b"])));
}

#[test]
fn test_process_repo_owned_scenario() {
    let files = strings(&["README.md", "docs/x.md", "src/main.py"]);
    let report = process_repo(
        "org/repo".to_string(),
        Some("* @alice\n/docs/ @bob"),
        &files,
        &None,
    )
    .expect("report expected");
    assert_eq!(report.status, RepoStatus::Owned);
    match &report.paths {
        PathsReport::Mapping(rows) => {
            let keys: Vec<&str> = rows.iter().map(|r| r.path.as_str()).collect();
            assert_eq!(keys, vec!["/", "/docs/"]);
            assert_eq!(rows[0].value, OwnerValue::One("alice".to_string()));
            assert_eq!(rows[1].value, OwnerValue::One("bob".to_string()));
        }
        _ => panic!("expected a mapping"),
    }
}

#[test]
fn test_process_repo_missing_marker() {
    let report = process_repo("org/repo".to_string(), None, &Vec::new(), &None)
        .expect("report expected");
    assert_eq!(report.status, RepoStatus::Unowned);
    assert!(matches!(report.paths, PathsReport::MissingMarker));
    assert_eq!(report.paths.marker_text(), Some("MISSING_CODEOWNERS"));
}

#[test]
fn test_process_repo_empty_marker() {
    let report = process_repo(
        "org/repo".to_string(),
        Some("# a comment\n\n# another\n"),
        &Vec::new(),
        &None,
    )
    .expect("report expected");
    assert_eq!(report.status, RepoStatus::Unowned);
    assert!(matches!(report.paths, PathsReport::EmptyMarker));
    assert_eq!(report.paths.marker_text(), Some("EMPTY_CODEOWNERS"));
}

#[test]
fn test_process_repo_partial_status() {
    let files = strings(&["src/main.py", "docs/a.html"]);
    let report = process_repo(
        "org/repo".to_string(),
        Some("/docs/ @bob"),
        &files,
        &None,
    )
    .expect("report expected");
    assert_eq!(report.status, RepoStatus::Partial);
    assert!(report.needs_authors());
    match &report.paths {
        PathsReport::Mapping(rows) => {
            let unowned = rows.iter().find(|r| r.path == "/src/").unwrap();
            assert_eq!(unowned.value, OwnerValue::Unowned);
        }
        _ => panic!("expected a mapping"),
    }
}

#[test]
fn test_try_process_repo_missing_codeowners() {
    let result = process_repo(
        "testorg/testrepo".to_string(),
        None,
        &Vec::new(),
        &None,
    );
    assert!(result.is_some());
    let report = result.unwrap();
    assert_eq!(report.slug, "testorg/testrepo");
    assert_eq!(report.status.label(), "unowned");
}

#[test]
fn test_try_process_repo_with_codeowners() {
    let result = process_repo(
        "testorg/testrepo".to_string(),
        Some("* @owner1\n/docs/ @docs-team"),
        &Vec::new(),
        &None,
    );
    assert!(result.is_some());
    let report = result.unwrap();
    assert_eq!(report.slug, "testorg/testrepo");
    assert_ne!(report.status.label(), "unowned");
}

#[test]
fn test_try_process_repo_with_filter() {
    let filter = Some(strings(&["owned"]));
    let result = process_repo("testorg/testrepo".to_string(), None, &Vec::new(), &filter);
    assert!(result.is_none());
}

#[test]
fn test_set_authors_round_trip() {
    let mut report = process_repo("org/repo".to_string(), None, &Vec::new(), &None).unwrap();
    assert!(report.needs_authors());
    report.set_authors(strings(&["Alice (3)"]));
    assert_eq!(report.authors, Some(strings(&["Alice (3)"])));
}

#[test]
fn test_sorted_entries_rank_then_slug() {
    let mk = |slug: &str, status: RepoStatus| RepoReport {
        slug: slug.to_string(),
        status,
        paths: PathsReport::MissingMarker,
        authors: None,
    };
    let sorted = sorted_entries(vec![
        mk("zeta/one", RepoStatus::Owned),
        mk("beta/two", RepoStatus::Unowned),
        mk("alpha/three", RepoStatus::Owned),
        mk("gamma/four", RepoStatus::Partial),
    ]);
    let order: Vec<(&str, RepoStatus)> = sorted
        .iter()
        .map(|r| (r.slug.as_str(), r.status))
        .collect();
    assert_eq!(
        order,
        vec![
            ("beta/two", RepoStatus::Unowned),
            ("gamma/four", RepoStatus::Partial),
            ("alpha/three", RepoStatus::Owned),
            ("zeta/one", RepoStatus::Owned),
        ]
    );
}

#[test]
fn test_any_not_owned_drives_exit_code() {
    let mk = |status: RepoStatus| RepoReport {
        slug: "o/r".to_string(),
        status,
        paths: PathsReport::MissingMarker,
        authors: None,
    };
    assert!(!any_not_owned(&vec![mk(RepoStatus::Owned)]));
    assert!(any_not_owned(&vec![mk(RepoStatus::Owned), mk(RepoStatus::Partial)]));
    assert!(!any_not_owned(&Vec::new()));
}
