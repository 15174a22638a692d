//! Tests of URL parsing, repository discovery, and the parallel
//! executor's fan-out and failure isolation.

use repofleet::giturl::{parse_git_url, slug_from_remote_url};
use repofleet::parallel::{ParallelExecutor, WorkError};
use repofleet::repo::{
    collect_discovered, dedup_by_slug, filter_repos_by_names, ChildScan, DiscoveryFailure,
    PathScan, RepoDiscovery, RepoInfo, SubdirScan,
};

#[test]
fn test_parse_git_url_ssh() {
    let url = "git@github.com:owner/repo.git";
    assert_eq!(parse_git_url(url), Some("owner/repo".to_string()));
}

#[test]
fn test_parse_git_url_ssh_no_git() {
    let url = "git@github.com:owner/repo";
    assert_eq!(parse_git_url(url), Some("owner/repo".to_string()));
}

#[test]
fn test_parse_git_url_https() {
    let url = "https://github.com/owner/repo.git";
    assert_eq!(parse_git_url(url), Some("owner/repo".to_string()));
}

#[test]
fn test_parse_git_url_https_no_git() {
    let url = "https://github.com/owner/repo";
    assert_eq!(parse_git_url(url), Some("owner/repo".to_string()));
}

#[test]
fn test_parse_git_url_invalid() {
    let url = "invalid-url";
    assert_eq!(parse_git_url(url), None);
}

#[test]
fn test_parse_git_url_empty() {
    let url = "";
    assert_eq!(parse_git_url(url), None);
}

#[test]
fn test_parse_git_url_strips_repeated_git() {
    assert_eq!(
        parse_git_url("git@github.com:owner/repo.git.git"),
        Some("owner/repo".to_string())
    );
}

#[test]
fn test_parse_git_urls() {
    let urls = vec![
        "https://github.com/repo/slug",
        "git@github.com:repo/slug",
        "ssh://git@github.com/repo/slug",
        "git://github.com/repo/slug",
    ];
    for url in urls {
        assert_eq!(
            slug_from_remote_url(url).unwrap(),
            "repo/slug",
            "URL parsing failed for: {}",
            url
        );
    }
}

#[test]
fn test_slug_from_remote_url_rejections() {
    assert_eq!(slug_from_remote_url("ftp://github.com/a/b"), None);
    assert_eq!(slug_from_remote_url("https://github.com/onlyowner"), None);
    assert_eq!(slug_from_remote_url("https://github.com/a/b/c"), None);
    assert_eq!(slug_from_remote_url("plain-text"), None);
}

#[test]
fn test_slug_from_remote_url_strips_one_git() {
    assert_eq!(
        slug_from_remote_url("https://github.com/a/b.git").unwrap(),
        "a/b"
    );
    assert_eq!(
        slug_from_remote_url("git@host:a/b.git.git").unwrap(),
        "a/b.git"
    );
}

#[test]
fn test_repo_info_new() {
    let path = "/test/repo".to_string();
    let slug = "owner/repo".to_string();
    let info = RepoInfo::new(path.clone(), slug.clone());

    assert_eq!(info.path, path);
    assert_eq!(info.slug, slug);
}

#[test]
fn test_repo_info_from_remote_url_excludes_unparsable() {
    let bad = RepoInfo::from_remote_url("/r".to_string(), "not-a-remote");
    assert!(bad.is_err());
    assert_eq!(bad.unwrap_err().path, "/r");
    let known =
        RepoInfo::from_remote_url("/r".to_string(), "git@github.com:org/name.git").unwrap();
    assert_eq!(known.slug, "org/name");
}

#[test]
fn test_discovery_excludes_unparsable_remote() {
    let results = vec![
        RepoInfo::from_remote_url("/good".to_string(), "git@github.com:o/g.git"),
        RepoInfo::from_remote_url("/bad".to_string(), "not-a-remote"),
    ];
    let kept = collect_discovered(results);
    assert_eq!(kept.len(), 1);
    assert_eq!(kept[0].slug, "o/g");
}

#[test]
fn test_repo_discovery_new() {
    let paths = vec![".".to_string(), "/tmp".to_string()];
    let discovery = RepoDiscovery::new(paths.clone());
    assert_eq!(discovery.paths, paths);
}

#[test]
fn test_find_repo_paths_empty() {
    let discovery = RepoDiscovery::new(vec![]);
    let result = discovery.find_repo_paths(&vec![]);
    assert!(result.is_empty());
}

#[test]
fn test_find_repo_paths_two_level_layout() {
    let discovery = RepoDiscovery::new(vec!["root".to_string()]);
    let scans = vec![PathScan {
        path: "root".to_string(),
        is_repo: false,
        is_dir: true,
        children: vec![ChildScan {
            path: "root/org".to_string(),
            is_repo: false,
            is_dir: true,
            children: vec![SubdirScan {
                path: "root/org/repo".to_string(),
                is_repo: true,
            }],
        }],
    }];
    let found = discovery.find_repo_paths(&scans);
    assert_eq!(found, vec!["root/org/repo".to_string()]);
    let info = RepoInfo::from_remote_url(found[0].clone(), "git@github.com:org/repo.git").unwrap();
    assert_eq!(info.slug, "org/repo");
}

#[test]
fn test_find_repo_paths_direct_and_child() {
    let discovery = RepoDiscovery::new(vec!["a".to_string(), "b".to_string()]);
    let scans = vec![
        PathScan {
            path: "a".to_string(),
            is_repo: true,
            is_dir: true,
            children: vec![],
        },
        PathScan {
            path: "b".to_string(),
            is_repo: false,
            is_dir: true,
            children: vec![
                ChildScan {
                    path: "b/x".to_string(),
                    is_repo: true,
                    is_dir: true,
                    children: vec![],
                },
                ChildScan {
                    path: "b/note.txt".to_string(),
                    is_repo: false,
                    is_dir: false,
                    children: vec![],
                },
            ],
        },
    ];
    assert_eq!(
        discovery.find_repo_paths(&scans),
        vec!["a".to_string(), "b/x".to_string()]
    );
}

#[test]
fn test_collect_discovered_drops_failures() {
    let results = vec![
        Ok(RepoInfo::new("/a".to_string(), "o/a".to_string())),
        Err(DiscoveryFailure {
            path: "/bad".to_string(),
            message: "not a repository".to_string(),
        }),
        Ok(RepoInfo::new("/b".to_string(), "o/b".to_string())),
    ];
    let kept = collect_discovered(results);
    assert_eq!(kept.len(), 2);
    assert_eq!(kept[0].slug, "o/a");
    assert_eq!(kept[1].slug, "o/b");
}

#[test]
fn test_dedup_by_slug_first_seen_wins() {
    let repos = vec![
        RepoInfo::new("/first".to_string(), "o/dup".to_string()),
        RepoInfo::new("/other".to_string(), "o/unique".to_string()),
        RepoInfo::new("/second".to_string(), "o/dup".to_string()),
    ];
    let deduped = dedup_by_slug(repos);
    assert_eq!(deduped.len(), 2);
    assert_eq!(deduped[0].path, "/first");
    assert_eq!(deduped[1].slug, "o/unique");
}

#[test]
fn test_parallel_executor_new() {
    let repos = vec![
        RepoInfo::new("/test1".to_string(), "owner/repo1".to_string()),
        RepoInfo::new("/test2".to_string(), "owner/repo2".to_string()),
    ];
    let executor = ParallelExecutor::new(repos.clone());
    assert_eq!(executor.len(), 2);
    assert_eq!(executor.repos(), &repos);
}

#[test]
fn test_execute_success() {
    let repos = vec![
        RepoInfo::new("/test1".to_string(), "owner/repo1".to_string()),
        RepoInfo::new("/test2".to_string(), "owner/repo2".to_string()),
    ];
    let executor = ParallelExecutor::new(repos);

    let results = executor.execute(|repo: &RepoInfo| Ok(Some(repo.slug.clone())));

    assert_eq!(results.len(), 2);
    assert!(results.contains(&"owner/repo1".to_string()));
    assert!(results.contains(&"owner/repo2".to_string()));
}

#[test]
fn test_execute_with_filtering() {
    let repos = vec![
        RepoInfo::new("/test1".to_string(), "owner/repo1".to_string()),
        RepoInfo::new("/test2".to_string(), "owner/repo2".to_string()),
    ];
    let executor = ParallelExecutor::new(repos);

    let results = executor.execute(|repo: &RepoInfo| {
        if repo.slug.contains("repo1") {
            Ok(Some(repo.slug.clone()))
        } else {
            Ok(None)
        }
    });

    assert_eq!(results.len(), 1);
    assert_eq!(results[0], "owner/repo1");
}

#[test]
fn test_execute_with_state() {
    let repos = vec![
        RepoInfo::new("/test1".to_string(), "owner/repo1".to_string()),
        RepoInfo::new("/test2".to_string(), "owner/repo2".to_string()),
    ];
    let executor = ParallelExecutor::new(repos);

    let final_state = executor.execute_with_state(
        Vec::<String>::new(),
        |repo: &RepoInfo| Ok(Some(repo.slug.clone())),
        |mut state: Vec<String>, slug: String| {
            state.push(slug);
            state
        },
    );

    assert_eq!(final_state.len(), 2);
    assert!(final_state.contains(&"owner/repo1".to_string()));
    assert!(final_state.contains(&"owner/repo2".to_string()));
}

#[test]
fn test_parallel_executor_integration() {
    let repos = vec![
        RepoInfo::new("/test1".to_string(), "owner/repo1".to_string()),
        RepoInfo::new("/test2".to_string(), "owner/repo2".to_string()),
    ];

    let executor = ParallelExecutor::new(repos);
    let results: Vec<String> = executor.execute(|repo_info: &RepoInfo| Ok(Some(repo_info.slug.clone())));

    assert_eq!(results.len(), 2);
    assert!(results.contains(&"owner/repo1".to_string()));
    assert!(results.contains(&"owner/repo2".to_string()));
}

#[test]
fn test_execute_isolates_single_failure() {
    let repos: Vec<RepoInfo> = (0..5)
        .map(|i| RepoInfo::new(format!("/r{}", i), format!("owner/repo{}", i)))
        .collect();
    let executor = ParallelExecutor::new(repos);

    let results = executor.execute(|repo: &RepoInfo| {
        if repo.slug == "owner/repo2" {
            Err(WorkError::new("deliberate failure".to_string()))
        } else {
            Ok(Some(repo.slug.clone()))
        }
    });

    assert_eq!(results.len(), 4);
    assert!(!results.contains(&"owner/repo2".to_string()));
    for i in [0usize, 1, 3, 4] {
        assert!(results.contains(&format!("owner/repo{}", i)));
    }
}

#[test]
fn test_execute_all_keeps_failures() {
    let repos = vec![
        RepoInfo::new("/a".to_string(), "o/a".to_string()),
        RepoInfo::new("/b".to_string(), "o/b".to_string()),
    ];
    let executor = ParallelExecutor::new(repos);
    assert!(!executor.is_empty());

    let outcomes = executor.execute_all(|repo: &RepoInfo| {
        if repo.slug == "o/b" {
            Err(WorkError::new("broken".to_string()))
        } else {
            Ok(repo.slug.clone())
        }
    });

    assert_eq!(outcomes.len(), 2);
    assert_eq!(outcomes[0], Ok("o/a".to_string()));
    assert!(outcomes[1].is_err());
}

#[test]
fn test_filter_repos_by_names_smart_matching() {
    let repos = vec![
        RepoInfo::new("/a".to_string(), "acme/widgets".to_string()),
        RepoInfo::new("/b".to_string(), "acme/gadgets".to_string()),
        RepoInfo::new("/c".to_string(), "other/tools".to_string()),
    ];
    let names = vec![
        "widgets".to_string(),
        "other/tools".to_string(),
        "nothing".to_string(),
    ];
    let (kept, unmatched) = filter_repos_by_names(repos, &names);
    let slugs: Vec<&str> = kept.iter().map(|r| r.slug.as_str()).collect();
    assert_eq!(slugs, vec!["acme/widgets", "other/tools"]);
    assert_eq!(unmatched, vec!["nothing".to_string()]);
}
