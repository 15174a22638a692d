//! Repository descriptors and bounded-depth repository discovery.
//!
//! Discovery works on a snapshot of the directory facts it is allowed to
//! look at: for each configured path, whether that path is itself a
//! repository root (it contains a `.git` directory), and if not, the same
//! question for its immediate children and grandchildren.  The binaries
//! gather such a snapshot with exactly that bounded set of filesystem
//! queries; the decisions over the snapshot are made and proved here.

use vstd::prelude::*;
use vstd::string::StringExecFns;
use crate::diag::report_failure;
use crate::giturl::github_slug_of;
use crate::text::{contains_substring, has_substring, str_eq};

verus! {

/// A discovered Git repository: its root path and its `owner/name` slug.
#[derive(Debug, Clone, PartialEq, Eq)]
pub struct RepoInfo {
    /// The filesystem path to the repository root.
    pub path: String,
    /// The repository slug in `owner/repo` format.
    pub slug: String,
}

impl RepoInfo {
    /// Bundles a path and a slug into a descriptor.
    pub fn new(path: String, slug: String) -> (r: Self)
        ensures
            r.path == path,
            r.slug == slug,
    {
        RepoInfo { path, slug }
    }

    /// Builds the descriptor for a repository root from the URL its
    /// `origin` remote reported.
    ///
    /// A URL with no known shape is a discovery failure: the repository
    /// is logged and excluded from the result set, never reported under
    /// a placeholder slug.
    pub fn from_remote_url(path: String, url: &str) -> (r: Result<Self, DiscoveryFailure>)
        ensures
            r is Ok <==> github_slug_of(url@) is Some,
            r is Ok ==> r->Ok_0.path == path && r->Ok_0.slug@ == github_slug_of(url@)->Some_0,
            r is Err ==> r->Err_0.path == path && r->Err_0.message@
                == "failed to parse the remote URL: "@ + url@,
    {
        match crate::giturl::parse_git_url(url) {
            Some(slug) => Ok(RepoInfo { path, slug }),
            None => Err(
                DiscoveryFailure {
                    path,
                    message: "failed to parse the remote URL: ".to_owned().concat(url),
                },
            ),
        }
    }
}

/// The repository-root facts about one grandchild directory.
#[derive(Debug, Clone, PartialEq, Eq)]
pub struct SubdirScan {
    pub path: String,
    pub is_repo: bool,
}

/// The facts about one immediate child of a configured path: whether it
/// is a repository root, whether it is a directory, and — when it is a
/// plain directory — the facts about its immediate children.
#[derive(Debug, Clone, PartialEq, Eq)]
pub struct ChildScan {
    pub path: String,
    pub is_repo: bool,
    pub is_dir: bool,
    pub children: Vec<SubdirScan>,
}

/// The facts about one configured path.
#[derive(Debug, Clone, PartialEq, Eq)]
pub struct PathScan {
    pub path: String,
    pub is_repo: bool,
    pub is_dir: bool,
    pub children: Vec<ChildScan>,
}

/// The repository roots a grandchild contributes.
pub open spec fn subdir_repo_paths(g: SubdirScan) -> Seq<Seq<char>> {
    if g.is_repo {
        seq![g.path@]
    } else {
        Seq::empty()
    }
}

/// The repository roots one child contributes: itself when it is a
/// repository root, else — when it is a plain directory — the roots among
/// its immediate children.
pub open spec fn child_repo_paths(c: ChildScan) -> Seq<Seq<char>> {
    if c.is_repo {
        seq![c.path@]
    } else if c.is_dir {
        c.children@.map_values(|g: SubdirScan| subdir_repo_paths(g)).flatten()
    } else {
        Seq::empty()
    }
}

/// The repository roots one configured path contributes.
pub open spec fn root_repo_paths(p: PathScan) -> Seq<Seq<char>> {
    if p.is_repo {
        seq![p.path@]
    } else if p.is_dir {
        p.children@.map_values(|c: ChildScan| child_repo_paths(c)).flatten()
    } else {
        Seq::empty()
    }
}

/// All repository roots of a snapshot, in scan order.
pub open spec fn scan_repo_paths(ps: Seq<PathScan>) -> Seq<Seq<char>> {
    ps.map_values(|p: PathScan| root_repo_paths(p)).flatten()
}

/// Repository discovery over a set of configured paths.
#[derive(Debug, Clone, PartialEq, Eq)]
pub struct RepoDiscovery {
    pub paths: Vec<String>,
}

impl RepoDiscovery {
    /// Remembers the paths to search.
    pub fn new(paths: Vec<String>) -> (r: Self)
        ensures
            r.paths == paths,
    {
        RepoDiscovery { paths }
    }

    /// Finds all repository roots in a snapshot of the configured paths:
    /// a path with a `.git` marker is itself a root; otherwise its
    /// children are consulted, and a plain-directory child has its own
    /// children consulted in turn.  This is a fixed two-level bounded
    /// scan, never a full recursive walk.
    pub fn find_repo_paths(&self, scans: &Vec<PathScan>) -> (r: Vec<String>)
        requires
            scans@.len() == self.paths@.len(),
            forall|i: int|
                0 <= i < scans@.len() ==> (#[trigger] scans@[i].path@)
                    == self.paths.deep_view()[i],
        ensures
            r.deep_view() == scan_repo_paths(scans@),
    {
        let mut r: Vec<String> = Vec::new();
        let mut i: usize = 0;
        proof {
            assert(scans@.take(0).map_values(|p: PathScan| root_repo_paths(p))
                =~= Seq::<Seq<Seq<char>>>::empty());
            assert(r.deep_view() =~= scan_repo_paths(scans@.take(0)));
        }
        while i < scans.len()
            invariant
                0 <= i <= scans@.len(),
                r.deep_view() == scan_repo_paths(scans@.take(i as int)),
            decreases scans@.len() - i,
        {
            let p: &PathScan = &scans[i];
            let mut contribution = root_paths_of(p);
            let ghost old_dv = r.deep_view();
            let ghost contrib_dv = contribution.deep_view();
            r.append(&mut contribution);
            proof {
                assert(r.deep_view() =~= old_dv + contrib_dv);
                let taken = scans@.take(i as int).map_values(|q: PathScan| root_repo_paths(q));
                assert(scans@.take(i as int + 1).map_values(|q: PathScan| root_repo_paths(q))
                    =~= taken.push(root_repo_paths(scans@[i as int])));
                taken.lemma_flatten_push(root_repo_paths(scans@[i as int]));
            }
            i = i + 1;
        }
        proof {
            assert(scans@.take(scans@.len() as int) =~= scans@);
        }
        r
    }
}

/// The repository roots contributed by one scanned path.
fn root_paths_of(p: &PathScan) -> (r: Vec<String>)
    ensures
        r.deep_view() == root_repo_paths(*p),
{
    let mut r: Vec<String> = Vec::new();
    if p.is_repo {
        r.push(p.path.clone());
        proof {
            assert(r.deep_view() =~= seq![p.path@]);
        }
        return r;
    }
    if !p.is_dir {
        proof {
            assert(r.deep_view() =~= Seq::<Seq<char>>::empty());
        }
        return r;
    }
    let mut i: usize = 0;
    proof {
        assert(p.children@.take(0).map_values(|c: ChildScan| child_repo_paths(c))
            =~= Seq::<Seq<Seq<char>>>::empty());
        assert(r.deep_view() =~= p.children@.take(0).map_values(
            |c: ChildScan| child_repo_paths(c),
        ).flatten());
    }
    while i < p.children.len()
        invariant
            0 <= i <= p.children@.len(),
            r.deep_view() == p.children@.take(i as int).map_values(
                |c: ChildScan| child_repo_paths(c),
            ).flatten(),
        decreases p.children@.len() - i,
    {
        let c: &ChildScan = &p.children[i];
        let mut contribution = child_paths_of(c);
        let ghost old_dv = r.deep_view();
        let ghost contrib_dv = contribution.deep_view();
        r.append(&mut contribution);
        proof {
            assert(r.deep_view() =~= old_dv + contrib_dv);
            let taken = p.children@.take(i as int).map_values(|c0: ChildScan| child_repo_paths(c0));
            assert(p.children@.take(i as int + 1).map_values(|c0: ChildScan| child_repo_paths(c0))
                =~= taken.push(child_repo_paths(p.children@[i as int])));
            taken.lemma_flatten_push(child_repo_paths(p.children@[i as int]));
        }
        i = i + 1;
    }
    proof {
        assert(p.children@.take(p.children@.len() as int) =~= p.children@);
    }
    r
}

/// The repository roots contributed by one scanned child.
fn child_paths_of(c: &ChildScan) -> (r: Vec<String>)
    ensures
        r.deep_view() == child_repo_paths(*c),
{
    let mut r: Vec<String> = Vec::new();
    if c.is_repo {
        r.push(c.path.clone());
        proof {
            assert(r.deep_view() =~= seq![c.path@]);
        }
        return r;
    }
    if !c.is_dir {
        proof {
            assert(r.deep_view() =~= Seq::<Seq<char>>::empty());
        }
        return r;
    }
    let mut i: usize = 0;
    proof {
        assert(c.children@.take(0).map_values(|g: SubdirScan| subdir_repo_paths(g))
            =~= Seq::<Seq<Seq<char>>>::empty());
        assert(r.deep_view() =~= c.children@.take(0).map_values(
            |g: SubdirScan| subdir_repo_paths(g),
        ).flatten());
    }
    while i < c.children.len()
        invariant
            0 <= i <= c.children@.len(),
            r.deep_view() == c.children@.take(i as int).map_values(
                |g: SubdirScan| subdir_repo_paths(g),
            ).flatten(),
        decreases c.children@.len() - i,
    {
        let g: &SubdirScan = &c.children[i];
        let ghost old_dv = r.deep_view();
        if g.is_repo {
            r.push(g.path.clone());
            proof {
                assert(r.deep_view() =~= old_dv.push(g.path@));
            }
        }
        proof {
            let taken = c.children@.take(i as int).map_values(
                |g0: SubdirScan| subdir_repo_paths(g0),
            );
            assert(c.children@.take(i as int + 1).map_values(|g0: SubdirScan| subdir_repo_paths(g0))
                =~= taken.push(subdir_repo_paths(c.children@[i as int])));
            taken.lemma_flatten_push(subdir_repo_paths(c.children@[i as int]));
            assert(r.deep_view() =~= taken.flatten() + subdir_repo_paths(c.children@[i as int]));
        }
        i = i + 1;
    }
    proof {
        assert(c.children@.take(c.children@.len() as int) =~= c.children@);
    }
    r
}

/// A per-path discovery failure: the path it concerns and its message.
#[derive(Debug, Clone, PartialEq, Eq)]
pub struct DiscoveryFailure {
    pub path: String,
    pub message: String,
}

/// The successful descriptors among per-path resolution outcomes, in
/// order.
pub open spec fn resolved_repos(rs: Seq<Result<RepoInfo, DiscoveryFailure>>) -> Seq<RepoInfo>
    decreases rs.len()
{
    if rs.len() == 0 {
        Seq::empty()
    } else {
        let front = resolved_repos(rs.drop_last());
        match rs.last() {
            Ok(info) => front.push(info),
            Err(_) => front,
        }
    }
}

/// Keeps the descriptors that resolved, dropping each failure with a
/// one-line diagnostic; one path's failure never affects another's
/// outcome.
pub fn collect_discovered(results: Vec<Result<RepoInfo, DiscoveryFailure>>) -> (r: Vec<RepoInfo>)
    ensures
        r@ == resolved_repos(results@),
{
    let ghost rsv = results@;
    let mut rest = results;
    let mut r: Vec<RepoInfo> = Vec::new();
    proof {
        assert(rsv.take(0) =~= Seq::<Result<RepoInfo, DiscoveryFailure>>::empty());
    }
    while rest.len() > 0
        invariant
            rest@.len() <= rsv.len(),
            rest@ == rsv.skip(rsv.len() - rest@.len()),
            r@ == resolved_repos(rsv.take(rsv.len() - rest@.len())),
        decreases rest@.len(),
    {
        let ghost done = rsv.len() - rest@.len();
        let res = rest.remove(0);
        proof {
            assert(rest@ =~= rsv.skip(done + 1));
            assert(rsv.take(done + 1).drop_last() =~= rsv.take(done));
            assert(rsv.take(done + 1).last() == res);
        }
        match res {
            Ok(info) => {
                r.push(info);
            },
            Err(failure) => {
                report_failure(failure.path.as_str(), failure.message.as_str());
            },
        }
        proof {
            assert(r@ == resolved_repos(rsv.take(done + 1)));
        }
    }
    proof {
        assert(rsv.take(rsv.len() as int) =~= rsv);
    }
    r
}

/// Is some earlier descriptor carrying the same slug?
pub open spec fn slug_seen(rs: Seq<RepoInfo>, slug: Seq<char>) -> bool {
    exists|i: int| 0 <= i < rs.len() && (#[trigger] rs[i].slug@) == slug
}

/// Descriptors deduplicated by slug, the first occurrence winning.
pub open spec fn dedup_slugs(rs: Seq<RepoInfo>) -> Seq<RepoInfo>
    decreases rs.len()
{
    if rs.len() == 0 {
        Seq::empty()
    } else {
        let front = dedup_slugs(rs.drop_last());
        if slug_seen(front, rs.last().slug@) {
            front
        } else {
            front.push(rs.last())
        }
    }
}

/// Deduplicates discovered repositories by slug; when two descriptors
/// carry the same slug, the first-seen one wins.
pub fn dedup_by_slug(repos: Vec<RepoInfo>) -> (r: Vec<RepoInfo>)
    ensures
        r@ == dedup_slugs(repos@),
{
    let ghost rsv = repos@;
    let mut rest = repos;
    let mut r: Vec<RepoInfo> = Vec::new();
    proof {
        assert(rsv.take(0) =~= Seq::<RepoInfo>::empty());
    }
    while rest.len() > 0
        invariant
            rest@.len() <= rsv.len(),
            rest@ == rsv.skip(rsv.len() - rest@.len()),
            r@ == dedup_slugs(rsv.take(rsv.len() - rest@.len())),
        decreases rest@.len(),
    {
        let ghost done = rsv.len() - rest@.len();
        let info = rest.remove(0);
        proof {
            assert(rest@ =~= rsv.skip(done + 1));
            assert(rsv.take(done + 1).drop_last() =~= rsv.take(done));
            assert(rsv.take(done + 1).last() == info);
        }
        let mut seen: bool = false;
        let mut j: usize = 0;
        while j < r.len()
            invariant
                0 <= j <= r@.len(),
                seen ==> slug_seen(r@, info.slug@),
                !seen ==> forall|y: int| 0 <= y < j ==> (#[trigger] r@[y].slug@) != info.slug@,
            decreases r@.len() - j,
        {
            if str_eq(r[j].slug.as_str(), info.slug.as_str()) {
                seen = true;
                proof {
                    assert(r@[j as int].slug@ == info.slug@);
                }
            }
            j = j + 1;
        }
        if !seen {
            proof {
                if slug_seen(r@, info.slug@) {
                    let y = choose|y: int|
                        0 <= y < r@.len() && (#[trigger] r@[y].slug@) == info.slug@;
                    assert(false);
                }
            }
            r.push(info);
        }
        proof {
            assert(r@ == dedup_slugs(rsv.take(done + 1)));
        }
    }
    proof {
        assert(rsv.take(rsv.len() as int) =~= rsv);
    }
    r
}


/// Does the bare identifier pick out this slug?  It does when the slug
/// equals the identifier or contains it as a substring.
pub open spec fn name_matches(slug: Seq<char>, name: Seq<char>) -> bool {
    slug == name || has_substring(slug, name)
}

/// Does some identifier pick out the slug?
pub open spec fn any_name_matches(slug: Seq<char>, names: Seq<Seq<char>>) -> bool {
    exists|i: int| 0 <= i < names.len() && name_matches(slug, #[trigger] names[i])
}

/// The descriptors some identifier picks out, in discovery order.
pub open spec fn matched_repos(rs: Seq<RepoInfo>, names: Seq<Seq<char>>) -> Seq<RepoInfo>
    decreases rs.len()
{
    if rs.len() == 0 {
        Seq::empty()
    } else {
        let front = matched_repos(rs.drop_last(), names);
        if any_name_matches(rs.last().slug@, names) {
            front.push(rs.last())
        } else {
            front
        }
    }
}

/// The identifiers that pick out no descriptor, in input order.
pub open spec fn unmatched_names(rs: Seq<RepoInfo>, names: Seq<Seq<char>>) -> Seq<Seq<char>>
    decreases names.len()
{
    if names.len() == 0 {
        Seq::empty()
    } else {
        let front = unmatched_names(rs, names.drop_last());
        if exists|i: int| 0 <= i < rs.len() && name_matches((#[trigger] rs[i]).slug@, names.last()) {
            front
        } else {
            front.push(names.last())
        }
    }
}

/// Does some identifier pick out the slug?
fn slug_matches_any(slug: &str, names: &Vec<String>) -> (r: bool)
    ensures
        r == any_name_matches(slug@, names.deep_view()),
{
    let mut i: usize = 0;
    while i < names.len()
        invariant
            0 <= i <= names@.len(),
            forall|x: int| 0 <= x < i ==> !name_matches(slug@, #[trigger] names.deep_view()[x]),
        decreases names@.len() - i,
    {
        let name: &String = &names[i];
        if str_eq(slug, name.as_str()) || contains_substring(slug, name.as_str()) {
            proof {
                assert(name_matches(slug@, names.deep_view()[i as int]));
            }
            return true;
        }
        i = i + 1;
    }
    proof {
        if any_name_matches(slug@, names.deep_view()) {
            let x = choose|x: int|
                0 <= x < names.deep_view().len() && name_matches(
                    slug@,
                    #[trigger] names.deep_view()[x],
                );
            assert(false);
        }
    }
    false
}

/// Does the identifier pick out some descriptor?
fn name_matches_some(repos: &Vec<RepoInfo>, name: &str) -> (r: bool)
    ensures
        r == exists|i: int|
            0 <= i < repos@.len() && name_matches((#[trigger] repos@[i]).slug@, name@),
{
    let mut i: usize = 0;
    while i < repos.len()
        invariant
            0 <= i <= repos@.len(),
            forall|x: int| 0 <= x < i ==> !name_matches((#[trigger] repos@[x]).slug@, name@),
        decreases repos@.len() - i,
    {
        let slug: &String = &repos[i].slug;
        if str_eq(slug.as_str(), name) || contains_substring(slug.as_str(), name) {
            proof {
                assert(name_matches(repos@[i as int].slug@, name@));
            }
            return true;
        }
        i = i + 1;
    }
    proof {
        if exists|x: int| 0 <= x < repos@.len() && name_matches((#[trigger] repos@[x]).slug@, name@) {
            let x = choose|x: int|
                0 <= x < repos@.len() && name_matches((#[trigger] repos@[x]).slug@, name@);
            assert(false);
        }
    }
    false
}

/// Smart matching: keeps the repositories some bare identifier picks
/// out — by slug equality or substring — and reports the identifiers
/// that picked out nothing; unmatched identifiers never fail the call.
pub fn filter_repos_by_names(repos: Vec<RepoInfo>, names: &Vec<String>) -> (r: (
    Vec<RepoInfo>,
    Vec<String>,
))
    ensures
        r.0@ == matched_repos(repos@, names.deep_view()),
        r.1.deep_view() == unmatched_names(repos@, names.deep_view()),
{
    let ghost nv = names.deep_view();
    let mut unmatched: Vec<String> = Vec::new();
    let mut j: usize = 0;
    proof {
        assert(unmatched.deep_view() =~= unmatched_names(repos@, nv.take(0)));
    }
    while j < names.len()
        invariant
            0 <= j <= nv.len(),
            names.deep_view() == nv,
            unmatched.deep_view() == unmatched_names(repos@, nv.take(j as int)),
        decreases nv.len() - j,
    {
        let name: &String = &names[j];
        proof {
            assert(nv.take(j as int + 1).drop_last() =~= nv.take(j as int));
            assert(nv.take(j as int + 1).last() == name@);
        }
        if !name_matches_some(&repos, name.as_str()) {
            let ghost old_dv = unmatched.deep_view();
            unmatched.push(name.clone());
            proof {
                assert(unmatched.deep_view() =~= old_dv.push(name@));
            }
        }
        j = j + 1;
    }
    proof {
        assert(nv.take(nv.len() as int) =~= nv);
    }
    let ghost rsv = repos@;
    let mut rest = repos;
    let mut kept: Vec<RepoInfo> = Vec::new();
    proof {
        assert(rsv.take(0) =~= Seq::<RepoInfo>::empty());
    }
    while rest.len() > 0
        invariant
            rest@.len() <= rsv.len(),
            rest@ == rsv.skip(rsv.len() - rest@.len()),
            names.deep_view() == nv,
            kept@ == matched_repos(rsv.take(rsv.len() - rest@.len()), nv),
        decreases rest@.len(),
    {
        let ghost done = rsv.len() - rest@.len();
        let info = rest.remove(0);
        proof {
            assert(rest@ =~= rsv.skip(done + 1));
            assert(rsv.take(done + 1).drop_last() =~= rsv.take(done));
            assert(rsv.take(done + 1).last() == info);
        }
        if slug_matches_any(info.slug.as_str(), names) {
            kept.push(info);
        }
        proof {
            assert(kept@ == matched_repos(rsv.take(done + 1), nv));
        }
    }
    proof {
        assert(rsv.take(rsv.len() as int) =~= rsv);
    }
    (kept, unmatched)
}

} // verus!
