//! Decisions of the GitHub repository-listing tool: account
//! classification, listing URLs, page filtering, and the date ordering
//! of the final listing.  The HTTP calls live in the binaries; each page
//! of parsed results is handed here as plain values.

use vstd::prelude::*;
use vstd::string::StrSliceExecFns;
use vstd::string::StringExecFns;
use crate::mapping::{lemma_insert_multiset, lex_lt, lemma_lex_total, lemma_lex_trans};
use crate::text::str_eq;

verus! {

/// The kind of account a repository listing targets.
#[derive(Debug, Clone, Copy, PartialEq, Eq, Structural)]
pub enum RepoType {
    User,
    Org,
}

/// The listing URL of an account kind.
pub open spec fn spec_repo_url(t: RepoType, name: Seq<char>) -> Seq<char> {
    match t {
        RepoType::User => "https://api.github.com/users/"@ + name + "/repos"@,
        RepoType::Org => "https://api.github.com/orgs/"@ + name + "/repos"@,
    }
}

impl RepoType {
    /// The API URL listing the account's repositories.
    pub fn repo_url(&self, name: &str) -> (r: String)
        ensures
            r@ == spec_repo_url(*self, name@),
    {
        match self {
            RepoType::User => "https://api.github.com/users/".to_owned().concat(name).concat(
                "/repos",
            ),
            RepoType::Org => "https://api.github.com/orgs/".to_owned().concat(name).concat(
                "/repos",
            ),
        }
    }

    /// The plural label the API uses for the account kind.
    pub fn label(&self) -> (r: &'static str)
        ensures
            (*self is User) ==> r@ == "users"@,
            (*self is Org) ==> r@ == "orgs"@,
    {
        match self {
            RepoType::User => "users",
            RepoType::Org => "orgs",
        }
    }

    /// Classifies the `type` field of an account record: `User` and
    /// `Organization` are the two known kinds, anything else is unknown.
    pub fn from_account_kind(kind: &str) -> (r: Option<RepoType>)
        ensures
            kind@ == "User"@ ==> r == Some(RepoType::User),
            kind@ == "Organization"@ ==> r == Some(RepoType::Org),
            kind@ != "User"@ && kind@ != "Organization"@ ==> r is None,
    {
        proof {
            reveal_strlit("User");
            reveal_strlit("Organization");
            assert("User"@.len() == 4);
            assert("Organization"@.len() == 12);
        }
        if str_eq(kind, "User") {
            Some(RepoType::User)
        } else if str_eq(kind, "Organization") {
            Some(RepoType::Org)
        } else {
            None
        }
    }
}

/// One repository record of a listing page, as parsed from the API
/// response: its full name, its creation timestamp, and whether it is
/// archived.
#[derive(Debug, Clone, PartialEq, Eq)]
pub struct PageRepo {
    pub full_name: String,
    pub created_at: String,
    pub archived: bool,
}

/// One row of the finished listing: a repository name and the date part
/// of its creation timestamp.
#[derive(Debug, Clone, PartialEq, Eq)]
pub struct RepoListing {
    pub name: String,
    pub created: String,
}

/// The views of a row sequence, for stating contracts.
pub open spec fn listing_views(ls: Seq<RepoListing>) -> Seq<(Seq<char>, Seq<char>)> {
    Seq::new(ls.len(), |i: int| (ls[i].name@, ls[i].created@))
}

/// The rows one page contributes: archived repositories are dropped
/// unless asked for, and each kept record carries the first ten
/// characters of its creation timestamp — its date.
pub open spec fn page_rows(rs: Seq<PageRepo>, include_archived: bool) -> Seq<
    (Seq<char>, Seq<char>),
>
    decreases rs.len()
{
    if rs.len() == 0 {
        Seq::empty()
    } else {
        let front = page_rows(rs.drop_last(), include_archived);
        let last = rs.last();
        if include_archived || !last.archived {
            front.push((last.full_name@, last.created_at@.take(10)))
        } else {
            front
        }
    }
}

/// Turns one parsed listing page into its rows, dropping archived
/// repositories unless asked to keep them.
pub fn collect_repo_page(page: Vec<PageRepo>, include_archived: bool) -> (r: Vec<RepoListing>)
    requires
        forall|i: int| 0 <= i < page@.len() ==> (#[trigger] page@[i].created_at@).len() >= 10,
    ensures
        listing_views(r@) == page_rows(page@, include_archived),
{
    let ghost pv = page@;
    let mut rest = page;
    let mut r: Vec<RepoListing> = Vec::new();
    proof {
        assert(pv.take(0) =~= Seq::<PageRepo>::empty());
        assert(listing_views(r@) =~= page_rows(pv.take(0), include_archived));
    }
    while rest.len() > 0
        invariant
            rest@.len() <= pv.len(),
            rest@ == pv.skip(pv.len() - rest@.len()),
            forall|i: int| 0 <= i < pv.len() ==> (#[trigger] pv[i].created_at@).len() >= 10,
            listing_views(r@) == page_rows(pv.take(pv.len() - rest@.len()), include_archived),
        decreases rest@.len(),
    {
        let ghost done = pv.len() - rest@.len();
        let rec = rest.remove(0);
        proof {
            assert(rest@ =~= pv.skip(done + 1));
            assert(pv.take(done + 1).drop_last() =~= pv.take(done));
            assert(pv.take(done + 1).last() == rec);
            assert(pv[done] == rec);
        }
        if include_archived || !rec.archived {
            let created: String = rec.created_at.as_str().substring_char(0, 10).to_owned();
            let ghost old_views = listing_views(r@);
            r.push(RepoListing { name: rec.full_name, created });
            proof {
                assert(listing_views(r@) =~= old_views.push(
                    (pv[done].full_name@, pv[done].created_at@.take(10)),
                ));
            }
        }
        proof {
            assert(listing_views(r@) =~= page_rows(pv.take(done + 1), include_archived));
        }
    }
    proof {
        assert(pv.take(pv.len() as int) =~= pv);
    }
    r
}

/// The listing order: ascending creation date, by code point.
pub open spec fn listing_le(a: RepoListing, b: RepoListing) -> bool {
    lex_lt(a.created@, b.created@) || a.created@ == b.created@
}

proof fn lemma_listing_le_total(a: RepoListing, b: RepoListing)
    ensures
        listing_le(a, b) || listing_le(b, a),
{
    if a.created@ != b.created@ {
        lemma_lex_total(a.created@, b.created@);
    }
}

proof fn lemma_listing_le_trans(a: RepoListing, b: RepoListing, c: RepoListing)
    requires
        listing_le(a, b),
        listing_le(b, c),
    ensures
        listing_le(a, c),
{
    if lex_lt(a.created@, b.created@) && lex_lt(b.created@, c.created@) {
        lemma_lex_trans(a.created@, b.created@, c.created@);
    }
}

/// Compares two listing rows by creation date.
fn listing_le_exec(a: &RepoListing, b: &RepoListing) -> (r: bool)
    ensures
        r == listing_le(*a, *b),
{
    crate::mapping::lex_lt_str(a.created.as_str(), b.created.as_str()) || str_eq(
        a.created.as_str(),
        b.created.as_str(),
    )
}

/// Orders the collected listing by creation date, oldest first.  The
/// result holds exactly the given rows.
pub fn sort_repo_listing(rows: Vec<RepoListing>) -> (r: Vec<RepoListing>)
    ensures
        r@.to_multiset() == rows@.to_multiset(),
        forall|a: int, b: int|
            0 <= a < b < r@.len() ==> listing_le(#[trigger] r@[a], #[trigger] r@[b]),
{
    let ghost rsv = rows@;
    let mut rest = rows;
    let mut out: Vec<RepoListing> = Vec::new();
    proof {
        rsv.take(0).to_multiset_ensures();
        out@.to_multiset_ensures();
        assert(out@.to_multiset() =~= rsv.take(0).to_multiset()) by {
            assert(out@ =~= rsv.take(0));
        }
    }
    while rest.len() > 0
        invariant
            rest@.len() <= rsv.len(),
            rest@ == rsv.skip(rsv.len() - rest@.len()),
            out@.to_multiset() == rsv.take(rsv.len() - rest@.len()).to_multiset(),
            forall|a: int, b: int|
                0 <= a < b < out@.len() ==> listing_le(#[trigger] out@[a], #[trigger] out@[b]),
        decreases rest@.len(),
    {
        let ghost done = rsv.len() - rest@.len();
        let x = rest.remove(0);
        proof {
            assert(rest@ =~= rsv.skip(done + 1));
            assert(rsv.take(done + 1) =~= rsv.take(done).push(x));
            rsv.take(done).to_multiset_ensures();
            assert(rsv.take(done + 1).to_multiset() =~= rsv.take(done).to_multiset().insert(x));
        }
        let mut pos: usize = 0;
        while pos < out.len() && listing_le_exec(&out[pos], &x)
            invariant
                0 <= pos <= out@.len(),
                forall|k: int| 0 <= k < pos ==> listing_le(#[trigger] out@[k], x),
            decreases out@.len() - pos,
        {
            pos = pos + 1;
        }
        proof {
            if pos < out@.len() {
                lemma_listing_le_total(out@[pos as int], x);
            }
        }
        let ghost before = out@;
        out.insert(pos, x);
        proof {
            assert(out@ == before.insert(pos as int, x));
            lemma_insert_multiset(before, x, pos as int);
            assert forall|a: int, b: int| 0 <= a < b < out@.len() implies listing_le(
                #[trigger] out@[a],
                #[trigger] out@[b],
            ) by {
                let a0 = if a < pos { a } else { a - 1 };
                let b0 = if b < pos { b } else { b - 1 };
                if a == pos {
                    assert(out@[b] == before[b0]);
                    if b0 > pos {
                        lemma_listing_le_trans(x, before[pos as int], before[b0]);
                    }
                } else if b == pos {
                    assert(out@[a] == before[a0]);
                } else {
                    assert(out@[a] == before[a0]);
                    assert(out@[b] == before[b0]);
                    if a0 < pos && b0 == pos {
                        lemma_listing_le_trans(before[a0], x, before[b0]);
                    }
                }
            }
        }
    }
    proof {
        assert(rsv.take(rsv.len() as int) =~= rsv);
    }
    out
}

} // verus!
