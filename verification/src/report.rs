//! Per-repository ownership reports: classification, presentation
//! mapping, filtering, and the deterministic output order.
//!
//! [`process_repo`] is the whole decision pipeline for one repository:
//! classify its CODEOWNERS content, gather its code files, compute the
//! uncovered buckets, derive the status, build the ordered mapping, and
//! apply the status filter.  The binaries only supply the file contents
//! and print what comes back.

use vstd::prelude::*;
use crate::codeowners::{
    OwnershipTable, codeowners_map, has_pattern, load_ownership, represents,
};
use crate::codeowners::OwnerEntry;
use crate::coverage::{
    bucket_of, code_listing, contains_str, determine_unowned_paths, file_covered,
    gather_code_files, rooted, unowned_bucket_set,
};
use crate::mapping::{
    MappingEntry, build_repo_mapping, lemma_insert_multiset, lex_lt, lemma_lex_total,
    lemma_lex_trans, mapping_has_key, mapping_sorted, owner_value_matches, row_ok,
};

verus! {

/// The ownership status of one repository.
#[derive(Debug, Clone, Copy, PartialEq, Eq, Structural)]
pub enum RepoStatus {
    Owned,
    Partial,
    Unowned,
}

impl RepoStatus {
    /// The sort rank of a status: unowned first, owned last.
    pub open spec fn spec_rank(self) -> int {
        match self {
            RepoStatus::Unowned => 0,
            RepoStatus::Partial => 1,
            RepoStatus::Owned => 2,
        }
    }

    /// Exec mirror of [`RepoStatus::spec_rank`].
    pub fn rank(&self) -> (r: u8)
        ensures
            r == self.spec_rank(),
    {
        match self {
            RepoStatus::Unowned => 0,
            RepoStatus::Partial => 1,
            RepoStatus::Owned => 2,
        }
    }

    /// The lower-case label of a status.
    pub fn label(&self) -> (r: &'static str)
        ensures
            r@ == status_label(*self),
    {
        match self {
            RepoStatus::Owned => "owned",
            RepoStatus::Partial => "partial",
            RepoStatus::Unowned => "unowned",
        }
    }
}

/// The lower-case label of a status.
pub open spec fn status_label(s: RepoStatus) -> Seq<char> {
    match s {
        RepoStatus::Owned => "owned"@,
        RepoStatus::Partial => "partial"@,
        RepoStatus::Unowned => "unowned"@,
    }
}

/// What a report presents under `paths`: one of the two marker strings,
/// or the ordered path-to-owner mapping.
#[derive(Debug, Clone, PartialEq, Eq)]
pub enum PathsReport {
    MissingMarker,
    EmptyMarker,
    Mapping(Vec<MappingEntry>),
}

impl PathsReport {
    /// The marker string of a marker report.
    pub fn marker_text(&self) -> (r: Option<&'static str>)
        ensures
            (self is MissingMarker) ==> r is Some && r->Some_0@ == "MISSING_CODEOWNERS"@,
            (self is EmptyMarker) ==> r is Some && r->Some_0@ == "EMPTY_CODEOWNERS"@,
            (self is Mapping) ==> r is None,
    {
        match self {
            PathsReport::MissingMarker => Some("MISSING_CODEOWNERS"),
            PathsReport::EmptyMarker => Some("EMPTY_CODEOWNERS"),
            PathsReport::Mapping(_) => None,
        }
    }
}

/// One repository's finished ownership report.
#[derive(Debug, Clone, PartialEq, Eq)]
pub struct RepoReport {
    pub slug: String,
    pub status: RepoStatus,
    pub paths: PathsReport,
    pub authors: Option<Vec<String>>,
}

impl RepoReport {
    /// Does this report still want a contributor list?  Authors are
    /// looked up only for repositories that are not fully owned.
    pub fn needs_authors(&self) -> (r: bool)
        ensures
            r == !(self.status is Owned),
    {
        !matches!(self.status, RepoStatus::Owned)
    }

    /// Attaches the contributor list.
    pub fn set_authors(&mut self, authors: Vec<String>)
        ensures
            final(self).slug == old(self).slug,
            final(self).status == old(self).status,
            final(self).paths == old(self).paths,
            final(self).authors == Some(authors),
    {
        self.authors = Some(authors);
    }
}

/// Is the file at `p` covered by some pattern of the map `m`?
pub open spec fn map_covers(m: Map<Seq<char>, Seq<Seq<char>>>, p: Seq<char>) -> bool {
    exists|k: Seq<char>| #[trigger] m.dom().contains(k) && k.is_prefix_of(rooted(p))
}

/// The buckets of the code files no pattern of `m` covers.
pub open spec fn map_unowned_buckets(m: Map<Seq<char>, Seq<Seq<char>>>, fs: Seq<Seq<char>>) -> Set<
    Seq<char>,
> {
    Set::new(
        |d: Seq<char>|
            exists|x: int|
                0 <= x < fs.len() && !map_covers(m, #[trigger] fs[x]) && bucket_of(fs[x]) == d,
    )
}

/// The view of optional CODEOWNERS content.
pub open spec fn content_view(c: Option<&str>) -> Option<Seq<char>> {
    match c {
        Some(s) => Some(s@),
        None => None,
    }
}

/// The status a repository deserves, given its CODEOWNERS content (or
/// its absence) and its raw file listing: `Unowned` for a missing or
/// empty table, `Owned` when every code file is covered, else `Partial`.
pub open spec fn spec_status(content: Option<Seq<char>>, files: Seq<Seq<char>>) -> RepoStatus {
    match content {
        None => RepoStatus::Unowned,
        Some(c) => {
            let m = codeowners_map(c);
            if m.dom() =~= Set::<Seq<char>>::empty() {
                RepoStatus::Unowned
            } else if forall|x: int|
                0 <= x < code_listing(files).len() ==> map_covers(
                    m,
                    #[trigger] code_listing(files)[x],
                ) {
                RepoStatus::Owned
            } else {
                RepoStatus::Partial
            }
        },
    }
}

/// Does the status filter let a repository with status `st` through?
pub open spec fn filter_allows(filter: Option<Vec<String>>, st: RepoStatus) -> bool {
    match filter {
        None => true,
        Some(v) => v.deep_view().contains(status_label(st)),
    }
}

/// One mapping row is faithful to the ownership map and the unowned
/// buckets of the code files.
pub open spec fn map_row_ok(
    m: Map<Seq<char>, Seq<Seq<char>>>,
    fs: Seq<Seq<char>>,
    row: MappingEntry,
) -> bool {
    if m.dom().contains(row.path@) {
        owner_value_matches(row.value, m[row.path@])
    } else {
        (row.value is Unowned) && map_unowned_buckets(m, fs).contains(row.path@)
    }
}

/// The rows present exactly the union of the map's patterns and the
/// unowned buckets, in the presentation order, each with its value.
pub open spec fn mapping_reports(
    m: Map<Seq<char>, Seq<Seq<char>>>,
    fs: Seq<Seq<char>>,
    rows: Seq<MappingEntry>,
) -> bool {
    &&& mapping_sorted(rows)
    &&& forall|k: Seq<char>|
        #[trigger] mapping_has_key(rows, k) ==> m.dom().contains(k) || map_unowned_buckets(
            m,
            fs,
        ).contains(k)
    &&& forall|k: Seq<char>| #[trigger] m.dom().contains(k) ==> mapping_has_key(rows, k)
    &&& forall|k: Seq<char>|
        #[trigger] map_unowned_buckets(m, fs).contains(k) ==> mapping_has_key(rows, k)
    &&& forall|i: int| 0 <= i < rows.len() ==> map_row_ok(m, fs, #[trigger] rows[i])
}

/// Everything `process_repo` promises of a produced report.
pub open spec fn report_ok(
    slug: Seq<char>,
    content: Option<Seq<char>>,
    files: Seq<Seq<char>>,
    rep: RepoReport,
) -> bool {
    &&& rep.slug@ == slug
    &&& rep.status == spec_status(content, files)
    &&& rep.authors is None
    &&& match content {
        None => rep.paths is MissingMarker,
        Some(c) => {
            let m = codeowners_map(c);
            if m.dom() =~= Set::<Seq<char>>::empty() {
                rep.paths is EmptyMarker
            } else {
                (rep.paths is Mapping) && mapping_reports(
                    m,
                    code_listing(files),
                    rep.paths->Mapping_0@,
                )
            }
        },
    }
}

/// With a faithful entry vector, entry coverage and map coverage agree.
proof fn lemma_covered_equiv(
    es: Seq<OwnerEntry>,
    m: Map<Seq<char>, Seq<Seq<char>>>,
    p: Seq<char>,
)
    requires
        represents(es, m),
    ensures
        file_covered(es, p) == map_covers(m, p),
{
    if file_covered(es, p) {
        let i = choose|i: int|
            0 <= i < es.len() && (#[trigger] es[i].pattern@).is_prefix_of(rooted(p));
        assert(m.dom().contains(es[i].pattern@));
        assert(map_covers(m, p));
    }
    if map_covers(m, p) {
        let k = choose|k: Seq<char>| #[trigger] m.dom().contains(k) && k.is_prefix_of(rooted(p));
        assert(has_pattern(es, k));
        let i = choose|i: int| 0 <= i < es.len() && (#[trigger] es[i].pattern@) == k;
        assert(file_covered(es, p));
    }
}

/// With a faithful entry vector, the two bucket sets agree.
proof fn lemma_buckets_equiv(
    es: Seq<OwnerEntry>,
    m: Map<Seq<char>, Seq<Seq<char>>>,
    fs: Seq<Seq<char>>,
)
    requires
        represents(es, m),
    ensures
        unowned_bucket_set(es, fs) =~= map_unowned_buckets(m, fs),
{
    assert forall|d: Seq<char>|
        unowned_bucket_set(es, fs).contains(d) == map_unowned_buckets(m, fs).contains(d) by {
        if unowned_bucket_set(es, fs).contains(d) {
            let x = choose|x: int|
                0 <= x < fs.len() && !file_covered(es, #[trigger] fs[x]) && bucket_of(fs[x]) == d;
            lemma_covered_equiv(es, m, fs[x]);
            assert(map_unowned_buckets(m, fs).contains(d));
        }
        if map_unowned_buckets(m, fs).contains(d) {
            let x = choose|x: int|
                0 <= x < fs.len() && !map_covers(m, #[trigger] fs[x]) && bucket_of(fs[x]) == d;
            lemma_covered_equiv(es, m, fs[x]);
            assert(unowned_bucket_set(es, fs).contains(d));
        }
    }
}

/// Runs the whole ownership analysis for one repository, on plain
/// values: the slug, the CODEOWNERS content (or `None` when the file is
/// absent), the raw recursive file listing relative to the repository
/// root, and the optional status filter.
///
/// The result is `Some` exactly when the filter admits the repository's
/// status, and the produced report carries that status and the faithful
/// paths presentation; contributors are attached separately.
pub fn process_repo(
    slug: String,
    content: Option<&str>,
    files: &Vec<String>,
    filter: &Option<Vec<String>>,
) -> (r: Option<RepoReport>)
    ensures
        (r is Some) <==> filter_allows(*filter, spec_status(content_view(content),
            files.deep_view())),
        r is Some ==> report_ok(slug@, content_view(content), files.deep_view(), r->Some_0),
{
    let ghost cv = content_view(content);
    let ghost fsv = files.deep_view();
    let table = load_ownership(content);
    let (status, paths): (RepoStatus, PathsReport) = match table {
        OwnershipTable::Missing => (RepoStatus::Unowned, PathsReport::MissingMarker),
        OwnershipTable::Empty => (RepoStatus::Unowned, PathsReport::EmptyMarker),
        OwnershipTable::Present(entries) => {
            let ghost m = codeowners_map(cv->Some_0);
            proof {
                assert(represents(entries@, m));
            }
            let code = gather_code_files(files);
            let unowned = determine_unowned_paths(&entries, &code);
            proof {
                lemma_buckets_equiv(entries@, m, code.deep_view());
                crate::coverage::lemma_owned_iff_all_covered(entries@, code.deep_view());
            }
            let status = if unowned.len() == 0 {
                proof {
                    assert forall|d: Seq<char>|
                        !unowned_bucket_set(entries@, code.deep_view()).contains(d) by {
                        if unowned_bucket_set(entries@, code.deep_view()).contains(d) {
                            assert(unowned.deep_view().contains(d));
                        }
                    }
                    assert(unowned_bucket_set(entries@, code.deep_view()) =~= Set::<
                        Seq<char>,
                    >::empty());
                    assert forall|x: int|
                        0 <= x < code_listing(fsv).len() implies map_covers(
                        m,
                        #[trigger] code_listing(fsv)[x],
                    ) by {
                        assert(file_covered(entries@, code.deep_view()[x]));
                        lemma_covered_equiv(entries@, m, code.deep_view()[x]);
                    }
                }
                RepoStatus::Owned
            } else {
                proof {
                    let d0 = unowned.deep_view()[0];
                    assert(unowned.deep_view().contains(d0));
                    assert(unowned_bucket_set(entries@, code.deep_view()).contains(d0));
                    let x = choose|x: int|
                        0 <= x < code.deep_view().len() && !file_covered(
                            entries@,
                            #[trigger] code.deep_view()[x],
                        ) && bucket_of(code.deep_view()[x]) == d0;
                    lemma_covered_equiv(entries@, m, code.deep_view()[x]);
                    assert(!map_covers(m, code_listing(fsv)[x]));
                }
                RepoStatus::Partial
            };
            let rows = build_repo_mapping(&entries, &unowned);
            proof {
                assert forall|k: Seq<char>| #[trigger] mapping_has_key(rows@, k) implies m.dom().contains(
                    k,
                ) || map_unowned_buckets(m, code_listing(fsv)).contains(k) by {
                    if has_pattern(entries@, k) {
                        let i = choose|i: int|
                            0 <= i < entries@.len() && (#[trigger] entries@[i].pattern@) == k;
                    } else {
                        assert(unowned.deep_view().contains(k));
                    }
                }
                assert forall|k: Seq<char>| #[trigger] m.dom().contains(k) implies mapping_has_key(
                    rows@,
                    k,
                ) by {
                    assert(has_pattern(entries@, k));
                }
                assert forall|k: Seq<char>| #[trigger] map_unowned_buckets(
                    m,
                    code_listing(fsv),
                ).contains(k) implies mapping_has_key(rows@, k) by {
                    assert(unowned_bucket_set(entries@, code.deep_view()).contains(k));
                    assert(unowned.deep_view().contains(k));
                }
                assert forall|i: int| 0 <= i < rows@.len() implies map_row_ok(
                    m,
                    code_listing(fsv),
                    #[trigger] rows@[i],
                ) by {
                    assert(row_ok(entries@, unowned.deep_view(), rows@[i]));
                    if has_pattern(entries@, rows@[i].path@) {
                        let j = choose|j: int|
                            0 <= j < entries@.len() && (#[trigger] entries@[j].pattern@)
                                == rows@[i].path@ && owner_value_matches(
                                rows@[i].value,
                                entries@[j].owners.deep_view(),
                            );
                        assert(m[rows@[i].path@] == entries@[j].owners.deep_view());
                    } else {
                        if m.dom().contains(rows@[i].path@) {
                            assert(has_pattern(entries@, rows@[i].path@));
                        }
                        assert(unowned.deep_view().contains(rows@[i].path@));
                        assert(unowned_bucket_set(entries@, code.deep_view()).contains(
                            rows@[i].path@,
                        ));
                    }
                }
                assert(mapping_reports(m, code_listing(fsv), rows@));
            }
            (status, PathsReport::Mapping(rows))
        },
    };
    let rep = RepoReport { slug, status, paths, authors: None };
    proof {
        assert(report_ok(rep.slug@, cv, fsv, rep));
    }
    match filter {
        None => Some(rep),
        Some(wanted) => {
            if contains_str(wanted, rep.status.label()) {
                Some(rep)
            } else {
                None
            }
        },
    }
}

/// The coverage law at the status level: with a usable ownership table
/// in hand, a repository's status is `Owned` exactly when the set of
/// unowned buckets over its code files is empty.
pub proof fn lemma_owned_iff_no_buckets(c: Seq<char>, files: Seq<Seq<char>>)
    requires
        !(codeowners_map(c).dom() =~= Set::<Seq<char>>::empty()),
    ensures
        (spec_status(Some(c), files) == RepoStatus::Owned) <==> (map_unowned_buckets(
            codeowners_map(c),
            code_listing(files),
        ) =~= Set::<Seq<char>>::empty()),
{
    let m = codeowners_map(c);
    let fs = code_listing(files);
    if forall|x: int| 0 <= x < fs.len() ==> map_covers(m, #[trigger] fs[x]) {
        assert forall|d: Seq<char>| !map_unowned_buckets(m, fs).contains(d) by {
            if map_unowned_buckets(m, fs).contains(d) {
                let x = choose|x: int|
                    0 <= x < fs.len() && !map_covers(m, #[trigger] fs[x]) && bucket_of(fs[x]) == d;
                assert(false);
            }
        }
        assert(map_unowned_buckets(m, fs) =~= Set::<Seq<char>>::empty());
    } else {
        let x = choose|x: int| 0 <= x < fs.len() && !map_covers(m, #[trigger] fs[x]);
        assert(map_unowned_buckets(m, fs).contains(bucket_of(fs[x])));
    }
}

/// The report order: status rank first (unowned, partial, owned), then
/// slug, lexicographically.
pub open spec fn report_le(a: RepoReport, b: RepoReport) -> bool {
    ||| a.status.spec_rank() < b.status.spec_rank()
    ||| (a.status.spec_rank() == b.status.spec_rank() && (lex_lt(a.slug@, b.slug@) || a.slug@
        == b.slug@))
}

proof fn lemma_report_le_total(a: RepoReport, b: RepoReport)
    ensures
        report_le(a, b) || report_le(b, a),
{
    if a.status.spec_rank() == b.status.spec_rank() && a.slug@ != b.slug@ {
        lemma_lex_total(a.slug@, b.slug@);
    }
}

proof fn lemma_report_le_trans(a: RepoReport, b: RepoReport, c: RepoReport)
    requires
        report_le(a, b),
        report_le(b, c),
    ensures
        report_le(a, c),
{
    if a.status.spec_rank() == b.status.spec_rank() && b.status.spec_rank()
        == c.status.spec_rank() {
        if lex_lt(a.slug@, b.slug@) && lex_lt(b.slug@, c.slug@) {
            lemma_lex_trans(a.slug@, b.slug@, c.slug@);
        }
    }
}

/// Compares two reports in the output order.
fn report_le_exec(a: &RepoReport, b: &RepoReport) -> (r: bool)
    ensures
        r == report_le(*a, *b),
{
    let ra = a.status.rank();
    let rb = b.status.rank();
    if ra != rb {
        return ra < rb;
    }
    crate::mapping::lex_lt_str(a.slug.as_str(), b.slug.as_str()) || crate::text::str_eq(
        a.slug.as_str(),
        b.slug.as_str(),
    )
}

/// Orders finished reports for presentation: ascending status rank —
/// unowned first, then partial, then owned — and ascending slug within
/// one rank.  The result holds exactly the given reports.
pub fn sorted_entries(results: Vec<RepoReport>) -> (r: Vec<RepoReport>)
    ensures
        r@.to_multiset() == results@.to_multiset(),
        forall|a: int, b: int| 0 <= a < b < r@.len() ==> report_le(#[trigger] r@[a], #[trigger] r@[b]),
{
    let ghost rsv = results@;
    let mut rest = results;
    let mut out: Vec<RepoReport> = Vec::new();
    proof {
        assert(rsv.take(0) =~= Seq::<RepoReport>::empty());
        rsv.take(0).to_multiset_ensures();
        out@.to_multiset_ensures();
        assert(out@.to_multiset() =~= rsv.take(0).to_multiset()) by {
            assert(out@ =~= rsv.take(0));
        }
    }
    while rest.len() > 0
        invariant
            rest@.len() <= rsv.len(),
            rest@ == rsv.skip(rsv.len() - rest@.len()),
            out@.to_multiset() == rsv.take(rsv.len() - rest@.len()).to_multiset(),
            forall|a: int, b: int|
                0 <= a < b < out@.len() ==> report_le(#[trigger] out@[a], #[trigger] out@[b]),
        decreases rest@.len(),
    {
        let ghost done = rsv.len() - rest@.len();
        let x = rest.remove(0);
        proof {
            assert(rest@ =~= rsv.skip(done + 1));
            assert(rsv.take(done + 1) =~= rsv.take(done).push(x));
            rsv.take(done).to_multiset_ensures();
            assert(rsv.take(done + 1).to_multiset() =~= rsv.take(done).to_multiset().insert(x));
        }
        let mut pos: usize = 0;
        while pos < out.len() && report_le_exec(&out[pos], &x)
            invariant
                0 <= pos <= out@.len(),
                forall|k: int| 0 <= k < pos ==> report_le(#[trigger] out@[k], x),
            decreases out@.len() - pos,
        {
            pos = pos + 1;
        }
        proof {
            if pos < out@.len() {
                lemma_report_le_total(out@[pos as int], x);
            }
        }
        let ghost before = out@;
        out.insert(pos, x);
        proof {
            assert(out@ == before.insert(pos as int, x));
            lemma_insert_multiset(before, x, pos as int);
            assert forall|a: int, b: int| 0 <= a < b < out@.len() implies report_le(
                #[trigger] out@[a],
                #[trigger] out@[b],
            ) by {
                let a0 = if a < pos { a } else { a - 1 };
                let b0 = if b < pos { b } else { b - 1 };
                if a == pos {
                    assert(out@[b] == before[b0]);
                    if b0 > pos {
                        lemma_report_le_trans(x, before[pos as int], before[b0]);
                    }
                } else if b == pos {
                    assert(out@[a] == before[a0]);
                } else {
                    assert(out@[a] == before[a0]);
                    assert(out@[b] == before[b0]);
                    if a0 < pos && b0 == pos {
                        lemma_report_le_trans(before[a0], x, before[b0]);
                    }
                }
            }
        }
    }
    proof {
        assert(rsv.take(rsv.len() as int) =~= rsv);
    }
    out
}

/// Does any report carry a status other than `Owned`?  The process exit
/// code is reserved for this one business outcome.
pub fn any_not_owned(reports: &Vec<RepoReport>) -> (r: bool)
    ensures
        r == exists|i: int| 0 <= i < reports@.len() && !((#[trigger] reports@[i].status) is Owned),
{
    let mut i: usize = 0;
    while i < reports.len()
        invariant
            0 <= i <= reports@.len(),
            forall|x: int| 0 <= x < i ==> (#[trigger] reports@[x].status) is Owned,
        decreases reports@.len() - i,
    {
        if !matches!(reports[i].status, RepoStatus::Owned) {
            return true;
        }
        i = i + 1;
    }
    false
}

} // verus!
