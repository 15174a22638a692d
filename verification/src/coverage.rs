//! Coverage analysis: which files count as code, and which top-level
//! directories are not covered by any ownership pattern.
//!
//! A file at relative path `p` is covered when some ownership pattern is a
//! string prefix of `"/" + p`; this is a deliberately simplified model of
//! CODEOWNERS matching, kept for fidelity with the behaviour it describes.
//! Uncovered files are reported at first-level-directory granularity: the
//! root marker `/` for files without a directory, else `/<first-segment>/`.

use vstd::prelude::*;
use vstd::string::StrSliceExecFns;
use vstd::string::StringExecFns;
use crate::codeowners::OwnerEntry;
use crate::text::{
    find_from, skip_from, lemma_find_from, lemma_skip_from, scan_to_char, scan_past_char,
    scan_last, last_of, lemma_last_of, str_eq, has_prefix,
};

verus! {

/// The file name of a relative path: everything after the last `/`.
pub open spec fn file_name_of(p: Seq<char>) -> Seq<char> {
    p.subrange(last_of(p, '/') + 1, p.len() as int)
}

/// The fixed allow-list of code-file extensions, in lower case.
pub open spec fn code_extensions() -> Seq<Seq<char>> {
    seq![
        "py"@,
        "js"@,
        "jsx"@,
        "ts"@,
        "tsx"@,
        "css"@,
        "html"@,
        "tf"@,
        "yaml"@,
        "yml"@,
        "toml"@,
        "tpl"@,
    ]
}

/// The code point of `c` with an ASCII capital folded to its small form.
pub open spec fn lower_code(c: char) -> u32 {
    if 'A' as u32 <= c as u32 && c as u32 <= 'Z' as u32 {
        (c as u32 + 32) as u32
    } else {
        c as u32
    }
}

/// Equality of character sequences up to ASCII case.
pub open spec fn ci_eq(a: Seq<char>, b: Seq<char>) -> bool {
    a.len() == b.len() && forall|i: int| 0 <= i < a.len() ==> lower_code(#[trigger] a[i])
        == lower_code(b[i])
}

/// Exec mirror of [`ci_eq`].
pub fn eq_ignore_case(a: &str, b: &str) -> (r: bool)
    ensures
        r == ci_eq(a@, b@),
{
    let na: usize = a.unicode_len();
    let nb: usize = b.unicode_len();
    if na != nb {
        return false;
    }
    let mut j: usize = 0;
    while j < na
        invariant
            0 <= j <= na,
            na == a@.len(),
            na == b@.len(),
            forall|k: int| 0 <= k < j ==> lower_code(#[trigger] a@[k]) == lower_code(b@[k]),
        decreases na - j,
    {
        let ca: u32 = a.get_char(j) as u32;
        let cb: u32 = b.get_char(j) as u32;
        let la: u32 = if 65 <= ca && ca <= 90 {
            ca + 32
        } else {
            ca
        };
        let lb: u32 = if 65 <= cb && cb <= 90 {
            cb + 32
        } else {
            cb
        };
        if la != lb {
            return false;
        }
        j = j + 1;
    }
    true
}

/// Does the file name carry an extension from the allow-list?
///
/// The extension is what follows the last `.` of the name, provided that
/// dot is not the name's first character.
pub open spec fn name_has_code_extension(n: Seq<char>) -> bool {
    let d = last_of(n, '.');
    d > 0 && exists|k: int|
        0 <= k < code_extensions().len() && ci_eq(
            n.subrange(d + 1, n.len() as int),
            #[trigger] code_extensions()[k],
        )
}

/// The code-file heuristic on a file name: `Dockerfile` and `Makefile`
/// unconditionally, else a case-insensitive allow-list of extensions.
pub open spec fn is_code_name(n: Seq<char>) -> bool {
    ||| n == "Dockerfile"@
    ||| n == "Makefile"@
    ||| name_has_code_extension(n)
}

/// The code-file heuristic on a path: applied to its file name.
pub open spec fn is_code_path(p: Seq<char>) -> bool {
    is_code_name(file_name_of(p))
}

/// Decides whether the file at `path` counts as code.
pub fn is_code_file(path: &str) -> (r: bool)
    ensures
        r == is_code_path(path@),
{
    let pn: usize = path.unicode_len();
    let name: &str = match scan_last(path, '/') {
        Some(i) => {
            proof {
                lemma_last_of(path@, '/');
            }
            path.substring_char(i + 1, pn)
        },
        None => {
            proof {
                assert(path@.subrange(0, path@.len() as int) =~= path@);
            }
            path
        },
    };
    if str_eq(name, "Dockerfile") || str_eq(name, "Makefile") {
        return true;
    }
    let nn: usize = name.unicode_len();
    let d = match scan_last(name, '.') {
        Some(i) => i,
        None => {
            return false;
        },
    };
    if d == 0 {
        return false;
    }
    proof {
        lemma_last_of(name@, '.');
    }
    let ext: &str = name.substring_char(d + 1, nn);
    let r = eq_ignore_case(ext, "py") || eq_ignore_case(ext, "js") || eq_ignore_case(ext, "jsx")
        || eq_ignore_case(ext, "ts") || eq_ignore_case(ext, "tsx") || eq_ignore_case(ext, "css")
        || eq_ignore_case(ext, "html") || eq_ignore_case(ext, "tf") || eq_ignore_case(ext, "yaml")
        || eq_ignore_case(ext, "yml") || eq_ignore_case(ext, "toml") || eq_ignore_case(
        ext,
        "tpl",
    );
    proof {
        assert(code_extensions()[0] == "py"@);
        assert(code_extensions()[1] == "js"@);
        assert(code_extensions()[2] == "jsx"@);
        assert(code_extensions()[3] == "ts"@);
        assert(code_extensions()[4] == "tsx"@);
        assert(code_extensions()[5] == "css"@);
        assert(code_extensions()[6] == "html"@);
        assert(code_extensions()[7] == "tf"@);
        assert(code_extensions()[8] == "yaml"@);
        assert(code_extensions()[9] == "yml"@);
        assert(code_extensions()[10] == "toml"@);
        assert(code_extensions()[11] == "tpl"@);
        if r {
            assert(name_has_code_extension(name@));
        } else {
            assert forall|k: int| 0 <= k < code_extensions().len() implies !ci_eq(
                name@.subrange(d + 1, name@.len() as int),
                #[trigger] code_extensions()[k],
            ) by {
                assert(code_extensions()[k] == seq![
                    "py"@, "js"@, "jsx"@, "ts"@, "tsx"@, "css"@, "html"@, "tf"@, "yaml"@,
                    "yml"@, "toml"@, "tpl"@,
                ][k]);
            }
        }
    }
    r
}

/// A path rooted at `/`: the shape ownership patterns are matched against.
pub open spec fn rooted(p: Seq<char>) -> Seq<char> {
    "/"@ + p
}

/// Is some non-final path segment `.git` or `.github`?  The directory
/// walk never descends into those subtrees.
pub open spec fn in_excluded_tree(s: Seq<char>, i: int) -> bool
    decreases s.len() - i when 0 <= i <= s.len() via in_excluded_tree_decreases
{
    let j = skip_from(s, '/', i);
    if j >= s.len() {
        false
    } else {
        let k = find_from(s, '/', j);
        ||| (k < s.len() && (s.subrange(j, k) == ".git"@ || s.subrange(j, k) == ".github"@))
        ||| in_excluded_tree(s, k)
    }
}

#[via_fn]
proof fn in_excluded_tree_decreases(s: Seq<char>, i: int) {
    lemma_skip_from(s, '/', i);
    let j = skip_from(s, '/', i);
    if j < s.len() {
        lemma_find_from(s, '/', j + 1);
        assert(find_from(s, '/', j) == find_from(s, '/', j + 1));
    }
}

/// Does any non-final segment of `path` name an excluded subtree?
pub fn path_in_excluded_tree(path: &str) -> (r: bool)
    ensures
        r == in_excluded_tree(path@, 0),
{
    let n: usize = path.unicode_len();
    let mut i: usize = 0;
    let mut res: bool = false;
    loop
        invariant_except_break
            0 <= i <= n,
            n == path@.len(),
            in_excluded_tree(path@, 0) == in_excluded_tree(path@, i as int),
        ensures
            res == in_excluded_tree(path@, 0),
        decreases n - i,
    {
        let j = scan_past_char(path, '/', i);
        proof {
            lemma_skip_from(path@, '/', i as int);
        }
        if j == n {
            res = false;
            break;
        }
        let k = scan_to_char(path, '/', j);
        proof {
            lemma_find_from(path@, '/', j as int);
            lemma_find_from(path@, '/', j as int + 1);
            assert(find_from(path@, '/', j as int) == find_from(path@, '/', j as int + 1));
        }
        if k < n {
            let seg: &str = path.substring_char(j, k);
            if str_eq(seg, ".git") || str_eq(seg, ".github") {
                res = true;
                break;
            }
        } else {
            proof {
                assert(!in_excluded_tree(path@, k as int));
                assert(!in_excluded_tree(path@, i as int));
            }
            res = false;
            break;
        }
        i = k;
    }
    res
}

/// A file from a raw repository listing takes part in coverage analysis
/// when it is outside the `.git`/`.github` subtrees and the code-file
/// heuristic accepts it.
pub open spec fn keeps_file(p: Seq<char>) -> bool {
    !in_excluded_tree(p, 0) && is_code_path(p)
}

/// The sub-listing of code files, in listing order.
pub open spec fn code_listing(fs: Seq<Seq<char>>) -> Seq<Seq<char>>
    decreases fs.len()
{
    if fs.len() == 0 {
        Seq::empty()
    } else {
        let front = code_listing(fs.drop_last());
        if keeps_file(fs.last()) {
            front.push(fs.last())
        } else {
            front
        }
    }
}

/// Filters a raw recursive file listing (paths relative to the repository
/// root) down to the code files coverage analysis looks at.
pub fn gather_code_files(files: &Vec<String>) -> (r: Vec<String>)
    ensures
        r.deep_view() == code_listing(files.deep_view()),
{
    let ghost fsv = files.deep_view();
    let mut r: Vec<String> = Vec::new();
    let mut j: usize = 0;
    proof {
        assert(fsv.take(0) =~= Seq::<Seq<char>>::empty());
    }
    while j < files.len()
        invariant
            0 <= j <= files@.len(),
            files.deep_view() == fsv,
            r.deep_view() == code_listing(fsv.take(j as int)),
        decreases files@.len() - j,
    {
        let f: &String = &files[j];
        proof {
            assert(fsv.take(j as int + 1).drop_last() =~= fsv.take(j as int));
            assert(fsv.take(j as int + 1).last() == f@);
        }
        let ghost old_dv = r.deep_view();
        if !path_in_excluded_tree(f.as_str()) && is_code_file(f.as_str()) {
            r.push(f.clone());
            proof {
                assert(r.deep_view() =~= old_dv.push(f@));
            }
        }
        j = j + 1;
    }
    proof {
        assert(fsv.take(files@.len() as int) =~= fsv);
    }
    r
}

/// Is the file at relative path `p` covered by some pattern of `es`?
pub open spec fn file_covered(es: Seq<OwnerEntry>, p: Seq<char>) -> bool {
    exists|i: int| 0 <= i < es.len() && (#[trigger] es[i].pattern@).is_prefix_of(rooted(p))
}

/// Number of non-empty `/`-separated segments of `s` at or after `i`.
pub open spec fn seg_count(s: Seq<char>, i: int) -> int
    decreases s.len() - i when 0 <= i <= s.len() via seg_count_decreases
{
    let j = skip_from(s, '/', i);
    if j >= s.len() {
        0
    } else {
        1 + seg_count(s, find_from(s, '/', j))
    }
}

#[via_fn]
proof fn seg_count_decreases(s: Seq<char>, i: int) {
    lemma_skip_from(s, '/', i);
    let j = skip_from(s, '/', i);
    if j < s.len() {
        lemma_find_from(s, '/', j + 1);
        assert(find_from(s, '/', j) == find_from(s, '/', j + 1));
    }
}

pub proof fn lemma_seg_count_nonneg(s: Seq<char>, i: int)
    requires
        0 <= i <= s.len(),
    ensures
        seg_count(s, i) >= 0,
    decreases s.len() - i,
{
    lemma_skip_from(s, '/', i);
    let j = skip_from(s, '/', i);
    if j < s.len() {
        lemma_find_from(s, '/', j + 1);
        assert(find_from(s, '/', j) == find_from(s, '/', j + 1));
        lemma_find_from(s, '/', j);
        lemma_seg_count_nonneg(s, find_from(s, '/', j));
    }
}

/// The directory bucket an uncovered file is reported under: the root
/// marker when the rooted path has at most one segment, else the first
/// segment wrapped in slashes.
pub open spec fn bucket_of(p: Seq<char>) -> Seq<char> {
    let s = rooted(p);
    if seg_count(s, 0) <= 1 {
        "/"@
    } else {
        let j = skip_from(s, '/', 0);
        let k = find_from(s, '/', j);
        "/"@ + s.subrange(j, k) + "/"@
    }
}

/// Computes the bucket for a file path.
pub fn bucket_of_path(p: &str) -> (r: String)
    ensures
        r@ == bucket_of(p@),
{
    let rooted_p: String = "/".to_owned().concat(p);
    let s: &str = rooted_p.as_str();
    proof {
        assert(s@ == rooted(p@));
    }
    let n: usize = s.unicode_len();
    let j = scan_past_char(s, '/', 0);
    proof {
        lemma_skip_from(s@, '/', 0);
    }
    if j == n {
        proof {
            assert(seg_count(s@, 0) == 0);
        }
        return "/".to_owned();
    }
    let k = scan_to_char(s, '/', j);
    proof {
        lemma_find_from(s@, '/', j as int);
    }
    let j2 = scan_past_char(s, '/', k);
    proof {
        lemma_skip_from(s@, '/', k as int);
    }
    if j2 == n {
        proof {
            assert(seg_count(s@, k as int) == 0);
            assert(seg_count(s@, 0) == 1);
        }
        return "/".to_owned();
    }
    proof {
        lemma_find_from(s@, '/', j2 as int);
        lemma_seg_count_nonneg(s@, find_from(s@, '/', j2 as int));
        assert(seg_count(s@, k as int) == 1 + seg_count(s@, find_from(s@, '/', j2 as int)));
        assert(seg_count(s@, 0) == 1 + seg_count(s@, k as int));
        assert(seg_count(s@, 0) >= 2);
    }
    let seg: &str = s.substring_char(j, k);
    "/".to_owned().concat(seg).concat("/")
}

/// The set of buckets of uncovered code files.
pub open spec fn unowned_bucket_set(es: Seq<OwnerEntry>, fs: Seq<Seq<char>>) -> Set<Seq<char>> {
    Set::new(
        |d: Seq<char>|
            exists|x: int|
                0 <= x < fs.len() && !file_covered(es, #[trigger] fs[x]) && bucket_of(fs[x]) == d,
    )
}

/// Is the file at `p` covered by some entry's pattern?
fn covered_by(entries: &Vec<OwnerEntry>, p: &str) -> (r: bool)
    ensures
        r == file_covered(entries@, p@),
{
    let rooted_p: String = "/".to_owned().concat(p);
    proof {
        assert(rooted_p@ == rooted(p@));
    }
    let mut i: usize = 0;
    while i < entries.len()
        invariant
            0 <= i <= entries@.len(),
            rooted_p@ == rooted(p@),
            forall|x: int|
                0 <= x < i ==> !(#[trigger] entries@[x].pattern@).is_prefix_of(rooted(p@)),
        decreases entries@.len() - i,
    {
        if has_prefix(rooted_p.as_str(), entries[i].pattern.as_str()) {
            return true;
        }
        i = i + 1;
    }
    false
}

/// Membership of a string's view in a vector of strings.
pub fn contains_str(v: &Vec<String>, s: &str) -> (r: bool)
    ensures
        r == v.deep_view().contains(s@),
{
    let mut i: usize = 0;
    while i < v.len()
        invariant
            0 <= i <= v@.len(),
            forall|x: int| 0 <= x < i ==> v.deep_view()[x] != s@,
        decreases v@.len() - i,
    {
        if str_eq(v[i].as_str(), s) {
            proof {
                assert(v.deep_view()[i as int] == s@);
            }
            return true;
        }
        i = i + 1;
    }
    proof {
        if v.deep_view().contains(s@) {
            let x = choose|x: int| 0 <= x < v.deep_view().len() && v.deep_view()[x] == s@;
        }
    }
    false
}

/// Given the parsed ownership entries and the repository's code files,
/// returns the distinct buckets of the files no pattern covers, each
/// bucket listed once, in first-appearance order.
pub fn determine_unowned_paths(entries: &Vec<OwnerEntry>, code_files: &Vec<String>) -> (r: Vec<
    String,
>)
    ensures
        forall|a: int, b: int|
            0 <= a < b < r.deep_view().len() ==> r.deep_view()[a] != r.deep_view()[b],
        forall|d: Seq<char>|
            #[trigger] r.deep_view().contains(d) <==> unowned_bucket_set(
                entries@,
                code_files.deep_view(),
            ).contains(d),
{
    let ghost fsv = code_files.deep_view();
    let mut r: Vec<String> = Vec::new();
    let mut j: usize = 0;
    while j < code_files.len()
        invariant
            0 <= j <= code_files@.len(),
            code_files.deep_view() == fsv,
            forall|a: int, b: int|
                0 <= a < b < r.deep_view().len() ==> r.deep_view()[a] != r.deep_view()[b],
            forall|d: Seq<char>|
                #[trigger] r.deep_view().contains(d) <==> exists|x: int|
                    0 <= x < j && !file_covered(entries@, #[trigger] fsv[x]) && bucket_of(fsv[x])
                        == d,
        decreases code_files@.len() - j,
    {
        let f: &String = &code_files[j];
        proof {
            assert(fsv[j as int] == f@);
        }
        if !covered_by(entries, f.as_str()) {
            let b = bucket_of_path(f.as_str());
            if !contains_str(&r, b.as_str()) {
                let ghost old_dv = r.deep_view();
                r.push(b);
                proof {
                    assert(r.deep_view() =~= old_dv.push(bucket_of(fsv[j as int])));
                    assert forall|d: Seq<char>| #[trigger] r.deep_view().contains(d) implies exists|
                        x: int,
                    |
                        0 <= x < j + 1 && !file_covered(entries@, #[trigger] fsv[x]) && bucket_of(
                            fsv[x],
                        ) == d by {
                        let idx = choose|idx: int|
                            0 <= idx < r.deep_view().len() && r.deep_view()[idx] == d;
                        if idx < old_dv.len() {
                            assert(old_dv.contains(d));
                        } else {
                            assert(d == bucket_of(fsv[j as int]));
                            assert(!file_covered(entries@, fsv[j as int]));
                        }
                    }
                    assert forall|d: Seq<char>|
                        (exists|x: int|
                            0 <= x < j + 1 && !file_covered(entries@, #[trigger] fsv[x])
                                && bucket_of(fsv[x]) == d) implies r.deep_view().contains(d) by {
                        let x = choose|x: int|
                            0 <= x < j + 1 && !file_covered(entries@, #[trigger] fsv[x])
                                && bucket_of(fsv[x]) == d;
                        if x < j {
                            assert(old_dv.contains(d));
                            let idx = choose|idx: int|
                                0 <= idx < old_dv.len() && old_dv[idx] == d;
                            assert(r.deep_view()[idx] == d);
                        } else {
                            assert(r.deep_view()[old_dv.len() as int] == d);
                        }
                    }
                }
            } else {
                proof {
                    assert forall|d: Seq<char>|
                        (exists|x: int|
                            0 <= x < j + 1 && !file_covered(entries@, #[trigger] fsv[x])
                                && bucket_of(fsv[x]) == d) implies r.deep_view().contains(d) by {
                        let x = choose|x: int|
                            0 <= x < j + 1 && !file_covered(entries@, #[trigger] fsv[x])
                                && bucket_of(fsv[x]) == d;
                        if x == j {
                            assert(r.deep_view().contains(bucket_of(fsv[j as int])));
                        }
                    }
                }
            }
        }
        j = j + 1;
    }
    proof {
        assert forall|d: Seq<char>| #[trigger] r.deep_view().contains(d) implies unowned_bucket_set(
            entries@,
            fsv,
        ).contains(d) by {}
        assert forall|d: Seq<char>| unowned_bucket_set(entries@, fsv).contains(
            d,
        ) implies r.deep_view().contains(d) by {}
    }
    r
}

/// The unowned-bucket set is empty exactly when every code file is
/// covered: a repository is fully owned if and only if no bucket is
/// reported unowned.
pub proof fn lemma_owned_iff_all_covered(es: Seq<OwnerEntry>, fs: Seq<Seq<char>>)
    ensures
        unowned_bucket_set(es, fs) =~= Set::<Seq<char>>::empty() <==> forall|x: int|
            0 <= x < fs.len() ==> file_covered(es, #[trigger] fs[x]),
{
    if forall|x: int| 0 <= x < fs.len() ==> file_covered(es, #[trigger] fs[x]) {
        assert forall|d: Seq<char>| !unowned_bucket_set(es, fs).contains(d) by {}
    } else {
        let x = choose|x: int| 0 <= x < fs.len() && !file_covered(es, #[trigger] fs[x]);
        assert(unowned_bucket_set(es, fs).contains(bucket_of(fs[x])));
    }
}

} // verus!
