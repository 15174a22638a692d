//! Merging owned and unowned paths into one deterministically ordered,
//! presentation-ready mapping.
//!
//! The key set is the union of the ownership patterns and the unowned
//! buckets.  Keys found among the patterns map to their owners: a single
//! owner stands alone, several owners stand as a list, and a pattern with
//! no owners at all falls back to the `UNOWNED` marker.  Keys present only
//! among the buckets always map to `UNOWNED`.
//!
//! The ordering is total and must be reproduced exactly for deterministic
//! output: the root marker `/` sorts first; all other keys sort by path
//! depth (shallower first) and lexicographically within one depth.

use vstd::prelude::*;
use vstd::string::StrSliceExecFns;
use crate::codeowners::{OwnerEntry, has_pattern, unique_patterns};
use crate::coverage::seg_count;
use crate::text::{
    find_from, lemma_find_from, lemma_skip_from, scan_past_char, scan_to_char, str_eq,
};

verus! {

/// What one mapping key points at.
#[derive(Debug, Clone, PartialEq, Eq)]
pub enum OwnerValue {
    /// The `UNOWNED` marker.
    Unowned,
    /// Exactly one owner.
    One(String),
    /// Two or more owners, in CODEOWNERS order.
    Many(Vec<String>),
}

/// One row of the presentation mapping.
#[derive(Debug, Clone, PartialEq, Eq)]
pub struct MappingEntry {
    pub path: String,
    pub value: OwnerValue,
}

/// Lexicographic strict order on character sequences, compared from
/// position `i` on, by code point.
pub open spec fn lex_lt_from(a: Seq<char>, b: Seq<char>, i: int) -> bool
    decreases a.len() - i when 0 <= i
{
    if i >= a.len() {
        i < b.len()
    } else if i >= b.len() {
        false
    } else if a[i] != b[i] {
        (a[i] as u32) < (b[i] as u32)
    } else {
        lex_lt_from(a, b, i + 1)
    }
}

/// Lexicographic strict order on character sequences.
pub open spec fn lex_lt(a: Seq<char>, b: Seq<char>) -> bool {
    lex_lt_from(a, b, 0)
}

proof fn lemma_lex_irrefl(a: Seq<char>, i: int)
    requires
        0 <= i,
    ensures
        !lex_lt_from(a, a, i),
    decreases a.len() - i,
{
    if i < a.len() {
        lemma_lex_irrefl(a, i + 1);
    }
}

proof fn lemma_lex_trans_from(a: Seq<char>, b: Seq<char>, c: Seq<char>, i: int)
    requires
        0 <= i,
        lex_lt_from(a, b, i),
        lex_lt_from(b, c, i),
    ensures
        lex_lt_from(a, c, i),
    decreases a.len() - i,
{
    if i < a.len() && i < b.len() && i < c.len() && a[i] == b[i] && b[i] == c[i] {
        lemma_lex_trans_from(a, b, c, i + 1);
    }
}

proof fn lemma_lex_total_from(a: Seq<char>, b: Seq<char>, i: int)
    requires
        0 <= i <= a.len(),
        i <= b.len(),
    ensures
        lex_lt_from(a, b, i) || lex_lt_from(b, a, i) || (a.len() == b.len() && forall|k: int|
            i <= k < a.len() ==> a[k] == b[k]),
    decreases a.len() - i,
{
    if i == a.len() && i == b.len() {
        assert(a.len() == b.len());
    } else if i >= a.len() {
        assert(lex_lt_from(a, b, i));
    } else if i >= b.len() {
        assert(lex_lt_from(b, a, i));
    } else if a[i] != b[i] {
        vstd::utf8::char_u32_cast(a[i], a[i] as u32);
        vstd::utf8::char_u32_cast(b[i], b[i] as u32);
        assert(a[i] as u32 != b[i] as u32);
        assert(lex_lt_from(a, b, i) || lex_lt_from(b, a, i));
    } else {
        lemma_lex_total_from(a, b, i + 1);
        if !lex_lt_from(a, b, i + 1) && !lex_lt_from(b, a, i + 1) {
            assert forall|k: int| i <= k < a.len() implies a[k] == b[k] by {}
        }
    }
}

/// Lexicographic order is transitive.
pub proof fn lemma_lex_trans(a: Seq<char>, b: Seq<char>, c: Seq<char>)
    requires
        lex_lt(a, b),
        lex_lt(b, c),
    ensures
        lex_lt(a, c),
{
    lemma_lex_trans_from(a, b, c, 0);
}

/// Distinct sequences are lexicographically comparable.
pub proof fn lemma_lex_total(a: Seq<char>, b: Seq<char>)
    requires
        a != b,
    ensures
        lex_lt(a, b) || lex_lt(b, a),
{
    lemma_lex_total_from(a, b, 0);
    if !lex_lt(a, b) && !lex_lt(b, a) {
        assert(a =~= b);
    }
}

/// The path depth of a key: its number of non-empty `/`-separated
/// segments.
pub open spec fn depth(s: Seq<char>) -> int {
    seg_count(s, 0)
}

/// The total order on mapping keys: `/` first, then ascending depth,
/// then lexicographic.
pub open spec fn key_lt(a: Seq<char>, b: Seq<char>) -> bool {
    if a == "/"@ {
        b != "/"@
    } else if b == "/"@ {
        false
    } else {
        depth(a) < depth(b) || (depth(a) == depth(b) && lex_lt(a, b))
    }
}

/// The key order is irreflexive.
pub proof fn lemma_key_irrefl(a: Seq<char>)
    ensures
        !key_lt(a, a),
{
    lemma_lex_irrefl(a, 0);
}

/// The key order is transitive.
pub proof fn lemma_key_trans(a: Seq<char>, b: Seq<char>, c: Seq<char>)
    requires
        key_lt(a, b),
        key_lt(b, c),
    ensures
        key_lt(a, c),
{
    if a != "/"@ && b != "/"@ && c != "/"@ {
        if depth(a) == depth(b) && depth(b) == depth(c) {
            lemma_lex_trans(a, b, c);
        }
    }
}

/// Distinct keys are comparable.
pub proof fn lemma_key_total(a: Seq<char>, b: Seq<char>)
    requires
        a != b,
    ensures
        key_lt(a, b) || key_lt(b, a),
{
    if a != "/"@ && b != "/"@ {
        lemma_lex_total(a, b);
    }
}

/// Compares two strings lexicographically by code point.
pub fn lex_lt_str(a: &str, b: &str) -> (r: bool)
    ensures
        r == lex_lt(a@, b@),
{
    let na: usize = a.unicode_len();
    let nb: usize = b.unicode_len();
    let mut j: usize = 0;
    let mut res: bool = false;
    loop
        invariant_except_break
            0 <= j <= na,
            j <= nb,
            na == a@.len(),
            nb == b@.len(),
            lex_lt(a@, b@) == lex_lt_from(a@, b@, j as int),
        ensures
            res == lex_lt(a@, b@),
        decreases na - j,
    {
        if j == na {
            res = j < nb;
            break;
        }
        if j == nb {
            res = false;
            break;
        }
        let ca = a.get_char(j);
        let cb = b.get_char(j);
        if ca != cb {
            res = (ca as u32) < (cb as u32);
            break;
        }
        j = j + 1;
    }
    res
}

/// Counts the non-empty `/`-separated segments of `s`.
pub fn depth_of(s: &str) -> (r: usize)
    ensures
        r == depth(s@),
{
    let n: usize = s.unicode_len();
    let mut pos: usize = 0;
    let mut count: usize = 0;
    loop
        invariant_except_break
            0 <= pos <= n,
            count <= pos,
            n == s@.len(),
            depth(s@) == count + seg_count(s@, pos as int),
        ensures
            count == depth(s@),
        decreases n - pos,
    {
        let j = scan_past_char(s, '/', pos);
        proof {
            lemma_skip_from(s@, '/', pos as int);
        }
        if j == n {
            proof {
                assert(seg_count(s@, pos as int) == 0);
            }
            break;
        }
        let k = scan_to_char(s, '/', j);
        proof {
            lemma_find_from(s@, '/', j as int);
            lemma_find_from(s@, '/', j as int + 1);
            assert(find_from(s@, '/', j as int) == find_from(s@, '/', j as int + 1));
            assert(seg_count(s@, pos as int) == 1 + seg_count(s@, k as int));
        }
        count = count + 1;
        pos = k;
    }
    count
}

/// Compares two mapping keys in the presentation order.
pub fn key_lt_str(a: &str, b: &str) -> (r: bool)
    ensures
        r == key_lt(a@, b@),
{
    let a_root = str_eq(a, "/");
    let b_root = str_eq(b, "/");
    if a_root {
        return !b_root;
    }
    if b_root {
        return false;
    }
    let da = depth_of(a);
    let db = depth_of(b);
    if da != db {
        return da < db;
    }
    lex_lt_str(a, b)
}

/// Does the value `v` present the owner list `owners` faithfully?
pub open spec fn owner_value_matches(v: OwnerValue, owners: Seq<Seq<char>>) -> bool {
    match v {
        OwnerValue::Unowned => owners.len() == 0,
        OwnerValue::One(s) => owners.len() == 1 && s@ == owners[0],
        OwnerValue::Many(os) => owners.len() >= 2 && os.deep_view() == owners,
    }
}

/// One mapping row is correct for the given entries and buckets: a key
/// among the patterns carries that pattern's owners, any other key is an
/// unowned bucket.
pub open spec fn row_ok(es: Seq<OwnerEntry>, uv: Seq<Seq<char>>, row: MappingEntry) -> bool {
    if has_pattern(es, row.path@) {
        exists|j: int|
            0 <= j < es.len() && #[trigger] es[j].pattern@ == row.path@ && owner_value_matches(
                row.value,
                es[j].owners.deep_view(),
            )
    } else {
        uv.contains(row.path@) && (row.value is Unowned)
    }
}

/// Some row of the mapping carries the key `k`.
pub open spec fn mapping_has_key(ms: Seq<MappingEntry>, k: Seq<char>) -> bool {
    exists|i: int| 0 <= i < ms.len() && #[trigger] ms[i].path@ == k
}

/// The rows are strictly ordered by the key order.
pub open spec fn mapping_sorted(ms: Seq<MappingEntry>) -> bool {
    forall|a: int, b: int|
        0 <= a < b < ms.len() ==> key_lt(#[trigger] ms[a].path@, #[trigger] ms[b].path@)
}

/// Builds the value a pattern's owner list presents as.
fn value_of_owners(owners: &Vec<String>) -> (v: OwnerValue)
    ensures
        owner_value_matches(v, owners.deep_view()),
{
    if owners.len() == 0 {
        OwnerValue::Unowned
    } else if owners.len() == 1 {
        OwnerValue::One(owners[0].clone())
    } else {
        let c = owners.clone();
        proof {
            assert(c.deep_view() =~= owners.deep_view());
        }
        OwnerValue::Many(c)
    }
}

/// Inserts a row into a sorted mapping, keeping it sorted.
fn insert_sorted(out: &mut Vec<MappingEntry>, row: MappingEntry)
    requires
        mapping_sorted(old(out)@),
        !mapping_has_key(old(out)@, row.path@),
    ensures
        mapping_sorted(final(out)@),
        final(out)@.len() == old(out)@.len() + 1,
        forall|k: Seq<char>|
            mapping_has_key(final(out)@, k) <==> mapping_has_key(old(out)@, k) || k == row.path@,
        forall|i: int|
            0 <= i < final(out)@.len() ==> (#[trigger] final(out)@[i]) == row || old(
                out,
            )@.contains(final(out)@[i]),
{
    let mut pos: usize = 0;
    while pos < out.len() && key_lt_str(out[pos].path.as_str(), row.path.as_str())
        invariant
            0 <= pos <= out@.len(),
            *out == *old(out),
            mapping_sorted(out@),
            !mapping_has_key(out@, row.path@),
            forall|x: int| 0 <= x < pos ==> key_lt(#[trigger] out@[x].path@, row.path@),
        decreases out@.len() - pos,
    {
        pos = pos + 1;
    }
    proof {
        if pos < out@.len() {
            assert(out@[pos as int].path@ != row.path@);
            lemma_key_total(out@[pos as int].path@, row.path@);
            assert(key_lt(row.path@, out@[pos as int].path@));
        }
    }
    let ghost before = out@;
    out.insert(pos, row);
    proof {
        let after = out@;
        assert(after == before.insert(pos as int, row));
        assert forall|a: int, b: int| 0 <= a < b < after.len() implies key_lt(
            #[trigger] after[a].path@,
            #[trigger] after[b].path@,
        ) by {
            let a0 = if a < pos { a } else { a - 1 };
            let b0 = if b < pos { b } else { b - 1 };
            if a == pos {
                // row against a later original element
                assert(after[b] == before[b0]);
                if b0 > pos {
                    lemma_key_trans(row.path@, before[pos as int].path@, before[b0].path@);
                }
            } else if b == pos {
                assert(after[a] == before[a0]);
            } else {
                assert(after[a] == before[a0]);
                assert(after[b] == before[b0]);
                if a0 < pos && b0 >= pos {
                    if b0 == pos {
                        lemma_key_trans(before[a0].path@, row.path@, before[b0].path@);
                    }
                }
            }
        }
        assert forall|k: Seq<char>| mapping_has_key(after, k) implies mapping_has_key(before, k)
            || k == row.path@ by {
            let i = choose|i: int| 0 <= i < after.len() && #[trigger] after[i].path@ == k;
            if i != pos {
                let i0 = if i < pos { i } else { i - 1 };
                assert(before[i0].path@ == k);
            }
        }
        assert forall|k: Seq<char>| mapping_has_key(before, k) implies mapping_has_key(after, k) by {
            let i = choose|i: int| 0 <= i < before.len() && #[trigger] before[i].path@ == k;
            let i1 = if i < pos { i } else { i + 1 };
            assert(after[i1].path@ == k);
        }
        assert(mapping_has_key(after, row.path@)) by {
            assert(after[pos as int].path@ == row.path@);
        }
        assert forall|i: int| 0 <= i < after.len() implies (#[trigger] after[i]) == row
            || before.contains(after[i]) by {
            if i != pos {
                let i0 = if i < pos { i } else { i - 1 };
                assert(after[i] == before[i0]);
            }
        }
    }
}

/// Merges ownership entries and unowned buckets into the ordered
/// presentation mapping.
///
/// Every pattern key carries its owners (`UNOWNED` when the owner list is
/// somehow empty); every bucket key absent from the patterns carries
/// `UNOWNED`; and the rows stand in strictly ascending key order, so the
/// root marker comes first and shallower paths come before deeper ones.
pub fn build_repo_mapping(entries: &Vec<OwnerEntry>, unowned: &Vec<String>) -> (r: Vec<
    MappingEntry,
>)
    requires
        unique_patterns(entries@),
        forall|a: int, b: int|
            0 <= a < b < unowned.deep_view().len() ==> unowned.deep_view()[a]
                != unowned.deep_view()[b],
    ensures
        mapping_sorted(r@),
        forall|k: Seq<char>|
            #[trigger] mapping_has_key(r@, k) ==> has_pattern(entries@, k)
                || unowned.deep_view().contains(k),
        forall|k: Seq<char>| #[trigger] has_pattern(entries@, k) ==> mapping_has_key(r@, k),
        forall|k: Seq<char>| unowned.deep_view().contains(k) ==> mapping_has_key(r@, k),
        forall|i: int| 0 <= i < r@.len() ==> row_ok(entries@, unowned.deep_view(), #[trigger] r@[i]),
{
    let ghost esv = entries@;
    let ghost uv = unowned.deep_view();
    let mut out: Vec<MappingEntry> = Vec::new();
    let mut i: usize = 0;
    while i < entries.len()
        invariant
            0 <= i <= esv.len(),
            entries@ == esv,
            unowned.deep_view() == uv,
            unique_patterns(esv),
            mapping_sorted(out@),
            forall|k: Seq<char>|
                #[trigger] mapping_has_key(out@, k) ==> exists|x: int|
                    0 <= x < i && (#[trigger] esv[x].pattern@) == k,
            forall|x: int| 0 <= x < i ==> mapping_has_key(out@, #[trigger] esv[x].pattern@),
            forall|x: int| 0 <= x < out@.len() ==> row_ok(esv, uv, #[trigger] out@[x]),
        decreases esv.len() - i,
    {
        let e: &OwnerEntry = &entries[i];
        let row = MappingEntry { path: e.pattern.clone(), value: value_of_owners(&e.owners) };
        proof {
            assert(row.path@ == esv[i as int].pattern@);
            if mapping_has_key(out@, row.path@) {
                let x = choose|x: int| 0 <= x < i && (#[trigger] esv[x].pattern@) == row.path@;
                assert(false);
            }
            assert(row_ok(esv, uv, row)) by {
                assert(esv[i as int].pattern@ == row.path@);
                assert(has_pattern(esv, row.path@));
            }
        }
        let ghost before = out@;
        insert_sorted(&mut out, row);
        proof {
            assert forall|k: Seq<char>| #[trigger] mapping_has_key(out@, k) implies exists|x: int|
                0 <= x < i + 1 && (#[trigger] esv[x].pattern@) == k by {
                if k == row.path@ {
                    assert(esv[i as int].pattern@ == k);
                } else {
                    assert(mapping_has_key(before, k));
                    let x = choose|x: int| 0 <= x < i && (#[trigger] esv[x].pattern@) == k;
                }
            }
            assert forall|x: int| 0 <= x < i + 1 implies mapping_has_key(
                out@,
                #[trigger] esv[x].pattern@,
            ) by {
                if x < i {
                    assert(mapping_has_key(before, esv[x].pattern@));
                } else {
                    assert(mapping_has_key(out@, row.path@));
                }
            }
            assert forall|x: int| 0 <= x < out@.len() implies row_ok(esv, uv, #[trigger] out@[x])
                by {
                if out@[x] != row {
                    assert(before.contains(out@[x]));
                    let y = choose|y: int| 0 <= y < before.len() && before[y] == out@[x];
                }
            }
        }
        i = i + 1;
    }
    let mut b: usize = 0;
    while b < unowned.len()
        invariant
            0 <= b <= uv.len(),
            entries@ == esv,
            unowned.deep_view() == uv,
            unique_patterns(esv),
            forall|x: int, y: int| 0 <= x < y < uv.len() ==> uv[x] != uv[y],
            mapping_sorted(out@),
            forall|k: Seq<char>|
                #[trigger] mapping_has_key(out@, k) ==> has_pattern(esv, k) || exists|x: int|
                    0 <= x < b && uv[x] == k,
            forall|k: Seq<char>| #[trigger] has_pattern(esv, k) ==> mapping_has_key(out@, k),
            forall|x: int| 0 <= x < b ==> mapping_has_key(out@, #[trigger] uv[x]),
            forall|x: int| 0 <= x < out@.len() ==> row_ok(esv, uv, #[trigger] out@[x]),
        decreases uv.len() - b,
    {
        let d: &String = &unowned[b];
        proof {
            assert(uv[b as int] == d@);
        }
        let mut present: bool = false;
        let mut x: usize = 0;
        while x < entries.len()
            invariant
                0 <= x <= esv.len(),
                0 <= b < uv.len(),
                entries@ == esv,
                uv[b as int] == d@,
                present ==> has_pattern(esv, d@),
                !present ==> forall|y: int| 0 <= y < x ==> (#[trigger] esv[y].pattern@) != d@,
            decreases esv.len() - x,
        {
            if str_eq(entries[x].pattern.as_str(), d.as_str()) {
                present = true;
                proof {
                    assert(esv[x as int].pattern@ == d@);
                }
            }
            x = x + 1;
        }
        let ghost before = out@;
        if !present {
            let row = MappingEntry { path: d.clone(), value: OwnerValue::Unowned };
            proof {
                assert(!has_pattern(esv, d@));
                if mapping_has_key(out@, row.path@) {
                    let y = choose|y: int| 0 <= y < b && uv[y] == d@;
                    assert(false);
                }
                assert(uv.contains(row.path@)) by {
                    assert(uv[b as int] == row.path@);
                }
                assert(row_ok(esv, uv, row));
            }
            insert_sorted(&mut out, row);
            proof {
                assert forall|k: Seq<char>| #[trigger] mapping_has_key(out@, k) implies
                    has_pattern(esv, k) || exists|x0: int| 0 <= x0 < b + 1 && uv[x0] == k by {
                    if k == row.path@ {
                        assert(uv[b as int] == k);
                    } else {
                        assert(mapping_has_key(before, k));
                        if !has_pattern(esv, k) {
                            let x0 = choose|x0: int| 0 <= x0 < b && uv[x0] == k;
                        }
                    }
                }
                assert forall|k: Seq<char>| #[trigger] has_pattern(esv, k) implies mapping_has_key(
                    out@,
                    k,
                ) by {
                    assert(mapping_has_key(before, k));
                }
                assert forall|x0: int| 0 <= x0 < b + 1 implies mapping_has_key(
                    out@,
                    #[trigger] uv[x0],
                ) by {
                    if x0 < b {
                        assert(mapping_has_key(before, uv[x0]));
                    } else {
                        assert(mapping_has_key(out@, row.path@));
                    }
                }
                assert forall|y: int| 0 <= y < out@.len() implies row_ok(esv, uv, #[trigger] out@[y])
                    by {
                    if out@[y] != row {
                        assert(before.contains(out@[y]));
                        let z = choose|z: int| 0 <= z < before.len() && before[z] == out@[y];
                    }
                }
            }
        } else {
            proof {
                assert forall|x0: int| 0 <= x0 < b + 1 implies mapping_has_key(
                    out@,
                    #[trigger] uv[x0],
                ) by {
                    if x0 == b {
                        assert(has_pattern(esv, d@));
                        assert(mapping_has_key(out@, d@));
                    }
                }
            }
        }
        b = b + 1;
    }
    proof {
        assert forall|k: Seq<char>| #[trigger] mapping_has_key(out@, k) implies has_pattern(esv, k)
            || uv.contains(k) by {
            if !has_pattern(esv, k) {
                let x0 = choose|x0: int| 0 <= x0 < uv.len() && uv[x0] == k;
                assert(uv[x0] == k);
            }
        }
        assert forall|k: Seq<char>| uv.contains(k) implies mapping_has_key(out@, k) by {
            let x0 = choose|x0: int| 0 <= x0 < uv.len() && uv[x0] == k;
            assert(mapping_has_key(out@, uv[x0]));
        }
    }
    out
}

/// Inserting an element anywhere in a sequence adds exactly that
/// element to its multiset.
pub proof fn lemma_insert_multiset<A>(s: Seq<A>, x: A, pos: int)
    requires
        0 <= pos <= s.len(),
    ensures
        s.insert(pos, x).to_multiset() =~= s.to_multiset().insert(x),
{
    let l = s.subrange(0, pos);
    let rr = s.subrange(pos, s.len() as int);
    assert(s.insert(pos, x) == l.push(x) + rr);
    vstd::seq_lib::lemma_multiset_commutative(l.push(x), rr);
    vstd::seq_lib::lemma_multiset_commutative(l, rr);
    assert(l + rr =~= s);
    l.to_multiset_ensures();
    assert(l.push(x).to_multiset() =~= l.to_multiset().insert(x));
}

/// The ordering law of the mapping: the root marker sorts first, depth
/// never decreases along the rows, and rows of equal depth stand in
/// lexicographic order.
pub proof fn lemma_mapping_order(ms: Seq<MappingEntry>)
    requires
        mapping_sorted(ms),
    ensures
        forall|i: int| 0 < i < ms.len() ==> (#[trigger] ms[i].path@) != "/"@,
        forall|a: int, b: int|
            0 <= a < b < ms.len() ==> (#[trigger] ms[a].path@) == "/"@ || depth(ms[a].path@)
                <= depth(#[trigger] ms[b].path@),
        forall|a: int, b: int|
            0 <= a < b < ms.len() && (#[trigger] ms[a].path@) != "/"@ && depth(ms[a].path@)
                == depth(#[trigger] ms[b].path@) ==> lex_lt(ms[a].path@, ms[b].path@),
{
    assert forall|i: int| 0 < i < ms.len() implies (#[trigger] ms[i].path@) != "/"@ by {
        assert(key_lt(ms[0].path@, ms[i].path@));
    }
    assert forall|a: int, b: int| 0 <= a < b < ms.len() implies (#[trigger] ms[a].path@) == "/"@
        || depth(ms[a].path@) <= depth(#[trigger] ms[b].path@) by {
        assert(key_lt(ms[a].path@, ms[b].path@));
    }
}

} // verus!
