//! Parsing and classification of a repository's CODEOWNERS file.
//!
//! A CODEOWNERS file is read line by line.  Blank lines and lines whose
//! first non-space character is `#` carry no entry; on any other line the
//! first whitespace-separated token is a path pattern (the literal `*` is
//! normalized to the root marker `/`) and the remaining tokens are owner
//! identifiers, each with its leading `@` signs stripped.  A line with
//! fewer than two tokens carries no entry.  When a pattern recurs, the
//! later line's owners replace the earlier ones.
//!
//! The mathematical model of a parsed file is a map from pattern to owner
//! list, [`codeowners_map`]; an [`OwnershipTable`] holds the same entries
//! as a vector with pairwise-distinct patterns, in no significant order.

use vstd::prelude::*;
use vstd::string::StrSliceExecFns;
use crate::text::{
    ws_end, tokens_at, lines_at, skip_from, lemma_ws_end, lemma_skip_from, scan_ws,
    scan_past_char, str_eq, tokens_of, lines_of,
};

verus! {

/// One parsed CODEOWNERS entry: a path pattern and its owners.
#[derive(Debug, Clone, PartialEq, Eq)]
pub struct OwnerEntry {
    pub pattern: String,
    pub owners: Vec<String>,
}

/// Classification of a repository's CODEOWNERS coverage source.
///
/// `Missing`: no CODEOWNERS file is present.  `Empty`: a file is present
/// but holds no usable entry.  `Present`: the parsed entries.
#[derive(Debug, Clone, PartialEq, Eq)]
pub enum OwnershipTable {
    Missing,
    Empty,
    Present(Vec<OwnerEntry>),
}

/// The root marker pattern, `/`.
pub open spec fn root_pattern() -> Seq<char> {
    seq!['/']
}

/// An owner token with every leading `@` removed.
pub open spec fn strip_owner_prefix(t: Seq<char>) -> Seq<char> {
    t.subrange(skip_from(t, '@', 0), t.len() as int)
}

/// The owner list of a line, given the line's tokens.
pub open spec fn owners_of(ts: Seq<Seq<char>>) -> Seq<Seq<char>> {
    Seq::new((ts.len() - 1) as nat, |i: int| strip_owner_prefix(ts[i + 1]))
}

/// Does the line's first non-space character introduce a comment?
pub open spec fn line_is_comment(l: Seq<char>) -> bool {
    let j = ws_end(l, 0);
    j < l.len() && l[j] == '#'
}

/// Is the line blank (spaces only)?
pub open spec fn line_is_blank(l: Seq<char>) -> bool {
    ws_end(l, 0) >= l.len()
}

/// The entry carried by one line, if any: the normalized pattern and the
/// stripped owner list.
pub open spec fn line_entry(l: Seq<char>) -> Option<(Seq<char>, Seq<Seq<char>>)> {
    if line_is_comment(l) {
        None
    } else {
        let ts = tokens_at(l, 0);
        if ts.len() < 2 {
            None
        } else {
            let pat = if ts[0] == seq!['*'] {
                root_pattern()
            } else {
                ts[0]
            };
            Some((pat, owners_of(ts)))
        }
    }
}

/// The pattern-to-owners map described by a sequence of lines; a later
/// line overwrites an earlier one with the same pattern.
pub open spec fn table_of_lines(ls: Seq<Seq<char>>) -> Map<Seq<char>, Seq<Seq<char>>>
    decreases ls.len()
{
    if ls.len() == 0 {
        Map::empty()
    } else {
        let m = table_of_lines(ls.drop_last());
        match line_entry(ls.last()) {
            Some(e) => m.insert(e.0, e.1),
            None => m,
        }
    }
}

/// The pattern-to-owners map described by a whole CODEOWNERS file.
pub open spec fn codeowners_map(c: Seq<char>) -> Map<Seq<char>, Seq<Seq<char>>> {
    table_of_lines(lines_at(c, 0))
}

/// The entries hold pairwise-distinct patterns.
pub open spec fn unique_patterns(es: Seq<OwnerEntry>) -> bool {
    forall|i: int, j: int|
        0 <= i < j < es.len() ==> #[trigger] es[i].pattern@ != #[trigger] es[j].pattern@
}

/// Some entry carries the pattern `k`.
pub open spec fn has_pattern(es: Seq<OwnerEntry>, k: Seq<char>) -> bool {
    exists|i: int| 0 <= i < es.len() && #[trigger] es[i].pattern@ == k
}

/// The entry vector is a faithful association list for the map `m`.
pub open spec fn represents(es: Seq<OwnerEntry>, m: Map<Seq<char>, Seq<Seq<char>>>) -> bool {
    &&& unique_patterns(es)
    &&& forall|k: Seq<char>| #[trigger] m.contains_key(k) ==> has_pattern(es, k)
    &&& forall|i: int|
        0 <= i < es.len() ==> m.contains_key(#[trigger] es[i].pattern@) && m[es[i].pattern@]
            == es[i].owners.deep_view()
}

/// What `parse_codeowners` promises of its result for content `c`.
pub open spec fn parses_to(t: OwnershipTable, c: Seq<char>) -> bool {
    let m = codeowners_map(c);
    &&& !(t is Missing)
    &&& ((t is Empty) <==> m.dom() =~= Set::<Seq<char>>::empty())
    &&& match t {
        OwnershipTable::Present(es) => represents(es@, m) && es@.len() > 0,
        _ => true,
    }
}

/// Parses one line into its entry, if it carries one.
fn line_entry_of(l: &str) -> (r: Option<OwnerEntry>)
    ensures
        r is Some <==> line_entry(l@) is Some,
        r is Some ==> {
            let e = line_entry(l@)->Some_0;
            r->Some_0.pattern@ == e.0 && r->Some_0.owners.deep_view() == e.1
        },
{
    let n: usize = l.unicode_len();
    let j = scan_ws(l, 0);
    if j < n && l.get_char(j) == '#' {
        return None;
    }
    let ts = tokens_of(l);
    if ts.len() < 2 {
        return None;
    }
    let first: &String = &ts[0];
    let pat: String = if str_eq(first.as_str(), "*") {
        proof {
            reveal_strlit("*");
            reveal_strlit("/");
            assert("*"@ =~= seq!['*']);
            assert("/"@ =~= root_pattern());
        }
        "/".to_owned()
    } else {
        proof {
            reveal_strlit("*");
            assert("*"@ =~= seq!['*']);
        }
        first.clone()
    };
    let mut owners: Vec<String> = Vec::new();
    let mut i: usize = 1;
    while i < ts.len()
        invariant
            1 <= i <= ts@.len(),
            ts.deep_view() == tokens_at(l@, 0),
            owners@.len() == i - 1,
            forall|x: int|
                0 <= x < i - 1 ==> #[trigger] owners.deep_view()[x] == strip_owner_prefix(
                    ts.deep_view()[x + 1],
                ),
        decreases ts@.len() - i,
    {
        let t: &String = &ts[i];
        let tn: usize = t.as_str().unicode_len();
        let sk = scan_past_char(t.as_str(), '@', 0);
        proof {
            lemma_skip_from(t@, '@', 0);
        }
        let ghost old_dv = owners.deep_view();
        let o: String = t.as_str().substring_char(sk, tn).to_owned();
        owners.push(o);
        proof {
            assert(owners.deep_view() =~= old_dv.push(strip_owner_prefix(ts.deep_view()[i as int])));
        }
        i = i + 1;
    }
    proof {
        assert(owners.deep_view() =~= owners_of(tokens_at(l@, 0)));
    }
    Some(OwnerEntry { pattern: pat, owners })
}

/// Inserts an entry, replacing any earlier entry with the same pattern.
fn upsert_entry(es: &mut Vec<OwnerEntry>, e: OwnerEntry, Ghost(m): Ghost<Map<Seq<char>, Seq<Seq<char>>>>)
    requires
        represents(old(es)@, m),
    ensures
        represents(final(es)@, m.insert(e.pattern@, e.owners.deep_view())),
{
    let ghost p = e.pattern@;
    let ghost o = e.owners.deep_view();
    let ghost m1 = m.insert(p, o);
    let mut i: usize = 0;
    while i < es.len()
        invariant
            0 <= i <= es@.len(),
            *es == *old(es),
            represents(old(es)@, m),
            p == e.pattern@,
            o == e.owners.deep_view(),
            m1 == m.insert(p, o),
            forall|x: int| 0 <= x < i ==> #[trigger] es@[x].pattern@ != e.pattern@,
        decreases es@.len() - i,
    {
        if str_eq(es[i].pattern.as_str(), e.pattern.as_str()) {
            let ghost before = es@;
            es.remove(i);
            es.push(e);
            proof {
                let after = es@;
                assert(after == before.remove(i as int).push(e));
                assert(after.last().pattern@ == p);
                assert(after.last().owners.deep_view() == o);
                assert forall|a: int, b: int| 0 <= a < b < after.len()
                    implies #[trigger] after[a].pattern@ != #[trigger] after[b].pattern@ by {
                    if b < after.len() - 1 {
                        let a0 = if a < i { a } else { a + 1 };
                        let b0 = if b < i { b } else { b + 1 };
                        assert(after[a] == before[a0]);
                        assert(after[b] == before[b0]);
                    } else {
                        let a0 = if a < i { a } else { a + 1 };
                        assert(after[a] == before[a0]);
                        if a0 != i {
                            assert(before[a0].pattern@ != before[i as int].pattern@);
                        }
                    }
                }
                assert forall|k: Seq<char>| #[trigger] m1.contains_key(k) implies has_pattern(
                    after,
                    k,
                ) by {
                    if k == p {
                        assert(after[after.len() - 1].pattern@ == k);
                    } else {
                        assert(m.contains_key(k));
                        let x = choose|x: int|
                            0 <= x < before.len() && #[trigger] before[x].pattern@ == k;
                        if x < i {
                            assert(after[x].pattern@ == k);
                        } else if x == i {
                            assert(before[i as int].pattern@ == p);
                        } else {
                            assert(after[x - 1].pattern@ == k);
                        }
                    }
                }
                assert forall|x: int| 0 <= x < after.len() implies m1.contains_key(
                    #[trigger] after[x].pattern@,
                ) && m1[after[x].pattern@] == after[x].owners.deep_view() by {
                    if x == after.len() - 1 {
                        assert(after[x].pattern@ == p);
                    } else {
                        let x0 = if x < i { x } else { x + 1 };
                        assert(after[x] == before[x0]);
                        assert(before[x0].pattern@ != p);
                    }
                }
            }
            return;
        }
        i = i + 1;
    }
    let ghost before = es@;
    es.push(e);
    proof {
        let after = es@;
        assert(after.last().pattern@ == p);
        assert(after.last().owners.deep_view() == o);
        assert forall|a: int, b: int| 0 <= a < b < after.len() implies #[trigger] after[a].pattern@
            != #[trigger] after[b].pattern@ by {
            if b == after.len() - 1 {
                assert(after[a] == before[a]);
            } else {
                assert(after[a] == before[a]);
                assert(after[b] == before[b]);
            }
        }
        assert forall|k: Seq<char>| #[trigger] m1.contains_key(k) implies has_pattern(after, k) by {
            if k == p {
                assert(after[after.len() - 1].pattern@ == k);
            } else {
                assert(m.contains_key(k));
                let x = choose|x: int| 0 <= x < before.len() && #[trigger] before[x].pattern@ == k;
                assert(after[x].pattern@ == k);
            }
        }
        assert forall|x: int| 0 <= x < after.len() implies m1.contains_key(
            #[trigger] after[x].pattern@,
        ) && m1[after[x].pattern@] == after[x].owners.deep_view() by {
            if x == after.len() - 1 {
            } else {
                assert(after[x] == before[x]);
                assert(before[x].pattern@ != p);
            }
        }
    }
}

/// Parses the content of a CODEOWNERS file into an ownership table.
///
/// The result is never `Missing`; it is `Empty` exactly when no line of
/// the content carries a usable entry, and otherwise holds one entry per
/// distinct pattern, the owners taken from the last line with that
/// pattern.
pub fn parse_codeowners(content: &str) -> (t: OwnershipTable)
    ensures
        parses_to(t, content@),
{
    let ls = lines_of(content);
    let ghost lsv = ls.deep_view();
    let mut es: Vec<OwnerEntry> = Vec::new();
    let mut j: usize = 0;
    proof {
        assert(lsv.take(0) =~= Seq::<Seq<char>>::empty());
        assert(represents(es@, table_of_lines(lsv.take(0))));
    }
    while j < ls.len()
        invariant
            0 <= j <= ls@.len(),
            ls.deep_view() == lsv,
            represents(es@, table_of_lines(lsv.take(j as int))),
        decreases ls@.len() - j,
    {
        let line: &String = &ls[j];
        let ghost prefix = lsv.take(j as int);
        let ghost prefix1 = lsv.take(j as int + 1);
        proof {
            assert(prefix1.drop_last() =~= prefix);
            assert(prefix1.last() == lsv[j as int]);
            assert(lsv[j as int] == line@);
        }
        match line_entry_of(line.as_str()) {
            Some(e) => {
                proof {
                    let se = line_entry(line@)->Some_0;
                    assert(table_of_lines(prefix1) == table_of_lines(prefix).insert(se.0, se.1));
                }
                upsert_entry(&mut es, e, Ghost(table_of_lines(lsv.take(j as int))));
            },
            None => {
                proof {
                    assert(table_of_lines(prefix1) == table_of_lines(prefix));
                }
            },
        }
        j = j + 1;
    }
    proof {
        assert(lsv.take(ls@.len() as int) =~= lsv);
        assert(represents(es@, codeowners_map(content@)));
    }
    if es.len() == 0 {
        proof {
            let m = codeowners_map(content@);
            assert forall|k: Seq<char>| !(#[trigger] m.contains_key(k)) by {
                if m.contains_key(k) {
                    assert(has_pattern(es@, k));
                }
            }
            assert(m.dom() =~= Set::<Seq<char>>::empty());
        }
        OwnershipTable::Empty
    } else {
        proof {
            let m = codeowners_map(content@);
            assert(m.contains_key(es@[0].pattern@));
            assert(m.dom().contains(es@[0].pattern@));
        }
        OwnershipTable::Present(es)
    }
}

/// Loads a repository's ownership table from the CODEOWNERS content, or
/// from its absence.
///
/// `None` stands for "no CODEOWNERS file present" and yields `Missing`;
/// with content in hand the result is never `Missing`.
pub fn load_ownership(content: Option<&str>) -> (t: OwnershipTable)
    ensures
        (t is Missing) <==> (content is None),
        match content {
            Some(c) => parses_to(t, c@),
            None => t is Missing,
        },
{
    match content {
        None => OwnershipTable::Missing,
        Some(c) => parse_codeowners(c),
    }
}

/// Parsing is deterministic: two tables parsed from the same content are
/// structurally equal — same classification, same pattern set, and the
/// same owners for every pattern.
pub proof fn lemma_parse_idempotent(t1: OwnershipTable, t2: OwnershipTable, c: Seq<char>)
    requires
        parses_to(t1, c),
        parses_to(t2, c),
    ensures
        (t1 is Empty) <==> (t2 is Empty),
        (t1 is Present) <==> (t2 is Present),
        match (t1, t2) {
            (OwnershipTable::Present(a), OwnershipTable::Present(b)) => {
                &&& forall|k: Seq<char>| has_pattern(a@, k) <==> has_pattern(b@, k)
                &&& forall|i: int|
                    0 <= i < a@.len() ==> exists|j: int|
                        0 <= j < b@.len() && #[trigger] b@[j].pattern@ == #[trigger] a@[i].pattern@
                            && b@[j].owners.deep_view() == a@[i].owners.deep_view()
            },
            _ => true,
        },
{
    let m = codeowners_map(c);
    match (t1, t2) {
        (OwnershipTable::Present(a), OwnershipTable::Present(b)) => {
            assert forall|k: Seq<char>| has_pattern(a@, k) implies has_pattern(b@, k) by {
                let i = choose|i: int| 0 <= i < a@.len() && #[trigger] a@[i].pattern@ == k;
                assert(m.contains_key(k));
            }
            assert forall|k: Seq<char>| has_pattern(b@, k) implies has_pattern(a@, k) by {
                let i = choose|i: int| 0 <= i < b@.len() && #[trigger] b@[i].pattern@ == k;
                assert(m.contains_key(k));
            }
            assert forall|i: int| 0 <= i < a@.len() implies exists|j: int|
                0 <= j < b@.len() && #[trigger] b@[j].pattern@ == #[trigger] a@[i].pattern@
                && b@[j].owners.deep_view() == a@[i].owners.deep_view() by {
                let k = a@[i].pattern@;
                assert(m.contains_key(k));
                assert(has_pattern(b@, k));
                let j = choose|j: int| 0 <= j < b@.len() && #[trigger] b@[j].pattern@ == k;
                assert(m[k] == b@[j].owners.deep_view());
                assert(m[k] == a@[i].owners.deep_view());
            }
        },
        _ => {},
    }
}

/// A file whose every line is blank or a comment parses to `Empty`.
pub proof fn lemma_inert_lines_empty(t: OwnershipTable, c: Seq<char>)
    requires
        parses_to(t, c),
        forall|i: int|
            0 <= i < lines_at(c, 0).len() ==> line_is_blank(#[trigger] lines_at(c, 0)[i])
                || line_is_comment(lines_at(c, 0)[i]),
    ensures
        t is Empty,
{
    lemma_inert_table(lines_at(c, 0));
    assert(codeowners_map(c).dom() =~= Set::<Seq<char>>::empty());
}

/// A blank line carries no entry.
proof fn lemma_blank_no_entry(l: Seq<char>)
    requires
        line_is_blank(l),
    ensures
        line_entry(l) is None,
{
    lemma_ws_end(l, 0);
    assert(tokens_at(l, 0) =~= Seq::<Seq<char>>::empty());
}

/// Lines that are all blank or comments build the empty table.
proof fn lemma_inert_table(ls: Seq<Seq<char>>)
    requires
        forall|i: int|
            0 <= i < ls.len() ==> line_is_blank(#[trigger] ls[i]) || line_is_comment(ls[i]),
    ensures
        table_of_lines(ls) == Map::<Seq<char>, Seq<Seq<char>>>::empty(),
    decreases ls.len(),
{
    if ls.len() > 0 {
        assert(forall|i: int|
            0 <= i < ls.drop_last().len() ==> line_is_blank(#[trigger] ls.drop_last()[i])
                || line_is_comment(ls.drop_last()[i]));
        lemma_inert_table(ls.drop_last());
        if line_is_blank(ls.last()) {
            lemma_blank_no_entry(ls.last());
        }
    }
}

} // verus!
