//! Staleness reporting over branches and pull requests: parsing
//! `for-each-ref` output, filtering by age, and grouping by author.
//!
//! Each stale item is a name, an age in whole days, and an author.  The
//! subprocess and API calls live in the binaries; their text output and
//! parsed records are handed here together with the current time.

use vstd::prelude::*;
use vstd::string::StrSliceExecFns;
use vstd::string::StringExecFns;
use crate::authors::{join_space, join_with_spaces};
use crate::dates::{
    age_days, age_in_days, dec_str, epoch_days, parse_rfc3339, parse_ymd, reasonable_timestamp,
    spec_epoch_secs, spec_parse_rfc3339, spec_parse_ymd, u64_to_string,
};
use crate::mapping::lemma_insert_multiset;
use crate::text::{has_prefix, lines_at, lines_of, str_eq, tokens_at, tokens_of};

verus! {

/// One stale item: a branch or pull-request name, its age in whole
/// days, and its author.
#[derive(Debug, Clone, PartialEq, Eq)]
pub struct StaleEntry {
    pub name: String,
    pub age_days: i64,
    pub author: String,
}

/// The views of an entry sequence, for stating contracts.
pub open spec fn entry_views(es: Seq<StaleEntry>) -> Seq<(Seq<char>, int, Seq<char>)> {
    Seq::new(es.len(), |i: int| (es[i].name@, es[i].age_days as int, es[i].author@))
}

/// A ref name with every leading `origin/` removed.
pub open spec fn strip_origin(s: Seq<char>) -> Seq<char>
    decreases s.len()
{
    if "origin/"@.is_prefix_of(s) && s.len() >= 7 {
        strip_origin(s.skip(7))
    } else {
        s
    }
}

/// Removes every leading `origin/` from a ref name.
fn strip_origin_prefix(s: &str) -> (r: String)
    ensures
        r@ == strip_origin(s@),
    decreases s@.len(),
{
    let n: usize = s.unicode_len();
    if n >= 7 && has_prefix(s, "origin/") {
        proof {
            reveal_strlit("origin/");
        }
        strip_origin_prefix(s.substring_char(7, n))
    } else {
        proof {
            reveal_strlit("origin/");
        }
        s.to_owned()
    }
}

/// The stale entry one `for-each-ref` line carries, if any: the line
/// must hold a date, a ref name and an author, the date must parse, and
/// the age must reach the threshold.
pub open spec fn line_stale_entry(l: Seq<char>, days: int, now: int) -> Option<
    (Seq<char>, int, Seq<char>),
> {
    let ts = tokens_at(l, 0);
    if ts.len() < 3 {
        None
    } else {
        match spec_parse_ymd(ts[0]) {
            None => None,
            Some(f) => {
                let age = age_in_days(now, spec_epoch_secs(f.0, f.1, f.2));
                if age >= days {
                    Some((strip_origin(ts[1]), age, join_space(ts.skip(2))))
                } else {
                    None
                }
            },
        }
    }
}

/// The stale entries of `for-each-ref` output, in line order.
pub open spec fn stale_lines_at(ls: Seq<Seq<char>>, i: int, days: int, now: int) -> Seq<
    (Seq<char>, int, Seq<char>),
>
    decreases ls.len() - i when 0 <= i <= ls.len()
{
    if i >= ls.len() {
        Seq::empty()
    } else {
        match line_stale_entry(ls[i], days, now) {
            Some(e) => seq![e] + stale_lines_at(ls, i + 1, days, now),
            None => stale_lines_at(ls, i + 1, days, now),
        }
    }
}

/// Parses `git for-each-ref` output into the stale branches: each line
/// holds a short date, a ref name and an author; a branch is stale when
/// its age in whole days reaches `days`.
pub fn stale_branch_entries(text: &str, days: i64, now: i64) -> (r: Vec<StaleEntry>)
    requires
        reasonable_timestamp(now as int),
    ensures
        entry_views(r@) == stale_lines_at(lines_at(text@, 0), 0, days as int, now as int),
{
    let lines = lines_of(text);
    let ghost lsv = lines.deep_view();
    let mut r: Vec<StaleEntry> = Vec::new();
    let mut i: usize = 0;
    proof {
        assert(entry_views(r@) =~= Seq::<(Seq<char>, int, Seq<char>)>::empty());
        assert(stale_lines_at(lsv, 0, days as int, now as int) =~= entry_views(r@)
            + stale_lines_at(lsv, 0, days as int, now as int));
    }
    while i < lines.len()
        invariant
            0 <= i <= lsv.len(),
            lines.deep_view() == lsv,
            lsv == lines_at(text@, 0),
            reasonable_timestamp(now as int),
            stale_lines_at(lsv, 0, days as int, now as int) == entry_views(r@) + stale_lines_at(
                lsv,
                i as int,
                days as int,
                now as int,
            ),
        decreases lsv.len() - i,
    {
        let line: &String = &lines[i];
        proof {
            assert(lsv[i as int] == line@);
        }
        let toks = tokens_of(line.as_str());
        if toks.len() >= 3 {
            match parse_ymd(toks[0].as_str()) {
                Some((y, m, d)) => {
                    let secs: i64 = epoch_days(y, m, d) * 86400;
                    let age = age_days(now, secs);
                    if age >= days {
                        let name = strip_origin_prefix(toks[1].as_str());
                        let mut author_parts: Vec<String> = Vec::new();
                        let mut j: usize = 2;
                        proof {
                            assert(author_parts.deep_view() =~= tokens_at(line@, 0).skip(2).take(
                                0,
                            ));
                        }
                        while j < toks.len()
                            invariant
                                2 <= j <= toks@.len(),
                                toks@.len() >= 3,
                                toks.deep_view() == tokens_at(line@, 0),
                                author_parts.deep_view() == tokens_at(line@, 0).skip(2).take(j - 2),
                            decreases toks@.len() - j,
                        {
                            let ghost old_dv = author_parts.deep_view();
                            author_parts.push(toks[j].clone());
                            proof {
                                assert(author_parts.deep_view() =~= old_dv.push(
                                    toks.deep_view()[j as int],
                                ));
                                assert(tokens_at(line@, 0).skip(2).take(j as int - 1) =~= tokens_at(
                                    line@,
                                    0,
                                ).skip(2).take(j - 2).push(tokens_at(line@, 0)[j as int]));
                            }
                            j = j + 1;
                        }
                        proof {
                            assert(tokens_at(line@, 0).skip(2).take(toks@.len() - 2) =~= tokens_at(
                                line@,
                                0,
                            ).skip(2));
                        }
                        let author = join_with_spaces(&author_parts);
                        let ghost old_views = entry_views(r@);
                        let ghost entry = line_stale_entry(
                            lsv[i as int],
                            days as int,
                            now as int,
                        )->Some_0;
                        r.push(StaleEntry { name, age_days: age, author });
                        proof {
                            assert(entry_views(r@) =~= old_views.push(entry));
                            assert(stale_lines_at(lsv, i as int, days as int, now as int) == seq![
                                entry,
                            ] + stale_lines_at(lsv, i as int + 1, days as int, now as int));
                            assert(old_views + stale_lines_at(lsv, i as int, days as int,
                                now as int) =~= entry_views(r@) + stale_lines_at(
                                lsv,
                                i as int + 1,
                                days as int,
                                now as int,
                            ));
                        }
                    }
                },
                None => {},
            }
        }
        i = i + 1;
    }
    proof {
        assert(stale_lines_at(lsv, lsv.len() as int, days as int, now as int) =~= Seq::<
            (Seq<char>, int, Seq<char>),
        >::empty());
        assert(entry_views(r@) + stale_lines_at(lsv, lsv.len() as int, days as int, now as int)
            =~= entry_views(r@));
    }
    r
}

/// One pull request as parsed from the listing call: its title, number,
/// creation timestamp, and author login when one is known.
#[derive(Debug, Clone, PartialEq, Eq)]
pub struct PrRecord {
    pub title: String,
    pub number: u64,
    pub created_at: String,
    pub author: Option<String>,
}

/// The stale entry one pull request carries, if any: its timestamp must
/// parse and its age must reach the threshold; the rendered name is
/// `title (pr number)` and a missing author reads `Unknown`.
pub open spec fn pr_stale_entry(p: PrRecord, days: int, now: int) -> Option<
    (Seq<char>, int, Seq<char>),
> {
    match spec_parse_rfc3339(p.created_at@) {
        None => None,
        Some(ts) => {
            let age = age_in_days(now, ts);
            if age >= days {
                let author = match p.author {
                    Some(a) => a@,
                    None => "Unknown"@,
                };
                Some((p.title@ + " (pr "@ + dec_str(p.number as int) + ")"@, age, author))
            } else {
                None
            }
        },
    }
}

/// The stale entries of a pull-request listing, in listing order.
pub open spec fn pr_entries_spec(prs: Seq<PrRecord>, days: int, now: int) -> Seq<
    (Seq<char>, int, Seq<char>),
>
    decreases prs.len()
{
    if prs.len() == 0 {
        Seq::empty()
    } else {
        let front = pr_entries_spec(prs.drop_last(), days, now);
        match pr_stale_entry(prs.last(), days, now) {
            Some(e) => front.push(e),
            None => front,
        }
    }
}

/// Filters a pull-request listing down to the stale ones, rendering
/// each as `title (pr number)` with its age and author.
pub fn stale_pr_entries(prs: Vec<PrRecord>, days: i64, now: i64) -> (r: Vec<StaleEntry>)
    requires
        reasonable_timestamp(now as int),
    ensures
        entry_views(r@) == pr_entries_spec(prs@, days as int, now as int),
{
    let ghost pv = prs@;
    let mut rest = prs;
    let mut r: Vec<StaleEntry> = Vec::new();
    proof {
        assert(pv.take(0) =~= Seq::<PrRecord>::empty());
        assert(entry_views(r@) =~= pr_entries_spec(pv.take(0), days as int, now as int));
    }
    while rest.len() > 0
        invariant
            rest@.len() <= pv.len(),
            rest@ == pv.skip(pv.len() - rest@.len()),
            reasonable_timestamp(now as int),
            entry_views(r@) == pr_entries_spec(pv.take(pv.len() - rest@.len()), days as int,
                now as int),
        decreases rest@.len(),
    {
        let ghost done = pv.len() - rest@.len();
        let p = rest.remove(0);
        proof {
            assert(rest@ =~= pv.skip(done + 1));
            assert(pv.take(done + 1).drop_last() =~= pv.take(done));
            assert(pv.take(done + 1).last() == p);
        }
        match parse_rfc3339(p.created_at.as_str()) {
            Some(ts) => {
                let age = age_days(now, ts);
                if age >= days {
                    let name: String = p.title.concat(" (pr ").concat(
                        u64_to_string(p.number).as_str(),
                    ).concat(")");
                    let author: String = match p.author {
                        Some(a) => a,
                        None => "Unknown".to_owned(),
                    };
                    let ghost old_views = entry_views(r@);
                    let ghost entry = pr_stale_entry(pv[done], days as int, now as int)->Some_0;
                    r.push(StaleEntry { name, age_days: age, author });
                    proof {
                        assert(entry_views(r@) =~= old_views.push(entry));
                    }
                }
            },
            None => {},
        }
        proof {
            assert(entry_views(r@) =~= pr_entries_spec(pv.take(done + 1), days as int,
                now as int));
        }
    }
    proof {
        assert(pv.take(pv.len() as int) =~= pv);
    }
    r
}

/// How many entries the author has.
pub open spec fn author_count(es: Seq<(Seq<char>, int, Seq<char>)>, a: Seq<char>) -> int
    decreases es.len()
{
    if es.len() == 0 {
        0
    } else if es.last().2 == a {
        author_count(es.drop_last(), a) + 1
    } else {
        author_count(es.drop_last(), a)
    }
}

/// The author's greatest age, floored at zero.
pub open spec fn author_max(es: Seq<(Seq<char>, int, Seq<char>)>, a: Seq<char>) -> int
    decreases es.len()
{
    if es.len() == 0 {
        0
    } else {
        let front = author_max(es.drop_last(), a);
        if es.last().2 == a && es.last().1 > front {
            es.last().1
        } else {
            front
        }
    }
}

/// Does the author appear among the entries?
pub open spec fn has_author(es: Seq<(Seq<char>, int, Seq<char>)>, a: Seq<char>) -> bool {
    exists|i: int| 0 <= i < es.len() && (#[trigger] es[i]).2 == a
}

/// Does some group carry the author?
pub open spec fn stat_has_author(ss: Seq<AuthorStat>, a: Seq<char>) -> bool {
    exists|i: int| 0 <= i < ss.len() && (#[trigger] ss[i].author@) == a
}

proof fn lemma_author_count_le(es: Seq<(Seq<char>, int, Seq<char>)>, a: Seq<char>)
    ensures
        0 <= author_count(es, a) <= es.len(),
    decreases es.len(),
{
    if es.len() > 0 {
        lemma_author_count_le(es.drop_last(), a);
    }
}

/// One author's line of the hierarchical summary.
#[derive(Debug, Clone, PartialEq, Eq)]
pub struct AuthorStat {
    pub author: String,
    pub count: usize,
    pub max_age: i64,
}

/// Groups entries by author and reports, per author, the entry count and
/// the greatest age, ordered by greatest age descending.
pub fn author_stats(entries: &Vec<StaleEntry>) -> (r: Vec<AuthorStat>)
    ensures
        forall|i: int, j: int|
            0 <= i < j < r@.len() ==> (#[trigger] r@[i].author@) != (#[trigger] r@[j].author@),
        forall|i: int|
            0 <= i < r@.len() ==> has_author(entry_views(entries@), (#[trigger] r@[i]).author@)
                && r@[i].count == author_count(entry_views(entries@), r@[i].author@)
                && r@[i].max_age == author_max(entry_views(entries@), r@[i].author@),
        forall|a: Seq<char>|
            #[trigger] has_author(entry_views(entries@), a) ==> exists|i: int|
                0 <= i < r@.len() && (#[trigger] r@[i].author@) == a,
        forall|i: int, j: int|
            0 <= i < j < r@.len() ==> (#[trigger] r@[i]).max_age >= (#[trigger] r@[j]).max_age,
{
    let ghost ev = entry_views(entries@);
    let mut grouped: Vec<AuthorStat> = Vec::new();
    let mut k: usize = 0;
    proof {
        assert(entry_views(entries@).len() == entries@.len());
    }
    while k < entries.len()
        invariant
            0 <= k <= entries@.len(),
            ev == entry_views(entries@),
            forall|i: int, j: int|
                0 <= i < j < grouped@.len() ==> (#[trigger] grouped@[i].author@)
                    != (#[trigger] grouped@[j].author@),
            forall|i: int|
                0 <= i < grouped@.len() ==> has_author(ev.take(k as int),
                    (#[trigger] grouped@[i]).author@)
                    && grouped@[i].count == author_count(ev.take(k as int), grouped@[i].author@)
                    && grouped@[i].max_age == author_max(ev.take(k as int), grouped@[i].author@),
            forall|a: Seq<char>|
                #[trigger] has_author(ev.take(k as int), a) ==> exists|i: int|
                    0 <= i < grouped@.len() && (#[trigger] grouped@[i].author@) == a,
        decreases entries@.len() - k,
    {
        let e: &StaleEntry = &entries[k];
        let ghost prefix = ev.take(k as int);
        let ghost prefix1 = ev.take(k as int + 1);
        proof {
            assert(prefix1.drop_last() =~= prefix);
            assert(prefix1.last() == (e.name@, e.age_days as int, e.author@));
        }
        let mut idx: usize = 0;
        let mut found: bool = false;
        loop
            invariant_except_break
                0 <= idx <= grouped@.len(),
                found == false,
                forall|x: int| 0 <= x < idx ==> (#[trigger] grouped@[x].author@) != e.author@,
            ensures
                found ==> idx < grouped@.len() && grouped@[idx as int].author@ == e.author@,
                !found ==> forall|x: int|
                    0 <= x < grouped@.len() ==> (#[trigger] grouped@[x].author@) != e.author@,
            decreases grouped@.len() - idx,
        {
            if idx == grouped.len() {
                break;
            }
            if str_eq(grouped[idx].author.as_str(), e.author.as_str()) {
                found = true;
                break;
            }
            idx = idx + 1;
        }
        let ghost before = grouped@;
        if found {
            proof {
                lemma_author_count_le(prefix, e.author@);
            }
            let stat = grouped.remove(idx);
            let new_max: i64 = if e.age_days > stat.max_age {
                e.age_days
            } else {
                stat.max_age
            };
            grouped.push(AuthorStat { author: stat.author, count: stat.count + 1, max_age: new_max });
            proof {
                let after = grouped@;
                assert(after == before.remove(idx as int).push(
                    AuthorStat {
                        author: before[idx as int].author,
                        count: (before[idx as int].count + 1) as usize,
                        max_age: if prefix1.last().1 > before[idx as int].max_age as int {
                            e.age_days
                        } else {
                            before[idx as int].max_age
                        },
                    },
                ));
                assert(after.last().author@ == e.author@);
                assert forall|i: int, j: int| 0 <= i < j < after.len() implies (
                #[trigger] after[i].author@) != (#[trigger] after[j].author@) by {
                    let i0 = if i < idx {
                        i
                    } else {
                        i + 1
                    };
                    if j < after.len() - 1 {
                        let j0 = if j < idx {
                            j
                        } else {
                            j + 1
                        };
                        assert(after[i] == before[i0]);
                        assert(after[j] == before[j0]);
                    } else {
                        assert(after[i] == before[i0]);
                        if i0 != idx {
                            assert(before[i0].author@ != before[idx as int].author@);
                        }
                    }
                }
                assert forall|i: int| 0 <= i < after.len() implies has_author(
                    prefix1,
                    (#[trigger] after[i]).author@,
                ) && after[i].count == author_count(prefix1, after[i].author@) && after[i].max_age
                    == author_max(prefix1, after[i].author@) by {
                    if i == after.len() - 1 {
                        assert(has_author(prefix1, e.author@)) by {
                            assert(prefix1[prefix1.len() - 1].2 == e.author@);
                        }
                        assert(author_count(prefix1, e.author@) == author_count(prefix, e.author@)
                            + 1);
                    } else {
                        let i0 = if i < idx {
                            i
                        } else {
                            i + 1
                        };
                        assert(after[i] == before[i0]);
                        assert(before[i0].author@ != e.author@);
                        assert(author_count(prefix1, after[i].author@) == author_count(
                            prefix,
                            after[i].author@,
                        ));
                        assert(author_max(prefix1, after[i].author@) == author_max(
                            prefix,
                            after[i].author@,
                        ));
                        if has_author(prefix, after[i].author@) {
                            assert(has_author(prefix1, after[i].author@)) by {
                                let x = choose|x: int|
                                    0 <= x < prefix.len()
                                        && (#[trigger] prefix[x]).2 == after[i].author@;
                                assert(prefix1[x].2 == after[i].author@);
                            }
                        }
                    }
                }
                assert forall|a: Seq<char>| #[trigger] has_author(prefix1, a) implies exists|i: int|
                    0 <= i < after.len() && (#[trigger] after[i].author@) == a by {
                    if a == e.author@ {
                        assert(after[after.len() - 1].author@ == a);
                    } else {
                        let x = choose|x: int|
                            0 <= x < prefix1.len() && (#[trigger] prefix1[x]).2 == a;
                        assert(prefix[x].2 == a);
                        assert(has_author(prefix, a));
                        let i = choose|i: int|
                            0 <= i < before.len() && (#[trigger] before[i].author@) == a;
                        if i < idx {
                            assert(after[i].author@ == a);
                        } else if i == idx {
                            assert(before[idx as int].author@ == e.author@);
                        } else {
                            assert(after[i - 1].author@ == a);
                        }
                    }
                }
            }
        } else {
            let max0: i64 = if e.age_days > 0 {
                e.age_days
            } else {
                0
            };
            grouped.push(AuthorStat { author: e.author.clone(), count: 1, max_age: max0 });
            proof {
                let after = grouped@;
                assert(after.last().author@ == e.author@);
                assert(!has_author(prefix, e.author@)) by {
                    if has_author(prefix, e.author@) {
                        let x = choose|x: int|
                            0 <= x < prefix.len() && (#[trigger] prefix[x]).2 == e.author@;
                        assert(false);
                    }
                }
                lemma_absent_author(prefix, e.author@);
                assert forall|i: int| 0 <= i < after.len() implies has_author(
                    prefix1,
                    (#[trigger] after[i]).author@,
                ) && after[i].count == author_count(prefix1, after[i].author@) && after[i].max_age
                    == author_max(prefix1, after[i].author@) by {
                    if i == after.len() - 1 {
                        assert(prefix1[prefix1.len() - 1].2 == e.author@);
                        assert(author_count(prefix1, e.author@) == author_count(prefix, e.author@)
                            + 1);
                    } else {
                        assert(after[i] == before[i]);
                        assert(before[i].author@ != e.author@);
                        if has_author(prefix, after[i].author@) {
                            let x = choose|x: int|
                                0 <= x < prefix.len()
                                    && (#[trigger] prefix[x]).2 == after[i].author@;
                            assert(prefix1[x].2 == after[i].author@);
                        }
                    }
                }
                assert forall|a: Seq<char>| #[trigger] has_author(prefix1, a) implies exists|i: int|
                    0 <= i < after.len() && (#[trigger] after[i].author@) == a by {
                    if a == e.author@ {
                        assert(after[after.len() - 1].author@ == a);
                    } else {
                        let x = choose|x: int|
                            0 <= x < prefix1.len() && (#[trigger] prefix1[x]).2 == a;
                        assert(prefix[x].2 == a);
                        assert(has_author(prefix, a));
                        let i = choose|i: int|
                            0 <= i < before.len() && (#[trigger] before[i].author@) == a;
                        assert(after[i].author@ == a);
                    }
                }
            }
        }
        k = k + 1;
    }
    proof {
        assert(ev.take(entries@.len() as int) =~= ev);
    }
    // Order the groups by greatest age, descending.
    let mut rest = grouped;
    let mut out: Vec<AuthorStat> = Vec::new();
    let ghost gv = rest@;
    while rest.len() > 0
        invariant
            rest@.len() <= gv.len(),
            rest@ == gv.skip(gv.len() - rest@.len()),
            forall|i: int, j: int|
                0 <= i < j < gv.len() ==> (#[trigger] gv[i].author@) != (#[trigger] gv[j].author@),
            forall|i: int|
                0 <= i < gv.len() ==> has_author(ev, (#[trigger] gv[i]).author@) && gv[i].count
                    == author_count(ev, gv[i].author@) && gv[i].max_age == author_max(
                    ev,
                    gv[i].author@,
                ),
            forall|a: Seq<char>|
                #[trigger] has_author(ev, a) ==> exists|i: int|
                    0 <= i < gv.len() && (#[trigger] gv[i].author@) == a,
            ev == entry_views(entries@),
            forall|i: int|
                0 <= i < out@.len() ==> gv.contains(#[trigger] out@[i]),
            forall|i: int|
                0 <= i < gv.len() - rest@.len() ==> stat_has_author(
                    out@,
                    #[trigger] gv[i].author@,
                ),
            forall|j: int|
                0 <= j < out@.len() ==> stat_has_author(
                    gv.take(gv.len() - rest@.len()),
                    #[trigger] out@[j].author@,
                ),
            forall|i: int, j: int|
                0 <= i < j < out@.len() ==> (#[trigger] out@[i].author@)
                    != (#[trigger] out@[j].author@),
            forall|i: int, j: int|
                0 <= i < j < out@.len() ==> (#[trigger] out@[i]).max_age
                    >= (#[trigger] out@[j]).max_age,
        decreases rest@.len(),
    {
        let ghost done = gv.len() - rest@.len();
        let x = rest.remove(0);
        proof {
            assert(rest@ =~= gv.skip(done + 1));
            assert(gv[done] == x);
        }
        let mut pos: usize = 0;
        while pos < out.len() && out[pos].max_age >= x.max_age
            invariant
                0 <= pos <= out@.len(),
                forall|k0: int| 0 <= k0 < pos ==> (#[trigger] out@[k0]).max_age >= x.max_age,
            decreases out@.len() - pos,
        {
            pos = pos + 1;
        }
        let ghost before = out@;
        out.insert(pos, x);
        proof {
            let after = out@;
            assert(after == before.insert(pos as int, x));
            assert(gv.contains(x)) by {
                assert(gv[done] == x);
            }
            assert forall|i: int| 0 <= i < after.len() implies gv.contains(#[trigger] after[i]) by {
                if i != pos {
                    let i0 = if i < pos {
                        i
                    } else {
                        i - 1
                    };
                    assert(after[i] == before[i0]);
                }
            }
            assert forall|i: int, j: int| 0 <= i < j < after.len() implies (
            #[trigger] after[i]).max_age >= (#[trigger] after[j]).max_age by {
                let i0 = if i < pos {
                    i
                } else {
                    i - 1
                };
                let j0 = if j < pos {
                    j
                } else {
                    j - 1
                };
                if i == pos {
                    assert(after[j] == before[j0]);
                } else if j == pos {
                    assert(after[i] == before[i0]);
                } else {
                    assert(after[i] == before[i0]);
                    assert(after[j] == before[j0]);
                }
            }
            assert forall|i: int, j: int| 0 <= i < j < after.len() implies (
            #[trigger] after[i].author@) != (#[trigger] after[j].author@) by {
                let i0 = if i < pos {
                    i
                } else {
                    i - 1
                };
                let j0 = if j < pos {
                    j
                } else {
                    j - 1
                };
                if i == pos {
                    assert(after[j] == before[j0]);
                    assert(before[j0].author@ != x.author@) by {
                        lemma_distinct_stat(gv, before, done, j0);
                    }
                } else if j == pos {
                    assert(after[i] == before[i0]);
                    assert(before[i0].author@ != x.author@) by {
                        lemma_distinct_stat(gv, before, done, i0);
                    }
                } else {
                    assert(after[i] == before[i0]);
                    assert(after[j] == before[j0]);
                }
            }
            assert forall|i: int| 0 <= i < done + 1 implies stat_has_author(
                after,
                #[trigger] gv[i].author@,
            ) by {
                if i < done {
                    assert(stat_has_author(before, gv[i].author@));
                    let i1 = choose|i1: int|
                        0 <= i1 < before.len() && (#[trigger] before[i1].author@) == gv[i].author@;
                    let i2 = if i1 < pos {
                        i1
                    } else {
                        i1 + 1
                    };
                    assert(after[i2].author@ == gv[i].author@);
                } else {
                    assert(after[pos as int].author@ == gv[i].author@);
                }
            }
            assert forall|j: int| 0 <= j < after.len() implies stat_has_author(
                gv.take(done + 1),
                #[trigger] after[j].author@,
            ) by {
                if j == pos {
                    assert(gv.take(done + 1)[done].author@ == after[j].author@);
                } else {
                    let j0 = if j < pos {
                        j
                    } else {
                        j - 1
                    };
                    assert(after[j] == before[j0]);
                    assert(stat_has_author(gv.take(done), before[j0].author@));
                    let i1 = choose|i1: int|
                        0 <= i1 < gv.take(done).len() && (#[trigger] gv.take(done)[i1].author@)
                            == before[j0].author@;
                    assert(gv.take(done + 1)[i1].author@ == after[j].author@);
                }
            }
        }
    }
    proof {
        assert forall|i: int| 0 <= i < out@.len() implies has_author(
            ev,
            (#[trigger] out@[i]).author@,
        ) && out@[i].count == author_count(ev, out@[i].author@) && out@[i].max_age == author_max(
            ev,
            out@[i].author@,
        ) by {
            assert(gv.contains(out@[i]));
            let x = choose|x: int| 0 <= x < gv.len() && gv[x] == out@[i];
        }
        assert forall|a: Seq<char>| #[trigger] has_author(ev, a) implies exists|i: int|
            0 <= i < out@.len() && (#[trigger] out@[i].author@) == a by {
            let i = choose|i: int| 0 <= i < gv.len() && (#[trigger] gv[i].author@) == a;
            assert(stat_has_author(out@, gv[i].author@));
        }
    }
    out
}

/// In a vector drawn without replacement from distinct-author groups, an
/// element of the drawn part never shares an author with a later draw.
proof fn lemma_distinct_stat(gv: Seq<AuthorStat>, before: Seq<AuthorStat>, done: int, i0: int)
    requires
        0 <= done < gv.len(),
        0 <= i0 < before.len(),
        forall|i: int, j: int|
            0 <= i < j < gv.len() ==> (#[trigger] gv[i].author@) != (#[trigger] gv[j].author@),
        forall|j: int|
            0 <= j < before.len() ==> stat_has_author(gv.take(done), #[trigger] before[j].author@),
    ensures
        before[i0].author@ != gv[done].author@,
{
    let a = before[i0].author@;
    assert(stat_has_author(gv.take(done), a));
    let i = choose|i: int| 0 <= i < gv.take(done).len() && (#[trigger] gv.take(done)[i].author@)
        == a;
    assert(gv[i].author@ == a);
    assert(gv[i].author@ != gv[done].author@);
}

proof fn lemma_absent_author(es: Seq<(Seq<char>, int, Seq<char>)>, a: Seq<char>)
    requires
        !has_author(es, a),
    ensures
        author_count(es, a) == 0,
        author_max(es, a) == 0,
    decreases es.len(),
{
    if es.len() > 0 {
        assert(!has_author(es.drop_last(), a)) by {
            if has_author(es.drop_last(), a) {
                let x = choose|x: int|
                    0 <= x < es.drop_last().len() && (#[trigger] es.drop_last()[x]).2 == a;
                assert(es[x].2 == a);
            }
        }
        lemma_absent_author(es.drop_last(), a);
        assert(es.last().2 != a) by {
            if es.last().2 == a {
                assert(es[es.len() - 1].2 == a);
            }
        }
    }
}

/// The entries of one author, in input order.
pub open spec fn entries_for(es: Seq<(Seq<char>, int, Seq<char>)>, a: Seq<char>) -> Seq<
    (Seq<char>, int, Seq<char>),
>
    decreases es.len()
{
    if es.len() == 0 {
        Seq::empty()
    } else {
        let front = entries_for(es.drop_last(), a);
        if es.last().2 == a {
            front.push(es.last())
        } else {
            front
        }
    }
}

/// Keeps the entries of one author, in input order.
pub fn entries_of_author(entries: &Vec<StaleEntry>, author: &str) -> (r: Vec<StaleEntry>)
    ensures
        entry_views(r@) == entries_for(entry_views(entries@), author@),
{
    let ghost ev = entry_views(entries@);
    let mut r: Vec<StaleEntry> = Vec::new();
    let mut k: usize = 0;
    proof {
        assert(entry_views(r@) =~= entries_for(ev.take(0), author@));
    }
    while k < entries.len()
        invariant
            0 <= k <= entries@.len(),
            ev == entry_views(entries@),
            entry_views(r@) == entries_for(ev.take(k as int), author@),
        decreases entries@.len() - k,
    {
        let e: &StaleEntry = &entries[k];
        proof {
            assert(ev.take(k as int + 1).drop_last() =~= ev.take(k as int));
            assert(ev.take(k as int + 1).last() == (e.name@, e.age_days as int, e.author@));
        }
        if str_eq(e.author.as_str(), author) {
            let ghost old_views = entry_views(r@);
            r.push(StaleEntry { name: e.name.clone(), age_days: e.age_days, author: e.author.clone() });
            proof {
                assert(entry_views(r@) =~= old_views.push((e.name@, e.age_days as int, e.author@)));
            }
        }
        k = k + 1;
    }
    proof {
        assert(ev.take(entries@.len() as int) =~= ev);
    }
    r
}

/// Orders entries by age, oldest first.  The result holds exactly the
/// given entries.
pub fn sort_entries_by_age(entries: Vec<StaleEntry>) -> (r: Vec<StaleEntry>)
    ensures
        r@.to_multiset() == entries@.to_multiset(),
        forall|i: int, j: int|
            0 <= i < j < r@.len() ==> (#[trigger] r@[i]).age_days >= (#[trigger] r@[j]).age_days,
{
    let ghost rsv = entries@;
    let mut rest = entries;
    let mut out: Vec<StaleEntry> = Vec::new();
    proof {
        rsv.take(0).to_multiset_ensures();
        out@.to_multiset_ensures();
        assert(out@.to_multiset() =~= rsv.take(0).to_multiset()) by {
            assert(out@ =~= rsv.take(0));
        }
    }
    while rest.len() > 0
        invariant
            rest@.len() <= rsv.len(),
            rest@ == rsv.skip(rsv.len() - rest@.len()),
            out@.to_multiset() == rsv.take(rsv.len() - rest@.len()).to_multiset(),
            forall|i: int, j: int|
                0 <= i < j < out@.len() ==> (#[trigger] out@[i]).age_days >= (
                #[trigger] out@[j]).age_days,
        decreases rest@.len(),
    {
        let ghost done = rsv.len() - rest@.len();
        let x = rest.remove(0);
        proof {
            assert(rest@ =~= rsv.skip(done + 1));
            assert(rsv.take(done + 1) =~= rsv.take(done).push(x));
            rsv.take(done).to_multiset_ensures();
            assert(rsv.take(done + 1).to_multiset() =~= rsv.take(done).to_multiset().insert(x));
        }
        let mut pos: usize = 0;
        while pos < out.len() && out[pos].age_days >= x.age_days
            invariant
                0 <= pos <= out@.len(),
                forall|k0: int| 0 <= k0 < pos ==> (#[trigger] out@[k0]).age_days >= x.age_days,
            decreases out@.len() - pos,
        {
            pos = pos + 1;
        }
        let ghost before = out@;
        out.insert(pos, x);
        proof {
            assert(out@ == before.insert(pos as int, x));
            lemma_insert_multiset(before, x, pos as int);
            assert forall|i: int, j: int| 0 <= i < j < out@.len() implies (
            #[trigger] out@[i]).age_days >= (#[trigger] out@[j]).age_days by {
                let i0 = if i < pos {
                    i
                } else {
                    i - 1
                };
                let j0 = if j < pos {
                    j
                } else {
                    j - 1
                };
                if i == pos {
                    assert(out@[j] == before[j0]);
                } else if j == pos {
                    assert(out@[i] == before[i0]);
                } else {
                    assert(out@[i] == before[i0]);
                    assert(out@[j] == before[j0]);
                }
            }
        }
    }
    proof {
        assert(rsv.take(rsv.len() as int) =~= rsv);
    }
    out
}

} // verus!
