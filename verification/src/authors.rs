//! Top-contributor extraction from `git shortlog` output, and the
//! exclusion lists that filter it.
//!
//! A shortlog line holds a commit count followed by an author name; the
//! reporting keeps up to a fixed number of authors, skipping any whose
//! full name stands in the exclusion list, and renders each kept author
//! as `name (count)`.

use vstd::prelude::*;
use vstd::string::StrSliceExecFns;
use vstd::string::StringExecFns;
use crate::text::{
    is_space, ws_end, lemma_ws_end, scan_ws, str_eq, tokens_at, tokens_of,
};

verus! {

/// The tokens of a line joined back together with single spaces.
pub open spec fn join_space(ts: Seq<Seq<char>>) -> Seq<char>
    decreases ts.len()
{
    if ts.len() == 0 {
        Seq::empty()
    } else if ts.len() == 1 {
        ts[0]
    } else {
        join_space(ts.drop_last()) + " "@ + ts.last()
    }
}

/// Joins strings with single spaces.
pub fn join_with_spaces(parts: &Vec<String>) -> (r: String)
    ensures
        r@ == join_space(parts.deep_view()),
{
    let ghost pv = parts.deep_view();
    let mut r: String = String::new();
    let mut j: usize = 0;
    proof {
        assert(pv.take(0) =~= Seq::<Seq<char>>::empty());
    }
    while j < parts.len()
        invariant
            0 <= j <= pv.len(),
            parts.deep_view() == pv,
            r@ == join_space(pv.take(j as int)),
        decreases pv.len() - j,
    {
        proof {
            assert(pv.take(j as int + 1).drop_last() =~= pv.take(j as int));
            assert(pv.take(j as int + 1).last() == pv[j as int]);
        }
        if j > 0 {
            r.append(" ");
        }
        r.append(parts[j].as_str());
        proof {
            if j == 0 {
                assert(r@ == pv[0]);
            }
        }
        j = j + 1;
    }
    proof {
        assert(pv.take(pv.len() as int) =~= pv);
    }
    r
}

/// The author a shortlog line reports: its name (every token after the
/// first, joined with spaces) and its leading count token.
pub open spec fn line_author(l: Seq<char>) -> Option<(Seq<char>, Seq<char>)> {
    let ts = tokens_at(l, 0);
    if ts.len() == 0 {
        None
    } else {
        Some((join_space(ts.skip(1)), ts[0]))
    }
}

/// The rendered form of one kept author.
pub open spec fn author_entry(name: Seq<char>, count: Seq<char>) -> Seq<char> {
    name + " ("@ + count + ")"@
}

/// The authors reported for the shortlog lines at or after `i`, with
/// `remaining` slots left: excluded names are skipped without costing a
/// slot, and collection stops when the slots run out.
pub open spec fn authors_at(
    ls: Seq<Seq<char>>,
    i: int,
    remaining: int,
    exclude: Seq<Seq<char>>,
) -> Seq<Seq<char>>
    decreases ls.len() - i when 0 <= i <= ls.len()
{
    if i >= ls.len() || remaining <= 0 {
        Seq::empty()
    } else {
        match line_author(ls[i]) {
            Some(nc) => if exclude.contains(nc.0) {
                authors_at(ls, i + 1, remaining, exclude)
            } else {
                seq![author_entry(nc.0, nc.1)] + authors_at(ls, i + 1, remaining - 1, exclude)
            },
            None => authors_at(ls, i + 1, remaining, exclude),
        }
    }
}

/// Parses one shortlog line into its rendered author entry.
fn author_of_line(l: &str) -> (r: Option<(String, String)>)
    ensures
        r is Some <==> line_author(l@) is Some,
        r is Some ==> {
            let nc = line_author(l@)->Some_0;
            r->Some_0.0@ == nc.0 && r->Some_0.1@ == nc.1
        },
{
    let ts = tokens_of(l);
    if ts.len() == 0 {
        return None;
    }
    let count: String = ts[0].clone();
    let mut name_parts: Vec<String> = Vec::new();
    let mut j: usize = 1;
    proof {
        assert(name_parts.deep_view() =~= tokens_at(l@, 0).skip(1).take(0));
    }
    while j < ts.len()
        invariant
            1 <= j <= ts@.len(),
            ts.deep_view() == tokens_at(l@, 0),
            name_parts.deep_view() == tokens_at(l@, 0).skip(1).take(j - 1),
        decreases ts@.len() - j,
    {
        let ghost old_dv = name_parts.deep_view();
        name_parts.push(ts[j].clone());
        proof {
            assert(name_parts.deep_view() =~= old_dv.push(ts.deep_view()[j as int]));
            assert(tokens_at(l@, 0).skip(1).take(j as int) =~= tokens_at(l@, 0).skip(1).take(
                j - 1,
            ).push(tokens_at(l@, 0)[j as int]));
        }
        j = j + 1;
    }
    proof {
        assert(tokens_at(l@, 0).skip(1).take(ts@.len() - 1) =~= tokens_at(l@, 0).skip(1));
    }
    let name = join_with_spaces(&name_parts);
    Some((name, count))
}

/// Is the view of `s` among the views of `names`?
fn name_listed(names: &Vec<String>, s: &str) -> (r: bool)
    ensures
        r == names.deep_view().contains(s@),
{
    let mut i: usize = 0;
    while i < names.len()
        invariant
            0 <= i <= names@.len(),
            forall|x: int| 0 <= x < i ==> names.deep_view()[x] != s@,
        decreases names@.len() - i,
    {
        if str_eq(names[i].as_str(), s) {
            proof {
                assert(names.deep_view()[i as int] == s@);
            }
            return true;
        }
        i = i + 1;
    }
    proof {
        if names.deep_view().contains(s@) {
            let x = choose|x: int|
                0 <= x < names.deep_view().len() && names.deep_view()[x] == s@;
            assert(false);
        }
    }
    false
}

/// Extracts up to `limit` authors from `git shortlog -s -n` output,
/// skipping names on the exclusion list and rendering each kept author
/// as `name (count)`.
pub fn top_authors_from_shortlog(text: &str, limit: usize, exclude: &Vec<String>) -> (r: Vec<
    String,
>)
    ensures
        r.deep_view() == authors_at(
            crate::text::lines_at(text@, 0),
            0,
            limit as int,
            exclude.deep_view(),
        ),
{
    let lines = crate::text::lines_of(text);
    let ghost lsv = lines.deep_view();
    let ghost exv = exclude.deep_view();
    let mut r: Vec<String> = Vec::new();
    let mut i: usize = 0;
    let mut remaining: usize = limit;
    proof {
        assert(r.deep_view() + authors_at(lsv, 0, limit as int, exv) =~= authors_at(
            lsv,
            0,
            limit as int,
            exv,
        ));
    }
    loop
        invariant_except_break
            0 <= i <= lsv.len(),
            remaining <= limit,
            lines.deep_view() == lsv,
            exclude.deep_view() == exv,
            authors_at(lsv, 0, limit as int, exv) == r.deep_view() + authors_at(
                lsv,
                i as int,
                remaining as int,
                exv,
            ),
        ensures
            r.deep_view() == authors_at(lsv, 0, limit as int, exv),
        decreases lsv.len() - i,
    {
        if i == lines.len() || remaining == 0 {
            proof {
                assert(authors_at(lsv, i as int, remaining as int, exv)
                    =~= Seq::<Seq<char>>::empty());
                assert(r.deep_view() =~= r.deep_view() + Seq::<Seq<char>>::empty());
            }
            break;
        }
        let line: &String = &lines[i];
        proof {
            assert(lsv[i as int] == line@);
        }
        match author_of_line(line.as_str()) {
            Some((name, count)) => {
                if !name_listed(exclude, name.as_str()) {
                    let entry: String = name.concat(" (").concat(count.as_str()).concat(")");
                    let ghost old_dv = r.deep_view();
                    r.push(entry);
                    proof {
                        let nc = line_author(lsv[i as int])->Some_0;
                        assert(r.deep_view() =~= old_dv.push(author_entry(nc.0, nc.1)));
                        assert(authors_at(lsv, i as int, remaining as int, exv) == seq![
                            author_entry(nc.0, nc.1),
                        ] + authors_at(lsv, i as int + 1, remaining as int - 1, exv));
                        assert(old_dv + authors_at(lsv, i as int, remaining as int, exv)
                            =~= r.deep_view() + authors_at(
                            lsv,
                            i as int + 1,
                            remaining as int - 1,
                            exv,
                        ));
                    }
                    remaining = remaining - 1;
                }
            },
            None => {},
        }
        i = i + 1;
    }
    r
}

/// The index just past the last non-space character of `l`, or `0` for
/// an all-space line.
pub open spec fn trim_end_idx(l: Seq<char>) -> int
    decreases l.len()
{
    if l.len() == 0 {
        0
    } else if is_space(l.last()) {
        trim_end_idx(l.drop_last())
    } else {
        l.len() as int
    }
}

pub proof fn lemma_trim_end_idx(l: Seq<char>)
    ensures
        0 <= trim_end_idx(l) <= l.len(),
        forall|j: int| trim_end_idx(l) <= j < l.len() ==> is_space(l[j]),
        trim_end_idx(l) > 0 ==> !is_space(l[trim_end_idx(l) - 1]),
    decreases l.len(),
{
    if l.len() > 0 && is_space(l.last()) {
        lemma_trim_end_idx(l.drop_last());
        assert(forall|j: int| 0 <= j < l.len() - 1 ==> l[j] == l.drop_last()[j]);
    }
}

proof fn lemma_trim_end_idx_unique(l: Seq<char>, x: int)
    requires
        0 <= x <= l.len(),
        forall|j: int| x <= j < l.len() ==> is_space(l[j]),
        x > 0 ==> !is_space(l[x - 1]),
    ensures
        trim_end_idx(l) == x,
    decreases l.len(),
{
    if l.len() == 0 {
    } else if is_space(l.last()) {
        assert(x < l.len());
        assert(forall|j: int| 0 <= j < l.len() - 1 ==> l[j] == l.drop_last()[j]);
        lemma_trim_end_idx_unique(l.drop_last(), x);
    } else {
        assert(x == l.len());
    }
}

/// A line with its leading and trailing spaces removed.
pub open spec fn trimmed(l: Seq<char>) -> Seq<char> {
    let a = ws_end(l, 0);
    let b = trim_end_idx(l);
    if a >= b {
        Seq::empty()
    } else {
        l.subrange(a, b)
    }
}

/// Trims a line at both ends.
pub fn trim_line(l: &str) -> (r: String)
    ensures
        r@ == trimmed(l@),
{
    let n: usize = l.unicode_len();
    let a = scan_ws(l, 0);
    proof {
        lemma_ws_end(l@, 0);
    }
    let mut b: usize = n;
    while b > 0 && space_at(l, b - 1)
        invariant
            0 <= b <= n,
            n == l@.len(),
            forall|j: int| b <= j < n ==> is_space(l@[j]),
        decreases b,
    {
        b = b - 1;
    }
    proof {
        lemma_trim_end_idx_unique(l@, b as int);
    }
    if a >= b {
        String::new()
    } else {
        l.substring_char(a, b).to_owned()
    }
}

/// Reads one character and tests it for being a space.
fn space_at(l: &str, i: usize) -> (r: bool)
    requires
        i < l@.len(),
    ensures
        r == is_space(l@[i as int]),
{
    crate::text::space_char(l.get_char(i))
}

/// The distinct non-blank trimmed lines of a name-list file, in first
/// appearance order.
pub open spec fn name_list(ls: Seq<Seq<char>>) -> Seq<Seq<char>>
    decreases ls.len()
{
    if ls.len() == 0 {
        Seq::empty()
    } else {
        let front = name_list(ls.drop_last());
        let t = trimmed(ls.last());
        if t.len() > 0 && !front.contains(t) {
            front.push(t)
        } else {
            front
        }
    }
}

/// Parses an exclusion-list file: one name per line, blank lines
/// dropped, surrounding spaces removed, duplicates kept once.
pub fn parse_name_list(content: &str) -> (r: Vec<String>)
    ensures
        r.deep_view() == name_list(crate::text::lines_at(content@, 0)),
{
    let lines = crate::text::lines_of(content);
    let ghost lsv = lines.deep_view();
    let mut r: Vec<String> = Vec::new();
    let mut i: usize = 0;
    proof {
        assert(lsv.take(0) =~= Seq::<Seq<char>>::empty());
    }
    while i < lines.len()
        invariant
            0 <= i <= lsv.len(),
            lines.deep_view() == lsv,
            r.deep_view() == name_list(lsv.take(i as int)),
        decreases lsv.len() - i,
    {
        let line: &String = &lines[i];
        proof {
            assert(lsv.take(i as int + 1).drop_last() =~= lsv.take(i as int));
            assert(lsv.take(i as int + 1).last() == line@);
        }
        let t = trim_line(line.as_str());
        if t.as_str().unicode_len() > 0 && !name_listed(&r, t.as_str()) {
            let ghost old_dv = r.deep_view();
            r.push(t);
            proof {
                assert(r.deep_view() =~= old_dv.push(trimmed(line@)));
            }
        }
        i = i + 1;
    }
    proof {
        assert(lsv.take(lsv.len() as int) =~= lsv);
    }
    r
}

} // verus!
