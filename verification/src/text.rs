//! Character-level scanning primitives shared by the parsers in this crate.
//!
//! Every parser here works on `&str` values whose mathematical model is the
//! `Seq<char>` view.  The spec functions in this module locate the next
//! separator (or non-separator) at or after a position; the exec functions
//! compute the same positions and are proved equal to them.

use vstd::prelude::*;
use vstd::string::StrSliceExecFns;

verus! {

/// Whitespace as the line-oriented formats in this crate understand it:
/// the ASCII separators that may appear between tokens of one line.
pub open spec fn is_space(c: char) -> bool {
    c == ' ' || c == '\t' || c == '\r'
}

/// Exec mirror of [`is_space`].
pub fn space_char(c: char) -> (r: bool)
    ensures
        r == is_space(c),
{
    c == ' ' || c == '\t' || c == '\r'
}

/// First index at or after `i` holding a character that is not a space,
/// or the length of `s` when only spaces remain.
pub open spec fn ws_end(s: Seq<char>, i: int) -> int
    decreases s.len() - i when 0 <= i <= s.len()
{
    if i >= s.len() || !is_space(s[i]) {
        i
    } else {
        ws_end(s, i + 1)
    }
}

pub proof fn lemma_ws_end(s: Seq<char>, i: int)
    requires
        0 <= i <= s.len(),
    ensures
        i <= ws_end(s, i) <= s.len(),
        forall|j: int| i <= j < ws_end(s, i) ==> is_space(s[j]),
        ws_end(s, i) < s.len() ==> !is_space(s[ws_end(s, i)]),
    decreases s.len() - i,
{
    if !(i >= s.len() || !is_space(s[i])) {
        lemma_ws_end(s, i + 1);
    }
}

/// First index at or after `i` holding a space, or the length of `s`.
pub open spec fn token_end(s: Seq<char>, i: int) -> int
    decreases s.len() - i when 0 <= i <= s.len()
{
    if i >= s.len() || is_space(s[i]) {
        i
    } else {
        token_end(s, i + 1)
    }
}

pub proof fn lemma_token_end(s: Seq<char>, i: int)
    requires
        0 <= i <= s.len(),
    ensures
        i <= token_end(s, i) <= s.len(),
        forall|j: int| i <= j < token_end(s, i) ==> !is_space(s[j]),
        token_end(s, i) < s.len() ==> is_space(s[token_end(s, i)]),
    decreases s.len() - i,
{
    if !(i >= s.len() || is_space(s[i])) {
        lemma_token_end(s, i + 1);
    }
}

/// First index at or after `i` holding exactly the character `c`,
/// or the length of `s` when `c` does not occur there.
pub open spec fn find_from(s: Seq<char>, c: char, i: int) -> int
    decreases s.len() - i when 0 <= i <= s.len()
{
    if i >= s.len() || s[i] == c {
        i
    } else {
        find_from(s, c, i + 1)
    }
}

pub proof fn lemma_find_from(s: Seq<char>, c: char, i: int)
    requires
        0 <= i <= s.len(),
    ensures
        i <= find_from(s, c, i) <= s.len(),
        forall|j: int| i <= j < find_from(s, c, i) ==> s[j] != c,
        find_from(s, c, i) < s.len() ==> s[find_from(s, c, i)] == c,
    decreases s.len() - i,
{
    if !(i >= s.len() || s[i] == c) {
        lemma_find_from(s, c, i + 1);
    }
}

/// First index at or after `i` holding a character other than `c`,
/// or the length of `s`.
pub open spec fn skip_from(s: Seq<char>, c: char, i: int) -> int
    decreases s.len() - i when 0 <= i <= s.len()
{
    if i >= s.len() || s[i] != c {
        i
    } else {
        skip_from(s, c, i + 1)
    }
}

pub proof fn lemma_skip_from(s: Seq<char>, c: char, i: int)
    requires
        0 <= i <= s.len(),
    ensures
        i <= skip_from(s, c, i) <= s.len(),
        forall|j: int| i <= j < skip_from(s, c, i) ==> s[j] == c,
        skip_from(s, c, i) < s.len() ==> s[skip_from(s, c, i)] != c,
    decreases s.len() - i,
{
    if !(i >= s.len() || s[i] != c) {
        lemma_skip_from(s, c, i + 1);
    }
}

/// Advances from `from` past any spaces.
pub fn scan_ws(s: &str, from: usize) -> (r: usize)
    requires
        from <= s@.len(),
    ensures
        r == ws_end(s@, from as int),
{
    let n: usize = s.unicode_len();
    let mut j: usize = from;
    while j < n && space_char(s.get_char(j))
        invariant
            from <= j <= n,
            n == s@.len(),
            ws_end(s@, from as int) == ws_end(s@, j as int),
        decreases n - j,
    {
        j = j + 1;
    }
    j
}

/// Advances from `from` to the end of the current token (the next space).
pub fn scan_token(s: &str, from: usize) -> (r: usize)
    requires
        from <= s@.len(),
    ensures
        r == token_end(s@, from as int),
{
    let n: usize = s.unicode_len();
    let mut j: usize = from;
    while j < n && !space_char(s.get_char(j))
        invariant
            from <= j <= n,
            n == s@.len(),
            token_end(s@, from as int) == token_end(s@, j as int),
        decreases n - j,
    {
        j = j + 1;
    }
    j
}

/// Advances from `from` to the next occurrence of `c`.
pub fn scan_to_char(s: &str, c: char, from: usize) -> (r: usize)
    requires
        from <= s@.len(),
    ensures
        r == find_from(s@, c, from as int),
{
    let n: usize = s.unicode_len();
    let mut j: usize = from;
    while j < n && s.get_char(j) != c
        invariant
            from <= j <= n,
            n == s@.len(),
            find_from(s@, c, from as int) == find_from(s@, c, j as int),
        decreases n - j,
    {
        j = j + 1;
    }
    j
}

/// Advances from `from` past any run of the character `c`.
pub fn scan_past_char(s: &str, c: char, from: usize) -> (r: usize)
    requires
        from <= s@.len(),
    ensures
        r == skip_from(s@, c, from as int),
{
    let n: usize = s.unicode_len();
    let mut j: usize = from;
    while j < n && s.get_char(j) == c
        invariant
            from <= j <= n,
            n == s@.len(),
            skip_from(s@, c, from as int) == skip_from(s@, c, j as int),
        decreases n - j,
    {
        j = j + 1;
    }
    j
}

/// The whitespace-separated tokens of `s` at or after position `i`.
///
/// A token is a maximal run of non-space characters; leading, trailing and
/// repeated separators produce no empty tokens.
pub open spec fn tokens_at(s: Seq<char>, i: int) -> Seq<Seq<char>>
    decreases s.len() - i when 0 <= i <= s.len() via tokens_at_decreases
{
    let j = ws_end(s, i);
    if j >= s.len() {
        Seq::empty()
    } else {
        let k = token_end(s, j);
        seq![s.subrange(j, k)] + tokens_at(s, k)
    }
}

#[via_fn]
proof fn tokens_at_decreases(s: Seq<char>, i: int) {
    lemma_ws_end(s, i);
    let j = ws_end(s, i);
    if j < s.len() {
        lemma_token_end(s, j + 1);
        assert(token_end(s, j) == token_end(s, j + 1));
    }
}

/// Splits `s` into its whitespace-separated tokens.
pub fn tokens_of(s: &str) -> (r: Vec<String>)
    ensures
        r.deep_view() == tokens_at(s@, 0),
{
    let n: usize = s.unicode_len();
    let mut r: Vec<String> = Vec::new();
    let mut j: usize = 0;
    loop
        invariant_except_break
            0 <= j <= n,
            n == s@.len(),
            tokens_at(s@, 0) == r.deep_view() + tokens_at(s@, j as int),
        ensures
            r.deep_view() == tokens_at(s@, 0),
        decreases n - j,
    {
        let jn = scan_ws(s, j);
        proof {
            lemma_ws_end(s@, j as int);
        }
        if jn == n {
            proof {
                assert(tokens_at(s@, j as int) =~= Seq::<Seq<char>>::empty());
                assert(r.deep_view() =~= r.deep_view() + Seq::<Seq<char>>::empty());
            }
            break;
        }
        let k = scan_token(s, jn);
        proof {
            lemma_token_end(s@, jn as int);
            lemma_token_end(s@, jn as int + 1);
            assert(token_end(s@, jn as int) == token_end(s@, jn as int + 1));
        }
        let tok: String = s.substring_char(jn, k).to_owned();
        let ghost old_tokens = r.deep_view();
        r.push(tok);
        proof {
            assert(r.deep_view() =~= old_tokens.push(s@.subrange(jn as int, k as int)));
            assert(tokens_at(s@, j as int) == seq![s@.subrange(jn as int, k as int)]
                + tokens_at(s@, k as int));
            assert(old_tokens + tokens_at(s@, j as int) =~= r.deep_view()
                + tokens_at(s@, k as int));
        }
        j = k;
    }
    r
}

/// The lines of `s` at or after position `i`, split at `'\n'`.
///
/// Splitting keeps empty lines, so a trailing newline yields one final
/// empty line; the parsers here skip empty lines, which makes this model
/// interchangeable with one that drops a trailing line terminator.  A
/// carriage return stays at the end of its line and is treated as a space
/// by the tokenizer.
pub open spec fn lines_at(s: Seq<char>, i: int) -> Seq<Seq<char>>
    decreases s.len() - i when 0 <= i <= s.len() via lines_at_decreases
{
    let k = find_from(s, '\n', i);
    if k >= s.len() {
        seq![s.subrange(i, s.len() as int)]
    } else {
        seq![s.subrange(i, k)] + lines_at(s, k + 1)
    }
}

#[via_fn]
proof fn lines_at_decreases(s: Seq<char>, i: int) {
    lemma_find_from(s, '\n', i);
}

/// Splits `s` into its lines, one `String` per line.
pub fn lines_of(s: &str) -> (r: Vec<String>)
    ensures
        r.deep_view() == lines_at(s@, 0),
{
    let n: usize = s.unicode_len();
    let mut r: Vec<String> = Vec::new();
    let mut j: usize = 0;
    loop
        invariant_except_break
            0 <= j <= n,
            n == s@.len(),
            lines_at(s@, 0) == r.deep_view() + lines_at(s@, j as int),
        ensures
            r.deep_view() == lines_at(s@, 0),
        decreases n - j,
    {
        let k = scan_to_char(s, '\n', j);
        proof {
            lemma_find_from(s@, '\n', j as int);
        }
        let ghost old_lines = r.deep_view();
        let line: String = s.substring_char(j, k).to_owned();
        r.push(line);
        proof {
            assert(r.deep_view() =~= old_lines.push(s@.subrange(j as int, k as int)));
        }
        if k == n {
            proof {
                assert(lines_at(s@, j as int) =~= seq![s@.subrange(j as int, n as int)]);
                assert(old_lines + lines_at(s@, j as int) =~= r.deep_view());
            }
            break;
        }
        proof {
            assert(lines_at(s@, j as int) == seq![s@.subrange(j as int, k as int)]
                + lines_at(s@, k as int + 1));
            assert(old_lines + lines_at(s@, j as int) =~= r.deep_view()
                + lines_at(s@, k as int + 1));
        }
        j = k + 1;
    }
    r
}

/// Largest index of `c` in `p`, or `-1` when `c` does not occur.
pub open spec fn last_of(p: Seq<char>, c: char) -> int
    decreases p.len()
{
    if p.len() == 0 {
        -1
    } else if p.last() == c {
        p.len() - 1
    } else {
        last_of(p.drop_last(), c)
    }
}

pub proof fn lemma_last_of(p: Seq<char>, c: char)
    ensures
        -1 <= last_of(p, c) < p.len(),
        last_of(p, c) >= 0 ==> p[last_of(p, c)] == c,
        forall|j: int| last_of(p, c) < j < p.len() ==> p[j] != c,
    decreases p.len(),
{
    if p.len() > 0 && p.last() != c {
        lemma_last_of(p.drop_last(), c);
        assert(forall|j: int| 0 <= j < p.len() - 1 ==> p[j] == p.drop_last()[j]);
    }
}

/// `last_of` is the unique index with its characteristic properties.
pub proof fn lemma_last_of_unique(p: Seq<char>, c: char, x: int)
    requires
        -1 <= x < p.len(),
        x >= 0 ==> p[x] == c,
        forall|j: int| x < j < p.len() ==> p[j] != c,
    ensures
        last_of(p, c) == x,
    decreases p.len(),
{
    if p.len() == 0 {
    } else if p.last() == c {
        assert(x == p.len() - 1);
    } else {
        assert(x < p.len() - 1);
        assert(forall|j: int| 0 <= j < p.len() - 1 ==> p[j] == p.drop_last()[j]);
        lemma_last_of_unique(p.drop_last(), c, x);
    }
}

/// Largest index of `c` in `s`, found by a backward scan.
pub fn scan_last(s: &str, c: char) -> (r: Option<usize>)
    ensures
        match r {
            Some(i) => last_of(s@, c) == i,
            None => last_of(s@, c) == -1,
        },
{
    let n: usize = s.unicode_len();
    let mut j: usize = n;
    while j > 0 && s.get_char(j - 1) != c
        invariant
            0 <= j <= n,
            n == s@.len(),
            forall|k: int| j <= k < n ==> s@[k] != c,
        decreases j,
    {
        j = j - 1;
    }
    if j == 0 {
        proof {
            lemma_last_of_unique(s@, c, -1);
        }
        None
    } else {
        proof {
            lemma_last_of_unique(s@, c, j - 1);
        }
        Some(j - 1)
    }
}

/// Character-by-character string equality, proved equal to view equality.
pub fn str_eq(a: &str, b: &str) -> (r: bool)
    ensures
        r == (a@ == b@),
{
    let na: usize = a.unicode_len();
    let nb: usize = b.unicode_len();
    if na != nb {
        return false;
    }
    let mut j: usize = 0;
    while j < na
        invariant
            0 <= j <= na,
            na == a@.len(),
            na == b@.len(),
            forall|k: int| 0 <= k < j ==> a@[k] == b@[k],
        decreases na - j,
    {
        if a.get_char(j) != b.get_char(j) {
            return false;
        }
        j = j + 1;
    }
    proof {
        assert(a@ =~= b@);
    }
    true
}

/// Does `p` stand at the front of `s`?
pub fn has_prefix(s: &str, p: &str) -> (r: bool)
    ensures
        r == p@.is_prefix_of(s@),
{
    let np: usize = p.unicode_len();
    let ns: usize = s.unicode_len();
    if np > ns {
        return false;
    }
    let mut j: usize = 0;
    while j < np
        invariant
            0 <= j <= np,
            np == p@.len(),
            ns == s@.len(),
            np <= ns,
            forall|k: int| 0 <= k < j ==> p@[k] == s@[k],
        decreases np - j,
    {
        if p.get_char(j) != s.get_char(j) {
            return false;
        }
        j = j + 1;
    }
    proof {
        assert(p@ =~= s@.subrange(0, p@.len() as int));
    }
    true
}

/// Does `p` stand in `s` at position `i`?
pub open spec fn matches_at(s: Seq<char>, p: Seq<char>, i: int) -> bool {
    0 <= i && i + p.len() <= s.len() && p == s.subrange(i, i + p.len())
}

/// Does `p` stand anywhere in `s`?
pub open spec fn has_substring(s: Seq<char>, p: Seq<char>) -> bool {
    exists|i: int| matches_at(s, p, i)
}

/// Checks whether `p` stands in `s` at position `i`.
pub fn check_match_at(s: &str, p: &str, i: usize) -> (r: bool)
    requires
        i + p@.len() <= s@.len(),
    ensures
        r == matches_at(s@, p@, i as int),
{
    let ns: usize = s.unicode_len();
    let np: usize = p.unicode_len();
    let mut j: usize = 0;
    while j < np
        invariant
            0 <= j <= np,
            np == p@.len(),
            ns == s@.len(),
            i + np <= ns,
            forall|k: int| 0 <= k < j ==> p@[k] == s@[i + k],
        decreases np - j,
    {
        if p.get_char(j) != s.get_char(i + j) {
            return false;
        }
        j = j + 1;
    }
    proof {
        assert(p@ =~= s@.subrange(i as int, i + p@.len()));
    }
    true
}

/// Naive substring search.
pub fn contains_substring(s: &str, p: &str) -> (r: bool)
    ensures
        r == has_substring(s@, p@),
{
    let ns: usize = s.unicode_len();
    let np: usize = p.unicode_len();
    if np > ns {
        proof {
            if has_substring(s@, p@) {
                let i = choose|i: int| matches_at(s@, p@, i);
            }
        }
        return false;
    }
    let mut i: usize = 0;
    let mut res: bool = false;
    loop
        invariant_except_break
            0 <= i <= ns - np,
            np <= ns,
            ns == s@.len(),
            np == p@.len(),
            forall|k: int| 0 <= k < i ==> !matches_at(s@, p@, k),
        ensures
            res == has_substring(s@, p@),
        decreases ns - np - i,
    {
        if check_match_at(s, p, i) {
            res = true;
            break;
        }
        if i == ns - np {
            proof {
                if has_substring(s@, p@) {
                    let k = choose|k: int| matches_at(s@, p@, k);
                    assert(k <= ns - np);
                    assert(false);
                }
            }
            res = false;
            break;
        }
        i = i + 1;
    }
    res
}

/// Does `p` stand at the back of `s`?
pub fn has_suffix(s: &str, p: &str) -> (r: bool)
    ensures
        r == p@.is_suffix_of(s@),
{
    let np: usize = p.unicode_len();
    let ns: usize = s.unicode_len();
    if np > ns {
        return false;
    }
    let mut j: usize = 0;
    while j < np
        invariant
            0 <= j <= np,
            np == p@.len(),
            ns == s@.len(),
            np <= ns,
            forall|k: int| 0 <= k < j ==> p@[k] == s@[ns - np + k],
        decreases np - j,
    {
        if p.get_char(j) != s.get_char(ns - np + j) {
            return false;
        }
        j = j + 1;
    }
    proof {
        assert(p@ =~= s@.subrange(s@.len() - p@.len(), s@.len() as int));
    }
    true
}

} // verus!
