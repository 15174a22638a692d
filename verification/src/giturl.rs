//! Parsing Git remote URLs into `owner/repo` slugs.
//!
//! Two parsers live here.  [`parse_git_url`] handles the two GitHub remote
//! shapes the fleet tools meet most often, with every trailing `.git`
//! removed.  [`slug_from_remote_url`] accepts the wider grammar
//! `<proto>://[user@]host[:/]owner/repo[.git]` for the protocols `git`,
//! `http`, `https` and `ssh`, and `git@host:owner/repo[.git]`, removing at
//! most one `.git` suffix; it parses in a single pass, taking the last `@`
//! before the first `/` as the end of the user information.

use vstd::prelude::*;
use vstd::string::StrSliceExecFns;
use vstd::string::StringExecFns;
use crate::text::{
    find_from, last_of, lemma_find_from, lemma_last_of, scan_last, scan_to_char, str_eq,
    has_prefix, has_suffix,
};

verus! {

/// `s` with every trailing `.git` removed.
pub open spec fn strip_git_suffixes(s: Seq<char>) -> Seq<char>
    decreases s.len()
{
    if s.len() >= 4 && s.subrange(s.len() - 4, s.len() as int) == ".git"@ {
        strip_git_suffixes(s.take(s.len() - 4))
    } else {
        s
    }
}

/// Removes every trailing `.git` from `s`.
fn strip_git_repeatedly(s: &str) -> (r: String)
    ensures
        r@ == strip_git_suffixes(s@),
    decreases s@.len(),
{
    let n: usize = s.unicode_len();
    if n >= 4 && has_suffix(s, ".git") {
        proof {
            reveal_strlit(".git");
        }
        strip_git_repeatedly(s.substring_char(0, n - 4))
    } else {
        proof {
            reveal_strlit(".git");
        }
        s.to_owned()
    }
}

/// `s` with at most one trailing `.git` removed, kept whole when nothing
/// would remain.
pub open spec fn strip_one_git(s: Seq<char>) -> Seq<char> {
    if s.len() > 4 && s.subrange(s.len() - 4, s.len() as int) == ".git"@ {
        s.take(s.len() - 4)
    } else {
        s
    }
}

/// What `parse_git_url` returns for the URL `u`: the remainder of a
/// GitHub SSH or HTTPS prefix, with trailing `.git` suffixes removed.
pub open spec fn github_slug_of(u: Seq<char>) -> Option<Seq<char>> {
    if "git@github.com:"@.is_prefix_of(u) {
        Some(strip_git_suffixes(u.skip("git@github.com:"@.len() as int)))
    } else if "https://github.com/"@.is_prefix_of(u) {
        Some(strip_git_suffixes(u.skip("https://github.com/"@.len() as int)))
    } else {
        None
    }
}

/// Parses a GitHub remote URL into `owner/repo` form.
///
/// Accepts `git@github.com:<rest>` and `https://github.com/<rest>`,
/// returning `<rest>` with every trailing `.git` removed; any other URL
/// yields `None`.
pub fn parse_git_url(url: &str) -> (r: Option<String>)
    ensures
        r is Some <==> github_slug_of(url@) is Some,
        r is Some ==> r->Some_0@ == github_slug_of(url@)->Some_0,
{
    let n: usize = url.unicode_len();
    if has_prefix(url, "git@github.com:") {
        proof {
            reveal_strlit("git@github.com:");
        }
        let rest: &str = url.substring_char(15, n);
        proof {
            assert(rest@ =~= url@.skip(15));
        }
        Some(strip_git_repeatedly(rest))
    } else if has_prefix(url, "https://github.com/") {
        proof {
            reveal_strlit("https://github.com/");
        }
        let rest: &str = url.substring_char(19, n);
        proof {
            assert(rest@ =~= url@.skip(19));
        }
        Some(strip_git_repeatedly(rest))
    } else {
        None
    }
}

/// The `owner/repo` slug read off the text after the host separator:
/// exactly one `/`, a non-empty owner, and a non-empty repository name
/// after at most one `.git` is removed.
pub open spec fn slug_of_part(sp: Seq<char>) -> Option<Seq<char>> {
    let sl = find_from(sp, '/', 0);
    if sl >= sp.len() || sl == 0 {
        None
    } else if find_from(sp, '/', sl + 1) < sp.len() {
        None
    } else {
        let repo = strip_one_git(sp.skip(sl + 1));
        if repo.len() == 0 {
            None
        } else {
            Some(sp.take(sl) + "/"@ + repo)
        }
    }
}

/// First index at or after `i` holding `:` or `/`, or the length of `s`.
pub open spec fn host_end(s: Seq<char>, i: int) -> int
    decreases s.len() - i when 0 <= i <= s.len()
{
    if i >= s.len() || s[i] == ':' || s[i] == '/' {
        i
    } else {
        host_end(s, i + 1)
    }
}

proof fn lemma_host_end(s: Seq<char>, i: int)
    requires
        0 <= i <= s.len(),
    ensures
        i <= host_end(s, i) <= s.len(),
    decreases s.len() - i,
{
    if !(i >= s.len() || s[i] == ':' || s[i] == '/') {
        lemma_host_end(s, i + 1);
    }
}

/// Advances from `from` to the first `:` or `/`.
fn scan_host_end(s: &str, from: usize) -> (r: usize)
    requires
        from <= s@.len(),
    ensures
        r == host_end(s@, from as int),
{
    let n: usize = s.unicode_len();
    let mut j: usize = from;
    while j < n && s.get_char(j) != ':' && s.get_char(j) != '/'
        invariant
            from <= j <= n,
            n == s@.len(),
            host_end(s@, from as int) == host_end(s@, j as int),
        decreases n - j,
    {
        j = j + 1;
    }
    j
}

/// The slug of a `proto://…` remote, parsed from the text after `://`:
/// user information up to the last `@` before the first `/` is dropped,
/// the host runs to the first `:` or `/`, and the rest must parse as an
/// `owner/repo` part.
pub open spec fn form1_slug(rest: Seq<char>) -> Option<Seq<char>> {
    let fs = find_from(rest, '/', 0);
    let la = last_of(rest.take(fs), '@');
    let hr = if la >= 0 {
        rest.skip(la + 1)
    } else {
        rest
    };
    let hsep = host_end(hr, 0);
    if hsep >= hr.len() || hsep == 0 {
        None
    } else {
        slug_of_part(hr.skip(hsep + 1))
    }
}

/// The slug of a `git@host:owner/repo` remote, parsed from the text after
/// `git@`: a non-empty host free of `/` up to the first `:`, then an
/// `owner/repo` part.
pub open spec fn form2_slug(rest: Seq<char>) -> Option<Seq<char>> {
    let h = find_from(rest, ':', 0);
    if h >= rest.len() || h == 0 {
        None
    } else if find_from(rest, '/', 0) < h {
        None
    } else {
        slug_of_part(rest.skip(h + 1))
    }
}

/// What `slug_from_remote_url` returns for the URL `u`.
pub open spec fn remote_slug_of(u: Seq<char>) -> Option<Seq<char>> {
    let c = find_from(u, ':', 0);
    if c + 3 <= u.len() && u[c + 1] == '/' && u[c + 2] == '/' && (u.take(c) == "git"@ || u.take(c)
        == "http"@ || u.take(c) == "https"@ || u.take(c) == "ssh"@) {
        form1_slug(u.skip(c + 3))
    } else if "git@"@.is_prefix_of(u) {
        form2_slug(u.skip(4))
    } else {
        None
    }
}

/// Parses the `owner/repo` part that follows the host separator.
fn parse_slug_part(sp: &str) -> (r: Option<String>)
    ensures
        r is Some <==> slug_of_part(sp@) is Some,
        r is Some ==> r->Some_0@ == slug_of_part(sp@)->Some_0,
{
    let n: usize = sp.unicode_len();
    let sl = scan_to_char(sp, '/', 0);
    proof {
        lemma_find_from(sp@, '/', 0);
    }
    if sl == n || sl == 0 {
        return None;
    }
    let second = scan_to_char(sp, '/', sl + 1);
    proof {
        lemma_find_from(sp@, '/', sl as int + 1);
    }
    if second < n {
        return None;
    }
    let repo0: &str = sp.substring_char(sl + 1, n);
    proof {
        assert(repo0@ =~= sp@.skip(sl as int + 1));
        reveal_strlit(".git");
    }
    let rn: usize = repo0.unicode_len();
    let repo: &str = if rn > 4 && has_suffix(repo0, ".git") {
        let t: &str = repo0.substring_char(0, rn - 4);
        proof {
            assert(t@ =~= repo0@.take(rn - 4));
        }
        t
    } else {
        repo0
    };
    proof {
        assert(repo@ == strip_one_git(sp@.skip(sl as int + 1)));
    }
    if repo.unicode_len() == 0 {
        return None;
    }
    let owner: &str = sp.substring_char(0, sl);
    proof {
        assert(owner@ =~= sp@.take(sl as int));
    }
    Some(owner.to_owned().concat("/").concat(repo))
}

/// Parses a Git remote URL of any supported shape into its
/// `owner/repo` slug.
pub fn slug_from_remote_url(url: &str) -> (r: Option<String>)
    ensures
        r is Some <==> remote_slug_of(url@) is Some,
        r is Some ==> r->Some_0@ == remote_slug_of(url@)->Some_0,
{
    let n: usize = url.unicode_len();
    let c = scan_to_char(url, ':', 0);
    proof {
        lemma_find_from(url@, ':', 0);
    }
    if n >= 3 && c <= n - 3 && url.get_char(c + 1) == '/' && url.get_char(c + 2) == '/' {
        let proto: &str = url.substring_char(0, c);
        proof {
            assert(proto@ =~= url@.take(c as int));
        }
        if str_eq(proto, "git") || str_eq(proto, "http") || str_eq(proto, "https") || str_eq(
            proto,
            "ssh",
        ) {
            let rest: &str = url.substring_char(c + 3, n);
            proof {
                assert(rest@ =~= url@.skip(c as int + 3));
            }
            let rn: usize = rest.unicode_len();
            let fs = scan_to_char(rest, '/', 0);
            proof {
                lemma_find_from(rest@, '/', 0);
            }
            let head: &str = rest.substring_char(0, fs);
            proof {
                assert(head@ =~= rest@.take(fs as int));
            }
            let hr: &str = match scan_last(head, '@') {
                Some(la) => {
                    proof {
                        lemma_last_of(head@, '@');
                    }
                    let t: &str = rest.substring_char(la + 1, rn);
                    proof {
                        assert(t@ =~= rest@.skip(la as int + 1));
                    }
                    t
                },
                None => rest,
            };
            let hn: usize = hr.unicode_len();
            let hsep = scan_host_end(hr, 0);
            proof {
                lemma_host_end(hr@, 0);
            }
            if hsep == hn || hsep == 0 {
                return None;
            }
            let sp: &str = hr.substring_char(hsep + 1, hn);
            proof {
                assert(sp@ =~= hr@.skip(hsep as int + 1));
            }
            return parse_slug_part(sp);
        }
    }
    if has_prefix(url, "git@") {
        proof {
            reveal_strlit("git@");
        }
        let rest: &str = url.substring_char(4, n);
        proof {
            assert(rest@ =~= url@.skip(4));
        }
        let rn: usize = rest.unicode_len();
        let h = scan_to_char(rest, ':', 0);
        proof {
            lemma_find_from(rest@, ':', 0);
        }
        if h == rn || h == 0 {
            return None;
        }
        let slash = scan_to_char(rest, '/', 0);
        proof {
            lemma_find_from(rest@, '/', 0);
        }
        if slash < h {
            return None;
        }
        let sp: &str = rest.substring_char(h + 1, rn);
        proof {
            assert(sp@ =~= rest@.skip(h as int + 1));
        }
        return parse_slug_part(sp);
    }
    None
}

} // verus!
