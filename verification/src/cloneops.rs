//! Decisions of the cloning tool: remote fallback URLs, clone argument
//! lists, revision lookup over `ls-remote` output, working-tree state
//! from porcelain status output, and the SSH-key configuration lookup.
//! The subprocess calls themselves live in the binaries.

use vstd::prelude::*;
use vstd::string::StrSliceExecFns;
use vstd::string::StringExecFns;
use crate::authors::{trim_line, trimmed};
use crate::text::{
    find_from, lemma_find_from, lines_at, lines_of, scan_to_char, str_eq, has_prefix,
    has_substring, contains_substring, tokens_at, tokens_of,
};

verus! {

/// The remote bases tried in order when cloning: SSH first, HTTPS as
/// the fallback.
pub fn default_remote_urls() -> (r: Vec<String>)
    ensures
        r.deep_view() =~= seq!["ssh://git@github.com"@, "https://github.com"@],
{
    let mut r: Vec<String> = Vec::new();
    r.push("ssh://git@github.com".to_owned());
    r.push("https://github.com".to_owned());
    r
}

/// The full repository URL used for revision lookup: the separator is
/// `:` after an scp-style `git@` remote, else `/`.
pub open spec fn spec_repo_lookup_url(remote: Seq<char>, repospec: Seq<char>) -> Seq<char> {
    if "git@"@.is_prefix_of(remote) {
        remote + ":"@ + repospec
    } else {
        remote + "/"@ + repospec
    }
}

/// Joins a remote base and a repository spec into the URL handed to
/// `git ls-remote`.
pub fn build_repo_lookup_url(remote: &str, repospec: &str) -> (r: String)
    ensures
        r@ == spec_repo_lookup_url(remote@, repospec@),
{
    if has_prefix(remote, "git@") {
        remote.to_owned().concat(":").concat(repospec)
    } else {
        remote.to_owned().concat("/").concat(repospec)
    }
}

/// The first line at or after index `i` that mentions `HEAD` and has a
/// token, rendered as its first token.
pub open spec fn sha_at(ls: Seq<Seq<char>>, i: int) -> Option<Seq<char>>
    decreases ls.len() - i when 0 <= i <= ls.len()
{
    if i >= ls.len() {
        None
    } else if has_substring(ls[i], "HEAD"@) && tokens_at(ls[i], 0).len() > 0 {
        Some(tokens_at(ls[i], 0)[0])
    } else {
        sha_at(ls, i + 1)
    }
}

/// Extracts the commit hash for `HEAD` from `git ls-remote` output: the
/// first token of the first line that mentions `HEAD`.
pub fn sha_from_ls_remote(output: &str) -> (r: Option<String>)
    ensures
        r is Some <==> sha_at(lines_at(output@, 0), 0) is Some,
        r is Some ==> r->Some_0@ == sha_at(lines_at(output@, 0), 0)->Some_0,
{
    let lines = lines_of(output);
    let ghost lsv = lines.deep_view();
    let mut i: usize = 0;
    while i < lines.len()
        invariant
            0 <= i <= lsv.len(),
            lines.deep_view() == lsv,
            lsv == lines_at(output@, 0),
            sha_at(lsv, 0) == sha_at(lsv, i as int),
        decreases lsv.len() - i,
    {
        let line: &String = &lines[i];
        proof {
            assert(lsv[i as int] == line@);
        }
        if contains_substring(line.as_str(), "HEAD") {
            let toks = tokens_of(line.as_str());
            if toks.len() > 0 {
                let first: String = toks[0].clone();
                proof {
                    assert(first@ == tokens_at(lsv[i as int], 0)[0]);
                }
                return Some(first);
            }
        }
        i = i + 1;
    }
    proof {
        assert(sha_at(lsv, i as int) is None);
    }
    None
}

/// A line with every leading `?? ` marker removed.
pub open spec fn strip_untracked_marker(l: Seq<char>) -> Seq<char>
    decreases l.len()
{
    if "?? "@.is_prefix_of(l) && l.len() >= 3 {
        strip_untracked_marker(l.skip(3))
    } else {
        l
    }
}

/// Removes every leading `?? ` marker from a porcelain status line.
fn strip_marker(l: &str) -> (r: String)
    ensures
        r@ == strip_untracked_marker(l@),
    decreases l@.len(),
{
    let n: usize = l.unicode_len();
    if n >= 3 && has_prefix(l, "?? ") {
        proof {
            reveal_strlit("?? ");
        }
        strip_marker(l.substring_char(3, n))
    } else {
        proof {
            reveal_strlit("?? ");
        }
        l.to_owned()
    }
}

/// The untracked entries of porcelain status output: the lines opening
/// with `??`, with their `?? ` markers removed.
pub open spec fn untracked_of(ls: Seq<Seq<char>>) -> Seq<Seq<char>>
    decreases ls.len()
{
    if ls.len() == 0 {
        Seq::empty()
    } else {
        let front = untracked_of(ls.drop_last());
        if "??"@.is_prefix_of(ls.last()) {
            front.push(strip_untracked_marker(ls.last()))
        } else {
            front
        }
    }
}

/// Reads `git status --porcelain` output: the untracked entries, and
/// whether the output reports any change at all.
pub fn worktree_state(status: &str) -> (r: (Vec<String>, bool))
    ensures
        r.0.deep_view() == untracked_of(lines_at(status@, 0)),
        r.1 == (status@.len() > 0),
{
    let has_changes = status.unicode_len() > 0;
    let lines = lines_of(status);
    let ghost lsv = lines.deep_view();
    let mut untracked: Vec<String> = Vec::new();
    let mut i: usize = 0;
    proof {
        assert(lsv.take(0) =~= Seq::<Seq<char>>::empty());
    }
    while i < lines.len()
        invariant
            0 <= i <= lsv.len(),
            lines.deep_view() == lsv,
            untracked.deep_view() == untracked_of(lsv.take(i as int)),
        decreases lsv.len() - i,
    {
        let line: &String = &lines[i];
        proof {
            assert(lsv.take(i as int + 1).drop_last() =~= lsv.take(i as int));
            assert(lsv.take(i as int + 1).last() == line@);
        }
        if has_prefix(line.as_str(), "??") {
            let ghost old_dv = untracked.deep_view();
            let entry = strip_marker(line.as_str());
            untracked.push(entry);
            proof {
                assert(untracked.deep_view() =~= old_dv.push(strip_untracked_marker(line@)));
            }
        }
        i = i + 1;
    }
    proof {
        assert(lsv.take(lsv.len() as int) =~= lsv);
    }
    (untracked, has_changes)
}

/// The argument list handed to `git` for one clone attempt: the clone
/// URL and target path, plus a `--reference` pair when a mirror path is
/// configured.
pub open spec fn spec_clone_args(
    repospec: Seq<char>,
    clone_path: Seq<char>,
    remote: Seq<char>,
    mirror: Option<Seq<char>>,
) -> Seq<Seq<char>> {
    let base = seq!["clone"@, remote + "/"@ + repospec, clone_path];
    match mirror {
        Some(m) => base + seq!["--reference"@, m + "/"@ + repospec + ".git"@],
        None => base,
    }
}

/// Builds the `git clone` argument list for one attempt.
pub fn clone_args(repospec: &str, clone_path: &str, remote: &str, mirror: Option<&str>) -> (r: Vec<
    String,
>)
    ensures
        r.deep_view() == spec_clone_args(
            repospec@,
            clone_path@,
            remote@,
            match mirror {
                Some(m) => Some(m@),
                None => None,
            },
        ),
{
    let mut r: Vec<String> = Vec::new();
    r.push("clone".to_owned());
    r.push(remote.to_owned().concat("/").concat(repospec));
    r.push(clone_path.to_owned());
    match mirror {
        Some(m) => {
            r.push("--reference".to_owned());
            r.push(m.to_owned().concat("/").concat(repospec).concat(".git"));
            proof {
                assert(r.deep_view() =~= spec_clone_args(
                    repospec@,
                    clone_path@,
                    remote@,
                    Some(m@),
                ));
            }
        },
        None => {
            proof {
                assert(r.deep_view() =~= spec_clone_args(repospec@, clone_path@, remote@, None));
            }
        },
    }
    r
}

/// The organization part of a repository spec: everything before the
/// first `/`, or the whole spec when it has none.
pub fn org_of_repospec(repospec: &str) -> (r: String)
    ensures
        r@ == repospec@.take(find_from(repospec@, '/', 0)),
{
    let k = scan_to_char(repospec, '/', 0);
    proof {
        lemma_find_from(repospec@, '/', 0);
    }
    repospec.substring_char(0, k).to_owned()
}

/// One `key = value` entry of a configuration section; a key may stand
/// alone, without a value.
#[derive(Debug, Clone, PartialEq, Eq)]
pub struct ConfigEntry {
    pub key: String,
    pub value: Option<String>,
}

/// One named section of the clone configuration file.
#[derive(Debug, Clone, PartialEq, Eq)]
pub struct ConfigSection {
    pub name: String,
    pub entries: Vec<ConfigEntry>,
}

/// The index of the first section with the given name.
pub open spec fn section_index(ss: Seq<ConfigSection>, name: Seq<char>, i: int) -> Option<int>
    decreases ss.len() - i when 0 <= i <= ss.len()
{
    if i >= ss.len() {
        None
    } else if ss[i].name@ == name {
        Some(i)
    } else {
        section_index(ss, name, i + 1)
    }
}

/// The value of the first entry with the given key.
pub open spec fn entry_value(es: Seq<ConfigEntry>, key: Seq<char>, i: int) -> Option<Option<
    Seq<char>,
>>
    decreases es.len() - i when 0 <= i <= es.len()
{
    if i >= es.len() {
        None
    } else if es[i].key@ == key {
        Some(
            match es[i].value {
                Some(v) => Some(v@),
                None => None,
            },
        )
    } else {
        entry_value(es, key, i + 1)
    }
}

/// What the SSH-key lookup returns: the `sshkey` entry of the
/// organization's section, or of the `org.default` section when the
/// organization has none; no section or no entry means no key.
pub open spec fn spec_ssh_key(ss: Seq<ConfigSection>, org: Seq<char>) -> Option<Seq<char>> {
    let sect = match section_index(ss, "org."@ + org, 0) {
        Some(i) => Some(i),
        None => section_index(ss, "org.default"@, 0),
    };
    match sect {
        None => None,
        Some(i) => match entry_value(ss[i].entries@, "sshkey"@, 0) {
            Some(Some(v)) => Some(v),
            _ => None,
        },
    }
}

/// Finds the first section with the given name.
fn find_section<'a>(sections: &'a Vec<ConfigSection>, name: &str) -> (r: Option<&'a ConfigSection>)
    ensures
        match section_index(sections@, name@, 0) {
            Some(i) => r is Some && r->Some_0 == &sections@[i],
            None => r is None,
        },
{
    let mut i: usize = 0;
    while i < sections.len()
        invariant
            0 <= i <= sections@.len(),
            section_index(sections@, name@, 0) == section_index(sections@, name@, i as int),
        decreases sections@.len() - i,
    {
        if str_eq(sections[i].name.as_str(), name) {
            return Some(&sections[i]);
        }
        i = i + 1;
    }
    None
}

/// Looks up the SSH key configured for an organization, falling back to
/// the default section.
///
/// A configuration with neither the organization's section nor a
/// default section is an error, so a caller can abort the clone rather
/// than proceed without a key; a section without a usable `sshkey`
/// entry is simply no key.
pub fn lookup_ssh_key(sections: &Vec<ConfigSection>, org: &str) -> (r: Result<
    Option<String>,
    String,
>)
    ensures
        r is Ok <==> section_index(sections@, "org."@ + org@, 0) is Some || section_index(
            sections@,
            "org.default"@,
            0,
        ) is Some,
        r is Err ==> r->Err_0@ == "configuration section not found"@,
        r is Ok ==> (r->Ok_0 is Some <==> spec_ssh_key(sections@, org@) is Some),
        r is Ok && r->Ok_0 is Some ==> r->Ok_0->Some_0@ == spec_ssh_key(sections@, org@)->Some_0,
{
    let section_name: String = "org.".to_owned().concat(org);
    let sect = match find_section(sections, section_name.as_str()) {
        Some(s) => Some(s),
        None => find_section(sections, "org.default"),
    };
    let s = match sect {
        Some(s) => s,
        None => {
            return Err("configuration section not found".to_owned());
        },
    };
    proof {
        assert(spec_ssh_key(sections@, org@) == (match entry_value(s.entries@, "sshkey"@, 0) {
            Some(Some(v)) => Some(v),
            _ => None,
        }));
    }
    let mut i: usize = 0;
    while i < s.entries.len()
        invariant
            0 <= i <= s.entries@.len(),
            section_index(sections@, "org."@ + org@, 0) is Some || section_index(
                sections@,
                "org.default"@,
                0,
            ) is Some,
            spec_ssh_key(sections@, org@) == (match entry_value(s.entries@, "sshkey"@, 0) {
                Some(Some(v)) => Some(v),
                _ => None,
            }),
            entry_value(s.entries@, "sshkey"@, 0) == entry_value(s.entries@, "sshkey"@, i as int),
        decreases s.entries@.len() - i,
    {
        if str_eq(s.entries[i].key.as_str(), "sshkey") {
            proof {
                assert(s.entries@[i as int].key@ == "sshkey"@);
                assert(entry_value(s.entries@, "sshkey"@, 0) == entry_value(
                    s.entries@,
                    "sshkey"@,
                    i as int,
                ));
            }
            return Ok(
                match &s.entries[i].value {
                    Some(v) => Some(v.clone()),
                    None => None,
                },
            );
        }
        i = i + 1;
    }
    Ok(None)
}

/// The view of one configuration entry.
pub open spec fn entry_view(e: ConfigEntry) -> (Seq<char>, Option<Seq<char>>) {
    (
        e.key@,
        match e.value {
            Some(v) => Some(v@),
            None => None,
        },
    )
}

/// The view of one configuration section.
pub open spec fn section_view(s: ConfigSection) -> (Seq<char>, Seq<(Seq<char>, Option<Seq<char>>)>) {
    (s.name@, Seq::new(s.entries@.len(), |i: int| entry_view(s.entries@[i])))
}

/// The view of a whole configuration.
pub open spec fn config_views(ss: Seq<ConfigSection>) -> Seq<
    (Seq<char>, Seq<(Seq<char>, Option<Seq<char>>)>),
> {
    Seq::new(ss.len(), |i: int| section_view(ss[i]))
}

/// Does the trimmed line open a section?
pub open spec fn is_section_line(t: Seq<char>) -> bool {
    t.len() >= 2 && t[0] == '[' && t[t.len() - 1] == ']'
}

/// The section name of a header line: the bracketed text, trimmed.
pub open spec fn section_name_of(t: Seq<char>) -> Seq<char> {
    trimmed(t.subrange(1, t.len() - 1))
}

/// Is the trimmed line blank or a comment?
pub open spec fn is_inert_config_line(t: Seq<char>) -> bool {
    t.len() == 0 || t[0] == ';' || t[0] == '#'
}

/// The entry a non-header line carries: key and value split at the
/// first `=`, both trimmed; without `=` the whole line is a bare key.
pub open spec fn entry_of_line(t: Seq<char>) -> (Seq<char>, Option<Seq<char>>) {
    let eq = find_from(t, '=', 0);
    if eq < t.len() {
        (trimmed(t.take(eq)), Some(trimmed(t.skip(eq + 1))))
    } else {
        (t, None)
    }
}

/// The configuration a sequence of lines describes: a `[name]` header
/// opens a section, entries fall into the latest section, and entries
/// before any header are dropped.
pub open spec fn spec_config(ls: Seq<Seq<char>>) -> Seq<
    (Seq<char>, Seq<(Seq<char>, Option<Seq<char>>)>),
>
    decreases ls.len()
{
    if ls.len() == 0 {
        Seq::empty()
    } else {
        let front = spec_config(ls.drop_last());
        let t = trimmed(ls.last());
        if is_inert_config_line(t) {
            front
        } else if is_section_line(t) {
            front.push((section_name_of(t), Seq::empty()))
        } else if front.len() == 0 {
            front
        } else {
            front.update(
                front.len() - 1,
                (front.last().0, front.last().1.push(entry_of_line(t))),
            )
        }
    }
}

/// Parses the SSH-key configuration file: an INI-style text of
/// `[section]` headers and `key = value` entries.
pub fn parse_config(text: &str) -> (r: Vec<ConfigSection>)
    ensures
        config_views(r@) == spec_config(lines_at(text@, 0)),
{
    let lines = lines_of(text);
    let ghost lsv = lines.deep_view();
    let mut sections: Vec<ConfigSection> = Vec::new();
    let mut i: usize = 0;
    proof {
        assert(lsv.take(0) =~= Seq::<Seq<char>>::empty());
        assert(config_views(sections@) =~~= spec_config(lsv.take(0)));
    }
    while i < lines.len()
        invariant
            0 <= i <= lsv.len(),
            lines.deep_view() == lsv,
            config_views(sections@) == spec_config(lsv.take(i as int)),
        decreases lsv.len() - i,
    {
        let line: &String = &lines[i];
        proof {
            assert(lsv.take(i as int + 1).drop_last() =~= lsv.take(i as int));
            assert(lsv.take(i as int + 1).last() == line@);
        }
        let t: String = trim_line(line.as_str());
        let tn: usize = t.as_str().unicode_len();
        let ghost before = sections@;
        if tn == 0 || t.as_str().get_char(0) == ';' || t.as_str().get_char(0) == '#' {
        } else if tn >= 2 && t.as_str().get_char(0) == '[' && t.as_str().get_char(tn - 1) == ']' {
            let name: String = trim_line(t.as_str().substring_char(1, tn - 1));
            proof {
                assert(name@ == section_name_of(trimmed(line@)));
            }
            sections.push(ConfigSection { name, entries: Vec::new() });
            proof {
                assert(config_views(sections@) =~~= config_views(before).push(
                    (section_name_of(trimmed(line@)), Seq::empty()),
                ));
            }
        } else if sections.len() > 0 {
            let eq = scan_to_char(t.as_str(), '=', 0);
            proof {
                lemma_find_from(t@, '=', 0);
            }
            let entry: ConfigEntry = if eq < tn {
                let key = trim_line(t.as_str().substring_char(0, eq));
                let value = trim_line(t.as_str().substring_char(eq + 1, tn));
                proof {
                    assert(key@ == trimmed(t@.take(eq as int)));
                    assert(value@ == trimmed(t@.skip(eq as int + 1)));
                }
                ConfigEntry { key, value: Some(value) }
            } else {
                ConfigEntry { key: t, value: None }
            };
            proof {
                assert(entry_view(entry) == entry_of_line(trimmed(line@)));
            }
            let n = sections.len();
            let mut sect = sections.remove(n - 1);
            sect.entries.push(entry);
            sections.push(sect);
            proof {
                assert(sections@ =~= before.update(
                    before.len() - 1,
                    ConfigSection {
                        name: before.last().name,
                        entries: sections@.last().entries,
                    },
                ));
                assert(section_view(sections@.last()) == (
                    section_view(before.last()).0,
                    section_view(before.last()).1.push(entry_of_line(trimmed(line@))),
                )) by {
                    assert(section_view(sections@.last()).1 =~= section_view(
                        before.last(),
                    ).1.push(entry_view(entry)));
                }
                assert(config_views(sections@) =~~= spec_config(lsv.take(i as int + 1)));
            }
        }
        proof {
            assert(config_views(sections@) =~~= spec_config(lsv.take(i as int + 1)));
        }
        i = i + 1;
    }
    proof {
        assert(lsv.take(lsv.len() as int) =~= lsv);
    }
    sections
}

} // verus!
