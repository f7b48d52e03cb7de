//! Recording a repository when the shell shim reports a `git` call in it,
//! and reading its `owner/repo` name from the `origin` remote.
use vstd::prelude::*;
use crate::db::{
    first_repo, inconsistency, opt_str_view, opt_view, upsert_statement, upserted, well_formed, Database,
    RepoKey,
};
use crate::db::excluded_by;
use crate::error::GitregError;
use crate::text::{
    chars_of, find_char, find_char_exec, find_from, lemma_find_from, lines, lines_exec,
    matches_at, matches_at_exec, slice_to_vec, starts_with, starts_with_exec, string_of, trim,
    trim_start, trim_start_index, trimmed, ends_with, compare_chars, Order,
};
use crate::order::views;

verus! {

// ---------------------------------------------------------------------------
// Specifications
// ---------------------------------------------------------------------------

/// `str::strip_prefix`.
pub open spec fn strip_prefix(s: Seq<char>, p: Seq<char>) -> Option<Seq<char>> {
    if starts_with(s, p) {
        Some(s.skip(p.len() as int))
    } else {
        None
    }
}

/// `str::trim_end_matches` with a character.
pub open spec fn trim_end_char(s: Seq<char>, c: char) -> Seq<char>
    decreases s.len(),
{
    if s.len() > 0 && s.last() == c {
        trim_end_char(s.drop_last(), c)
    } else {
        s
    }
}

/// `str::trim_end_matches` with a string: the suffix `p` removed as often as
/// it occurs.
pub open spec fn trim_end_pat(s: Seq<char>, p: Seq<char>) -> Seq<char>
    decreases s.len(),
{
    if p.len() > 0 && ends_with(s, p) {
        trim_end_pat(s.take(s.len() - p.len()), p)
    } else {
        s
    }
}

/// The repository path of a remote URL: what follows the host of an
/// `http(s)://` URL, or what follows the first `:` of an scp-like one.
pub open spec fn url_path(url: Seq<char>) -> Option<Seq<char>> {
    let web = match strip_prefix(url, "https://"@) {
        Some(r) => Some(r),
        None => strip_prefix(url, "http://"@),
    };
    match web {
        Some(rest) => match find_char(rest, '/') {
            Some(k) => Some(rest.skip(k + 1)),
            None => None,
        },
        None => match find_char(url, ':') {
            Some(k) => Some(url.skip(k + 1)),
            None => None,
        },
    }
}

/// `owner/repo` from the first two `/`-separated parts of `path`, both of
/// which must be non-empty.
pub open spec fn owner_repo(path: Seq<char>) -> Option<Seq<char>> {
    match find_char(path, '/') {
        None => None,
        Some(i) => {
            let owner = path.take(i);
            let rest = path.skip(i + 1);
            let repo = match find_char(rest, '/') {
                Some(j) => rest.take(j),
                None => rest,
            };
            if owner.len() > 0 && repo.len() > 0 {
                Some(owner + seq!['/'] + repo)
            } else {
                None
            }
        },
    }
}

/// The `owner/repo` name of a remote URL, trailing slashes and `.git`
/// suffixes ignored.
pub open spec fn origin_owner_repo(url: Seq<char>) -> Option<Seq<char>> {
    match url_path(url) {
        Some(p) => owner_repo(trim_end_pat(trim_end_char(p, '/'), ".git"@)),
        None => None,
    }
}

/// The name that the `url` entry of the `[remote "origin"]` section of a git
/// configuration gives, reading its lines from `ls` (`in_origin`: inside that
/// section already).
pub open spec fn config_repo_name(ls: Seq<Seq<char>>, in_origin: bool) -> Option<Seq<char>>
    decreases ls.len(),
{
    if ls.len() == 0 {
        None
    } else {
        let t = trim(ls[0]);
        if t == "[remote \"origin\"]"@ {
            config_repo_name(ls.drop_first(), true)
        } else if in_origin && starts_with(t, seq!['[']) {
            None
        } else if in_origin && strip_prefix(t, "url"@) is Some && strip_prefix(
            trim_start(strip_prefix(t, "url"@)->0),
            seq!['='],
        ) is Some {
            origin_owner_repo(trim(strip_prefix(trim_start(strip_prefix(t, "url"@)->0), seq!['='])->0))
        } else {
            config_repo_name(ls.drop_first(), in_origin)
        }
    }
}

/// The name read from a git configuration file's text, if it could be read.
pub open spec fn repo_name_of(config: Option<Seq<char>>) -> Option<Seq<char>> {
    match config {
        Some(c) => config_repo_name(lines(c), false),
        None => None,
    }
}

// ---------------------------------------------------------------------------
// Executable helpers
// ---------------------------------------------------------------------------

fn strip_prefix_exec(s: &[char], p: &[char]) -> (r: Option<Vec<char>>)
    ensures
        match r {
            Some(v) => strip_prefix(s@, p@) == Some(v@),
            None => strip_prefix(s@, p@) is None,
        },
{
    if starts_with_exec(s, p) {
        Some(slice_to_vec(s, p.len(), s.len()))
    } else {
        None
    }
}

/// Length of `trim_end_char(s[..n], c)`.
fn trim_end_char_len(s: &[char], n: usize, c: char) -> (m: usize)
    requires
        n <= s@.len(),
    ensures
        m <= n,
        s@.take(m as int) == trim_end_char(s@.take(n as int), c),
{
    let mut m = n;
    while m > 0 && s[m - 1] == c
        invariant
            m <= n <= s@.len(),
            trim_end_char(s@.take(m as int), c) == trim_end_char(s@.take(n as int), c),
        decreases m,
    {
        assert(s@.take(m as int).drop_last() == s@.take(m - 1));
        m = m - 1;
    }
    m
}

/// Length of `trim_end_pat(s[..n], p)`.
fn trim_end_pat_len(s: &[char], n: usize, p: &[char]) -> (m: usize)
    requires
        n <= s@.len(),
    ensures
        m <= n,
        s@.take(m as int) == trim_end_pat(s@.take(n as int), p@),
{
    let mut m = n;
    loop
        invariant
            m <= n <= s@.len(),
            trim_end_pat(s@.take(m as int), p@) == trim_end_pat(s@.take(n as int), p@),
        decreases m,
    {
        let ghost t = s@.take(m as int);
        if p.len() == 0 || p.len() > m {
            return m;
        }
        let k = m - p.len();
        proof {
            assert(t.subrange(t.len() - p@.len(), t.len() as int) == s@.subrange(k as int, m as int));
        }
        if !matches_at_exec(s, p, k) {
            assert(!ends_with(t, p@));
            return m;
        }
        assert(ends_with(t, p@));
        assert(t.take(t.len() - p@.len()) == s@.take(k as int));
        m = k;
    }
}

/// `owner/repo` from a URL, as characters.
fn owner_repo_of_url(u: &[char]) -> (r: Option<String>)
    ensures
        opt_view(r) == origin_owner_repo(u@),
{
    let https = chars_of("https://");
    let http = chars_of("http://");
    let web = match strip_prefix_exec(u, https.as_slice()) {
        Some(r) => Some(r),
        None => strip_prefix_exec(u, http.as_slice()),
    };
    let path: Vec<char> = match web {
        Some(rest) => {
            proof {
                lemma_find_from(rest@, seq!['/'], 0);
            }
            let k = match find_char_exec(rest.as_slice(), '/', 0) {
                Some(k) => k,
                None => return None,
            };
            assert(matches_at(rest@, seq!['/'], k as int));
            assert(k + 1 <= rest@.len());
            assert(rest@.len() == rest.len());
            slice_to_vec(rest.as_slice(), k + 1, rest.len())
        },
        None => {
            proof {
                lemma_find_from(u@, seq![':'], 0);
            }
            let k = match find_char_exec(u, ':', 0) {
                Some(k) => k,
                None => return None,
            };
            assert(matches_at(u@, seq![':'], k as int));
            assert(k + 1 <= u@.len());
            assert(u@.len() == u.len());
            slice_to_vec(u, k + 1, u.len())
        },
    };
    assert(url_path(u@) == Some(path@));
    let dot_git = chars_of(".git");
    let n1 = trim_end_char_len(path.as_slice(), path.len(), '/');
    let n2 = trim_end_pat_len(path.as_slice(), n1, dot_git.as_slice());
    assert(path@.take(path@.len() as int) == path@);
    let p = slice_to_vec(path.as_slice(), 0, n2);
    assert(p@ == trim_end_pat(trim_end_char(path@, '/'), ".git"@));
    proof {
        lemma_find_from(p@, seq!['/'], 0);
    }
    let i = match find_char_exec(p.as_slice(), '/', 0) {
        Some(i) => i,
        None => return None,
    };
    assert(matches_at(p@, seq!['/'], i as int));
    let owner = slice_to_vec(p.as_slice(), 0, i);
    let rest = slice_to_vec(p.as_slice(), i + 1, p.len());
    proof {
        lemma_find_from(rest@, seq!['/'], 0);
    }
    let repo = match find_char_exec(rest.as_slice(), '/', 0) {
        Some(j) => {
            assert(matches_at(rest@, seq!['/'], j as int));
            slice_to_vec(rest.as_slice(), 0, j)
        },
        None => slice_to_vec(rest.as_slice(), 0, rest.len()),
    };
    assert(rest@.take(rest@.len() as int) == rest@);
    if owner.len() == 0 || repo.len() == 0 {
        return None;
    }
    let mut out = owner;
    out.push('/');
    let mut k: usize = 0;
    let ghost base = out@;
    while k < repo.len()
        invariant
            0 <= k <= repo@.len(),
            out@ == base + repo@.take(k as int),
        decreases repo.len() - k,
    {
        out.push(repo[k]);
        k = k + 1;
        assert(out@ == base + repo@.take(k as int));
    }
    assert(repo@.take(repo@.len() as int) == repo@);
    Some(string_of(out.as_slice()))
}

/// `owner/repo` from an `origin` URL such as
/// `https://github.com/owner/repo.git` or `git@github.com:owner/repo.git`.
pub fn parse_origin_owner_repo(url: &str) -> (r: Option<String>)
    ensures
        opt_view(r) == origin_owner_repo(url@),
{
    let u = chars_of(url);
    owner_repo_of_url(u.as_slice())
}

/// The `owner/repo` name of the `origin` remote in the text of a git
/// configuration file.
pub fn extract_repo_name(config: &str) -> (r: Option<String>)
    ensures
        opt_view(r) == config_repo_name(lines(config@), false),
{
    let c = chars_of(config);
    let ls = lines_exec(c.as_slice());
    let ghost lv = views(ls@);
    let header = chars_of("[remote \"origin\"]");
    let url_key = chars_of("url");
    let mut in_origin = false;
    let mut i: usize = 0;
    assert(lv.skip(0) == lv);
    while i < ls.len()
        invariant
            0 <= i <= ls@.len(),
            lv == views(ls@),
            lv == lines(c@),
            c@ == config@,
            header@ == "[remote \"origin\"]"@,
            url_key@ == "url"@,
            config_repo_name(lv.skip(i as int), in_origin) == config_repo_name(lv, false),
        decreases ls.len() - i,
    {
        let ghost rest = lv.skip(i as int);
        assert(rest[0] == ls@[i as int]@);
        assert(rest.drop_first() == lv.skip(i + 1));
        let t = trimmed(ls[i].as_slice());
        if compare_chars(t.as_slice(), header.as_slice()) == Order::Equal {
            in_origin = true;
        } else if in_origin {
            if t.len() > 0 && t[0] == '[' {
                assert(t@.subrange(0, 1) =~= seq!['[']);
                return None;
            }
            proof {
                if starts_with(t@, seq!['[']) {
                    assert(t@.subrange(0, 1)[0] == t@[0]);
                }
            }
            match strip_prefix_exec(t.as_slice(), url_key.as_slice()) {
                Some(after) => {
                    let a = trim_start_index(after.as_slice());
                    let tail = slice_to_vec(after.as_slice(), a, after.len());
                    if tail.len() > 0 && tail[0] == '=' {
                        assert(tail@.subrange(0, 1) =~= seq!['=']);
                        let url = trimmed(slice_to_vec(tail.as_slice(), 1, tail.len()).as_slice());
                        return owner_repo_of_url(url.as_slice());
                    }
                    proof {
                        if starts_with(tail@, seq!['=']) {
                            assert(tail@.subrange(0, 1)[0] == tail@[0]);
                        }
                    }
                },
                None => {},
            }
        }
        i = i + 1;
    }
    None
}

// ---------------------------------------------------------------------------
// Recording a repository
// ---------------------------------------------------------------------------

/// Records the repository at `canonical` (a canonical path) after the shell
/// shim saw a `git` call in it. `is_repo` tells whether it has a `.git`
/// directory, `git_config` is the text of its `.git/config` when that could
/// be read. Returns `None` when nothing was recorded (not a repository, or
/// excluded), else whether the path was new; the caller then writes the
/// marker that stops the shim from reporting it again.
pub fn run(db: &mut Database, canonical: &str, is_repo: bool, git_config: Option<&str>) -> (res:
    Result<Option<bool>, GitregError>)
    requires
        well_formed(old(db)@),
    ensures
        well_formed(final(db)@),
        !is_repo ==> (res matches Ok(None)) && final(db)@ == old(db)@ && final(db).writes() == old(
            db,
        ).writes(),
        is_repo && excluded_by(canonical@, old(db)@.exclusions, old(db)@.sep) ==> (res matches Ok(
            None,
        )) && final(db)@ == old(db)@ && final(db).writes() == old(db).writes(),
        is_repo && !excluded_by(canonical@, old(db)@.exclusions, old(db)@.sep) ==> exists|ts: i64|
            ts >= 0 && final(db).writes() == old(db).writes().push(
                upsert_statement(canonical@, repo_name_of(opt_str_view(git_config)), ts),
            ) && match res {
                Ok(Some(added)) => added == (first_repo(old(db)@.repos, RepoKey::Path(canonical@))
                    is None) && exists|id: i64|
                    (added ==> first_repo(old(db)@.repos, RepoKey::Id(id)) is None) && final(db)@
                        == upserted(
                        old(db)@,
                        canonical@,
                        repo_name_of(opt_str_view(git_config)),
                        id,
                        ts,
                    ),
                Ok(None) => false,
                Err(e) => (e is Database || inconsistency(e)) && final(db)@ == old(db)@,
            },
{
    if !is_repo {
        return Ok(None);
    }
    match db.is_excluded(canonical) {
        Ok(true) => return Ok(None),
        Ok(false) => {},
        Err(e) => return Err(e),
    }
    let name = match git_config {
        Some(c) => extract_repo_name(c),
        None => None,
    };
    assert(opt_view(name) == repo_name_of(opt_str_view(git_config)));
    let name_ref: Option<&str> = match &name {
        Some(n) => Some(n.as_str()),
        None => None,
    };
    assert(opt_str_view(name_ref) == opt_view(name));
    match db.upsert(canonical, name_ref) {
        Ok(added) => Ok(Some(added)),
        Err(e) => Err(e),
    }
}

} // verus!
