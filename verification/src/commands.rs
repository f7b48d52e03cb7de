//! The decisions behind the command-line commands: resolving targets, names
//! for emergency branches, the daily pruning schedule, exclusions, and the
//! texts that the commands report.
use vstd::prelude::*;
use std::collections::VecDeque;
use crate::db::{
    autoprune_enabled, autoprune_time, first_repo, kept, opt_view, pruned_prefix,
    resolve_target_spec, set_value, tagged, untagged, upserted, value_of, well_formed,
    with_emergency, with_exclusions, with_repos, with_settings, Database, DbModel, RepoKey, Removal,
    Statement,
};
use crate::db::excluded_by;
use crate::error::GitregError;
use crate::hook::trim_end_char;
use crate::text::{
    chars_of, concat2, copy_string, digit_value, is_digit, lex_lt,
    string_of, str_eq, compare_strs, Order,
};
use crate::upgrade::trim_start_char;
use crate::order::views;
use crate::shell::{join, join_path};

verus! {

// ---------------------------------------------------------------------------
// Names for emergency branches
// ---------------------------------------------------------------------------

/// Whether `c` is alphabetic or numeric in Unicode (a function of `c`
/// alone, given by the Unicode tables that std carries).
pub uninterp spec fn alphanumeric(c: char) -> bool;

/// `char::is_alphanumeric`; what it returns is named by `alphanumeric`.
/// Neither `_` (connector punctuation) nor `-` (dash punctuation) is
/// alphabetic or numeric, so it is false for both.
#[verifier::external_body]
fn is_alphanumeric(c: char) -> (b: bool)
    ensures
        b == alphanumeric(c),
        c == '_' || c == '-' ==> !b,
{
    c.is_alphanumeric()
}

/// A character kept in a name, or `_` in its place.
pub open spec fn name_char(c: char) -> char {
    if alphanumeric(c) || c == '-' || c == '_' {
        c
    } else {
        '_'
    }
}

/// `str::replace("__", "_")`: each pair of underscores, taken from the left
/// without overlap, becomes one.
pub open spec fn collapse_pairs(s: Seq<char>) -> Seq<char>
    decreases s.len(),
{
    if s.len() >= 2 && s[0] == '_' && s[1] == '_' {
        seq!['_'] + collapse_pairs(s.skip(2))
    } else if s.len() >= 1 {
        seq![s[0]] + collapse_pairs(s.skip(1))
    } else {
        s
    }
}

/// A name usable in a branch name: characters other than letters, digits,
/// `-` and `_` become `_`, pairs of `_` are collapsed and `_` is trimmed from
/// both ends.
pub open spec fn sanitized(s: Seq<char>) -> Seq<char> {
    trim_end_char(trim_start_char(collapse_pairs(s.map_values(|c: char| name_char(c))), '_'), '_')
}

fn map_name_chars(cs: &[char]) -> (m: Vec<char>)
    ensures
        m@ == cs@.map_values(|c: char| name_char(c)),
{
    let mut m: Vec<char> = Vec::new();
    let mut i: usize = 0;
    while i < cs.len()
        invariant
            i <= cs@.len(),
            m@.len() == i,
            forall|j: int| 0 <= j < i ==> #[trigger] m@[j] == name_char(cs@[j]),
        decreases cs.len() - i,
    {
        let c = cs[i];
        if is_alphanumeric(c) || c == '-' || c == '_' {
            m.push(c);
        } else {
            m.push('_');
        }
        i = i + 1;
    }
    assert(m@ =~= cs@.map_values(|c: char| name_char(c)));
    m
}

fn collapse_pairs_exec(m: &[char]) -> (out: Vec<char>)
    ensures
        out@ == collapse_pairs(m@),
{
    let mut out: Vec<char> = Vec::new();
    let mut k: usize = 0;
    assert(m@.skip(0) == m@);
    while k < m.len()
        invariant
            k <= m@.len(),
            out@ + collapse_pairs(m@.skip(k as int)) == collapse_pairs(m@),
        decreases m.len() - k,
    {
        let ghost rest = m@.skip(k as int);
        if k + 1 < m.len() && m[k] == '_' && m[k + 1] == '_' {
            assert(rest.skip(2) == m@.skip(k + 2));
            out.push('_');
            k = k + 2;
        } else {
            assert(rest.skip(1) == m@.skip(k + 1));
            out.push(m[k]);
            k = k + 1;
        }
    }
    assert(m@.skip(m@.len() as int).len() == 0);
    out
}

fn trim_underscores(out: &[char]) -> (r: Vec<char>)
    ensures
        r@ == trim_end_char(trim_start_char(out@, '_'), '_'),
{
    let mut a: usize = 0;
    assert(out@.skip(0) == out@);
    while a < out.len() && out[a] == '_'
        invariant
            a <= out@.len(),
            trim_start_char(out@.skip(a as int), '_') == trim_start_char(out@, '_'),
        decreases out.len() - a,
    {
        assert(out@.skip(a as int).drop_first() == out@.skip(a + 1));
        a = a + 1;
    }
    let mut b: usize = out.len();
    assert(out@.subrange(a as int, b as int) == out@.skip(a as int));
    while b > a && out[b - 1] == '_'
        invariant
            a <= b <= out@.len(),
            trim_end_char(out@.subrange(a as int, b as int), '_') == trim_end_char(
                trim_start_char(out@, '_'),
                '_',
            ),
        decreases b,
    {
        assert(out@.subrange(a as int, b as int).drop_last() == out@.subrange(a as int, b - 1));
        b = b - 1;
    }
    crate::text::slice_to_vec(out, a, b)
}

/// `s` made safe for a branch name.
pub fn sanitize_name(s: &str) -> (r: String)
    ensures
        r@ == sanitized(s@),
{
    let cs = chars_of(s);
    let m = map_name_chars(cs.as_slice());
    let c = collapse_pairs_exec(m.as_slice());
    let t = trim_underscores(c.as_slice());
    string_of(t.as_slice())
}

/// The branch an emergency push goes to: the current branch (made safe),
/// `_emergency_`, then the (already safe) user and host names and the time
/// stamp, separated by `_`.
pub fn emergency_branch_name(current_branch: &str, git_user: &str, hostname: &str, timestamp: &str) -> (r:
    String)
    ensures
        r@ == sanitized(current_branch@) + "_emergency_"@ + git_user@ + "_"@ + hostname@ + "_"@
            + timestamp@,
{
    let b = sanitize_name(current_branch);
    let s1 = concat2(b.as_str(), "_emergency_");
    let s2 = concat2(s1.as_str(), git_user);
    let s3 = concat2(s2.as_str(), "_");
    let s4 = concat2(s3.as_str(), hostname);
    let s5 = concat2(s4.as_str(), "_");
    concat2(s5.as_str(), timestamp)
}

/// The message of the commit that an emergency push makes.
pub fn emergency_commit_message(timestamp: &str) -> (r: String)
    ensures
        r@ == "EMERGENCY SAVE: "@ + timestamp@,
{
    concat2("EMERGENCY SAVE: ", timestamp)
}

/// The steps of the emergency push of one repository, in the order `app/`
/// runs them with git.
#[derive(PartialEq, Eq, Structural, Clone, Copy, Debug)]
pub enum EmergencyStep {
    /// `git checkout -b <emergency branch>`.
    CreateBranch,
    /// `git add -A`.
    AddAll,
    /// `git commit -m <message> --no-verify`.
    Commit,
    /// `git push origin <emergency branch> --force --no-verify`.
    Push,
    /// `git checkout <previous branch>`.
    Restore,
    /// Nothing more for this repository.
    Done,
}

/// The step after `step`, given whether it succeeded: a repository whose
/// emergency branch could not be created is skipped; a failed `add` or
/// `commit` does not stop the push; after the push, whatever its outcome,
/// the previous branch is checked out again.
pub open spec fn emergency_next(step: EmergencyStep, ok: bool) -> EmergencyStep {
    match step {
        EmergencyStep::CreateBranch => if ok {
            EmergencyStep::AddAll
        } else {
            EmergencyStep::Done
        },
        EmergencyStep::AddAll => EmergencyStep::Commit,
        EmergencyStep::Commit => EmergencyStep::Push,
        EmergencyStep::Push => EmergencyStep::Restore,
        EmergencyStep::Restore => EmergencyStep::Done,
        EmergencyStep::Done => EmergencyStep::Done,
    }
}

/// The step after `step`, given whether its git command succeeded.
pub fn next_emergency_step(step: EmergencyStep, ok: bool) -> (n: EmergencyStep)
    ensures
        n == emergency_next(step, ok),
{
    match step {
        EmergencyStep::CreateBranch => if ok {
            EmergencyStep::AddAll
        } else {
            EmergencyStep::Done
        },
        EmergencyStep::AddAll => EmergencyStep::Commit,
        EmergencyStep::Commit => EmergencyStep::Push,
        EmergencyStep::Push => EmergencyStep::Restore,
        EmergencyStep::Restore => EmergencyStep::Done,
        EmergencyStep::Done => EmergencyStep::Done,
    }
}

/// Records `branch` as the emergency branch of the repository with id `id`
/// when its push succeeded (`pushed`), so that listings warn of it; returns
/// whether it recorded it.  A failed push records nothing.
pub fn record_emergency_push(db: &mut Database, id: i64, branch: &str, pushed: bool) -> (res: Result<
    bool,
    GitregError,
>)
    requires
        well_formed(old(db)@),
    ensures
        well_formed(final(db)@),
        !pushed ==> res == Ok::<bool, GitregError>(false) && final(db)@ == old(db)@
            && final(db).writes() == old(db).writes(),
        pushed ==> final(db).writes() == old(db).writes().push(
            crate::db::emergency_statement(id, branch@),
        ) && match res {
            Ok(b) => b && final(db)@ == with_emergency(old(db)@, id, Some(branch@)),
            Err(e) => e is Database && final(db)@ == old(db)@,
        },
{
    if !pushed {
        return Ok(false);
    }
    match db.set_emergency_branch(id, branch) {
        Ok(()) => Ok(true),
        Err(e) => Err(e),
    }
}

/// The event announced when `git <cmd> ...` runs across repositories.
pub fn git_event_name(cmd: &str) -> (r: String)
    ensures
        r@ == "git."@ + cmd@,
{
    concat2("git.", cmd)
}

// ---------------------------------------------------------------------------
// Finding the repository a command is about
// ---------------------------------------------------------------------------

/// The id that `target` resolves to: by itself, or else by its canonical
/// path (`canonical`, when it could be determined).
pub open spec fn resolved_id(m: DbModel, target: Seq<char>, canonical: Option<Seq<char>>) -> Option<i64> {
    match resolve_target_spec(m, target) {
        Some(id) => Some(id),
        None => match canonical {
            Some(c) => resolve_target_spec(m, c),
            None => None,
        },
    }
}

/// The error for a target that names no repository.
fn not_found(target: &str) -> (e: GitregError)
    ensures
        e matches GitregError::NotFound(t) && t@ == target@,
{
    GitregError::NotFound(copy_string(target))
}

/// The id of the repository that `target` names (an id, a path or an
/// `owner/repo` name), trying its canonical path `canonical` as well.
pub fn resolve_id(db: &Database, target: &str, canonical: Option<&str>) -> (res: Result<i64, GitregError>)
    requires
        well_formed(db@),
    ensures
        match resolved_id(db@, target@, crate::db::opt_str_view(canonical)) {
            Some(id) => res == Ok::<i64, GitregError>(id),
            None => res matches Err(GitregError::NotFound(t)) && t@ == target@,
        },
{
    match db.resolve_target(target) {
        Ok(Some(id)) => Ok(id),
        Ok(None) => match canonical {
            Some(c) => match db.resolve_target(c) {
                Ok(Some(id)) => Ok(id),
                Ok(None) => Err(not_found(target)),
                Err(e) => Err(e),
            },
            None => Err(not_found(target)),
        },
        Err(e) => Err(e),
    }
}

/// An id that resolution gives belongs to a repository.
pub proof fn lemma_resolved_exists(m: DbModel, target: Seq<char>, canonical: Option<Seq<char>>)
    requires
        well_formed(m),
    ensures
        resolved_id(m, target, canonical) matches Some(id) ==> first_repo(m.repos, RepoKey::Id(id)) is Some,
{
    crate::db::lemma_resolve_exists(m, target);
    match canonical {
        Some(c) => crate::db::lemma_resolve_exists(m, c),
        None => {},
    }
}

/// Removes the repository that `target` names; returns its path.
pub fn remove_target(db: &mut Database, target: &str, canonical: Option<&str>) -> (res: Result<
    String,
    GitregError,
>)
    requires
        well_formed(old(db)@),
    ensures
        well_formed(final(db)@),
        match resolved_id(old(db)@, target@, crate::db::opt_str_view(canonical)) {
            None => (res matches Err(GitregError::NotFound(t)) && t@ == target@) && final(db)@ == old(db)@
                && final(db).writes() == old(db).writes(),
            Some(id) => final(db).writes() == old(db).writes().push(crate::db::delete_id_statement(id)) && match res {
                Ok(p) => first_repo(old(db)@.repos, RepoKey::Id(id)) matches Some(i) && p@ == old(db)@.repos[i].path && final(db)@ == with_repos(old(db)@, old(db)@.repos.remove(i)),
                Err(e) => e is Database && final(db)@ == old(db)@,
            },
        },
{
    let id = match resolve_id(db, target, canonical) {
        Ok(id) => id,
        Err(e) => return Err(e),
    };
    proof {
        lemma_resolved_exists(db@, target@, crate::db::opt_str_view(canonical));
    }
    match db.remove_by_id(id) {
        Ok(Some(p)) => Ok(p),
        Ok(None) => Err(not_found(target)),
        Err(e) => Err(e),
    }
}

/// Adds `tag` to the repository that `target` names.
pub fn tag_target(db: &mut Database, target: &str, canonical: Option<&str>, tag: &str) -> (res:
    Result<(), GitregError>)
    requires
        well_formed(old(db)@),
    ensures
        well_formed(final(db)@),
        match resolved_id(old(db)@, target@, crate::db::opt_str_view(canonical)) {
            None => (res matches Err(GitregError::NotFound(t)) && t@ == target@) && final(db)@ == old(db)@
                && final(db).writes() == old(db).writes(),
            Some(id) => final(db).writes() == old(db).writes().push(crate::db::add_tag_statement(id, tag@)) && match res {
                Ok(_) => final(db)@ == tagged(old(db)@, id, tag@),
                Err(e) => e is Database && final(db)@ == old(db)@,
            },
        },
{
    let id = match resolve_id(db, target, canonical) {
        Ok(id) => id,
        Err(e) => return Err(e),
    };
    db.add_tag(id, tag)
}

/// Removes `tag` from the repository that `target` names.
pub fn untag_target(db: &mut Database, target: &str, canonical: Option<&str>, tag: &str) -> (res:
    Result<(), GitregError>)
    requires
        well_formed(old(db)@),
    ensures
        well_formed(final(db)@),
        match resolved_id(old(db)@, target@, crate::db::opt_str_view(canonical)) {
            None => (res matches Err(GitregError::NotFound(t)) && t@ == target@) && final(db)@ == old(db)@
                && final(db).writes() == old(db).writes(),
            Some(id) => final(db).writes() == old(db).writes().push(crate::db::remove_tag_statement(id, tag@)) && match res {
                Ok(_) => final(db)@ == untagged(old(db)@, id, tag@),
                Err(e) => e is Database && final(db)@ == old(db)@,
            },
        },
{
    let id = match resolve_id(db, target, canonical) {
        Ok(id) => id,
        Err(e) => return Err(e),
    };
    db.remove_tag(id, tag)
}

/// What registering `path` unless it is excluded does, from registry `m`
/// (with `w` handed to SQLite) to `m2` (with `w2`), returning `res`.
pub open spec fn registration(
    m: DbModel,
    w: Seq<Statement>,
    m2: DbModel,
    w2: Seq<Statement>,
    path: Seq<char>,
    res: Result<bool, GitregError>,
) -> bool {
    &&& excluded_by(path, m.exclusions, m.sep) ==> res == Ok::<bool, GitregError>(false) && m2 == m
        && w2 == w
    &&& !excluded_by(path, m.exclusions, m.sep) ==> exists|ts: i64|
        ts >= 0 && w2 == w.push(crate::db::upsert_statement(path, None, ts)) && match res {
            Ok(added) => added == (first_repo(m.repos, RepoKey::Path(path)) is None) && exists|id: i64|
                (added ==> first_repo(m.repos, RepoKey::Id(id)) is None) && m2 == upserted(
                    m,
                    path,
                    None,
                    id,
                    ts,
                ),
            Err(e) => (e is Database || crate::db::inconsistency(e)) && m2 == m,
        }
}

/// Registers `path` (found by a scan) unless it is excluded; returns whether
/// it was new.
pub fn register_unless_excluded(db: &mut Database, path: &str) -> (res: Result<bool, GitregError>)
    requires
        well_formed(old(db)@),
    ensures
        well_formed(final(db)@),
        registration(old(db)@, old(db).writes(), final(db)@, final(db).writes(), path@, res),
{
    match db.is_excluded(path) {
        Ok(true) => Ok(false),
        Ok(false) => db.upsert(path, None),
        Err(e) => Err(e),
    }
}

// ---------------------------------------------------------------------------
// Exclusions
// ---------------------------------------------------------------------------

/// The exclusion list with `path` added (unless it is there).
pub open spec fn excluding(exclusions: Seq<Seq<char>>, path: Seq<char>) -> Seq<Seq<char>> {
    if exclusions.contains(path) {
        exclusions
    } else {
        exclusions.push(path)
    }
}

/// Excludes the (canonical) path `path` and removes the registered
/// repositories at or under it; returns how many were removed.
pub fn exclude_path(db: &mut Database, path: &str) -> (res: Result<usize, GitregError>)
    requires
        well_formed(old(db)@),
    ensures
        well_formed(final(db)@),
        res matches Ok(n) ==> {
            let m1 = with_exclusions(old(db)@, excluding(old(db)@.exclusions, path@));
            let c = Removal::Under { exclusion: path@, sep: old(db)@.sep };
            final(db)@ == with_repos(m1, kept(old(db)@.repos, c)) && n == crate::db::dropped_paths(
                old(db)@.repos,
                c,
            ).len()
        },
        res is Ok ==> final(db).writes() == old(db).writes().push(crate::db::add_exclusion_statement(path@))
            + crate::db::delete_path_statements(
            crate::db::dropped_paths(old(db)@.repos, Removal::Under { exclusion: path@, sep: old(db)@.sep }),
        ),
        res is Err ==> (final(db).writes() == old(db).writes().push(crate::db::add_exclusion_statement(path@)) && final(db)@ == old(db)@)
            || crate::db::removal_stopped(
            old(db)@.repos,
            old(db).writes().push(crate::db::add_exclusion_statement(path@)),
            final(db)@.repos,
            final(db).writes(),
            Removal::Under { exclusion: path@, sep: old(db)@.sep },
        ),
        res matches Err(e) ==> e is Database && (final(db)@ == old(db)@ || {
            let m1 = with_exclusions(old(db)@, excluding(old(db)@.exclusions, path@));
            let c = Removal::Under { exclusion: path@, sep: old(db)@.sep };
            exists|n: int|
                0 <= n <= old(db)@.repos.len() && final(db)@ == with_repos(
                    m1,
                    kept(old(db)@.repos.take(n), c) + old(db)@.repos.skip(n),
                )
        }),
{
    match db.add_exclusion(path) {
        Ok(()) => {},
        Err(e) => return Err(e),
    }
    db.remove_by_exclusion(path)
}

// ---------------------------------------------------------------------------
// Daily pruning
// ---------------------------------------------------------------------------

/// The message for a time that is not `HH:MM`.
pub open spec fn bad_time_message() -> Seq<char> {
    "Use HH:MM (e.g., 00:00 or 13:45)"@
}

/// `HH:MM`: two ASCII digits of an hour from 00 to 23, `:`, and two ASCII
/// digits of a minute from 00 to 59.
pub open spec fn valid_time(t: Seq<char>) -> bool {
    &&& t.len() == 5
    &&& t[2] == ':'
    &&& is_digit(t[0]) && is_digit(t[1]) && is_digit(t[3]) && is_digit(t[4])
    &&& digit_value(t[0]) * 10 + digit_value(t[1]) <= 23
    &&& digit_value(t[3]) * 10 + digit_value(t[4]) <= 59
}

/// Whether `t` is a daily time of the form `HH:MM`.
pub fn is_valid_time(t: &str) -> (b: bool)
    ensures
        b == valid_time(t@),
{
    let cs = chars_of(t);
    if cs.len() != 5 {
        return false;
    }
    if cs[2] != ':' {
        return false;
    }
    let h1 = cs[0];
    let h2 = cs[1];
    let m1 = cs[3];
    let m2 = cs[4];
    if !(('0' <= h1 && h1 <= '9') && ('0' <= h2 && h2 <= '9') && ('0' <= m1 && m1 <= '9') && ('0'
        <= m2 && m2 <= '9')) {
        return false;
    }
    let hours: u32 = ((h1 as u32) - ('0' as u32)) * 10 + ((h2 as u32) - ('0' as u32));
    let minutes: u32 = ((m1 as u32) - ('0' as u32)) * 10 + ((m2 as u32) - ('0' as u32));
    hours <= 23 && minutes <= 59
}

/// The registry after `config autoprune --enable` / `--disable` (neither:
/// unchanged).
pub open spec fn with_autoprune_switch(m: DbModel, enable: bool, disable: bool) -> DbModel {
    if enable {
        with_settings(m, set_value(m.settings, "autoprune_enabled"@, "true"@))
    } else if disable {
        with_settings(m, set_value(m.settings, "autoprune_enabled"@, "false"@))
    } else {
        m
    }
}

/// Switches daily pruning on (`enable`) or off (`disable`; `enable` wins).
pub fn switch_autoprune(db: &mut Database, enable: bool, disable: bool) -> (res: Result<(), GitregError>)
    requires
        well_formed(old(db)@),
    ensures
        well_formed(final(db)@),
        !enable && !disable ==> res is Ok,
        final(db).writes() == if enable {
            old(db).writes().push(crate::db::setting_statement("autoprune_enabled"@, "true"@))
        } else if disable {
            old(db).writes().push(crate::db::setting_statement("autoprune_enabled"@, "false"@))
        } else {
            old(db).writes()
        },
        match res {
            Ok(_) => final(db)@ == with_autoprune_switch(old(db)@, enable, disable),
            Err(e) => e is Database && final(db)@ == old(db)@,
        },
{
    if enable {
        db.set_setting("autoprune_enabled", "true")
    } else if disable {
        db.set_setting("autoprune_enabled", "false")
    } else {
        Ok(())
    }
}

/// Sets the daily pruning time, which must be `HH:MM`.
pub fn set_autoprune_time(db: &mut Database, time: &str) -> (res: Result<(), GitregError>)
    requires
        well_formed(old(db)@),
    ensures
        well_formed(final(db)@),
        !valid_time(time@) ==> (res matches Err(GitregError::InvalidFormat(m)) && m@
            == bad_time_message()) && final(db)@ == old(db)@ && final(db).writes() == old(db).writes(),
        valid_time(time@) ==> final(db).writes() == old(db).writes().push(crate::db::setting_statement("autoprune_time"@, time@)),
        valid_time(time@) ==> match res {
            Ok(_) => final(db)@ == with_settings(
                old(db)@,
                set_value(old(db)@.settings, "autoprune_time"@, time@),
            ),
            Err(e) => e is Database && final(db)@ == old(db)@,
        },
{
    if !is_valid_time(time) {
        return Err(GitregError::InvalidFormat(copy_string("Use HH:MM (e.g., 00:00 or 13:45)")));
    }
    db.set_setting("autoprune_time", time)
}

/// The registry after `config autoprune` with a valid time (or none).
pub open spec fn autoprune_configured(m: DbModel, enable: bool, disable: bool, time: Option<Seq<char>>) -> DbModel {
    let m1 = with_autoprune_switch(m, enable, disable);
    match time {
        Some(t) => with_settings(m1, set_value(m1.settings, "autoprune_time"@, t)),
        None => m1,
    }
}

/// `config autoprune`: refuses a time that is not `HH:MM` before changing
/// anything, then switches daily pruning on (`enable`) or off (`disable`)
/// and sets the time.
pub fn configure_autoprune(db: &mut Database, enable: bool, disable: bool, time: Option<&str>) -> (res:
    Result<(), GitregError>)
    requires
        well_formed(old(db)@),
    ensures
        well_formed(final(db)@),
        (time matches Some(t) && !valid_time(t@)) ==> (res matches Err(GitregError::InvalidFormat(m))
            && m@ == bad_time_message()) && final(db)@ == old(db)@ && final(db).writes() == old(
            db,
        ).writes(),
        res is Ok ==> final(db)@ == autoprune_configured(
            old(db)@,
            enable,
            disable,
            crate::db::opt_str_view(time),
        ),
        !(time matches Some(t) && !valid_time(t@)) ==> (res matches Err(e) ==> e is Database && (
        final(db)@ == old(db)@ || final(db)@ == with_autoprune_switch(old(db)@, enable, disable))),
{
    match time {
        Some(t) => {
            if !is_valid_time(t) {
                return Err(GitregError::InvalidFormat(copy_string("Use HH:MM (e.g., 00:00 or 13:45)")));
            }
        },
        None => {},
    }
    match switch_autoprune(db, enable, disable) {
        Ok(()) => {},
        Err(e) => return Err(e),
    }
    match time {
        Some(t) => set_autoprune_time(db, t),
        None => Ok(()),
    }
}

/// Whether the daily pruning is due at `time` on `date`: it is on, has not
/// run on `date`, and `time` is not before the scheduled time (both compared
/// as text).
pub open spec fn autoprune_due(m: DbModel, date: Seq<char>, time: Seq<char>) -> bool {
    autoprune_enabled(m) && value_of(m.settings, "last_autoprune_date"@) != Some(date) && !lex_lt(
        time,
        autoprune_time(m),
    )
}

/// `after` (with `after_w` handed to SQLite) is what a pruning of `before`
/// (with `before_w` handed) leaves, whether it ran through or stopped at a
/// deletion that SQLite refused: one deletion per removed repository, and
/// the refused one.
pub open spec fn pruning_writes(before: DbModel, before_w: Seq<Statement>, after: DbModel, after_w: Seq<Statement>) -> bool {
    ||| exists|missing: Seq<Seq<char>>|
        after.repos == kept(before.repos, crate::db::prune_removal(before, missing)) && after_w
            == before_w + crate::db::delete_path_statements(
            crate::db::dropped_paths(before.repos, crate::db::prune_removal(before, missing)),
        )
    ||| exists|missing: Seq<Seq<char>>|
        crate::db::removal_stopped(
            before.repos,
            before_w,
            after.repos,
            after_w,
            crate::db::prune_removal(before, missing),
        )
}

/// Runs the daily pruning when it is due at local `time` (`HH:MM`) on local
/// `date`, and records `date` as its last run; returns whether it ran. A
/// failing pruning is passed over.
pub fn check_and_run_autoprune(db: &mut Database, date: &str, time: &str) -> (res: Result<
    bool,
    GitregError,
>)
    requires
        well_formed(old(db)@),
    ensures
        well_formed(final(db)@),
        !autoprune_due(old(db)@, date@, time@) ==> res == Ok::<bool, GitregError>(false) && final(db)@ == old(db)@
            && final(db).writes() == old(db).writes(),
        autoprune_due(old(db)@, date@, time@) ==> exists|m1: DbModel, w1: Seq<Statement>|
            pruned_prefix(old(db)@, m1) && well_formed(m1) && pruning_writes(old(db)@, old(db).writes(), m1, w1)
                && final(db).writes() == w1.push(
                crate::db::setting_statement("last_autoprune_date"@, date@),
            ) && match res {
                Ok(ran) => ran && final(db)@ == with_settings(
                    m1,
                    set_value(m1.settings, "last_autoprune_date"@, date@),
                ),
                Err(e) => e is Database && final(db)@ == m1,
            },
{
    match db.is_autoprune_enabled() {
        Ok(true) => {},
        Ok(false) => return Ok(false),
        Err(e) => return Err(e),
    }
    let last = match db.get_last_autoprune_date() {
        Ok(l) => l,
        Err(e) => return Err(e),
    };
    let same_day = match &last {
        Some(l) => str_eq(l.as_str(), date),
        None => false,
    };
    assert(same_day == (opt_view(last) == Some(date@)));
    if same_day {
        return Ok(false);
    }
    let sched = match db.get_autoprune_time() {
        Ok(t) => t,
        Err(e) => return Err(e),
    };
    if compare_strs(time, sched.as_str()) == Order::Less {
        return Ok(false);
    }
    let ghost m0 = db@;
    let ghost w0 = db.writes();
    let pruned = db.prune();
    let ghost m1 = db@;
    proof {
        if let Ok(removed) = pruned {
            assert(pruning_writes(m0, w0, m1, db.writes()));
        } else {
            assert(pruning_writes(m0, w0, m1, db.writes()));
        }
    }
    match db.set_last_autoprune_date(date) {
        Ok(()) => Ok(true),
        Err(e) => Err(e),
    }
}


// ---------------------------------------------------------------------------
// Where things are kept
// ---------------------------------------------------------------------------

/// The database file: `gitreg.db` in `$GITREG_CONFIG_DIR` (`config_env`)
/// when that is set, else in `gitreg` under the user's configuration
/// directory.
pub open spec fn db_path_of(config_env: Option<Seq<char>>, config_dir: Option<Seq<char>>, sep: char) -> Option<
    Seq<char>,
> {
    match config_env {
        Some(e) => Some(join_path(e, "gitreg.db"@, sep)),
        None => match config_dir {
            Some(d) => Some(join_path(join_path(d, "gitreg"@, sep), "gitreg.db"@, sep)),
            None => None,
        },
    }
}

/// The database file; fails when no configuration directory is known.
pub fn db_path(config_env: Option<&str>, config_dir: Option<&str>, sep: char) -> (res: Result<
    String,
    GitregError,
>)
    ensures
        match db_path_of(crate::db::opt_str_view(config_env), crate::db::opt_str_view(config_dir), sep) {
            Some(p) => res matches Ok(s) && s@ == p,
            None => res matches Err(GitregError::NoConfigDir),
        },
{
    match config_env {
        Some(e) => Ok(join(e, "gitreg.db", sep)),
        None => match config_dir {
            Some(d) => {
                let g = join(d, "gitreg", sep);
                Ok(join(g.as_str(), "gitreg.db", sep))
            },
            None => Err(GitregError::NoConfigDir),
        },
    }
}

/// The log file of the hook, beside the database.
pub fn log_path(config_env: Option<&str>, config_dir: Option<&str>, sep: char) -> (r: Option<String>)
    ensures
        opt_view(r) == match crate::db::opt_str_view(config_env) {
            Some(e) => Some(join_path(e, "gitreg.log"@, sep)),
            None => match crate::db::opt_str_view(config_dir) {
                Some(d) => Some(join_path(join_path(d, "gitreg"@, sep), "gitreg.log"@, sep)),
                None => None,
            },
        },
{
    match config_env {
        Some(e) => Some(join(e, "gitreg.log", sep)),
        None => match config_dir {
            Some(d) => {
                let g = join(d, "gitreg", sep);
                Some(join(g.as_str(), "gitreg.log", sep))
            },
            None => None,
        },
    }
}

/// The operating systems that discovery knows common locations for.
#[derive(PartialEq, Eq, Structural, Clone, Copy, Debug)]
pub enum TargetOs {
    Windows,
    MacOs,
    Linux,
    Other,
}

/// The directories that discovery looks in (before those under
/// `go/src/github.com` on Linux, which depend on what is on disk).
pub open spec fn autoscan_roots(home: Option<Seq<char>>, os: TargetOs, sep: char) -> Seq<Seq<char>> {
    match home {
        None => Seq::empty(),
        Some(h) => match os {
            TargetOs::Windows => seq![
                join_path(h, "source/repos"@, sep),
                join_path(h, "Documents/GitHub"@, sep),
                join_path(h, "Projects"@, sep),
                "C:\\dev"@,
                "C:\\git"@,
            ],
            TargetOs::MacOs => seq![
                join_path(h, "Developer"@, sep),
                join_path(h, "Documents/GitHub"@, sep),
                join_path(h, "src"@, sep),
                join_path(h, "git"@, sep),
                join_path(h, "Projects"@, sep),
            ],
            TargetOs::Linux => seq![
                join_path(h, "git"@, sep),
                join_path(h, "projects"@, sep),
                join_path(h, "src"@, sep),
            ],
            TargetOs::Other => Seq::empty(),
        },
    }
}

/// The directories that automatic discovery looks in.
pub fn autoscan_paths(home: Option<&str>, os: TargetOs, sep: char) -> (r: Vec<String>)
    ensures
        views(r@) == autoscan_roots(crate::db::opt_str_view(home), os, sep),
{
    let mut v: Vec<String> = Vec::new();
    let h = match home {
        Some(h) => h,
        None => {
            assert(views(v@) =~= Seq::<Seq<char>>::empty());
            return v;
        },
    };
    match os {
        TargetOs::Windows => {
            v.push(join(h, "source/repos", sep));
            v.push(join(h, "Documents/GitHub", sep));
            v.push(join(h, "Projects", sep));
            v.push(copy_string("C:\\dev"));
            v.push(copy_string("C:\\git"));
        },
        TargetOs::MacOs => {
            v.push(join(h, "Developer", sep));
            v.push(join(h, "Documents/GitHub", sep));
            v.push(join(h, "src", sep));
            v.push(join(h, "git", sep));
            v.push(join(h, "Projects", sep));
        },
        TargetOs::Linux => {
            v.push(join(h, "git", sep));
            v.push(join(h, "projects", sep));
            v.push(join(h, "src", sep));
        },
        TargetOs::Other => {},
    }
    assert(views(v@) =~= autoscan_roots(crate::db::opt_str_view(home), os, sep));
    v
}

/// The directory whose subdirectories discovery also looks in on Linux.
pub fn go_github_dir(home: &str, sep: char) -> (r: String)
    ensures
        r@ == join_path(home@, "go/src/github.com"@, sep),
{
    join(home, "go/src/github.com", sep)
}

/// Directory names that discovery does not look into.
pub fn autoscan_skips(name: &str) -> (b: bool)
    ensures
        b == (name@ == "node_modules"@ || name@ == ".git"@),
{
    str_eq(name, "node_modules") || str_eq(name, ".git")
}

/// An autoscan target that is itself a repository is registered (unless
/// excluded) and not looked into: `Ok(Some(new))`; any other target is
/// looked into: `Ok(None)`, with nothing changed.
pub fn autoscan_target(db: &mut Database, path: &str, is_repo: bool) -> (res: Result<
    Option<bool>,
    GitregError,
>)
    requires
        well_formed(old(db)@),
    ensures
        well_formed(final(db)@),
        !is_repo ==> (res matches Ok(None)) && final(db)@ == old(db)@ && final(db).writes()
            == old(db).writes(),
        is_repo ==> !(res matches Ok(None)) && registration(
            old(db)@,
            old(db).writes(),
            final(db)@,
            final(db).writes(),
            path@,
            match res {
                Ok(Some(added)) => Ok(added),
                Ok(None) => Ok(false),
                Err(e) => Err(e),
            },
        ),
{
    if !is_repo {
        return Ok(None);
    }
    match register_unless_excluded(db, path) {
        Ok(added) => Ok(Some(added)),
        Err(e) => Err(e),
    }
}

/// Whether an entry of an autoscan target is registered: a directory that
/// is a repository, unless its name (`None`: not UTF-8) is one that
/// discovery skips.
pub fn autoscan_child_registers(name: Option<&str>, is_dir: bool, is_repo: bool) -> (b: bool)
    ensures
        b == (is_dir && is_repo && !(crate::db::opt_str_view(name) matches Some(n) && (n
            == "node_modules"@ || n == ".git"@))),
{
    let skipped = match name {
        Some(n) => autoscan_skips(n),
        None => false,
    };
    !skipped && is_dir && is_repo
}

// ---------------------------------------------------------------------------
// Scanning a directory tree
// ---------------------------------------------------------------------------

/// Deepest scan that may be asked for.
pub const MAX_SCAN_DEPTH: usize = 20;

/// A directory waiting to be scanned.
pub struct ScanEntry {
    /// Its path (as displayed, when it is not valid UTF-8).
    pub path: String,
    /// Whether `path` is the exact path, which it is unless the path is not
    /// valid UTF-8.
    pub exact: bool,
    /// How far below the starting directory it is.
    pub depth: usize,
}

impl View for ScanEntry {
    type V = (Seq<char>, bool, usize);

    open spec fn view(&self) -> (Seq<char>, bool, usize) {
        (self.path@, self.exact, self.depth)
    }
}

/// A breadth-first scan in progress: the directories still to visit, and
/// how many repositories were registered and how many warnings given.
pub struct ScanState {
    queue: VecDeque<ScanEntry>,
    found: u64,
    warnings: u64,
}

/// The abstract state of a scan.
pub struct ScanModel {
    pub pending: Seq<(Seq<char>, bool, usize)>,
    pub found: nat,
    pub warnings: nat,
}

impl View for ScanState {
    type V = ScanModel;

    closed spec fn view(&self) -> ScanModel {
        ScanModel {
            pending: views(self.queue@),
            found: self.found as nat,
            warnings: self.warnings as nat,
        }
    }
}

/// What to do with the directory just visited.
pub enum ScanStep {
    /// Nothing: it is excluded, or deep enough.
    Skip,
    /// Its path is not valid UTF-8; a warning was counted.
    NotUtf8,
    /// It is a repository, registered now for the first time.
    Registered,
    /// It is a repository that was registered already.
    Known,
    /// It is a repository, but registering it failed; a warning was counted.
    Failed(GitregError),
    /// Read its entries and add the subdirectories.
    Descend,
}

/// One more, stopping at the largest count.
pub open spec fn bump(n: nat) -> nat {
    if n < u64::MAX {
        n + 1
    } else {
        n
    }
}

fn bump_exec(n: u64) -> (r: u64)
    ensures
        r == bump(n as nat),
{
    if n < u64::MAX {
        n + 1
    } else {
        n
    }
}

impl ScanState {
    /// A scan that starts at `start` (`exact`: whether that is the exact
    /// path, which it is unless the path is not valid UTF-8).
    pub fn new(start: &str, exact: bool) -> (s: ScanState)
        ensures
            s@.pending == seq![(start@, exact, 0usize)],
            s@.found == 0,
            s@.warnings == 0,
    {
        let mut queue: VecDeque<ScanEntry> = VecDeque::new();
        let e = ScanEntry { path: copy_string(start), exact, depth: 0 };
        queue.push_back(e);
        let s = ScanState { queue, found: 0, warnings: 0 };
        assert(views(s.queue@) =~= seq![(start@, exact, 0usize)]);
        s
    }

    /// How many repositories the scan registered.
    pub fn found(&self) -> (n: u64)
        ensures
            n == self@.found,
    {
        self.found
    }

    /// How many warnings the scan gave.
    pub fn warnings(&self) -> (n: u64)
        ensures
            n == self@.warnings,
    {
        self.warnings
    }

    /// The next directory to visit, in the order they were added.
    pub fn next_dir(&mut self) -> (r: Option<(String, bool, usize)>)
        requires
        ensures
            final(self)@.found == old(self)@.found,
            final(self)@.warnings == old(self)@.warnings,
            old(self)@.pending.len() == 0 ==> r is None && final(self)@.pending == old(self)@.pending,
            old(self)@.pending.len() > 0 ==> (r matches Some((p, x, d)) && (p@, x, d)
                == old(self)@.pending[0]) && final(self)@.pending == old(self)@.pending.drop_first(),
    {
        let ghost q = self.queue@;
        match self.queue.pop_front() {
            Some(e) => {
                assert(views(self.queue@) =~= views(q).drop_first());
                Some((e.path, e.exact, e.depth))
            },
            None => None,
        }
    }

    /// Queues the entry `path` (with name `name`; `exact`: whether `path` is
    /// exactly its path) of the directory at `depth`, when it is a directory
    /// other than `.git`.
    pub fn add_entry(&mut self, path: &str, exact: bool, name: &str, is_dir: bool, depth: usize)
        requires
            depth < usize::MAX,
        ensures
            final(self)@.found == old(self)@.found,
            final(self)@.warnings == old(self)@.warnings,
            final(self)@.pending == if is_dir && name@ != ".git"@ {
                old(self)@.pending.push((path@, exact, (depth + 1) as usize))
            } else {
                old(self)@.pending
            },
    {
        if is_dir && !str_eq(name, ".git") {
            let e = ScanEntry { path: copy_string(path), exact, depth: depth + 1 };
            let ghost q = self.queue@;
            self.queue.push_back(e);
            proof {
                crate::order::lemma_views_push(q, e);
            }
        }
    }

    /// Counts a warning about a directory whose entries could not be read,
    /// unless reading it was not permitted.
    pub fn read_failed(&mut self, permission_denied: bool)
        ensures
            final(self)@.pending == old(self)@.pending,
            final(self)@.found == old(self)@.found,
            final(self)@.warnings == if permission_denied {
                old(self)@.warnings
            } else {
                bump(old(self)@.warnings)
            },
    {
        if !permission_denied {
            self.warnings = bump_exec(self.warnings);
        }
    }

    /// Visits the directory `path` (`exact`: whether that is its exact path)
    /// at `depth`: skipped when excluded, registered when it is a repository
    /// (`is_repo`), else to be read when above `max_depth`.
    pub fn visit(
        &mut self,
        db: &mut Database,
        exclusions: &[String],
        path: &str,
        exact: bool,
        depth: usize,
        max_depth: usize,
        is_repo: bool,
    ) -> (step: ScanStep)
        requires
            well_formed(old(db)@),
        ensures
            well_formed(final(db)@),
            final(self)@.pending == old(self)@.pending,
            !exact ==> step is NotUtf8 && final(db)@ == old(db)@ && final(self)@.found == old(self)@.found && final(self)@.warnings == bump(old(self)@.warnings),
            exact && excluded_by(path@, views(exclusions@), old(db)@.sep) ==> step is Skip && final(db)@ == old(db)@ && final(self)@ == old(self)@,
            exact && !excluded_by(path@, views(exclusions@), old(db)@.sep) && is_repo ==> match step {
                ScanStep::Registered => first_repo(old(db)@.repos, RepoKey::Path(path@)) is None
                    && (exists|id: i64, ts: i64|
                    ts >= 0 && first_repo(old(db)@.repos, RepoKey::Id(id)) is None && final(db)@
                        == upserted(old(db)@, path@, None, id, ts)) && final(self)@.found == bump(
                    old(self)@.found,
                ) && final(self)@.warnings == old(self)@.warnings,
                ScanStep::Known => first_repo(old(db)@.repos, RepoKey::Path(path@)) is Some && (exists|
                    id: i64,
                    ts: i64,
                | ts >= 0 && final(db)@ == upserted(old(db)@, path@, None, id, ts)) && final(self)@
                    == old(self)@,
                ScanStep::Failed(_) => final(db)@ == old(db)@ && final(self)@.found == old(self)@.found && final(self)@.warnings == bump(old(self)@.warnings),
                _ => false,
            },
            exact && !excluded_by(path@, views(exclusions@), old(db)@.sep) && !is_repo ==> final(db)@ == old(db)@ && final(self)@ == old(self)@ && (if depth >= max_depth {
                step is Skip
            } else {
                step is Descend
            }),
    {
        if !exact {
            self.warnings = bump_exec(self.warnings);
            return ScanStep::NotUtf8;
        }
        if db.is_path_excluded(path, exclusions) {
            return ScanStep::Skip;
        }
        if is_repo {
            return match db.upsert(path, None) {
                Ok(true) => {
                    self.found = bump_exec(self.found);
                    ScanStep::Registered
                },
                Ok(false) => ScanStep::Known,
                Err(e) => {
                    self.warnings = bump_exec(self.warnings);
                    ScanStep::Failed(e)
                },
            };
        }
        if depth >= max_depth {
            ScanStep::Skip
        } else {
            ScanStep::Descend
        }
    }

    /// The closing line of a scan.
    pub fn summary(&self) -> (s: String)
        ensures
            s@ == if self@.warnings > 0 {
                "\nDone. Registered "@ + crate::text::decimal(self@.found) + " repositories ("@
                    + crate::text::decimal(self@.warnings) + " warnings)."@
            } else {
                "\nDone. Registered "@ + crate::text::decimal(self@.found) + " repositories."@
            },
    {
        let f = crate::text::decimal_string(self.found as u128);
        let a = concat2("\nDone. Registered ", f.as_str());
        if self.warnings > 0 {
            let w = crate::text::decimal_string(self.warnings as u128);
            let b = concat2(a.as_str(), " repositories (");
            let c = concat2(b.as_str(), w.as_str());
            concat2(c.as_str(), " warnings).")
        } else {
            concat2(a.as_str(), " repositories.")
        }
    }
}


// ---------------------------------------------------------------------------
// What the listing reports
// ---------------------------------------------------------------------------

/// Whether any repository has an emergency push that was not dismissed.
pub fn has_emergency(records: &[crate::db::RepoRecord]) -> (b: bool)
    ensures
        b == exists|i: int| 0 <= i < records@.len() && (#[trigger] records@[i]).emergency_branch is Some,
{
    let mut i: usize = 0;
    while i < records.len()
        invariant
            i <= records@.len(),
            forall|j: int| 0 <= j < i ==> (#[trigger] records@[j]).emergency_branch is None,
        decreases records.len() - i,
    {
        if records[i].emergency_branch.is_some() {
            return true;
        }
        i = i + 1;
    }
    false
}

/// The parts joined with `sep` between them.
pub open spec fn joined(parts: Seq<Seq<char>>, sep: Seq<char>) -> Seq<char>
    decreases parts.len(),
{
    if parts.len() == 0 {
        Seq::empty()
    } else if parts.len() == 1 {
        parts[0]
    } else {
        joined(parts.drop_last(), sep) + sep + parts.last()
    }
}

/// Tags as the listing shows them: joined by `, `.
pub fn join_tags(tags: &[String]) -> (r: String)
    ensures
        r@ == joined(views(tags@), ", "@),
{
    let mut acc = copy_string("");
    proof {
        reveal_strlit("");
    }
    let mut i: usize = 0;
    while i < tags.len()
        invariant
            i <= tags@.len(),
            acc@ == joined(views(tags@).take(i as int), ", "@),
        decreases tags.len() - i,
    {
        let ghost v = views(tags@);
        assert(v.take(i + 1).drop_last() == v.take(i as int));
        assert(v.take(i + 1).last() == tags@[i as int]@);
        if i == 0 {
            acc = copy_string(tags[0].as_str());
            assert(v.take(1) =~= seq![tags@[0]@]);
        } else {
            let a = concat2(acc.as_str(), ", ");
            acc = concat2(a.as_str(), tags[i].as_str());
        }
        i = i + 1;
    }
    assert(views(tags@).take(tags@.len() as int) == views(tags@));
    acc
}

/// The line that counts the tracked repositories and excluded paths.
pub open spec fn ls_count_text(n_records: nat, n_exclusions: nat) -> Seq<char> {
    if n_records == 0 {
        if n_exclusions > 0 {
            "No repositories tracked yet ("@ + crate::text::decimal(n_exclusions) + " excluded paths)."@
        } else {
            "No repositories tracked yet."@
        }
    } else if n_exclusions > 0 {
        crate::text::decimal(n_records) + " git dirs ("@ + crate::text::decimal(n_exclusions)
            + " excluded paths)"@
    } else {
        crate::text::decimal(n_records) + " git dirs"@
    }
}

/// The listing's first line.
pub fn ls_count_line(n_records: usize, n_exclusions: usize) -> (s: String)
    ensures
        s@ == ls_count_text(n_records as nat, n_exclusions as nat),
{
    let r = crate::text::decimal_string(n_records as u128);
    let e = crate::text::decimal_string(n_exclusions as u128);
    if n_records == 0 {
        if n_exclusions > 0 {
            let a = concat2("No repositories tracked yet (", e.as_str());
            concat2(a.as_str(), " excluded paths).")
        } else {
            copy_string("No repositories tracked yet.")
        }
    } else if n_exclusions > 0 {
        let a = concat2(r.as_str(), " git dirs (");
        let b = concat2(a.as_str(), e.as_str());
        concat2(b.as_str(), " excluded paths)")
    } else {
        concat2(r.as_str(), " git dirs")
    }
}

/// The line that closes a pruning.
pub fn pruned_message(n: usize) -> (s: String)
    ensures
        s@ == "Pruned "@ + crate::text::decimal(n as nat) + " entr"@ + (if n == 1 {
            "y"@
        } else {
            "ies"@
        }) + "."@,
{
    let d = crate::text::decimal_string(n as u128);
    let a = concat2("Pruned ", d.as_str());
    let b = concat2(a.as_str(), " entr");
    let c = concat2(b.as_str(), if n == 1 { "y" } else { "ies" });
    concat2(c.as_str(), ".")
}

/// The line that reports the registrations an exclusion removed.
pub fn excluded_pruned_message(n: usize) -> (s: String)
    ensures
        s@ == "Pruned "@ + crate::text::decimal(n as nat) + " existing registr"@ + (if n == 1 {
            "ation"@
        } else {
            "ations"@
        }) + " matching this exclusion."@,
{
    let d = crate::text::decimal_string(n as u128);
    let a = concat2("Pruned ", d.as_str());
    let b = concat2(a.as_str(), " existing registr");
    let c = concat2(b.as_str(), if n == 1 { "ation" } else { "ations" });
    concat2(c.as_str(), " matching this exclusion.")
}

// ---------------------------------------------------------------------------
// Running git across repositories
// ---------------------------------------------------------------------------

/// The name a repository is shown by: its `owner/repo` name, else its path.
pub fn display_name(name: Option<&str>, path: &str) -> (r: String)
    ensures
        r@ == match crate::db::opt_str_view(name) {
            Some(n) => n,
            None => path@,
        },
{
    match name {
        Some(n) => copy_string(n),
        None => copy_string(path),
    }
}

/// The prefix of each output line of a repository when output is shown as
/// it comes.
pub fn realtime_prefix(name: &str) -> (r: String)
    ensures
        r@ == "["@ + name@ + "] "@,
{
    let a = concat2("[", name);
    concat2(a.as_str(), "] ")
}

/// `out` followed by `part`, then a newline when the result does not end
/// with one; `out` unchanged when `part` is empty.
pub open spec fn with_part(out: Seq<char>, part: Seq<char>) -> Seq<char> {
    if part.len() == 0 {
        out
    } else if (out + part).last() != '\n' {
        (out + part).push('\n')
    } else {
        out + part
    }
}

fn with_part_exec(out: &str, part: &str) -> (r: String)
    ensures
        r@ == with_part(out@, part@),
{
    let p = chars_of(part);
    if p.len() == 0 {
        return copy_string(out);
    }
    let joined = concat2(out, part);
    let mut v = chars_of(joined.as_str());
    if v[v.len() - 1] != '\n' {
        v.push('\n');
    }
    string_of(v.as_slice())
}

/// What a repository's run of git prints when its output is collected:
/// a header with its name, then its standard output and its error output,
/// each ended by a newline.
pub fn buffered_report(name: &str, stdout: &str, stderr: &str) -> (r: String)
    ensures
        r@ == with_part(with_part("=== "@ + name@ + " ===\n"@, stdout@), stderr@),
{
    let a = concat2("=== ", name);
    let h = concat2(a.as_str(), " ===\n");
    let o = with_part_exec(h.as_str(), stdout);
    with_part_exec(o.as_str(), stderr)
}

/// What is printed for a repository where git could not be started.
pub fn failed_start_report(name: &str, error: &str) -> (r: String)
    ensures
        r@ == "=== "@ + name@ + " ===\n"@ + "Error: "@ + error@ + "\n"@,
{
    let a = concat2("=== ", name);
    let h = concat2(a.as_str(), " ===\n");
    let b = concat2(h.as_str(), "Error: ");
    let c = concat2(b.as_str(), error);
    concat2(c.as_str(), "\n")
}

/// How one repository's run of git ended.
pub struct ExecOutcome {
    pub repo: crate::db::RepoRecord,
    pub success: bool,
    pub exit_code: Option<i32>,
}

impl View for ExecOutcome {
    type V = (crate::db::RepoModel, bool, Option<i32>);

    open spec fn view(&self) -> (crate::db::RepoModel, bool, Option<i32>) {
        (self.repo@, self.success, self.exit_code)
    }
}

impl crate::order::Ranked for ExecOutcome {
    open spec fn ranks_before(a: (crate::db::RepoModel, bool, Option<i32>), b: (
        crate::db::RepoModel,
        bool,
        Option<i32>,
    )) -> bool {
        a.0.id < b.0.id
    }

    fn before(&self, other: &Self) -> (r: bool) {
        self.repo.id < other.repo.id
    }

    proof fn lemma_strict_order(
        a: (crate::db::RepoModel, bool, Option<i32>),
        b: (crate::db::RepoModel, bool, Option<i32>),
        c: (crate::db::RepoModel, bool, Option<i32>),
    ) {
    }
}

/// The outcomes of a batch ordered by repository id.
pub fn order_outcomes(results: Vec<ExecOutcome>) -> (r: Vec<ExecOutcome>)
    ensures
        crate::order::sorted_by_rank::<ExecOutcome>(views(r@)),
        views(r@).to_multiset() == views(results@).to_multiset(),
{
    crate::order::sort_ranked(results)
}

/// The outcomes that failed, in their order.
pub open spec fn failures(s: Seq<(crate::db::RepoModel, bool, Option<i32>)>) -> Seq<
    (crate::db::RepoModel, bool, Option<i32>),
> {
    s.filter(|o: (crate::db::RepoModel, bool, Option<i32>)| !o.1)
}

/// Splits off the failed runs, in order.
pub fn failed_outcomes(results: Vec<ExecOutcome>) -> (r: Vec<ExecOutcome>)
    ensures
        views(r@) == failures(views(results@)),
{
    let ghost all = views(results@);
    let mut rest = results;
    let mut out: Vec<ExecOutcome> = Vec::new();
    let mut taken: usize = 0;
    let ghost n = rest@.len();
    assert(n == rest.len());
    while rest.len() > 0
        invariant
            taken + rest@.len() == n,
            n == all.len(),
            n <= usize::MAX,
            views(rest@) == all.skip(taken as int),
            views(out@) == failures(all.take(taken as int)),
        decreases rest.len(),
    {
        let ghost before = rest@;
        let o = rest.remove(0);
        proof {
            crate::order::lemma_views_remove(before, 0);
            assert(views(before)[0] == o@);
            assert(all.skip(taken as int)[0] == all[taken as int]);
            assert(all.take(taken + 1).drop_last() == all.take(taken as int));
            assert(all.take(taken + 1).last() == o@);
            assert(all.skip(taken as int).drop_first() == all.skip(taken + 1));
            reveal(Seq::filter);
        }
        if !o.success {
            let ghost prev = out@;
            out.push(o);
            proof {
                crate::order::lemma_views_push(prev, o);
            }
        }
        taken = taken + 1;
    }
    assert(all.take(n as int) == all);
    out
}

/// The line that counts successes and failures after a batch.
pub fn batch_summary(n_total: usize, n_failed: usize) -> (s: String)
    requires
        n_failed <= n_total,
    ensures
        s@ == "\nSummary: "@ + crate::text::decimal((n_total - n_failed) as nat) + " succeeded, "@
            + crate::text::decimal(n_failed as nat) + " failed"@,
{
    let ok = crate::text::decimal_string((n_total - n_failed) as u128);
    let bad = crate::text::decimal_string(n_failed as u128);
    let a = concat2("\nSummary: ", ok.as_str());
    let b = concat2(a.as_str(), " succeeded, ");
    let c = concat2(b.as_str(), bad.as_str());
    concat2(c.as_str(), " failed")
}

/// The line for a failed repository: id, name and exit code (1 when the
/// process gave none).
pub fn failure_line(id: i64, name: &str, exit_code: Option<i32>) -> (s: String)
    ensures
        s@ == "  ["@ + crate::text::signed_decimal(id as int) + "] "@ + name@ + " -> Exit code "@
            + crate::text::signed_decimal(match exit_code {
            Some(c) => c as int,
            None => 1,
        }),
{
    let i = crate::text::signed_decimal_string(id);
    let code: i64 = match exit_code {
        Some(c) => c as i64,
        None => 1,
    };
    let c = crate::text::signed_decimal_string(code);
    let a = concat2("  [", i.as_str());
    let b = concat2(a.as_str(), "] ");
    let d = concat2(b.as_str(), name);
    let e = concat2(d.as_str(), " -> Exit code ");
    concat2(e.as_str(), c.as_str())
}

/// What to do after a batch with failures.
#[derive(PartialEq, Eq, Structural, Clone, Copy, Debug)]
pub enum RetryChoice {
    /// Run the failed repositories again.
    Retry,
    /// Open a shell in the first failed repository, then run them again.
    Shell,
    /// Stop.
    Quit,
}

/// The answer to the prompt after a batch: `r` or `s` (either case, blanks
/// around ignored), anything else quits.
pub open spec fn retry_choice_of(input: Seq<char>) -> RetryChoice {
    let t = crate::text::trim(input);
    if t == seq!['r'] || t == seq!['R'] {
        RetryChoice::Retry
    } else if t == seq!['s'] || t == seq!['S'] {
        RetryChoice::Shell
    } else {
        RetryChoice::Quit
    }
}

/// Reads the answer to the prompt after a batch.
pub fn parse_retry_choice(input: &str) -> (c: RetryChoice)
    ensures
        c == retry_choice_of(input@),
{
    let cs = chars_of(input);
    let t = crate::text::trimmed(cs.as_slice());
    if t.len() == 1 && (t[0] == 'r' || t[0] == 'R') {
        assert(t@ =~= seq![t@[0]]);
        RetryChoice::Retry
    } else if t.len() == 1 && (t[0] == 's' || t[0] == 'S') {
        assert(t@ =~= seq![t@[0]]);
        RetryChoice::Shell
    } else {
        proof {
            if t@.len() == 1 {
                assert(seq!['r'][0] == 'r');
                assert(seq!['R'][0] == 'R');
                assert(seq!['s'][0] == 's');
                assert(seq!['S'][0] == 'S');
            }
        }
        RetryChoice::Quit
    }
}

// ---------------------------------------------------------------------------
// Uninstalling
// ---------------------------------------------------------------------------

/// Whether the answer confirms uninstalling: `UNINSTALL`, blanks around it
/// ignored.
pub fn confirms_uninstall(input: &str) -> (b: bool)
    ensures
        b == (crate::text::trim(input@) == "UNINSTALL"@),
{
    let cs = chars_of(input);
    let t = crate::text::trimmed(cs.as_slice());
    let u = chars_of("UNINSTALL");
    crate::text::compare_chars(t.as_slice(), u.as_slice()) == Order::Equal
}

} // verus!
