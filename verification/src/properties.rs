//! Properties of the registry and of the shell integration that hold across
//! operations, stated over the models that the operations' contracts use.
use vstd::prelude::*;
use crate::db::{
    autoprune_enabled, excluded_by, first_repo, key_position, keys_ok, kept, lemma_first_repo,
    lemma_key_position, lemma_kept_subset, lemma_position, lemma_set_value_ok, lemma_unique_id,
    lemma_unique_path, position, removes, repo_matches, repos_ok, set_value, tagged, under,
    untagged, upserted, value_of, well_formed, with_settings, DbModel, RepoKey, RepoModel,
    Removal,
};
use crate::commands::autoprune_due;
use crate::db::{add_unseen, listed, resolve_piece, resolve_pieces, resolve_target_spec, tagged_records};
use crate::text::{split, trim};
use crate::db::{
    active_listeners, all_integrations, app_integrations, app_position, apps_with,
    lemma_app_position, registered, set_blocked, unregistered, AppModel, IntegrationModel,
};
use crate::shell::{
    appended, bash_zsh_alias_text, bash_zsh_shim_text, ALIAS_GUARD_END, ALIAS_GUARD_START, GUARD_END,
    GUARD_START,
};
use crate::text::{contains, find_char, find_from, lemma_contains, lemma_find_from, lines, matches_at, strip_cr};
use crate::shell::{kept_lines, single_final_newline, without_block};

verus! {

// ---------------------------------------------------------------------------
// Registering repositories
// ---------------------------------------------------------------------------

/// After a path is registered it is known: registering it again reports it
/// as not new, and it can be found by its path.
pub proof fn registered_path_is_known(
    m: DbModel,
    path: Seq<char>,
    name: Option<Seq<char>>,
    id: i64,
    ts: i64,
)
    requires
        well_formed(m),
    ensures
        first_repo(upserted(m, path, name, id, ts).repos, RepoKey::Path(path)) is Some,
{
    let after = upserted(m, path, name, id, ts).repos;
    lemma_first_repo(m.repos, RepoKey::Path(path));
    lemma_first_repo(after, RepoKey::Path(path));
    match first_repo(m.repos, RepoKey::Path(path)) {
        Some(i) => {
            assert(repo_matches(after[i], RepoKey::Path(path)));
        },
        None => {
            assert(repo_matches(after[after.len() - 1], RepoKey::Path(path)));
        },
    }
}

/// Registering a known path again keeps its id, tags and emergency branch,
/// records the new time, and keeps its name unless a new one is given.
pub proof fn reregistering_keeps_the_entry(
    m: DbModel,
    path: Seq<char>,
    name: Option<Seq<char>>,
    id: i64,
    ts: i64,
    i: int,
)
    requires
        well_formed(m),
        first_repo(m.repos, RepoKey::Path(path)) == Some(i),
    ensures
        ({
            let r = upserted(m, path, name, id, ts).repos;
            &&& r.len() == m.repos.len()
            &&& r[i].id == m.repos[i].id
            &&& r[i].path == path
            &&& r[i].tags == m.repos[i].tags
            &&& r[i].emergency_branch == m.repos[i].emergency_branch
            &&& r[i].last_seen == ts
            &&& r[i].name == match name {
                Some(n) => Some(n),
                None => m.repos[i].name,
            }
        }),
{
    lemma_first_repo(m.repos, RepoKey::Path(path));
}

/// Registering a new path adds one entry, with the given name and time and
/// no tags, after the existing ones, which are unchanged.
pub proof fn registering_new_path_appends(
    m: DbModel,
    path: Seq<char>,
    name: Option<Seq<char>>,
    id: i64,
    ts: i64,
)
    requires
        well_formed(m),
        first_repo(m.repos, RepoKey::Path(path)) is None,
    ensures
        ({
            let r = upserted(m, path, name, id, ts).repos;
            &&& r.len() == m.repos.len() + 1
            &&& r.take(m.repos.len() as int) == m.repos
            &&& r.last().path == path
            &&& r.last().name == name
            &&& r.last().last_seen == ts
            &&& r.last().tags.len() == 0
            &&& r.last().emergency_branch is None
        }),
{
    let r = upserted(m, path, name, id, ts).repos;
    assert(r.take(m.repos.len() as int) =~= m.repos);
}

/// The first time git runs in a repository that is not excluded, the hook
/// (`hook::run`, which registers it as `upserted` with the name found in its
/// configuration) adds it: the path is found afterwards, as the newest
/// entry, under that name.
pub proof fn hook_registers_new_repository(
    m: DbModel,
    canonical: Seq<char>,
    git_config: Option<Seq<char>>,
    id: i64,
    ts: i64,
)
    requires
        well_formed(m),
        !excluded_by(canonical, m.exclusions, m.sep),
        first_repo(m.repos, RepoKey::Path(canonical)) is None,
    ensures
        ({
            let r = upserted(m, canonical, crate::hook::repo_name_of(git_config), id, ts).repos;
            &&& first_repo(r, RepoKey::Path(canonical)) == Some(m.repos.len() as int)
            &&& r[m.repos.len() as int].name == crate::hook::repo_name_of(git_config)
            &&& r[m.repos.len() as int].last_seen == ts
        }),
{
    let name = crate::hook::repo_name_of(git_config);
    let r = upserted(m, canonical, name, id, ts).repos;
    registering_new_path_appends(m, canonical, name, id, ts);
    lemma_first_repo(m.repos, RepoKey::Path(canonical));
    lemma_first_repo(r, RepoKey::Path(canonical));
    assert forall|j: int| 0 <= j < m.repos.len() implies !repo_matches(#[trigger] r[j], RepoKey::Path(canonical)) by {
        assert(r[j] == m.repos[j]);
    }
    assert(repo_matches(r[m.repos.len() as int], RepoKey::Path(canonical)));
}

/// A removed repository can no longer be found by its id or its path.
pub proof fn removed_repository_is_gone(m: DbModel, i: int)
    requires
        well_formed(m),
        0 <= i < m.repos.len(),
    ensures
        first_repo(m.repos.remove(i), RepoKey::Id(m.repos[i].id)) is None,
        first_repo(m.repos.remove(i), RepoKey::Path(m.repos[i].path)) is None,
{
    let r = m.repos.remove(i);
    lemma_first_repo(r, RepoKey::Id(m.repos[i].id));
    lemma_first_repo(r, RepoKey::Path(m.repos[i].path));
    match first_repo(r, RepoKey::Id(m.repos[i].id)) {
        Some(j) => {
            if j < i {
                assert(r[j] == m.repos[j]);
                assert(m.repos[j].id != m.repos[i].id);
            } else {
                assert(r[j] == m.repos[j + 1]);
                assert(m.repos[i].id != m.repos[j + 1].id);
            }
        },
        None => {},
    }
    match first_repo(r, RepoKey::Path(m.repos[i].path)) {
        Some(j) => {
            if j < i {
                assert(r[j] == m.repos[j]);
                assert(m.repos[j].path != m.repos[i].path);
            } else {
                assert(r[j] == m.repos[j + 1]);
                assert(m.repos[i].path != m.repos[j + 1].path);
            }
        },
        None => {},
    }
}

// ---------------------------------------------------------------------------
// Tags
// ---------------------------------------------------------------------------

/// After tagging a repository it carries the tag; tagging it again changes
/// nothing.
pub proof fn tagging_adds_the_tag_once(m: DbModel, id: i64, tag: Seq<char>, i: int)
    requires
        well_formed(m),
        first_repo(m.repos, RepoKey::Id(id)) == Some(i),
    ensures
        tagged(m, id, tag).repos[i].tags.contains(tag),
        tagged(tagged(m, id, tag), id, tag) == tagged(m, id, tag),
{
    lemma_first_repo(m.repos, RepoKey::Id(id));
    let t = tagged(m, id, tag);
    if !m.repos[i].tags.contains(tag) {
        assert(t.repos[i].tags[t.repos[i].tags.len() - 1] == tag);
    }
    lemma_first_repo(t.repos, RepoKey::Id(id));
    assert(repo_matches(t.repos[i], RepoKey::Id(id)));
    assert forall|j: int| 0 <= j < i implies !repo_matches(#[trigger] t.repos[j], RepoKey::Id(id)) by {
        assert(t.repos[j] == m.repos[j]);
    }
    assert(first_repo(t.repos, RepoKey::Id(id)) == Some(i));
}

/// Removing a tag that was just added gives back the repository as it was.
pub proof fn untagging_undoes_tagging(m: DbModel, id: i64, tag: Seq<char>, i: int)
    requires
        well_formed(m),
        first_repo(m.repos, RepoKey::Id(id)) == Some(i),
        !m.repos[i].tags.contains(tag),
    ensures
        untagged(tagged(m, id, tag), id, tag) == m,
{
    lemma_first_repo(m.repos, RepoKey::Id(id));
    let t = tagged(m, id, tag);
    lemma_first_repo(t.repos, RepoKey::Id(id));
    assert(repo_matches(t.repos[i], RepoKey::Id(id)));
    assert forall|j: int| 0 <= j < i implies !repo_matches(#[trigger] t.repos[j], RepoKey::Id(id)) by {
        assert(t.repos[j] == m.repos[j]);
    }
    assert(first_repo(t.repos, RepoKey::Id(id)) == Some(i));
    let tags = m.repos[i].tags;
    let pushed = tags.push(tag);
    lemma_position(pushed, tag);
    lemma_position(tags, tag);
    match position(pushed, tag) {
        Some(k) => {
            if k < tags.len() {
                assert(pushed[k] == tags[k]);
            }
            assert(k == tags.len());
        },
        None => {
            assert(pushed[tags.len() as int] == tag);
        },
    }
    assert(pushed.remove(tags.len() as int) =~= tags);
    assert(untagged(t, id, tag).repos =~= m.repos);
}

// ---------------------------------------------------------------------------
// Settings
// ---------------------------------------------------------------------------

/// Reading a setting gives back the value last written to it; writing one
/// setting leaves the others as they were.
pub proof fn setting_reads_back(s: Seq<(Seq<char>, Seq<char>)>, key: Seq<char>, value: Seq<char>)
    requires
        keys_ok(s),
    ensures
        value_of(set_value(s, key, value), key) == Some(value),
        forall|other: Seq<char>|
            other != key ==> value_of(set_value(s, key, value), other) == value_of(s, other),
{
    lemma_set_value_ok(s, key, value);
}

/// Once the daily pruning has recorded that it ran on a date, it is not due
/// again on that date.
pub proof fn autoprune_runs_once_a_day(m: DbModel, date: Seq<char>, time: Seq<char>)
    requires
        well_formed(m),
    ensures
        !autoprune_due(
            with_settings(m, set_value(m.settings, "last_autoprune_date"@, date)),
            date,
            time,
        ),
{
    lemma_set_value_ok(m.settings, "last_autoprune_date"@, date);
}
/// Daily pruning is on, at midnight, until configured otherwise; it is due
/// on a day exactly when it is on, has not run that day and the time of day
/// has reached the scheduled time.
pub proof fn autoprune_defaults_and_due(m: DbModel, date: Seq<char>, time: Seq<char>)
    ensures
        value_of(m.settings, "autoprune_enabled"@) is None ==> autoprune_enabled(m),
        value_of(m.settings, "autoprune_enabled"@) == Some("false"@) ==> !autoprune_enabled(m),
        value_of(m.settings, "autoprune_time"@) is None ==> crate::db::autoprune_time(m) == "00:00"@,
        !autoprune_enabled(m) ==> !autoprune_due(m, date, time),
        value_of(m.settings, "last_autoprune_date"@) == Some(date) ==> !autoprune_due(m, date, time),
        crate::text::lex_lt(time, crate::db::autoprune_time(m)) ==> !autoprune_due(m, date, time),
        autoprune_enabled(m) && value_of(m.settings, "last_autoprune_date"@) != Some(date)
            && !crate::text::lex_lt(time, crate::db::autoprune_time(m)) ==> autoprune_due(m, date, time),
{
    reveal_strlit("false");
    reveal_strlit("true");
    assert("false"@.len() != "true"@.len());
}

/// The database is `gitreg.db` in `$GITREG_CONFIG_DIR` when that is set,
/// whatever the configuration directory; otherwise `gitreg/gitreg.db` under
/// the configuration directory; with neither there is none.
pub proof fn database_location(env: Seq<char>, config: Option<Seq<char>>, sep: char)
    ensures
        crate::commands::db_path_of(Some(env), config, sep) == Some(crate::shell::join_path(env, "gitreg.db"@, sep)),
        config matches Some(d) ==> crate::commands::db_path_of(None, config, sep) == Some(
            crate::shell::join_path(crate::shell::join_path(d, "gitreg"@, sep), "gitreg.db"@, sep),
        ),
        crate::commands::db_path_of(None, None, sep) is None,
{
}


// ---------------------------------------------------------------------------
// Exclusions and pruning
// ---------------------------------------------------------------------------

/// An excluded path is excluded, and so is every path below it.
pub proof fn exclusion_covers_its_tree(
    exclusions: Seq<Seq<char>>,
    excl: Seq<char>,
    sep: char,
    rest: Seq<char>,
)
    requires
        exclusions.contains(excl),
    ensures
        excluded_by(excl, exclusions, sep),
        excluded_by(crate::db::exclusion_prefix(excl, sep) + rest, exclusions, sep),
{
    let k = choose|k: int| 0 <= k < exclusions.len() && exclusions[k] == excl;
    let p = crate::db::exclusion_prefix(excl, sep);
    assert((p + rest).subrange(0, p.len() as int) =~= p);
    assert(under(excl, exclusions[k], sep));
    assert(under(p + rest, exclusions[k], sep));
}

/// After the repositories under an excluded path are removed, none of the
/// remaining ones lies under it, and all of them were there before.
pub proof fn nothing_remains_under_exclusion(repos: Seq<RepoModel>, excl: Seq<char>, sep: char)
    ensures
        forall|i: int|
            0 <= i < kept(repos, Removal::Under { exclusion: excl, sep }).len() ==> {
                let r = #[trigger] kept(repos, Removal::Under { exclusion: excl, sep })[i];
                !under(r.path, excl, sep) && repos.contains(r)
            },
{
    lemma_kept_subset(repos, Removal::Under { exclusion: excl, sep });
}

/// After pruning, no remaining repository is missing or excluded, and all
/// of them were there before.
pub proof fn pruning_leaves_present_unexcluded(
    repos: Seq<RepoModel>,
    missing: Seq<Seq<char>>,
    exclusions: Seq<Seq<char>>,
    sep: char,
)
    ensures
        forall|i: int|
            0 <= i < kept(repos, Removal::Prune { missing, exclusions, sep }).len() ==> {
                let r = #[trigger] kept(repos, Removal::Prune { missing, exclusions, sep })[i];
                !missing.contains(r.path) && !excluded_by(r.path, exclusions, sep) && repos.contains(r)
            },
{
    lemma_kept_subset(repos, Removal::Prune { missing, exclusions, sep });
}
proof fn lemma_dropped_paths(repos: Seq<RepoModel>, c: Removal)
    requires
        repos_ok(repos),
    ensures
        forall|p: Seq<char>|
            crate::db::dropped_paths(repos, c).contains(p) <==> exists|i: int|
                0 <= i < repos.len() && #[trigger] repos[i].path == p && removes(c, repos[i]),
        crate::db::dropped_paths(repos, c).no_duplicates(),
        forall|i: int| 0 <= i < repos.len() && !removes(c, repos[i]) ==> kept(repos, c).contains(#[trigger] repos[i]),
    decreases repos.len(),
{
    if repos.len() > 0 {
        let rest = repos.drop_last();
        assert(repos_ok(rest)) by {
            assert forall|i: int, j: int| 0 <= i < j < rest.len() implies #[trigger] rest[i].id
                != #[trigger] rest[j].id && rest[i].path != rest[j].path by {
                assert(rest[i] == repos[i] && rest[j] == repos[j]);
                assert(repos[i].id != repos[j].id);
            }
            assert forall|i: int| 0 <= i < rest.len() implies (#[trigger] rest[i]).tags.no_duplicates() by {
                assert(rest[i] == repos[i]);
            }
        }
        lemma_dropped_paths(rest, c);
        let last = repos.last();
        let d0 = crate::db::dropped_paths(rest, c);
        let d = crate::db::dropped_paths(repos, c);
        let k0 = kept(rest, c);
        let n = repos.len() - 1;
        assert(repos[n] == last);
        assert forall|i: int| 0 <= i < n implies #[trigger] rest[i] == repos[i] by {}
        assert forall|p: Seq<char>| d.contains(p) <==> exists|i: int|
            0 <= i < repos.len() && #[trigger] repos[i].path == p && removes(c, repos[i]) by {
            if d.contains(p) {
                if d0.contains(p) {
                    let i = choose|i: int| 0 <= i < rest.len() && #[trigger] rest[i].path == p && removes(c, rest[i]);
                    assert(repos[i].path == p);
                } else {
                    assert(removes(c, last) && p == last.path);
                    assert(repos[n].path == p);
                }
            }
            if exists|i: int| 0 <= i < repos.len() && #[trigger] repos[i].path == p && removes(c, repos[i]) {
                let i = choose|i: int| 0 <= i < repos.len() && #[trigger] repos[i].path == p && removes(c, repos[i]);
                if i < n {
                    assert(rest[i].path == p);
                    assert(d0.contains(p));
                    if removes(c, last) {
                        assert(d == d0.push(last.path));
                        let j = choose|j: int| 0 <= j < d0.len() && d0[j] == p;
                        assert(d[j] == p);
                    }
                } else {
                    assert(d == d0.push(last.path));
                    assert(d[d.len() - 1] == p);
                }
            }
        }
        if removes(c, last) {
            assert(!d0.contains(last.path)) by {
                if d0.contains(last.path) {
                    let i = choose|i: int| 0 <= i < rest.len() && #[trigger] rest[i].path == last.path && removes(c, rest[i]);
                    assert(rest[i] == repos[i]);
                    assert(repos[i].id != repos[n].id);
                    assert(repos[i].path != repos[n].path);
                }
            }
            assert forall|x: int, y: int| 0 <= x < d.len() && 0 <= y < d.len() && x != y implies d[x] != d[y] by {
                if x == d.len() - 1 {
                    assert(d0.contains(d[y]) || d[y] != d[x]);
                } else if y == d.len() - 1 {
                    assert(d0.contains(d[x]) || d[y] != d[x]);
                } else {
                    assert(d[x] == d0[x] && d[y] == d0[y]);
                }
            }
        } else {
            assert(kept(repos, c) == k0.push(last));
        }
        assert forall|i: int| 0 <= i < repos.len() && !removes(c, repos[i]) implies kept(repos, c).contains(#[trigger] repos[i]) by {
            if i < n {
                assert(k0.contains(rest[i]));
                let j = choose|j: int| 0 <= j < k0.len() && k0[j] == rest[i];
                if removes(c, last) {
                    assert(kept(repos, c) == k0);
                } else {
                    assert(kept(repos, c)[j] == k0[j]);
                }
            } else {
                assert(kept(repos, c)[kept(repos, c).len() - 1] == last);
            }
        }
    }
}

/// A pruning (with `missing` as the paths found missing) reports each
/// removed path once: exactly the registered paths that are missing or
/// excluded; every other repository stays, unchanged.
pub proof fn pruning_reports_each_removed_path_once(m: DbModel, missing: Seq<Seq<char>>)
    requires
        well_formed(m),
    ensures
        ({
            let c = crate::db::prune_removal(m, missing);
            let d = crate::db::dropped_paths(m.repos, c);
            &&& d.no_duplicates()
            &&& forall|p: Seq<char>|
                d.contains(p) <==> exists|i: int|
                    0 <= i < m.repos.len() && #[trigger] m.repos[i].path == p && (missing.contains(p)
                        || excluded_by(p, m.exclusions, m.sep))
            &&& forall|i: int|
                0 <= i < m.repos.len() && !missing.contains(m.repos[i].path) && !excluded_by(
                    m.repos[i].path,
                    m.exclusions,
                    m.sep,
                ) ==> kept(m.repos, c).contains(#[trigger] m.repos[i])
        }),
{
    let c = crate::db::prune_removal(m, missing);
    lemma_dropped_paths(m.repos, c);
}


// ---------------------------------------------------------------------------
// The shell integration
// ---------------------------------------------------------------------------

/// `block` occurs in `appended(existing, block)`.
proof fn lemma_appended_contains(existing: Seq<char>, block: Seq<char>)
    ensures
        forall|p: Seq<char>| contains(block, p) ==> contains(appended(existing, block), p),
{
    let base = if existing.len() > 0 && existing.last() != '\n' {
        existing.push('\n')
    } else {
        existing
    };
    let a = appended(existing, block);
    let off = base.len() + 1;
    assert(a == base.push('\n') + block + seq!['\n']);
    assert forall|p: Seq<char>| contains(block, p) implies contains(a, p) by {
        lemma_contains(block, p);
        let j = choose|j: int| matches_at(block, p, j);
        assert(a.subrange(off + j, off + j + p.len()) =~= block.subrange(j, j + p.len()));
        assert(matches_at(a, p, off + j));
        lemma_contains(a, p);
    }
}

/// After the shim is written into a start-up file, writing it again is
/// refused: the file holds the shim's first line.
pub proof fn shim_is_written_once(existing: Seq<char>)
    ensures
        contains(appended(existing, bash_zsh_shim_text()), GUARD_START@),
{
    lemma_appended_contains(existing, bash_zsh_shim_text());
    let t = bash_zsh_shim_text();
    assert(t.subrange(0, GUARD_START@.len() as int) =~= GUARD_START@);
    assert(matches_at(t, GUARD_START@, 0));
    lemma_contains(t, GUARD_START@);
}

/// After the alias is written into a start-up file it counts as enabled, and
/// writing it again changes nothing.
pub proof fn alias_is_written_once(existing: Seq<char>)
    ensures
        contains(appended(existing, bash_zsh_alias_text()), ALIAS_GUARD_START@),
{
    lemma_appended_contains(existing, bash_zsh_alias_text());
    let t = bash_zsh_alias_text();
    assert(t.subrange(0, ALIAS_GUARD_START@.len() as int) =~= ALIAS_GUARD_START@);
    assert(matches_at(t, ALIAS_GUARD_START@, 0));
    lemma_contains(t, ALIAS_GUARD_START@);
}


// ---------------------------------------------------------------------------
// Integrator applications
// ---------------------------------------------------------------------------

/// `app_position` only looks at names.
proof fn lemma_app_position_same_names(a: Seq<AppModel>, b: Seq<AppModel>, name: Seq<char>)
    requires
        a.len() == b.len(),
        forall|j: int| 0 <= j < a.len() ==> (#[trigger] a[j]).name == b[j].name,
    ensures
        app_position(a, name) == app_position(b, name),
    decreases a.len(),
{
    if a.len() > 0 {
        lemma_app_position_same_names(a.drop_last(), b.drop_last(), name);
    }
}

/// A socket that an application not blocked has registered for `event` is
/// among those notified of it.
proof fn lemma_active_contains(apps: Seq<AppModel>, event: Seq<char>, i: int, k: int)
    requires
        0 <= i < apps.len(),
        !apps[i].blocked,
        key_position(apps[i].listeners, event) == Some(k),
    ensures
        active_listeners(apps, event).contains(apps[i].listeners[k].1),
    decreases apps.len(),
{
    let rest = apps.drop_last();
    if i < apps.len() - 1 {
        assert(rest[i] == apps[i]);
        lemma_active_contains(rest, event, i, k);
        let s = active_listeners(rest, event);
        let j = choose|j: int| 0 <= j < s.len() && s[j] == apps[i].listeners[k].1;
        let t = active_listeners(apps, event);
        assert(t[j] == s[j]);
    } else {
        let t = active_listeners(apps, event);
        assert(t[t.len() - 1] == apps[i].listeners[k].1);
    }
}

/// Every socket notified of `event` belongs to an application that is not
/// blocked and registered it for `event`.
proof fn lemma_active_sources(apps: Seq<AppModel>, event: Seq<char>)
    ensures
        forall|s: Seq<char>|
            active_listeners(apps, event).contains(s) ==> exists|i: int, k: int|
                0 <= i < apps.len() && !apps[i].blocked && key_position(apps[i].listeners, event)
                    == Some(k) && #[trigger] apps[i].listeners[k].1 == s,
    decreases apps.len(),
{
    if apps.len() > 0 {
        let rest = apps.drop_last();
        lemma_active_sources(rest, event);
        let t = active_listeners(apps, event);
        let r = active_listeners(rest, event);
        assert forall|s: Seq<char>| t.contains(s) implies exists|i: int, k: int|
            0 <= i < apps.len() && !apps[i].blocked && key_position(apps[i].listeners, event) == Some(k)
                && #[trigger] apps[i].listeners[k].1 == s by {
            let j = choose|j: int| 0 <= j < t.len() && t[j] == s;
            if j < r.len() {
                assert(t[j] == r[j]);
                assert(r.contains(s));
                let (i, k) = choose|i: int, k: int|
                    0 <= i < rest.len() && !rest[i].blocked && key_position(rest[i].listeners, event)
                        == Some(k) && #[trigger] rest[i].listeners[k].1 == s;
                assert(rest[i] == apps[i]);
                assert(apps[i].listeners[k].1 == s);
            } else {
                let a = apps.last();
                let k = key_position(a.listeners, event)->0;
                assert(apps[apps.len() - 1].listeners[k].1 == s);
            }
        }
    }
}

/// A registered socket is notified of its event, unless its application is
/// blocked.
pub proof fn registered_socket_is_notified(
    m: DbModel,
    app: Seq<char>,
    event: Seq<char>,
    socket: Seq<char>,
    id: i64,
)
    requires
        well_formed(m),
        app_position(m.apps, app) matches Some(i) ==> !m.apps[i].blocked,
    ensures
        active_listeners(registered(m, app, event, socket, id).apps, event).contains(socket),
{
    let apps = apps_with(m.apps, app, id);
    lemma_app_position(m.apps, app);
    lemma_app_position(apps, app);
    if app_position(m.apps, app) is None {
        assert(apps[apps.len() - 1].name == app);
        assert(keys_ok(apps[apps.len() - 1].listeners)) by {
            assert(apps[apps.len() - 1].listeners =~= Seq::<(Seq<char>, Seq<char>)>::empty());
        }
    } else {
        assert(keys_ok(apps[app_position(m.apps, app)->0].listeners));
    }
    let i = app_position(apps, app)->0;
    assert(keys_ok(apps[i].listeners));
    let l = set_value(apps[i].listeners, event, socket);
    lemma_set_value_ok(apps[i].listeners, event, socket);
    let after = registered(m, app, event, socket, id).apps;
    assert(after[i].listeners == l);
    lemma_key_position(l, event);
    let k = key_position(l, event)->0;
    lemma_active_contains(after, event, i, k);
}

/// A blocked application is not notified: every socket notified of an event
/// belongs to an application that is not blocked and registered it for
/// that event.
pub proof fn only_unblocked_apps_are_notified(apps: Seq<AppModel>, event: Seq<char>, socket: Seq<char>)
    requires
        active_listeners(apps, event).contains(socket),
    ensures
        exists|i: int, k: int|
            0 <= i < apps.len() && !apps[i].blocked && key_position(apps[i].listeners, event)
                == Some(k) && #[trigger] apps[i].listeners[k].1 == socket,
{
    lemma_active_sources(apps, event);
}

/// Removing a registration that was just made, for an application that
/// existed and had none for that event, gives back the registry as it was.
pub proof fn unregistering_undoes_registering(
    m: DbModel,
    app: Seq<char>,
    event: Seq<char>,
    socket: Seq<char>,
    id: i64,
)
    requires
        well_formed(m),
        app_position(m.apps, app) matches Some(i) && key_position(m.apps[i].listeners, event) is None,
    ensures
        unregistered(registered(m, app, event, socket, id), app, event) == m,
{
    let i = app_position(m.apps, app)->0;
    lemma_app_position(m.apps, app);
    let old_l = m.apps[i].listeners;
    lemma_key_position(old_l, event);
    assert(keys_ok(old_l));
    let l = set_value(old_l, event, socket);
    assert(l == old_l.push((event, socket)));
    let r = registered(m, app, event, socket, id);
    assert(r.apps == m.apps.update(i, AppModel { listeners: l, ..m.apps[i] }));
    lemma_app_position_same_names(r.apps, m.apps, app);
    lemma_key_position(l, event);
    match key_position(l, event) {
        Some(k) => {
            if k < old_l.len() {
                assert(l[k] == old_l[k]);
            }
            assert(k == old_l.len());
        },
        None => {
            assert(l[old_l.len() as int].0 == event);
        },
    }
    assert(l.remove(old_l.len() as int) =~= old_l);
    assert(unregistered(r, app, event).apps =~= m.apps);
}

/// Asking for an application's id twice creates it at most once.
pub proof fn app_is_created_once(apps: Seq<AppModel>, name: Seq<char>, id1: i64, id2: i64)
    ensures
        apps_with(apps_with(apps, name, id1), name, id2) == apps_with(apps, name, id1),
{
    let a = apps_with(apps, name, id1);
    lemma_app_position(a, name);
    if app_position(apps, name) is None {
        assert(a[a.len() - 1].name == name);
    }
}
// ---------------------------------------------------------------------------
// Selecting repositories by targets
// ---------------------------------------------------------------------------

/// No two of the records have the same id.
pub open spec fn ids_distinct(s: Seq<RepoModel>) -> bool {
    forall|i: int, j: int| 0 <= i < j < s.len() ==> (#[trigger] s[i]).id != (#[trigger] s[j]).id
}

/// Each of the records is one of `repos`, as a listing shows it.
pub open spec fn listed_from(repos: Seq<RepoModel>, s: Seq<RepoModel>) -> bool {
    forall|i: int| 0 <= i < s.len() ==> exists|k: int| 0 <= k < repos.len() && #[trigger] s[i] == listed(repos[k])
}

proof fn lemma_tagged_records_from(repos: Seq<RepoModel>, tag: Seq<char>)
    ensures
        listed_from(repos, tagged_records(repos, tag)),
    decreases repos.len(),
{
    if repos.len() > 0 {
        let rest = repos.drop_last();
        lemma_tagged_records_from(rest, tag);
        let t = tagged_records(repos, tag);
        let r = tagged_records(rest, tag);
        assert forall|i: int| 0 <= i < t.len() implies exists|k: int|
            0 <= k < repos.len() && #[trigger] t[i] == listed(repos[k]) by {
            if i < r.len() {
                assert(t[i] == r[i]);
                let k = choose|k: int| 0 <= k < rest.len() && r[i] == listed(rest[k]);
                assert(rest[k] == repos[k]);
            } else {
                assert(t[i] == listed(repos[repos.len() - 1]));
            }
        }
    }
}

proof fn lemma_add_unseen(repos: Seq<RepoModel>, acc: Seq<RepoModel>, rs: Seq<RepoModel>)
    requires
        ids_distinct(acc),
        listed_from(repos, acc),
        listed_from(repos, rs),
    ensures
        ids_distinct(add_unseen(acc, rs)),
        listed_from(repos, add_unseen(acc, rs)),
    decreases rs.len(),
{
    if rs.len() > 0 {
        let rest = rs.drop_last();
        assert forall|i: int| 0 <= i < rest.len() implies exists|k: int|
            0 <= k < repos.len() && #[trigger] rest[i] == listed(repos[k]) by {
            assert(rest[i] == rs[i]);
        }
        lemma_add_unseen(repos, acc, rest);
        let a = add_unseen(acc, rest);
        let x = rs.last();
        lemma_first_repo(a, RepoKey::Id(x.id));
        if first_repo(a, RepoKey::Id(x.id)) is None {
            let b = a.push(x);
            assert forall|i: int, j: int| 0 <= i < j < b.len() implies (#[trigger] b[i]).id != (
            #[trigger] b[j]).id by {
                if j == b.len() - 1 {
                    assert(!repo_matches(a[i], RepoKey::Id(x.id)));
                } else {
                    assert(a[i].id != a[j].id);
                }
            }
            assert forall|i: int| 0 <= i < b.len() implies exists|k: int|
                0 <= k < repos.len() && #[trigger] b[i] == listed(repos[k]) by {
                if i < a.len() {
                    assert(b[i] == a[i]);
                } else {
                    assert(b[i] == rs[rs.len() - 1]);
                }
            }
        }
    }
}

proof fn lemma_resolve_pieces(m: DbModel, pieces: Seq<Seq<char>>)
    ensures
        ids_distinct(resolve_pieces(m, pieces)),
        listed_from(m.repos, resolve_pieces(m, pieces)),
    decreases pieces.len(),
{
    if pieces.len() > 0 {
        lemma_resolve_pieces(m, pieces.drop_last());
        let acc = resolve_pieces(m, pieces.drop_last());
        let t = trim(pieces.last());
        if t.len() == 0 {
        } else if t[0] == '@' {
            lemma_tagged_records_from(m.repos, t.drop_first());
            lemma_add_unseen(m.repos, acc, tagged_records(m.repos, t.drop_first()));
        } else {
            match resolve_target_spec(m, t) {
                Some(id) => match first_repo(m.repos, RepoKey::Id(id)) {
                    Some(i) => {
                        lemma_first_repo(m.repos, RepoKey::Id(id));
                        let one = seq![listed(m.repos[i])];
                        assert(one[0] == listed(m.repos[i]));
                        lemma_add_unseen(m.repos, acc, one);
                    },
                    None => {},
                },
                None => {},
            }
        }
    }
}

/// What comma-separated targets select is a set of registered repositories,
/// each as a listing shows it, and none of them twice, however often the
/// targets name it.
pub proof fn targets_select_each_repository_once(m: DbModel, targets: Seq<char>)
    ensures
        ids_distinct(resolve_pieces(m, split(targets, ','))),
        listed_from(m.repos, resolve_pieces(m, split(targets, ','))),
{
    lemma_resolve_pieces(m, split(targets, ','));
}

// ---------------------------------------------------------------------------
// Deciding on an upgrade
// ---------------------------------------------------------------------------

/// Versions compare major first, then minor, then patch: a newer major
/// version is newer whatever the minor and patch numbers, and an older one
/// is never newer; with equal majors the minor number decides the same way,
/// and with equal majors and minors the patch number. `upgrade_needed`
/// answers `version_lt(current, latest)`.
pub proof fn versions_compare_major_first(c: (u32, u32, u32), l: (u32, u32, u32))
    ensures
        c.0 < l.0 ==> crate::upgrade::version_lt(c, l),
        c.0 > l.0 ==> !crate::upgrade::version_lt(c, l),
        c.0 == l.0 && c.1 < l.1 ==> crate::upgrade::version_lt(c, l),
        c.0 == l.0 && c.1 > l.1 ==> !crate::upgrade::version_lt(c, l),
        c.0 == l.0 && c.1 == l.1 ==> (crate::upgrade::version_lt(c, l) <==> c.2 < l.2),
{
}

/// As numbers with the major version worth more than any minor version and
/// the minor more than any patch (each below 2^32), the newer version is
/// the larger one.
pub proof fn newer_version_is_larger_number(c: (u32, u32, u32), l: (u32, u32, u32))
    ensures
        crate::upgrade::version_lt(c, l) <==> version_number(c) < version_number(l),
{
    let (a0, a1, a2) = (c.0 as int, c.1 as int, c.2 as int);
    let (b0, b1, b2) = (l.0 as int, l.1 as int, l.2 as int);
    let w: int = 0x1_0000_0000;
    assert(0 <= a1 < w && 0 <= a2 < w && 0 <= b1 < w && 0 <= b2 < w);
    if a0 < b0 {
        assert(a0 * w * w + a1 * w + a2 < b0 * w * w + b1 * w + b2) by (nonlinear_arith)
            requires
                a0 < b0,
                0 <= a1 < w,
                0 <= a2 < w,
                0 <= b1 < w,
                0 <= b2 < w,
                w == 0x1_0000_0000,
        ;
    } else if a0 > b0 {
        assert(a0 * w * w + a1 * w + a2 > b0 * w * w + b1 * w + b2) by (nonlinear_arith)
            requires
                a0 > b0,
                0 <= a1 < w,
                0 <= a2 < w,
                0 <= b1 < w,
                0 <= b2 < w,
                w == 0x1_0000_0000,
        ;
    } else if a1 < b1 {
        assert(a1 * w + a2 < b1 * w + b2) by (nonlinear_arith)
            requires
                a1 < b1,
                0 <= a2 < w,
                0 <= b2 < w,
                w == 0x1_0000_0000,
        ;
    } else if a1 > b1 {
        assert(a1 * w + a2 > b1 * w + b2) by (nonlinear_arith)
            requires
                a1 > b1,
                0 <= a2 < w,
                0 <= b2 < w,
                w == 0x1_0000_0000,
        ;
    }
}

/// A version as one number: major, minor and patch as digits in base 2^32.
pub open spec fn version_number(v: (u32, u32, u32)) -> int {
    (v.0 as int) * 0x1_0000_0000 * 0x1_0000_0000 + (v.1 as int) * 0x1_0000_0000 + (v.2 as int)
}
/// The first `c` in `s` is at `k`.
proof fn lemma_find_char_at(s: Seq<char>, c: char, k: int)
    requires
        0 <= k < s.len(),
        s[k] == c,
        forall|j: int| 0 <= j < k ==> s[j] != c,
    ensures
        crate::text::find_char(s, c) == Some(k),
{
    lemma_find_from(s, seq![c], 0);
    assert(s.subrange(k, k + 1) =~= seq![c]);
    assert(matches_at(s, seq![c], k));
    match crate::text::find_char(s, c) {
        Some(k2) => {
            assert(s.subrange(k2, k2 + 1)[0] == s[k2]);
        },
        None => {},
    }
}

/// There is no `c` in `s`.
proof fn lemma_find_char_none(s: Seq<char>, c: char)
    requires
        forall|j: int| 0 <= j < s.len() ==> s[j] != c,
    ensures
        crate::text::find_char(s, c) is None,
{
    lemma_find_from(s, seq![c], 0);
    match crate::text::find_char(s, c) {
        Some(k2) => {
            assert(s.subrange(k2, k2 + 1)[0] == s[k2]);
        },
        None => {},
    }
}

/// A number written in decimal reads back as itself.
proof fn lemma_u32_text(n: u32)
    ensures
        crate::text::parse_u32(crate::text::decimal(n as nat)) == Some(n),
        crate::text::decimal(n as nat).len() > 0,
        forall|j: int|
            0 <= j < crate::text::decimal(n as nat).len() ==> crate::text::is_digit(
                #[trigger] crate::text::decimal(n as nat)[j],
            ),
{
    lemma_decimal_digits(n as nat);
    let d = crate::text::decimal(n as nat);
    assert(crate::text::is_digit(d[0]));
    assert(crate::text::unsigned_digits(d) == d);
}

/// `major.minor.patch` written out in decimal.
pub open spec fn version_text(v: (u32, u32, u32)) -> Seq<char> {
    crate::text::decimal(v.0 as nat) + seq!['.'] + crate::text::decimal(v.1 as nat) + seq!['.']
        + crate::text::decimal(v.2 as nat)
}

/// A version written as `major.minor.patch`, with or without a leading `v`
/// and with or without a `-` suffix, reads back as that version; with
/// `versions_compare_major_first`, whether `upgrade_needed` asks for an
/// upgrade is fixed for every pair of such versions.
pub proof fn version_text_round_trip(v: (u32, u32, u32), suffix: Seq<char>)
    ensures
        crate::upgrade::version_of(version_text(v)) == Some(v),
        crate::upgrade::version_of(seq!['v'] + version_text(v)) == Some(v),
        crate::upgrade::version_of(seq!['v'] + version_text(v) + seq!['-'] + suffix) == Some(v),
        crate::upgrade::version_of(version_text(v) + seq!['-'] + suffix) == Some(v),
{
    lemma_u32_text(v.0);
    lemma_u32_text(v.1);
    lemma_u32_text(v.2);
    let da = crate::text::decimal(v.0 as nat);
    let db = crate::text::decimal(v.1 as nat);
    let dc = crate::text::decimal(v.2 as nat);
    let t = version_text(v);
    let na = da.len() as int;
    let nb = db.len() as int;
    assert(t.len() == na + 1 + nb + 1 + dc.len());
    assert forall|j: int| 0 <= j < t.len() implies t[j] == '.' || crate::text::is_digit(#[trigger] t[j]) by {
        if j < na {
            assert(t[j] == da[j]);
        } else if j == na {
        } else if j < na + 1 + nb {
            assert(t[j] == db[j - na - 1]);
        } else if j == na + 1 + nb {
        } else {
            assert(t[j] == dc[j - na - 2 - nb]);
        }
    }
    assert(t[0] == da[0]);
    assert(crate::upgrade::strip_v(t) == t);
    assert((seq!['v'] + t).drop_first() =~= t);
    assert(crate::upgrade::strip_v(seq!['v'] + t) == t);
    lemma_find_char_none(t, '-');
    assert(crate::upgrade::before_dash(t) == t);
    let s1 = t + seq!['-'] + suffix;
    assert forall|j: int| 0 <= j < t.len() implies s1[j] != '-' by {
        assert(s1[j] == t[j]);
    }
    lemma_find_char_at(s1, '-', t.len() as int);
    assert(s1.take(t.len() as int) =~= t);
    let s2 = seq!['v'] + t + seq!['-'] + suffix;
    assert(s2.drop_first() =~= s1);
    assert(crate::upgrade::strip_v(s2) == s1);
    assert(crate::upgrade::before_dash(s1) == t);
    // the two dots
    assert forall|j: int| 0 <= j < na implies t[j] != '.' by {
        assert(t[j] == da[j]);
    }
    assert(t[na] == '.');
    lemma_find_char_at(t, '.', na);
    let r = t.skip(na + 1);
    assert(r =~= db + seq!['.'] + dc);
    assert forall|j: int| 0 <= j < nb implies r[j] != '.' by {
        assert(r[j] == db[j]);
    }
    assert(r[nb] == '.');
    lemma_find_char_at(r, '.', nb);
    assert(t.take(na) =~= da);
    assert(r.take(nb) =~= db);
    assert(r.skip(nb + 1) =~= dc);
}


// ---------------------------------------------------------------------------
// The emergency push of one repository
// ---------------------------------------------------------------------------

/// Once its emergency branch is created, a repository's work is added,
/// committed and pushed whatever the add and the commit gave, and after the
/// push, whatever it gave, the previous branch is checked out and the
/// repository is done; a repository whose branch could not be created is
/// done at once.
pub proof fn emergency_push_always_follows_the_commit(add_ok: bool, commit_ok: bool, push_ok: bool, restore_ok: bool)
    ensures
        crate::commands::emergency_next(crate::commands::EmergencyStep::CreateBranch, false)
            == crate::commands::EmergencyStep::Done,
        ({
            let s1 = crate::commands::emergency_next(crate::commands::EmergencyStep::CreateBranch, true);
            let s2 = crate::commands::emergency_next(s1, add_ok);
            let s3 = crate::commands::emergency_next(s2, commit_ok);
            let s4 = crate::commands::emergency_next(s3, push_ok);
            let s5 = crate::commands::emergency_next(s4, restore_ok);
            &&& s1 == crate::commands::EmergencyStep::AddAll
            &&& s2 == crate::commands::EmergencyStep::Commit
            &&& s3 == crate::commands::EmergencyStep::Push
            &&& s4 == crate::commands::EmergencyStep::Restore
            &&& s5 == crate::commands::EmergencyStep::Done
        }),
        crate::commands::emergency_next(crate::commands::EmergencyStep::Commit, commit_ok)
            == crate::commands::EmergencyStep::Push,
        crate::commands::emergency_next(crate::commands::EmergencyStep::Done, push_ok)
            == crate::commands::EmergencyStep::Done,
{
}

// ---------------------------------------------------------------------------
// Where discovery looks
// ---------------------------------------------------------------------------

/// The directories that automatic discovery looks in, for a user whose home
/// directory is `h`: on macOS `~/Developer`, `~/Documents/GitHub`, `~/src`,
/// `~/git` and `~/Projects`; on Linux `~/git`, `~/projects` and `~/src`; on
/// Windows `~\source\repos`, `~\Documents\GitHub`, `~\Projects`, `C:\dev`
/// and `C:\git`, each in that order; nowhere without a home directory.
pub proof fn discovery_roots_per_platform(h: Seq<char>, sep: char, os: crate::commands::TargetOs)
    ensures
        crate::commands::autoscan_roots(Some(h), crate::commands::TargetOs::MacOs, sep) == seq![
            crate::shell::join_path(h, "Developer"@, sep),
            crate::shell::join_path(h, "Documents/GitHub"@, sep),
            crate::shell::join_path(h, "src"@, sep),
            crate::shell::join_path(h, "git"@, sep),
            crate::shell::join_path(h, "Projects"@, sep),
        ],
        crate::commands::autoscan_roots(Some(h), crate::commands::TargetOs::Linux, sep) == seq![
            crate::shell::join_path(h, "git"@, sep),
            crate::shell::join_path(h, "projects"@, sep),
            crate::shell::join_path(h, "src"@, sep),
        ],
        crate::commands::autoscan_roots(Some(h), crate::commands::TargetOs::Windows, sep) == seq![
            crate::shell::join_path(h, "source/repos"@, sep),
            crate::shell::join_path(h, "Documents/GitHub"@, sep),
            crate::shell::join_path(h, "Projects"@, sep),
            "C:\\dev"@,
            "C:\\git"@,
        ],
        crate::commands::autoscan_roots(None, os, sep).len() == 0,
{
}

// ---------------------------------------------------------------------------
// Selecting repositories by tag
// ---------------------------------------------------------------------------

/// Some record of `s` has id `id`.
pub open spec fn has_id(s: Seq<RepoModel>, id: i64) -> bool {
    exists|j: int| 0 <= j < s.len() && (#[trigger] s[j]).id == id
}

proof fn lemma_has_id_push(s: Seq<RepoModel>, x: RepoModel, id: i64)
    requires
        has_id(s, id) || x.id == id,
    ensures
        has_id(s.push(x), id),
{
    if has_id(s, id) {
        let j = choose|j: int| 0 <= j < s.len() && (#[trigger] s[j]).id == id;
        assert(s.push(x)[j] == s[j]);
    } else {
        assert(s.push(x)[s.len() as int] == x);
    }
}

/// Adding unseen records keeps every id already selected and selects the id
/// of every record added.
proof fn lemma_add_unseen_ids(acc: Seq<RepoModel>, rs: Seq<RepoModel>, id: i64)
    requires
        has_id(acc, id) || has_id(rs, id),
    ensures
        has_id(add_unseen(acc, rs), id),
    decreases rs.len(),
{
    if rs.len() > 0 {
        let rest = rs.drop_last();
        let x = rs.last();
        let a = add_unseen(acc, rest);
        if has_id(acc, id) || has_id(rest, id) {
            if has_id(rest, id) && !has_id(acc, id) {
                let j = choose|j: int| 0 <= j < rest.len() && (#[trigger] rest[j]).id == id;
                assert(rs[j] == rest[j]);
            }
            lemma_add_unseen_ids(acc, rest, id);
            if first_repo(a, RepoKey::Id(x.id)) is None {
                lemma_has_id_push(a, x, id);
            }
        } else {
            let j = choose|j: int| 0 <= j < rs.len() && (#[trigger] rs[j]).id == id;
            if j < rest.len() {
                assert(rest[j] == rs[j]);
            }
            assert(x.id == id);
            lemma_first_repo(a, RepoKey::Id(x.id));
            if first_repo(a, RepoKey::Id(x.id)) is None {
                lemma_has_id_push(a, x, id);
            } else {
                let k = first_repo(a, RepoKey::Id(x.id))->0;
                assert(a[k].id == id);
            }
        }
    }
}

/// Every repository carrying `tag` is among those that `@tag` selects.
proof fn lemma_tagged_records_complete(repos: Seq<RepoModel>, tag: Seq<char>, i: int)
    requires
        0 <= i < repos.len(),
        repos[i].tags.contains(tag),
    ensures
        has_id(tagged_records(repos, tag), repos[i].id),
    decreases repos.len(),
{
    let rest = repos.drop_last();
    if i < repos.len() - 1 {
        assert(rest[i] == repos[i]);
        lemma_tagged_records_complete(rest, tag, i);
        if repos.last().tags.contains(tag) {
            lemma_has_id_push(tagged_records(rest, tag), listed(repos.last()), repos[i].id);
        }
    } else {
        lemma_has_id_push(tagged_records(rest, tag), listed(repos.last()), repos[i].id);
    }
}

/// Once a repository is selected, later targets keep it selected.
proof fn lemma_resolve_piece_keeps(m: DbModel, acc: Seq<RepoModel>, piece: Seq<char>, id: i64)
    requires
        has_id(acc, id),
    ensures
        has_id(resolve_piece(m, acc, piece), id),
{
    let t = trim(piece);
    if t.len() == 0 {
    } else if t[0] == '@' {
        lemma_add_unseen_ids(acc, tagged_records(m.repos, t.drop_first()), id);
    } else {
        match resolve_target_spec(m, t) {
            Some(rid) => match first_repo(m.repos, RepoKey::Id(rid)) {
                Some(i) => {
                    lemma_add_unseen_ids(acc, seq![listed(m.repos[i])], id);
                },
                None => {},
            },
            None => {},
        }
    }
}

proof fn lemma_tag_target_selects(m: DbModel, pieces: Seq<Seq<char>>, k: int, tag: Seq<char>, i: int)
    requires
        0 <= k < pieces.len(),
        trim(pieces[k]) == seq!['@'] + tag,
        0 <= i < m.repos.len(),
        m.repos[i].tags.contains(tag),
    ensures
        has_id(resolve_pieces(m, pieces), m.repos[i].id),
    decreases pieces.len(),
{
    let rest = pieces.drop_last();
    if k < pieces.len() - 1 {
        assert(rest[k] == pieces[k]);
        lemma_tag_target_selects(m, rest, k, tag, i);
        lemma_resolve_piece_keeps(m, resolve_pieces(m, rest), pieces.last(), m.repos[i].id);
    } else {
        let t = trim(pieces.last());
        assert(t[0] == '@');
        assert(t.drop_first() =~= tag);
        lemma_tagged_records_complete(m.repos, tag, i);
        lemma_add_unseen_ids(resolve_pieces(m, rest), tagged_records(m.repos, tag), m.repos[i].id);
    }
}

/// A target `@tag` among comma-separated targets selects every registered
/// repository that carries `tag`, whatever the other targets are; each is
/// selected once (`targets_select_each_repository_once`).
pub proof fn tag_target_selects_every_tagged_repository(
    m: DbModel,
    targets: Seq<char>,
    tag: Seq<char>,
    k: int,
    i: int,
)
    requires
        0 <= k < split(targets, ',').len(),
        trim(split(targets, ',')[k]) == seq!['@'] + tag,
        0 <= i < m.repos.len(),
        m.repos[i].tags.contains(tag),
    ensures
        exists|j: int|
            0 <= j < resolve_pieces(m, split(targets, ',')).len() && (#[trigger] resolve_pieces(
                m,
                split(targets, ','),
            )[j]).id == m.repos[i].id,
{
    lemma_tag_target_selects(m, split(targets, ','), k, tag, i);
}

// ---------------------------------------------------------------------------
// Listing order
// ---------------------------------------------------------------------------

/// Listings put named repositories before unnamed ones, named ones in the
/// order of their names, and among repositories with the same name (or none)
/// the newest, with the highest id, first.
pub proof fn listing_order(a: RepoModel, b: RepoModel)
    ensures
        a.name is Some && b.name is None ==> crate::db::list_before(a, b) && !crate::db::list_before(
            b,
            a,
        ),
        a.name == b.name ==> (crate::db::list_before(a, b) <==> a.id > b.id),
        a.name is Some && b.name is Some && crate::text::lex_lt(a.name->0, b.name->0)
            ==> crate::db::list_before(a, b) && !crate::db::list_before(b, a),
{
    if a.name is Some && b.name is Some && crate::text::lex_lt(a.name->0, b.name->0) {
        crate::text::lemma_lex_asymmetric(a.name->0, b.name->0);
        crate::text::lemma_lex_irreflexive(a.name->0);
    }
    if a.name == b.name && a.name is Some {
        crate::text::lemma_lex_irreflexive(a.name->0);
    }
}

/// Registrations are listed by application name, then by event.
pub proof fn integration_listing_order(a: IntegrationModel, b: IntegrationModel)
    ensures
        crate::text::lex_lt(a.app_name, b.app_name) ==> crate::db::integration_before(a, b)
            && !crate::db::integration_before(b, a),
        a.app_name == b.app_name ==> (crate::db::integration_before(a, b) <==> crate::text::lex_lt(
            a.event,
            b.event,
        )),
{
    crate::text::lemma_lex_asymmetric(a.app_name, b.app_name);
    crate::text::lemma_lex_irreflexive(a.app_name);
}

// ---------------------------------------------------------------------------
// The daily pruning time
// ---------------------------------------------------------------------------

/// `n` (below 100) written with two digits.
pub open spec fn two_digits(n: int) -> Seq<char> {
    seq![crate::text::digit_char(n / 10), crate::text::digit_char(n % 10)]
}

proof fn lemma_digit_char(d: int)
    requires
        0 <= d < 10,
    ensures
        crate::text::is_digit(crate::text::digit_char(d)),
        crate::text::digit_value(crate::text::digit_char(d)) == d,
{
}

/// A time written `HH:MM` is accepted exactly when the hour is below 24
/// and the minute below 60; anything that is not five characters with `:`
/// in the middle is refused.
pub proof fn daily_time_is_a_time_of_day(h: int, m: int, t: Seq<char>)
    requires
        0 <= h < 100,
        0 <= m < 100,
    ensures
        crate::commands::valid_time(two_digits(h) + seq![':'] + two_digits(m)) <==> h < 24 && m < 60,
        t.len() != 5 || t[2] != ':' ==> !crate::commands::valid_time(t),
{
    lemma_digit_char(h / 10);
    lemma_digit_char(h % 10);
    lemma_digit_char(m / 10);
    lemma_digit_char(m % 10);
    let s = two_digits(h) + seq![':'] + two_digits(m);
    assert(s.len() == 5);
    assert(s[0] == crate::text::digit_char(h / 10));
    assert(s[1] == crate::text::digit_char(h % 10));
    assert(s[2] == ':');
    assert(s[3] == crate::text::digit_char(m / 10));
    assert(s[4] == crate::text::digit_char(m % 10));
    assert(h == (h / 10) * 10 + h % 10);
    assert(m == (m / 10) * 10 + m % 10);
}


// ---------------------------------------------------------------------------
// Blocking and removing integrator applications
// ---------------------------------------------------------------------------

/// The registrations `s` with the blocked flag of those of application
/// `name` set to `blocked`.
pub open spec fn with_block_flag(s: Seq<IntegrationModel>, name: Seq<char>, blocked: bool) -> Seq<
    IntegrationModel,
> {
    s.map_values(
        |r: IntegrationModel|
            if r.app_name == name {
                IntegrationModel { is_blocked: blocked, ..r }
            } else {
                r
            },
    )
}

/// The registrations `s` without those of application `name`, in order.
pub open spec fn records_without(s: Seq<IntegrationModel>, name: Seq<char>) -> Seq<IntegrationModel>
    decreases s.len(),
{
    if s.len() == 0 {
        s
    } else {
        let r = records_without(s.drop_last(), name);
        if s.last().app_name == name {
            r
        } else {
            r.push(s.last())
        }
    }
}

/// The sockets notified of `event` when application `name` is left out.
pub open spec fn active_except(apps: Seq<AppModel>, event: Seq<char>, name: Seq<char>) -> Seq<
    Seq<char>,
>
    decreases apps.len(),
{
    if apps.len() == 0 {
        Seq::empty()
    } else {
        let rest = active_except(apps.drop_last(), event, name);
        let a = apps.last();
        if a.name == name {
            rest
        } else {
            match key_position(a.listeners, event) {
                Some(k) => if !a.blocked {
                    rest.push(a.listeners[k].1)
                } else {
                    rest
                },
                None => rest,
            }
        }
    }
}

proof fn lemma_flag_concat(a: Seq<IntegrationModel>, b: Seq<IntegrationModel>, name: Seq<char>, blocked: bool)
    ensures
        with_block_flag(a + b, name, blocked) == with_block_flag(a, name, blocked) + with_block_flag(
            b,
            name,
            blocked,
        ),
{
    assert(with_block_flag(a + b, name, blocked) =~= with_block_flag(a, name, blocked)
        + with_block_flag(b, name, blocked));
}

proof fn lemma_without_concat(a: Seq<IntegrationModel>, b: Seq<IntegrationModel>, name: Seq<char>)
    ensures
        records_without(a + b, name) == records_without(a, name) + records_without(b, name),
    decreases b.len(),
{
    if b.len() == 0 {
        assert(a + b =~= a);
        assert(records_without(a, name) + records_without(b, name) =~= records_without(a, name));
    } else {
        lemma_without_concat(a, b.drop_last(), name);
        assert((a + b).drop_last() =~= a + b.drop_last());
        assert((a + b).last() == b.last());
        if b.last().app_name != name {
            assert(records_without(a, name) + records_without(b.drop_last(), name).push(b.last())
                =~= (records_without(a, name) + records_without(b.drop_last(), name)).push(b.last()));
        }
    }
}

/// The registrations of an application named otherwise are untouched.
proof fn lemma_app_records_other(a: AppModel, name: Seq<char>, blocked: bool)
    requires
        a.name != name,
    ensures
        with_block_flag(app_integrations(a), name, blocked) == app_integrations(a),
        records_without(app_integrations(a), name) == app_integrations(a),
    decreases a.listeners.len(),
{
    assert(with_block_flag(app_integrations(a), name, blocked) =~= app_integrations(a));
    lemma_records_without_none(app_integrations(a), name);
}

proof fn lemma_records_without_none(s: Seq<IntegrationModel>, name: Seq<char>)
    requires
        forall|j: int| 0 <= j < s.len() ==> (#[trigger] s[j]).app_name != name,
    ensures
        records_without(s, name) == s,
    decreases s.len(),
{
    if s.len() > 0 {
        lemma_records_without_none(s.drop_last(), name);
        assert(s.drop_last().push(s.last()) =~= s);
    }
}

proof fn lemma_records_without_all(s: Seq<IntegrationModel>, name: Seq<char>)
    requires
        forall|j: int| 0 <= j < s.len() ==> (#[trigger] s[j]).app_name == name,
    ensures
        records_without(s, name) == Seq::<IntegrationModel>::empty(),
    decreases s.len(),
{
    if s.len() > 0 {
        lemma_records_without_all(s.drop_last(), name);
    }
}

/// When no application is named `name`, leaving it out changes nothing.
proof fn lemma_none_named(apps: Seq<AppModel>, name: Seq<char>, event: Seq<char>, blocked: bool)
    requires
        forall|j: int| 0 <= j < apps.len() ==> (#[trigger] apps[j]).name != name,
    ensures
        with_block_flag(all_integrations(apps), name, blocked) == all_integrations(apps),
        records_without(all_integrations(apps), name) == all_integrations(apps),
        active_except(apps, event, name) == active_listeners(apps, event),
    decreases apps.len(),
{
    if apps.len() > 0 {
        let rest = apps.drop_last();
        assert forall|j: int| 0 <= j < rest.len() implies (#[trigger] rest[j]).name != name by {
            assert(rest[j] == apps[j]);
        }
        lemma_none_named(rest, name, event, blocked);
        assert(apps.last().name != name);
        lemma_app_records_other(apps.last(), name, blocked);
        lemma_flag_concat(all_integrations(rest), app_integrations(apps.last()), name, blocked);
        lemma_without_concat(all_integrations(rest), app_integrations(apps.last()), name);
    }
}

proof fn lemma_wf_names_unique(m: DbModel)
    requires
        well_formed(m),
    ensures
        names_unique(m.apps),
{
    assert forall|i: int, j: int| 0 <= i < j < m.apps.len() implies (#[trigger] m.apps[i]).name != (
    #[trigger] m.apps[j]).name by {
        assert(m.apps[i].id != m.apps[j].id);
    }
}

/// Application names are unique.
pub open spec fn names_unique(apps: Seq<AppModel>) -> bool {
    forall|i: int, j: int| 0 <= i < j < apps.len() ==> (#[trigger] apps[i]).name != (#[trigger] apps[j]).name
}

proof fn lemma_names_unique_rest(apps: Seq<AppModel>, name: Seq<char>)
    requires
        names_unique(apps),
        apps.len() > 0,
        apps.last().name == name,
    ensures
        names_unique(apps.drop_last()),
        forall|j: int| 0 <= j < apps.len() - 1 ==> (#[trigger] apps.drop_last()[j]).name != name,
{
    let rest = apps.drop_last();
    assert forall|j: int| 0 <= j < apps.len() - 1 implies (#[trigger] rest[j]).name != name by {
        assert(rest[j] == apps[j]);
        assert(apps[j].name != apps[apps.len() - 1].name);
    }
    assert forall|i: int, j: int| 0 <= i < j < rest.len() implies (#[trigger] rest[i]).name != (
    #[trigger] rest[j]).name by {
        assert(rest[i] == apps[i] && rest[j] == apps[j]);
    }
}

/// Blocking or unblocking the application at `i` (the only one of its name)
/// changes its flag in the listings and leaves out (or takes back) its
/// sockets; removing it drops its registrations and sockets.
proof fn lemma_app_change(apps: Seq<AppModel>, i: int, event: Seq<char>)
    requires
        names_unique(apps),
        0 <= i < apps.len(),
    ensures
        all_integrations(apps.update(i, AppModel { blocked: true, ..apps[i] })) == with_block_flag(
            all_integrations(apps),
            apps[i].name,
            true,
        ),
        all_integrations(apps.update(i, AppModel { blocked: false, ..apps[i] })) == with_block_flag(
            all_integrations(apps),
            apps[i].name,
            false,
        ),
        active_listeners(apps.update(i, AppModel { blocked: true, ..apps[i] }), event)
            == active_except(apps, event, apps[i].name),
        all_integrations(apps.remove(i)) == records_without(all_integrations(apps), apps[i].name),
        active_listeners(apps.remove(i), event) == active_except(apps, event, apps[i].name),
    decreases apps.len(),
{
    let name = apps[i].name;
    let rest = apps.drop_last();
    let last = apps.last();
    let ub = apps.update(i, AppModel { blocked: true, ..apps[i] });
    let uu = apps.update(i, AppModel { blocked: false, ..apps[i] });
    if i == apps.len() - 1 {
        lemma_names_unique_rest(apps, name);
        lemma_none_named(rest, name, event, true);
        lemma_none_named(rest, name, event, false);
        assert(ub.drop_last() =~= rest);
        assert(uu.drop_last() =~= rest);
        assert(apps.remove(i) =~= rest);
        let bl = AppModel { blocked: true, ..last };
        let ul = AppModel { blocked: false, ..last };
        assert(app_integrations(bl) =~= with_block_flag(app_integrations(last), name, true));
        assert(app_integrations(ul) =~= with_block_flag(app_integrations(last), name, false));
        lemma_flag_concat(all_integrations(rest), app_integrations(last), name, true);
        lemma_flag_concat(all_integrations(rest), app_integrations(last), name, false);
        lemma_without_concat(all_integrations(rest), app_integrations(last), name);
        lemma_records_without_all(app_integrations(last), name);
        assert(records_without(all_integrations(rest), name) + Seq::<IntegrationModel>::empty()
            =~= all_integrations(rest));
    } else {
        assert(names_unique(rest)) by {
            assert forall|x: int, y: int| 0 <= x < y < rest.len() implies (#[trigger] rest[x]).name
                != (#[trigger] rest[y]).name by {
                assert(rest[x] == apps[x] && rest[y] == apps[y]);
            }
        }
        assert(rest[i] == apps[i]);
        lemma_app_change(rest, i, event);
        assert(last.name != name) by {
            assert(apps[i].name != apps[apps.len() - 1].name);
        }
        lemma_app_records_other(last, name, true);
        lemma_app_records_other(last, name, false);
        assert(ub.drop_last() =~= rest.update(i, AppModel { blocked: true, ..rest[i] }));
        assert(uu.drop_last() =~= rest.update(i, AppModel { blocked: false, ..rest[i] }));
        assert(ub.last() == last);
        assert(uu.last() == last);
        let rm = apps.remove(i);
        assert(rm.drop_last() =~= rest.remove(i));
        assert(rm.last() == last);
        lemma_flag_concat(all_integrations(rest), app_integrations(last), name, true);
        lemma_flag_concat(all_integrations(rest), app_integrations(last), name, false);
        lemma_without_concat(all_integrations(rest), app_integrations(last), name);
    }
}

/// Blocking an application keeps its registrations listed, now marked
/// blocked, and stops every event from reaching its sockets; the others are
/// untouched.
pub proof fn blocking_keeps_registrations_and_silences(m: DbModel, name: Seq<char>, event: Seq<char>)
    requires
        well_formed(m),
    ensures
        all_integrations(set_blocked(m.apps, name, true)) == with_block_flag(
            all_integrations(m.apps),
            name,
            true,
        ),
        active_listeners(set_blocked(m.apps, name, true), event) == active_except(m.apps, event, name),
{
    lemma_wf_names_unique(m);
    lemma_app_position(m.apps, name);
    match app_position(m.apps, name) {
        Some(i) => {
            lemma_app_change(m.apps, i, event);
        },
        None => {
            lemma_none_named(m.apps, name, event, true);
        },
    }
}

/// Unblocking an application marks its registrations unblocked again.
pub proof fn unblocking_marks_registrations(m: DbModel, name: Seq<char>)
    requires
        well_formed(m),
    ensures
        all_integrations(set_blocked(m.apps, name, false)) == with_block_flag(
            all_integrations(m.apps),
            name,
            false,
        ),
{
    lemma_wf_names_unique(m);
    lemma_app_position(m.apps, name);
    match app_position(m.apps, name) {
        Some(i) => {
            lemma_app_change(m.apps, i, Seq::empty());
        },
        None => {
            lemma_none_named(m.apps, name, Seq::empty(), false);
        },
    }
}

/// Blocking an unblocked application and unblocking it again gives back the
/// registry as it was, and with it every listing and every event's sockets.
pub proof fn block_then_unblock_restores(m: DbModel, name: Seq<char>)
    requires
        well_formed(m),
        app_position(m.apps, name) matches Some(i) ==> !m.apps[i].blocked,
    ensures
        set_blocked(set_blocked(m.apps, name, true), name, false) == m.apps,
{
    lemma_app_position(m.apps, name);
    match app_position(m.apps, name) {
        Some(i) => {
            let b = set_blocked(m.apps, name, true);
            lemma_app_position_same_names(b, m.apps, name);
            assert(b.update(i, AppModel { blocked: false, ..b[i] }) =~= m.apps);
        },
        None => {},
    }
}

/// Removing an application drops its registrations from the listing and its
/// sockets from every event; the others are untouched.
pub proof fn removing_app_drops_its_registrations(m: DbModel, name: Seq<char>, event: Seq<char>)
    requires
        well_formed(m),
    ensures
        all_integrations(
            match app_position(m.apps, name) {
                Some(i) => m.apps.remove(i),
                None => m.apps,
            },
        ) == records_without(all_integrations(m.apps), name),
        active_listeners(
            match app_position(m.apps, name) {
                Some(i) => m.apps.remove(i),
                None => m.apps,
            },
            event,
        ) == active_except(m.apps, event, name),
{
    lemma_wf_names_unique(m);
    lemma_app_position(m.apps, name);
    match app_position(m.apps, name) {
        Some(i) => {
            lemma_app_change(m.apps, i, event);
        },
        None => {
            lemma_none_named(m.apps, name, event, false);
        },
    }
}


// ---------------------------------------------------------------------------
// Names and numbers
// ---------------------------------------------------------------------------

/// A character that may appear in a sanitized name.
pub open spec fn safe_char(c: char) -> bool {
    crate::commands::alphanumeric(c) || c == '-' || c == '_'
}

proof fn lemma_collapse_chars(t: Seq<char>)
    requires
        forall|i: int| 0 <= i < t.len() ==> safe_char(#[trigger] t[i]),
    ensures
        forall|i: int|
            0 <= i < crate::commands::collapse_pairs(t).len() ==> safe_char(
                #[trigger] crate::commands::collapse_pairs(t)[i],
            ),
    decreases t.len(),
{
    let c = crate::commands::collapse_pairs(t);
    if t.len() >= 2 && t[0] == '_' && t[1] == '_' {
        let rest = t.skip(2);
        assert forall|i: int| 0 <= i < rest.len() implies safe_char(#[trigger] rest[i]) by {
            assert(rest[i] == t[i + 2]);
        }
        lemma_collapse_chars(rest);
        assert forall|i: int| 0 <= i < c.len() implies safe_char(#[trigger] c[i]) by {
            if i > 0 {
                assert(c[i] == crate::commands::collapse_pairs(rest)[i - 1]);
            }
        }
    } else if t.len() >= 1 {
        let rest = t.skip(1);
        assert forall|i: int| 0 <= i < rest.len() implies safe_char(#[trigger] rest[i]) by {
            assert(rest[i] == t[i + 1]);
        }
        lemma_collapse_chars(rest);
        assert forall|i: int| 0 <= i < c.len() implies safe_char(#[trigger] c[i]) by {
            if i > 0 {
                assert(c[i] == crate::commands::collapse_pairs(rest)[i - 1]);
            }
        }
    }
}

proof fn lemma_trim_start_char(x: Seq<char>, c: char)
    ensures
        exists|k: int| 0 <= k <= x.len() && #[trigger] x.skip(k) == crate::upgrade::trim_start_char(x, c),
        crate::upgrade::trim_start_char(x, c).len() > 0 ==> crate::upgrade::trim_start_char(x, c)[0] != c,
    decreases x.len(),
{
    if x.len() > 0 && x[0] == c {
        lemma_trim_start_char(x.drop_first(), c);
        let k = choose|k: int|
            0 <= k <= x.drop_first().len() && #[trigger] x.drop_first().skip(k)
                == crate::upgrade::trim_start_char(x.drop_first(), c);
        assert(x.skip(k + 1) == x.drop_first().skip(k));
    } else {
        assert(x.skip(0) == x);
    }
}

proof fn lemma_trim_end_char(y: Seq<char>, c: char)
    ensures
        ({
            let r = crate::hook::trim_end_char(y, c);
            &&& r.len() <= y.len()
            &&& r == y.take(r.len() as int)
            &&& r.len() > 0 ==> r.last() != c
        }),
    decreases y.len(),
{
    if y.len() > 0 && y.last() == c {
        lemma_trim_end_char(y.drop_last(), c);
        let r = crate::hook::trim_end_char(y, c);
        assert(y.drop_last().take(r.len() as int) == y.take(r.len() as int));
    } else {
        assert(y.take(y.len() as int) == y);
    }
}

/// A sanitized name holds only letters, digits, `-` and `_`, and neither
/// starts nor ends with `_`.
pub proof fn sanitized_names_are_safe(s: Seq<char>)
    ensures
        forall|i: int|
            0 <= i < crate::commands::sanitized(s).len() ==> safe_char(
                #[trigger] crate::commands::sanitized(s)[i],
            ),
        crate::commands::sanitized(s).len() > 0 ==> crate::commands::sanitized(s)[0] != '_'
            && crate::commands::sanitized(s).last() != '_',
{
    let mapped = s.map_values(|c: char| crate::commands::name_char(c));
    assert forall|i: int| 0 <= i < mapped.len() implies safe_char(#[trigger] mapped[i]) by {
        assert(mapped[i] == crate::commands::name_char(s[i]));
    }
    let c = crate::commands::collapse_pairs(mapped);
    lemma_collapse_chars(mapped);
    let x = crate::upgrade::trim_start_char(c, '_');
    lemma_trim_start_char(c, '_');
    let k = choose|k: int| 0 <= k <= c.len() && #[trigger] c.skip(k) == x;
    assert forall|i: int| 0 <= i < x.len() implies safe_char(#[trigger] x[i]) by {
        assert(x[i] == c[i + k]);
    }
    let r = crate::hook::trim_end_char(x, '_');
    lemma_trim_end_char(x, '_');
    assert(r == crate::commands::sanitized(s));
    assert forall|i: int| 0 <= i < r.len() implies safe_char(#[trigger] r[i]) by {
        assert(r[i] == x[i]);
    }
    if r.len() > 0 {
        assert(r[0] == x[0]);
    }
}

/// `t` without its underscores.
pub open spec fn without_underscores(t: Seq<char>) -> Seq<char>
    decreases t.len(),
{
    if t.len() == 0 {
        t
    } else {
        let r = without_underscores(t.drop_last());
        if t.last() == '_' {
            r
        } else {
            r.push(t.last())
        }
    }
}

/// The letters, digits and `-` of `s`, in order (`_` is neither a letter
/// nor a digit).
pub open spec fn name_core(s: Seq<char>) -> Seq<char>
    decreases s.len(),
{
    if s.len() == 0 {
        s
    } else {
        let r = name_core(s.drop_last());
        if s.last() != '_' && (crate::commands::alphanumeric(s.last()) || s.last() == '-') {
            r.push(s.last())
        } else {
            r
        }
    }
}

proof fn lemma_wu_concat(a: Seq<char>, b: Seq<char>)
    ensures
        without_underscores(a + b) == without_underscores(a) + without_underscores(b),
    decreases b.len(),
{
    if b.len() == 0 {
        assert(a + b =~= a);
        assert(without_underscores(a) + without_underscores(b) =~= without_underscores(a));
    } else {
        lemma_wu_concat(a, b.drop_last());
        assert((a + b).drop_last() =~= a + b.drop_last());
        assert((a + b).last() == b.last());
        if b.last() != '_' {
            assert(without_underscores(a) + without_underscores(b.drop_last()).push(b.last())
                =~= (without_underscores(a) + without_underscores(b.drop_last())).push(b.last()));
        }
    }
}

proof fn lemma_wu_front(c: char, x: Seq<char>)
    ensures
        without_underscores(seq![c] + x) == if c == '_' {
            without_underscores(x)
        } else {
            seq![c] + without_underscores(x)
        },
{
    lemma_wu_concat(seq![c], x);
    assert(seq![c].drop_last() =~= Seq::<char>::empty());
    assert(seq![c].last() == c);
    assert(without_underscores(Seq::<char>::empty()) == Seq::<char>::empty());
    if c == '_' {
        assert(without_underscores(seq![c]) == Seq::<char>::empty());
        assert(Seq::<char>::empty() + without_underscores(x) =~= without_underscores(x));
    } else {
        assert(without_underscores(seq![c]) =~= Seq::<char>::empty().push(c));
        assert(without_underscores(seq![c]) =~= seq![c]);
    }
}

proof fn lemma_wu_map(s: Seq<char>)
    ensures
        without_underscores(s.map_values(|c: char| crate::commands::name_char(c))) == name_core(s),
    decreases s.len(),
{
    let m = s.map_values(|c: char| crate::commands::name_char(c));
    if s.len() > 0 {
        lemma_wu_map(s.drop_last());
        assert(m.drop_last() =~= s.drop_last().map_values(|c: char| crate::commands::name_char(c)));
        assert(m.last() == crate::commands::name_char(s.last()));
    } else {
        assert(m =~= s);
    }
}

proof fn lemma_wu_collapse(t: Seq<char>)
    ensures
        without_underscores(crate::commands::collapse_pairs(t)) == without_underscores(t),
    decreases t.len(),
{
    if t.len() >= 2 && t[0] == '_' && t[1] == '_' {
        lemma_wu_collapse(t.skip(2));
        lemma_wu_front('_', crate::commands::collapse_pairs(t.skip(2)));
        assert(t =~= seq!['_'] + (seq!['_'] + t.skip(2)));
        lemma_wu_front('_', seq!['_'] + t.skip(2));
        lemma_wu_front('_', t.skip(2));
    } else if t.len() >= 1 {
        lemma_wu_collapse(t.skip(1));
        lemma_wu_front(t[0], crate::commands::collapse_pairs(t.skip(1)));
        assert(t =~= seq![t[0]] + t.skip(1));
        lemma_wu_front(t[0], t.skip(1));
    }
}

proof fn lemma_wu_trim_start(t: Seq<char>)
    ensures
        without_underscores(crate::upgrade::trim_start_char(t, '_')) == without_underscores(t),
    decreases t.len(),
{
    if t.len() > 0 && t[0] == '_' {
        lemma_wu_trim_start(t.drop_first());
        assert(t =~= seq!['_'] + t.drop_first());
        lemma_wu_front('_', t.drop_first());
    }
}

proof fn lemma_wu_trim_end(t: Seq<char>)
    ensures
        without_underscores(crate::hook::trim_end_char(t, '_')) == without_underscores(t),
    decreases t.len(),
{
    if t.len() > 0 && t.last() == '_' {
        lemma_wu_trim_end(t.drop_last());
    }
}

/// Sanitizing only turns other characters into `_` and drops or merges
/// `_`: with the underscores taken out, a sanitized name is exactly the
/// letters, digits and `-` of the original, in order.
pub proof fn sanitizing_keeps_name_characters(s: Seq<char>)
    ensures
        without_underscores(crate::commands::sanitized(s)) == name_core(s),
{
    let m = s.map_values(|c: char| crate::commands::name_char(c));
    lemma_wu_map(s);
    let c = crate::commands::collapse_pairs(m);
    lemma_wu_collapse(m);
    let x = crate::upgrade::trim_start_char(c, '_');
    lemma_wu_trim_start(c);
    lemma_wu_trim_end(x);
}

proof fn lemma_decimal_digits(n: nat)
    ensures
        crate::text::decimal(n).len() > 0,
        crate::text::all_digits(crate::text::decimal(n)),
        crate::text::dec_value(crate::text::decimal(n)) == n,
    decreases n,
{
    let d = crate::text::decimal(n);
    if n < 10 {
        assert(crate::text::dec_value(d) == crate::text::dec_value(d.drop_last()) * 10
            + crate::text::digit_value(d.last()));
        assert(d.drop_last() =~= Seq::<char>::empty());
    } else {
        lemma_decimal_digits(n / 10);
        let p = crate::text::decimal(n / 10);
        assert(d.drop_last() =~= p);
        assert forall|i: int| 0 <= i < d.len() implies crate::text::is_digit(#[trigger] d[i]) by {
            if i < p.len() {
                assert(d[i] == p[i]);
            }
        }
    }
}

/// Reading back an id written in decimal gives the id.
pub proof fn id_text_round_trip(n: i64)
    ensures
        crate::text::parse_i64(crate::text::signed_decimal(n as int)) == Some(n),
{
    if n < 0 {
        let m = (-n) as nat;
        lemma_decimal_digits(m);
        let s = crate::text::signed_decimal(n as int);
        assert(s.drop_first() =~= crate::text::decimal(m));
    } else {
        lemma_decimal_digits(n as nat);
        let d = crate::text::decimal(n as nat);
        assert(d[0] != '-' && d[0] != '+') by {
            assert(crate::text::is_digit(d[0]));
        }
    }
}

/// A repository can be named by its id written in decimal.
pub proof fn repository_found_by_its_id(m: DbModel, i: int)
    requires
        well_formed(m),
        0 <= i < m.repos.len(),
    ensures
        crate::db::resolve_target_spec(m, crate::text::signed_decimal(m.repos[i].id as int)) == Some(
            m.repos[i].id,
        ),
{
    id_text_round_trip(m.repos[i].id);
    lemma_unique_id(m.repos, m.repos[i].id, i);
}


// ---------------------------------------------------------------------------
// Taking a block out again
// ---------------------------------------------------------------------------

/// Lines, each followed by a newline.
pub open spec fn joined_lines(ls: Seq<Seq<char>>) -> Seq<char>
    decreases ls.len(),
{
    if ls.len() == 0 {
        Seq::empty()
    } else {
        ls[0] + seq!['\n'] + joined_lines(ls.drop_first())
    }
}

/// Whether the lines of `ls`, read from state `in_block`, end inside a block.
pub open spec fn block_state_after(ls: Seq<Seq<char>>, start: Seq<char>, end: Seq<char>, in_block: bool) -> bool
    decreases ls.len(),
{
    if ls.len() == 0 {
        in_block
    } else if contains(ls[0], start) {
        block_state_after(ls.drop_first(), start, end, true)
    } else if contains(ls[0], end) {
        block_state_after(ls.drop_first(), start, end, false)
    } else {
        block_state_after(ls.drop_first(), start, end, in_block)
    }
}

proof fn lemma_find_char_prefix(x: Seq<char>, y: Seq<char>, c: char)
    requires
        find_char(x, c) is Some,
    ensures
        find_char(x + y, c) == find_char(x, c),
{
    let p = seq![c];
    let xy = x + y;
    lemma_find_from(x, p, 0);
    lemma_find_from(xy, p, 0);
    let k = find_char(x, c)->0;
    assert(xy.subrange(k, k + 1) =~= x.subrange(k, k + 1));
    assert(matches_at(xy, p, k));
    match find_from(xy, p, 0) {
        Some(k2) => {
            if k2 < k {
                assert(xy.subrange(k2, k2 + 1) =~= x.subrange(k2, k2 + 1));
                assert(matches_at(x, p, k2));
            }
        },
        None => {},
    }
}

/// `c` occurs in `x` when it is its last character.
proof fn lemma_find_last(x: Seq<char>, c: char)
    requires
        x.len() > 0,
        x.last() == c,
    ensures
        find_char(x, c) matches Some(i) && 0 <= i < x.len() && x[i] == c,
{
    let p = seq![c];
    lemma_find_from(x, p, 0);
    assert(x.subrange(x.len() - 1, x.len() as int) =~= p);
    assert(matches_at(x, p, x.len() - 1));
    let i = find_char(x, c)->0;
    assert(x.subrange(i, i + 1)[0] == x[i]);
}

/// The lines of text ending in a newline, followed by more text, are its
/// lines followed by those of the rest.
proof fn lemma_lines_concat(x: Seq<char>, y: Seq<char>)
    requires
        x.len() > 0,
        x.last() == '\n',
    ensures
        lines(x + y) == lines(x) + lines(y),
    decreases x.len(),
{
    lemma_find_last(x, '\n');
    lemma_find_char_prefix(x, y, '\n');
    let i = find_char(x, '\n')->0;
    let xy = x + y;
    assert(xy.take(i) =~= x.take(i));
    assert(xy.skip(i + 1) =~= x.skip(i + 1) + y);
    assert(lines(x) == seq![strip_cr(x.take(i))] + lines(x.skip(i + 1)));
    assert(lines(xy) == seq![strip_cr(xy.take(i))] + lines(xy.skip(i + 1)));
    if i + 1 == x.len() {
        assert(x.skip(i + 1) =~= Seq::<char>::empty());
        assert(x.skip(i + 1) + y =~= y);
        assert(lines(x.skip(i + 1)) =~= Seq::<Seq<char>>::empty());
    } else {
        let x2 = x.skip(i + 1);
        assert(x2.last() == x.last());
        lemma_lines_concat(x2, y);
    }
    assert(lines(xy) =~= lines(x) + lines(y));
}

/// A line without newlines, ended by one, is one line.
proof fn lemma_single_line(s: Seq<char>)
    requires
        forall|j: int| 0 <= j < s.len() ==> s[j] != '\n',
        s.len() == 0 || s.last() != '\r',
    ensures
        lines(s + seq!['\n']) == seq![s],
{
    let x = s + seq!['\n'];
    lemma_find_last(x, '\n');
    let i = find_char(x, '\n')->0;
    assert(i == s.len()) by {
        if i < s.len() {
            assert(x[i] == s[i]);
        }
    }
    assert(x.take(i) =~= s);
    assert(x.skip(i + 1) =~= Seq::<char>::empty());
    assert(lines(x.skip(i + 1)) =~= Seq::<Seq<char>>::empty());
    assert(strip_cr(x.take(i)) == s);
    assert(lines(x) == seq![strip_cr(x.take(i))] + lines(x.skip(i + 1)));
    assert(lines(x) =~= seq![s]);
}

/// Joining the lines of text that ends in a newline (and has no carriage
/// returns) gives it back.
proof fn lemma_joined_lines(c: Seq<char>)
    requires
        c.len() == 0 || c.last() == '\n',
        forall|j: int| 0 <= j < c.len() ==> c[j] != '\r',
    ensures
        joined_lines(lines(c)) == c,
    decreases c.len(),
{
    if c.len() > 0 {
        lemma_find_last(c, '\n');
        let i = find_char(c, '\n')->0;
        let rest = c.skip(i + 1);
        if rest.len() > 0 {
            assert(rest.last() == c.last());
        }
        assert forall|j: int| 0 <= j < rest.len() implies rest[j] != '\r' by {
            assert(rest[j] == c[j + i + 1]);
        }
        lemma_joined_lines(rest);
        if i > 0 {
            assert(c.take(i).last() == c[i - 1]);
        }
        assert(strip_cr(c.take(i)) == c.take(i));
        let ls = lines(c);
        assert(ls == seq![c.take(i)] + lines(rest));
        assert(ls[0] == c.take(i));
        assert(ls.drop_first() =~= lines(rest));
        assert(c =~= c.take(i) + seq!['\n'] + rest);
    }
}

/// Lines with neither guard are all kept, and leave the state as it was.
proof fn lemma_kept_plain(ls: Seq<Seq<char>>, s: Seq<char>, e: Seq<char>)
    requires
        forall|j: int| 0 <= j < ls.len() ==> !contains(#[trigger] ls[j], s) && !contains(ls[j], e),
    ensures
        kept_lines(ls, s, e, false) == joined_lines(ls),
        block_state_after(ls, s, e, false) == false,
    decreases ls.len(),
{
    if ls.len() > 0 {
        let r = ls.drop_first();
        assert forall|j: int| 0 <= j < r.len() implies !contains(#[trigger] r[j], s) && !contains(r[j], e) by {
            assert(r[j] == ls[j + 1]);
        }
        assert(!contains(ls[0], s) && !contains(ls[0], e));
        lemma_kept_plain(r, s, e);
    }
}

/// Inside a block, lines without the end guard are dropped, and the block
/// stays open.
proof fn lemma_kept_inside(ls: Seq<Seq<char>>, s: Seq<char>, e: Seq<char>)
    requires
        forall|j: int| 0 <= j < ls.len() ==> !contains(#[trigger] ls[j], e),
    ensures
        kept_lines(ls, s, e, true) == Seq::<char>::empty(),
        block_state_after(ls, s, e, true) == true,
    decreases ls.len(),
{
    if ls.len() > 0 {
        let r = ls.drop_first();
        assert forall|j: int| 0 <= j < r.len() implies !contains(#[trigger] r[j], e) by {
            assert(r[j] == ls[j + 1]);
        }
        assert(!contains(ls[0], e));
        lemma_kept_inside(r, s, e);
    }
}

/// What is kept of two runs of lines is what is kept of the first, then of
/// the second from the state the first ends in.
proof fn lemma_kept_concat(a: Seq<Seq<char>>, b: Seq<Seq<char>>, s: Seq<char>, e: Seq<char>, st: bool)
    ensures
        kept_lines(a + b, s, e, st) == kept_lines(a, s, e, st) + kept_lines(
            b,
            s,
            e,
            block_state_after(a, s, e, st),
        ),
        block_state_after(a + b, s, e, st) == block_state_after(b, s, e, block_state_after(a, s, e, st)),
    decreases a.len(),
{
    if a.len() == 0 {
        assert(a + b =~= b);
    } else {
        let ab = a + b;
        assert(ab[0] == a[0]);
        assert(ab.drop_first() =~= a.drop_first() + b);
        let next = if contains(a[0], s) {
            true
        } else if contains(a[0], e) {
            false
        } else {
            st
        };
        lemma_kept_concat(a.drop_first(), b, s, e, next);
        if !contains(a[0], s) && !contains(a[0], e) && !st {
            assert(kept_lines(ab, s, e, st) =~= kept_lines(a, s, e, st) + kept_lines(
                b,
                s,
                e,
                block_state_after(a, s, e, st),
            ));
        }
    }
}

proof fn lemma_contains_self(s: Seq<char>)
    ensures
        contains(s, s),
{
    assert(s.subrange(0, s.len() as int) =~= s);
    assert(matches_at(s, s, 0));
    lemma_contains(s, s);
}

proof fn lemma_empty_contains_nothing(s: Seq<char>)
    requires
        s.len() > 0,
    ensures
        !contains(Seq::<char>::empty(), s),
{
    lemma_contains(Seq::<char>::empty(), s);
}

/// Requirements on a guard line: not empty, one line, not ending in a
/// carriage return.
pub open spec fn guard_line(g: Seq<char>) -> bool {
    g.len() > 0 && (forall|j: int| 0 <= j < g.len() ==> g[j] != '\n') && g.last() != '\r'
}

/// Text that ends in a newline, has no carriage returns and no line
/// holding `s` or `e`.
pub open spec fn plain_lines(c: Seq<char>, s: Seq<char>, e: Seq<char>) -> bool {
    &&& c.len() > 0
    &&& c.last() == '\n'
    &&& forall|j: int| 0 <= j < c.len() ==> c[j] != '\r'
    &&& forall|j: int|
        0 <= j < lines(c).len() ==> !contains(#[trigger] lines(c)[j], s) && !contains(lines(c)[j], e)
}

/// Requirements on the text a block is appended to: it ends with a single
/// newline, has no carriage returns and no line holding a guard.
pub open spec fn plain_text(c: Seq<char>, s: Seq<char>, e: Seq<char>) -> bool {
    &&& plain_lines(c, s, e)
    &&& !(c.len() >= 2 && c[c.len() - 2] == '\n')
}

/// The lines of a block `s + body + e` followed by a newline.
proof fn lemma_block_lines(s: Seq<char>, body: Seq<char>, e: Seq<char>)
    requires
        guard_line(s),
        guard_line(e),
        body.len() > 0,
        body[0] == '\n',
        body.last() == '\n',
    ensures
        lines(s + body + e + seq!['\n']) == seq![s] + (lines(body.skip(1)) + seq![e]),
{
    let inner = body.skip(1);
    let tail = e + seq!['\n'];
    let x = s + seq!['\n'];
    assert(s + body + e + seq!['\n'] =~= x + (inner + tail));
    lemma_lines_concat(x, inner + tail);
    lemma_single_line(s);
    lemma_single_line(e);
    if inner.len() > 0 {
        assert(inner.last() == body.last());
        lemma_lines_concat(inner, tail);
    } else {
        assert(inner + tail =~= tail);
        assert(lines(inner) =~= Seq::<Seq<char>>::empty());
    }
    assert(lines(inner + tail) == lines(inner) + seq![e]);
}

/// The lines of a block `s + body + e` followed by a newline are all dropped
/// and close the block.
proof fn lemma_block_dropped(s: Seq<char>, body: Seq<char>, e: Seq<char>)
    requires
        guard_line(s),
        guard_line(e),
        !contains(e, s),
        body.len() > 0,
        body[0] == '\n',
        body.last() == '\n',
        forall|j: int|
            0 <= j < lines(body.skip(1)).len() ==> !contains(#[trigger] lines(body.skip(1))[j], e),
    ensures
        kept_lines(lines(s + body + e + seq!['\n']), s, e, false) == Seq::<char>::empty(),
        block_state_after(lines(s + body + e + seq!['\n']), s, e, false) == false,
{
    lemma_block_lines(s, body, e);
    let li = lines(body.skip(1));
    lemma_contains_self(s);
    lemma_contains_self(e);
    lemma_kept_inside(li, s, e);
    lemma_kept_concat(seq![s], li + seq![e], s, e, false);
    lemma_kept_concat(li, seq![e], s, e, true);
    assert(seq![e][0] == e);
    assert(seq![e].drop_first() =~= Seq::<Seq<char>>::empty());
    assert(kept_lines(seq![e], s, e, true) == kept_lines(Seq::<Seq<char>>::empty(), s, e, false));
    assert(kept_lines(Seq::<Seq<char>>::empty(), s, e, false) =~= Seq::<char>::empty());
    assert(block_state_after(seq![e], s, e, true) == block_state_after(
        Seq::<Seq<char>>::empty(),
        s,
        e,
        false,
    ));
    assert(seq![s][0] == s);
    assert(seq![s].drop_first() =~= Seq::<Seq<char>>::empty());
    assert(kept_lines(Seq::<Seq<char>>::empty(), s, e, true) =~= Seq::<char>::empty());
    assert(block_state_after(Seq::<Seq<char>>::empty(), s, e, true) == true);
    assert(kept_lines(seq![s], s, e, false) =~= Seq::<char>::empty());
    assert(block_state_after(seq![s], s, e, false) == true);
}

/// What is kept of the appended text: the text appended to and the empty line
/// before the block.
proof fn lemma_kept_appended(c: Seq<char>, s: Seq<char>, body: Seq<char>, e: Seq<char>)
    requires
        plain_lines(c, s, e),
        guard_line(s),
        guard_line(e),
        !contains(e, s),
        body.len() > 0,
        body[0] == '\n',
        body.last() == '\n',
        forall|j: int|
            0 <= j < lines(body.skip(1)).len() ==> !contains(#[trigger] lines(body.skip(1))[j], e),
    ensures
        kept_lines(lines(appended(c, s + body + e)), s, e, false) == c + seq!['\n'],
        block_state_after(lines(appended(c, s + body + e)), s, e, false) == false,
{
    let b = s + body + e;
    let rb = b + seq!['\n'];
    let a = appended(c, b);
    assert(a =~= c + (seq!['\n'] + rb));
    lemma_lines_concat(c, seq!['\n'] + rb);
    lemma_lines_concat(seq!['\n'], rb);
    lemma_single_line(Seq::<char>::empty());
    assert(Seq::<char>::empty() + seq!['\n'] =~= seq!['\n']);
    let lc = lines(c);
    let lb = lines(rb);
    let one = seq![Seq::<char>::empty()];
    assert(lines(a) == lc + (one + lb));
    lemma_kept_plain(lc, s, e);
    lemma_joined_lines(c);
    lemma_kept_concat(lc, one + lb, s, e, false);
    lemma_empty_contains_nothing(s);
    lemma_empty_contains_nothing(e);
    lemma_block_dropped(s, body, e);
    lemma_kept_concat(one, lb, s, e, false);
    assert(one[0] == Seq::<char>::empty());
    assert(one.drop_first() =~= Seq::<Seq<char>>::empty());
    assert(kept_lines(one.drop_first(), s, e, false) =~= Seq::<char>::empty());
    assert(kept_lines(one, s, e, false) =~= seq!['\n']);
    assert(block_state_after(Seq::<Seq<char>>::empty(), s, e, false) == false);
    assert(block_state_after(one, s, e, false) == false);
    assert(kept_lines(lines(a), s, e, false) =~= c + seq!['\n']);
}

/// Taking out the block that was just appended to a start-up file gives the
/// file back, when the file ends in a single newline, has no carriage
/// returns and no line holding a guard, and the block's guard lines are
/// single lines around a body whose lines do not hold the end guard.
pub proof fn removing_appended_block_restores(c: Seq<char>, s: Seq<char>, body: Seq<char>, e: Seq<char>)
    requires
        plain_text(c, s, e),
        guard_line(s),
        guard_line(e),
        !contains(e, s),
        body.len() > 0,
        body[0] == '\n',
        body.last() == '\n',
        forall|j: int|
            0 <= j < lines(body.skip(1)).len() ==> !contains(#[trigger] lines(body.skip(1))[j], e),
    ensures
        without_block(appended(c, s + body + e), s, e) == c,
{
    lemma_kept_appended(c, s, body, e);
    let k = c + seq!['\n'];
    assert(k.drop_last() =~= c);
    assert(single_final_newline(k) == single_final_newline(c));
}


/// No line of a text holds a character the text does not hold.
proof fn lemma_lines_lack_char(t: Seq<char>, c: char)
    requires
        forall|j: int| 0 <= j < t.len() ==> t[j] != c,
    ensures
        forall|i: int, k: int|
            0 <= i < lines(t).len() && 0 <= k < lines(t)[i].len() ==> #[trigger] lines(t)[i][k] != c,
    decreases t.len(),
{
    if t.len() > 0 {
        match find_char(t, '\n') {
            Some(n) => {
                if 0 <= n < t.len() {
                    let rest = t.skip(n + 1);
                    assert forall|j: int| 0 <= j < rest.len() implies rest[j] != c by {
                        assert(rest[j] == t[j + n + 1]);
                    }
                    lemma_lines_lack_char(rest, c);
                    let first = strip_cr(t.take(n));
                    assert(lines(t) == seq![first] + lines(rest));
                    assert forall|i: int, k: int|
                        0 <= i < lines(t).len() && 0 <= k < lines(t)[i].len() implies #[trigger] lines(
                        t,
                    )[i][k] != c by {
                        if i == 0 {
                            assert(lines(t)[0] == first);
                            assert(first[k] == t[k]);
                        } else {
                            assert(lines(t)[i] == lines(rest)[i - 1]);
                        }
                    }
                }
            },
            None => {},
        }
    }
}

/// A text without `#`, or whose only `#` starts it and which differs from a
/// guard line at position `k`, does not hold that guard line.
proof fn lemma_guard_absent(x: Seq<char>, g: Seq<char>, k: int)
    requires
        crate::shell::hash_line(g),
        forall|j: int| 0 < j < x.len() ==> x[j] != '#',
        x.len() > 0 && x[0] == '#' ==> (x.len() < g.len() || (0 <= k < g.len() && k < x.len()
            && x[k] != g[k])),
    ensures
        !contains(x, g),
{
    lemma_contains(x, g);
    if contains(x, g) {
        let j = choose|j: int| matches_at(x, g, j);
        assert(x.subrange(j, j + g.len())[0] == x[j]);
        assert(x[j] == '#');
        assert(j == 0);
        assert(x.subrange(0, g.len() as int)[k] == x[k]);
    }
}

/// Removing the first of two appended blocks leaves the second appended
/// after an empty line.
proof fn lemma_first_block_removed(
    c: Seq<char>,
    s1: Seq<char>,
    b1: Seq<char>,
    e1: Seq<char>,
    s2: Seq<char>,
    b2: Seq<char>,
    e2: Seq<char>,
)
    requires
        plain_lines(c, s1, e1),
        guard_line(s1),
        guard_line(e1),
        !contains(e1, s1),
        b1.len() > 0,
        b1[0] == '\n',
        b1.last() == '\n',
        forall|j: int| 0 <= j < lines(b1.skip(1)).len() ==> !contains(#[trigger] lines(b1.skip(1))[j], e1),
        guard_line(s2),
        guard_line(e2),
        b2.len() > 0,
        b2[0] == '\n',
        b2.last() == '\n',
        forall|j: int| 0 <= j < (s2 + b2 + e2).len() ==> (s2 + b2 + e2)[j] != '\r',
        !contains(s2, s1) && !contains(s2, e1) && !contains(e2, s1) && !contains(e2, e1),
        forall|j: int|
            0 <= j < lines(b2.skip(1)).len() ==> !contains(#[trigger] lines(b2.skip(1))[j], s1)
                && !contains(lines(b2.skip(1))[j], e1),
    ensures
        without_block(appended(appended(c, s1 + b1 + e1), s2 + b2 + e2), s1, e1) == appended(
            c + seq!['\n'],
            s2 + b2 + e2,
        ),
{
    let y = appended(c, s1 + b1 + e1);
    let b = s2 + b2 + e2;
    let rb = b + seq!['\n'];
    let x = appended(y, b);
    lemma_kept_appended(c, s1, b1, e1);
    assert(y.len() > 0 && y.last() == '\n');
    assert(x =~= y + (seq!['\n'] + rb));
    lemma_lines_concat(y, seq!['\n'] + rb);
    lemma_lines_concat(seq!['\n'], rb);
    lemma_single_line(Seq::<char>::empty());
    assert(Seq::<char>::empty() + seq!['\n'] =~= seq!['\n']);
    let one = seq![Seq::<char>::empty()];
    let lb = lines(rb);
    assert(lines(x) == lines(y) + (one + lb));
    lemma_kept_concat(lines(y), one + lb, s1, e1, false);
    lemma_kept_concat(one, lb, s1, e1, false);
    lemma_empty_contains_nothing(s1);
    lemma_empty_contains_nothing(e1);
    assert(one[0] == Seq::<char>::empty());
    assert(one.drop_first() =~= Seq::<Seq<char>>::empty());
    assert(kept_lines(one.drop_first(), s1, e1, false) =~= Seq::<char>::empty());
    assert(kept_lines(one, s1, e1, false) =~= seq!['\n']);
    assert(block_state_after(Seq::<Seq<char>>::empty(), s1, e1, false) == false);
    assert(block_state_after(one, s1, e1, false) == false);
    // the second block is kept whole
    lemma_block_lines(s2, b2, e2);
    let l2 = lines(b2.skip(1));
    assert(lb == seq![s2] + (l2 + seq![e2]));
    assert forall|j: int| 0 <= j < lb.len() implies !contains(#[trigger] lb[j], s1) && !contains(lb[j], e1) by {
        if j == 0 {
            assert(lb[0] == s2);
        } else if j < lb.len() - 1 {
            assert(lb[j] == l2[j - 1]);
        } else {
            assert(lb[j] == e2);
        }
    }
    lemma_kept_plain(lb, s1, e1);
    lemma_joined_lines(rb);
    let k = kept_lines(lines(x), s1, e1, false);
    assert(k =~= c + seq!['\n'] + seq!['\n'] + rb);
    assert(k.len() >= 2 && k.last() == '\n' && k[k.len() - 2] == e2.last());
    assert(single_final_newline(k) == k);
    assert(appended(c + seq!['\n'], b) =~= c + seq!['\n'] + seq!['\n'] + rb);
}

/// Taking out both blocks after the shim and then the alias block were
/// appended gives the file back, under the conditions of
/// `removing_appended_block_restores` for both blocks, when the second
/// block's lines hold neither guard of the first and it has no carriage
/// returns.
pub proof fn removing_both_blocks_restores(
    c: Seq<char>,
    s1: Seq<char>,
    b1: Seq<char>,
    e1: Seq<char>,
    s2: Seq<char>,
    b2: Seq<char>,
    e2: Seq<char>,
)
    requires
        plain_text(c, s1, e1),
        plain_text(c, s2, e2),
        guard_line(s1),
        guard_line(e1),
        !contains(e1, s1),
        b1.len() > 0,
        b1[0] == '\n',
        b1.last() == '\n',
        forall|j: int| 0 <= j < lines(b1.skip(1)).len() ==> !contains(#[trigger] lines(b1.skip(1))[j], e1),
        guard_line(s2),
        guard_line(e2),
        !contains(e2, s2),
        b2.len() > 0,
        b2[0] == '\n',
        b2.last() == '\n',
        forall|j: int| 0 <= j < lines(b2.skip(1)).len() ==> !contains(#[trigger] lines(b2.skip(1))[j], e2),
        forall|j: int| 0 <= j < (s2 + b2 + e2).len() ==> (s2 + b2 + e2)[j] != '\r',
        !contains(s2, s1) && !contains(s2, e1) && !contains(e2, s1) && !contains(e2, e1),
        forall|j: int|
            0 <= j < lines(b2.skip(1)).len() ==> !contains(#[trigger] lines(b2.skip(1))[j], s1)
                && !contains(lines(b2.skip(1))[j], e1),
    ensures
        without_block(
            without_block(appended(appended(c, s1 + b1 + e1), s2 + b2 + e2), s1, e1),
            s2,
            e2,
        ) == c,
{
    lemma_first_block_removed(c, s1, b1, e1, s2, b2, e2);
    let c2 = c + seq!['\n'];
    lemma_lines_concat(c, seq!['\n']);
    lemma_single_line(Seq::<char>::empty());
    assert(Seq::<char>::empty() + seq!['\n'] =~= seq!['\n']);
    assert(lines(c2) == lines(c) + seq![Seq::<char>::empty()]);
    lemma_empty_contains_nothing(s2);
    lemma_empty_contains_nothing(e2);
    assert forall|j: int| 0 <= j < lines(c2).len() implies !contains(#[trigger] lines(c2)[j], s2)
        && !contains(lines(c2)[j], e2) by {
        if j < lines(c).len() {
            assert(lines(c2)[j] == lines(c)[j]);
        } else {
            assert(lines(c2)[j] == Seq::<char>::empty());
        }
    }
    assert(plain_lines(c2, s2, e2));
    lemma_kept_appended(c2, s2, b2, e2);
    let k = c2 + seq!['\n'];
    assert(k.drop_last() =~= c2);
    assert(c2.drop_last() =~= c);
    assert(single_final_newline(k) == single_final_newline(c2));
    assert(single_final_newline(c2) == single_final_newline(c));
}

/// Uninstalling gives back a bash or zsh start-up file as it was before
/// `init` and `config alias` wrote the shim and the alias into it, when the
/// file ends in a single newline, has no carriage returns, holds no line
/// with a guard and is not blank.
pub proof fn uninstall_restores_start_up_file(c: Seq<char>)
    requires
        plain_text(c, GUARD_START@, GUARD_END@),
        plain_text(c, ALIAS_GUARD_START@, ALIAS_GUARD_END@),
        crate::text::trim(c).len() > 0,
    ensures
        crate::shell::without_blocks(appended(appended(c, bash_zsh_shim_text()), bash_zsh_alias_text()))
            == c,
{
    crate::shell::lemma_guard_texts();
    crate::shell::lemma_bash_zsh_bodies();
    let gs = GUARD_START@;
    let ge = GUARD_END@;
    let ags = ALIAS_GUARD_START@;
    let age = ALIAS_GUARD_END@;
    let b1 = crate::shell::BASH_ZSH_SHIM_BODY@;
    let b2 = crate::shell::BASH_ZSH_ALIAS_BODY@;
    assert(guard_line(gs) && guard_line(ge) && guard_line(ags) && guard_line(age));
    lemma_guard_absent(ge, gs, 2);
    lemma_guard_absent(age, ags, 2);
    lemma_guard_absent(ags, gs, 13);
    lemma_guard_absent(ags, ge, 2);
    lemma_guard_absent(age, gs, 2);
    lemma_guard_absent(age, ge, 13);
    lemma_lines_lack_char(b1.skip(1), '#');
    lemma_lines_lack_char(b2.skip(1), '#');
    assert forall|j: int| 0 <= j < lines(b1.skip(1)).len() implies !contains(
        #[trigger] lines(b1.skip(1))[j],
        ge,
    ) by {
        let l = lines(b1.skip(1))[j];
        assert forall|i: int| 0 < i < l.len() implies l[i] != '#' by {
            assert(lines(b1.skip(1))[j][i] != '#');
        }
        if l.len() > 0 {
            assert(lines(b1.skip(1))[j][0] != '#');
        }
        lemma_guard_absent(l, ge, 0);
    }
    assert forall|j: int| 0 <= j < lines(b2.skip(1)).len() implies !contains(
        #[trigger] lines(b2.skip(1))[j],
        age,
    ) && !contains(lines(b2.skip(1))[j], gs) && !contains(lines(b2.skip(1))[j], ge) by {
        let l = lines(b2.skip(1))[j];
        assert forall|i: int| 0 < i < l.len() implies l[i] != '#' by {
            assert(lines(b2.skip(1))[j][i] != '#');
        }
        if l.len() > 0 {
            assert(lines(b2.skip(1))[j][0] != '#');
        }
        lemma_guard_absent(l, age, 0);
        lemma_guard_absent(l, gs, 0);
        lemma_guard_absent(l, ge, 0);
    }
    let b = ags + b2 + age;
    assert forall|j: int| 0 <= j < b.len() implies b[j] != '\r' by {
        if j < ags.len() {
            assert(b[j] == ags[j]);
        } else if j < ags.len() + b2.len() {
            assert(b[j] == b2[j - ags.len()]);
        } else {
            assert(b[j] == age[j - ags.len() - b2.len()]);
        }
    }
    assert(bash_zsh_shim_text() == gs + b1 + ge);
    assert(bash_zsh_alias_text() == ags + b2 + age);
    removing_both_blocks_restores(c, gs, b1, ge, ags, b2, age);
}

} // verus!
