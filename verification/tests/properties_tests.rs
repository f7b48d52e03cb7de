use gitreg::commands::{check_and_run_autoprune, sanitize_name};
use gitreg::db::Database;
use gitreg::shell::{
    inject_alias_bash_zsh, inject_bash_zsh, is_alias_enabled, remove_block, ALIAS_GUARD_START,
    GUARD_END, GUARD_START,
};

#[test]
fn registered_path_is_known_again() {
    let mut db = Database::open_in_memory().unwrap();
    assert!(db.upsert("/p/one", Some("o/one")).unwrap());
    assert!(!db.upsert("/p/one", None).unwrap());
    assert!(db.resolve_target("/p/one").unwrap().is_some());
}

#[test]
fn reregistering_keeps_entry_but_refreshes_time() {
    let mut db = Database::open_in_memory().unwrap();
    db.upsert("/p/keep", Some("o/keep")).unwrap();
    let before = db.list().unwrap()[0].clone();
    db.add_tag(before.id, "t").unwrap();
    db.upsert("/p/keep", None).unwrap();
    let after = db.list().unwrap()[0].clone();
    assert_eq!(after.id, before.id);
    assert_eq!(after.name, before.name);
    assert_eq!(after.tags, vec!["t".to_string()]);
    assert!(after.last_seen >= before.last_seen);
}

#[test]
fn removed_repository_cannot_be_found() {
    let mut db = Database::open_in_memory().unwrap();
    db.upsert("/p/gone", None).unwrap();
    let id = db.list().unwrap()[0].id;
    assert_eq!(db.remove_by_id(id).unwrap(), Some("/p/gone".to_string()));
    assert_eq!(db.resolve_target(&id.to_string()).unwrap(), None);
    assert_eq!(db.resolve_target("/p/gone").unwrap(), None);
}

#[test]
fn untagging_undoes_tagging_on_values() {
    let mut db = Database::open_in_memory().unwrap();
    db.upsert("/p/t", None).unwrap();
    let id = db.list().unwrap()[0].id;
    db.add_tag(id, "x").unwrap();
    let before = db.list().unwrap()[0].tags.clone();
    db.add_tag(id, "y").unwrap();
    db.remove_tag(id, "y").unwrap();
    assert_eq!(db.list().unwrap()[0].tags, before);
}

#[test]
fn setting_reads_back_on_values() {
    let mut db = Database::open_in_memory().unwrap();
    db.set_setting("k", "v1").unwrap();
    db.set_setting("other", "o").unwrap();
    db.set_setting("k", "v2").unwrap();
    assert_eq!(db.get_setting("k").unwrap(), Some("v2".to_string()));
    assert_eq!(db.get_setting("other").unwrap(), Some("o".to_string()));
}

#[test]
fn autoprune_once_a_day_on_values() {
    let mut db = Database::open_in_memory().unwrap();
    assert!(check_and_run_autoprune(&mut db, "2030-01-01", "00:00").unwrap());
    assert!(!check_and_run_autoprune(&mut db, "2030-01-01", "00:00").unwrap());
}

#[test]
fn exclusion_covers_tree_on_values() {
    let mut db = Database::open_in_memory().unwrap();
    db.add_exclusion("/e").unwrap();
    assert!(db.is_excluded("/e").unwrap());
    assert!(db.is_excluded("/e/a/b").unwrap());
    assert!(!db.is_excluded("/ex").unwrap());
}

#[test]
fn nothing_remains_under_exclusion_on_values() {
    let mut db = Database::open_in_memory().unwrap();
    db.upsert("/e/one", None).unwrap();
    db.upsert("/e", None).unwrap();
    db.upsert("/f", None).unwrap();
    db.remove_by_exclusion("/e").unwrap();
    let rows = db.list().unwrap();
    assert_eq!(rows.len(), 1);
    assert_eq!(rows[0].path, "/f");
}

#[test]
fn pruning_leaves_present_unexcluded_on_values() {
    let mut db = Database::open_in_memory().unwrap();
    db.upsert("/", None).unwrap();
    db.upsert("/definitely/missing/gitreg/path", None).unwrap();
    db.prune().unwrap();
    let rows = db.list().unwrap();
    assert_eq!(rows.len(), 1);
    assert_eq!(rows[0].path, "/");
}

#[test]
fn registered_socket_is_notified_on_values() {
    let mut db = Database::open_in_memory().unwrap();
    db.register_integration("app", "git.push", "/s").unwrap();
    assert_eq!(
        db.get_active_listeners_for_event("git.push").unwrap(),
        vec!["/s".to_string()]
    );
    assert!(db.get_active_listeners_for_event("git.pull").unwrap().is_empty());
}

#[test]
fn only_unblocked_apps_notified_on_values() {
    let mut db = Database::open_in_memory().unwrap();
    db.register_integration("app", "removed", "/s").unwrap();
    db.block_app("app").unwrap();
    assert!(db.get_active_listeners_for_event("removed").unwrap().is_empty());
}

#[test]
fn unregistering_undoes_registering_on_values() {
    let mut db = Database::open_in_memory().unwrap();
    db.register_integration("app", "tagged", "/s1").unwrap();
    let before = db.list_integrations().unwrap().len();
    db.register_integration("app", "untagged", "/s2").unwrap();
    assert!(db.unregister_integration("app", "untagged").unwrap());
    assert_eq!(db.list_integrations().unwrap().len(), before);
}

#[test]
fn app_created_once_on_values() {
    let mut db = Database::open_in_memory().unwrap();
    let a = db.get_or_create_app("x").unwrap();
    let b = db.get_or_create_app("x").unwrap();
    let c = db.get_or_create_app("y").unwrap();
    assert_eq!(a, b);
    assert_ne!(a, c);
}

#[test]
fn shim_written_once_on_values() {
    let once = inject_bash_zsh("echo hi\n", "/rc").unwrap();
    assert!(once.contains(GUARD_START));
    assert!(inject_bash_zsh(&once, "/rc").is_err());
}

#[test]
fn alias_written_once_on_values() {
    let once = inject_alias_bash_zsh("echo hi").unwrap();
    assert!(once.contains(ALIAS_GUARD_START));
    assert!(is_alias_enabled(&[once.clone()]));
    assert_eq!(inject_alias_bash_zsh(&once), None);
}

#[test]
fn sanitized_names_are_safe_on_values() {
    for input in ["_a b_", "ünï/cödé", "--x--", "__", "a..b", " lead"] {
        let s = sanitize_name(input);
        assert!(!s.starts_with('_') && !s.ends_with('_'), "{s}");
        assert!(s.chars().all(|c| c.is_alphanumeric() || c == '-' || c == '_'));
    }
}

#[test]
fn repository_found_by_its_id_on_values() {
    let mut db = Database::open_in_memory().unwrap();
    for p in ["/i/1", "/i/2", "/i/3"] {
        db.upsert(p, None).unwrap();
    }
    for r in db.list().unwrap() {
        assert_eq!(db.resolve_target(&r.id.to_string()).unwrap(), Some(r.id));
    }
}

#[test]
fn removing_appended_block_restores_on_values() {
    for before in ["export PATH=/bin\n", "a\nb\n\nc\n", "x\n"] {
        let injected = inject_bash_zsh(before, "/rc").unwrap();
        assert_eq!(remove_block(&injected, GUARD_START, GUARD_END), before);
    }
}

#[test]
fn blocking_keeps_registrations_and_silences_the_app() {
    let mut db = Database::open_in_memory().unwrap();
    db.register_integration("app-a", "registered", "/tmp/a.sock").unwrap();
    db.register_integration("app-b", "registered", "/tmp/b.sock").unwrap();
    let before = db.list_integrations().unwrap();
    assert!(db.block_app("app-a").unwrap());
    let blocked = db.list_integrations().unwrap();
    assert_eq!(blocked.len(), before.len());
    for (b, a) in before.iter().zip(blocked.iter()) {
        assert_eq!(a.app_name, b.app_name);
        assert_eq!(a.event, b.event);
        assert_eq!(a.socket_path, b.socket_path);
        assert_eq!(a.is_blocked, a.app_name == "app-a");
    }
    assert_eq!(
        db.get_active_listeners_for_event("registered").unwrap(),
        vec!["/tmp/b.sock".to_string()]
    );
    assert!(db.unblock_app("app-a").unwrap());
    let after = db.list_integrations().unwrap();
    for (b, a) in before.iter().zip(after.iter()) {
        assert_eq!(a.is_blocked, b.is_blocked);
    }
    assert_eq!(
        db.get_active_listeners_for_event("registered").unwrap(),
        vec!["/tmp/a.sock".to_string(), "/tmp/b.sock".to_string()]
    );
    assert!(!db.unblock_app("nobody").unwrap());
}

#[test]
fn removing_an_app_drops_its_registrations() {
    let mut db = Database::open_in_memory().unwrap();
    db.register_integration("app-a", "registered", "/tmp/a.sock").unwrap();
    db.register_integration("app-b", "registered", "/tmp/b.sock").unwrap();
    assert!(db.remove_app("app-a").unwrap());
    let left = db.list_integrations().unwrap();
    assert_eq!(left.len(), 1);
    assert_eq!(left[0].app_name, "app-b");
    assert_eq!(
        db.get_active_listeners_for_event("registered").unwrap(),
        vec!["/tmp/b.sock".to_string()]
    );
    assert!(!db.remove_app("app-a").unwrap());
}

#[test]
fn targets_select_each_repository_once() {
    let mut db = Database::open_in_memory().unwrap();
    db.upsert("/p/a", Some("o/a")).unwrap();
    db.upsert("/p/b", None).unwrap();
    let rows = db.list().unwrap();
    let id_a = rows.iter().find(|r| r.path == "/p/a").unwrap().id;
    let id_b = rows.iter().find(|r| r.path == "/p/b").unwrap().id;
    db.add_tag(id_a, "t").unwrap();
    db.add_tag(id_b, "t").unwrap();
    let picked = db.resolve_many("o/a, @t ,/p/a,,/p/b").unwrap();
    let paths: Vec<&str> = picked.iter().map(|r| r.path.as_str()).collect();
    assert_eq!(paths, vec!["/p/a", "/p/b"]);
    assert_eq!(picked[0].tags, vec!["t".to_string()]);
}

#[test]
fn pruning_reports_each_removed_path_once() {
    let mut db = Database::open_in_memory().unwrap();
    db.upsert("/q/a", None).unwrap();
    db.upsert("/q/b", None).unwrap();
    db.upsert("/q/c", None).unwrap();
    db.add_exclusion("/q/c").unwrap();
    let missing = vec!["/q/a".to_string(), "/q/a".to_string()];
    let mut removed = db.prune_missing(&missing).unwrap();
    removed.sort();
    assert_eq!(removed, vec!["/q/a".to_string(), "/q/c".to_string()]);
    let left: Vec<String> = db.list().unwrap().into_iter().map(|r| r.path).collect();
    assert_eq!(left, vec!["/q/b".to_string()]);
}
