use gitreg::db::{millis_from_clock, Database};
use gitreg::error::GitregError;

#[test]
fn upsert_and_list() {
    let mut db = Database::open_in_memory().unwrap();
    db.upsert("/tmp/repo_a", None).unwrap();
    db.upsert("/tmp/repo_b", None).unwrap();
    db.upsert("/tmp/repo_a", None).unwrap();
    let rows = db.list().unwrap();
    assert_eq!(rows.len(), 2);
    assert!(rows.iter().any(|r| r.path == "/tmp/repo_a"));
    assert!(rows.iter().any(|r| r.path == "/tmp/repo_b"));
}

#[test]
fn remove() {
    let mut db = Database::open_in_memory().unwrap();
    db.upsert("/tmp/repo_x", None).unwrap();
    let id = db.list().unwrap()[0].id;
    assert!(db.remove_by_id(id).unwrap().is_some());
    assert!(db.remove_by_id(id).unwrap().is_none());
    assert_eq!(db.list().unwrap().len(), 0);
}

#[test]
fn prune_removes_missing() {
    let mut db = Database::open_in_memory().unwrap();
    db.upsert("/nonexistent/path/that/cannot/exist/xyz123", None)
        .unwrap();
    let removed = db.prune().unwrap();
    assert_eq!(removed.len(), 1);
    assert_eq!(db.list().unwrap().len(), 0);
}

#[test]
fn name_stored_and_retrieved() {
    let mut db = Database::open_in_memory().unwrap();
    db.upsert("/tmp/repo_named", Some("octocat/hello")).unwrap();
    let rows = db.list().unwrap();
    assert_eq!(rows[0].name.as_deref(), Some("octocat/hello"));
}

#[test]
fn upsert_preserves_name_on_update() {
    let mut db = Database::open_in_memory().unwrap();
    db.upsert("/tmp/repo_n", Some("owner/repo")).unwrap();
    db.upsert("/tmp/repo_n", None).unwrap();
    let rows = db.list().unwrap();
    assert_eq!(rows[0].name.as_deref(), Some("owner/repo"));
}

#[test]
fn add_and_list_tags() {
    let mut db = Database::open_in_memory().unwrap();
    db.upsert("/tmp/tagged", None).unwrap();
    let id = db.list().unwrap()[0].id;
    db.add_tag(id, "work").unwrap();
    db.add_tag(id, "personal").unwrap();
    let rows = db.list().unwrap();
    assert!(rows[0].tags.contains(&"work".to_string()));
    assert!(rows[0].tags.contains(&"personal".to_string()));
}

#[test]
fn remove_tag() {
    let mut db = Database::open_in_memory().unwrap();
    db.upsert("/tmp/tagged2", None).unwrap();
    let id = db.list().unwrap()[0].id;
    db.add_tag(id, "work").unwrap();
    db.remove_tag(id, "work").unwrap();
    let rows = db.list().unwrap();
    assert!(rows[0].tags.is_empty());
}

#[test]
fn resolve_target_by_id() {
    let mut db = Database::open_in_memory().unwrap();
    db.upsert("/tmp/resolve_id", None).unwrap();
    let id = db.list().unwrap()[0].id;
    assert_eq!(db.resolve_target(&id.to_string()).unwrap(), Some(id));
}

#[test]
fn resolve_target_by_path() {
    let mut db = Database::open_in_memory().unwrap();
    db.upsert("/tmp/resolve_path", None).unwrap();
    let id = db.list().unwrap()[0].id;
    assert_eq!(db.resolve_target("/tmp/resolve_path").unwrap(), Some(id));
}

#[test]
fn resolve_target_by_name() {
    let mut db = Database::open_in_memory().unwrap();
    db.upsert("/tmp/resolve_name", Some("owner/repo")).unwrap();
    let id = db.list().unwrap()[0].id;
    assert_eq!(db.resolve_target("owner/repo").unwrap(), Some(id));
}

#[test]
fn resolve_target_not_found() {
    let db = Database::open_in_memory().unwrap();
    assert_eq!(db.resolve_target("999").unwrap(), None);
    assert_eq!(db.resolve_target("no/such/repo").unwrap(), None);
}

#[test]
fn list_sort_order() {
    let mut db = Database::open_in_memory().unwrap();
    db.upsert("/tmp/sort_unnamed_a", None).unwrap();
    db.upsert("/tmp/sort_unnamed_b", None).unwrap();
    db.upsert("/tmp/sort_named_z", Some("z-repo")).unwrap();
    db.upsert("/tmp/sort_named_a", Some("a-repo")).unwrap();

    let rows = db.list().unwrap();
    assert_eq!(rows.len(), 4);
    assert_eq!(rows[0].name.as_deref(), Some("a-repo"));
    assert_eq!(rows[1].name.as_deref(), Some("z-repo"));
    assert!(rows[2].name.is_none());
    assert!(rows[3].name.is_none());
    assert!(rows[2].id > rows[3].id);
}

#[test]
fn settings_work() {
    let mut db = Database::open_in_memory().unwrap();
    assert_eq!(db.is_autoprune_enabled().unwrap(), true);
    assert_eq!(db.get_autoprune_time().unwrap(), "00:00");

    db.set_setting("autoprune_enabled", "false").unwrap();
    assert_eq!(db.is_autoprune_enabled().unwrap(), false);

    db.set_setting("autoprune_time", "12:34").unwrap();
    assert_eq!(db.get_autoprune_time().unwrap(), "12:34");

    db.set_last_autoprune_date("2024-01-01").unwrap();
    assert_eq!(
        db.get_last_autoprune_date().unwrap(),
        Some("2024-01-01".to_string())
    );
}

#[test]
fn exclusions_work() {
    let mut db = Database::open_in_memory().unwrap();
    let sep = std::path::MAIN_SEPARATOR.to_string();
    let p1 = format!("{}tmp{}work", sep, sep);
    let p2 = format!("{}tmp{}secret", sep, sep);

    db.add_exclusion(&p1).unwrap();
    db.add_exclusion(&p2).unwrap();

    let list = db.list_exclusions().unwrap();
    assert_eq!(list.len(), 2);
    assert!(list.contains(&p1));
    assert!(list.contains(&p2));

    assert!(db.is_excluded(&p1).unwrap());
    assert!(db.is_excluded(&format!("{}{}repo", p1, sep)).unwrap());
    assert!(!db.is_excluded(&format!("{}tmp{}other", sep, sep)).unwrap());
    assert!(!db
        .is_excluded(&format!("{}tmp{}work-hard", sep, sep))
        .unwrap());

    db.remove_exclusion(&p1).unwrap();
    assert!(!db.is_excluded(&p1).unwrap());
    assert_eq!(db.list_exclusions().unwrap().len(), 1);
}

#[test]
fn remove_by_exclusion_works() {
    let mut db = Database::open_in_memory().unwrap();
    let sep = std::path::MAIN_SEPARATOR.to_string();
    let p1 = format!("{}tmp{}work", sep, sep);
    db.upsert(&format!("{}{}repo1", p1, sep), None).unwrap();
    db.upsert(&format!("{}{}repo2", p1, sep), None).unwrap();
    db.upsert(&format!("{}tmp{}other", sep, sep), None).unwrap();

    let count = db.remove_by_exclusion(&p1).unwrap();
    assert_eq!(count, 2);
    assert_eq!(db.list().unwrap().len(), 1);
}

#[test]
fn emergency_branches_work() {
    let mut db = Database::open_in_memory().unwrap();
    db.upsert("/tmp/emergency", None).unwrap();
    let id = db.list().unwrap()[0].id;

    db.set_emergency_branch(id, "my-emergency-branch").unwrap();
    let rows = db.list().unwrap();
    assert_eq!(
        rows[0].emergency_branch.as_deref(),
        Some("my-emergency-branch")
    );

    db.clear_all_emergency_branches().unwrap();
    let rows = db.list().unwrap();
    assert_eq!(rows[0].emergency_branch, None);
}

#[test]
fn apps_and_integrations_work() {
    let mut db = Database::open_in_memory().unwrap();

    let id = db.get_or_create_app("test-app").unwrap();
    assert!(id > 0);
    assert_eq!(db.get_or_create_app("test-app").unwrap(), id);

    assert!(db.block_app("test-app").unwrap());
    let list = db.list_integrations().unwrap();
    assert_eq!(list.len(), 0);

    assert!(db.unblock_app("test-app").unwrap());

    db.register_integration("test-app", "registered", "/tmp/test.sock")
        .unwrap();
    let list = db.list_integrations().unwrap();
    assert_eq!(list.len(), 1);
    assert_eq!(list[0].app_name, "test-app");
    assert_eq!(list[0].event, "registered");
    assert_eq!(list[0].is_blocked, false);

    let listeners = db.get_active_listeners_for_event("registered").unwrap();
    assert_eq!(listeners.len(), 1);
    assert_eq!(listeners[0], "/tmp/test.sock");

    db.block_app("test-app").unwrap();
    let listeners = db.get_active_listeners_for_event("registered").unwrap();
    assert_eq!(listeners.len(), 0);

    assert!(db.unregister_integration("test-app", "registered").unwrap());
    assert_eq!(db.list_integrations().unwrap().len(), 0);

    assert!(db.remove_app("test-app").unwrap());
}

// ---------------------------------------------------------------------------
// Further behaviour of the registry
// ---------------------------------------------------------------------------

#[test]
fn upsert_reports_new_paths_only() {
    let mut db = Database::open_in_memory().unwrap();
    assert!(db.upsert("/tmp/fresh", None).unwrap());
    assert!(!db.upsert("/tmp/fresh", None).unwrap());
    assert!(!db.upsert("/tmp/fresh", Some("o/r")).unwrap());
}

#[test]
fn upsert_replaces_name_when_given() {
    let mut db = Database::open_in_memory().unwrap();
    db.upsert("/tmp/renamed", Some("old/name")).unwrap();
    db.upsert("/tmp/renamed", Some("new/name")).unwrap();
    assert_eq!(db.list().unwrap()[0].name.as_deref(), Some("new/name"));
}

#[test]
fn upsert_keeps_the_id() {
    let mut db = Database::open_in_memory().unwrap();
    db.upsert("/tmp/same", None).unwrap();
    let id = db.list().unwrap()[0].id;
    db.upsert("/tmp/same", None).unwrap();
    assert_eq!(db.list().unwrap()[0].id, id);
}

#[test]
fn prune_keeps_root_directory() {
    let mut db = Database::open_in_memory().unwrap();
    db.upsert("/", None).unwrap();
    let removed = db.prune().unwrap();
    assert!(removed.is_empty());
    assert_eq!(db.list().unwrap().len(), 1);
}

#[test]
fn prune_removes_excluded() {
    let mut db = Database::open_in_memory().unwrap();
    db.upsert("/", None).unwrap();
    db.add_exclusion("/").unwrap();
    let removed = db.prune().unwrap();
    assert_eq!(removed, vec!["/".to_string()]);
    assert!(db.list().unwrap().is_empty());
}

#[test]
fn tag_twice_is_once() {
    let mut db = Database::open_in_memory().unwrap();
    db.upsert("/tmp/t", None).unwrap();
    let id = db.list().unwrap()[0].id;
    db.add_tag(id, "work").unwrap();
    db.add_tag(id, "work").unwrap();
    assert_eq!(db.list().unwrap()[0].tags, vec!["work".to_string()]);
}

#[test]
fn tags_with_commas_are_split_in_listing() {
    let mut db = Database::open_in_memory().unwrap();
    db.upsert("/tmp/c", None).unwrap();
    let id = db.list().unwrap()[0].id;
    db.add_tag(id, "a,b").unwrap();
    assert_eq!(
        db.list().unwrap()[0].tags,
        vec!["a".to_string(), "b".to_string()]
    );
}

#[test]
fn resolve_many_selects_by_tag_and_id() {
    let mut db = Database::open_in_memory().unwrap();
    db.upsert("/tmp/m1", Some("o/one")).unwrap();
    db.upsert("/tmp/m2", None).unwrap();
    db.upsert("/tmp/m3", None).unwrap();
    let rows = db.list().unwrap();
    let id2 = rows.iter().find(|r| r.path == "/tmp/m2").unwrap().id;
    let id3 = rows.iter().find(|r| r.path == "/tmp/m3").unwrap().id;
    db.add_tag(id2, "work").unwrap();
    let all = db.resolve_many("all").unwrap();
    assert_eq!(all.len(), 3);
    let work = db.resolve_many("@work").unwrap();
    assert_eq!(work.len(), 1);
    assert_eq!(work[0].path, "/tmp/m2");
    let picked = db.resolve_many(&format!("{},o/one,{}", id3, id3)).unwrap();
    let paths: Vec<&str> = picked.iter().map(|r| r.path.as_str()).collect();
    assert_eq!(paths, vec!["/tmp/m3", "/tmp/m1"]);
}

#[test]
fn settings_read_back_what_was_written() {
    let mut db = Database::open_in_memory().unwrap();
    assert_eq!(db.get_setting("color").unwrap(), None);
    db.set_setting("color", "blue").unwrap();
    db.set_setting("size", "9").unwrap();
    db.set_setting("color", "red").unwrap();
    assert_eq!(db.get_setting("color").unwrap(), Some("red".to_string()));
    assert_eq!(db.get_setting("size").unwrap(), Some("9".to_string()));
}

#[test]
fn exclusion_added_twice_is_listed_once() {
    let mut db = Database::open_in_memory().unwrap();
    db.add_exclusion("/tmp/dup").unwrap();
    db.add_exclusion("/tmp/dup").unwrap();
    assert_eq!(db.list_exclusions().unwrap(), vec!["/tmp/dup".to_string()]);
    assert!(db.remove_exclusion("/tmp/dup").unwrap());
    assert!(!db.remove_exclusion("/tmp/dup").unwrap());
}

#[test]
fn blocked_app_is_not_notified_and_unblocking_restores() {
    let mut db = Database::open_in_memory().unwrap();
    db.register_integration("a", "tagged", "/tmp/a.sock").unwrap();
    db.register_integration("b", "tagged", "/tmp/b.sock").unwrap();
    db.block_app("a").unwrap();
    assert_eq!(
        db.get_active_listeners_for_event("tagged").unwrap(),
        vec!["/tmp/b.sock".to_string()]
    );
    db.unblock_app("a").unwrap();
    assert_eq!(
        db.get_active_listeners_for_event("tagged").unwrap(),
        vec!["/tmp/a.sock".to_string(), "/tmp/b.sock".to_string()]
    );
}

#[test]
fn reregistering_replaces_the_socket() {
    let mut db = Database::open_in_memory().unwrap();
    db.register_integration("a", "removed", "/tmp/old.sock").unwrap();
    db.register_integration("a", "removed", "/tmp/new.sock").unwrap();
    let list = db.list_integrations().unwrap();
    assert_eq!(list.len(), 1);
    assert_eq!(list[0].socket_path, "/tmp/new.sock");
}

#[test]
fn unknown_app_operations_report_not_found() {
    let mut db = Database::open_in_memory().unwrap();
    assert!(!db.block_app("ghost").unwrap());
    assert!(!db.unblock_app("ghost").unwrap());
    assert!(!db.remove_app("ghost").unwrap());
    assert!(!db.unregister_integration("ghost", "registered").unwrap());
}

#[test]
fn removing_app_drops_its_registrations() {
    let mut db = Database::open_in_memory().unwrap();
    db.register_integration("gone", "registered", "/tmp/g.sock").unwrap();
    assert!(db.remove_app("gone").unwrap());
    assert!(db.list_integrations().unwrap().is_empty());
    assert!(db.get_active_listeners_for_event("registered").unwrap().is_empty());
}

#[test]
fn integrations_are_listed_by_app_then_event() {
    let mut db = Database::open_in_memory().unwrap();
    db.register_integration("zeta", "b", "/s1").unwrap();
    db.register_integration("alpha", "z", "/s2").unwrap();
    db.register_integration("alpha", "a", "/s3").unwrap();
    let list = db.list_integrations().unwrap();
    let keys: Vec<(&str, &str)> = list
        .iter()
        .map(|i| (i.app_name.as_str(), i.event.as_str()))
        .collect();
    assert_eq!(keys, vec![("alpha", "a"), ("alpha", "z"), ("zeta", "b")]);
}

#[test]
fn now_millis_is_not_negative() {
    assert!(gitreg::db::now_millis() >= 0);
}

#[test]
fn opening_a_missing_directory_fails() {
    let r = Database::open("/nonexistent/dir/for/gitreg/test.db");
    assert!(matches!(r, Err(GitregError::Database(_))));
}

#[test]
fn upsert_updates_timestamp() {
    let mut db = Database::open_in_memory().unwrap();
    db.upsert("/tmp/repo_ts", None).unwrap();
    let t1 = db
        .list()
        .unwrap()
        .into_iter()
        .find(|r| r.path == "/tmp/repo_ts")
        .unwrap()
        .last_seen;
    let start = gitreg::db::now_millis();
    while gitreg::db::now_millis() < start + 2 {}
    db.upsert("/tmp/repo_ts", None).unwrap();
    let t2 = db
        .list()
        .unwrap()
        .into_iter()
        .find(|r| r.path == "/tmp/repo_ts")
        .unwrap()
        .last_seen;
    assert!(t2 > t1, "upsert should update last_seen timestamp");
}

#[test]
fn clock_readings_become_stored_millis() {
    assert_eq!(millis_from_clock(None), 0);
    assert_eq!(millis_from_clock(Some(1_700_000_000_123)), 1_700_000_000_123);
    assert_eq!(millis_from_clock(Some(u128::MAX)), i64::MAX);
    assert_eq!(millis_from_clock(Some(i64::MAX as u128 + 1)), i64::MAX);
    assert_eq!(millis_from_clock(Some(i64::MAX as u128)), i64::MAX);
}

#[test]
fn in_memory_registry_starts_empty() {
    let db = Database::open_in_memory().unwrap();
    assert!(db.list().unwrap().is_empty());
    assert!(db.list_exclusions().unwrap().is_empty());
    assert!(db.list_integrations().unwrap().is_empty());
    assert_eq!(db.get_setting("autoprune_time").unwrap(), None);
}

#[test]
fn upsert_at_records_the_given_time() {
    let mut db = Database::open_in_memory().unwrap();
    assert!(db.upsert_at("/tmp/repo_at", None, 100).unwrap());
    let first = db.list().unwrap()[0].clone();
    assert_eq!(first.last_seen, 100);
    assert!(!db.upsert_at("/tmp/repo_at", Some("o/r"), 250).unwrap());
    let second = db.list().unwrap()[0].clone();
    assert_eq!(second.last_seen, 250);
    assert_eq!(second.id, first.id);
    assert_eq!(second.name.as_deref(), Some("o/r"));
}
