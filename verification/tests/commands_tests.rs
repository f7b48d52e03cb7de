use gitreg::commands::{
    autoscan_paths, autoscan_skips, batch_summary, buffered_report, check_and_run_autoprune,
    confirms_uninstall, db_path, display_name, emergency_branch_name, emergency_commit_message,
    exclude_path, excluded_pruned_message, failed_outcomes, failed_start_report, failure_line,
    git_event_name, go_github_dir, has_emergency, is_valid_time, join_tags, log_path,
    ls_count_line, order_outcomes, parse_retry_choice, pruned_message, realtime_prefix,
    configure_autoprune, next_emergency_step, record_emergency_push, register_unless_excluded,
    remove_target, resolve_id, sanitize_name, set_autoprune_time, EmergencyStep,
    switch_autoprune, tag_target, untag_target, ExecOutcome, RetryChoice, ScanState, ScanStep,
    TargetOs, MAX_SCAN_DEPTH, autoscan_child_registers, autoscan_target,
};
use gitreg::db::Database;
use gitreg::error::GitregError;

#[test]
fn sanitize_replaces_and_trims() {
    assert_eq!(sanitize_name("my host.local"), "my_host_local");
    assert_eq!(sanitize_name("__a__b__"), "a_b");
    assert_eq!(sanitize_name("feature/x"), "feature_x");
    assert_eq!(sanitize_name("a___b"), "a__b");
    assert_eq!(sanitize_name("héllo wörld"), "héllo_wörld");
    assert_eq!(sanitize_name("..."), "");
    assert_eq!(sanitize_name("release-1_2"), "release-1_2");
}

#[test]
fn emergency_names() {
    assert_eq!(
        emergency_branch_name("feature/x", "alice", "box", "20240101_120000"),
        "feature_x_emergency_alice_box_20240101_120000"
    );
    assert_eq!(
        emergency_commit_message("20240101_120000"),
        "EMERGENCY SAVE: 20240101_120000"
    );
    assert_eq!(git_event_name("commit"), "git.commit");
}

#[test]
fn time_of_day_format() {
    assert!(is_valid_time("00:00"));
    assert!(is_valid_time("13:45"));
    assert!(is_valid_time("23:59"));
    assert!(!is_valid_time("24:00"));
    assert!(!is_valid_time("12:60"));
    assert!(!is_valid_time("99:99"));
    assert!(!is_valid_time("+1:00"));
    assert!(!is_valid_time("+1:+2"));
    assert!(!is_valid_time("1:45"));
    assert!(!is_valid_time("13:45:00"));
    assert!(!is_valid_time("ab:cd"));
    assert!(!is_valid_time("1345"));
    assert!(!is_valid_time(""));
}

#[test]
fn autoprune_configuration() {
    let mut db = Database::open_in_memory().unwrap();
    switch_autoprune(&mut db, false, true).unwrap();
    assert!(!db.is_autoprune_enabled().unwrap());
    switch_autoprune(&mut db, true, false).unwrap();
    assert!(db.is_autoprune_enabled().unwrap());
    set_autoprune_time(&mut db, "07:30").unwrap();
    assert_eq!(db.get_autoprune_time().unwrap(), "07:30");
    match set_autoprune_time(&mut db, "7:30") {
        Err(GitregError::InvalidFormat(m)) => assert_eq!(m, "Use HH:MM (e.g., 00:00 or 13:45)"),
        _ => panic!("expected InvalidFormat"),
    }
    assert_eq!(db.get_autoprune_time().unwrap(), "07:30");
}

#[test]
fn autoprune_runs_once_per_day_after_its_time() {
    let mut db = Database::open_in_memory().unwrap();
    db.upsert("/nonexistent/gitreg/autoprune/repo", None).unwrap();
    set_autoprune_time(&mut db, "12:00").unwrap();
    assert!(!check_and_run_autoprune(&mut db, "2024-05-01", "11:59").unwrap());
    assert_eq!(db.list().unwrap().len(), 1);
    assert!(check_and_run_autoprune(&mut db, "2024-05-01", "12:00").unwrap());
    assert_eq!(db.list().unwrap().len(), 0);
    assert_eq!(
        db.get_last_autoprune_date().unwrap(),
        Some("2024-05-01".to_string())
    );
    assert!(!check_and_run_autoprune(&mut db, "2024-05-01", "23:00").unwrap());
    assert!(check_and_run_autoprune(&mut db, "2024-05-02", "12:30").unwrap());
}

#[test]
fn autoprune_disabled_never_runs() {
    let mut db = Database::open_in_memory().unwrap();
    switch_autoprune(&mut db, false, true).unwrap();
    assert!(!check_and_run_autoprune(&mut db, "2024-05-01", "23:59").unwrap());
    assert_eq!(db.get_last_autoprune_date().unwrap(), None);
}

#[test]
fn targets_resolve_by_canonical_path_too() {
    let mut db = Database::open_in_memory().unwrap();
    db.upsert("/home/u/proj", Some("o/proj")).unwrap();
    let id = db.list().unwrap()[0].id;
    assert_eq!(resolve_id(&db, "o/proj", None).unwrap(), id);
    assert_eq!(resolve_id(&db, "proj", Some("/home/u/proj")).unwrap(), id);
    match resolve_id(&db, "proj", None) {
        Err(GitregError::NotFound(t)) => assert_eq!(t, "proj"),
        _ => panic!("expected NotFound"),
    }
}

#[test]
fn tagging_and_removing_by_target() {
    let mut db = Database::open_in_memory().unwrap();
    db.upsert("/tmp/tt", Some("o/tt")).unwrap();
    tag_target(&mut db, "o/tt", None, "work").unwrap();
    assert_eq!(db.list().unwrap()[0].tags, vec!["work".to_string()]);
    untag_target(&mut db, "/tmp/tt", None, "work").unwrap();
    assert!(db.list().unwrap()[0].tags.is_empty());
    assert!(matches!(
        tag_target(&mut db, "nothing", None, "x"),
        Err(GitregError::NotFound(_))
    ));
    assert_eq!(remove_target(&mut db, "o/tt", None).unwrap(), "/tmp/tt");
    assert!(db.list().unwrap().is_empty());
    assert!(matches!(
        remove_target(&mut db, "o/tt", None),
        Err(GitregError::NotFound(_))
    ));
}

#[test]
fn scanning_registers_unless_excluded() {
    let mut db = Database::open_in_memory().unwrap();
    db.add_exclusion("/src/private").unwrap();
    assert!(!register_unless_excluded(&mut db, "/src/private/x").unwrap());
    assert!(register_unless_excluded(&mut db, "/src/public").unwrap());
    assert!(!register_unless_excluded(&mut db, "/src/public").unwrap());
    assert_eq!(db.list().unwrap().len(), 1);
}

#[test]
fn excluding_a_path_prunes_below_it() {
    let mut db = Database::open_in_memory().unwrap();
    db.upsert("/w/a", None).unwrap();
    db.upsert("/w/b", None).unwrap();
    db.upsert("/x/c", None).unwrap();
    assert_eq!(exclude_path(&mut db, "/w").unwrap(), 2);
    assert_eq!(db.list().unwrap().len(), 1);
    assert_eq!(db.list_exclusions().unwrap(), vec!["/w".to_string()]);
    assert_eq!(excluded_pruned_message(2), "Pruned 2 existing registrations matching this exclusion.");
    assert_eq!(excluded_pruned_message(1), "Pruned 1 existing registration matching this exclusion.");
}

#[test]
fn config_locations() {
    assert_eq!(db_path(Some("/cfg"), Some("/ignored"), '/').unwrap(), "/cfg/gitreg.db");
    assert_eq!(
        db_path(None, Some("/home/u/.config"), '/').unwrap(),
        "/home/u/.config/gitreg/gitreg.db"
    );
    assert!(matches!(db_path(None, None, '/'), Err(GitregError::NoConfigDir)));
    assert_eq!(log_path(Some("/cfg/"), None, '/'), Some("/cfg/gitreg.log".to_string()));
    assert_eq!(log_path(None, None, '/'), None);
}

#[test]
fn discovery_locations() {
    assert_eq!(
        autoscan_paths(Some("/home/u"), TargetOs::Linux, '/'),
        vec!["/home/u/git", "/home/u/projects", "/home/u/src"]
    );
    assert_eq!(
        autoscan_paths(Some("C:\\Users\\u"), TargetOs::Windows, '\\'),
        vec![
            "C:\\Users\\u\\source/repos",
            "C:\\Users\\u\\Documents/GitHub",
            "C:\\Users\\u\\Projects",
            "C:\\dev",
            "C:\\git"
        ]
    );
    assert_eq!(autoscan_paths(Some("/Users/u"), TargetOs::MacOs, '/').len(), 5);
    assert!(autoscan_paths(None, TargetOs::Windows, '\\').is_empty());
    assert_eq!(go_github_dir("/home/u", '/'), "/home/u/go/src/github.com");
    assert!(autoscan_skips("node_modules"));
    assert!(autoscan_skips(".git"));
    assert!(!autoscan_skips("src"));
}

#[test]
fn scan_walks_breadth_first() {
    let mut db = Database::open_in_memory().unwrap();
    db.add_exclusion("/r/skip").unwrap();
    let exclusions = db.list_exclusions().unwrap();
    let mut scan = ScanState::new("/r", true);
    let (p, exact, d) = scan.next_dir().unwrap();
    assert_eq!((p.as_str(), exact, d), ("/r", true, 0));
    let step = scan.visit(&mut db, &exclusions, &p, exact, d, 1, false);
    assert!(matches!(step, ScanStep::Descend));
    scan.add_entry("/r/repo", true, "repo", true, d);
    scan.add_entry("/r/.git", true, ".git", true, d);
    scan.add_entry("/r/file.txt", true, "file.txt", false, d);
    scan.add_entry("/r/skip", true, "skip", true, d);
    scan.add_entry("/r/deep", true, "deep", true, d);
    scan.add_entry("/r/\u{FFFD}", false, "\u{FFFD}", true, d);

    let (p, exact, d) = scan.next_dir().unwrap();
    assert_eq!(p, "/r/repo");
    assert!(matches!(scan.visit(&mut db, &exclusions, &p, exact, d, 1, true), ScanStep::Registered));
    let (p, exact, d) = scan.next_dir().unwrap();
    assert_eq!(p, "/r/skip");
    assert!(matches!(scan.visit(&mut db, &exclusions, &p, exact, d, 1, true), ScanStep::Skip));
    let (p, exact, d) = scan.next_dir().unwrap();
    assert_eq!((p.as_str(), d), ("/r/deep", 1));
    assert!(matches!(scan.visit(&mut db, &exclusions, &p, exact, d, 1, false), ScanStep::Skip));
    let (p, exact, d) = scan.next_dir().unwrap();
    assert!(matches!(scan.visit(&mut db, &exclusions, &p, exact, d, 1, false), ScanStep::NotUtf8));
    assert!(scan.next_dir().is_none());
    scan.read_failed(true);
    scan.read_failed(false);
    assert_eq!(scan.found(), 1);
    assert_eq!(scan.warnings(), 2);
    assert_eq!(scan.summary(), "\nDone. Registered 1 repositories (2 warnings).");
    assert_eq!(ScanState::new("/x", true).summary(), "\nDone. Registered 0 repositories.");
    assert_eq!(MAX_SCAN_DEPTH, 20);
}

#[test]
fn listing_texts() {
    assert_eq!(ls_count_line(0, 0), "No repositories tracked yet.");
    assert_eq!(ls_count_line(0, 2), "No repositories tracked yet (2 excluded paths).");
    assert_eq!(ls_count_line(3, 0), "3 git dirs");
    assert_eq!(ls_count_line(12, 1), "12 git dirs (1 excluded paths)");
    assert_eq!(pruned_message(1), "Pruned 1 entry.");
    assert_eq!(pruned_message(2), "Pruned 2 entries.");
    assert_eq!(join_tags(&[]), "");
    assert_eq!(join_tags(&["a".to_string(), "b".to_string(), "c".to_string()]), "a, b, c");
}

#[test]
fn emergency_flag_in_listing() {
    let mut db = Database::open_in_memory().unwrap();
    db.upsert("/tmp/e1", None).unwrap();
    assert!(!has_emergency(&db.list().unwrap()));
    let id = db.list().unwrap()[0].id;
    db.set_emergency_branch(id, "b").unwrap();
    assert!(has_emergency(&db.list().unwrap()));
}

#[test]
fn git_output_texts() {
    assert_eq!(display_name(Some("o/r"), "/p"), "o/r");
    assert_eq!(display_name(None, "/p"), "/p");
    assert_eq!(realtime_prefix("o/r"), "[o/r] ");
    assert_eq!(buffered_report("r", "out", ""), "=== r ===\nout\n");
    assert_eq!(buffered_report("r", "out\n", "err"), "=== r ===\nout\nerr\n");
    assert_eq!(buffered_report("r", "", ""), "=== r ===\n");
    assert_eq!(failed_start_report("r", "no git"), "=== r ===\nError: no git\n");
    assert_eq!(batch_summary(5, 2), "\nSummary: 3 succeeded, 2 failed");
    assert_eq!(failure_line(7, "o/r", Some(128)), "  [7] o/r -> Exit code 128");
    assert_eq!(failure_line(-3, "x", None), "  [-3] x -> Exit code 1");
}

#[test]
fn retry_prompt_answers() {
    assert_eq!(parse_retry_choice("r\n"), RetryChoice::Retry);
    assert_eq!(parse_retry_choice("  R "), RetryChoice::Retry);
    assert_eq!(parse_retry_choice("s"), RetryChoice::Shell);
    assert_eq!(parse_retry_choice("S\r\n"), RetryChoice::Shell);
    assert_eq!(parse_retry_choice("q"), RetryChoice::Quit);
    assert_eq!(parse_retry_choice("rs"), RetryChoice::Quit);
    assert_eq!(parse_retry_choice(""), RetryChoice::Quit);
}

#[test]
fn uninstall_confirmation() {
    assert!(confirms_uninstall("UNINSTALL\n"));
    assert!(confirms_uninstall("  UNINSTALL  "));
    assert!(!confirms_uninstall("uninstall"));
    assert!(!confirms_uninstall("UNINSTALL NOW"));
}

#[test]
fn outcomes_are_ordered_and_failures_split() {
    let mut db = Database::open_in_memory().unwrap();
    db.upsert("/a", None).unwrap();
    db.upsert("/b", None).unwrap();
    db.upsert("/c", None).unwrap();
    let rows = db.list().unwrap();
    let outcomes: Vec<ExecOutcome> = rows
        .into_iter()
        .map(|r| {
            let ok = r.path == "/b";
            ExecOutcome { repo: r, success: ok, exit_code: if ok { Some(0) } else { Some(1) } }
        })
        .collect();
    let ordered = order_outcomes(outcomes);
    let ids: Vec<i64> = ordered.iter().map(|o| o.repo.id).collect();
    let mut sorted = ids.clone();
    sorted.sort();
    assert_eq!(ids, sorted);
    let failed = failed_outcomes(ordered);
    let paths: Vec<&str> = failed.iter().map(|o| o.repo.path.as_str()).collect();
    assert_eq!(paths, vec!["/a", "/c"]);
}

#[test]
fn autoprune_time_is_checked_before_anything_changes() {
    let mut db = Database::open_in_memory().unwrap();
    match configure_autoprune(&mut db, false, true, Some("25:00")) {
        Err(GitregError::InvalidFormat(m)) => assert_eq!(m, "Use HH:MM (e.g., 00:00 or 13:45)"),
        _ => panic!("expected InvalidFormat"),
    }
    assert!(db.is_autoprune_enabled().unwrap());
    assert_eq!(db.get_autoprune_time().unwrap(), "00:00");
    configure_autoprune(&mut db, false, true, Some("06:15")).unwrap();
    assert!(!db.is_autoprune_enabled().unwrap());
    assert_eq!(db.get_autoprune_time().unwrap(), "06:15");
    configure_autoprune(&mut db, true, false, None).unwrap();
    assert!(db.is_autoprune_enabled().unwrap());
    assert_eq!(db.get_autoprune_time().unwrap(), "06:15");
}

#[test]
fn emergency_steps_for_one_repository() {
    assert_eq!(next_emergency_step(EmergencyStep::CreateBranch, false), EmergencyStep::Done);
    assert_eq!(next_emergency_step(EmergencyStep::CreateBranch, true), EmergencyStep::AddAll);
    assert_eq!(next_emergency_step(EmergencyStep::AddAll, false), EmergencyStep::Commit);
    assert_eq!(next_emergency_step(EmergencyStep::Commit, false), EmergencyStep::Push);
    assert_eq!(next_emergency_step(EmergencyStep::Push, false), EmergencyStep::Restore);
    assert_eq!(next_emergency_step(EmergencyStep::Push, true), EmergencyStep::Restore);
    assert_eq!(next_emergency_step(EmergencyStep::Restore, false), EmergencyStep::Done);
}

#[test]
fn only_a_successful_push_is_recorded() {
    let mut db = Database::open_in_memory().unwrap();
    db.upsert("/tmp/gitreg_emergency_repo", None).unwrap();
    let id = db.list().unwrap()[0].id;
    assert!(!record_emergency_push(&mut db, id, "emergency/main", false).unwrap());
    assert_eq!(db.list().unwrap()[0].emergency_branch, None);
    assert!(record_emergency_push(&mut db, id, "emergency/main", true).unwrap());
    assert_eq!(
        db.list().unwrap()[0].emergency_branch.as_deref(),
        Some("emergency/main")
    );
}

#[test]
fn autoscan_registers_a_repository_target_without_looking_inside() {
    let mut db = Database::open_in_memory().unwrap();
    assert_eq!(autoscan_target(&mut db, "/src/plain_dir", false).unwrap(), None);
    assert!(db.list().unwrap().is_empty());
    assert_eq!(autoscan_target(&mut db, "/src/project", true).unwrap(), Some(true));
    assert_eq!(autoscan_target(&mut db, "/src/project", true).unwrap(), Some(false));
    assert_eq!(db.list().unwrap().len(), 1);
    db.add_exclusion("/src/secret").unwrap();
    assert_eq!(autoscan_target(&mut db, "/src/secret", true).unwrap(), Some(false));
    assert_eq!(db.list().unwrap().len(), 1);
}

#[test]
fn autoscan_children_that_are_registered() {
    assert!(autoscan_child_registers(Some("project"), true, true));
    assert!(!autoscan_child_registers(Some("project"), true, false));
    assert!(!autoscan_child_registers(Some("project"), false, false));
    assert!(!autoscan_child_registers(Some("node_modules"), true, true));
    assert!(!autoscan_child_registers(Some(".git"), true, true));
    assert!(autoscan_child_registers(None, true, true));
}

#[test]
fn sanitized_name_keeps_letters_digits_and_dashes() {
    for s in ["feature/login-2", "_main_", "my host.local", "a..b--c", "__"] {
        let kept: String = s.chars().filter(|c| c.is_alphanumeric() || *c == '-').collect();
        assert_eq!(sanitize_name(s).replace('_', ""), kept);
    }
    assert_eq!(sanitize_name("feature/login"), "feature_login");
    assert_eq!(sanitize_name("_main_"), "main");
}
