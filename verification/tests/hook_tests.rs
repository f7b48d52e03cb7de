use gitreg::db::Database;
use gitreg::hook::{extract_repo_name, parse_origin_owner_repo, run};

#[test]
fn parse_https_url() {
    assert_eq!(
        parse_origin_owner_repo("https://github.com/octocat/hello-world.git"),
        Some("octocat/hello-world".into())
    );
}

#[test]
fn parse_https_url_no_git_suffix() {
    assert_eq!(
        parse_origin_owner_repo("https://github.com/octocat/hello"),
        Some("octocat/hello".into())
    );
}

#[test]
fn parse_ssh_url() {
    assert_eq!(
        parse_origin_owner_repo("git@github.com:octocat/hello-world.git"),
        Some("octocat/hello-world".into())
    );
}

#[test]
fn parse_unknown_url_returns_none() {
    assert_eq!(parse_origin_owner_repo("file:///local/path"), None);
}

#[test]
fn parse_http_url_with_trailing_slash() {
    assert_eq!(
        parse_origin_owner_repo("http://gitlab.example.com/group/project/"),
        Some("group/project".into())
    );
}

#[test]
fn parse_url_with_deeper_path_keeps_first_two_parts() {
    assert_eq!(
        parse_origin_owner_repo("https://host/a/b/c.git"),
        Some("a/b".into())
    );
}

#[test]
fn parse_url_with_repeated_git_suffix() {
    assert_eq!(
        parse_origin_owner_repo("git@host:o/r.git.git"),
        Some("o/r".into())
    );
}

#[test]
fn parse_url_with_empty_owner_is_none() {
    assert_eq!(parse_origin_owner_repo("https://host//repo"), None);
    assert_eq!(parse_origin_owner_repo("https://host/owner"), None);
    assert_eq!(parse_origin_owner_repo("https://github.com"), None);
}

const CONFIG: &str = "[core]\n\trepositoryformatversion = 0\n[remote \"origin\"]\n\turl = git@github.com:octocat/hello-world.git\n\tfetch = +refs/heads/*:refs/remotes/origin/*\n[branch \"main\"]\n\tremote = origin\n";

#[test]
fn extract_name_from_origin_section() {
    assert_eq!(
        extract_repo_name(CONFIG),
        Some("octocat/hello-world".to_string())
    );
}

#[test]
fn extract_name_ignores_other_remotes() {
    let config = "[remote \"upstream\"]\n\turl = https://github.com/up/stream.git\n";
    assert_eq!(extract_repo_name(config), None);
}

#[test]
fn extract_name_stops_at_next_section() {
    let config = "[remote \"origin\"]\n\tfetch = x\n[core]\n\turl = https://github.com/a/b.git\n";
    assert_eq!(extract_repo_name(config), None);
}

#[test]
fn extract_name_with_spaces_and_crlf() {
    let config = "  [remote \"origin\"]  \r\n   url   =   https://github.com/o/r  \r\n";
    assert_eq!(extract_repo_name(config), Some("o/r".to_string()));
}

#[test]
fn hook_records_new_repository_with_name() {
    let mut db = Database::open_in_memory().unwrap();
    assert_eq!(run(&mut db, "/tmp/hooked", true, Some(CONFIG)).unwrap(), Some(true));
    assert_eq!(run(&mut db, "/tmp/hooked", true, None).unwrap(), Some(false));
    let rows = db.list().unwrap();
    assert_eq!(rows.len(), 1);
    assert_eq!(rows[0].name.as_deref(), Some("octocat/hello-world"));
}

#[test]
fn hook_skips_non_repositories() {
    let mut db = Database::open_in_memory().unwrap();
    assert_eq!(run(&mut db, "/tmp/plain", false, None).unwrap(), None);
    assert!(db.list().unwrap().is_empty());
}

#[test]
fn hook_skips_excluded_paths() {
    let mut db = Database::open_in_memory().unwrap();
    db.add_exclusion("/tmp/private").unwrap();
    assert_eq!(run(&mut db, "/tmp/private/repo", true, None).unwrap(), None);
    assert!(db.list().unwrap().is_empty());
}
