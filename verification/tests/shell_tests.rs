use gitreg::error::GitregError;
use gitreg::shell::{
    bash_zsh_alias_shim, bash_zsh_shim, check_alias_conflict, detect_shell, fish_alias_shim,
    fish_shim, inject_alias_bash_zsh, inject_alias_fish, inject_alias_powershell, inject_bash_zsh,
    inject_fish, inject_powershell, is_alias_enabled, powershell_alias_shim,
    fish_alias_path, powershell_profile_paths, powershell_shim, rc_file_path, remove_all_gitreg_blocks,
    remove_block, ShellKind, ALIAS_GUARD_END, ALIAS_GUARD_START, GUARD_END, GUARD_START,
};

#[test]
fn test_bash_zsh_conflict_detection() {
    assert!(!check_alias_conflict(ShellKind::Bash, false, &[String::new()]));
    let content = "alias gr='some-other-tool'\n".to_string();
    assert!(check_alias_conflict(ShellKind::Bash, false, &[content]));
    let content = "gr() { echo hi; }\n".to_string();
    assert!(check_alias_conflict(ShellKind::Zsh, false, &[content]));
}

#[test]
fn test_alias_injection_idempotency() {
    let content1 = inject_alias_bash_zsh("").unwrap();
    assert!(content1.contains(ALIAS_GUARD_START));
    assert_eq!(inject_alias_bash_zsh(&content1), None);
}

#[test]
fn test_remove_all_blocks() {
    let initial_content = "some-user-setting\n";
    let with_shim = inject_bash_zsh(initial_content, "/home/u/.bashrc").unwrap();
    let mid_content = inject_alias_bash_zsh(&with_shim).unwrap();
    assert!(mid_content.contains(GUARD_START));
    assert!(mid_content.contains(ALIAS_GUARD_START));

    let final_content = remove_all_gitreg_blocks(&mid_content);
    assert!(!final_content.contains(GUARD_START));
    assert!(!final_content.contains(ALIAS_GUARD_START));
    assert!(final_content.contains("some-user-setting"));
    assert_eq!(final_content.trim(), "some-user-setting");
    assert_eq!(final_content, "some-user-setting\n");
}

#[test]
fn shell_detected_from_shell_variable() {
    assert_eq!(detect_shell("/usr/bin/zsh", false), ShellKind::Zsh);
    assert_eq!(detect_shell("/usr/local/bin/fish", true), ShellKind::Fish);
    assert_eq!(detect_shell("/bin/bash", true), ShellKind::Bash);
    assert_eq!(detect_shell("/usr/bin/sh", false), ShellKind::Bash);
    assert_eq!(detect_shell("", true), ShellKind::PowerShell);
    assert_eq!(detect_shell("", false), ShellKind::Bash);
}

#[test]
fn start_up_files_per_shell() {
    let home = Some("/home/u");
    let docs = Some("C:\\Users\\u\\Documents");
    assert_eq!(
        rc_file_path(ShellKind::Bash, home, docs, "", '/').unwrap(),
        "/home/u/.bashrc"
    );
    assert_eq!(
        rc_file_path(ShellKind::Zsh, Some("/home/u/"), docs, "", '/').unwrap(),
        "/home/u/.zshrc"
    );
    assert_eq!(
        rc_file_path(ShellKind::Fish, home, docs, "", '/').unwrap(),
        "/home/u/.config/fish/functions/git.fish"
    );
    assert_eq!(
        rc_file_path(
            ShellKind::PowerShell,
            home,
            docs,
            "C:\\Windows\\System32\\WindowsPowerShell\\v1.0",
            '\\'
        )
        .unwrap(),
        "C:\\Users\\u\\Documents\\WindowsPowerShell\\Microsoft.PowerShell_profile.ps1"
    );
    assert_eq!(
        rc_file_path(ShellKind::PowerShell, home, docs, "C:\\Program Files\\PowerShell\\7", '\\')
            .unwrap(),
        "C:\\Users\\u\\Documents\\PowerShell\\Microsoft.PowerShell_profile.ps1"
    );
    assert!(matches!(
        rc_file_path(ShellKind::Bash, None, docs, "", '/'),
        Err(GitregError::NoConfigDir)
    ));
    assert!(matches!(
        rc_file_path(ShellKind::Fish, None, docs, "", '/'),
        Err(GitregError::NoConfigDir)
    ));
    assert_eq!(
        rc_file_path(ShellKind::Fish, Some("/Users/u"), None, "", '/').unwrap(),
        "/Users/u/.config/fish/functions/git.fish"
    );
}

#[test]
fn fish_alias_goes_into_its_own_function_file() {
    assert_eq!(
        fish_alias_path(Some("/home/u"), '/').unwrap(),
        "/home/u/.config/fish/functions/gr.fish"
    );
    assert!(matches!(fish_alias_path(None, '/'), Err(GitregError::NoConfigDir)));
}

#[test]
fn both_powershell_profiles() {
    assert_eq!(
        powershell_profile_paths(Some("D:\\Docs"), '\\').unwrap(),
        vec![
            "D:\\Docs\\WindowsPowerShell\\Microsoft.PowerShell_profile.ps1".to_string(),
            "D:\\Docs\\PowerShell\\Microsoft.PowerShell_profile.ps1".to_string(),
        ]
    );
    assert!(matches!(
        powershell_profile_paths(None, '\\'),
        Err(GitregError::NoConfigDir)
    ));
}

#[test]
fn shims_are_guarded() {
    for shim in [bash_zsh_shim(), fish_shim(), powershell_shim()] {
        assert!(shim.starts_with(GUARD_START));
        assert!(shim.ends_with(GUARD_END));
        assert!(shim.contains("gitreg_tracked"));
    }
    assert!(bash_zsh_shim().contains("(gitreg hook --path \"$git_root\" > /dev/null 2>&1 & disown)"));
    assert!(fish_shim().contains("function git\n"));
    assert!(powershell_shim().contains(".git\\gitreg_tracked"));
    assert_eq!(
        bash_zsh_alias_shim(),
        "# >>> gitreg-alias-start >>>\nalias gr='gitreg'\n# <<< gitreg-alias-end <<<"
    );
    assert_eq!(
        fish_alias_shim(),
        "# >>> gitreg-alias-start >>>\nfunction gr\n    gitreg $argv\nend\n# <<< gitreg-alias-end <<<"
    );
    assert_eq!(
        powershell_alias_shim(),
        "# >>> gitreg-alias-start >>>\nSet-Alias -Name gr -Value gitreg\n# <<< gitreg-alias-end <<<"
    );
}

#[test]
fn inject_appends_after_blank_line() {
    assert_eq!(
        inject_bash_zsh("x", "/rc").unwrap(),
        format!("x\n\n{}\n", bash_zsh_shim())
    );
    assert_eq!(
        inject_bash_zsh("", "/rc").unwrap(),
        format!("\n{}\n", bash_zsh_shim())
    );
    assert_eq!(
        inject_fish("a\n", "/f").unwrap(),
        format!("a\n\n{}\n", fish_shim())
    );
    assert_eq!(
        inject_powershell("p\n", "/p").unwrap(),
        format!("p\n\n{}\n", powershell_shim())
    );
}

#[test]
fn second_init_is_refused() {
    let once = inject_bash_zsh("x\n", "/home/u/.bashrc").unwrap();
    match inject_bash_zsh(&once, "/home/u/.bashrc") {
        Err(GitregError::AlreadyInitialized(p)) => assert_eq!(p, "/home/u/.bashrc"),
        _ => panic!("expected AlreadyInitialized"),
    }
    let fish = inject_fish("", "/f.fish").unwrap();
    assert!(matches!(
        inject_fish(&fish, "/f.fish"),
        Err(GitregError::AlreadyInitialized(_))
    ));
    let ps = inject_powershell("", "/p.ps1").unwrap();
    assert!(matches!(
        inject_powershell(&ps, "/p.ps1"),
        Err(GitregError::AlreadyInitialized(_))
    ));
}

#[test]
fn fish_alias_file_rules() {
    assert_eq!(inject_alias_fish(None), Some(fish_alias_shim()));
    assert_eq!(inject_alias_fish(Some("")), Some(fish_alias_shim()));
    assert_eq!(inject_alias_fish(Some("function gr\nend\n")), None);
    let ours = fish_alias_shim();
    assert_eq!(inject_alias_fish(Some(&ours)), Some(fish_alias_shim()));
}

#[test]
fn powershell_alias_injection() {
    let once = inject_alias_powershell("$x = 1").unwrap();
    assert_eq!(once, format!("$x = 1\n\n{}\n", powershell_alias_shim()));
    assert_eq!(inject_alias_powershell(&once), None);
}

#[test]
fn alias_enabled_when_any_file_has_block() {
    assert!(!is_alias_enabled(&[]));
    assert!(!is_alias_enabled(&["x".to_string()]));
    let with = inject_alias_bash_zsh("x").unwrap();
    assert!(is_alias_enabled(&["y".to_string(), with]));
}

#[test]
fn own_alias_block_is_no_conflict() {
    let ours = inject_alias_bash_zsh("export A=1\n").unwrap();
    assert!(!check_alias_conflict(ShellKind::Bash, false, &[ours.clone()]));
    assert!(check_alias_conflict(ShellKind::Bash, true, &[ours]));
    assert!(check_alias_conflict(ShellKind::Fish, false, &["function gr\nend".to_string()]));
    assert!(check_alias_conflict(
        ShellKind::PowerShell,
        false,
        &["Set-Alias -Name grep -Value x".to_string()]
    ));
    assert!(!check_alias_conflict(ShellKind::PowerShell, false, &["Set-Alias x y".to_string()]));
}

#[test]
fn remove_block_drops_guarded_lines() {
    let text = "a\r\nSTART\nb\nEND\nc\n\n\n";
    assert_eq!(remove_block(text, "START", "END"), "a\nc\n");
    assert_eq!(remove_block("no newline", "S", "E"), "no newline\n");
    assert_eq!(remove_block("", "S", "E"), "");
}

#[test]
fn removing_everything_leaves_empty_file() {
    let content = inject_bash_zsh("", "/rc").unwrap();
    assert_eq!(remove_all_gitreg_blocks(&content), "");
    let guard_text = format!("{}\n{}\n", ALIAS_GUARD_START, ALIAS_GUARD_END);
    assert_eq!(remove_all_gitreg_blocks(&guard_text), "");
}
