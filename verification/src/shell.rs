//! The shell integration: the shim that reports `git` calls, the `gr`
//! alias, where they are written, and taking them out again.
//!
//! Reading and writing the files is left to the caller; these functions take
//! a file's current text and return the text to write.
use vstd::prelude::*;
use crate::error::GitregError;
use crate::order::views;
use crate::text::{
    chars_of, concat2, contains, contains_exec, copy_string, find, find_from_exec, lemma_find_from,
    lines, lines_exec, matches_at, slice_to_vec, str_contains, string_of, trim, trimmed,
};

verus! {

/// The shells that the shim is written for.
#[derive(PartialEq, Eq, Structural, Clone, Copy, Debug)]
pub enum ShellKind {
    Bash,
    Zsh,
    Fish,
    PowerShell,
}

/// First line of the shim block.
pub const GUARD_START: &'static str = "# >>> gitreg-start >>>";

/// Last line of the shim block.
pub const GUARD_END: &'static str = "# <<< gitreg-end <<<";

/// First line of the alias block.
pub const ALIAS_GUARD_START: &'static str = "# >>> gitreg-alias-start >>>";

/// Last line of the alias block.
pub const ALIAS_GUARD_END: &'static str = "# <<< gitreg-alias-end <<<";

/// Largest shell start-up file that is read, in bytes.
pub const MAX_RC_BYTES: u64 = 10485760;

/// The body of the bash/zsh shim.
pub const BASH_ZSH_SHIM_BODY: &'static str = r#"
git() {
    local current_dir="$PWD"
    local git_root=""
    while [[ "$current_dir" != "/" ]]; do
        if [[ -d "$current_dir/.git" ]]; then git_root="$current_dir"; break; fi
        current_dir=$(dirname "$current_dir")
    done
    if [[ -z "$git_root" ]]; then command git "$@"; return; fi
    local marker="$git_root/.git/gitreg_tracked"
    local needs_reg=true
    if [[ -f "$marker" ]]; then
        local recorded_path; read -r recorded_path < "$marker"
        [[ "$recorded_path" == "$git_root" ]] && needs_reg=false
    fi
    if [[ "$needs_reg" == "true" ]]; then (gitreg hook --path "$git_root" > /dev/null 2>&1 & disown); fi
    command git "$@"
}
"#;

/// The body of the fish shim.
pub const FISH_SHIM_BODY: &'static str = r#"
function git
    set current_dir $PWD
    set git_root ""
    while test "$current_dir" != "/"
        if test -d "$current_dir/.git"
            set git_root $current_dir
            break
        end
        set current_dir (dirname $current_dir)
    end
    if test -z "$git_root"
        command git $argv
        return
    end
    set marker "$git_root/.git/gitreg_tracked"
    set needs_reg true
    if test -f "$marker"
        read -l recorded_path < "$marker"
        if test "$recorded_path" = "$git_root"
            set needs_reg false
        end
    end
    if test "$needs_reg" = "true"
        gitreg hook --path "$git_root" > /dev/null 2>&1 &
    end
    command git $argv
end
"#;

/// The body of the PowerShell shim.
pub const POWERSHELL_SHIM_BODY: &'static str = r#"
$script:_gitreg_git = (Get-Command git -CommandType Application -ErrorAction SilentlyContinue | Select-Object -First 1).Source
if (-not $script:_gitreg_git) { $script:_gitreg_git = "git.exe" }
function git {
    $current_dir = $PWD.Path
    $git_root = $null
    while ($true) {
        if (Test-Path (Join-Path $current_dir ".git")) {
            $git_root = $current_dir
            break
        }
        $parent = Split-Path $current_dir -Parent
        if (-not $parent -or $parent -eq $current_dir) { break }
        $current_dir = $parent
    }
    if ($null -eq $git_root) {
        & $script:_gitreg_git @args
        return
    }
    $marker = Join-Path $git_root ".git\gitreg_tracked"
    $needs_reg = $true
    if (Test-Path $marker) {
        $recorded = (Get-Content $marker -TotalCount 1 -ErrorAction SilentlyContinue)
        if ($recorded -and $recorded.Trim() -eq $git_root) { $needs_reg = $false }
    }
    if ($needs_reg) {
        $null = Start-Process "gitreg" -ArgumentList @("hook", "--path", $git_root) -WindowStyle Hidden -PassThru -ErrorAction SilentlyContinue
    }
    & $script:_gitreg_git @args
}
"#;

/// The body of the bash/zsh alias block.
pub const BASH_ZSH_ALIAS_BODY: &'static str = "\nalias gr='gitreg'\n";

/// The body of the fish alias block.
pub const FISH_ALIAS_BODY: &'static str = "\nfunction gr\n    gitreg $argv\nend\n";

/// The body of the PowerShell alias block.
pub const POWERSHELL_ALIAS_BODY: &'static str = "\nSet-Alias -Name gr -Value gitreg\n";

/// A text with no `#` and no carriage return, that starts and ends with a
/// newline.
pub open spec fn plain_body(b: Seq<char>) -> bool {
    &&& b.len() > 0
    &&& b[0] == '\n'
    &&& b.last() == '\n'
    &&& forall|j: int| 0 <= j < b.len() ==> b[j] != '#' && b[j] != '\r'
}

/// A guard line: it starts with `#` and holds no other `#`, no newline and
/// no carriage return.
pub open spec fn hash_line(g: Seq<char>) -> bool {
    &&& g.len() > 0
    &&& g[0] == '#'
    &&& forall|j: int| 0 < j < g.len() ==> g[j] != '#'
    &&& forall|j: int| 0 <= j < g.len() ==> g[j] != '\n' && g[j] != '\r'
}

/// The guard lines' texts.
pub proof fn lemma_guard_texts()
    ensures
        hash_line(GUARD_START@),
        hash_line(GUARD_END@),
        hash_line(ALIAS_GUARD_START@),
        hash_line(ALIAS_GUARD_END@),
        GUARD_START@.len() == 22,
        GUARD_END@.len() == 20,
        ALIAS_GUARD_START@.len() == 28,
        ALIAS_GUARD_END@.len() == 26,
        GUARD_START@[2] == '>' && GUARD_START@[13] == 's',
        GUARD_END@[2] == '<' && GUARD_END@[13] == 'e',
        ALIAS_GUARD_START@[2] == '>' && ALIAS_GUARD_START@[13] == 'a',
        ALIAS_GUARD_END@[2] == '<' && ALIAS_GUARD_END@[13] == 'a',
{
    reveal_strlit("# >>> gitreg-start >>>");
    reveal_strlit("# <<< gitreg-end <<<");
    reveal_strlit("# >>> gitreg-alias-start >>>");
    reveal_strlit("# <<< gitreg-alias-end <<<");
}

/// The bodies of the bash/zsh shim and alias blocks are plain.
pub proof fn lemma_bash_zsh_bodies()
    ensures
        plain_body(BASH_ZSH_SHIM_BODY@),
        plain_body(BASH_ZSH_ALIAS_BODY@),
{
    reveal_strlit(r#"
git() {
    local current_dir="$PWD"
    local git_root=""
    while [[ "$current_dir" != "/" ]]; do
        if [[ -d "$current_dir/.git" ]]; then git_root="$current_dir"; break; fi
        current_dir=$(dirname "$current_dir")
    done
    if [[ -z "$git_root" ]]; then command git "$@"; return; fi
    local marker="$git_root/.git/gitreg_tracked"
    local needs_reg=true
    if [[ -f "$marker" ]]; then
        local recorded_path; read -r recorded_path < "$marker"
        [[ "$recorded_path" == "$git_root" ]] && needs_reg=false
    fi
    if [[ "$needs_reg" == "true" ]]; then (gitreg hook --path "$git_root" > /dev/null 2>&1 & disown); fi
    command git "$@"
}
"#);
    reveal_strlit("\nalias gr='gitreg'\n");
}

// ---------------------------------------------------------------------------
// Which shell, and where its start-up file is
// ---------------------------------------------------------------------------

/// The shell named by the `SHELL` variable's value `shell_var` (empty when it
/// is not set): zsh, fish, any other as bash; with no value, PowerShell on
/// Windows and bash elsewhere.
pub open spec fn shell_kind_of(shell_var: Seq<char>, windows: bool) -> ShellKind {
    if contains(shell_var, "zsh"@) {
        ShellKind::Zsh
    } else if contains(shell_var, "fish"@) {
        ShellKind::Fish
    } else if shell_var.len() > 0 {
        ShellKind::Bash
    } else if windows {
        ShellKind::PowerShell
    } else {
        ShellKind::Bash
    }
}

/// The user's shell, from the value of `SHELL` (empty when unset) and whether
/// this is Windows.
pub fn detect_shell(shell_var: &str, windows: bool) -> (k: ShellKind)
    ensures
        k == shell_kind_of(shell_var@, windows),
{
    if str_contains(shell_var, "zsh") {
        return ShellKind::Zsh;
    }
    if str_contains(shell_var, "fish") {
        return ShellKind::Fish;
    }
    if chars_of(shell_var).len() > 0 {
        return ShellKind::Bash;
    }
    if windows {
        ShellKind::PowerShell
    } else {
        ShellKind::Bash
    }
}

/// `Path::join` of a relative component: a separator is put between unless
/// `base` is empty or already ends with one (`sep`, or `/`).
pub open spec fn join_path(base: Seq<char>, comp: Seq<char>, sep: char) -> Seq<char> {
    if base.len() == 0 || base.last() == sep || base.last() == '/' {
        base + comp
    } else {
        base + seq![sep] + comp
    }
}

/// `base` joined with `comp`.
pub fn join(base: &str, comp: &str, sep: char) -> (r: String)
    ensures
        r@ == join_path(base@, comp@, sep),
{
    let b = chars_of(base);
    if b.len() == 0 || b[b.len() - 1] == sep || b[b.len() - 1] == '/' {
        concat2(base, comp)
    } else {
        let mut v = b;
        v.push(sep);
        let with_sep = string_of(v.as_slice());
        concat2(with_sep.as_str(), comp)
    }
}

/// The profile directory of PowerShell: Windows PowerShell 5.1 (whose
/// installation directory, `PSHOME`, contains `WindowsPowerShell`) or
/// PowerShell 7 and later.
pub open spec fn powershell_dir(pshome: Seq<char>) -> Seq<char> {
    if contains(pshome, "WindowsPowerShell"@) {
        "WindowsPowerShell"@
    } else {
        "PowerShell"@
    }
}

/// The start-up file that the shim goes into, given the user's home and
/// documents directories (`None` when unknown), the value of `PSHOME` and
/// the path separator: `~/.bashrc`, `~/.zshrc`,
/// `~/.config/fish/functions/git.fish`, or the PowerShell profile under the
/// documents directory.
pub open spec fn rc_path_of(
    shell: ShellKind,
    home: Option<Seq<char>>,
    docs: Option<Seq<char>>,
    pshome: Seq<char>,
    sep: char,
) -> Option<Seq<char>> {
    match shell {
        ShellKind::Bash => match home {
            Some(h) => Some(join_path(h, ".bashrc"@, sep)),
            None => None,
        },
        ShellKind::Zsh => match home {
            Some(h) => Some(join_path(h, ".zshrc"@, sep)),
            None => None,
        },
        ShellKind::Fish => match home {
            Some(h) => Some(join_path(fish_functions_dir(h, sep), "git.fish"@, sep)),
            None => None,
        },
        ShellKind::PowerShell => match docs {
            Some(d) => Some(
                join_path(join_path(d, powershell_dir(pshome), sep), "Microsoft.PowerShell_profile.ps1"@, sep),
            ),
            None => None,
        },
    }
}

/// Fish's functions directory under the home directory `home`:
/// `~/.config/fish/functions`.
pub open spec fn fish_functions_dir(home: Seq<char>, sep: char) -> Seq<char> {
    join_path(join_path(join_path(home, ".config"@, sep), "fish"@, sep), "functions"@, sep)
}

fn fish_functions(home: &str, sep: char) -> (d: String)
    ensures
        d@ == fish_functions_dir(home@, sep),
{
    let a = join(home, ".config", sep);
    let b = join(a.as_str(), "fish", sep);
    join(b.as_str(), "functions", sep)
}

/// The Fish function file that defines the `gr` alias:
/// `~/.config/fish/functions/gr.fish`; fails when the home directory is
/// unknown.
pub fn fish_alias_path(home: Option<&str>, sep: char) -> (res: Result<String, GitregError>)
    ensures
        match crate::db::opt_str_view(home) {
            Some(h) => res matches Ok(s) && s@ == join_path(fish_functions_dir(h, sep), "gr.fish"@, sep),
            None => res matches Err(GitregError::NoConfigDir),
        },
{
    match home {
        Some(h) => {
            let dir = fish_functions(h, sep);
            Ok(join(dir.as_str(), "gr.fish", sep))
        },
        None => Err(GitregError::NoConfigDir),
    }
}

/// The start-up file that the shim goes into; fails when the directory it
/// lies in is unknown.
pub fn rc_file_path(
    shell: ShellKind,
    home: Option<&str>,
    docs: Option<&str>,
    pshome: &str,
    sep: char,
) -> (res: Result<String, GitregError>)
    ensures
        match rc_path_of(
            shell,
            crate::db::opt_str_view(home),
            crate::db::opt_str_view(docs),
            pshome@,
            sep,
        ) {
            Some(p) => res matches Ok(s) && s@ == p,
            None => res matches Err(GitregError::NoConfigDir),
        },
{
    match shell {
        ShellKind::Bash => match home {
            Some(h) => Ok(join(h, ".bashrc", sep)),
            None => Err(GitregError::NoConfigDir),
        },
        ShellKind::Zsh => match home {
            Some(h) => Ok(join(h, ".zshrc", sep)),
            None => Err(GitregError::NoConfigDir),
        },
        ShellKind::Fish => match home {
            Some(h) => {
                let dir = fish_functions(h, sep);
                Ok(join(dir.as_str(), "git.fish", sep))
            },
            None => Err(GitregError::NoConfigDir),
        },
        ShellKind::PowerShell => match docs {
            Some(d) => {
                let dir = if str_contains(pshome, "WindowsPowerShell") {
                    "WindowsPowerShell"
                } else {
                    "PowerShell"
                };
                let a = join(d, dir, sep);
                Ok(join(a.as_str(), "Microsoft.PowerShell_profile.ps1", sep))
            },
            None => Err(GitregError::NoConfigDir),
        },
    }
}

/// The profiles of both Windows PowerShell 5.1 and PowerShell 7+, so that
/// the shim works whichever of them the user runs.
pub fn powershell_profile_paths(docs: Option<&str>, sep: char) -> (res: Result<
    Vec<String>,
    GitregError,
>)
    ensures
        match crate::db::opt_str_view(docs) {
            Some(d) => res matches Ok(v) && views(v@) == seq![
                join_path(join_path(d, "WindowsPowerShell"@, sep), "Microsoft.PowerShell_profile.ps1"@, sep),
                join_path(join_path(d, "PowerShell"@, sep), "Microsoft.PowerShell_profile.ps1"@, sep),
            ],
            None => res matches Err(GitregError::NoConfigDir),
        },
{
    match docs {
        Some(d) => {
            let a = join(d, "WindowsPowerShell", sep);
            let b = join(d, "PowerShell", sep);
            let pa = join(a.as_str(), "Microsoft.PowerShell_profile.ps1", sep);
            let pb = join(b.as_str(), "Microsoft.PowerShell_profile.ps1", sep);
            let mut v: Vec<String> = Vec::new();
            v.push(pa);
            v.push(pb);
            assert(views(v@) =~= seq![pa@, pb@]);
            Ok(v)
        },
        None => Err(GitregError::NoConfigDir),
    }
}

// ---------------------------------------------------------------------------
// The blocks
// ---------------------------------------------------------------------------

/// `body` between the two guard lines `start` and `end`.
pub open spec fn guarded(start: Seq<char>, body: Seq<char>, end: Seq<char>) -> Seq<char> {
    start + body + end
}

fn guarded_exec(start: &str, body: &str, end: &str) -> (r: String)
    ensures
        r@ == guarded(start@, body@, end@),
{
    let a = concat2(start, body);
    concat2(a.as_str(), end)
}

pub open spec fn bash_zsh_shim_text() -> Seq<char> {
    guarded(GUARD_START@, BASH_ZSH_SHIM_BODY@, GUARD_END@)
}

pub open spec fn fish_shim_text() -> Seq<char> {
    guarded(GUARD_START@, FISH_SHIM_BODY@, GUARD_END@)
}

pub open spec fn powershell_shim_text() -> Seq<char> {
    guarded(GUARD_START@, POWERSHELL_SHIM_BODY@, GUARD_END@)
}

pub open spec fn bash_zsh_alias_text() -> Seq<char> {
    guarded(ALIAS_GUARD_START@, BASH_ZSH_ALIAS_BODY@, ALIAS_GUARD_END@)
}

pub open spec fn fish_alias_text() -> Seq<char> {
    guarded(ALIAS_GUARD_START@, FISH_ALIAS_BODY@, ALIAS_GUARD_END@)
}

pub open spec fn powershell_alias_text() -> Seq<char> {
    guarded(ALIAS_GUARD_START@, POWERSHELL_ALIAS_BODY@, ALIAS_GUARD_END@)
}

/// The bash/zsh shim: a `git` function that, inside a repository not yet
/// marked as recorded, starts `gitreg hook` in the background before running
/// git.
pub fn bash_zsh_shim() -> (s: String)
    ensures
        s@ == bash_zsh_shim_text(),
{
    guarded_exec(GUARD_START, BASH_ZSH_SHIM_BODY, GUARD_END)
}

/// The fish shim (the same `git` function for fish).
pub fn fish_shim() -> (s: String)
    ensures
        s@ == fish_shim_text(),
{
    guarded_exec(GUARD_START, FISH_SHIM_BODY, GUARD_END)
}

/// The PowerShell shim (the same `git` function for PowerShell).
pub fn powershell_shim() -> (s: String)
    ensures
        s@ == powershell_shim_text(),
{
    guarded_exec(GUARD_START, POWERSHELL_SHIM_BODY, GUARD_END)
}

/// The bash/zsh alias block: `alias gr='gitreg'`.
pub fn bash_zsh_alias_shim() -> (s: String)
    ensures
        s@ == bash_zsh_alias_text(),
{
    guarded_exec(ALIAS_GUARD_START, BASH_ZSH_ALIAS_BODY, ALIAS_GUARD_END)
}

/// The fish alias block: a `gr` function.
pub fn fish_alias_shim() -> (s: String)
    ensures
        s@ == fish_alias_text(),
{
    guarded_exec(ALIAS_GUARD_START, FISH_ALIAS_BODY, ALIAS_GUARD_END)
}

/// The PowerShell alias block: `Set-Alias -Name gr -Value gitreg`.
pub fn powershell_alias_shim() -> (s: String)
    ensures
        s@ == powershell_alias_text(),
{
    guarded_exec(ALIAS_GUARD_START, POWERSHELL_ALIAS_BODY, ALIAS_GUARD_END)
}

// ---------------------------------------------------------------------------
// Writing the blocks into a start-up file
// ---------------------------------------------------------------------------

/// `existing` with `block` appended after an empty line (a missing final
/// newline of `existing` added first), followed by a newline.
pub open spec fn appended(existing: Seq<char>, block: Seq<char>) -> Seq<char> {
    let base = if existing.len() > 0 && existing.last() != '\n' {
        existing.push('\n')
    } else {
        existing
    };
    base.push('\n') + block + seq!['\n']
}

fn append_block(existing: &str, block: &str) -> (r: String)
    ensures
        r@ == appended(existing@, block@),
{
    let mut v = chars_of(existing);
    if v.len() > 0 && v[v.len() - 1] != '\n' {
        v.push('\n');
    }
    v.push('\n');
    let head = string_of(v.as_slice());
    let a = concat2(head.as_str(), block);
    proof {
        reveal_strlit("\n");
        assert("\n"@ =~= seq!['\n']);
    }
    concat2(a.as_str(), "\n")
}

/// The shim appended to the text of a bash or zsh start-up file, or
/// `AlreadyInitialized` when the file holds a shim already.
pub fn inject_bash_zsh(existing: &str, rc_path: &str) -> (res: Result<String, GitregError>)
    ensures
        contains(existing@, GUARD_START@) ==> (res matches Err(GitregError::AlreadyInitialized(p))
            && p@ == rc_path@),
        !contains(existing@, GUARD_START@) ==> (res matches Ok(c) && c@ == appended(
            existing@,
            bash_zsh_shim_text(),
        )),
{
    if str_contains(existing, GUARD_START) {
        return Err(GitregError::AlreadyInitialized(copy_string(rc_path)));
    }
    let shim = bash_zsh_shim();
    Ok(append_block(existing, shim.as_str()))
}

/// The fish shim appended to the text of its functions file, or
/// `AlreadyInitialized` when the file holds a shim already.
pub fn inject_fish(existing: &str, fish_path: &str) -> (res: Result<String, GitregError>)
    ensures
        contains(existing@, GUARD_START@) ==> (res matches Err(GitregError::AlreadyInitialized(p))
            && p@ == fish_path@),
        !contains(existing@, GUARD_START@) ==> (res matches Ok(c) && c@ == appended(
            existing@,
            fish_shim_text(),
        )),
{
    if str_contains(existing, GUARD_START) {
        return Err(GitregError::AlreadyInitialized(copy_string(fish_path)));
    }
    let shim = fish_shim();
    Ok(append_block(existing, shim.as_str()))
}

/// The PowerShell shim appended to the text of a profile, or
/// `AlreadyInitialized` when the profile holds a shim already.
pub fn inject_powershell(existing: &str, profile_path: &str) -> (res: Result<String, GitregError>)
    ensures
        contains(existing@, GUARD_START@) ==> (res matches Err(GitregError::AlreadyInitialized(p))
            && p@ == profile_path@),
        !contains(existing@, GUARD_START@) ==> (res matches Ok(c) && c@ == appended(
            existing@,
            powershell_shim_text(),
        )),
{
    if str_contains(existing, GUARD_START) {
        return Err(GitregError::AlreadyInitialized(copy_string(profile_path)));
    }
    let shim = powershell_shim();
    Ok(append_block(existing, shim.as_str()))
}

/// The alias block appended to a bash or zsh start-up file's text; `None`
/// (nothing to write) when it is there already.
pub fn inject_alias_bash_zsh(existing: &str) -> (r: Option<String>)
    ensures
        contains(existing@, ALIAS_GUARD_START@) ==> r is None,
        !contains(existing@, ALIAS_GUARD_START@) ==> (r matches Some(c) && c@ == appended(
            existing@,
            bash_zsh_alias_text(),
        )),
{
    if str_contains(existing, ALIAS_GUARD_START) {
        return None;
    }
    let block = bash_zsh_alias_shim();
    Some(append_block(existing, block.as_str()))
}

/// The text to write to fish's alias file, whose current text is `existing`
/// (`None` when there is no such file): the alias block alone, or nothing
/// when the file holds something else.
pub fn inject_alias_fish(existing: Option<&str>) -> (r: Option<String>)
    ensures
        match existing {
            Some(c) => if !contains(c@, ALIAS_GUARD_START@) && c@.len() > 0 {
                r is None
            } else {
                r matches Some(t) && t@ == fish_alias_text()
            },
            None => r matches Some(t) && t@ == fish_alias_text(),
        },
{
    match existing {
        Some(c) => {
            if !str_contains(c, ALIAS_GUARD_START) && chars_of(c).len() > 0 {
                return None;
            }
        },
        None => {},
    }
    Some(fish_alias_shim())
}

/// The alias block appended to a PowerShell profile's text; `None` when it is
/// there already.
pub fn inject_alias_powershell(existing: &str) -> (r: Option<String>)
    ensures
        contains(existing@, ALIAS_GUARD_START@) ==> r is None,
        !contains(existing@, ALIAS_GUARD_START@) ==> (r matches Some(c) && c@ == appended(
            existing@,
            powershell_alias_text(),
        )),
{
    if str_contains(existing, ALIAS_GUARD_START) {
        return None;
    }
    let block = powershell_alias_shim();
    Some(append_block(existing, block.as_str()))
}

// ---------------------------------------------------------------------------
// The `gr` alias: is it there, is the name taken
// ---------------------------------------------------------------------------

/// Whether any of the start-up files' texts holds the alias block.
pub open spec fn alias_enabled_in(contents: Seq<Seq<char>>) -> bool {
    exists|i: int| 0 <= i < contents.len() && contains(#[trigger] contents[i], ALIAS_GUARD_START@)
}

/// Whether the alias is enabled, given the texts of the shell's start-up
/// files that exist.
pub fn is_alias_enabled(contents: &[String]) -> (b: bool)
    ensures
        b == alias_enabled_in(views(contents@)),
{
    let mut i: usize = 0;
    while i < contents.len()
        invariant
            i <= contents@.len(),
            forall|j: int| 0 <= j < i ==> !contains(#[trigger] views(contents@)[j], ALIAS_GUARD_START@),
        decreases contents.len() - i,
    {
        if str_contains(contents[i].as_str(), ALIAS_GUARD_START) {
            assert(contains(views(contents@)[i as int], ALIAS_GUARD_START@));
            return true;
        }
        i = i + 1;
    }
    false
}

/// The text with this tool's own alias block cut out (from the first start
/// guard to the end of the first end guard, when that comes after it).
pub open spec fn strip_alias_block(c: Seq<char>) -> Seq<char> {
    match (find(c, ALIAS_GUARD_START@), find(c, ALIAS_GUARD_END@)) {
        (Some(s), Some(e)) => if e > s {
            c.take(s) + c.skip(e + ALIAS_GUARD_END@.len())
        } else {
            c
        },
        _ => c,
    }
}

/// Whether a start-up file's text defines `gr` itself for `shell`.
pub open spec fn defines_gr(shell: ShellKind, c: Seq<char>) -> bool {
    match shell {
        ShellKind::Bash | ShellKind::Zsh => contains(c, "alias gr="@) || contains(c, "gr()"@),
        ShellKind::Fish => contains(c, "alias gr"@) || contains(c, "function gr"@),
        ShellKind::PowerShell => (contains(c, "Set-Alias"@) && contains(c, "gr"@)) || contains(
            c,
            "function gr"@,
        ),
    }
}

/// Whether `gr` is taken: a `gr` command on the path, or a definition in one
/// of the start-up files other than this tool's alias block.
pub open spec fn alias_conflict(shell: ShellKind, gr_on_path: bool, contents: Seq<Seq<char>>) -> bool {
    gr_on_path || exists|i: int|
        0 <= i < contents.len() && defines_gr(shell, strip_alias_block(#[trigger] contents[i]))
}

fn strip_alias_block_exec(c: &str) -> (r: String)
    ensures
        r@ == strip_alias_block(c@),
{
    let cs = chars_of(c);
    let st = chars_of(ALIAS_GUARD_START);
    let en = chars_of(ALIAS_GUARD_END);
    let s = find_from_exec(cs.as_slice(), st.as_slice(), 0);
    let e = find_from_exec(cs.as_slice(), en.as_slice(), 0);
    match (s, e) {
        (Some(s), Some(e)) => {
            if e > s {
                proof {
                    lemma_find_from(cs@, en@, 0);
                }
                assert(matches_at(cs@, en@, e as int));
                assert(e + en@.len() <= cs@.len());
                assert(cs@.len() == cs.len() && en@.len() == en.len());
                let mut v = slice_to_vec(cs.as_slice(), 0, s);
                let tail = slice_to_vec(cs.as_slice(), e + en.len(), cs.len());
                let ghost head = v@;
                let mut k: usize = 0;
                while k < tail.len()
                    invariant
                        k <= tail@.len(),
                        v@ == head + tail@.take(k as int),
                    decreases tail.len() - k,
                {
                    v.push(tail[k]);
                    k = k + 1;
                    assert(v@ == head + tail@.take(k as int));
                }
                assert(tail@.take(tail@.len() as int) == tail@);
                string_of(v.as_slice())
            } else {
                copy_string(c)
            }
        },
        _ => copy_string(c),
    }
}

fn defines_gr_exec(shell: ShellKind, c: &str) -> (b: bool)
    ensures
        b == defines_gr(shell, c@),
{
    match shell {
        ShellKind::Bash | ShellKind::Zsh => str_contains(c, "alias gr=") || str_contains(c, "gr()"),
        ShellKind::Fish => str_contains(c, "alias gr") || str_contains(c, "function gr"),
        ShellKind::PowerShell => (str_contains(c, "Set-Alias") && str_contains(c, "gr"))
            || str_contains(c, "function gr"),
    }
}

/// Whether the name `gr` is taken, given whether a `gr` command is on the
/// path and the texts of the shell's start-up files that exist.
pub fn check_alias_conflict(shell: ShellKind, gr_on_path: bool, contents: &[String]) -> (b: bool)
    ensures
        b == alias_conflict(shell, gr_on_path, views(contents@)),
{
    if gr_on_path {
        return true;
    }
    let mut i: usize = 0;
    while i < contents.len()
        invariant
            i <= contents@.len(),
            forall|j: int|
                0 <= j < i ==> !defines_gr(shell, strip_alias_block(#[trigger] views(contents@)[j])),
        decreases contents.len() - i,
    {
        let stripped = strip_alias_block_exec(contents[i].as_str());
        if defines_gr_exec(shell, stripped.as_str()) {
            assert(defines_gr(shell, strip_alias_block(views(contents@)[i as int])));
            return true;
        }
        i = i + 1;
    }
    false
}

// ---------------------------------------------------------------------------
// Taking the blocks out
// ---------------------------------------------------------------------------

/// The lines of `ls` outside the blocks that a line containing `start` opens
/// and a line containing `end` closes, each followed by a newline; the guard
/// lines themselves are dropped.
pub open spec fn kept_lines(ls: Seq<Seq<char>>, start: Seq<char>, end: Seq<char>, in_block: bool) -> Seq<char>
    decreases ls.len(),
{
    if ls.len() == 0 {
        Seq::empty()
    } else if contains(ls[0], start) {
        kept_lines(ls.drop_first(), start, end, true)
    } else if contains(ls[0], end) {
        kept_lines(ls.drop_first(), start, end, false)
    } else if in_block {
        kept_lines(ls.drop_first(), start, end, true)
    } else {
        ls[0] + seq!['\n'] + kept_lines(ls.drop_first(), start, end, false)
    }
}

/// `s` with trailing newlines cut down to one (when it ends in two or more).
pub open spec fn single_final_newline(s: Seq<char>) -> Seq<char>
    decreases s.len(),
{
    if s.len() >= 2 && s.last() == '\n' && s[s.len() - 2] == '\n' {
        single_final_newline(s.drop_last())
    } else {
        s
    }
}

/// `content` with the blocks between `start` and `end` guard lines removed.
pub open spec fn without_block(content: Seq<char>, start: Seq<char>, end: Seq<char>) -> Seq<char> {
    single_final_newline(kept_lines(lines(content), start, end, false))
}

/// The text without the blocks that lines containing `start_guard` and
/// `end_guard` enclose.
pub fn remove_block(content: &str, start_guard: &str, end_guard: &str) -> (r: String)
    ensures
        r@ == without_block(content@, start_guard@, end_guard@),
{
    let cs = chars_of(content);
    let ls = lines_exec(cs.as_slice());
    let ghost lv = views(ls@);
    let st = chars_of(start_guard);
    let en = chars_of(end_guard);
    let mut out: Vec<char> = Vec::new();
    let mut in_block = false;
    let mut i: usize = 0;
    assert(lv.skip(0) == lv);
    assert(out@ + kept_lines(lv, st@, en@, false) == kept_lines(lv, st@, en@, false));
    while i < ls.len()
        invariant
            i <= ls@.len(),
            lv == views(ls@),
            st@ == start_guard@,
            en@ == end_guard@,
            out@ + kept_lines(lv.skip(i as int), st@, en@, in_block) == kept_lines(lv, st@, en@, false),
        decreases ls.len() - i,
    {
        let ghost rest = lv.skip(i as int);
        assert(rest[0] == ls@[i as int]@);
        assert(rest.drop_first() == lv.skip(i + 1));
        let line = &ls[i];
        if contains_exec(line.as_slice(), st.as_slice()) {
            in_block = true;
        } else if contains_exec(line.as_slice(), en.as_slice()) {
            in_block = false;
        } else if !in_block {
            let ghost before = out@;
            let mut k: usize = 0;
            while k < line.len()
                invariant
                    k <= line@.len(),
                    out@ == before + line@.take(k as int),
                decreases line.len() - k,
            {
                out.push(line[k]);
                k = k + 1;
                assert(out@ == before + line@.take(k as int));
            }
            out.push('\n');
            assert(line@.take(line@.len() as int) == line@);
            assert(out@ == before + (line@ + seq!['\n']));
        }
        i = i + 1;
    }
    assert(lv.skip(ls@.len() as int).len() == 0);
    assert(out@ == kept_lines(lv, st@, en@, false));
    while out.len() >= 2 && out[out.len() - 1] == '\n' && out[out.len() - 2] == '\n'
        invariant
            single_final_newline(out@) == single_final_newline(kept_lines(lv, st@, en@, false)),
        decreases out.len(),
    {
        let ghost o = out@;
        out.pop();
        assert(out@ == o.drop_last());
    }
    string_of(out.as_slice())
}

/// The text of a start-up file with both the shim and the alias blocks taken
/// out (empty when nothing but whitespace remains).
pub open spec fn without_blocks(content: Seq<char>) -> Seq<char> {
    let s = without_block(
        without_block(content, GUARD_START@, GUARD_END@),
        ALIAS_GUARD_START@,
        ALIAS_GUARD_END@,
    );
    if trim(s).len() == 0 {
        Seq::empty()
    } else {
        s
    }
}

/// The text to write back to a start-up file when uninstalling: both blocks
/// taken out.
pub fn remove_all_gitreg_blocks(content: &str) -> (r: String)
    ensures
        r@ == without_blocks(content@),
{
    let a = remove_block(content, GUARD_START, GUARD_END);
    let b = remove_block(a.as_str(), ALIAS_GUARD_START, ALIAS_GUARD_END);
    let bv = chars_of(b.as_str());
    if trimmed(bv.as_slice()).len() == 0 {
        string_of(Vec::<char>::new().as_slice())
    } else {
        b
    }
}

} // verus!
