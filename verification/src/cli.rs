//! The command-line interface as plain data: what the user asked for, with
//! paths as text. The parser that fills it in lives in the front end.
use vstd::prelude::*;

verus! {

/// The parsed command line.
pub struct Cli {
    pub command: Commands,
}

/// The commands.
pub enum Commands {
    /// Print all available commands categorized by type.
    Overview,
    /// Initialize gitreg and inject the shell shim.
    Init,
    /// List all tracked repositories.
    Ls { json: bool },
    /// Run a git command across several repositories: `targets` is `all`,
    /// tags prefixed with `@`, or comma-separated ids and names.
    Git { targets: String, realtime: bool, git_args: Vec<String> },
    /// Manage repositories.
    Repo(RepoAction),
    /// Configure gitreg.
    Config(ConfigAction),
    /// Manage integrator applications and events.
    Integrator(IntegratorAction),
    /// Maintenance and information.
    System(SystemAction),
    /// Record a repository (called by the shell shim).
    Hook { path: String },
    /// Discover and register repositories in common locations.
    Autoscan,
    /// Scan a directory tree (alias for `repo scan`).
    Scan { dir: Option<String>, depth: usize },
    /// Add a tag (alias for `repo tag`).
    Tag { target: String, tag: String },
    /// Remove a tag (alias for `repo untag`).
    Untag { target: String, tag: String },
    /// Remove a repository (alias for `repo rm`).
    Rm { target: String },
    /// Prune missing repositories (alias for `repo prune`).
    Prune,
    /// Push uncommitted work to emergency branches, or dismiss the notices.
    Emergency { clear: bool },
}

/// `repo` subcommands.
pub enum RepoAction {
    Ls { json: bool },
    Scan { dir: Option<String>, depth: usize },
    Tag { target: String, tag: String },
    Untag { target: String, tag: String },
    Rm { target: String },
    Prune,
}

/// `config` subcommands.
pub enum ConfigAction {
    /// Enable the `gr` alias.
    Alias,
    /// Daily pruning: switch it on or off, set its time (`HH:MM`).
    Autoprune { enable: bool, disable: bool, time: Option<String> },
    /// Path exclusions.
    Exclude(ExcludeAction),
}

/// `system` subcommands.
pub enum SystemAction {
    Upgrade,
    Version,
    Webpage,
    Uninstall,
}

/// `config exclude` subcommands.
pub enum ExcludeAction {
    Add { path: String },
    Rm { path: String },
    Ls,
}

/// `integrator` subcommands.
pub enum IntegratorAction {
    Register { app: String, event: String, socket: String },
    Unregister { app: String, event: String },
    Ls,
    Events,
    Block { app: String },
    Unblock { app: String },
    Rm { app: String },
}

} // verus!
