//! A registry of local Git repositories: the tracked repositories, their tags,
//! path exclusions, settings and integrator registrations, plus the parsing and
//! text generation that the command-line front end relies on.
pub mod error;
pub mod text;
pub mod order;
pub mod db;
pub mod hook;
pub mod upgrade;
pub mod shell;
pub mod commands;
pub mod cli;
pub mod properties;
