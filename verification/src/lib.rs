//! A command-history manager: a catalog of saved shell commands, a usage
//! history that ranks the commands the user actually runs, placeholder
//! resolution for command templates, and a git-workflow extension hook.
//!
//! The crate holds the verified core: the record model, the two persistence
//! backends (an in-memory/flat-file store with its line codec, and a
//! SQLite-backed store behind trusted wrappers), the merge/dedup/rank
//! algorithm, the usage-bump algorithm, the template resolver, and the
//! extension routing. Interactive prompts, process spawning and file
//! handles live outside the library and exchange plain values with it.

pub mod cmd_record;
pub mod controller;
pub mod csv_codec;
pub mod csv_store;
pub mod error;
pub mod file_manager;
pub mod git_ext;
pub mod program;
pub mod ranking;
pub mod resolver;
pub mod service;
pub mod sql_store;
pub mod strutil;
pub mod summary;
