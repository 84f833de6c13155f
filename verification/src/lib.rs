//! A verified core for a multi-worktree shared-file store.
//!
//! One repository may have several working directories ("worktrees") that
//! share a set of non-versioned files (local secrets, machine-specific
//! configuration). The shared files live in a store directory derived from
//! the repository's common metadata directory; a manifest in that store
//! records each tracked path together with its propagation strategy
//! (`Symlink` or `Copy`).
//!
//! This crate holds the logic of that synchronizer: the manifest codec, the
//! sync engine (`track`, `push`, `pull`, `untrack`), the read-only status
//! reconciler, and the repository-root resolver. Filesystem state is modelled
//! by the [`fs::Fs`] type, a value that stands for one directory tree; the
//! thin unverified shell around this crate reads real directories into such
//! values and writes them back.

#![verifier::loop_isolation(false)]

pub mod cli;
pub mod config;
pub mod context;
pub mod error;
pub mod fs;
pub mod fsops;
pub mod git;
pub mod laws;
pub mod manifest;
pub mod store;
pub mod strutil;
pub mod ui;
