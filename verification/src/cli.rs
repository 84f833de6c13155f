//! The command surface as plain data. The unverified shell parses arguments
//! into these values and dispatches on them; nothing here reads the world.

use vstd::prelude::*;

use crate::manifest::Strategy;

verus! {

/// Clone a repository into the bare-plus-worktrees layout.
#[derive(Debug)]
pub struct CloneCmd {
    pub url: Option<String>,
}

/// Create a worktree.
#[derive(Debug)]
pub struct NewCmd {
    pub name: String,
    pub directory: Option<String>,
    pub branch: Option<String>,
    pub from: Option<String>,
}

/// Remove a worktree.
#[derive(Debug)]
pub struct RmCmd {
    pub directory: String,
    pub force: bool,
}

/// Enter the interactive menu.
#[derive(Debug)]
pub struct InteractiveCmd {}

/// Show the combined status.
#[derive(Debug)]
pub struct StatusCmd {}

/// The store subcommands.
#[derive(Debug)]
pub struct StoreCmd {
    pub command: StoreCommand,
}

#[derive(Debug)]
pub enum StoreCommand {
    Track(StoreTrackCmd),
    Status(StoreStatusCmd),
    Push(StorePushCmd),
    Pull(StorePullCmd),
    Untrack(StoreUntrackCmd),
}

/// Start tracking a path under a strategy.
#[derive(Debug)]
pub struct StoreTrackCmd {
    pub strategy: Strategy,
    pub file: String,
}

/// Report the status of every tracked path.
#[derive(Debug)]
pub struct StoreStatusCmd {}

/// Push `Copy`-tracked files into the store, optionally one path only.
#[derive(Debug)]
pub struct StorePushCmd {
    pub file: Option<String>,
}

/// Materialize tracked files from the store, optionally one path, optionally
/// overwriting what exists.
#[derive(Debug)]
pub struct StorePullCmd {
    pub file: Option<String>,
    pub force: bool,
}

/// Stop tracking a path.
#[derive(Debug)]
pub struct StoreUntrackCmd {
    pub file: String,
}

/// The registry subcommands.
#[derive(Debug)]
pub struct ReposCmd {
    pub command: ReposCommand,
}

#[derive(Debug)]
pub enum ReposCommand {
    Clone(CloneCmd),
    Add(ReposAddCmd),
    List(ReposListCmd),
    Rm(ReposRmCmd),
}

/// Register a repository.
#[derive(Debug)]
pub struct ReposAddCmd {
    pub path: Option<String>,
    pub name: Option<String>,
}

/// List registered repositories.
#[derive(Debug)]
pub struct ReposListCmd {}

/// Unregister a repository.
#[derive(Debug)]
pub struct ReposRmCmd {
    pub name: String,
}

} // verus!
