//! The sync engine and the status reconciler, exercised on model worktrees.

use ws_core::error::StoreError;
use ws_core::fs::{Fs, FsEntry, FsNode};
use ws_core::manifest::{ManifestEntry, Strategy};
use ws_core::store::{
    file_status, pull, push, track, untrack, FileStatus, SkipReason, Store, SyncOutcome, Worktree,
};

fn file(bytes: &str) -> FsNode {
    FsNode::File { bytes: bytes.as_bytes().to_vec() }
}

fn link(target: &str) -> FsNode {
    FsNode::Link { target: target.to_string() }
}

fn entry(path: &[&str], node: FsNode) -> FsEntry {
    FsEntry { path: path.iter().map(|s| s.to_string()).collect(), node }
}

fn area(entries: Vec<FsEntry>) -> Fs {
    Fs { entries }
}

fn store_with(manifest: Vec<ManifestEntry>, entries: Vec<FsEntry>) -> Store {
    Store { path: "/repo/.bare/worktree-store".to_string(), manifest, files: area(entries) }
}

fn worktree_with(entries: Vec<FsEntry>) -> Worktree {
    Worktree { path: "/repo/main".to_string(), files: area(entries) }
}

fn manifest_entry(strategy: Strategy, filepath: &str) -> ManifestEntry {
    ManifestEntry { strategy, filepath: filepath.to_string() }
}

fn node_at<'a>(fs: &'a Fs, path: &[&str]) -> Option<&'a FsNode> {
    let want: Vec<String> = path.iter().map(|s| s.to_string()).collect();
    fs.entries.iter().find(|e| e.path == want).map(|e| &e.node)
}

fn bytes_at(fs: &Fs, path: &[&str]) -> Option<Vec<u8>> {
    match node_at(fs, path) {
        Some(FsNode::File { bytes }) => Some(bytes.clone()),
        _ => None,
    }
}

// ---- track ----

#[test]
fn track_symlink_registers_and_converts() {
    let mut store = store_with(vec![], vec![]);
    let mut wt = worktree_with(vec![entry(&[".envrc"], file("use flake"))]);
    let r = track(&mut store, &mut wt, Strategy::Symlink, &".envrc".to_string());
    assert_eq!(r, Ok(()));
    assert_eq!(store.manifest.len(), 1);
    assert_eq!(store.manifest[0].strategy, Strategy::Symlink);
    assert_eq!(store.manifest[0].filepath, ".envrc");
    assert_eq!(bytes_at(&store.files, &[".envrc"]).unwrap(), b"use flake");
    match node_at(&wt.files, &[".envrc"]).unwrap() {
        FsNode::Link { target } => {
            assert_eq!(target, "/repo/.bare/worktree-store/.envrc");
        },
        _ => panic!("expected a symlink after track"),
    }
    let e = manifest_entry(Strategy::Symlink, ".envrc");
    assert_eq!(file_status(&e, &store, Some(&wt)), FileStatus::Okay);
}

#[test]
fn track_copy_registers() {
    let mut store = store_with(vec![], vec![]);
    let mut wt = worktree_with(vec![entry(&[".mcp.json"], file("{\"key\":\"value\"}"))]);
    let r = track(&mut store, &mut wt, Strategy::Copy, &".mcp.json".to_string());
    assert_eq!(r, Ok(()));
    assert_eq!(store.manifest.len(), 1);
    assert_eq!(store.manifest[0].filepath, ".mcp.json");
    // the worktree copy stays a regular file, byte-identical to the store's
    assert_eq!(bytes_at(&wt.files, &[".mcp.json"]).unwrap(), b"{\"key\":\"value\"}");
    assert_eq!(bytes_at(&store.files, &[".mcp.json"]).unwrap(), b"{\"key\":\"value\"}");
    let e = manifest_entry(Strategy::Copy, ".mcp.json");
    assert_eq!(file_status(&e, &store, Some(&wt)), FileStatus::Okay);
}

#[test]
fn track_nonexistent_file_fails() {
    let mut store = store_with(vec![], vec![]);
    let mut wt = worktree_with(vec![]);
    let r = track(&mut store, &mut wt, Strategy::Symlink, &"nonexistent".to_string());
    assert_eq!(r, Err(StoreError::FileNotFound));
    assert_eq!(store.manifest.len(), 0);
}

#[test]
fn track_retrack_updates_in_place() {
    let mut store = store_with(vec![], vec![]);
    let mut wt = worktree_with(vec![entry(&[".envrc"], file("x"))]);
    track(&mut store, &mut wt, Strategy::Copy, &".envrc".to_string()).unwrap();
    track(&mut store, &mut wt, Strategy::Symlink, &".envrc".to_string()).unwrap();
    assert_eq!(store.manifest.len(), 1);
    assert_eq!(store.manifest[0].strategy, Strategy::Symlink);
}

#[test]
fn track_symlink_directory() {
    let mut store = store_with(vec![], vec![]);
    let mut wt = worktree_with(vec![
        entry(&["nix"], FsNode::Dir),
        entry(&["nix", "secrets"], FsNode::Dir),
        entry(&["nix", "secrets", "key1"], file("secret1")),
        entry(&["nix", "secrets", "key2"], file("secret2")),
    ]);
    let r = track(&mut store, &mut wt, Strategy::Symlink, &"nix/secrets".to_string());
    assert_eq!(r, Ok(()));
    assert_eq!(bytes_at(&store.files, &["nix", "secrets", "key1"]).unwrap(), b"secret1");
    assert_eq!(bytes_at(&store.files, &["nix", "secrets", "key2"]).unwrap(), b"secret2");
    assert!(matches!(node_at(&wt.files, &["nix", "secrets"]), Some(FsNode::Link { .. })));
    // the directory's own children are gone from the worktree: the link stands for them
    assert!(node_at(&wt.files, &["nix", "secrets", "key1"]).is_none());
    let e = manifest_entry(Strategy::Symlink, "nix/secrets");
    assert_eq!(file_status(&e, &store, Some(&wt)), FileStatus::Okay);
}

#[test]
fn track_copy_directory() {
    let mut store = store_with(vec![], vec![]);
    let mut wt = worktree_with(vec![
        entry(&["config"], FsNode::Dir),
        entry(&["config", "sub"], FsNode::Dir),
        entry(&["config", "sub", "a.toml"], file("key = 1")),
    ]);
    let r = track(&mut store, &mut wt, Strategy::Copy, &"config/sub".to_string());
    assert_eq!(r, Ok(()));
    assert_eq!(bytes_at(&store.files, &["config", "sub", "a.toml"]).unwrap(), b"key = 1");
    assert!(matches!(node_at(&wt.files, &["config", "sub"]), Some(FsNode::Dir)));
    let e = manifest_entry(Strategy::Copy, "config/sub");
    assert_eq!(file_status(&e, &store, Some(&wt)), FileStatus::Okay);
}

// ---- push ----

#[test]
fn push_updates_store_copy() {
    let mut store = store_with(
        vec![manifest_entry(Strategy::Copy, ".mcp.json")],
        vec![entry(&[".mcp.json"], file("original"))],
    );
    let wt = worktree_with(vec![entry(&[".mcp.json"], file("modified"))]);
    let r = push(&mut store, &wt, None).unwrap();
    assert_eq!(r, vec![SyncOutcome::Applied]);
    assert_eq!(bytes_at(&store.files, &[".mcp.json"]).unwrap(), b"modified");
}

#[test]
fn push_ignores_symlink() {
    let mut store = store_with(
        vec![manifest_entry(Strategy::Symlink, ".envrc")],
        vec![entry(&[".envrc"], file("use flake"))],
    );
    let wt = worktree_with(vec![entry(
        &[".envrc"],
        link("/repo/.bare/worktree-store/.envrc"),
    )]);
    let r = push(&mut store, &wt, None).unwrap();
    assert_eq!(r, vec![SyncOutcome::Skipped(SkipReason::NotEligible)]);
    assert_eq!(bytes_at(&store.files, &[".envrc"]).unwrap(), b"use flake");
}

#[test]
fn push_directory() {
    let mut store = store_with(
        vec![manifest_entry(Strategy::Copy, "secrets")],
        vec![
            entry(&["secrets"], FsNode::Dir),
            entry(&["secrets", "key"], file("original")),
            entry(&["secrets", "stale"], file("gone soon")),
        ],
    );
    let wt = worktree_with(vec![
        entry(&["secrets"], FsNode::Dir),
        entry(&["secrets", "key"], file("modified")),
        entry(&["secrets", "new_key"], file("added")),
    ]);
    push(&mut store, &wt, None).unwrap();
    assert_eq!(bytes_at(&store.files, &["secrets", "key"]).unwrap(), b"modified");
    assert_eq!(bytes_at(&store.files, &["secrets", "new_key"]).unwrap(), b"added");
    assert!(node_at(&store.files, &["secrets", "stale"]).is_none());
}

#[test]
fn push_without_copy_entries_is_informational() {
    let mut store = store_with(
        vec![manifest_entry(Strategy::Symlink, ".envrc")],
        vec![entry(&[".envrc"], file("x"))],
    );
    let wt = worktree_with(vec![]);
    let r = push(&mut store, &wt, None);
    assert!(r.is_ok());
}

#[test]
fn push_filter_not_copy_tracked_fails() {
    let mut store = store_with(
        vec![manifest_entry(Strategy::Symlink, ".envrc")],
        vec![entry(&[".envrc"], file("x"))],
    );
    let wt = worktree_with(vec![entry(&[".envrc"], file("x"))]);
    let r = push(&mut store, &wt, Some(&"x".to_string()));
    assert_eq!(r, Err(StoreError::NotCopyTracked));
}

#[test]
fn push_skips_missing_worktree_path() {
    let mut store = store_with(
        vec![manifest_entry(Strategy::Copy, "gone")],
        vec![entry(&["gone"], file("kept"))],
    );
    let wt = worktree_with(vec![]);
    let r = push(&mut store, &wt, None).unwrap();
    assert_eq!(r, vec![SyncOutcome::Skipped(SkipReason::MissingWorktree)]);
    assert_eq!(bytes_at(&store.files, &["gone"]).unwrap(), b"kept");
}

// ---- pull ----

#[test]
fn pull_restores_missing_symlink() {
    let store = store_with(
        vec![manifest_entry(Strategy::Symlink, ".envrc")],
        vec![entry(&[".envrc"], file("use flake"))],
    );
    let mut wt = worktree_with(vec![]);
    let r = pull(&store, &mut wt, None, false).unwrap();
    assert_eq!(r, vec![SyncOutcome::Applied]);
    match node_at(&wt.files, &[".envrc"]).unwrap() {
        FsNode::Link { target } => assert_eq!(target, "/repo/.bare/worktree-store/.envrc"),
        _ => panic!("expected a symlink after pull"),
    }
}

#[test]
fn pull_skips_existing_without_force() {
    let store = store_with(
        vec![manifest_entry(Strategy::Copy, ".mcp.json")],
        vec![entry(&[".mcp.json"], file("original"))],
    );
    let mut wt = worktree_with(vec![entry(&[".mcp.json"], file("local changes"))]);
    let r = pull(&store, &mut wt, None, false).unwrap();
    assert_eq!(r, vec![SyncOutcome::Skipped(SkipReason::ExistsWithoutForce)]);
    assert_eq!(bytes_at(&wt.files, &[".mcp.json"]).unwrap(), b"local changes");
}

#[test]
fn pull_overwrites_with_force() {
    let store = store_with(
        vec![manifest_entry(Strategy::Copy, ".mcp.json")],
        vec![entry(&[".mcp.json"], file("original"))],
    );
    let mut wt = worktree_with(vec![entry(&[".mcp.json"], file("local changes"))]);
    let r = pull(&store, &mut wt, None, true).unwrap();
    assert_eq!(r, vec![SyncOutcome::Applied]);
    assert_eq!(bytes_at(&wt.files, &[".mcp.json"]).unwrap(), b"original");
}

#[test]
fn pull_directory() {
    let store = store_with(
        vec![manifest_entry(Strategy::Symlink, "shared")],
        vec![
            entry(&["shared"], FsNode::Dir),
            entry(&["shared", "data"], file("value")),
        ],
    );
    let mut wt = worktree_with(vec![]);
    pull(&store, &mut wt, None, false).unwrap();
    assert!(matches!(node_at(&wt.files, &["shared"]), Some(FsNode::Link { .. })));
}

#[test]
fn pull_copy_directory_with_force() {
    let store = store_with(
        vec![manifest_entry(Strategy::Copy, "conf")],
        vec![
            entry(&["conf"], FsNode::Dir),
            entry(&["conf", "setting"], file("original")),
        ],
    );
    let mut wt = worktree_with(vec![
        entry(&["conf"], FsNode::Dir),
        entry(&["conf", "setting"], file("local_change")),
    ]);
    pull(&store, &mut wt, None, true).unwrap();
    assert_eq!(bytes_at(&wt.files, &["conf", "setting"]).unwrap(), b"original");
}

#[test]
fn pull_skips_missing_store_master() {
    let store = store_with(vec![manifest_entry(Strategy::Copy, "lost")], vec![]);
    let mut wt = worktree_with(vec![]);
    let r = pull(&store, &mut wt, None, false).unwrap();
    assert_eq!(r, vec![SyncOutcome::Skipped(SkipReason::MissingStore)]);
}

#[test]
fn pull_filter_untracked_fails() {
    let store = store_with(vec![], vec![]);
    let mut wt = worktree_with(vec![]);
    let r = pull(&store, &mut wt, Some(&"nope".to_string()), false);
    assert_eq!(r, Err(StoreError::UntrackedFile));
}

// ---- untrack ----

#[test]
fn untrack_removes_and_restores() {
    let mut store = store_with(vec![], vec![]);
    let mut wt = worktree_with(vec![entry(&[".envrc"], file("use flake"))]);
    track(&mut store, &mut wt, Strategy::Symlink, &".envrc".to_string()).unwrap();
    let mut worktrees = vec![wt];
    let r = untrack(&mut store, &mut worktrees, &".envrc".to_string()).unwrap();
    assert_eq!(r, vec![SyncOutcome::Applied]);
    assert_eq!(store.manifest.len(), 0);
    assert!(node_at(&store.files, &[".envrc"]).is_none());
    assert_eq!(bytes_at(&worktrees[0].files, &[".envrc"]).unwrap(), b"use flake");
}

#[test]
fn untrack_directory() {
    let mut store = store_with(vec![], vec![]);
    let mut wt = worktree_with(vec![
        entry(&["secrets"], FsNode::Dir),
        entry(&["secrets", "key"], file("secret")),
    ]);
    track(&mut store, &mut wt, Strategy::Symlink, &"secrets".to_string()).unwrap();
    let mut worktrees = vec![wt];
    untrack(&mut store, &mut worktrees, &"secrets".to_string()).unwrap();
    assert_eq!(store.manifest.len(), 0);
    assert!(node_at(&store.files, &["secrets"]).is_none());
    assert!(matches!(node_at(&worktrees[0].files, &["secrets"]), Some(FsNode::Dir)));
    assert_eq!(bytes_at(&worktrees[0].files, &["secrets", "key"]).unwrap(), b"secret");
}

#[test]
fn untrack_restores_every_linked_worktree() {
    // two worktrees both symlink-track secrets/; untracking yields plain,
    // content-identical directories in both
    let mut store = store_with(vec![], vec![]);
    let mut wt_a = worktree_with(vec![
        entry(&["secrets"], FsNode::Dir),
        entry(&["secrets", "key"], file("s3cr3t")),
    ]);
    track(&mut store, &mut wt_a, Strategy::Symlink, &"secrets".to_string()).unwrap();
    let mut wt_b = Worktree { path: "/repo/feat".to_string(), files: Fs { entries: vec![] } };
    pull(&store, &mut wt_b, None, false).unwrap();
    assert!(matches!(node_at(&wt_b.files, &["secrets"]), Some(FsNode::Link { .. })));
    let mut worktrees = vec![wt_a, wt_b];
    let r = untrack(&mut store, &mut worktrees, &"secrets".to_string()).unwrap();
    assert_eq!(r, vec![SyncOutcome::Applied, SyncOutcome::Applied]);
    for wt in &worktrees {
        assert!(matches!(node_at(&wt.files, &["secrets"]), Some(FsNode::Dir)));
        assert_eq!(bytes_at(&wt.files, &["secrets", "key"]).unwrap(), b"s3cr3t");
    }
}

#[test]
fn untrack_unknown_path_fails() {
    let mut store = store_with(vec![], vec![]);
    let mut worktrees: Vec<Worktree> = vec![];
    let r = untrack(&mut store, &mut worktrees, &"nope".to_string());
    assert_eq!(r, Err(StoreError::UntrackedFile));
}

#[test]
fn untrack_prunes_emptied_store_parents() {
    let mut store = store_with(vec![], vec![]);
    let mut wt = worktree_with(vec![
        entry(&["sub"], FsNode::Dir),
        entry(&["sub", "dir"], FsNode::Dir),
        entry(&["sub", "dir", "file"], file("content")),
    ]);
    track(&mut store, &mut wt, Strategy::Copy, &"sub/dir/file".to_string()).unwrap();
    assert!(matches!(node_at(&store.files, &["sub", "dir"]), Some(FsNode::Dir)));
    let mut worktrees = vec![wt];
    untrack(&mut store, &mut worktrees, &"sub/dir/file".to_string()).unwrap();
    assert!(store.files.entries.is_empty());
}

#[test]
fn untrack_leaves_copy_worktrees_alone() {
    let mut store = store_with(vec![], vec![]);
    let mut wt = worktree_with(vec![entry(&[".mcp.json"], file("v"))]);
    track(&mut store, &mut wt, Strategy::Copy, &".mcp.json".to_string()).unwrap();
    let mut worktrees = vec![wt];
    let r = untrack(&mut store, &mut worktrees, &".mcp.json".to_string()).unwrap();
    assert_eq!(r, vec![SyncOutcome::Skipped(SkipReason::NotEligible)]);
    assert_eq!(bytes_at(&worktrees[0].files, &[".mcp.json"]).unwrap(), b"v");
}
