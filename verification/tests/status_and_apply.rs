//! The status reconciler's taxonomy and the provisioner's apply semantics.

use ws_core::fs::{Fs, FsEntry, FsNode};
use ws_core::manifest::{ManifestEntry, Strategy};
use ws_core::store::{apply_file, file_status, FileStatus, SkipReason, Store, SyncOutcome, Worktree};

fn file(bytes: &str) -> FsNode {
    FsNode::File { bytes: bytes.as_bytes().to_vec() }
}

fn entry(path: &[&str], node: FsNode) -> FsEntry {
    FsEntry { path: path.iter().map(|s| s.to_string()).collect(), node }
}

fn store_of(entries: Vec<FsEntry>) -> Store {
    Store { path: "/store".to_string(), manifest: vec![], files: Fs { entries } }
}

fn wt_of(entries: Vec<FsEntry>) -> Worktree {
    Worktree { path: "/wt".to_string(), files: Fs { entries } }
}

fn me(strategy: Strategy, filepath: &str) -> ManifestEntry {
    ManifestEntry { strategy, filepath: filepath.to_string() }
}

#[test]
fn file_status_missing_store() {
    let store = store_of(vec![]);
    let e = me(Strategy::Symlink, "test");
    assert_eq!(file_status(&e, &store, None), FileStatus::MissingStore);
}

#[test]
fn file_status_store_only() {
    let store = store_of(vec![entry(&["test_file"], file("content"))]);
    let e = me(Strategy::Symlink, "test_file");
    assert_eq!(file_status(&e, &store, None), FileStatus::StoreOnly);
}

#[test]
fn file_status_missing_in_worktree() {
    let store = store_of(vec![entry(&["missing_file"], file("content"))]);
    let wt = wt_of(vec![]);
    let e = me(Strategy::Symlink, "missing_file");
    assert_eq!(file_status(&e, &store, Some(&wt)), FileStatus::Missing);
}

#[test]
fn file_status_symlink_not_link() {
    let store = store_of(vec![entry(&[".envrc"], file("content"))]);
    let wt = wt_of(vec![entry(&[".envrc"], file("regular file"))]);
    let e = me(Strategy::Symlink, ".envrc");
    assert_eq!(file_status(&e, &store, Some(&wt)), FileStatus::NotLink);
}

#[test]
fn file_status_symlink_wrong_target() {
    let store = store_of(vec![entry(&[".envrc"], file("content"))]);
    let wt = wt_of(vec![entry(
        &[".envrc"],
        FsNode::Link { target: "/elsewhere/wrong_target".to_string() },
    )]);
    let e = me(Strategy::Symlink, ".envrc");
    assert_eq!(file_status(&e, &store, Some(&wt)), FileStatus::WrongLink);
}

#[test]
fn file_status_symlink_ok() {
    let store = store_of(vec![entry(&[".envrc"], file("content"))]);
    let wt = wt_of(vec![entry(
        &[".envrc"],
        FsNode::Link { target: "/store/.envrc".to_string() },
    )]);
    let e = me(Strategy::Symlink, ".envrc");
    assert_eq!(file_status(&e, &store, Some(&wt)), FileStatus::Okay);
}

#[test]
fn file_status_copy_modified() {
    let store = store_of(vec![entry(&[".mcp.json"], file("original"))]);
    let wt = wt_of(vec![entry(&[".mcp.json"], file("modified"))]);
    let e = me(Strategy::Copy, ".mcp.json");
    assert_eq!(file_status(&e, &store, Some(&wt)), FileStatus::Modified);
}

#[test]
fn file_status_copy_ok() {
    let store = store_of(vec![entry(&[".mcp.json"], file("same content"))]);
    let wt = wt_of(vec![entry(&[".mcp.json"], file("same content"))]);
    let e = me(Strategy::Copy, ".mcp.json");
    assert_eq!(file_status(&e, &store, Some(&wt)), FileStatus::Okay);
}

#[test]
fn file_status_dir_symlink_ok() {
    let store = store_of(vec![
        entry(&["secrets"], FsNode::Dir),
        entry(&["secrets", "key"], file("secret")),
    ]);
    let wt = wt_of(vec![entry(
        &["secrets"],
        FsNode::Link { target: "/store/secrets".to_string() },
    )]);
    let e = me(Strategy::Symlink, "secrets");
    assert_eq!(file_status(&e, &store, Some(&wt)), FileStatus::Okay);
}

#[test]
fn file_status_dir_copy_ok() {
    let store = store_of(vec![
        entry(&["secrets"], FsNode::Dir),
        entry(&["secrets", "key"], file("secret")),
    ]);
    let wt = wt_of(vec![
        entry(&["secrets"], FsNode::Dir),
        entry(&["secrets", "key"], file("secret")),
    ]);
    let e = me(Strategy::Copy, "secrets");
    assert_eq!(file_status(&e, &store, Some(&wt)), FileStatus::Okay);
}

#[test]
fn file_status_dir_copy_modified() {
    let store = store_of(vec![
        entry(&["secrets"], FsNode::Dir),
        entry(&["secrets", "key"], file("secret")),
    ]);
    let wt = wt_of(vec![
        entry(&["secrets"], FsNode::Dir),
        entry(&["secrets", "key"], file("modified_secret")),
    ]);
    let e = me(Strategy::Copy, "secrets");
    assert_eq!(file_status(&e, &store, Some(&wt)), FileStatus::Modified);
}

#[test]
fn file_status_dir_extra_entry_is_modified() {
    let store = store_of(vec![entry(&["secrets"], FsNode::Dir)]);
    let wt = wt_of(vec![
        entry(&["secrets"], FsNode::Dir),
        entry(&["secrets", "extra"], file("x")),
    ]);
    let e = me(Strategy::Copy, "secrets");
    assert_eq!(file_status(&e, &store, Some(&wt)), FileStatus::Modified);
}

#[test]
fn file_status_dir_missing_store() {
    let store = store_of(vec![]);
    let e = me(Strategy::Copy, "secrets");
    assert_eq!(file_status(&e, &store, None), FileStatus::MissingStore);
}

#[test]
fn symlink_status_ignores_store_content() {
    // track .envrc with content A, then overwrite the store copy's bytes to
    // B without touching the link: still in sync by design, since the
    // Symlink strategy checks only link-target identity, never content
    let mut store = Store { path: "/store".to_string(), manifest: vec![], files: Fs {
        entries: vec![],
    } };
    let mut wt = wt_of(vec![entry(&[".envrc"], file("A"))]);
    ws_core::store::track(&mut store, &mut wt, Strategy::Symlink, &".envrc".to_string()).unwrap();
    let e = me(Strategy::Symlink, ".envrc");
    assert_eq!(file_status(&e, &store, Some(&wt)), FileStatus::Okay);
    for se in store.files.entries.iter_mut() {
        if se.path == vec![".envrc".to_string()] {
            se.node = file("B");
        }
    }
    assert_eq!(file_status(&e, &store, Some(&wt)), FileStatus::Okay);
}

#[test]
fn status_labels() {
    assert_eq!(FileStatus::Okay.label(), "OK");
    assert_eq!(FileStatus::Missing.label(), "MISSING");
    assert_eq!(FileStatus::MissingStore.label(), "MISSING(store)");
    assert_eq!(FileStatus::Modified.label(), "MODIFIED");
    assert_eq!(FileStatus::NotLink.label(), "NOT_LINK");
    assert_eq!(FileStatus::WrongLink.label(), "WRONG_LINK");
    assert_eq!(FileStatus::Error.label(), "ERROR");
    assert_eq!(FileStatus::StoreOnly.label(), "(store only)");
}

// ---- apply_file ----

#[test]
fn apply_file_symlink_creates_symlink() {
    let store = store_of(vec![entry(&[".envrc"], file("content"))]);
    let mut wt = wt_of(vec![]);
    let r = apply_file(Strategy::Symlink, &".envrc".to_string(), &store, &mut wt);
    assert_eq!(r, SyncOutcome::Applied);
    assert!(matches!(
        wt.files.entries.iter().find(|e| e.path == vec![".envrc".to_string()]).map(|e| &e.node),
        Some(FsNode::Link { .. })
    ));
}

#[test]
fn apply_file_copy_creates_regular_file() {
    let store = store_of(vec![entry(&[".mcp.json"], file("content"))]);
    let mut wt = wt_of(vec![]);
    let r = apply_file(Strategy::Copy, &".mcp.json".to_string(), &store, &mut wt);
    assert_eq!(r, SyncOutcome::Applied);
    match wt.files.entries.iter().find(|e| e.path == vec![".mcp.json".to_string()]) {
        Some(FsEntry { node: FsNode::File { bytes }, .. }) => assert_eq!(bytes, b"content"),
        _ => panic!("expected a regular file"),
    }
}

#[test]
fn apply_file_skips_existing() {
    let store = store_of(vec![entry(&[".envrc"], file("new content"))]);
    let mut wt = wt_of(vec![entry(&[".envrc"], file("existing"))]);
    let r = apply_file(Strategy::Symlink, &".envrc".to_string(), &store, &mut wt);
    assert_eq!(r, SyncOutcome::Skipped(SkipReason::ExistsWithoutForce));
    match wt.files.entries.iter().find(|e| e.path == vec![".envrc".to_string()]) {
        Some(FsEntry { node: FsNode::File { bytes }, .. }) => assert_eq!(bytes, b"existing"),
        _ => panic!("existing file must stay"),
    }
}

#[test]
fn apply_file_creates_parent_dirs() {
    let store = store_of(vec![
        entry(&["sub"], FsNode::Dir),
        entry(&["sub", "dir"], FsNode::Dir),
        entry(&["sub", "dir", "file"], file("content")),
    ]);
    let mut wt = wt_of(vec![]);
    let r = apply_file(Strategy::Copy, &"sub/dir/file".to_string(), &store, &mut wt);
    assert_eq!(r, SyncOutcome::Applied);
    assert!(wt.files.entries.iter().any(|e| e.path == vec!["sub".to_string()]));
    assert!(wt.files.entries.iter().any(|e| e.path
        == vec!["sub".to_string(), "dir".to_string(), "file".to_string()]));
}

#[test]
fn apply_file_symlink_directory() {
    let store = store_of(vec![
        entry(&["nix"], FsNode::Dir),
        entry(&["nix", "secrets"], FsNode::Dir),
        entry(&["nix", "secrets", "key"], file("secret")),
    ]);
    let mut wt = wt_of(vec![]);
    let r = apply_file(Strategy::Symlink, &"nix/secrets".to_string(), &store, &mut wt);
    assert_eq!(r, SyncOutcome::Applied);
    match wt.files.entries.iter().find(|e| e.path == vec!["nix".to_string(), "secrets".to_string()])
    {
        Some(FsEntry { node: FsNode::Link { target }, .. }) => {
            assert_eq!(target, "/store/nix/secrets");
        },
        _ => panic!("expected a symlink"),
    }
}

#[test]
fn apply_file_copy_directory() {
    let store = store_of(vec![
        entry(&["nix"], FsNode::Dir),
        entry(&["nix", "secrets"], FsNode::Dir),
        entry(&["nix", "secrets", "a"], file("val_a")),
        entry(&["nix", "secrets", "sub"], FsNode::Dir),
        entry(&["nix", "secrets", "sub", "b"], file("val_b")),
    ]);
    let mut wt = wt_of(vec![]);
    let r = apply_file(Strategy::Copy, &"nix/secrets".to_string(), &store, &mut wt);
    assert_eq!(r, SyncOutcome::Applied);
    let find = |parts: &[&str]| {
        let want: Vec<String> = parts.iter().map(|s| s.to_string()).collect();
        wt.files.entries.iter().find(|e| e.path == want).map(|e| &e.node)
    };
    assert!(matches!(find(&["nix", "secrets"]), Some(FsNode::Dir)));
    match find(&["nix", "secrets", "a"]) {
        Some(FsNode::File { bytes }) => assert_eq!(bytes, b"val_a"),
        _ => panic!("missing copied file"),
    }
    match find(&["nix", "secrets", "sub", "b"]) {
        Some(FsNode::File { bytes }) => assert_eq!(bytes, b"val_b"),
        _ => panic!("missing nested copied file"),
    }
}

#[test]
fn apply_file_copy_missing_master_fails() {
    let store = store_of(vec![]);
    let mut wt = wt_of(vec![]);
    let r = apply_file(Strategy::Copy, &"gone".to_string(), &store, &mut wt);
    assert_eq!(r, SyncOutcome::Failed(ws_core::error::StoreError::CopyFailed));
}
