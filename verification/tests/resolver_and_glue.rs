//! The repository-root resolver, the store-path derivations, the registry,
//! and the presentation helpers.

use ws_core::config::{Config, ConfigError, RepoEntry};
use ws_core::context::abbreviate_home;
use ws_core::error::StoreError;
use ws_core::git::{find_bare_dir, resolve_repo_root, split_last_slash};
use ws_core::store::{require_store, split_path, store_dir, store_file_path};
use ws_core::ui::{section_header, StyledCell};

#[test]
fn resolve_root_prefers_bare_marker_parent() {
    let common = "/home/u/repo/.bare".to_string();
    let r = resolve_repo_root(Some(&common), None, false, &"/x".to_string());
    assert_eq!(r, Ok("/home/u/repo".to_string()));
}

#[test]
fn resolve_root_conventional_clone() {
    let common = "/home/u/repo/.git".to_string();
    let r = resolve_repo_root(Some(&common), None, false, &"/x".to_string());
    assert_eq!(r, Ok("/home/u/repo".to_string()));
}

#[test]
fn resolve_root_falls_back_to_toplevel() {
    let common = "/home/u/repo/.bare/worktrees/main".to_string();
    let top = "/home/u/repo/main".to_string();
    let r = resolve_repo_root(Some(&common), Some(&top), false, &"/x".to_string());
    assert_eq!(r, Ok("/home/u/repo/main".to_string()));
}

#[test]
fn resolve_root_uses_cwd_with_valid_bare() {
    let r = resolve_repo_root(None, None, true, &"/home/u/repo".to_string());
    assert_eq!(r, Ok("/home/u/repo".to_string()));
}

#[test]
fn resolve_root_not_a_repo() {
    let r = resolve_repo_root(None, None, false, &"/tmp".to_string());
    assert_eq!(r, Err(StoreError::NotARepo));
}

#[test]
fn split_last_slash_basics() {
    assert_eq!(
        split_last_slash("/a/b/.bare"),
        ("/a/b".to_string(), ".bare".to_string())
    );
    assert_eq!(split_last_slash("plain"), ("".to_string(), "plain".to_string()));
}

#[test]
fn find_bare_dir_detects_marker() {
    assert_eq!(find_bare_dir(true, true), Some(".bare".to_string()));
    assert_eq!(find_bare_dir(true, false), None);
    assert_eq!(find_bare_dir(false, true), None);
}

#[test]
fn store_dir_is_common_dir_subdirectory() {
    assert_eq!(
        store_dir("/home/u/repo/.bare"),
        "/home/u/repo/.bare/worktree-store"
    );
}

#[test]
fn store_file_path_joins() {
    assert_eq!(store_file_path("/s", "a/b"), "/s/a/b");
}

#[test]
fn require_store_demands_both_parts() {
    assert_eq!(require_store(true, true), Ok(()));
    assert_eq!(require_store(false, true), Err(StoreError::StoreNotInitialized));
    assert_eq!(require_store(true, false), Err(StoreError::StoreNotInitialized));
}

#[test]
fn split_path_drops_empty_components() {
    assert_eq!(split_path("a/b"), vec!["a".to_string(), "b".to_string()]);
    assert_eq!(split_path("a//b/"), vec!["a".to_string(), "b".to_string()]);
    assert_eq!(split_path(""), Vec::<String>::new());
}

#[test]
fn config_add_and_remove() {
    let mut config = Config::new();
    let entry = RepoEntry { path: "/home/user/projects/my-repo".to_string(), url: Some(
        "git@github.com:user/my-repo.git".to_string(),
    ) };
    assert_eq!(config.add("my-repo".to_string(), entry.clone()), Ok(()));
    assert_eq!(config.repos.len(), 1);
    assert_eq!(config.repos[0].entry.path, "/home/user/projects/my-repo");
    let dup = RepoEntry { path: "/elsewhere".to_string(), url: None };
    assert_eq!(
        config.add("my-repo".to_string(), dup),
        Err(ConfigError::AlreadyRegistered)
    );
    assert_eq!(config.remove(&"my-repo".to_string()), Ok(()));
    assert!(config.repos.is_empty());
    assert_eq!(config.remove(&"my-repo".to_string()), Err(ConfigError::NotFound));
}

#[test]
fn abbreviate_home_replaces_home_prefix() {
    let home = "/home/user".to_string();
    assert_eq!(
        abbreviate_home("/home/user/Projects/test", Some(&home)),
        "~/Projects/test"
    );
}

#[test]
fn abbreviate_home_leaves_non_home_paths() {
    let home = "/home/user".to_string();
    assert_eq!(abbreviate_home("/tmp/something", Some(&home)), "/tmp/something");
    assert_eq!(abbreviate_home("/tmp/something", None), "/tmp/something");
}

#[test]
fn section_header_pads_to_width() {
    let h = section_header("Repositories");
    assert!(h.starts_with("\u{2500}\u{2500} Repositories "));
    assert_eq!(h.chars().count(), 50);
    let long = section_header("a very long section title that exceeds every width");
    assert!(long.ends_with("\u{2500}\u{2500}\u{2500}"));
}

#[test]
fn styled_cell_plain_keeps_text() {
    let c = StyledCell::plain("x".to_string());
    assert_eq!(c.plain, "x");
    assert_eq!(c.styled, "x");
}

#[test]
fn error_labels() {
    assert_eq!(StoreError::NotARepo.label(), "not inside a repository");
    assert_eq!(StoreError::StoreNotInitialized.label(), "store not initialized");
    assert_eq!(StoreError::FileNotFound.label(), "file not found");
    assert_eq!(StoreError::InvalidStrategy.label(), "invalid strategy");
    assert_eq!(StoreError::UntrackedFile.label(), "file is not tracked");
    assert_eq!(StoreError::NotCopyTracked.label(), "file is not copy-tracked");
    assert_eq!(StoreError::CopyFailed.label(), "copy failed");
    assert_eq!(
        StoreError::ManifestIoFailed.label(),
        "manifest could not be read or written"
    );
}

#[test]
fn parse_worktree_list_lines() {
    let out = ws_core::git::parse_worktree_list(
        "/repo/.bare     (bare)\n/repo/main  abc123 [main]\n/repo/feat  def456 [feat x]\nshort\n",
    );
    assert_eq!(out.len(), 3);
    assert!(out[0].is_bare);
    assert_eq!(out[0].path, "/repo/.bare");
    assert_eq!(out[1].path, "/repo/main");
    assert_eq!(out[1].hash, "abc123");
    assert_eq!(out[1].branch, "main");
    assert!(!out[1].is_bare);
    assert_eq!(out[2].branch, "feat x");
}

#[test]
fn parse_worktree_line_detached() {
    let out = ws_core::git::parse_worktree_line("/repo/main  abc123 (detached HEAD)");
    let item = out.unwrap();
    assert_eq!(item.branch, "(detached HEAD)");
    assert!(!item.is_bare);
}
