//! The manifest codec: parsing, rendering, tolerance, and the round trip.

use ws_core::manifest::{read_manifest, write_manifest, ManifestEntry, Strategy};

#[test]
fn read_manifest_parses_entries() {
    let entries = read_manifest("symlink:.envrc\ncopy:.mcp.json\n");
    assert_eq!(entries.len(), 2);
    assert_eq!(entries[0].strategy, Strategy::Symlink);
    assert_eq!(entries[0].filepath, ".envrc");
    assert_eq!(entries[1].strategy, Strategy::Copy);
    assert_eq!(entries[1].filepath, ".mcp.json");
}

#[test]
fn read_manifest_skips_empty_and_malformed() {
    let entries = read_manifest("\nsymlink:.envrc\n\nno_colon_here\n:empty_strategy\n");
    assert_eq!(entries.len(), 1);
    assert_eq!(entries[0].filepath, ".envrc");
}

#[test]
fn read_manifest_filepath_with_colon() {
    let entries = read_manifest("symlink:path:with:colon\n");
    assert_eq!(entries.len(), 1);
    assert_eq!(entries[0].strategy, Strategy::Symlink);
    assert_eq!(entries[0].filepath, "path:with:colon");
}

#[test]
fn write_then_read_roundtrip() {
    let original = vec![
        ManifestEntry { strategy: Strategy::Symlink, filepath: ".envrc".to_string() },
        ManifestEntry { strategy: Strategy::Copy, filepath: ".mcp.json".to_string() },
    ];
    let text = write_manifest(&original);
    let read_back = read_manifest(text.as_str());
    assert_eq!(read_back.len(), 2);
    assert_eq!(read_back[0].strategy, Strategy::Symlink);
    assert_eq!(read_back[0].filepath, ".envrc");
    assert_eq!(read_back[1].strategy, Strategy::Copy);
    assert_eq!(read_back[1].filepath, ".mcp.json");
}

#[test]
fn write_manifest_renders_lines() {
    let entries = vec![
        ManifestEntry { strategy: Strategy::Copy, filepath: "a/b".to_string() },
        ManifestEntry { strategy: Strategy::Symlink, filepath: "".to_string() },
    ];
    assert_eq!(write_manifest(&entries), "copy:a/b\nsymlink:\n");
}

#[test]
fn roundtrip_keeps_empty_and_colon_paths() {
    let original = vec![
        ManifestEntry { strategy: Strategy::Symlink, filepath: "".to_string() },
        ManifestEntry { strategy: Strategy::Copy, filepath: "a:b:c".to_string() },
        ManifestEntry { strategy: Strategy::Copy, filepath: "nix/secrets".to_string() },
    ];
    let text = write_manifest(&original);
    let read_back = read_manifest(text.as_str());
    assert_eq!(read_back.len(), 3);
    for (a, b) in original.iter().zip(read_back.iter()) {
        assert_eq!(a.strategy, b.strategy);
        assert_eq!(a.filepath, b.filepath);
    }
}

#[test]
fn track_invalid_strategy_fails() {
    assert_eq!(
        Strategy::from_str("invalid"),
        Err(ws_core::error::StoreError::InvalidStrategy)
    );
}

#[test]
fn strategy_tokens() {
    assert_eq!(Strategy::Symlink.as_str(), "symlink");
    assert_eq!(Strategy::Copy.as_str(), "copy");
    assert_eq!(Strategy::from_str("symlink"), Ok(Strategy::Symlink));
    assert_eq!(Strategy::from_str("copy"), Ok(Strategy::Copy));
    assert_eq!(
        Strategy::from_str("invalid"),
        Err(ws_core::error::StoreError::InvalidStrategy)
    );
}
