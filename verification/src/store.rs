//! The sync engine: `track`, `push`, `pull`, `untrack`, the provisioner's
//! `apply_file`, and the read-only status reconciler.
//!
//! A [`Store`] holds the canonical store directory path, the manifest, and
//! the store's master copies; a [`Worktree`] holds one working directory.
//! Every operation states its whole effect over the map values of those
//! areas.

use vstd::prelude::*;
use vstd::string::*;

use crate::error::StoreError;
use crate::fs::{lookup, under_set, Fs, FsNode, NodeV, PathV};
use crate::fsops::{can_write, graft, graft_spec, prune_empty_parents, prune_from, remove_subtree,
    set_node, set_spec};
use crate::manifest::{find_entry, index_of_path, upsert_entry, upsert_spec, EntryV, ManifestEntry,
    Strategy};
use crate::strutil::split_chars;

verus! {

/// The store: its canonical directory path, the manifest, and the master
/// copies mirrored at the tracked relative paths.
pub struct Store {
    pub path: String,
    pub manifest: Vec<ManifestEntry>,
    pub files: Fs,
}

impl Store {
    pub open spec fn wf(self) -> bool {
        self.files.wf()
    }
}

/// One working directory of the repository.
pub struct Worktree {
    pub path: String,
    pub files: Fs,
}

impl Worktree {
    pub open spec fn wf(self) -> bool {
        self.files.wf()
    }
}

/// The components of a relative path: the pieces between the slashes, empty
/// pieces dropped.
pub open spec fn split_path_spec(s: Seq<char>) -> PathV {
    crate::strutil::nonempty_pieces(split_chars(s, '/'))
}

/// Splits a relative path into its components.
pub fn split_path(s: &str) -> (r: Vec<String>)
    ensures
        r.deep_view() == split_path_spec(s@),
{
    crate::strutil::split_str_nonempty(s, '/')
}

/// The canonical path of the store's copy of a tracked file: the store
/// directory, a slash, the relative path. Symlink targets are exactly this
/// string.
pub open spec fn store_file_path_spec(store_path: Seq<char>, filepath: Seq<char>) -> Seq<char> {
    store_path + seq!['/'] + filepath
}

pub fn store_file_path(store_path: &str, filepath: &str) -> (r: String)
    ensures
        r@ == store_file_path_spec(store_path@, filepath@),
{
    let mut out = store_path.to_owned();
    out.append("/");
    out.append(filepath);
    proof {
        reveal_strlit("/");
        assert(out@ =~= store_path@ + seq!['/'] + filepath@);
    }
    out
}

/// The store directory of a repository: the fixed subdirectory of the
/// canonical common metadata directory. Deriving it from the common, not the
/// per-worktree, metadata directory is what lets every worktree share it.
pub fn store_dir(common_dir: &str) -> (r: String)
    ensures
        r@ == common_dir@ + seq!['/'] + "worktree-store"@,
{
    let mut out = common_dir.to_owned();
    out.append("/");
    out.append("worktree-store");
    proof {
        reveal_strlit("/");
        assert(out@ =~= common_dir@ + seq!['/'] + "worktree-store"@);
    }
    out
}

/// Every operation except `track` demands an initialized store: the store
/// directory and its manifest file must both exist.
pub fn require_store(store_dir_exists: bool, manifest_exists: bool) -> (r: Result<
    (),
    StoreError,
>)
    ensures
        r == if store_dir_exists && manifest_exists {
            Ok::<(), StoreError>(())
        } else {
            Err::<(), StoreError>(StoreError::StoreNotInitialized)
        },
{
    if store_dir_exists && manifest_exists {
        Ok(())
    } else {
        Err(StoreError::StoreNotInitialized)
    }
}

/// Does anything stand at `filepath` — a file, a directory, or a symlink,
/// a broken one included?
pub fn path_or_symlink_exists(area: &Fs, filepath: &String) -> (r: bool)
    requires
        area.wf(),
    ensures
        r == area@.contains_key(split_path_spec(filepath@)),
{
    let comps = split_path(filepath.as_str());
    match lookup(area, &comps) {
        Some(_) => true,
        None => false,
    }
}

/// Does a file or a directory (not a bare symlink) stand at `filepath`?
pub open spec fn store_entry_exists_spec(m: Map<PathV, NodeV>, p: PathV) -> bool {
    m.contains_key(p) && !(m[p] is Link)
}

pub fn store_entry_exists(area: &Fs, filepath: &String) -> (r: bool)
    requires
        area.wf(),
    ensures
        r == store_entry_exists_spec(area@, split_path_spec(filepath@)),
{
    let comps = split_path(filepath.as_str());
    match lookup(area, &comps) {
        Some(node) => match node {
            FsNode::Link { .. } => false,
            _ => true,
        },
        None => false,
    }
}

/// The status taxonomy of the reconciler. Derived, never persisted.
#[derive(Clone, Copy, Debug, PartialEq, Eq, Structural)]
pub enum FileStatus {
    Okay,
    Missing,
    MissingStore,
    Modified,
    NotLink,
    WrongLink,
    /// A link whose target could not be read at all. A tree value always
    /// carries its targets, so the reconciler never produces this here; the
    /// shell reports it when the reading itself fails.
    Error,
    StoreOnly,
}

impl FileStatus {
    /// The label under which a status is reported.
    pub fn label(&self) -> (r: &'static str)
        ensures
            r@ == self.label_spec(),
    {
        match self {
            FileStatus::Okay => "OK",
            FileStatus::Missing => "MISSING",
            FileStatus::MissingStore => "MISSING(store)",
            FileStatus::Modified => "MODIFIED",
            FileStatus::NotLink => "NOT_LINK",
            FileStatus::WrongLink => "WRONG_LINK",
            FileStatus::Error => "ERROR",
            FileStatus::StoreOnly => "(store only)",
        }
    }

    pub open spec fn label_spec(self) -> Seq<char> {
        match self {
            FileStatus::Okay => "OK"@,
            FileStatus::Missing => "MISSING"@,
            FileStatus::MissingStore => "MISSING(store)"@,
            FileStatus::Modified => "MODIFIED"@,
            FileStatus::NotLink => "NOT_LINK"@,
            FileStatus::WrongLink => "WRONG_LINK"@,
            FileStatus::Error => "ERROR"@,
            FileStatus::StoreOnly => "(store only)"@,
        }
    }
}

/// The status of one manifest entry, as a function of the store's map, the
/// store's path, and the worktree's map when a worktree is at hand.
///
/// The store master is checked first, independent of any worktree. A
/// `Symlink` entry is judged by link shape and literal target string alone —
/// never by content. A `Copy` entry is judged by content: directories
/// compare as whole subtrees, files by bytes, links by their targets.
pub open spec fn spec_file_status(
    e: EntryV,
    store_path: Seq<char>,
    sm: Map<PathV, NodeV>,
    wt: Option<Map<PathV, NodeV>>,
) -> FileStatus {
    let p = split_path_spec(e.filepath);
    if !store_entry_exists_spec(sm, p) {
        FileStatus::MissingStore
    } else {
        match wt {
            None => FileStatus::StoreOnly,
            Some(wm) => {
                if !wm.contains_key(p) {
                    FileStatus::Missing
                } else {
                    match e.strategy {
                        Strategy::Symlink => match wm[p] {
                            NodeV::Link { target } => if target == store_file_path_spec(
                                store_path,
                                e.filepath,
                            ) {
                                FileStatus::Okay
                            } else {
                                FileStatus::WrongLink
                            },
                            _ => FileStatus::NotLink,
                        },
                        Strategy::Copy => {
                            if sm[p] is Dir && wm[p] is Dir {
                                if crate::fsops::subtree_eq(sm, p, wm, p) {
                                    FileStatus::Okay
                                } else {
                                    FileStatus::Modified
                                }
                            } else if sm[p] is Dir || wm[p] is Dir {
                                FileStatus::Modified
                            } else if sm[p] == wm[p] {
                                FileStatus::Okay
                            } else {
                                FileStatus::Modified
                            }
                        },
                    }
                }
            },
        }
    }
}

/// Classifies one manifest entry. Read-only.
pub fn file_status(entry: &ManifestEntry, store: &Store, wt: Option<&Worktree>) -> (r: FileStatus)
    requires
        store.wf(),
        wt is Some ==> wt->Some_0.wf(),
    ensures
        r == spec_file_status(
            entry@,
            store.path@,
            store.files@,
            match wt {
                Some(w) => Some(w.files@),
                None => None,
            },
        ),
{
    let comps = split_path(entry.filepath.as_str());
    let store_node = match lookup(&store.files, &comps) {
        Some(node) => match node {
            FsNode::Link { .. } => None,
            _ => Some(node),
        },
        None => None,
    };
    let store_node = match store_node {
        Some(n) => n,
        None => {
            return FileStatus::MissingStore;
        },
    };
    let w = match wt {
        Some(w) => w,
        None => {
            return FileStatus::StoreOnly;
        },
    };
    let wt_node = match lookup(&w.files, &comps) {
        Some(n) => n,
        None => {
            return FileStatus::Missing;
        },
    };
    match entry.strategy {
        Strategy::Symlink => {
            match wt_node {
                FsNode::Link { target } => {
                    let want = store_file_path(store.path.as_str(), entry.filepath.as_str());
                    if *target == want {
                        FileStatus::Okay
                    } else {
                        FileStatus::WrongLink
                    }
                },
                _ => FileStatus::NotLink,
            }
        },
        Strategy::Copy => {
            let store_is_dir = match store_node {
                FsNode::Dir => true,
                _ => false,
            };
            let wt_is_dir = match wt_node {
                FsNode::Dir => true,
                _ => false,
            };
            if store_is_dir && wt_is_dir {
                if crate::fsops::subtree_eq_check(&store.files, &comps, &w.files, &comps) {
                    FileStatus::Okay
                } else {
                    FileStatus::Modified
                }
            } else if store_is_dir || wt_is_dir {
                FileStatus::Modified
            } else {
                if crate::fs::node_eq(store_node, wt_node) {
                    FileStatus::Okay
                } else {
                    FileStatus::Modified
                }
            }
        },
    }
}


/// Why one entry was passed over.
#[derive(Clone, Copy, Debug, PartialEq, Eq, Structural)]
pub enum SkipReason {
    /// The entry does not qualify: wrong strategy, or a filter names another
    /// path.
    NotEligible,
    /// The worktree has nothing at the entry's path.
    MissingWorktree,
    /// The store has no master copy for the entry.
    MissingStore,
    /// The worktree path exists and no force was given.
    ExistsWithoutForce,
    /// The worktree path is not a symlink, so there is nothing to restore.
    NotLinked,
}

/// What happened to one entry of a bulk operation. Skips are deliberate soft
/// outcomes, reported but never failing the whole operation.
#[derive(Clone, Copy, Debug, PartialEq, Eq, Structural)]
pub enum SyncOutcome {
    Applied,
    Skipped(SkipReason),
    Failed(StoreError),
}

/// The whole effect of a `track` call.
pub struct TrackResult {
    pub r: Result<(), StoreError>,
    pub store: Map<PathV, NodeV>,
    pub manifest: Seq<EntryV>,
    pub wt: Map<PathV, NodeV>,
}

/// What `track` does. The source must exist in the worktree. The manifest is
/// upserted first, so a copy failure leaves it already updated. The store
/// gets a full copy of the source subtree. Under `Symlink`, a source that is
/// not already a link is then replaced by a link to the store copy;
/// re-tracking an existing link is a no-op on the worktree.
pub open spec fn track_spec(
    sm: Map<PathV, NodeV>,
    man: Seq<EntryV>,
    wm: Map<PathV, NodeV>,
    strategy: Strategy,
    fp: Seq<char>,
    store_path: Seq<char>,
) -> TrackResult {
    let p = split_path_spec(fp);
    if !wm.contains_key(p) {
        TrackResult { r: Err(StoreError::FileNotFound), store: sm, manifest: man, wt: wm }
    } else {
        let man2 = upsert_spec(man, strategy, fp);
        if !can_write(sm, p) {
            TrackResult { r: Err(StoreError::CopyFailed), store: sm, manifest: man2, wt: wm }
        } else {
            let sm2 = graft_spec(sm, p, wm, p);
            if strategy == Strategy::Symlink && !(wm[p] is Link) {
                if !can_write(wm, p) {
                    TrackResult {
                        r: Err(StoreError::CopyFailed),
                        store: sm2,
                        manifest: man2,
                        wt: wm,
                    }
                } else {
                    TrackResult {
                        r: Ok(()),
                        store: sm2,
                        manifest: man2,
                        wt: set_spec(
                            wm,
                            p,
                            NodeV::Link { target: store_file_path_spec(store_path, fp) },
                        ),
                    }
                }
            } else {
                TrackResult { r: Ok(()), store: sm2, manifest: man2, wt: wm }
            }
        }
    }
}

/// Starts or updates tracking of `filepath` under `strategy`.
pub fn track(store: &mut Store, wt: &mut Worktree, strategy: Strategy, filepath: &String) -> (r:
    Result<(), StoreError>)
    requires
        old(store).wf(),
        old(wt).wf(),
    ensures
        final(store).wf(),
        final(wt).wf(),
        final(store).path == old(store).path,
        final(wt).path == old(wt).path,
        ({
            let t = track_spec(
                old(store).files@,
                old(store).manifest.deep_view(),
                old(wt).files@,
                strategy,
                filepath@,
                old(store).path@,
            );
            r == t.r && final(store).files@ == t.store && final(store).manifest.deep_view()
                == t.manifest && final(wt).files@ == t.wt
        }),
{
    let comps = split_path(filepath.as_str());
    if comps.len() == 0 {
        return Err(StoreError::FileNotFound);
    }
    match lookup(&wt.files, &comps) {
        None => {
            return Err(StoreError::FileNotFound);
        },
        Some(_) => {},
    }
    upsert_entry(&mut store.manifest, strategy, filepath);
    match graft(&mut store.files, &comps, &wt.files, &comps) {
        Err(e) => {
            return Err(e);
        },
        Ok(()) => {},
    }
    let is_link = match lookup(&wt.files, &comps) {
        Some(node) => match node {
            FsNode::Link { .. } => true,
            _ => false,
        },
        None => false,
    };
    if matches!(strategy, Strategy::Symlink) && !is_link {
        let target = store_file_path(store.path.as_str(), filepath.as_str());
        match set_node(&mut wt.files, &comps, FsNode::Link { target }) {
            Err(e) => {
                return Err(e);
            },
            Ok(()) => {},
        }
    }
    Ok(())
}


/// The filter's mathematical value.
pub open spec fn filter_view(f: Option<&String>) -> Option<Seq<char>> {
    match f {
        Some(s) => Some(s@),
        None => None,
    }
}

/// What `push` does to the store map for one entry. Only `Copy` entries
/// qualify: a `Symlink` entry's worktree path and store path are one inode,
/// so there is nothing independent to push. A qualifying entry whose
/// worktree path holds a file or a directory overwrites the store's master
/// copy wholesale, so deletions inside a directory propagate too; a missing
/// worktree path is skipped with a warning. A worktree path that holds only
/// a bare symlink counts as missing.
pub open spec fn push_step(
    sm: Map<PathV, NodeV>,
    e: EntryV,
    wm: Map<PathV, NodeV>,
    filter: Option<Seq<char>>,
) -> (Map<PathV, NodeV>, SyncOutcome) {
    let p = split_path_spec(e.filepath);
    if e.strategy != Strategy::Copy {
        (sm, SyncOutcome::Skipped(SkipReason::NotEligible))
    } else if filter is Some && filter->0 != e.filepath {
        (sm, SyncOutcome::Skipped(SkipReason::NotEligible))
    } else if !store_entry_exists_spec(wm, p) {
        (sm, SyncOutcome::Skipped(SkipReason::MissingWorktree))
    } else if !can_write(sm, p) {
        (sm, SyncOutcome::Failed(StoreError::CopyFailed))
    } else {
        (graft_spec(sm, p, wm, p), SyncOutcome::Applied)
    }
}

/// `push` folded over the whole manifest, front to back.
pub open spec fn push_fold(
    sm: Map<PathV, NodeV>,
    man: Seq<EntryV>,
    wm: Map<PathV, NodeV>,
    filter: Option<Seq<char>>,
) -> (Map<PathV, NodeV>, Seq<SyncOutcome>)
    decreases man.len(),
{
    if man.len() == 0 {
        (sm, Seq::empty())
    } else {
        let (sm1, o) = push_step(sm, man[0], wm, filter);
        let (sm2, os) = push_fold(sm1, man.skip(1), wm, filter);
        (sm2, seq![o] + os)
    }
}

/// Did any entry get applied?
pub open spec fn any_applied(os: Seq<SyncOutcome>) -> bool {
    exists|i: int| 0 <= i < os.len() && os[i] == SyncOutcome::Applied
}

/// Pushes the worktree's `Copy`-tracked files into the store. A filter that
/// applies to nothing is a hard `NotCopyTracked` error; pushing nothing
/// without a filter is an informational success.
pub fn push(store: &mut Store, wt: &Worktree, filter: Option<&String>) -> (r: Result<
    Vec<SyncOutcome>,
    StoreError,
>)
    requires
        old(store).wf(),
        wt.wf(),
    ensures
        final(store).wf(),
        final(store).path == old(store).path,
        final(store).manifest == old(store).manifest,
        ({
            let (sm2, os) = push_fold(
                old(store).files@,
                old(store).manifest.deep_view(),
                wt.files@,
                filter_view(filter),
            );
            final(store).files@ == sm2 && match r {
                Ok(outs) => outs@ == os && (filter is Some ==> any_applied(os)),
                Err(e) => e == StoreError::NotCopyTracked && filter is Some && !any_applied(os),
            }
        }),
        filter is None ==> r is Ok,
{
    let ghost sm0 = store.files@;
    let ghost manv = store.manifest.deep_view();
    let ghost wm = wt.files@;
    let ghost fv = filter_view(filter);
    let mut outs: Vec<SyncOutcome> = Vec::new();
    let mut pushed = false;
    let mut i: usize = 0;
    proof {
        assert(manv.skip(0) =~= manv);
    }
    while i < store.manifest.len()
        invariant
            i <= store.manifest.len(),
            store.wf(),
            wt.wf(),
            store.path == old(store).path,
            store.manifest == old(store).manifest,
            manv == store.manifest.deep_view(),
            wm == wt.files@,
            outs@.len() == i,
            push_fold(sm0, manv, wm, fv).0 == push_fold(store.files@, manv.skip(i as int), wm, fv).0,
            push_fold(sm0, manv, wm, fv).1 == outs@ + push_fold(
                store.files@,
                manv.skip(i as int),
                wm,
                fv,
            ).1,
            pushed == any_applied(outs@),
        decreases store.manifest.len() - i,
    {
        let ghost prevm = store.files@;
        let ghost prevouts = outs@;
        let ghost ev = manv[i as int];
        proof {
            assert(manv.skip(i as int)[0] == ev);
            assert(manv.skip(i as int).skip(1) =~= manv.skip(i as int + 1));
        }
        let entry = &store.manifest[i];
        let eligible = matches!(entry.strategy, Strategy::Copy) && match filter {
            Some(f) => entry.filepath == *f,
            None => true,
        };
        let outcome: SyncOutcome;
        if !eligible {
            outcome = SyncOutcome::Skipped(SkipReason::NotEligible);
        } else if !store_entry_exists(&wt.files, &entry.filepath) {
            outcome = SyncOutcome::Skipped(SkipReason::MissingWorktree);
        } else {
            let comps = split_path(entry.filepath.as_str());
            proof {
                assert(wm.contains_key(comps.deep_view()));
                assert(comps.deep_view().len() >= 1);
            }
            match graft(&mut store.files, &comps, &wt.files, &comps) {
                Ok(()) => {
                    outcome = SyncOutcome::Applied;
                    pushed = true;
                },
                Err(e) => {
                    outcome = SyncOutcome::Failed(e);
                },
            }
        }
        outs.push(outcome);
        i = i + 1;
        proof {
            assert((store.files@, outcome) == push_step(prevm, ev, wm, fv));
            assert(outs@ == prevouts.push(outcome));
            assert(prevouts + (seq![outcome] + push_fold(store.files@, manv.skip(i as int), wm,
                fv).1) =~= prevouts.push(outcome) + push_fold(store.files@, manv.skip(i as int),
                wm, fv).1);
            assert(any_applied(outs@) == (any_applied(prevouts) || outcome
                == SyncOutcome::Applied)) by {
                if any_applied(prevouts) {
                    let k = choose|k: int|
                        0 <= k < prevouts.len() && prevouts[k] == SyncOutcome::Applied;
                    assert(outs@[k] == SyncOutcome::Applied);
                }
                if outcome == SyncOutcome::Applied {
                    assert(outs@[outs@.len() - 1] == SyncOutcome::Applied);
                }
                if any_applied(outs@) && outcome != SyncOutcome::Applied {
                    let k = choose|k: int|
                        0 <= k < outs@.len() && outs@[k] == SyncOutcome::Applied;
                    assert(k < prevouts.len());
                    assert(prevouts[k] == SyncOutcome::Applied);
                }
            }
        }
    }
    proof {
        assert(manv.skip(store.manifest.len() as int) =~= Seq::<EntryV>::empty());
        assert(outs@ + Seq::<SyncOutcome>::empty() =~= outs@);
    }
    if !pushed {
        if filter.is_some() {
            return Err(StoreError::NotCopyTracked);
        }
    }
    Ok(outs)
}


/// What `pull` does to the worktree map for one entry. A missing store
/// master is skipped with a warning. An existing worktree path is never
/// silently overwritten: without force it is skipped, with force it is
/// removed and recreated. Recreation is strategy-specific: `Symlink` links
/// to the canonical store path, `Copy` copies the whole subtree.
pub open spec fn pull_step(
    wm: Map<PathV, NodeV>,
    e: EntryV,
    sm: Map<PathV, NodeV>,
    store_path: Seq<char>,
    filter: Option<Seq<char>>,
    force: bool,
) -> (Map<PathV, NodeV>, SyncOutcome) {
    let p = split_path_spec(e.filepath);
    if filter is Some && filter->0 != e.filepath {
        (wm, SyncOutcome::Skipped(SkipReason::NotEligible))
    } else if !store_entry_exists_spec(sm, p) {
        (wm, SyncOutcome::Skipped(SkipReason::MissingStore))
    } else if wm.contains_key(p) && !force {
        (wm, SyncOutcome::Skipped(SkipReason::ExistsWithoutForce))
    } else if !can_write(wm, p) {
        (wm, SyncOutcome::Failed(StoreError::CopyFailed))
    } else {
        match e.strategy {
            Strategy::Symlink => (
                set_spec(wm, p, NodeV::Link { target: store_file_path_spec(store_path, e.filepath) }),
                SyncOutcome::Applied,
            ),
            Strategy::Copy => (graft_spec(wm, p, sm, p), SyncOutcome::Applied),
        }
    }
}

/// `pull` folded over the whole manifest, front to back.
pub open spec fn pull_fold(
    wm: Map<PathV, NodeV>,
    man: Seq<EntryV>,
    sm: Map<PathV, NodeV>,
    store_path: Seq<char>,
    filter: Option<Seq<char>>,
    force: bool,
) -> (Map<PathV, NodeV>, Seq<SyncOutcome>)
    decreases man.len(),
{
    if man.len() == 0 {
        (wm, Seq::empty())
    } else {
        let (wm1, o) = pull_step(wm, man[0], sm, store_path, filter, force);
        let (wm2, os) = pull_fold(wm1, man.skip(1), sm, store_path, filter, force);
        (wm2, seq![o] + os)
    }
}

/// Materializes tracked files from the store into the worktree. A filter
/// that applies to nothing is a hard `UntrackedFile` error; pulling nothing
/// without a filter is an informational success.
pub fn pull(store: &Store, wt: &mut Worktree, filter: Option<&String>, force: bool) -> (r: Result<
    Vec<SyncOutcome>,
    StoreError,
>)
    requires
        store.wf(),
        old(wt).wf(),
    ensures
        final(wt).wf(),
        final(wt).path == old(wt).path,
        ({
            let (wm2, os) = pull_fold(
                old(wt).files@,
                store.manifest.deep_view(),
                store.files@,
                store.path@,
                filter_view(filter),
                force,
            );
            final(wt).files@ == wm2 && match r {
                Ok(outs) => outs@ == os && (filter is Some ==> any_applied(os)),
                Err(e) => e == StoreError::UntrackedFile && filter is Some && !any_applied(os),
            }
        }),
        filter is None ==> r is Ok,
{
    let ghost wm0 = wt.files@;
    let ghost manv = store.manifest.deep_view();
    let ghost sm = store.files@;
    let ghost spath = store.path@;
    let ghost fv = filter_view(filter);
    let mut outs: Vec<SyncOutcome> = Vec::new();
    let mut pulled = false;
    let mut i: usize = 0;
    proof {
        assert(manv.skip(0) =~= manv);
    }
    while i < store.manifest.len()
        invariant
            i <= store.manifest.len(),
            store.wf(),
            wt.wf(),
            wt.path == old(wt).path,
            manv == store.manifest.deep_view(),
            sm == store.files@,
            spath == store.path@,
            outs@.len() == i,
            pull_fold(wm0, manv, sm, spath, fv, force).0 == pull_fold(
                wt.files@,
                manv.skip(i as int),
                sm,
                spath,
                fv,
                force,
            ).0,
            pull_fold(wm0, manv, sm, spath, fv, force).1 == outs@ + pull_fold(
                wt.files@,
                manv.skip(i as int),
                sm,
                spath,
                fv,
                force,
            ).1,
            pulled == any_applied(outs@),
        decreases store.manifest.len() - i,
    {
        let ghost prevm = wt.files@;
        let ghost prevouts = outs@;
        let ghost ev = manv[i as int];
        proof {
            assert(manv.skip(i as int)[0] == ev);
            assert(manv.skip(i as int).skip(1) =~= manv.skip(i as int + 1));
        }
        let entry = &store.manifest[i];
        let eligible = match filter {
            Some(f) => entry.filepath == *f,
            None => true,
        };
        let outcome: SyncOutcome;
        if !eligible {
            outcome = SyncOutcome::Skipped(SkipReason::NotEligible);
        } else if !store_entry_exists(&store.files, &entry.filepath) {
            outcome = SyncOutcome::Skipped(SkipReason::MissingStore);
        } else {
            let comps = split_path(entry.filepath.as_str());
            let wt_exists = path_or_symlink_exists(&wt.files, &entry.filepath);
            if wt_exists && !force {
                outcome = SyncOutcome::Skipped(SkipReason::ExistsWithoutForce);
            } else {
                proof {
                    assert(sm.contains_key(comps.deep_view()));
                    assert(comps.deep_view().len() >= 1);
                }
                match entry.strategy {
                    Strategy::Symlink => {
                        let target = store_file_path(store.path.as_str(), entry.filepath.as_str());
                        match set_node(&mut wt.files, &comps, FsNode::Link { target }) {
                            Ok(()) => {
                                outcome = SyncOutcome::Applied;
                                pulled = true;
                            },
                            Err(e) => {
                                outcome = SyncOutcome::Failed(e);
                            },
                        }
                    },
                    Strategy::Copy => {
                        match graft(&mut wt.files, &comps, &store.files, &comps) {
                            Ok(()) => {
                                outcome = SyncOutcome::Applied;
                                pulled = true;
                            },
                            Err(e) => {
                                outcome = SyncOutcome::Failed(e);
                            },
                        }
                    },
                }
            }
        }
        outs.push(outcome);
        i = i + 1;
        proof {
            assert((wt.files@, outcome) == pull_step(prevm, ev, sm, spath, fv, force));
            assert(outs@ == prevouts.push(outcome));
            assert(prevouts + (seq![outcome] + pull_fold(wt.files@, manv.skip(i as int), sm,
                spath, fv, force).1) =~= prevouts.push(outcome) + pull_fold(wt.files@,
                manv.skip(i as int), sm, spath, fv, force).1);
            assert(any_applied(outs@) == (any_applied(prevouts) || outcome
                == SyncOutcome::Applied)) by {
                if any_applied(prevouts) {
                    let k = choose|k: int|
                        0 <= k < prevouts.len() && prevouts[k] == SyncOutcome::Applied;
                    assert(outs@[k] == SyncOutcome::Applied);
                }
                if outcome == SyncOutcome::Applied {
                    assert(outs@[outs@.len() - 1] == SyncOutcome::Applied);
                }
                if any_applied(outs@) && outcome != SyncOutcome::Applied {
                    let k = choose|k: int|
                        0 <= k < outs@.len() && outs@[k] == SyncOutcome::Applied;
                    assert(k < prevouts.len());
                    assert(prevouts[k] == SyncOutcome::Applied);
                }
            }
        }
    }
    proof {
        assert(manv.skip(store.manifest.len() as int) =~= Seq::<EntryV>::empty());
        assert(outs@ + Seq::<SyncOutcome>::empty() =~= outs@);
    }
    if !pulled {
        if filter.is_some() {
            return Err(StoreError::UntrackedFile);
        }
    }
    Ok(outs)
}


/// What the restoration step of `untrack` does to one worktree. For a
/// `Symlink` entry with a present store master, a worktree whose copy of the
/// path is currently a symlink — any symlink — gets that link replaced by a
/// real, independent copy of the store's content. Anything else is left
/// untouched. Per-worktree failures are reported, never aborting the whole
/// operation.
pub open spec fn restore_spec(
    wm: Map<PathV, NodeV>,
    e: EntryV,
    sm: Map<PathV, NodeV>,
) -> (Map<PathV, NodeV>, SyncOutcome) {
    let p = split_path_spec(e.filepath);
    if e.strategy != Strategy::Symlink {
        (wm, SyncOutcome::Skipped(SkipReason::NotEligible))
    } else if !store_entry_exists_spec(sm, p) {
        (wm, SyncOutcome::Skipped(SkipReason::MissingStore))
    } else if !(wm.contains_key(p) && wm[p] is Link) {
        (wm, SyncOutcome::Skipped(SkipReason::NotLinked))
    } else if !can_write(wm, p) {
        (wm, SyncOutcome::Failed(StoreError::CopyFailed))
    } else {
        (graft_spec(wm, p, sm, p), SyncOutcome::Applied)
    }
}

/// Stops tracking `filepath`: every worktree that still links to the store
/// master gets a real copy back, the manifest entry is removed, the store
/// master is deleted, and now-empty parent directories under the store are
/// pruned, the store root excluded.
pub fn untrack(store: &mut Store, worktrees: &mut Vec<Worktree>, filepath: &String) -> (r: Result<
    Vec<SyncOutcome>,
    StoreError,
>)
    requires
        old(store).wf(),
        forall|i: int| 0 <= i < old(worktrees)@.len() ==> (#[trigger] old(worktrees)@[i]).wf(),
    ensures
        final(store).wf(),
        final(store).path == old(store).path,
        forall|i: int| 0 <= i < final(worktrees)@.len() ==> (#[trigger] final(worktrees)@[i]).wf(),
        final(worktrees)@.len() == old(worktrees)@.len(),
        forall|i: int|
            0 <= i < final(worktrees)@.len() ==> (#[trigger] final(worktrees)@[i]).path
                == old(worktrees)@[i].path,
        ({
            let manv = old(store).manifest.deep_view();
            match index_of_path(manv, filepath@) {
                None => r == Err::<Vec<SyncOutcome>, StoreError>(StoreError::UntrackedFile)
                    && final(store).manifest == old(store).manifest && final(store).files@ == old(
                    store,
                ).files@ && final(worktrees)@ == old(worktrees)@,
                Some(idx) => {
                    let e = manv[idx];
                    let p = split_path_spec(e.filepath);
                    &&& r is Ok
                    &&& final(store).manifest.deep_view() == manv.remove(idx)
                    &&& final(store).files@ == prune_from(
                        old(store).files@.remove_keys(under_set(p)),
                        p,
                        p.len() - 1,
                    )
                    &&& r->Ok_0@.len() == old(worktrees)@.len()
                    &&& forall|i: int|
                        0 <= i < old(worktrees)@.len() ==> ((#[trigger] final(worktrees)@[i]).files@,
                        r->Ok_0@[i]) == restore_spec(
                            old(worktrees)@[i].files@,
                            e,
                            old(store).files@,
                        )
                },
            }
        }),
{
    let ghost manv = store.manifest.deep_view();
    let ghost sm0 = store.files@;
    let ghost wts0 = worktrees@;
    let idx = match find_entry(&store.manifest, filepath) {
        Some(i) => i,
        None => {
            return Err(StoreError::UntrackedFile);
        },
    };
    let ghost ev = manv[idx as int];
    let strategy = store.manifest[idx].strategy;
    let comps = split_path(filepath.as_str());
    proof {
        crate::manifest::lemma_index_of_path(manv, filepath@);
        assert(ev.filepath == filepath@);
    }
    let master_present = store_entry_exists(&store.files, filepath);
    let mut outs: Vec<SyncOutcome> = Vec::new();
    let mut w: usize = 0;
    while w < worktrees.len()
        invariant
            w <= worktrees.len(),
            store.wf(),
            store.path == old(store).path,
            store.manifest == old(store).manifest,
            store.files@ == sm0,
            comps.deep_view() == split_path_spec(ev.filepath),
            strategy == ev.strategy,
            master_present == store_entry_exists_spec(sm0, split_path_spec(ev.filepath)),
            worktrees@.len() == wts0.len(),
            outs@.len() == w,
            forall|i: int| 0 <= i < worktrees@.len() ==> (#[trigger] worktrees@[i]).wf(),
            forall|i: int|
                0 <= i < worktrees@.len() ==> (#[trigger] worktrees@[i]).path == wts0[i].path,
            forall|i: int|
                w <= i < worktrees@.len() ==> (#[trigger] worktrees@[i]).files@
                    == wts0[i].files@,
            forall|i: int|
                0 <= i < w ==> ((#[trigger] worktrees@[i]).files@, outs@[i]) == restore_spec(
                    wts0[i].files@,
                    ev,
                    sm0,
                ),
        decreases worktrees.len() - w,
    {
        let ghost prevwm = worktrees@[w as int].files@;
        let outcome: SyncOutcome;
        if !matches!(strategy, Strategy::Symlink) {
            outcome = SyncOutcome::Skipped(SkipReason::NotEligible);
        } else if !master_present {
            outcome = SyncOutcome::Skipped(SkipReason::MissingStore);
        } else {
            let wt = &worktrees[w];
            let is_link = match lookup(&wt.files, &comps) {
                Some(node) => matches!(node, FsNode::Link { .. }),
                None => false,
            };
            if !is_link {
                outcome = SyncOutcome::Skipped(SkipReason::NotLinked);
            } else {
                proof {
                    assert(prevwm.contains_key(comps.deep_view()));
                    assert(comps.deep_view().len() >= 1);
                }
                let wt = &mut worktrees[w];
                match graft(&mut wt.files, &comps, &store.files, &comps) {
                    Ok(()) => {
                        outcome = SyncOutcome::Applied;
                    },
                    Err(e) => {
                        outcome = SyncOutcome::Failed(e);
                    },
                }
            }
        }
        outs.push(outcome);
        proof {
            assert((worktrees@[w as int].files@, outcome) == restore_spec(prevwm, ev, sm0));
        }
        w = w + 1;
    }
    crate::manifest::remove_entry(&mut store.manifest, idx);
    remove_subtree(&mut store.files, &comps);
    prune_empty_parents(&mut store.files, &comps);
    Ok(outs)
}

/// Materializes one manifest entry into a fresh worktree, with apply
/// semantics: an existing target — file, directory, or symlink, broken ones
/// included — is skipped, never overwritten, and there is no force option.
/// Otherwise `Symlink` links the target to the canonical store path, and
/// `Copy` copies the store's master; a missing master makes the copy fail.
pub open spec fn apply_spec(
    wm: Map<PathV, NodeV>,
    strategy: Strategy,
    fp: Seq<char>,
    sm: Map<PathV, NodeV>,
    store_path: Seq<char>,
) -> (Map<PathV, NodeV>, SyncOutcome) {
    let p = split_path_spec(fp);
    if p.len() == 0 {
        (wm, SyncOutcome::Failed(StoreError::CopyFailed))
    } else if wm.contains_key(p) {
        (wm, SyncOutcome::Skipped(SkipReason::ExistsWithoutForce))
    } else if !can_write(wm, p) {
        (wm, SyncOutcome::Failed(StoreError::CopyFailed))
    } else {
        match strategy {
            Strategy::Symlink => (
                set_spec(wm, p, NodeV::Link { target: store_file_path_spec(store_path, fp) }),
                SyncOutcome::Applied,
            ),
            Strategy::Copy => if !sm.contains_key(p) {
                (wm, SyncOutcome::Failed(StoreError::CopyFailed))
            } else {
                (graft_spec(wm, p, sm, p), SyncOutcome::Applied)
            },
        }
    }
}

/// Applies one manifest entry to a worktree, skipping existing targets.
pub fn apply_file(strategy: Strategy, filepath: &String, store: &Store, wt: &mut Worktree) -> (r:
    SyncOutcome)
    requires
        store.wf(),
        old(wt).wf(),
    ensures
        final(wt).wf(),
        final(wt).path == old(wt).path,
        (final(wt).files@, r) == apply_spec(
            old(wt).files@,
            strategy,
            filepath@,
            store.files@,
            store.path@,
        ),
{
    let comps = split_path(filepath.as_str());
    if comps.len() == 0 {
        return SyncOutcome::Failed(StoreError::CopyFailed);
    }
    if path_or_symlink_exists(&wt.files, filepath) {
        return SyncOutcome::Skipped(SkipReason::ExistsWithoutForce);
    }
    match strategy {
        Strategy::Symlink => {
            let target = store_file_path(store.path.as_str(), filepath.as_str());
            match set_node(&mut wt.files, &comps, FsNode::Link { target }) {
                Ok(()) => SyncOutcome::Applied,
                Err(e) => SyncOutcome::Failed(e),
            }
        },
        Strategy::Copy => {
            let master = match lookup(&store.files, &comps) {
                Some(_) => true,
                None => false,
            };
            if !master {
                return SyncOutcome::Failed(StoreError::CopyFailed);
            }
            match graft(&mut wt.files, &comps, &store.files, &comps) {
                Ok(()) => SyncOutcome::Applied,
                Err(e) => SyncOutcome::Failed(e),
            }
        },
    }
}

} // verus!
