//! Laws of the sync engine: what holds across its operations, proved from
//! the contracts the operations themselves state.

use vstd::prelude::*;

use crate::fs::{is_prefix_of, lemma_prefix_extend, NodeV, PathV};
use crate::fsops::{graft_spec, rebased, set_spec, subtree_eq, under_set, with_parents};
use crate::manifest::{EntryV, Strategy};
use crate::store::{any_applied, pull_fold, pull_step, push_fold, push_step, restore_spec,
    spec_file_status, split_path_spec, store_entry_exists_spec, store_file_path_spec, track_spec,
    FileStatus, SyncOutcome};

verus! {

/// A grafted subtree reads back exactly as its source: the same relative
/// paths exist below the destination as below the source, with equal nodes.
pub proof fn lemma_graft_subtree(
    dstm: Map<PathV, NodeV>,
    dp: PathV,
    srcm: Map<PathV, NodeV>,
    sp: PathV,
)
    ensures
        subtree_eq(graft_spec(dstm, dp, srcm, sp), dp, srcm, sp),
{
    let g = graft_spec(dstm, dp, srcm, sp);
    assert forall|suf: PathV| #[trigger] g.contains_key(dp + suf) == srcm.contains_key(
        sp + suf,
    ) by {
        lemma_prefix_extend(dp, suf);
        if g.contains_key(dp + suf) {
            if with_parents(dstm.remove_keys(under_set(dp)), dp).contains_key(dp + suf)
                && !rebased(srcm, sp, dp).contains_key(dp + suf) {
                if dstm.remove_keys(under_set(dp)).contains_key(dp + suf) {
                    assert(under_set(dp).contains(dp + suf));
                } else {
                    let j = choose|j: int| 1 <= j < dp.len() && dp + suf == #[trigger] dp.take(j);
                    assert((dp + suf).len() == dp.len() + suf.len());
                }
            }
        }
        if srcm.contains_key(sp + suf) {
            assert(rebased(srcm, sp, dp).contains_key(dp + suf));
        }
    }
    assert forall|suf: PathV| g.contains_key(dp + suf) implies #[trigger] g[dp + suf] == srcm[sp
        + suf] by {
        lemma_prefix_extend(dp, suf);
        assert(rebased(srcm, sp, dp).contains_key(dp + suf));
    }
}

/// A subtree read at its own root: the node standing at the grafted path is
/// the node standing at the source path.
pub proof fn lemma_graft_root(dstm: Map<PathV, NodeV>, dp: PathV, srcm: Map<PathV, NodeV>, sp: PathV)
    requires
        srcm.contains_key(sp),
    ensures
        graft_spec(dstm, dp, srcm, sp).contains_key(dp),
        graft_spec(dstm, dp, srcm, sp)[dp] == srcm[sp],
{
    lemma_graft_subtree(dstm, dp, srcm, sp);
    assert(dp + Seq::<Seq<char>>::empty() =~= dp);
    assert(sp + Seq::<Seq<char>>::empty() =~= sp);
    assert(graft_spec(dstm, dp, srcm, sp).contains_key(dp + Seq::<Seq<char>>::empty())
        == srcm.contains_key(sp + Seq::<Seq<char>>::empty()));
}

/// After a successful `track(Symlink, f)` of a path that was not already a
/// link, the worktree path is a symlink whose literal target equals the
/// store's copy path, and the reconciler reports it in sync.
pub proof fn lemma_track_symlink_status(
    sm: Map<PathV, NodeV>,
    man: Seq<EntryV>,
    wm: Map<PathV, NodeV>,
    fp: Seq<char>,
    store_path: Seq<char>,
)
    requires
        track_spec(sm, man, wm, Strategy::Symlink, fp, store_path).r is Ok,
        !(wm[split_path_spec(fp)] is Link),
    ensures
        ({
            let t = track_spec(sm, man, wm, Strategy::Symlink, fp, store_path);
            let p = split_path_spec(fp);
            &&& t.wt[p] == (NodeV::Link { target: store_file_path_spec(store_path, fp) })
            &&& spec_file_status(
                EntryV { strategy: Strategy::Symlink, filepath: fp },
                store_path,
                t.store,
                Some(t.wt),
            ) == FileStatus::Okay
        }),
{
    let t = track_spec(sm, man, wm, Strategy::Symlink, fp, store_path);
    let p = split_path_spec(fp);
    lemma_graft_root(sm, p, wm, p);
    assert(t.store[p] == wm[p] && t.store.contains_key(p));
    assert(t.wt == set_spec(wm, p, NodeV::Link { target: store_file_path_spec(store_path, fp) }));
    assert(t.wt[p] == (NodeV::Link { target: store_file_path_spec(store_path, fp) }));
    assert(store_entry_exists_spec(t.store, p));
    assert(t.wt.contains_key(p));
}

/// After a successful `track(Copy, f)` of a regular file, the worktree is
/// untouched, the store's copy carries the source's content, and the
/// reconciler reports the entry in sync.
pub proof fn lemma_track_copy_status(
    sm: Map<PathV, NodeV>,
    man: Seq<EntryV>,
    wm: Map<PathV, NodeV>,
    fp: Seq<char>,
    store_path: Seq<char>,
)
    requires
        track_spec(sm, man, wm, Strategy::Copy, fp, store_path).r is Ok,
        !(wm[split_path_spec(fp)] is Link),
    ensures
        ({
            let t = track_spec(sm, man, wm, Strategy::Copy, fp, store_path);
            let p = split_path_spec(fp);
            &&& t.wt == wm
            &&& subtree_eq(t.store, p, wm, p)
            &&& spec_file_status(
                EntryV { strategy: Strategy::Copy, filepath: fp },
                store_path,
                t.store,
                Some(t.wt),
            ) == FileStatus::Okay
        }),
{
    let t = track_spec(sm, man, wm, Strategy::Copy, fp, store_path);
    let p = split_path_spec(fp);
    lemma_graft_subtree(sm, p, wm, p);
    lemma_graft_root(sm, p, wm, p);
    assert(store_entry_exists_spec(t.store, p));
    if t.store[p] is Dir && wm[p] is Dir {
    } else {
        assert(t.store[p] == wm[p]);
    }
}

/// For a `Symlink` entry the reconciler judges only link shape and literal
/// target, never content: two stores whose master for the entry exists alike
/// yield the same status, whatever bytes they hold.
pub proof fn lemma_symlink_status_ignores_content(
    e: EntryV,
    store_path: Seq<char>,
    sm1: Map<PathV, NodeV>,
    sm2: Map<PathV, NodeV>,
    wm: Option<Map<PathV, NodeV>>,
)
    requires
        e.strategy == Strategy::Symlink,
        store_entry_exists_spec(sm1, split_path_spec(e.filepath)) == store_entry_exists_spec(
            sm2,
            split_path_spec(e.filepath),
        ),
    ensures
        spec_file_status(e, store_path, sm1, wm) == spec_file_status(e, store_path, sm2, wm),
{
}

/// With a filter that matches no `Copy`-tracked path, a push applies
/// nothing, so it ends in the hard `NotCopyTracked` error.
pub proof fn lemma_push_unmatched_filter(
    sm: Map<PathV, NodeV>,
    man: Seq<EntryV>,
    wm: Map<PathV, NodeV>,
    fp: Seq<char>,
)
    requires
        forall|i: int|
            0 <= i < man.len() ==> !((#[trigger] man[i]).strategy == Strategy::Copy
                && man[i].filepath == fp),
    ensures
        !any_applied(push_fold(sm, man, wm, Some(fp)).1),
        push_fold(sm, man, wm, Some(fp)).0 == sm,
    decreases man.len(),
{
    if man.len() != 0 {
        let (sm1, o) = push_step(sm, man[0], wm, Some(fp));
        assert(o != SyncOutcome::Applied && sm1 == sm);
        assert forall|i: int|
            0 <= i < man.skip(1).len() implies !((#[trigger] man.skip(1)[i]).strategy
            == Strategy::Copy && man.skip(1)[i].filepath == fp) by {
            assert(man.skip(1)[i] == man[i + 1]);
        }
        lemma_push_unmatched_filter(sm1, man.skip(1), wm, fp);
        let os = push_fold(sm, man, wm, Some(fp)).1;
        if any_applied(os) {
            let k = choose|k: int| 0 <= k < os.len() && os[k] == SyncOutcome::Applied;
            if k >= 1 {
                assert(push_fold(sm1, man.skip(1), wm, Some(fp)).1[k - 1]
                    == SyncOutcome::Applied);
            }
        }
    }
}

/// Every proper, nonempty prefix of a present path is present.
pub open spec fn prefix_closed(m: Map<PathV, NodeV>) -> bool {
    forall|k: PathV, n: int|
        #![trigger m.contains_key(k), k.take(n)]
        m.contains_key(k) && 1 <= n < k.len() ==> m.contains_key(k.take(n))
}

/// An unforced pull never changes what already stands in the worktree: every
/// present path keeps its node. (The worktree must be prefix-closed, as any
/// tree read from a real filesystem is.)
pub proof fn lemma_pull_unforced_preserves(
    wm0: Map<PathV, NodeV>,
    wm: Map<PathV, NodeV>,
    man: Seq<EntryV>,
    sm: Map<PathV, NodeV>,
    store_path: Seq<char>,
    filter: Option<Seq<char>>,
)
    requires
        prefix_closed(wm0),
        !sm.contains_key(Seq::<Seq<char>>::empty()),
        forall|k: PathV| #[trigger]
            wm0.contains_key(k) ==> wm.contains_key(k) && wm[k] == wm0[k],
    ensures
        forall|k: PathV| #[trigger]
            wm0.contains_key(k) ==> pull_fold(wm, man, sm, store_path, filter, false).0.contains_key(
                k,
            ) && pull_fold(wm, man, sm, store_path, filter, false).0[k] == wm0[k],
    decreases man.len(),
{
    if man.len() != 0 {
        let e = man[0];
        let p = split_path_spec(e.filepath);
        let (wm1, o) = pull_step(wm, e, sm, store_path, filter, false);
        assert forall|k: PathV| #[trigger] wm0.contains_key(k) implies wm1.contains_key(k)
            && wm1[k] == wm0[k] by {
            if wm1 != wm {
                // the step wrote at p, so p was absent from wm
                assert(!wm.contains_key(p));
                assert(store_entry_exists_spec(sm, p));
                if p.len() == 0 {
                    assert(p =~= Seq::<Seq<char>>::empty());
                    assert(false);
                }
                if is_prefix_of(p, k) {
                    if k.len() == p.len() {
                        assert(k =~= p);
                    } else {
                        let kt = k.take(p.len() as int);
                        assert(wm0.contains_key(k) && 1 <= p.len() < k.len());
                        assert(wm0.contains_key(kt));
                        assert(kt =~= p);
                    }
                    assert(false);
                }
                assert(!is_prefix_of(p, k));
                match e.strategy {
                    Strategy::Symlink => {
                        assert(wm1 == set_spec(
                            wm,
                            p,
                            NodeV::Link { target: store_file_path_spec(store_path, e.filepath) },
                        ));
                        if !wm.contains_key(k) {
                            assert(wm0.contains_key(k));
                            assert(false);
                        }
                        assert(wm1.contains_key(k) && wm1[k] == wm[k]);
                    },
                    Strategy::Copy => {
                        assert(wm1 == graft_spec(wm, p, sm, p));
                        assert(wm1.contains_key(k) && wm1[k] == wm[k]);
                    },
                }
            }
        }
        lemma_pull_unforced_preserves(wm0, wm1, man.skip(1), sm, store_path, filter);
    }
}

/// A forced pull of a `Copy` entry that got applied leaves the worktree's
/// subtree equal to the store's master; an applied `Symlink` entry leaves a
/// link to the canonical store path.
pub proof fn lemma_pull_step_applied(
    wm: Map<PathV, NodeV>,
    e: EntryV,
    sm: Map<PathV, NodeV>,
    store_path: Seq<char>,
    filter: Option<Seq<char>>,
    force: bool,
)
    requires
        pull_step(wm, e, sm, store_path, filter, force).1 == SyncOutcome::Applied,
    ensures
        ({
            let wm2 = pull_step(wm, e, sm, store_path, filter, force).0;
            let p = split_path_spec(e.filepath);
            match e.strategy {
                Strategy::Copy => subtree_eq(wm2, p, sm, p) && wm2[p] == sm[p],
                Strategy::Symlink => wm2[p] == (NodeV::Link {
                    target: store_file_path_spec(store_path, e.filepath),
                }),
            }
        }),
{
    let p = split_path_spec(e.filepath);
    match e.strategy {
        Strategy::Copy => {
            lemma_graft_subtree(wm, p, sm, p);
            lemma_graft_root(wm, p, sm, p);
        },
        Strategy::Symlink => {},
    }
}

/// A worktree whose copy of an untracked `Symlink` path was restored holds a
/// real, content-identical copy of the store's master: the same subtree, and
/// no link at the path.
pub proof fn lemma_untrack_restores(wm: Map<PathV, NodeV>, e: EntryV, sm: Map<PathV, NodeV>)
    requires
        restore_spec(wm, e, sm).1 == SyncOutcome::Applied,
    ensures
        ({
            let wm2 = restore_spec(wm, e, sm).0;
            let p = split_path_spec(e.filepath);
            &&& subtree_eq(wm2, p, sm, p)
            &&& wm2[p] == sm[p]
            &&& !(wm2[p] is Link)
        }),
{
    let p = split_path_spec(e.filepath);
    lemma_graft_subtree(wm, p, sm, p);
    lemma_graft_root(wm, p, sm, p);
}


/// Filepaths are unique within a manifest.
pub open spec fn unique_filepaths(s: Seq<EntryV>) -> bool {
    forall|i: int, j: int|
        0 <= i < j < s.len() ==> (#[trigger] s[i]).filepath != (#[trigger] s[j]).filepath
}

/// Re-tracking updates in place and never duplicates: the manifest's
/// filepath uniqueness is invariant under `track`'s upsert.
pub proof fn lemma_upsert_keeps_unique(s: Seq<EntryV>, strategy: Strategy, fp: Seq<char>)
    requires
        unique_filepaths(s),
    ensures
        unique_filepaths(crate::manifest::upsert_spec(s, strategy, fp)),
{
    crate::manifest::lemma_index_of_path(s, fp);
    let t = crate::manifest::upsert_spec(s, strategy, fp);
    match crate::manifest::index_of_path(s, fp) {
        Some(k) => {
            assert forall|i: int, j: int| 0 <= i < j < t.len() implies (#[trigger] t[i]).filepath
                != (#[trigger] t[j]).filepath by {
                if i != k && j != k {
                    assert(t[i] == s[i] && t[j] == s[j]);
                } else if i == k {
                    assert(t[j] == s[j] && s[j].filepath != fp);
                } else {
                    assert(t[i] == s[i] && s[i].filepath != fp);
                }
            }
        },
        None => {
            assert forall|i: int, j: int| 0 <= i < j < t.len() implies (#[trigger] t[i]).filepath
                != (#[trigger] t[j]).filepath by {
                if j < s.len() {
                    assert(t[i] == s[i] && t[j] == s[j]);
                } else {
                    assert(t[i] == s[i] && s[i].filepath != fp);
                }
            }
        },
    }
}

/// Pruning only ever removes bindings; it never adds or changes one.
proof fn lemma_prune_subset(m: Map<PathV, NodeV>, p: PathV, n: int)
    ensures
        forall|k: PathV| #[trigger]
            crate::fsops::prune_from(m, p, n).contains_key(k) ==> m.contains_key(k)
                && crate::fsops::prune_from(m, p, n)[k] == m[k],
    decreases n,
{
    if n >= 1 {
        let q = p.take(n);
        if m.contains_key(q) && m[q] is Dir && crate::fsops::no_strict_descendant(m, q) {
            lemma_prune_subset(m.remove(q), p, n - 1);
            assert forall|k: PathV| #[trigger]
                crate::fsops::prune_from(m, p, n).contains_key(k) implies m.contains_key(k)
                && crate::fsops::prune_from(m, p, n)[k] == m[k] by {
                assert(crate::fsops::prune_from(m, p, n) == crate::fsops::prune_from(
                    m.remove(q),
                    p,
                    n - 1,
                ));
                assert(crate::fsops::prune_from(m.remove(q), p, n - 1).contains_key(k));
            }
        }
    }
}

/// After `untrack`, the store's master copy is gone: neither the removal nor
/// the pruning of emptied parents leaves anything at the entry's path.
pub proof fn lemma_untrack_deletes_master(m: Map<PathV, NodeV>, p: PathV)
    ensures
        !crate::fsops::prune_from(m.remove_keys(under_set(p)), p, p.len() - 1).contains_key(p),
{
    let removed = m.remove_keys(under_set(p));
    assert(is_prefix_of(p, p)) by {
        assert(p.subrange(0, p.len() as int) =~= p);
    }
    assert(!removed.contains_key(p));
    lemma_prune_subset(removed, p, p.len() - 1);
}

} // verus!
