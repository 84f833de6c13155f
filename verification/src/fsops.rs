//! Mutating operations on the directory-tree model: removing a subtree,
//! writing a node (with its parent directories), grafting one subtree onto
//! another place, and pruning emptied parent directories. These are the
//! primitive effects out of which the sync engine's operations are composed.

use vstd::prelude::*;

use crate::error::StoreError;
pub use crate::fs::under_set;

use crate::fs::{copy_node, entries_wf, is_prefix_of, lemma_map_of_index, lemma_prefix_extend,
    lemma_prefix_split, lookup, map_of, path_is_prefix, path_rebase, path_take, Fs, FsEntry,
    FsNode, NodeV, PathV};

verus! {

/// Appending to equal prefixes is injective.
proof fn lemma_concat_inj(a: PathV, x: PathV, y: PathV)
    requires
        a + x == a + y,
    ensures
        x == y,
{
    assert((a + x).skip(a.len() as int) =~= x);
    assert((a + y).skip(a.len() as int) =~= y);
}

/// Pushing an entry with a fresh path inserts it into the map.
proof fn lemma_map_of_push(s: Seq<FsEntry>, e: FsEntry)
    requires
        entries_wf(s),
        !map_of(s).contains_key(e@.0),
        e@.0.len() >= 1,
    ensures
        entries_wf(s.push(e)),
        map_of(s.push(e)) == map_of(s).insert(e@.0, e@.1),
{
    let t = s.push(e);
    assert forall|i: int, j: int| 0 <= i < j < t.len() implies (#[trigger] t[i])@.0 != (
    #[trigger] t[j])@.0 by {
        if j < s.len() {
            assert(t[i] == s[i] && t[j] == s[j]);
        } else {
            assert(t[j] == e);
            assert(t[i] == s[i]);
            if s[i]@.0 == e@.0 {
                assert(map_of(s).contains_key(s[i]@.0));
            }
        }
    }
    assert forall|i: int| 0 <= i < t.len() implies (#[trigger] t[i])@.0.len() >= 1 by {
        if i < s.len() {
            assert(t[i] == s[i]);
        }
    }
    assert forall|k: PathV| #[trigger]
        map_of(t).contains_key(k) == map_of(s).insert(e@.0, e@.1).contains_key(k) by {
        if map_of(t).contains_key(k) {
            let i = choose|i: int| 0 <= i < t.len() && (#[trigger] t[i])@.0 == k;
            if i < s.len() {
                assert(s[i]@.0 == k);
                lemma_map_of_index(s, i);
            }
        }
        if map_of(s).contains_key(k) {
            let i = choose|i: int| 0 <= i < s.len() && (#[trigger] s[i])@.0 == k;
            assert(t[i]@.0 == k);
        }
        if k == e@.0 {
            assert(t[s.len() as int]@.0 == k);
        }
    }
    assert forall|k: PathV|
        map_of(t).contains_key(k) implies #[trigger] map_of(t)[k] == map_of(s).insert(
        e@.0,
        e@.1,
    )[k] by {
        lemma_map_of_index(t, choose|i: int| 0 <= i < t.len() && (#[trigger] t[i])@.0 == k);
        let i = choose|i: int| 0 <= i < t.len() && (#[trigger] t[i])@.0 == k;
        lemma_map_of_index(t, i);
        if k == e@.0 {
            lemma_map_of_index(t, s.len() as int);
        } else {
            assert(i < s.len());
            assert(s[i]@.0 == k);
            lemma_map_of_index(s, i);
        }
    }
    assert(map_of(t) =~= map_of(s).insert(e@.0, e@.1));
}

/// Removing the entry at `i` removes its path from the map.
proof fn lemma_map_of_remove(s: Seq<FsEntry>, i: int)
    requires
        entries_wf(s),
        0 <= i < s.len(),
    ensures
        entries_wf(s.remove(i)),
        map_of(s.remove(i)) == map_of(s).remove(s[i]@.0),
{
    let t = s.remove(i);
    let p = s[i]@.0;
    assert forall|a: int, b: int| 0 <= a < b < t.len() implies (#[trigger] t[a])@.0 != (
    #[trigger] t[b])@.0 by {
        let sa: int = if a < i {
            a
        } else {
            a + 1
        };
        let sb: int = if b < i {
            b
        } else {
            b + 1
        };
        assert(t[a] == s[sa] && t[b] == s[sb]);
    }
    assert forall|a: int| 0 <= a < t.len() implies (#[trigger] t[a])@.0.len() >= 1 by {
        let sa: int = if a < i {
            a
        } else {
            a + 1
        };
        assert(t[a] == s[sa]);
    }
    assert forall|k: PathV| #[trigger]
        map_of(t).contains_key(k) == map_of(s).remove(p).contains_key(k) by {
        if map_of(t).contains_key(k) {
            let a = choose|a: int| 0 <= a < t.len() && (#[trigger] t[a])@.0 == k;
            let sa: int = if a < i {
                a
            } else {
                a + 1
            };
            assert(t[a] == s[sa]);
            assert(s[sa]@.0 == k);
            lemma_map_of_index(s, sa);
            if k == p {
                if sa < i {
                    assert(s[sa]@.0 != s[i]@.0);
                } else {
                    assert(s[i]@.0 != s[sa]@.0);
                }
            }
        }
        if map_of(s).contains_key(k) && k != p {
            let sa = choose|sa: int| 0 <= sa < s.len() && (#[trigger] s[sa])@.0 == k;
            if sa < i {
                assert(t[sa] == s[sa]);
                assert(t[sa]@.0 == k);
            } else {
                assert(sa != i);
                assert(t[sa - 1] == s[sa]);
                assert(t[sa - 1]@.0 == k);
            }
        }
    }
    assert forall|k: PathV|
        map_of(t).contains_key(k) implies #[trigger] map_of(t)[k] == map_of(s).remove(p)[k] by {
        let a = choose|a: int| 0 <= a < t.len() && (#[trigger] t[a])@.0 == k;
        lemma_map_of_index(t, a);
        let sa: int = if a < i {
            a
        } else {
            a + 1
        };
        assert(t[a] == s[sa]);
        lemma_map_of_index(s, sa);
    }
    assert(map_of(t) =~= map_of(s).remove(p));
}

/// `e` is one of the entries of `olde` from position `lo` on, and its path
/// does not lie under `pd`.
spec fn within_one(olde: Seq<FsEntry>, e: FsEntry, pd: PathV, lo: int) -> bool {
    exists|t: int| #![trigger olde[t]]
        lo <= t < olde.len() && e@ == olde[t]@ && !is_prefix_of(pd, olde[t]@.0)
}

/// Some kept entry equals `e`.
spec fn covers_one(kept: Seq<FsEntry>, e: FsEntry) -> bool {
    exists|j: int| #![trigger kept[j]] 0 <= j < kept.len() && kept[j]@ == e@
}

/// Every kept entry is one of the entries of `olde` from position `lo` on
/// whose path does not lie under `pd`.
#[verifier::opaque]
spec fn kept_within(olde: Seq<FsEntry>, kept: Seq<FsEntry>, pd: PathV, lo: int) -> bool {
    forall|j: int| #![trigger kept[j]]
        0 <= j < kept.len() ==> within_one(olde, kept[j], pd, lo)
}

/// Every entry of `olde` from position `lo` on whose path does not lie under
/// `pd` is kept.
#[verifier::opaque]
spec fn kept_covers(olde: Seq<FsEntry>, kept: Seq<FsEntry>, pd: PathV, lo: int) -> bool {
    forall|t: int| #![trigger olde[t]]
        lo <= t < olde.len() && !is_prefix_of(pd, olde[t]@.0) ==> covers_one(kept, olde[t])
}

/// Removes every entry at or below `p`. Removing a directory's path this way
/// removes the directory with all of its contents; removing a path with no
/// entry changes nothing.
pub fn remove_subtree(fs: &mut Fs, p: &Vec<String>)
    requires
        old(fs).wf(),
    ensures
        final(fs).wf(),
        final(fs)@ == old(fs)@.remove_keys(under_set(p.deep_view())),
{
    let ghost olde = fs.entries@;
    let ghost pd = p.deep_view();
    let mut kept: Vec<FsEntry> = Vec::new();
    proof {
        assert(olde.take(olde.len() as int) =~= olde);
        assert(kept_within(olde, kept@, pd, olde.len() as int)) by {
            reveal(kept_within);
        }
        assert(kept_covers(olde, kept@, pd, olde.len() as int)) by {
            reveal(kept_covers);
        }
    }
    while fs.entries.len() > 0
        invariant
            fs.entries@.len() <= olde.len(),
            fs.entries@ == olde.take(fs.entries@.len() as int),
            entries_wf(kept@),
            kept_within(olde, kept@, pd, fs.entries@.len() as int),
            kept_covers(olde, kept@, pd, fs.entries@.len() as int),
        decreases fs.entries.len(),
    {
        let ghost pre = fs.entries@;
        let ghost r = pre.len() - 1;
        let e = fs.entries.pop().unwrap();
        proof {
            assert(e == pre[r]);
            assert(pre[r] == olde.take(pre.len() as int)[r]);
            assert(olde.take(pre.len() as int)[r] == olde[r]);
            assert(fs.entries@ == pre.subrange(0, r));
            assert(pre.subrange(0, r) =~= olde.take(r));
        }
        if !path_is_prefix(p, &e.path) {
            proof {
                lemma_wf_push(olde, kept@, e, pd, r);
                lemma_within_push(olde, kept@, e, pd, r);
                lemma_covers_push(olde, kept@, e, pd, r);
            }
            kept.push(e);
        } else {
            proof {
                lemma_within_widen(olde, kept@, pd, r);
                lemma_covers_skip(olde, kept@, pd, r);
            }
        }
    }
    fs.entries = kept;
    proof {
        lemma_filtered_map(olde, fs.entries@, pd);
    }
}

/// The within-correspondence widens to a smaller lower bound.
proof fn lemma_within_widen(olde: Seq<FsEntry>, kept: Seq<FsEntry>, pd: PathV, lo: int)
    requires
        kept_within(olde, kept, pd, lo + 1),
    ensures
        kept_within(olde, kept, pd, lo),
{
    reveal(kept_within);
    assert forall|j: int| #![trigger kept[j]] 0 <= j < kept.len() implies within_one(
        olde,
        kept[j],
        pd,
        lo,
    ) by {
        reveal(kept_within);
        assert(within_one(olde, kept[j], pd, lo + 1));
        let t = choose|t: int| #![trigger olde[t]]
            lo + 1 <= t < olde.len() && kept[j]@ == olde[t]@ && !is_prefix_of(pd, olde[t]@.0);
        assert(lo <= t < olde.len() && kept[j]@ == olde[t]@ && !is_prefix_of(pd, olde[t]@.0));
    }
}

/// Pushing the entry at position `r` extends the within-correspondence.
proof fn lemma_within_push(olde: Seq<FsEntry>, prevk: Seq<FsEntry>, e: FsEntry, pd: PathV, r: int)
    requires
        0 <= r < olde.len(),
        e@ == olde[r]@,
        !is_prefix_of(pd, e@.0),
        kept_within(olde, prevk, pd, r + 1),
    ensures
        kept_within(olde, prevk.push(e), pd, r),
{
    reveal(kept_within);
    let kept = prevk.push(e);
    assert forall|j: int| #![trigger kept[j]] 0 <= j < kept.len() implies within_one(
        olde,
        kept[j],
        pd,
        r,
    ) by {
        reveal(kept_within);
        if j < prevk.len() {
            assert(kept[j] == prevk[j]);
            assert(within_one(olde, prevk[j], pd, r + 1));
            let t = choose|t: int| #![trigger olde[t]]
                r + 1 <= t < olde.len() && prevk[j]@ == olde[t]@ && !is_prefix_of(pd, olde[t]@.0);
            assert(r <= t < olde.len() && kept[j]@ == olde[t]@ && !is_prefix_of(pd, olde[t]@.0));
        } else {
            assert(kept[j] == e);
            assert(r <= r < olde.len() && kept[j]@ == olde[r]@ && !is_prefix_of(pd, olde[r]@.0));
        }
    }
}

/// Pushing an entry that stands within `olde` beyond `r` keeps the entry
/// paths distinct.
proof fn lemma_wf_push(olde: Seq<FsEntry>, prevk: Seq<FsEntry>, e: FsEntry, pd: PathV, r: int)
    requires
        entries_wf(olde),
        entries_wf(prevk),
        0 <= r < olde.len(),
        e@ == olde[r]@,
        kept_within(olde, prevk, pd, r + 1),
    ensures
        entries_wf(prevk.push(e)),
{
    reveal(kept_within);
    let kept = prevk.push(e);
    assert forall|i: int, j: int| 0 <= i < j < kept.len() implies (#[trigger] kept[i])@.0 != (
    #[trigger] kept[j])@.0 by {
        reveal(kept_within);
        if j < prevk.len() {
            assert(kept[i] == prevk[i] && kept[j] == prevk[j]);
        } else {
            assert(kept[i] == prevk[i] && kept[j] == e);
            assert(within_one(olde, prevk[i], pd, r + 1));
            let t = choose|t: int| #![trigger olde[t]]
                r + 1 <= t < olde.len() && prevk[i]@ == olde[t]@ && !is_prefix_of(pd, olde[t]@.0);
            assert(olde[r]@.0 != olde[t]@.0);
        }
    }
    assert forall|i: int| 0 <= i < kept.len() implies (#[trigger] kept[i])@.0.len() >= 1 by {
        if i < prevk.len() {
            assert(kept[i] == prevk[i]);
        } else {
            assert(kept[i] == e);
            assert(olde[r]@.0.len() >= 1);
        }
    }
}

/// Skipping the entry at position `r`, which lies under `pd`, extends the
/// covering one position to the left.
proof fn lemma_covers_skip(olde: Seq<FsEntry>, prevk: Seq<FsEntry>, pd: PathV, r: int)
    requires
        0 <= r < olde.len(),
        is_prefix_of(pd, olde[r]@.0),
        kept_covers(olde, prevk, pd, r + 1),
    ensures
        kept_covers(olde, prevk, pd, r),
{
    reveal(kept_covers);
    assert forall|t: int| #![trigger olde[t]]
        r <= t < olde.len() && !is_prefix_of(pd, olde[t]@.0) implies covers_one(
        prevk,
        olde[t],
    ) by {
        reveal(kept_covers);
        assert(t != r);
    }
}

/// Pushing the entry at position `r` extends the covering one position to
/// the left.
proof fn lemma_covers_push(olde: Seq<FsEntry>, prevk: Seq<FsEntry>, e: FsEntry, pd: PathV, r: int)
    requires
        0 <= r < olde.len(),
        e@ == olde[r]@,
        kept_covers(olde, prevk, pd, r + 1),
    ensures
        kept_covers(olde, prevk.push(e), pd, r),
{
    reveal(kept_covers);
    let kept = prevk.push(e);
    assert forall|t: int| #![trigger olde[t]]
        r <= t < olde.len() && !is_prefix_of(pd, olde[t]@.0) implies covers_one(
        kept,
        olde[t],
    ) by {
        reveal(kept_covers);
        if t == r {
            assert(0 <= kept.len() - 1 < kept.len() && kept[kept.len() - 1]@ == olde[t]@);
        } else {
            assert(covers_one(prevk, olde[t]));
            let j = choose|j: int| #![trigger prevk[j]]
                0 <= j < prevk.len() && prevk[j]@ == olde[t]@;
            assert(0 <= j < kept.len() && kept[j]@ == olde[t]@);
        }
    }
}

/// A well-formed selection of exactly the entries outside `pd` stands for
/// the map with the keys under `pd` removed.
proof fn lemma_filtered_map(olde: Seq<FsEntry>, kept: Seq<FsEntry>, pd: PathV)
    requires
        entries_wf(olde),
        entries_wf(kept),
        kept_within(olde, kept, pd, 0),
        kept_covers(olde, kept, pd, 0),
    ensures
        map_of(kept) == map_of(olde).remove_keys(under_set(pd)),
{
    let goal = map_of(olde).remove_keys(under_set(pd));
    assert forall|k: PathV| #[trigger] map_of(kept).contains_key(k) == goal.contains_key(k) by {
        reveal(kept_within);
        reveal(kept_covers);
        if map_of(kept).contains_key(k) {
            let j = choose|j: int| 0 <= j < kept.len() && (#[trigger] kept[j])@.0 == k;
            assert(within_one(olde, kept[j], pd, 0));
            let t = choose|t: int| #![trigger olde[t]]
                0 <= t < olde.len() && kept[j]@ == olde[t]@ && !is_prefix_of(pd, olde[t]@.0);
            lemma_map_of_index(olde, t);
        }
        if goal.contains_key(k) {
            let t = choose|t: int| 0 <= t < olde.len() && (#[trigger] olde[t])@.0 == k;
            assert(!is_prefix_of(pd, olde[t]@.0));
            assert(covers_one(kept, olde[t]));
            let j = choose|j: int| #![trigger kept[j]] 0 <= j < kept.len() && kept[j]@ == olde[t]@;
            assert(kept[j]@.0 == k);
        }
    }
    assert forall|k: PathV| map_of(kept).contains_key(k) implies #[trigger] map_of(kept)[k]
        == goal[k] by {
        reveal(kept_within);
        let j = choose|j: int| 0 <= j < kept.len() && (#[trigger] kept[j])@.0 == k;
        lemma_map_of_index(kept, j);
        assert(within_one(olde, kept[j], pd, 0));
        let t = choose|t: int| #![trigger olde[t]]
            0 <= t < olde.len() && kept[j]@ == olde[t]@ && !is_prefix_of(pd, olde[t]@.0);
        lemma_map_of_index(olde, t);
    }
    assert(map_of(kept) =~= goal);
}

/// Writing at `p` is possible when no proper, nonempty prefix of `p` is
/// occupied by anything but a directory. This is what creating the parent
/// directories of `p` demands of the tree.
pub open spec fn can_write(m: Map<PathV, NodeV>, p: PathV) -> bool {
    forall|n: int|
        1 <= n < p.len() ==> (m.contains_key(#[trigger] p.take(n)) ==> m[p.take(n)] is Dir)
}

/// `m` with directories added at the proper prefixes of `p` shorter than
/// `n` components; present prefixes keep what stands there.
pub open spec fn with_parents_upto(m: Map<PathV, NodeV>, p: PathV, n: int) -> Map<PathV, NodeV> {
    Map::new(
        |k: PathV| m.contains_key(k) || (exists|j: int| 1 <= j < n && k == #[trigger] p.take(j)),
        |k: PathV|
            if m.contains_key(k) {
                m[k]
            } else {
                NodeV::Dir
            },
    )
}

/// `m` with directories added at every missing proper prefix of `p`.
pub open spec fn with_parents(m: Map<PathV, NodeV>, p: PathV) -> Map<PathV, NodeV> {
    with_parents_upto(m, p, p.len() as int)
}

/// The map after a node `v` is written at `p`: whatever stood at or below
/// `p` is gone, missing parent directories exist, and `v` stands at `p`.
pub open spec fn set_spec(m: Map<PathV, NodeV>, p: PathV, v: NodeV) -> Map<PathV, NodeV> {
    with_parents(m.remove_keys(under_set(p)), p).insert(p, v)
}

/// The subtree of `srcm` at or below `sp`, rebased to stand at `dp`.
pub open spec fn rebased(srcm: Map<PathV, NodeV>, sp: PathV, dp: PathV) -> Map<PathV, NodeV> {
    Map::new(
        |k: PathV| is_prefix_of(dp, k) && srcm.contains_key(sp + k.skip(dp.len() as int)),
        |k: PathV| srcm[sp + k.skip(dp.len() as int)],
    )
}

/// The map after the subtree of `srcm` at `sp` is copied to `dp` in `dstm`,
/// replacing whatever stood at or below `dp`.
pub open spec fn graft_spec(
    dstm: Map<PathV, NodeV>,
    dp: PathV,
    srcm: Map<PathV, NodeV>,
    sp: PathV,
) -> Map<PathV, NodeV> {
    with_parents(dstm.remove_keys(under_set(dp)), dp).union_prefer_right(rebased(srcm, sp, dp))
}

/// Is writing at `p` possible in `fs`?
pub fn check_writable(fs: &Fs, p: &Vec<String>) -> (r: bool)
    requires
        fs.wf(),
    ensures
        r == can_write(fs@, p.deep_view()),
{
    let ghost pd = p.deep_view();
    proof {
        assert(pd.len() == p@.len());
    }
    if p.len() == 0 {
        return true;
    }
    let mut n: usize = 1;
    while n < p.len()
        invariant
            1 <= n <= p.len(),
            forall|m: int|
                1 <= m < n ==> (fs@.contains_key(#[trigger] pd.take(m)) ==> fs@[pd.take(m)]
                    is Dir),
        decreases p.len() - n,
    {
        let prefix = path_take(p, n);
        match lookup(fs, &prefix) {
            Some(node) => {
                match node {
                    FsNode::Dir => {},
                    _ => {
                        proof {
                            assert(fs@.contains_key(pd.take(n as int)) && !(fs@[pd.take(n as int)]
                                is Dir));
                        }
                        return false;
                    },
                }
            },
            None => {},
        }
        n = n + 1;
    }
    true
}

/// Creates a directory entry at every missing proper prefix of `p`.
fn add_parent_dirs(fs: &mut Fs, p: &Vec<String>)
    requires
        old(fs).wf(),
    ensures
        final(fs).wf(),
        final(fs)@ == with_parents(old(fs)@, p.deep_view()),
{
    let ghost m0 = fs@;
    let ghost pd = p.deep_view();
    proof {
        assert(pd.len() == p@.len());
        assert(fs@ =~= with_parents_upto(m0, pd, 1));
    }
    let mut n: usize = 1;
    while n < p.len()
        invariant
            1 <= n,
            n <= p.len() || n == 1,
            fs.wf(),
            fs@ == with_parents_upto(m0, pd, n as int),
        decreases p.len() - n,
    {
        let ghost prev = fs@;
        let ghost qd = pd.take(n as int);
        let prefix = path_take(p, n);
        match crate::fs::find_path(fs, &prefix) {
            Some(_) => {
                proof {
                    assert(with_parents_upto(m0, pd, n as int + 1) =~= prev);
                }
            },
            None => {
                proof {
                    lemma_map_of_push(fs.entries@, FsEntry { path: prefix, node: FsNode::Dir });
                }
                fs.entries.push(FsEntry { path: prefix, node: FsNode::Dir });
                proof {
                    assert(fs@ == prev.insert(qd, NodeV::Dir));
                    assert(with_parents_upto(m0, pd, n as int + 1) =~= prev.insert(
                        qd,
                        NodeV::Dir,
                    ));
                }
            },
        }
        n = n + 1;
    }
    proof {
        assert(pd.len() == p@.len());
        if p.len() == 0 {
            assert(n == 1);
            assert(with_parents_upto(m0, pd, 0) =~= with_parents_upto(m0, pd, 1));
            assert(fs@ == with_parents_upto(m0, pd, 1));
            assert(fs@ == with_parents_upto(m0, pd, 0));
            assert(fs@ == with_parents_upto(m0, pd, pd.len() as int));
        } else {
            assert(n == p.len());
            assert(fs@ == with_parents_upto(m0, pd, n as int));
            assert(fs@ == with_parents_upto(m0, pd, pd.len() as int));
        }
    }
}


/// After removing everything under `p` and adding parent directories, no key
/// under `p` is present.
proof fn lemma_with_parents_not_under(m: Map<PathV, NodeV>, p: PathV, k: PathV)
    requires
        is_prefix_of(p, k),
    ensures
        !with_parents(m.remove_keys(under_set(p)), p).contains_key(k),
{
    if with_parents(m.remove_keys(under_set(p)), p).contains_key(k) {
        if m.remove_keys(under_set(p)).contains_key(k) {
            assert(under_set(p).contains(k));
        } else {
            let j = choose|j: int| 1 <= j < p.len() && k == #[trigger] p.take(j);
            assert(k.len() == j);
            assert(p.len() <= k.len());
        }
    }
}

/// Writes `node` at `p`: whatever stood at or below `p` is removed, missing
/// parent directories are created, and `node` stands at `p`. Fails without
/// any change when something other than a directory occupies a proper prefix
/// of `p`.
pub fn set_node(fs: &mut Fs, p: &Vec<String>, node: FsNode) -> (r: Result<(), StoreError>)
    requires
        old(fs).wf(),
        p.deep_view().len() >= 1,
    ensures
        final(fs).wf(),
        match r {
            Ok(()) => can_write(old(fs)@, p.deep_view()) && final(fs)@ == set_spec(
                old(fs)@,
                p.deep_view(),
                node@,
            ),
            Err(e) => e == StoreError::CopyFailed && !can_write(old(fs)@, p.deep_view())
                && final(fs)@ == old(fs)@,
        },
{
    let ghost m0 = fs@;
    let ghost pd = p.deep_view();
    let ghost nv = node@;
    if !check_writable(fs, p) {
        return Err(StoreError::CopyFailed);
    }
    remove_subtree(fs, p);
    add_parent_dirs(fs, p);
    let path = path_take(p, p.len());
    proof {
        assert(pd.take(p.len() as int) =~= pd);
        assert(is_prefix_of(pd, pd)) by {
            assert(pd.subrange(0, pd.len() as int) =~= pd);
        }
        lemma_with_parents_not_under(m0, pd, pd);
        lemma_map_of_push(fs.entries@, FsEntry { path: path, node: node });
    }
    fs.entries.push(FsEntry { path, node });
    Ok(())
}


/// One more entry of a well-formed sequence extends its prefix map by its
/// own path.
proof fn lemma_map_of_take_push(s: Seq<FsEntry>, t: int)
    requires
        entries_wf(s),
        0 <= t < s.len(),
    ensures
        entries_wf(s.take(t)),
        !map_of(s.take(t)).contains_key(s[t]@.0),
        map_of(s.take(t + 1)) == map_of(s.take(t)).insert(s[t]@.0, s[t]@.1),
{
    let pre = s.take(t);
    assert forall|i: int, j: int| 0 <= i < j < pre.len() implies (#[trigger] pre[i])@.0 != (
    #[trigger] pre[j])@.0 by {
        assert(pre[i] == s[i] && pre[j] == s[j]);
    }
    assert forall|i: int| 0 <= i < pre.len() implies (#[trigger] pre[i])@.0.len() >= 1 by {
        assert(pre[i] == s[i]);
    }
    if map_of(pre).contains_key(s[t]@.0) {
        let i = choose|i: int| 0 <= i < pre.len() && (#[trigger] pre[i])@.0 == s[t]@.0;
        assert(s[i]@.0 != s[t]@.0);
    }
    lemma_map_of_push(pre, s[t]);
    assert(s.take(t + 1) =~= pre.push(s[t]));
}

/// How `rebased` changes when one binding is added to the source map.
proof fn lemma_rebased_insert(
    m: Map<PathV, NodeV>,
    sp: PathV,
    dp: PathV,
    q: PathV,
    v: NodeV,
)
    ensures
        is_prefix_of(sp, q) ==> rebased(m.insert(q, v), sp, dp) == rebased(m, sp, dp).insert(
            dp + q.skip(sp.len() as int),
            v,
        ),
        !is_prefix_of(sp, q) ==> rebased(m.insert(q, v), sp, dp) == rebased(m, sp, dp),
{
    if is_prefix_of(sp, q) {
        let nk = dp + q.skip(sp.len() as int);
        lemma_prefix_extend(dp, q.skip(sp.len() as int));
        lemma_prefix_split(sp, q);
        assert(sp + nk.skip(dp.len() as int) == q);
        assert forall|k: PathV| #[trigger]
            rebased(m.insert(q, v), sp, dp).contains_key(k) == rebased(m, sp, dp).insert(
            nk,
            v,
        ).contains_key(k) by {
            if k != nk && is_prefix_of(dp, k) {
                if sp + k.skip(dp.len() as int) == q {
                    lemma_prefix_split(dp, k);
                    lemma_concat_inj(sp, k.skip(dp.len() as int), q.skip(sp.len() as int));
                }
            }
        }
        assert forall|k: PathV|
            rebased(m.insert(q, v), sp, dp).contains_key(k) implies #[trigger] rebased(
            m.insert(q, v),
            sp,
            dp,
        )[k] == rebased(m, sp, dp).insert(nk, v)[k] by {
            if k != nk {
                if sp + k.skip(dp.len() as int) == q {
                    lemma_prefix_split(dp, k);
                    lemma_concat_inj(sp, k.skip(dp.len() as int), q.skip(sp.len() as int));
                }
            }
        }
        assert(rebased(m.insert(q, v), sp, dp) =~= rebased(m, sp, dp).insert(nk, v));
    } else {
        assert forall|k: PathV| #[trigger]
            rebased(m.insert(q, v), sp, dp).contains_key(k) == rebased(
            m,
            sp,
            dp,
        ).contains_key(k) by {
            if is_prefix_of(dp, k) && sp + k.skip(dp.len() as int) == q {
                lemma_prefix_extend(sp, k.skip(dp.len() as int));
            }
        }
        assert forall|k: PathV|
            rebased(m.insert(q, v), sp, dp).contains_key(k) implies #[trigger] rebased(
            m.insert(q, v),
            sp,
            dp,
        )[k] == rebased(m, sp, dp)[k] by {
            if is_prefix_of(dp, k) && sp + k.skip(dp.len() as int) == q {
                lemma_prefix_extend(sp, k.skip(dp.len() as int));
            }
        }
        assert(rebased(m.insert(q, v), sp, dp) =~= rebased(m, sp, dp));
    }
}

/// Copies the subtree of `src` at `sp` onto `dp` in `dst`, replacing whatever
/// stood at or below `dp` and creating missing parent directories. Fails
/// without any change when something other than a directory occupies a
/// proper prefix of `dp`.
pub fn graft(dst: &mut Fs, dp: &Vec<String>, src: &Fs, sp: &Vec<String>) -> (r: Result<
    (),
    StoreError,
>)
    requires
        old(dst).wf(),
        src.wf(),
        dp.deep_view().len() >= 1,
    ensures
        final(dst).wf(),
        match r {
            Ok(()) => can_write(old(dst)@, dp.deep_view()) && final(dst)@ == graft_spec(
                old(dst)@,
                dp.deep_view(),
                src@,
                sp.deep_view(),
            ),
            Err(e) => e == StoreError::CopyFailed && !can_write(old(dst)@, dp.deep_view())
                && final(dst)@ == old(dst)@,
        },
{
    let ghost m0 = dst@;
    let ghost dpd = dp.deep_view();
    let ghost spd = sp.deep_view();
    let ghost srcs = src.entries@;
    if !check_writable(dst, dp) {
        return Err(StoreError::CopyFailed);
    }
    remove_subtree(dst, dp);
    add_parent_dirs(dst, dp);
    let ghost m3 = dst@;
    proof {
        assert(map_of(srcs.take(0)) =~= Map::<PathV, NodeV>::empty());
        assert(rebased(map_of(srcs.take(0)), spd, dpd) =~= Map::<PathV, NodeV>::empty());
        assert(m3.union_prefer_right(rebased(map_of(srcs.take(0)), spd, dpd)) =~= m3);
    }
    let mut t: usize = 0;
    while t < src.entries.len()
        invariant
            t <= src.entries.len(),
            dst.wf(),
            dst@ == m3.union_prefer_right(rebased(map_of(srcs.take(t as int)), spd, dpd)),
        decreases src.entries.len() - t,
    {
        let ghost prevm = dst@;
        let ghost q = srcs[t as int]@.0;
        let entry = &src.entries[t];
        proof {
            lemma_map_of_take_push(srcs, t as int);
        }
        if path_is_prefix(sp, &entry.path) {
            let np = path_rebase(dp, &entry.path, sp.len());
            let node = copy_node(&entry.node);
            let ghost nk = dpd + q.skip(spd.len() as int);
            proof {
                lemma_rebased_insert(map_of(srcs.take(t as int)), spd, dpd, q, srcs[t as int]@.1);
                lemma_prefix_extend(dpd, q.skip(spd.len() as int));
                // the new key is fresh: m3 holds nothing under dp, and the
                // rebased keys so far come from other source entries
                lemma_with_parents_not_under(m0, dpd, nk);
                if rebased(map_of(srcs.take(t as int)), spd, dpd).contains_key(nk) {
                    assert(map_of(srcs.take(t as int)).contains_key(spd + nk.skip(
                        dpd.len() as int,
                    )));
                    lemma_prefix_split(spd, q);
                    assert(spd + nk.skip(dpd.len() as int) == q);
                    lemma_map_of_take_push(srcs, t as int);
                }
                assert(!dst@.contains_key(nk));
                lemma_map_of_push(dst.entries@, FsEntry { path: np, node: node });
            }
            dst.entries.push(FsEntry { path: np, node });
            proof {
                assert(dst@ =~= m3.union_prefer_right(rebased(map_of(srcs.take(t as int + 1)),
                    spd, dpd)));
            }
        } else {
            proof {
                lemma_rebased_insert(map_of(srcs.take(t as int)), spd, dpd, q, srcs[t as int]@.1);
                assert(dst@ =~= m3.union_prefer_right(rebased(map_of(srcs.take(t as int + 1)),
                    spd, dpd)));
            }
        }
        t = t + 1;
    }
    proof {
        assert(srcs.take(srcs.len() as int) =~= srcs);
    }
    Ok(())
}


/// No key lies strictly below `q`.
pub open spec fn no_strict_descendant(m: Map<PathV, NodeV>, q: PathV) -> bool {
    forall|k: PathV| #![trigger m.contains_key(k)]
        m.contains_key(k) ==> !(is_prefix_of(q, k) && k.len() > q.len())
}

/// Does any entry lie strictly below `q`?
pub fn has_strict_descendant(fs: &Fs, q: &Vec<String>) -> (r: bool)
    requires
        fs.wf(),
    ensures
        r == !no_strict_descendant(fs@, q.deep_view()),
{
    let ghost qd = q.deep_view();
    let mut i: usize = 0;
    while i < fs.entries.len()
        invariant
            i <= fs.entries.len(),
            forall|j: int|
                0 <= j < i ==> !(is_prefix_of(qd, (#[trigger] fs.entries@[j])@.0)
                    && fs.entries@[j]@.0.len() > qd.len()),
        decreases fs.entries.len() - i,
    {
        let e = &fs.entries[i];
        if path_is_prefix(q, &e.path) && e.path.len() > q.len() {
            proof {
                lemma_map_of_index(fs.entries@, i as int);
                assert(e.path.deep_view().len() == e.path@.len());
                assert(qd.len() == q@.len());
            }
            return true;
        }
        proof {
            assert(e.path.deep_view().len() == e.path@.len());
            assert(qd.len() == q@.len());
        }
        i = i + 1;
    }
    proof {
        assert forall|k: PathV| fs@.contains_key(k) implies !(is_prefix_of(qd, k) && k.len()
            > qd.len()) by {
            let j = choose|j: int| 0 <= j < fs.entries@.len() && (#[trigger] fs.entries@[j])@.0
                == k;
        }
    }
    false
}

/// The map after the empty parent directories of `p`, from the deepest one
/// up, are removed. The walk stops at the first parent that is absent, not a
/// directory, or not empty; the area root itself is never removed.
pub open spec fn prune_from(m: Map<PathV, NodeV>, p: PathV, n: int) -> Map<PathV, NodeV>
    decreases n,
{
    if n < 1 {
        m
    } else {
        let q = p.take(n);
        if m.contains_key(q) && m[q] is Dir && no_strict_descendant(m, q) {
            prune_from(m.remove(q), p, n - 1)
        } else {
            m
        }
    }
}

/// Removes the parent directories of `p` that are now empty, from the
/// deepest up, stopping at the first that is absent, not a directory, or
/// still occupied. The area root is never removed.
#[verifier::loop_isolation(true)]
pub fn prune_empty_parents(fs: &mut Fs, p: &Vec<String>)
    requires
        old(fs).wf(),
    ensures
        final(fs).wf(),
        final(fs)@ == prune_from(old(fs)@, p.deep_view(), p.deep_view().len() - 1),
{
    let ghost m0 = fs@;
    let ghost pd = p.deep_view();
    proof {
        assert(pd.len() == p@.len());
    }
    if p.len() == 0 {
        return ;
    }
    let mut n: usize = p.len() - 1;
    loop
        invariant_except_break
            pd == p.deep_view(),
            pd.len() == p@.len(),
            n <= pd.len() - 1,
            fs.wf(),
            prune_from(m0, pd, pd.len() - 1) == prune_from(fs@, pd, n as int),
        ensures
            fs.wf(),
            fs@ == prune_from(m0, pd, pd.len() - 1),
        decreases n,
    {
        if n == 0 {
            break ;
        }
        let q = path_take(p, n);
        let ghost qd = pd.take(n as int);
        match crate::fs::find_path(fs, &q) {
            Some(i) => {
                let is_dir = match &fs.entries[i].node {
                    FsNode::Dir => true,
                    _ => false,
                };
                if is_dir && !has_strict_descendant(fs, &q) {
                    let ghost prevm = fs@;
                    let ghost preve = fs.entries@;
                    proof {
                        assert(preve[i as int]@.0 == qd);
                        lemma_map_of_remove(preve, i as int);
                    }
                    fs.entries.remove(i);
                    n = n - 1;
                    proof {
                        assert(fs.entries@ == preve.remove(i as int));
                        assert(fs@ == prevm.remove(qd));
                        assert(prune_from(prevm, pd, n as int + 1) == prune_from(
                            prevm.remove(qd),
                            pd,
                            n as int,
                        ));
                    }
                } else {
                    proof {
                        assert(prune_from(fs@, pd, n as int) == fs@);
                    }
                    break ;
                }
            },
            None => {
                proof {
                    assert(prune_from(fs@, pd, n as int) == fs@);
                }
                break ;
            },
        }
    }
}

/// The same nodes stand at and below `pa` in `ma` as at and below `pb` in
/// `mb`: the same relative paths exist on both sides and carry equal nodes.
pub open spec fn subtree_eq(
    ma: Map<PathV, NodeV>,
    pa: PathV,
    mb: Map<PathV, NodeV>,
    pb: PathV,
) -> bool {
    &&& forall|suf: PathV| #![trigger pa + suf]
        ma.contains_key(pa + suf) == mb.contains_key(pb + suf)
    &&& forall|suf: PathV| #![trigger pa + suf]
        ma.contains_key(pa + suf) ==> ma[pa + suf] == mb[pb + suf]
}

/// Compares the subtrees at `pa` in `a` and `pb` in `b`: same relative
/// paths, equal nodes. Files compare by bytes, links by their literal
/// targets.
pub fn subtree_eq_check(a: &Fs, pa: &Vec<String>, b: &Fs, pb: &Vec<String>) -> (r: bool)
    requires
        a.wf(),
        b.wf(),
    ensures
        r == subtree_eq(a@, pa.deep_view(), b@, pb.deep_view()),
{
    let ghost pad = pa.deep_view();
    let ghost pbd = pb.deep_view();
    let mut i: usize = 0;
    while i < a.entries.len()
        invariant
            i <= a.entries.len(),
            forall|j: int|
                0 <= j < i && is_prefix_of(pad, (#[trigger] a.entries@[j])@.0) ==> {
                    let k = pbd + a.entries@[j]@.0.skip(pad.len() as int);
                    b@.contains_key(k) && b@[k] == a.entries@[j]@.1
                },
        decreases a.entries.len() - i,
    {
        let e = &a.entries[i];
        if path_is_prefix(pa, &e.path) {
            let np = path_rebase(pb, &e.path, pa.len());
            proof {
                lemma_map_of_index(a.entries@, i as int);
                lemma_prefix_split(pad, e.path.deep_view());
            }
            match crate::fs::find_path(b, &np) {
                Some(bi) => {
                    if !crate::fs::node_eq(&a.entries[i].node, &b.entries[bi].node) {
                        proof {
                            let suf = e.path.deep_view().skip(pad.len() as int);
                            assert(pad + suf == e.path.deep_view());
                            assert(a@[pad + suf] != b@[pbd + suf]);
                        }
                        return false;
                    }
                },
                None => {
                    proof {
                        let suf = e.path.deep_view().skip(pad.len() as int);
                        assert(pad + suf == e.path.deep_view());
                        assert(a@.contains_key(pad + suf) && !b@.contains_key(pbd + suf));
                    }
                    return false;
                },
            }
        }
        i = i + 1;
    }
    let mut j: usize = 0;
    while j < b.entries.len()
        invariant
            j <= b.entries.len(),
            forall|t: int|
                0 <= t < a.entries@.len() && is_prefix_of(pad, (#[trigger] a.entries@[t])@.0)
                    ==> {
                    let k = pbd + a.entries@[t]@.0.skip(pad.len() as int);
                    b@.contains_key(k) && b@[k] == a.entries@[t]@.1
                },
            forall|t: int|
                0 <= t < j && is_prefix_of(pbd, (#[trigger] b.entries@[t])@.0)
                    ==> a@.contains_key(pad + b.entries@[t]@.0.skip(pbd.len() as int)),
        decreases b.entries.len() - j,
    {
        let e = &b.entries[j];
        if path_is_prefix(pb, &e.path) {
            let np = path_rebase(pa, &e.path, pb.len());
            match crate::fs::find_path(a, &np) {
                Some(_) => {},
                None => {
                    proof {
                        lemma_map_of_index(b.entries@, j as int);
                        lemma_prefix_split(pbd, e.path.deep_view());
                        let suf = e.path.deep_view().skip(pbd.len() as int);
                        assert(pbd + suf == e.path.deep_view());
                        assert(b@.contains_key(pbd + suf) && !a@.contains_key(pad + suf));
                    }
                    return false;
                },
            }
        }
        j = j + 1;
    }
    proof {
        assert forall|suf: PathV| #[trigger]
            a@.contains_key(pa.deep_view() + suf) == b@.contains_key(pb.deep_view() + suf) by {
            if a@.contains_key(pad + suf) {
                let t = choose|t: int|
                    0 <= t < a.entries@.len() && (#[trigger] a.entries@[t])@.0 == pad + suf;
                lemma_prefix_extend(pad, suf);
                assert(is_prefix_of(pad, a.entries@[t]@.0));
                assert(pbd + a.entries@[t]@.0.skip(pad.len() as int) == pbd + suf);
            }
            if b@.contains_key(pbd + suf) {
                let t = choose|t: int|
                    0 <= t < b.entries@.len() && (#[trigger] b.entries@[t])@.0 == pbd + suf;
                lemma_prefix_extend(pbd, suf);
                assert(is_prefix_of(pbd, b.entries@[t]@.0));
                assert(pad + b.entries@[t]@.0.skip(pbd.len() as int) == pad + suf);
            }
        }
        assert forall|suf: PathV|
            a@.contains_key(pa.deep_view() + suf) implies #[trigger] a@[pa.deep_view() + suf]
            == b@[pb.deep_view() + suf] by {
            let t = choose|t: int|
                0 <= t < a.entries@.len() && (#[trigger] a.entries@[t])@.0 == pad + suf;
            lemma_map_of_index(a.entries@, t);
            lemma_prefix_extend(pad, suf);
            assert(is_prefix_of(pad, a.entries@[t]@.0));
            assert(pbd + a.entries@[t]@.0.skip(pad.len() as int) == pbd + suf);
        }
    }
    true
}

} // verus!
