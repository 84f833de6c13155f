//! A value model of one directory tree.
//!
//! An [`Fs`] stands for the contents of one directory on disk: the store
//! directory, or one worktree. Each entry names a path, as a sequence of
//! components relative to the area's root, and what stands there: a regular
//! file with its bytes, a directory, or a symbolic link with its literal
//! target string. The mathematical value of an [`Fs`] is a finite map from
//! paths to nodes.
//!
//! The engine's operations read and rewrite such values; the unverified shell
//! reads real directories into them and writes them back.

use vstd::prelude::*;

verus! {

/// A path relative to an area root, as component sequences.
pub type PathV = Seq<Seq<char>>;

/// What stands at one path.
#[derive(Debug)]
pub enum FsNode {
    /// A regular file and its contents.
    File { bytes: Vec<u8> },
    /// A directory. Its children are the entries whose paths extend its own.
    Dir,
    /// A symbolic link and its literal, unresolved target.
    Link { target: String },
}

/// The mathematical value of a node.
pub enum NodeV {
    File { bytes: Seq<u8> },
    Dir,
    Link { target: Seq<char> },
}

impl View for FsNode {
    type V = NodeV;

    open spec fn view(&self) -> NodeV {
        match self {
            FsNode::File { bytes } => NodeV::File { bytes: bytes@ },
            FsNode::Dir => NodeV::Dir,
            FsNode::Link { target } => NodeV::Link { target: target@ },
        }
    }
}

/// One path of an area and the node standing there.
#[derive(Debug)]
pub struct FsEntry {
    pub path: Vec<String>,
    pub node: FsNode,
}

impl View for FsEntry {
    type V = (PathV, NodeV);

    open spec fn view(&self) -> (PathV, NodeV) {
        (self.path.deep_view(), self.node@)
    }
}

/// The contents of one directory tree.
#[derive(Debug)]
pub struct Fs {
    pub entries: Vec<FsEntry>,
}

/// The map a sequence of entries stands for.
pub open spec fn map_of(s: Seq<FsEntry>) -> Map<PathV, NodeV> {
    Map::new(
        |p: PathV| exists|i: int| 0 <= i < s.len() && (#[trigger] s[i])@.0 == p,
        |p: PathV| s[choose|i: int| 0 <= i < s.len() && (#[trigger] s[i])@.0 == p]@.1,
    )
}

/// Entries are well-formed when no two name the same path and no path is
/// empty (the area root itself is not an entry).
pub open spec fn entries_wf(s: Seq<FsEntry>) -> bool {
    &&& forall|i: int, j: int|
        0 <= i < j < s.len() ==> (#[trigger] s[i])@.0 != (#[trigger] s[j])@.0
    &&& forall|i: int| 0 <= i < s.len() ==> (#[trigger] s[i])@.0.len() >= 1
}

impl View for Fs {
    type V = Map<PathV, NodeV>;

    open spec fn view(&self) -> Map<PathV, NodeV> {
        map_of(self.entries@)
    }
}

impl Fs {
    pub open spec fn wf(self) -> bool {
        entries_wf(self.entries@)
    }

    /// An empty area.
    pub fn new() -> (r: Fs)
        ensures
            r.wf(),
            r@ == Map::<PathV, NodeV>::empty(),
    {
        let r = Fs { entries: Vec::new() };
        proof {
            assert(r@ =~= Map::<PathV, NodeV>::empty());
        }
        r
    }
}

/// Each entry of a well-formed sequence is what the map holds at its path.
pub proof fn lemma_map_of_index(s: Seq<FsEntry>, i: int)
    requires
        entries_wf(s),
        0 <= i < s.len(),
    ensures
        map_of(s).contains_key(s[i]@.0),
        map_of(s)[s[i]@.0] == s[i]@.1,
{
    let p = s[i]@.0;
    assert(map_of(s).contains_key(p));
    let k = choose|k: int| 0 <= k < s.len() && (#[trigger] s[k])@.0 == p;
    if k != i {
        if k < i {
            assert(s[k]@.0 != s[i]@.0);
        } else {
            assert(s[i]@.0 != s[k]@.0);
        }
    }
}

/// `p` leads to `k`: `k` is `p` itself or lies below it.
pub open spec fn is_prefix_of(p: PathV, k: PathV) -> bool {
    p.len() <= k.len() && k.subrange(0, p.len() as int) == p
}

/// Keys at or below `p`.
pub open spec fn under_set(p: PathV) -> Set<PathV> {
    Set::new(|k: PathV| is_prefix_of(p, k))
}

/// A path is a prefix of its own extensions, and the extension is recovered
/// by dropping the prefix.
pub proof fn lemma_prefix_extend(p: PathV, suf: PathV)
    ensures
        is_prefix_of(p, p + suf),
        (p + suf).skip(p.len() as int) == suf,
{
    assert((p + suf).subrange(0, p.len() as int) =~= p);
    assert((p + suf).skip(p.len() as int) =~= suf);
}

/// A key below `p` is `p` plus its own remainder.
pub proof fn lemma_prefix_split(p: PathV, k: PathV)
    requires
        is_prefix_of(p, k),
    ensures
        k == p + k.skip(p.len() as int),
{
    assert(k =~= p + k.skip(p.len() as int));
}

/// Compares two paths.
pub fn path_eq(a: &Vec<String>, b: &Vec<String>) -> (r: bool)
    ensures
        r == (a.deep_view() == b.deep_view()),
{
    proof {
        assert(a.deep_view().len() == a@.len());
        assert(b.deep_view().len() == b@.len());
    }
    if a.len() != b.len() {
        return false;
    }
    let mut i: usize = 0;
    while i < a.len()
        invariant
            i <= a.len(),
            a.len() == b.len(),
            forall|j: int| 0 <= j < i ==> a.deep_view()[j] == b.deep_view()[j],
        decreases a.len() - i,
    {
        if !(a[i] == b[i]) {
            proof {
                assert(a.deep_view()[i as int] == a@[i as int]@);
                assert(b.deep_view()[i as int] == b@[i as int]@);
            }
            return false;
        }
        i = i + 1;
    }
    proof {
        assert(a.deep_view() =~= b.deep_view());
    }
    true
}

/// Does `p` lead to `k`?
pub fn path_is_prefix(p: &Vec<String>, k: &Vec<String>) -> (r: bool)
    ensures
        r == is_prefix_of(p.deep_view(), k.deep_view()),
{
    proof {
        assert(p.deep_view().len() == p@.len());
        assert(k.deep_view().len() == k@.len());
    }
    if p.len() > k.len() {
        return false;
    }
    let mut i: usize = 0;
    while i < p.len()
        invariant
            i <= p.len() <= k.len(),
            forall|j: int| 0 <= j < i ==> p.deep_view()[j] == k.deep_view()[j],
        decreases p.len() - i,
    {
        if !(p[i] == k[i]) {
            proof {
                assert(p.deep_view()[i as int] == p@[i as int]@);
                assert(k.deep_view()[i as int] == k@[i as int]@);
                assert(k.deep_view().subrange(0, p.len() as int)[i as int] == k.deep_view()[
                    i as int
                ]);
            }
            return false;
        }
        i = i + 1;
    }
    proof {
        assert(k.deep_view().subrange(0, p.len() as int) =~= p.deep_view());
    }
    true
}

/// The first `n` components of `p`, as an owned path.
pub fn path_take(p: &Vec<String>, n: usize) -> (r: Vec<String>)
    requires
        n <= p.len(),
    ensures
        r.deep_view() == p.deep_view().take(n as int),
{
    let mut out: Vec<String> = Vec::new();
    let mut i: usize = 0;
    while i < n
        invariant
            i <= n <= p.len(),
            out.deep_view() == p.deep_view().take(i as int),
        decreases n - i,
    {
        let ghost prev = out.deep_view();
        out.push(p[i].clone());
        i = i + 1;
        proof {
            assert(out.deep_view() =~= prev.push(p.deep_view()[i - 1]));
            assert(prev.push(p.deep_view()[i - 1]) =~= p.deep_view().take(i as int));
        }
    }
    out
}

/// `base` followed by the components of `k` from position `from` on.
pub fn path_rebase(base: &Vec<String>, k: &Vec<String>, from: usize) -> (r: Vec<String>)
    requires
        from <= k.len(),
    ensures
        r.deep_view() == base.deep_view() + k.deep_view().skip(from as int),
{
    let mut out: Vec<String> = Vec::new();
    let mut i: usize = 0;
    while i < base.len()
        invariant
            i <= base.len(),
            out.deep_view() == base.deep_view().take(i as int),
        decreases base.len() - i,
    {
        let ghost prev = out.deep_view();
        out.push(base[i].clone());
        i = i + 1;
        proof {
            assert(out.deep_view() =~= prev.push(base.deep_view()[i - 1]));
            assert(prev.push(base.deep_view()[i - 1]) =~= base.deep_view().take(i as int));
        }
    }
    proof {
        assert(base.deep_view().take(base.len() as int) =~= base.deep_view());
    }
    let mut j: usize = from;
    while j < k.len()
        invariant
            from <= j <= k.len(),
            out.deep_view() == base.deep_view() + k.deep_view().subrange(from as int, j as int),
        decreases k.len() - j,
    {
        let ghost prev = out.deep_view();
        out.push(k[j].clone());
        j = j + 1;
        proof {
            assert(out.deep_view() =~= prev.push(k.deep_view()[j - 1]));
            assert(prev.push(k.deep_view()[j - 1]) =~= base.deep_view() + k.deep_view().subrange(
                from as int,
                j as int,
            ));
        }
    }
    proof {
        assert(k.deep_view().subrange(from as int, k.len() as int) =~= k.deep_view().skip(
            from as int,
        ));
    }
    out
}

/// Index of the entry at `p`, if any.
pub fn find_path(fs: &Fs, p: &Vec<String>) -> (r: Option<usize>)
    requires
        fs.wf(),
    ensures
        match r {
            Some(i) => i < fs.entries.len() && fs.entries@[i as int]@.0 == p.deep_view()
                && fs@.contains_key(p.deep_view()) && fs@[p.deep_view()] == fs.entries@[
                i as int
            ]@.1,
            None => !fs@.contains_key(p.deep_view()),
        },
{
    let mut i: usize = 0;
    while i < fs.entries.len()
        invariant
            i <= fs.entries.len(),
            forall|j: int| 0 <= j < i ==> (#[trigger] fs.entries@[j])@.0 != p.deep_view(),
        decreases fs.entries.len() - i,
    {
        if path_eq(&fs.entries[i].path, p) {
            proof {
                lemma_map_of_index(fs.entries@, i as int);
            }
            return Some(i);
        }
        i = i + 1;
    }
    None
}

/// The node at `p`, if any.
pub fn lookup<'a>(fs: &'a Fs, p: &Vec<String>) -> (r: Option<&'a FsNode>)
    requires
        fs.wf(),
    ensures
        match r {
            Some(n) => fs@.contains_key(p.deep_view()) && n@ == fs@[p.deep_view()],
            None => !fs@.contains_key(p.deep_view()),
        },
{
    match find_path(fs, p) {
        Some(i) => Some(&fs.entries[i].node),
        None => None,
    }
}

/// An exact copy of a byte vector.
pub fn copy_bytes(v: &Vec<u8>) -> (r: Vec<u8>)
    ensures
        r@ == v@,
{
    let mut out: Vec<u8> = Vec::new();
    let mut i: usize = 0;
    while i < v.len()
        invariant
            i <= v.len(),
            out@ == v@.take(i as int),
        decreases v.len() - i,
    {
        out.push(v[i]);
        i = i + 1;
        proof {
            assert(out@ =~= v@.take(i as int));
        }
    }
    proof {
        assert(v@.take(v.len() as int) =~= v@);
    }
    out
}

/// An exact copy of a node.
pub fn copy_node(n: &FsNode) -> (r: FsNode)
    ensures
        r@ == n@,
{
    match n {
        FsNode::File { bytes } => FsNode::File { bytes: copy_bytes(bytes) },
        FsNode::Dir => FsNode::Dir,
        FsNode::Link { target } => FsNode::Link { target: target.clone() },
    }
}

/// Do the same nodes stand at `x` and `y`? Files compare by bytes, links by
/// their literal targets.
pub fn node_eq(x: &FsNode, y: &FsNode) -> (r: bool)
    ensures
        r == (x@ == y@),
{
    match (x, y) {
        (FsNode::File { bytes: a }, FsNode::File { bytes: b }) => {
            if a.len() != b.len() {
                return false;
            }
            let mut i: usize = 0;
            while i < a.len()
                invariant
                    i <= a.len(),
                    a@.len() == b@.len(),
                    forall|j: int| 0 <= j < i ==> a@[j] == b@[j],
                decreases a.len() - i,
            {
                if a[i] != b[i] {
                    return false;
                }
                i = i + 1;
            }
            proof {
                assert(a@ =~= b@);
            }
            true
        },
        (FsNode::Dir, FsNode::Dir) => true,
        (FsNode::Link { target: a }, FsNode::Link { target: b }) => *a == *b,
        _ => false,
    }
}

} // verus!
