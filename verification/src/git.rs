//! The repository-root resolver: from what the version-control collaborator
//! answered, decide the canonical repository root, independent of whether the
//! repository is laid out as a bare metadata directory with attached
//! worktrees or as a conventional single clone.

use vstd::prelude::*;
use vstd::string::*;

use crate::context::{WorktreeItemV, WorktreeListItem};
use crate::error::StoreError;

verus! {

/// Index of the last occurrence of `c` in `s`, if any.
pub open spec fn last_index_of(s: Seq<char>, c: char) -> Option<int>
    decreases s.len(),
{
    if s.len() == 0 {
        None
    } else if s[s.len() - 1] == c {
        Some(s.len() - 1)
    } else {
        last_index_of(s.drop_last(), c)
    }
}

/// The part of a path after its last slash: its file name.
pub open spec fn basename_spec(s: Seq<char>) -> Seq<char> {
    match last_index_of(s, '/') {
        Some(i) => s.skip(i + 1),
        None => s,
    }
}

/// The part of a path before its last slash: its parent directory.
pub open spec fn parent_spec(s: Seq<char>) -> Seq<char> {
    match last_index_of(s, '/') {
        Some(i) => s.take(i),
        None => Seq::empty(),
    }
}

/// What `last_index_of` returns: the last occurrence, or nothing when `c`
/// does not occur at all.
proof fn lemma_last_index_of(s: Seq<char>, c: char)
    ensures
        match last_index_of(s, c) {
            Some(i) => 0 <= i < s.len() && s[i] == c && forall|j: int| i < j < s.len() ==> s[j]
                != c,
            None => forall|j: int| 0 <= j < s.len() ==> s[j] != c,
        },
    decreases s.len(),
{
    if s.len() != 0 && s[s.len() - 1] != c {
        lemma_last_index_of(s.drop_last(), c);
        match last_index_of(s.drop_last(), c) {
            Some(i) => {
                assert(s.drop_last()[i] == s[i]);
                assert forall|j: int| i < j < s.len() implies s[j] != c by {
                    if j < s.len() - 1 {
                        assert(s.drop_last()[j] == s[j]);
                    }
                }
            },
            None => {
                assert forall|j: int| 0 <= j < s.len() implies s[j] != c by {
                    if j < s.len() - 1 {
                        assert(s.drop_last()[j] == s[j]);
                    }
                }
            },
        }
    }
}

/// Splits a path string at its last slash: the parent and the file name.
pub fn split_last_slash(s: &str) -> (r: (String, String))
    ensures
        r.0@ == parent_spec(s@),
        r.1@ == basename_spec(s@),
{
    let n = s.unicode_len();
    let mut i: usize = n;
    while i > 0
        invariant
            i <= n,
            n == s@.len(),
            forall|j: int| i <= j < s@.len() ==> s@[j] != '/',
        decreases i,
    {
        if s.get_char(i - 1) == '/' {
            proof {
                lemma_last_index_of(s@, '/');
                match last_index_of(s@, '/') {
                    Some(k) => {
                        if k < i - 1 {
                            assert(s@[i - 1] != '/');
                        }
                        if k > i - 1 {
                            assert(s@[k] != '/');
                        }
                    },
                    None => {
                        assert(s@[i - 1] != '/');
                    },
                }
            }
            let parent = s.substring_char(0, i - 1).to_owned();
            let base = s.substring_char(i, n).to_owned();
            proof {
                assert(parent@ =~= s@.take(i - 1));
                assert(base@ =~= s@.skip(i as int));
            }
            return (parent, base);
        }
        i = i - 1;
    }
    proof {
        lemma_last_index_of(s@, '/');
        if last_index_of(s@, '/') is Some {
            let k = last_index_of(s@, '/')->Some_0;
            assert(s@[k] != '/');
        }
    }
    (String::new(), s.to_owned())
}

/// The bare-marker directory found directly in the working directory, when
/// it is a directory whose head-ref file is present.
pub fn find_bare_dir(bare_is_dir: bool, head_is_file: bool) -> (r: Option<String>)
    ensures
        (r is Some) == (bare_is_dir && head_is_file),
        r is Some ==> r->Some_0@ == ".bare"@,
{
    if bare_is_dir && head_is_file {
        Some(String::from_str(".bare"))
    } else {
        None
    }
}

/// Resolves the canonical repository root. First success wins:
/// the common metadata directory's canonical basename is the bare marker —
/// the root is its parent; it is the conventional per-worktree metadata name
/// — the root is its parent; the worktree's canonical top level answers;
/// the working directory itself holds a valid bare marker. All four failing
/// is a terminal `NotARepo`, never a silent default.
pub fn resolve_repo_root(
    common_dir: Option<&String>,
    toplevel: Option<&String>,
    cwd_has_valid_bare: bool,
    cwd: &String,
) -> (r: Result<String, StoreError>)
    ensures
        r is Err ==> r == Err::<String, StoreError>(StoreError::NotARepo),
        r is Ok ==> r->Ok_0@ == ({
            match common_dir {
                Some(c) => if basename_spec(c@) == ".bare"@ || basename_spec(c@) == ".git"@ {
                    parent_spec(c@)
                } else {
                    match toplevel {
                        Some(t) => t@,
                        None => cwd@,
                    }
                },
                None => match toplevel {
                    Some(t) => t@,
                    None => cwd@,
                },
            }
        }),
        (r is Err) == ({
            &&& match common_dir {
                Some(c) => basename_spec(c@) != ".bare"@ && basename_spec(c@) != ".git"@,
                None => true,
            }
            &&& toplevel is None
            &&& !cwd_has_valid_bare
        }),
{
    match common_dir {
        Some(c) => {
            let (parent, base) = split_last_slash(c.as_str());
            if base == String::from_str(".bare") || base == String::from_str(".git") {
                return Ok(parent);
            }
        },
        None => {},
    }
    match toplevel {
        Some(t) => {
            return Ok(t.clone());
        },
        None => {},
    }
    if cwd_has_valid_bare {
        return Ok(cwd.clone());
    }
    Err(StoreError::NotARepo)
}


/// The remaining tokens of a listing line joined back with single spaces.
pub open spec fn join_spaced(ps: Seq<Seq<char>>) -> Seq<char>
    decreases ps.len(),
{
    if ps.len() == 0 {
        Seq::empty()
    } else if ps.len() == 1 {
        ps[0]
    } else {
        ps[0] + seq![' '] + join_spaced(ps.skip(1))
    }
}

/// `s` with every leading `c` removed.
pub open spec fn drop_leading(s: Seq<char>, c: char) -> Seq<char>
    decreases s.len(),
{
    if s.len() > 0 && s[0] == c {
        drop_leading(s.skip(1), c)
    } else {
        s
    }
}

/// `s` with every trailing `c` removed.
pub open spec fn drop_trailing(s: Seq<char>, c: char) -> Seq<char>
    decreases s.len(),
{
    if s.len() > 0 && s.last() == c {
        drop_trailing(s.drop_last(), c)
    } else {
        s
    }
}

/// What one line of the collaborator's worktree listing denotes. A line is
/// whitespace-separated: the worktree's absolute path, then either the bare
/// placeholder or a hash and a bracketed branch; short lines denote nothing.
pub open spec fn worktree_line_spec(line: Seq<char>) -> Option<WorktreeItemV> {
    let tokens = crate::strutil::nonempty_pieces(crate::strutil::split_chars(line, ' '));
    if tokens.len() < 2 {
        None
    } else if tokens[1] == "(bare)"@ {
        Some(
            WorktreeItemV {
                path: tokens[0],
                hash: Seq::empty(),
                branch: Seq::empty(),
                is_bare: true,
            },
        )
    } else if tokens.len() < 3 {
        None
    } else {
        Some(
            WorktreeItemV {
                path: tokens[0],
                hash: tokens[1],
                branch: drop_trailing(drop_leading(join_spaced(tokens.skip(2)), '['), ']'),
                is_bare: false,
            },
        )
    }
}

/// Parses one line of the worktree listing.
pub fn parse_worktree_line(line: &str) -> (r: Option<WorktreeListItem>)
    ensures
        match r {
            Some(item) => worktree_line_spec(line@) == Some(item@),
            None => worktree_line_spec(line@) is None,
        },
{
    let tokens = crate::strutil::split_str_nonempty(line, ' ');
    let ghost tv = tokens.deep_view();
    if tokens.len() < 2 {
        return None;
    }
    proof {
        assert(tv[0] == tokens@[0]@);
        assert(tv[1] == tokens@[1]@);
    }
    if tokens[1] == String::from_str("(bare)") {
        return Some(
            WorktreeListItem {
                path: tokens[0].clone(),
                hash: String::new(),
                branch: String::new(),
                is_bare: true,
            },
        );
    }
    if tokens.len() < 3 {
        return None;
    }
    let mut joined = String::new();
    let mut i: usize = 2;
    proof {
        assert(tv.skip(2) =~= tv.skip(2));
        assert(Seq::<char>::empty() + join_spaced(tv.skip(2)) =~= join_spaced(tv.skip(2)));
    }
    while i < tokens.len()
        invariant
            2 <= i <= tokens.len(),
            tokens.len() >= 3,
            tv == tokens.deep_view(),
            i < tokens.len() ==> join_spaced(tv.skip(2)) == joined@ + join_spaced(
                tv.skip(i as int),
            ),
            i == tokens.len() ==> join_spaced(tv.skip(2)) == joined@,
        decreases tokens.len() - i,
    {
        let ghost prev = joined@;
        proof {
            assert(tv.skip(i as int)[0] == tv[i as int]);
            assert(tv.skip(i as int).skip(1) =~= tv.skip(i as int + 1));
        }
        joined.append(tokens[i].as_str());
        if i + 1 < tokens.len() {
            joined.append(" ");
            proof {
                reveal_strlit(" ");
                assert(joined@ =~= prev + (tv[i as int] + seq![' ']));
                assert(prev + (tv[i as int] + seq![' ']) + join_spaced(tv.skip(i as int + 1))
                    =~= prev + (tv[i as int] + seq![' '] + join_spaced(tv.skip(i as int + 1))));
            }
        } else {
            proof {
                assert(tv.skip(i as int).len() == 1);
            }
        }
        i = i + 1;
    }
    let n = joined.unicode_len();
    let mut start: usize = 0;
    proof {
        assert(joined@.skip(0) =~= joined@);
    }
    while start < n && joined.as_str().get_char(start) == '['
        invariant
            start <= n,
            n == joined@.len(),
            drop_leading(joined@, '[') == drop_leading(joined@.skip(start as int), '['),
        decreases n - start,
    {
        proof {
            assert(joined@.skip(start as int)[0] == joined@[start as int]);
            assert(joined@.skip(start as int).skip(1) =~= joined@.skip(start as int + 1));
        }
        start = start + 1;
    }
    let ghost led = joined@.skip(start as int);
    proof {
        assert(drop_leading(led, '[') == led);
        assert(led =~= joined@.subrange(start as int, n as int));
    }
    let mut end: usize = n;
    while end > start && joined.as_str().get_char(end - 1) == ']'
        invariant
            start <= end <= n,
            n == joined@.len(),
            drop_trailing(led, ']') == drop_trailing(
                joined@.subrange(start as int, end as int),
                ']',
            ),
        decreases end,
    {
        proof {
            let cur = joined@.subrange(start as int, end as int);
            assert(cur.last() == joined@[end - 1]);
            assert(cur.drop_last() =~= joined@.subrange(start as int, end as int - 1));
        }
        end = end - 1;
    }
    let ghost cur = joined@.subrange(start as int, end as int);
    proof {
        if cur.len() > 0 {
            assert(cur.last() == joined@[end - 1]);
        }
        assert(drop_trailing(cur, ']') == cur);
        assert(led =~= joined@.subrange(start as int, n as int));
    }
    let branch = joined.as_str().substring_char(start, end).to_owned();
    Some(
        WorktreeListItem {
            path: tokens[0].clone(),
            hash: tokens[1].clone(),
            branch,
            is_bare: false,
        },
    )
}

/// The items of a whole listing, short lines dropped.
pub open spec fn worktree_items_of_lines(lines: Seq<Seq<char>>) -> Seq<WorktreeItemV>
    decreases lines.len(),
{
    if lines.len() == 0 {
        Seq::empty()
    } else {
        match worktree_line_spec(lines[0]) {
            Some(item) => seq![item] + worktree_items_of_lines(lines.skip(1)),
            None => worktree_items_of_lines(lines.skip(1)),
        }
    }
}

pub open spec fn worktree_list_spec(text: Seq<char>) -> Seq<WorktreeItemV> {
    worktree_items_of_lines(crate::strutil::split_chars(text, '\n'))
}

/// Parses the collaborator's whole worktree listing.
pub fn parse_worktree_list(output: &str) -> (r: Vec<WorktreeListItem>)
    ensures
        r.deep_view() == worktree_list_spec(output@),
{
    let lines = crate::strutil::split_str(output, '\n');
    let mut out: Vec<WorktreeListItem> = Vec::new();
    let mut i: usize = 0;
    proof {
        assert(lines.deep_view().skip(0) =~= lines.deep_view());
        assert(out.deep_view() =~= Seq::<WorktreeItemV>::empty());
        assert(Seq::<WorktreeItemV>::empty() + worktree_list_spec(output@) =~= worktree_list_spec(
            output@,
        ));
    }
    while i < lines.len()
        invariant
            i <= lines.len(),
            lines.deep_view() == crate::strutil::split_chars(output@, '\n'),
            worktree_list_spec(output@) == out.deep_view() + worktree_items_of_lines(
                lines.deep_view().skip(i as int),
            ),
        decreases lines.len() - i,
    {
        let ghost lv = lines.deep_view()[i as int];
        let ghost prev = out.deep_view();
        proof {
            assert(lines.deep_view().skip(i as int)[0] == lv);
            assert(lines.deep_view().skip(i as int).skip(1) =~= lines.deep_view().skip(
                i as int + 1,
            ));
        }
        match parse_worktree_line(lines[i].as_str()) {
            Some(item) => {
                let ghost iv = item@;
                out.push(item);
                proof {
                    assert(out.deep_view() =~= prev.push(iv));
                    assert(prev.push(iv) + worktree_items_of_lines(lines.deep_view().skip(
                        i as int + 1,
                    )) =~= prev + (seq![iv] + worktree_items_of_lines(lines.deep_view().skip(
                        i as int + 1,
                    ))));
                }
            },
            None => {},
        }
        i = i + 1;
    }
    proof {
        assert(lines.deep_view().skip(lines.len() as int) =~= Seq::<Seq<char>>::empty());
        assert(out.deep_view() + Seq::<WorktreeItemV>::empty() =~= out.deep_view());
    }
    out
}

} // verus!
