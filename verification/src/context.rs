//! The per-invocation context: the loaded registry, the repository the
//! working directory belongs to, and the workspace it stands in. Built once
//! per command from what the collaborators answered, then threaded through.

use vstd::prelude::*;
use vstd::string::*;

use crate::config::Config;
use crate::manifest::ManifestEntry;

verus! {

/// One line of the collaborator's worktree listing.
#[derive(Debug)]
pub struct WorktreeListItem {
    pub path: String,
    pub hash: String,
    pub branch: String,
    pub is_bare: bool,
}

/// The mathematical value of one worktree listing line.
pub struct WorktreeItemV {
    pub path: Seq<char>,
    pub hash: Seq<char>,
    pub branch: Seq<char>,
    pub is_bare: bool,
}

impl View for WorktreeListItem {
    type V = WorktreeItemV;

    open spec fn view(&self) -> WorktreeItemV {
        WorktreeItemV {
            path: self.path@,
            hash: self.hash@,
            branch: self.branch@,
            is_bare: self.is_bare,
        }
    }
}

impl DeepView for WorktreeListItem {
    type V = WorktreeItemV;

    open spec fn deep_view(&self) -> WorktreeItemV {
        self.view()
    }
}

/// The repository the working directory belongs to.
#[derive(Debug)]
pub struct CurrentRepo {
    pub name: Option<String>,
    pub root: String,
    pub is_bare: bool,
    pub worktrees: Vec<WorktreeListItem>,
}

/// The workspace the working directory stands in.
#[derive(Debug)]
pub struct CurrentWorkspace {
    pub root: String,
    pub branch: String,
    pub store_dir: Option<String>,
    pub manifest: Vec<ManifestEntry>,
}

/// Everything one command invocation works against.
#[derive(Debug)]
pub struct AppContext {
    pub config: Config,
    pub current_repo: Option<CurrentRepo>,
    pub current_workspace: Option<CurrentWorkspace>,
}

impl AppContext {
    /// Assembles the context from its resolved parts.
    pub fn build(
        config: Config,
        current_repo: Option<CurrentRepo>,
        current_workspace: Option<CurrentWorkspace>,
    ) -> (r: AppContext)
        ensures
            r == (AppContext { config, current_repo, current_workspace }),
    {
        AppContext { config, current_repo, current_workspace }
    }
}

/// Is `prefix` a leading piece of `s`?
pub fn str_starts_with(s: &str, prefix: &str) -> (r: bool)
    ensures
        r == (prefix@.len() <= s@.len() && s@.take(prefix@.len() as int) == prefix@),
{
    let n = prefix.unicode_len();
    if n > s.unicode_len() {
        return false;
    }
    let mut i: usize = 0;
    while i < n
        invariant
            i <= n,
            n == prefix@.len() <= s@.len(),
            forall|j: int| 0 <= j < i ==> s@[j] == prefix@[j],
        decreases n - i,
    {
        if s.get_char(i) != prefix.get_char(i) {
            proof {
                assert(s@.take(prefix@.len() as int)[i as int] == s@[i as int]);
            }
            return false;
        }
        i = i + 1;
    }
    proof {
        assert(s@.take(prefix@.len() as int) =~= prefix@);
    }
    true
}

/// What `abbreviate_home` returns: the home directory shortened to a tilde.
pub open spec fn abbreviate_home_spec(path: Seq<char>, home: Option<Seq<char>>) -> Seq<char> {
    match home {
        Some(h) => if h.len() + 1 <= path.len() && path.take(h.len() as int + 1) == h
            + seq!['/'] {
            seq!['~'] + path.skip(h.len() as int)
        } else {
            path
        },
        None => path,
    }
}

/// Shortens a path under the home directory to a `~/` form; any other path
/// is returned as it is.
pub fn abbreviate_home(path: &str, home: Option<&String>) -> (r: String)
    ensures
        r@ == abbreviate_home_spec(path@, match home {
            Some(h) => Some(h@),
            None => None,
        }),
{
    match home {
        Some(h) => {
            let mut prefix = h.clone();
            prefix.append("/");
            proof {
                reveal_strlit("/");
                assert(prefix@ =~= h@ + seq!['/']);
            }
            if str_starts_with(path, prefix.as_str()) {
                let rest = path.substring_char(h.unicode_len(), path.unicode_len()).to_owned();
                let mut out = String::from_str("~");
                out.append(rest.as_str());
                proof {
                    reveal_strlit("~");
                    assert(out@ =~= seq!['~'] + path@.skip(h@.len() as int));
                }
                out
            } else {
                path.to_owned()
            }
        },
        None => path.to_owned(),
    }
}

} // verus!
