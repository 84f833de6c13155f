//! The registry of known repositories: a list of named entries, each with a
//! filesystem path and an optional remote URL. Names are unique.

use vstd::prelude::*;

verus! {

/// A failure of the registry itself.
#[derive(Clone, Copy, Debug, PartialEq, Eq, Structural)]
pub enum ConfigError {
    /// The name is already registered; an entry is never silently replaced.
    AlreadyRegistered,
    /// No repository of that name is registered.
    NotFound,
}

/// One registered repository.
#[derive(Clone, Debug)]
pub struct RepoEntry {
    pub path: String,
    pub url: Option<String>,
}

/// A registered repository under its name.
#[derive(Clone, Debug)]
pub struct RepoRecord {
    pub name: String,
    pub entry: RepoEntry,
}

/// The registry.
#[derive(Debug)]
pub struct Config {
    pub repos: Vec<RepoRecord>,
}

/// Index of the first record named `name`, if any.
pub open spec fn index_of_name(s: Seq<RepoRecord>, name: Seq<char>) -> Option<int>
    decreases s.len(),
{
    if s.len() == 0 {
        None
    } else if s[0].name@ == name {
        Some(0int)
    } else {
        match index_of_name(s.skip(1), name) {
            Some(i) => Some(i + 1),
            None => None,
        }
    }
}

proof fn lemma_index_of_name(s: Seq<RepoRecord>, name: Seq<char>)
    ensures
        match index_of_name(s, name) {
            Some(i) => 0 <= i < s.len() && s[i].name@ == name && forall|j: int|
                0 <= j < i ==> s[j].name@ != name,
            None => forall|j: int| 0 <= j < s.len() ==> s[j].name@ != name,
        },
    decreases s.len(),
{
    if s.len() != 0 && s[0].name@ != name {
        lemma_index_of_name(s.skip(1), name);
        match index_of_name(s.skip(1), name) {
            Some(i) => {
                assert(s[i + 1] == s.skip(1)[i]);
                assert forall|j: int| 0 <= j < i + 1 implies s[j].name@ != name by {
                    if j >= 1 {
                        assert(s.skip(1)[j - 1] == s[j]);
                    }
                }
            },
            None => {
                assert forall|j: int| 0 <= j < s.len() implies s[j].name@ != name by {
                    if j >= 1 {
                        assert(s.skip(1)[j - 1] == s[j]);
                    }
                }
            },
        }
    }
}

impl Config {
    /// An empty registry: what a missing configuration file denotes.
    pub fn new() -> (r: Config)
        ensures
            r.repos@.len() == 0,
    {
        Config { repos: Vec::new() }
    }

    /// Index of the record named `name`, by a linear scan.
    pub fn find(&self, name: &String) -> (r: Option<usize>)
        ensures
            match r {
                Some(i) => i < self.repos@.len() && index_of_name(self.repos@, name@) == Some(
                    i as int,
                ),
                None => index_of_name(self.repos@, name@) is None,
            },
    {
        let mut i: usize = 0;
        while i < self.repos.len()
            invariant
                i <= self.repos.len(),
                forall|j: int| 0 <= j < i ==> (#[trigger] self.repos@[j]).name@ != name@,
            decreases self.repos.len() - i,
        {
            if self.repos[i].name == *name {
                proof {
                    lemma_index_of_name(self.repos@, name@);
                    match index_of_name(self.repos@, name@) {
                        Some(k) => {
                            if k < i {
                                assert(self.repos@[k].name@ != name@);
                            }
                            if (i as int) < k {
                                assert(self.repos@[i as int].name@ != name@);
                            }
                        },
                        None => {
                            assert(self.repos@[i as int].name@ != name@);
                        },
                    }
                }
                return Some(i);
            }
            i = i + 1;
        }
        proof {
            lemma_index_of_name(self.repos@, name@);
            if index_of_name(self.repos@, name@) is Some {
                let k = index_of_name(self.repos@, name@)->Some_0;
                assert(self.repos@[k].name@ != name@);
            }
        }
        None
    }

    /// Registers a repository. A name already present is refused: an entry is
    /// never silently replaced.
    pub fn add(&mut self, name: String, entry: RepoEntry) -> (r: Result<(), ConfigError>)
        ensures
            match r {
                Ok(()) => index_of_name(old(self).repos@, name@) is None && final(self).repos@
                    == old(self).repos@.push(RepoRecord { name, entry }),
                Err(e) => e == ConfigError::AlreadyRegistered && index_of_name(
                    old(self).repos@,
                    name@,
                ) is Some && final(self).repos@ == old(self).repos@,
            },
    {
        match self.find(&name) {
            Some(_) => Err(ConfigError::AlreadyRegistered),
            None => {
                self.repos.push(RepoRecord { name, entry });
                Ok(())
            },
        }
    }

    /// Unregisters the repository named `name`; a missing name is an error.
    pub fn remove(&mut self, name: &String) -> (r: Result<(), ConfigError>)
        ensures
            match r {
                Ok(()) => index_of_name(old(self).repos@, name@) is Some && final(self).repos@
                    == old(self).repos@.remove(index_of_name(old(self).repos@, name@)->Some_0),
                Err(e) => e == ConfigError::NotFound && index_of_name(
                    old(self).repos@,
                    name@,
                ) is None && final(self).repos@ == old(self).repos@,
            },
    {
        let ghost prev = self.repos@;
        match self.find(name) {
            Some(i) => {
                self.repos.remove(i);
                proof {
                    assert(self.repos@ == prev.remove(i as int));
                }
                Ok(())
            },
            None => Err(ConfigError::NotFound),
        }
    }
}

} // verus!
