//! The manifest: the ordered list of tracked paths with their propagation
//! strategies, and its line-oriented text format.
//!
//! One record per line, `<strategy-token>:<relative-filepath>`, token one of
//! `symlink` or `copy`. Only the first colon delimits, so filepaths may
//! contain further colons. Reading is tolerant: blank or unparseable lines
//! are dropped rather than failing the whole read.

use vstd::prelude::*;
use vstd::string::*;

use crate::error::StoreError;
use crate::strutil::{find_char, find_char_from, lemma_find_char, lemma_find_char_at, split_chars,
    split_str};

verus! {

/// How a tracked path propagates between the store and the worktrees.
///
/// `Symlink` shares one inode: every worktree links to the store's master
/// copy. `Copy` keeps an independent per-worktree copy that is synchronized
/// explicitly by `push` and `pull`.
#[derive(Clone, Copy, Debug, PartialEq, Eq, Structural)]
pub enum Strategy {
    Symlink,
    Copy,
}

impl Strategy {
    /// The token under which this strategy is persisted.
    pub open spec fn token(self) -> Seq<char> {
        match self {
            Strategy::Symlink => "symlink"@,
            Strategy::Copy => "copy"@,
        }
    }

    pub fn as_str(&self) -> (r: &'static str)
        ensures
            r@ == self.token(),
    {
        match self {
            Strategy::Symlink => "symlink",
            Strategy::Copy => "copy",
        }
    }

    /// Parses a strategy token; any other string is `InvalidStrategy`.
    pub fn from_str(s: &str) -> (r: Result<Strategy, StoreError>)
        ensures
            r == if s@ == Strategy::Symlink.token() {
                Ok::<Strategy, StoreError>(Strategy::Symlink)
            } else if s@ == Strategy::Copy.token() {
                Ok::<Strategy, StoreError>(Strategy::Copy)
            } else {
                Err::<Strategy, StoreError>(StoreError::InvalidStrategy)
            },
    {
        let owned = s.to_owned();
        if owned == String::from_str("symlink") {
            Ok(Strategy::Symlink)
        } else if owned == String::from_str("copy") {
            Ok(Strategy::Copy)
        } else {
            Err(StoreError::InvalidStrategy)
        }
    }
}

/// One tracked path: its strategy and its path relative to a worktree root.
#[derive(Clone, Debug)]
pub struct ManifestEntry {
    pub strategy: Strategy,
    pub filepath: String,
}

/// The mathematical value of a manifest entry.
pub struct EntryV {
    pub strategy: Strategy,
    pub filepath: Seq<char>,
}

impl View for ManifestEntry {
    type V = EntryV;

    open spec fn view(&self) -> EntryV {
        EntryV { strategy: self.strategy, filepath: self.filepath@ }
    }
}

impl DeepView for ManifestEntry {
    type V = EntryV;

    open spec fn deep_view(&self) -> EntryV {
        self.view()
    }
}

/// The persisted form of one entry, without its terminating newline.
pub open spec fn line_of(e: EntryV) -> Seq<char> {
    e.strategy.token() + seq![':'] + e.filepath
}

/// The entry a manifest line stands for, or `None` for a blank or
/// unparseable line.
pub open spec fn entry_of_line(line: Seq<char>) -> Option<EntryV> {
    match find_char(line, ':') {
        Some(i) => {
            let tok = line.subrange(0, i);
            let fp = line.skip(i + 1);
            if tok == Strategy::Symlink.token() {
                Some(EntryV { strategy: Strategy::Symlink, filepath: fp })
            } else if tok == Strategy::Copy.token() {
                Some(EntryV { strategy: Strategy::Copy, filepath: fp })
            } else {
                None
            }
        },
        None => None,
    }
}

/// The entries of a sequence of lines, unparseable lines dropped.
pub open spec fn entries_of_lines(lines: Seq<Seq<char>>) -> Seq<EntryV>
    decreases lines.len(),
{
    if lines.len() == 0 {
        Seq::empty()
    } else {
        match entry_of_line(lines[0]) {
            Some(e) => seq![e] + entries_of_lines(lines.skip(1)),
            None => entries_of_lines(lines.skip(1)),
        }
    }
}

/// What a manifest text denotes.
pub open spec fn parse_spec(text: Seq<char>) -> Seq<EntryV> {
    entries_of_lines(split_chars(text, '\n'))
}

/// The persisted form of a whole manifest: one line per entry, each
/// terminated by a newline.
pub open spec fn render_spec(entries: Seq<EntryV>) -> Seq<char>
    decreases entries.len(),
{
    if entries.len() == 0 {
        Seq::empty()
    } else {
        line_of(entries[0]) + seq!['\n'] + render_spec(entries.skip(1))
    }
}

/// Parses a manifest text. Blank and unparseable lines are dropped.
pub fn read_manifest(text: &str) -> (entries: Vec<ManifestEntry>)
    ensures
        entries.deep_view() == parse_spec(text@),
{
    let lines = split_str(text, '\n');
    let mut out: Vec<ManifestEntry> = Vec::new();
    let mut i: usize = 0;
    proof {
        assert(lines.deep_view().skip(0) =~= lines.deep_view());
        assert(out.deep_view() =~= Seq::<EntryV>::empty());
        assert(Seq::<EntryV>::empty() + parse_spec(text@) =~= parse_spec(text@));
    }
    while i < lines.len()
        invariant
            i <= lines.len(),
            lines.deep_view() == split_chars(text@, '\n'),
            parse_spec(text@) == out.deep_view() + entries_of_lines(
                lines.deep_view().skip(i as int),
            ),
        decreases lines.len() - i,
    {
        let ghost lv = lines.deep_view()[i as int];
        let ghost prev = out.deep_view();
        proof {
            assert(lines.deep_view().skip(i as int)[0] == lv);
            assert(lines.deep_view().skip(i as int).skip(1) =~= lines.deep_view().skip(
                i as int + 1,
            ));
        }
        let line = &lines[i];
        let n = line.as_str().unicode_len();
        match find_char_from(line.as_str(), ':', 0) {
            Some(ci) => {
                proof {
                    lemma_find_char_at(lv, ':', ci as int);
                }
                let tok = line.as_str().substring_char(0, ci).to_owned();
                let fp = line.as_str().substring_char(ci + 1, n).to_owned();
                proof {
                    assert(fp@ =~= lv.skip(ci as int + 1));
                }
                if tok == String::from_str("symlink") {
                    out.push(ManifestEntry { strategy: Strategy::Symlink, filepath: fp });
                    proof {
                        assert(out.deep_view() =~= prev.push(
                            EntryV { strategy: Strategy::Symlink, filepath: lv.skip(ci as int + 1) },
                        ));
                    }
                } else if tok == String::from_str("copy") {
                    out.push(ManifestEntry { strategy: Strategy::Copy, filepath: fp });
                    proof {
                        assert(out.deep_view() =~= prev.push(
                            EntryV { strategy: Strategy::Copy, filepath: lv.skip(ci as int + 1) },
                        ));
                    }
                }
            },
            None => {
                proof {
                    lemma_find_char(lv, ':');
                    if find_char(lv, ':') is Some {
                        let k = find_char(lv, ':')->Some_0;
                        assert(lv[k] != ':');
                    }
                }
            },
        }
        i = i + 1;
        proof {
            match entry_of_line(lv) {
                Some(e) => {
                    assert(out.deep_view() + entries_of_lines(lines.deep_view().skip(i as int))
                        =~= prev + (seq![e] + entries_of_lines(lines.deep_view().skip(i as int))));
                },
                None => {},
            }
        }
    }
    proof {
        assert(lines.deep_view().skip(lines.len() as int) =~= Seq::<Seq<char>>::empty());
        assert(out.deep_view() + Seq::<EntryV>::empty() =~= out.deep_view());
    }
    out
}

/// Renders a manifest as text, one `strategy:filepath` line per entry.
pub fn write_manifest(entries: &Vec<ManifestEntry>) -> (text: String)
    ensures
        text@ == render_spec(entries.deep_view()),
{
    let mut acc = String::new();
    let mut i: usize = 0;
    proof {
        assert(entries.deep_view().skip(0) =~= entries.deep_view());
        assert(Seq::<char>::empty() + render_spec(entries.deep_view()) =~= render_spec(
            entries.deep_view(),
        ));
    }
    while i < entries.len()
        invariant
            i <= entries.len(),
            render_spec(entries.deep_view()) == acc@ + render_spec(
                entries.deep_view().skip(i as int),
            ),
        decreases entries.len() - i,
    {
        let ghost ev = entries.deep_view()[i as int];
        let ghost prev = acc@;
        let entry = &entries[i];
        acc.append(entry.strategy.as_str());
        acc.append(":");
        acc.append(entry.filepath.as_str());
        acc.append("\n");
        proof {
            reveal_strlit(":");
            reveal_strlit("\n");
            assert(entries.deep_view().skip(i as int)[0] == ev);
            assert(entries.deep_view().skip(i as int).skip(1) =~= entries.deep_view().skip(
                i as int + 1,
            ));
            assert(acc@ =~= prev + (line_of(ev) + seq!['\n']));
            assert(prev + (line_of(ev) + seq!['\n']) + render_spec(
                entries.deep_view().skip(i as int + 1),
            ) =~= prev + (line_of(ev) + seq!['\n'] + render_spec(
                entries.deep_view().skip(i as int + 1),
            )));
        }
        i = i + 1;
    }
    proof {
        assert(entries.deep_view().skip(entries.len() as int) =~= Seq::<EntryV>::empty());
        assert(acc@ + Seq::<char>::empty() =~= acc@);
    }
    acc
}

/// No strategy token contains a colon or a newline, and the two tokens
/// differ.
proof fn lemma_tokens(s: Strategy)
    ensures
        crate::strutil::lacks_char(s.token(), ':'),
        crate::strutil::lacks_char(s.token(), '\n'),
        s.token().len() > 0,
        Strategy::Symlink.token() != Strategy::Copy.token(),
{
    reveal_strlit("symlink");
    reveal_strlit("copy");
}

/// A rendered line parses back to its entry.
proof fn lemma_line_round_trip(e: EntryV)
    ensures
        entry_of_line(line_of(e)) == Some(e),
{
    lemma_tokens(e.strategy);
    let line = line_of(e);
    let tl = e.strategy.token().len() as int;
    assert forall|j: int| 0 <= j < tl implies line[j] != ':' by {
        assert(line[j] == e.strategy.token()[j]);
    }
    assert(line[tl] == ':');
    lemma_find_char_at(line, ':', tl);
    assert(line.subrange(0, tl) =~= e.strategy.token());
    assert(line.skip(tl + 1) =~= e.filepath);
}

/// Writing a manifest and reading it back yields the original entries, in
/// the original order, for any filepaths free of newlines.
///
/// This cannot hold of a filepath with an embedded newline: the text format
/// has no escaping, so such a path cannot be represented at all.
pub proof fn lemma_manifest_round_trip(entries: Seq<EntryV>)
    requires
        forall|i: int| 0 <= i < entries.len() ==> crate::strutil::lacks_char(
            #[trigger] entries[i].filepath,
            '\n',
        ),
    ensures
        parse_spec(render_spec(entries)) == entries,
    decreases entries.len(),
{
    if entries.len() == 0 {
        crate::strutil::lemma_split_chars_whole(Seq::<char>::empty(), '\n');
        let lines = split_chars(Seq::<char>::empty(), '\n');
        assert(lines =~= seq![Seq::<char>::empty()]);
        assert(lines.skip(1) =~= Seq::<Seq<char>>::empty());
        assert(entries_of_lines(Seq::<Seq<char>>::empty()) =~= Seq::<EntryV>::empty());
        assert(entries_of_lines(lines) =~= Seq::<EntryV>::empty());
        assert(parse_spec(render_spec(entries)) =~= entries);
    } else {
        let e = entries[0];
        let line = line_of(e);
        let rest = render_spec(entries.skip(1));
        lemma_tokens(e.strategy);
        assert forall|j: int| 0 <= j < line.len() implies line[j] != '\n' by {
            let tl = e.strategy.token().len() as int;
            if j < tl {
                assert(line[j] == e.strategy.token()[j]);
            } else if j > tl {
                assert(line[j] == e.filepath[j - tl - 1]);
            }
        }
        crate::strutil::lemma_split_chars_step(line, rest, '\n');
        lemma_line_round_trip(e);
        lemma_manifest_round_trip(entries.skip(1));
        let lines = split_chars(render_spec(entries), '\n');
        assert(lines == seq![line] + split_chars(rest, '\n'));
        assert(lines[0] == line);
        assert(lines.skip(1) =~= split_chars(rest, '\n'));
        assert(entries_of_lines(lines) == seq![e] + entries.skip(1));
        assert(seq![e] + entries.skip(1) =~= entries);
    }
}

/// First index whose entry tracks `fp`, if any.
pub open spec fn index_of_path(s: Seq<EntryV>, fp: Seq<char>) -> Option<int>
    decreases s.len(),
{
    if s.len() == 0 {
        None
    } else if s[0].filepath == fp {
        Some(0int)
    } else {
        match index_of_path(s.skip(1), fp) {
            Some(i) => Some(i + 1),
            None => None,
        }
    }
}

/// What `index_of_path` returns: the first entry with that filepath, or
/// nothing when no entry carries it.
pub proof fn lemma_index_of_path(s: Seq<EntryV>, fp: Seq<char>)
    ensures
        match index_of_path(s, fp) {
            Some(i) => 0 <= i < s.len() && s[i].filepath == fp && forall|j: int|
                0 <= j < i ==> s[j].filepath != fp,
            None => forall|j: int| 0 <= j < s.len() ==> s[j].filepath != fp,
        },
    decreases s.len(),
{
    if s.len() != 0 && s[0].filepath != fp {
        lemma_index_of_path(s.skip(1), fp);
        match index_of_path(s.skip(1), fp) {
            Some(i) => {
                assert(s[i + 1] == s.skip(1)[i]);
                assert forall|j: int| 0 <= j < i + 1 implies s[j].filepath != fp by {
                    if j >= 1 {
                        assert(s.skip(1)[j - 1] == s[j]);
                    }
                }
            },
            None => {
                assert forall|j: int| 0 <= j < s.len() implies s[j].filepath != fp by {
                    if j >= 1 {
                        assert(s.skip(1)[j - 1] == s[j]);
                    }
                }
            },
        }
    }
}

/// Index of the first entry that tracks `fp`, by a linear scan.
pub fn find_entry(entries: &Vec<ManifestEntry>, fp: &String) -> (r: Option<usize>)
    ensures
        match r {
            Some(i) => i < entries.len() && index_of_path(entries.deep_view(), fp@) == Some(
                i as int,
            ),
            None => index_of_path(entries.deep_view(), fp@) is None,
        },
{
    let mut i: usize = 0;
    while i < entries.len()
        invariant
            i <= entries.len(),
            forall|j: int| 0 <= j < i ==> entries.deep_view()[j].filepath != fp@,
        decreases entries.len() - i,
    {
        if entries[i].filepath == *fp {
            proof {
                lemma_index_of_path(entries.deep_view(), fp@);
                match index_of_path(entries.deep_view(), fp@) {
                    Some(k) => {
                        if k < i {
                            assert(entries.deep_view()[k].filepath != fp@);
                        }
                        if (i as int) < k {
                            assert(entries.deep_view()[i as int].filepath != fp@);
                        }
                    },
                    None => {
                        assert(entries.deep_view()[i as int].filepath != fp@);
                    },
                }
            }
            return Some(i);
        }
        i = i + 1;
    }
    proof {
        lemma_index_of_path(entries.deep_view(), fp@);
        if index_of_path(entries.deep_view(), fp@) is Some {
            let k = index_of_path(entries.deep_view(), fp@)->Some_0;
            assert(entries.deep_view()[k].filepath != fp@);
        }
    }
    None
}

/// The manifest after a `track`: the first entry with that filepath gets the
/// new strategy, or a fresh entry is appended. Re-tracking never duplicates.
pub open spec fn upsert_spec(s: Seq<EntryV>, strategy: Strategy, fp: Seq<char>) -> Seq<EntryV> {
    match index_of_path(s, fp) {
        Some(i) => s.update(i, EntryV { strategy, filepath: fp }),
        None => s.push(EntryV { strategy, filepath: fp }),
    }
}

/// Inserts or updates in place the entry for `fp`.
pub fn upsert_entry(entries: &mut Vec<ManifestEntry>, strategy: Strategy, fp: &String)
    ensures
        final(entries).deep_view() == upsert_spec(old(entries).deep_view(), strategy, fp@),
{
    let ghost prev = entries.deep_view();
    let e = ManifestEntry { strategy, filepath: fp.clone() };
    match find_entry(entries, fp) {
        Some(i) => {
            entries.set(i, e);
            proof {
                assert(entries.deep_view() =~= prev.update(
                    i as int,
                    EntryV { strategy, filepath: fp@ },
                ));
            }
        },
        None => {
            entries.push(e);
            proof {
                assert(entries.deep_view() =~= prev.push(EntryV { strategy, filepath: fp@ }));
            }
        },
    }
}

/// Removes the entry at `i`.
pub fn remove_entry(entries: &mut Vec<ManifestEntry>, i: usize)
    requires
        i < old(entries).len(),
    ensures
        final(entries).deep_view() == old(entries).deep_view().remove(i as int),
{
    let ghost prev = entries.deep_view();
    entries.remove(i);
    proof {
        assert(entries.deep_view() =~= prev.remove(i as int));
    }
}

} // verus!
