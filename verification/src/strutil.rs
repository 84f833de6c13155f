//! Verified string utilities: first occurrence of a character, splitting on a
//! separator, and joining path strings. The manifest codec and the path
//! handling of the engine are built on these.

use vstd::prelude::*;
use vstd::string::*;

verus! {

/// Index of the first occurrence of `c` in `s`, if any.
pub open spec fn find_char(s: Seq<char>, c: char) -> Option<int>
    decreases s.len(),
{
    if s.len() == 0 {
        None
    } else if s[0] == c {
        Some(0int)
    } else {
        match find_char(s.skip(1), c) {
            Some(i) => Some(i + 1),
            None => None,
        }
    }
}

/// What `find_char` returns: the first occurrence, or nothing when `c` does
/// not occur at all.
pub proof fn lemma_find_char(s: Seq<char>, c: char)
    ensures
        match find_char(s, c) {
            Some(i) => 0 <= i < s.len() && s[i] == c && forall|j: int| 0 <= j < i ==> s[j] != c,
            None => forall|j: int| 0 <= j < s.len() ==> s[j] != c,
        },
    decreases s.len(),
{
    if s.len() != 0 && s[0] != c {
        lemma_find_char(s.skip(1), c);
        match find_char(s.skip(1), c) {
            Some(i) => {
                assert(s[i + 1] == s.skip(1)[i]);
                assert forall|j: int| 0 <= j < i + 1 implies s[j] != c by {
                    if j >= 1 {
                        assert(s.skip(1)[j - 1] == s[j]);
                    }
                }
            },
            None => {
                assert forall|j: int| 0 <= j < s.len() implies s[j] != c by {
                    if j >= 1 {
                        assert(s.skip(1)[j - 1] == s[j]);
                    }
                }
            },
        }
    }
}

/// The first occurrence determines `find_char`.
pub proof fn lemma_find_char_at(s: Seq<char>, c: char, i: int)
    requires
        0 <= i < s.len(),
        s[i] == c,
        forall|j: int| 0 <= j < i ==> s[j] != c,
    ensures
        find_char(s, c) == Some(i),
{
    lemma_find_char(s, c);
    match find_char(s, c) {
        Some(k) => {
            if k < i {
                assert(s[k] != c);
            }
            if i < k {
                assert(s[i] != c);
            }
        },
        None => {
            assert(s[i] != c);
        },
    }
}

/// `c` does not occur in `s`.
pub open spec fn lacks_char(s: Seq<char>, c: char) -> bool {
    forall|j: int| 0 <= j < s.len() ==> s[j] != c
}

/// `s` split at every occurrence of `sep`. The separators themselves are
/// dropped; an empty `s` yields one empty piece, and `n` separators always
/// yield `n + 1` pieces.
pub open spec fn split_chars(s: Seq<char>, sep: char) -> Seq<Seq<char>>
    decreases s.len(),
    via split_chars_dec
{
    match find_char(s, sep) {
        Some(i) => seq![s.subrange(0, i)] + split_chars(s.skip(i + 1), sep),
        None => seq![s],
    }
}

#[via_fn]
proof fn split_chars_dec(s: Seq<char>, sep: char) {
    lemma_find_char(s, sep);
}

/// Splitting a string that starts with a separator-free piece followed by a
/// separator peels that piece off.
pub proof fn lemma_split_chars_step(piece: Seq<char>, rest: Seq<char>, sep: char)
    requires
        lacks_char(piece, sep),
    ensures
        split_chars(piece + seq![sep] + rest, sep) == seq![piece] + split_chars(rest, sep),
{
    let s = piece + seq![sep] + rest;
    assert(s[piece.len() as int] == sep);
    assert forall|j: int| 0 <= j < piece.len() implies s[j] != sep by {
        assert(s[j] == piece[j]);
    }
    lemma_find_char_at(s, sep, piece.len() as int);
    assert(s.subrange(0, piece.len() as int) =~= piece);
    assert(s.skip(piece.len() as int + 1) =~= rest);
}

/// A separator-free string is one piece.
pub proof fn lemma_split_chars_whole(s: Seq<char>, sep: char)
    requires
        lacks_char(s, sep),
    ensures
        split_chars(s, sep) == seq![s],
{
    lemma_find_char(s, sep);
    if find_char(s, sep) is Some {
        let i = find_char(s, sep)->Some_0;
        assert(s[i] != sep);
    }
}

/// First occurrence of `c` in `s` at or after position `from`, by a linear
/// scan.
pub fn find_char_from(s: &str, c: char, from: usize) -> (r: Option<usize>)
    requires
        from <= s@.len(),
    ensures
        match r {
            Some(i) => from <= i < s@.len() && s@[i as int] == c && forall|j: int|
                from <= j < i ==> s@[j] != c,
            None => forall|j: int| from <= j < s@.len() ==> s@[j] != c,
        },
{
    let n = s.unicode_len();
    let mut i = from;
    while i < n
        invariant
            from <= i <= n,
            n == s@.len(),
            forall|j: int| from <= j < i ==> s@[j] != c,
        decreases n - i,
    {
        if s.get_char(i) == c {
            return Some(i);
        }
        i = i + 1;
    }
    None
}

/// `s` split at every occurrence of `sep`, as owned strings.
#[verifier::loop_isolation(true)]
pub fn split_str(s: &str, sep: char) -> (r: Vec<String>)
    ensures
        r.deep_view() == split_chars(s@, sep),
{
    let n = s.unicode_len();
    let mut out: Vec<String> = Vec::new();
    let mut start: usize = 0;
    proof {
        assert(s@.skip(0) =~= s@);
        assert(out.deep_view() =~= Seq::<Seq<char>>::empty());
        assert(Seq::<Seq<char>>::empty() + split_chars(s@, sep) =~= split_chars(s@, sep));
    }
    loop
        invariant_except_break
            split_chars(s@, sep) == out.deep_view() + split_chars(s@.skip(start as int), sep),
        invariant
            start <= n,
            n == s@.len(),
        ensures
            out.deep_view() == split_chars(s@, sep),
        decreases n - start,
    {
        let ghost rem = s@.skip(start as int);
        let ghost prev = out.deep_view();
        match find_char_from(s, sep, start) {
            Some(i) => {
                let piece = s.substring_char(start, i).to_owned();
                proof {
                    // The first separator of the remainder stands at i - start.
                    assert forall|j: int| 0 <= j < i - start implies rem[j] != sep by {
                        assert(rem[j] == s@[start + j]);
                    }
                    assert(rem[i - start] == s@[i as int]);
                    lemma_find_char_at(rem, sep, i - start);
                    assert(rem.subrange(0, i - start) =~= s@.subrange(start as int, i as int));
                    assert(rem.skip(i - start + 1) =~= s@.skip(i + 1));
                }
                out.push(piece);
                start = i + 1;
                proof {
                    assert(out.deep_view() =~= prev.push(piece@));
                    assert(prev.push(piece@) + split_chars(s@.skip(start as int), sep) =~= prev + (
                    seq![piece@] + split_chars(s@.skip(start as int), sep)));
                }
            },
            None => {
                let piece = s.substring_char(start, n).to_owned();
                proof {
                    assert(rem =~= s@.subrange(start as int, n as int));
                    lemma_split_chars_whole(rem, sep);
                }
                out.push(piece);
                proof {
                    assert(out.deep_view() =~= prev.push(piece@));
                    assert(prev.push(piece@) =~= prev + seq![rem]);
                }
                break;
            },
        }
    }
    out
}


/// The nonempty pieces of `s` split at `sep`: separator runs collapse and
/// leading or trailing separators vanish.
pub open spec fn nonempty_pieces(ps: Seq<Seq<char>>) -> Seq<Seq<char>>
    decreases ps.len(),
{
    if ps.len() == 0 {
        Seq::empty()
    } else if ps[0].len() == 0 {
        nonempty_pieces(ps.skip(1))
    } else {
        seq![ps[0]] + nonempty_pieces(ps.skip(1))
    }
}

/// Splits `s` at `sep` and drops the empty pieces.
pub fn split_str_nonempty(s: &str, sep: char) -> (r: Vec<String>)
    ensures
        r.deep_view() == nonempty_pieces(split_chars(s@, sep)),
{
    let pieces = split_str(s, sep);
    let mut out: Vec<String> = Vec::new();
    let mut i: usize = 0;
    proof {
        assert(pieces.deep_view().skip(0) =~= pieces.deep_view());
        assert(out.deep_view() =~= Seq::<Seq<char>>::empty());
        assert(Seq::<Seq<char>>::empty() + nonempty_pieces(split_chars(s@, sep))
            =~= nonempty_pieces(split_chars(s@, sep)));
    }
    while i < pieces.len()
        invariant
            i <= pieces.len(),
            pieces.deep_view() == split_chars(s@, sep),
            nonempty_pieces(split_chars(s@, sep)) == out.deep_view() + nonempty_pieces(
                pieces.deep_view().skip(i as int),
            ),
        decreases pieces.len() - i,
    {
        let ghost prev = out.deep_view();
        proof {
            assert(pieces.deep_view().skip(i as int)[0] == pieces.deep_view()[i as int]);
            assert(pieces.deep_view().skip(i as int).skip(1) =~= pieces.deep_view().skip(
                i as int + 1,
            ));
        }
        if !pieces[i].as_str().is_empty() {
            let piece = pieces[i].clone();
            proof {
                assert(piece@.len() > 0);
            }
            out.push(piece);
            proof {
                assert(out.deep_view() =~= prev.push(pieces.deep_view()[i as int]));
                assert(prev.push(pieces.deep_view()[i as int]) + nonempty_pieces(
                    pieces.deep_view().skip(i as int + 1),
                ) =~= prev + (seq![pieces.deep_view()[i as int]] + nonempty_pieces(
                    pieces.deep_view().skip(i as int + 1),
                )));
            }
        } else {
            proof {
                assert(pieces.deep_view()[i as int].len() == 0);
            }
        }
        i = i + 1;
    }
    proof {
        assert(pieces.deep_view().skip(pieces.len() as int) =~= Seq::<Seq<char>>::empty());
        assert(out.deep_view() + Seq::<Seq<char>>::empty() =~= out.deep_view());
    }
    out
}

} // verus!
