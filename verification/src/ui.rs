//! Plain-text presentation helpers. Coloring is the shell's business; what
//! is verified here is the text itself.

use vstd::prelude::*;
use vstd::string::*;

verus! {

/// `c` repeated `n` times.
pub open spec fn repeat_char(c: char, n: int) -> Seq<char>
    decreases n,
{
    if n <= 0 {
        Seq::empty()
    } else {
        repeat_char(c, n - 1).push(c)
    }
}

/// The ruler width of a section header.
pub const SECTION_WIDTH: usize = 50;

/// What `section_header` returns: a short leading rule, the title, and a
/// trailing rule that pads the whole line to the section width, but never
/// shorter than three strokes.
pub open spec fn section_header_spec(title: Seq<char>) -> Seq<char> {
    let used = 3 + title.len() + 1;
    let remaining: int = if used + 3 >= SECTION_WIDTH as int {
        3
    } else {
        SECTION_WIDTH as int - used
    };
    "\u{2500}\u{2500} "@ + title + seq![' '] + repeat_char('\u{2500}', remaining)
}

/// Renders a ruler-framed section header.
pub fn section_header(title: &str) -> (r: String)
    ensures
        r@ == section_header_spec(title@),
{
    let mut out = String::from_str("\u{2500}\u{2500} ");
    out.append(title);
    out.append(" ");
    let used = 4usize.checked_add(title.unicode_len());
    let remaining: usize = match used {
        Some(u) => {
            if u >= SECTION_WIDTH || u + 3 >= SECTION_WIDTH {
                3
            } else {
                SECTION_WIDTH - u
            }
        },
        None => 3,
    };
    let ghost mid = out@;
    let mut k: usize = 0;
    while k < remaining
        invariant
            k <= remaining,
            out@ == mid + repeat_char('\u{2500}', k as int),
        decreases remaining - k,
    {
        let ghost prev = out@;
        out.append("\u{2500}");
        k = k + 1;
        proof {
            reveal_strlit("\u{2500}");
            assert(out@ =~= prev.push('\u{2500}'));
            assert(prev.push('\u{2500}') =~= mid + repeat_char('\u{2500}', k as int));
        }
    }
    proof {
        reveal_strlit("\u{2500}\u{2500} ");
        reveal_strlit(" ");
        assert(mid =~= "\u{2500}\u{2500} "@ + title@ + seq![' ']);
        assert(out@ =~= section_header_spec(title@));
    }
    out
}

/// A table cell holding the text twice: plain for width computation, and as
/// displayed.
#[derive(Debug)]
pub struct StyledCell {
    pub plain: String,
    pub styled: String,
}

impl StyledCell {
    /// An unstyled cell: both forms are the text itself.
    pub fn plain(text: String) -> (r: StyledCell)
        ensures
            r.plain@ == text@,
            r.styled@ == text@,
    {
        let copy = text.clone();
        StyledCell { plain: text, styled: copy }
    }
}

} // verus!
