//! Position tracking: every byte offset in a document has a 1-based line
//! and column, recomputed by counting the line feeds before it.

use vstd::prelude::*;

use crate::trivia::B_LF;

verus! {

/// The number of line feed bytes in `s` before `end`.
pub open spec fn spec_count_lf(s: Seq<u8>, end: int) -> int
    decreases end,
{
    if end <= 0 {
        0
    } else {
        spec_count_lf(s, end - 1) + if s[end - 1] == B_LF {
            1int
        } else {
            0int
        }
    }
}

/// The index of the last line feed strictly before `off`, or -1 if the
/// prefix holds none.
pub open spec fn spec_last_lf_before(s: Seq<u8>, off: int) -> int
    decreases off,
{
    if off <= 0 {
        -1
    } else if s[off - 1] == B_LF {
        off - 1
    } else {
        spec_last_lf_before(s, off - 1)
    }
}

/// The 1-based line number of byte offset `off`.
pub open spec fn spec_line_of(s: Seq<u8>, off: int) -> int {
    1 + spec_count_lf(s, off)
}

/// The 1-based column number of byte offset `off`: its distance from the
/// start of its line.
pub open spec fn spec_col_of(s: Seq<u8>, off: int) -> int {
    off - spec_last_lf_before(s, off)
}

/// A prefix cannot hold more line feeds than bytes, and the last line feed
/// lies inside the prefix.
pub proof fn lemma_pos_bounds(s: Seq<u8>, off: int)
    requires
        0 <= off,
    ensures
        0 <= spec_count_lf(s, off) <= off,
        -1 <= spec_last_lf_before(s, off) < off,
    decreases off,
{
    if off > 0 {
        lemma_pos_bounds(s, off - 1);
    }
}

/// Computes the 1-based line and column of byte offset `off` by counting
/// the line feeds of the prefix before it.
pub fn position_of(s: &[u8], off: usize) -> (r: (usize, usize))
    requires
        off <= s@.len(),
        off < usize::MAX,
    ensures
        r.0 as int == spec_line_of(s@, off as int),
        r.1 as int == spec_col_of(s@, off as int),
{
    let mut line: usize = 1;
    let mut bol: usize = 0;
    let mut i: usize = 0;
    while i < off
        invariant
            0 <= i <= off,
            off <= s@.len(),
            off < usize::MAX,
            line as int == spec_line_of(s@, i as int),
            bol as int == spec_last_lf_before(s@, i as int) + 1,
        decreases off - i,
    {
        proof {
            lemma_pos_bounds(s@, i as int);
        }
        if s[i] == B_LF {
            line = line + 1;
            bol = i + 1;
        }
        i = i + 1;
    }
    proof {
        lemma_pos_bounds(s@, off as int);
    }
    (line, off - bol + 1)
}

} // verus!
