//! The skippable-trivia scanner: line comments, block comments, and
//! whitespace, discarded wherever they may legally appear between tokens.

use vstd::prelude::*;

verus! {

pub const B_SLASH: u8 = 47;

pub const B_STAR: u8 = 42;

pub const B_SPACE: u8 = 32;

pub const B_TAB: u8 = 9;

pub const B_CR: u8 = 13;

pub const B_LF: u8 = 10;

/// Whether `b` is one of the four whitespace bytes: space, tab, carriage
/// return, line feed.
pub open spec fn is_ws_byte(b: u8) -> bool {
    b == B_SPACE || b == B_TAB || b == B_CR || b == B_LF
}

/// The end of a line comment's text: the first position at or after `i`
/// holding a carriage return or line feed, or the end of the input.
pub open spec fn spec_line_comment_end(s: Seq<u8>, i: int) -> int
    decreases s.len() - i,
{
    if i >= s.len() {
        s.len() as int
    } else if s[i] == B_CR || s[i] == B_LF {
        i
    } else {
        spec_line_comment_end(s, i + 1)
    }
}

/// The position of the `*` of the first `*/` at or after `i`, if any: the
/// non-greedy close of a block comment.
pub open spec fn spec_block_close(s: Seq<u8>, i: int) -> Option<int>
    decreases s.len() - i,
{
    if i + 2 > s.len() {
        None
    } else if s[i] == B_STAR && s[i + 1] == B_SLASH {
        Some(i)
    } else {
        spec_block_close(s, i + 1)
    }
}

/// One piece of trivia at `i`, tried in order: a `//` line comment running to
/// the end of the line, a `/*` block comment running to the first `*/` (no
/// close before the end of input: no trivia), or a single whitespace byte.
/// `Some(j)` consumes the bytes up to but excluding `j`.
pub open spec fn spec_trivia_step(s: Seq<u8>, i: int) -> Option<int> {
    if i + 2 <= s.len() && s[i] == B_SLASH && s[i + 1] == B_SLASH {
        Some(spec_line_comment_end(s, i + 2))
    } else if i + 2 <= s.len() && s[i] == B_SLASH && s[i + 1] == B_STAR {
        match spec_block_close(s, i + 2) {
            Some(j) => Some(j + 2),
            None => None,
        }
    } else if i < s.len() && is_ws_byte(s[i]) {
        Some(i + 1)
    } else {
        None
    }
}

/// A line comment's end lies between its start and the end of the input.
pub proof fn lemma_line_comment_end_bounds(s: Seq<u8>, i: int)
    requires
        i <= s.len(),
    ensures
        i <= spec_line_comment_end(s, i) <= s.len(),
    decreases s.len() - i,
{
    if i >= s.len() {
    } else if s[i] == B_CR || s[i] == B_LF {
    } else {
        lemma_line_comment_end_bounds(s, i + 1);
    }
}

/// A block comment's close lies at or after the search start, with room for
/// the two closing bytes inside the input.
pub proof fn lemma_block_close_bounds(s: Seq<u8>, i: int)
    ensures
        spec_block_close(s, i) matches Some(j) ==> i <= j && j + 2 <= s.len(),
    decreases s.len() - i,
{
    if i + 2 > s.len() {
    } else if s[i] == B_STAR && s[i + 1] == B_SLASH {
    } else {
        lemma_block_close_bounds(s, i + 1);
    }
}

/// A piece of trivia consumes at least one byte and stays within the input.
pub proof fn lemma_trivia_step_bounds(s: Seq<u8>, i: int)
    ensures
        spec_trivia_step(s, i) matches Some(j) ==> i < j <= s.len(),
{
    if i + 2 <= s.len() && s[i] == B_SLASH && s[i + 1] == B_SLASH {
        lemma_line_comment_end_bounds(s, i + 2);
    } else if i + 2 <= s.len() && s[i] == B_SLASH && s[i + 1] == B_STAR {
        lemma_block_close_bounds(s, i + 2);
    }
}

/// The position after the zero-or-more run of trivia starting at `i`: the
/// first position at which no further piece of trivia matches.
pub open spec fn spec_skip_trivia(s: Seq<u8>, i: int) -> int
    decreases s.len() - i,
    via skip_trivia_decreases
{
    match spec_trivia_step(s, i) {
        Some(j) => spec_skip_trivia(s, j),
        None => i,
    }
}

#[via_fn]
proof fn skip_trivia_decreases(s: Seq<u8>, i: int) {
    lemma_trivia_step_bounds(s, i);
}

/// Skipping trivia never moves backwards, never leaves the input, and stops
/// at a position where no further trivia matches.
pub proof fn lemma_skip_trivia_bounds(s: Seq<u8>, i: int)
    requires
        i <= s.len(),
    ensures
        i <= spec_skip_trivia(s, i) <= s.len(),
        spec_trivia_step(s, spec_skip_trivia(s, i)) is None,
    decreases s.len() - i,
{
    lemma_trivia_step_bounds(s, i);
    match spec_trivia_step(s, i) {
        Some(j) => {
            lemma_skip_trivia_bounds(s, j);
        },
        None => {},
    }
}

/// Recognizes and discards the run of line comments, block comments, and
/// whitespace at `start`, returning the position of the first byte that
/// belongs to no further piece of trivia.
pub fn skip_trivia(s: &[u8], start: usize) -> (r: usize)
    requires
        start <= s@.len(),
    ensures
        r as int == spec_skip_trivia(s@, start as int),
        start <= r <= s@.len(),
{
    let n = s.len();
    let mut i: usize = start;
    loop
        invariant
            start <= i <= n,
            n == s@.len(),
            spec_skip_trivia(s@, i as int) == spec_skip_trivia(s@, start as int),
        decreases n - i,
    {
        proof {
            lemma_trivia_step_bounds(s@, i as int);
        }
        if n - i >= 2 && s[i] == B_SLASH && s[i + 1] == B_SLASH {
            let mut j: usize = i + 2;
            while j < n && s[j] != B_CR && s[j] != B_LF
                invariant
                    i + 2 <= j <= n,
                    n == s@.len(),
                    spec_line_comment_end(s@, j as int) == spec_line_comment_end(
                        s@,
                        i + 2 as int,
                    ),
                decreases n - j,
            {
                j = j + 1;
            }
            proof {
                lemma_line_comment_end_bounds(s@, i + 2 as int);
            }
            i = j;
        } else if n - i >= 2 && s[i] == B_SLASH && s[i + 1] == B_STAR {
            let mut j: usize = i + 2;
            loop
                invariant
                    i + 2 <= j <= n,
                    n == s@.len(),
                    start <= i,
                    s@[i as int] == B_SLASH,
                    s@[i + 1 as int] == B_STAR,
                    spec_skip_trivia(s@, i as int) == spec_skip_trivia(s@, start as int),
                    spec_block_close(s@, j as int) == spec_block_close(s@, i + 2 as int),
                ensures
                    i + 2 <= j,
                    j + 2 <= n,
                    spec_block_close(s@, i + 2 as int) == Some(j as int),
                decreases n - j,
            {
                if n - j < 2 {
                    // no closing `*/` before the end of input: the `/*` is
                    // not trivia, and the run stops just before it
                    return i;
                }
                if s[j] == B_STAR && s[j + 1] == B_SLASH {
                    proof {
                        lemma_block_close_bounds(s@, i + 2 as int);
                    }
                    break ;
                }
                j = j + 1;
            }
            i = j + 2;
        } else if i < n && (s[i] == B_SPACE || s[i] == B_TAB || s[i] == B_CR || s[i] == B_LF) {
            i = i + 1;
        } else {
            return i;
        }
    }
}

} // verus!
