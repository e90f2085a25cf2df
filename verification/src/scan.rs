//! The string-literal scanner: from an opening `"` to the matching unescaped
//! closing `"`, validating embedded `\U` escapes on the way.
//!
//! The scan is a two-state automaton (normal, escape pending) walked byte by
//! byte.  All bytes it decides on are ASCII, so walking bytes agrees with
//! walking characters on UTF-8 input.

use vstd::prelude::*;

use crate::error::Expectation;

verus! {

pub const B_QUOTE: u8 = 34;

pub const B_BACKSLASH: u8 = 92;

pub const B_UPPER_U: u8 = 85;

pub const B_EQ: u8 = 61;

pub const B_SEMI: u8 = 59;

/// Whether `b` is an ASCII hex digit, as required after `\U`.
pub open spec fn is_hex_byte(b: u8) -> bool {
    (48 <= b <= 57) || (97 <= b <= 102) || (65 <= b <= 70)
}

/// Whether `b` is an ASCII hex digit.
pub fn is_hex_digit(b: u8) -> (r: bool)
    ensures
        r == is_hex_byte(b),
{
    (48 <= b && b <= 57) || (97 <= b && b <= 102) || (65 <= b && b <= 70)
}

/// How a scan over a span of the input ended.
///
/// `Closed { end }` consumed the bytes up to but excluding `end`.  A
/// `Mismatch` is recoverable: nothing was consumed and a caller may try
/// another rule.  An `Invalid` outcome is fatal: the document is
/// structurally broken at `at` and no alternative may be tried.
pub enum ScanResult {
    Closed { end: int },
    Mismatch { at: int, expected: Expectation },
    Invalid { at: int, expected: Expectation },
}

/// The literal scan from inside the opening quote onward: position `i`, with
/// `esc` set exactly when the previous byte was an escape-opening backslash.
///
/// In the escape-pending state the current byte is consumed uninterpreted,
/// except that `U` demands the four following bytes to be hex digits; a
/// malformed escape is anchored at the backslash, at `i - 1`.  In the normal
/// state an unescaped quote closes the literal; running out of input is fatal
/// and anchored at the start of the literal.
pub open spec fn spec_scan_from(s: Seq<u8>, lit_start: int, i: int, esc: bool) -> ScanResult
    decreases s.len() - i,
{
    if i >= s.len() {
        (ScanResult::Invalid { at: lit_start, expected: Expectation::EndOfInput })
    } else if esc {
        if s[i] == B_UPPER_U {
            if i + 5 > s.len() {
                (ScanResult::Invalid { at: lit_start, expected: Expectation::EndOfInput })
            } else if !(is_hex_byte(s[i + 1]) && is_hex_byte(s[i + 2]) && is_hex_byte(s[i + 3])
                && is_hex_byte(s[i + 4])) {
                (ScanResult::Invalid { at: i - 1, expected: Expectation::Character })
            } else {
                spec_scan_from(s, lit_start, i + 1, false)
            }
        } else {
            spec_scan_from(s, lit_start, i + 1, false)
        }
    } else if s[i] == B_QUOTE {
        (ScanResult::Closed { end: i + 1 })
    } else if s[i] == B_BACKSLASH {
        spec_scan_from(s, lit_start, i + 1, true)
    } else {
        spec_scan_from(s, lit_start, i + 1, false)
    }
}

/// The whole literal scan at `start`: a missing opening quote is a
/// recoverable mismatch, an empty remainder is fatal, and otherwise the
/// automaton runs from the byte after the opening quote.
pub open spec fn spec_scan_string(s: Seq<u8>, start: int) -> ScanResult {
    if start >= s.len() {
        (ScanResult::Invalid { at: start, expected: Expectation::EndOfInput })
    } else if s[start] != B_QUOTE {
        (ScanResult::Mismatch { at: start, expected: Expectation::Character })
    } else {
        spec_scan_from(s, start, start + 1, false)
    }
}

/// A well-formed literal taken on its own: it scans to exactly its own end.
pub open spec fn is_literal(k: Seq<u8>) -> bool {
    spec_scan_string(k, 0) == (ScanResult::Closed { end: k.len() as int })
}

/// A closing position lies strictly past the scan position and within the
/// input, and the automaton never reports a recoverable mismatch.
pub proof fn lemma_scan_from_closed_bounds(s: Seq<u8>, lit_start: int, i: int, esc: bool)
    requires
        i <= s.len(),
    ensures
        !(spec_scan_from(s, lit_start, i, esc) matches ScanResult::Mismatch { .. }),
        spec_scan_from(s, lit_start, i, esc) matches ScanResult::Closed { end } ==> i < end
            <= s.len(),
    decreases s.len() - i,
{
    if i >= s.len() {
    } else if esc {
        if s[i] == B_UPPER_U {
            if i + 5 > s.len() {
            } else if !(is_hex_byte(s[i + 1]) && is_hex_byte(s[i + 2]) && is_hex_byte(s[i + 3])
                && is_hex_byte(s[i + 4])) {
            } else {
                lemma_scan_from_closed_bounds(s, lit_start, i + 1, false);
            }
        } else {
            lemma_scan_from_closed_bounds(s, lit_start, i + 1, false);
        }
    } else if s[i] == B_QUOTE {
    } else if s[i] == B_BACKSLASH {
        lemma_scan_from_closed_bounds(s, lit_start, i + 1, true);
    } else {
        lemma_scan_from_closed_bounds(s, lit_start, i + 1, false);
    }
}

/// The fatal positions the automaton reports stay within the input: the
/// anchor is either the start of the literal or a backslash before `i`.
pub proof fn lemma_scan_from_error_bounds(s: Seq<u8>, lit_start: int, i: int, esc: bool)
    requires
        0 <= lit_start < i <= s.len(),
    ensures
        spec_scan_from(s, lit_start, i, esc) matches ScanResult::Invalid { at, .. } ==> lit_start
            <= at < s.len() || (at == lit_start && lit_start <= s.len()),
        spec_scan_from(s, lit_start, i, esc) matches ScanResult::Invalid { at, .. } ==> 0 <= at
            <= s.len(),
    decreases s.len() - i,
{
    if i >= s.len() {
    } else if esc {
        if s[i] == B_UPPER_U {
            if i + 5 > s.len() {
            } else if !(is_hex_byte(s[i + 1]) && is_hex_byte(s[i + 2]) && is_hex_byte(s[i + 3])
                && is_hex_byte(s[i + 4])) {
            } else {
                lemma_scan_from_error_bounds(s, lit_start, i + 1, false);
            }
        } else {
            lemma_scan_from_error_bounds(s, lit_start, i + 1, false);
        }
    } else if s[i] == B_QUOTE {
    } else if s[i] == B_BACKSLASH {
        lemma_scan_from_error_bounds(s, lit_start, i + 1, true);
    } else {
        lemma_scan_from_error_bounds(s, lit_start, i + 1, false);
    }
}

/// The parsed-literal invariant of the data model: a span the scanner closed
/// begins and ends with a quote and is at least two bytes long.
pub proof fn lemma_literal_shape(s: Seq<u8>, start: int)
    requires
        0 <= start <= s.len(),
        spec_scan_string(s, start) matches ScanResult::Closed { .. },
    ensures
        spec_scan_string(s, start) matches ScanResult::Closed { end } ==> start + 2 <= end
            <= s.len() && s[start] == B_QUOTE && s[end - 1] == B_QUOTE,
{
    let r = spec_scan_string(s, start);
    if r matches ScanResult::Closed { end } {
        lemma_scan_from_closed_bounds(s, start, start + 1, false);
        lemma_scan_from_closes_on_quote(s, start, start + 1, false);
    }
}

/// The byte just before a closing position is an unescaped quote.
proof fn lemma_scan_from_closes_on_quote(s: Seq<u8>, lit_start: int, i: int, esc: bool)
    requires
        0 <= i <= s.len(),
    ensures
        spec_scan_from(s, lit_start, i, esc) matches ScanResult::Closed { end } ==> 0 < end
            <= s.len() && s[end - 1] == B_QUOTE,
    decreases s.len() - i,
{
    if i >= s.len() {
    } else if esc {
        if s[i] == B_UPPER_U {
            if i + 5 > s.len() {
            } else if !(is_hex_byte(s[i + 1]) && is_hex_byte(s[i + 2]) && is_hex_byte(s[i + 3])
                && is_hex_byte(s[i + 4])) {
            } else {
                lemma_scan_from_closes_on_quote(s, lit_start, i + 1, false);
            }
        } else {
            lemma_scan_from_closes_on_quote(s, lit_start, i + 1, false);
        }
    } else if s[i] == B_QUOTE {
        lemma_scan_from_closed_bounds(s, lit_start, i, esc);
    } else if s[i] == B_BACKSLASH {
        lemma_scan_from_closes_on_quote(s, lit_start, i + 1, true);
    } else {
        lemma_scan_from_closes_on_quote(s, lit_start, i + 1, false);
    }
}

/// A span the automaton closed, taken out of its surroundings, scans on its
/// own to exactly its own end: the walk never looks past the closing quote.
proof fn lemma_scan_extract_from(s: Seq<u8>, start: int, end: int, j: int, esc: bool)
    requires
        0 <= start < j <= s.len(),
        spec_scan_from(s, start, j, esc) == (ScanResult::Closed { end }),
    ensures
        spec_scan_from(s.subrange(start, end), 0, j - start, esc) == (ScanResult::Closed {
            end: end - start,
        }),
    decreases s.len() - j,
{
    lemma_scan_from_closed_bounds(s, start, j, esc);
    let k = s.subrange(start, end);
    assert(forall|x: int| 0 <= x < k.len() ==> #[trigger] k[x] == s[start + x]);
    if esc {
        if s[j] == B_UPPER_U {
            // the scan closed, so the four bytes after `U` are hex digits;
            // being hex they are neither quote nor backslash, so the walk
            // passes them and the close lies past them
            assert(spec_scan_from(s, start, j + 1, false) == (ScanResult::Closed { end }));
            assert(spec_scan_from(s, start, j + 2, false) == (ScanResult::Closed { end }));
            assert(spec_scan_from(s, start, j + 3, false) == (ScanResult::Closed { end }));
            assert(spec_scan_from(s, start, j + 4, false) == (ScanResult::Closed { end }));
            assert(spec_scan_from(s, start, j + 5, false) == (ScanResult::Closed { end }));
            lemma_scan_from_closed_bounds(s, start, j + 5, false);
            lemma_scan_extract_from(s, start, end, j + 1, false);
        } else {
            lemma_scan_extract_from(s, start, end, j + 1, false);
        }
    } else if s[j] == B_QUOTE {
    } else if s[j] == B_BACKSLASH {
        lemma_scan_extract_from(s, start, end, j + 1, true);
    } else {
        lemma_scan_extract_from(s, start, end, j + 1, false);
    }
}

/// A literal the scanner closed inside a document is, taken by itself, a
/// well-formed literal.
pub proof fn lemma_scan_extract(s: Seq<u8>, start: int)
    requires
        0 <= start <= s.len(),
    ensures
        spec_scan_string(s, start) matches ScanResult::Closed { end } ==> is_literal(
            s.subrange(start, end),
        ),
{
    match spec_scan_string(s, start) {
        ScanResult::Closed { end } => {
            lemma_scan_from_closed_bounds(s, start, start + 1, false);
            lemma_scan_extract_from(s, start, end, start + 1, false);
            let k = s.subrange(start, end);
            assert(k[0] == B_QUOTE);
            assert(spec_scan_string(k, 0) == spec_scan_from(k, 0, 1, false));
        },
        _ => {},
    }
}

/// A well-formed literal embedded in a larger buffer scans there to its own
/// end: the walk reads only the literal's bytes.
proof fn lemma_scan_embed_from(s: Seq<u8>, p: int, k: Seq<u8>, j: int, esc: bool)
    requires
        0 <= p,
        p + k.len() <= s.len(),
        s.subrange(p, p + k.len()) == k,
        1 <= j <= k.len(),
        spec_scan_from(k, 0, j, esc) matches ScanResult::Closed { .. },
    ensures
        spec_scan_from(k, 0, j, esc) matches ScanResult::Closed { end } ==> spec_scan_from(
            s,
            p,
            p + j,
            esc,
        ) == (ScanResult::Closed { end: p + end }),
    decreases k.len() - j,
{
    lemma_scan_from_closed_bounds(k, 0, j, esc);
    assert(forall|x: int| 0 <= x < k.len() ==> s[p + x] == #[trigger] k[x]);
    if esc {
        if k[j] == B_UPPER_U {
            lemma_scan_embed_from(s, p, k, j + 1, false);
        } else {
            lemma_scan_embed_from(s, p, k, j + 1, false);
        }
    } else if k[j] == B_QUOTE {
    } else if k[j] == B_BACKSLASH {
        lemma_scan_embed_from(s, p, k, j + 1, true);
    } else {
        lemma_scan_embed_from(s, p, k, j + 1, false);
    }
}

/// A well-formed literal lying at `p` in a document is closed there by the
/// scanner, consuming exactly the literal.
pub proof fn lemma_literal_embed(s: Seq<u8>, p: int, k: Seq<u8>)
    requires
        0 <= p,
        p + k.len() <= s.len(),
        s.subrange(p, p + k.len()) == k,
        is_literal(k),
    ensures
        spec_scan_string(s, p) == (ScanResult::Closed { end: p + k.len() }),
{
    assert(k.len() > 0 && k[0] == B_QUOTE) by {
        lemma_literal_shape(k, 0);
    }
    assert(spec_scan_from(k, 0, 1, false) == (ScanResult::Closed { end: k.len() as int }));
    lemma_scan_embed_from(s, p, k, 1, false);
    assert(s[p] == k[0]);
}

/// How an executable scan over a span of the input ended, with the same
/// reading as [`ScanResult`].
pub enum Scan {
    Closed { end: usize },
    Mismatch { at: usize, expected: Expectation },
    Invalid { at: usize, expected: Expectation },
}

impl Scan {
    /// The mathematical outcome this value stands for.
    pub open spec fn as_spec(self) -> ScanResult {
        match self {
            Scan::Closed { end } => ScanResult::Closed { end: end as int },
            Scan::Mismatch { at, expected } => ScanResult::Mismatch { at: at as int, expected },
            Scan::Invalid { at, expected } => ScanResult::Invalid { at: at as int, expected },
        }
    }
}

/// Scans one quoted string literal starting at `start`, character by
/// character, tracking the escape-pending state, and returns where the
/// matching unescaped closing quote ended the span.
pub fn scan_string(s: &[u8], start: usize) -> (r: Scan)
    requires
        start <= s@.len(),
    ensures
        r.as_spec() == spec_scan_string(s@, start as int),
{
    let n = s.len();
    if start >= n {
        return Scan::Invalid { at: start, expected: Expectation::EndOfInput };
    }
    if s[start] != B_QUOTE {
        return Scan::Mismatch { at: start, expected: Expectation::Character };
    }
    let mut i: usize = start + 1;
    let mut esc: bool = false;
    loop
        invariant
            start + 1 <= i <= n,
            n == s@.len(),
            start < n,
            spec_scan_from(s@, start as int, i as int, esc) == spec_scan_string(
                s@,
                start as int,
            ),
        decreases n - i,
    {
        if i >= n {
            return Scan::Invalid { at: start, expected: Expectation::EndOfInput };
        }
        let b = s[i];
        if esc {
            if b == B_UPPER_U {
                if n - i < 5 {
                    return Scan::Invalid { at: start, expected: Expectation::EndOfInput };
                }
                if !(is_hex_digit(s[i + 1]) && is_hex_digit(s[i + 2]) && is_hex_digit(s[i + 3])
                    && is_hex_digit(s[i + 4])) {
                    return Scan::Invalid { at: i - 1, expected: Expectation::Character };
                }
            }
            esc = false;
            i = i + 1;
        } else if b == B_QUOTE {
            return Scan::Closed { end: i + 1 };
        } else if b == B_BACKSLASH {
            esc = true;
            i = i + 1;
        } else {
            i = i + 1;
        }
    }
}

} // verus!
