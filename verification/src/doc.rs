//! The `"key" = "value";` grammar and the document assembler.
//!
//! A pair is parsed atomically: once its key has matched, every later
//! failure is fatal and aborts the whole document parse instead of being
//! retried.  The assembler repeats the pair production until the input, less
//! trivia, is exhausted.

use vstd::prelude::*;
use vstd::string::StringSliceAdditionalSpecFns;

use crate::error::Expectation;
use crate::error::ParseError;
use crate::mapping::spec_fold_pairs;
use crate::mapping::StringsMap;
use crate::pos::position_of;
use crate::pos::spec_col_of;
use crate::pos::spec_line_of;
use crate::scan::is_literal;
use crate::scan::lemma_scan_from_closed_bounds;
use crate::scan::lemma_scan_from_error_bounds;
use crate::scan::scan_string;
use crate::scan::spec_scan_string;
use crate::scan::Scan;
use crate::scan::ScanResult;
use crate::scan::B_EQ;
use crate::scan::B_SEMI;
use crate::mapping::spec_render;
use crate::trivia::lemma_skip_trivia_bounds;
use crate::trivia::skip_trivia;
use crate::trivia::spec_skip_trivia;
use crate::trivia::spec_trivia_step;
use crate::trivia::B_LF;
use crate::trivia::B_SPACE;

verus! {

/// How one pair production ended: the key and value spans with the position
/// after the pair's trailing trivia, or the position and classification of
/// the failure.  A failure is fatal unless it is the key's own recoverable
/// mismatch, before anything was committed.
pub enum PairResult {
    PairOk { key: Seq<u8>, value: Seq<u8>, end: int },
    PairErr { at: int, expected: Expectation, fatal: bool },
}

/// The pair production at `i`: a string literal as the key, then trivia,
/// `=`, trivia, a string literal as the value, trivia, `;`, and trailing
/// trivia.  A recoverable mismatch of the key is handed on unchanged; after
/// the key has matched, every failure is fatal.
pub open spec fn spec_pair(s: Seq<u8>, i: int) -> PairResult {
    match spec_scan_string(s, i) {
        ScanResult::Mismatch { at, expected } => (PairResult::PairErr {
            at,
            expected,
            fatal: false,
        }),
        ScanResult::Invalid { at, expected } => (PairResult::PairErr {
            at,
            expected,
            fatal: true,
        }),
        ScanResult::Closed { end: key_end } => {
            let a = spec_skip_trivia(s, key_end);
            if a >= s.len() || s[a] != B_EQ {
                (PairResult::PairErr { at: a, expected: Expectation::Character, fatal: true })
            } else {
                let b = spec_skip_trivia(s, a + 1);
                match spec_scan_string(s, b) {
                    ScanResult::Closed { end: val_end } => {
                        let c = spec_skip_trivia(s, val_end);
                        if c >= s.len() || s[c] != B_SEMI {
                            (PairResult::PairErr {
                                at: c,
                                expected: Expectation::Character,
                                fatal: true,
                            })
                        } else {
                            (PairResult::PairOk {
                                key: s.subrange(i, key_end),
                                value: s.subrange(b, val_end),
                                end: spec_skip_trivia(s, c + 1),
                            })
                        }
                    },
                    ScanResult::Mismatch { at, expected } => (PairResult::PairErr {
                        at,
                        expected,
                        fatal: true,
                    }),
                    ScanResult::Invalid { at, expected } => (PairResult::PairErr {
                        at,
                        expected,
                        fatal: true,
                    }),
                }
            }
        },
    }
}

/// A parsed pair consumes at least one byte and stays within the input, and
/// a failed pair reports a position within the input.
pub proof fn lemma_pair_bounds(s: Seq<u8>, i: int)
    requires
        i <= s.len(),
    ensures
        spec_pair(s, i) matches PairResult::PairOk { end, .. } ==> i < end <= s.len(),
        0 <= i ==> (spec_pair(s, i) matches PairResult::PairErr { at, .. } ==> 0 <= at
            <= s.len()),
{
    match spec_scan_string(s, i) {
        ScanResult::Mismatch { at, expected } => {
            if i < s.len() && s[i] == crate::scan::B_QUOTE {
                lemma_scan_from_closed_bounds(s, i, i + 1, false);
            }
        },
        ScanResult::Invalid { at, expected } => {
            if 0 <= i && i < s.len() && s[i] == crate::scan::B_QUOTE {
                lemma_scan_from_error_bounds(s, i, i + 1, false);
            }
        },
        ScanResult::Closed { end: key_end } => {
            lemma_scan_from_closed_bounds(s, i, i + 1, false);
            let a = spec_skip_trivia(s, key_end);
            lemma_skip_trivia_bounds(s, key_end);
            if a >= s.len() || s[a] != B_EQ {
            } else {
                let b = spec_skip_trivia(s, a + 1);
                lemma_skip_trivia_bounds(s, a + 1);
                match spec_scan_string(s, b) {
                    ScanResult::Closed { end: val_end } => {
                        lemma_scan_from_closed_bounds(s, b, b + 1, false);
                        let c = spec_skip_trivia(s, val_end);
                        lemma_skip_trivia_bounds(s, val_end);
                        if c >= s.len() || s[c] != B_SEMI {
                        } else {
                            lemma_skip_trivia_bounds(s, c + 1);
                        }
                    },
                    ScanResult::Mismatch { at, expected } => {
                        lemma_skip_trivia_bounds(s, a + 1);
                        if b < s.len() && s[b] == crate::scan::B_QUOTE {
                            lemma_scan_from_closed_bounds(s, b, b + 1, false);
                        }
                    },
                    ScanResult::Invalid { at, expected } => {
                        lemma_skip_trivia_bounds(s, a + 1);
                        if 0 <= b && b < s.len() && s[b] == crate::scan::B_QUOTE {
                            lemma_scan_from_error_bounds(s, b, b + 1, false);
                        }
                    },
                }
            }
        },
    }
}

/// How the document parse from a position onward ends: the pairs written
/// from there to the end of the input, or the position and classification of
/// the first failure.
pub enum DocResult {
    DocOk { pairs: Seq<(Seq<u8>, Seq<u8>)> },
    DocErr { at: int, expected: Expectation },
}

/// The document tail at `i`: trivia is skipped; an exhausted input is the
/// clean end of the repetition, and otherwise one pair must follow, with the
/// rest of the document after it.
pub open spec fn spec_doc_from(s: Seq<u8>, i: int) -> DocResult
    decreases s.len() - i,
    via spec_doc_from_decreases
{
    let j = spec_skip_trivia(s, i);
    if j >= s.len() {
        (DocResult::DocOk { pairs: Seq::empty() })
    } else {
        match spec_pair(s, j) {
            PairResult::PairOk { key, value, end } => match spec_doc_from(s, end) {
                DocResult::DocOk { pairs } => (DocResult::DocOk {
                    pairs: seq![(key, value)] + pairs,
                }),
                DocResult::DocErr { at, expected } => (DocResult::DocErr { at, expected }),
            },
            PairResult::PairErr { at, expected, fatal } => (DocResult::DocErr { at, expected }),
        }
    }
}

#[via_fn]
proof fn spec_doc_from_decreases(s: Seq<u8>, i: int) {
    if i <= s.len() {
        lemma_skip_trivia_bounds(s, i);
        lemma_pair_bounds(s, spec_skip_trivia(s, i));
    }
}

/// The whole document parse: the pairs of the document in the order
/// written, or its first failure.
pub open spec fn spec_parse(s: Seq<u8>) -> DocResult {
    spec_doc_from(s, 0)
}

/// How an executable pair parse ended, with the same reading as
/// [`PairResult`]: the key is `s[key_start..key_end]` and the value
/// `s[val_start..val_end]`.
pub enum Pair {
    Found { key_start: usize, key_end: usize, val_start: usize, val_end: usize, end: usize },
    Failed { at: usize, expected: Expectation, fatal: bool },
}

impl Pair {
    /// The mathematical outcome this value stands for, over the input.
    pub open spec fn as_spec(self, s: Seq<u8>) -> PairResult {
        match self {
            Pair::Found { key_start, key_end, val_start, val_end, end } => (PairResult::PairOk {
                key: s.subrange(key_start as int, key_end as int),
                value: s.subrange(val_start as int, val_end as int),
                end: end as int,
            }),
            Pair::Failed { at, expected, fatal } => (PairResult::PairErr {
                at: at as int,
                expected,
                fatal,
            }),
        }
    }
}

/// Parses one `"key" = "value";` pair at `start`, committing to the pair as
/// soon as its key has matched.
pub fn parse_pair(s: &[u8], start: usize) -> (r: Pair)
    requires
        start <= s@.len(),
    ensures
        r.as_spec(s@) == spec_pair(s@, start as int),
        r matches Pair::Found { key_start, .. } ==> key_start == start,
        r matches Pair::Found { key_start, key_end, val_start, val_end, end } ==> key_start
            < key_end <= val_start && val_start < val_end <= end && end <= s@.len(),
        r matches Pair::Failed { at, .. } ==> at <= s@.len(),
{
    proof {
        lemma_pair_bounds(s@, start as int);
    }
    let key_end: usize;
    match scan_string(s, start) {
        Scan::Mismatch { at, expected } => {
            return Pair::Failed { at, expected, fatal: false };
        },
        Scan::Invalid { at, expected } => {
            proof {
                if start < s@.len() && s@[start as int] == crate::scan::B_QUOTE {
                    lemma_scan_from_error_bounds(s@, start as int, start as int + 1, false);
                }
            }
            return Pair::Failed { at, expected, fatal: true };
        },
        Scan::Closed { end } => {
            key_end = end;
        },
    }
    proof {
        lemma_scan_from_closed_bounds(s@, start as int, start as int + 1, false);
        lemma_skip_trivia_bounds(s@, key_end as int);
    }
    let a = skip_trivia(s, key_end);
    if a >= s.len() || s[a] != B_EQ {
        return Pair::Failed { at: a, expected: Expectation::Character, fatal: true };
    }
    proof {
        lemma_skip_trivia_bounds(s@, a as int + 1);
    }
    let b = skip_trivia(s, a + 1);
    let val_end: usize;
    match scan_string(s, b) {
        Scan::Mismatch { at, expected } => {
            return Pair::Failed { at, expected, fatal: true };
        },
        Scan::Invalid { at, expected } => {
            proof {
                if b < s@.len() && s@[b as int] == crate::scan::B_QUOTE {
                    lemma_scan_from_error_bounds(s@, b as int, b as int + 1, false);
                }
            }
            return Pair::Failed { at, expected, fatal: true };
        },
        Scan::Closed { end } => {
            val_end = end;
        },
    }
    proof {
        lemma_scan_from_closed_bounds(s@, b as int, b as int + 1, false);
        lemma_skip_trivia_bounds(s@, val_end as int);
    }
    let c = skip_trivia(s, val_end);
    if c >= s.len() || s[c] != B_SEMI {
        return Pair::Failed { at: c, expected: Expectation::Character, fatal: true };
    }
    proof {
        lemma_skip_trivia_bounds(s@, c as int + 1);
    }
    let end = skip_trivia(s, c + 1);
    Pair::Found { key_start: start, key_end, val_start: b, val_end, end }
}

/// Copies the bytes of `s[a..b]` into an owned vector.
fn copy_range(s: &[u8], a: usize, b: usize) -> (r: Vec<u8>)
    requires
        a <= b <= s@.len(),
    ensures
        r@ == s@.subrange(a as int, b as int),
{
    let mut r: Vec<u8> = Vec::new();
    r.extend_from_slice(&s[a..b]);
    proof {
        assert(r@ =~= s@.subrange(a as int, b as int));
    }
    r
}

/// What a document parse must return: on success, the mapping folded from
/// exactly the pairs written, every entry a well-formed literal; on failure,
/// the position and classification of the first failure, with its 1-based
/// line and column.
pub open spec fn spec_parse_result(s: Seq<u8>, r: Result<StringsMap, ParseError>) -> bool {
    match spec_parse(s) {
        DocResult::DocOk { pairs } => r matches Ok(m) && m@ == spec_fold_pairs(pairs)
            && crate::mapping::all_literal(m.entries()),
        DocResult::DocErr { at, expected } => r matches Err(e) && e.offset == at && e.expected
            == expected && e.line == spec_line_of(s, at) && e.column == spec_col_of(s, at),
    }
}

/// Parses a whole `.strings` document.
///
/// On success the mapping holds exactly the pairs written, a later
/// occurrence of a duplicate key overwriting an earlier one; every key and
/// value is a well-formed quoted literal, stored exactly as written.  On
/// failure the error carries the byte offset, line, column and
/// classification of the first failure.  The length bound leaves room for
/// the 1-based positions.
#[verifier::loop_isolation(false)]
pub fn parse(input: &[u8]) -> (r: Result<StringsMap, ParseError>)
    requires
        input@.len() < usize::MAX,
    ensures
        spec_parse_result(input@, r),
{
    let n = input.len();
    let mut out = StringsMap::new();
    let mut pos: usize = 0;
    let ghost mut done: Seq<(Seq<u8>, Seq<u8>)> = Seq::empty();
    loop
        invariant
            pos <= n,
            out@ == spec_fold_pairs(done),
            crate::mapping::all_literal(out.entries()),
            forall|x: int| 0 <= x < done.len() ==> is_literal((#[trigger] done[x]).0) && is_literal(done[x].1),
            (match spec_doc_from(input@, pos as int) {
                DocResult::DocOk { pairs } => spec_parse(input@) == (DocResult::DocOk {
                    pairs: done + pairs,
                }),
                DocResult::DocErr { at, expected } => spec_parse(input@) == (DocResult::DocErr {
                    at,
                    expected,
                }),
            }),
        decreases n - pos,
    {
        proof {
            lemma_skip_trivia_bounds(input@, pos as int);
        }
        let j = skip_trivia(input, pos);
        if j >= n {
            proof {
                assert(spec_doc_from(input@, pos as int) == (DocResult::DocOk {
                    pairs: Seq::<(Seq<u8>, Seq<u8>)>::empty(),
                }));
                assert(done + Seq::<(Seq<u8>, Seq<u8>)>::empty() =~= done);
            }
            return Ok(out);
        }
        match parse_pair(input, j) {
            Pair::Found { key_start, key_end, val_start, val_end, end } => {
                proof {
                    lemma_pair_literals(input@, j as int);
                }
                let key = copy_range(input, key_start, key_end);
                let value = copy_range(input, val_start, val_end);
                let ghost pair = (key@, value@);
                out.insert(key, value);
                proof {
                    let tail = spec_doc_from(input@, end as int);
                    assert(spec_doc_from(input@, pos as int) == (match tail {
                        DocResult::DocOk { pairs } => (DocResult::DocOk {
                            pairs: seq![pair] + pairs,
                        }),
                        DocResult::DocErr { at, expected } => (DocResult::DocErr { at, expected }),
                    }));
                    match tail {
                        DocResult::DocOk { pairs } => {
                            assert((done + (seq![pair] + pairs)) =~= ((done + seq![pair])
                                + pairs));
                        },
                        _ => {},
                    }
                    let prev = done;
                    done = prev + seq![pair];
                    assert(done.drop_last() =~= prev);
                    assert(done.last() == pair);
                    assert(spec_fold_pairs(done) == spec_fold_pairs(prev).insert(
                        pair.0,
                        pair.1,
                    ));
                }
                pos = end;
            },
            Pair::Failed { at, expected, fatal } => {
                let (line, column) = position_of(input, at);
                return Err(ParseError { offset: at, line, column, expected });
            },
        }
    }
}

/// Parses a whole `.strings` document given as text, over its UTF-8 bytes.
pub fn parse_str(text: &str) -> (r: Result<StringsMap, ParseError>)
    requires
        text.spec_bytes().len() < usize::MAX,
    ensures
        spec_parse_result(text.spec_bytes(), r),
{
    parse(text.as_bytes())
}

/// A document holding nothing but trivia — comments and whitespace, or
/// nothing at all — parses to the empty pair list, and so to the empty
/// mapping.
pub proof fn lemma_trivia_only_empty(s: Seq<u8>)
    requires
        spec_skip_trivia(s, 0) == s.len(),
    ensures
        spec_parse(s) == (DocResult::DocOk { pairs: Seq::<(Seq<u8>, Seq<u8>)>::empty() }),
        spec_fold_pairs(Seq::<(Seq<u8>, Seq<u8>)>::empty()) == Map::<Seq<u8>, Seq<u8>>::empty(),
{
}

/// Writing a list of literal pairs out as a document and parsing that
/// document yields exactly the list back: nothing is lost, reordered, or
/// misread, whatever the literals hold.
#[verifier::rlimit(60)]
pub proof fn lemma_render_parses_at(s: Seq<u8>, p: int, ps: Seq<(Seq<u8>, Seq<u8>)>)
    requires
        0 <= p <= s.len(),
        s.subrange(p, s.len() as int) == spec_render(ps),
        crate::mapping::all_literal(ps),
    ensures
        spec_doc_from(s, p) == (DocResult::DocOk { pairs: ps }),
    decreases ps.len(),
{
    let n = s.len() as int;
    if ps.len() == 0 {
        assert(s.subrange(p, n).len() == n - p);
        assert(spec_render(ps).len() == 0);
        assert(n - p == 0);
        assert(spec_trivia_step(s, p) is None);
        assert(spec_skip_trivia(s, p) == p);
        assert(ps =~= Seq::<(Seq<u8>, Seq<u8>)>::empty());
    } else {
        let k = ps[0].0;
        let v = ps[0].1;
        let rest = ps.drop_first();
        let rp = crate::mapping::spec_render_pair(k, v);
        let rr = spec_render(rest);
        crate::mapping::lemma_render_head(ps);
        crate::mapping::lemma_render_pair_bytes(k, v);
        crate::scan::lemma_literal_shape(k, 0);
        crate::scan::lemma_literal_shape(v, 0);
        let kl = k.len() as int;
        let vl = v.len() as int;
        let pair_len = kl + 3 + vl + 2;
        assert(s.subrange(p, n) == rp + rr);
        assert(n - p == pair_len + rr.len());
        // each byte of the pair's rendering lies at its offset from p
        assert forall|x: int| 0 <= x < pair_len implies s[p + x] == #[trigger] rp[x] by {
            assert(s.subrange(p, n)[x] == (rp + rr)[x]);
        }
        // and past the pair, the rendering of the remaining pairs follows
        assert forall|x: int|
            0 <= x < rr.len() implies s[p + pair_len + x] == #[trigger] rr[x] by {
            assert(s.subrange(p, n)[pair_len + x] == (rp + rr)[pair_len + x]);
        }
        // the key literal lies at p, and the scanner closes it there
        assert forall|x: int| 0 <= x < kl implies s.subrange(p, p + kl)[x] == k[x] by {
            assert(s[p + x] == rp[x]);
            assert(rp[x] == k[x]);
        }
        assert(s.subrange(p, p + kl) =~= k);
        crate::scan::lemma_literal_embed(s, p, k);
        // a single space stands between the key and the `=`
        assert(s[p + kl] == B_SPACE) by {
            assert(s[p + kl] == rp[kl]);
        }
        assert(s[p + kl + 1] == B_EQ) by {
            assert(s[p + (kl + 1)] == rp[kl + 1]);
        }
        assert(spec_trivia_step(s, p + kl) == Some(p + kl + 1));
        assert(spec_trivia_step(s, p + kl + 1) is None);
        assert(spec_skip_trivia(s, p + kl + 1) == p + kl + 1);
        assert(spec_skip_trivia(s, p + kl) == p + kl + 1);
        // a single space stands between the `=` and the value literal
        let b = p + kl + 3;
        assert(s[p + kl + 2] == B_SPACE) by {
            assert(s[p + (kl + 2)] == rp[kl + 2]);
        }
        assert forall|x: int| 0 <= x < vl implies s.subrange(b, b + vl)[x] == v[x] by {
            assert(s[p + (kl + 3 + x)] == rp[kl + 3 + x]);
            assert(rp[kl + 3 + x] == v[x]);
            assert(b + x == p + (kl + 3 + x));
        }
        assert(s.subrange(b, b + vl) =~= v);
        assert(s[b] == v[0]) by {
            assert(s.subrange(b, b + vl)[0] == v[0]);
        }
        crate::scan::lemma_literal_embed(s, b, v);
        assert(spec_trivia_step(s, b) is None);
        assert(spec_skip_trivia(s, b) == b);
        assert(spec_trivia_step(s, p + kl + 2) == Some(b));
        assert(spec_skip_trivia(s, p + kl + 2) == b);
        // the `;` follows the value at once, and a line feed ends the line
        let c = b + vl;
        assert(s[c] == B_SEMI) by {
            assert(s[p + (kl + 3 + vl)] == rp[kl + 3 + vl]);
        }
        assert(s[c + 1] == B_LF) by {
            assert(s[p + (kl + 4 + vl)] == rp[kl + 4 + vl]);
        }
        assert(spec_trivia_step(s, c) is None);
        assert(spec_skip_trivia(s, c) == c);
        let q = c + 2;
        assert(q == p + pair_len);
        // past the line feed the next pair's opening quote, or the end of
        // the input, stops the trivia run
        if rest.len() == 0 {
            assert(q == n);
            assert(spec_trivia_step(s, q) is None);
        } else {
            crate::mapping::lemma_render_head(rest);
            crate::mapping::lemma_render_pair_bytes(rest[0].0, rest[0].1);
            crate::scan::lemma_literal_shape(rest[0].0, 0);
            let rp2 = crate::mapping::spec_render_pair(rest[0].0, rest[0].1);
            assert(rr[0] == rp2[0]) by {
                assert(rr[0] == (rp2 + spec_render(rest.drop_first()))[0]);
            }
            assert(rp2[0] == rest[0].0[0]);
            assert(s[q] == crate::scan::B_QUOTE) by {
                assert(s[p + pair_len + 0] == rr[0]);
            }
            assert(spec_trivia_step(s, q) is None);
        }
        assert(spec_skip_trivia(s, q) == q);
        assert(spec_trivia_step(s, c + 1) == Some(q));
        assert(spec_skip_trivia(s, c + 1) == q);
        // the key production at p therefore reads exactly the written pair
        assert(spec_trivia_step(s, p) is None);
        assert(spec_skip_trivia(s, p) == p);
        assert(spec_pair(s, p) == (PairResult::PairOk {
            key: s.subrange(p, p + kl),
            value: s.subrange(b, b + vl),
            end: q,
        }));
        // the rest of the document is the rest of the list, rendered
        assert forall|x: int| 0 <= x < rr.len() implies s.subrange(q, n)[x] == rr[x] by {
            assert(s[p + pair_len + x] == rr[x]);
            assert(q + x == p + pair_len + x);
        }
        assert(s.subrange(q, n) =~= rr);
        assert(crate::mapping::all_literal(rest)) by {
            assert(forall|x: int| 0 <= x < rest.len() ==> #[trigger] rest[x] == ps[x + 1]);
        }
        lemma_render_parses_at(s, q, rest);
        assert(seq![(k, v)] + rest =~= ps);
    }
}

/// Every well-formed document made of written-out literal pairs parses to
/// exactly those pairs: the round trip from pair list to document text and
/// back is the identity.
pub proof fn lemma_render_round_trip(ps: Seq<(Seq<u8>, Seq<u8>)>)
    requires
        crate::mapping::all_literal(ps),
    ensures
        spec_parse(spec_render(ps)) == (DocResult::DocOk { pairs: ps }),
{
    let s = spec_render(ps);
    assert(s.subrange(0, s.len() as int) =~= s);
    lemma_render_parses_at(s, 0, ps);
}

/// Serializing a mapping with [`StringsMap::to_document`] and re-parsing
/// the output yields the same mapping: its entries come back exactly, and
/// they fold to the same map.
pub proof fn lemma_document_round_trip(m: StringsMap)
    requires
        crate::mapping::all_literal(m.entries()),
    ensures
        spec_parse(spec_render(m.entries())) == (DocResult::DocOk { pairs: m.entries() }),
        spec_fold_pairs(m.entries()) == m@,
{
    lemma_render_round_trip(m.entries());
}

/// The key and value spans of a parsed pair are well-formed literals.
pub proof fn lemma_pair_literals(s: Seq<u8>, i: int)
    requires
        0 <= i <= s.len(),
    ensures
        spec_pair(s, i) matches PairResult::PairOk { key, value, .. } ==> is_literal(key)
            && is_literal(value),
{
    if spec_pair(s, i) matches PairResult::PairOk { key, value, end } {
        match spec_scan_string(s, i) {
            ScanResult::Closed { end: key_end } => {
                crate::scan::lemma_scan_extract(s, i);
                lemma_scan_from_closed_bounds(s, i, i + 1, false);
                let a = spec_skip_trivia(s, key_end);
                lemma_skip_trivia_bounds(s, key_end);
                let b = spec_skip_trivia(s, a + 1);
                lemma_skip_trivia_bounds(s, a + 1);
                crate::scan::lemma_scan_extract(s, b);
            },
            _ => {},
        }
    }
}

} // verus!

