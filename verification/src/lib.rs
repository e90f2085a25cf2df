//! A verified parser for Apple-style `.strings` localization files.
//!
//! A document is UTF-8 text made of `/* ... */` and `// ...` comments,
//! whitespace, and a sequence of `"key" = "value";` declarations.  Parsing
//! yields a mapping from key to value; keys and values are stored exactly as
//! written, quotes included and backslash escapes undecoded.  Positions are
//! byte offsets into the document, with 1-based line and column numbers.

use vstd::prelude::*;

pub use doc::parse;
pub use doc::parse_pair;
pub use doc::parse_str;
pub use doc::spec_parse_result;
pub use doc::lemma_document_round_trip;
pub use doc::lemma_pair_literals;
pub use doc::lemma_render_parses_at;
pub use doc::lemma_render_round_trip;
pub use doc::lemma_trivia_only_empty;
pub use doc::spec_doc_from;
pub use doc::spec_pair;
pub use doc::spec_parse;
pub use doc::DocResult;
pub use doc::Pair;
pub use doc::PairResult;

mod doc;
mod error;
mod mapping;
mod pos;
mod scan;
mod trivia;

pub use error::Expectation;
pub use error::ParseError;
pub use mapping::all_literal;
pub use mapping::bytes_eq;
pub use mapping::distinct_keys;
pub use mapping::lemma_fold_pairs_props;
pub use mapping::push_bytes;
pub use mapping::spec_fold_pairs;
pub use mapping::spec_render;
pub use mapping::spec_render_pair;
pub use mapping::StringsMap;
pub use pos::position_of;
pub use pos::spec_col_of;
pub use pos::spec_line_of;
pub use scan::is_literal;
pub use scan::lemma_literal_shape;
pub use scan::scan_string;
pub use scan::spec_scan_string;
pub use scan::Scan;
pub use scan::ScanResult;
pub use trivia::skip_trivia;
pub use trivia::spec_skip_trivia;
pub use trivia::spec_trivia_step;
