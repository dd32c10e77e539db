//! A small hand-rolled `logfmt` parser with verified contracts.
//!
//! Lenient readings (`tokenize`, `parse`, `parse_fields`, ...) never fail; strict readings
//! (`parse_strict`, `parse_lines_strict`, ...) refuse malformed input at a byte offset.
//! Typed wrappers (`Field`, `Record`, `Document`, `FieldMap`) offer lookup and editing,
//! and the encoders write fields back out as normalized text.

pub mod document;
pub mod encode;
pub mod field;
pub mod fieldmap;
pub mod laws;
pub mod lenient;
pub mod lines;
pub mod logfmt;
pub mod message;
pub mod normalize;
pub mod record;
pub mod scan;
pub mod strict;
pub mod text;

pub use document::{Document, parse_document, parse_document_strict};
pub use encode::{encode_fields, encode_lines, escape_value};
pub use field::{Field, LineParseError, ParseError, ParseErrorKind, Token};
pub use fieldmap::FieldMap;
pub use lenient::{parse_fields, tokenize};
pub use lines::{parse_lines, parse_lines_lossy, parse_lines_strict};
pub use normalize::{
    encode_map, normalize, normalize_document, normalize_document_strict, normalize_lines,
    normalize_lines_strict, normalize_strict, parse, parse_flags, parse_pairs, parse_to_map,
    parse_to_map_strict,
};
pub use record::{Record, parse_record, parse_record_strict};
pub use strict::{parse_strict, unescape_value};
