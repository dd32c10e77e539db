//! The whole parsing and encoding API under one path.

pub use crate::document::{Document, parse_document, parse_document_strict};
pub use crate::encode::{encode_fields, encode_lines, escape_value};
pub use crate::field::{Field, LineParseError, ParseError, ParseErrorKind, Token};
pub use crate::fieldmap::FieldMap;
pub use crate::lenient::{parse_fields, tokenize};
pub use crate::lines::{parse_lines, parse_lines_lossy, parse_lines_strict};
pub use crate::normalize::{
    encode_map, normalize, normalize_document, normalize_document_strict, normalize_lines,
    normalize_lines_strict, normalize_strict, parse, parse_flags, parse_pairs, parse_to_map,
    parse_to_map_strict,
};
pub use crate::record::{Record, parse_record, parse_record_strict};
pub use crate::strict::{parse_strict, unescape_value};
