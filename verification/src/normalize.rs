//! Convenience readings of a line (tuples, pairs, flags, maps) and normalization.

use vstd::prelude::*;
use crate::document::{parse_document, parse_document_strict};
use crate::encode::{encode_fields, encode_fields_model, encode_lines, encode_lines_model};
use crate::field::{FieldModel, LineParseError, ParseError, fields_model};
use crate::fieldmap::{FieldMap, fields_to_map, last_value};
use crate::lenient::{parse_fields, parse_fields_model};
use crate::lines::{parse_lines, parse_lines_model, parse_lines_strict, parse_lines_strict_model};
use crate::record::{flags_model, pairs_model, reversed};
use crate::strict::{parse_strict, strict_model};

verus! {

/// Each field as a key and a value, a flag's value being empty.
pub open spec fn tuples_model(fs: Seq<FieldModel>) -> Seq<(Seq<char>, Seq<char>)> {
    fs.map_values(
        |f: FieldModel|
            (
                f.key,
                match f.value {
                    Some(v) => v,
                    None => Seq::empty(),
                },
            ),
    )
}

pub open spec fn string_pairs_model(v: Seq<(String, String)>) -> Seq<(Seq<char>, Seq<char>)> {
    v.map_values(|p: (String, String)| (p.0@, p.1@))
}

pub open spec fn strings_model(v: Seq<String>) -> Seq<Seq<char>> {
    v.map_values(|s: String| s@)
}

/// Parses a logfmt input string into key-value tuples; a flag gets the empty value.
pub fn parse(input: &str) -> (r: Vec<(String, String)>)
    ensures
        string_pairs_model(r@) == tuples_model(parse_fields_model(input@)),
{
    let fields = parse_fields(input);
    let ghost fs = fields@;
    let n = fields.len();
    let mut rest = reversed(fields);
    let mut out: Vec<(String, String)> = Vec::new();
    let mut i: usize = 0;
    while i < n
        invariant
            n == fs.len(),
            i <= n,
            rest@.len() == n - i,
            forall|j: int| 0 <= j < n - i ==> #[trigger] rest@[j] == fs[n - 1 - j],
            string_pairs_model(out@) == tuples_model(fields_model(fs.take(i as int))),
        decreases n - i,
    {
        let f = rest.pop().unwrap();
        assert(f == fs[i as int]);
        let ghost o = string_pairs_model(out@);
        let ghost fm = f@;
        let value = match f.value {
            Some(v) => v,
            None => String::new(),
        };
        assert(value@ == match fm.value {
            Some(v) => v,
            None => Seq::<char>::empty(),
        });
        let ghost pair = (fm.key, value@);
        out.push((f.key, value));
        proof {
            assert(string_pairs_model(out@) =~= o.push(pair));
            let prev = fields_model(fs.take(i as int));
            assert(fields_model(fs.take(i + 1)) =~= prev.push(fm));
            assert(tuples_model(prev.push(fm)) =~= tuples_model(prev).push(pair));
        }
        i = i + 1;
    }
    proof {
        assert(fs.take(n as int) =~= fs);
    }
    out
}

/// Extracts only the key/value pairs from a logfmt input, discarding bare flags.
pub fn parse_pairs(input: &str) -> (r: Vec<(String, String)>)
    ensures
        string_pairs_model(r@) == pairs_model(parse_fields_model(input@)),
{
    let fields = parse_fields(input);
    let ghost fs = fields_model(fields@);
    let n = fields.len();
    let mut rest = reversed(fields);
    let mut out: Vec<(String, String)> = Vec::new();
    let mut i: usize = 0;
    while i < n
        invariant
            n == fs.len(),
            i <= n,
            rest@.len() == n - i,
            forall|j: int| 0 <= j < n - i ==> #[trigger] rest@[j]@ == fs[n - 1 - j],
            string_pairs_model(out@) == pairs_model(fs.take(i as int)),
        decreases n - i,
    {
        let f = rest.pop().unwrap();
        assert(f@ == fs[i as int]);
        let ghost o = string_pairs_model(out@);
        proof {
            assert(fs.take(i + 1).drop_last() =~= fs.take(i as int));
        }
        match f.value {
            Some(v) => {
                out.push((f.key, v));
                assert(string_pairs_model(out@) =~= o.push((f@.key, f@.value.unwrap())));
            },
            None => {},
        }
        i = i + 1;
    }
    proof {
        assert(fs.take(n as int) =~= fs);
    }
    out
}

/// Extracts only the bare flags from a logfmt input, discarding key/value pairs.
pub fn parse_flags(input: &str) -> (r: Vec<String>)
    ensures
        strings_model(r@) == flags_model(parse_fields_model(input@)),
{
    let fields = parse_fields(input);
    let ghost fs = fields_model(fields@);
    let n = fields.len();
    let mut rest = reversed(fields);
    let mut out: Vec<String> = Vec::new();
    let mut i: usize = 0;
    while i < n
        invariant
            n == fs.len(),
            i <= n,
            rest@.len() == n - i,
            forall|j: int| 0 <= j < n - i ==> #[trigger] rest@[j]@ == fs[n - 1 - j],
            strings_model(out@) == flags_model(fs.take(i as int)),
        decreases n - i,
    {
        let f = rest.pop().unwrap();
        assert(f@ == fs[i as int]);
        let ghost o = strings_model(out@);
        proof {
            assert(fs.take(i + 1).drop_last() =~= fs.take(i as int));
        }
        if f.value.is_none() {
            let ghost k = f.key@;
            out.push(f.key);
            assert(strings_model(out@) =~= o.push(k));
        }
        i = i + 1;
    }
    proof {
        assert(fs.take(n as int) =~= fs);
    }
    out
}

/// Parses a logfmt input string into a last-write-wins map.
pub fn parse_to_map(input: &str) -> (m: FieldMap)
    ensures
        m.wf(),
        forall|k: Seq<char>| #[trigger] m.lookup(k) == last_value(parse_fields_model(input@), k),
{
    let fields = parse_fields(input);
    fields_to_map(fields.as_slice())
}

/// Parses a logfmt input string into a last-write-wins map and surfaces malformed input.
pub fn parse_to_map_strict(input: &str) -> (r: Result<FieldMap, ParseError>)
    ensures
        match r {
            Ok(m) => m.wf() && (strict_model(input@) matches Ok(fs) && forall|k: Seq<char>|
                #[trigger] m.lookup(k) == last_value(fs, k)),
            Err(e) => strict_model(input@) == Err::<Seq<FieldModel>, ParseError>(e),
        },
{
    match parse_strict(input) {
        Ok(fields) => Ok(fields_to_map(fields.as_slice())),
        Err(e) => Err(e),
    }
}

/// Encodes a last-write-wins map into normalized logfmt text, keys in increasing order.
pub fn encode_map(map: &FieldMap) -> (r: String)
    ensures
        r@ == encode_fields_model(map.entries_model()),
{
    encode_fields(map.entries())
}

/// Parses and re-encodes logfmt input into a normalized representation.
pub fn normalize(input: &str) -> (r: String)
    ensures
        r@ == encode_fields_model(parse_fields_model(input@)),
{
    let fields = parse_fields(input);
    encode_fields(fields.as_slice())
}

/// Parses and re-encodes logfmt input, returning malformed input as an error.
pub fn normalize_strict(input: &str) -> (r: Result<String, ParseError>)
    ensures
        match r {
            Ok(s) => (strict_model(input@) matches Ok(fs) && s@ == encode_fields_model(fs)),
            Err(e) => strict_model(input@) == Err::<Seq<FieldModel>, ParseError>(e),
        },
{
    match parse_strict(input) {
        Ok(fields) => Ok(encode_fields(fields.as_slice())),
        Err(e) => Err(e),
    }
}

/// Parses and re-encodes newline-delimited logfmt input into normalized records.
pub fn normalize_lines(input: &str) -> (r: String)
    ensures
        r@ == encode_lines_model(parse_lines_model(input@)),
{
    let records = parse_lines(input);
    encode_lines(records.as_slice())
}

/// Parses and re-encodes newline-delimited logfmt input, returning the failing line as an error.
pub fn normalize_lines_strict(input: &str) -> (r: Result<String, LineParseError>)
    ensures
        match r {
            Ok(s) => (parse_lines_strict_model(input@) matches Ok(rs) && s@ == encode_lines_model(
                rs,
            )),
            Err(e) => parse_lines_strict_model(input@) == Err::<
                Seq<Seq<FieldModel>>,
                LineParseError,
            >(e),
        },
{
    match parse_lines_strict(input) {
        Ok(records) => Ok(encode_lines(records.as_slice())),
        Err(e) => Err(e),
    }
}

/// Parses and re-encodes newline-delimited logfmt input into a typed document.
pub fn normalize_document(input: &str) -> (r: String)
    ensures
        r@ == encode_lines_model(parse_lines_model(input@)),
{
    parse_document(input).encode()
}

/// Parses and re-encodes newline-delimited logfmt input from a typed document, returning
/// the failing line as an error.
pub fn normalize_document_strict(input: &str) -> (r: Result<String, LineParseError>)
    ensures
        match r {
            Ok(s) => (parse_lines_strict_model(input@) matches Ok(rs) && s@ == encode_lines_model(
                rs,
            )),
            Err(e) => parse_lines_strict_model(input@) == Err::<
                Seq<Seq<FieldModel>>,
                LineParseError,
            >(e),
        },
{
    match parse_document_strict(input) {
        Ok(d) => Ok(d.encode()),
        Err(e) => Err(e),
    }
}

} // verus!
