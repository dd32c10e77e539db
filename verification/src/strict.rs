//! The strict reading of a logfmt line, which refuses malformed input at a byte offset.

use vstd::prelude::*;
use vstd::utf8::encode_utf8;
use crate::field::{
    Field, FieldModel, ParseError, ParseErrorKind, fields_model, flag_model, owned, pair_model,
};
use crate::scan::{
    delim_end, lemma_delim_end_bounds, lemma_quoted_strict_bounds, lemma_ws_end_bounds,
    quoted_strict, read_quoted_value_strict, read_until_delimiter, read_until_whitespace, ws_end,
};
use crate::text::{
    byte_len, byte_offset, chars_of, is_ascii_whitespace, is_ascii_ws, lemma_byte_offset_bound,
    lemma_byte_offset_step, utf8_width,
};

verus! {

/// `f` put in front of the fields of a successful result; an error stays as it is.
pub open spec fn prepend(f: FieldModel, r: Result<Seq<FieldModel>, ParseError>) -> Result<
    Seq<FieldModel>,
    ParseError,
> {
    match r {
        Ok(fs) => Ok(seq![f] + fs),
        Err(e) => Err(e),
    }
}

/// `acc` put in front of the fields of a successful result; an error stays as it is.
pub open spec fn prepend_all(acc: Seq<FieldModel>, r: Result<Seq<FieldModel>, ParseError>) -> Result<
    Seq<FieldModel>,
    ParseError,
> {
    match r {
        Ok(fs) => Ok(acc + fs),
        Err(e) => Err(e),
    }
}

/// The error of `kind` at the byte offset of character `i` of `s`.
pub open spec fn error_at(s: Seq<char>, i: int, kind: ParseErrorKind) -> ParseError {
    ParseError { position: byte_offset(s, i) as usize, kind }
}

/// The strict reading of `s` from index `i` on.
///
/// ASCII whitespace separates fields. An `=` where a key should start is a missing key,
/// and a `"` there an unexpected quote. A key runs to the next whitespace or `=`; after
/// an `=` comes a quoted value (which must be closed), a word up to the next whitespace,
/// or, before whitespace or the end, the empty value.
pub open spec fn strict_from(s: Seq<char>, i: nat) -> Result<Seq<FieldModel>, ParseError>
    decreases s.len() - i,
{
    if i >= s.len() {
        Ok(Seq::empty())
    } else if is_ascii_ws(s[i as int]) {
        strict_from(s, i + 1)
    } else if s[i as int] == '=' {
        Err(error_at(s, i as int, ParseErrorKind::MissingKey))
    } else if s[i as int] == '"' {
        Err(error_at(s, i as int, ParseErrorKind::UnexpectedQuote))
    } else {
        proof {
            lemma_delim_end_bounds(s, i);
        }
        let k = delim_end(s, i);
        let key = s.subrange(i as int, k as int);
        if k < s.len() && s[k as int] == '=' {
            let j = k + 1;
            if j < s.len() && s[j as int] == '"' {
                proof {
                    lemma_quoted_strict_bounds(s, j + 1);
                }
                match quoted_strict(s, j + 1) {
                    Some(r) => prepend(pair_model(key, r.0), strict_from(s, r.1)),
                    None => Err(error_at(s, j as int, ParseErrorKind::UnterminatedQuote)),
                }
            } else if j < s.len() && !is_ascii_ws(s[j as int]) {
                proof {
                    lemma_ws_end_bounds(s, j);
                }
                let e = ws_end(s, j);
                prepend(pair_model(key, s.subrange(j as int, e as int)), strict_from(s, e))
            } else {
                prepend(pair_model(key, Seq::empty()), strict_from(s, j))
            }
        } else {
            prepend(flag_model(key), strict_from(s, k))
        }
    }
}

/// The strict reading of `s`.
pub open spec fn strict_model(s: Seq<char>) -> Result<Seq<FieldModel>, ParseError> {
    strict_from(s, 0)
}

/// The byte offset of character `i` of `s` in its UTF-8 encoding.
pub fn byte_offset_of(s: &Vec<char>, i: usize) -> (n: usize)
    requires
        i <= s.len(),
        encode_utf8(s@).len() <= usize::MAX,
    ensures
        n == byte_offset(s@, i as int),
{
    let mut n: usize = 0;
    let mut k: usize = 0;
    proof {
        assert(s@.take(0) =~= Seq::<char>::empty());
    }
    while k < i
        invariant
            k <= i <= s.len(),
            encode_utf8(s@).len() <= usize::MAX,
            n == byte_offset(s@, k as int),
        decreases i - k,
    {
        let w = utf8_width(s[k]);
        proof {
            lemma_byte_offset_step(s@, k as int);
            lemma_byte_offset_bound(s@, k + 1);
        }
        n = n + w;
        k = k + 1;
    }
    n
}

fn error_at_index(s: &Vec<char>, i: usize, kind: ParseErrorKind) -> (e: ParseError)
    requires
        i <= s.len(),
        encode_utf8(s@).len() <= usize::MAX,
    ensures
        e == error_at(s@, i as int, kind),
{
    ParseError { position: byte_offset_of(s, i), kind }
}

/// Parses a character sequence strictly.
pub fn strict_of_chars(s: &Vec<char>) -> (r: Result<Vec<Field>, ParseError>)
    requires
        encode_utf8(s@).len() <= usize::MAX,
    ensures
        match r {
            Ok(fs) => strict_model(s@) == Ok::<Seq<FieldModel>, ParseError>(fields_model(fs@)),
            Err(e) => strict_model(s@) == Err::<Seq<FieldModel>, ParseError>(e),
        },
{
    let mut fields: Vec<Field> = Vec::new();
    let mut i: usize = 0;
    while i < s.len()
        invariant
            i <= s.len(),
            encode_utf8(s@).len() <= usize::MAX,
            strict_from(s@, 0) == prepend_all(fields_model(fields@), strict_from(s@, i as nat)),
        decreases s.len() - i,
    {
        let ghost f0 = fields_model(fields@);
        let c = s[i];
        if is_ascii_whitespace(c) {
            i = i + 1;
            continue;
        }
        if c == '=' {
            return Err(error_at_index(s, i, ParseErrorKind::MissingKey));
        }
        if c == '"' {
            return Err(error_at_index(s, i, ParseErrorKind::UnexpectedQuote));
        }
        proof {
            lemma_delim_end_bounds(s@, i as nat);
        }
        let (key, k) = read_until_delimiter(s, i);
        if k < s.len() && s[k] == '=' {
            let j = k + 1;
            if j < s.len() && s[j] == '"' {
                proof {
                    lemma_quoted_strict_bounds(s@, (j + 1) as nat);
                }
                // The quote's byte offset is worked out only if the value turns out unterminated.
                match read_quoted_value_strict(s, j + 1, 0) {
                    Ok((v, e)) => {
                        fields.push(Field { key, value: Some(v) });
                        proof {
                            assert(fields_model(fields@) =~= f0 + seq![pair_model(key@, v@)]);
                            match strict_from(s@, e as nat) {
                                Ok(fs) => {
                                    assert(f0 + (seq![pair_model(key@, v@)] + fs) =~= fields_model(
                                        fields@,
                                    ) + fs);
                                },
                                Err(_) => {},
                            }
                        }
                        i = e;
                    },
                    Err(_) => {
                        return Err(error_at_index(s, j, ParseErrorKind::UnterminatedQuote));
                    },
                }
            } else if j < s.len() && !is_ascii_whitespace(s[j]) {
                proof {
                    lemma_ws_end_bounds(s@, j as nat);
                }
                let (v, e) = read_until_whitespace(s, j);
                fields.push(Field { key, value: Some(v) });
                proof {
                    assert(fields_model(fields@) =~= f0 + seq![pair_model(key@, v@)]);
                    match strict_from(s@, e as nat) {
                        Ok(fs) => {
                            assert(f0 + (seq![pair_model(key@, v@)] + fs) =~= fields_model(fields@)
                                + fs);
                        },
                        Err(_) => {},
                    }
                }
                i = e;
            } else {
                fields.push(Field { key, value: Some(String::new()) });
                proof {
                    assert(fields_model(fields@) =~= f0 + seq![pair_model(key@, Seq::empty())]);
                    match strict_from(s@, j as nat) {
                        Ok(fs) => {
                            assert(f0 + (seq![pair_model(key@, Seq::empty())] + fs)
                                =~= fields_model(fields@) + fs);
                        },
                        Err(_) => {},
                    }
                }
                i = j;
            }
        } else {
            fields.push(Field { key, value: None });
            proof {
                assert(fields_model(fields@) =~= f0 + seq![flag_model(key@)]);
                match strict_from(s@, k as nat) {
                    Ok(fs) => {
                        assert(f0 + (seq![flag_model(key@)] + fs) =~= fields_model(fields@) + fs);
                    },
                    Err(_) => {},
                }
            }
            i = k;
        }
    }
    proof {
        assert(fields_model(fields@) + Seq::<FieldModel>::empty() =~= fields_model(fields@));
    }
    Ok(fields)
}

/// Parses a logfmt input string and returns a structured error for malformed input.
pub fn parse_strict(input: &str) -> (r: Result<Vec<Field>, ParseError>)
    ensures
        match r {
            Ok(fs) => strict_model(input@) == Ok::<Seq<FieldModel>, ParseError>(fields_model(fs@)),
            Err(e) => strict_model(input@) == Err::<Seq<FieldModel>, ParseError>(e),
        },
{
    // The input's byte length fits a `usize`, and so does every byte offset in it.
    let n = byte_len(input);
    let s = chars_of(input);
    assert(encode_utf8(s@).len() == n);
    strict_of_chars(&s)
}

/// What reading a possibly quoted value gives: an unquoted input is the value itself;
/// a quoted one must close and end there, and its escapes are interpreted.
pub open spec fn unescape_model(s: Seq<char>) -> Result<Seq<char>, ParseError> {
    if s.len() == 0 || s[0] != '"' {
        Ok(s)
    } else {
        match quoted_strict(s, 1) {
            None => Err(ParseError { position: 0, kind: ParseErrorKind::UnterminatedQuote }),
            Some(r) => if r.1 < s.len() {
                Err(ParseError { position: 0, kind: ParseErrorKind::UnexpectedQuote })
            } else {
                Ok(r.0)
            },
        }
    }
}

/// Reverses `escape_value` by consuming a possibly-quoted logfmt value.
pub fn unescape_value(input: &str) -> (r: Result<String, ParseError>)
    ensures
        match r {
            Ok(v) => unescape_model(input@) == Ok::<Seq<char>, ParseError>(v@),
            Err(e) => unescape_model(input@) == Err::<Seq<char>, ParseError>(e),
        },
{
    let s = chars_of(input);
    if s.len() == 0 || s[0] != '"' {
        return Ok(owned(input));
    }
    match read_quoted_value_strict(&s, 1, 0) {
        Err(e) => Err(e),
        Ok((v, e)) => {
            if e < s.len() {
                Err(ParseError { position: 0, kind: ParseErrorKind::UnexpectedQuote })
            } else {
                Ok(v)
            }
        },
    }
}

} // verus!
