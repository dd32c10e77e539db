//! Newline-delimited input: one record per non-blank line.

use vstd::prelude::*;
use vstd::utf8::encode_utf8;
use crate::encode::records_model;
use crate::field::{Field, FieldModel, LineParseError, fields_model};
use crate::lenient::{fields_of_chars, parse_fields_model};
use crate::strict::{strict_model, strict_of_chars};
use crate::text::{all_whitespace, byte_len, chars_of, is_blank, lemma_subrange_encoding_bound};

verus! {

/// The first index at or after `i` that holds a line feed, or the end.
pub open spec fn next_newline(s: Seq<char>, i: nat) -> nat
    decreases s.len() - i,
{
    if i >= s.len() {
        i
    } else if s[i as int] == '\n' {
        i
    } else {
        next_newline(s, i + 1)
    }
}

/// A line without the carriage return that ends it, if one does.
pub open spec fn strip_cr(l: Seq<char>) -> Seq<char> {
    if l.len() > 0 && l.last() == '\r' {
        l.drop_last()
    } else {
        l
    }
}

/// The lines of `s` from index `i` on, as `str::lines` gives them: split at line feeds,
/// a carriage return before a line feed dropped, no line after a final line feed.
pub open spec fn lines_from(s: Seq<char>, i: nat) -> Seq<Seq<char>>
    decreases s.len() - i,
{
    if i >= s.len() {
        Seq::empty()
    } else {
        let e = next_newline(s, i);
        if e >= s.len() {
            seq![s.subrange(i as int, s.len() as int)]
        } else {
            proof {
                lemma_next_newline_bounds(s, i);
            }
            seq![strip_cr(s.subrange(i as int, e as int))] + lines_from(s, e + 1)
        }
    }
}

/// The lines of `s`.
pub open spec fn lines_model(s: Seq<char>) -> Seq<Seq<char>> {
    lines_from(s, 0)
}

pub proof fn lemma_next_newline_bounds(s: Seq<char>, i: nat)
    requires
        i <= s.len(),
    ensures
        i <= next_newline(s, i) <= s.len(),
        forall|k: int| i <= k < next_newline(s, i) ==> #[trigger] s[k] != '\n',
        next_newline(s, i) < s.len() ==> s[next_newline(s, i) as int] == '\n',
    decreases s.len() - i,
{
    if i < s.len() && s[i as int] != '\n' {
        lemma_next_newline_bounds(s, i + 1);
    }
}

/// The records of the non-blank lines among `ls`, each read leniently.
pub open spec fn records_of_lines(ls: Seq<Seq<char>>) -> Seq<Seq<FieldModel>>
    decreases ls.len(),
{
    if ls.len() == 0 {
        Seq::empty()
    } else {
        let prev = records_of_lines(ls.drop_last());
        if is_blank(ls.last()) {
            prev
        } else {
            prev.push(parse_fields_model(ls.last()))
        }
    }
}

/// The records of the non-blank lines of `s`, read leniently.
pub open spec fn parse_lines_model(s: Seq<char>) -> Seq<Seq<FieldModel>> {
    records_of_lines(lines_model(s))
}

/// The records of the non-blank lines among `ls`, each read strictly; the first refusal,
/// with its line number counted from 1 over all lines, blank ones included.
pub open spec fn strict_lines_of(ls: Seq<Seq<char>>) -> Result<Seq<Seq<FieldModel>>, LineParseError>
    decreases ls.len(),
{
    if ls.len() == 0 {
        Ok(Seq::empty())
    } else {
        match strict_lines_of(ls.drop_last()) {
            Err(e) => Err(e),
            Ok(prev) => if is_blank(ls.last()) {
                Ok(prev)
            } else {
                match strict_model(ls.last()) {
                    Ok(fs) => Ok(prev.push(fs)),
                    Err(e) => Err(LineParseError { line: ls.len() as usize, error: e }),
                }
            },
        }
    }
}

/// The strict reading of the lines of `s`.
pub open spec fn parse_lines_strict_model(s: Seq<char>) -> Result<
    Seq<Seq<FieldModel>>,
    LineParseError,
> {
    strict_lines_of(lines_model(s))
}

/// The records of the non-blank lines among `ls` that read strictly, and a refusal for
/// each one that does not, both in line order.
pub open spec fn lossy_lines_of(ls: Seq<Seq<char>>) -> (Seq<Seq<FieldModel>>, Seq<LineParseError>)
    decreases ls.len(),
{
    if ls.len() == 0 {
        (Seq::empty(), Seq::empty())
    } else {
        let prev = lossy_lines_of(ls.drop_last());
        if is_blank(ls.last()) {
            prev
        } else {
            match strict_model(ls.last()) {
                Ok(fs) => (prev.0.push(fs), prev.1),
                Err(e) => (prev.0, prev.1.push(LineParseError { line: ls.len() as usize, error: e })),
            }
        }
    }
}

/// The lossy reading of the lines of `s`.
pub open spec fn parse_lines_lossy_model(s: Seq<char>) -> (Seq<Seq<FieldModel>>, Seq<LineParseError>) {
    lossy_lines_of(lines_model(s))
}

pub open spec fn vecs_model(v: Seq<Vec<char>>) -> Seq<Seq<char>> {
    v.map_values(|x: Vec<char>| x@)
}

/// A vector holding the characters `s[from..to]`.
pub fn vec_of_range(s: &Vec<char>, from: usize, to: usize) -> (r: Vec<char>)
    requires
        from <= to <= s.len(),
    ensures
        r@ == s@.subrange(from as int, to as int),
{
    let mut r: Vec<char> = Vec::new();
    let mut i = from;
    while i < to
        invariant
            from <= i <= to <= s.len(),
            r@ == s@.subrange(from as int, i as int),
        decreases to - i,
    {
        r.push(s[i]);
        i = i + 1;
    }
    r
}

/// Splits a character sequence into its lines.
pub fn split_lines(s: &Vec<char>) -> (lines: Vec<Vec<char>>)
    ensures
        vecs_model(lines@) == lines_model(s@),
        forall|k: int|
            0 <= k < lines@.len() ==> encode_utf8(#[trigger] lines@[k]@).len() <= encode_utf8(
                s@,
            ).len(),
{
    let mut lines: Vec<Vec<char>> = Vec::new();
    let mut start: usize = 0;
    while start < s.len()
        invariant
            start <= s.len(),
            vecs_model(lines@) + lines_from(s@, start as nat) == lines_from(s@, 0),
            forall|k: int|
                0 <= k < lines@.len() ==> encode_utf8(#[trigger] lines@[k]@).len() <= encode_utf8(
                    s@,
                ).len(),
        decreases s.len() - start,
    {
        let ghost l0 = vecs_model(lines@);
        proof {
            lemma_next_newline_bounds(s@, start as nat);
        }
        let mut e = start;
        while e < s.len() && s[e] != '\n'
            invariant
                start <= e <= s.len(),
                next_newline(s@, e as nat) == next_newline(s@, start as nat),
            decreases s.len() - e,
        {
            e = e + 1;
        }
        if e >= s.len() {
            let line = vec_of_range(s, start, s.len());
            proof {
                lemma_subrange_encoding_bound(s@, start as int, s.len() as int);
            }
            lines.push(line);
            proof {
                assert(vecs_model(lines@) =~= l0 + seq![s@.subrange(start as int, s.len() as int)]);
                assert(vecs_model(lines@) + Seq::<Seq<char>>::empty() =~= l0 + lines_from(
                    s@,
                    start as nat,
                ));
            }
            start = s.len();
        } else {
            let mut end = e;
            if end > start && s[end - 1] == '\r' {
                end = end - 1;
            }
            let line = vec_of_range(s, start, end);
            proof {
                lemma_subrange_encoding_bound(s@, start as int, end as int);
                assert(line@ =~= strip_cr(s@.subrange(start as int, e as int)));
            }
            lines.push(line);
            proof {
                assert(vecs_model(lines@) =~= l0 + seq![line@]);
                assert(l0 + lines_from(s@, start as nat) =~= vecs_model(lines@) + lines_from(
                    s@,
                    (e + 1) as nat,
                ));
            }
            start = e + 1;
        }
    }
    proof {
        assert(vecs_model(lines@) + Seq::<Seq<char>>::empty() =~= vecs_model(lines@));
    }
    lines
}

/// Parses newline-delimited logfmt records into structured fields.
pub fn parse_lines(input: &str) -> (records: Vec<Vec<Field>>)
    ensures
        records_model(records@) == parse_lines_model(input@),
{
    let s = chars_of(input);
    let lines = split_lines(&s);
    let ghost ls = vecs_model(lines@);
    let mut records: Vec<Vec<Field>> = Vec::new();
    let mut k: usize = 0;
    proof {
        assert(ls.take(0) =~= Seq::<Seq<char>>::empty());
        assert(records_model(records@) =~= Seq::<Seq<FieldModel>>::empty());
    }
    while k < lines.len()
        invariant
            ls == vecs_model(lines@),
            ls == lines_model(s@),
            k <= lines.len(),
            records_model(records@) == records_of_lines(ls.take(k as int)),
        decreases lines.len() - k,
    {
        let ghost r0 = records_model(records@);
        proof {
            assert(ls.take(k + 1).drop_last() =~= ls.take(k as int));
            assert(ls.take(k + 1).last() == lines@[k as int]@);
        }
        if !all_whitespace(&lines[k]) {
            let fields = fields_of_chars(&lines[k]);
            records.push(fields);
            proof {
                assert(records_model(records@) =~= r0.push(fields_model(fields@)));
            }
        }
        k = k + 1;
    }
    proof {
        assert(ls.take(lines.len() as int) =~= ls);
    }
    records
}

/// Once a prefix of the lines is refused, every longer prefix is refused the same way.
pub proof fn lemma_strict_lines_error_persists(ls: Seq<Seq<char>>, m: int, n: int)
    requires
        0 <= m <= n <= ls.len(),
        strict_lines_of(ls.take(m)) is Err,
    ensures
        strict_lines_of(ls.take(n)) == strict_lines_of(ls.take(m)),
    decreases n - m,
{
    if n > m {
        lemma_strict_lines_error_persists(ls, m, n - 1);
        assert(ls.take(n).drop_last() =~= ls.take(n - 1));
    }
}

/// Parses newline-delimited logfmt records and reports the failing line on malformed input.
pub fn parse_lines_strict(input: &str) -> (r: Result<Vec<Vec<Field>>, LineParseError>)
    ensures
        match r {
            Ok(records) => parse_lines_strict_model(input@) == Ok::<
                Seq<Seq<FieldModel>>,
                LineParseError,
            >(records_model(records@)),
            Err(e) => parse_lines_strict_model(input@) == Err::<
                Seq<Seq<FieldModel>>,
                LineParseError,
            >(e),
        },
{
    // The input's byte length fits a `usize`, and so does every byte offset in it.
    let n = byte_len(input);
    let s = chars_of(input);
    let lines = split_lines(&s);
    let ghost ls = vecs_model(lines@);
    let mut records: Vec<Vec<Field>> = Vec::new();
    let mut k: usize = 0;
    proof {
        assert(ls.take(0) =~= Seq::<Seq<char>>::empty());
        assert(records_model(records@) =~= Seq::<Seq<FieldModel>>::empty());
    }
    while k < lines.len()
        invariant
            ls == vecs_model(lines@),
            ls == lines_model(s@),
            s@ == input@,
            n == encode_utf8(s@).len(),
            forall|j: int|
                0 <= j < lines@.len() ==> encode_utf8(#[trigger] lines@[j]@).len() <= encode_utf8(
                    s@,
                ).len(),
            k <= lines.len(),
            strict_lines_of(ls.take(k as int)) == Ok::<Seq<Seq<FieldModel>>, LineParseError>(
                records_model(records@),
            ),
        decreases lines.len() - k,
    {
        let ghost r0 = records_model(records@);
        proof {
            assert(ls.take(k + 1).drop_last() =~= ls.take(k as int));
            assert(ls.take(k + 1).last() == lines@[k as int]@);
        }
        if !all_whitespace(&lines[k]) {
            match strict_of_chars(&lines[k]) {
                Ok(fields) => {
                    records.push(fields);
                    proof {
                        assert(records_model(records@) =~= r0.push(fields_model(fields@)));
                    }
                },
                Err(error) => {
                    proof {
                        let t = ls.take(k + 1);
                        assert(!is_blank(t.last()));
                        assert(strict_lines_of(t) == Err::<Seq<Seq<FieldModel>>, LineParseError>(
                            LineParseError { line: (k + 1) as usize, error },
                        ));
                        lemma_strict_lines_error_persists(ls, k + 1, ls.len() as int);
                        assert(ls.take(ls.len() as int) =~= ls);
                        assert(parse_lines_strict_model(input@) == Err::<
                            Seq<Seq<FieldModel>>,
                            LineParseError,
                        >(LineParseError { line: (k + 1) as usize, error }));
                    }
                    return Err(LineParseError { line: k + 1, error });
                },
            }
        }
        k = k + 1;
    }
    proof {
        assert(ls.take(lines.len() as int) =~= ls);
    }
    Ok(records)
}

/// Parses newline-delimited logfmt records and separates well-formed lines from errors.
pub fn parse_lines_lossy(input: &str) -> (r: (Vec<Vec<Field>>, Vec<LineParseError>))
    ensures
        (records_model(r.0@), r.1@) == parse_lines_lossy_model(input@),
{
    // The input's byte length fits a `usize`, and so does every byte offset in it.
    let n = byte_len(input);
    let s = chars_of(input);
    let lines = split_lines(&s);
    let ghost ls = vecs_model(lines@);
    let mut records: Vec<Vec<Field>> = Vec::new();
    let mut errors: Vec<LineParseError> = Vec::new();
    let mut k: usize = 0;
    proof {
        assert(ls.take(0) =~= Seq::<Seq<char>>::empty());
        assert(records_model(records@) =~= Seq::<Seq<FieldModel>>::empty());
        assert(errors@ =~= Seq::<LineParseError>::empty());
    }
    while k < lines.len()
        invariant
            ls == vecs_model(lines@),
            ls == lines_model(s@),
            s@ == input@,
            n == encode_utf8(s@).len(),
            forall|j: int|
                0 <= j < lines@.len() ==> encode_utf8(#[trigger] lines@[j]@).len() <= encode_utf8(
                    s@,
                ).len(),
            k <= lines.len(),
            lossy_lines_of(ls.take(k as int)) == (records_model(records@), errors@),
        decreases lines.len() - k,
    {
        let ghost r0 = records_model(records@);
        let ghost e0 = errors@;
        proof {
            assert(ls.take(k + 1).drop_last() =~= ls.take(k as int));
            assert(ls.take(k + 1).last() == lines@[k as int]@);
        }
        if !all_whitespace(&lines[k]) {
            match strict_of_chars(&lines[k]) {
                Ok(fields) => {
                    records.push(fields);
                    proof {
                        assert(records_model(records@) =~= r0.push(fields_model(fields@)));
                    }
                },
                Err(error) => {
                    errors.push(LineParseError { line: k + 1, error });
                },
            }
        }
        k = k + 1;
    }
    proof {
        assert(ls.take(lines.len() as int) =~= ls);
    }
    (records, errors)
}

} // verus!
