//! Reading words and quoted values out of a character sequence.

use vstd::prelude::*;
use crate::text::{is_ascii_ws, is_ascii_whitespace, string_of_range};

verus! {

/// A character that ends a key: ASCII whitespace or `=`.
pub open spec fn is_delim(c: char) -> bool {
    is_ascii_ws(c) || c == '='
}

/// The first index at or after `i` that holds a key delimiter, or the end.
pub open spec fn delim_end(s: Seq<char>, i: nat) -> nat
    decreases s.len() - i,
{
    if i >= s.len() {
        i
    } else if is_delim(s[i as int]) {
        i
    } else {
        delim_end(s, i + 1)
    }
}

/// The first index at or after `i` that holds ASCII whitespace, or the end.
pub open spec fn ws_end(s: Seq<char>, i: nat) -> nat
    decreases s.len() - i,
{
    if i >= s.len() {
        i
    } else if is_ascii_ws(s[i as int]) {
        i
    } else {
        ws_end(s, i + 1)
    }
}

/// The character that a backslash followed by `c` stands for inside quotes.
pub open spec fn unescape_char(c: char) -> char {
    if c == 'n' {
        '\n'
    } else if c == 'r' {
        '\r'
    } else if c == 't' {
        '\t'
    } else {
        c
    }
}

/// Reading a quoted value leniently from index `i` (just after the opening quote):
/// the unescaped characters up to the closing quote, and the index after it.
/// An unterminated value runs to the end; a backslash as the last character stands for itself.
pub open spec fn quoted_lenient(s: Seq<char>, i: nat) -> (Seq<char>, nat)
    decreases s.len() - i,
{
    if i >= s.len() {
        (Seq::empty(), i)
    } else if s[i as int] == '"' {
        (Seq::empty(), i + 1)
    } else if s[i as int] == '\\' {
        if i + 1 < s.len() {
            let r = quoted_lenient(s, i + 2);
            (seq![unescape_char(s[i + 1int])] + r.0, r.1)
        } else {
            (seq!['\\'], i + 1)
        }
    } else {
        let r = quoted_lenient(s, i + 1);
        (seq![s[i as int]] + r.0, r.1)
    }
}

/// Reading a quoted value strictly from index `i` (just after the opening quote):
/// `None` when no closing quote ends it.
pub open spec fn quoted_strict(s: Seq<char>, i: nat) -> Option<(Seq<char>, nat)>
    decreases s.len() - i,
{
    if i >= s.len() {
        None
    } else if s[i as int] == '"' {
        Some((Seq::empty(), i + 1))
    } else if s[i as int] == '\\' {
        if i + 1 < s.len() {
            match quoted_strict(s, i + 2) {
                Some(r) => Some((seq![unescape_char(s[i + 1int])] + r.0, r.1)),
                None => None,
            }
        } else {
            None
        }
    } else {
        match quoted_strict(s, i + 1) {
            Some(r) => Some((seq![s[i as int]] + r.0, r.1)),
            None => None,
        }
    }
}

pub proof fn lemma_delim_end_bounds(s: Seq<char>, i: nat)
    requires
        i <= s.len(),
    ensures
        i <= delim_end(s, i) <= s.len(),
        forall|k: int| i <= k < delim_end(s, i) ==> !is_delim(#[trigger] s[k]),
        delim_end(s, i) < s.len() ==> is_delim(s[delim_end(s, i) as int]),
    decreases s.len() - i,
{
    if i < s.len() && !is_delim(s[i as int]) {
        lemma_delim_end_bounds(s, i + 1);
    }
}

pub proof fn lemma_ws_end_bounds(s: Seq<char>, i: nat)
    requires
        i <= s.len(),
    ensures
        i <= ws_end(s, i) <= s.len(),
        forall|k: int| i <= k < ws_end(s, i) ==> !is_ascii_ws(#[trigger] s[k]),
        ws_end(s, i) < s.len() ==> is_ascii_ws(s[ws_end(s, i) as int]),
    decreases s.len() - i,
{
    if i < s.len() && !is_ascii_ws(s[i as int]) {
        lemma_ws_end_bounds(s, i + 1);
    }
}

pub proof fn lemma_quoted_lenient_bounds(s: Seq<char>, i: nat)
    requires
        i <= s.len(),
    ensures
        i <= quoted_lenient(s, i).1 <= s.len(),
        i < s.len() ==> i < quoted_lenient(s, i).1,
    decreases s.len() - i,
{
    if i < s.len() {
        if s[i as int] == '\\' && i + 1 < s.len() {
            lemma_quoted_lenient_bounds(s, i + 2);
        } else if s[i as int] != '"' && s[i as int] != '\\' {
            lemma_quoted_lenient_bounds(s, i + 1);
        }
    }
}

pub proof fn lemma_quoted_strict_bounds(s: Seq<char>, i: nat)
    requires
        i <= s.len(),
    ensures
        quoted_strict(s, i) matches Some(r) ==> i < r.1 <= s.len(),
    decreases s.len() - i,
{
    if i < s.len() {
        if s[i as int] == '\\' && i + 1 < s.len() {
            lemma_quoted_strict_bounds(s, i + 2);
        } else if s[i as int] != '"' && s[i as int] != '\\' {
            lemma_quoted_strict_bounds(s, i + 1);
        }
    }
}

pub fn unescape(c: char) -> (r: char)
    ensures
        r == unescape_char(c),
{
    if c == 'n' {
        '\n'
    } else if c == 'r' {
        '\r'
    } else if c == 't' {
        '\t'
    } else {
        c
    }
}

/// The characters from `start` up to the first key delimiter, and the index of that delimiter.
pub fn read_until_delimiter(s: &Vec<char>, start: usize) -> (r: (String, usize))
    requires
        start <= s.len(),
    ensures
        r.1 == delim_end(s@, start as nat),
        r.0@ == s@.subrange(start as int, r.1 as int),
{
    proof {
        lemma_delim_end_bounds(s@, start as nat);
    }
    let mut i = start;
    while i < s.len() && !is_ascii_whitespace(s[i]) && s[i] != '='
        invariant
            start <= i <= s.len(),
            delim_end(s@, i as nat) == delim_end(s@, start as nat),
        decreases s.len() - i,
    {
        i = i + 1;
    }
    (string_of_range(s, start, i), i)
}

/// The characters from `start` up to the first ASCII whitespace, and the index of that whitespace.
pub fn read_until_whitespace(s: &Vec<char>, start: usize) -> (r: (String, usize))
    requires
        start <= s.len(),
    ensures
        r.1 == ws_end(s@, start as nat),
        r.0@ == s@.subrange(start as int, r.1 as int),
{
    proof {
        lemma_ws_end_bounds(s@, start as nat);
    }
    let mut i = start;
    while i < s.len() && !is_ascii_whitespace(s[i])
        invariant
            start <= i <= s.len(),
            ws_end(s@, i as nat) == ws_end(s@, start as nat),
        decreases s.len() - i,
    {
        i = i + 1;
    }
    (string_of_range(s, start, i), i)
}

/// Reads a quoted value leniently, starting just after its opening quote.
pub fn read_quoted_value(s: &Vec<char>, start: usize) -> (r: (String, usize))
    requires
        start <= s.len(),
    ensures
        (r.0@, r.1 as nat) == quoted_lenient(s@, start as nat),
{
    let mut acc = String::new();
    let mut j = start;
    while j < s.len()
        invariant
            start <= j <= s.len(),
            quoted_lenient(s@, start as nat) == (acc@ + quoted_lenient(s@, j as nat).0,
                quoted_lenient(s@, j as nat).1),
        decreases s.len() - j,
    {
        let c = s[j];
        if c == '"' {
            proof {
                assert(acc@ + Seq::<char>::empty() =~= acc@);
            }
            return (acc, j + 1);
        } else if c == '\\' {
            if j + 1 < s.len() {
                let ghost before = acc@;
                acc.push(unescape(s[j + 1]));
                proof {
                    let r = quoted_lenient(s@, (j + 2) as nat);
                    assert(before + (seq![unescape_char(s@[j + 1])] + r.0) =~= acc@ + r.0);
                }
                j = j + 2;
            } else {
                acc.push('\\');
                return (acc, j + 1);
            }
        } else {
            let ghost before = acc@;
            acc.push(c);
            proof {
                let r = quoted_lenient(s@, (j + 1) as nat);
                assert(before + (seq![c] + r.0) =~= acc@ + r.0);
            }
            j = j + 1;
        }
    }
    proof {
        assert(acc@ + Seq::<char>::empty() =~= acc@);
    }
    (acc, j)
}

/// Reads a quoted value strictly, starting just after its opening quote at `quote_position`;
/// a value with no closing quote is an `UnterminatedQuote` error at that position.
pub fn read_quoted_value_strict(s: &Vec<char>, start: usize, quote_position: usize) -> (r: Result<
    (String, usize),
    crate::field::ParseError,
>)
    requires
        start <= s.len(),
    ensures
        match r {
            Ok((v, e)) => quoted_strict(s@, start as nat) == Some((v@, e as nat)),
            Err(err) => quoted_strict(s@, start as nat) is None && err == (crate::field::ParseError {
                position: quote_position,
                kind: crate::field::ParseErrorKind::UnterminatedQuote,
            }),
        },
{
    let mut acc = String::new();
    let mut j = start;
    while j < s.len()
        invariant
            start <= j <= s.len(),
            quoted_strict(s@, start as nat) == match quoted_strict(s@, j as nat) {
                Some(r) => Some((acc@ + r.0, r.1)),
                None => None,
            },
        decreases s.len() - j,
    {
        let c = s[j];
        if c == '"' {
            proof {
                assert(acc@ + Seq::<char>::empty() =~= acc@);
            }
            return Ok((acc, j + 1));
        } else if c == '\\' {
            if j + 1 < s.len() {
                let ghost before = acc@;
                acc.push(unescape(s[j + 1]));
                proof {
                    if let Some(r) = quoted_strict(s@, (j + 2) as nat) {
                        assert(before + (seq![unescape_char(s@[j + 1])] + r.0) =~= acc@ + r.0);
                    }
                }
                j = j + 2;
            } else {
                return Err(
                    crate::field::ParseError {
                        position: quote_position,
                        kind: crate::field::ParseErrorKind::UnterminatedQuote,
                    },
                );
            }
        } else {
            let ghost before = acc@;
            acc.push(c);
            proof {
                if let Some(r) = quoted_strict(s@, (j + 1) as nat) {
                    assert(before + (seq![c] + r.0) =~= acc@ + r.0);
                }
            }
            j = j + 1;
        }
    }
    Err(
        crate::field::ParseError {
            position: quote_position,
            kind: crate::field::ParseErrorKind::UnterminatedQuote,
        },
    )
}

} // verus!
