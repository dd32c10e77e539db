//! Human-readable messages for parse errors.

use vstd::prelude::*;
use crate::field::{LineParseError, ParseError, ParseErrorKind};
use crate::text::push_all;

verus! {

/// The decimal digit for `d`, below ten.
pub open spec fn digit_char(d: nat) -> char {
    if d == 0 {
        '0'
    } else if d == 1 {
        '1'
    } else if d == 2 {
        '2'
    } else if d == 3 {
        '3'
    } else if d == 4 {
        '4'
    } else if d == 5 {
        '5'
    } else if d == 6 {
        '6'
    } else if d == 7 {
        '7'
    } else if d == 8 {
        '8'
    } else {
        '9'
    }
}

/// `n` written in decimal, without leading zeros.
pub open spec fn decimal(n: nat) -> Seq<char>
    decreases n,
{
    if n < 10 {
        seq![digit_char(n)]
    } else {
        decimal(n / 10).push(digit_char(n % 10))
    }
}

/// The words that open the message for an error of `kind`.
pub open spec fn kind_words(kind: ParseErrorKind) -> Seq<char> {
    match kind {
        ParseErrorKind::MissingKey => "missing key before '=' at byte "@,
        ParseErrorKind::UnexpectedQuote => "unexpected quoted token at byte "@,
        ParseErrorKind::UnterminatedQuote => "unterminated quoted value at byte "@,
    }
}

/// The message for a parse error: what went wrong, then its byte offset.
pub open spec fn error_message(e: ParseError) -> Seq<char> {
    kind_words(e.kind) + decimal(e.position as nat)
}

/// The message for a refused line: its number, then the parse error's message.
pub open spec fn line_error_message(e: LineParseError) -> Seq<char> {
    "line "@ + decimal(e.line as nat) + ": "@ + error_message(e.error)
}

fn digit(d: usize) -> (c: char)
    requires
        d < 10,
    ensures
        c == digit_char(d as nat),
{
    if d == 0 {
        '0'
    } else if d == 1 {
        '1'
    } else if d == 2 {
        '2'
    } else if d == 3 {
        '3'
    } else if d == 4 {
        '4'
    } else if d == 5 {
        '5'
    } else if d == 6 {
        '6'
    } else if d == 7 {
        '7'
    } else if d == 8 {
        '8'
    } else {
        '9'
    }
}

/// Appends `n` in decimal.
pub fn push_decimal(out: &mut String, n: usize)
    ensures
        final(out)@ == old(out)@ + decimal(n as nat),
    decreases n,
{
    let ghost o = out@;
    if n >= 10 {
        push_decimal(out, n / 10);
    }
    out.push(digit(n % 10));
    proof {
        if n >= 10 {
            assert(out@ =~= o + decimal(n as nat));
        } else {
            assert(out@ =~= o + decimal(n as nat));
        }
    }
}

impl ParseError {
    /// A message naming what went wrong and at which byte, such as
    /// `missing key before '=' at byte 0`.
    pub fn to_string(&self) -> (r: String)
        ensures
            r@ == error_message(*self),
    {
        let mut out = String::new();
        match self.kind {
            ParseErrorKind::MissingKey => push_all(&mut out, "missing key before '=' at byte "),
            ParseErrorKind::UnexpectedQuote => push_all(&mut out, "unexpected quoted token at byte "),
            ParseErrorKind::UnterminatedQuote => push_all(
                &mut out,
                "unterminated quoted value at byte ",
            ),
        }
        push_decimal(&mut out, self.position);
        proof {
            assert(out@ =~= error_message(*self));
        }
        out
    }
}

impl LineParseError {
    /// The parse error behind this line's refusal.
    pub fn source(&self) -> (r: Option<&ParseError>)
        ensures
            r == Some(&self.error),
    {
        Some(&self.error)
    }

    /// A message naming the line and the parse error, such as
    /// `line 2: missing key before '=' at byte 0`.
    pub fn to_string(&self) -> (r: String)
        ensures
            r@ == line_error_message(*self),
    {
        let mut out = String::new();
        push_all(&mut out, "line ");
        push_decimal(&mut out, self.line);
        push_all(&mut out, ": ");
        let inner = self.error.to_string();
        push_all(&mut out, inner.as_str());
        proof {
            assert(out@ =~= line_error_message(*self));
        }
        out
    }
}

} // verus!
