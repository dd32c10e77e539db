//! Tokens, fields and parse errors, with the mathematical values they stand for.

use vstd::prelude::*;

verus! {

/// One lexical unit of a logfmt line: a word (possibly quoted) or an `=`.
#[derive(Debug, Clone, PartialEq, Eq)]
pub enum Token {
    Atom(String),
    Equal,
}

/// A token as a value: the characters of an atom, or an equals sign.
pub enum TokenModel {
    Atom(Seq<char>),
    Equal,
}

impl View for Token {
    type V = TokenModel;

    open spec fn view(&self) -> TokenModel {
        match self {
            Token::Atom(s) => TokenModel::Atom(s@),
            Token::Equal => TokenModel::Equal,
        }
    }
}

pub open spec fn tokens_model(ts: Seq<Token>) -> Seq<TokenModel> {
    ts.map_values(|t: Token| t@)
}

/// A key with an optional value: `key` alone is a flag, `key=value` a pair.
#[derive(Debug, Clone, PartialEq, Eq)]
pub struct Field {
    pub key: String,
    pub value: Option<String>,
}

/// A field as a value: the characters of its key and of its value, if any.
#[verifier::ext_equal]
pub struct FieldModel {
    pub key: Seq<char>,
    pub value: Option<Seq<char>>,
}

pub open spec fn opt_text(o: Option<String>) -> Option<Seq<char>> {
    match o {
        Some(s) => Some(s@),
        None => None,
    }
}

impl View for Field {
    type V = FieldModel;

    open spec fn view(&self) -> FieldModel {
        FieldModel { key: self.key@, value: opt_text(self.value) }
    }
}

pub open spec fn flag_model(key: Seq<char>) -> FieldModel {
    FieldModel { key, value: None }
}

pub open spec fn pair_model(key: Seq<char>, value: Seq<char>) -> FieldModel {
    FieldModel { key, value: Some(value) }
}

pub open spec fn fields_model(fs: Seq<Field>) -> Seq<FieldModel> {
    fs.map_values(|f: Field| f@)
}

/// What went wrong when strict parsing refused its input.
#[derive(Debug, Clone, Copy, PartialEq, Eq, Structural)]
pub enum ParseErrorKind {
    MissingKey,
    UnexpectedQuote,
    UnterminatedQuote,
}

/// A refusal of the strict parser, at a byte offset of its input.
#[derive(Debug, Clone, Copy, PartialEq, Eq, Structural)]
pub struct ParseError {
    pub position: usize,
    pub kind: ParseErrorKind,
}

/// A refusal of the strict parser on one line (counted from 1) of a multi-line input.
#[derive(Debug, Clone, Copy, PartialEq, Eq, Structural)]
pub struct LineParseError {
    pub line: usize,
    pub error: ParseError,
}

/// An owned copy of `s`.
pub fn owned(s: &str) -> (r: String)
    ensures
        r@ == s@,
{
    s.to_owned()
}

/// A copy of `o` with the same characters.
pub fn copy_opt(o: &Option<String>) -> (r: Option<String>)
    ensures
        opt_text(r) == opt_text(*o),
{
    match o {
        Some(v) => Some(v.clone()),
        None => None,
    }
}

impl Field {
    /// A bare flag `key`.
    pub fn flag(key: &str) -> (r: Field)
        ensures
            r@ == flag_model(key@),
    {
        Field { key: owned(key), value: None }
    }

    /// The pair `key=value`.
    pub fn pair(key: &str, value: &str) -> (r: Field)
        ensures
            r@ == pair_model(key@, value@),
    {
        Field { key: owned(key), value: Some(owned(value)) }
    }

    /// The same key with `value` as its value.
    pub fn with_value(self, value: &str) -> (r: Field)
        ensures
            r@ == pair_model(self@.key, value@),
    {
        let mut f = self;
        f.value = Some(owned(value));
        f
    }

    /// The same key as a bare flag.
    pub fn without_value(self) -> (r: Field)
        ensures
            r@ == flag_model(self@.key),
    {
        let mut f = self;
        f.value = None;
        f
    }

    /// Whether this field has no value.
    pub fn is_flag(&self) -> (r: bool)
        ensures
            r == (self@.value is None),
    {
        self.value.is_none()
    }
}

impl<'a> From<(&'a str, &'a str)> for Field {
    /// The pair `key=value` from `(key, value)`.
    fn from(p: (&'a str, &'a str)) -> (r: Field)
        ensures
            r@ == pair_model(p.0@, p.1@),
    {
        Field::pair(p.0, p.1)
    }
}

/// A `Field` is not fixed by the characters it holds, so no claim is made of `from` in
/// general; the impl's own `ensures` says what it gives.
impl<'a> vstd::std_specs::convert::FromSpecImpl<(&'a str, &'a str)> for Field {
    open spec fn obeys_from_spec() -> bool {
        false
    }

    open spec fn from_spec(v: (&'a str, &'a str)) -> Field {
        choose|f: Field| #[trigger] f.view() == pair_model(v.0@, v.1@)
    }
}

impl<'a> From<(&'a str,)> for Field {
    /// The flag `key` from `(key,)`.
    fn from(p: (&'a str,)) -> (r: Field)
        ensures
            r@ == flag_model(p.0@),
    {
        Field::flag(p.0)
    }
}

/// A `Field` is not fixed by the characters it holds, so no claim is made of `from` in
/// general; the impl's own `ensures` says what it gives.
impl<'a> vstd::std_specs::convert::FromSpecImpl<(&'a str,)> for Field {
    open spec fn obeys_from_spec() -> bool {
        false
    }

    open spec fn from_spec(v: (&'a str,)) -> Field {
        choose|f: Field| #[trigger] f.view() == flag_model(v.0@)
    }
}

} // verus!
