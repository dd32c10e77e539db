//! The lenient reading of a logfmt line: tokens, then fields, never an error.

use vstd::prelude::*;
use crate::field::{
    Field, FieldModel, Token, TokenModel, fields_model, flag_model, pair_model, tokens_model,
};
use crate::scan::{
    delim_end, lemma_delim_end_bounds, lemma_quoted_lenient_bounds, lemma_ws_end_bounds,
    quoted_lenient, read_quoted_value, read_until_delimiter, read_until_whitespace, ws_end,
};
use crate::text::{chars_of, is_ascii_whitespace, is_ascii_ws};

verus! {

/// The tokens of `s` from index `i` on.
///
/// ASCII whitespace separates tokens. A `"` opens a quoted atom. Otherwise a word runs
/// to the next whitespace or `=`; after an `=`, a quoted value or a word up to the next
/// whitespace follows as an atom. When a key's `=` is followed by whitespace or the end,
/// the empty atom follows it, so that the key gets the empty value.
pub open spec fn tokens_from(s: Seq<char>, i: nat) -> Seq<TokenModel>
    decreases s.len() - i,
{
    if i >= s.len() {
        Seq::empty()
    } else if is_ascii_ws(s[i as int]) {
        tokens_from(s, i + 1)
    } else if s[i as int] == '"' {
        proof {
            lemma_quoted_lenient_bounds(s, i + 1);
        }
        let r = quoted_lenient(s, i + 1);
        seq![TokenModel::Atom(r.0)] + tokens_from(s, r.1)
    } else {
        proof {
            lemma_delim_end_bounds(s, i);
        }
        let k = delim_end(s, i);
        let word = if k > i {
            seq![TokenModel::Atom(s.subrange(i as int, k as int))]
        } else {
            Seq::empty()
        };
        if k < s.len() && s[k as int] == '=' {
            let j = k + 1;
            if j < s.len() && s[j as int] == '"' {
                proof {
                    lemma_quoted_lenient_bounds(s, j + 1);
                }
                let r = quoted_lenient(s, j + 1);
                word + seq![TokenModel::Equal, TokenModel::Atom(r.0)] + tokens_from(s, r.1)
            } else if j < s.len() && !is_ascii_ws(s[j as int]) {
                proof {
                    lemma_ws_end_bounds(s, j);
                }
                let e = ws_end(s, j);
                word + seq![TokenModel::Equal, TokenModel::Atom(s.subrange(j as int, e as int))]
                    + tokens_from(s, e)
            } else {
                let empty_value = if k > i {
                    seq![TokenModel::Atom(Seq::empty())]
                } else {
                    Seq::empty()
                };
                word + seq![TokenModel::Equal] + empty_value + tokens_from(s, j)
            }
        } else {
            word + tokens_from(s, k)
        }
    }
}

/// The tokens of `s`.
pub open spec fn tokenize_model(s: Seq<char>) -> Seq<TokenModel> {
    tokens_from(s, 0)
}

/// The fields read from `ts` from index `i` on: an atom followed by `=` and an atom is a
/// pair, by `=` alone a pair with an empty value, by anything else a flag; a stray `=`
/// is skipped.
pub open spec fn fields_from(ts: Seq<TokenModel>, i: nat) -> Seq<FieldModel>
    decreases ts.len() - i,
{
    if i >= ts.len() {
        Seq::empty()
    } else {
        match ts[i as int] {
            TokenModel::Atom(k) => {
                if i + 1 < ts.len() && ts[i + 1int] is Equal {
                    if i + 2 < ts.len() && ts[i + 2int] is Atom {
                        seq![pair_model(k, ts[i + 2int]->Atom_0)] + fields_from(ts, i + 3)
                    } else {
                        seq![pair_model(k, Seq::empty())] + fields_from(ts, i + 2)
                    }
                } else {
                    seq![flag_model(k)] + fields_from(ts, i + 1)
                }
            },
            TokenModel::Equal => fields_from(ts, i + 1),
        }
    }
}

/// The fields that the lenient parser reads from `s`.
pub open spec fn parse_fields_model(s: Seq<char>) -> Seq<FieldModel> {
    fields_from(tokenize_model(s), 0)
}

/// Tokenizes a character sequence.
pub fn tokenize_chars(s: &Vec<char>) -> (tokens: Vec<Token>)
    ensures
        tokens_model(tokens@) == tokenize_model(s@),
{
    let mut tokens: Vec<Token> = Vec::new();
    let mut i: usize = 0;
    while i < s.len()
        invariant
            i <= s.len(),
            tokens_model(tokens@) + tokens_from(s@, i as nat) == tokens_from(s@, 0),
        decreases s.len() - i,
    {
        let ghost t0 = tokens_model(tokens@);
        let ghost rest = tokens_from(s@, i as nat);
        let c = s[i];
        if is_ascii_whitespace(c) {
            i = i + 1;
            continue;
        }
        if c == '"' {
            let (v, e) = read_quoted_value(s, i + 1);
            proof {
                lemma_quoted_lenient_bounds(s@, (i + 1) as nat);
            }
            tokens.push(Token::Atom(v));
            proof {
                assert(tokens_model(tokens@) =~= t0 + seq![TokenModel::Atom(v@)]);
                assert(t0 + rest =~= tokens_model(tokens@) + tokens_from(s@, e as nat));
            }
            i = e;
            continue;
        }
        proof {
            lemma_delim_end_bounds(s@, i as nat);
        }
        let (atom, k) = read_until_delimiter(s, i);
        let ghost word = if k > i {
            seq![TokenModel::Atom(s@.subrange(i as int, k as int))]
        } else {
            Seq::<TokenModel>::empty()
        };
        if k < s.len() && s[k] == '=' {
            if k > i {
                tokens.push(Token::Atom(atom));
            }
            tokens.push(Token::Equal);
            let j = k + 1;
            proof {
                assert(tokens_model(tokens@) =~= t0 + word + seq![TokenModel::Equal]);
            }
            if j < s.len() && s[j] == '"' {
                let ghost t1 = tokens_model(tokens@);
                let (v, e) = read_quoted_value(s, j + 1);
                proof {
                    lemma_quoted_lenient_bounds(s@, (j + 1) as nat);
                }
                tokens.push(Token::Atom(v));
                proof {
                    assert(tokens_model(tokens@) =~= t1 + seq![TokenModel::Atom(v@)]);
                    assert(t0 + rest =~= tokens_model(tokens@) + tokens_from(s@, e as nat));
                }
                i = e;
            } else if j < s.len() && !is_ascii_whitespace(s[j]) {
                let ghost t1 = tokens_model(tokens@);
                proof {
                    lemma_ws_end_bounds(s@, j as nat);
                }
                let (v, e) = read_until_whitespace(s, j);
                tokens.push(Token::Atom(v));
                proof {
                    assert(tokens_model(tokens@) =~= t1 + seq![TokenModel::Atom(v@)]);
                    assert(t0 + rest =~= tokens_model(tokens@) + tokens_from(s@, e as nat));
                }
                i = e;
            } else {
                if k > i {
                    let ghost t1 = tokens_model(tokens@);
                    tokens.push(Token::Atom(String::new()));
                    proof {
                        assert(tokens_model(tokens@) =~= t1 + seq![
                            TokenModel::Atom(Seq::empty()),
                        ]);
                    }
                }
                proof {
                    assert(t0 + rest =~= tokens_model(tokens@) + tokens_from(s@, j as nat));
                }
                i = j;
            }
        } else {
            if k > i {
                tokens.push(Token::Atom(atom));
            }
            proof {
                assert(tokens_model(tokens@) =~= t0 + word);
                assert(t0 + rest =~= tokens_model(tokens@) + tokens_from(s@, k as nat));
            }
            i = k;
        }
    }
    proof {
        assert(tokens_model(tokens@) + Seq::<TokenModel>::empty() =~= tokens_model(tokens@));
    }
    tokens
}

/// Breaks a logfmt input into a minimal token stream.
pub fn tokenize(input: &str) -> (tokens: Vec<Token>)
    ensures
        tokens_model(tokens@) == tokenize_model(input@),
{
    let s = chars_of(input);
    tokenize_chars(&s)
}

/// Reads fields out of a token stream.
pub fn fields_of_tokens(tokens: &Vec<Token>) -> (fields: Vec<Field>)
    ensures
        fields_model(fields@) == fields_from(tokens_model(tokens@), 0),
{
    let ghost ts = tokens_model(tokens@);
    let mut fields: Vec<Field> = Vec::new();
    let mut cursor: usize = 0;
    while cursor < tokens.len()
        invariant
            ts == tokens_model(tokens@),
            cursor <= tokens.len(),
            fields_model(fields@) + fields_from(ts, cursor as nat) == fields_from(ts, 0),
        decreases tokens.len() - cursor,
    {
        let ghost f0 = fields_model(fields@);
        match &tokens[cursor] {
            Token::Atom(key) => {
                let next_is_equal = cursor + 1 < tokens.len() && match &tokens[cursor + 1] {
                    Token::Equal => true,
                    Token::Atom(_) => false,
                };
                if next_is_equal {
                    if cursor + 2 < tokens.len() {
                        match &tokens[cursor + 2] {
                            Token::Atom(value) => {
                                fields.push(Field { key: key.clone(), value: Some(value.clone()) });
                                proof {
                                    assert(fields_model(fields@) =~= f0 + seq![
                                        pair_model(key@, value@),
                                    ]);
                                }
                                cursor = cursor + 3;
                                continue;
                            },
                            Token::Equal => {},
                        }
                    }
                    fields.push(Field { key: key.clone(), value: Some(String::new()) });
                    proof {
                        assert(fields_model(fields@) =~= f0 + seq![
                            pair_model(key@, Seq::empty()),
                        ]);
                    }
                    cursor = cursor + 2;
                } else {
                    fields.push(Field { key: key.clone(), value: None });
                    proof {
                        assert(fields_model(fields@) =~= f0 + seq![flag_model(key@)]);
                    }
                    cursor = cursor + 1;
                }
            },
            Token::Equal => {
                cursor = cursor + 1;
            },
        }
    }
    proof {
        assert(fields_model(fields@) + Seq::<FieldModel>::empty() =~= fields_model(fields@));
    }
    fields
}

/// Parses a character sequence into fields, leniently.
pub fn fields_of_chars(s: &Vec<char>) -> (fields: Vec<Field>)
    ensures
        fields_model(fields@) == parse_fields_model(s@),
{
    let tokens = tokenize_chars(s);
    fields_of_tokens(&tokens)
}

/// Parses a logfmt input string into structured fields.
pub fn parse_fields(input: &str) -> (fields: Vec<Field>)
    ensures
        fields_model(fields@) == parse_fields_model(input@),
{
    let s = chars_of(input);
    fields_of_chars(&s)
}

} // verus!
