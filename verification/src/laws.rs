//! What holds across the library's functions: reading back what was written, and the
//! agreement of its readings.

use vstd::prelude::*;
use crate::encode::{
    encode_field_model, encode_fields_model, encode_key, encode_lines_model, encode_value,
    escape_body, escape_char, forces_quotes, is_control_char, key_reads_bare, needs_quotes,
};
use crate::fieldmap::{FieldMap, last_value, lemma_sorted_unique};
use crate::lines::{
    lines_from, lossy_lines_of, next_newline, parse_lines_lossy_model, parse_lines_model,
    parse_lines_strict_model, records_of_lines, strict_lines_of, strip_cr,
};
use crate::field::{FieldModel, LineParseError, ParseError, TokenModel, flag_model, pair_model};
use crate::lenient::{fields_from, parse_fields_model, tokenize_model, tokens_from};
use crate::scan::{
    delim_end, is_delim, lemma_delim_end_bounds, lemma_quoted_lenient_bounds,
    lemma_quoted_strict_bounds, lemma_ws_end_bounds, quoted_lenient, quoted_strict, unescape_char,
    ws_end,
};
use crate::strict::{prepend, strict_from, strict_model, unescape_model};
use crate::document::{doc_first, doc_last, non_empty_records};
use crate::record::{first_index, select, flags_model, last_index, pairs_model, values_model, without_key};
use crate::text::{is_ascii_ws, is_blank, is_unicode_ws};

verus! {

/// Escaping distributes over concatenation.
pub proof fn lemma_escape_body_concat(a: Seq<char>, b: Seq<char>)
    ensures
        escape_body(a + b) == escape_body(a) + escape_body(b),
    decreases b.len(),
{
    if b.len() == 0 {
        assert(a + b =~= a);
        assert(escape_body(a) + Seq::<char>::empty() =~= escape_body(a));
    } else {
        lemma_escape_body_concat(a, b.drop_last());
        assert((a + b).drop_last() =~= a + b.drop_last());
        assert((a + b).last() == b.last());
        assert(escape_body(a) + (escape_body(b.drop_last()) + escape_char(b.last())) =~= (
        escape_body(a) + escape_body(b.drop_last())) + escape_char(b.last()));
    }
}

/// Escaping a non-empty value starts with the escape of its first character.
pub proof fn lemma_escape_body_front(v: Seq<char>)
    requires
        v.len() > 0,
    ensures
        escape_body(v) == escape_char(v[0]) + escape_body(v.drop_first()),
{
    assert(v =~= seq![v[0]] + v.drop_first());
    lemma_escape_body_concat(seq![v[0]], v.drop_first());
    assert(seq![v[0]].drop_last() =~= Seq::<char>::empty());
    assert(escape_body(Seq::<char>::empty()) =~= Seq::<char>::empty());
    assert(Seq::<char>::empty() + escape_char(v[0]) =~= escape_char(v[0]));
    assert(escape_body(seq![v[0]]) =~= escape_char(v[0]));
}

/// Between its quotes, an escaped value reads back as itself, strictly.
pub proof fn lemma_quoted_strict_reads_escape(s: Seq<char>, i: int, v: Seq<char>)
    requires
        0 <= i,
        i + escape_body(v).len() < s.len(),
        s.subrange(i, i + escape_body(v).len()) == escape_body(v),
        s[i + escape_body(v).len()] == '"',
    ensures
        quoted_strict(s, i as nat) == Some((v, (i + escape_body(v).len() + 1) as nat)),
    decreases v.len(),
{
    let e = escape_body(v);
    if v.len() == 0 {
        assert(v =~= Seq::<char>::empty());
    } else {
        lemma_escape_body_front(v);
        let c = v[0];
        let ec = escape_char(c);
        let rest = v.drop_first();
        let er = escape_body(rest);
        assert(e =~= ec + er);
        assert(s[i] == e[0]);
        assert(s.subrange(i + ec.len(), i + ec.len() + er.len()) =~= er) by {
            assert forall|t: int| 0 <= t < er.len() implies s.subrange(
                i + ec.len(),
                i + ec.len() + er.len(),
            )[t] == er[t] by {
                assert(s[i + ec.len() + t] == e[ec.len() + t]);
            }
        }
        assert(s[i + ec.len() + er.len()] == '"');
        lemma_quoted_strict_reads_escape(s, i + ec.len(), rest);
        if ec.len() == 2 {
            assert(s[i + 1] == e[1]);
            assert(unescape_char(s[i + 1]) == c);
        }
        assert(seq![c] + rest =~= v);
    }
}

/// Between its quotes, an escaped value reads back as itself, leniently.
pub proof fn lemma_quoted_lenient_reads_escape(s: Seq<char>, i: int, v: Seq<char>)
    requires
        0 <= i,
        i + escape_body(v).len() < s.len(),
        s.subrange(i, i + escape_body(v).len()) == escape_body(v),
        s[i + escape_body(v).len()] == '"',
    ensures
        quoted_lenient(s, i as nat) == (v, (i + escape_body(v).len() + 1) as nat),
    decreases v.len(),
{
    let e = escape_body(v);
    if v.len() == 0 {
        assert(v =~= Seq::<char>::empty());
    } else {
        lemma_escape_body_front(v);
        let c = v[0];
        let ec = escape_char(c);
        let rest = v.drop_first();
        let er = escape_body(rest);
        assert(e =~= ec + er);
        assert(s[i] == e[0]);
        assert(s.subrange(i + ec.len(), i + ec.len() + er.len()) =~= er) by {
            assert forall|t: int| 0 <= t < er.len() implies s.subrange(
                i + ec.len(),
                i + ec.len() + er.len(),
            )[t] == er[t] by {
                assert(s[i + ec.len() + t] == e[ec.len() + t]);
            }
        }
        assert(s[i + ec.len() + er.len()] == '"');
        lemma_quoted_lenient_reads_escape(s, i + ec.len(), rest);
        if ec.len() == 2 {
            assert(s[i + 1] == e[1]);
            assert(unescape_char(s[i + 1]) == c);
        }
        assert(seq![c] + rest =~= v);
    }
}

/// Reading a value back undoes writing it: `unescape_value(escape_value(v))` is `Ok(v)`
/// for every value `v`.
pub proof fn law_unescape_inverts_escape(v: Seq<char>)
    ensures
        unescape_model(encode_value(v)) == Ok::<Seq<char>, crate::field::ParseError>(v),
{
    let s = encode_value(v);
    if v.len() == 0 {
        assert(s =~= seq!['"', '"']);
        assert(escape_body(Seq::<char>::empty()) =~= Seq::<char>::empty());
        assert(s.subrange(1, 1) =~= Seq::<char>::empty());
        lemma_quoted_strict_reads_escape(s, 1, v);
        assert(v =~= Seq::<char>::empty());
    } else if needs_quotes(v) {
        let e = escape_body(v);
        assert(s =~= seq!['"'] + e + seq!['"']);
        assert(s.subrange(1, 1 + e.len() as int) =~= e);
        lemma_quoted_strict_reads_escape(s, 1, v);
    } else {
        assert(!forces_quotes(v[0]));
    }
}

/// Every key among `fs` reads back as itself.
pub open spec fn valid_fields(fs: Seq<FieldModel>) -> bool {
    forall|i: int| 0 <= i < fs.len() ==> key_reads_bare(#[trigger] fs[i].key)
}

/// The tokens that a written field reads as.
pub open spec fn field_tokens(f: FieldModel) -> Seq<TokenModel> {
    match f.value {
        None => seq![TokenModel::Atom(f.key)],
        Some(v) => seq![TokenModel::Atom(f.key), TokenModel::Equal, TokenModel::Atom(v)],
    }
}

/// The tokens that written fields read as.
pub open spec fn fields_tokens(fs: Seq<FieldModel>) -> Seq<TokenModel>
    decreases fs.len(),
{
    if fs.len() == 0 {
        Seq::empty()
    } else {
        field_tokens(fs[0]) + fields_tokens(fs.drop_first())
    }
}

/// Written fields start with the first one.
pub proof fn lemma_encode_fields_front(fs: Seq<FieldModel>)
    requires
        fs.len() > 0,
    ensures
        encode_fields_model(fs) == encode_field_model(fs[0]) + if fs.len() > 1 {
            seq![' '] + encode_fields_model(fs.drop_first())
        } else {
            Seq::empty()
        },
    decreases fs.len(),
{
    if fs.len() == 1 {
        assert(encode_field_model(fs[0]) + Seq::<char>::empty() =~= encode_field_model(fs[0]));
    } else if fs.len() == 2 {
        assert(fs.drop_last().len() == 1);
        assert(fs.drop_first().len() == 1);
        assert(fs.drop_last()[0] == fs[0]);
        assert(fs.drop_first()[0] == fs[1]);
        assert(encode_fields_model(fs.drop_last()) == encode_field_model(fs[0]));
        assert(encode_fields_model(fs.drop_first()) == encode_field_model(fs[1]));
        assert(encode_field_model(fs[0]) + seq![' '] + encode_field_model(fs[1])
            =~= encode_field_model(fs[0]) + (seq![' '] + encode_field_model(fs[1])));
    } else {
        let d = fs.drop_last();
        lemma_encode_fields_front(d);
        assert(d[0] == fs[0]);
        assert(d.drop_first() =~= fs.drop_first().drop_last());
        assert(fs.drop_first().last() == fs.last());
        assert(encode_fields_model(fs.drop_first()) == encode_fields_model(
            fs.drop_first().drop_last(),
        ) + seq![' '] + encode_field_model(fs.drop_first().last()));
        assert(encode_field_model(fs[0]) + (seq![' '] + encode_fields_model(d.drop_first())) + seq![
            ' ',
        ] + encode_field_model(fs.last()) =~= encode_field_model(fs[0]) + (seq![' ']
            + (encode_fields_model(d.drop_first()) + seq![' '] + encode_field_model(fs.last()))));
    }
}

pub proof fn lemma_delim_end_exact(s: Seq<char>, i: int, n: int)
    requires
        0 <= i,
        0 <= n,
        i + n <= s.len(),
        forall|t: int| i <= t < i + n ==> !is_delim(#[trigger] s[t]),
        i + n == s.len() || is_delim(s[i + n]),
    ensures
        delim_end(s, i as nat) == i + n,
    decreases n,
{
    if n > 0 {
        lemma_delim_end_exact(s, i + 1, n - 1);
    }
}

pub proof fn lemma_ws_end_exact(s: Seq<char>, i: int, n: int)
    requires
        0 <= i,
        0 <= n,
        i + n <= s.len(),
        forall|t: int| i <= t < i + n ==> !is_ascii_ws(#[trigger] s[t]),
        i + n == s.len() || is_ascii_ws(s[i + n]),
    ensures
        ws_end(s, i as nat) == i + n,
    decreases n,
{
    if n > 0 {
        lemma_ws_end_exact(s, i + 1, n - 1);
    }
}

/// A written field, followed by whitespace or the end, reads back as itself, both strictly
/// and as tokens.
pub proof fn lemma_read_one_field(s: Seq<char>, i: int, f: FieldModel)
    requires
        key_reads_bare(f.key),
        0 <= i,
        i + encode_field_model(f).len() <= s.len(),
        s.subrange(i, i + encode_field_model(f).len()) == encode_field_model(f),
        i + encode_field_model(f).len() == s.len() || is_ascii_ws(
            s[i + encode_field_model(f).len()],
        ),
    ensures
        strict_from(s, i as nat) == prepend(
            f,
            strict_from(s, (i + encode_field_model(f).len()) as nat),
        ),
        tokens_from(s, i as nat) == field_tokens(f) + tokens_from(
            s,
            (i + encode_field_model(f).len()) as nat,
        ),
{
    let enc = encode_field_model(f);
    let k = f.key;
    let m = k.len() as int;
    let end = i + enc.len();
    assert(encode_key(k) == k);
    assert forall|t: int| 0 <= t < enc.len() implies s[i + t] == #[trigger] enc[t] by {
        assert(s.subrange(i, end)[t] == enc[t]);
    }
    assert forall|t: int| i <= t < i + m implies !is_delim(#[trigger] s[t]) by {
        assert(s[i + (t - i)] == enc[t - i]);
        assert(enc[t - i] == k[t - i]);
    }
    assert(s[i] == k[0]) by {
        assert(s[i + 0] == enc[0]);
    }
    assert(s.subrange(i, i + m) =~= k) by {
        assert forall|t: int| 0 <= t < m implies s.subrange(i, i + m)[t] == k[t] by {
            assert(s[i + t] == enc[t]);
        }
    }
    match f.value {
        None => {
            assert(enc =~= k);
            lemma_delim_end_exact(s, i, m);
            assert(f == flag_model(k));
            if end < s.len() {
                assert(s[end] != '=');
            }
            assert(seq![TokenModel::Atom(k)] + tokens_from(s, end as nat) == field_tokens(f)
                + tokens_from(s, end as nat));
        },
        Some(v) => {
            let ev = encode_value(v);
            assert(enc =~= k + (seq!['='] + ev));
            let j = i + m + 1;
            assert(s[i + m] == '=') by {
                assert(s[i + m] == enc[m]);
            }
            lemma_delim_end_exact(s, i, m);
            assert forall|t: int| 0 <= t < ev.len() implies s[j + t] == #[trigger] ev[t] by {
                assert(s[i + (m + 1 + t)] == enc[m + 1 + t]);
            }
            assert(f == pair_model(k, v));
            if v.len() == 0 {
                assert(ev =~= seq!['"', '"']);
                assert(s[j] == ev[0]);
                assert(s[j + 1] == ev[1]);
                assert(quoted_strict(s, (j + 1) as nat) == Some((Seq::<char>::empty(), (j + 2) as nat)));
                assert(quoted_lenient(s, (j + 1) as nat) == (Seq::<char>::empty(), (j + 2) as nat));
                assert(end == j + 2);
                assert(v =~= Seq::<char>::empty());
                assert(seq![TokenModel::Atom(k)] + seq![TokenModel::Equal, TokenModel::Atom(v)]
                    + tokens_from(s, end as nat) =~= field_tokens(f) + tokens_from(s, end as nat));
            } else if needs_quotes(v) {
                let e = escape_body(v);
                assert(ev =~= seq!['"'] + e + seq!['"']);
                assert(s[j] == ev[0]);
                assert(s.subrange(j + 1, j + 1 + e.len()) =~= e) by {
                    assert forall|t: int| 0 <= t < e.len() implies s.subrange(
                        j + 1,
                        j + 1 + e.len(),
                    )[t] == e[t] by {
                        assert(s[j + (1 + t)] == ev[1 + t]);
                    }
                }
                assert(s[j + 1 + e.len()] == '"') by {
                    assert(s[j + (1 + e.len())] == ev[1 + e.len() as int]);
                }
                lemma_quoted_strict_reads_escape(s, j + 1, v);
                lemma_quoted_lenient_reads_escape(s, j + 1, v);
                assert(end == j + 1 + e.len() + 1);
                assert(seq![TokenModel::Atom(k)] + seq![TokenModel::Equal, TokenModel::Atom(v)]
                    + tokens_from(s, end as nat) =~= field_tokens(f) + tokens_from(s, end as nat));
            } else {
                assert(ev =~= v);
                assert(s[j] == v[0]) by {
                    assert(s[j + 0] == ev[0]);
                }
                assert(!forces_quotes(v[0]));
                assert forall|t: int| j <= t < j + v.len() implies !is_ascii_ws(#[trigger] s[t]) by {
                    assert(s[j + (t - j)] == ev[t - j]);
                    assert(!forces_quotes(v[t - j]));
                }
                lemma_ws_end_exact(s, j, v.len() as int);
                assert(s.subrange(j, j + v.len()) =~= v) by {
                    assert forall|t: int| 0 <= t < v.len() implies s.subrange(j, j + v.len())[t]
                        == v[t] by {
                        assert(s[j + t] == ev[t]);
                    }
                }
                assert(end == j + v.len());
                assert(seq![TokenModel::Atom(k)] + seq![TokenModel::Equal, TokenModel::Atom(v)]
                    + tokens_from(s, end as nat) =~= field_tokens(f) + tokens_from(s, end as nat));
            }
        },
    }
}

/// After a key, an `=` and a written value, followed by whitespace or the end, read as
/// an equals sign and the value's atom.
pub proof fn lemma_value_tokens(s: Seq<char>, q: int, v: Seq<char>)
    requires
        0 <= q,
        q + 1 + encode_value(v).len() <= s.len(),
        s[q] == '=',
        s.subrange(q + 1, q + 1 + encode_value(v).len()) == encode_value(v),
        q + 1 + encode_value(v).len() == s.len() || is_ascii_ws(s[q + 1 + encode_value(v).len()]),
    ensures
        tokens_from(s, q as nat) == seq![TokenModel::Equal, TokenModel::Atom(v)] + tokens_from(
            s,
            (q + 1 + encode_value(v).len()) as nat,
        ),
{
    let ev = encode_value(v);
    let j = q + 1;
    let end = j + ev.len();
    assert forall|t: int| 0 <= t < ev.len() implies s[j + t] == #[trigger] ev[t] by {
        assert(s.subrange(j, end)[t] == ev[t]);
    }
    assert(delim_end(s, q as nat) == q);
    if v.len() == 0 {
        assert(ev =~= seq!['"', '"']);
        assert(s[j] == ev[0]);
        assert(s[j + 1] == ev[1]);
        assert(quoted_lenient(s, (j + 1) as nat) == (Seq::<char>::empty(), (j + 2) as nat));
        assert(v =~= Seq::<char>::empty());
        assert(Seq::<TokenModel>::empty() + seq![TokenModel::Equal, TokenModel::Atom(v)]
            + tokens_from(s, end as nat) =~= seq![TokenModel::Equal, TokenModel::Atom(v)]
            + tokens_from(s, end as nat));
    } else if needs_quotes(v) {
        let e = escape_body(v);
        assert(ev =~= seq!['"'] + e + seq!['"']);
        assert(s[j] == ev[0]);
        assert(s.subrange(j + 1, j + 1 + e.len()) =~= e) by {
            assert forall|t: int| 0 <= t < e.len() implies s.subrange(j + 1, j + 1 + e.len())[t]
                == e[t] by {
                assert(s[j + (1 + t)] == ev[1 + t]);
            }
        }
        assert(s[j + 1 + e.len()] == '"') by {
            assert(s[j + (1 + e.len())] == ev[1 + e.len() as int]);
        }
        lemma_quoted_lenient_reads_escape(s, j + 1, v);
        assert(Seq::<TokenModel>::empty() + seq![TokenModel::Equal, TokenModel::Atom(v)]
            + tokens_from(s, end as nat) =~= seq![TokenModel::Equal, TokenModel::Atom(v)]
            + tokens_from(s, end as nat));
    } else {
        assert(ev =~= v);
        assert(s[j] == v[0]) by {
            assert(s[j + 0] == ev[0]);
        }
        assert(!forces_quotes(v[0]));
        assert forall|t: int| j <= t < j + v.len() implies !is_ascii_ws(#[trigger] s[t]) by {
            assert(s[j + (t - j)] == ev[t - j]);
            assert(!forces_quotes(v[t - j]));
        }
        lemma_ws_end_exact(s, j, v.len() as int);
        assert(s.subrange(j, j + v.len()) =~= v) by {
            assert forall|t: int| 0 <= t < v.len() implies s.subrange(j, j + v.len())[t] == v[t] by {
                assert(s[j + t] == ev[t]);
            }
        }
        assert(Seq::<TokenModel>::empty() + seq![TokenModel::Equal, TokenModel::Atom(v)]
            + tokens_from(s, end as nat) =~= seq![TokenModel::Equal, TokenModel::Atom(v)]
            + tokens_from(s, end as nat));
    }
}

/// A written field whose key had to be quoted, followed by whitespace or the end, reads
/// back as its tokens.
pub proof fn lemma_read_quoted_key_field(s: Seq<char>, i: int, f: FieldModel)
    requires
        !key_reads_bare(f.key),
        0 <= i,
        i + encode_field_model(f).len() <= s.len(),
        s.subrange(i, i + encode_field_model(f).len()) == encode_field_model(f),
        i + encode_field_model(f).len() == s.len() || is_ascii_ws(
            s[i + encode_field_model(f).len()],
        ),
    ensures
        tokens_from(s, i as nat) == field_tokens(f) + tokens_from(
            s,
            (i + encode_field_model(f).len()) as nat,
        ),
{
    let enc = encode_field_model(f);
    let k = f.key;
    let e = escape_body(k);
    let ek = encode_key(k);
    let end = i + enc.len();
    assert(ek =~= seq!['"'] + e + seq!['"']);
    let q = i + ek.len();
    assert forall|t: int| 0 <= t < enc.len() implies s[i + t] == #[trigger] enc[t] by {
        assert(s.subrange(i, end)[t] == enc[t]);
    }
    assert(s[i] == '"') by {
        assert(s[i + 0] == enc[0]);
    }
    assert(s.subrange(i + 1, i + 1 + e.len()) =~= e) by {
        assert forall|t: int| 0 <= t < e.len() implies s.subrange(i + 1, i + 1 + e.len())[t] == e[t] by {
            assert(s[i + (1 + t)] == enc[1 + t]);
        }
    }
    assert(s[i + 1 + e.len()] == '"') by {
        assert(s[i + (1 + e.len())] == enc[1 + e.len() as int]);
    }
    lemma_quoted_lenient_reads_escape(s, i + 1, k);
    assert(tokens_from(s, i as nat) == seq![TokenModel::Atom(k)] + tokens_from(s, q as nat));
    match f.value {
        None => {
            assert(enc =~= ek);
            assert(seq![TokenModel::Atom(k)] =~= field_tokens(f));
        },
        Some(v) => {
            let ev = encode_value(v);
            assert(enc =~= ek + (seq!['='] + ev));
            assert(s[q] == '=') by {
                assert(s[i + ek.len()] == enc[ek.len() as int]);
            }
            assert(s.subrange(q + 1, q + 1 + ev.len()) =~= ev) by {
                assert forall|t: int| 0 <= t < ev.len() implies s.subrange(q + 1, q + 1 + ev.len())[t]
                    == ev[t] by {
                    assert(s[i + (ek.len() + 1 + t)] == enc[ek.len() + 1 + t]);
                }
            }
            lemma_value_tokens(s, q, v);
            assert(seq![TokenModel::Atom(k)] + (seq![TokenModel::Equal, TokenModel::Atom(v)]
                + tokens_from(s, end as nat)) =~= field_tokens(f) + tokens_from(s, end as nat));
        },
    }
}

/// Written fields, filling the rest of `s` from `i`, read back as their tokens, and, when
/// every key reads back bare, strictly as themselves.
pub proof fn lemma_read_fields(s: Seq<char>, i: int, fs: Seq<FieldModel>)
    requires
        0 <= i <= s.len(),
        s.subrange(i, s.len() as int) == encode_fields_model(fs),
    ensures
        valid_fields(fs) ==> strict_from(s, i as nat) == Ok::<Seq<FieldModel>, ParseError>(fs),
        tokens_from(s, i as nat) == fields_tokens(fs),
    decreases fs.len(),
{
    let rest_text = s.subrange(i, s.len() as int);
    if fs.len() == 0 {
        assert(rest_text.len() == 0);
        assert(fs =~= Seq::<FieldModel>::empty());
    } else {
        lemma_encode_fields_front(fs);
        let f = fs[0];
        let enc = encode_field_model(f);
        let n = enc.len() as int;
        assert(rest_text.len() == s.len() - i);
        assert(rest_text.len() >= n);
        assert(s.subrange(i, i + n) =~= enc) by {
            assert forall|t: int| 0 <= t < n implies s.subrange(i, i + n)[t] == enc[t] by {
                assert(s[i + t] == rest_text[t]);
            }
        }
        let rest = fs.drop_first();
        if valid_fields(fs) {
            assert(valid_fields(rest)) by {
                assert forall|t: int| 0 <= t < rest.len() implies key_reads_bare(#[trigger] rest[t].key) by {
                    assert(rest[t] == fs[t + 1]);
                }
            }
        }
        if fs.len() == 1 {
            assert(rest_text.len() == n);
        } else {
            assert(s[i + n] == ' ') by {
                assert(s[i + n] == rest_text[n]);
            }
        }
        if key_reads_bare(f.key) {
            lemma_read_one_field(s, i, f);
        } else {
            lemma_read_quoted_key_field(s, i, f);
        }
        if fs.len() == 1 {
            assert(rest =~= Seq::<FieldModel>::empty());
            assert(fields_tokens(rest) =~= Seq::<TokenModel>::empty());
            assert(fs =~= seq![f]);
            assert(fields_tokens(fs) =~= field_tokens(f) + Seq::<TokenModel>::empty());
            assert(tokens_from(s, (i + n) as nat) =~= Seq::<TokenModel>::empty());
            assert(seq![f] + Seq::<FieldModel>::empty() =~= fs);
        } else {
            let tail = encode_fields_model(rest);
            assert(s.subrange(i + n + 1, s.len() as int) =~= tail) by {
                assert forall|t: int| 0 <= t < tail.len() implies s.subrange(
                    i + n + 1,
                    s.len() as int,
                )[t] == tail[t] by {
                    assert(s[i + n + 1 + t] == rest_text[n + 1 + t]);
                }
            }
            lemma_read_fields(s, i + n + 1, rest);
            assert(strict_from(s, (i + n) as nat) == strict_from(s, (i + n + 1) as nat));
            assert(tokens_from(s, (i + n) as nat) == tokens_from(s, (i + n + 1) as nat));
            assert(seq![f] + rest =~= fs);
        }
    }
}

/// Tokens of written fields give those fields back.
pub proof fn lemma_fields_from_tokens(ts: Seq<TokenModel>, i: int, fs: Seq<FieldModel>)
    requires
        0 <= i <= ts.len(),
        ts.subrange(i, ts.len() as int) == fields_tokens(fs),
    ensures
        fields_from(ts, i as nat) == fs,
    decreases fs.len(),
{
    let rest_ts = ts.subrange(i, ts.len() as int);
    if fs.len() == 0 {
        assert(rest_ts.len() == 0);
        assert(fs =~= Seq::<FieldModel>::empty());
    } else {
        let f = fs[0];
        let ft = field_tokens(f);
        let rest = fs.drop_first();
        let n = ft.len() as int;
        assert(rest_ts =~= ft + fields_tokens(rest));
        assert forall|t: int| 0 <= t < n implies ts[i + t] == #[trigger] ft[t] by {
            assert(ts[i + t] == rest_ts[t]);
        }
        assert(ts.subrange(i + n, ts.len() as int) =~= fields_tokens(rest)) by {
            assert forall|t: int| 0 <= t < fields_tokens(rest).len() implies ts.subrange(
                i + n,
                ts.len() as int,
            )[t] == fields_tokens(rest)[t] by {
                assert(ts[i + n + t] == rest_ts[n + t]);
            }
        }
        lemma_fields_from_tokens(ts, i + n, rest);
        assert(ts[i] == ft[0]);
        match f.value {
            None => {
                if i + 1 < ts.len() {
                    assert(rest.len() > 0);
                    assert(ts[i + 1] == rest_ts[1]);
                    assert(fields_tokens(rest) =~= field_tokens(rest[0]) + fields_tokens(
                        rest.drop_first(),
                    ));
                    assert(rest_ts[1] == fields_tokens(rest)[0]);
                }
                assert(f == flag_model(f.key));
            },
            Some(v) => {
                assert(ts[i + 1] == ft[1]);
                assert(ts[i + 2] == ft[2]);
                assert(f == pair_model(f.key, v));
            },
        }
        assert(seq![f] + rest =~= fs);
    }
}

/// The strict parser reads written fields back: `parse_strict(encode_fields(fs))` is
/// `Ok(fs)` whenever every key reads back bare (a quoted key is refused as an unexpected
/// quote).
pub proof fn law_strict_reads_back_encoding(fs: Seq<FieldModel>)
    requires
        valid_fields(fs),
    ensures
        strict_model(encode_fields_model(fs)) == Ok::<Seq<FieldModel>, ParseError>(fs),
{
    let s = encode_fields_model(fs);
    assert(s.subrange(0, s.len() as int) =~= s);
    lemma_read_fields(s, 0, fs);
}

/// The lenient parser reads written fields back: `parse_fields(encode_fields(fs))` is `fs`
/// for all fields, since keys that would not read back bare are written quoted.
pub proof fn law_lenient_reads_back_encoding(fs: Seq<FieldModel>)
    ensures
        parse_fields_model(encode_fields_model(fs)) == fs,
{
    let s = encode_fields_model(fs);
    assert(s.subrange(0, s.len() as int) =~= s);
    lemma_read_fields(s, 0, fs);
    let ts = fields_tokens(fs);
    assert(ts.subrange(0, ts.len() as int) =~= ts);
    lemma_fields_from_tokens(ts, 0, fs);
}

/// No line feed and no carriage return.
pub open spec fn no_line_break(s: Seq<char>) -> bool {
    forall|t: int| 0 <= t < s.len() ==> #[trigger] s[t] != '\n' && s[t] != '\r'
}

pub proof fn lemma_no_line_break_concat(a: Seq<char>, b: Seq<char>)
    requires
        no_line_break(a),
        no_line_break(b),
    ensures
        no_line_break(a + b),
{
    assert forall|t: int| 0 <= t < (a + b).len() implies #[trigger] (a + b)[t] != '\n' && (a
        + b)[t] != '\r' by {
        if t < a.len() {
            assert((a + b)[t] == a[t]);
        } else {
            assert((a + b)[t] == b[t - a.len()]);
        }
    }
}

pub proof fn lemma_escape_body_no_line_break(v: Seq<char>)
    ensures
        no_line_break(escape_body(v)),
    decreases v.len(),
{
    if v.len() > 0 {
        lemma_escape_body_no_line_break(v.drop_last());
        lemma_no_line_break_concat(escape_body(v.drop_last()), escape_char(v.last()));
    }
}

/// A written key holds no line break.
pub proof fn lemma_key_no_line_break(k: Seq<char>)
    ensures
        no_line_break(encode_key(k)),
{
    if key_reads_bare(k) {
        assert forall|t: int| 0 <= t < k.len() implies #[trigger] k[t] != '\n' && k[t] != '\r' by {
            assert(!is_delim(k[t]));
        }
    } else {
        lemma_escape_body_no_line_break(k);
        lemma_no_line_break_concat(seq!['"'], escape_body(k));
        lemma_no_line_break_concat(seq!['"'] + escape_body(k), seq!['"']);
    }
}

/// A written field holds no line break.
pub proof fn lemma_field_no_line_break(f: FieldModel)
    ensures
        no_line_break(encode_field_model(f)),
{
    let k = encode_key(f.key);
    lemma_key_no_line_break(f.key);
    match f.value {
        None => {
            assert(encode_field_model(f) =~= k);
        },
        Some(v) => {
            let ev = encode_value(v);
            if v.len() == 0 {
                assert(no_line_break(ev));
            } else if needs_quotes(v) {
                lemma_escape_body_no_line_break(v);
                lemma_no_line_break_concat(seq!['"'], escape_body(v));
                lemma_no_line_break_concat(seq!['"'] + escape_body(v), seq!['"']);
            } else {
                assert forall|t: int| 0 <= t < v.len() implies #[trigger] v[t] != '\n' && v[t]
                    != '\r' by {
                    assert(!forces_quotes(v[t]));
                }
            }
            lemma_no_line_break_concat(seq!['='], ev);
            lemma_no_line_break_concat(k, seq!['='] + ev);
        },
    }
}

/// Written fields hold no line break.
pub proof fn lemma_fields_no_line_break(fs: Seq<FieldModel>)
    ensures
        no_line_break(encode_fields_model(fs)),
    decreases fs.len(),
{
    if fs.len() == 1 {
        lemma_field_no_line_break(fs[0]);
    } else if fs.len() > 1 {
        let d = fs.drop_last();
        lemma_fields_no_line_break(d);
        lemma_field_no_line_break(fs.last());
        lemma_no_line_break_concat(encode_fields_model(d), seq![' ']);
        lemma_no_line_break_concat(encode_fields_model(d) + seq![' '], encode_field_model(fs.last()));
    }
}

/// Records that each hold at least one field (an empty one is written as an empty line,
/// which line readers skip).
pub open spec fn nonempty_records(rs: Seq<Seq<FieldModel>>) -> bool {
    forall|i: int| 0 <= i < rs.len() ==> (#[trigger] rs[i]).len() > 0
}

/// Records whose keys all read back bare.
pub open spec fn valid_records(rs: Seq<Seq<FieldModel>>) -> bool {
    forall|i: int| 0 <= i < rs.len() ==> valid_fields(#[trigger] rs[i])
}

/// A record with a field is written as a line that is not blank: a bare key is not all
/// whitespace, and a quoted one opens with a quote.
pub proof fn lemma_record_not_blank(r: Seq<FieldModel>)
    requires
        r.len() > 0,
    ensures
        !is_blank(encode_fields_model(r)),
{
    lemma_encode_fields_front(r);
    let line = encode_fields_model(r);
    let f = r[0];
    let k = f.key;
    let ek = encode_key(k);
    let enc = encode_field_model(f);
    assert(enc.len() >= ek.len());
    assert(line.len() >= enc.len());
    assert forall|t: int| 0 <= t < ek.len() implies line[t] == #[trigger] ek[t] by {
        assert(enc[t] == ek[t]);
        assert(line[t] == enc[t]);
    }
    if key_reads_bare(k) {
        assert(ek == k);
        let t = choose|t: int| 0 <= t < k.len() && !#[trigger] crate::text::is_unicode_ws(k[t]);
        assert(line[t] == ek[t]);
        assert(!crate::text::is_unicode_ws(line[t]));
    } else {
        assert(ek[0] == '"');
        assert(line[0] == ek[0]);
        assert(!crate::text::is_unicode_ws(line[0]));
    }
}

/// The written lines of records.
pub open spec fn written_lines(rs: Seq<Seq<FieldModel>>) -> Seq<Seq<char>> {
    rs.map_values(|r: Seq<FieldModel>| encode_fields_model(r))
}

/// Written records start with the first one.
pub proof fn lemma_encode_lines_front(rs: Seq<Seq<FieldModel>>)
    requires
        rs.len() > 0,
    ensures
        encode_lines_model(rs) == encode_fields_model(rs[0]) + if rs.len() > 1 {
            seq!['\n'] + encode_lines_model(rs.drop_first())
        } else {
            Seq::empty()
        },
    decreases rs.len(),
{
    if rs.len() == 1 {
        assert(encode_fields_model(rs[0]) + Seq::<char>::empty() =~= encode_fields_model(rs[0]));
    } else if rs.len() == 2 {
        assert(rs.drop_last()[0] == rs[0]);
        assert(rs.drop_first()[0] == rs[1]);
        assert(encode_lines_model(rs.drop_last()) == encode_fields_model(rs[0]));
        assert(encode_lines_model(rs.drop_first()) == encode_fields_model(rs[1]));
        assert(encode_fields_model(rs[0]) + seq!['\n'] + encode_fields_model(rs[1])
            =~= encode_fields_model(rs[0]) + (seq!['\n'] + encode_fields_model(rs[1])));
    } else {
        let d = rs.drop_last();
        lemma_encode_lines_front(d);
        assert(d[0] == rs[0]);
        assert(d.drop_first() =~= rs.drop_first().drop_last());
        assert(rs.drop_first().last() == rs.last());
        assert(encode_lines_model(rs.drop_first()) == encode_lines_model(
            rs.drop_first().drop_last(),
        ) + seq!['\n'] + encode_fields_model(rs.drop_first().last()));
        assert(encode_fields_model(rs[0]) + (seq!['\n'] + encode_lines_model(d.drop_first()))
            + seq!['\n'] + encode_fields_model(rs.last()) =~= encode_fields_model(rs[0]) + (
        seq!['\n'] + (encode_lines_model(d.drop_first()) + seq!['\n'] + encode_fields_model(
            rs.last(),
        ))));
    }
}

pub proof fn lemma_next_newline_exact(s: Seq<char>, i: int, n: int)
    requires
        0 <= i,
        0 <= n,
        i + n <= s.len(),
        forall|t: int| i <= t < i + n ==> #[trigger] s[t] != '\n',
        i + n == s.len() || s[i + n] == '\n',
    ensures
        next_newline(s, i as nat) == i + n,
    decreases n,
{
    if n > 0 {
        lemma_next_newline_exact(s, i + 1, n - 1);
    }
}

/// Written records, filling the rest of `s` from `i`, split back into their written lines.
pub proof fn lemma_lines_of_written(s: Seq<char>, i: int, rs: Seq<Seq<FieldModel>>)
    requires
        nonempty_records(rs),
        0 <= i <= s.len(),
        s.subrange(i, s.len() as int) == encode_lines_model(rs),
    ensures
        lines_from(s, i as nat) == written_lines(rs),
    decreases rs.len(),
{
    let rest_text = s.subrange(i, s.len() as int);
    if rs.len() == 0 {
        assert(rest_text.len() == 0);
        assert(written_lines(rs) =~= Seq::<Seq<char>>::empty());
    } else {
        lemma_encode_lines_front(rs);
        let r = rs[0];
        let line = encode_fields_model(r);
        let n = line.len() as int;
        lemma_record_not_blank(r);
        lemma_fields_no_line_break(r);
        assert(n > 0);
        assert(rest_text.len() == s.len() - i);
        assert(rest_text.len() >= n);
        assert forall|t: int| 0 <= t < n implies s[i + t] == #[trigger] line[t] by {
            assert(s[i + t] == rest_text[t]);
        }
        assert forall|t: int| i <= t < i + n implies #[trigger] s[t] != '\n' by {
            assert(s[i + (t - i)] == line[t - i]);
        }
        assert(s.subrange(i, i + n) =~= line);
        assert(line.last() != '\r');
        assert(strip_cr(line) == line);
        let rest = rs.drop_first();
        assert(nonempty_records(rest)) by {
            assert forall|t: int| 0 <= t < rest.len() implies (#[trigger] rest[t]).len() > 0 by {
                assert(rest[t] == rs[t + 1]);
            }
        }
        if rs.len() == 1 {
            assert(rest_text.len() == n);
            lemma_next_newline_exact(s, i, n);
            assert(written_lines(rs) =~= seq![line]);
        } else {
            let tail = encode_lines_model(rest);
            assert(s[i + n] == '\n') by {
                assert(s[i + n] == rest_text[n]);
            }
            lemma_next_newline_exact(s, i, n);
            assert(s.subrange(i + n + 1, s.len() as int) =~= tail) by {
                assert forall|t: int| 0 <= t < tail.len() implies s.subrange(
                    i + n + 1,
                    s.len() as int,
                )[t] == tail[t] by {
                    assert(s[i + n + 1 + t] == rest_text[n + 1 + t]);
                }
            }
            lemma_lines_of_written(s, i + n + 1, rest);
            assert(written_lines(rs) =~= seq![line] + written_lines(rest));
        }
    }
}

/// Each written line, read strictly, gives its record back.
pub proof fn lemma_strict_lines_of_written(rs: Seq<Seq<FieldModel>>)
    requires
        nonempty_records(rs),
        valid_records(rs),
    ensures
        strict_lines_of(written_lines(rs)) == Ok::<Seq<Seq<FieldModel>>, crate::field::LineParseError>(rs),
    decreases rs.len(),
{
    if rs.len() > 0 {
        let d = rs.drop_last();
        assert(nonempty_records(d) && valid_records(d)) by {
            assert forall|t: int| 0 <= t < d.len() implies (#[trigger] d[t]).len() > 0 && valid_fields(
                d[t],
            ) by {
                assert(d[t] == rs[t]);
            }
        }
        lemma_strict_lines_of_written(d);
        assert(written_lines(rs).drop_last() =~= written_lines(d));
        assert(valid_fields(rs[rs.len() - 1]));
        lemma_record_not_blank(rs.last());
        law_strict_reads_back_encoding(rs.last());
        assert(d.push(rs.last()) =~= rs);
    } else {
        assert(written_lines(rs) =~= Seq::<Seq<char>>::empty());
        assert(rs =~= Seq::<Seq<FieldModel>>::empty());
    }
}

/// Each written line, read leniently, gives its record back.
pub proof fn lemma_records_of_written(rs: Seq<Seq<FieldModel>>)
    requires
        nonempty_records(rs),
    ensures
        records_of_lines(written_lines(rs)) == rs,
    decreases rs.len(),
{
    if rs.len() > 0 {
        let d = rs.drop_last();
        assert(nonempty_records(d)) by {
            assert forall|t: int| 0 <= t < d.len() implies (#[trigger] d[t]).len() > 0 by {
                assert(d[t] == rs[t]);
            }
        }
        lemma_records_of_written(d);
        assert(written_lines(rs).drop_last() =~= written_lines(d));
        assert(rs[rs.len() - 1].len() > 0);
        lemma_record_not_blank(rs.last());
        law_lenient_reads_back_encoding(rs.last());
        assert(d.push(rs.last()) =~= rs);
    } else {
        assert(written_lines(rs) =~= Seq::<Seq<char>>::empty());
        assert(rs =~= Seq::<Seq<FieldModel>>::empty());
    }
}

/// The strict line parser reads written records back: `parse_lines_strict(encode_lines(rs))`
/// is `Ok(rs)` whenever every record has a field and every key reads back bare.
pub proof fn law_strict_lines_read_back(rs: Seq<Seq<FieldModel>>)
    requires
        nonempty_records(rs),
        valid_records(rs),
    ensures
        parse_lines_strict_model(encode_lines_model(rs)) == Ok::<
            Seq<Seq<FieldModel>>,
            crate::field::LineParseError,
        >(rs),
{
    let s = encode_lines_model(rs);
    assert(s.subrange(0, s.len() as int) =~= s);
    lemma_lines_of_written(s, 0, rs);
    lemma_strict_lines_of_written(rs);
}

/// The lenient line parser reads written records back: `parse_lines(encode_lines(rs))` is
/// `rs` whenever every record has a field.
pub proof fn law_lenient_lines_read_back(rs: Seq<Seq<FieldModel>>)
    requires
        nonempty_records(rs),
    ensures
        parse_lines_model(encode_lines_model(rs)) == rs,
{
    let s = encode_lines_model(rs);
    assert(s.subrange(0, s.len() as int) =~= s);
    lemma_lines_of_written(s, 0, rs);
    lemma_records_of_written(rs);
}

pub proof fn lemma_tokens_empty_from(s: Seq<char>, i: nat)
    requires
        i <= s.len(),
    ensures
        (tokens_from(s, i).len() == 0) == (forall|t: int| i <= t < s.len() ==> #[trigger] is_ascii_ws(s[t])),
    decreases s.len() - i,
{
    if i < s.len() {
        if is_ascii_ws(s[i as int]) {
            lemma_tokens_empty_from(s, i + 1);
            if forall|t: int| i + 1 <= t < s.len() ==> #[trigger] is_ascii_ws(s[t]) {
                assert forall|t: int| i <= t < s.len() implies #[trigger] is_ascii_ws(s[t]) by {
                    if t > i {
                        assert(i + 1 <= t);
                    }
                }
            }
        } else {
            lemma_delim_end_bounds(s, i);
            assert(tokens_from(s, i).len() > 0);
        }
    }
}

/// The tokenizer finds nothing exactly when the input is all ASCII whitespace; so an
/// input that yields no tokens trims to nothing.
pub proof fn law_tokens_empty_iff_blank(s: Seq<char>)
    ensures
        (tokenize_model(s).len() == 0) == (forall|t: int| 0 <= t < s.len() ==> #[trigger] is_ascii_ws(s[t])),
        tokenize_model(s).len() == 0 ==> is_blank(s),
{
    lemma_tokens_empty_from(s, 0);
    if tokenize_model(s).len() == 0 {
        assert forall|t: int| 0 <= t < s.len() implies #[trigger] crate::text::is_unicode_ws(s[t]) by {
            assert(is_ascii_ws(s[t]));
        }
    }
}

pub proof fn lemma_lossy_agrees(ls: Seq<Seq<char>>)
    ensures
        match strict_lines_of(ls) {
            Ok(rs) => lossy_lines_of(ls) == (rs, Seq::<LineParseError>::empty()),
            Err(e) => lossy_lines_of(ls).1.len() > 0 && lossy_lines_of(ls).1[0] == e,
        },
    decreases ls.len(),
{
    if ls.len() > 0 {
        lemma_lossy_agrees(ls.drop_last());
        let p = lossy_lines_of(ls.drop_last());
        if let Err(e) = strict_lines_of(ls.drop_last()) {
            let q = lossy_lines_of(ls);
            assert(q.1.len() >= p.1.len());
            assert(q.1[0] == p.1[0]);
        } else {
            match crate::strict::strict_model(ls.last()) {
                Ok(_) => {},
                Err(x) => {
                    assert(Seq::<LineParseError>::empty().push(
                        LineParseError { line: ls.len() as usize, error: x },
                    )[0] == LineParseError { line: ls.len() as usize, error: x });
                },
            }
        }
    }
}

/// The lossy line parser agrees with the strict one: when the strict reading succeeds, the
/// lossy one gives the same records and no errors; when it fails, the lossy one's first
/// error is the strict one's.
pub proof fn law_lossy_agrees_with_strict(s: Seq<char>)
    ensures
        match parse_lines_strict_model(s) {
            Ok(rs) => parse_lines_lossy_model(s) == (rs, Seq::<LineParseError>::empty()),
            Err(e) => parse_lines_lossy_model(s).1.len() > 0 && parse_lines_lossy_model(s).1[0]
                == e,
        },
{
    lemma_lossy_agrees(crate::lines::lines_model(s));
}

/// A map written out and read back gives the same value under every key:
/// `parse_to_map(encode_map(m))` looks like `m`.
pub proof fn law_map_reads_back(m: FieldMap)
    requires
        m.wf(),
    ensures
        forall|k: Seq<char>|
            #[trigger] last_value(parse_fields_model(encode_fields_model(m.entries_model())), k)
                == m.lookup(k),
{
    law_lenient_reads_back_encoding(m.entries_model());
}

/// A map is determined by what it stores under each key.
pub proof fn law_map_determined_by_lookup(a: FieldMap, b: FieldMap)
    requires
        a.wf(),
        b.wf(),
        forall|k: Seq<char>| #[trigger] a.lookup(k) == b.lookup(k),
    ensures
        a.entries_model() == b.entries_model(),
{
    assert forall|k: Seq<char>| last_value(a.entries_model(), k) == last_value(
        b.entries_model(),
        k,
    ) by {
        assert(a.lookup(k) == b.lookup(k));
    }
    lemma_sorted_unique(a.entries_model(), b.entries_model());
}

pub proof fn lemma_quoted_strict_is_lenient(s: Seq<char>, i: nat)
    requires
        quoted_strict(s, i) is Some,
    ensures
        quoted_lenient(s, i) == quoted_strict(s, i)->Some_0,
    decreases s.len() - i,
{
    if i < s.len() && s[i as int] != '"' {
        if s[i as int] == '\\' {
            lemma_quoted_strict_is_lenient(s, i + 2);
        } else {
            lemma_quoted_strict_is_lenient(s, i + 1);
        }
    }
}

/// Where the strict reading succeeds, the tokenizer sees exactly the tokens of its fields.
pub proof fn lemma_strict_tokens(s: Seq<char>, i: nat)
    requires
        i <= s.len(),
        strict_from(s, i) is Ok,
    ensures
        tokens_from(s, i) == fields_tokens(strict_from(s, i)->Ok_0),
    decreases s.len() - i,
{
    let fs = strict_from(s, i)->Ok_0;
    if i >= s.len() {
        assert(fs =~= Seq::<FieldModel>::empty());
    } else if is_ascii_ws(s[i as int]) {
        lemma_strict_tokens(s, i + 1);
    } else {
        lemma_delim_end_bounds(s, i);
        let k = delim_end(s, i);
        let key = s.subrange(i as int, k as int);
        let next: nat;
        let f: FieldModel;
        if k < s.len() && s[k as int] == '=' {
            let j = k + 1;
            if j < s.len() && s[j as int] == '"' {
                lemma_quoted_strict_bounds(s, j + 1);
                let r = quoted_strict(s, j + 1)->Some_0;
                lemma_quoted_strict_is_lenient(s, j + 1);
                next = r.1;
                f = pair_model(key, r.0);
            } else if j < s.len() && !is_ascii_ws(s[j as int]) {
                lemma_ws_end_bounds(s, j);
                next = ws_end(s, j);
                f = pair_model(key, s.subrange(j as int, next as int));
            } else {
                next = j;
                f = pair_model(key, Seq::empty());
            }
        } else {
            next = k;
            f = flag_model(key);
        }
        lemma_strict_tokens(s, next);
        let rest = strict_from(s, next)->Ok_0;
        assert(fs == seq![f] + rest);
        assert(fs.drop_first() =~= rest);
        assert(fs[0] == f);
        assert(k > i);
        assert(tokens_from(s, i) =~= fields_tokens(fs));
    }
}

/// The lenient parser agrees with the strict one wherever the strict one succeeds:
/// `parse_strict(s) == Ok(fs)` implies `parse_fields(s) == fs`.
pub proof fn law_lenient_agrees_with_strict(s: Seq<char>)
    requires
        strict_model(s) is Ok,
    ensures
        parse_fields_model(s) == strict_model(s)->Ok_0,
{
    lemma_strict_tokens(s, 0);
    let fs = strict_model(s)->Ok_0;
    let ts = tokenize_model(s);
    assert(ts.subrange(0, ts.len() as int) =~= ts);
    lemma_fields_from_tokens(ts, 0, fs);
}

pub proof fn lemma_lines_agree(ls: Seq<Seq<char>>)
    ensures
        strict_lines_of(ls) matches Ok(rs) ==> records_of_lines(ls) == rs,
    decreases ls.len(),
{
    if ls.len() > 0 {
        lemma_lines_agree(ls.drop_last());
        if strict_lines_of(ls) is Ok && !is_blank(ls.last()) {
            law_lenient_agrees_with_strict(ls.last());
        }
    }
}

/// The lenient line parser agrees with the strict one wherever the strict one succeeds:
/// `parse_lines_strict(s) == Ok(rs)` implies `parse_lines(s) == rs`.
pub proof fn law_lenient_lines_agree_with_strict(s: Seq<char>)
    ensures
        parse_lines_strict_model(s) matches Ok(rs) ==> parse_lines_model(s) == rs,
{
    lemma_lines_agree(crate::lines::lines_model(s));
}

/// Reading a key in a suffix of `s` is reading it in `s`, shifted.
pub proof fn lemma_delim_end_shift(s: Seq<char>, k: int, i: int)
    requires
        0 <= k <= s.len(),
        0 <= i <= s.len() - k,
    ensures
        delim_end(s, (k + i) as nat) == k + delim_end(s.subrange(k, s.len() as int), i as nat),
    decreases s.len() - k - i,
{
    let b = s.subrange(k, s.len() as int);
    if i < b.len() {
        assert(b[i] == s[k + i]);
        if !is_delim(b[i]) {
            lemma_delim_end_shift(s, k, i + 1);
        }
    }
}

/// Reading a word in a suffix of `s` is reading it in `s`, shifted.
pub proof fn lemma_ws_end_shift(s: Seq<char>, k: int, i: int)
    requires
        0 <= k <= s.len(),
        0 <= i <= s.len() - k,
    ensures
        ws_end(s, (k + i) as nat) == k + ws_end(s.subrange(k, s.len() as int), i as nat),
    decreases s.len() - k - i,
{
    let b = s.subrange(k, s.len() as int);
    if i < b.len() {
        assert(b[i] == s[k + i]);
        if !is_ascii_ws(b[i]) {
            lemma_ws_end_shift(s, k, i + 1);
        }
    }
}

/// Reading a quoted value in a suffix of `s` is reading it in `s`, shifted.
pub proof fn lemma_quoted_lenient_shift(s: Seq<char>, k: int, i: int)
    requires
        0 <= k <= s.len(),
        0 <= i <= s.len() - k,
    ensures
        quoted_lenient(s, (k + i) as nat) == (
            quoted_lenient(s.subrange(k, s.len() as int), i as nat).0,
            (k + quoted_lenient(s.subrange(k, s.len() as int), i as nat).1) as nat,
        ),
    decreases s.len() - k - i,
{
    let b = s.subrange(k, s.len() as int);
    if i < b.len() {
        assert(b[i] == s[k + i]);
        if b[i] == '\\' {
            if i + 1 < b.len() {
                assert(b[i + 1] == s[k + i + 1]);
                lemma_quoted_lenient_shift(s, k, i + 2);
            }
        } else if b[i] != '"' {
            lemma_quoted_lenient_shift(s, k, i + 1);
        }
    }
}

/// Tokenizing a suffix of `s` is tokenizing `s` from where the suffix starts.
pub proof fn lemma_tokens_shift(s: Seq<char>, k: int, i: int)
    requires
        0 <= k <= s.len(),
        0 <= i <= s.len() - k,
    ensures
        tokens_from(s, (k + i) as nat) == tokens_from(s.subrange(k, s.len() as int), i as nat),
    decreases s.len() - k - i,
{
    let b = s.subrange(k, s.len() as int);
    if i < b.len() {
        assert(b[i] == s[k + i]);
        if is_ascii_ws(b[i]) {
            lemma_tokens_shift(s, k, i + 1);
        } else if b[i] == '"' {
            lemma_quoted_lenient_shift(s, k, i + 1);
            lemma_quoted_lenient_bounds(b, (i + 1) as nat);
            lemma_tokens_shift(s, k, quoted_lenient(b, (i + 1) as nat).1 as int);
        } else {
            lemma_delim_end_shift(s, k, i);
            lemma_delim_end_bounds(b, i as nat);
            let kb = delim_end(b, i as nat) as int;
            assert(s.subrange(k + i, k + kb) =~= b.subrange(i, kb));
            if kb < b.len() {
                assert(b[kb] == s[k + kb]);
            }
            if kb < b.len() && b[kb] == '=' {
                let j = kb + 1;
                if j < b.len() {
                    assert(b[j] == s[k + j]);
                }
                if j < b.len() && b[j] == '"' {
                    lemma_quoted_lenient_shift(s, k, j + 1);
                    lemma_quoted_lenient_bounds(b, (j + 1) as nat);
                    lemma_tokens_shift(s, k, quoted_lenient(b, (j + 1) as nat).1 as int);
                } else if j < b.len() && !is_ascii_ws(b[j]) {
                    lemma_ws_end_shift(s, k, j);
                    lemma_ws_end_bounds(b, j as nat);
                    let e = ws_end(b, j as nat) as int;
                    assert(s.subrange(k + j, k + e) =~= b.subrange(j, e));
                    lemma_tokens_shift(s, k, e);
                } else {
                    lemma_tokens_shift(s, k, j);
                }
            } else {
                lemma_tokens_shift(s, k, kb);
            }
        }
    }
}

/// Within a prefix `a` of `s` that `s` follows with a key delimiter, keys end where they end in `a`.
pub proof fn lemma_delim_end_prefix(a: Seq<char>, s: Seq<char>, i: int)
    requires
        0 <= i <= a.len() < s.len(),
        forall|t: int| 0 <= t < a.len() ==> #[trigger] s[t] == a[t],
        is_delim(s[a.len() as int]),
    ensures
        delim_end(s, i as nat) == delim_end(a, i as nat),
    decreases a.len() - i,
{
    if i < a.len() && !is_delim(a[i]) {
        assert(s[i] == a[i]);
        lemma_delim_end_prefix(a, s, i + 1);
    } else if i < a.len() {
        assert(s[i] == a[i]);
    }
}

/// Within a prefix `a` of `s` that `s` follows with whitespace, words end where they end in `a`.
pub proof fn lemma_ws_end_prefix(a: Seq<char>, s: Seq<char>, i: int)
    requires
        0 <= i <= a.len() < s.len(),
        forall|t: int| 0 <= t < a.len() ==> #[trigger] s[t] == a[t],
        is_ascii_ws(s[a.len() as int]),
    ensures
        ws_end(s, i as nat) == ws_end(a, i as nat),
    decreases a.len() - i,
{
    if i < a.len() && !is_ascii_ws(a[i]) {
        assert(s[i] == a[i]);
        lemma_ws_end_prefix(a, s, i + 1);
    } else if i < a.len() {
        assert(s[i] == a[i]);
    }
}

/// A quote-free prefix `a` of `s`, followed in `s` by a space, tokenizes as it does alone,
/// and what follows is tokenized from the space on.
pub proof fn lemma_tokens_prefix(a: Seq<char>, s: Seq<char>, i: int)
    requires
        0 <= i <= a.len() < s.len(),
        forall|t: int| 0 <= t < a.len() ==> #[trigger] s[t] == a[t],
        forall|t: int| 0 <= t < a.len() ==> #[trigger] a[t] != '"',
        s[a.len() as int] == ' ',
    ensures
        tokens_from(s, i as nat) == tokens_from(a, i as nat) + tokens_from(s, a.len()),
    decreases a.len() - i,
{
    let n = a.len() as int;
    if i == n {
        assert(tokens_from(a, i as nat) =~= Seq::<TokenModel>::empty());
        assert(Seq::<TokenModel>::empty() + tokens_from(s, a.len()) =~= tokens_from(s, a.len()));
    } else {
        assert(s[i] == a[i]);
        if is_ascii_ws(a[i]) {
            lemma_tokens_prefix(a, s, i + 1);
        } else {
            lemma_delim_end_prefix(a, s, i);
            lemma_delim_end_bounds(a, i as nat);
            let k = delim_end(a, i as nat) as int;
            assert(s.subrange(i, k) =~= a.subrange(i, k));
            if k < n {
                assert(s[k] == a[k]);
            }
            let word = if k > i {
                seq![TokenModel::Atom(a.subrange(i, k))]
            } else {
                Seq::<TokenModel>::empty()
            };
            if k < n && a[k] == '=' {
                let j = k + 1;
                if j < n {
                    assert(s[j] == a[j]);
                }
                if j < n && !is_ascii_ws(a[j]) {
                    lemma_ws_end_prefix(a, s, j);
                    lemma_ws_end_bounds(a, j as nat);
                    let e = ws_end(a, j as nat) as int;
                    assert(s.subrange(j, e) =~= a.subrange(j, e));
                    lemma_tokens_prefix(a, s, e);
                    let mid = seq![TokenModel::Equal, TokenModel::Atom(a.subrange(j, e))];
                    assert(word + mid + (tokens_from(a, e as nat) + tokens_from(s, a.len()))
                        =~= (word + mid + tokens_from(a, e as nat)) + tokens_from(s, a.len()));
                } else {
                    lemma_tokens_prefix(a, s, j);
                    let mid = seq![TokenModel::Equal];
                    assert(word + mid + (tokens_from(a, j as nat) + tokens_from(s, a.len()))
                        =~= (word + mid + tokens_from(a, j as nat)) + tokens_from(s, a.len()));
                }
            } else {
                lemma_tokens_prefix(a, s, k);
                assert(word + (tokens_from(a, k as nat) + tokens_from(s, a.len())) =~= (word
                    + tokens_from(a, k as nat)) + tokens_from(s, a.len()));
            }
        }
    }
}

/// A quote-free text followed by a space tokenizes on its own: `tokenize(a + " " + b)` is
/// `tokenize(a)` followed by `tokenize(b)` whenever `a` holds no `"`.
pub proof fn law_tokenize_splits_after_quote_free_prefix(a: Seq<char>, b: Seq<char>)
    requires
        forall|t: int| 0 <= t < a.len() ==> #[trigger] a[t] != '"',
    ensures
        tokenize_model(a + seq![' '] + b) == tokenize_model(a) + tokenize_model(b),
{
    let s = a + seq![' '] + b;
    let n = a.len() as int;
    assert forall|t: int| 0 <= t < a.len() implies #[trigger] s[t] == a[t] by {}
    assert(s[n] == ' ');
    lemma_tokens_prefix(a, s, 0);
    assert(tokens_from(s, a.len()) == tokens_from(s, (n + 1) as nat));
    lemma_tokens_shift(s, n + 1, 0);
    assert(s.subrange(n + 1, s.len() as int) =~= b);
}

/// Exactly the keys that are not empty, do not open with a quote, hold no ASCII whitespace
/// and no `=`, and are not all whitespace read back as themselves when written bare.
pub proof fn law_key_reads_bare_exactly(k: Seq<char>)
    ensures
        key_reads_bare(k) <==> (k.len() > 0 && k[0] != '"' && (forall|i: int|
            0 <= i < k.len() ==> !is_ascii_ws(#[trigger] k[i]) && k[i] != '=') && (exists|i: int|
            0 <= i < k.len() && !is_unicode_ws(#[trigger] k[i]))),
{
    if key_reads_bare(k) {
        assert forall|i: int| 0 <= i < k.len() implies !is_ascii_ws(#[trigger] k[i]) && k[i]
            != '=' by {
            assert(!is_delim(k[i]));
        }
    }
    if k.len() > 0 && k[0] != '"' && (forall|i: int|
        0 <= i < k.len() ==> !is_ascii_ws(#[trigger] k[i]) && k[i] != '=') && (exists|i: int|
        0 <= i < k.len() && !is_unicode_ws(#[trigger] k[i])) {
        assert forall|i: int| 0 <= i < k.len() implies !is_delim(#[trigger] k[i]) by {
            assert(!is_ascii_ws(k[i]));
        }
        let w = choose|i: int| 0 <= i < k.len() && !is_unicode_ws(#[trigger] k[i]);
        assert(!is_unicode_ws(k[w]));
    }
}

/// A key that is not empty, does not open with a quote, holds no ASCII whitespace and no
/// `=`, and is not all whitespace is written as it is, and so is a field with that key.
pub proof fn law_plain_key_written_bare(k: Seq<char>, v: Option<Seq<char>>)
    requires
        k.len() > 0,
        k[0] != '"',
        forall|i: int| 0 <= i < k.len() ==> !is_ascii_ws(#[trigger] k[i]) && k[i] != '=',
        exists|i: int| 0 <= i < k.len() && !is_unicode_ws(#[trigger] k[i]),
    ensures
        encode_key(k) == k,
        encode_field_model((FieldModel { key: k, value: v })) == k + match v {
            Some(t) => seq!['='] + encode_value(t),
            None => Seq::<char>::empty(),
        },
{
    law_key_reads_bare_exactly(k);
}

/// The pairs of a list of fields are its fields that have a value, each as its key and
/// value, in order, whatever the value (an empty one too).
pub proof fn law_pairs_are_the_valued_fields(fs: Seq<FieldModel>)
    ensures
        pairs_model(fs) == fs.filter_map(
            (|f: FieldModel|
                if f.value is Some {
                    Some((f.key, f.value->Some_0))
                } else {
                    None
                }),
        ),
    decreases fs.len(),
{
    if fs.len() > 0 {
        law_pairs_are_the_valued_fields(fs.drop_last());
        let p = pairs_model(fs.drop_last());
        match fs.last().value {
            Some(v) => {
                assert(p.push((fs.last().key, v)) =~= p + seq![(fs.last().key, v)]);
            },
            None => {},
        }
    }
}

/// The flags of a list of fields are the keys of its fields without a value, in order.
pub proof fn law_flags_are_the_valueless_fields(fs: Seq<FieldModel>)
    ensures
        flags_model(fs) == fs.filter_map(
            (|f: FieldModel|
                if f.value is None {
                    Some(f.key)
                } else {
                    None
                }),
        ),
    decreases fs.len(),
{
    if fs.len() > 0 {
        law_flags_are_the_valueless_fields(fs.drop_last());
        let p = flags_model(fs.drop_last());
        assert(p.push(fs.last().key) =~= p + seq![fs.last().key]);
    }
}

/// The values for a key are the values of the fields with that key that have one, in
/// order, whatever the value (an empty one too).
pub proof fn law_values_for_are_the_keys_values(fs: Seq<FieldModel>, k: Seq<char>)
    ensures
        values_model(fs, k) == fs.filter_map(
            (|f: FieldModel|
                if f.key == k && f.value is Some {
                    Some(f.value->Some_0)
                } else {
                    None
                }),
        ),
    decreases fs.len(),
{
    if fs.len() > 0 {
        law_values_for_are_the_keys_values(fs.drop_last(), k);
        let p = values_model(fs.drop_last(), k);
        match fs.last().value {
            Some(v) => {
                assert(p.push(v) =~= p + seq![v]);
            },
            None => {},
        }
    }
}

/// Removing a key keeps exactly the fields whose key differs from it, in order, and
/// removes as many fields as have that key.
pub proof fn law_remove_key_keeps_other_keys(fs: Seq<FieldModel>, k: Seq<char>)
    ensures
        without_key(fs, k) == fs.filter(|f: FieldModel| f.key != k),
        fs.len() - without_key(fs, k).len() == fs.filter(|f: FieldModel| f.key == k).len(),
    decreases fs.len(),
{
    reveal_with_fuel(Seq::<FieldModel>::filter, 1);
    if fs.len() > 0 {
        law_remove_key_keeps_other_keys(fs.drop_last(), k);
    }
}

/// The first field with a key stands at the first index that holds it.
pub proof fn law_first_index_is_first_occurrence(fs: Seq<FieldModel>, k: Seq<char>)
    ensures
        match first_index(fs, k) {
            Some(i) => 0 <= i < fs.len() && fs[i].key == k && forall|j: int|
                0 <= j < i ==> #[trigger] fs[j].key != k,
            None => forall|j: int| 0 <= j < fs.len() ==> #[trigger] fs[j].key != k,
        },
    decreases fs.len(),
{
    if fs.len() > 0 {
        let d = fs.drop_last();
        law_first_index_is_first_occurrence(d, k);
        match first_index(d, k) {
            Some(i) => {
                assert(fs[i] == d[i]);
                assert forall|j: int| 0 <= j < i implies #[trigger] fs[j].key != k by {
                    assert(fs[j] == d[j]);
                }
            },
            None => {
                assert forall|j: int| 0 <= j < fs.len() - 1 implies #[trigger] fs[j].key != k by {
                    assert(fs[j] == d[j]);
                }
            },
        }
    }
}

/// The last field with a key stands at the last index that holds it.
pub proof fn law_last_index_is_last_occurrence(fs: Seq<FieldModel>, k: Seq<char>)
    ensures
        match last_index(fs, k) {
            Some(i) => 0 <= i < fs.len() && fs[i].key == k && forall|j: int|
                i < j < fs.len() ==> #[trigger] fs[j].key != k,
            None => forall|j: int| 0 <= j < fs.len() ==> #[trigger] fs[j].key != k,
        },
    decreases fs.len(),
{
    if fs.len() > 0 {
        let d = fs.drop_last();
        law_last_index_is_last_occurrence(d, k);
        if fs.last().key != k {
            match last_index(d, k) {
                Some(i) => {
                    assert(fs[i] == d[i]);
                    assert forall|j: int| i < j < fs.len() implies #[trigger] fs[j].key != k by {
                        if j < fs.len() - 1 {
                            assert(fs[j] == d[j]);
                        }
                    }
                },
                None => {
                    assert forall|j: int| 0 <= j < fs.len() implies #[trigger] fs[j].key != k by {
                        if j < fs.len() - 1 {
                            assert(fs[j] == d[j]);
                        }
                    }
                },
            }
        }
    }
}

/// The first field with a key in a document is the first such field of the first record
/// that has one, flag or pair.
pub proof fn law_doc_first_is_first_occurrence(rs: Seq<Seq<FieldModel>>, k: Seq<char>)
    ensures
        match doc_first(rs, k) {
            Some(p) => {
                &&& 0 <= p.0 < rs.len()
                &&& 0 <= p.1 < rs[p.0].len()
                &&& rs[p.0][p.1].key == k
                &&& forall|j: int| 0 <= j < p.1 ==> #[trigger] rs[p.0][j].key != k
                &&& forall|i: int, j: int|
                    0 <= i < p.0 && 0 <= j < rs[i].len() ==> #[trigger] rs[i][j].key != k
            },
            None => forall|i: int, j: int|
                0 <= i < rs.len() && 0 <= j < rs[i].len() ==> #[trigger] rs[i][j].key != k,
        },
    decreases rs.len(),
{
    if rs.len() > 0 {
        let d = rs.drop_last();
        law_doc_first_is_first_occurrence(d, k);
        law_first_index_is_first_occurrence(rs.last(), k);
        match doc_first(d, k) {
            Some(p) => {
                assert(rs[p.0] == d[p.0]);
                assert forall|i: int, j: int|
                    0 <= i < p.0 && 0 <= j < rs[i].len() implies #[trigger] rs[i][j].key != k by {
                    assert(rs[i] == d[i]);
                }
            },
            None => {
                assert forall|i: int, j: int|
                    0 <= i < rs.len() - 1 && 0 <= j < rs[i].len() implies #[trigger] rs[i][j].key
                    != k by {
                    assert(rs[i] == d[i]);
                }
            },
        }
    }
}

/// The last field with a key in a document is the last such field of the last record
/// that has one, flag or pair.
pub proof fn law_doc_last_is_last_occurrence(rs: Seq<Seq<FieldModel>>, k: Seq<char>)
    ensures
        match doc_last(rs, k) {
            Some(p) => {
                &&& 0 <= p.0 < rs.len()
                &&& 0 <= p.1 < rs[p.0].len()
                &&& rs[p.0][p.1].key == k
                &&& forall|j: int| p.1 < j < rs[p.0].len() ==> #[trigger] rs[p.0][j].key != k
                &&& forall|i: int, j: int|
                    p.0 < i < rs.len() && 0 <= j < rs[i].len() ==> #[trigger] rs[i][j].key != k
            },
            None => forall|i: int, j: int|
                0 <= i < rs.len() && 0 <= j < rs[i].len() ==> #[trigger] rs[i][j].key != k,
        },
    decreases rs.len(),
{
    if rs.len() > 0 {
        let d = rs.drop_last();
        law_doc_last_is_last_occurrence(d, k);
        law_last_index_is_last_occurrence(rs.last(), k);
        if last_index(rs.last(), k) is None {
            match doc_last(d, k) {
                Some(p) => {
                    assert(rs[p.0] == d[p.0]);
                    assert forall|i: int, j: int|
                        p.0 < i < rs.len() && 0 <= j < rs[i].len() implies #[trigger] rs[i][j].key
                        != k by {
                        if i < rs.len() - 1 {
                            assert(rs[i] == d[i]);
                        }
                    }
                },
                None => {
                    assert forall|i: int, j: int|
                        0 <= i < rs.len() && 0 <= j < rs[i].len() implies #[trigger] rs[i][j].key
                        != k by {
                        if i < rs.len() - 1 {
                            assert(rs[i] == d[i]);
                        }
                    }
                },
            }
        }
    }
}

/// Dropping the empty records keeps exactly the records that have a field, in order.
pub proof fn law_drop_empty_keeps_non_empty(rs: Seq<Seq<FieldModel>>)
    ensures
        non_empty_records(rs) == rs.filter(|r: Seq<FieldModel>| r.len() > 0),
    decreases rs.len(),
{
    reveal_with_fuel(Seq::<Seq<FieldModel>>::filter, 1);
    if rs.len() > 0 {
        law_drop_empty_keeps_non_empty(rs.drop_last());
    }
}

/// A value is written as `""` when empty, as it is when it holds no whitespace, quote,
/// backslash or control character, and between quotes, escaped, otherwise.
pub proof fn law_value_quoted_exactly_when_needed(v: Seq<char>)
    ensures
        v.len() == 0 ==> encode_value(v) == seq!['"', '"'],
        v.len() > 0 && (forall|i: int|
            0 <= i < v.len() ==> !is_unicode_ws(#[trigger] v[i]) && v[i] != '"' && v[i] != '\\'
                && !is_control_char(v[i])) ==> encode_value(v) == v,
        (exists|i: int|
            0 <= i < v.len() && (is_unicode_ws(#[trigger] v[i]) || v[i] == '"' || v[i] == '\\'
                || is_control_char(v[i]))) ==> encode_value(v) == seq!['"'] + escape_body(v)
            + seq!['"'],
{
    if v.len() > 0 && (forall|i: int|
        0 <= i < v.len() ==> !is_unicode_ws(#[trigger] v[i]) && v[i] != '"' && v[i] != '\\'
            && !is_control_char(v[i])) {
        assert forall|i: int| 0 <= i < v.len() implies !forces_quotes(#[trigger] v[i]) by {
            assert(!is_unicode_ws(v[i]));
        }
    }
    if exists|i: int|
        0 <= i < v.len() && (is_unicode_ws(#[trigger] v[i]) || v[i] == '"' || v[i] == '\\'
            || is_control_char(v[i])) {
        let w = choose|i: int|
            0 <= i < v.len() && (is_unicode_ws(#[trigger] v[i]) || v[i] == '"' || v[i] == '\\'
                || is_control_char(v[i]));
        assert(forces_quotes(v[w]));
    }
}

/// Keeping the elements marked `true` gives, in order, exactly the elements whose mark is
/// `true`.
pub proof fn law_select_keeps_the_marked<T>(xs: Seq<T>, keep: Seq<bool>)
    requires
        keep.len() == xs.len(),
    ensures
        select(xs, keep) == Seq::new(xs.len(), |i: int| (xs[i], keep[i])).filter(
            |p: (T, bool)| p.1,
        ).map_values(|p: (T, bool)| p.0),
    decreases xs.len(),
{
    reveal(Seq::filter);
    let z = Seq::new(xs.len(), |i: int| (xs[i], keep[i]));
    if xs.len() > 0 {
        let n = xs.len() - 1;
        let d = xs.drop_last();
        let kd = keep.take(n as int);
        law_select_keeps_the_marked(d, kd);
        let zd = Seq::new(d.len(), |i: int| (d[i], kd[i]));
        assert(zd =~= z.drop_last());
        let f = zd.filter(|p: (T, bool)| p.1);
        if keep[n as int] {
            assert(f.push(z.last()).map_values(|p: (T, bool)| p.0) =~= f.map_values(
                |p: (T, bool)| p.0,
            ).push(xs.last()));
        }
    } else {
        assert(z.filter(|p: (T, bool)| p.1) =~= Seq::<(T, bool)>::empty());
    }
}

} // verus!
