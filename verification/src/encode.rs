//! Writing fields back out as normalized logfmt text.

use vstd::prelude::*;
use crate::field::{Field, FieldModel, fields_model};
use crate::scan::is_delim;
use crate::text::{
    all_whitespace, chars_of, is_ascii_whitespace, is_blank, is_unicode_ws, is_whitespace, push_all,
};

verus! {

/// A control character (general category Cc), as `char::is_control` defines it.
pub open spec fn is_control_char(c: char) -> bool {
    (c as u32) <= 0x1F || (0x7F <= (c as u32) && (c as u32) <= 0x9F)
}

/// A character that forces a value into quotes: whitespace (any `char::is_whitespace`
/// character), a quote or a backslash, or a control character.
pub open spec fn forces_quotes(c: char) -> bool {
    is_unicode_ws(c) || c == '"' || c == '\\' || is_control_char(c)
}

/// Whether a value must be quoted to be read back.
pub open spec fn needs_quotes(v: Seq<char>) -> bool {
    exists|i: int| 0 <= i < v.len() && #[trigger] forces_quotes(v[i])
}

/// How one character is written inside quotes.
pub open spec fn escape_char(c: char) -> Seq<char> {
    if c == '"' {
        seq!['\\', '"']
    } else if c == '\\' {
        seq!['\\', '\\']
    } else if c == '\n' {
        seq!['\\', 'n']
    } else if c == '\r' {
        seq!['\\', 'r']
    } else if c == '\t' {
        seq!['\\', 't']
    } else {
        seq![c]
    }
}

/// The characters of `v` as they are written between quotes.
pub open spec fn escape_body(v: Seq<char>) -> Seq<char>
    decreases v.len(),
{
    if v.len() == 0 {
        Seq::empty()
    } else {
        escape_body(v.drop_last()) + escape_char(v.last())
    }
}

/// How a value is written: `""` when empty, quoted and escaped when it holds whitespace,
/// a quote, a backslash or a control character, and as it is otherwise.
pub open spec fn encode_value(v: Seq<char>) -> Seq<char> {
    if v.len() == 0 {
        seq!['"', '"']
    } else if needs_quotes(v) {
        seq!['"'] + escape_body(v) + seq!['"']
    } else {
        v
    }
}

/// A key that reads back as itself when written as it is: not empty, not all whitespace,
/// not opening with a quote, and holding no ASCII whitespace and no `=`.
pub open spec fn key_reads_bare(k: Seq<char>) -> bool {
    &&& k.len() > 0
    &&& k[0] != '"'
    &&& forall|i: int| 0 <= i < k.len() ==> !is_delim(#[trigger] k[i])
    &&& !is_blank(k)
}

/// How a key is written: as it is when it reads back that way, and quoted and escaped
/// otherwise.
pub open spec fn encode_key(k: Seq<char>) -> Seq<char> {
    if key_reads_bare(k) {
        k
    } else {
        seq!['"'] + escape_body(k) + seq!['"']
    }
}

/// How a field is written: its key, then `=` and its value if it has one.
pub open spec fn encode_field_model(f: FieldModel) -> Seq<char> {
    encode_key(f.key) + match f.value {
        Some(v) => seq!['='] + encode_value(v),
        None => Seq::empty(),
    }
}

/// Fields written one after the other, separated by single spaces.
pub open spec fn encode_fields_model(fs: Seq<FieldModel>) -> Seq<char>
    decreases fs.len(),
{
    if fs.len() == 0 {
        Seq::empty()
    } else if fs.len() == 1 {
        encode_field_model(fs[0])
    } else {
        encode_fields_model(fs.drop_last()) + seq![' '] + encode_field_model(fs.last())
    }
}

/// Records written one per line, separated by line feeds.
pub open spec fn encode_lines_model(rs: Seq<Seq<FieldModel>>) -> Seq<char>
    decreases rs.len(),
{
    if rs.len() == 0 {
        Seq::empty()
    } else if rs.len() == 1 {
        encode_fields_model(rs[0])
    } else {
        encode_lines_model(rs.drop_last()) + seq!['\n'] + encode_fields_model(rs.last())
    }
}

pub open spec fn records_model(rs: Seq<Vec<Field>>) -> Seq<Seq<FieldModel>> {
    rs.map_values(|r: Vec<Field>| fields_model(r@))
}

/// Whether a value must be quoted.
pub fn value_needs_quotes(value: &str) -> (r: bool)
    ensures
        r == needs_quotes(value@),
{
    let cs = chars_of(value);
    let mut i: usize = 0;
    while i < cs.len()
        invariant
            cs@ == value@,
            i <= cs.len(),
            forall|k: int| 0 <= k < i ==> !#[trigger] forces_quotes(cs@[k]),
        decreases cs.len() - i,
    {
        let c = cs[i];
        let u = c as u32;
        if is_whitespace(c) || c == '"' || c == '\\' || u <= 0x1F || (0x7F <= u && u <= 0x9F) {
            assert(forces_quotes(cs@[i as int]));
            return true;
        }
        i = i + 1;
    }
    false
}

fn push_escaped_char(out: &mut String, c: char)
    ensures
        final(out)@ == old(out)@ + escape_char(c),
{
    let ghost o = out@;
    if c == '"' {
        out.push('\\');
        out.push('"');
    } else if c == '\\' {
        out.push('\\');
        out.push('\\');
    } else if c == '\n' {
        out.push('\\');
        out.push('n');
    } else if c == '\r' {
        out.push('\\');
        out.push('r');
    } else if c == '\t' {
        out.push('\\');
        out.push('t');
    } else {
        out.push(c);
    }
    assert(out@ =~= o + escape_char(c));
}

/// Appends the written form of a value.
pub fn push_encoded_value(out: &mut String, value: &str)
    ensures
        final(out)@ == old(out)@ + encode_value(value@),
{
    let ghost o = out@;
    let cs = chars_of(value);
    if cs.len() == 0 {
        out.push('"');
        out.push('"');
        assert(out@ =~= o + encode_value(value@));
        return;
    }
    if value_needs_quotes(value) {
        push_quoted(out, &cs);
        assert(out@ =~= o + encode_value(value@));
    } else {
        push_all(out, value);
    }
}

/// Appends `cs` between quotes, escaped.
fn push_quoted(out: &mut String, cs: &Vec<char>)
    ensures
        final(out)@ == old(out)@ + seq!['"'] + escape_body(cs@) + seq!['"'],
{
    let ghost o = out@;
    out.push('"');
    let mut i: usize = 0;
    while i < cs.len()
        invariant
            i <= cs.len(),
            out@ == o + seq!['"'] + escape_body(cs@.take(i as int)),
        decreases cs.len() - i,
    {
        push_escaped_char(out, cs[i]);
        proof {
            assert(cs@.take(i + 1).drop_last() =~= cs@.take(i as int));
        }
        i = i + 1;
    }
    out.push('"');
    proof {
        assert(cs@.take(cs.len() as int) =~= cs@);
    }
}

/// Whether a key reads back as itself when written as it is.
pub fn key_is_bare(cs: &Vec<char>) -> (r: bool)
    ensures
        r == key_reads_bare(cs@),
{
    if cs.len() == 0 || cs[0] == '"' || all_whitespace(cs) {
        return false;
    }
    let mut i: usize = 0;
    while i < cs.len()
        invariant
            i <= cs.len(),
            forall|t: int| 0 <= t < i ==> !is_delim(#[trigger] cs@[t]),
        decreases cs.len() - i,
    {
        if is_ascii_whitespace(cs[i]) || cs[i] == '=' {
            assert(is_delim(cs@[i as int]));
            return false;
        }
        i = i + 1;
    }
    true
}

/// Appends the written form of a key.
pub fn push_encoded_key(out: &mut String, key: &str)
    ensures
        final(out)@ == old(out)@ + encode_key(key@),
{
    let cs = chars_of(key);
    if key_is_bare(&cs) {
        push_all(out, key);
    } else {
        push_quoted(out, &cs);
    }
}

/// Appends the written form of a field.
pub fn push_encoded_field(out: &mut String, field: &Field)
    ensures
        final(out)@ == old(out)@ + encode_field_model(field@),
{
    let ghost o = out@;
    push_encoded_key(out, field.key.as_str());
    match &field.value {
        Some(v) => {
            out.push('=');
            push_encoded_value(out, v.as_str());
            assert(out@ =~= o + encode_field_model(field@));
        },
        None => {
            assert(out@ =~= o + encode_field_model(field@));
        },
    }
}

/// Escapes a value string using logfmt quoting rules and returns the encoded form.
pub fn escape_value(value: &str) -> (r: String)
    ensures
        r@ == encode_value(value@),
{
    let mut out = String::new();
    push_encoded_value(&mut out, value);
    proof {
        assert(out@ =~= encode_value(value@));
    }
    out
}

/// Appends fields separated by single spaces.
pub fn push_encoded_fields(out: &mut String, fields: &[Field])
    ensures
        final(out)@ == old(out)@ + encode_fields_model(fields_model(fields@)),
{
    let ghost o = out@;
    let ghost fs = fields_model(fields@);
    let mut index: usize = 0;
    proof {
        assert(fs.take(0) =~= Seq::<FieldModel>::empty());
        assert(o + Seq::<char>::empty() =~= o);
    }
    while index < fields.len()
        invariant
            fs == fields_model(fields@),
            index <= fields.len(),
            out@ == o + encode_fields_model(fs.take(index as int)),
        decreases fields.len() - index,
    {
        let ghost before = out@;
        if index > 0 {
            out.push(' ');
        }
        push_encoded_field(out, &fields[index]);
        proof {
            let t = fs.take(index + 1);
            assert(t.drop_last() =~= fs.take(index as int));
            assert(t.last() == fields@[index as int]@);
            if index == 0 {
                assert(out@ =~= o + encode_fields_model(t));
            } else {
                assert(out@ =~= o + encode_fields_model(t));
            }
        }
        index = index + 1;
    }
    proof {
        assert(fs.take(fields.len() as int) =~= fs);
    }
}

/// Encodes a sequence of structured fields into normalized logfmt text.
pub fn encode_fields(fields: &[Field]) -> (r: String)
    ensures
        r@ == encode_fields_model(fields_model(fields@)),
{
    let mut out = String::new();
    push_encoded_fields(&mut out, fields);
    proof {
        assert(out@ =~= encode_fields_model(fields_model(fields@)));
    }
    out
}

/// Encodes multiple structured records into newline-delimited logfmt text.
pub fn encode_lines(records: &[Vec<Field>]) -> (r: String)
    ensures
        r@ == encode_lines_model(records_model(records@)),
{
    let ghost rs = records_model(records@);
    let mut out = String::new();
    let mut index: usize = 0;
    proof {
        assert(rs.take(0) =~= Seq::<Seq<FieldModel>>::empty());
    }
    while index < records.len()
        invariant
            rs == records_model(records@),
            index <= records.len(),
            out@ == encode_lines_model(rs.take(index as int)),
        decreases records.len() - index,
    {
        let ghost before = out@;
        if index > 0 {
            out.push('\n');
        }
        push_encoded_fields(&mut out, records[index].as_slice());
        proof {
            let t = rs.take(index + 1);
            assert(t.drop_last() =~= rs.take(index as int));
            assert(t.last() == fields_model(records@[index as int]@));
            assert(out@ =~= encode_lines_model(t));
        }
        index = index + 1;
    }
    proof {
        assert(rs.take(records.len() as int) =~= rs);
    }
    out
}

impl Field {
    /// This field as logfmt text.
    pub fn encode(&self) -> (r: String)
        ensures
            r@ == encode_field_model(self@),
    {
        let mut out = String::new();
        push_encoded_field(&mut out, self);
        proof {
            assert(out@ =~= encode_field_model(self@));
        }
        out
    }
}

} // verus!
