//! A record: the fields of one logfmt line, with lookup and editing helpers.

use vstd::prelude::*;
use crate::encode::{encode_fields, encode_fields_model};
use crate::field::{Field, FieldModel, ParseError, fields_model, flag_model, owned};
use crate::fieldmap::{FieldMap, fields_to_map, last_value};
use crate::lenient::{parse_fields, parse_fields_model};
use crate::strict::{parse_strict, strict_model};

verus! {

/// The fields of one logfmt line.
#[derive(Debug, Clone, PartialEq, Eq)]
pub struct Record {
    pub fields: Vec<Field>,
}

impl View for Record {
    type V = Seq<FieldModel>;

    open spec fn view(&self) -> Seq<FieldModel> {
        fields_model(self.fields@)
    }
}

/// The index of the first field with key `k`.
pub open spec fn first_index(fs: Seq<FieldModel>, k: Seq<char>) -> Option<int>
    decreases fs.len(),
{
    if fs.len() == 0 {
        None
    } else {
        match first_index(fs.drop_last(), k) {
            Some(i) => Some(i),
            None => if fs.last().key == k {
                Some(fs.len() - 1)
            } else {
                None
            },
        }
    }
}

/// The index of the last field with key `k`.
pub open spec fn last_index(fs: Seq<FieldModel>, k: Seq<char>) -> Option<int>
    decreases fs.len(),
{
    if fs.len() == 0 {
        None
    } else if fs.last().key == k {
        Some(fs.len() - 1)
    } else {
        last_index(fs.drop_last(), k)
    }
}

/// The value of the field at index `i`, when there is such a field and it has a value.
pub open spec fn value_at(fs: Seq<FieldModel>, i: Option<int>) -> Option<Seq<char>> {
    match i {
        Some(i) => fs[i].value,
        None => None,
    }
}

/// The keys and values of the pairs among `fs`, in order.
pub open spec fn pairs_model(fs: Seq<FieldModel>) -> Seq<(Seq<char>, Seq<char>)>
    decreases fs.len(),
{
    if fs.len() == 0 {
        Seq::empty()
    } else {
        match fs.last().value {
            Some(v) => pairs_model(fs.drop_last()).push((fs.last().key, v)),
            None => pairs_model(fs.drop_last()),
        }
    }
}

/// The keys of the flags among `fs`, in order.
pub open spec fn flags_model(fs: Seq<FieldModel>) -> Seq<Seq<char>>
    decreases fs.len(),
{
    if fs.len() == 0 {
        Seq::empty()
    } else {
        match fs.last().value {
            Some(_) => flags_model(fs.drop_last()),
            None => flags_model(fs.drop_last()).push(fs.last().key),
        }
    }
}

/// The values of the pairs with key `k` among `fs`, in order.
pub open spec fn values_model(fs: Seq<FieldModel>, k: Seq<char>) -> Seq<Seq<char>>
    decreases fs.len(),
{
    if fs.len() == 0 {
        Seq::empty()
    } else {
        let prev = values_model(fs.drop_last(), k);
        if fs.last().key == k {
            match fs.last().value {
                Some(v) => prev.push(v),
                None => prev,
            }
        } else {
            prev
        }
    }
}

/// The fields of `fs` whose key is not `k`, in order.
pub open spec fn without_key(fs: Seq<FieldModel>, k: Seq<char>) -> Seq<FieldModel>
    decreases fs.len(),
{
    if fs.len() == 0 {
        Seq::empty()
    } else if fs.last().key == k {
        without_key(fs.drop_last(), k)
    } else {
        without_key(fs.drop_last(), k).push(fs.last())
    }
}

/// The elements of `xs` for which `keep` holds, in order.
pub open spec fn select<T>(xs: Seq<T>, keep: Seq<bool>) -> Seq<T>
    decreases xs.len(),
{
    if xs.len() == 0 {
        Seq::empty()
    } else if keep[xs.len() - 1] {
        select(xs.drop_last(), keep.take(xs.len() - 1)).push(xs.last())
    } else {
        select(xs.drop_last(), keep.take(xs.len() - 1))
    }
}

pub open spec fn texts_model(v: Seq<&str>) -> Seq<Seq<char>> {
    v.map_values(|s: &str| s@)
}

pub open spec fn text_pairs_model(v: Seq<(&str, &str)>) -> Seq<(Seq<char>, Seq<char>)> {
    v.map_values(|p: (&str, &str)| (p.0@, p.1@))
}

pub proof fn lemma_first_index_found(fs: Seq<FieldModel>, k: Seq<char>, i: int)
    requires
        0 <= i < fs.len(),
        fs[i].key == k,
        forall|j: int| 0 <= j < i ==> #[trigger] fs[j].key != k,
    ensures
        first_index(fs, k) == Some(i),
    decreases fs.len(),
{
    if i < fs.len() - 1 {
        lemma_first_index_found(fs.drop_last(), k, i);
    } else {
        lemma_first_index_absent(fs.drop_last(), k);
    }
}

pub proof fn lemma_first_index_absent(fs: Seq<FieldModel>, k: Seq<char>)
    requires
        forall|j: int| 0 <= j < fs.len() ==> #[trigger] fs[j].key != k,
    ensures
        first_index(fs, k) is None,
        last_index(fs, k) is None,
    decreases fs.len(),
{
    if fs.len() > 0 {
        lemma_first_index_absent(fs.drop_last(), k);
    }
}

pub proof fn lemma_last_index_found(fs: Seq<FieldModel>, k: Seq<char>, i: int)
    requires
        0 <= i < fs.len(),
        fs[i].key == k,
        forall|j: int| i < j < fs.len() ==> #[trigger] fs[j].key != k,
    ensures
        last_index(fs, k) == Some(i),
    decreases fs.len(),
{
    if i < fs.len() - 1 {
        lemma_last_index_found(fs.drop_last(), k, i);
    }
}

/// Where the first field with key `key` stands.
fn position_first(fields: &Vec<Field>, key: &str) -> (r: Option<usize>)
    ensures
        match r {
            Some(i) => first_index(fields_model(fields@), key@) == Some(i as int) && i
                < fields.len(),
            None => first_index(fields_model(fields@), key@) is None,
        },
{
    let ghost fs = fields_model(fields@);
    let k = owned(key);
    let mut i: usize = 0;
    while i < fields.len()
        invariant
            fs == fields_model(fields@),
            k@ == key@,
            i <= fields.len(),
            forall|j: int| 0 <= j < i ==> #[trigger] fs[j].key != key@,
        decreases fields.len() - i,
    {
        if fields[i].key == k {
            proof {
                lemma_first_index_found(fs, key@, i as int);
            }
            return Some(i);
        }
        i = i + 1;
    }
    proof {
        lemma_first_index_absent(fs, key@);
    }
    None
}

/// Where the last field with key `key` stands.
fn position_last(fields: &Vec<Field>, key: &str) -> (r: Option<usize>)
    ensures
        match r {
            Some(i) => last_index(fields_model(fields@), key@) == Some(i as int) && i
                < fields.len(),
            None => last_index(fields_model(fields@), key@) is None,
        },
{
    let ghost fs = fields_model(fields@);
    let k = owned(key);
    let mut i: usize = fields.len();
    while i > 0
        invariant
            fs == fields_model(fields@),
            k@ == key@,
            i <= fields.len(),
            forall|j: int| i <= j < fs.len() ==> #[trigger] fs[j].key != key@,
        decreases i,
    {
        if fields[i - 1].key == k {
            proof {
                lemma_last_index_found(fs, key@, i - 1);
            }
            return Some(i - 1);
        }
        i = i - 1;
    }
    proof {
        lemma_first_index_absent(fs, key@);
    }
    None
}

/// The same elements in reverse order.
pub fn reversed<T>(v: Vec<T>) -> (r: Vec<T>)
    ensures
        r@.len() == v@.len(),
        forall|j: int| 0 <= j < v@.len() ==> #[trigger] r@[j] == v@[v@.len() - 1 - j],
{
    let ghost start = v@;
    let mut src = v;
    let mut out: Vec<T> = Vec::new();
    while src.len() > 0
        invariant
            src@ == start.take(src@.len() as int),
            out@.len() + src@.len() == start.len(),
            forall|j: int| 0 <= j < out@.len() ==> #[trigger] out@[j] == start[start.len() - 1 - j],
        decreases src@.len(),
    {
        let x = src.pop().unwrap();
        out.push(x);
    }
    out
}

fn value_str(field: &Field) -> (r: Option<&str>)
    ensures
        match r {
            Some(v) => field@.value == Some(v@),
            None => field@.value is None,
        },
{
    match &field.value {
        Some(v) => Some(v.as_str()),
        None => None,
    }
}

impl Record {
    /// A record of `fields`.
    pub fn new(fields: Vec<Field>) -> (r: Record)
        ensures
            r.fields == fields,
    {
        Record { fields }
    }

    /// The fields, in order.
    pub fn fields(&self) -> (r: &[Field])
        ensures
            r@ == self.fields@,
    {
        self.fields.as_slice()
    }

    /// The fields, given up.
    pub fn into_fields(self) -> (r: Vec<Field>)
        ensures
            r == self.fields,
    {
        self.fields
    }

    /// An iterator over the fields, in order.
    pub fn iter(&self) -> (it: std::slice::Iter<'_, Field>)
        ensures
            vstd::std_specs::iter::IteratorSpec::remaining(&it) == self.fields@.map_values(
                |f: Field| &f,
            ),
    {
        self.fields.iter()
    }

    /// Whether there are no fields.
    pub fn is_empty(&self) -> (b: bool)
        ensures
            b == (self.fields@.len() == 0),
    {
        self.fields.len() == 0
    }

    /// The number of fields.
    pub fn len(&self) -> (n: usize)
        ensures
            n == self.fields@.len(),
    {
        self.fields.len()
    }

    /// The first field with key `key`.
    pub fn find(&self, key: &str) -> (r: Option<&Field>)
        ensures
            match r {
                Some(f) => (first_index(self@, key@) matches Some(i) && 0 <= i < self.fields@.len()
                    && *f == self.fields@[i]),
                None => first_index(self@, key@) is None,
            },
    {
        match position_first(&self.fields, key) {
            Some(i) => Some(&self.fields[i]),
            None => None,
        }
    }

    /// The last field with key `key`.
    pub fn find_last(&self, key: &str) -> (r: Option<&Field>)
        ensures
            match r {
                Some(f) => (last_index(self@, key@) matches Some(i) && 0 <= i < self.fields@.len()
                    && *f == self.fields@[i]),
                None => last_index(self@, key@) is None,
            },
    {
        match position_last(&self.fields, key) {
            Some(i) => Some(&self.fields[i]),
            None => None,
        }
    }

    /// Whether some field is the flag `key`.
    pub fn contains_flag(&self, key: &str) -> (b: bool)
        ensures
            b == exists|i: int|
                0 <= i < self@.len() && #[trigger] self@[i] == flag_model(key@),
    {
        let ghost fs = self@;
        let k = owned(key);
        let mut i: usize = 0;
        while i < self.fields.len()
            invariant
                fs == self@,
                k@ == key@,
                i <= self.fields.len(),
                forall|j: int| 0 <= j < i ==> #[trigger] fs[j] != flag_model(key@),
            decreases self.fields.len() - i,
        {
            if self.fields[i].key == k && self.fields[i].value.is_none() {
                assert(fs[i as int] == flag_model(key@));
                return true;
            }
            i = i + 1;
        }
        false
    }

    /// The value of the first field with key `key`, if that field has one.
    pub fn get_first_value(&self, key: &str) -> (r: Option<&str>)
        ensures
            match r {
                Some(v) => value_at(self@, first_index(self@, key@)) == Some(v@),
                None => value_at(self@, first_index(self@, key@)) is None,
            },
    {
        match self.find(key) {
            Some(f) => value_str(f),
            None => None,
        }
    }

    /// The value of the last field with key `key`, if that field has one.
    pub fn get_last_value(&self, key: &str) -> (r: Option<&str>)
        ensures
            match r {
                Some(v) => value_at(self@, last_index(self@, key@)) == Some(v@),
                None => value_at(self@, last_index(self@, key@)) is None,
            },
    {
        match self.find_last(key) {
            Some(f) => value_str(f),
            None => None,
        }
    }

    /// Every value given under `key`, in order.
    pub fn values_for(&self, key: &str) -> (r: Vec<&str>)
        ensures
            texts_model(r@) == values_model(self@, key@),
    {
        let ghost fs = self@;
        let k = owned(key);
        let mut out: Vec<&str> = Vec::new();
        let mut i: usize = 0;
        while i < self.fields.len()
            invariant
                fs == self@,
                k@ == key@,
                i <= self.fields.len(),
                texts_model(out@) == values_model(fs.take(i as int), key@),
            decreases self.fields.len() - i,
        {
            let ghost o = texts_model(out@);
            proof {
                assert(fs.take(i + 1).drop_last() =~= fs.take(i as int));
            }
            if self.fields[i].key == k {
                match &self.fields[i].value {
                    Some(v) => {
                        out.push(v.as_str());
                        assert(texts_model(out@) =~= o.push(v@));
                    },
                    None => {},
                }
            }
            i = i + 1;
        }
        proof {
            assert(fs.take(self.fields.len() as int) =~= fs);
        }
        out
    }

    /// The keys and values of the pairs, in order.
    pub fn iter_pairs(&self) -> (r: Vec<(&str, &str)>)
        ensures
            text_pairs_model(r@) == pairs_model(self@),
    {
        let ghost fs = self@;
        let mut out: Vec<(&str, &str)> = Vec::new();
        let mut i: usize = 0;
        while i < self.fields.len()
            invariant
                fs == self@,
                i <= self.fields.len(),
                text_pairs_model(out@) == pairs_model(fs.take(i as int)),
            decreases self.fields.len() - i,
        {
            let ghost o = text_pairs_model(out@);
            proof {
                assert(fs.take(i + 1).drop_last() =~= fs.take(i as int));
            }
            let f = &self.fields[i];
            match &f.value {
                Some(v) => {
                    out.push((f.key.as_str(), v.as_str()));
                    assert(text_pairs_model(out@) =~= o.push((f.key@, v@)));
                },
                None => {},
            }
            i = i + 1;
        }
        proof {
            assert(fs.take(self.fields.len() as int) =~= fs);
        }
        out
    }

    /// The keys of the flags, in order.
    pub fn iter_flags(&self) -> (r: Vec<&str>)
        ensures
            texts_model(r@) == flags_model(self@),
    {
        let ghost fs = self@;
        let mut out: Vec<&str> = Vec::new();
        let mut i: usize = 0;
        while i < self.fields.len()
            invariant
                fs == self@,
                i <= self.fields.len(),
                texts_model(out@) == flags_model(fs.take(i as int)),
            decreases self.fields.len() - i,
        {
            let ghost o = texts_model(out@);
            proof {
                assert(fs.take(i + 1).drop_last() =~= fs.take(i as int));
            }
            let f = &self.fields[i];
            if f.value.is_none() {
                out.push(f.key.as_str());
                assert(texts_model(out@) =~= o.push(f.key@));
            }
            i = i + 1;
        }
        proof {
            assert(fs.take(self.fields.len() as int) =~= fs);
        }
        out
    }

    /// Keeps the fields for which `predicate` answers `true`, in order.
    pub fn retain<F: Fn(&Field) -> bool>(&mut self, predicate: F)
        requires
            forall|i: int| 0 <= i < old(self).fields@.len() ==> predicate.requires((&old(self).fields@[i],)),
        ensures
            exists|keep: Seq<bool>|
                {
                    &&& keep.len() == old(self).fields@.len()
                    &&& forall|i: int|
                        0 <= i < keep.len() ==> predicate.ensures(
                            (&old(self).fields@[i],),
                            #[trigger] keep[i],
                        )
                    &&& final(self).fields@ == select(old(self).fields@, keep)
                },
    {
        let ghost start = self.fields@;
        let mut fields: Vec<Field> = Vec::new();
        std::mem::swap(&mut fields, &mut self.fields);
        let mut kept: Vec<Field> = Vec::new();
        let ghost mut keep: Seq<bool> = Seq::empty();
        let n = fields.len();
        let mut rest = reversed(fields);
        let mut i: usize = 0;
        while i < n
            invariant
                n == start.len(),
                i <= n,
                rest@.len() == n - i,
                forall|j: int| 0 <= j < n - i ==> #[trigger] rest@[j] == start[n - 1 - j],
                keep.len() == i,
                forall|j: int| 0 <= j < i ==> predicate.ensures((&start[j],), #[trigger] keep[j]),
                forall|j: int| 0 <= j < n ==> predicate.requires((&start[j],)),
                kept@ == select(start.take(i as int), keep),
            decreases n - i,
        {
            let f = rest.pop().unwrap();
            assert(f == start[i as int]);
            let b = predicate(&f);
            proof {
                let t = start.take(i + 1);
                let nk = keep.push(b);
                assert(t.drop_last() =~= start.take(i as int));
                assert(nk.take(i as int) =~= keep);
                keep = nk;
            }
            if b {
                kept.push(f);
            }
            i = i + 1;
        }
        proof {
            assert(start.take(n as int) =~= start);
        }
        self.fields = kept;
    }

    /// Removes every field with key `key`, and gives the number removed.
    pub fn remove_key(&mut self, key: &str) -> (removed: usize)
        ensures
            final(self)@ == without_key(old(self)@, key@),
            removed == old(self)@.len() - final(self)@.len(),
    {
        let ghost start = old(self)@;
        let k = owned(key);
        let mut fields: Vec<Field> = Vec::new();
        std::mem::swap(&mut fields, &mut self.fields);
        let before = fields.len();
        let mut fields = reversed(fields);
        let mut kept: Vec<Field> = Vec::new();
        let mut i: usize = 0;
        proof {
            assert(fields_model(kept@) =~= without_key(start.take(0), key@));
        }
        while i < before
            invariant
                before == start.len(),
                k@ == key@,
                i <= before,
                fields@.len() == before - i,
                forall|j: int| 0 <= j < before - i ==> #[trigger] fields@[j]@ == start[before - 1 - j],
                fields_model(kept@) == without_key(start.take(i as int), key@),
                kept@.len() <= i,
            decreases before - i,
        {
            let f = fields.pop().unwrap();
            assert(f@ == start[i as int]);
            let ghost kp = fields_model(kept@);
            proof {
                assert(start.take(i + 1).drop_last() =~= start.take(i as int));
            }
            if f.key != k {
                kept.push(f);
                assert(fields_model(kept@) =~= kp.push(f@));
            }
            i = i + 1;
        }
        proof {
            assert(start.take(before as int) =~= start);
        }
        let removed = before - kept.len();
        self.fields = kept;
        removed
    }

    /// Appends a field.
    pub fn push(&mut self, field: Field)
        ensures
            final(self).fields@ == old(self).fields@.push(field),
    {
        self.fields.push(field);
    }

    /// Appends fields, in order.
    pub fn extend(&mut self, fields: Vec<Field>)
        ensures
            final(self).fields@ == old(self).fields@ + fields@,
    {
        let mut more = fields;
        self.fields.append(&mut more);
    }

    /// The fields as a map in which the last value given to a key wins.
    pub fn to_map(&self) -> (m: FieldMap)
        ensures
            m.wf(),
            forall|k: Seq<char>| #[trigger] m.lookup(k) == last_value(self@, k),
    {
        fields_to_map(self.fields.as_slice())
    }

    /// This record as one line of logfmt text.
    pub fn encode(&self) -> (r: String)
        ensures
            r@ == encode_fields_model(self@),
    {
        encode_fields(self.fields.as_slice())
    }

    /// This record as logfmt text, as `encode` gives it.
    pub fn to_string(&self) -> (r: String)
        ensures
            r@ == encode_fields_model(self@),
    {
        self.encode()
    }
}

impl Default for Record {
    /// The record with no fields.
    fn default() -> (r: Record)
        ensures
            r.fields@ == Seq::<Field>::empty(),
    {
        Record::new(Vec::new())
    }
}

impl From<Vec<Field>> for Record {
    fn from(fields: Vec<Field>) -> (r: Record)
        ensures
            r.fields == fields,
    {
        Record::new(fields)
    }
}

impl vstd::std_specs::convert::FromSpecImpl<Vec<Field>> for Record {
    open spec fn obeys_from_spec() -> bool {
        true
    }

    open spec fn from_spec(fields: Vec<Field>) -> Record {
        Record { fields }
    }
}

impl From<Record> for Vec<Field> {
    fn from(record: Record) -> (r: Vec<Field>)
        ensures
            r == record.fields,
    {
        record.fields
    }
}

impl vstd::std_specs::convert::FromSpecImpl<Record> for Vec<Field> {
    open spec fn obeys_from_spec() -> bool {
        true
    }

    open spec fn from_spec(record: Record) -> Vec<Field> {
        record.fields
    }
}

impl<'a> IntoIterator for &'a Record {
    type Item = &'a Field;
    type IntoIter = std::slice::Iter<'a, Field>;

    fn into_iter(self) -> (it: std::slice::Iter<'a, Field>)
        ensures
            vstd::std_specs::iter::IteratorSpec::remaining(&it) == self.fields@.map_values(
                |f: Field| &f,
            ),
    {
        self.fields.iter()
    }
}

impl IntoIterator for Record {
    type Item = Field;
    type IntoIter = std::vec::IntoIter<Field>;

    fn into_iter(self) -> (it: std::vec::IntoIter<Field>)
        ensures
            vstd::std_specs::iter::IteratorSpec::remaining(&it) == self.fields@,
    {
        self.fields.into_iter()
    }
}

impl std::str::FromStr for Record {
    type Err = ParseError;

    /// Reads a record strictly, as `parse_record_strict` does.
    fn from_str(input: &str) -> (r: Result<Record, ParseError>)
        ensures
            match r {
                Ok(rec) => strict_model(input@) == Ok::<Seq<FieldModel>, ParseError>(rec@),
                Err(e) => strict_model(input@) == Err::<Seq<FieldModel>, ParseError>(e),
            },
    {
        parse_record_strict(input)
    }
}

impl Field {
    /// This field as logfmt text, as `encode` gives it.
    pub fn to_string(&self) -> (r: String)
        ensures
            r@ == crate::encode::encode_field_model(self@),
    {
        self.encode()
    }
}

/// Parses a logfmt input string into a typed record.
pub fn parse_record(input: &str) -> (r: Record)
    ensures
        r@ == parse_fields_model(input@),
{
    Record::new(parse_fields(input))
}

/// Parses a logfmt input string into a typed record and returns a structured error for
/// malformed input.
pub fn parse_record_strict(input: &str) -> (r: Result<Record, ParseError>)
    ensures
        match r {
            Ok(rec) => strict_model(input@) == Ok::<Seq<FieldModel>, ParseError>(rec@),
            Err(e) => strict_model(input@) == Err::<Seq<FieldModel>, ParseError>(e),
        },
{
    match parse_strict(input) {
        Ok(fields) => Ok(Record::new(fields)),
        Err(e) => Err(e),
    }
}

} // verus!
