//! A document: the records of newline-delimited logfmt text.

use vstd::prelude::*;
use crate::encode::{encode_lines_model, push_encoded_fields, records_model};
use crate::field::{Field, FieldModel, LineParseError};
use crate::lines::{parse_lines, parse_lines_model, parse_lines_strict, parse_lines_strict_model};
use crate::record::{Record, first_index, last_index, reversed, select};

verus! {

/// The records of newline-delimited logfmt text, one per non-blank line.
#[derive(Debug, Clone, PartialEq, Eq)]
pub struct Document {
    pub records: Vec<Record>,
}

pub open spec fn documents_model(rs: Seq<Record>) -> Seq<Seq<FieldModel>> {
    rs.map_values(|r: Record| r@)
}

impl View for Document {
    type V = Seq<Seq<FieldModel>>;

    open spec fn view(&self) -> Seq<Seq<FieldModel>> {
        documents_model(self.records@)
    }
}

/// Where the first field with key `k` stands: the first record that has one, and the
/// first such field in it.
pub open spec fn doc_first(rs: Seq<Seq<FieldModel>>, k: Seq<char>) -> Option<(int, int)>
    decreases rs.len(),
{
    if rs.len() == 0 {
        None
    } else {
        match doc_first(rs.drop_last(), k) {
            Some(p) => Some(p),
            None => match first_index(rs.last(), k) {
                Some(j) => Some((rs.len() - 1, j)),
                None => None,
            },
        }
    }
}

/// Where the last field with key `k` stands: the last record that has one, and the
/// last such field in it.
pub open spec fn doc_last(rs: Seq<Seq<FieldModel>>, k: Seq<char>) -> Option<(int, int)>
    decreases rs.len(),
{
    if rs.len() == 0 {
        None
    } else {
        match last_index(rs.last(), k) {
            Some(j) => Some((rs.len() - 1, j)),
            None => doc_last(rs.drop_last(), k),
        }
    }
}

/// The records of `rs` that have at least one field, in order.
pub open spec fn non_empty_records(rs: Seq<Seq<FieldModel>>) -> Seq<Seq<FieldModel>>
    decreases rs.len(),
{
    if rs.len() == 0 {
        Seq::empty()
    } else if rs.last().len() == 0 {
        non_empty_records(rs.drop_last())
    } else {
        non_empty_records(rs.drop_last()).push(rs.last())
    }
}

/// Records built from lists of fields, one for one.
pub fn records_of(lists: Vec<Vec<Field>>) -> (r: Vec<Record>)
    ensures
        documents_model(r@) == records_model(lists@),
{
    let ghost start = lists@;
    let n = lists.len();
    let mut rest = reversed(lists);
    let mut out: Vec<Record> = Vec::new();
    let mut i: usize = 0;
    while i < n
        invariant
            n == start.len(),
            i <= n,
            rest@.len() == n - i,
            forall|j: int| 0 <= j < n - i ==> #[trigger] rest@[j] == start[n - 1 - j],
            documents_model(out@) == records_model(start.take(i as int)),
        decreases n - i,
    {
        let fields = rest.pop().unwrap();
        let ghost o = documents_model(out@);
        out.push(Record::new(fields));
        proof {
            assert(documents_model(out@) =~= o.push(crate::field::fields_model(start[i as int]@)));
            assert(records_model(start.take(i + 1)) =~= records_model(start.take(i as int)).push(
                crate::field::fields_model(start[i as int]@),
            ));
        }
        i = i + 1;
    }
    proof {
        assert(start.take(n as int) =~= start);
    }
    out
}

impl Document {
    /// A document of `records`.
    pub fn new(records: Vec<Record>) -> (d: Document)
        ensures
            d.records == records,
    {
        Document { records }
    }

    /// The records, in order.
    pub fn records(&self) -> (r: &[Record])
        ensures
            r@ == self.records@,
    {
        self.records.as_slice()
    }

    /// The records, given up.
    pub fn into_records(self) -> (r: Vec<Record>)
        ensures
            r == self.records,
    {
        self.records
    }

    /// An iterator over the records, in order.
    pub fn iter(&self) -> (it: std::slice::Iter<'_, Record>)
        ensures
            vstd::std_specs::iter::IteratorSpec::remaining(&it) == self.records@.map_values(
                |r: Record| &r,
            ),
    {
        self.records.iter()
    }

    /// Whether there are no records.
    pub fn is_empty(&self) -> (b: bool)
        ensures
            b == (self.records@.len() == 0),
    {
        self.records.len() == 0
    }

    /// The number of records.
    pub fn len(&self) -> (n: usize)
        ensures
            n == self.records@.len(),
    {
        self.records.len()
    }

    /// The first field with key `key`, in the first record that has one.
    pub fn find_first(&self, key: &str) -> (r: Option<&Field>)
        ensures
            match r {
                Some(f) => (doc_first(self@, key@) matches Some(p) && 0 <= p.0 < self.records@.len()
                    && 0 <= p.1 < self.records@[p.0].fields@.len() && *f
                    == self.records@[p.0].fields@[p.1]),
                None => doc_first(self@, key@) is None,
            },
    {
        let ghost rs = self@;
        let mut i: usize = 0;
        while i < self.records.len()
            invariant
                rs == self@,
                i <= self.records.len(),
                doc_first(rs.take(i as int), key@) is None,
            decreases self.records.len() - i,
        {
            proof {
                assert(rs.take(i + 1).drop_last() =~= rs.take(i as int));
                assert(rs.take(i + 1).last() == self.records@[i as int]@);
            }
            match self.records[i].find(key) {
                Some(f) => {
                    proof {
                        lemma_doc_first_prefix(rs, key@, i + 1);
                    }
                    return Some(f);
                },
                None => {},
            }
            i = i + 1;
        }
        proof {
            assert(rs.take(self.records.len() as int) =~= rs);
        }
        None
    }

    /// The last field with key `key`, in the last record that has one.
    pub fn find_last(&self, key: &str) -> (r: Option<&Field>)
        ensures
            match r {
                Some(f) => (doc_last(self@, key@) matches Some(p) && 0 <= p.0 < self.records@.len()
                    && 0 <= p.1 < self.records@[p.0].fields@.len() && *f
                    == self.records@[p.0].fields@[p.1]),
                None => doc_last(self@, key@) is None,
            },
    {
        let ghost rs = self@;
        let mut i: usize = self.records.len();
        proof {
            assert(rs.take(i as int) =~= rs);
        }
        while i > 0
            invariant
                rs == self@,
                i <= self.records.len(),
                doc_last(rs, key@) == doc_last(rs.take(i as int), key@),
            decreases i,
        {
            proof {
                assert(rs.take(i as int).drop_last() =~= rs.take(i - 1));
                assert(rs.take(i as int).last() == self.records@[i - 1]@);
            }
            match self.records[i - 1].find_last(key) {
                Some(f) => {
                    return Some(f);
                },
                None => {},
            }
            i = i - 1;
        }
        proof {
            assert(rs.take(0) =~= Seq::<Seq<FieldModel>>::empty());
        }
        None
    }

    /// Whether some record has a field with key `key`.
    pub fn contains_key(&self, key: &str) -> (b: bool)
        ensures
            b == (doc_first(self@, key@) is Some),
    {
        self.find_first(key).is_some()
    }

    /// Appends a record.
    pub fn push(&mut self, record: Record)
        ensures
            final(self).records@ == old(self).records@.push(record),
    {
        self.records.push(record);
    }

    /// Appends records, in order.
    pub fn extend(&mut self, records: Vec<Record>)
        ensures
            final(self).records@ == old(self).records@ + records@,
    {
        let mut more = records;
        self.records.append(&mut more);
    }

    /// Keeps the records for which `predicate` answers `true`, in order.
    pub fn retain<F: Fn(&Record) -> bool>(&mut self, predicate: F)
        requires
            forall|i: int| 0 <= i < old(self).records@.len() ==> predicate.requires((&old(self).records@[i],)),
        ensures
            exists|keep: Seq<bool>|
                {
                    &&& keep.len() == old(self).records@.len()
                    &&& forall|i: int|
                        0 <= i < keep.len() ==> predicate.ensures(
                            (&old(self).records@[i],),
                            #[trigger] keep[i],
                        )
                    &&& final(self).records@ == select(old(self).records@, keep)
                },
    {
        let ghost start = self.records@;
        let mut records: Vec<Record> = Vec::new();
        std::mem::swap(&mut records, &mut self.records);
        let n = records.len();
        let mut rest = reversed(records);
        let mut kept: Vec<Record> = Vec::new();
        let ghost mut keep: Seq<bool> = Seq::empty();
        let mut i: usize = 0;
        while i < n
            invariant
                n == start.len(),
                i <= n,
                rest@.len() == n - i,
                forall|j: int| 0 <= j < n - i ==> #[trigger] rest@[j] == start[n - 1 - j],
                keep.len() == i,
                forall|j: int| 0 <= j < i ==> predicate.ensures((&start[j],), #[trigger] keep[j]),
                forall|j: int| 0 <= j < n ==> predicate.requires((&start[j],)),
                kept@ == select(start.take(i as int), keep),
            decreases n - i,
        {
            let r = rest.pop().unwrap();
            assert(r == start[i as int]);
            let b = predicate(&r);
            proof {
                let nk = keep.push(b);
                assert(start.take(i + 1).drop_last() =~= start.take(i as int));
                assert(nk.take(i as int) =~= keep);
                keep = nk;
            }
            if b {
                kept.push(r);
            }
            i = i + 1;
        }
        proof {
            assert(start.take(n as int) =~= start);
        }
        self.records = kept;
    }

    /// Removes the records that have no fields, and gives the number removed.
    pub fn drop_empty_records(&mut self) -> (removed: usize)
        ensures
            final(self)@ == non_empty_records(old(self)@),
            removed == old(self)@.len() - final(self)@.len(),
    {
        let ghost start = old(self)@;
        let mut records: Vec<Record> = Vec::new();
        std::mem::swap(&mut records, &mut self.records);
        let before = records.len();
        let mut rest = reversed(records);
        let mut kept: Vec<Record> = Vec::new();
        let mut i: usize = 0;
        proof {
            assert(documents_model(kept@) =~= non_empty_records(start.take(0)));
        }
        while i < before
            invariant
                before == start.len(),
                i <= before,
                rest@.len() == before - i,
                forall|j: int| 0 <= j < before - i ==> #[trigger] rest@[j]@ == start[before - 1 - j],
                documents_model(kept@) == non_empty_records(start.take(i as int)),
                kept@.len() <= i,
            decreases before - i,
        {
            let r = rest.pop().unwrap();
            assert(r@ == start[i as int]);
            let ghost kp = documents_model(kept@);
            proof {
                assert(start.take(i + 1).drop_last() =~= start.take(i as int));
            }
            if !r.is_empty() {
                kept.push(r);
                assert(documents_model(kept@) =~= kp.push(r@));
            }
            i = i + 1;
        }
        proof {
            assert(start.take(before as int) =~= start);
        }
        let removed = before - kept.len();
        self.records = kept;
        removed
    }

    /// This document as newline-delimited logfmt text.
    pub fn encode(&self) -> (r: String)
        ensures
            r@ == encode_lines_model(self@),
    {
        let ghost rs = self@;
        let mut out = String::new();
        let mut index: usize = 0;
        proof {
            assert(rs.take(0) =~= Seq::<Seq<FieldModel>>::empty());
        }
        while index < self.records.len()
            invariant
                rs == self@,
                index <= self.records.len(),
                out@ == encode_lines_model(rs.take(index as int)),
            decreases self.records.len() - index,
        {
            if index > 0 {
                out.push('\n');
            }
            push_encoded_fields(&mut out, self.records[index].fields.as_slice());
            proof {
                let t = rs.take(index + 1);
                assert(t.drop_last() =~= rs.take(index as int));
                assert(t.last() == self.records@[index as int]@);
                assert(out@ =~= encode_lines_model(t));
            }
            index = index + 1;
        }
        proof {
            assert(rs.take(self.records.len() as int) =~= rs);
        }
        out
    }

    /// This document as logfmt text, as `encode` gives it.
    pub fn to_string(&self) -> (r: String)
        ensures
            r@ == encode_lines_model(self@),
    {
        self.encode()
    }
}

impl Default for Document {
    /// The document with no records.
    fn default() -> (d: Document)
        ensures
            d.records@ == Seq::<Record>::empty(),
    {
        Document::new(Vec::new())
    }
}

impl From<Vec<Record>> for Document {
    fn from(records: Vec<Record>) -> (d: Document)
        ensures
            d.records == records,
    {
        Document::new(records)
    }
}

impl vstd::std_specs::convert::FromSpecImpl<Vec<Record>> for Document {
    open spec fn obeys_from_spec() -> bool {
        true
    }

    open spec fn from_spec(records: Vec<Record>) -> Document {
        Document { records }
    }
}

impl From<Document> for Vec<Record> {
    fn from(document: Document) -> (r: Vec<Record>)
        ensures
            r == document.records,
    {
        document.records
    }
}

impl vstd::std_specs::convert::FromSpecImpl<Document> for Vec<Record> {
    open spec fn obeys_from_spec() -> bool {
        true
    }

    open spec fn from_spec(document: Document) -> Vec<Record> {
        document.records
    }
}

impl<'a> IntoIterator for &'a Document {
    type Item = &'a Record;
    type IntoIter = std::slice::Iter<'a, Record>;

    fn into_iter(self) -> (it: std::slice::Iter<'a, Record>)
        ensures
            vstd::std_specs::iter::IteratorSpec::remaining(&it) == self.records@.map_values(
                |r: Record| &r,
            ),
    {
        self.records.iter()
    }
}

impl IntoIterator for Document {
    type Item = Record;
    type IntoIter = std::vec::IntoIter<Record>;

    fn into_iter(self) -> (it: std::vec::IntoIter<Record>)
        ensures
            vstd::std_specs::iter::IteratorSpec::remaining(&it) == self.records@,
    {
        self.records.into_iter()
    }
}

impl std::str::FromStr for Document {
    type Err = LineParseError;

    /// Reads a document strictly, as `parse_document_strict` does.
    fn from_str(input: &str) -> (r: Result<Document, LineParseError>)
        ensures
            match r {
                Ok(d) => parse_lines_strict_model(input@) == Ok::<
                    Seq<Seq<FieldModel>>,
                    LineParseError,
                >(d@),
                Err(e) => parse_lines_strict_model(input@) == Err::<
                    Seq<Seq<FieldModel>>,
                    LineParseError,
                >(e),
            },
    {
        parse_document_strict(input)
    }
}

/// Once some record of a prefix has the key, the first hit stays where it is.
pub proof fn lemma_doc_first_prefix(rs: Seq<Seq<FieldModel>>, k: Seq<char>, m: int)
    requires
        0 <= m <= rs.len(),
        doc_first(rs.take(m), k) is Some,
    ensures
        doc_first(rs, k) == doc_first(rs.take(m), k),
    decreases rs.len() - m,
{
    if m < rs.len() {
        assert(rs.take(m + 1).drop_last() =~= rs.take(m));
        lemma_doc_first_prefix(rs, k, m + 1);
    } else {
        assert(rs.take(m) =~= rs);
    }
}

/// Parses newline-delimited logfmt records into a typed document.
pub fn parse_document(input: &str) -> (d: Document)
    ensures
        d@ == parse_lines_model(input@),
{
    Document::new(records_of(parse_lines(input)))
}

/// Parses newline-delimited logfmt records into a typed document and reports the failing
/// line on malformed input.
pub fn parse_document_strict(input: &str) -> (r: Result<Document, LineParseError>)
    ensures
        match r {
            Ok(d) => parse_lines_strict_model(input@) == Ok::<Seq<Seq<FieldModel>>, LineParseError>(
                d@,
            ),
            Err(e) => parse_lines_strict_model(input@) == Err::<
                Seq<Seq<FieldModel>>,
                LineParseError,
            >(e),
        },
{
    match parse_lines_strict(input) {
        Ok(records) => Ok(Document::new(records_of(records))),
        Err(e) => Err(e),
    }
}

} // verus!
