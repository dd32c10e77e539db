//! Fields keyed by their key, kept in increasing key order, each key once.

use vstd::prelude::*;
use crate::field::{Field, FieldModel, copy_opt, fields_model, opt_text};
use crate::text::chars_of;

verus! {

/// `a` comes before `b` in lexicographic order of code points, which is also the
/// byte order of their UTF-8 encodings and so the order of `String`.
pub open spec fn key_lt(a: Seq<char>, b: Seq<char>) -> bool {
    exists|i: int| #[trigger] first_difference(a, b, i)
}

/// `a` and `b` agree before `i`, and at `i` `a` has the smaller character or has ended
/// while `b` goes on.
pub open spec fn first_difference(a: Seq<char>, b: Seq<char>, i: int) -> bool {
    &&& 0 <= i <= a.len()
    &&& i <= b.len()
    &&& forall|j: int| 0 <= j < i ==> a[j] == b[j]
    &&& ((i < a.len() && i < b.len() && (a[i] as u32) < (b[i] as u32)) || (i == a.len() && i
        < b.len()))
}

/// Keys strictly increasing.
pub open spec fn sorted_keys(es: Seq<FieldModel>) -> bool {
    forall|i: int, j: int| 0 <= i < j < es.len() ==> key_lt(#[trigger] es[i].key, #[trigger] es[j].key)
}

/// The value of the last field with key `k` (`Some(None)` for a flag), or `None` when no
/// field has that key: what inserting the fields into a map one after the other leaves
/// under `k`.
pub open spec fn last_value(fs: Seq<FieldModel>, k: Seq<char>) -> Option<Option<Seq<char>>>
    decreases fs.len(),
{
    if fs.len() == 0 {
        None
    } else if fs.last().key == k {
        Some(fs.last().value)
    } else {
        last_value(fs.drop_last(), k)
    }
}

pub proof fn lemma_key_lt_irreflexive(a: Seq<char>)
    ensures
        !key_lt(a, a),
{
    if key_lt(a, a) {
        let i = choose|i: int| #[trigger] first_difference(a, a, i);
    }
}

pub proof fn lemma_key_lt_transitive(a: Seq<char>, b: Seq<char>, c: Seq<char>)
    requires
        key_lt(a, b),
        key_lt(b, c),
    ensures
        key_lt(a, c),
{
    let i = choose|i: int| #[trigger] first_difference(a, b, i);
    let j = choose|j: int| #[trigger] first_difference(b, c, j);
    if i < j {
        assert(first_difference(a, c, i));
    } else if j < i {
        assert(first_difference(a, c, j));
    } else {
        assert(first_difference(a, c, i));
    }
}

pub proof fn lemma_key_lt_asymmetric(a: Seq<char>, b: Seq<char>)
    requires
        key_lt(a, b),
    ensures
        !key_lt(b, a),
        a != b,
{
    lemma_key_lt_irreflexive(a);
    if key_lt(b, a) {
        lemma_key_lt_transitive(a, b, a);
    }
}

/// The last field with key `k` gives the value.
pub proof fn lemma_last_value_at(fs: Seq<FieldModel>, k: Seq<char>, i: int)
    requires
        0 <= i < fs.len(),
        fs[i].key == k,
        forall|j: int| i < j < fs.len() ==> #[trigger] fs[j].key != k,
    ensures
        last_value(fs, k) == Some(fs[i].value),
    decreases fs.len(),
{
    if i < fs.len() - 1 {
        lemma_last_value_at(fs.drop_last(), k, i);
    }
}

/// With no field of key `k`, there is no value.
pub proof fn lemma_last_value_absent(fs: Seq<FieldModel>, k: Seq<char>)
    requires
        forall|j: int| 0 <= j < fs.len() ==> #[trigger] fs[j].key != k,
    ensures
        last_value(fs, k) is None,
    decreases fs.len(),
{
    if fs.len() > 0 {
        lemma_last_value_absent(fs.drop_last(), k);
    }
}

/// In a sequence with increasing keys, the value under `k` is that of the one entry with key `k`.
pub proof fn lemma_sorted_lookup(es: Seq<FieldModel>, k: Seq<char>)
    requires
        sorted_keys(es),
    ensures
        forall|i: int| 0 <= i < es.len() && #[trigger] es[i].key == k ==> last_value(es, k) == Some(es[i].value),
        (forall|i: int| 0 <= i < es.len() ==> #[trigger] es[i].key != k) ==> last_value(es, k) is None,
{
    assert forall|i: int| 0 <= i < es.len() && #[trigger] es[i].key == k implies last_value(es, k) == Some(es[i].value) by {
        assert forall|j: int| i < j < es.len() implies #[trigger] es[j].key != k by {
            assert(key_lt(es[i].key, es[j].key));
            lemma_key_lt_asymmetric(es[i].key, es[j].key);
        }
        lemma_last_value_at(es, k, i);
    }
    if forall|i: int| 0 <= i < es.len() ==> #[trigger] es[i].key != k {
        lemma_last_value_absent(es, k);
    }
}

/// Two sequences with increasing keys that give the same value under every key are equal.
pub proof fn lemma_sorted_unique(a: Seq<FieldModel>, b: Seq<FieldModel>)
    requires
        sorted_keys(a),
        sorted_keys(b),
        forall|k: Seq<char>| last_value(a, k) == last_value(b, k),
    ensures
        a == b,
    decreases a.len() + b.len(),
{
    if a.len() == 0 {
        if b.len() > 0 {
            lemma_sorted_lookup(b, b[0].key);
            lemma_sorted_lookup(a, b[0].key);
            assert(b[0].key == b[0].key);
        }
        assert(a =~= b);
    } else if b.len() == 0 {
        lemma_sorted_lookup(a, a[0].key);
        lemma_sorted_lookup(b, a[0].key);
        assert(a[0].key == a[0].key);
    } else {
        let ka = a.last().key;
        let kb = b.last().key;
        lemma_sorted_lookup(a, ka);
        lemma_sorted_lookup(b, ka);
        lemma_sorted_lookup(a, kb);
        lemma_sorted_lookup(b, kb);
        assert(a[a.len() - 1].key == ka);
        assert(b[b.len() - 1].key == kb);
        // The largest key of each is found in the other, so the two largest keys agree.
        let ia = choose|i: int| 0 <= i < b.len() && #[trigger] b[i].key == ka;
        let ib = choose|i: int| 0 <= i < a.len() && #[trigger] a[i].key == kb;
        if ia != b.len() - 1 {
            assert(key_lt(b[ia].key, b[b.len() - 1].key));
        }
        if ib != a.len() - 1 {
            assert(key_lt(a[ib].key, a[a.len() - 1].key));
        }
        if ka != kb {
            if ia != b.len() - 1 && ib != a.len() - 1 {
                lemma_key_lt_asymmetric(ka, kb);
            }
        }
        assert(ka == kb);
        assert(a.last().value == b.last().value);
        let a2 = a.drop_last();
        let b2 = b.drop_last();
        assert(sorted_keys(a2));
        assert(sorted_keys(b2));
        assert forall|k: Seq<char>| last_value(a2, k) == last_value(b2, k) by {
            if k != ka {
                assert(last_value(a, k) == last_value(a2, k));
                assert(last_value(b, k) == last_value(b2, k));
            } else {
                assert forall|j: int| 0 <= j < a2.len() implies #[trigger] a2[j].key != k by {
                    assert(key_lt(a[j].key, a[a.len() - 1].key));
                    lemma_key_lt_asymmetric(a[j].key, ka);
                }
                assert forall|j: int| 0 <= j < b2.len() implies #[trigger] b2[j].key != k by {
                    assert(key_lt(b[j].key, b[b.len() - 1].key));
                    lemma_key_lt_asymmetric(b[j].key, kb);
                }
                lemma_last_value_absent(a2, k);
                lemma_last_value_absent(b2, k);
            }
        }
        lemma_sorted_unique(a2, b2);
        assert(a =~= a2.push(a.last()));
        assert(b =~= b2.push(b.last()));
    }
}

/// The order of two keys.
pub enum KeyOrder {
    Less,
    Equal,
    Greater,
}

/// Compares two keys character by character.
pub fn compare_keys(a: &Vec<char>, b: &Vec<char>) -> (r: KeyOrder)
    ensures
        r is Less ==> key_lt(a@, b@),
        r is Equal ==> a@ == b@,
        r is Greater ==> key_lt(b@, a@),
{
    let mut i: usize = 0;
    while i < a.len() && i < b.len()
        invariant
            i <= a.len(),
            i <= b.len(),
            forall|j: int| 0 <= j < i ==> a@[j] == b@[j],
        decreases a.len() - i,
    {
        let x = a[i] as u32;
        let y = b[i] as u32;
        if x < y {
            assert(first_difference(a@, b@, i as int));
            return KeyOrder::Less;
        }
        if y < x {
            assert(first_difference(b@, a@, i as int));
            return KeyOrder::Greater;
        }
        proof {
            vstd::utf8::char_u32_cast(a@[i as int], x);
            vstd::utf8::char_u32_cast(b@[i as int], y);
        }
        i = i + 1;
    }
    if i < b.len() {
        assert(first_difference(a@, b@, i as int));
        KeyOrder::Less
    } else if i < a.len() {
        assert(first_difference(b@, a@, i as int));
        KeyOrder::Greater
    } else {
        assert(a@ =~= b@);
        KeyOrder::Equal
    }
}

/// Fields by key, in increasing key order, each key once: a map from keys to optional values.
#[derive(Debug, PartialEq, Eq)]
pub struct FieldMap {
    entries: Vec<Field>,
}

impl FieldMap {
    /// The map's invariant: its keys increase. Every map value keeps it.
    #[verifier::type_invariant]
    pub open spec fn wf(self) -> bool {
        sorted_keys(self.entries_model())
    }

    /// The entries, in increasing key order.
    pub closed spec fn entries_model(self) -> Seq<FieldModel> {
        fields_model(self.entries@)
    }

    /// The value stored under `k`: `Some(None)` for a flag, `None` when `k` is absent.
    pub open spec fn lookup(self, k: Seq<char>) -> Option<Option<Seq<char>>> {
        last_value(self.entries_model(), k)
    }

    /// An empty map.
    pub fn new() -> (m: FieldMap)
        ensures
            m.wf(),
            m.entries_model() == Seq::<FieldModel>::empty(),
    {
        let m = FieldMap { entries: Vec::new() };
        assert(fields_model(m.entries@) =~= Seq::<FieldModel>::empty());
        m
    }

    /// The number of keys.
    pub fn len(&self) -> (n: usize)
        ensures
            n == self.entries_model().len(),
    {
        self.entries.len()
    }

    /// Whether there are no keys.
    pub fn is_empty(&self) -> (b: bool)
        ensures
            b == (self.entries_model().len() == 0),
    {
        self.entries.len() == 0
    }

    /// The entries as fields, in increasing key order.
    pub fn entries(&self) -> (es: &[Field])
        ensures
            fields_model(es@) == self.entries_model(),
    {
        self.entries.as_slice()
    }

    /// The value stored under `key`.
    pub fn get(&self, key: &str) -> (r: Option<&Option<String>>)
        ensures
            match r {
                Some(v) => self.lookup(key@) == Some(opt_text(*v)),
                None => self.lookup(key@) is None,
            },
    {
        proof {
            use_type_invariant(self);
        }
        let kc = chars_of(key);
        let mut i: usize = 0;
        while i < self.entries.len()
            invariant
                i <= self.entries.len(),
                self.wf(),
                kc@ == key@,
                forall|j: int| 0 <= j < i ==> #[trigger] self.entries@[j]@.key != key@,
            decreases self.entries.len() - i,
        {
            let ec = chars_of(self.entries[i].key.as_str());
            match compare_keys(&ec, &kc) {
                KeyOrder::Equal => {
                    assert(self.entries_model()[i as int].key == key@);
                    proof {
                        lemma_sorted_lookup(self.entries_model(), key@);
                    }
                    return Some(&self.entries[i].value);
                },
                _ => {
                    proof {
                        if ec@ == kc@ {
                            lemma_key_lt_irreflexive(kc@);
                        }
                    }
                },
            }
            i = i + 1;
        }
        proof {
            assert forall|j: int| 0 <= j < self.entries_model().len() implies #[trigger] self.entries_model()[j].key != key@ by {
                assert(self.entries_model()[j] == self.entries@[j]@);
            }
            lemma_sorted_lookup(self.entries_model(), key@);
        }
        None
    }

    /// Stores `value` under `key`, and gives back what was stored there before.
    pub fn insert(&mut self, key: String, value: Option<String>) -> (previous: Option<Option<String>>)
        ensures
            final(self).wf(),
            forall|k: Seq<char>|
                #[trigger] final(self).lookup(k) == if k == key@ {
                    Some(opt_text(value))
                } else {
                    old(self).lookup(k)
                },
            match previous {
                Some(p) => old(self).lookup(key@) == Some(opt_text(p)),
                None => old(self).lookup(key@) is None,
            },
    {
        proof {
            use_type_invariant(&*self);
        }
        let mut es: Vec<Field> = Vec::new();
        std::mem::swap(&mut es, &mut self.entries);
        let ghost old_es = fields_model(es@);
        assert(old_es == old(self).entries_model());
        proof {
            lemma_sorted_lookup(old_es, key@);
        }
        let kc = chars_of(key.as_str());
        let mut p: usize = 0;
        let mut found = false;
        let mut stop = false;
        while !stop && p < es.len()
            invariant
                p <= es.len(),
                kc@ == key@,
                old_es == fields_model(es@),
                sorted_keys(old_es),
                forall|j: int| 0 <= j < p ==> key_lt(#[trigger] old_es[j].key, key@),
                found ==> stop,
                stop ==> p < es.len() && if found {
                    old_es[p as int].key == key@
                } else {
                    key_lt(key@, old_es[p as int].key)
                },
            decreases es.len() - p + if stop { 0int } else { 1int },
        {
            let ec = chars_of(es[p].key.as_str());
            match compare_keys(&ec, &kc) {
                KeyOrder::Less => {
                    p = p + 1;
                },
                KeyOrder::Equal => {
                    found = true;
                    stop = true;
                },
                KeyOrder::Greater => {
                    stop = true;
                },
            }
        }
        let ghost k = key@;
        let ghost v = opt_text(value);
        let previous;
        if found {
            let mut f = es.remove(p);
            previous = Some(f.value);
            f.value = value;
            es.insert(p, f);
            proof {
                let new_es = fields_model(es@);
                assert(new_es =~= old_es.update(p as int, FieldModel { key: k, value: v }));
                assert(sorted_keys(new_es)) by {
                    assert forall|i: int, j: int| 0 <= i < j < new_es.len() implies key_lt(#[trigger] new_es[i].key, #[trigger] new_es[j].key) by {
                        assert(new_es[i].key == old_es[i].key);
                        assert(new_es[j].key == old_es[j].key);
                    }
                }
                lemma_sorted_lookup(new_es, k);
                assert(new_es[p as int].key == k);
                assert forall|k2: Seq<char>| k2 != k implies last_value(new_es, k2) == last_value(old_es, k2) by {
                    lemma_sorted_lookup(new_es, k2);
                    lemma_sorted_lookup(old_es, k2);
                    if exists|i: int| 0 <= i < old_es.len() && #[trigger] old_es[i].key == k2 {
                        let i = choose|i: int| 0 <= i < old_es.len() && #[trigger] old_es[i].key == k2;
                        assert(new_es[i] == old_es[i]);
                    } else {
                        assert forall|i: int| 0 <= i < new_es.len() implies #[trigger] new_es[i].key != k2 by {
                            if i != p {
                                assert(new_es[i] == old_es[i]);
                            }
                        }
                    }
                }
            }
        } else {
            es.insert(p, Field { key, value });
            previous = None;
            proof {
                let new_es = fields_model(es@);
                let f = FieldModel { key: k, value: v };
                assert(new_es =~= old_es.insert(p as int, f));
                // every later key is greater than `k`
                assert forall|j: int| p <= j < old_es.len() implies key_lt(k, #[trigger] old_es[j].key) by {
                    assert(key_lt(k, old_es[p as int].key));
                    if j > p {
                        assert(key_lt(old_es[p as int].key, old_es[j].key));
                        lemma_key_lt_transitive(k, old_es[p as int].key, old_es[j].key);
                    }
                }
                assert(sorted_keys(new_es)) by {
                    assert forall|i: int, j: int| 0 <= i < j < new_es.len() implies key_lt(#[trigger] new_es[i].key, #[trigger] new_es[j].key) by {
                        if j < p {
                            assert(new_es[i] == old_es[i] && new_es[j] == old_es[j]);
                        } else if j == p {
                            assert(new_es[i] == old_es[i]);
                        } else if i < p {
                            assert(new_es[i] == old_es[i] && new_es[j] == old_es[j - 1]);
                            if j - 1 >= p {
                                lemma_key_lt_transitive(old_es[i].key, k, old_es[j - 1].key);
                            }
                        } else if i == p {
                            assert(new_es[j] == old_es[j - 1]);
                        } else {
                            assert(new_es[i] == old_es[i - 1] && new_es[j] == old_es[j - 1]);
                        }
                    }
                }
                assert forall|j: int| 0 <= j < old_es.len() implies #[trigger] old_es[j].key != k by {
                    if j < p {
                        lemma_key_lt_asymmetric(old_es[j].key, k);
                    } else {
                        lemma_key_lt_asymmetric(k, old_es[j].key);
                    }
                }
                lemma_sorted_lookup(new_es, k);
                assert(new_es[p as int].key == k);
                assert forall|k2: Seq<char>| k2 != k implies last_value(new_es, k2) == last_value(old_es, k2) by {
                    lemma_sorted_lookup(new_es, k2);
                    lemma_sorted_lookup(old_es, k2);
                    if exists|i: int| 0 <= i < old_es.len() && #[trigger] old_es[i].key == k2 {
                        let i = choose|i: int| 0 <= i < old_es.len() && #[trigger] old_es[i].key == k2;
                        if i < p {
                            assert(new_es[i] == old_es[i]);
                        } else {
                            assert(new_es[i + 1] == old_es[i]);
                        }
                    } else {
                        assert forall|i: int| 0 <= i < new_es.len() implies #[trigger] new_es[i].key != k2 by {
                            if i < p {
                                assert(new_es[i] == old_es[i]);
                            } else if i > p {
                                assert(new_es[i] == old_es[i - 1]);
                            }
                        }
                    }
                }
            }
        }
        self.entries = es;
        previous
    }
}

impl Clone for FieldMap {
    /// A map with the same entries.
    fn clone(&self) -> (r: FieldMap)
        ensures
            r.entries_model() == self.entries_model(),
    {
        proof {
            use_type_invariant(self);
        }
        let ghost es = self.entries_model();
        let mut copy: Vec<Field> = Vec::new();
        let mut i: usize = 0;
        while i < self.entries.len()
            invariant
                es == self.entries_model(),
                i <= self.entries.len(),
                fields_model(copy@) == es.take(i as int),
            decreases self.entries.len() - i,
        {
            let f = &self.entries[i];
            let g = Field { key: f.key.clone(), value: copy_opt(&f.value) };
            assert(g@ == f@);
            assert(es[i as int] == f@);
            let ghost before = fields_model(copy@);
            copy.push(g);
            proof {
                assert(fields_model(copy@) =~= before.push(g@));
                assert(fields_model(copy@) =~= es.take(i + 1));
            }
            i = i + 1;
        }
        proof {
            assert(es.take(self.entries.len() as int) =~= es);
        }
        FieldMap { entries: copy }
    }
}

/// Inserts the fields one after the other: the last value of each key wins.
pub fn fields_to_map(fields: &[Field]) -> (m: FieldMap)
    ensures
        m.wf(),
        forall|k: Seq<char>| #[trigger] m.lookup(k) == last_value(fields_model(fields@), k),
{
    let ghost fs = fields_model(fields@);
    let mut m = FieldMap::new();
    let mut i: usize = 0;
    while i < fields.len()
        invariant
            fs == fields_model(fields@),
            i <= fields.len(),
            m.wf(),
            forall|k: Seq<char>| #[trigger] m.lookup(k) == last_value(fs.take(i as int), k),
        decreases fields.len() - i,
    {
        let f = &fields[i];
        m.insert(f.key.clone(), copy_opt(&f.value));
        proof {
            let t = fs.take(i + 1);
            assert(t.drop_last() =~= fs.take(i as int));
            assert(t.last() == fields@[i as int]@);
        }
        i = i + 1;
    }
    proof {
        assert(fs.take(fields.len() as int) =~= fs);
    }
    m
}

} // verus!
