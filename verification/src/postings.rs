//! A per-field index of integer payload values: for a field name and a
//! value, the offsets of the points that may carry it.
//!
//! The index never misses a point that carries a value, but it may list
//! offsets whose payload has changed since; what it lists is a set of
//! candidates, to be checked against the payload itself.

use std::collections::HashMap;
use vstd::prelude::*;
use vstd::std_specs::hash::*;
use crate::filter::value_equals;
use crate::payload::{lookup, FieldModel, Payload, Value, ValueModel};

verus! {

/// The postings of one field: for each value, the offsets listed for it.
pub struct FieldPostings {
    pub key: String,
    pub by_value: HashMap<i64, Vec<usize>>,
}

/// The postings of all indexed fields.
pub struct PayloadIndex {
    pub fields: Vec<FieldPostings>,
}

/// The payload gives the field `key` the integer `v`, or an array that
/// holds `v`.
pub open spec fn carries(payload: Seq<FieldModel>, key: Seq<char>, v: i64) -> bool {
    lookup(payload, key) matches Some(value) && value_equals(value, ValueModel::Integer(v))
}

impl PayloadIndex {
    /// No field name has two sets of postings.
    pub open spec fn wf(&self) -> bool {
        forall|a: int, b: int|
            0 <= a < b < self.fields@.len() ==> (#[trigger] self.fields@[a]).key@ != (
            #[trigger] self.fields@[b]).key@
    }

    /// The field at position `f` has postings for the value `v`.
    pub open spec fn has_at(&self, f: int, key: Seq<char>, v: i64) -> bool {
        &&& 0 <= f < self.fields@.len()
        &&& self.fields@[f].key@ == key
        &&& self.fields@[f].by_value@.contains_key(v)
    }

    /// The offsets listed for the value `v` of the field `key`.
    pub open spec fn posting(&self, key: Seq<char>, v: i64) -> Seq<usize> {
        if exists|f: int| self.has_at(f, key, v) {
            let f = choose|f: int| self.has_at(f, key, v);
            self.fields@[f].by_value@[v]@
        } else {
            Seq::empty()
        }
    }

    /// The offset `o` is listed for the value `v` of the field `key`.
    pub open spec fn listed(&self, key: Seq<char>, v: i64, o: usize) -> bool {
        self.posting(key, v).contains(o)
    }

    /// The postings at position `f` are the postings of that field.
    pub proof fn lemma_posting(&self, f: int, v: i64)
        requires
            self.wf(),
            0 <= f < self.fields@.len(),
        ensures
            self.posting(self.fields@[f].key@, v) == if self.fields@[f].by_value@.contains_key(v) {
                self.fields@[f].by_value@[v]@
            } else {
                Seq::<usize>::empty()
            },
    {
        let key = self.fields@[f].key@;
        if exists|g: int| self.has_at(g, key, v) {
            let g = choose|g: int| self.has_at(g, key, v);
            if g < f {
                assert(self.fields@[g].key@ != self.fields@[f].key@);
            } else if f < g {
                assert(self.fields@[f].key@ != self.fields@[g].key@);
            }
        } else {
            assert(!self.has_at(f, key, v));
        }
    }

    /// An index without postings.
    pub fn new() -> (r: PayloadIndex)
        ensures
            r.wf(),
            forall|key: Seq<char>, v: i64| #[trigger] r.posting(key, v) == Seq::<usize>::empty(),
    {
        PayloadIndex { fields: Vec::new() }
    }

    /// The position of the postings of the field `key`, if it has any.
    pub fn field(&self, key: &String) -> (r: Option<usize>)
        requires
            self.wf(),
        ensures
            match r {
                Some(f) => f < self.fields@.len() && self.fields@[f as int].key@ == key@,
                None => forall|f: int|
                    0 <= f < self.fields@.len() ==> (#[trigger] self.fields@[f]).key@ != key@,
            },
    {
        let mut f: usize = 0;
        while f < self.fields.len()
            invariant
                f <= self.fields@.len(),
                forall|g: int| 0 <= g < f ==> (#[trigger] self.fields@[g]).key@ != key@,
            decreases self.fields@.len() - f,
        {
            if self.fields[f].key == *key {
                return Some(f);
            }
            f = f + 1;
        }
        None
    }

    /// The offsets listed for the value `v` of the field `key`, if any
    /// were ever listed.
    pub fn postings(&self, key: &String, v: i64) -> (r: Option<&Vec<usize>>)
        requires
            self.wf(),
        ensures
            match r {
                Some(list) => list@ == self.posting(key@, v),
                None => self.posting(key@, v) == Seq::<usize>::empty(),
            },
    {
        broadcast use group_hash_axioms;

        match self.field(key) {
            None => {
                assert(!exists|f: int| self.has_at(f, key@, v));
                None
            },
            Some(f) => {
                proof {
                    self.lemma_posting(f as int, v);
                }
                self.fields[f].by_value.get(&v)
            },
        }
    }

    /// Lists the offset `o` for the value `v` of the field `key`. Nothing
    /// that was listed before is lost.
    pub fn add(&mut self, key: &String, v: i64, o: usize)
        requires
            old(self).wf(),
        ensures
            final(self).wf(),
            final(self).posting(key@, v) == old(self).posting(key@, v).push(o),
            forall|k: Seq<char>, w: i64|
                k != key@ || w != v ==> #[trigger] final(self).posting(k, w) == old(self).posting(k, w),
    {
        broadcast use group_hash_axioms;

        let ghost before = *self;
        let f: usize = match self.field(key) {
            Some(f) => f,
            None => {
                self.fields.push(FieldPostings { key: key.clone(), by_value: HashMap::new() });
                self.fields.len() - 1
            },
        };
        let ghost mid = *self;
        proof {
            assert forall|k: Seq<char>, w: i64| #[trigger] mid.posting(k, w) == before.posting(k, w) by {
                if exists|g: int| mid.has_at(g, k, w) {
                    let g = choose|g: int| mid.has_at(g, k, w);
                    assert(before.has_at(g, k, w));
                    mid.lemma_posting(g, w);
                    before.lemma_posting(g, w);
                } else if exists|g: int| before.has_at(g, k, w) {
                    let g = choose|g: int| before.has_at(g, k, w);
                    assert(mid.has_at(g, k, w));
                }
            }
            mid.lemma_posting(f as int, v);
        }
        let prior = self.fields[f].by_value.remove(&v);
        let mut list: Vec<usize> = match prior {
            Some(list) => list,
            None => Vec::new(),
        };
        list.push(o);
        self.fields[f].by_value.insert(v, list);
        proof {
            assert(self.fields@.len() == mid.fields@.len());
            assert forall|g: int| 0 <= g < self.fields@.len() implies (#[trigger] self.fields@[g]).key@
                == mid.fields@[g].key@ && (g != f ==> self.fields@[g] == mid.fields@[g]) by {}
            self.lemma_posting(f as int, v);
            assert forall|k: Seq<char>, w: i64| k != key@ || w != v implies #[trigger] self.posting(
                k,
                w,
            ) == before.posting(k, w) by {
                assert(mid.posting(k, w) == before.posting(k, w));
                if exists|g: int| self.has_at(g, k, w) {
                    let g = choose|g: int| self.has_at(g, k, w);
                    assert(mid.has_at(g, k, w));
                    self.lemma_posting(g, w);
                    mid.lemma_posting(g, w);
                } else if exists|g: int| mid.has_at(g, k, w) {
                    let g = choose|g: int| mid.has_at(g, k, w);
                    assert(self.has_at(g, k, w));
                }
            }
        }
    }

    /// Lists the offset `o` for every integer that `payload` holds, alone
    /// or in an array, under the name of its field.
    pub fn index_payload(&mut self, payload: &Payload, o: usize)
        requires
            old(self).wf(),
        ensures
            final(self).wf(),
            forall|k: Seq<char>, w: i64, p: usize|
                old(self).listed(k, w, p) ==> #[trigger] final(self).listed(k, w, p),
            forall|k: Seq<char>, w: i64| #[trigger]
                carries(payload@, k, w) ==> final(self).listed(k, w, o),
    {
        let ghost fields = payload@;
        let mut i: usize = 0;
        while i < payload.fields.len()
            invariant
                i <= payload.fields@.len(),
                fields == payload@,
                self.wf(),
                forall|k: Seq<char>, w: i64, p: usize|
                    old(self).listed(k, w, p) ==> #[trigger] self.listed(k, w, p),
                forall|j: int, w: i64|
                    0 <= j < i && #[trigger] value_equals(fields[j].value, ValueModel::Integer(w))
                        ==> self.listed(fields[j].key, w, o),
            decreases payload.fields@.len() - i,
        {
            assert(fields[i as int] == payload.fields@[i as int]@);
            let field = &payload.fields[i];
            match &field.value {
                Value::Integer(v) => {
                    let ghost mid = *self;
                    self.add(&field.key, *v, o);
                    proof {
                        lemma_grown(mid, *self, field.key@, *v, o);
                    }
                },
                Value::Integers(list) => {
                    let mut j: usize = 0;
                    while j < list.len()
                        invariant
                            j <= list@.len(),
                            i < payload.fields@.len(),
                            fields == payload@,
                            *field == payload.fields@[i as int],
                            field.value == Value::Integers(*list),
                            self.wf(),
                            forall|k: Seq<char>, w: i64, p: usize|
                                old(self).listed(k, w, p) ==> #[trigger] self.listed(k, w, p),
                            forall|a: int, w: i64|
                                0 <= a < i && #[trigger] value_equals(
                                    fields[a].value,
                                    ValueModel::Integer(w),
                                ) ==> self.listed(fields[a].key, w, o),
                            forall|a: int| 0 <= a < j ==> self.listed(field.key@, #[trigger] list@[a], o),
                        decreases list@.len() - j,
                    {
                        let ghost mid = *self;
                        self.add(&field.key, list[j], o);
                        proof {
                            lemma_grown(mid, *self, field.key@, list@[j as int], o);
                        }
                        j = j + 1;
                    }
                    proof {
                        assert forall|w: int| #![trigger value_equals(
                            fields[i as int].value,
                            ValueModel::Integer(w as i64),
                        )]
                            i64::MIN <= w <= i64::MAX && value_equals(
                                fields[i as int].value,
                                ValueModel::Integer(w as i64),
                            ) implies self.listed(fields[i as int].key, w as i64, o) by {
                            let a = choose|a: int| 0 <= a < list@.len() && list@[a] == w as i64;
                            assert(self.listed(field.key@, list@[a], o));
                        }
                    }
                },
                _ => {},
            }
            i = i + 1;
        }
        proof {
            assert forall|k: Seq<char>, w: i64| #[trigger] carries(fields, k, w) implies self.listed(
                k,
                w,
                o,
            ) by {
                lemma_lookup_is_a_field(fields, k, 0);
                let j = choose|j: int|
                    0 <= j < fields.len() && fields[j].key == k && lookup(fields, k) == Some(
                        fields[j].value,
                    );
                assert(value_equals(fields[j].value, ValueModel::Integer(w)));
            }
        }
    }
}

/// What a lookup finds is the value of one of the fields.
pub proof fn lemma_lookup_is_a_field(fields: Seq<FieldModel>, key: Seq<char>, from: int)
    requires
        0 <= from,
        crate::payload::lookup_from(fields, key, from) is Some,
    ensures
        exists|j: int|
            from <= j < fields.len() && fields[j].key == key && crate::payload::lookup_from(
                fields,
                key,
                from,
            ) == Some(fields[j].value),
    decreases fields.len() - from,
{
    if from < fields.len() && fields[from].key != key {
        lemma_lookup_is_a_field(fields, key, from + 1);
        let j = choose|j: int|
            from + 1 <= j < fields.len() && fields[j].key == key && crate::payload::lookup_from(
                fields,
                key,
                from + 1,
            ) == Some(fields[j].value);
        assert(from <= j < fields.len() && fields[j].key == key);
    } else {
        assert(from <= from < fields.len() && fields[from].key == key);
    }
}

/// After an offset was added, it is listed, and so is all that was.
pub proof fn lemma_grown(old: PayloadIndex, fin: PayloadIndex, key: Seq<char>, v: i64, o: usize)
    requires
        fin.posting(key, v) == old.posting(key, v).push(o),
        forall|k: Seq<char>, w: i64|
            k != key || w != v ==> #[trigger] fin.posting(k, w) == old.posting(k, w),
    ensures
        fin.listed(key, v, o),
        forall|k: Seq<char>, w: i64, p: usize| old.listed(k, w, p) ==> #[trigger] fin.listed(k, w, p),
{
    let grown = old.posting(key, v).push(o);
    assert(grown[grown.len() - 1] == o);
    assert forall|k: Seq<char>, w: i64, p: usize| old.listed(k, w, p) implies #[trigger] fin.listed(
        k,
        w,
        p,
    ) by {
        if k == key && w == v {
            let a = choose|a: int| 0 <= a < old.posting(k, w).len() && old.posting(k, w)[a] == p;
            assert(grown[a] == p);
        } else {
            assert(fin.posting(k, w) == old.posting(k, w));
        }
    }
}

} // verus!
