//! Schemaless per-point metadata: named fields holding typed values.

use vstd::prelude::*;

verus! {

/// A position in a projected plane, in whole units of the projection.
#[derive(Clone, Copy, Debug, PartialEq, Eq, Structural)]
pub struct GeoPoint {
    pub x: i32,
    pub y: i32,
}

/// A typed payload value: a scalar, a text, a position, or an array.
#[derive(Clone, Debug, PartialEq, Eq)]
pub enum Value {
    Integer(i64),
    Text(String),
    Bool(bool),
    Geo(GeoPoint),
    Integers(Vec<i64>),
    Texts(Vec<String>),
}

/// What a [`Value`] denotes.
pub enum ValueModel {
    Integer(i64),
    Text(Seq<char>),
    Bool(bool),
    Geo(GeoPoint),
    Integers(Seq<i64>),
    Texts(Seq<Seq<char>>),
}

impl View for Value {
    type V = ValueModel;

    open spec fn view(&self) -> ValueModel {
        match self {
            Value::Integer(i) => ValueModel::Integer(*i),
            Value::Text(s) => ValueModel::Text(s@),
            Value::Bool(b) => ValueModel::Bool(*b),
            Value::Geo(g) => ValueModel::Geo(*g),
            Value::Integers(v) => ValueModel::Integers(v@),
            Value::Texts(v) => ValueModel::Texts(v@.map_values(|s: String| s@)),
        }
    }
}

/// One named value of a payload.
#[derive(Clone, Debug, PartialEq, Eq)]
pub struct Field {
    pub key: String,
    pub value: Value,
}

/// What a [`Field`] denotes.
pub struct FieldModel {
    pub key: Seq<char>,
    pub value: ValueModel,
}

impl View for Field {
    type V = FieldModel;

    open spec fn view(&self) -> FieldModel {
        FieldModel { key: self.key@, value: self.value@ }
    }
}

/// The metadata of one point. Where a name occurs twice, the first field
/// with that name is the one that counts.
#[derive(Clone, Debug, PartialEq, Eq)]
pub struct Payload {
    pub fields: Vec<Field>,
}

impl View for Payload {
    type V = Seq<FieldModel>;

    open spec fn view(&self) -> Seq<FieldModel> {
        self.fields@.map_values(|f: Field| f@)
    }
}

/// The value of the first field named `key` at or after position `i`.
pub open spec fn lookup_from(fields: Seq<FieldModel>, key: Seq<char>, i: int) -> Option<ValueModel>
    decreases fields.len() - i,
{
    if i < 0 || i >= fields.len() {
        None
    } else if fields[i].key == key {
        Some(fields[i].value)
    } else {
        lookup_from(fields, key, i + 1)
    }
}

/// The value a payload gives to `key`, if any.
pub open spec fn lookup(fields: Seq<FieldModel>, key: Seq<char>) -> Option<ValueModel> {
    lookup_from(fields, key, 0)
}

/// Copies a list of texts.
pub fn duplicate_texts(v: &Vec<String>) -> (r: Vec<String>)
    ensures
        r@.map_values(|s: String| s@) == v@.map_values(|s: String| s@),
{
    let mut out: Vec<String> = Vec::new();
    let mut i: usize = 0;
    while i < v.len()
        invariant
            i <= v.len(),
            out.len() == i,
            forall|j: int| 0 <= j < i ==> (#[trigger] out@[j])@ == v@[j]@,
        decreases v.len() - i,
    {
        out.push(v[i].clone());
        i = i + 1;
    }
    assert(out@.map_values(|s: String| s@) =~= v@.map_values(|s: String| s@));
    out
}

impl Value {
    /// Copies the value.
    pub fn duplicate(&self) -> (r: Value)
        ensures
            r@ == self@,
    {
        match self {
            Value::Integer(i) => Value::Integer(*i),
            Value::Text(s) => Value::Text(s.clone()),
            Value::Bool(b) => Value::Bool(*b),
            Value::Geo(g) => Value::Geo(*g),
            Value::Integers(v) => {
                let c = v.clone();
                assert(c@ =~= v@);
                Value::Integers(c)
            },
            Value::Texts(v) => Value::Texts(duplicate_texts(v)),
        }
    }
}

impl Field {
    /// Copies the field.
    pub fn duplicate(&self) -> (r: Field)
        ensures
            r@ == self@,
    {
        Field { key: self.key.clone(), value: self.value.duplicate() }
    }
}

impl Payload {
    /// A payload without fields.
    pub fn new() -> (r: Payload)
        ensures
            r@ == Seq::<FieldModel>::empty(),
    {
        let r = Payload { fields: Vec::new() };
        assert(r@ =~= Seq::<FieldModel>::empty());
        r
    }

    /// Copies the payload.
    pub fn duplicate(&self) -> (r: Payload)
        ensures
            r@ == self@,
    {
        let mut out: Vec<Field> = Vec::new();
        let mut i: usize = 0;
        while i < self.fields.len()
            invariant
                i <= self.fields.len(),
                out.len() == i,
                forall|j: int| 0 <= j < i ==> (#[trigger] out@[j])@ == self.fields@[j]@,
            decreases self.fields.len() - i,
        {
            out.push(self.fields[i].duplicate());
            i = i + 1;
        }
        let r = Payload { fields: out };
        assert(r@ =~= self@);
        r
    }

    /// Looks up the value of the first field named `key`.
    pub fn get(&self, key: &String) -> (r: Option<&Value>)
        ensures
            match r {
                Some(v) => lookup(self@, key@) == Some(v@),
                None => lookup(self@, key@) is None,
            },
    {
        let mut i: usize = 0;
        while i < self.fields.len()
            invariant
                i <= self.fields.len(),
                lookup(self@, key@) == lookup_from(self@, key@, i as int),
            decreases self.fields.len() - i,
        {
            assert(self@[i as int] == self.fields@[i as int]@);
            if self.fields[i].key == *key {
                return Some(&self.fields[i].value);
            }
            i = i + 1;
        }
        None
    }
}

} // verus!
