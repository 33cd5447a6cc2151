//! Boolean filter expressions over a point's payload and their evaluation.

use vstd::prelude::*;
use crate::payload::{lookup, FieldModel, GeoPoint, Payload, Value, ValueModel};

verus! {

/// A leaf condition on one field, or a nested filter.
#[derive(Debug)]
pub enum Condition {
    /// The field equals the scalar, or is an array that holds it.
    Match { key: String, value: Value },
    /// The field is an integer within the bounds (both inclusive), or an
    /// array holding one.
    Range { key: String, lower: Option<i64>, upper: Option<i64> },
    /// The field matches one of the scalars.
    AnyOf { key: String, values: Vec<Value> },
    /// The field is a position no farther than `radius` from `center`.
    GeoRadius { key: String, center: GeoPoint, radius: u32 },
    /// The field is a text with `needle` as a substring, or an array
    /// holding one.
    Contains { key: String, needle: String },
    /// A whole filter as one condition.
    Nested(Filter),
}

/// Every `must` condition holds, at least one `should` condition holds if
/// there is any, and no `must_not` condition holds.
#[derive(Debug)]
pub struct Filter {
    pub must: Vec<Condition>,
    pub should: Vec<Condition>,
    pub must_not: Vec<Condition>,
}

/// `v` is an integer, a text or a boolean.
pub open spec fn is_scalar(v: ValueModel) -> bool {
    v is Integer || v is Text || v is Bool
}

/// Every value of `values` is a scalar.
pub open spec fn all_scalar(values: Seq<Value>) -> bool {
    forall|i: int| 0 <= i < values.len() ==> is_scalar((#[trigger] values[i])@)
}

/// The stored value equals the wanted scalar, or is an array holding it.
pub open spec fn value_equals(stored: ValueModel, wanted: ValueModel) -> bool {
    match (stored, wanted) {
        (ValueModel::Integer(a), ValueModel::Integer(b)) => a == b,
        (ValueModel::Text(a), ValueModel::Text(b)) => a == b,
        (ValueModel::Bool(a), ValueModel::Bool(b)) => a == b,
        (ValueModel::Integers(s), ValueModel::Integer(b)) => s.contains(b),
        (ValueModel::Texts(s), ValueModel::Text(b)) => s.contains(b),
        _ => false,
    }
}

/// `x` lies within the given inclusive bounds.
pub open spec fn within(x: i64, lower: Option<i64>, upper: Option<i64>) -> bool {
    &&& lower matches Some(l) ==> l <= x
    &&& upper matches Some(u) ==> x <= u
}

/// Some element of `s` lies within the bounds.
pub open spec fn any_within(s: Seq<i64>, lower: Option<i64>, upper: Option<i64>) -> bool {
    exists|i: int| 0 <= i < s.len() && within(#[trigger] s[i], lower, upper)
}

/// The stored value is an integer within the bounds, or an array holding one.
pub open spec fn value_in_range(stored: ValueModel, lower: Option<i64>, upper: Option<i64>) -> bool {
    match stored {
        ValueModel::Integer(a) => within(a, lower, upper),
        ValueModel::Integers(s) => any_within(s, lower, upper),
        _ => false,
    }
}

/// The stored value is a position within `radius` of `center`.
pub open spec fn value_near(stored: ValueModel, center: GeoPoint, radius: u32) -> bool {
    match stored {
        ValueModel::Geo(p) => (p.x - center.x) * (p.x - center.x) + (p.y - center.y) * (p.y
            - center.y) <= radius * radius,
        _ => false,
    }
}

/// `needle` occurs in `text` at position `k`.
pub open spec fn occurs_at(text: Seq<char>, needle: Seq<char>, k: int) -> bool {
    &&& 0 <= k
    &&& k + needle.len() <= text.len()
    &&& text.subrange(k, k + needle.len()) == needle
}

/// `needle` is a substring of `text`.
pub open spec fn has_substring(text: Seq<char>, needle: Seq<char>) -> bool {
    exists|k: int| occurs_at(text, needle, k)
}

/// Some text of `s` has `needle` as a substring.
pub open spec fn any_has_substring(s: Seq<Seq<char>>, needle: Seq<char>) -> bool {
    exists|i: int| 0 <= i < s.len() && has_substring(#[trigger] s[i], needle)
}

/// The stored value is a text with `needle` in it, or an array holding one.
pub open spec fn value_contains(stored: ValueModel, needle: Seq<char>) -> bool {
    match stored {
        ValueModel::Text(t) => has_substring(t, needle),
        ValueModel::Texts(s) => any_has_substring(s, needle),
        _ => false,
    }
}

/// The stored value matches one of the wanted scalars.
pub open spec fn value_any_of(stored: ValueModel, wanted: Seq<Value>) -> bool {
    exists|i: int| 0 <= i < wanted.len() && value_equals(stored, (#[trigger] wanted[i])@)
}

/// Whether a payload satisfies a condition. A condition on a field that the
/// payload lacks does not hold.
pub open spec fn condition_holds(c: Condition, payload: Seq<FieldModel>) -> bool
    decreases c,
{
    match c {
        Condition::Match { key, value } => lookup(payload, key@) matches Some(v) && value_equals(
            v,
            value@,
        ),
        Condition::Range { key, lower, upper } => lookup(payload, key@) matches Some(v)
            && value_in_range(v, lower, upper),
        Condition::AnyOf { key, values } => lookup(payload, key@) matches Some(v) && value_any_of(
            v,
            values@,
        ),
        Condition::GeoRadius { key, center, radius } => lookup(payload, key@) matches Some(v)
            && value_near(v, center, radius),
        Condition::Contains { key, needle } => lookup(payload, key@) matches Some(v)
            && value_contains(v, needle@),
        Condition::Nested(f) => filter_holds(f, payload),
    }
}

/// Whether a payload satisfies a filter.
pub open spec fn filter_holds(f: Filter, payload: Seq<FieldModel>) -> bool
    decreases f,
{
    &&& forall|i: int| 0 <= i < f.must@.len() ==> condition_holds(#[trigger] f.must@[i], payload)
    &&& f.should@.len() > 0 ==> exists|i: int|
        0 <= i < f.should@.len() && condition_holds(#[trigger] f.should@[i], payload)
    &&& forall|i: int|
        0 <= i < f.must_not@.len() ==> !condition_holds(#[trigger] f.must_not@[i], payload)
}

/// A condition is well formed when it compares against scalars only and its
/// range, if it is one, has a bound and is not inverted.
pub open spec fn condition_ok(c: Condition) -> bool
    decreases c,
{
    match c {
        Condition::Match { key, value } => is_scalar(value@),
        Condition::Range { key, lower, upper } => {
            &&& lower is Some || upper is Some
            &&& lower matches Some(l) ==> (upper matches Some(u) ==> l <= u)
        },
        Condition::AnyOf { key, values } => all_scalar(values@),
        Condition::GeoRadius { key, center, radius } => true,
        Condition::Contains { key, needle } => true,
        Condition::Nested(f) => filter_ok(f),
    }
}

/// A filter is well formed when all its conditions are.
pub open spec fn filter_ok(f: Filter) -> bool
    decreases f,
{
    &&& forall|i: int| 0 <= i < f.must@.len() ==> condition_ok(#[trigger] f.must@[i])
    &&& forall|i: int| 0 <= i < f.should@.len() ==> condition_ok(#[trigger] f.should@[i])
    &&& forall|i: int| 0 <= i < f.must_not@.len() ==> condition_ok(#[trigger] f.must_not@[i])
}

/// The condition asks for a field to equal an integer, so that a point's
/// payload satisfies it only if an index of integer values lists the point.
pub open spec fn anchorable(c: Condition) -> bool {
    c matches Condition::Match { key, value } && value is Integer
}

/// The position of the first `must` condition at or after `i` that an
/// index of integer values can answer.
pub open spec fn anchor_from(must: Seq<Condition>, i: int) -> Option<int>
    decreases must.len() - i,
{
    if i < 0 || i >= must.len() {
        None
    } else if anchorable(must[i]) {
        Some(i)
    } else {
        anchor_from(must, i + 1)
    }
}

/// Tells whether `list` holds `x`.
pub fn holds_integer(list: &Vec<i64>, x: i64) -> (r: bool)
    ensures
        r == list@.contains(x),
{
    let mut i: usize = 0;
    while i < list.len()
        invariant
            i <= list.len(),
            forall|j: int| 0 <= j < i ==> list@[j] != x,
        decreases list.len() - i,
    {
        if list[i] == x {
            return true;
        }
        i = i + 1;
    }
    false
}

/// Tells whether `list` holds the text `x`.
pub fn holds_text(list: &Vec<String>, x: &String) -> (r: bool)
    ensures
        r == list@.map_values(|s: String| s@).contains(x@),
{
    let ghost texts = list@.map_values(|s: String| s@);
    let mut i: usize = 0;
    while i < list.len()
        invariant
            i <= list.len(),
            texts == list@.map_values(|s: String| s@),
            forall|j: int| 0 <= j < i ==> texts[j] != x@,
        decreases list.len() - i,
    {
        assert(texts[i as int] == list@[i as int]@);
        if list[i] == *x {
            return true;
        }
        i = i + 1;
    }
    false
}

/// Decides [`value_equals`].
pub fn equals(stored: &Value, wanted: &Value) -> (r: bool)
    ensures
        r == value_equals(stored@, wanted@),
{
    match wanted {
        Value::Integer(b) => match stored {
            Value::Integer(a) => *a == *b,
            Value::Integers(s) => holds_integer(s, *b),
            _ => false,
        },
        Value::Text(b) => match stored {
            Value::Text(a) => *a == *b,
            Value::Texts(s) => holds_text(s, b),
            _ => false,
        },
        Value::Bool(b) => match stored {
            Value::Bool(a) => *a == *b,
            _ => false,
        },
        _ => false,
    }
}

/// Decides [`within`].
pub fn is_within(x: i64, lower: &Option<i64>, upper: &Option<i64>) -> (r: bool)
    ensures
        r == within(x, *lower, *upper),
{
    let above = match lower {
        Some(l) => *l <= x,
        None => true,
    };
    let below = match upper {
        Some(u) => x <= *u,
        None => true,
    };
    above && below
}

/// Decides [`value_in_range`].
pub fn in_range(stored: &Value, lower: &Option<i64>, upper: &Option<i64>) -> (r: bool)
    ensures
        r == value_in_range(stored@, *lower, *upper),
{
    match stored {
        Value::Integer(a) => is_within(*a, lower, upper),
        Value::Integers(s) => {
            let mut i: usize = 0;
            while i < s.len()
                invariant
                    i <= s.len(),
                    *stored == Value::Integers(*s),
                    forall|j: int| 0 <= j < i ==> !within(#[trigger] s@[j], *lower, *upper),
                decreases s.len() - i,
            {
                if is_within(s[i], lower, upper) {
                    assert(within(s@[i as int], *lower, *upper));
                    return true;
                }
                i = i + 1;
            }
            false
        },
        _ => false,
    }
}

/// Decides [`value_near`].
pub fn is_near(stored: &Value, center: &GeoPoint, radius: u32) -> (r: bool)
    ensures
        r == value_near(stored@, *center, radius),
{
    match stored {
        Value::Geo(p) => {
            let dx: i128 = p.x as i128 - center.x as i128;
            let dy: i128 = p.y as i128 - center.y as i128;
            let rr: i128 = radius as i128;
            proof {
                crate::metric::lemma_product_bound(dx as int, dx as int, 0x1_0000_0000, 0x1_0000_0000);
                crate::metric::lemma_product_bound(dy as int, dy as int, 0x1_0000_0000, 0x1_0000_0000);
                crate::metric::lemma_product_bound(rr as int, rr as int, 0x1_0000_0000, 0x1_0000_0000);
            }
            dx * dx + dy * dy <= rr * rr
        },
        _ => false,
    }
}

/// The characters of a text.
pub fn characters(s: &String) -> (r: Vec<char>)
    ensures
        r@ == s@,
{
    let t = s.as_str();
    let n: usize = t.unicode_len();
    let mut out: Vec<char> = Vec::new();
    let mut i: usize = 0;
    while i < n
        invariant
            i <= n,
            n == t@.len(),
            out.len() == i,
            forall|j: int| 0 <= j < i ==> out@[j] == t@[j],
        decreases n - i,
    {
        out.push(t.get_char(i));
        i = i + 1;
    }
    assert(out@ =~= s@);
    out
}

/// Tells whether `needle` occurs in `text` at position `k`.
pub fn matches_at(text: &Vec<char>, needle: &Vec<char>, k: usize) -> (r: bool)
    requires
        k + needle.len() <= text.len(),
    ensures
        r == occurs_at(text@, needle@, k as int),
{
    let mut j: usize = 0;
    while j < needle.len()
        invariant
            j <= needle.len(),
            k + needle.len() <= text.len(),
            forall|l: int| 0 <= l < j ==> text@[k + l] == needle@[l],
        decreases needle.len() - j,
    {
        if text[k + j] != needle[j] {
            assert(text@.subrange(k as int, k + needle.len())[j as int] != needle@[j as int]);
            return false;
        }
        j = j + 1;
    }
    assert(text@.subrange(k as int, k + needle.len()) =~= needle@);
    true
}

/// Decides [`has_substring`].
pub fn text_contains(text: &String, needle: &String) -> (r: bool)
    ensures
        r == has_substring(text@, needle@),
{
    let t = characters(text);
    let n = characters(needle);
    if n.len() > t.len() {
        return false;
    }
    let last: usize = t.len() - n.len();
    let mut k: usize = 0;
    while k < last
        invariant
            k <= last,
            last == t.len() - n.len(),
            n.len() <= t.len(),
            t@ == text@,
            n@ == needle@,
            forall|l: int| 0 <= l < k ==> !occurs_at(text@, needle@, l),
        decreases last - k,
    {
        if matches_at(&t, &n, k) {
            return true;
        }
        k = k + 1;
    }
    matches_at(&t, &n, last)
}

/// Decides [`value_contains`].
pub fn contains_text(stored: &Value, needle: &String) -> (r: bool)
    ensures
        r == value_contains(stored@, needle@),
{
    match stored {
        Value::Text(t) => text_contains(t, needle),
        Value::Texts(s) => {
            let ghost texts = s@.map_values(|x: String| x@);
            let mut i: usize = 0;
            while i < s.len()
                invariant
                    i <= s.len(),
                    *stored == Value::Texts(*s),
                    texts == s@.map_values(|x: String| x@),
                    forall|j: int| 0 <= j < i ==> !has_substring(#[trigger] texts[j], needle@),
                decreases s.len() - i,
            {
                assert(texts[i as int] == s@[i as int]@);
                if text_contains(&s[i], needle) {
                    assert(has_substring(texts[i as int], needle@));
                    return true;
                }
                i = i + 1;
            }
            false
        },
        _ => false,
    }
}

/// Decides [`value_any_of`].
pub fn any_of(stored: &Value, wanted: &Vec<Value>) -> (r: bool)
    ensures
        r == value_any_of(stored@, wanted@),
{
    let mut i: usize = 0;
    while i < wanted.len()
        invariant
            i <= wanted.len(),
            forall|j: int| 0 <= j < i ==> !value_equals(stored@, (#[trigger] wanted@[j])@),
        decreases wanted.len() - i,
    {
        if equals(stored, &wanted[i]) {
            return true;
        }
        i = i + 1;
    }
    false
}

/// Tells whether `v` is an integer, a text or a boolean.
pub fn scalar(v: &Value) -> (r: bool)
    ensures
        r == is_scalar(v@),
{
    match v {
        Value::Integer(_) => true,
        Value::Text(_) => true,
        Value::Bool(_) => true,
        _ => false,
    }
}

impl Condition {
    /// Evaluates the condition against one point's payload.
    pub fn matches(&self, payload: &Payload) -> (r: bool)
        ensures
            r == condition_holds(*self, payload@),
        decreases *self,
    {
        match self {
            Condition::Match { key, value } => match payload.get(key) {
                Some(v) => equals(v, value),
                None => false,
            },
            Condition::Range { key, lower, upper } => match payload.get(key) {
                Some(v) => in_range(v, lower, upper),
                None => false,
            },
            Condition::AnyOf { key, values } => match payload.get(key) {
                Some(v) => any_of(v, values),
                None => false,
            },
            Condition::GeoRadius { key, center, radius } => match payload.get(key) {
                Some(v) => is_near(v, center, *radius),
                None => false,
            },
            Condition::Contains { key, needle } => match payload.get(key) {
                Some(v) => contains_text(v, needle),
                None => false,
            },
            Condition::Nested(f) => f.matches(payload),
        }
    }

    /// Tells whether the condition is well formed.
    pub fn validate(&self) -> (r: bool)
        ensures
            r == condition_ok(*self),
        decreases *self,
    {
        match self {
            Condition::Match { key, value } => scalar(value),
            Condition::Range { key, lower, upper } => match (lower, upper) {
                (Some(l), Some(u)) => *l <= *u,
                (None, None) => false,
                _ => true,
            },
            Condition::AnyOf { key, values } => {
                let mut i: usize = 0;
                while i < values.len()
                    invariant
                        i <= values.len(),
                        *self == (Condition::AnyOf { key: *key, values: *values }),
                        forall|j: int| 0 <= j < i ==> is_scalar((#[trigger] values@[j])@),
                    decreases values.len() - i,
                {
                    if !scalar(&values[i]) {
                        assert(!is_scalar(values@[i as int]@));
                        return false;
                    }
                    i = i + 1;
                }
                true
            },
            Condition::GeoRadius { .. } => true,
            Condition::Contains { .. } => true,
            Condition::Nested(f) => f.validate(),
        }
    }
}

impl Filter {
    /// The position of the first `must` condition that an index of integer
    /// values can answer, if there is one.
    pub fn anchor(&self) -> (r: Option<usize>)
        ensures
            match r {
                Some(i) => anchor_from(self.must@, 0) == Some(i as int) && i < self.must@.len()
                    && anchorable(self.must@[i as int]),
                None => anchor_from(self.must@, 0) is None,
            },
    {
        let mut i: usize = 0;
        while i < self.must.len()
            invariant
                i <= self.must@.len(),
                anchor_from(self.must@, 0) == anchor_from(self.must@, i as int),
            decreases self.must@.len() - i,
        {
            match &self.must[i] {
                Condition::Match { key, value } => {
                    match value {
                        Value::Integer(_) => {
                            return Some(i);
                        },
                        _ => {},
                    }
                },
                _ => {},
            }
            i = i + 1;
        }
        None
    }

    /// The filter that every payload satisfies.
    pub fn all() -> (r: Filter)
        ensures
            filter_ok(r),
            forall|p: Seq<FieldModel>| filter_holds(r, p),
            r.must@.len() == 0 && r.should@.len() == 0 && r.must_not@.len() == 0,
    {
        Filter { must: Vec::new(), should: Vec::new(), must_not: Vec::new() }
    }

    /// Evaluates the filter against one point's payload.
    pub fn matches(&self, payload: &Payload) -> (r: bool)
        ensures
            r == filter_holds(*self, payload@),
        decreases *self,
    {
        let mut i: usize = 0;
        while i < self.must.len()
            invariant
                i <= self.must.len(),
                forall|j: int| 0 <= j < i ==> condition_holds(#[trigger] self.must@[j], payload@),
            decreases self.must.len() - i,
        {
            if !self.must[i].matches(payload) {
                return false;
            }
            i = i + 1;
        }
        let mut i: usize = 0;
        while i < self.must_not.len()
            invariant
                i <= self.must_not.len(),
                forall|j: int| 0 <= j < self.must@.len() ==> condition_holds(#[trigger] self.must@[j], payload@),
                forall|j: int| 0 <= j < i ==> !condition_holds(#[trigger] self.must_not@[j], payload@),
            decreases self.must_not.len() - i,
        {
            if self.must_not[i].matches(payload) {
                return false;
            }
            i = i + 1;
        }
        if self.should.len() == 0 {
            return true;
        }
        let mut i: usize = 0;
        while i < self.should.len()
            invariant
                i <= self.should.len(),
                forall|j: int| 0 <= j < self.must@.len() ==> condition_holds(#[trigger] self.must@[j], payload@),
                forall|j: int|
                    0 <= j < self.must_not@.len() ==> !condition_holds(
                        #[trigger] self.must_not@[j],
                        payload@,
                    ),
                forall|j: int| 0 <= j < i ==> !condition_holds(#[trigger] self.should@[j], payload@),
            decreases self.should.len() - i,
        {
            if self.should[i].matches(payload) {
                return true;
            }
            i = i + 1;
        }
        false
    }

    /// Tells whether the filter is well formed.
    pub fn validate(&self) -> (r: bool)
        ensures
            r == filter_ok(*self),
        decreases *self,
    {
        let mut i: usize = 0;
        while i < self.must.len()
            invariant
                i <= self.must.len(),
                forall|j: int| 0 <= j < i ==> condition_ok(#[trigger] self.must@[j]),
            decreases self.must.len() - i,
        {
            if !self.must[i].validate() {
                return false;
            }
            i = i + 1;
        }
        let mut i: usize = 0;
        while i < self.should.len()
            invariant
                i <= self.should.len(),
                forall|j: int| 0 <= j < self.must@.len() ==> condition_ok(#[trigger] self.must@[j]),
                forall|j: int| 0 <= j < i ==> condition_ok(#[trigger] self.should@[j]),
            decreases self.should.len() - i,
        {
            if !self.should[i].validate() {
                return false;
            }
            i = i + 1;
        }
        let mut i: usize = 0;
        while i < self.must_not.len()
            invariant
                i <= self.must_not.len(),
                forall|j: int| 0 <= j < self.must@.len() ==> condition_ok(#[trigger] self.must@[j]),
                forall|j: int| 0 <= j < self.should@.len() ==> condition_ok(#[trigger] self.should@[j]),
                forall|j: int| 0 <= j < i ==> condition_ok(#[trigger] self.must_not@[j]),
            decreases self.must_not.len() - i,
        {
            if !self.must_not[i].validate() {
                return false;
            }
            i = i + 1;
        }
        true
    }
}

} // verus!
