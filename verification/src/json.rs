//! JSON values and documents.

use crate::map::{ascending_is_unique, StringMap};
use crate::number::{number_eq, Number};
use vstd::prelude::*;

verus! {

/// A JSON document: an object of string keys to arbitrary JSON values.
pub type Document = StringMap<Value>;

/// A JSON value.
#[derive(Debug)]
pub enum Value {
    /// `null`.
    Null,
    /// `true` or `false`.
    Bool(bool),
    /// A number.
    Number(Number),
    /// A string.
    String(String),
    /// An array.
    Array(Vec<Value>),
    /// An object.
    Object(Document),
}

/// What a JSON value is: the mathematical model of [`Value`].
pub enum Json {
    /// `null`.
    Null,
    /// `true` or `false`.
    Bool(bool),
    /// A number.
    Number(Number),
    /// A string.
    String(Seq<char>),
    /// An array.
    Array(Seq<Json>),
    /// An object: its fields by name.
    Object(Fields),
}

/// The fields of a document: the mathematical model of [`Document`].
pub type Fields = Map<Seq<char>, Json>;

/// The fields of a document.
pub open spec fn fields(doc: Document) -> Fields {
    doc@.map_values(|v: Value| v@)
}

/// Equality of JSON values. Numbers are equal as [`number_eq`] says, everything else where its
/// parts are.
pub open spec fn json_eq(a: Json, b: Json) -> bool
    decreases a,
{
    match (a, b) {
        (Json::Number(x), Json::Number(y)) => number_eq(x, y),
        (Json::Array(x), Json::Array(y)) => {
            &&& x.len() == y.len()
            &&& forall|i: int| 0 <= i < x.len() ==> json_eq(#[trigger] x[i], y[i])
        },
        (Json::Object(x), Json::Object(y)) => {
            &&& x.dom() == y.dom()
            &&& forall|k: Seq<char>| #[trigger] x.contains_key(k) ==> json_eq(x[k], y[k])
        },
        _ => a == b,
    }
}

/// Every value equals itself.
pub proof fn equality_is_reflexive(a: Json)
    ensures
        json_eq(a, a),
    decreases a,
{
    match a {
        Json::Array(items) => {
            assert forall|i: int| 0 <= i < items.len() implies json_eq(
                #[trigger] items[i],
                items[i],
            ) by {
                equality_is_reflexive(items[i]);
            }
        },
        Json::Object(object) => {
            assert forall|k: Seq<char>| #[trigger] object.contains_key(k) implies json_eq(
                object[k],
                object[k],
            ) by {
                equality_is_reflexive(object[k]);
            }
        },
        _ => {},
    }
}

/// Equality goes both ways.
pub proof fn equality_is_symmetric(a: Json, b: Json)
    requires
        json_eq(a, b),
    ensures
        json_eq(b, a),
    decreases a,
{
    match (a, b) {
        (Json::Array(x), Json::Array(y)) => {
            assert forall|i: int| 0 <= i < y.len() implies json_eq(#[trigger] y[i], x[i]) by {
                assert(json_eq(x[i], y[i]));
                equality_is_symmetric(x[i], y[i]);
            }
        },
        (Json::Object(x), Json::Object(y)) => {
            assert forall|k: Seq<char>| #[trigger] y.contains_key(k) implies json_eq(
                y[k],
                x[k],
            ) by {
                assert(x.contains_key(k));
                equality_is_symmetric(x[k], y[k]);
            }
        },
        _ => {},
    }
}

/// Values that equal the same value are equal.
pub proof fn equality_is_transitive(a: Json, b: Json, c: Json)
    requires
        json_eq(a, b),
        json_eq(b, c),
    ensures
        json_eq(a, c),
    decreases a,
{
    match (a, b, c) {
        (Json::Array(x), Json::Array(y), Json::Array(z)) => {
            assert forall|i: int| 0 <= i < x.len() implies json_eq(#[trigger] x[i], z[i]) by {
                assert(json_eq(x[i], y[i]));
                assert(json_eq(y[i], z[i]));
                equality_is_transitive(x[i], y[i], z[i]);
            }
        },
        (Json::Object(x), Json::Object(y), Json::Object(z)) => {
            assert forall|k: Seq<char>| #[trigger] x.contains_key(k) implies json_eq(
                x[k],
                z[k],
            ) by {
                assert(y.contains_key(k));
                equality_is_transitive(x[k], y[k], z[k]);
            }
        },
        _ => {},
    }
}

impl Value {
    /// What the value is.
    pub open(crate) spec fn view(&self) -> Json
        decreases self,
    {
        match self {
            Value::Null => Json::Null,
            Value::Bool(b) => Json::Bool(*b),
            Value::Number(n) => Json::Number(*n),
            Value::String(s) => Json::String(s@),
            Value::Array(items) => Json::Array(
                Seq::new(
                    items@.len(),
                    |i: int|
                        if 0 <= i < items@.len() {
                            items@[i].view()
                        } else {
                            Json::Null
                        },
                ),
            ),
            Value::Object(doc) => Json::Object(
                Map::new(
                    |k: Seq<char>| doc@.contains_key(k),
                    |k: Seq<char>|
                        if 0 <= doc.place(k) < doc.entries@.len() {
                            doc.entries@[doc.place(k)].1.view()
                        } else {
                            Json::Null
                        },
                ),
            ),
        }
    }
}

/// An object is its fields.
pub proof fn object_is_its_fields(doc: Document)
    ensures
        Value::Object(doc)@ == Json::Object(fields(doc)),
{
    assert(Value::Object(doc)@->Object_0 =~= fields(doc));
}

/// A value is what its parts are.
pub proof fn value_is_its_parts(value: Value)
    ensures
        match value {
            Value::Null => value@ == Json::Null,
            Value::Bool(b) => value@ == Json::Bool(b),
            Value::Number(n) => value@ == Json::Number(n),
            Value::String(s) => value@ == Json::String(s@),
            Value::Array(items) => value@ == Json::Array(items@.map_values(|v: Value| v@)),
            Value::Object(doc) => value@ == Json::Object(fields(doc)),
        },
{
    match value {
        Value::Array(items) => {
            assert(value@->Array_0 =~= items@.map_values(|v: Value| v@));
        },
        Value::Object(doc) => {
            object_is_its_fields(doc);
        },
        _ => {},
    }
}

/// Copies a value.
fn copy_value(value: &Value) -> (r: Value)
    ensures
        r@ == value@,
    decreases value,
{
    match value {
        Value::Null => Value::Null,
        Value::Bool(b) => Value::Bool(*b),
        Value::Number(n) => Value::Number(*n),
        Value::String(s) => Value::String(s.clone()),
        Value::Array(items) => {
            let mut copies: Vec<Value> = Vec::new();
            let mut i: usize = 0;
            while i < items.len()
                invariant
                    value matches Value::Array(v) && v == items,
                    i <= items.len(),
                    copies@.len() == i,
                    forall|j: int| 0 <= j < i ==> (#[trigger] copies@[j])@ == items@[j]@,
                decreases items.len() - i,
            {
                copies.push(copy_value(&items[i]));
                i = i + 1;
            }
            let r = Value::Array(copies);
            assert(r@->Array_0 =~= value@->Array_0);
            r
        },
        Value::Object(doc) => {
            let copy = copy_document(doc);
            proof {
                object_is_its_fields(*doc);
                object_is_its_fields(copy);
            }
            Value::Object(copy)
        },
    }
}

/// Copies a document.
pub(crate) fn copy_document(doc: &Document) -> (r: Document)
    ensures
        fields(r) == fields(*doc),
        r.keys() == doc.keys(),
    decreases doc,
{
    let mut entries: Vec<(String, Value)> = Vec::new();
    let mut i: usize = 0;
    while i < doc.entries.len()
        invariant
            i <= doc.entries@.len(),
            entries@.len() == i,
            forall|j: int|
                0 <= j < i ==> (#[trigger] entries@[j]).0@ == doc.entries@[j].0@ && entries@[j].1@
                    == doc.entries@[j].1@,
        decreases doc.entries.len() - i,
    {
        let entry = &doc.entries[i];
        entries.push((entry.0.clone(), copy_value(&entry.1)));
        i = i + 1;
    }
    proof {
        use_type_invariant(doc);
        let r = StringMap { entries };
        assert(r.keys() =~= doc.keys());
        r.keys_are_domain();
        doc.keys_are_domain();
        assert(r@.dom() =~= doc@.dom());
        assert forall|k: Seq<char>| #[trigger] r@.contains_key(k) implies r@[k]@ == doc@[k]@ by {
            let at = doc.place(k);
            doc.entry_is_placed(at);
            r.entry_is_placed(at);
        }
        assert(fields(r) =~= fields(*doc));
    }
    StringMap { entries }
}

impl Clone for Value {
    fn clone(&self) -> (r: Value)
        ensures
            r@ == self@,
    {
        copy_value(self)
    }
}

impl Clone for StringMap<Value> {
    fn clone(&self) -> (r: StringMap<Value>)
        ensures
            fields(r) == fields(*self),
    {
        copy_document(self)
    }
}

impl Value {
    /// Is the value `null`?
    pub fn is_null(&self) -> (r: bool)
        ensures
            r == (self@ is Null),
    {
        match self {
            Value::Null => true,
            _ => false,
        }
    }

    /// Are the two values equal?
    pub fn equals(&self, other: &Value) -> (r: bool)
        ensures
            r == json_eq(self@, other@),
        decreases self,
    {
        match (self, other) {
            (Value::Null, Value::Null) => true,
            (Value::Bool(x), Value::Bool(y)) => *x == *y,
            (Value::Number(x), Value::Number(y)) => x.equals(*y),
            (Value::String(x), Value::String(y)) => *x == *y,
            (Value::Array(x), Value::Array(y)) => {
                if x.len() != y.len() {
                    return false;
                }
                let mut i: usize = 0;
                while i < x.len()
                    invariant
                        self matches Value::Array(v) && v == x,
                        other matches Value::Array(v) && v == y,
                        x.len() == y.len(),
                        i <= x.len(),
                        forall|j: int| 0 <= j < i ==> json_eq((#[trigger] x@[j])@, y@[j]@),
                    decreases x.len() - i,
                {
                    if !x[i].equals(&y[i]) {
                        assert(!json_eq(self@->Array_0[i as int], other@->Array_0[i as int]));
                        return false;
                    }
                    i = i + 1;
                }
                true
            },
            (Value::Object(x), Value::Object(y)) => {
                proof {
                    object_is_its_fields(*x);
                    object_is_its_fields(*y);
                }
                same_document(x, y)
            },
            _ => false,
        }
    }
}

/// Have two documents the same fields, with equal values?
pub(crate) fn same_document(x: &Document, y: &Document) -> (r: bool)
    ensures
        r == json_eq(Json::Object(fields(*x)), Json::Object(fields(*y))),
    decreases x,
{
    let ghost fx = fields(*x);
    let ghost fy = fields(*y);
    proof {
        use_type_invariant(x);
        use_type_invariant(y);
        x.keys_are_domain();
        y.keys_are_domain();
        assert(fx.dom() =~= x@.dom());
        assert(fy.dom() =~= y@.dom());
        if x@.dom() =~= y@.dom() {
            assert forall|k: Seq<char>| x.keys().contains(k) == y.keys().contains(k) by {
                assert(x@.contains_key(k) == y@.contains_key(k));
            }
            ascending_is_unique(x.keys(), y.keys());
        }
    }
    if x.entries.len() != y.entries.len() {
        return false;
    }
    let mut i: usize = 0;
    while i < x.entries.len()
        invariant
            fx == fields(*x),
            fy == fields(*y),
            x.in_order(),
            y.in_order(),
            fx.dom() == x@.dom(),
            fy.dom() == y@.dom(),
            x@.dom() == y@.dom() ==> x.keys() == y.keys(),
            x.entries@.len() == y.entries@.len(),
            i <= x.entries@.len(),
            forall|j: int|
                0 <= j < i ==> (#[trigger] x.entries@[j]).0@ == y.entries@[j].0@ && json_eq(
                    x.entries@[j].1@,
                    y.entries@[j].1@,
                ),
        decreases x.entries.len() - i,
    {
        let left = &x.entries[i];
        let right = &y.entries[i];
        proof {
            x.entry_is_placed(i as int);
            y.entry_is_placed(i as int);
        }
        if !(left.0 == right.0) {
            assert(x.keys()[i as int] != y.keys()[i as int]);
            return false;
        }
        if !left.1.equals(&right.1) {
            assert(fx.contains_key(left.0@));
            return false;
        }
        i = i + 1;
    }
    proof {
        assert(x.keys() =~= y.keys());
        x.keys_are_domain();
        y.keys_are_domain();
        assert forall|k: Seq<char>| #[trigger] fx.contains_key(k) implies json_eq(fx[k], fy[k]) by {
            let at = x.place(k);
            x.entry_is_placed(at);
            y.entry_is_placed(at);
        }
    }
    true
}

impl PartialEq for Value {
    fn eq(&self, other: &Value) -> (r: bool) {
        self.equals(other)
    }
}

impl vstd::std_specs::cmp::PartialEqSpecImpl for Value {
    open spec fn obeys_eq_spec() -> bool {
        true
    }

    open spec fn eq_spec(&self, other: &Value) -> bool {
        json_eq(self@, other@)
    }
}

impl Eq for Value {

}

} // verus!
