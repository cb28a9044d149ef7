//! Writing filters, so that they are read back as they were.

use crate::error::Refusal;
use crate::json::{fields, object_is_its_fields, Document, Fields, Json, Value};
use crate::number::{integer_in_range, Number};
use crate::parse::{filter_parts, filter_read, op_named, parsed_json};
use crate::query::{Condition, Filter, Op};
use crate::text::{contains_char, same_text, split_first_finds};
use serde_json::Value as SerdeValue;
use vstd::prelude::*;
use vstd::string::*;

verus! {

/// JSON notation keeps all of the value: its numbers are integers in the range of JSON text, and
/// it nests no deeper than `depth`. A double need not come back from its notation as it was.
pub open spec fn is_kept(json: Json, depth: nat) -> bool
    decreases json,
{
    match json {
        Json::Number(n) => n matches Number::Int(i) && integer_in_range(i as int),
        Json::Array(items) => depth > 0 && forall|i: int|
            0 <= i < items.len() ==> is_kept(#[trigger] items[i], (depth - 1) as nat),
        Json::Object(object) => depth > 0 && forall|name: Seq<char>| #[trigger]
            object.contains_key(name) ==> is_kept(object[name], (depth - 1) as nat),
        _ => true,
    }
}

/// JSON notation keeps an object where it keeps all of the fields.
proof fn kept_object(object: Fields, depth: nat)
    requires
        depth > 0,
    ensures
        is_kept(Json::Object(object), depth) == forall|name: Seq<char>| #[trigger]
            object.contains_key(name) ==> is_kept(object[name], (depth - 1) as nat),
{
    let json = Json::Object(object);
    if is_kept(json, depth) {
        assert forall|name: Seq<char>| #[trigger] object.contains_key(name) implies is_kept(
            object[name],
            (depth - 1) as nat,
        ) by {
            assert(json->Object_0.contains_key(name));
        }
    }
}

/// JSON notation keeps an object exactly where it keeps all of the fields.
pub proof fn an_object_is_kept_with_its_fields(object: Fields, depth: nat)
    requires
        depth > 0,
    ensures
        is_kept(Json::Object(object), depth) == forall|name: Seq<char>| #[trigger]
            object.contains_key(name) ==> is_kept(object[name], (depth - 1) as nat),
{
    kept_object(object, depth);
}

/// Does JSON notation keep all of the value?
pub fn notation_keeps(value: &Value, depth: u64) -> (r: bool)
    ensures
        r == is_kept(value@, depth as nat),
    decreases value,
{
    match value {
        Value::Number(Number::Int(i)) => i64::MIN as i128 <= *i && *i <= u64::MAX as i128,
        Value::Number(Number::Float(_)) => false,
        Value::Array(items) => {
            if depth == 0 {
                return false;
            }
            let mut i: usize = 0;
            while i < items.len()
                invariant
                    value matches Value::Array(v) && v == items,
                    depth > 0,
                    i <= items.len(),
                    forall|j: int|
                        0 <= j < i ==> is_kept((#[trigger] items@[j])@, (depth - 1) as nat),
                decreases items.len() - i,
            {
                if !notation_keeps(&items[i], depth - 1) {
                    assert(!is_kept(value@->Array_0[i as int], (depth - 1) as nat));
                    return false;
                }
                i = i + 1;
            }
            true
        },
        Value::Object(doc) => {
            proof {
                object_is_its_fields(*doc);
            }
            if depth == 0 {
                return false;
            }
            let kept: bool = notation_keeps_fields(doc, depth - 1);
            proof {
                kept_object(fields(*doc), depth as nat);
            }
            kept
        },
        _ => true,
    }
}

/// Does JSON notation keep all of the fields?
fn notation_keeps_fields(doc: &Document, depth: u64) -> (r: bool)
    ensures
        r == forall|name: Seq<char>| #[trigger]
            fields(*doc).contains_key(name) ==> is_kept(
                fields(*doc)[name],
                depth as nat,
            ),
    decreases doc,
{
    let ghost all = fields(*doc);
    proof {
        use_type_invariant(doc);
        doc.keys_are_domain();
    }
    let mut i: usize = 0;
    while i < doc.entries.len()
        invariant
            all == fields(*doc),
            doc.in_order(),
            i <= doc.entries@.len(),
            forall|j: int|
                0 <= j < i ==> is_kept((#[trigger] doc.entries@[j]).1@, depth as nat),
        decreases doc.entries.len() - i,
    {
        proof {
            doc.entry_is_placed(i as int);
        }
        if !notation_keeps(&doc.entries[i].1, depth) {
            assert(all.contains_key(doc.entries@[i as int].0@));
            return false;
        }
        i = i + 1;
    }
    assert forall|name: Seq<char>| #[trigger] all.contains_key(name) implies is_kept(
        all[name],
        depth as nat,
    ) by {
        doc.entry_is_placed(doc.place(name));
    }
    true
}

/// `serde_json::from_str` reads the text as the value.
pub open spec fn reads_as(text: Seq<char>, json: Json) -> bool {
    parsed_json(text) == Ok::<Json, Seq<char>>(json)
}

/// The JSON notation of a value, as `serde_json::to_string` writes it.
pub uninterp spec fn written_json(json: Json) -> Seq<char>;

/// Turns a value into a `serde_json::Value`, variant by variant. It is not called on a double or
/// on an integer outside the range of JSON text.
#[verifier::external_body]
fn to_serde(value: &Value) -> SerdeValue {
    match value {
        Value::Null => SerdeValue::Null,
        Value::Bool(b) => SerdeValue::Bool(*b),
        Value::Number(Number::Float(_)) => SerdeValue::Null,
        Value::Number(Number::Int(i)) => {
            serde_json::Number::from_i128(*i).map_or(SerdeValue::Null, SerdeValue::Number)
        },
        Value::String(s) => SerdeValue::String(s.clone()),
        Value::Array(items) => SerdeValue::Array(items.iter().map(to_serde).collect()),
        Value::Object(doc) => SerdeValue::Object(
            doc.entries.iter().map(|(k, v)| (k.clone(), to_serde(v))).collect(),
        ),
    }
}

/// `serde_json::to_string` on the `serde_json::Value` that a value is. The contract names the
/// text, which depends on the value alone, and says that `serde_json::from_str` reads it back as
/// the same value: strings are escaped and unescaped, integers in the range of JSON text are
/// written in full, and the parser allows 127 levels of nesting. Writing fails for no
/// `serde_json::Value`, since the keys of its objects are strings.
#[verifier::external_body]
fn write_json(value: &Value) -> (r: String)
    requires
        is_kept(value@, 127),
    ensures
        r@ == written_json(value@),
        reads_as(r@, value@),
{
    serde_json::to_string(&to_serde(value)).unwrap_or_default()
}

/// The name of an operator.
pub open spec fn op_name(op: Op) -> Seq<char> {
    match op {
        Op::Eq => "eq"@,
        Op::Ne => "ne"@,
        Op::Gt => "gt"@,
        Op::Ge => "ge"@,
        Op::Lt => "lt"@,
        Op::Le => "le"@,
        Op::Contains => "contains"@,
    }
}

/// The name of an operator is that of no other, and holds no colon.
pub proof fn op_names_are_read_back(op: Op)
    ensures
        op_named(op_name(op)) == Some(op),
        !op_name(op).contains(':'),
{
    reveal_strlit("eq");
    reveal_strlit("ne");
    reveal_strlit("gt");
    reveal_strlit("ge");
    reveal_strlit("lt");
    reveal_strlit("le");
    reveal_strlit("contains");
    assert("eq"@[0] == 'e' && "ne"@[0] == 'n' && "gt"@[0] == 'g' && "ge"@[0] == 'g');
    assert("lt"@[0] == 'l' && "le"@[0] == 'l');
    assert("gt"@[1] == 't' && "ge"@[1] == 'e' && "lt"@[1] == 't' && "le"@[1] == 'e');
    assert("contains"@.len() == 8 && "eq"@.len() == 2 && "ne"@.len() == 2 && "gt"@.len() == 2);
    assert("ge"@.len() == 2 && "lt"@.len() == 2 && "le"@.len() == 2);
}

/// The name of an operator.
pub fn write_op(op: Op) -> (r: String)
    ensures
        r@ == op_name(op),
{
    match op {
        Op::Eq => "eq".to_owned(),
        Op::Ne => "ne".to_owned(),
        Op::Gt => "gt".to_owned(),
        Op::Ge => "ge".to_owned(),
        Op::Lt => "lt".to_owned(),
        Op::Le => "le".to_owned(),
        Op::Contains => "contains".to_owned(),
    }
}

/// Three texts with colons between them.
pub open spec fn with_colons(a: Seq<char>, b: Seq<char>, c: Seq<char>) -> Seq<char> {
    a.push(':') + (b.push(':') + c)
}

/// A filter put together of a field, the name of an operator and a text is taken apart into them.
pub proof fn filters_are_taken_apart(field: Seq<char>, op: Op, text: Seq<char>)
    requires
        field.len() > 0,
        !field.contains(':'),
    ensures
        filter_parts(with_colons(field, op_name(op), text)) == Some((field, op_name(op), text)),
{
    op_names_are_read_back(op);
    split_first_finds(field, ':', op_name(op).push(':') + text);
    split_first_finds(op_name(op), ':', text);
}

/// The filter can be written: its field is one that a filter can name, and JSON notation keeps
/// all of its value.
pub open spec fn is_writable(filter: Condition) -> bool {
    &&& filter.field.len() > 0
    &&& !filter.field.contains(':')
    &&& is_kept(filter.value, 127)
}

/// Writes a filter as `field:op:value`, which is read back as the same filter.
pub fn write_filter(filter: &Filter) -> (r: Option<String>)
    ensures
        match r {
            Some(text) => {
                &&& is_writable(filter@)
                &&& text@ == with_colons(
                    filter@.field,
                    op_name(filter@.op),
                    written_json(filter@.value),
                )
                &&& filter_read(text@) == Ok::<Condition, Refusal>(filter@)
            },
            None => !is_writable(filter@),
        },
{
    proof {
        reveal_strlit("");
        assert(filter@.field.len() == 0 ==> filter@.field =~= ""@);
        reveal_strlit(":");
    }
    if same_text(&filter.field, "") || contains_char(&filter.field, ':') || !notation_keeps(
        &filter.value,
        127,
    ) {
        return None;
    }
    let value: String = write_json(&filter.value);
    let mut text: String = filter.field.clone();
    text.append(":");
    text.append(&write_op(filter.op));
    text.append(":");
    text.append(&value);
    proof {
        assert(text@ =~= with_colons(filter@.field, op_name(filter@.op), value@));
        filters_are_taken_apart(filter@.field, filter@.op, value@);
        op_names_are_read_back(filter@.op);
    }
    Some(text)
}

} // verus!
