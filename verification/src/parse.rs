//! Reading documents, filters and queries from text.

use crate::error::{Error, Refusal};
use crate::json::{fields, object_is_its_fields, Document, Fields, Json, Value};
use crate::map::StringMap;
use crate::number::Number;
use crate::query::{everything, Condition, Dir, Filter, Op, Query, Request};
use crate::text::{same_text, split_first, split_once, texts};
use serde_json::Value as SerdeValue;
use vstd::prelude::*;
use vstd::string::*;

verus! {

/// A value of `serde_json`, which carries what its parser returns.
#[verifier::external_type_specification]
#[verifier::external_body]
pub struct ExSerdeValue(SerdeValue);

/// What `serde_json::from_str` makes of a text: a value, or what it says of a text that is no
/// JSON.
pub uninterp spec fn parsed_json(text: Seq<char>) -> Result<Json, Seq<char>>;

/// Turns a `serde_json::Value` into a value, variant by variant. An integer of `serde_json`
/// becomes an integer, every other number the bits of its double. A `serde_json::Map` is a
/// `BTreeMap` where `serde_json` is built without its feature `preserve_order`, as it is here, and
/// hands out its entries in ascending order of their keys.
#[verifier::external_body]
fn from_serde(value: SerdeValue) -> Value {
    match value {
        SerdeValue::Null => Value::Null,
        SerdeValue::Bool(b) => Value::Bool(b),
        SerdeValue::Number(n) => Value::Number(match n.as_i128() {
            Some(i) => Number::Int(i),
            None => Number::Float(n.as_f64().map_or(0, |f| f.to_bits())),
        }),
        SerdeValue::String(s) => Value::String(s),
        SerdeValue::Array(v) => Value::Array(v.into_iter().map(from_serde).collect()),
        SerdeValue::Object(m) => Value::Object(StringMap {
            entries: m.into_iter().map(|(k, v)| (k, from_serde(v))).collect(),
        }),
    }
}

/// `serde_json::from_str` into a `serde_json::Value`, turned into a value of this library. The
/// contract names the outcome, which depends on the text alone; what JSON is, it leaves to
/// `serde_json`.
#[verifier::external_body]
fn parse_json(text: &str) -> (r: Result<Value, String>)
    ensures
        parse_result(r) == parsed_json(text@),
{
    match serde_json::from_str::<SerdeValue>(text) {
        Ok(value) => Ok(from_serde(value)),
        Err(error) => Err(error.to_string()),
    }
}

/// What came of parsing a text.
pub open spec fn parse_result(parsed: Result<Value, String>) -> Result<Json, Seq<char>> {
    match parsed {
        Ok(value) => Ok(value@),
        Err(reason) => Err(reason@),
    }
}

/// The document in a parsed text, which must be an object.
pub open spec fn document_in(parsed: Result<Json, Seq<char>>) -> Result<Fields, Refusal> {
    match parsed {
        Ok(Json::Object(object)) => Ok(object),
        Ok(_) => Err(Refusal::NotAnObject),
        Err(reason) => Err(Refusal::InvalidJson(reason)),
    }
}

/// Takes the document out of a parsed text.
pub fn object_from(parsed: Result<Value, String>) -> (r: Result<Document, Error>)
    ensures
        match r {
            Ok(doc) => document_in(parse_result(parsed)) == Ok::<Fields, Refusal>(fields(doc)),
            Err(error) => document_in(parse_result(parsed)) == Err::<Fields, Refusal>(error@),
        },
{
    match parsed {
        Ok(Value::Object(doc)) => {
            proof {
                object_is_its_fields(doc);
            }
            Ok(doc)
        },
        Ok(_) => Err(Error::NotAnObject),
        Err(reason) => Err(Error::InvalidJson(reason)),
    }
}

/// Reads a document from a text, which must be a JSON object.
pub fn parse_object(s: &str) -> (r: Result<Document, Error>)
    ensures
        match r {
            Ok(doc) => document_in(parsed_json(s@)) == Ok::<Fields, Refusal>(fields(doc)),
            Err(error) => document_in(parsed_json(s@)) == Err::<Fields, Refusal>(error@),
        },
{
    object_from(parse_json(s))
}

/// The operator with a name.
pub open spec fn op_named(name: Seq<char>) -> Option<Op> {
    if name == "eq"@ {
        Some(Op::Eq)
    } else if name == "ne"@ {
        Some(Op::Ne)
    } else if name == "gt"@ {
        Some(Op::Gt)
    } else if name == "ge"@ {
        Some(Op::Ge)
    } else if name == "lt"@ {
        Some(Op::Lt)
    } else if name == "le"@ {
        Some(Op::Le)
    } else if name == "contains"@ {
        Some(Op::Contains)
    } else {
        None
    }
}

/// The operator with a name.
pub fn parse_op(name: &str) -> (r: Option<Op>)
    ensures
        r == op_named(name@),
{
    if same_text(name, "eq") {
        Some(Op::Eq)
    } else if same_text(name, "ne") {
        Some(Op::Ne)
    } else if same_text(name, "gt") {
        Some(Op::Gt)
    } else if same_text(name, "ge") {
        Some(Op::Ge)
    } else if same_text(name, "lt") {
        Some(Op::Lt)
    } else if same_text(name, "le") {
        Some(Op::Le)
    } else if same_text(name, "contains") {
        Some(Op::Contains)
    } else {
        None
    }
}

/// The field, the operator and the value of a filter `field:op:value`. The value may hold colons;
/// the field must not be empty.
pub open spec fn filter_parts(s: Seq<char>) -> Option<(Seq<char>, Seq<char>, Seq<char>)> {
    match split_first(s, ':') {
        Some((field, rest)) => match split_first(rest, ':') {
            Some((op, value)) => if field.len() > 0 {
                Some((field, op, value))
            } else {
                None
            },
            None => None,
        },
        None => None,
    }
}

/// The value of a filter: what its text is as JSON, or else the text itself as a string.
pub open spec fn value_in(text: Seq<char>, parsed: Result<Json, Seq<char>>) -> Json {
    match parsed {
        Ok(value) => value,
        Err(_) => Json::String(text),
    }
}

/// What a filter says, where `parsed` is what parsing makes of its value.
pub open spec fn filter_in(s: Seq<char>, parsed: Result<Json, Seq<char>>) -> Result<
    Condition,
    Refusal,
> {
    match filter_parts(s) {
        Some((field, op, text)) => match op_named(op) {
            Some(op) => Ok(Condition { field, op, value: value_in(text, parsed) }),
            None => Err(Refusal::UnknownFilterOp(op)),
        },
        None => Err(Refusal::BadFilter(s)),
    }
}

/// What a filter says.
pub open spec fn filter_read(s: Seq<char>) -> Result<Condition, Refusal> {
    match filter_parts(s) {
        Some((_, _, text)) => filter_in(s, parsed_json(text)),
        None => Err(Refusal::BadFilter(s)),
    }
}

/// The refusal of a filter that is not of the form `field:op:value`.
pub fn bad_filter(s: &str) -> (r: Error)
    ensures
        r@ == Refusal::BadFilter(s@),
{
    Error::BadFilter(s.to_owned())
}

/// Takes a filter apart: its field, its operator, and the text of its value.
pub fn split_filter(s: &str) -> (r: Result<(String, Op, String), Error>)
    ensures
        match r {
            Ok((field, op, text)) => filter_parts(s@) matches Some((f, o, t)) && f == field@
                && op_named(o) == Some(op) && t == text@,
            Err(error) => match filter_parts(s@) {
                Some((_, op, _)) => op_named(op) is None && error@ == Refusal::UnknownFilterOp(op),
                None => error@ == Refusal::BadFilter(s@),
            },
        },
{
    let (field, rest) = match split_once(s, ':') {
        Some((field, rest)) => (field, rest),
        None => {
            return Err(bad_filter(s));
        },
    };
    let (op, text) = match split_once(&rest, ':') {
        Some((op, text)) => (op, text),
        None => {
            return Err(bad_filter(s));
        },
    };
    proof {
        reveal_strlit("");
        assert(field@.len() == 0 ==> field@ =~= ""@);
    }
    if same_text(&field, "") {
        return Err(bad_filter(s));
    }
    match parse_op(&op) {
        Some(op) => Ok((field, op, text)),
        None => Err(Error::UnknownFilterOp(op)),
    }
}

/// The value of a filter, out of its text and what parsing makes of it.
pub fn value_from(text: String, parsed: Result<Value, String>) -> (r: Value)
    ensures
        r@ == value_in(text@, parse_result(parsed)),
{
    match parsed {
        Ok(value) => value,
        Err(_) => Value::String(text),
    }
}

/// Reads a filter `field:op:value`. The value is JSON where it can be, or else a bare string.
pub fn parse_filter(s: &str) -> (r: Result<Filter, Error>)
    ensures
        match r {
            Ok(filter) => filter_read(s@) == Ok::<Condition, Refusal>(filter@),
            Err(error) => filter_read(s@) == Err::<Condition, Refusal>(error@),
        },
{
    match split_filter(s) {
        Ok((field, op, text)) => {
            let parsed = parse_json(&text);
            Ok(Filter { field, op, value: value_from(text, parsed) })
        },
        Err(error) => Err(error),
    }
}

/// What some filters say, or the refusal of the first that is refused.
pub open spec fn filters_read(wheres: Seq<Seq<char>>) -> Result<Seq<Condition>, Refusal>
    decreases wheres.len(),
{
    if wheres.len() == 0 {
        Ok(Seq::empty())
    } else {
        match filters_read(wheres.drop_last()) {
            Ok(filters) => match filter_read(wheres.last()) {
                Ok(filter) => Ok(filters.push(filter)),
                Err(refusal) => Err(refusal),
            },
            Err(refusal) => Err(refusal),
        }
    }
}

/// The field and the direction of an order `field:asc` or `field:desc`.
pub open spec fn order_read(order: Seq<char>) -> Result<(Seq<char>, Dir), Refusal> {
    match split_first(order, ':') {
        Some((field, dir)) => if dir == "asc"@ {
            Ok((field, Dir::Asc))
        } else if dir == "desc"@ {
            Ok((field, Dir::Desc))
        } else {
            Err(Refusal::UnknownDirection(dir))
        },
        None => Err(Refusal::BadOrder),
    }
}

/// Reads an order.
pub fn parse_order(order: &str) -> (r: Result<(String, Dir), Error>)
    ensures
        match r {
            Ok((field, dir)) => order_read(order@) == Ok::<(Seq<char>, Dir), Refusal>((field@, dir)),
            Err(error) => order_read(order@) == Err::<(Seq<char>, Dir), Refusal>(error@),
        },
{
    match split_once(order, ':') {
        Some((field, dir)) => if same_text(&dir, "asc") {
            Ok((field, Dir::Asc))
        } else if same_text(&dir, "desc") {
            Ok((field, Dir::Desc))
        } else {
            Err(Error::UnknownDirection(dir))
        },
        None => Err(Error::BadOrder),
    }
}

/// The query that some filters, an order and a limit ask for. The filters are refused before the
/// order.
pub open spec fn query_read(
    wheres: Seq<Seq<char>>,
    order: Option<Seq<char>>,
    limit: Option<usize>,
) -> Result<Request, Refusal> {
    match filters_read(wheres) {
        Ok(filters) => match order {
            Some(order) => match order_read(order) {
                Ok(order) => Ok(Request { filters, order_by: Some(order), limit }),
                Err(refusal) => Err(refusal),
            },
            None => Ok(Request { filters, order_by: None, limit }),
        },
        Err(refusal) => Err(refusal),
    }
}

/// A refused filter among the first refuses them all.
proof fn refusal_stays(wheres: Seq<Seq<char>>, n: int, refusal: Refusal)
    requires
        0 <= n <= wheres.len(),
        filters_read(wheres.take(n)) == Err::<Seq<Condition>, Refusal>(refusal),
    ensures
        filters_read(wheres) == Err::<Seq<Condition>, Refusal>(refusal),
    decreases wheres.len() - n,
{
    if n == wheres.len() {
        assert(wheres.take(n) =~= wheres);
    } else {
        assert(wheres.take(n + 1).drop_last() =~= wheres.take(n));
        refusal_stays(wheres, n + 1, refusal);
    }
}

/// Builds a query out of filters `field:op:value`, an order `field:asc` or `field:desc`, and a
/// limit.
pub fn build_query(wheres: &[String], order: Option<&str>, limit: Option<usize>) -> (r: Result<
    Query,
    Error,
>)
    ensures
        match r {
            Ok(query) => query_read(
                texts(wheres@),
                match order {
                    Some(o) => Some(o@),
                    None => None,
                },
                limit,
            ) == Ok::<Request, Refusal>(query@),
            Err(error) => query_read(
                texts(wheres@),
                match order {
                    Some(o) => Some(o@),
                    None => None,
                },
                limit,
            ) == Err::<Request, Refusal>(error@),
        },
{
    let ghost all = texts(wheres@);
    let mut query: Query = Query::new();
    let mut i: usize = 0;
    assert(all.take(0) =~= Seq::<Seq<char>>::empty());
    while i < wheres.len()
        invariant
            all == texts(wheres@),
            i <= wheres.len(),
            filters_read(all.take(i as int)) == Ok::<Seq<Condition>, Refusal>(query@.filters),
            query@ == (Request { filters: query@.filters, ..everything() }),
        decreases wheres.len() - i,
    {
        proof {
            let next = all.take(i + 1);
            assert(next.drop_last() =~= all.take(i as int));
            assert(next.last() == wheres@[i as int]@);
        }
        match parse_filter(&wheres[i]) {
            Ok(filter) => {
                query = query.with(filter);
            },
            Err(error) => {
                proof {
                    refusal_stays(all, i + 1, error@);
                }
                return Err(error);
            },
        }
        i = i + 1;
    }
    assert(all.take(all.len() as int) =~= all);
    if let Some(order) = order {
        match parse_order(order) {
            Ok((field, dir)) => {
                query = query.order(&field, dir);
            },
            Err(error) => {
                return Err(error);
            },
        }
    }
    if let Some(n) = limit {
        query = query.take(n);
    }
    Ok(query)
}

} // verus!
