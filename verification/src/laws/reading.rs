//! What the texts of a command line mean.

use crate::error::Refusal;
use crate::grant::{
    abilities_in, accepted_abilities_exist, end_of_grant, first_unknown, is_ability, refusal_of,
    ABILITY_ADMIN, ABILITY_READ, ABILITY_WRITE,
};
use crate::json::{Fields, Json, Value};
use crate::laws::values::splitting_is_at_the_first_separator;
use crate::number::Number;
use crate::parse::{
    document_in, filter_in, filter_parts, filter_read, filters_read, op_named, order_read,
    parse_result, parsed_json, query_read, value_in,
};
use crate::path::path_parts;
use crate::query::{Condition, Dir, Op, Request};
use crate::text::{split_every, trimmed};
use crate::write::{
    filters_are_taken_apart, is_kept, is_writable, op_name, op_names_are_read_back, reads_as,
    with_colons,
};
use vstd::prelude::*;
use vstd::seq_lib::*;

verus! {

/// The operators have these names, and no other text names one.
pub proof fn operators_have_these_names(name: Seq<char>)
    ensures
        op_named(name) == Some(Op::Eq) <==> name == "eq"@,
        op_named(name) == Some(Op::Ne) <==> name == "ne"@,
        op_named(name) == Some(Op::Gt) <==> name == "gt"@,
        op_named(name) == Some(Op::Ge) <==> name == "ge"@,
        op_named(name) == Some(Op::Lt) <==> name == "lt"@,
        op_named(name) == Some(Op::Le) <==> name == "le"@,
        op_named(name) == Some(Op::Contains) <==> name == "contains"@,
        op_name(Op::Eq) == "eq"@,
        op_name(Op::Ne) == "ne"@,
        op_name(Op::Gt) == "gt"@,
        op_name(Op::Ge) == "ge"@,
        op_name(Op::Lt) == "lt"@,
        op_name(Op::Le) == "le"@,
        op_name(Op::Contains) == "contains"@,
{
    op_names_are_read_back(Op::Eq);
    op_names_are_read_back(Op::Ne);
    op_names_are_read_back(Op::Gt);
    op_names_are_read_back(Op::Ge);
    op_names_are_read_back(Op::Lt);
    op_names_are_read_back(Op::Le);
    op_names_are_read_back(Op::Contains);
}

/// A filter `field:op:text` is read as the field, the operator, and the value that the text is as
/// JSON, or the text itself where it is no JSON.
pub proof fn a_filter_is_read_by_its_parts(
    field: Seq<char>,
    op: Op,
    text: Seq<char>,
    parsed: Result<Json, Seq<char>>,
)
    requires
        field.len() > 0,
        !field.contains(':'),
    ensures
        ({
            let name = match op {
                Op::Eq => "eq"@,
                Op::Ne => "ne"@,
                Op::Gt => "gt"@,
                Op::Ge => "ge"@,
                Op::Lt => "lt"@,
                Op::Le => "le"@,
                Op::Contains => "contains"@,
            };
            let s = field.push(':') + (name.push(':') + text);
            &&& filter_parts(s) == Some((field, name, text))
            &&& filter_read(s) is Ok
            &&& filter_read(s)->Ok_0.field == field
            &&& filter_read(s)->Ok_0.op == op
            &&& parsed_json(text) matches Ok(v) ==> filter_read(s)->Ok_0.value == v
            &&& parsed_json(text) is Err ==> filter_read(s)->Ok_0.value == Json::String(text)
            &&& filter_in(s, parsed) is Ok
            &&& filter_in(s, parsed)->Ok_0.field == field
            &&& filter_in(s, parsed)->Ok_0.op == op
            &&& parsed matches Ok(v) ==> filter_in(s, parsed)->Ok_0.value == v
            &&& parsed is Err ==> filter_in(s, parsed)->Ok_0.value == Json::String(text)
        }),
{
    filters_are_taken_apart(field, op, text);
    op_names_are_read_back(op);
}

/// The value of a filter is what its text is as JSON, or else the text as a string.
pub proof fn a_text_is_its_json_or_a_string(text: Seq<char>, v: Json, reason: Seq<char>)
    ensures
        value_in(text, Ok(v)) == v,
        value_in(text, Err(reason)) == Json::String(text),
{
}

/// A text with no colon, with one, or with one at its start is no filter.
pub proof fn what_lacks_a_part_is_no_filter(a: Seq<char>, b: Seq<char>)
    requires
        !a.contains(':'),
        !b.contains(':'),
    ensures
        filter_read(a) == Err::<Condition, Refusal>(Refusal::BadFilter(a)),
        filter_read(a.push(':') + b) == Err::<Condition, Refusal>(
            Refusal::BadFilter(a.push(':') + b),
        ),
        filter_parts(a) is None,
        filter_parts(a.push(':') + b) is None,
{
    splitting_is_at_the_first_separator(a, ':', b);
    splitting_is_at_the_first_separator(b, ':', Seq::empty());
}

/// A text that starts with a colon is no filter.
pub proof fn what_has_no_field_is_no_filter(rest: Seq<char>)
    ensures
        filter_read(seq![':'] + rest) == Err::<Condition, Refusal>(
            Refusal::BadFilter(seq![':'] + rest),
        ),
        filter_parts(seq![':'] + rest) is None,
{
    splitting_is_at_the_first_separator(Seq::empty(), ':', rest);
    assert(Seq::<char>::empty().push(':') + rest =~= seq![':'] + rest);
}

/// A filter with an operator that does not exist is refused for it.
pub proof fn an_unknown_operator_is_refused(field: Seq<char>, name: Seq<char>, text: Seq<char>)
    requires
        field.len() > 0,
        !field.contains(':'),
        !name.contains(':'),
        name != "eq"@,
        name != "ne"@,
        name != "gt"@,
        name != "ge"@,
        name != "lt"@,
        name != "le"@,
        name != "contains"@,
    ensures
        filter_read(field.push(':') + (name.push(':') + text)) == Err::<Condition, Refusal>(
            Refusal::UnknownFilterOp(name),
        ),
        op_named(name) is None,
        filter_parts(field.push(':') + (name.push(':') + text)) == Some((field, name, text)),
{
    splitting_is_at_the_first_separator(field, ':', name.push(':') + text);
    splitting_is_at_the_first_separator(name, ':', text);
}

/// An order is read as its field and its direction. One without a colon, or with another
/// direction, is refused.
pub proof fn an_order_is_read_by_its_parts(field: Seq<char>, dir: Seq<char>)
    requires
        !field.contains(':'),
    ensures
        order_read(field.push(':') + "asc"@) == Ok::<(Seq<char>, Dir), Refusal>((field, Dir::Asc)),
        order_read(field.push(':') + "desc"@) == Ok::<(Seq<char>, Dir), Refusal>(
            (field, Dir::Desc),
        ),
        dir != "asc"@ && dir != "desc"@ ==> order_read(field.push(':') + dir) == Err::<
            (Seq<char>, Dir),
            Refusal,
        >(Refusal::UnknownDirection(dir)),
        order_read(field) == Err::<(Seq<char>, Dir), Refusal>(Refusal::BadOrder),
{
    splitting_is_at_the_first_separator(field, ':', "asc"@);
    splitting_is_at_the_first_separator(field, ':', "desc"@);
    splitting_is_at_the_first_separator(field, ':', dir);
    reveal_strlit("asc");
    reveal_strlit("desc");
    assert("asc"@.len() == 3 && "desc"@.len() == 4);
}

/// A query that is built has the limit that was given, an order exactly where one was given, and
/// one filter for each that was given, in their order, each as it reads on its own.
pub proof fn a_query_is_built_of_what_was_given(
    wheres: Seq<Seq<char>>,
    order: Option<Seq<char>>,
    limit: Option<usize>,
)
    ensures
        query_read(wheres, order, limit) matches Ok(query) ==> {
            &&& query.limit == limit
            &&& query.order_by is Some <==> order is Some
            &&& order matches Some(o) ==> order_read(o) == Ok::<(Seq<char>, Dir), Refusal>(
                query.order_by->0,
            )
            &&& query.filters.len() == wheres.len()
            &&& forall|i: int|
                0 <= i < wheres.len() ==> filter_read(#[trigger] wheres[i]) == Ok::<
                    Condition,
                    Refusal,
                >(query.filters[i])
        },
        query_read(wheres, order, limit) is Ok <==> (forall|i: int|
            0 <= i < wheres.len() ==> filter_read(#[trigger] wheres[i]) is Ok) && (
        order matches Some(o) ==> order_read(o) is Ok),
{
    filters_are_read_one_by_one(wheres);
}

/// A query is refused for its first filter that is refused, and for its order only where no
/// filter is.
pub proof fn a_query_is_refused_for_its_first_mistake(
    wheres: Seq<Seq<char>>,
    order: Option<Seq<char>>,
    limit: Option<usize>,
    i: int,
)
    ensures
        0 <= i < wheres.len() && filter_read(wheres[i]) is Err && (forall|j: int|
            0 <= j < i ==> filter_read(#[trigger] wheres[j]) is Ok) ==> query_read(
            wheres,
            order,
            limit,
        ) == Err::<Request, Refusal>(filter_read(wheres[i])->Err_0),
        (forall|j: int| 0 <= j < wheres.len() ==> filter_read(#[trigger] wheres[j]) is Ok)
            && order is Some && order_read(order->0) is Err ==> query_read(wheres, order, limit)
            == Err::<Request, Refusal>(order_read(order->0)->Err_0),
{
    filters_are_read_one_by_one(wheres);
    if 0 <= i < wheres.len() && filter_read(wheres[i]) is Err && (forall|j: int|
        0 <= j < i ==> filter_read(#[trigger] wheres[j]) is Ok) {
        first_refusal_is_kept(wheres, i);
    }
}

proof fn filters_are_read_one_by_one(wheres: Seq<Seq<char>>)
    ensures
        filters_read(wheres) is Ok <==> forall|i: int|
            0 <= i < wheres.len() ==> filter_read(#[trigger] wheres[i]) is Ok,
        filters_read(wheres) matches Ok(filters) ==> filters.len() == wheres.len() && forall|i: int|
            0 <= i < wheres.len() ==> filter_read(#[trigger] wheres[i]) == Ok::<Condition, Refusal>(
                filters[i],
            ),
    decreases wheres.len(),
{
    if wheres.len() > 0 {
        let rest = wheres.drop_last();
        filters_are_read_one_by_one(rest);
        if filters_read(wheres) is Ok {
            assert forall|i: int| 0 <= i < wheres.len() implies filter_read(#[trigger] wheres[i])
                == Ok::<Condition, Refusal>(filters_read(wheres)->Ok_0[i]) by {
                if i < rest.len() {
                    assert(rest[i] == wheres[i]);
                }
            }
        }
        if forall|i: int| 0 <= i < wheres.len() ==> filter_read(#[trigger] wheres[i]) is Ok {
            assert forall|i: int| 0 <= i < rest.len() implies filter_read(#[trigger] rest[i])
                is Ok by {
                assert(rest[i] == wheres[i]);
            }
            assert(filter_read(wheres[wheres.len() - 1]) is Ok);
        }
    }
}

proof fn first_refusal_is_kept(wheres: Seq<Seq<char>>, i: int)
    requires
        0 <= i < wheres.len(),
        filter_read(wheres[i]) is Err,
        forall|j: int| 0 <= j < i ==> filter_read(#[trigger] wheres[j]) is Ok,
    ensures
        filters_read(wheres) == Err::<Seq<Condition>, Refusal>(filter_read(wheres[i])->Err_0),
    decreases wheres.len(),
{
    let rest = wheres.drop_last();
    if i == wheres.len() - 1 {
        filters_are_read_one_by_one(rest);
        assert forall|j: int| 0 <= j < rest.len() implies filter_read(#[trigger] rest[j]) is Ok by {
            assert(rest[j] == wheres[j]);
        }
    } else {
        assert(rest[i] == wheres[i]);
        assert forall|j: int| 0 <= j < i implies filter_read(#[trigger] rest[j]) is Ok by {
            assert(rest[j] == wheres[j]);
        }
        first_refusal_is_kept(rest, i);
    }
}

/// A text is a document where it is an object. Other JSON is refused, and what is no JSON with
/// what the parser says.
pub proof fn a_document_is_an_object(object: Fields, v: Json, reason: Seq<char>)
    ensures
        document_in(Ok(Json::Object(object))) == Ok::<Fields, Refusal>(object),
        !(v is Object) ==> document_in(Ok(v)) == Err::<Fields, Refusal>(Refusal::NotAnObject),
        document_in(Err(reason)) == Err::<Fields, Refusal>(Refusal::InvalidJson(reason)),
{
}

/// What parsing gave is the value, or what the parser says.
pub proof fn parsing_gives_a_value_or_a_reason(value: Value, reason: String)
    ensures
        parse_result(Ok(value)) == Ok::<Json, Seq<char>>(value@),
        parse_result(Err(reason)) == Err::<Json, Seq<char>>(reason@),
{
}

/// An address is a collection and a document with a slash between them. What lacks one of the
/// three is no address.
pub proof fn an_address_is_read_by_its_parts(collection: Seq<char>, doc_id: Seq<char>)
    requires
        !collection.contains('/'),
    ensures
        collection.len() > 0 && doc_id.len() > 0 ==> path_parts(collection.push('/') + doc_id)
            == Some((collection, doc_id)),
        collection.len() == 0 || doc_id.len() == 0 ==> path_parts(collection.push('/') + doc_id)
            is None,
        path_parts(collection) is None,
{
    splitting_is_at_the_first_separator(collection, '/', doc_id);
}

/// There are three abilities.
pub proof fn there_are_three_abilities(name: Seq<char>)
    ensures
        is_ability(name) <==> name == "db:read"@ || name == "db:write"@ || name == "db:admin"@,
        ABILITY_READ@ == "db:read"@,
        ABILITY_WRITE@ == "db:write"@,
        ABILITY_ADMIN@ == "db:admin"@,
{
}

/// Abilities are accepted where there are some and all of them exist. They are refused for the
/// first that does not exist, and where there are none.
pub proof fn abilities_are_refused_for_the_first_unknown(
    known: Seq<Seq<char>>,
    unknown: Seq<char>,
    rest: Seq<Seq<char>>,
)
    requires
        forall|i: int|
            0 <= i < known.len() ==> (#[trigger] known[i]) == "db:read"@ || known[i] == "db:write"@
                || known[i] == "db:admin"@,
        unknown != "db:read"@,
        unknown != "db:write"@,
        unknown != "db:admin"@,
    ensures
        known.len() > 0 ==> refusal_of(known) is None,
        refusal_of(Seq::empty()) == Some(Refusal::NoAbility),
        refusal_of(known.push(unknown) + rest) == Some(Refusal::UnknownAbility(unknown)),
{
    accepted_abilities_exist(known);
    unknown_comes_first(known, unknown, rest);
}

proof fn unknown_comes_first(known: Seq<Seq<char>>, unknown: Seq<char>, rest: Seq<Seq<char>>)
    requires
        forall|i: int| 0 <= i < known.len() ==> is_ability(#[trigger] known[i]),
        !is_ability(unknown),
    ensures
        first_unknown(known.push(unknown) + rest) == Some(unknown),
    decreases known.len(),
{
    let all = known.push(unknown) + rest;
    if known.len() > 0 {
        let less = known.drop_first();
        assert forall|i: int| 0 <= i < less.len() implies is_ability(#[trigger] less[i]) by {
            assert(less[i] == known[i + 1]);
        }
        unknown_comes_first(less, unknown, rest);
        assert(all.drop_first() =~= less.push(unknown) + rest);
        assert(all[0] == known[0]);
    } else {
        assert(all[0] == unknown);
    }
}

/// Abilities are listed between commas, without the white space around them, and an empty one is
/// none.
pub proof fn abilities_are_listed_between_commas(part: Seq<char>, more: Seq<char>)
    requires
        !part.contains(','),
    ensures
        abilities_in(part) == if trimmed(part).len() == 0 {
            Seq::empty()
        } else {
            seq![trimmed(part)]
        },
        abilities_in(part.push(',') + more) == abilities_in(part) + abilities_in(more),
{
    let trim = |p: Seq<char>| trimmed(p);
    let named = |name: Seq<char>| name.len() > 0;
    splitting_is_at_the_first_separator(part, ',', more);
    let one = seq![part].map_values(trim);
    assert(one =~= seq![trimmed(part)]);
    let others = split_every(more, ',').map_values(trim);
    assert((seq![part] + split_every(more, ',')).map_values(trim) =~= one + others);
    Seq::filter_distributes_over_add(one, others, named);
    reveal(Seq::filter);
    assert(one.drop_last() =~= Seq::<Seq<char>>::empty());
    assert(Seq::<Seq<char>>::empty().filter(named) =~= Seq::<Seq<char>>::empty());
    assert(one.filter(named) =~= abilities_in(part));
}

/// A grant ends some seconds from now, or never, which is 0.
pub proof fn a_grant_ends_after_its_time(now: u64, expires: u64)
    ensures
        end_of_grant(now, 0) == 0,
        expires > 0 ==> end_of_grant(now, expires) == now + expires,
{
}

/// What JSON notation keeps: `null`, booleans, strings and integers of JSON text, and what is made
/// of them.
pub proof fn notation_keeps_what_is_exact(
    b: bool,
    i: i128,
    bits: u64,
    s: Seq<char>,
    items: Seq<Json>,
    object: Fields,
    depth: nat,
)
    ensures
        is_kept(Json::Null, depth),
        is_kept(Json::Bool(b), depth),
        is_kept(Json::String(s), depth),
        is_kept(Json::Number(Number::Int(i)), depth) <==> i64::MIN <= i <= u64::MAX,
        !is_kept(Json::Number(Number::Float(bits)), depth),
        is_kept(Json::Array(items), depth + 1) <==> forall|k: int|
            0 <= k < items.len() ==> is_kept(#[trigger] items[k], depth),
        is_kept(Json::Object(object), depth + 1) <==> forall|name: Seq<char>| #[trigger]
            object.contains_key(name) ==> is_kept(object[name], depth),
        !is_kept(Json::Array(items), 0),
        !is_kept(Json::Object(object), 0),
{
    crate::write::an_object_is_kept_with_its_fields(object, depth + 1);
    let array = Json::Array(items);
    if is_kept(array, depth + 1) {
        assert forall|k: int| 0 <= k < items.len() implies is_kept(#[trigger] items[k], depth) by {
            assert(is_kept(array->Array_0[k], depth));
        }
    }
}

/// A filter is written with colons between its field, the name of its operator and its value.
pub proof fn filters_are_written_with_colons(
    filter: Condition,
    a: Seq<char>,
    b: Seq<char>,
    c: Seq<char>,
    json: Json,
)
    ensures
        with_colons(a, b, c) == a + ":"@ + b + ":"@ + c,
        is_writable(filter) <==> filter.field.len() > 0 && !filter.field.contains(':') && is_kept(
            filter.value,
            127,
        ),
        reads_as(a, json) <==> parsed_json(a) == Ok::<Json, Seq<char>>(json),
{
    reveal_strlit(":");
    assert(with_colons(a, b, c) =~= a + ":"@ + b + ":"@ + c);
}

} // verus!
