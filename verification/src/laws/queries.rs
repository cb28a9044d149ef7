//! What filters and queries mean.

use crate::collection::{listed, listing_is_unique};
use crate::json::{fields, json_eq, Document, Fields, Json};
use crate::number::{number_value, Number};
use crate::query::{
    compares, everything, json_contains, json_order, Condition, Dir, Filter, Op, Query, Request,
};
use crate::sort::{
    in_sorted_order, is_arrangement, is_orderable, is_sorting, row_le, rows, sorted,
    sorted_is_a_sorting, uniform_fields_order, Row,
};
use crate::text::{occurs_in, text_lt, Order};
use crate::laws::values::{
    numbers_compare_by_value, strings_compare_lexically, substrings_have_two_sides,
};
use vstd::prelude::*;
use vstd::seq_lib::*;

verus! {

/// Numbers compare by value, strings lexically, `false` before `true`, and `null` equals `null`.
pub proof fn values_compare_within_their_type(
    x: Number,
    y: Number,
    s: Seq<char>,
    t: Seq<char>,
    a: bool,
    b: bool,
)
    ensures
        json_order(Json::Number(x), Json::Number(y)) == Some(Order::Less) <==> number_value(x)
            < number_value(y),
        json_order(Json::Number(x), Json::Number(y)) == Some(Order::Equal) <==> number_value(x)
            == number_value(y),
        json_order(Json::Number(x), Json::Number(y)) == Some(Order::Greater) <==> number_value(x)
            > number_value(y),
        json_order(Json::String(s), Json::String(t)) == Some(Order::Less) <==> text_lt(s, t),
        json_order(Json::String(s), Json::String(t)) == Some(Order::Equal) <==> s == t,
        json_order(Json::String(s), Json::String(t)) == Some(Order::Greater) <==> text_lt(t, s),
        json_order(Json::Bool(a), Json::Bool(b)) == Some(Order::Less) <==> !a && b,
        json_order(Json::Bool(a), Json::Bool(b)) == Some(Order::Equal) <==> a == b,
        json_order(Json::Bool(a), Json::Bool(b)) == Some(Order::Greater) <==> a && !b,
        json_order(Json::Null, Json::Null) == Some(Order::Equal),
        json_order(Json::Number(x), Json::Number(y)) is Some,
        json_order(Json::String(s), Json::String(t)) is Some,
        json_order(Json::Bool(a), Json::Bool(b)) is Some,
{
    numbers_compare_by_value(x, y);
    strings_compare_lexically(s, t);
}

/// Values of different types, arrays and objects do not compare.
pub proof fn other_values_do_not_compare(v: Json, w: Json)
    requires
        !(v is Number && w is Number),
        !(v is String && w is String),
        !(v is Bool && w is Bool),
        !(v is Null && w is Null),
    ensures
        json_order(v, w) is None,
        !compares(Some(v), Op::Gt, w),
        !compares(Some(v), Op::Ge, w),
        !compares(Some(v), Op::Lt, w),
        !compares(Some(v), Op::Le, w),
{
}

/// A filter on a number compares by value.
pub proof fn numbers_are_tested_by_value(x: Number, y: Number)
    ensures
        compares(Some(Json::Number(x)), Op::Gt, Json::Number(y)) <==> number_value(x)
            > number_value(y),
        compares(Some(Json::Number(x)), Op::Ge, Json::Number(y)) <==> number_value(x)
            >= number_value(y),
        compares(Some(Json::Number(x)), Op::Lt, Json::Number(y)) <==> number_value(x)
            < number_value(y),
        compares(Some(Json::Number(x)), Op::Le, Json::Number(y)) <==> number_value(x)
            <= number_value(y),
{
    numbers_compare_by_value(x, y);
}

/// A filter on a string compares lexically.
pub proof fn strings_are_tested_lexically(s: Seq<char>, t: Seq<char>)
    ensures
        compares(Some(Json::String(s)), Op::Gt, Json::String(t)) <==> text_lt(t, s),
        compares(Some(Json::String(s)), Op::Ge, Json::String(t)) <==> text_lt(t, s) || s == t,
        compares(Some(Json::String(s)), Op::Lt, Json::String(t)) <==> text_lt(s, t),
        compares(Some(Json::String(s)), Op::Le, Json::String(t)) <==> text_lt(s, t) || s == t,
{
    strings_compare_lexically(s, t);
}

/// A filter on a boolean takes `false` for less than `true`. Of `null` and `null` only the
/// comparisons hold that allow equality.
pub proof fn booleans_and_nulls_are_tested(a: bool, b: bool)
    ensures
        compares(Some(Json::Bool(a)), Op::Gt, Json::Bool(b)) <==> a && !b,
        compares(Some(Json::Bool(a)), Op::Ge, Json::Bool(b)) <==> a || !b,
        compares(Some(Json::Bool(a)), Op::Lt, Json::Bool(b)) <==> !a && b,
        compares(Some(Json::Bool(a)), Op::Le, Json::Bool(b)) <==> !a || b,
        !compares(Some(Json::Null), Op::Gt, Json::Null),
        compares(Some(Json::Null), Op::Ge, Json::Null),
        !compares(Some(Json::Null), Op::Lt, Json::Null),
        compares(Some(Json::Null), Op::Le, Json::Null),
{
}

/// "Equal" and "not equal" ask whether the values are equal. Of a field that is not there only
/// "not equal" holds.
pub proof fn equality_is_tested(v: Json, op: Op, w: Json)
    ensures
        compares(Some(v), Op::Eq, w) <==> json_eq(v, w),
        compares(Some(v), Op::Ne, w) <==> !json_eq(v, w),
        compares(None, op, w) <==> op == Op::Ne,
{
}

/// "Contains" asks for an item of an array or a substring of a string, and holds of nothing else.
pub proof fn containment_is_tested(items: Seq<Json>, s: Seq<char>, t: Seq<char>, v: Json, w: Json)
    ensures
        compares(Some(Json::Array(items)), Op::Contains, w) <==> exists|i: int|
            0 <= i < items.len() && json_eq(#[trigger] items[i], w),
        compares(Some(Json::String(s)), Op::Contains, Json::String(t)) <==> exists|
            before: Seq<char>,
            after: Seq<char>,
        |
            s == #[trigger] (before + t + after),
        !(w is String) ==> !compares(Some(Json::String(s)), Op::Contains, w),
        !(v is Array) && !(v is String) ==> !compares(Some(v), Op::Contains, w),
{
    substrings_have_two_sides(t, s);
    assert(json_contains(Json::String(s), Json::String(t)) == occurs_in(t, s));
    let array = Json::Array(items);
    if json_contains(array, w) {
        let i = choose|i: int|
            0 <= i < array->Array_0.len() && json_eq(#[trigger] array->Array_0[i], w);
        assert(json_eq(items[i], w));
    }
    if exists|i: int| 0 <= i < items.len() && json_eq(#[trigger] items[i], w) {
        let i = choose|i: int| 0 <= i < items.len() && json_eq(#[trigger] items[i], w);
        assert(json_eq(array->Array_0[i], w));
    }
}

/// A filter tests the field that it names, and looks at nothing else of a document.
pub proof fn a_filter_tests_its_field(filter: Condition, doc: Fields)
    ensures
        doc.contains_key(filter.field) ==> (filter.holds(doc) <==> compares(
            Some(doc[filter.field]),
            filter.op,
            filter.value,
        )),
        !doc.contains_key(filter.field) ==> (filter.holds(doc) <==> filter.op == Op::Ne),
{
}

/// A document is accepted where all filters hold of it.
pub proof fn acceptance_asks_all_filters(query: Request, doc: Fields)
    ensures
        query.accepts(doc) <==> forall|k: int|
            0 <= k < query.filters.len() ==> (#[trigger] query.filters[k]).holds(doc),
{
}

/// The places at which documents are accepted.
spec fn accepted_places(query: Request, from: Seq<Row>) -> Seq<int>
    decreases from.len(),
{
    if from.len() == 0 {
        Seq::empty()
    } else {
        let before = accepted_places(query, from.drop_last());
        if query.accepts(from.last().1) {
            before.push(from.len() - 1)
        } else {
            before
        }
    }
}

/// The matching documents are those at the accepted places.
proof fn matching_is_at_places(query: Request, from: Seq<Row>)
    ensures
        ({
            let places = accepted_places(query, from);
            &&& places.len() == query.matching(from).len()
            &&& forall|i: int|
                0 <= i < places.len() ==> 0 <= #[trigger] places[i] < from.len()
                    && query.matching(from)[i] == from[places[i]]
            &&& forall|i: int, j: int|
                0 <= i < j < places.len() ==> #[trigger] places[i] < #[trigger] places[j]
            &&& forall|x: int|
                0 <= x < from.len() ==> (#[trigger] places.contains(x) <==> query.accepts(
                    from[x].1,
                ))
        }),
    decreases from.len(),
{
    reveal(Seq::filter);
    let accepted = |row: Row| query.accepts(row.1);
    let places = accepted_places(query, from);
    if from.len() > 0 {
        let less = from.drop_last();
        let before = accepted_places(query, less);
        matching_is_at_places(query, less);
        assert(query.matching(less) == less.filter(accepted));
        let last = from.len() - 1;
        assert forall|x: int| 0 <= x < from.len() implies (#[trigger] places.contains(x)
            <==> query.accepts(from[x].1)) by {
            if x < last {
                assert(less[x] == from[x]);
                if before.contains(x) {
                    let i = choose|i: int| 0 <= i < before.len() && before[i] == x;
                    assert(places[i] == x);
                }
                if places.contains(x) {
                    let i = choose|i: int| 0 <= i < places.len() && places[i] == x;
                    assert(before[i] == x);
                }
                assert(before.contains(x) <==> query.accepts(less[x].1));
            } else {
                if query.accepts(from[x].1) {
                    assert(places[before.len() as int] == x);
                } else if places.contains(x) {
                    let i = choose|i: int| 0 <= i < places.len() && places[i] == x;
                    assert(0 <= before[i] < less.len());
                }
            }
        }
        assert forall|i: int| 0 <= i < places.len() implies 0 <= #[trigger] places[i] < from.len()
            && query.matching(from)[i] == from[places[i]] by {
            if i < before.len() {
                assert(places[i] == before[i]);
                assert(query.matching(less)[i] == less[before[i]]);
            }
        }
        assert forall|i: int, j: int| 0 <= i < j < places.len() implies #[trigger] places[i]
            < #[trigger] places[j] by {
            assert(places[i] == before[i]);
            if j < before.len() {
                assert(places[j] == before[j]);
            }
        }
    }
}

/// An answer holds every document of which all filters hold, each once, and no other. Without an
/// order they stand as they were given. With an order by a field whose values are all numbers, all
/// strings, all booleans or all `null`, no value stands before a smaller one (after a smaller one,
/// descending), values that compare equal stand as they were given, and so do documents without
/// the field. Documents without the field come last (first, descending), whatever the others hold.
pub proof fn an_answer_is_the_matching_documents_in_order(query: Request, from: Seq<Row>)
    requires
        query.limit is None,
    ensures
        exists|places: Seq<int>| #[trigger]
            places.no_duplicates() && {
                let to = query.answer(from);
                &&& places.len() == to.len()
                &&& forall|i: int|
                    0 <= i < places.len() ==> 0 <= #[trigger] places[i] < from.len() && to[i]
                        == from[places[i]]
                &&& forall|x: int|
                    0 <= x < from.len() ==> (#[trigger] places.contains(x) <==> forall|k: int|
                        0 <= k < query.filters.len() ==> (#[trigger] query.filters[k]).holds(
                            from[x].1,
                        ))
                &&& query.order_by is None ==> forall|i: int, j: int|
                    0 <= i < j < places.len() ==> #[trigger] places[i] < #[trigger] places[j]
                &&& query.order_by matches Some((field, dir)) ==> forall|i: int, j: int|
                    0 <= i < j < to.len() ==> match dir {
                        Dir::Asc => (#[trigger] to[i]).1.contains_key(field) || !(
                        #[trigger] to[j]).1.contains_key(field),
                        Dir::Desc => !to[i].1.contains_key(field) || to[j].1.contains_key(field),
                    }
                &&& query.order_by matches Some((field, dir)) ==> {
                    ||| forall|i: int|
                        0 <= i < to.len() && (#[trigger] to[i]).1.contains_key(field)
                            ==> to[i].1[field] is Number
                    ||| forall|i: int|
                        0 <= i < to.len() && (#[trigger] to[i]).1.contains_key(field)
                            ==> to[i].1[field] is String
                    ||| forall|i: int|
                        0 <= i < to.len() && (#[trigger] to[i]).1.contains_key(field)
                            ==> to[i].1[field] is Bool
                    ||| forall|i: int|
                        0 <= i < to.len() && (#[trigger] to[i]).1.contains_key(field)
                            ==> to[i].1[field] is Null
                } ==> forall|i: int, j: int|
                    0 <= i < j < to.len() ==> {
                        let a = (#[trigger] to[i]).1;
                        let b = (#[trigger] to[j]).1;
                        if a.contains_key(field) && b.contains_key(field) {
                            &&& dir == Dir::Asc ==> json_order(a[field], b[field]) != Some(
                                Order::Greater,
                            )
                            &&& dir == Dir::Desc ==> json_order(a[field], b[field]) != Some(
                                Order::Less,
                            )
                            &&& json_order(a[field], b[field]) == Some(Order::Equal) ==> places[i]
                                < places[j]
                        } else {
                            !a.contains_key(field) && !b.contains_key(field) ==> places[i]
                                < places[j]
                        }
                    }
            },
{
    let found = query.matching(from);
    let to = query.answer(from);
    let first = accepted_places(query, from);
    matching_is_at_places(query, from);
    if let Some((field, dir)) = query.order_by {
        sorted_is_a_sorting(field, dir, found);
        let second = choose|places: Seq<int>| #[trigger]
            is_arrangement(found, to, places) && (is_orderable(field, dir, found)
                ==> in_sorted_order(field, dir, found, places));
        let places = picked_places(first, second);
        picked_places_are_accepted(query, from, to, second);
        if has_one_type(field, to) {
            one_type_is_in_order(query, field, dir, from, to, second);
        }
        assert(places.no_duplicates());
    } else {
        strictly_ascending_is_unique(first);
        assert(first.no_duplicates());
    }
}

/// Places out of places.
spec fn picked_places(first: Seq<int>, second: Seq<int>) -> Seq<int> {
    second.map_values(|p: int| first[p])
}

/// The field has values of one type.
spec fn has_one_type(field: Seq<char>, to: Seq<Row>) -> bool {
    ||| forall|i: int|
        0 <= i < to.len() && (#[trigger] to[i]).1.contains_key(field) ==> to[i].1[field] is Number
    ||| forall|i: int|
        0 <= i < to.len() && (#[trigger] to[i]).1.contains_key(field) ==> to[i].1[field] is String
    ||| forall|i: int|
        0 <= i < to.len() && (#[trigger] to[i]).1.contains_key(field) ==> to[i].1[field] is Bool
    ||| forall|i: int|
        0 <= i < to.len() && (#[trigger] to[i]).1.contains_key(field) ==> to[i].1[field] is Null
}

/// What rises holds nothing twice.
proof fn strictly_ascending_is_unique(places: Seq<int>)
    requires
        forall|i: int, j: int|
            0 <= i < j < places.len() ==> #[trigger] places[i] < #[trigger] places[j],
    ensures
        places.no_duplicates(),
{
    assert forall|i: int, j: int|
        0 <= i < places.len() && 0 <= j < places.len() && i != j implies places[i] != places[j] by {
        if i < j {
            assert(places[i] < places[j]);
        } else {
            assert(places[j] < places[i]);
        }
    }
}

/// An arrangement of the matching documents holds the accepted places, each once.
proof fn picked_places_are_accepted(query: Request, from: Seq<Row>, to: Seq<Row>, second: Seq<int>)
    requires
        is_arrangement(query.matching(from), to, second),
    ensures
        ({
            let places = picked_places(accepted_places(query, from), second);
            &&& places.no_duplicates()
            &&& places.len() == to.len()
            &&& forall|i: int|
                0 <= i < places.len() ==> 0 <= #[trigger] places[i] < from.len() && to[i]
                    == from[places[i]]
            &&& forall|x: int|
                0 <= x < from.len() ==> (#[trigger] places.contains(x) <==> query.accepts(
                    from[x].1,
                ))
        }),
{
    let found = query.matching(from);
    let first = accepted_places(query, from);
    matching_is_at_places(query, from);
    crate::sort::places_fill_their_range(second, found.len());
    let places = picked_places(first, second);
    assert forall|i: int, j: int|
        0 <= i < places.len() && 0 <= j < places.len() && i != j implies places[i] != places[j] by {
        assert(second[i] != second[j]);
        if second[i] < second[j] {
            assert(first[second[i]] < first[second[j]]);
        } else {
            assert(first[second[j]] < first[second[i]]);
        }
    }
    assert forall|i: int| 0 <= i < places.len() implies 0 <= #[trigger] places[i] < from.len()
        && to[i] == from[places[i]] by {
        assert(0 <= second[i] < found.len());
        assert(0 <= first[second[i]] < from.len());
    }
    assert forall|x: int| 0 <= x < from.len() implies (#[trigger] places.contains(x)
        <==> query.accepts(from[x].1)) by {
        assert(first.contains(x) <==> query.accepts(from[x].1));
        if first.contains(x) {
            let p = choose|p: int| 0 <= p < first.len() && first[p] == x;
            assert(second.contains(p));
            let i = choose|i: int| 0 <= i < second.len() && second[i] == p;
            assert(places[i] == x);
        }
        if places.contains(x) {
            let i = choose|i: int| 0 <= i < places.len() && places[i] == x;
            assert(0 <= second[i] < first.len());
            assert(first[second[i]] == x);
        }
    }
}

/// Values of one type are in order, and those that compare equal as they were given.
proof fn one_type_is_in_order(
    query: Request,
    field: Seq<char>,
    dir: Dir,
    from: Seq<Row>,
    to: Seq<Row>,
    second: Seq<int>,
)
    requires
        is_arrangement(query.matching(from), to, second),
        is_orderable(field, dir, query.matching(from)) ==> in_sorted_order(
            field,
            dir,
            query.matching(from),
            second,
        ),
        has_one_type(field, to),
    ensures
        ({
            let places = picked_places(accepted_places(query, from), second);
            forall|i: int, j: int|
                0 <= i < j < to.len() ==> {
                    let a = (#[trigger] to[i]).1;
                    let b = (#[trigger] to[j]).1;
                    if a.contains_key(field) && b.contains_key(field) {
                        &&& dir == Dir::Asc ==> json_order(a[field], b[field]) != Some(
                            Order::Greater,
                        )
                        &&& dir == Dir::Desc ==> json_order(a[field], b[field]) != Some(Order::Less)
                        &&& json_order(a[field], b[field]) == Some(Order::Equal) ==> places[i]
                            < places[j]
                    } else {
                        !a.contains_key(field) && !b.contains_key(field) ==> places[i] < places[j]
                    }
                }
        }),
{
    let found = query.matching(from);
    let first = accepted_places(query, from);
    let places = picked_places(first, second);
    matching_is_at_places(query, from);
    crate::sort::places_fill_their_range(second, found.len());
    assert forall|p: int| 0 <= p < found.len() implies exists|i: int|
        0 <= i < to.len() && #[trigger] to[i] == #[trigger] found[p] by {
        assert(second.contains(p));
        let i = choose|i: int| 0 <= i < second.len() && second[i] == p;
        assert(to[i] == found[p]);
    }
    uniform_fields_order(field, dir, found);
    assert forall|i: int, j: int| 0 <= i < j < to.len() implies {
        let a = (#[trigger] to[i]).1;
        let b = (#[trigger] to[j]).1;
        if a.contains_key(field) && b.contains_key(field) {
            &&& dir == Dir::Asc ==> json_order(a[field], b[field]) != Some(Order::Greater)
            &&& dir == Dir::Desc ==> json_order(a[field], b[field]) != Some(Order::Less)
            &&& json_order(a[field], b[field]) == Some(Order::Equal) ==> places[i] < places[j]
        } else {
            !a.contains_key(field) && !b.contains_key(field) ==> places[i] < places[j]
        }
    } by {
        assert(crate::sort::comes_first(field, dir, found, second[i], second[j]));
        assert(0 <= second[i] < first.len() && 0 <= second[j] < first.len());
        assert(to[i] == found[second[i]] && to[j] == found[second[j]]);
        if second[i] < second[j] {
            assert(first[second[i]] < first[second[j]]);
        }
    }
}

/// An answer with an order is a sorting of the documents of which all filters hold, whatever the
/// filters are.
pub proof fn an_ordered_answer_is_a_sorting(
    query: Request,
    field: Seq<char>,
    dir: Dir,
    from: Seq<Row>,
)
    requires
        query.order_by == Some((field, dir)),
        query.limit is None,
    ensures
        is_sorting(
            field,
            dir,
            from.filter(
                |row: Row|
                    forall|k: int|
                        0 <= k < query.filters.len() ==> (#[trigger] query.filters[k]).holds(
                            row.1,
                        ),
            ),
            query.answer(from),
        ),
{
    let given = |row: Row|
        forall|k: int|
            0 <= k < query.filters.len() ==> (#[trigger] query.filters[k]).holds(row.1);
    let accepted = |row: Row| query.accepts(row.1);
    assert(given =~= accepted);
    sorted_is_a_sorting(field, dir, query.matching(from));
}

/// A limit keeps the beginning of the answer without it, and nothing where it is 0.
pub proof fn a_limit_keeps_the_beginning(query: Request, from: Seq<Row>, n: usize)
    ensures
        ({
            let all = (Request {
                filters: query.filters,
                order_by: query.order_by,
                limit: None,
            }).answer(from);
            let some = (Request {
                filters: query.filters,
                order_by: query.order_by,
                limit: Some(n),
            }).answer(from);
            &&& n <= all.len() ==> some == all.subrange(0, n as int)
            &&& n >= all.len() ==> some == all
        }),
{
    crate::query::limit_takes_a_prefix(query, from, n);
    let all = (Request { filters: query.filters, order_by: query.order_by, limit: None }).answer(
        from,
    );
    assert(all.take(all.len() as int) =~= all);
}

/// The query that every document matches has no filter, no order and no limit.
pub proof fn everything_asks_for_nothing()
    ensures
        everything().filters.len() == 0,
        everything().order_by is None,
        everything().limit is None,
{
}

/// A filter is its field, its operator and its value.
pub proof fn a_filter_is_its_parts(filter: Filter)
    ensures
        filter@.field == filter.field@,
        filter@.op == filter.op,
        filter@.value == filter.value@,
{
}

/// A query is its filters, its order and its limit.
pub proof fn a_query_is_its_parts(query: Query)
    ensures
        query@.filters.len() == query.filters@.len(),
        forall|i: int|
            0 <= i < query.filters@.len() ==> (#[trigger] query@.filters[i]) == query.filters@[i]@,
        query.order_by matches Some((field, dir)) ==> query@.order_by == Some((field@, dir)),
        query.order_by is None ==> query@.order_by is None,
        query@.limit == query.limit,
{
}

/// Rows are the documents with their ids.
pub proof fn rows_are_the_documents(docs: Seq<(String, Document)>)
    ensures
        rows(docs).len() == docs.len(),
        forall|i: int|
            0 <= i < docs.len() ==> (#[trigger] rows(docs)[i]).0 == docs[i].0@ && rows(docs)[i].1
                == fields(docs[i].1),
{
}

/// Documents are listed in the lexical order of their ids, each once.
pub proof fn documents_are_listed_by_id(listing: Seq<Row>, docs: Map<Seq<char>, Fields>)
    requires
        forall|i: int, j: int|
            0 <= i < j < listing.len() ==> text_lt(
                (#[trigger] listing[i]).0,
                (#[trigger] listing[j]).0,
            ),
        forall|i: int|
            0 <= i < listing.len() ==> docs.contains_key((#[trigger] listing[i]).0)
                && docs[listing[i].0] == listing[i].1,
        forall|id: Seq<char>| #[trigger]
            docs.contains_key(id) ==> exists|i: int|
                0 <= i < listing.len() && (#[trigger] listing[i]).0 == id,
    ensures
        listed(docs) == listing,
{
    let ids = listing.map_values(|row: Row| row.0);
    assert forall|id: Seq<char>| #[trigger] docs.contains_key(id) implies ids.contains(id) by {
        let i = choose|i: int| 0 <= i < listing.len() && (#[trigger] listing[i]).0 == id;
        assert(ids[i] == id);
    }
    assert forall|i: int, j: int| 0 <= i < j < ids.len() implies text_lt(
        #[trigger] ids[i],
        #[trigger] ids[j],
    ) by {
        assert(text_lt(listing[i].0, listing[j].0));
    }
    listing_is_unique(listing, docs);
}

/// An array contains what equals one of its items, a string its substrings, and nothing else
/// contains anything.
pub proof fn containing_is_of_items_and_substrings(
    items: Seq<Json>,
    s: Seq<char>,
    t: Seq<char>,
    v: Json,
    w: Json,
)
    ensures
        json_contains(Json::Array(items), w) <==> compares(
            Some(Json::Array(items)),
            Op::Contains,
            w,
        ),
        !json_contains(Json::Array(Seq::empty()), w),
        json_contains(Json::Array(items.push(v)), w) <==> json_contains(Json::Array(items), w)
            || json_eq(v, w),
        json_contains(Json::String(s), Json::String(t)) <==> exists|
            before: Seq<char>,
            after: Seq<char>,
        |
            s == #[trigger] (before + t + after),
        !(w is String) ==> !json_contains(Json::String(s), w),
        !(v is Array) && !(v is String) ==> !json_contains(v, w),
{
    containment_is_tested(items, s, t, v, w);
    containment_is_tested(items.push(v), s, t, v, w);
    containment_is_tested(Seq::empty(), s, t, v, w);
    assert(items.push(v)[items.len() as int] == v);
    if exists|i: int| 0 <= i < items.len() && json_eq(#[trigger] items[i], w) {
        let i = choose|i: int| 0 <= i < items.len() && json_eq(#[trigger] items[i], w);
        assert(json_eq(items.push(v)[i], w));
    }
    if exists|i: int| 0 <= i < items.push(v).len() && json_eq(#[trigger] items.push(v)[i], w) {
        let i = choose|i: int|
            0 <= i < items.push(v).len() && json_eq(#[trigger] items.push(v)[i], w);
        if i < items.len() {
            assert(json_eq(items[i], w));
        }
    }
}

/// Sorting documents is asking for all of them in that order.
pub proof fn sorting_is_asking_for_an_order(field: Seq<char>, dir: Dir, from: Seq<Row>)
    ensures
        sorted(field, dir, from) == (Request {
            filters: Seq::empty(),
            order_by: Some((field, dir)),
            limit: None,
        }).answer(from),
{
    let query = Request { filters: Seq::empty(), order_by: Some((field, dir)), limit: None };
    let plain = Request { filters: Seq::empty(), order_by: None, limit: None };
    crate::query::empty_query_returns_everything(from);
    assert(everything().filters =~= plain.filters);
    let x = |row: Row| query.accepts(row.1);
    let y = |row: Row| everything().accepts(row.1);
    assert(x =~= y);
}

/// Where the comparison by the field is consistent on the documents, whatever types the values
/// have, the answer is in its order, and documents that compare equal stand as they were given.
/// Values that do not compare count as equal, and a document without the field counts as the
/// greatest.
pub proof fn a_consistent_order_is_kept(
    query: Request,
    field: Seq<char>,
    dir: Dir,
    from: Seq<Row>,
    follows: spec_fn(Row, Row) -> bool,
)
    requires
        query.order_by == Some((field, dir)),
        query.limit is None,
        forall|a: Row, b: Row| #[trigger]
            follows(a, b) == {
                let (x, y) = if dir == Dir::Asc {
                    (a.1, b.1)
                } else {
                    (b.1, a.1)
                };
                if x.contains_key(field) && y.contains_key(field) {
                    json_order(x[field], y[field]) != Some(Order::Greater)
                } else {
                    x.contains_key(field) || !y.contains_key(field)
                }
            },
        forall|i: int, j: int, k: int|
            #![trigger query.answer(from)[i], query.answer(from)[j], query.answer(from)[k]]
            0 <= i < query.answer(from).len() && 0 <= j < query.answer(from).len() && 0 <= k
                < query.answer(from).len() && follows(query.answer(from)[i], query.answer(from)[j])
                && follows(query.answer(from)[j], query.answer(from)[k]) ==> follows(
                query.answer(from)[i],
                query.answer(from)[k],
            ),
    ensures
        exists|places: Seq<int>| #[trigger]
            places.no_duplicates() && {
                let to = query.answer(from);
                &&& places.len() == to.len()
                &&& forall|i: int|
                    0 <= i < places.len() ==> 0 <= #[trigger] places[i] < from.len() && to[i]
                        == from[places[i]]
                &&& forall|i: int, j: int|
                    #![trigger to[i], to[j]]
                    0 <= i < j < to.len() ==> follows(to[i], to[j]) && (follows(to[j], to[i])
                        ==> places[i] < places[j])
            },
{
    let to = query.answer(from);
    let found = query.matching(from);
    let first = accepted_places(query, from);
    sorted_is_a_sorting(field, dir, found);
    let second = choose|places: Seq<int>| #[trigger]
        is_arrangement(found, to, places) && (is_orderable(field, dir, found) ==> in_sorted_order(
            field,
            dir,
            found,
            places,
        ));
    picked_places_are_accepted(query, from, to, second);
    consistent_is_orderable(field, dir, found, to, second, follows);
    consistent_is_in_order(query, field, dir, from, to, second, follows);
    assert(picked_places(first, second).no_duplicates());
}

/// A comparison that is consistent on sorted documents orders the documents.
proof fn consistent_is_orderable(
    field: Seq<char>,
    dir: Dir,
    found: Seq<Row>,
    to: Seq<Row>,
    second: Seq<int>,
    follows: spec_fn(Row, Row) -> bool,
)
    requires
        is_arrangement(found, to, second),
        forall|a: Row, b: Row| #[trigger]
            follows(a, b) == {
                let (x, y) = if dir == Dir::Asc {
                    (a.1, b.1)
                } else {
                    (b.1, a.1)
                };
                if x.contains_key(field) && y.contains_key(field) {
                    json_order(x[field], y[field]) != Some(Order::Greater)
                } else {
                    x.contains_key(field) || !y.contains_key(field)
                }
            },
        forall|i: int, j: int, k: int|
            #![trigger to[i], to[j], to[k]]
            0 <= i < to.len() && 0 <= j < to.len() && 0 <= k < to.len() && follows(to[i], to[j])
                && follows(to[j], to[k]) ==> follows(to[i], to[k]),
    ensures
        is_orderable(field, dir, found),
{
    crate::sort::places_fill_their_range(second, found.len());
    assert forall|i: int, j: int, k: int|
        #![trigger found[i], found[j], found[k]]
        0 <= i < found.len() && 0 <= j < found.len() && 0 <= k < found.len() && row_le(
            field,
            dir,
            found[i],
            found[j],
        ) && row_le(field, dir, found[j], found[k]) implies row_le(
        field,
        dir,
        found[i],
        found[k],
    ) by {
        assert(second.contains(i) && second.contains(j) && second.contains(k));
        let x = choose|x: int| 0 <= x < second.len() && second[x] == i;
        let y = choose|y: int| 0 <= y < second.len() && second[y] == j;
        let z = choose|z: int| 0 <= z < second.len() && second[z] == k;
        assert(to[x] == found[i] && to[y] == found[j] && to[z] == found[k]);
        row_le_is_rising(field, dir, to[x], to[y]);
        row_le_is_rising(field, dir, to[y], to[z]);
        row_le_is_rising(field, dir, to[x], to[z]);
    }
}

/// Sorted documents follow one another, and those that compare equal stand as they were given.
proof fn consistent_is_in_order(
    query: Request,
    field: Seq<char>,
    dir: Dir,
    from: Seq<Row>,
    to: Seq<Row>,
    second: Seq<int>,
    follows: spec_fn(Row, Row) -> bool,
)
    requires
        is_arrangement(query.matching(from), to, second),
        in_sorted_order(field, dir, query.matching(from), second),
        forall|a: Row, b: Row| #[trigger]
            follows(a, b) == {
                let (x, y) = if dir == Dir::Asc {
                    (a.1, b.1)
                } else {
                    (b.1, a.1)
                };
                if x.contains_key(field) && y.contains_key(field) {
                    json_order(x[field], y[field]) != Some(Order::Greater)
                } else {
                    x.contains_key(field) || !y.contains_key(field)
                }
            },
    ensures
        ({
            let places = picked_places(accepted_places(query, from), second);
            forall|i: int, j: int|
                #![trigger to[i], to[j]]
                0 <= i < j < to.len() ==> follows(to[i], to[j]) && (follows(to[j], to[i])
                    ==> places[i] < places[j])
        }),
{
    let found = query.matching(from);
    let first = accepted_places(query, from);
    let places = picked_places(first, second);
    matching_is_at_places(query, from);
    assert forall|i: int, j: int|
        #![trigger to[i], to[j]]
        0 <= i < j < to.len() implies follows(to[i], to[j]) && (follows(to[j], to[i]) ==> places[i]
        < places[j]) by {
        assert(crate::sort::comes_first(field, dir, found, second[i], second[j]));
        assert(to[i] == found[second[i]] && to[j] == found[second[j]]);
        row_le_is_rising(field, dir, to[i], to[j]);
        row_le_is_rising(field, dir, to[j], to[i]);
        crate::sort::exchanging_rows_flips(field, dir, to[i], to[j]);
        if second[i] < second[j] {
            assert(first[second[i]] < first[second[j]]);
        }
    }
}

/// The comparison of documents, by the values that they have.
proof fn row_le_is_rising(field: Seq<char>, dir: Dir, a: Row, b: Row)
    ensures
        row_le(field, dir, a, b) == {
            let (x, y) = if dir == Dir::Asc {
                (a.1, b.1)
            } else {
                (b.1, a.1)
            };
            if x.contains_key(field) && y.contains_key(field) {
                json_order(x[field], y[field]) != Some(Order::Greater)
            } else {
                x.contains_key(field) || !y.contains_key(field)
            }
        },
{
    if a.1.contains_key(field) && b.1.contains_key(field) {
        crate::sort::json_order_flips(a.1[field], b.1[field]);
    }
}

} // verus!
