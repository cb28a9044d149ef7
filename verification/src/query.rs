//! Queries: field filters over documents, with an order and a limit.
//!
//! A [`Query`] is a conjunction of [`Filter`]s on top-level fields. Ordering and limiting come
//! after filtering.

use crate::json::{fields, json_eq, Document, Fields, Json, Value};
use crate::number::{equal_numbers_compare_equal, number_order};
use crate::sort::{
    rows, sort_by_field, sorted, sorted_is_a_sorting, sorting_keeps_rows, Row,
};
use crate::text::{compare_text, contains_text, occurs_in, text_order, Order};
use vstd::prelude::*;

verus! {

/// A comparison operator on a single field.
#[derive(Clone, Copy, Debug, PartialEq, Eq, Structural)]
pub enum Op {
    /// The field equals the value.
    Eq,
    /// The field does not equal the value.
    Ne,
    /// The field is greater than the value.
    Gt,
    /// The field is greater than the value or compares equal to it.
    Ge,
    /// The field is less than the value.
    Lt,
    /// The field is less than the value or compares equal to it.
    Le,
    /// The field is an array with the value in it, or a string with the value as a substring.
    Contains,
}

/// One field predicate.
#[derive(Debug, PartialEq, Eq)]
pub struct Filter {
    /// The name of the top-level field.
    pub field: String,
    /// The operator.
    pub op: Op,
    /// The value on the right-hand side.
    pub value: Value,
}

/// A sort direction.
#[derive(Clone, Copy, Debug, PartialEq, Eq, Structural)]
pub enum Dir {
    /// Ascending.
    Asc,
    /// Descending.
    Desc,
}

/// A conjunctive query.
#[derive(Debug)]
pub struct Query {
    /// The predicates, all of which must hold. None of them: every document matches.
    pub filters: Vec<Filter>,
    /// The field to order by. Documents without the field come last in ascending order and first
    /// in descending order.
    pub order_by: Option<(String, Dir)>,
    /// The largest number of documents to return.
    pub limit: Option<usize>,
}

/// The mathematical model of [`Filter`].
pub struct Condition {
    /// The name of the field.
    pub field: Seq<char>,
    /// The operator.
    pub op: Op,
    /// The value on the right-hand side.
    pub value: Json,
}

/// The mathematical model of [`Query`].
pub struct Request {
    /// The predicates.
    pub filters: Seq<Condition>,
    /// The field to order by.
    pub order_by: Option<(Seq<char>, Dir)>,
    /// The largest number of documents to return.
    pub limit: Option<usize>,
}

impl View for Filter {
    type V = Condition;

    open spec fn view(&self) -> Condition {
        Condition { field: self.field@, op: self.op, value: self.value@ }
    }
}

impl View for Query {
    type V = Request;

    open spec fn view(&self) -> Request {
        Request {
            filters: self.filters@.map_values(|f: Filter| f@),
            order_by: match self.order_by {
                Some((field, dir)) => Some((field@, dir)),
                None => None,
            },
            limit: self.limit,
        }
    }
}

/// How two values compare. Numbers compare numerically, strings lexically, `false` before `true`;
/// `null` equals `null`. Values of different types, arrays and objects do not compare.
pub open spec fn json_order(a: Json, b: Json) -> Option<Order> {
    match (a, b) {
        (Json::Number(x), Json::Number(y)) => Some(number_order(x, y)),
        (Json::String(x), Json::String(y)) => Some(text_order(x, y)),
        (Json::Bool(x), Json::Bool(y)) => Some(
            if x == y {
                Order::Equal
            } else if y {
                Order::Less
            } else {
                Order::Greater
            },
        ),
        (Json::Null, Json::Null) => Some(Order::Equal),
        _ => None,
    }
}

/// An array contains its items, and a string its substrings.
pub open spec fn json_contains(haystack: Json, needle: Json) -> bool {
    match haystack {
        Json::Array(items) => exists|i: int|
            0 <= i < items.len() && json_eq(#[trigger] items[i], needle),
        Json::String(s) => needle is String && occurs_in(needle->String_0, s),
        _ => false,
    }
}

/// Does the predicate hold of a field? `None` is a field that the document does not have.
pub open spec fn compares(field: Option<Json>, op: Op, value: Json) -> bool {
    match field {
        None => op == Op::Ne,
        Some(v) => match op {
            Op::Eq => json_eq(v, value),
            Op::Ne => !json_eq(v, value),
            Op::Contains => json_contains(v, value),
            Op::Gt => json_order(v, value) == Some(Order::Greater),
            Op::Ge => json_order(v, value) == Some(Order::Greater) || json_order(v, value) == Some(
                Order::Equal,
            ),
            Op::Lt => json_order(v, value) == Some(Order::Less),
            Op::Le => json_order(v, value) == Some(Order::Less) || json_order(v, value) == Some(
                Order::Equal,
            ),
        },
    }
}

impl Condition {
    /// Does the predicate hold of a document?
    pub open spec fn holds(self, doc: Fields) -> bool {
        compares(doc.get(self.field), self.op, self.value)
    }
}

/// Compares two values.
pub fn order(a: &Value, b: &Value) -> (r: Option<Order>)
    ensures
        r == json_order(a@, b@),
{
    match (a, b) {
        (Value::Number(x), Value::Number(y)) => Some(x.compare(*y)),
        (Value::String(x), Value::String(y)) => Some(compare_text(x, y)),
        (Value::Bool(x), Value::Bool(y)) => Some(
            if *x == *y {
                Order::Equal
            } else if *y {
                Order::Less
            } else {
                Order::Greater
            },
        ),
        (Value::Null, Value::Null) => Some(Order::Equal),
        _ => None,
    }
}

/// Does an array contain a value, or a string a substring?
pub fn contains(haystack: &Value, needle: &Value) -> (r: bool)
    ensures
        r == json_contains(haystack@, needle@),
{
    match haystack {
        Value::Array(items) => {
            let mut i: usize = 0;
            while i < items.len()
                invariant
                    haystack matches Value::Array(v) && v == items,
                    i <= items.len(),
                    forall|j: int| 0 <= j < i ==> !json_eq((#[trigger] items@[j])@, needle@),
                decreases items.len() - i,
            {
                if items[i].equals(needle) {
                    assert(json_eq(haystack@->Array_0[i as int], needle@));
                    return true;
                }
                i = i + 1;
            }
            false
        },
        Value::String(s) => match needle {
            Value::String(n) => contains_text(s, n),
            _ => false,
        },
        _ => false,
    }
}

impl Filter {
    /// The predicate that a field equals a value.
    pub fn eq(field: &str, value: Value) -> (r: Filter)
        ensures
            r@ == (Condition { field: field@, op: Op::Eq, value: value@ }),
    {
        Filter { field: field.to_owned(), op: Op::Eq, value }
    }

    /// Does the predicate hold of a document? Of a document without the field only [`Op::Ne`]
    /// holds.
    pub fn matches(&self, doc: &Document) -> (r: bool)
        ensures
            r == self@.holds(fields(*doc)),
    {
        let found = doc.get(&self.field);
        match (self.op, found) {
            (Op::Eq, Some(v)) => v.equals(&self.value),
            (Op::Eq, None) => false,
            (Op::Ne, Some(v)) => !v.equals(&self.value),
            (Op::Ne, None) => true,
            (Op::Contains, Some(v)) => contains(v, &self.value),
            (Op::Contains, None) => false,
            (op, Some(v)) => match order(v, &self.value) {
                Some(Order::Less) => op == Op::Lt || op == Op::Le,
                Some(Order::Equal) => op == Op::Ge || op == Op::Le,
                Some(Order::Greater) => op == Op::Gt || op == Op::Ge,
                None => false,
            },
            (_, None) => false,
        }
    }
}

impl Clone for Filter {
    fn clone(&self) -> (r: Filter)
        ensures
            r@ == self@,
    {
        Filter { field: self.field.clone(), op: self.op, value: self.value.clone() }
    }
}

impl Clone for Query {
    fn clone(&self) -> (r: Query)
        ensures
            r@ == self@,
    {
        let mut filters: Vec<Filter> = Vec::new();
        let mut i: usize = 0;
        while i < self.filters.len()
            invariant
                i <= self.filters.len(),
                filters@.len() == i,
                forall|j: int| 0 <= j < i ==> (#[trigger] filters@[j])@ == self.filters@[j]@,
            decreases self.filters.len() - i,
        {
            filters.push(self.filters[i].clone());
            i = i + 1;
        }
        let order_by: Option<(String, Dir)> = match &self.order_by {
            Some((field, dir)) => Some((field.clone(), *dir)),
            None => None,
        };
        let r = Query { filters, order_by, limit: self.limit };
        assert(r@.filters =~= self@.filters);
        r
    }
}

impl Request {
    /// Do all filters hold of a document?
    pub open spec fn accepts(self, doc: Fields) -> bool {
        forall|i: int| 0 <= i < self.filters.len() ==> (#[trigger] self.filters[i]).holds(doc)
    }

    /// The documents that match, in the order in which they were given.
    pub open spec fn matching(self, from: Seq<Row>) -> Seq<Row> {
        from.filter(|row: Row| self.accepts(row.1))
    }

    /// As many of some documents as the limit allows, from the first on.
    pub open spec fn limited(self, found: Seq<Row>) -> Seq<Row> {
        match self.limit {
            Some(n) => if n < found.len() {
                found.take(n as int)
            } else {
                found
            },
            None => found,
        }
    }

    /// The documents that match, sorted where an order is asked for.
    pub open spec fn ordered(self, from: Seq<Row>) -> Seq<Row> {
        match self.order_by {
            None => self.matching(from),
            Some((field, dir)) => sorted(field, dir, self.matching(from)),
        }
    }

    /// The answer to the query on some documents: those that match, sorted where an order is
    /// asked for, and cut off at the limit.
    pub open spec fn answer(self, from: Seq<Row>) -> Seq<Row> {
        self.limited(self.ordered(from))
    }
}

/// The query that every document matches.
pub open spec fn everything() -> Request {
    Request { filters: Seq::empty(), order_by: None, limit: None }
}

impl Default for Query {
    /// The query that every document matches.
    fn default() -> (r: Query)
        ensures
            r@ == everything(),
    {
        let r = Query { filters: Vec::new(), order_by: None, limit: None };
        assert(r@.filters =~= Seq::<Condition>::empty());
        r
    }
}

impl Query {
    /// The query that every document matches.
    pub fn new() -> (r: Query)
        ensures
            r@ == everything(),
    {
        Query::default()
    }

    /// Adds a filter.
    pub fn with(self, filter: Filter) -> (r: Query)
        ensures
            r@ == (Request { filters: self@.filters.push(filter@), ..self@ }),
    {
        let mut query: Query = self;
        query.filters.push(filter);
        assert(query@.filters =~= self@.filters.push(filter@));
        query
    }

    /// Sets the order.
    pub fn order(self, field: &str, dir: Dir) -> (r: Query)
        ensures
            r@ == (Request { order_by: Some((field@, dir)), ..self@ }),
    {
        let mut query: Query = self;
        query.order_by = Some((field.to_owned(), dir));
        query
    }

    /// Sets the limit.
    pub fn take(self, n: usize) -> (r: Query)
        ensures
            r@ == (Request { limit: Some(n), ..self@ }),
    {
        let mut query: Query = self;
        query.limit = Some(n);
        query
    }

    /// Does a document satisfy every filter?
    pub fn matches(&self, doc: &Document) -> (r: bool)
        ensures
            r == self@.accepts(fields(*doc)),
    {
        let mut i: usize = 0;
        while i < self.filters.len()
            invariant
                i <= self.filters.len(),
                forall|j: int|
                    0 <= j < i ==> (#[trigger] self@.filters[j]).holds(fields(*doc)),
            decreases self.filters.len() - i,
        {
            assert(self@.filters[i as int] == self.filters@[i as int]@);
            if !self.filters[i].matches(doc) {
                return false;
            }
            i = i + 1;
        }
        true
    }

    /// Runs the query over documents with their ids: filters them, sorts them, cuts them off at
    /// the limit.
    pub fn run(&self, docs: Vec<(String, Document)>) -> (r: Vec<(String, Document)>)
        ensures
            rows(r@) == self@.answer(rows(docs@)),
    {
        let ghost from = rows(docs@);
        let ghost given = docs@;
        let ghost accepted = |row: Row| self@.accepts(row.1);
        let mut out: Vec<(String, Document)> = Vec::new();
        proof {
            reveal(Seq::filter);
            assert(from.take(0) =~= Seq::<Row>::empty());
            assert(rows(out@) =~= Seq::<Row>::empty());
        }
        for entry in it: docs
            invariant
                it.seq() == given,
                from == rows(given),
                accepted == (|row: Row| self@.accepts(row.1)),
                rows(out@) == from.take(it.index()).filter(accepted),
        {
            let ghost at = it.index();
            let ghost so_far = out@;
            let ghost row = from[at];
            proof {
                assert(row == (entry.0@, fields(entry.1)));
                assert(from.take(at + 1) =~= from.take(at).push(row));
                from.take(at).lemma_filter_push(row, accepted);
            }
            if self.matches(&entry.1) {
                out.push(entry);
                assert(rows(out@) =~= rows(so_far).push(row));
            }
        }
        assert(from.take(from.len() as int) =~= from);
        assert(rows(out@) == self@.matching(from));
        if let Some((field, dir)) = &self.order_by {
            out = sort_by_field(out, field, *dir);
        }
        let ghost found = rows(out@);
        assert(found == self@.ordered(from));
        if let Some(n) = self.limit {
            out.truncate(n);
            assert(rows(out@) =~= self@.limited(found));
        }
        out
    }
}

/// Of a field that is not there only "not equal" holds.
pub proof fn missing_field_is_only_unequal(op: Op, value: Json)
    ensures
        compares(None, op, value) == (op == Op::Ne),
{
}

/// "Equal" and "not equal" are opposites, also of a field that is not there.
pub proof fn equal_and_unequal_are_opposites(field: Option<Json>, value: Json)
    ensures
        compares(field, Op::Ne, value) == !compares(field, Op::Eq, value),
{
}

/// Of values that compare exactly one of "less", "greater" and "both at most and at least" holds,
/// and the weak comparisons are the opposites of the strict ones. Of values that do not compare
/// none holds.
pub proof fn comparisons_agree(v: Json, value: Json)
    ensures
        json_order(v, value) is Some ==> {
            &&& compares(Some(v), Op::Le, value) == !compares(Some(v), Op::Gt, value)
            &&& compares(Some(v), Op::Ge, value) == !compares(Some(v), Op::Lt, value)
            &&& !(compares(Some(v), Op::Lt, value) && compares(Some(v), Op::Gt, value))
        },
        json_order(v, value) is None ==> {
            &&& !compares(Some(v), Op::Lt, value)
            &&& !compares(Some(v), Op::Le, value)
            &&& !compares(Some(v), Op::Gt, value)
            &&& !compares(Some(v), Op::Ge, value)
        },
{
}

/// Filters are conjoined: a query with one more filter accepts what the query and the filter
/// accept.
pub proof fn filters_are_conjoined(query: Request, filter: Condition, doc: Fields)
    ensures
        (Request { filters: query.filters.push(filter), ..query }).accepts(doc) == (query.accepts(
            doc,
        ) && filter.holds(doc)),
{
    let more = Request { filters: query.filters.push(filter), ..query };
    if more.accepts(doc) {
        assert(more.filters[query.filters.len() as int] == filter);
        assert forall|i: int| 0 <= i < query.filters.len() implies (
        #[trigger] query.filters[i]).holds(doc) by {
            assert(more.filters[i] == query.filters[i]);
        }
    }
}

/// A query without filters, order and limit returns every document as it was given.
pub proof fn empty_query_returns_everything(from: Seq<Row>)
    ensures
        everything().answer(from) == from,
{
    let accepted = |row: Row| everything().accepts(row.1);
    everything_passes(from, accepted);
}

/// A filter that lets everything through changes nothing.
proof fn everything_passes(from: Seq<Row>, accepted: spec_fn(Row) -> bool)
    requires
        forall|row: Row| #[trigger] accepted(row),
    ensures
        from.filter(accepted) == from,
    decreases from.len(),
{
    reveal(Seq::filter);
    if from.len() > 0 {
        everything_passes(from.drop_last(), accepted);
        assert(from =~= from.drop_last().push(from.last()));
    }
}

/// The limit cuts off after filtering and sorting: the answer with a limit is the beginning of
/// the answer without one, as long as the limit allows.
pub proof fn limit_takes_a_prefix(query: Request, from: Seq<Row>, n: usize)
    ensures
        ({
            let all = (Request { limit: None, ..query }).answer(from);
            let some = (Request { limit: Some(n), ..query }).answer(from);
            some == all.take(
                if n < all.len() {
                    n as int
                } else {
                    all.len() as int
                },
            )
        }),
{
    let without = Request { limit: None, ..query };
    let with = Request { limit: Some(n), ..query };
    assert(without.matching(from) =~= query.matching(from)) by {
        same_filters_match_alike(without, query, from);
    }
    assert(with.matching(from) =~= query.matching(from)) by {
        same_filters_match_alike(with, query, from);
    }
    let all = query.ordered(from);
    assert(all.take(all.len() as int) =~= all);
}

/// Queries with the same filters match the same documents.
proof fn same_filters_match_alike(a: Request, b: Request, from: Seq<Row>)
    requires
        a.filters == b.filters,
    ensures
        a.matching(from) == b.matching(from),
{
    let x = |row: Row| a.accepts(row.1);
    let y = |row: Row| b.accepts(row.1);
    assert(x =~= y);
}

/// An answer holds documents that were given and that match, at most as many as the limit, and
/// all that match where there are no more than the limit allows.
pub proof fn answer_is_what_matches(query: Request, from: Seq<Row>)
    ensures
        forall|i: int|
            0 <= i < query.answer(from).len() ==> from.contains(#[trigger] query.answer(from)[i])
                && query.accepts(query.answer(from)[i].1),
        query.answer(from).len() == match query.limit {
            Some(n) => if n < query.matching(from).len() {
                n as nat
            } else {
                query.matching(from).len()
            },
            None => query.matching(from).len(),
        },
        query.answer(from).len() == query.matching(from).len() ==> forall|row: Row|
            from.contains(row) && query.accepts(row.1) ==> #[trigger] query.answer(from).contains(
                row,
            ),
{
    let accepted = |row: Row| query.accepts(row.1);
    let found = query.matching(from);
    let all = query.ordered(from);
    let to = query.answer(from);
    if let Some((field, dir)) = query.order_by {
        sorted_is_a_sorting(field, dir, found);
        sorting_keeps_rows(field, dir, found, all);
    }
    assert forall|i: int| 0 <= i < to.len() implies from.contains(#[trigger] to[i])
        && query.accepts(to[i].1) by {
        assert(to[i] == all[i]);
        assert(all.contains(all[i]));
        assert(found.contains(all[i]));
        let j = choose|j: int| 0 <= j < found.len() && found[j] == all[i];
        from.lemma_filter_pred(accepted, j);
        from.lemma_filter_contains_rev(accepted, found[j]);
    }
    if to.len() == found.len() {
        assert(to =~= all);
        assert forall|row: Row|
            from.contains(row) && query.accepts(row.1) implies #[trigger] to.contains(row) by {
            let i = choose|i: int| 0 <= i < from.len() && from[i] == row;
            from.lemma_filter_contains(accepted, i);
            assert(found.contains(row));
        }
    }
}

/// Values that are equal and that compare compare equal.
pub proof fn equal_values_compare_equal(a: Json, b: Json)
    requires
        json_eq(a, b),
        json_order(a, b) is Some,
    ensures
        json_order(a, b) == Some(Order::Equal),
{
    match (a, b) {
        (Json::Number(x), Json::Number(y)) => {
            equal_numbers_compare_equal(x, y);
        },
        _ => {},
    }
}

} // verus!
