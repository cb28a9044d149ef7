//! Sorting documents by a field, keeping the order of documents that compare equal.

use crate::json::{fields, Document, Fields, Json};
use crate::query::{json_order, order, Dir};
use crate::text::{
    text_lt, text_lt_asymmetric, text_lt_total, text_lt_transitive, text_order, Order,
};
use vstd::prelude::*;

verus! {

/// A document with its id.
pub type Row = (Seq<char>, Fields);

/// What some documents with their ids are.
pub open spec fn rows(docs: Seq<(String, Document)>) -> Seq<Row> {
    docs.map_values(|d: (String, Document)| (d.0@, fields(d.1)))
}

/// How two fields compare in ascending order. Values that do not compare count as equal, and a
/// field that is not there comes after one that is.
pub open spec fn field_order(a: Option<Json>, b: Option<Json>) -> Order {
    match (a, b) {
        (Some(x), Some(y)) => match json_order(x, y) {
            Some(order) => order,
            None => Order::Equal,
        },
        (Some(_), None) => Order::Less,
        (None, Some(_)) => Order::Greater,
        (None, None) => Order::Equal,
    }
}

/// How two documents compare by a field.
pub open spec fn row_order(field: Seq<char>, dir: Dir, a: Row, b: Row) -> Order {
    let ascending = field_order(a.1.get(field), b.1.get(field));
    match dir {
        Dir::Asc => ascending,
        Dir::Desc => ascending.flipped(),
    }
}

/// `a` does not come after `b`.
pub open spec fn row_le(field: Seq<char>, dir: Dir, a: Row, b: Row) -> bool {
    row_order(field, dir, a, b) != Order::Greater
}

/// The comparison by the field orders the documents: it is transitive on them. It is not where
/// values of different types meet, which count as equal though other values tell them apart.
pub open spec fn is_orderable(field: Seq<char>, dir: Dir, from: Seq<Row>) -> bool {
    forall|i: int, j: int, k: int|
        #![trigger from[i], from[j], from[k]]
        0 <= i < from.len() && 0 <= j < from.len() && 0 <= k < from.len() && row_le(
            field,
            dir,
            from[i],
            from[j],
        ) && row_le(field, dir, from[j], from[k]) ==> row_le(field, dir, from[i], from[k])
}

/// `to` holds the documents of `from`, each once: the `i`th is the one that stood at `places[i]`.
pub open spec fn is_arrangement(from: Seq<Row>, to: Seq<Row>, places: Seq<int>) -> bool {
    &&& places.len() == from.len()
    &&& to.len() == from.len()
    &&& places.no_duplicates()
    &&& forall|i: int| 0 <= i < places.len() ==> 0 <= #[trigger] places[i] < from.len()
    &&& forall|i: int| 0 <= i < to.len() ==> #[trigger] to[i] == from[places[i]]
}

/// The document at `x` belongs before the one at `y`: it compares less, or equal and stands
/// earlier.
pub open spec fn comes_first(field: Seq<char>, dir: Dir, from: Seq<Row>, x: int, y: int) -> bool {
    match row_order(field, dir, from[x], from[y]) {
        Order::Less => true,
        Order::Equal => x < y,
        Order::Greater => false,
    }
}

/// The places are in sorted order.
pub open spec fn in_sorted_order(
    field: Seq<char>,
    dir: Dir,
    from: Seq<Row>,
    places: Seq<int>,
) -> bool {
    forall|i: int, j: int|
        0 <= i < j < places.len() ==> comes_first(
            field,
            dir,
            from,
            #[trigger] places[i],
            #[trigger] places[j],
        )
}

/// Documents without the field stand at one end: last in ascending order, first in descending
/// order.
pub open spec fn missing_at_end(field: Seq<char>, dir: Dir, to: Seq<Row>) -> bool {
    forall|i: int, j: int|
        0 <= i < j < to.len() ==> match dir {
            Dir::Asc => (#[trigger] to[i]).1.contains_key(field) || !(
            #[trigger] to[j]).1.contains_key(field),
            Dir::Desc => !to[i].1.contains_key(field) || to[j].1.contains_key(field),
        }
}

/// `to` is `from`, sorted by the field: an arrangement of it with the documents without the field
/// at their end, and where the field orders the documents, the sorted one that keeps documents in
/// place that compare equal.
pub open spec fn is_sorting(field: Seq<char>, dir: Dir, from: Seq<Row>, to: Seq<Row>) -> bool {
    &&& missing_at_end(field, dir, to)
    &&& exists|places: Seq<int>| #[trigger]
        is_arrangement(from, to, places) && (is_orderable(field, dir, from) ==> in_sorted_order(
            field,
            dir,
            from,
            places,
        ))
}

/// The documents at some places.
pub open spec fn picked(from: Seq<Row>, places: Seq<int>) -> Seq<Row> {
    places.map_values(|x: int| from[x])
}

/// Two lists of places merged: of the two first places always the one whose document does not
/// come after the other, and that of the first list where neither does.
pub open spec fn merged_places(
    field: Seq<char>,
    dir: Dir,
    from: Seq<Row>,
    a: Seq<int>,
    b: Seq<int>,
) -> Seq<int>
    decreases a.len() + b.len(),
{
    if a.len() == 0 {
        b
    } else if b.len() == 0 {
        a
    } else if row_le(field, dir, from[a[0]], from[b[0]]) {
        seq![a[0]] + merged_places(field, dir, from, a.drop_first(), b)
    } else {
        seq![b[0]] + merged_places(field, dir, from, a, b.drop_first())
    }
}

/// The places from `low` up to `high`, sorted: those of each half, merged.
pub open spec fn sorted_places(
    field: Seq<char>,
    dir: Dir,
    from: Seq<Row>,
    low: int,
    high: int,
) -> Seq<int>
    decreases high - low,
{
    if high <= low {
        Seq::empty()
    } else if high - low == 1 {
        seq![low]
    } else {
        let middle = low + (high - low) / 2;
        merged_places(
            field,
            dir,
            from,
            sorted_places(field, dir, from, low, middle),
            sorted_places(field, dir, from, middle, high),
        )
    }
}

/// The documents, sorted by the field. Where values of different types meet, which the field does
/// not order, this still is one arrangement, the same for everyone who sorts the same documents.
pub open spec fn sorted(field: Seq<char>, dir: Dir, from: Seq<Row>) -> Seq<Row> {
    picked(from, sorted_places(field, dir, from, 0, from.len() as int))
}

/// Exchanging the two values flips the comparison.
pub proof fn json_order_flips(a: Json, b: Json)
    ensures
        json_order(b, a) == match json_order(a, b) {
            Some(order) => Some(order.flipped()),
            None => None,
        },
{
    match (a, b) {
        (Json::String(x), Json::String(y)) => {
            if x != y {
                text_lt_total(x, y);
                if text_lt(x, y) {
                    text_lt_asymmetric(x, y);
                }
            }
        },
        _ => {},
    }
}

/// Exchanging the two documents flips the comparison.
proof fn row_order_flips(field: Seq<char>, dir: Dir, a: Row, b: Row)
    ensures
        row_order(field, dir, b, a) == row_order(field, dir, a, b).flipped(),
{
    match (a.1.get(field), b.1.get(field)) {
        (Some(x), Some(y)) => {
            json_order_flips(x, y);
        },
        _ => {},
    }
}

/// Exchanging two documents flips how they compare.
pub proof fn exchanging_rows_flips(field: Seq<char>, dir: Dir, a: Row, b: Row)
    ensures
        row_order(field, dir, b, a) == row_order(field, dir, a, b).flipped(),
{
    row_order_flips(field, dir, a, b);
}

/// Where the field orders the documents, the order of places is transitive.
proof fn comes_first_transitive(
    field: Seq<char>,
    dir: Dir,
    from: Seq<Row>,
    x: int,
    y: int,
    z: int,
)
    requires
        is_orderable(field, dir, from),
        0 <= x < from.len(),
        0 <= y < from.len(),
        0 <= z < from.len(),
        comes_first(field, dir, from, x, y),
        comes_first(field, dir, from, y, z),
    ensures
        comes_first(field, dir, from, x, z),
{
    row_order_flips(field, dir, from[x], from[y]);
    row_order_flips(field, dir, from[y], from[z]);
    row_order_flips(field, dir, from[x], from[z]);
    assert(row_le(field, dir, from[x], from[z]));
    if row_order(field, dir, from[x], from[z]) == Order::Equal {
        assert(row_le(field, dir, from[z], from[x]));
        assert(row_le(field, dir, from[y], from[x]));
        assert(row_le(field, dir, from[z], from[y]));
    }
}

/// Compares two documents by a field.
fn compare_rows(field: &str, dir: Dir, a: &Document, b: &Document) -> (r: Order)
    ensures
        forall|x: Seq<char>, y: Seq<char>| #[trigger]
            row_order(field@, dir, (x, fields(*a)), (y, fields(*b))) == r,
{
    let ascending: Order = match (a.get(field), b.get(field)) {
        (Some(x), Some(y)) => match order(x, y) {
            Some(order) => order,
            None => Order::Equal,
        },
        (Some(_), None) => Order::Less,
        (None, Some(_)) => Order::Greater,
        (None, None) => Order::Equal,
    };
    match dir {
        Dir::Asc => ascending,
        Dir::Desc => ascending.reverse(),
    }
}

/// The places as integers.
spec fn as_ints(places: Seq<usize>) -> Seq<int> {
    places.map_values(|p: usize| p as int)
}

/// The places lie in a range and none occurs twice; their documents are sorted where the field
/// orders them, and those without the field stand at their end.
spec fn are_sorted(
    field: Seq<char>,
    dir: Dir,
    from: Seq<Row>,
    low: int,
    high: int,
    places: Seq<int>,
) -> bool {
    &&& places.no_duplicates()
    &&& forall|i: int| 0 <= i < places.len() ==> low <= #[trigger] places[i] < high
    &&& is_orderable(field, dir, from) ==> in_sorted_order(field, dir, from, places)
    &&& missing_at_end(field, dir, picked(from, places))
}

/// What stands after the first of sorted places is sorted too.
proof fn rest_is_sorted(
    field: Seq<char>,
    dir: Dir,
    from: Seq<Row>,
    low: int,
    high: int,
    places: Seq<int>,
)
    requires
        are_sorted(field, dir, from, low, high, places),
        places.len() > 0,
    ensures
        are_sorted(field, dir, from, low, high, places.drop_first()),
        !places.drop_first().contains(places[0]),
{
    let rest = places.drop_first();
    assert forall|i: int, j: int|
        0 <= i < rest.len() && 0 <= j < rest.len() && i != j implies rest[i] != rest[j] by {
        assert(rest[i] == places[i + 1] && rest[j] == places[j + 1]);
    }
    assert forall|i: int| 0 <= i < rest.len() implies low <= #[trigger] rest[i] < high by {
        assert(rest[i] == places[i + 1]);
    }
    if is_orderable(field, dir, from) {
        assert forall|i: int, j: int| 0 <= i < j < rest.len() implies comes_first(
            field,
            dir,
            from,
            #[trigger] rest[i],
            #[trigger] rest[j],
        ) by {
            assert(rest[i] == places[i + 1] && rest[j] == places[j + 1]);
        }
    }
    let shown = picked(from, places);
    let left = picked(from, rest);
    assert forall|i: int, j: int| 0 <= i < j < left.len() implies match dir {
        Dir::Asc => (#[trigger] left[i]).1.contains_key(field) || !(
        #[trigger] left[j]).1.contains_key(field),
        Dir::Desc => !left[i].1.contains_key(field) || left[j].1.contains_key(field),
    } by {
        assert(left[i] == shown[i + 1] && left[j] == shown[j + 1]);
    }
}

/// A sorted list may start with `x` where `y` stands after it.
spec fn may_precede(field: Seq<char>, dir: Dir, from: Seq<Row>, x: int, y: int) -> bool {
    &&& x != y
    &&& is_orderable(field, dir, from) ==> comes_first(field, dir, from, x, y)
    &&& match dir {
        Dir::Asc => from[x].1.contains_key(field) || !from[y].1.contains_key(field),
        Dir::Desc => !from[x].1.contains_key(field) || from[y].1.contains_key(field),
    }
}

/// A place before sorted places that it may precede makes sorted places.
proof fn first_joins(
    field: Seq<char>,
    dir: Dir,
    from: Seq<Row>,
    low: int,
    high: int,
    head: int,
    rest: Seq<int>,
)
    requires
        are_sorted(field, dir, from, low, high, rest),
        low <= head < high,
        forall|j: int|
            0 <= j < rest.len() ==> may_precede(field, dir, from, head, #[trigger] rest[j]),
    ensures
        are_sorted(field, dir, from, low, high, seq![head] + rest),
{
    let all = seq![head] + rest;
    assert forall|i: int| 0 < i < all.len() implies #[trigger] all[i] == rest[i - 1] by {}
    assert forall|i: int, j: int|
        0 <= i < all.len() && 0 <= j < all.len() && i != j implies all[i] != all[j] by {
        if i == 0 {
            assert(may_precede(field, dir, from, head, rest[j - 1]));
        } else if j == 0 {
            assert(may_precede(field, dir, from, head, rest[i - 1]));
        }
    }
    if is_orderable(field, dir, from) {
        assert forall|i: int, j: int| 0 <= i < j < all.len() implies comes_first(
            field,
            dir,
            from,
            #[trigger] all[i],
            #[trigger] all[j],
        ) by {
            assert(may_precede(field, dir, from, head, rest[j - 1]));
        }
    }
    let shown = picked(from, all);
    let left = picked(from, rest);
    assert forall|i: int, j: int| 0 <= i < j < shown.len() implies match dir {
        Dir::Asc => (#[trigger] shown[i]).1.contains_key(field) || !(
        #[trigger] shown[j]).1.contains_key(field),
        Dir::Desc => !shown[i].1.contains_key(field) || shown[j].1.contains_key(field),
    } by {
        assert(shown[j] == left[j - 1]);
        if i > 0 {
            assert(shown[i] == left[i - 1]);
        } else {
            assert(may_precede(field, dir, from, head, rest[j - 1]));
        }
    }
}

/// Merging keeps the places.
proof fn merging_keeps_places(
    field: Seq<char>,
    dir: Dir,
    from: Seq<Row>,
    a: Seq<int>,
    b: Seq<int>,
)
    ensures
        merged_places(field, dir, from, a, b).len() == a.len() + b.len(),
        forall|i: int|
            0 <= i < merged_places(field, dir, from, a, b).len() ==> a.contains(
                #[trigger] merged_places(field, dir, from, a, b)[i],
            ) || b.contains(merged_places(field, dir, from, a, b)[i]),
    decreases a.len() + b.len(),
{
    let all = merged_places(field, dir, from, a, b);
    if a.len() > 0 && b.len() > 0 {
        let from_a = row_le(field, dir, from[a[0]], from[b[0]]);
        let (x, y) = if from_a {
            (a.drop_first(), b)
        } else {
            (a, b.drop_first())
        };
        merging_keeps_places(field, dir, from, x, y);
        let rest = merged_places(field, dir, from, x, y);
        assert forall|i: int| 0 <= i < all.len() implies a.contains(#[trigger] all[i])
            || b.contains(all[i]) by {
            if i > 0 {
                let z = rest[i - 1];
                assert(all[i] == z);
                if x.contains(z) {
                    let k = choose|k: int| 0 <= k < x.len() && x[k] == z;
                    assert(a[if from_a {
                        k + 1
                    } else {
                        k
                    }] == z);
                } else {
                    let k = choose|k: int| 0 <= k < y.len() && y[k] == z;
                    assert(b[if from_a {
                        k
                    } else {
                        k + 1
                    }] == z);
                }
            }
        }
    }
}

/// The first of sorted places may precede the others.
proof fn first_precedes(
    field: Seq<char>,
    dir: Dir,
    from: Seq<Row>,
    low: int,
    high: int,
    places: Seq<int>,
    k: int,
)
    requires
        are_sorted(field, dir, from, low, high, places),
        0 < k < places.len(),
    ensures
        may_precede(field, dir, from, places[0], places[k]),
{
    let shown = picked(from, places);
    assert(shown[0] == from[places[0]] && shown[k] == from[places[k]]);
    assert(places[0] != places[k]);
}

/// What may precede a place may precede what that place may precede.
proof fn may_precede_transitive(
    field: Seq<char>,
    dir: Dir,
    from: Seq<Row>,
    x: int,
    y: int,
    z: int,
)
    requires
        0 <= x < from.len(),
        0 <= y < from.len(),
        0 <= z < from.len(),
        x != z,
        may_precede(field, dir, from, x, y),
        may_precede(field, dir, from, y, z),
    ensures
        may_precede(field, dir, from, x, z),
{
    if is_orderable(field, dir, from) {
        comes_first_transitive(field, dir, from, x, y, z);
    }
}

/// Merging the sorted places of two adjoining ranges sorts them all.
proof fn merging_sorts(
    field: Seq<char>,
    dir: Dir,
    from: Seq<Row>,
    low: int,
    middle: int,
    high: int,
    a: Seq<int>,
    b: Seq<int>,
)
    requires
        0 <= low <= middle <= high <= from.len(),
        are_sorted(field, dir, from, low, middle, a),
        are_sorted(field, dir, from, middle, high, b),
    ensures
        are_sorted(field, dir, from, low, high, merged_places(field, dir, from, a, b)),
    decreases a.len() + b.len(),
{
    if a.len() > 0 && b.len() > 0 {
        let (p, q) = (a[0], b[0]);
        row_order_flips(field, dir, from[p], from[q]);
        if row_le(field, dir, from[p], from[q]) {
            let x = a.drop_first();
            rest_is_sorted(field, dir, from, low, middle, a);
            merging_sorts(field, dir, from, low, middle, high, x, b);
            let rest = merged_places(field, dir, from, x, b);
            assert(may_precede(field, dir, from, p, q));
            merging_keeps_places(field, dir, from, x, b);
            assert forall|j: int| 0 <= j < rest.len() implies may_precede(
                field,
                dir,
                from,
                p,
                #[trigger] rest[j],
            ) by {
                let z = rest[j];
                if x.contains(z) {
                    let k = choose|k: int| 0 <= k < x.len() && x[k] == z;
                    first_precedes(field, dir, from, low, middle, a, k + 1);
                } else {
                    let k = choose|k: int| 0 <= k < b.len() && b[k] == z;
                    if k > 0 {
                        first_precedes(field, dir, from, middle, high, b, k);
                        assert(p < middle && middle <= b[k]);
                        may_precede_transitive(field, dir, from, p, q, z);
                    }
                }
            }
            first_joins(field, dir, from, low, high, p, rest);
        } else {
            let y = b.drop_first();
            rest_is_sorted(field, dir, from, middle, high, b);
            merging_sorts(field, dir, from, low, middle, high, a, y);
            let rest = merged_places(field, dir, from, a, y);
            assert(may_precede(field, dir, from, q, p));
            merging_keeps_places(field, dir, from, a, y);
            assert forall|j: int| 0 <= j < rest.len() implies may_precede(
                field,
                dir,
                from,
                q,
                #[trigger] rest[j],
            ) by {
                let z = rest[j];
                if y.contains(z) {
                    let k = choose|k: int| 0 <= k < y.len() && y[k] == z;
                    first_precedes(field, dir, from, middle, high, b, k + 1);
                } else {
                    let k = choose|k: int| 0 <= k < a.len() && a[k] == z;
                    if k > 0 {
                        first_precedes(field, dir, from, low, middle, a, k);
                        assert(a[k] < middle && middle <= q);
                        may_precede_transitive(field, dir, from, q, p, z);
                    }
                }
            }
            first_joins(field, dir, from, low, high, q, rest);
        }
    }
}

/// The sorted places of a range are those of the range, each once, and sorted.
proof fn sorted_places_are_sorted(
    field: Seq<char>,
    dir: Dir,
    from: Seq<Row>,
    low: int,
    high: int,
)
    requires
        0 <= low <= high <= from.len(),
    ensures
        are_sorted(field, dir, from, low, high, sorted_places(field, dir, from, low, high)),
        sorted_places(field, dir, from, low, high).len() == high - low,
    decreases high - low,
{
    if high - low > 1 {
        let middle = low + (high - low) / 2;
        sorted_places_are_sorted(field, dir, from, low, middle);
        sorted_places_are_sorted(field, dir, from, middle, high);
        let a = sorted_places(field, dir, from, low, middle);
        let b = sorted_places(field, dir, from, middle, high);
        merging_sorts(field, dir, from, low, middle, high, a, b);
        merging_keeps_places(field, dir, from, a, b);
    }
}

/// The sorted documents are a sorting of the documents.
pub proof fn sorted_is_a_sorting(field: Seq<char>, dir: Dir, from: Seq<Row>)
    ensures
        is_sorting(field, dir, from, sorted(field, dir, from)),
{
    let places = sorted_places(field, dir, from, 0, from.len() as int);
    sorted_places_are_sorted(field, dir, from, 0, from.len() as int);
    assert(is_arrangement(from, sorted(field, dir, from), places));
}

/// Merges two lists of places.
fn merge(
    docs: &Vec<(String, Document)>,
    field: &str,
    dir: Dir,
    a: &Vec<usize>,
    b: &Vec<usize>,
) -> (r: Vec<usize>)
    requires
        forall|i: int| 0 <= i < a.len() ==> #[trigger] a@[i] < docs.len(),
        forall|i: int| 0 <= i < b.len() ==> #[trigger] b@[i] < docs.len(),
    ensures
        as_ints(r@) == merged_places(field@, dir, rows(docs@), as_ints(a@), as_ints(b@)),
{
    let ghost from = rows(docs@);
    let ghost pa = as_ints(a@);
    let ghost pb = as_ints(b@);
    let ghost all = merged_places(field@, dir, from, pa, pb);
    let mut out: Vec<usize> = Vec::new();
    let mut i: usize = 0;
    let mut j: usize = 0;
    proof {
        assert(pa.skip(0) =~= pa);
        assert(pb.skip(0) =~= pb);
        assert(all =~= as_ints(out@) + all);
    }
    while i < a.len() || j < b.len()
        invariant
            from == rows(docs@),
            pa == as_ints(a@),
            pb == as_ints(b@),
            forall|k: int| 0 <= k < a.len() ==> #[trigger] a@[k] < docs.len(),
            forall|k: int| 0 <= k < b.len() ==> #[trigger] b@[k] < docs.len(),
            i <= a.len(),
            j <= b.len(),
            all == as_ints(out@) + merged_places(
                field@,
                dir,
                from,
                pa.skip(i as int),
                pb.skip(j as int),
            ),
        decreases a.len() - i + b.len() - j,
    {
        let mut from_a: bool = i < a.len();
        if i < a.len() && j < b.len() {
            let x: usize = a[i];
            let y: usize = b[j];
            proof {
                assert(from[x as int] == (docs@[x as int].0@, fields(docs@[x as int].1)));
                assert(from[y as int] == (docs@[y as int].0@, fields(docs@[y as int].1)));
            }
            from_a = match compare_rows(field, dir, &docs[x].1, &docs[y].1) {
                Order::Greater => false,
                _ => true,
            };
            assert(from_a == row_le(field@, dir, from[x as int], from[y as int]));
        }
        let next: usize = if from_a {
            a[i]
        } else {
            b[j]
        };
        let ghost before = as_ints(out@);
        proof {
            let x = pa.skip(i as int);
            let y = pb.skip(j as int);
            assert(i < a.len() ==> x[0] == a@[i as int] && x.drop_first() =~= pa.skip(i + 1));
            assert(j < b.len() ==> y[0] == b@[j as int] && y.drop_first() =~= pb.skip(j + 1));
            let rest = if from_a {
                merged_places(field@, dir, from, pa.skip(i + 1), y)
            } else {
                merged_places(field@, dir, from, x, pb.skip(j + 1))
            };
            assert(merged_places(field@, dir, from, x, y) =~= seq![next as int] + rest);
            assert(all =~= before.push(next as int) + rest);
        }
        out.push(next);
        assert(as_ints(out@) =~= before.push(next as int));
        if from_a {
            i = i + 1;
        } else {
            j = j + 1;
        }
    }
    assert(all =~= as_ints(out@));
    out
}

/// Sorts the places from `low` up to `high`.
fn sort_range(
    docs: &Vec<(String, Document)>,
    field: &str,
    dir: Dir,
    low: usize,
    high: usize,
) -> (r: Vec<usize>)
    requires
        low <= high <= docs.len(),
    ensures
        as_ints(r@) == sorted_places(field@, dir, rows(docs@), low as int, high as int),
    decreases high - low,
{
    let ghost from = rows(docs@);
    if high - low <= 1 {
        let mut out: Vec<usize> = Vec::new();
        if low < high {
            out.push(low);
        }
        assert(as_ints(out@) =~= sorted_places(field@, dir, from, low as int, high as int));
        return out;
    }
    let middle: usize = low + (high - low) / 2;
    let a: Vec<usize> = sort_range(docs, field, dir, low, middle);
    let b: Vec<usize> = sort_range(docs, field, dir, middle, high);
    proof {
        sorted_places_are_sorted(field@, dir, from, low as int, middle as int);
        sorted_places_are_sorted(field@, dir, from, middle as int, high as int);
        assert forall|i: int| 0 <= i < a.len() implies #[trigger] a@[i] < docs.len() by {
            assert(as_ints(a@)[i] == a@[i]);
        }
        assert forall|i: int| 0 <= i < b.len() implies #[trigger] b@[i] < docs.len() by {
            assert(as_ints(b@)[i] == b@[i]);
        }
    }
    merge(docs, field, dir, &a, &b)
}

/// Sorts documents by a field, keeping the order of documents that compare equal.
pub fn sort_by_field(docs: Vec<(String, Document)>, field: &str, dir: Dir) -> (r: Vec<
    (String, Document),
>)
    ensures
        rows(r@) == sorted(field@, dir, rows(docs@)),
        is_sorting(field@, dir, rows(docs@), rows(r@)),
{
    let ghost from = rows(docs@);
    let places: Vec<usize> = sort_range(&docs, field, dir, 0, docs.len());
    let ghost ints = as_ints(places@);
    proof {
        sorted_places_are_sorted(field@, dir, from, 0, from.len() as int);
        sorted_is_a_sorting(field@, dir, from);
    }
    let mut rest: Vec<(String, Document)> = docs;
    let mut out: Vec<(String, Document)> = Vec::new();
    let mut i: usize = 0;
    while i < places.len()
        invariant
            are_sorted(field@, dir, from, 0, from.len() as int, ints),
            ints == as_ints(places@),
            i <= places.len(),
            rest.len() == from.len(),
            out.len() == i,
            forall|x: int|
                0 <= x < rest.len() && !ints.take(i as int).contains(x) ==> #[trigger] rows(
                    rest@,
                )[x] == from[x],
            forall|k: int| 0 <= k < i ==> #[trigger] rows(out@)[k] == from[ints[k]],
        decreases places.len() - i,
    {
        let at: usize = places[i];
        let ghost so_far = out@;
        let ghost left = rest@;
        proof {
            assert(ints[i as int] == at);
            assert(!ints.take(i as int).contains(at as int)) by {
                if ints.take(i as int).contains(at as int) {
                    let k = choose|k: int| 0 <= k < i && ints.take(i as int)[k] == at;
                    assert(ints[k] == ints[i as int]);
                }
            }
            assert(rows(left)[at as int] == from[at as int]);
        }
        let mut row: (String, Document) = (String::new(), Document::new());
        std::mem::swap(&mut row, &mut rest[at]);
        out.push(row);
        proof {
            assert(rows(out@) =~= rows(so_far).push(from[at as int]));
            assert forall|x: int|
                0 <= x < rest.len() && !ints.take(i + 1).contains(x) implies #[trigger] rows(
                rest@,
            )[x] == from[x] by {
                assert(ints.take(i + 1)[i as int] == at);
                assert(!ints.take(i as int).contains(x)) by {
                    if ints.take(i as int).contains(x) {
                        let k = choose|k: int| 0 <= k < i && ints.take(i as int)[k] == x;
                        assert(ints.take(i + 1)[k] == x);
                    }
                }
                assert(rows(left)[x] == from[x]);
            }
        }
        i = i + 1;
    }
    assert(rows(out@) =~= picked(from, ints));
    out
}

/// Numbers without duplicates from 0 up to their count are all of them.
proof fn places_are_all(places: Seq<int>, n: nat)
    requires
        places.len() == n,
        places.no_duplicates(),
        forall|i: int| 0 <= i < places.len() ==> 0 <= #[trigger] places[i] < n,
    ensures
        forall|x: int| 0 <= x < n ==> #[trigger] places.contains(x),
{
    let all = vstd::set_lib::set_int_range(0, n as int);
    vstd::set_lib::lemma_int_range(0, n as int);
    places.unique_seq_to_set();
    assert(places.to_set().subset_of(all)) by {
        assert forall|x: int| places.to_set().contains(x) implies all.contains(x) by {
            let i = choose|i: int| 0 <= i < places.len() && places[i] == x;
        }
    }
    vstd::set_lib::lemma_subset_equality(places.to_set(), all);
    assert forall|x: int| 0 <= x < n implies #[trigger] places.contains(x) by {
        assert(all.contains(x));
        assert(places.to_set().contains(x));
    }
}

/// Places from 0 up to their count, none of them twice, are all of them.
pub proof fn places_fill_their_range(places: Seq<int>, n: nat)
    requires
        places.len() == n,
        places.no_duplicates(),
        forall|i: int| 0 <= i < places.len() ==> 0 <= #[trigger] places[i] < n,
    ensures
        forall|x: int| 0 <= x < n ==> #[trigger] places.contains(x),
{
    places_are_all(places, n);
}

/// Sorting keeps the documents.
pub proof fn sorting_keeps_rows(field: Seq<char>, dir: Dir, from: Seq<Row>, to: Seq<Row>)
    requires
        is_sorting(field, dir, from, to),
    ensures
        to.len() == from.len(),
        forall|row: Row| #[trigger] to.contains(row) == from.contains(row),
{
    let places = choose|places: Seq<int>| #[trigger] is_arrangement(from, to, places);
    places_are_all(places, from.len());
    assert forall|row: Row| #[trigger] to.contains(row) == from.contains(row) by {
        if to.contains(row) {
            let i = choose|i: int| 0 <= i < to.len() && to[i] == row;
            assert(from[places[i]] == row);
        }
        if from.contains(row) {
            let x = choose|x: int| 0 <= x < from.len() && from[x] == row;
            assert(places.contains(x));
            let i = choose|i: int| 0 <= i < places.len() && places[i] == x;
            assert(to[i] == row);
        }
    }
}

/// Sorted documents are in order: no document comes before one that compares less.
pub proof fn sorting_is_in_order(field: Seq<char>, dir: Dir, from: Seq<Row>, to: Seq<Row>)
    requires
        is_sorting(field, dir, from, to),
        is_orderable(field, dir, from),
    ensures
        forall|i: int, j: int|
            0 <= i < j < to.len() ==> row_le(field, dir, #[trigger] to[i], #[trigger] to[j]),
{
    let places = choose|places: Seq<int>| #[trigger]
        is_arrangement(from, to, places) && (is_orderable(field, dir, from) ==> in_sorted_order(
            field,
            dir,
            from,
            places,
        ));
    assert forall|i: int, j: int| 0 <= i < j < to.len() implies row_le(
        field,
        dir,
        #[trigger] to[i],
        #[trigger] to[j],
    ) by {
        assert(comes_first(field, dir, from, places[i], places[j]));
    }
}

/// Documents without the field come last in ascending order, and first in descending order,
/// whatever values the others have.
pub proof fn missing_fields_sort_to_one_end(
    field: Seq<char>,
    dir: Dir,
    from: Seq<Row>,
    i: int,
    j: int,
)
    requires
        0 <= i < j < sorted(field, dir, from).len(),
    ensures
        dir == Dir::Asc && !sorted(field, dir, from)[i].1.contains_key(field) ==> !sorted(
            field,
            dir,
            from,
        )[j].1.contains_key(field),
        dir == Dir::Desc && !sorted(field, dir, from)[j].1.contains_key(field) ==> !sorted(
            field,
            dir,
            from,
        )[i].1.contains_key(field),
{
    sorted_is_a_sorting(field, dir, from);
}

/// Where the field orders the documents, there is one sorting of them.
pub proof fn sorting_is_unique(
    field: Seq<char>,
    dir: Dir,
    from: Seq<Row>,
    a: Seq<Row>,
    b: Seq<Row>,
)
    requires
        is_orderable(field, dir, from),
        is_sorting(field, dir, from, a),
        is_sorting(field, dir, from, b),
    ensures
        a == b,
{
    let pa = choose|places: Seq<int>| #[trigger]
        is_arrangement(from, a, places) && (is_orderable(field, dir, from) ==> in_sorted_order(
            field,
            dir,
            from,
            places,
        ));
    let pb = choose|places: Seq<int>| #[trigger]
        is_arrangement(from, b, places) && (is_orderable(field, dir, from) ==> in_sorted_order(
            field,
            dir,
            from,
            places,
        ));
    places_are_all(pa, from.len());
    places_are_all(pb, from.len());
    assert forall|x: int| pa.contains(x) == pb.contains(x) by {
        if pa.contains(x) {
            let i = choose|i: int| 0 <= i < pa.len() && pa[i] == x;
            assert(0 <= pa[i] < from.len());
            assert(pb.contains(x));
        }
        if pb.contains(x) {
            let i = choose|i: int| 0 <= i < pb.len() && pb[i] == x;
            assert(0 <= pb[i] < from.len());
            assert(pa.contains(x));
        }
    }
    sorted_places_are_unique(field, dir, from, pa, pb);
    assert(a =~= b);
}

/// Two sorted listings of the same places are the same.
proof fn sorted_places_are_unique(
    field: Seq<char>,
    dir: Dir,
    from: Seq<Row>,
    a: Seq<int>,
    b: Seq<int>,
)
    requires
        in_sorted_order(field, dir, from, a),
        in_sorted_order(field, dir, from, b),
        a.no_duplicates(),
        b.no_duplicates(),
        a.len() == b.len(),
        forall|x: int| a.contains(x) == b.contains(x),
    ensures
        a == b,
    decreases a.len(),
{
    if a.len() == 0 {
        assert(a =~= b);
    } else {
        let x = a.last();
        let y = b.last();
        if x != y {
            assert(a.contains(x) && b.contains(x) && b.contains(y) && a.contains(y));
            let i = choose|i: int| 0 <= i < b.len() && b[i] == x;
            let j = choose|j: int| 0 <= j < a.len() && a[j] == y;
            assert(comes_first(field, dir, from, b[i], b[b.len() - 1]));
            assert(comes_first(field, dir, from, a[j], a[a.len() - 1]));
            row_order_flips(field, dir, from[x], from[y]);
        }
        let ra = a.drop_last();
        let rb = b.drop_last();
        assert forall|z: int| ra.contains(z) == rb.contains(z) by {
            if ra.contains(z) {
                let i = choose|i: int| 0 <= i < ra.len() && ra[i] == z;
                assert(a[i] == z && a.contains(z));
                let j = choose|j: int| 0 <= j < b.len() && b[j] == z;
                assert(a[i] != a[a.len() - 1]);
                assert(rb[j] == z);
            }
            if rb.contains(z) {
                let i = choose|i: int| 0 <= i < rb.len() && rb[i] == z;
                assert(b[i] == z && b.contains(z));
                let j = choose|j: int| 0 <= j < a.len() && a[j] == z;
                assert(b[i] != b[b.len() - 1]);
                assert(ra[j] == z);
            }
        }
        sorted_places_are_unique(field, dir, from, ra, rb);
        assert(a =~= ra.push(x));
        assert(b =~= rb.push(y));
    }
}

/// A field that orders: its values, where it is there, are all numbers, all strings, all
/// booleans or all `null`, or none of them compares.
pub open spec fn is_uniform(field: Seq<char>, from: Seq<Row>) -> bool {
    ||| forall|i: int|
        0 <= i < from.len() && (#[trigger] from[i]).1.contains_key(field)
            ==> from[i].1[field] is Number
    ||| forall|i: int|
        0 <= i < from.len() && (#[trigger] from[i]).1.contains_key(field)
            ==> from[i].1[field] is String
    ||| forall|i: int|
        0 <= i < from.len() && (#[trigger] from[i]).1.contains_key(field)
            ==> from[i].1[field] is Bool
    ||| forall|i: int|
        0 <= i < from.len() && (#[trigger] from[i]).1.contains_key(field)
            ==> from[i].1[field] is Null || from[i].1[field] is Array || from[i].1[field] is Object
}

/// Documents are ordered by a field whose values are of one type.
pub proof fn uniform_fields_order(field: Seq<char>, dir: Dir, from: Seq<Row>)
    requires
        is_uniform(field, from),
    ensures
        is_orderable(field, dir, from),
{
    assert forall|i: int, j: int, k: int|
        #![trigger from[i], from[j], from[k]]
        0 <= i < from.len() && 0 <= j < from.len() && 0 <= k < from.len() && row_le(
            field,
            dir,
            from[i],
            from[j],
        ) && row_le(field, dir, from[j], from[k]) implies row_le(field, dir, from[i], from[k]) by {
        let (a, b, c) = (from[i].1, from[j].1, from[k].1);
        if a.contains_key(field) && b.contains_key(field) && c.contains_key(field)
            && a[field] is String && b[field] is String && c[field] is String {
            let (x, y, z) = (a[field]->String_0, b[field]->String_0, c[field]->String_0);
            string_order_is_transitive(x, y, z);
            string_order_is_transitive(z, y, x);
        }
    }
}

/// The order of strings is transitive, and strings that are equal are the same.
proof fn string_order_is_transitive(x: Seq<char>, y: Seq<char>, z: Seq<char>)
    ensures
        text_order(x, y) != Order::Greater && text_order(y, z) != Order::Greater ==> text_order(
            x,
            z,
        ) != Order::Greater,
        text_order(x, y) == text_order(y, x).flipped(),
        text_order(y, z) == text_order(z, y).flipped(),
        text_order(x, z) == text_order(z, x).flipped(),
{
    json_order_flips(Json::String(x), Json::String(y));
    json_order_flips(Json::String(y), Json::String(z));
    json_order_flips(Json::String(x), Json::String(z));
    if text_lt(x, y) && text_lt(y, z) {
        text_lt_transitive(x, y, z);
    }
}

} // verus!
