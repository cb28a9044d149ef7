use ce_db::query::{contains, order};
use ce_db::text::Order;
use ce_db::{Dir, Document, Filter, Number, Op, Query, StringMap, Value};

fn num(i: i128) -> Value {
    Value::Number(Number::Int(i))
}

fn float(f: f64) -> Value {
    Value::Number(Number::Float(f.to_bits()))
}

fn text(s: &str) -> Value {
    Value::String(s.to_string())
}

fn object(fields: Vec<(&str, Value)>) -> Document {
    let mut doc: Document = StringMap::new();
    for (name, value) in fields {
        doc.insert(name.to_string(), value);
    }
    doc
}

fn person(name: &str, age: i128, tags: &[&str]) -> Document {
    object(vec![
        ("name", text(name)),
        ("age", num(age)),
        ("tags", Value::Array(tags.iter().map(|t| text(t)).collect())),
    ])
}

fn sample() -> Vec<(String, Document)> {
    vec![
        ("u1".into(), person("ada", 36, &["math", "cs"])),
        ("u2".into(), person("bob", 28, &["art"])),
        ("u3".into(), person("cy", 41, &["cs"])),
    ]
}

fn filter(field: &str, op: Op, value: Value) -> Filter {
    Filter { field: field.into(), op, value }
}

fn ids(rows: Vec<(String, Document)>) -> Vec<String> {
    rows.into_iter().map(|(id, _)| id).collect()
}

#[test]
fn eq_filter() {
    let q = Query::new().with(Filter::eq("name", text("ada")));
    let r = q.run(sample());
    assert_eq!(r.len(), 1);
    assert_eq!(r[0].0, "u1");
}

#[test]
fn comparison_filters() {
    let q = Query::new().with(filter("age", Op::Gt, num(30)));
    let mut found = ids(q.run(sample()));
    found.sort();
    assert_eq!(found, vec!["u1", "u3"]);
}

#[test]
fn ne_matches_missing_field() {
    let q = Query::new().with(filter("missing", Op::Ne, num(1)));
    assert_eq!(q.run(sample()).len(), 3);
}

#[test]
fn contains_array_and_substring() {
    let q = Query::new().with(filter("tags", Op::Contains, text("cs")));
    let mut found = ids(q.run(sample()));
    found.sort();
    assert_eq!(found, vec!["u1", "u3"]);

    let q2 = Query::new().with(filter("name", Op::Contains, text("a")));
    assert_eq!(ids(q2.run(sample())), vec!["u1"]);
}

#[test]
fn conjunction_of_filters() {
    let q = Query::new()
        .with(filter("age", Op::Ge, num(30)))
        .with(filter("tags", Op::Contains, text("cs")));
    let mut found = ids(q.run(sample()));
    found.sort();
    assert_eq!(found, vec!["u1", "u3"]);
}

#[test]
fn order_and_limit() {
    let q = Query::new().order("age", Dir::Desc).take(2);
    assert_eq!(ids(q.run(sample())), vec!["u3", "u1"]);
}

#[test]
fn empty_query_matches_all() {
    assert_eq!(Query::new().run(sample()).len(), 3);
}

#[test]
fn each_operator_on_each_outcome() {
    let doc = object(vec![("n", num(5)), ("s", text("m")), ("z", Value::Null), ("b", Value::Bool(false))]);
    let cases = [
        ("n", num(4), [false, true, true, true, false, false]),
        ("n", num(5), [true, false, false, true, false, true]),
        ("n", num(6), [false, true, false, false, true, true]),
        ("n", text("5"), [false, true, false, false, false, false]),
        ("s", text("l"), [false, true, true, true, false, false]),
        ("s", text("m"), [true, false, false, true, false, true]),
        ("s", text("n"), [false, true, false, false, true, true]),
        ("z", Value::Null, [true, false, false, true, false, true]),
        ("b", Value::Bool(true), [false, true, false, false, true, true]),
        ("none", num(1), [false, true, false, false, false, false]),
    ];
    let ops = [Op::Eq, Op::Ne, Op::Gt, Op::Ge, Op::Lt, Op::Le];
    for (field, value, expected) in cases {
        for (op, holds) in ops.iter().zip(expected) {
            assert_eq!(filter(field, *op, value.clone()).matches(&doc), holds, "{field} {op:?} {value:?}");
        }
    }
}

#[test]
fn an_integer_and_a_float_compare_but_are_not_equal() {
    let doc = object(vec![("n", num(5))]);
    assert!(!filter("n", Op::Eq, float(5.0)).matches(&doc));
    assert!(filter("n", Op::Ne, float(5.0)).matches(&doc));
    assert!(filter("n", Op::Ge, float(5.0)).matches(&doc));
    assert!(filter("n", Op::Le, float(5.0)).matches(&doc));
    assert!(filter("n", Op::Lt, float(5.5)).matches(&doc));
    assert!(filter("n", Op::Gt, float(-1e300)).matches(&doc));
}

#[test]
fn large_integers_are_told_apart() {
    let a = num(9007199254740993);
    let b = num(9007199254740992);
    assert_eq!(order(&a, &b), Some(Order::Greater));
    let doc = object(vec![("n", a.clone()), ("z", float(-0.0))]);
    assert!(filter("n", Op::Gt, b.clone()).matches(&doc));
    assert!(!filter("n", Op::Le, b.clone()).matches(&doc));
    assert!(filter("z", Op::Ge, num(0)).matches(&doc));
    let rows = vec![("a".to_string(), object(vec![("n", a)])), ("b".to_string(), object(vec![("n", b)]))];
    assert_eq!(ids(Query::new().order("n", Dir::Asc).run(rows)), vec!["b", "a"]);
}

#[test]
fn a_limit_takes_the_first_of_the_whole_answer() {
    let rows = || {
        vec![
            ("a".to_string(), object(vec![("n", num(1))])),
            ("b".to_string(), object(vec![("n", text("a"))])),
            ("c".to_string(), object(vec![])),
            ("d".to_string(), object(vec![("n", num(0))])),
            ("e".to_string(), object(vec![("n", Value::Null)])),
        ]
    };
    for dir in [Dir::Asc, Dir::Desc] {
        let all = ids(Query::new().order("n", dir).run(rows()));
        assert_eq!(all.len(), 5);
        assert_eq!(all[if dir == Dir::Asc { 4 } else { 0 }], "c");
        for n in 0..7 {
            let some = ids(Query::new().order("n", dir).take(n).run(rows()));
            assert_eq!(some, all[..n.min(5)].to_vec());
        }
    }
}

#[test]
fn contains_asks_for_items_and_substrings() {
    let items = Value::Array(vec![num(1), text("cs")]);
    assert!(contains(&items, &num(1)));
    assert!(!contains(&items, &text("c")));
    assert!(!contains(&Value::Array(vec![]), &Value::Null));
    assert!(contains(&text("abc"), &text("")));
    assert!(contains(&text("abc"), &text("bc")));
    assert!(!contains(&text("abc"), &text("abcd")));
    assert!(!contains(&text("abc"), &text("ac")));
    assert!(!contains(&text("5"), &num(5)));
    assert!(!contains(&num(55), &num(5)));
    let doc = object(vec![("tags", items)]);
    assert!(!filter("none", Op::Contains, text("cs")).matches(&doc));
}

#[test]
fn values_of_different_types_do_not_compare() {
    assert_eq!(order(&num(1), &text("1")), None);
    assert_eq!(order(&Value::Null, &Value::Bool(false)), None);
    assert_eq!(order(&Value::Array(vec![]), &Value::Array(vec![])), None);
    assert_eq!(order(&Value::Bool(false), &Value::Bool(true)), Some(Order::Less));
    assert_eq!(order(&Value::Null, &Value::Null), Some(Order::Equal));
    assert_eq!(order(&text("b"), &text("abc")), Some(Order::Greater));
}

#[test]
fn documents_without_the_field_sort_to_one_end() {
    let rows = || {
        vec![
            ("none".to_string(), object(vec![])),
            ("two".to_string(), object(vec![("n", num(2))])),
            ("one".to_string(), object(vec![("n", num(1))])),
        ]
    };
    assert_eq!(ids(Query::new().order("n", Dir::Asc).run(rows())), vec!["one", "two", "none"]);
    assert_eq!(ids(Query::new().order("n", Dir::Desc).run(rows())), vec!["none", "two", "one"]);
}

#[test]
fn sorting_keeps_the_order_of_equals() {
    let rows = || {
        vec![
            ("a".to_string(), object(vec![("n", num(2))])),
            ("b".to_string(), object(vec![("n", num(1))])),
            ("c".to_string(), object(vec![("n", num(2))])),
            ("d".to_string(), object(vec![("n", num(1))])),
        ]
    };
    assert_eq!(ids(Query::new().order("n", Dir::Asc).run(rows())), vec!["b", "d", "a", "c"]);
    assert_eq!(ids(Query::new().order("n", Dir::Desc).run(rows())), vec!["a", "c", "b", "d"]);
}

#[test]
fn sorting_agrees_with_a_stable_sort_on_many_rows() {
    let mut rows: Vec<(String, Document)> = Vec::new();
    let mut x: u64 = 7;
    for i in 0..97 {
        x = x.wrapping_mul(6364136223846793005).wrapping_add(1442695040888963407);
        rows.push((format!("d{i}"), object(vec![("n", num((x >> 60) as i128 - 8))])));
    }
    let number = |doc: &Document| match doc.get("n") {
        Some(Value::Number(Number::Int(i))) => *i,
        _ => panic!("no number"),
    };
    let mut expected = rows.clone();
    expected.sort_by_key(|(_, d)| number(d));
    assert_eq!(ids(Query::new().order("n", Dir::Asc).run(rows)), ids(expected));
}

#[test]
fn limits_cut_off_after_sorting() {
    assert_eq!(ids(Query::new().take(0).run(sample())), Vec::<String>::new());
    assert_eq!(ids(Query::new().take(2).run(sample())), vec!["u1", "u2"]);
    assert_eq!(ids(Query::new().take(9).run(sample())), vec!["u1", "u2", "u3"]);
}

#[test]
fn a_query_is_copied_with_all_its_parts() {
    let q = Query::default().with(Filter::eq("a", num(1))).order("b", Dir::Desc).take(3);
    let c = q.clone();
    assert_eq!(c.filters, q.filters);
    assert_eq!(c.order_by, Some(("b".to_string(), Dir::Desc)));
    assert_eq!(c.limit, Some(3));
    assert!(c.matches(&object(vec![("a", num(1))])));
    assert!(!c.matches(&object(vec![("a", num(2))])));
}
