use ce_db::parse::{
    bad_filter, build_query, object_from, parse_filter, parse_object, parse_op, parse_order,
    split_filter, value_from,
};
use ce_db::write::{notation_keeps, write_filter};
use ce_db::{Dir, DocPath, Document, Error, Filter, Number, Op, StringMap, Value};

fn num(i: i128) -> Value {
    Value::Number(Number::Int(i))
}

fn float(f: f64) -> Value {
    Value::Number(Number::Float(f.to_bits()))
}

fn text(s: &str) -> Value {
    Value::String(s.to_string())
}

fn object(fields: Vec<(&str, Value)>) -> Document {
    let mut doc: Document = StringMap::new();
    for (name, value) in fields {
        doc.insert(name.to_string(), value);
    }
    doc
}

fn strings(parts: &[&str]) -> Vec<String> {
    parts.iter().map(|s| s.to_string()).collect()
}

#[test]
fn documents_are_read_from_objects() {
    let doc = parse_object(r#"{"name":"Ada","age":36}"#).unwrap();
    assert_eq!(doc, object(vec![("name", text("Ada")), ("age", num(36))]));
    let doc = parse_object(
        r#"{"z":null,"b":true,"a":[1,-2,2.5,1e3,18446744073709551615,{"k":"é\n"}],"b":false}"#,
    )
    .unwrap();
    assert_eq!(
        doc,
        object(vec![
            (
                "a",
                Value::Array(vec![
                    num(1),
                    num(-2),
                    float(2.5),
                    float(1000.0),
                    num(18446744073709551615),
                    Value::Object(object(vec![("k", text("é\n"))])),
                ])
            ),
            ("b", Value::Bool(false)),
            ("z", Value::Null),
        ])
    );
    assert!(doc.contains_key("z"));
    let names: Vec<&str> = doc.entries().iter().map(|e| e.0.as_str()).collect();
    assert_eq!(names, vec!["a", "b", "z"]);
}

#[test]
fn numbers_outside_the_integers_are_floats() {
    let doc = parse_object(r#"{"a":18446744073709551616,"b":-9223372036854775809,"c":-0.0,"d":-0}"#)
        .unwrap();
    assert_eq!(doc.get("a").unwrap(), &float(18446744073709551616.0));
    assert_eq!(doc.get("b").unwrap(), &float(-9223372036854775808.0));
    match doc.get("c").unwrap() {
        Value::Number(Number::Float(bits)) => assert_eq!(*bits, (-0.0f64).to_bits()),
        other => panic!("{other:?}"),
    }
    match doc.get("d").unwrap() {
        Value::Number(Number::Float(bits)) => assert_eq!(*bits, (-0.0f64).to_bits()),
        other => panic!("{other:?}"),
    }
}

#[test]
fn a_text_that_is_no_object_is_refused() {
    assert_eq!(parse_object("[1]"), Err(Error::NotAnObject));
    assert_eq!(parse_object("3"), Err(Error::NotAnObject));
    assert_eq!(
        parse_object("{"),
        Err(Error::InvalidJson("EOF while parsing an object at line 1 column 1".to_string()))
    );
    assert!(matches!(parse_object(""), Err(Error::InvalidJson(_))));
    assert!(matches!(parse_object("{} x"), Err(Error::InvalidJson(_))));
}

#[test]
fn documents_are_taken_out_of_parsed_values() {
    assert_eq!(
        object_from(Ok(Value::Object(object(vec![("a", num(1))])))),
        Ok(object(vec![("a", num(1))]))
    );
    assert_eq!(object_from(Ok(Value::Null)), Err(Error::NotAnObject));
    assert_eq!(
        object_from(Err("why".to_string())),
        Err(Error::InvalidJson("why".to_string()))
    );
}

#[test]
fn filters_are_read() {
    assert_eq!(
        parse_filter("age:gt:30").unwrap(),
        Filter { field: "age".into(), op: Op::Gt, value: num(30) }
    );
    assert_eq!(
        parse_filter("tags:contains:cs").unwrap(),
        Filter { field: "tags".into(), op: Op::Contains, value: text("cs") }
    );
    assert_eq!(
        parse_filter("at:eq:\"10:30\"").unwrap(),
        Filter { field: "at".into(), op: Op::Eq, value: text("10:30") }
    );
    assert_eq!(
        parse_filter("at:ne:10:30").unwrap(),
        Filter { field: "at".into(), op: Op::Ne, value: text("10:30") }
    );
    assert_eq!(
        parse_filter("on:le:true").unwrap(),
        Filter { field: "on".into(), op: Op::Le, value: Value::Bool(true) }
    );
    assert_eq!(parse_filter("x:lt:").unwrap().value, text(""));
    assert_eq!(parse_filter("x:ge:[1]").unwrap().value, Value::Array(vec![num(1)]));
}

#[test]
fn malformed_filters_are_refused() {
    for bad in ["", "age", "age:gt", ":gt:1", "::"] {
        assert_eq!(parse_filter(bad), Err(Error::BadFilter(bad.to_string())), "{bad}");
    }
    assert_eq!(parse_filter("age:GT:1"), Err(Error::UnknownFilterOp("GT".to_string())));
    assert_eq!(parse_filter("age::1"), Err(Error::UnknownFilterOp("".to_string())));
    assert_eq!(
        bad_filter("age").message(),
        "--where must be 'field:op:value', got 'age'"
    );
}

#[test]
fn filters_are_taken_apart() {
    assert_eq!(
        split_filter("a:eq:b:c"),
        Ok(("a".to_string(), Op::Eq, "b:c".to_string()))
    );
    assert_eq!(value_from("7".to_string(), Ok(num(7))), num(7));
    assert_eq!(value_from("x".to_string(), Err("no".to_string())), text("x"));
    let names = ["eq", "ne", "gt", "ge", "lt", "le", "contains"];
    let ops = [Op::Eq, Op::Ne, Op::Gt, Op::Ge, Op::Lt, Op::Le, Op::Contains];
    for (name, op) in names.iter().zip(ops) {
        assert_eq!(parse_op(name), Some(op));
    }
    assert_eq!(parse_op("equals"), None);
}

#[test]
fn queries_are_built() {
    let q = build_query(
        &strings(&["age:gt:30", "tags:contains:cs"]),
        Some("age:desc"),
        Some(5),
    )
    .unwrap();
    assert_eq!(
        q.filters,
        vec![
            Filter { field: "age".into(), op: Op::Gt, value: num(30) },
            Filter { field: "tags".into(), op: Op::Contains, value: text("cs") },
        ]
    );
    assert_eq!(q.order_by, Some(("age".to_string(), Dir::Desc)));
    assert_eq!(q.limit, Some(5));
    let q = build_query(&[], None, None).unwrap();
    assert!(q.filters.is_empty());
    assert_eq!(q.order_by, None);
    assert_eq!(q.limit, None);
    let q = build_query(&[], Some(":asc"), None).unwrap();
    assert_eq!(q.order_by, Some(("".to_string(), Dir::Asc)));
}

#[test]
fn queries_are_refused_at_the_first_mistake() {
    let bad = build_query(&strings(&["a:eq:1", "b", "c:no:1"]), Some("d"), None);
    assert_eq!(bad.unwrap_err(), Error::BadFilter("b".to_string()));
    let bad = build_query(&strings(&["a:eq:1"]), Some("d"), None);
    assert_eq!(bad.unwrap_err(), Error::BadOrder);
    let bad = build_query(&[], Some("d:up:down"), None);
    assert_eq!(bad.unwrap_err(), Error::UnknownDirection("up:down".to_string()));
}

#[test]
fn orders_are_read() {
    assert_eq!(parse_order("age:asc"), Ok(("age".to_string(), Dir::Asc)));
    assert_eq!(parse_order("age:desc"), Ok(("age".to_string(), Dir::Desc)));
    assert_eq!(parse_order("age"), Err(Error::BadOrder));
    assert_eq!(parse_order("age:Asc"), Err(Error::UnknownDirection("Asc".to_string())));
}

#[test]
fn errors_have_words() {
    let cases = [
        (
            Error::UnknownFilterOp("no".to_string()),
            "unknown filter op 'no' (eq|ne|gt|ge|lt|le|contains)",
        ),
        (Error::BadOrder, "--order must be 'field:asc' or 'field:desc'"),
        (
            Error::UnknownDirection("up".to_string()),
            "unknown order direction 'up' (use asc|desc)",
        ),
        (Error::InvalidJson("why".to_string()), "document must be valid JSON"),
        (Error::NotAnObject, "document must be a JSON object, e.g. '{\"name\":\"x\"}'"),
        (Error::NotADocument, "document must serialize to a JSON object"),
        (
            Error::UnknownAbility("db:own".to_string()),
            "unknown ability 'db:own' (use db:read, db:write, db:admin)",
        ),
        (Error::NoAbility, "at least one ability is required"),
        (Error::NoDataDir, "could not resolve a platform data dir; set CE_DATA_DIR"),
        (Error::BadPath("x".to_string()), "path must be 'collection/doc_id', got 'x'"),
    ];
    for (error, words) in cases {
        assert_eq!(error.message(), words);
    }
}

#[test]
fn paths_are_read() {
    let path = DocPath::parse("users/ada").unwrap();
    assert_eq!(path.collection, "users");
    assert_eq!(path.doc_id, "ada");
    assert_eq!(DocPath::parse("a/b/c").unwrap().doc_id, "b/c");
    for bad in ["", "users", "/ada", "users/", "/"] {
        assert_eq!(DocPath::parse(bad), Err(Error::BadPath(bad.to_string())));
    }
}

#[test]
fn a_named_directory_comes_before_that_of_the_platform() {
    assert_eq!(ce_db::path::data_dir(Some("a"), Some("b")), Ok("a"));
    assert_eq!(ce_db::path::data_dir(None, Some("b")), Ok("b"));
    assert_eq!(ce_db::path::data_dir::<&str>(None, None), Err(Error::NoDataDir));
}

#[test]
fn written_filters_are_read_back() {
    let values = vec![
        num(30),
        text("30"),
        text("a:\"\\\n\u{1}é\u{10000}"),
        num(i64::MIN as i128),
        num(u64::MAX as i128),
        Value::Bool(false),
        Value::Null,
        Value::Array(vec![num(-1), Value::Array(vec![])]),
        Value::Object(object(vec![("b", text("x")), ("a", Value::Null)])),
    ];
    for op in [Op::Eq, Op::Ne, Op::Gt, Op::Ge, Op::Lt, Op::Le, Op::Contains] {
        for value in &values {
            let filter = Filter { field: "f".into(), op, value: value.clone() };
            let written = write_filter(&filter).unwrap();
            assert_eq!(parse_filter(&written).unwrap(), filter, "{written}");
        }
    }
    let filter = Filter { field: "age".into(), op: Op::Gt, value: num(30) };
    assert_eq!(write_filter(&filter).unwrap(), "age:gt:30");
    let filter = Filter { field: "age".into(), op: Op::Contains, value: text("30") };
    assert_eq!(write_filter(&filter).unwrap(), "age:contains:\"30\"");
}

#[test]
fn some_filters_are_not_written() {
    let filter = |field: &str, value: Value| Filter { field: field.into(), op: Op::Eq, value };
    assert_eq!(write_filter(&filter("", num(1))), None);
    assert_eq!(write_filter(&filter("a:b", num(1))), None);
    assert_eq!(write_filter(&filter("a", float(0.5))), None);
    assert_eq!(write_filter(&filter("a", num(u64::MAX as i128 + 1))), None);
    assert_eq!(write_filter(&filter("a", Value::Array(vec![float(0.5)]))), None);
    let mut deep = Value::Null;
    for _ in 0..127 {
        deep = Value::Array(vec![deep]);
    }
    let written = write_filter(&filter("a", deep.clone())).unwrap();
    assert_eq!(parse_filter(&written).unwrap().value, deep);
    let deeper = Value::Object(object(vec![("k", deep)]));
    assert!(!notation_keeps(&deeper, 127));
    assert!(notation_keeps(&deeper, 128));
    assert_eq!(write_filter(&filter("a", deeper)), None);
}
