use ce_db::{
    Collection, Dir, DocOp, Document, Error, Filter, Number, Op, OpKey, OpKind, Query, Snapshot,
    StringMap, Value,
};

fn num(i: i128) -> Value {
    Value::Number(Number::Int(i))
}

fn text(s: &str) -> Value {
    Value::String(s.to_string())
}

fn object(fields: Vec<(&str, Value)>) -> Document {
    let mut doc: Document = StringMap::new();
    for (name, value) in fields {
        doc.insert(name.to_string(), value);
    }
    doc
}

fn deletion(lamport: u64, writer: &str, id: &str) -> DocOp {
    DocOp {
        key: OpKey { lamport, writer: writer.to_string() },
        doc_id: id.to_string(),
        kind: OpKind::Delete,
    }
}

#[test]
fn snapshot_get_and_query() {
    let mut docs: StringMap<Document> = StringMap::new();
    docs.insert("u1".to_string(), object(vec![("name", text("ada")), ("age", num(36))]));
    docs.insert("u2".to_string(), object(vec![("name", text("bob")), ("age", num(28))]));
    let snap = Snapshot { docs, op_count: 2 };
    assert_eq!(snap.len(), 2);
    assert_eq!(snap.get("u1").unwrap().get("name").unwrap(), &text("ada"));
    let q = Query::new().with(Filter { field: "age".into(), op: Op::Gt, value: num(30) });
    let r = snap.query(&q);
    assert_eq!(r.len(), 1);
    assert_eq!(r[0].0, "u1");
}

#[test]
fn an_empty_snapshot_holds_nothing() {
    let snap = Snapshot::default();
    assert!(snap.is_empty());
    assert_eq!(snap.len(), 0);
    assert_eq!(snap.op_count, 0);
    assert!(snap.get("u1").is_none());
    assert!(snap.query(&Query::new()).is_empty());
}

#[test]
fn a_device_reads_back_what_it_writes() {
    let mut users = Collection::open("me", "users", &vec![]);
    assert_eq!(users.name(), "users");
    assert_eq!(users.writer_id(), "me");
    assert!(users.is_empty());

    let op = users.set("ada", object(vec![("name", text("Ada")), ("age", num(36))]));
    assert!(users.get("ada").is_none());
    users.receive(op);
    assert_eq!(users.get("ada").unwrap().get("age").unwrap(), &num(36));

    let op = users.patch("ada", object(vec![("email", text("ada@x")), ("age", Value::Null)]));
    users.receive(op);
    let op = users.set_field("ada", "verified", Value::Bool(true));
    assert_eq!(op.kind, OpKind::Patch(object(vec![("verified", Value::Bool(true))])));
    users.receive(op);
    assert_eq!(
        users.get("ada").unwrap(),
        object(vec![
            ("email", text("ada@x")),
            ("name", text("Ada")),
            ("verified", Value::Bool(true)),
        ])
    );
    assert_eq!(users.len(), 1);
    assert_eq!(users.snapshot().op_count, 3);

    let op = users.delete("ada");
    users.receive(op.clone());
    users.receive(op);
    assert!(users.get("ada").is_none());
    assert!(users.is_empty());
    assert_eq!(users.snapshot().op_count, 4);
}

#[test]
fn keys_go_past_all_that_was_seen() {
    let mut c = Collection::open("m", "users", &vec![deletion(7, "z", "x"), deletion(3, "a", "x")]);
    assert_eq!(c.delete("x").key, OpKey { lamport: 8, writer: "m".to_string() });
    assert_eq!(c.delete("x").key.lamport, 9);
    c.receive(deletion(4, "a", "y"));
    assert_eq!(c.delete("x").key.lamport, 10);
    c.receive_all(&vec![deletion(20, "a", "y"), deletion(19, "b", "y")]);
    assert_eq!(c.next_key(), OpKey { lamport: 21, writer: "m".to_string() });
    assert_eq!(c.merged_ops().len(), 5);
}

#[test]
fn a_clock_at_its_end_allows_no_write() {
    let mut c = Collection::open("m", "users", &vec![deletion(u64::MAX - 1, "z", "x")]);
    assert!(c.can_write());
    assert_eq!(c.next_key().lamport, u64::MAX);
    assert!(!c.can_write());
    let mut d = Collection::open("m", "users", &vec![deletion(u64::MAX, "z", "x")]);
    assert!(!d.can_write());
    assert_eq!(d.set_value("x", num(1)), Err(Error::NotADocument));
}

#[test]
fn only_objects_become_documents() {
    let mut c = Collection::open("m", "users", &vec![]);
    assert_eq!(c.set_value("x", num(1)), Err(Error::NotADocument));
    assert_eq!(c.set_value("x", Value::Array(vec![])), Err(Error::NotADocument));
    let op = c.set_value("x", Value::Object(object(vec![("v", num(1))]))).unwrap();
    assert_eq!(op.key.lamport, 1);
    assert_eq!(op.doc_id, "x");
    assert_eq!(op.kind, OpKind::Replace(object(vec![("v", num(1))])));
}

#[test]
fn devices_that_exchange_operations_agree() {
    let mut a = Collection::open("A", "users", &vec![]);
    let mut b = Collection::open("B", "users", &vec![]);
    let x = a.set("u", object(vec![("name", text("x"))]));
    let y = b.set("u", object(vec![("name", text("y"))]));
    assert_eq!(x.key.lamport, y.key.lamport);
    a.receive(x.clone());
    a.receive(y.clone());
    b.receive(y.clone());
    b.receive(x.clone());
    b.receive(y);
    assert_eq!(a.snapshot().docs, b.snapshot().docs);
    assert_eq!(a.get("u").unwrap().get("name").unwrap(), &text("y"));
    let z = a.patch("u", object(vec![("name", text("z"))]));
    b.receive(z);
    assert_eq!(b.get("u").unwrap().get("name").unwrap(), &text("z"));
}

#[test]
fn queries_run_over_documents_in_id_order() {
    let mut c = Collection::open("m", "users", &vec![]);
    for (id, age) in [("c", 30), ("a", 20), ("b", 30)] {
        let op = c.set(id, object(vec![("age", num(age))]));
        c.receive(op);
    }
    let ids = |rows: Vec<(String, Document)>| rows.into_iter().map(|(id, _)| id).collect::<Vec<_>>();
    assert_eq!(ids(c.query(&Query::new())), vec!["a", "b", "c"]);
    let q = Query::new().order("age", Dir::Desc);
    assert_eq!(ids(c.query(&q)), vec!["b", "c", "a"]);
    let snap = c.snapshot();
    let copy = snap.clone();
    assert_eq!(copy.docs, snap.docs);
    assert_eq!(copy.op_count, 3);
    assert_eq!(ids(copy.query(&q)), vec!["b", "c", "a"]);
}
