use ce_db::{DocOp, Document, Number, OpKey, OpKind, OpSet, StringMap, Value};

fn num(i: i128) -> Value {
    Value::Number(Number::Int(i))
}

fn text(s: &str) -> Value {
    Value::String(s.to_string())
}

fn object(fields: Vec<(&str, Value)>) -> Document {
    let mut doc: Document = StringMap::new();
    for (name, value) in fields {
        doc.insert(name.to_string(), value);
    }
    doc
}

fn set(l: u64, w: &str, id: &str, fields: Vec<(&str, Value)>) -> DocOp {
    DocOp {
        key: OpKey { lamport: l, writer: w.into() },
        doc_id: id.into(),
        kind: OpKind::Replace(object(fields)),
    }
}

fn patch(l: u64, w: &str, id: &str, fields: Vec<(&str, Value)>) -> DocOp {
    DocOp {
        key: OpKey { lamport: l, writer: w.into() },
        doc_id: id.into(),
        kind: OpKind::Patch(object(fields)),
    }
}

fn docs(replica: &OpSet) -> StringMap<Document> {
    replica.fold().documents()
}

#[test]
fn two_readers_converge_regardless_of_delivery_order() {
    let a_ops = vec![
        set(1, "A", "ada", vec![("name", text("Ada")), ("role", text("math"))]),
        patch(3, "A", "ada", vec![("role", text("compiler"))]),
    ];
    let b_ops = vec![
        patch(2, "B", "ada", vec![("city", text("London"))]),
        set(4, "B", "bob", vec![("name", text("Bob"))]),
    ];

    let mut r1 = OpSet::new();
    r1.deliver_all(&a_ops);
    r1.deliver_all(&b_ops);

    let mut r2 = OpSet::new();
    r2.deliver(b_ops[1].clone());
    r2.deliver(a_ops[1].clone());
    r2.deliver(b_ops[0].clone());
    r2.deliver(a_ops[0].clone());
    r2.deliver(a_ops[0].clone());

    let d1 = docs(&r1);
    let d2 = docs(&r2);
    assert_eq!(d1, d2, "two readers diverged");

    let ada = d1.get("ada").unwrap();
    assert_eq!(ada.get("name").unwrap(), &text("Ada"));
    assert_eq!(ada.get("role").unwrap(), &text("compiler"));
    assert_eq!(ada.get("city").unwrap(), &text("London"));
    assert_eq!(d1.get("bob").unwrap().get("name").unwrap(), &text("Bob"));
}

#[test]
fn late_reader_replay_equals_live_reader() {
    let ops = vec![
        set(1, "A", "u1", vec![("v", num(1))]),
        set(2, "A", "u2", vec![("v", num(2))]),
        patch(3, "B", "u1", vec![("w", num(9))]),
        DocOp {
            key: OpKey { lamport: 4, writer: "A".into() },
            doc_id: "u2".into(),
            kind: OpKind::Delete,
        },
    ];

    let mut live = OpSet::new();
    for op in &ops {
        live.deliver(op.clone());
    }

    let mut late = OpSet::new();
    late.deliver_all(&ops);

    assert_eq!(docs(&live), docs(&late));
    let d = docs(&live);
    assert_eq!(d.get("u1").unwrap().get("v").unwrap(), &num(1));
    assert_eq!(d.get("u1").unwrap().get("w").unwrap(), &num(9));
    assert!(!d.contains_key("u2"));
}

#[test]
fn lamport_ties_break_deterministically() {
    let from_a = set(5, "A", "x", vec![("owner", text("A"))]);
    let from_b = set(5, "B", "x", vec![("owner", text("B"))]);

    let mut r1 = OpSet::new();
    r1.deliver(from_a.clone());
    r1.deliver(from_b.clone());

    let mut r2 = OpSet::new();
    r2.deliver(from_b);
    r2.deliver(from_a);

    assert_eq!(docs(&r1), docs(&r2));
    assert_eq!(docs(&r1).get("x").unwrap().get("owner").unwrap(), &text("B"));
}
