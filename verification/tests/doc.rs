use ce_db::{DbMachine, DocOp, Document, Number, OpKey, OpKind, OpSet, StringMap, Value};

fn num(i: i128) -> Value {
    Value::Number(Number::Int(i))
}

fn text(s: &str) -> Value {
    Value::String(s.to_string())
}

fn object(fields: Vec<(&str, Value)>) -> Document {
    let mut doc: Document = StringMap::new();
    for (name, value) in fields {
        doc.insert(name.to_string(), value);
    }
    doc
}

fn key(l: u64, w: &str) -> OpKey {
    OpKey { lamport: l, writer: w.to_string() }
}

fn set(l: u64, w: &str, id: &str, fields: Vec<(&str, Value)>) -> DocOp {
    DocOp { key: key(l, w), doc_id: id.into(), kind: OpKind::Replace(object(fields)) }
}

fn patch(l: u64, w: &str, id: &str, fields: Vec<(&str, Value)>) -> DocOp {
    DocOp { key: key(l, w), doc_id: id.into(), kind: OpKind::Patch(object(fields)) }
}

fn del(l: u64, w: &str, id: &str) -> DocOp {
    DocOp { key: key(l, w), doc_id: id.into(), kind: OpKind::Delete }
}

fn fold(ops: &[DocOp]) -> DbMachine {
    let mut union = OpSet::new();
    for op in ops {
        union.deliver(op.clone());
    }
    union.fold()
}

#[test]
fn set_then_get_roundtrips() {
    let m = fold(&[set(1, "a", "u1", vec![("name", text("ada")), ("age", num(36))])]);
    let d = m.get("u1").unwrap();
    assert_eq!(d.get("name").unwrap(), &text("ada"));
    assert_eq!(d.get("age").unwrap(), &num(36));
    assert_eq!(m.len(), 1);
}

#[test]
fn whole_document_lww_highest_key_wins() {
    let ops = vec![
        set(1, "a", "u1", vec![("v", num(1))]),
        set(3, "b", "u1", vec![("v", num(3))]),
        set(2, "a", "u1", vec![("v", num(2))]),
    ];
    let m = fold(&ops);
    assert_eq!(m.get("u1").unwrap().get("v").unwrap(), &num(3));
}

#[test]
fn field_level_patch_merge_preserves_concurrent_fields() {
    let ops = vec![
        set(1, "a", "u1", vec![("name", text("ada"))]),
        patch(2, "a", "u1", vec![("email", text("ada@x"))]),
        patch(2, "b", "u1", vec![("phone", text("555"))]),
    ];
    let m = fold(&ops);
    let d = m.get("u1").unwrap();
    assert_eq!(d.get("name").unwrap(), &text("ada"));
    assert_eq!(d.get("email").unwrap(), &text("ada@x"));
    assert_eq!(d.get("phone").unwrap(), &text("555"));
}

#[test]
fn field_patch_lww_newer_wins_regardless_of_order() {
    let older = patch(1, "a", "u1", vec![("score", num(10))]);
    let newer = patch(5, "b", "u1", vec![("score", num(99))]);
    assert_eq!(
        fold(&[older.clone(), newer.clone()]).get("u1").unwrap().get("score").unwrap(),
        &num(99)
    );
    assert_eq!(fold(&[newer, older]).get("u1").unwrap().get("score").unwrap(), &num(99));
}

#[test]
fn null_field_in_patch_deletes_field() {
    let ops = vec![
        set(1, "a", "u1", vec![("a", num(1)), ("b", num(2))]),
        patch(2, "a", "u1", vec![("b", Value::Null)]),
    ];
    let d = fold(&ops).get("u1").unwrap();
    assert_eq!(d.get("a").unwrap(), &num(1));
    assert!(!d.contains_key("b"));
}

#[test]
fn delete_tombstones_until_resurrected() {
    let m1 = fold(&[set(1, "a", "u1", vec![("v", num(1))]), del(2, "a", "u1")]);
    assert!(m1.get("u1").is_none());
    assert_eq!(m1.len(), 0);
    let m2 = fold(&[
        set(1, "a", "u1", vec![("v", num(1))]),
        del(2, "a", "u1"),
        set(3, "b", "u1", vec![("v", num(9))]),
    ]);
    assert_eq!(m2.get("u1").unwrap().get("v").unwrap(), &num(9));
}

#[test]
fn older_op_after_delete_stays_deleted() {
    let s = set(1, "a", "u1", vec![("v", num(1))]);
    let d = del(5, "b", "u1");
    assert!(fold(&[s.clone(), d.clone()]).get("u1").is_none());
    assert!(fold(&[d, s]).get("u1").is_none());
}

#[test]
fn set_resets_stale_fields() {
    let ops = vec![
        patch(1, "a", "u1", vec![("old", Value::Bool(true))]),
        set(2, "b", "u1", vec![("fresh", num(1))]),
    ];
    let d = fold(&ops).get("u1").unwrap();
    assert!(!d.contains_key("old"));
    assert_eq!(d.get("fresh").unwrap(), &num(1));
}

#[test]
fn convergence_is_order_independent() {
    let ops = vec![
        set(1, "a", "u1", vec![("name", text("x"))]),
        patch(2, "b", "u1", vec![("score", num(5))]),
        set(3, "a", "u2", vec![("name", text("y"))]),
        patch(4, "b", "u1", vec![("score", num(7))]),
        del(5, "a", "u2"),
    ];
    let reference = fold(&ops).documents();
    let mut rev = ops.clone();
    rev.reverse();
    assert_eq!(fold(&rev).documents(), reference);
    let rotated = [&ops[2..], &ops[..2]].concat();
    assert_eq!(fold(&rotated).documents(), reference);
    assert_eq!(reference.get("u1").unwrap().get("score").unwrap(), &num(7));
    assert!(!reference.contains_key("u2"));
}

#[test]
fn patch_after_delete_keeps_only_its_own_fields() {
    let m = fold(&[
        set(1, "a", "u1", vec![("v", num(1))]),
        del(2, "a", "u1"),
        patch(3, "b", "u1", vec![("w", num(2)), ("x", Value::Null)]),
    ]);
    let d = m.get("u1").unwrap();
    assert_eq!(d, object(vec![("w", num(2))]));
    assert_eq!(d.len(), 1);
}

#[test]
fn patch_creates_a_missing_document() {
    let m = fold(&[patch(1, "a", "u1", vec![("v", Value::Null)])]);
    assert_eq!(m.get("u1").unwrap(), object(vec![]));
    assert!(!m.is_empty());
    assert!(fold(&[]).is_empty());
    assert!(fold(&[del(1, "a", "u1")]).is_empty());
}

#[test]
fn older_patch_loses_when_applied_late() {
    let mut m = DbMachine::default();
    m.apply(patch(5, "b", "u1", vec![("score", num(99))]));
    m.apply(patch(5, "a", "u1", vec![("score", num(1)), ("other", num(2))]));
    m.apply(patch(5, "b", "u1", vec![("score", num(3))]));
    let d = m.get("u1").unwrap();
    assert_eq!(d, object(vec![("other", num(2)), ("score", num(99))]));
}

#[test]
fn replace_keeps_null_fields() {
    let m = fold(&[set(1, "a", "u1", vec![("v", Value::Null)])]);
    assert!(m.get("u1").unwrap().get("v").unwrap().is_null());
}

#[test]
fn operations_leave_other_documents_alone() {
    let m = fold(&[
        set(1, "a", "u1", vec![("v", num(1))]),
        set(2, "a", "u2", vec![("v", num(2))]),
        del(3, "a", "u1"),
    ]);
    assert_eq!(m.get("u2").unwrap(), object(vec![("v", num(2))]));
    assert!(m.get("u3").is_none());
    assert_eq!(m.documents().len(), 1);
}

#[test]
fn keys_order_by_clock_and_then_by_writer() {
    assert!(key(1, "b").precedes(&key(2, "a")));
    assert!(key(2, "a").precedes(&key(2, "b")));
    assert!(key(2, "a").precedes(&key(2, "aa")));
    assert!(!key(2, "a").precedes(&key(2, "a")));
    assert!(!key(3, "a").precedes(&key(2, "b")));
    assert!(key(2, "a") < key(2, "b"));
    assert_eq!(DbMachine::key(&del(7, "w", "u1")), key(7, "w"));
}

#[test]
fn union_keeps_what_came_last_under_a_key() {
    let mut union = OpSet::new();
    union.deliver(set(1, "a", "u1", vec![("v", num(1))]));
    union.deliver(set(1, "a", "u1", vec![("v", num(2))]));
    assert_eq!(union.len(), 1);
    assert_eq!(union.fold().get("u1").unwrap(), object(vec![("v", num(2))]));
}

#[test]
fn union_lists_operations_in_key_order() {
    let mut union = OpSet::new();
    union.deliver_all(&vec![del(2, "b", "x"), del(2, "a", "x"), del(10, "a", "x"), del(1, "z", "x")]);
    let keys: Vec<OpKey> = union.ops().iter().map(|op| op.key.clone()).collect();
    assert_eq!(keys, vec![key(1, "z"), key(2, "a"), key(2, "b"), key(10, "a")]);
}

#[test]
fn maps_stay_in_key_order() {
    let mut map: StringMap<u8> = StringMap::new();
    assert!(map.is_empty());
    assert_eq!(map.insert("b".to_string(), 2), None);
    assert_eq!(map.insert("a".to_string(), 1), None);
    assert_eq!(map.insert("é".to_string(), 4), None);
    assert_eq!(map.insert("c".to_string(), 3), None);
    assert_eq!(map.insert("b".to_string(), 5), Some(2));
    let keys: Vec<&str> = map.entries().iter().map(|e| e.0.as_str()).collect();
    assert_eq!(keys, vec!["a", "b", "c", "é"]);
    assert_eq!(map.remove("c"), Some(3));
    assert_eq!(map.remove("c"), None);
    assert_eq!(map.len(), 3);
    assert_eq!(map.get("b"), Some(&5));
    map.clear();
    assert_eq!(map.get("b"), None);
    assert_eq!(map.len(), 0);
}

#[test]
fn values_are_equal_by_their_parts() {
    let a = Value::Array(vec![num(1), text("x"), Value::Object(object(vec![("k", Value::Null)]))]);
    assert_eq!(a, a.clone());
    assert_ne!(a, Value::Array(vec![num(1), text("x")]));
    assert_ne!(
        Value::Object(object(vec![("k", num(1))])),
        Value::Object(object(vec![("l", num(1))]))
    );
    assert_ne!(num(1), Value::Number(Number::Float(1.0f64.to_bits())));
    assert_eq!(
        Value::Number(Number::Float(0.0f64.to_bits())),
        Value::Number(Number::Float((-0.0f64).to_bits()))
    );
    assert_ne!(Value::Bool(true), Value::Bool(false));
    assert_ne!(Value::Null, Value::Bool(false));
}
