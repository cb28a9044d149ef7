//! What operations make of documents, and what a device makes of operations.

use crate::collection::{highest, highest_exists, is_highest, Device};
use crate::convergence::{
    decides, is_last_to_decide, is_merged, last_writer_wins_each_field, outcome, replicas_converge,
};
use crate::doc::{
    applied, contents, field_after_patch, key_lt, live, plain_fields, remembered, Change, Db,
    DocOp, Edit, Key, OpKey, OpKind,
};
use crate::json::{fields, Document, Fields, Json};
use crate::map::StringMap;
use crate::merge::{
    by_key, converged, edits, fold, in_key_order, key_place, ordered, ordered_is_unique, union,
};
use crate::text::text_lt;
use vstd::prelude::*;

verus! {

/// The clock decides which of two keys comes first, and on a tie the lexical order of the writers.
pub proof fn the_clock_decides_and_then_the_writer(a: Key, b: Key)
    ensures
        a.lamport < b.lamport ==> key_lt(a, b) && !key_lt(b, a),
        a.lamport == b.lamport ==> (key_lt(a, b) <==> text_lt(a.writer, b.writer)),
{
}

/// An operation is its key, its document and its change.
pub proof fn an_operation_is_its_parts(op: DocOp, key: OpKey, doc: Document)
    ensures
        op@.key == op.key@,
        op@.doc_id == op.doc_id@,
        op@.change == op.kind@,
        key@.lamport == key.lamport,
        key@.writer == key.writer@,
        OpKind::Replace(doc)@ == Change::Replace(fields(doc)),
        OpKind::Patch(doc)@ == Change::Patch(fields(doc)),
        OpKind::Delete@ == Change::Delete,
{
}

/// Some operations are what each of them is.
pub proof fn operations_are_what_each_is(ops: Seq<DocOp>)
    ensures
        edits(ops).len() == ops.len(),
        forall|i: int| 0 <= i < ops.len() ==> (#[trigger] edits(ops)[i]) == ops[i]@,
{
}

/// The documents that are read are those that are no tombstones, each with the fields that were
/// written.
pub proof fn what_is_not_deleted_is_read(db: Db, id: Seq<char>, name: Seq<char>)
    ensures
        live(db).contains_key(id) <==> db.contains_key(id) && !db[id].deleted,
        live(db).contains_key(id) ==> (live(db)[id].contains_key(name)
            <==> db[id].fields.contains_key(name)),
        live(db).contains_key(id) && db[id].fields.contains_key(name) ==> live(db)[id][name]
            == db[id].fields[name].0,
{
}

/// The contents of some documents are the fields of each.
pub proof fn contents_are_the_fields_of_each(docs: StringMap<Document>, id: Seq<char>)
    ensures
        contents(docs).contains_key(id) <==> docs@.contains_key(id),
        docs@.contains_key(id) ==> contents(docs)[id] == fields(docs@[id]),
{
}

/// Replacing a document leaves what was written and nothing else, under the key of the operation.
pub proof fn a_replacement_writes_all(
    db: Db,
    key: Key,
    id: Seq<char>,
    object: Fields,
    name: Seq<char>,
)
    ensures
        ({
            let after = applied(db, Edit { key, doc_id: id, change: Change::Replace(object) });
            &&& live(after).contains_key(id)
            &&& live(after)[id] == object
            &&& after[id].fields.contains_key(name) <==> object.contains_key(name)
            &&& object.contains_key(name) ==> after[id].fields[name] == (object[name], key)
            &&& after[id].baseline == Some(key)
        }),
{
    let after = applied(db, Edit { key, doc_id: id, change: Change::Replace(object) });
    assert(live(after)[id] =~= object);
}

/// Deleting a document leaves a tombstone without fields.
pub proof fn a_deletion_leaves_a_tombstone(db: Db, key: Key, id: Seq<char>, name: Seq<char>)
    ensures
        ({
            let after = applied(db, Edit { key, doc_id: id, change: Change::Delete });
            &&& !live(after).contains_key(id)
            &&& after.contains_key(id)
            &&& after[id].deleted
            &&& !after[id].fields.contains_key(name)
            &&& after[id].baseline == Some(key)
        }),
{
}

/// Patching a document writes each field that the patch names and that no operation of the same or
/// a later key has written; `null` takes the field away. The other fields stay, and the document
/// is there.
pub proof fn a_patch_writes_its_fields(
    db: Db,
    key: Key,
    id: Seq<char>,
    patch: Fields,
    name: Seq<char>,
)
    ensures
        ({
            let after = applied(db, Edit { key, doc_id: id, change: Change::Patch(patch) });
            let had = db.contains_key(id) && db[id].fields.contains_key(name);
            &&& live(after).contains_key(id)
            &&& db.contains_key(id) ==> after[id].baseline == db[id].baseline
            &&& !db.contains_key(id) ==> after[id].baseline is None
            &&& if !patch.contains_key(name) || (had && !key_lt(db[id].fields[name].1, key)) {
                &&& after[id].fields.contains_key(name) <==> had
                &&& had ==> after[id].fields[name] == db[id].fields[name]
            } else if patch[name] == Json::Null {
                !after[id].fields.contains_key(name)
            } else {
                after[id].fields.contains_key(name) && after[id].fields[name] == (patch[name], key)
            }
        }),
{
    let doc = remembered(db, id);
    let left = field_after_patch(doc.fields, patch, key, name);
    let after = applied(db, Edit { key, doc_id: id, change: Change::Patch(patch) });
    assert(after[id].fields.contains_key(name) == (left is Some));
}

/// An operation changes no document but its own.
pub proof fn an_operation_changes_its_document_alone(db: Db, e: Edit, id: Seq<char>)
    requires
        id != e.doc_id,
    ensures
        applied(db, e).contains_key(id) <==> db.contains_key(id),
        db.contains_key(id) ==> applied(db, e)[id] == db[id],
{
}

/// Delivering adds an operation under its key. Where the key is there, the operation delivered
/// last takes its place.
pub proof fn delivering_adds_under_the_key(delivered: Seq<Edit>, e: Edit)
    ensures
        union(Seq::empty()) == Map::<Key, Edit>::empty(),
        union(delivered.push(e)) == union(delivered).insert(e.key, e),
{
    assert(delivered.push(e).drop_last() =~= delivered);
}

/// Folding applies one operation after the other.
pub proof fn folding_applies_one_after_the_other(db: Db, s: Seq<Edit>, e: Edit)
    ensures
        fold(db, Seq::empty()) == db,
        fold(db, s.push(e)) == applied(fold(db, s), e),
{
    assert(s.push(e).drop_last() =~= s);
}

/// What is read of a union is what its operations, in the ascending order of their keys, make of
/// an empty collection.
pub proof fn a_union_is_folded_in_key_order(delivered: Seq<Edit>, s: Seq<Edit>)
    requires
        forall|i: int, j: int|
            0 <= i < j < s.len() ==> key_lt((#[trigger] s[i]).key, (#[trigger] s[j]).key),
        forall|i: int|
            0 <= i < s.len() ==> union(delivered).contains_key((#[trigger] s[i]).key) && union(
                delivered,
            )[s[i].key] == s[i],
        forall|key: Key| #[trigger]
            union(delivered).contains_key(key) ==> exists|i: int|
                0 <= i < s.len() && (#[trigger] s[i]).key == key,
    ensures
        ordered(union(delivered)) == s,
        converged(union(delivered)) == fold(Map::empty(), s),
{
    let merged = union(delivered);
    assert(in_key_order(s));
    assert forall|key: Key|
        #![trigger by_key(s).dom().contains(key)]
        #![trigger merged.dom().contains(key)]
        by_key(s).dom().contains(key) == merged.dom().contains(key) && (by_key(
            s,
        ).dom().contains(key) ==> by_key(s)[key] == merged[key]) by {
        if by_key(s).dom().contains(key) {
            let i = key_place(s, key);
            assert(0 <= i < s.len() && s[i].key == key);
            assert(merged.contains_key(s[i].key));
        }
        if merged.dom().contains(key) {
            assert(merged.contains_key(key));
            let i = choose|i: int| 0 <= i < s.len() && (#[trigger] s[i]).key == key;
            assert(by_key(s).contains_key(key));
        }
    }
    assert(by_key(s) =~= merged);
    ordered_is_unique(s);
}

/// Replicas that have received the same operations read the same documents.
pub proof fn the_same_operations_give_the_same_documents(a: Seq<Edit>, b: Seq<Edit>)
    requires
        forall|i: int, j: int|
            0 <= i < a.len() && 0 <= j < a.len() && (#[trigger] a[i]).key == (#[trigger] a[j]).key
                ==> a[i] == a[j],
        forall|e: Edit| #[trigger] a.contains(e) <==> b.contains(e),
    ensures
        live(converged(union(a))) == live(converged(union(b))),
        union(a) == union(b),
{
    replicas_converge(a, b);
}

/// What a change decides, and what it makes of what it decides.
pub proof fn what_a_change_decides(object: Fields, name: Seq<char>)
    ensures
        decides(Change::Replace(object), name),
        outcome(Change::Replace(object), name) == if object.contains_key(name) {
            Some(object[name])
        } else {
            None
        },
        decides(Change::Patch(object), name) <==> object.contains_key(name),
        object.contains_key(name) ==> outcome(Change::Patch(object), name) == if object[name]
            == Json::Null {
            None
        } else {
            Some(object[name])
        },
        decides(Change::Delete, name),
        outcome(Change::Delete, name) is None,
{
}

/// The last operation that writes or clears a field decides what is read of it.
pub proof fn the_last_write_of_a_field_is_read(delivered: Seq<Edit>, e: Edit, name: Seq<char>)
    requires
        union(delivered).contains_key(e.key),
        union(delivered)[e.key] == e,
        e.change matches Change::Patch(patch) ==> patch.contains_key(name),
        forall|key: Key| #[trigger]
            union(delivered).contains_key(key) && union(delivered)[key].doc_id == e.doc_id
                && key_lt(e.key, key) ==> union(delivered)[key].change is Patch && !union(
                delivered,
            )[key].change->Patch_0.contains_key(name),
    ensures
        ({
            let db = converged(union(delivered));
            let left = match e.change {
                Change::Replace(object) => if object.contains_key(name) {
                    Some(object[name])
                } else {
                    None
                },
                Change::Patch(patch) => if patch[name] == Json::Null {
                    None
                } else {
                    Some(patch[name])
                },
                Change::Delete => None,
            };
            &&& db.contains_key(e.doc_id)
            &&& left is None ==> !db[e.doc_id].fields.contains_key(name)
            &&& left is Some ==> db[e.doc_id].fields.contains_key(name)
                && db[e.doc_id].fields[name].0 == left->0
        }),
{
    let merged = union(delivered);
    crate::merge::union_keys_are_its_own(delivered);
    assert forall|f: Edit| #[trigger]
        is_merged(merged, f) && f.doc_id == e.doc_id && key_lt(e.key, f.key) implies !decides(
        f.change,
        name,
    ) by {
        assert(merged.contains_key(f.key));
    }
    assert(is_last_to_decide(merged, e, name));
    last_writer_wins_each_field(delivered, e, name);
    let doc = converged(merged)[e.doc_id];
    assert(plain_fields(doc).contains_key(name) == doc.fields.contains_key(name));
    assert(plain_fields(doc).get(name) == outcome(e.change, name));
}

/// The key of the next write is one above the clock and above every merged operation, and no
/// higher, under the id of the device.
pub proof fn the_next_key_is_one_higher(device: Device, delivered: Seq<Edit>)
    requires
        device.merged == union(delivered),
        device.has_time(),
    ensures
        device.next_key().writer == device.writer,
        device.next_key().lamport > device.clock,
        forall|key: Key| #[trigger]
            device.merged.contains_key(key) ==> key.lamport < device.next_key().lamport,
        device.next_key().lamport - 1 == device.clock || exists|key: Key| #[trigger]
            device.merged.contains_key(key) && key.lamport == device.next_key().lamport - 1,
{
    highest_exists(delivered);
    assert(is_highest(device.merged, highest(device.merged)));
}

/// The clock has a next value where neither it nor a merged operation stands at the end.
pub proof fn time_is_left_below_the_end(device: Device, delivered: Seq<Edit>)
    requires
        device.merged == union(delivered),
    ensures
        device.has_time() <==> device.clock < u64::MAX && forall|key: Key| #[trigger]
            device.merged.contains_key(key) ==> key.lamport < u64::MAX,
        device.advanced() >= device.clock,
        forall|key: Key| #[trigger]
            device.merged.contains_key(key) ==> key.lamport <= device.advanced(),
        device.advanced() == device.clock || exists|key: Key| #[trigger]
            device.merged.contains_key(key) && key.lamport == device.advanced(),
        forall|key: Key| #[trigger]
            device.merged.contains_key(key) ==> key.lamport <= highest(device.merged),
        highest(device.merged) == 0 || exists|key: Key| #[trigger]
            device.merged.contains_key(key) && key.lamport == highest(device.merged),
{
    highest_exists(delivered);
    assert(is_highest(device.merged, highest(device.merged)));
}

/// A write is stamped with the next key, and the clock moves to it. Nothing else of the device
/// changes.
pub proof fn stamping_moves_the_clock_alone(device: Device, doc_id: Seq<char>, change: Change)
    ensures
        device.stamped(doc_id, change).key == device.next_key(),
        device.stamped(doc_id, change).doc_id == doc_id,
        device.stamped(doc_id, change).change == change,
        device.ticked().clock == device.next_key().lamport,
        device.ticked().name == device.name,
        device.ticked().writer == device.writer,
        device.ticked().merged == device.merged,
{
}

/// A device reads what its operations fold to.
pub proof fn a_device_reads_what_its_operations_fold_to(device: Device)
    ensures
        device.documents() == live(converged(device.merged)),
{
}

} // verus!
