//! What holds of every collection, whatever was written and in whatever order it arrived.

use crate::doc::{
    applied, field_after_patch, key_lt, key_order_is_total, key_order_is_transitive, live, patched,
    plain_fields, remembered, Change, Db, Edit, Key,
};
use crate::json::Json;
use crate::merge::{
    by_key, converged, fold, in_key_order, key_place, newest_comes_last, ordered, union,
    union_is_orderable,
};
use vstd::prelude::*;

verus! {

/// Operations that share a key are the same operation.
pub open spec fn keys_are_unique(s: Seq<Edit>) -> bool {
    forall|i: int, j: int|
        0 <= i < s.len() && 0 <= j < s.len() && (#[trigger] s[i]).key == (#[trigger] s[j]).key
            ==> s[i] == s[j]
}

/// A union holds exactly what was delivered.
pub proof fn union_holds_what_was_delivered(delivered: Seq<Edit>)
    requires
        keys_are_unique(delivered),
    ensures
        forall|e: Edit| #[trigger] delivered.contains(e) <==> union(delivered).contains_pair(e.key, e),
        forall|key: Key| #[trigger]
            union(delivered).contains_key(key) ==> delivered.contains(union(delivered)[key])
                && union(delivered)[key].key == key,
    decreases delivered.len(),
{
    if delivered.len() > 0 {
        let rest = delivered.drop_last();
        let last = delivered.last();
        assert forall|i: int, j: int|
            0 <= i < rest.len() && 0 <= j < rest.len() && (#[trigger] rest[i]).key == (
            #[trigger] rest[j]).key implies rest[i] == rest[j] by {
            assert(delivered[i].key == delivered[j].key);
        }
        union_holds_what_was_delivered(rest);
        assert(delivered =~= rest.push(last));
        assert forall|e: Edit| #[trigger] delivered.contains(e) <==> union(
            delivered,
        ).contains_pair(e.key, e) by {
            assert(delivered.contains(e) <==> rest.contains(e) || e == last) by {
                if rest.contains(e) {
                    let i = choose|i: int| 0 <= i < rest.len() && rest[i] == e;
                    assert(delivered[i] == e);
                }
                assert(delivered[delivered.len() - 1] == last);
                if delivered.contains(e) && e != last {
                    let i = choose|i: int| 0 <= i < delivered.len() && delivered[i] == e;
                    assert(rest[i] == e);
                }
            }
            if rest.contains(e) && e.key == last.key {
                let i = choose|i: int| 0 <= i < rest.len() && rest[i] == e;
                assert(delivered[i].key == delivered[delivered.len() - 1].key);
            }
        }
        assert forall|key: Key| #[trigger] union(delivered).contains_key(key) implies
            delivered.contains(union(delivered)[key]) && union(delivered)[key].key == key by {
            if key == last.key {
                assert(delivered[delivered.len() - 1] == last);
            } else {
                let e = union(rest)[key];
                assert(union(rest).contains_key(key));
                let i = choose|i: int| 0 <= i < rest.len() && rest[i] == e;
                assert(delivered[i] == e);
            }
        }
    }
}

/// Convergence: replicas that have received the same operations, in whatever order and however
/// often each, have the same union and fold it to the same documents.
pub proof fn replicas_converge(a: Seq<Edit>, b: Seq<Edit>)
    requires
        keys_are_unique(a),
        forall|e: Edit| #[trigger] a.contains(e) <==> b.contains(e),
    ensures
        union(a) == union(b),
        converged(union(a)) == converged(union(b)),
        live(converged(union(a))) == live(converged(union(b))),
{
    assert forall|i: int, j: int|
        0 <= i < b.len() && 0 <= j < b.len() && (#[trigger] b[i]).key == (#[trigger] b[j]).key implies
        b[i] == b[j] by {
        assert(b.contains(b[i]) && b.contains(b[j]));
        assert(a.contains(b[i]) && a.contains(b[j]));
        let x = choose|x: int| 0 <= x < a.len() && a[x] == b[i];
        let y = choose|y: int| 0 <= y < a.len() && a[y] == b[j];
        assert(a[x].key == a[y].key);
    }
    union_holds_what_was_delivered(a);
    union_holds_what_was_delivered(b);
    assert forall|key: Key|
        #![trigger union(a).dom().contains(key)]
        #![trigger union(b).dom().contains(key)]
        union(a).dom().contains(key) == union(b).dom().contains(key) && (union(a).dom().contains(
            key,
        ) ==> union(a)[key] == union(b)[key]) by {
        if union(a).contains_key(key) {
            let e = union(a)[key];
            assert(a.contains(e) && b.contains(e));
            assert(union(b).contains_pair(e.key, e));
        }
        if union(b).contains_key(key) {
            let e = union(b)[key];
            assert(b.contains(e) && a.contains(e));
            assert(union(a).contains_pair(e.key, e));
        }
    }
    assert(union(a) =~= union(b));
}

/// Delivering an operation again changes nothing.
pub proof fn redelivery_changes_nothing(delivered: Seq<Edit>, e: Edit)
    requires
        keys_are_unique(delivered),
        delivered.contains(e),
    ensures
        union(delivered.push(e)) == union(delivered),
{
    union_holds_what_was_delivered(delivered);
    assert(delivered.push(e).drop_last() =~= delivered);
    assert(union(delivered.push(e)) =~= union(delivered));
}

/// Folding a tail onto what a head folded to is folding all: a reader that starts from a state
/// and replays what came later ends where one that saw everything ends.
pub proof fn replay_resumes(db: Db, head: Seq<Edit>, tail: Seq<Edit>)
    ensures
        fold(fold(db, head), tail) == fold(db, head + tail),
    decreases tail.len(),
{
    if tail.len() == 0 {
        assert(head + tail =~= head);
    } else {
        replay_resumes(db, head, tail.drop_last());
        assert((head + tail).drop_last() =~= head + tail.drop_last());
        assert((head + tail).last() == tail.last());
    }
}

/// An operation on one document leaves the others as they are.
pub proof fn other_documents_stay(db: Db, e: Edit, id: Seq<char>)
    requires
        id != e.doc_id,
    ensures
        applied(db, e).contains_key(id) == db.contains_key(id),
        db.contains_key(id) ==> applied(db, e)[id] == db[id],
        live(applied(db, e)).contains_key(id) == live(db).contains_key(id),
        live(db).contains_key(id) ==> live(applied(db, e))[id] == live(db)[id],
{
}

/// A change decides a field: whole-document changes decide every field, a patch those it names.
pub open spec fn decides(change: Change, name: Seq<char>) -> bool {
    match change {
        Change::Patch(patch) => patch.contains_key(name),
        _ => true,
    }
}

/// What a change makes of a field that it decides.
pub open spec fn outcome(change: Change, name: Seq<char>) -> Option<Json> {
    match change {
        Change::Replace(object) => object.get(name),
        Change::Patch(patch) => if patch[name] is Null {
            None
        } else {
            Some(patch[name])
        },
        Change::Delete => None,
    }
}

/// Every field was written with the key of an operation that was folded, so with one below any
/// key that is above theirs.
proof fn fields_are_older(s: Seq<Edit>, key: Key)
    requires
        forall|i: int| 0 <= i < s.len() ==> key_lt((#[trigger] s[i]).key, key),
    ensures
        forall|id: Seq<char>, name: Seq<char>|
            #![trigger fold(Map::empty(), s)[id].fields.contains_key(name)]
            fold(Map::empty(), s).contains_key(id) && fold(
                Map::empty(),
                s,
            )[id].fields.contains_key(name) ==> key_lt(
                fold(Map::empty(), s)[id].fields[name].1,
                key,
            ),
    decreases s.len(),
{
    if s.len() > 0 {
        let rest = s.drop_last();
        let last = s.last();
        assert forall|i: int| 0 <= i < rest.len() implies key_lt((#[trigger] rest[i]).key, key) by {
            assert(rest[i] == s[i]);
        }
        assert(key_lt(s[s.len() - 1].key, key));
        fields_are_older(rest, key);
        let before = fold(Map::empty(), rest);
        let after = fold(Map::empty(), s);
        assert forall|id: Seq<char>, name: Seq<char>|
            #![trigger after[id].fields.contains_key(name)]
            after.contains_key(id) && after[id].fields.contains_key(name) implies key_lt(
            after[id].fields[name].1,
            key,
        ) by {
            if id == last.doc_id {
                let doc = remembered(before, id);
                match last.change {
                    Change::Patch(patch) => {
                        let left = field_after_patch(doc.fields, patch, last.key, name);
                        assert(left == Some(after[id].fields[name]));
                        if left != Some((patch[name], last.key)) {
                            assert(doc.fields.contains_key(name));
                            assert(before[id].fields.contains_key(name));
                        }
                    },
                    _ => {},
                }
            } else {
                assert(before[id].fields.contains_key(name));
            }
        }
    }
}

/// The last operation that decides a field, in a fold in key order.
proof fn field_in_fold(s: Seq<Edit>, i: int, name: Seq<char>)
    requires
        in_key_order(s),
        0 <= i < s.len(),
        decides(s[i].change, name),
        forall|j: int|
            i < j < s.len() && (#[trigger] s[j]).doc_id == s[i].doc_id ==> !decides(
                s[j].change,
                name,
            ),
    ensures
        fold(Map::empty(), s).contains_key(s[i].doc_id),
        fold(Map::empty(), s)[s[i].doc_id].fields.get(name) == match outcome(s[i].change, name) {
            Some(v) => Some((v, s[i].key)),
            None => None,
        },
    decreases s.len(),
{
    let rest = s.drop_last();
    let last = s.last();
    let id = s[i].doc_id;
    let before = fold(Map::empty(), rest);
    if i == s.len() - 1 {
        let doc = remembered(before, id);
        match last.change {
            Change::Patch(patch) => {
                assert forall|j: int| 0 <= j < rest.len() implies key_lt(
                    (#[trigger] rest[j]).key,
                    last.key,
                ) by {
                    assert(key_lt(s[j].key, s[i].key));
                }
                fields_are_older(rest, last.key);
                if doc.fields.contains_key(name) {
                    assert(before[id].fields.contains_key(name));
                }
                assert(patched(doc.fields, patch, last.key).get(name) == field_after_patch(
                    doc.fields,
                    patch,
                    last.key,
                    name,
                ));
            },
            _ => {},
        }
    } else {
        assert forall|a: int, b: int| 0 <= a < b < rest.len() implies key_lt(
            (#[trigger] rest[a]).key,
            (#[trigger] rest[b]).key,
        ) by {
            assert(key_lt(s[a].key, s[b].key));
        }
        assert forall|j: int|
            i < j < rest.len() && (#[trigger] rest[j]).doc_id == rest[i].doc_id implies !decides(
            rest[j].change,
            name,
        ) by {
            assert(s[j].doc_id == s[i].doc_id);
        }
        field_in_fold(rest, i, name);
        if last.doc_id == id {
            assert(!decides(s[s.len() - 1].change, name));
            let patch = last.change->Patch_0;
            let doc = before[id];
            assert(patched(doc.fields, patch, last.key).get(name) == field_after_patch(
                doc.fields,
                patch,
                last.key,
                name,
            ));
        }
    }
}

/// The last operation on a document, in a fold.
proof fn document_in_fold(s: Seq<Edit>, i: int)
    requires
        0 <= i < s.len(),
        forall|j: int| i < j < s.len() ==> (#[trigger] s[j]).doc_id != s[i].doc_id,
    ensures
        fold(Map::empty(), s).contains_key(s[i].doc_id),
        fold(Map::empty(), s)[s[i].doc_id].deleted == (s[i].change is Delete),
    decreases s.len(),
{
    if i < s.len() - 1 {
        let rest = s.drop_last();
        assert forall|j: int| i < j < rest.len() implies (#[trigger] rest[j]).doc_id
            != rest[i].doc_id by {
            assert(s[j].doc_id != s[i].doc_id);
        }
        document_in_fold(rest, i);
        assert(s[s.len() - 1].doc_id != s[i].doc_id);
    }
}

/// A document that no operation names is not there.
proof fn unnamed_in_fold(s: Seq<Edit>, id: Seq<char>)
    requires
        forall|j: int| 0 <= j < s.len() ==> (#[trigger] s[j]).doc_id != id,
    ensures
        !fold(Map::empty(), s).contains_key(id),
    decreases s.len(),
{
    if s.len() > 0 {
        let rest = s.drop_last();
        assert forall|j: int| 0 <= j < rest.len() implies (#[trigger] rest[j]).doc_id != id by {
            assert(s[j].doc_id != id);
        }
        unnamed_in_fold(rest, id);
        assert(s[s.len() - 1].doc_id != id);
    }
}

/// A field that no operation on its document decides is not there.
proof fn undecided_in_fold(s: Seq<Edit>, id: Seq<char>, name: Seq<char>)
    requires
        forall|j: int|
            0 <= j < s.len() && (#[trigger] s[j]).doc_id == id ==> !decides(s[j].change, name),
    ensures
        !remembered(fold(Map::empty(), s), id).fields.contains_key(name),
    decreases s.len(),
{
    if s.len() > 0 {
        let rest = s.drop_last();
        let last = s.last();
        assert forall|j: int| 0 <= j < rest.len() && (#[trigger] rest[j]).doc_id == id implies
            !decides(rest[j].change, name) by {
            assert(s[j].doc_id == id);
        }
        undecided_in_fold(rest, id, name);
        if last.doc_id == id {
            assert(!decides(s[s.len() - 1].change, name));
            let doc = remembered(fold(Map::empty(), rest), id);
            let patch = last.change->Patch_0;
            assert(field_after_patch(doc.fields, patch, last.key, name) is None);
        }
    }
}

/// `e` is among the merged operations.
pub open spec fn is_merged(merged: Map<Key, Edit>, e: Edit) -> bool {
    merged.contains_pair(e.key, e)
}

/// No merged operation on the document of `e` comes after `e`.
pub open spec fn is_last(merged: Map<Key, Edit>, e: Edit) -> bool {
    &&& is_merged(merged, e)
    &&& forall|f: Edit| #[trigger]
        is_merged(merged, f) && f.doc_id == e.doc_id ==> !key_lt(e.key, f.key)
}

/// `e` decides the field, and no merged operation on the document of `e` that comes after `e`
/// does.
pub open spec fn is_last_to_decide(merged: Map<Key, Edit>, e: Edit, name: Seq<char>) -> bool {
    &&& is_merged(merged, e)
    &&& decides(e.change, name)
    &&& forall|f: Edit| #[trigger]
        is_merged(merged, f) && f.doc_id == e.doc_id && key_lt(e.key, f.key) ==> !decides(
            f.change,
            name,
        )
}

/// Where a merged operation stands in the key order, and what stands there.
proof fn listing_of_union(delivered: Seq<Edit>)
    ensures
        in_key_order(ordered(union(delivered))),
        forall|i: int|
            0 <= i < ordered(union(delivered)).len() ==> is_merged(
                union(delivered),
                #[trigger] ordered(union(delivered))[i],
            ),
        forall|e: Edit| #[trigger]
            is_merged(union(delivered), e) ==> {
                let i = key_place(ordered(union(delivered)), e.key);
                0 <= i < ordered(union(delivered)).len() && ordered(union(delivered))[i] == e
            },
{
    let merged = union(delivered);
    let s = ordered(merged);
    union_is_orderable(delivered);
    assert forall|i: int| 0 <= i < s.len() implies is_merged(merged, #[trigger] s[i]) by {
        let p = key_place(s, s[i].key);
        assert(0 <= p < s.len() && s[p].key == s[i].key);
        key_order_is_total(s[i].key, s[p].key);
        assert(by_key(s).contains_key(s[i].key));
    }
    assert forall|e: Edit| #[trigger] is_merged(merged, e) implies {
        let i = key_place(s, e.key);
        0 <= i < s.len() && s[i] == e
    } by {
        assert(by_key(s).contains_key(e.key));
    }
}

/// Last writer wins, field by field: a field is what the last operation that decides it makes of
/// it.
pub proof fn last_writer_wins_each_field(delivered: Seq<Edit>, e: Edit, name: Seq<char>)
    requires
        is_last_to_decide(union(delivered), e, name),
    ensures
        converged(union(delivered)).contains_key(e.doc_id),
        plain_fields(converged(union(delivered))[e.doc_id]).get(name) == outcome(e.change, name),
{
    let merged = union(delivered);
    let s = ordered(merged);
    listing_of_union(delivered);
    let i = key_place(s, e.key);
    assert forall|j: int| i < j < s.len() && (#[trigger] s[j]).doc_id == s[i].doc_id implies !decides(
        s[j].change,
        name,
    ) by {
        assert(is_merged(merged, s[j]));
        assert(key_lt(s[i].key, s[j].key));
    }
    field_in_fold(s, i, name);
}

/// A field that no operation on its document decides is not in the document.
pub proof fn unwritten_fields_are_absent(delivered: Seq<Edit>, id: Seq<char>, name: Seq<char>)
    requires
        forall|f: Edit| #[trigger]
            is_merged(union(delivered), f) && f.doc_id == id ==> !decides(f.change, name),
    ensures
        live(converged(union(delivered))).contains_key(id) ==> !live(
            converged(union(delivered)),
        )[id].contains_key(name),
{
    let s = ordered(union(delivered));
    listing_of_union(delivered);
    assert forall|j: int| 0 <= j < s.len() && (#[trigger] s[j]).doc_id == id implies !decides(
        s[j].change,
        name,
    ) by {
        assert(is_merged(union(delivered), s[j]));
    }
    undecided_in_fold(s, id, name);
}

/// A document is there exactly where the last operation on it is no deletion: an older operation
/// never brings a deleted document back, and a newer one does.
pub proof fn last_operation_decides_existence(delivered: Seq<Edit>, e: Edit)
    requires
        is_last(union(delivered), e),
    ensures
        live(converged(union(delivered))).contains_key(e.doc_id) == !(e.change is Delete),
{
    let merged = union(delivered);
    let s = ordered(merged);
    listing_of_union(delivered);
    let i = key_place(s, e.key);
    assert forall|j: int| i < j < s.len() implies (#[trigger] s[j]).doc_id != s[i].doc_id by {
        assert(is_merged(merged, s[j]));
        assert(key_lt(s[i].key, s[j].key));
    }
    document_in_fold(s, i);
}

/// A document that no operation names is not there.
pub proof fn unnamed_documents_are_absent(delivered: Seq<Edit>, id: Seq<char>)
    requires
        forall|f: Edit| #[trigger] is_merged(union(delivered), f) ==> f.doc_id != id,
    ensures
        !converged(union(delivered)).contains_key(id),
        !live(converged(union(delivered))).contains_key(id),
{
    let s = ordered(union(delivered));
    listing_of_union(delivered);
    assert forall|j: int| 0 <= j < s.len() implies (#[trigger] s[j]).doc_id != id by {
        assert(is_merged(union(delivered), s[j]));
    }
    unnamed_in_fold(s, id);
}

/// A document that an operation names is remembered, as a tombstone where it was deleted.
pub proof fn named_documents_are_remembered(delivered: Seq<Edit>, e: Edit)
    requires
        is_merged(union(delivered), e),
    ensures
        converged(union(delivered)).contains_key(e.doc_id),
{
    let s = ordered(union(delivered));
    listing_of_union(delivered);
    named_in_fold(s, key_place(s, e.key));
}

/// A document that an operation names is remembered.
proof fn named_in_fold(s: Seq<Edit>, i: int)
    requires
        0 <= i < s.len(),
    ensures
        fold(Map::empty(), s).contains_key(s[i].doc_id),
    decreases s.len(),
{
    if i < s.len() - 1 {
        assert(s.drop_last()[i] == s[i]);
        named_in_fold(s.drop_last(), i);
    }
}

/// Whole-document last writer wins: where the last operation on a document replaces it, the
/// document is what that operation wrote, and nothing of what was written before.
pub proof fn last_replacement_wins(delivered: Seq<Edit>, e: Edit)
    requires
        is_last(union(delivered), e),
        e.change is Replace,
    ensures
        live(converged(union(delivered))).contains_key(e.doc_id),
        live(converged(union(delivered)))[e.doc_id] == e.change->Replace_0,
{
    last_operation_decides_existence(delivered, e);
    let object = e.change->Replace_0;
    let doc = live(converged(union(delivered)))[e.doc_id];
    assert forall|name: Seq<char>| #[trigger] doc.get(name) == object.get(name) by {
        last_writer_wins_each_field(delivered, e, name);
    }
    assert forall|name: Seq<char>|
        #![trigger doc.dom().contains(name)]
        #![trigger object.dom().contains(name)]
        doc.dom().contains(name) == object.dom().contains(name) && (doc.dom().contains(name)
            ==> doc[name] == object[name]) by {
        assert(doc.get(name) == object.get(name));
    }
    assert(doc =~= object);
}

/// Patches of different fields of one document both survive, whichever comes first, where
/// nothing else on that document comes after either of them.
pub proof fn concurrent_patches_both_survive(
    delivered: Seq<Edit>,
    a: Edit,
    b: Edit,
    x: Seq<char>,
    y: Seq<char>,
)
    requires
        is_merged(union(delivered), a),
        is_merged(union(delivered), b),
        a.doc_id == b.doc_id,
        a.change is Patch,
        b.change is Patch,
        a.change->Patch_0.contains_key(x) && !(a.change->Patch_0[x] is Null),
        b.change->Patch_0.contains_key(y) && !(b.change->Patch_0[y] is Null),
        !a.change->Patch_0.contains_key(y),
        !b.change->Patch_0.contains_key(x),
        forall|f: Edit| #[trigger]
            is_merged(union(delivered), f) && f.doc_id == a.doc_id && f != a && f != b
                ==> key_lt(f.key, a.key) && key_lt(f.key, b.key),
    ensures
        live(converged(union(delivered))).contains_key(a.doc_id),
        live(converged(union(delivered)))[a.doc_id].contains_pair(x, a.change->Patch_0[x]),
        live(converged(union(delivered)))[a.doc_id].contains_pair(y, b.change->Patch_0[y]),
{
    let merged = union(delivered);
    key_order_is_total(a.key, b.key);
    let last = if key_lt(a.key, b.key) {
        b
    } else {
        a
    };
    assert forall|f: Edit| #[trigger] is_merged(merged, f) && f.doc_id == last.doc_id implies !key_lt(
        last.key,
        f.key,
    ) by {
        key_order_is_total(last.key, f.key);
    }
    last_operation_decides_existence(delivered, last);
    assert forall|f: Edit| #[trigger]
        is_merged(merged, f) && f.doc_id == a.doc_id && key_lt(a.key, f.key) implies !decides(
        f.change,
        x,
    ) by {
        key_order_is_total(a.key, f.key);
    }
    assert forall|f: Edit| #[trigger]
        is_merged(merged, f) && f.doc_id == b.doc_id && key_lt(b.key, f.key) implies !decides(
        f.change,
        y,
    ) by {
        key_order_is_total(b.key, f.key);
    }
    last_writer_wins_each_field(delivered, a, x);
    last_writer_wins_each_field(delivered, b, y);
}

/// A patch brings a deleted document back with the fields of the patch alone, where it comes
/// after the deletion and nothing else on the document comes after the deletion.
pub proof fn patch_resurrects(delivered: Seq<Edit>, deletion: Edit, patch: Edit)
    requires
        is_merged(union(delivered), deletion),
        is_merged(union(delivered), patch),
        deletion.doc_id == patch.doc_id,
        deletion.change is Delete,
        patch.change is Patch,
        key_lt(deletion.key, patch.key),
        forall|f: Edit| #[trigger]
            is_merged(union(delivered), f) && f.doc_id == patch.doc_id && key_lt(
                deletion.key,
                f.key,
            ) ==> f == patch,
    ensures
        live(converged(union(delivered))).contains_key(patch.doc_id),
        forall|name: Seq<char>| #[trigger]
            live(converged(union(delivered)))[patch.doc_id].get(name) == if decides(
                patch.change,
                name,
            ) {
                outcome(patch.change, name)
            } else {
                None
            },
{
    let merged = union(delivered);
    assert forall|f: Edit| #[trigger] is_merged(merged, f) && f.doc_id == patch.doc_id implies !key_lt(
        patch.key,
        f.key,
    ) by {
        if key_lt(patch.key, f.key) {
            key_order_is_transitive(deletion.key, patch.key, f.key);
            key_order_is_total(patch.key, f.key);
        }
    }
    last_operation_decides_existence(delivered, patch);
    let doc = live(converged(merged))[patch.doc_id];
    assert forall|name: Seq<char>| #[trigger] doc.get(name) == if decides(patch.change, name) {
        outcome(patch.change, name)
    } else {
        None
    } by {
        if decides(patch.change, name) {
            last_writer_wins_each_field(delivered, patch, name);
        } else {
            last_writer_wins_each_field(delivered, deletion, name);
        }
    }
}

/// A tombstone holds no fields, and the key of the deletion is its baseline.
pub open spec fn tombstones_are_bare(db: Db) -> bool {
    forall|id: Seq<char>| #[trigger]
        db.contains_key(id) && db[id].deleted ==> db[id].fields == Map::<
            Seq<char>,
            (Json, Key),
        >::empty() && db[id].baseline is Some
}

/// No field was written before the document was last replaced or cleared.
pub open spec fn fields_follow_baseline(db: Db) -> bool {
    forall|id: Seq<char>, name: Seq<char>|
        #![trigger db[id].fields.contains_key(name)]
        db.contains_key(id) && db[id].fields.contains_key(name) && db[id].baseline is Some
            ==> !key_lt(db[id].fields[name].1, db[id].baseline->0)
}

/// Applying any operation keeps tombstones bare, in whatever order operations come.
pub proof fn tombstones_stay_bare(db: Db, e: Edit)
    requires
        tombstones_are_bare(db),
    ensures
        tombstones_are_bare(applied(db, e)),
{
    let after = applied(db, e);
    assert forall|id: Seq<char>| #[trigger] after.contains_key(id) && after[id].deleted implies
        after[id].fields == Map::<Seq<char>, (Json, Key)>::empty() && after[id].baseline is Some by {
        if id != e.doc_id {
            assert(db.contains_key(id));
        }
    }
}

/// What holds of every state that operations in key order fold to.
proof fn invariants_of_fold(s: Seq<Edit>)
    requires
        in_key_order(s),
    ensures
        tombstones_are_bare(fold(Map::empty(), s)),
        fields_follow_baseline(fold(Map::empty(), s)),
        forall|id: Seq<char>| #[trigger]
            fold(Map::empty(), s).contains_key(id) && fold(Map::empty(), s)[id].baseline is Some
                ==> exists|i: int|
                0 <= i < s.len() && (#[trigger] s[i]).key == fold(
                    Map::empty(),
                    s,
                )[id].baseline->0,
    decreases s.len(),
{
    if s.len() > 0 {
        let rest = s.drop_last();
        let last = s.last();
        let before = fold(Map::empty(), rest);
        let after = fold(Map::empty(), s);
        assert forall|a: int, b: int| 0 <= a < b < rest.len() implies key_lt(
            (#[trigger] rest[a]).key,
            (#[trigger] rest[b]).key,
        ) by {
            assert(key_lt(s[a].key, s[b].key));
        }
        invariants_of_fold(rest);
        tombstones_stay_bare(before, last);
        key_order_is_total(last.key, last.key);
        assert forall|id: Seq<char>, name: Seq<char>|
            #![trigger after[id].fields.contains_key(name)]
            after.contains_key(id) && after[id].fields.contains_key(name)
                && after[id].baseline is Some implies !key_lt(
            after[id].fields[name].1,
            after[id].baseline->0,
        ) by {
            if id == last.doc_id {
                let doc = remembered(before, id);
                match last.change {
                    Change::Patch(patch) => {
                        let left = field_after_patch(doc.fields, patch, last.key, name);
                        assert(left == Some(after[id].fields[name]));
                        assert(before.contains_key(id));
                        let i = choose|i: int|
                            0 <= i < rest.len() && (#[trigger] rest[i]).key == doc.baseline->0;
                        assert(key_lt(s[i].key, s[s.len() - 1].key));
                        key_order_is_total(rest[i].key, last.key);
                        if left != Some((patch[name], last.key)) {
                            assert(before[id].fields.contains_key(name));
                        }
                    },
                    _ => {},
                }
            } else {
                assert(before[id].fields.contains_key(name));
            }
        }
        assert forall|id: Seq<char>| #[trigger]
            after.contains_key(id) && after[id].baseline is Some implies exists|i: int|
            0 <= i < s.len() && (#[trigger] s[i]).key == after[id].baseline->0 by {
            if id == last.doc_id && !(last.change is Patch) {
                assert(s[s.len() - 1].key == after[id].baseline->0);
            } else {
                assert(before.contains_key(id));
                let i = choose|i: int|
                    0 <= i < rest.len() && (#[trigger] rest[i]).key == before[id].baseline->0;
                assert(s[i] == rest[i]);
            }
        }
    }
}

/// In every converged state tombstones hold no fields, and no field is older than the last
/// operation that replaced or cleared its document.
pub proof fn converged_state_is_consistent(delivered: Seq<Edit>)
    ensures
        tombstones_are_bare(converged(union(delivered))),
        fields_follow_baseline(converged(union(delivered))),
{
    listing_of_union(delivered);
    invariants_of_fold(ordered(union(delivered)));
}

/// An operation above every merged one is applied on top of what the others fold to.
pub proof fn newest_operation_is_applied_last(delivered: Seq<Edit>, e: Edit)
    requires
        forall|f: Edit| #[trigger] is_merged(union(delivered), f) ==> key_lt(f.key, e.key),
    ensures
        converged(union(delivered.push(e))) == applied(converged(union(delivered)), e),
{
    let s = ordered(union(delivered));
    listing_of_union(delivered);
    union_is_orderable(delivered);
    assert forall|i: int| 0 <= i < s.len() implies key_lt((#[trigger] s[i]).key, e.key) by {
        assert(is_merged(union(delivered), s[i]));
    }
    newest_comes_last(s, e);
    assert(delivered.push(e).drop_last() =~= delivered);
    assert(s.push(e).drop_last() =~= s);
}

/// What was written last is what is read: a replaced document is what replaced it, a patched one
/// is what it was with the fields of the patch put over it, a deleted one is gone. The other
/// documents stay as they were.
pub proof fn newest_write_is_read_back(delivered: Seq<Edit>, e: Edit)
    requires
        forall|f: Edit| #[trigger] is_merged(union(delivered), f) ==> key_lt(f.key, e.key),
    ensures
        live(converged(union(delivered.push(e)))).contains_key(e.doc_id) == !(e.change is Delete),
        e.change matches Change::Replace(object) ==> live(
            converged(union(delivered.push(e))),
        )[e.doc_id] == object,
        e.change is Patch ==> forall|name: Seq<char>| #[trigger]
            live(converged(union(delivered.push(e))))[e.doc_id].get(name) == if decides(
                e.change,
                name,
            ) {
                outcome(e.change, name)
            } else if live(converged(union(delivered))).contains_key(e.doc_id) {
                live(converged(union(delivered)))[e.doc_id].get(name)
            } else {
                None
            },
        forall|id: Seq<char>|
            id != e.doc_id ==> #[trigger] live(converged(union(delivered.push(e)))).get(id) == live(
                converged(union(delivered)),
            ).get(id),
{
    let merged = union(delivered);
    let before = converged(merged);
    let after = converged(union(delivered.push(e)));
    newest_operation_is_applied_last(delivered, e);
    converged_state_is_consistent(delivered);
    let s = ordered(merged);
    listing_of_union(delivered);
    assert forall|i: int| 0 <= i < s.len() implies key_lt((#[trigger] s[i]).key, e.key) by {
        assert(is_merged(merged, s[i]));
    }
    fields_are_older(s, e.key);
    match e.change {
        Change::Replace(object) => {
            assert(live(after)[e.doc_id] =~= object);
        },
        Change::Patch(patch) => {
            let doc = remembered(before, e.doc_id);
            assert forall|name: Seq<char>| #[trigger]
                live(after)[e.doc_id].get(name) == if decides(e.change, name) {
                    outcome(e.change, name)
                } else if live(before).contains_key(e.doc_id) {
                    live(before)[e.doc_id].get(name)
                } else {
                    None
                } by {
                let left = field_after_patch(doc.fields, patch, e.key, name);
                if doc.fields.contains_key(name) {
                    assert(before[e.doc_id].fields.contains_key(name));
                }
            }
        },
        Change::Delete => {},
    }
    assert forall|id: Seq<char>| id != e.doc_id implies #[trigger] live(after).get(id) == live(
        before,
    ).get(id) by {
        assert(after.contains_key(id) == before.contains_key(id));
    }
}

} // verus!
