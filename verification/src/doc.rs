//! The document model and the machine that folds operations into documents.
//!
//! A collection maps document ids to documents. Every write is one [`DocOp`] with a key, and the
//! keys order all writes of all writers. [`DbMachine::apply`] takes one operation after the other:
//!
//! * [`OpKind::Replace`] replaces the whole document.
//! * [`OpKind::Patch`] merges fields. A field write loses against a field write with a key that is
//!   not lower, field by field. A field that is written `null` is removed.
//! * [`OpKind::Delete`] leaves a tombstone. A later `Replace` or `Patch` brings the document back.

use crate::json::{copy_document, fields, Document, Fields, Json, Value};
use crate::map::StringMap;
use crate::text::{
    compare_text, text_lt, text_lt_asymmetric, text_lt_irreflexive, text_lt_total,
    text_lt_transitive, Order,
};
use vstd::prelude::*;
use vstd::seq_lib::*;

verus! {

/// The key of an operation: a Lamport clock paired with the id of the writer. A writer never
/// uses a clock value twice, so no two operations share a key.
#[derive(Debug, PartialEq, Eq, PartialOrd, Ord)]
pub struct OpKey {
    /// The Lamport clock of the writer, advanced past every clock value that it has seen.
    pub lamport: u64,
    /// The id of the writer. Breaks ties between equal clock values.
    pub writer: String,
}

/// One change to one document of a collection.
#[derive(Debug, PartialEq, Eq)]
pub struct DocOp {
    /// The key, which decides what wins on conflict.
    pub key: OpKey,
    /// The document that the operation changes.
    pub doc_id: String,
    /// What it does to the document.
    pub kind: OpKind,
}

/// The three changes to a document.
#[derive(Debug, PartialEq, Eq)]
pub enum OpKind {
    /// Replace the whole document.
    Replace(Document),
    /// Merge these fields into the document. A field that is `null` here is removed.
    Patch(Document),
    /// Leave a tombstone.
    Delete,
}

/// The mathematical model of [`OpKey`].
pub struct Key {
    /// The Lamport clock.
    pub lamport: u64,
    /// The writer.
    pub writer: Seq<char>,
}

/// The mathematical model of [`OpKind`].
pub enum Change {
    /// Replace the whole document.
    Replace(Fields),
    /// Merge fields.
    Patch(Fields),
    /// Leave a tombstone.
    Delete,
}

/// The mathematical model of [`DocOp`].
pub struct Edit {
    /// The key.
    pub key: Key,
    /// The document.
    pub doc_id: Seq<char>,
    /// The change.
    pub change: Change,
}

/// `a` comes before `b`: by clock, then by writer.
pub open spec fn key_lt(a: Key, b: Key) -> bool {
    a.lamport < b.lamport || (a.lamport == b.lamport && text_lt(a.writer, b.writer))
}

/// The order of keys is a strict total order.
pub proof fn key_order_is_total(a: Key, b: Key)
    ensures
        !key_lt(a, a),
        !(key_lt(a, b) && key_lt(b, a)),
        a == b || key_lt(a, b) || key_lt(b, a),
{
    text_lt_irreflexive(a.writer);
    if a.writer != b.writer {
        text_lt_total(a.writer, b.writer);
    }
    if key_lt(a, b) && key_lt(b, a) {
        text_lt_asymmetric(a.writer, b.writer);
    }
}

/// The order of keys is transitive.
pub proof fn key_order_is_transitive(a: Key, b: Key, c: Key)
    requires
        key_lt(a, b),
        key_lt(b, c),
    ensures
        key_lt(a, c),
{
    if a.lamport == b.lamport && b.lamport == c.lamport {
        text_lt_transitive(a.writer, b.writer, c.writer);
    }
}

impl View for OpKey {
    type V = Key;

    open spec fn view(&self) -> Key {
        Key { lamport: self.lamport, writer: self.writer@ }
    }
}

impl View for OpKind {
    type V = Change;

    open spec fn view(&self) -> Change {
        match self {
            OpKind::Replace(doc) => Change::Replace(fields(*doc)),
            OpKind::Patch(doc) => Change::Patch(fields(*doc)),
            OpKind::Delete => Change::Delete,
        }
    }
}

impl View for DocOp {
    type V = Edit;

    open spec fn view(&self) -> Edit {
        Edit { key: self.key@, doc_id: self.doc_id@, change: self.kind@ }
    }
}

impl OpKey {
    /// Does this key come before the other?
    pub fn precedes(&self, other: &OpKey) -> (r: bool)
        ensures
            r == key_lt(self@, other@),
    {
        if self.lamport != other.lamport {
            return self.lamport < other.lamport;
        }
        proof {
            text_lt_irreflexive(self.writer@);
        }
        match compare_text(&self.writer, &other.writer) {
            Order::Less => true,
            _ => false,
        }
    }
}

impl Clone for OpKey {
    fn clone(&self) -> (r: OpKey)
        ensures
            r@ == self@,
    {
        OpKey { lamport: self.lamport, writer: self.writer.clone() }
    }
}

impl Clone for OpKind {
    fn clone(&self) -> (r: OpKind)
        ensures
            r@ == self@,
    {
        match self {
            OpKind::Replace(doc) => OpKind::Replace(copy_document(doc)),
            OpKind::Patch(doc) => OpKind::Patch(copy_document(doc)),
            OpKind::Delete => OpKind::Delete,
        }
    }
}

impl Clone for DocOp {
    fn clone(&self) -> (r: DocOp)
        ensures
            r@ == self@,
    {
        DocOp { key: self.key.clone(), doc_id: self.doc_id.clone(), kind: self.kind.clone() }
    }
}

/// A field with the key of the operation that last wrote it.
pub type Written = (Json, Key);

/// What a collection remembers of one document.
pub struct DocModel {
    /// The fields, each with the key that wrote it.
    pub fields: Map<Seq<char>, Written>,
    /// The key of the last operation that replaced or cleared the whole document.
    pub baseline: Option<Key>,
    /// The document is a tombstone.
    pub deleted: bool,
}

/// What a collection remembers: its documents by id, tombstones among them.
pub type Db = Map<Seq<char>, DocModel>;

/// A document that no operation has touched.
pub open spec fn untouched() -> DocModel {
    DocModel { fields: Map::empty(), baseline: None, deleted: false }
}

/// The fields of an object, all written by one operation.
pub open spec fn written(object: Fields, key: Key) -> Map<Seq<char>, Written> {
    object.map_values(|v: Json| (v, key))
}

/// What a patch of one field leaves of it. The patch loses where the field was written with a key
/// that is not lower; a `null` removes the field.
pub open spec fn patched_field(current: Option<Written>, value: Json, key: Key) -> Option<Written> {
    if current is Some && !key_lt((current->0).1, key) {
        current
    } else if value is Null {
        None
    } else {
        Some((value, key))
    }
}

/// What a patch leaves of a field: a field that the patch does not name stays as it was.
pub open spec fn field_after_patch(
    current: Map<Seq<char>, Written>,
    patch: Fields,
    key: Key,
    name: Seq<char>,
) -> Option<Written> {
    if patch.contains_key(name) {
        patched_field(current.get(name), patch[name], key)
    } else {
        current.get(name)
    }
}

/// The fields after a patch.
pub open spec fn patched(
    current: Map<Seq<char>, Written>,
    patch: Fields,
    key: Key,
) -> Map<Seq<char>, Written> {
    Map::new(
        |name: Seq<char>| field_after_patch(current, patch, key, name) is Some,
        |name: Seq<char>| field_after_patch(current, patch, key, name)->0,
    )
}

/// A document after one change.
pub open spec fn changed(doc: DocModel, key: Key, change: Change) -> DocModel {
    match change {
        Change::Replace(object) => DocModel {
            fields: written(object, key),
            baseline: Some(key),
            deleted: false,
        },
        Change::Patch(patch) => DocModel {
            fields: patched(doc.fields, patch, key),
            baseline: doc.baseline,
            deleted: false,
        },
        Change::Delete => DocModel { fields: Map::empty(), baseline: Some(key), deleted: true },
    }
}

/// What a collection remembers of a document.
pub open spec fn remembered(db: Db, id: Seq<char>) -> DocModel {
    if db.contains_key(id) {
        db[id]
    } else {
        untouched()
    }
}

/// A collection after one operation.
pub open spec fn applied(db: Db, edit: Edit) -> Db {
    db.insert(edit.doc_id, changed(remembered(db, edit.doc_id), edit.key, edit.change))
}

/// The fields of a document, without the keys that wrote them.
pub open spec fn plain_fields(doc: DocModel) -> Fields {
    doc.fields.map_values(|w: Written| w.0)
}

/// The documents of a collection, tombstones left out.
pub open spec fn live(db: Db) -> Map<Seq<char>, Fields> {
    Map::new(
        |id: Seq<char>| db.contains_key(id) && !db[id].deleted,
        |id: Seq<char>| plain_fields(db[id]),
    )
}

/// The fields of each of some documents.
pub open spec fn contents(docs: StringMap<Document>) -> Map<Seq<char>, Fields> {
    docs@.map_values(|doc: Document| fields(doc))
}

/// One document, with the key that last wrote each field.
pub(crate) struct DocState {
    pub(crate) fields: StringMap<(Value, OpKey)>,
    pub(crate) baseline: Option<OpKey>,
    pub(crate) deleted: bool,
}

impl DocState {
    pub(crate) open spec fn view(&self) -> DocModel {
        DocModel {
            fields: written_fields(self.fields),
            baseline: match self.baseline {
                Some(key) => Some(key@),
                None => None,
            },
            deleted: self.deleted,
        }
    }
}

/// The state of a collection: what the operations applied so far have made of its documents.
pub struct DbMachine {
    pub(crate) docs: StringMap<DocState>,
}

impl View for DbMachine {
    type V = Db;

    open(crate) spec fn view(&self) -> Db {
        self.docs@.map_values(|state: DocState| state@)
    }
}

/// The fields of a document state, each with the key that wrote it.
pub(crate) open spec fn written_fields(fields: StringMap<(Value, OpKey)>) -> Map<
    Seq<char>,
    Written,
> {
    fields@.map_values(|f: (Value, OpKey)| (f.0@, f.1@))
}

/// Marks every field of an object as written by one operation.
fn stamp(object: Document, key: &OpKey) -> (r: StringMap<(Value, OpKey)>)
    ensures
        written_fields(r) == written(fields(object), key@),
{
    proof {
        use_type_invariant(&object);
    }
    let ghost whole = object;
    let ghost source = object.entries@;
    let mut entries: Vec<(String, (Value, OpKey))> = Vec::new();
    let given: Vec<(String, Value)> = object.entries;
    for entry in it: given
        invariant
            it.seq() == source,
            entries@.len() == it.index(),
            forall|j: int|
                0 <= j < it.index() ==> (#[trigger] entries@[j]).0@ == source[j].0@
                    && entries@[j].1.0@ == source[j].1@ && entries@[j].1.1@ == key@,
    {
        entries.push((entry.0, (entry.1, key.clone())));
    }
    proof {
        let r = StringMap { entries };
        assert(r.keys() =~= whole.keys());
        r.keys_are_domain();
        whole.keys_are_domain();
        assert(r@.dom() =~= whole@.dom());
        assert forall|name: Seq<char>| #[trigger] r@.contains_key(name) implies r@[name].0@
            == whole@[name]@ && r@[name].1@ == key@ by {
            let at = whole.place(name);
            whole.entry_is_placed(at);
            r.entry_is_placed(at);
        }
        assert(written_fields(r) =~= written(fields(whole), key@));
    }
    StringMap { entries }
}

/// Merges the fields of a patch.
fn merge(current: &mut StringMap<(Value, OpKey)>, patch: Document, key: &OpKey)
    ensures
        written_fields(*final(current)) == patched(
            written_fields(*old(current)),
            fields(patch),
            key@,
        ),
{
    proof {
        use_type_invariant(&patch);
    }
    let ghost before = written_fields(*current);
    let ghost whole = patch;
    let ghost source = patch.entries@;
    let given: Vec<(String, Value)> = patch.entries;
    proof {
        whole.keys_are_domain();
    }
    for entry in it: given
        invariant
            it.seq() == source,
            source == whole.entries@,
            whole.in_order(),
            forall|name: Seq<char>| #[trigger]
                written_fields(*current).get(name) == if whole.keys().take(it.index()).contains(
                    name,
                ) {
                    patched_field(before.get(name), fields(whole)[name], key@)
                } else {
                    before.get(name)
                },
    {
        let (name, value) = entry;
        let ghost at = it.index();
        let ghost so_far = written_fields(*current);
        proof {
            whole.entry_is_placed(at);
            assert(whole.keys().take(at + 1) =~= whole.keys().take(at).push(name@));
            assert(!whole.keys().take(at).contains(name@)) by {
                text_lt_irreflexive(name@);
                if whole.keys().take(at).contains(name@) {
                    let j = choose|j: int| 0 <= j < at && whole.keys().take(at)[j] == name@;
                    assert(text_lt(whole.keys()[j], whole.keys()[at]));
                }
            }
            assert(so_far.get(name@) == before.get(name@));
        }
        let newer: bool = match current.get(&name) {
            Some(written) => written.1.precedes(key),
            None => true,
        };
        let ghost id = name@;
        let ghost wanted = patched_field(before.get(id), value@, key@);
        if newer {
            if value.is_null() {
                current.remove(&name);
            } else {
                current.insert(name, (value, key.clone()));
            }
        }
        proof {
            assert(written_fields(*current).get(id) == wanted);
            assert forall|other: Seq<char>| #[trigger]
                written_fields(*current).get(other) == if whole.keys().take(at + 1).contains(
                    other,
                ) {
                    patched_field(before.get(other), fields(whole)[other], key@)
                } else {
                    before.get(other)
                } by {
                if other != id {
                    assert(written_fields(*current).get(other) == so_far.get(other));
                    lemma_seq_contains_after_push(whole.keys().take(at), id, other);
                } else {
                    assert(whole.keys().take(at + 1)[at] == id);
                }
            }
        }
    }
    proof {
        let after = written_fields(*current);
        let expected = patched(before, fields(whole), key@);
        assert(whole.keys().take(whole.keys().len() as int) =~= whole.keys());
        whole.keys_are_domain();
        assert forall|name: Seq<char>| #[trigger]
            after.get(name) == field_after_patch(before, fields(whole), key@, name) by {
            assert(fields(whole).contains_key(name) == whole@.contains_key(name));
        }
        assert forall|name: Seq<char>|
            #![trigger after.dom().contains(name)]
            #![trigger expected.dom().contains(name)]
            after.dom().contains(name) == expected.dom().contains(name) && (after.dom().contains(
                name,
            ) ==> after[name] == expected[name]) by {
            assert(after.get(name) == field_after_patch(before, fields(whole), key@, name));
        }
        assert(after =~= expected);
    }
}

impl Default for DbMachine {
    /// A collection that no operation has touched.
    fn default() -> (r: DbMachine)
        ensures
            r@ == Map::<Seq<char>, DocModel>::empty(),
    {
        let r = DbMachine { docs: StringMap::new() };
        assert(r@ =~= Map::<Seq<char>, DocModel>::empty());
        r
    }
}

impl DbMachine {
    /// The key of an operation.
    pub fn key(op: &DocOp) -> (r: OpKey)
        ensures
            r@ == op@.key,
    {
        op.key.clone()
    }

    /// Applies one operation.
    pub fn apply(&mut self, op: DocOp)
        ensures
            final(self)@ == applied(old(self)@, op@),
    {
        let ghost before = self@;
        let ghost states = self.docs@;
        let mut state: DocState = match self.docs.remove(&op.doc_id) {
            Some(state) => state,
            None => DocState { fields: StringMap::new(), baseline: None, deleted: false },
        };
        let ghost doc = remembered(before, op@.doc_id);
        proof {
            assert(state@.fields =~= doc.fields);
            assert(state@ == doc);
        }
        let ghost change = op.kind@;
        match op.kind {
            OpKind::Replace(object) => {
                state.fields = stamp(object, &op.key);
                state.baseline = Some(op.key.clone());
                state.deleted = false;
            },
            OpKind::Patch(patch) => {
                merge(&mut state.fields, patch, &op.key);
                state.deleted = false;
            },
            OpKind::Delete => {
                state.fields.clear();
                state.baseline = Some(op.key.clone());
                state.deleted = true;
                assert(state@.fields =~= Map::<Seq<char>, Written>::empty());
            },
        }
        assert(state@ == changed(doc, op.key@, change));
        self.docs.insert(op.doc_id, state);
        assert(self@ =~= applied(before, op@));
    }

    /// The documents as they now stand, tombstones left out.
    pub fn documents(&self) -> (r: StringMap<Document>)
        ensures
            contents(r) == live(self@),
    {
        proof {
            use_type_invariant(&self.docs);
        }
        let ghost expected = live(self@);
        let mut out: StringMap<Document> = StringMap::new();
        let mut i: usize = 0;
        while i < self.docs.entries.len()
            invariant
                self.docs.in_order(),
                expected == live(self@),
                i <= self.docs.entries@.len(),
                forall|id: Seq<char>| #[trigger]
                    contents(out).contains_key(id) <==> expected.contains_key(id)
                        && self.docs.place(id) < i,
                forall|id: Seq<char>| #[trigger]
                    contents(out).contains_key(id) ==> contents(out)[id] == expected[id],
            decreases self.docs.entries.len() - i,
        {
            let entry = &self.docs.entries[i];
            let ghost so_far = contents(out);
            proof {
                self.docs.entry_is_placed(i as int);
            }
            if !entry.1.deleted {
                out.insert(entry.0.clone(), entry.1.document());
                assert(contents(out) =~= so_far.insert(entry.0@, plain_fields(entry.1@)));
            }
            proof {
                assert forall|id: Seq<char>| #[trigger]
                    contents(out).contains_key(id) <==> expected.contains_key(id)
                        && self.docs.place(id) < i + 1 by {
                    assert(so_far.contains_key(id) <==> expected.contains_key(id)
                        && self.docs.place(id) < i);
                }
                assert forall|id: Seq<char>| #[trigger] contents(out).contains_key(id) implies
                    contents(out)[id] == expected[id] by {
                    if id != entry.0@ {
                        assert(so_far.contains_key(id));
                    }
                }
            }
            i = i + 1;
        }
        assert(contents(out) =~= expected);
        out
    }

    /// One document, if it is there and no tombstone.
    pub fn get(&self, doc_id: &str) -> (r: Option<Document>)
        ensures
            match r {
                Some(doc) => live(self@).contains_key(doc_id@) && fields(doc) == live(
                    self@,
                )[doc_id@],
                None => !live(self@).contains_key(doc_id@),
            },
    {
        match self.docs.get(doc_id) {
            Some(state) => {
                if state.deleted {
                    None
                } else {
                    Some(state.document())
                }
            },
            None => None,
        }
    }

    /// The number of documents, tombstones left out.
    pub fn len(&self) -> (r: usize)
        ensures
            live(self@).dom().finite(),
            r == live(self@).len(),
    {
        proof {
            use_type_invariant(&self.docs);
        }
        let ghost expected = live(self@).dom();
        let ghost mut counted: Set<Seq<char>> = Set::empty();
        let mut n: usize = 0;
        let mut i: usize = 0;
        while i < self.docs.entries.len()
            invariant
                self.docs.in_order(),
                expected == live(self@).dom(),
                i <= self.docs.entries@.len(),
                n <= i,
                counted.finite(),
                counted.len() == n,
                forall|id: Seq<char>| #[trigger]
                    counted.contains(id) <==> expected.contains(id) && self.docs.place(id) < i,
            decreases self.docs.entries.len() - i,
        {
            let entry = &self.docs.entries[i];
            proof {
                self.docs.entry_is_placed(i as int);
                assert(!counted.contains(entry.0@));
            }
            if !entry.1.deleted {
                n = n + 1;
                proof {
                    counted = counted.insert(entry.0@);
                }
            }
            i = i + 1;
        }
        assert(counted =~= expected);
        n
    }

    /// Are there no documents?
    pub fn is_empty(&self) -> (r: bool)
        ensures
            r == (live(self@) == Map::<Seq<char>, Fields>::empty()),
    {
        let n: usize = self.len();
        proof {
            if n == 0 {
                assert(live(self@) =~= Map::<Seq<char>, Fields>::empty());
            }
        }
        n == 0
    }
}

impl DocState {
    /// The fields, without the keys that wrote them.
    fn document(&self) -> (r: Document)
        ensures
            fields(r) == plain_fields(self@),
    {
        let mut entries: Vec<(String, Value)> = Vec::new();
        let mut i: usize = 0;
        while i < self.fields.entries.len()
            invariant
                i <= self.fields.entries@.len(),
                entries@.len() == i,
                forall|j: int|
                    0 <= j < i ==> (#[trigger] entries@[j]).0@ == self.fields.entries@[j].0@
                        && entries@[j].1@ == self.fields.entries@[j].1.0@,
            decreases self.fields.entries.len() - i,
        {
            let entry = &self.fields.entries[i];
            entries.push((entry.0.clone(), entry.1.0.clone()));
            i = i + 1;
        }
        proof {
            use_type_invariant(&self.fields);
            let r = StringMap { entries };
            let source = self.fields;
            assert(r.keys() =~= source.keys());
            r.keys_are_domain();
            source.keys_are_domain();
            assert(r@.dom() =~= source@.dom());
            assert forall|name: Seq<char>| #[trigger] r@.contains_key(name) implies r@[name]@
                == source@[name].0@ by {
                let at = source.place(name);
                source.entry_is_placed(at);
                r.entry_is_placed(at);
            }
            assert(fields(r) =~= plain_fields(self@));
        }
        StringMap { entries }
    }
}

} // verus!
