//! A collection as one device sees it.
//!
//! A [`Collection`] holds the operations that have reached this device and the Lamport clock of
//! its own writes. Reads fold the operations. Writes stamp an operation with a new key and hand it
//! out: it takes effect here when it comes back through [`Collection::receive`], as the operations
//! of the other devices do.

use crate::convergence::{
    decides, is_merged, keys_are_unique, newest_write_is_read_back, outcome, replicas_converge,
};
use crate::doc::{
    contents, key_lt, key_order_is_total, live, Change, DocOp, Edit, Key, OpKey, OpKind,
};
use crate::error::Error;
use crate::json::{fields, object_is_its_fields, Document, Fields, Json, Value};
use crate::map::{ascending, ascending_is_unique, StringMap};
use crate::merge::{by_key, converged, edits, in_key_order, ordered, union, OpSet};
use crate::query::Query;
use crate::sort::{rows, Row};
use vstd::prelude::*;

verus! {

/// The rows list the documents: each of them once, in ascending order of their ids.
pub open spec fn lists(listing: Seq<Row>, docs: Map<Seq<char>, Fields>) -> bool {
    &&& ascending(listing.map_values(|row: Row| row.0))
    &&& forall|i: int|
        0 <= i < listing.len() ==> docs.contains_pair(
            (#[trigger] listing[i]).0,
            listing[i].1,
        )
    &&& forall|id: Seq<char>| #[trigger]
        docs.contains_key(id) ==> listing.map_values(|row: Row| row.0).contains(id)
}

/// The documents, in ascending order of their ids.
pub open spec fn listed(docs: Map<Seq<char>, Fields>) -> Seq<Row> {
    choose|listing: Seq<Row>| lists(listing, docs)
}

/// There is one listing of some documents.
pub proof fn listing_is_unique(listing: Seq<Row>, docs: Map<Seq<char>, Fields>)
    requires
        lists(listing, docs),
    ensures
        listed(docs) == listing,
{
    let id = |row: Row| row.0;
    let a = listed(docs);
    let b = listing;
    assert(lists(a, docs));
    let ka = a.map_values(id);
    let kb = b.map_values(id);
    assert forall|k: Seq<char>| ka.contains(k) == kb.contains(k) by {
        if ka.contains(k) {
            let i = choose|i: int| 0 <= i < ka.len() && ka[i] == k;
            assert(docs.contains_pair(a[i].0, a[i].1));
        }
        if kb.contains(k) {
            let i = choose|i: int| 0 <= i < kb.len() && kb[i] == k;
            assert(docs.contains_pair(b[i].0, b[i].1));
        }
    }
    ascending_is_unique(ka, kb);
    assert forall|i: int| 0 <= i < a.len() implies a[i] == b[i] by {
        assert(ka[i] == kb[i]);
        assert(docs.contains_pair(a[i].0, a[i].1));
        assert(docs.contains_pair(b[i].0, b[i].1));
    }
    assert(a =~= b);
}

/// The documents with their ids, in ascending order of the ids.
fn into_rows(docs: StringMap<Document>) -> (r: Vec<(String, Document)>)
    ensures
        rows(r@) == listed(contents(docs)),
{
    proof {
        use_type_invariant(&docs);
        let found = rows(docs.entries@);
        let all = contents(docs);
        assert(found.map_values(|row: Row| row.0) =~= docs.keys());
        docs.keys_are_domain();
        assert forall|i: int| 0 <= i < found.len() implies all.contains_pair(
            (#[trigger] found[i]).0,
            found[i].1,
        ) by {
            docs.entry_is_placed(i);
        }
        listing_is_unique(found, all);
    }
    docs.entries
}

/// Copies some documents.
fn copy_documents(docs: &StringMap<Document>) -> (r: StringMap<Document>)
    ensures
        contents(r) == contents(*docs),
{
    let mut entries: Vec<(String, Document)> = Vec::new();
    let mut i: usize = 0;
    while i < docs.entries.len()
        invariant
            i <= docs.entries@.len(),
            entries@.len() == i,
            forall|j: int|
                0 <= j < i ==> (#[trigger] entries@[j]).0@ == docs.entries@[j].0@ && fields(
                    entries@[j].1,
                ) == fields(docs.entries@[j].1),
        decreases docs.entries.len() - i,
    {
        let entry = &docs.entries[i];
        entries.push((entry.0.clone(), entry.1.clone()));
        i = i + 1;
    }
    proof {
        use_type_invariant(docs);
        let r = StringMap { entries };
        assert(r.keys() =~= docs.keys());
        r.keys_are_domain();
        docs.keys_are_domain();
        assert(r@.dom() =~= docs@.dom());
        assert forall|id: Seq<char>| #[trigger] r@.contains_key(id) implies fields(r@[id])
            == fields(docs@[id]) by {
            let at = docs.place(id);
            docs.entry_is_placed(at);
            r.entry_is_placed(at);
        }
        assert(contents(r) =~= contents(*docs));
    }
    StringMap { entries }
}

/// The documents of a collection at one point in time.
#[derive(Debug)]
pub struct Snapshot {
    /// The documents by id, tombstones left out.
    pub docs: StringMap<Document>,
    /// The number of operations that made them.
    pub op_count: usize,
}

impl Default for Snapshot {
    /// No documents, made by no operation.
    fn default() -> (r: Snapshot)
        ensures
            contents(r.docs) == Map::<Seq<char>, Fields>::empty(),
            r.op_count == 0,
    {
        let r = Snapshot { docs: StringMap::new(), op_count: 0 };
        assert(contents(r.docs) =~= Map::<Seq<char>, Fields>::empty());
        r
    }
}

impl Clone for Snapshot {
    fn clone(&self) -> (r: Snapshot)
        ensures
            contents(r.docs) == contents(self.docs),
            r.op_count == self.op_count,
    {
        Snapshot { docs: copy_documents(&self.docs), op_count: self.op_count }
    }
}

impl Snapshot {
    /// One document.
    pub fn get(&self, doc_id: &str) -> (r: Option<&Document>)
        ensures
            match r {
                Some(doc) => contents(self.docs).contains_pair(doc_id@, fields(*doc)),
                None => !contents(self.docs).contains_key(doc_id@),
            },
    {
        self.docs.get(doc_id)
    }

    /// Runs a query over the documents in the order of their ids.
    pub fn query(&self, q: &Query) -> (r: Vec<(String, Document)>)
        ensures
            rows(r@) == q@.answer(listed(contents(self.docs))),
    {
        q.run(into_rows(copy_documents(&self.docs)))
    }

    /// The number of documents.
    pub fn len(&self) -> (r: usize)
        ensures
            contents(self.docs).dom().finite(),
            r == contents(self.docs).len(),
    {
        assert(contents(self.docs).dom() =~= self.docs@.dom());
        self.docs.len()
    }

    /// Are there no documents?
    pub fn is_empty(&self) -> (r: bool)
        ensures
            r == (contents(self.docs) == Map::<Seq<char>, Fields>::empty()),
    {
        let n: usize = self.len();
        proof {
            if n == 0 {
                assert(contents(self.docs) =~= Map::<Seq<char>, Fields>::empty());
            }
        }
        n == 0
    }
}

/// What one device holds of a collection: the mathematical model of [`Collection`].
pub struct Device {
    /// The name of the collection.
    pub name: Seq<char>,
    /// The id of the device, under which it writes.
    pub writer: Seq<char>,
    /// The Lamport clock of its writes.
    pub clock: u64,
    /// The operations that have reached it.
    pub merged: Map<Key, Edit>,
}

/// No merged operation has a clock value above `h`, and one has `h`; without operations `h` is 0.
pub open spec fn is_highest(merged: Map<Key, Edit>, h: u64) -> bool {
    &&& forall|key: Key| #[trigger] merged.contains_key(key) ==> key.lamport <= h
    &&& h == 0 || exists|key: Key| #[trigger] merged.contains_key(key) && key.lamport == h
}

/// The highest clock value of the merged operations.
pub open spec fn highest(merged: Map<Key, Edit>) -> u64 {
    choose|h: u64| is_highest(merged, h)
}

/// There is one highest clock value.
proof fn highest_is_unique(merged: Map<Key, Edit>, h: u64)
    requires
        is_highest(merged, h),
    ensures
        highest(merged) == h,
{
    assert(is_highest(merged, highest(merged)));
}

impl Device {
    /// The documents that are there.
    pub open spec fn documents(self) -> Map<Seq<char>, Fields> {
        live(converged(self.merged))
    }

    /// The clock, advanced to the highest clock value of the merged operations.
    pub open spec fn advanced(self) -> u64 {
        if highest(self.merged) > self.clock {
            highest(self.merged)
        } else {
            self.clock
        }
    }

    /// The clock has a next value.
    pub open spec fn has_time(self) -> bool {
        self.advanced() < u64::MAX
    }

    /// The key of the next write.
    pub open spec fn next_key(self) -> Key {
        Key { lamport: (self.advanced() + 1) as u64, writer: self.writer }
    }

    /// The next write, with its key.
    pub open spec fn stamped(self, doc_id: Seq<char>, change: Change) -> Edit {
        Edit { key: self.next_key(), doc_id, change }
    }

    /// The device after it has stamped a write.
    pub open spec fn ticked(self) -> Device {
        Device { clock: self.next_key().lamport, ..self }
    }
}

/// The highest clock value of some operations is the highest.
pub proof fn highest_exists(delivered: Seq<Edit>)
    ensures
        is_highest(union(delivered), highest(union(delivered))),
    decreases delivered.len(),
{
    let merged = union(delivered);
    let h: u64 = if delivered.len() == 0 {
        0
    } else {
        let rest = union(delivered.drop_last());
        highest_exists(delivered.drop_last());
        let last = delivered.last().key;
        assert(merged.contains_key(last));
        if last.lamport >= highest(rest) {
            last.lamport
        } else {
            let top = choose|key: Key| #[trigger]
                rest.contains_key(key) && key.lamport == highest(rest);
            assert(merged.contains_key(top));
            highest(rest)
        }
    };
    assert(is_highest(merged, h));
}

/// A new key is above every merged key, so that a write always sorts last on the device that
/// makes it.
pub proof fn new_keys_come_last(device: Device, delivered: Seq<Edit>, key: Key)
    requires
        device.has_time(),
        device.merged == union(delivered),
        device.merged.contains_key(key),
    ensures
        key_lt(key, device.next_key()),
{
    highest_exists(delivered);
}

/// What a device writes it reads back once it has received its own operation: a document that it
/// replaced is what it wrote, one that it patched is what it was with the patch put over it, one
/// that it deleted is gone. The other documents stay as they were.
pub proof fn own_writes_are_read_back(
    device: Device,
    delivered: Seq<Edit>,
    doc_id: Seq<char>,
    change: Change,
    after: Device,
)
    requires
        device.has_time(),
        device.merged == union(delivered),
        after.merged == device.merged.insert(
            device.next_key(),
            device.stamped(doc_id, change),
        ),
    ensures
        after.documents().contains_key(doc_id) == !(change is Delete),
        change matches Change::Replace(object) ==> after.documents()[doc_id] == object,
        change is Patch ==> forall|name: Seq<char>| #[trigger]
            after.documents()[doc_id].get(name) == if decides(change, name) {
                outcome(change, name)
            } else if device.documents().contains_key(doc_id) {
                device.documents()[doc_id].get(name)
            } else {
                None
            },
        forall|id: Seq<char>|
            id != doc_id ==> #[trigger] after.documents().get(id) == device.documents().get(id),
{
    let e = device.stamped(doc_id, change);
    assert forall|f: Edit| #[trigger] is_merged(union(delivered), f) implies key_lt(
        f.key,
        e.key,
    ) by {
        new_keys_come_last(device, delivered, f.key);
    }
    newest_write_is_read_back(delivered, e);
    assert(delivered.push(e).drop_last() =~= delivered);
}

/// A device never uses a key twice: the clock only moves forward, so that of two keys the one
/// made later is the greater.
pub proof fn keys_are_never_reused(sooner: Device, later: Device)
    requires
        sooner.has_time(),
        later.has_time(),
        sooner.writer == later.writer,
        sooner.ticked().clock <= later.clock,
    ensures
        key_lt(sooner.next_key(), later.next_key()),
        sooner.next_key() != later.next_key(),
{
}

/// Devices with different ids never make the same key.
pub proof fn devices_never_share_keys(a: Device, b: Device)
    requires
        a.writer != b.writer,
    ensures
        a.next_key() != b.next_key(),
        key_lt(a.next_key(), b.next_key()) || key_lt(b.next_key(), a.next_key()),
{
    key_order_is_total(a.next_key(), b.next_key());
}

/// Devices that the same operations have reached read the same documents, whatever order the
/// operations came in and however often.
pub proof fn devices_converge(a: Device, b: Device, to_a: Seq<Edit>, to_b: Seq<Edit>)
    requires
        a.merged == union(to_a),
        b.merged == union(to_b),
        keys_are_unique(to_a),
        forall|e: Edit| #[trigger] to_a.contains(e) == to_b.contains(e),
    ensures
        a.documents() == b.documents(),
{
    replicas_converge(to_a, to_b);
}

/// The number of operations never falls, and rises by one with each operation that has a new key.
pub proof fn op_count_never_falls(merged: Map<Key, Edit>, e: Edit)
    requires
        merged.dom().finite(),
    ensures
        merged.insert(e.key, e).len() == if merged.contains_key(e.key) {
            merged.len()
        } else {
            merged.len() + 1
        },
{
    if merged.contains_key(e.key) {
        assert(merged.insert(e.key, e).dom() =~= merged.dom());
    }
}

/// One device's part of a collection that many devices write.
#[derive(Debug)]
pub struct Collection {
    pub(crate) merged: OpSet,
    pub(crate) self_id: String,
    pub(crate) lamport: u64,
    pub(crate) name: String,
}

impl View for Collection {
    type V = Device;

    open(crate) spec fn view(&self) -> Device {
        Device {
            name: self.name@,
            writer: self.self_id@,
            clock: self.lamport,
            merged: self.merged@,
        }
    }
}

impl Collection {
    /// Opens a collection with the operations that have reached the device.
    pub fn open(self_id: &str, name: &str, ops: &Vec<DocOp>) -> (r: Collection)
        ensures
            r@.name == name@,
            r@.writer == self_id@,
            r@.merged == union(edits(ops@)),
            r@.clock == highest(r@.merged),
            is_highest(r@.merged, r@.clock),
    {
        let mut merged: OpSet = OpSet::new();
        merged.deliver_all(ops);
        assert(merged@ =~= union(edits(ops@)));
        let mut collection = Collection {
            merged,
            self_id: self_id.to_owned(),
            lamport: 0,
            name: name.to_owned(),
        };
        collection.advance_clock_past_merged();
        collection
    }

    /// The name of the collection.
    pub fn name(&self) -> (r: &str)
        ensures
            r@ == self@.name,
    {
        &self.name
    }

    /// The id of the device.
    pub fn writer_id(&self) -> (r: &str)
        ensures
            r@ == self@.writer,
    {
        &self.self_id
    }

    /// Takes in an operation, of this device or of another.
    pub fn receive(&mut self, op: DocOp)
        ensures
            final(self)@ == (Device {
                merged: old(self)@.merged.insert(op@.key, op@),
                ..old(self)@
            }),
    {
        self.merged.deliver(op);
    }

    /// Takes in some operations, in their order.
    pub fn receive_all(&mut self, ops: &Vec<DocOp>)
        ensures
            final(self)@ == (Device {
                merged: old(self)@.merged.union_prefer_right(union(edits(ops@))),
                ..old(self)@
            }),
    {
        self.merged.deliver_all(ops);
    }

    /// The operations that have reached the device, in the order of their keys.
    pub fn merged_ops(&self) -> (r: &Vec<DocOp>)
        ensures
            edits(r@) == ordered(self@.merged),
            in_key_order(edits(r@)),
            by_key(edits(r@)) == self@.merged,
            union(edits(r@)) == self@.merged,
    {
        self.merged.ops()
    }

    /// The highest clock value of the merged operations.
    fn highest_merged(&self) -> (r: u64)
        ensures
            r == highest(self@.merged),
            is_highest(self@.merged, r),
    {
        let ops: &Vec<DocOp> = self.merged.ops();
        let ghost s = edits(ops@);
        let mut high: u64 = 0;
        let mut i: usize = 0;
        while i < ops.len()
            invariant
                s == edits(ops@),
                i <= ops.len(),
                forall|j: int| 0 <= j < i ==> (#[trigger] s[j]).key.lamport <= high,
                high == 0 || exists|j: int| 0 <= j < i && (#[trigger] s[j]).key.lamport == high,
            decreases ops.len() - i,
        {
            assert(s[i as int] == ops@[i as int]@);
            if ops[i].key.lamport > high {
                high = ops[i].key.lamport;
            }
            i = i + 1;
        }
        proof {
            assert forall|key: Key| #[trigger] self@.merged.contains_key(key) implies key.lamport
                <= high by {
                assert(by_key(s).contains_key(key));
            }
            if high != 0 {
                let j = choose|j: int| 0 <= j < s.len() && (#[trigger] s[j]).key.lamport == high;
                assert(by_key(s).contains_key(s[j].key));
                assert(self@.merged.contains_key(s[j].key));
            }
            highest_is_unique(self@.merged, high);
        }
        high
    }

    /// Advances the clock to the highest clock value of the merged operations.
    pub fn advance_clock_past_merged(&mut self)
        ensures
            final(self)@ == (Device { clock: old(self)@.advanced(), ..old(self)@ }),
            is_highest(final(self)@.merged, highest(final(self)@.merged)),
    {
        let high: u64 = self.highest_merged();
        if high > self.lamport {
            self.lamport = high;
        }
    }

    /// Has the clock a value left for another write?
    pub fn can_write(&self) -> (r: bool)
        ensures
            r == self@.has_time(),
            is_highest(self@.merged, highest(self@.merged)),
    {
        let high: u64 = self.highest_merged();
        self.lamport < u64::MAX && high < u64::MAX
    }

    /// A new key, above all that this device has made and above all that have reached it.
    pub fn next_key(&mut self) -> (r: OpKey)
        requires
            old(self)@.has_time(),
        ensures
            r@ == old(self)@.next_key(),
            final(self)@ == old(self)@.ticked(),
            is_highest(old(self)@.merged, highest(old(self)@.merged)),
            r.lamport > old(self)@.clock,
            forall|key: Key| #[trigger]
                old(self)@.merged.contains_key(key) ==> key_lt(key, r@),
    {
        self.advance_clock_past_merged();
        self.lamport = self.lamport + 1;
        OpKey { lamport: self.lamport, writer: self.self_id.clone() }
    }

    /// Stamps a change of one document with a new key.
    pub fn propose(&mut self, doc_id: &str, kind: OpKind) -> (r: DocOp)
        requires
            old(self)@.has_time(),
        ensures
            r@ == old(self)@.stamped(doc_id@, kind@),
            final(self)@ == old(self)@.ticked(),
    {
        let key: OpKey = self.next_key();
        DocOp { key, doc_id: doc_id.to_owned(), kind }
    }

    /// Replaces a whole document.
    pub fn set(&mut self, doc_id: &str, doc: Document) -> (r: DocOp)
        requires
            old(self)@.has_time(),
        ensures
            r@ == old(self)@.stamped(doc_id@, Change::Replace(fields(doc))),
            final(self)@ == old(self)@.ticked(),
    {
        self.propose(doc_id, OpKind::Replace(doc))
    }

    /// Replaces a whole document by a value, which must be an object.
    pub fn set_value(&mut self, doc_id: &str, value: Value) -> (r: Result<DocOp, Error>)
        requires
            value@ is Object ==> old(self)@.has_time(),
        ensures
            match value@ {
                Json::Object(object) => {
                    &&& r is Ok
                    &&& r->Ok_0@ == old(self)@.stamped(doc_id@, Change::Replace(object))
                    &&& final(self)@ == old(self)@.ticked()
                },
                _ => r == Err::<DocOp, Error>(Error::NotADocument) && final(self)@ == old(self)@,
            },
    {
        match value {
            Value::Object(doc) => {
                proof {
                    object_is_its_fields(doc);
                }
                Ok(self.set(doc_id, doc))
            },
            _ => Err(Error::NotADocument),
        }
    }

    /// Merges fields into a document. A `null` removes its field.
    pub fn patch(&mut self, doc_id: &str, patch: Document) -> (r: DocOp)
        requires
            old(self)@.has_time(),
        ensures
            r@ == old(self)@.stamped(doc_id@, Change::Patch(fields(patch))),
            final(self)@ == old(self)@.ticked(),
    {
        self.propose(doc_id, OpKind::Patch(patch))
    }

    /// Sets one field of a document.
    pub fn set_field(&mut self, doc_id: &str, field: &str, value: Value) -> (r: DocOp)
        requires
            old(self)@.has_time(),
        ensures
            r@ == old(self)@.stamped(
                doc_id@,
                Change::Patch(Map::<Seq<char>, Json>::empty().insert(field@, value@)),
            ),
            final(self)@ == old(self)@.ticked(),
    {
        let mut patch: Document = StringMap::new();
        let ghost wanted = Map::<Seq<char>, Json>::empty().insert(field@, value@);
        patch.insert(field.to_owned(), value);
        assert(fields(patch) =~= wanted);
        self.patch(doc_id, patch)
    }

    /// Deletes a document.
    pub fn delete(&mut self, doc_id: &str) -> (r: DocOp)
        requires
            old(self)@.has_time(),
        ensures
            r@ == old(self)@.stamped(doc_id@, Change::Delete),
            final(self)@ == old(self)@.ticked(),
    {
        self.propose(doc_id, OpKind::Delete)
    }

    /// One document.
    pub fn get(&self, doc_id: &str) -> (r: Option<Document>)
        ensures
            match r {
                Some(doc) => self@.documents().contains_pair(doc_id@, fields(doc)),
                None => !self@.documents().contains_key(doc_id@),
            },
    {
        self.merged.fold().get(doc_id)
    }

    /// All documents, with the number of operations that made them.
    pub fn snapshot(&self) -> (r: Snapshot)
        ensures
            contents(r.docs) == self@.documents(),
            self@.merged.dom().finite(),
            r.op_count == self@.merged.len(),
    {
        let op_count: usize = self.merged.len();
        let docs: StringMap<Document> = self.merged.fold().documents();
        Snapshot { docs, op_count }
    }

    /// Runs a query over the documents in the order of their ids.
    pub fn query(&self, q: &Query) -> (r: Vec<(String, Document)>)
        ensures
            rows(r@) == q@.answer(listed(self@.documents())),
    {
        q.run(into_rows(self.merged.fold().documents()))
    }

    /// The number of documents.
    pub fn len(&self) -> (r: usize)
        ensures
            self@.documents().dom().finite(),
            r == self@.documents().len(),
    {
        self.merged.fold().len()
    }

    /// Are there no documents?
    pub fn is_empty(&self) -> (r: bool)
        ensures
            r == (self@.documents() == Map::<Seq<char>, Fields>::empty()),
    {
        self.merged.fold().is_empty()
    }
}

} // verus!
