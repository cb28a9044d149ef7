//! The union of the writers' logs, and what it folds to.
//!
//! Every writer keeps a log of its own, and operations arrive at a replica in any order, some of
//! them more than once. A replica keeps their union, ordered by key, and folds it from an empty
//! collection. What it gets depends on the set of operations alone.

use crate::doc::{
    applied, key_lt, key_order_is_total, key_order_is_transitive, Db, DbMachine, DocOp, Edit, Key,
};
use vstd::prelude::*;

verus! {

/// What some operations are.
pub open spec fn edits(ops: Seq<DocOp>) -> Seq<Edit> {
    ops.map_values(|op: DocOp| op@)
}

/// The operations stand in strictly ascending order of their keys.
pub open spec fn in_key_order(s: Seq<Edit>) -> bool {
    forall|i: int, j: int| 0 <= i < j < s.len() ==> key_lt((#[trigger] s[i]).key, (#[trigger] s[j]).key)
}

/// Where the operation with a key stands.
pub open spec fn key_place(s: Seq<Edit>, key: Key) -> int {
    choose|i: int| 0 <= i < s.len() && (#[trigger] s[i]).key == key
}

/// Operations with different keys, by their keys.
pub open spec fn by_key(s: Seq<Edit>) -> Map<Key, Edit> {
    Map::new(
        |key: Key| exists|i: int| 0 <= i < s.len() && (#[trigger] s[i]).key == key,
        |key: Key| s[key_place(s, key)],
    )
}

/// The union of operations in the order of their delivery. Where two share a key, the one
/// delivered last stays.
pub open spec fn union(delivered: Seq<Edit>) -> Map<Key, Edit>
    decreases delivered.len(),
{
    if delivered.len() == 0 {
        Map::empty()
    } else {
        union(delivered.drop_last()).insert(delivered.last().key, delivered.last())
    }
}

/// The operations of a union, in ascending order of their keys.
pub open spec fn ordered(merged: Map<Key, Edit>) -> Seq<Edit> {
    choose|s: Seq<Edit>| in_key_order(s) && #[trigger] by_key(s) == merged
}

/// Some operations applied to a collection, one after the other.
pub open spec fn fold(db: Db, s: Seq<Edit>) -> Db
    decreases s.len(),
{
    if s.len() == 0 {
        db
    } else {
        applied(fold(db, s.drop_last()), s.last())
    }
}

/// What a union of operations folds to.
pub open spec fn converged(merged: Map<Key, Edit>) -> Db {
    fold(Map::empty(), ordered(merged))
}

/// An operation that stands at an index is the one that its key finds.
proof fn edit_is_placed(s: Seq<Edit>, i: int)
    requires
        in_key_order(s),
        0 <= i < s.len(),
    ensures
        key_place(s, s[i].key) == i,
        by_key(s).contains_key(s[i].key),
        by_key(s)[s[i].key] == s[i],
{
    let p = key_place(s, s[i].key);
    assert(0 <= p < s.len() && s[p].key == s[i].key);
    key_order_is_total(s[i].key, s[p].key);
}

/// Two listings in key order of the same operations are the same.
proof fn key_order_is_unique(a: Seq<Edit>, b: Seq<Edit>)
    requires
        in_key_order(a),
        in_key_order(b),
        by_key(a) == by_key(b),
    ensures
        a == b,
    decreases a.len(),
{
    if a.len() == 0 {
        if b.len() > 0 {
            edit_is_placed(b, 0);
        }
        assert(a =~= b);
    } else if b.len() == 0 {
        edit_is_placed(a, 0);
    } else {
        let x = a.last();
        let y = b.last();
        edit_is_placed(a, a.len() - 1);
        edit_is_placed(b, b.len() - 1);
        let i = key_place(b, x.key);
        let j = key_place(a, y.key);
        assert(b[i].key == x.key && a[j].key == y.key);
        key_order_is_total(x.key, y.key);
        assert(x == y);
        let ra = a.drop_last();
        let rb = b.drop_last();
        without_last(a);
        without_last(b);
        key_order_is_unique(ra, rb);
        assert(a =~= ra.push(x));
        assert(b =~= rb.push(y));
    }
}

/// The operations before the last are those without its key.
proof fn without_last(s: Seq<Edit>)
    requires
        in_key_order(s),
        s.len() > 0,
    ensures
        in_key_order(s.drop_last()),
        by_key(s.drop_last()) == by_key(s).remove(s.last().key),
{
    let rest = s.drop_last();
    let expected = by_key(s).remove(s.last().key);
    assert forall|key: Key|
        #![trigger by_key(rest).dom().contains(key)]
        #![trigger expected.dom().contains(key)]
        by_key(rest).dom().contains(key) == expected.dom().contains(key) && (by_key(
            rest,
        ).dom().contains(key) ==> by_key(rest)[key] == expected[key]) by {
        if by_key(rest).dom().contains(key) {
            let i = key_place(rest, key);
            assert(rest[i] == s[i]);
            edit_is_placed(s, i);
            edit_is_placed(rest, i);
            key_order_is_total(s[i].key, s.last().key);
        }
        if expected.dom().contains(key) {
            let i = key_place(s, key);
            assert(s[i].key == key);
            edit_is_placed(s, i);
            assert(i < s.len() - 1);
            assert(rest[i] == s[i]);
            edit_is_placed(rest, i);
        }
    }
    assert(by_key(rest) =~= expected);
}

/// A listing in key order is what [`ordered`] gives back of its operations.
pub proof fn ordered_is_unique(s: Seq<Edit>)
    requires
        in_key_order(s),
    ensures
        ordered(by_key(s)) == s,
{
    let t = ordered(by_key(s));
    assert(in_key_order(t) && by_key(t) == by_key(s));
    key_order_is_unique(t, s);
}

/// The index before which a key belongs: the keys below it are lower, the others are not.
spec fn is_slot(s: Seq<Edit>, key: Key, at: int) -> bool {
    &&& 0 <= at <= s.len()
    &&& forall|i: int| 0 <= i < at ==> key_lt((#[trigger] s[i]).key, key)
    &&& forall|i: int| at <= i < s.len() ==> !key_lt((#[trigger] s[i]).key, key)
}

/// A listing in key order with one more operation, put at its slot.
spec fn inserted(s: Seq<Edit>, e: Edit, at: int) -> Seq<Edit> {
    if at < s.len() && s[at].key == e.key {
        s.update(at, e)
    } else {
        s.insert(at, e)
    }
}

/// Putting an operation at its slot keeps the order and adds the operation.
proof fn insertion(s: Seq<Edit>, e: Edit, at: int)
    requires
        in_key_order(s),
        is_slot(s, e.key, at),
    ensures
        in_key_order(inserted(s, e, at)),
        by_key(inserted(s, e, at)) == by_key(s).insert(e.key, e),
{
    let t = inserted(s, e, at);
    let found = at < s.len() && s[at].key == e.key;
    let shift: int = if found {
        0
    } else {
        1
    };
    assert forall|i: int, j: int| 0 <= i < j < t.len() implies key_lt(
        (#[trigger] t[i]).key,
        (#[trigger] t[j]).key,
    ) by {
        let a = if i <= at {
            i
        } else {
            i - shift
        };
        let b = if j <= at {
            j
        } else {
            j - shift
        };
        if i != at {
            assert(t[i] == s[a]);
        }
        if j != at {
            assert(t[j] == s[b]);
        }
        if i == at {
            key_order_is_total(e.key, s[b].key);
            if found {
                assert(key_lt(s[at].key, s[b].key));
            } else if s[b].key == e.key {
                assert(b > at);
                assert(key_lt(s[at].key, s[b].key));
            }
        }
    }
    let expected = by_key(s).insert(e.key, e);
    assert forall|key: Key|
        #![trigger by_key(t).dom().contains(key)]
        #![trigger expected.dom().contains(key)]
        by_key(t).dom().contains(key) == expected.dom().contains(key) && (by_key(
            t,
        ).dom().contains(key) ==> by_key(t)[key] == expected[key]) by {
        if key == e.key {
            assert(t[at] == e);
            edit_is_placed(t, at);
        } else if expected.dom().contains(key) {
            let i = key_place(s, key);
            assert(s[i].key == key);
            let j = if i < at {
                i
            } else {
                i + shift
            };
            assert(t[j] == s[i]);
            edit_is_placed(t, j);
            edit_is_placed(s, i);
        } else if by_key(t).dom().contains(key) {
            let j = key_place(t, key);
            assert(t[j].key == key);
            let i = if j < at {
                j
            } else {
                j - shift
            };
            assert(t[j] == s[i]);
            edit_is_placed(s, i);
        }
    }
    assert(by_key(t) =~= expected);
}

/// Every key has a slot.
proof fn slot_exists(s: Seq<Edit>, key: Key) -> (at: int)
    requires
        in_key_order(s),
    ensures
        is_slot(s, key, at),
    decreases s.len(),
{
    if s.len() == 0 {
        0
    } else if key_lt(s.last().key, key) {
        assert forall|i: int| 0 <= i < s.len() implies key_lt((#[trigger] s[i]).key, key) by {
            if i < s.len() - 1 {
                key_order_is_transitive(s[i].key, s.last().key, key);
            }
        }
        s.len() as int
    } else {
        let rest = s.drop_last();
        let at = slot_exists(rest, key);
        assert forall|i: int| 0 <= i < at implies key_lt((#[trigger] s[i]).key, key) by {
            assert(rest[i] == s[i]);
        }
        assert forall|i: int| at <= i < s.len() implies !key_lt((#[trigger] s[i]).key, key) by {
            if i < s.len() - 1 {
                assert(rest[i] == s[i]);
            }
        }
        at
    }
}

/// Every union of operations can be put in key order.
pub proof fn union_is_orderable(delivered: Seq<Edit>)
    ensures
        in_key_order(ordered(union(delivered))),
        by_key(ordered(union(delivered))) == union(delivered),
    decreases delivered.len(),
{
    let s = if delivered.len() == 0 {
        let s = Seq::<Edit>::empty();
        assert(by_key(s) =~= Map::<Key, Edit>::empty());
        s
    } else {
        union_is_orderable(delivered.drop_last());
        let rest = ordered(union(delivered.drop_last()));
        let at = slot_exists(rest, delivered.last().key);
        insertion(rest, delivered.last(), at);
        inserted(rest, delivered.last(), at)
    };
    assert(in_key_order(s) && by_key(s) == union(delivered));
}

/// An operation above all those of a listing comes last in it.
pub proof fn newest_comes_last(s: Seq<Edit>, e: Edit)
    requires
        in_key_order(s),
        forall|i: int| 0 <= i < s.len() ==> key_lt((#[trigger] s[i]).key, e.key),
    ensures
        in_key_order(s.push(e)),
        by_key(s.push(e)) == by_key(s).insert(e.key, e),
        ordered(by_key(s).insert(e.key, e)) == s.push(e),
{
    insertion(s, e, s.len() as int);
    assert(inserted(s, e, s.len() as int) =~= s.push(e));
    ordered_is_unique(s.push(e));
}

/// A listing in key order is the union of its operations.
pub proof fn listing_is_its_union(s: Seq<Edit>)
    requires
        in_key_order(s),
    ensures
        union(s) == by_key(s),
    decreases s.len(),
{
    if s.len() == 0 {
        assert(by_key(s) =~= Map::<Key, Edit>::empty());
    } else {
        without_last(s);
        listing_is_its_union(s.drop_last());
        edit_is_placed(s, s.len() - 1);
        assert(by_key(s) =~= by_key(s).remove(s.last().key).insert(s.last().key, s.last()));
    }
}

/// Every operation of a union stands under its own key.
pub proof fn union_keys_are_its_own(delivered: Seq<Edit>)
    ensures
        forall|key: Key| #[trigger]
            union(delivered).contains_key(key) ==> union(delivered)[key].key == key,
    decreases delivered.len(),
{
    if delivered.len() > 0 {
        union_keys_are_its_own(delivered.drop_last());
        let rest = union(delivered.drop_last());
        assert forall|key: Key| #[trigger] union(delivered).contains_key(key) implies union(
            delivered,
        )[key].key == key by {
            if key != delivered.last().key {
                assert(rest.contains_key(key));
            }
        }
    }
}

/// The union of operations, kept in the order of their keys.
#[derive(Debug)]
pub struct OpSet {
    pub(crate) ops: Vec<DocOp>,
}

impl OpSet {
    /// The operations, in the order of their keys.
    pub open(crate) spec fn listing(self) -> Seq<Edit> {
        edits(self.ops@)
    }

    /// The operations are in order.
    #[verifier::type_invariant]
    pub open(crate) spec fn in_order(self) -> bool {
        in_key_order(self.listing())
    }
}

impl View for OpSet {
    type V = Map<Key, Edit>;

    open(crate) spec fn view(&self) -> Map<Key, Edit> {
        by_key(self.listing())
    }
}

impl OpSet {
    /// No operations.
    pub fn new() -> (r: OpSet)
        ensures
            r@ == Map::<Key, Edit>::empty(),
    {
        let r = OpSet { ops: Vec::new() };
        assert(r@ =~= Map::<Key, Edit>::empty());
        r
    }

    /// Adds an operation. Where one with the same key is there, the new one takes its place.
    pub fn deliver(&mut self, op: DocOp)
        ensures
            final(self)@ == old(self)@.insert(op@.key, op@),
    {
        proof {
            use_type_invariant(&*self);
        }
        let ghost before = self.listing();
        let ghost e = op@;
        let mut low: usize = 0;
        let mut high: usize = self.ops.len();
        while low < high
            invariant
                before == self.listing(),
                in_key_order(before),
                e == op@,
                low <= high <= before.len(),
                before.len() == self.ops@.len(),
                forall|i: int| 0 <= i < low ==> key_lt((#[trigger] before[i]).key, e.key),
                forall|i: int|
                    high <= i < before.len() ==> !key_lt((#[trigger] before[i]).key, e.key),
            decreases high - low,
        {
            let middle: usize = low + (high - low) / 2;
            assert(before[middle as int] == self.ops@[middle as int]@);
            if self.ops[middle].key.precedes(&op.key) {
                proof {
                    assert forall|i: int| 0 <= i <= middle implies key_lt(
                        (#[trigger] before[i]).key,
                        e.key,
                    ) by {
                        if i < middle {
                            key_order_is_transitive(
                                before[i].key,
                                before[middle as int].key,
                                e.key,
                            );
                        }
                    }
                }
                low = middle + 1;
            } else {
                proof {
                    assert forall|i: int| middle <= i < before.len() implies !key_lt(
                        (#[trigger] before[i]).key,
                        e.key,
                    ) by {
                        if i > middle && key_lt(before[i].key, e.key) {
                            key_order_is_transitive(
                                before[middle as int].key,
                                before[i].key,
                                e.key,
                            );
                        }
                    }
                }
                high = middle;
            }
        }
        let at: usize = low;
        let mut found: bool = false;
        if at < self.ops.len() {
            assert(before[at as int] == self.ops@[at as int]@);
            proof {
                key_order_is_total(before[at as int].key, e.key);
            }
            found = !op.key.precedes(&self.ops[at].key);
        }
        proof {
            insertion(before, e, at as int);
        }
        let mut ops: Vec<DocOp> = Vec::new();
        std::mem::swap(&mut ops, &mut self.ops);
        if found {
            ops.remove(at);
        }
        ops.insert(at, op);
        assert(edits(ops@) =~= inserted(before, e, at as int));
        self.ops = ops;
    }

    /// Adds copies of some operations, in their order.
    pub fn deliver_all(&mut self, ops: &Vec<DocOp>)
        ensures
            final(self)@ == old(self)@.union_prefer_right(union(edits(ops@))),
    {
        let ghost before = self@;
        let ghost all = edits(ops@);
        let mut i: usize = 0;
        proof {
            assert(all.take(0) =~= Seq::<Edit>::empty());
            assert(before =~= before.union_prefer_right(Map::<Key, Edit>::empty()));
        }
        while i < ops.len()
            invariant
                all == edits(ops@),
                i <= ops.len(),
                self@ == before.union_prefer_right(union(all.take(i as int))),
            decreases ops.len() - i,
        {
            let ghost so_far = self@;
            self.deliver(ops[i].clone());
            proof {
                let e = ops@[i as int]@;
                let next = all.take(i + 1);
                assert(next.drop_last() =~= all.take(i as int));
                assert(next.last() == e);
                assert(self@ =~= before.union_prefer_right(union(next)));
            }
            i = i + 1;
        }
        assert(all.take(all.len() as int) =~= all);
    }

    /// The number of operations.
    pub fn len(&self) -> (r: usize)
        ensures
            self@.dom().finite(),
            r == self@.len(),
            r == ordered(self@).len(),
    {
        proof {
            use_type_invariant(self);
            ordered_is_unique(self.listing());
            domain_size(self.listing());
        }
        self.ops.len()
    }

    /// The operations, in the order of their keys.
    pub fn ops(&self) -> (r: &Vec<DocOp>)
        ensures
            edits(r@) == ordered(self@),
            in_key_order(edits(r@)),
            by_key(edits(r@)) == self@,
            union(edits(r@)) == self@,
    {
        proof {
            use_type_invariant(self);
            ordered_is_unique(self.listing());
            listing_is_its_union(self.listing());
        }
        &self.ops
    }

    /// Folds the operations, in the order of their keys, from an empty collection.
    pub fn fold(&self) -> (r: DbMachine)
        ensures
            r@ == converged(self@),
    {
        let ops: &Vec<DocOp> = self.ops();
        let ghost all = edits(ops@);
        let mut machine: DbMachine = DbMachine::default();
        let mut i: usize = 0;
        assert(all.take(0) =~= Seq::<Edit>::empty());
        while i < ops.len()
            invariant
                all == edits(ops@),
                i <= ops.len(),
                machine@ == fold(Map::empty(), all.take(i as int)),
            decreases ops.len() - i,
        {
            machine.apply(ops[i].clone());
            proof {
                let next = all.take(i + 1);
                assert(next.drop_last() =~= all.take(i as int));
                assert(next.last() == ops@[i as int]@);
            }
            i = i + 1;
        }
        assert(all.take(all.len() as int) =~= all);
        machine
    }
}

/// A listing in key order has as many operations as keys.
proof fn domain_size(s: Seq<Edit>)
    requires
        in_key_order(s),
    ensures
        by_key(s).dom().finite(),
        by_key(s).dom().len() == s.len(),
    decreases s.len(),
{
    if s.len() == 0 {
        assert(by_key(s).dom() =~= Set::<Key>::empty());
    } else {
        without_last(s);
        domain_size(s.drop_last());
        edit_is_placed(s, s.len() - 1);
        assert(by_key(s).dom() =~= by_key(s.drop_last()).dom().insert(s.last().key));
    }
}

} // verus!
