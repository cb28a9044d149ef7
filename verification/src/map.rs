//! A map from strings, kept in the order of its keys.

use crate::text::{
    compare_text, text_lt, text_lt_asymmetric, text_lt_irreflexive, text_lt_total, text_lt_transitive,
    Order,
};
use vstd::prelude::*;

verus! {

/// A map from strings to values. Its entries stand in the order of their keys, each key once.
#[derive(Debug, PartialEq, Eq)]
pub struct StringMap<V> {
    pub(crate) entries: Vec<(String, V)>,
}

/// The keys stand in strictly ascending order.
pub open spec fn ascending(keys: Seq<Seq<char>>) -> bool {
    forall|i: int, j: int| 0 <= i < j < keys.len() ==> text_lt(#[trigger] keys[i], #[trigger] keys[j])
}

/// Two ascending listings of the same keys are the same.
pub proof fn ascending_is_unique(a: Seq<Seq<char>>, b: Seq<Seq<char>>)
    requires
        ascending(a),
        ascending(b),
        forall|k: Seq<char>| a.contains(k) == b.contains(k),
    ensures
        a == b,
    decreases a.len(),
{
    if a.len() == 0 {
        if b.len() > 0 {
            assert(b.contains(b[0]));
        }
        assert(a =~= b);
    } else {
        assert(a.contains(a[0]));
        let j = choose|j: int| 0 <= j < b.len() && b[j] == a[0];
        assert(b.contains(b[0]));
        let i = choose|i: int| 0 <= i < a.len() && a[i] == b[0];
        if j > 0 {
            text_lt_asymmetric(b[0], b[j]);
            assert(i > 0);
            assert(text_lt(a[0], a[i]));
        }
        let ra = a.drop_first();
        let rb = b.drop_first();
        assert forall|k: Seq<char>| ra.contains(k) == rb.contains(k) by {
            text_lt_irreflexive(a[0]);
            if ra.contains(k) {
                let x = choose|x: int| 0 <= x < ra.len() && ra[x] == k;
                assert(a[x + 1] == k && text_lt(a[0], a[x + 1]));
                assert(a.contains(k));
                let y = choose|y: int| 0 <= y < b.len() && b[y] == k;
                assert(y > 0 && rb[y - 1] == k);
            }
            if rb.contains(k) {
                let x = choose|x: int| 0 <= x < rb.len() && rb[x] == k;
                assert(b[x + 1] == k && text_lt(b[0], b[x + 1]));
                assert(b.contains(k));
                let y = choose|y: int| 0 <= y < a.len() && a[y] == k;
                assert(y > 0 && ra[y - 1] == k);
            }
        }
        ascending_is_unique(ra, rb);
        assert(a =~= seq![a[0]] + ra);
        assert(b =~= seq![b[0]] + rb);
    }
}

impl<V> StringMap<V> {
    /// The keys, in order.
    pub open(crate) spec fn keys(self) -> Seq<Seq<char>> {
        Seq::new(self.entries@.len(), |i: int| self.entries@[i].0@)
    }

    /// Where a key stands among the entries.
    pub open(crate) spec fn place(self, key: Seq<char>) -> int {
        choose|i: int| 0 <= i < self.entries@.len() && #[trigger] self.entries@[i].0@ == key
    }

    /// The keys are in order.
    #[verifier::type_invariant]
    pub open(crate) spec fn in_order(self) -> bool {
        ascending(self.keys())
    }

    /// The entry at an index is the one that its key finds.
    pub(crate) proof fn entry_is_placed(self, i: int)
        requires
            self.in_order(),
            0 <= i < self.entries@.len(),
        ensures
            self.place(self.entries@[i].0@) == i,
            self@.contains_key(self.entries@[i].0@),
            self@[self.entries@[i].0@] == self.entries@[i].1,
    {
        let k = self.entries@[i].0@;
        let p = self.place(k);
        assert(0 <= p < self.entries@.len() && self.entries@[p].0@ == k);
        assert(self.keys()[p] == k && self.keys()[i] == k);
        text_lt_irreflexive(k);
    }

    /// The keys are those of the map.
    pub(crate) proof fn keys_are_domain(self)
        requires
            self.in_order(),
        ensures
            ascending(self.keys()),
            self.keys().len() == self.entries@.len(),
            self.keys().no_duplicates(),
            self.keys().to_set() == self@.dom(),
            forall|k: Seq<char>| #[trigger] self@.contains_key(k) <==> self.keys().contains(k),
            self@.dom().finite(),
            self@.dom().len() == self.entries@.len(),
    {
        let keys = self.keys();
        assert forall|k: Seq<char>| #[trigger] self@.contains_key(k) <==> keys.contains(k) by {
            if self@.contains_key(k) {
                assert(keys[self.place(k)] == k);
            }
            if keys.contains(k) {
                let i = choose|i: int| 0 <= i < keys.len() && keys[i] == k;
                self.entry_is_placed(i);
            }
        }
        assert forall|i: int, j: int| 0 <= i < keys.len() && 0 <= j < keys.len() && i != j implies
            keys[i] != keys[j] by {
            text_lt_irreflexive(keys[i]);
        }
        assert(keys.to_set() =~= self@.dom());
        keys.unique_seq_to_set();
    }
}

impl<V> View for StringMap<V> {
    type V = Map<Seq<char>, V>;

    open(crate) spec fn view(&self) -> Map<Seq<char>, V> {
        Map::new(
            |k: Seq<char>| exists|i: int|
                0 <= i < self.entries@.len() && #[trigger] self.entries@[i].0@ == k,
            |k: Seq<char>| self.entries@[self.place(k)].1,
        )
    }
}

impl<V> StringMap<V> {
    /// An empty map.
    pub fn new() -> (r: StringMap<V>)
        ensures
            r@ == Map::<Seq<char>, V>::empty(),
    {
        let r = StringMap { entries: Vec::new() };
        assert(r@ =~= Map::<Seq<char>, V>::empty());
        r
    }

    /// The number of entries.
    pub fn len(&self) -> (r: usize)
        ensures
            self@.dom().finite(),
            r == self@.len(),
    {
        proof {
            use_type_invariant(self);
            self.keys_are_domain();
        }
        self.entries.len()
    }

    /// Is the map empty?
    pub fn is_empty(&self) -> (r: bool)
        ensures
            r == (self@ == Map::<Seq<char>, V>::empty()),
    {
        proof {
            use_type_invariant(self);
            self.keys_are_domain();
            if self.entries@.len() == 0 {
                assert(self@ =~= Map::<Seq<char>, V>::empty());
            }
        }
        self.entries.len() == 0
    }

    /// Finds the index at which a key stands, or at which it would have to be inserted.
    fn search(&self, key: &str) -> (r: (usize, bool))
        ensures
            r.0 <= self.entries@.len(),
            forall|i: int| 0 <= i < r.0 ==> text_lt(#[trigger] self.keys()[i], key@),
            r.1 ==> r.0 < self.entries@.len() && self.keys()[r.0 as int] == key@,
            r.1 ==> self.place(key@) == r.0,
            !r.1 ==> forall|i: int|
                r.0 <= i < self.entries@.len() ==> text_lt(key@, #[trigger] self.keys()[i]),
            r.1 == self@.contains_key(key@),
    {
        proof {
            use_type_invariant(self);
        }
        let mut low: usize = 0;
        let mut high: usize = self.entries.len();
        while low < high
            invariant
                self.in_order(),
                low <= high <= self.entries@.len(),
                forall|i: int| 0 <= i < low ==> text_lt(#[trigger] self.keys()[i], key@),
                forall|i: int|
                    high <= i < self.entries@.len() ==> text_lt(key@, #[trigger] self.keys()[i]),
            decreases high - low,
        {
            let middle: usize = low + (high - low) / 2;
            let here = &self.entries[middle].0;
            assert(self.keys()[middle as int] == here@);
            match compare_text(here, key) {
                Order::Equal => {
                    proof {
                        self.entry_is_placed(middle as int);
                    }
                    return (middle, true);
                },
                Order::Less => {
                    proof {
                        assert forall|i: int| 0 <= i <= middle implies text_lt(
                            #[trigger] self.keys()[i],
                            key@,
                        ) by {
                            if i < middle {
                                text_lt_transitive(self.keys()[i], here@, key@);
                            }
                        }
                    }
                    low = middle + 1;
                },
                Order::Greater => {
                    proof {
                        text_lt_total(here@, key@);
                        assert forall|i: int| middle <= i < self.entries@.len() implies text_lt(
                            key@,
                            #[trigger] self.keys()[i],
                        ) by {
                            if i > middle {
                                text_lt_transitive(key@, here@, self.keys()[i]);
                            }
                        }
                    }
                    high = middle;
                },
            }
        }
        proof {
            text_lt_irreflexive(key@);
            if self@.contains_key(key@) {
                assert(self.keys()[self.place(key@)] == key@);
            }
        }
        (low, false)
    }

    /// The value of a key.
    pub fn get(&self, key: &str) -> (r: Option<&V>)
        ensures
            match r {
                Some(v) => self@.contains_key(key@) && *v == self@[key@],
                None => !self@.contains_key(key@),
            },
    {
        let (i, found) = self.search(key);
        if found {
            Some(&self.entries[i].1)
        } else {
            None
        }
    }

    /// The entries, in the order of their keys.
    pub fn entries(&self) -> (r: &Vec<(String, V)>)
        ensures
            ascending(r@.map_values(|entry: (String, V)| entry.0@)),
            forall|i: int|
                0 <= i < r@.len() ==> self@.contains_pair((#[trigger] r@[i]).0@, r@[i].1),
            forall|key: Seq<char>| #[trigger]
                self@.contains_key(key) ==> r@.map_values(
                    |entry: (String, V)| entry.0@,
                ).contains(key),
    {
        proof {
            use_type_invariant(self);
            self.keys_are_domain();
            assert(self.entries@.map_values(|entry: (String, V)| entry.0@) =~= self.keys());
            assert forall|i: int| 0 <= i < self.entries@.len() implies self@.contains_pair(
                (#[trigger] self.entries@[i]).0@,
                self.entries@[i].1,
            ) by {
                self.entry_is_placed(i);
            }
        }
        &self.entries
    }

    /// Has the map an entry for the key?
    pub fn contains_key(&self, key: &str) -> (r: bool)
        ensures
            r == self@.contains_key(key@),
    {
        self.search(key).1
    }

    /// Sets the value of a key and returns the one that it had.
    pub fn insert(&mut self, key: String, value: V) -> (r: Option<V>)
        ensures
            final(self)@ == old(self)@.insert(key@, value),
            match r {
                Some(v) => old(self)@.contains_key(key@) && v == old(self)@[key@],
                None => !old(self)@.contains_key(key@),
            },
    {
        let (at, found) = self.search(&key);
        let ghost before = *self;
        proof {
            use_type_invariant(&*self);
        }
        let mut entries: Vec<(String, V)> = Vec::new();
        std::mem::swap(&mut entries, &mut self.entries);
        let mut previous: Option<V> = None;
        if found {
            previous = Some(entries.remove(at).1);
        }
        let ghost k = key@;
        entries.insert(at, (key, value));
        proof {
            let after = StringMap { entries };
            assert forall|i: int, j: int| 0 <= i < j < after.keys().len() implies text_lt(
                #[trigger] after.keys()[i],
                #[trigger] after.keys()[j],
            ) by {
                let shift: int = if found {
                    0
                } else {
                    1
                };
                let a = if i <= at {
                    i
                } else {
                    i - shift
                };
                let b = if j <= at {
                    j
                } else {
                    j - shift
                };
                if i != at {
                    assert(after.keys()[i] == before.keys()[a]);
                }
                if j != at {
                    assert(after.keys()[j] == before.keys()[b]);
                }
            }
            before.insertion(after, at as int, found);
        }
        self.entries = entries;
        previous
    }

    /// What one insertion does to the map.
    proof fn insertion(self, after: StringMap<V>, at: int, found: bool)
        requires
            self.in_order(),
            after.in_order(),
            found ==> {
                &&& 0 <= at < self.entries@.len()
                &&& self.entries@[at].0@ == after.entries@[at].0@
                &&& after.entries@ == self.entries@.remove(at).insert(at, after.entries@[at])
            },
            !found ==> {
                &&& 0 <= at <= self.entries@.len()
                &&& !self@.contains_key(after.entries@[at].0@)
                &&& after.entries@ == self.entries@.insert(at, after.entries@[at])
            },
        ensures
            after@ == self@.insert(after.entries@[at].0@, after.entries@[at].1),
    {
        let key = after.entries@[at].0@;
        let expected = self@.insert(key, after.entries@[at].1);
        let shift: int = if found {
            0
        } else {
            1
        };
        assert forall|k: Seq<char>|
            #![trigger after@.dom().contains(k)]
            #![trigger expected.dom().contains(k)]
            #![trigger after@[k]]
            after@.dom().contains(k) == expected.dom().contains(k) && (after@.dom().contains(k)
                ==> after@[k] == expected[k]) by {
            if expected.contains_key(k) {
                if k == key {
                    after.entry_is_placed(at);
                } else {
                    let i = self.place(k);
                    let j = if i < at {
                        i
                    } else {
                        i + shift
                    };
                    assert(after.entries@[j] == self.entries@[i]);
                    after.entry_is_placed(j);
                }
            } else if after@.contains_key(k) {
                let j = after.place(k);
                if j != at {
                    let i = if j < at {
                        j
                    } else {
                        j - shift
                    };
                    assert(after.entries@[j] == self.entries@[i]);
                    self.entry_is_placed(i);
                }
            }
        }
        assert(after@ =~= expected);
    }

    /// Removes a key and returns its value.
    pub fn remove(&mut self, key: &str) -> (r: Option<V>)
        ensures
            final(self)@ == old(self)@.remove(key@),
            match r {
                Some(v) => old(self)@.contains_key(key@) && v == old(self)@[key@],
                None => !old(self)@.contains_key(key@),
            },
    {
        let (at, found) = self.search(key);
        if !found {
            assert(self@ =~= self@.remove(key@));
            return None;
        }
        let ghost before = *self;
        proof {
            use_type_invariant(&*self);
        }
        let mut entries: Vec<(String, V)> = Vec::new();
        std::mem::swap(&mut entries, &mut self.entries);
        let removed: (String, V) = entries.remove(at);
        proof {
            let after = StringMap { entries };
            assert forall|i: int, j: int| 0 <= i < j < after.keys().len() implies text_lt(
                #[trigger] after.keys()[i],
                #[trigger] after.keys()[j],
            ) by {
                let a = if i < at {
                    i
                } else {
                    i + 1
                };
                let b = if j < at {
                    j
                } else {
                    j + 1
                };
                assert(after.keys()[i] == before.keys()[a]);
                assert(after.keys()[j] == before.keys()[b]);
            }
            let expected = before@.remove(key@);
            before.entry_is_placed(at as int);
            assert forall|k: Seq<char>|
                #![trigger after@.dom().contains(k)]
                #![trigger expected.dom().contains(k)]
                #![trigger after@[k]]
                after@.dom().contains(k) == expected.dom().contains(k) && (after@.dom().contains(k)
                    ==> after@[k] == expected[k]) by {
                if expected.contains_key(k) {
                    let i = before.place(k);
                    let j = if i < at {
                        i
                    } else {
                        i - 1
                    };
                    assert(after.entries@[j] == before.entries@[i]);
                    after.entry_is_placed(j);
                } else if after@.contains_key(k) {
                    let j = after.place(k);
                    let i = if j < at {
                        j
                    } else {
                        j + 1
                    };
                    assert(after.entries@[j] == before.entries@[i]);
                    before.entry_is_placed(i);
                }
            }
            assert(after@ =~= expected);
        }
        self.entries = entries;
        Some(removed.1)
    }

    /// Removes every entry.
    pub fn clear(&mut self)
        ensures
            final(self)@ == Map::<Seq<char>, V>::empty(),
    {
        *self = StringMap::new();
    }
}

} // verus!
