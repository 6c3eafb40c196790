//! Maps from object ids, kept as a list in the order of the ids.
use vstd::prelude::*;
use crate::oid::Oid;

verus! {

/// A map from object ids to values.
pub struct OidMap<V> {
    entries: Vec<(Oid, V)>,
}

spec fn ascending<V>(entries: Seq<(Oid, V)>) -> bool {
    forall|i: int, j: int| 0 <= i < j < entries.len() ==> entries[i].0.less(entries[j].0)
}

spec fn holds<V>(entries: Seq<(Oid, V)>, key: Oid, i: int) -> bool {
    0 <= i < entries.len() && entries[i].0 == key
}

spec fn contents<V>(entries: Seq<(Oid, V)>) -> Map<Oid, V> {
    Map::new(
        |key: Oid| exists|i: int| holds(entries, key, i),
        |key: Oid| entries[choose|i: int| holds(entries, key, i)].1,
    )
}

proof fn lemma_contents_at<V>(entries: Seq<(Oid, V)>, i: int)
    requires
        ascending(entries),
        0 <= i < entries.len(),
    ensures
        contents(entries).contains_key(entries[i].0),
        contents(entries)[entries[i].0] == entries[i].1,
{
    let key = entries[i].0;
    assert(holds(entries, key, i));
    let j = choose|j: int| holds(entries, key, j);
    assert(holds(entries, key, j));
    Oid::less_is_strict_total_order(key, key, key);
}

proof fn lemma_contents_len<V>(entries: Seq<(Oid, V)>)
    requires
        ascending(entries),
    ensures
        contents(entries).dom().finite(),
        contents(entries).dom().len() == entries.len(),
{
    let keys = entries.map_values(|e: (Oid, V)| e.0);
    assert forall|i: int, j: int| 0 <= i < j < keys.len() implies keys[i] != keys[j] by {
        Oid::less_is_strict_total_order(keys[i], keys[j], keys[j]);
    }
    keys.unique_seq_to_set();
    assert(contents(entries).dom() =~= keys.to_set()) by {
        assert forall|key: Oid| keys.to_set().contains(key) implies contents(
            entries,
        ).dom().contains(key) by {
            let i = choose|i: int| 0 <= i < keys.len() && keys[i] == key;
            assert(holds(entries, key, i));
        }
        assert forall|key: Oid| contents(entries).dom().contains(key) implies keys.to_set().contains(
            key,
        ) by {
            let i = choose|i: int| holds(entries, key, i);
            assert(keys[i] == key);
        }
    }
}

impl<V> View for OidMap<V> {
    type V = Map<Oid, V>;

    closed spec fn view(&self) -> Map<Oid, V> {
        contents(self.entries@)
    }
}

impl<V> OidMap<V> {
    #[verifier::type_invariant]
    spec fn inv(&self) -> bool {
        ascending(self.entries@)
    }

    /// A map without keys.
    pub fn new() -> (map: OidMap<V>)
        ensures
            map@ == Map::<Oid, V>::empty(),
    {
        let map = OidMap { entries: Vec::new() };
        assert(map@ =~= Map::<Oid, V>::empty());
        map
    }

    /// The number of keys.
    pub fn len(&self) -> (len: usize)
        ensures
            self@.dom().finite(),
            len == self@.dom().len(),
    {
        proof {
            use_type_invariant(self);
            lemma_contents_len(self.entries@);
        }
        self.entries.len()
    }
}

/// The place of `key` among the entries: all before it have smaller keys, none from it on has.
fn slot<V>(entries: &Vec<(Oid, V)>, key: Oid) -> (at: usize)
    requires
        ascending(entries@),
    ensures
        at <= entries@.len(),
        forall|i: int| 0 <= i < at ==> (#[trigger] entries@[i]).0.less(key),
        forall|i: int| at <= i < entries@.len() ==> !(#[trigger] entries@[i]).0.less(key),
{
    let mut low: usize = 0;
    let mut high: usize = entries.len();
    while low < high
        invariant
            low <= high <= entries@.len(),
            ascending(entries@),
            forall|i: int| 0 <= i < low ==> (#[trigger] entries@[i]).0.less(key),
            forall|i: int| high <= i < entries@.len() ==> !(#[trigger] entries@[i]).0.less(key),
        decreases high - low,
    {
        let middle: usize = low + (high - low) / 2;
        if entries[middle].0.is_less(&key) {
            proof {
                assert forall|i: int| 0 <= i < middle + 1 implies (#[trigger] entries@[i]).0.less(
                    key,
                ) by {
                    if i < middle {
                        Oid::less_is_strict_total_order(
                            entries@[i].0,
                            entries@[middle as int].0,
                            key,
                        );
                    }
                }
            }
            low = middle + 1;
        } else {
            proof {
                assert forall|i: int|
                    middle <= i < entries@.len() implies !(#[trigger] entries@[i]).0.less(key) by {
                    if i > middle {
                        Oid::less_is_strict_total_order(
                            entries@[middle as int].0,
                            entries@[i].0,
                            key,
                        );
                    }
                }
            }
            high = middle;
        }
    }
    low
}

/// A key that is not at its slot is nowhere.
proof fn lemma_absent<V>(entries: Seq<(Oid, V)>, key: Oid, at: int)
    requires
        ascending(entries),
        0 <= at <= entries.len(),
        forall|i: int| 0 <= i < at ==> (#[trigger] entries[i]).0.less(key),
        forall|i: int| at <= i < entries.len() ==> !(#[trigger] entries[i]).0.less(key),
        at < entries.len() ==> entries[at].0 != key,
    ensures
        !contents(entries).contains_key(key),
        forall|i: int| at <= i < entries.len() ==> key.less((#[trigger] entries[i]).0),
{
    assert forall|i: int| at <= i < entries.len() implies key.less((#[trigger] entries[i]).0) by {
        Oid::less_is_strict_total_order(entries[at].0, key, key);
        Oid::less_is_strict_total_order(key, entries[at].0, entries[i].0);
    }
    assert forall|i: int| !holds(entries, key, i) by {
        Oid::less_is_strict_total_order(key, key, key);
    }
}

impl<V: Copy> OidMap<V> {
    /// The value at `key`.
    pub fn get(&self, key: Oid) -> (value: Option<V>)
        ensures
            value == (if self@.contains_key(key) {
                Some(self@[key])
            } else {
                None
            }),
    {
        proof {
            use_type_invariant(self);
        }
        let at: usize = slot(&self.entries, key);
        if at < self.entries.len() && self.entries[at].0 == key {
            proof {
                lemma_contents_at(self.entries@, at as int);
            }
            Some(self.entries[at].1)
        } else {
            proof {
                lemma_absent(self.entries@, key, at as int);
            }
            None
        }
    }

    /// Puts `value` at `key`.
    pub fn insert(&mut self, key: Oid, value: V)
        ensures
            final(self)@ == old(self)@.insert(key, value),
    {
        proof {
            use_type_invariant(&*self);
        }
        let ghost before = self.entries@;
        let mut entries: Vec<(Oid, V)> = Vec::new();
        std::mem::swap(&mut entries, &mut self.entries);
        let at: usize = slot(&entries, key);
        if at < entries.len() && entries[at].0 == key {
            entries.set(at, (key, value));
            proof {
                assert(ascending(entries@));
                lemma_replaced(before, entries@, at as int, key, value);
            }
        } else {
            proof {
                lemma_absent(before, key, at as int);
            }
            entries.insert(at, (key, value));
            proof {
                assert(ascending(entries@)) by {
                    assert forall|i: int, j: int|
                        0 <= i < j < entries@.len() implies entries@[i].0.less(entries@[j].0) by {
                        let before_i = if i < at {
                            i
                        } else {
                            i - 1
                        };
                        let before_j = if j < at {
                            j
                        } else {
                            j - 1
                        };
                        if i != at {
                            assert(entries@[i] == before[before_i]);
                        }
                        if j != at {
                            assert(entries@[j] == before[before_j]);
                        }
                    }
                }
                lemma_inserted(before, entries@, at as int, key, value);
            }
        }
        self.entries = entries;
    }
}

proof fn lemma_replaced<V>(
    before: Seq<(Oid, V)>,
    after: Seq<(Oid, V)>,
    at: int,
    key: Oid,
    value: V,
)
    requires
        ascending(before),
        ascending(after),
        0 <= at < before.len(),
        before[at].0 == key,
        after == before.update(at, (key, value)),
    ensures
        contents(after) == contents(before).insert(key, value),
{
    assert forall|k: Oid| #[trigger]
        contents(after).contains_key(k) <==> contents(before).insert(key, value).contains_key(
            k,
        ) by {
        if contents(after).contains_key(k) {
            let i = choose|i: int| holds(after, k, i);
            assert(holds(before, k, i));
        }
        if contents(before).contains_key(k) {
            let i = choose|i: int| holds(before, k, i);
            assert(holds(after, k, i));
        }
        assert(holds(after, key, at));
    }
    assert forall|k: Oid| contents(after).contains_key(k) implies contents(after)[k] == contents(
        before,
    ).insert(key, value)[k] by {
        let i = choose|i: int| holds(after, k, i);
        lemma_contents_at(after, i);
        lemma_contents_at(before, i);
        Oid::less_is_strict_total_order(key, key, key);
        assert(i != at ==> before[i].0 != before[at].0);
    }
    assert(contents(after) =~= contents(before).insert(key, value));
}

proof fn lemma_inserted<V>(
    before: Seq<(Oid, V)>,
    after: Seq<(Oid, V)>,
    at: int,
    key: Oid,
    value: V,
)
    requires
        ascending(before),
        ascending(after),
        0 <= at <= before.len(),
        !contents(before).contains_key(key),
        after == before.insert(at, (key, value)),
    ensures
        contents(after) == contents(before).insert(key, value),
{
    assert forall|k: Oid| #[trigger]
        contents(after).contains_key(k) <==> contents(before).insert(key, value).contains_key(
            k,
        ) by {
        if contents(after).contains_key(k) {
            let i = choose|i: int| holds(after, k, i);
            if i < at {
                assert(holds(before, k, i));
            } else if i > at {
                assert(holds(before, k, i - 1));
            }
        }
        if contents(before).contains_key(k) {
            let i = choose|i: int| holds(before, k, i);
            if i < at {
                assert(holds(after, k, i));
            } else {
                assert(holds(after, k, i + 1));
            }
        }
        assert(holds(after, key, at));
    }
    assert forall|k: Oid| contents(after).contains_key(k) implies contents(after)[k] == contents(
        before,
    ).insert(key, value)[k] by {
        let i = choose|i: int| holds(after, k, i);
        lemma_contents_at(after, i);
        if i < at {
            lemma_contents_at(before, i);
            assert(holds(before, k, i));
        } else if i > at {
            lemma_contents_at(before, i - 1);
            assert(holds(before, k, i - 1));
        }
    }
    assert(contents(after) =~= contents(before).insert(key, value));
}

} // verus!
