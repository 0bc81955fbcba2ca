//! What the operations of a hash table promise about one another.

use vstd::prelude::*;
use crate::lisp::LispObject;
use crate::table_model::{Entry, EqualityStrategy, HashLookupResult, TableModel};

verus! {

impl<S: EqualityStrategy> TableModel<S> {
    /// Every entry is stored under the hash code of its key, and no two
    /// entries have the same key.
    pub open spec fn proper(self) -> bool {
        &&& forall|s: int|
            0 <= s < self.capacity && (#[trigger] self.slots[s]) is Some ==> self.slots[s]->Some_0.hash
                == self.strategy.hash_spec(self.slots[s]->Some_0.key)
        &&& forall|s: int, t: int|
            0 <= s < self.capacity && 0 <= t < self.capacity && s != t && (#[trigger] self.slots[s]) is Some
                && (#[trigger] self.slots[t]) is Some ==> !self.strategy.equal_spec(
                self.slots[s]->Some_0.key,
                self.slots[t]->Some_0.key,
            )
    }

    /// Whether `key` is a different key from the key of every entry.
    pub open spec fn is_new(self, key: LispObject) -> bool {
        forall|s: int|
            0 <= s < self.capacity && (#[trigger] self.slots[s]) is Some ==> !self.strategy.equal_spec(
                key,
                self.slots[s]->Some_0.key,
            ) && !self.strategy.equal_spec(self.slots[s]->Some_0.key, key)
    }

    /// The value that a lookup of `key` leads to.
    pub open spec fn value_of(self, key: LispObject) -> Option<LispObject> {
        match self.lookup(key) {
            HashLookupResult::Found(slot) => Some(self.slots[slot as int]->Some_0.value),
            HashLookupResult::Missing(_) => None,
        }
    }

    /// The table after entering `keys` with `values` one after the other,
    /// each under the hash code of the key.
    pub open spec fn put_all(self, keys: Seq<LispObject>, values: Seq<LispObject>) -> TableModel<S>
        decreases keys.len(),
    {
        if keys.len() == 0 {
            self
        } else {
            self.put_all(keys.drop_last(), values.drop_last()).put(
                keys.last(),
                values.last(),
                self.strategy.hash_spec(keys.last()),
            ).0
        }
    }

    /// A search that meets no entry with `key` before position `j`, and one at
    /// `j`, ends at `j`.
    pub proof fn lemma_match_at(self, chain: Seq<int>, key: LispObject, i: int, j: int)
        requires
            0 <= i <= j < chain.len(),
            forall|k: int| i <= k < j ==> !self.matches(#[trigger] chain[k], key),
            self.matches(chain[j], key),
        ensures
            self.match_from(chain, key, i) == j,
        decreases j - i,
    {
        if i < j {
            self.lemma_match_at(chain, key, i + 1, j);
        }
    }

    /// A search that meets no entry with `key` ends at the end of the chain.
    pub proof fn lemma_match_none(self, chain: Seq<int>, key: LispObject, i: int)
        requires
            0 <= i <= chain.len(),
            forall|k: int| i <= k < chain.len() ==> !self.matches(#[trigger] chain[k], key),
        ensures
            self.match_from(chain, key, i) == chain.len(),
        decreases chain.len() - i,
    {
        if i < chain.len() {
            self.lemma_match_none(chain, key, i + 1);
        }
    }

    /// Where a search ends, an entry with the key stands, and none stands
    /// before.
    pub proof fn lemma_match_from(self, chain: Seq<int>, key: LispObject, i: int)
        requires
            0 <= i <= chain.len(),
        ensures
            i <= self.match_from(chain, key, i) <= chain.len(),
            self.match_from(chain, key, i) < chain.len() ==> self.matches(
                chain[self.match_from(chain, key, i)],
                key,
            ),
            forall|k: int| i <= k < self.match_from(chain, key, i) ==> !self.matches(#[trigger] chain[k], key),
        decreases chain.len() - i,
    {
        if i < chain.len() && !self.matches(chain[i], key) {
            self.lemma_match_from(chain, key, i + 1);
        }
    }

    /// A lookup either finds a slot that holds an entry with the key, or
    /// reports the hash code of the key.
    pub proof fn lemma_lookup_sound(self, key: LispObject)
        requires
            self.wf(),
        ensures
            match self.lookup(key) {
                HashLookupResult::Found(slot) => 0 <= slot < self.capacity && self.matches(slot as int, key),
                HashLookupResult::Missing(h) => h == self.strategy.hash_spec(key),
            },
    {
        if self.capacity > 0 {
            let b = self.bucket(self.strategy.hash_spec(key));
            let chain = self.chains[b];
            self.lemma_match_from(chain, key, 0);
            let i = self.match_from(chain, key, 0);
            if i < chain.len() {
                assert(0 <= chain[i] < self.capacity);
            }
        }
    }

    /// In a proper table the key of an entry is found in the slot of the
    /// entry.
    pub proof fn lemma_lookup_finds_entry(self, slot: int)
        requires
            self.wf(),
            self.proper(),
            0 <= slot < self.capacity,
            self.slots[slot] is Some,
        ensures
            self.lookup(self.slots[slot]->Some_0.key) == HashLookupResult::Found(slot as isize),
            self.value_of(self.slots[slot]->Some_0.key) == Some(self.slots[slot]->Some_0.value),
    {
        let e = self.slots[slot]->Some_0;
        let b = self.bucket(self.strategy.hash_spec(e.key));
        let chain = self.chains[b];
        assert(chain.contains(slot));
        let j = choose|j: int| 0 <= j < chain.len() && chain[j] == slot;
        self.strategy.lemma_reflexive(e.key);
        assert(chain.no_duplicates());
        assert forall|k: int| 0 <= k < j implies !self.matches(#[trigger] chain[k], e.key) by {
            assert(chain[k] != slot);
            assert(0 <= chain[k] < self.capacity && self.slots[chain[k]] is Some);
        }
        self.lemma_match_at(chain, e.key, 0, j);
    }

    /// In a table that has no entry with `key`, a lookup of `key` finds
    /// nothing.
    pub proof fn lemma_lookup_misses_new(self, key: LispObject)
        requires
            self.wf(),
            self.is_new(key),
        ensures
            self.lookup(key) == HashLookupResult::Missing(self.strategy.hash_spec(key)),
            self.value_of(key) is None,
    {
        self.lemma_lookup_sound(key);
    }

    /// The table that `put` enters into is well formed, has a free slot and
    /// holds the entries in their slots. It is a grown table exactly when one
    /// more entry would take the load above the threshold and the table can
    /// grow.
    pub proof fn lemma_with_room(self)
        requires
            self.wf(),
            self.count < isize::MAX,
        ensures
            self.with_room().wf(),
            self.with_room().free.len() > 0,
            self.with_room().count == self.count,
            self.with_room().capacity >= self.capacity,
            self.with_room().capacity == if self.needs_resize() && self.capacity < isize::MAX {
                self.grown_capacity()
            } else {
                self.capacity
            },
            self.needs_resize() && self.capacity < isize::MAX ==> self.with_room().capacity > self.capacity,
            forall|s: int| 0 <= s < self.capacity ==> self.with_room().slots[s] == self.slots[s],
            forall|s: int| self.capacity <= s < self.with_room().capacity ==> self.with_room().slots[s] is None,
            self.proper() ==> self.with_room().proper(),
    {
        if self.needs_resize() && self.capacity < isize::MAX {
            self.lemma_resized_wf();
        } else if !self.needs_resize() {
            self.lemma_room();
        }
    }

    /// Growing changes neither the number of entries nor what a lookup of the
    /// key of an entry finds: the same slot with the same value.
    pub proof fn lemma_resize_preserves_entries(self, slot: int)
        requires
            self.wf(),
            self.proper(),
            self.capacity < isize::MAX,
            0 <= slot < self.capacity,
            self.slots[slot] is Some,
        ensures
            self.resized().wf(),
            self.resized().proper(),
            self.resized().count == self.count,
            self.resized().slots[slot] == self.slots[slot],
            self.resized().lookup(self.slots[slot]->Some_0.key) == self.lookup(self.slots[slot]->Some_0.key),
            self.resized().value_of(self.slots[slot]->Some_0.key) == Some(self.slots[slot]->Some_0.value),
    {
        self.lemma_resized_wf();
        self.lemma_lookup_finds_entry(slot);
        self.resized().lemma_lookup_finds_entry(slot);
    }

    /// Entering a new key under its hash code keeps a proper table proper,
    /// adds one to the number of entries, and leaves every other entry in its
    /// slot.
    pub proof fn lemma_put_new(self, key: LispObject, value: LispObject)
        requires
            self.wf(),
            self.proper(),
            self.count < isize::MAX,
            self.is_new(key),
        ensures
            ({
                let (after, slot) = self.put(key, value, self.strategy.hash_spec(key));
                &&& after.wf()
                &&& after.proper()
                &&& after.count == self.count + 1
                &&& after.capacity >= self.capacity
                &&& 0 <= slot < after.capacity
                &&& after.slots[slot] == Some(Entry { key, value, hash: self.strategy.hash_spec(key) })
                &&& forall|s: int| 0 <= s < self.capacity && s != slot ==> after.slots[s] == self.slots[s]
                &&& forall|s: int|
                    0 <= s < after.capacity && s != slot && after.slots[s] is Some ==> s < self.capacity
                &&& slot < self.capacity ==> self.slots[slot] is None
            }),
    {
        let hash = self.strategy.hash_spec(key);
        self.lemma_with_room();
        let room = self.with_room();
        room.lemma_inserted_wf(key, value, hash);
        let after = room.inserted(key, value, hash);
        let slot = room.free[0];
        assert forall|s: int, t: int|
            0 <= s < after.capacity && 0 <= t < after.capacity && s != t && (#[trigger] after.slots[s]) is Some
                && (#[trigger] after.slots[t]) is Some implies !after.strategy.equal_spec(
            after.slots[s]->Some_0.key,
            after.slots[t]->Some_0.key,
        ) by {
            if s != slot {
                assert(room.slots[s] is Some);
                assert(self.slots[s] is Some);
            }
            if t != slot {
                assert(room.slots[t] is Some);
                assert(self.slots[t] is Some);
            }
        }
        assert forall|s: int| 0 <= s < after.capacity && s != slot && after.slots[s] is Some implies s
            < self.capacity by {
            assert(room.slots[s] is Some);
        }
    }

    /// After a new key has been entered, a lookup of it leads to its value,
    /// and a lookup of the key of any other entry leads where it led before.
    pub proof fn lemma_put_then_lookup(self, key: LispObject, value: LispObject, slot: int)
        requires
            self.wf(),
            self.proper(),
            self.count < isize::MAX,
            self.is_new(key),
            0 <= slot < self.capacity,
            self.slots[slot] is Some,
        ensures
            ({
                let after = self.put(key, value, self.strategy.hash_spec(key)).0;
                &&& after.value_of(key) == Some(value)
                &&& after.lookup(self.slots[slot]->Some_0.key) == self.lookup(self.slots[slot]->Some_0.key)
                &&& after.value_of(self.slots[slot]->Some_0.key) == Some(self.slots[slot]->Some_0.value)
            }),
    {
        self.lemma_put_new(key, value);
        let (after, new_slot) = self.put(key, value, self.strategy.hash_spec(key));
        after.lemma_lookup_finds_entry(new_slot);
        self.lemma_lookup_finds_entry(slot);
        after.lemma_lookup_finds_entry(slot);
    }

    /// Removing a key that a lookup does not find changes nothing: not the
    /// number of entries, and not what any lookup finds.
    pub proof fn lemma_remove_absent(self, key: LispObject)
        requires
            self.wf(),
            self.lookup(key) is Missing,
        ensures
            self.remove(key) == self,
            self.remove(key).count == self.count,
            forall|other: LispObject| self.remove(key).lookup(other) == self.lookup(other),
    {
        if self.capacity > 0 {
            let b = self.bucket(self.strategy.hash_spec(key));
            self.lemma_match_from(self.chains[b], key, 0);
        }
    }

    /// Removing twice is removing once.
    pub proof fn lemma_remove_idempotent(self, key: LispObject)
        requires
            self.wf(),
            self.proper(),
        ensures
            self.remove(key).remove(key) == self.remove(key),
    {
        self.lemma_remove_present(key);
        if self.lookup(key) is Missing {
            self.lemma_remove_absent(key);
        } else {
            self.remove(key).lemma_remove_absent(key);
        }
    }

    /// Removing a key that a lookup finds frees the slot of its entry, takes
    /// one from the number of entries, and leaves every other entry in its
    /// slot. The key is then no longer found.
    pub proof fn lemma_remove_present(self, key: LispObject)
        requires
            self.wf(),
            self.proper(),
        ensures
            self.remove(key).wf(),
            self.remove(key).proper(),
            self.remove(key).capacity == self.capacity,
            match self.lookup(key) {
                HashLookupResult::Found(slot) => {
                    &&& self.remove(key).count + 1 == self.count
                    &&& self.remove(key).slots == self.slots.update(slot as int, None)
                    &&& self.remove(key).lookup(key) is Missing
                },
                HashLookupResult::Missing(_) => self.remove(key) == self,
            },
    {
        if self.capacity > 0 {
            let b = self.bucket(self.strategy.hash_spec(key));
            let chain = self.chains[b];
            self.lemma_match_from(chain, key, 0);
            let i = self.match_from(chain, key, 0);
            if i < chain.len() {
                self.lemma_unlinked_wf(b, i);
                let after = self.unlinked(b, i);
                let slot = chain[i];
                assert(0 <= slot < self.capacity);
                assert(after.slots[slot] is None);
                assert forall|s: int|
                    0 <= s < after.capacity && (#[trigger] after.slots[s]) is Some implies after.slots[s]->Some_0.hash
                    == after.strategy.hash_spec(after.slots[s]->Some_0.key) by {
                    assert(self.slots[s] is Some);
                }
                assert forall|s: int, t: int|
                    0 <= s < after.capacity && 0 <= t < after.capacity && s != t && (#[trigger] after.slots[s]) is Some
                        && (#[trigger] after.slots[t]) is Some implies !after.strategy.equal_spec(
                    after.slots[s]->Some_0.key,
                    after.slots[t]->Some_0.key,
                ) by {
                    assert(self.slots[s] is Some);
                    assert(self.slots[t] is Some);
                }
                // The key is no longer on its chain.
                let rest = after.chains[b];
                assert(rest == chain.remove(i));
                assert(chain.no_duplicates());
                assert forall|k: int| 0 <= k < rest.len() implies !after.matches(#[trigger] rest[k], key) by {
                    if k < i {
                        assert(rest[k] == chain[k]);
                        assert(!self.matches(chain[k], key));
                        assert(chain[k] != slot);
                    } else {
                        assert(rest[k] == chain[k + 1]);
                        assert(chain[k + 1] != slot);
                        assert(0 <= chain[k + 1] < self.capacity);
                        assert(self.slots[chain[k + 1]] is Some);
                        // An entry after the one found has another key.
                        if self.matches(chain[k + 1], key) {
                            self.lemma_entries_with_key(key, slot, chain[k + 1]);
                        }
                    }
                }
                after.lemma_match_none(rest, key, 0);
            }
        }
    }

    /// In a proper table at most one entry has a given key.
    pub proof fn lemma_entries_with_key(self, key: LispObject, s: int, t: int)
        requires
            self.proper(),
            0 <= s < self.capacity,
            0 <= t < self.capacity,
            self.matches(s, key),
            self.matches(t, key),
        ensures
            s == t,
    {
        self.strategy.lemma_same_as_third(key, self.slots[s]->Some_0.key, self.slots[t]->Some_0.key);
    }

    /// Whether some slot holds `key` with `value`, stored under the hash code
    /// of `key`.
    pub open spec fn holds(self, key: LispObject, value: LispObject) -> bool {
        exists|s: int|
            0 <= s < self.capacity && #[trigger] self.slots[s] == Some(
                Entry { key, value, hash: self.strategy.hash_spec(key) },
            )
    }

    /// Whether the entry in slot `s` came from `before` or has one of `keys`.
    pub open spec fn from_before_or_keys(self, before: TableModel<S>, keys: Seq<LispObject>, s: int) -> bool {
        ||| (s < before.capacity && before.slots[s] == self.slots[s])
        ||| exists|i: int| 0 <= i < keys.len() && #[trigger] keys[i] == self.slots[s]->Some_0.key
    }

    /// In a proper table a lookup of a key that the table holds leads to the
    /// value that it holds for it.
    pub proof fn lemma_holds_value_of(self, key: LispObject, value: LispObject)
        requires
            self.wf(),
            self.proper(),
            self.holds(key, value),
        ensures
            self.value_of(key) == Some(value),
    {
        let s = choose|s: int|
            0 <= s < self.capacity && #[trigger] self.slots[s] == Some(
                Entry { key, value, hash: self.strategy.hash_spec(key) },
            );
        self.lemma_lookup_finds_entry(s);
    }

    /// What entering a sequence of new, pairwise different keys makes of a
    /// proper table: a proper table that holds every one of the keys with its
    /// value, and every entry that was there before in its slot.
    pub proof fn lemma_put_all(self, keys: Seq<LispObject>, values: Seq<LispObject>)
        requires
            self.wf(),
            self.proper(),
            keys.len() == values.len(),
            self.count + keys.len() <= isize::MAX,
            forall|i: int, j: int|
                0 <= i < keys.len() && 0 <= j < keys.len() && i != j ==> !self.strategy.equal_spec(
                    #[trigger] keys[i],
                    #[trigger] keys[j],
                ),
            forall|i: int| 0 <= i < keys.len() ==> self.is_new(#[trigger] keys[i]),
        ensures
            self.put_all(keys, values).wf(),
            self.put_all(keys, values).proper(),
            self.put_all(keys, values).strategy == self.strategy,
            self.put_all(keys, values).count == self.count + keys.len(),
            self.put_all(keys, values).capacity >= self.capacity,
            forall|i: int|
                0 <= i < keys.len() ==> #[trigger] self.put_all(keys, values).holds(keys[i], values[i]),
            forall|s: int|
                0 <= s < self.capacity && self.slots[s] is Some ==> #[trigger] self.put_all(
                    keys,
                    values,
                ).slots[s] == self.slots[s],
            forall|s: int|
                0 <= s < self.put_all(keys, values).capacity && self.put_all(keys, values).slots[s] is Some
                    ==> #[trigger] self.put_all(keys, values).from_before_or_keys(self, keys, s),
        decreases keys.len(),
    {
        if keys.len() > 0 {
            let n = keys.len() - 1;
            let head_keys = keys.drop_last();
            let head_values = values.drop_last();
            let key = keys.last();
            let value = values.last();
            assert forall|i: int, j: int|
                0 <= i < head_keys.len() && 0 <= j < head_keys.len() && i != j implies !self.strategy.equal_spec(
                #[trigger] head_keys[i],
                #[trigger] head_keys[j],
            ) by {
                assert(head_keys[i] == keys[i] && head_keys[j] == keys[j]);
            }
            assert forall|i: int| 0 <= i < head_keys.len() implies self.is_new(#[trigger] head_keys[i]) by {
                assert(head_keys[i] == keys[i]);
            }
            self.lemma_put_all(head_keys, head_values);
            let prev = self.put_all(head_keys, head_values);
            let hash = self.strategy.hash_spec(key);
            assert(self.is_new(keys[n]));
            assert forall|s: int| 0 <= s < prev.capacity && (#[trigger] prev.slots[s]) is Some implies !prev.strategy.equal_spec(
                key,
                prev.slots[s]->Some_0.key,
            ) && !prev.strategy.equal_spec(prev.slots[s]->Some_0.key, key) by {
                assert(prev.from_before_or_keys(self, head_keys, s));
                if s < self.capacity && self.slots[s] == prev.slots[s] {
                    assert(self.slots[s] is Some);
                } else {
                    let i = choose|i: int| 0 <= i < head_keys.len() && #[trigger] head_keys[i] == prev.slots[s]->Some_0.key;
                    assert(head_keys[i] == keys[i]);
                    assert(!self.strategy.equal_spec(keys[i], keys[n]));
                    assert(!self.strategy.equal_spec(keys[n], keys[i]));
                }
            }
            prev.lemma_put_new(key, value);
            let (after, slot) = prev.put(key, value, hash);
            assert(after == self.put_all(keys, values));
            assert forall|i: int| 0 <= i < keys.len() implies #[trigger] after.holds(keys[i], values[i]) by {
                if i == n {
                    assert(after.slots[slot] == Some(Entry { key, value, hash }));
                } else {
                    assert(prev.holds(head_keys[i], head_values[i]));
                    let s = choose|s: int|
                        0 <= s < prev.capacity && #[trigger] prev.slots[s] == Some(
                            Entry {
                                key: head_keys[i],
                                value: head_values[i],
                                hash: prev.strategy.hash_spec(head_keys[i]),
                            },
                        );
                    assert(s != slot);
                    assert(after.slots[s] == prev.slots[s]);
                }
            }
            assert forall|s: int| 0 <= s < self.capacity && self.slots[s] is Some implies #[trigger] after.slots[s]
                == self.slots[s] by {
                assert(prev.slots[s] == self.slots[s]);
                assert(s != slot);
            }
            assert forall|s: int| 0 <= s < after.capacity && after.slots[s] is Some implies #[trigger] after.from_before_or_keys(
                self,
                keys,
                s,
            ) by {
                if s == slot {
                    assert(keys[n] == after.slots[s]->Some_0.key);
                } else {
                    assert(s < prev.capacity);
                    assert(after.slots[s] == prev.slots[s]);
                    assert(prev.from_before_or_keys(self, head_keys, s));
                    if !(s < self.capacity && self.slots[s] == prev.slots[s]) {
                        let i = choose|i: int| 0 <= i < head_keys.len() && #[trigger] head_keys[i] == prev.slots[s]->Some_0.key;
                        assert(keys[i] == after.slots[s]->Some_0.key);
                    }
                }
            }
        }
    }

    /// After pairwise different keys have been entered with their values
    /// into a table without entries, in whatever order, a lookup of each key
    /// leads to the value entered with it, and the table counts as many
    /// entries as keys.
    pub proof fn lemma_put_lookup_round_trip(self, keys: Seq<LispObject>, values: Seq<LispObject>, i: int)
        requires
            self.wf(),
            forall|s: int| 0 <= s < self.capacity ==> self.slots[s] is None,
            keys.len() == values.len(),
            self.count + keys.len() <= isize::MAX,
            forall|a: int, b: int|
                0 <= a < keys.len() && 0 <= b < keys.len() && a != b ==> !self.strategy.equal_spec(
                    #[trigger] keys[a],
                    #[trigger] keys[b],
                ),
            0 <= i < keys.len(),
        ensures
            self.put_all(keys, values).value_of(keys[i]) == Some(values[i]),
            self.put_all(keys, values).lookup(keys[i]) is Found,
            self.put_all(keys, values).count == self.count + keys.len(),
    {
        self.lemma_put_all(keys, values);
        let after = self.put_all(keys, values);
        assert(after.holds(keys[i], values[i]));
        after.lemma_holds_value_of(keys[i], values[i]);
    }

    /// What a sweep makes of a table: an entry is gone exactly when the
    /// weakness of the table does not keep it, given which of its key and its
    /// value are live; every other entry stays in its slot. The capacity, the
    /// strategy and the weakness stay.
    pub proof fn lemma_sweep(self, key_live: Seq<bool>, value_live: Seq<bool>, n: nat)
        requires
            self.wf(),
            n <= self.capacity,
        ensures
            self.sweep_upto(key_live, value_live, n).wf(),
            self.sweep_upto(key_live, value_live, n).capacity == self.capacity,
            self.sweep_upto(key_live, value_live, n).strategy == self.strategy,
            self.sweep_upto(key_live, value_live, n).weak_kind == self.weak_kind,
            self.sweep_upto(key_live, value_live, n).rehash_threshold == self.rehash_threshold,
            self.sweep_upto(key_live, value_live, n).rehash_size == self.rehash_size,
            forall|s: int|
                0 <= s < self.capacity ==> #[trigger] self.sweep_upto(key_live, value_live, n).slots[s] == if s
                    < n && self.slots[s] is Some && self.swept(key_live[s], value_live[s]) {
                    None
                } else {
                    self.slots[s]
                },
            self.proper() ==> self.sweep_upto(key_live, value_live, n).proper(),
        decreases n,
    {
        if n > 0 {
            self.lemma_sweep(key_live, value_live, (n - 1) as nat);
            let before = self.sweep_upto(key_live, value_live, (n - 1) as nat);
            let slot = n - 1;
            assert(before.slots[slot] == self.slots[slot]);
            if before.slots[slot] is Some && before.swept(key_live[slot], value_live[slot]) {
                let b = before.bucket(before.slots[slot]->Some_0.hash);
                assert(before.chains[b].contains(slot));
                let i = before.position(slot);
                before.lemma_unlinked_wf(b, i);
                let after = before.unlinked(b, i);
                assert forall|s: int| 0 <= s < self.capacity implies #[trigger] after.slots[s] == if s < n
                    && self.slots[s] is Some && self.swept(key_live[s], value_live[s]) {
                    None
                } else {
                    self.slots[s]
                } by {
                    assert(before.slots[s] == if s < n - 1 && self.slots[s] is Some && self.swept(
                        key_live[s],
                        value_live[s],
                    ) {
                        None
                    } else {
                        self.slots[s]
                    });
                }
                if self.proper() {
                    assert forall|s: int|
                        0 <= s < after.capacity && (#[trigger] after.slots[s]) is Some implies after.slots[s]->Some_0.hash
                        == after.strategy.hash_spec(after.slots[s]->Some_0.key) by {
                        assert(before.slots[s] is Some);
                    }
                    assert forall|s: int, t: int|
                        0 <= s < after.capacity && 0 <= t < after.capacity && s != t && (#[trigger] after.slots[s]) is Some
                            && (#[trigger] after.slots[t]) is Some implies !after.strategy.equal_spec(
                        after.slots[s]->Some_0.key,
                        after.slots[t]->Some_0.key,
                    ) by {
                        assert(before.slots[s] is Some);
                        assert(before.slots[t] is Some);
                    }
                }
            }
        }
    }

    /// The slots that hold an entry.
    pub open spec fn occupied(self) -> Set<int> {
        Set::new(|s: int| 0 <= s < self.capacity && self.slots[s] is Some)
    }

    /// The count of a table is the number of its slots that hold an entry.
    pub proof fn lemma_count(self)
        requires
            self.wf(),
        ensures
            self.occupied().finite(),
            self.occupied().len() == self.count,
    {
        let range = vstd::set_lib::set_int_range(0, self.capacity as int);
        let free = self.free.to_set();
        vstd::set_lib::lemma_int_range(0, self.capacity as int);
        self.free.unique_seq_to_set();
        assert(free.finite()) by {
            vstd::seq_lib::seq_to_set_is_finite(self.free);
        }
        assert forall|s: int| free.contains(s) implies range.contains(s) by {
            let i = choose|i: int| 0 <= i < self.free.len() && self.free[i] == s;
            assert(0 <= self.free[i] < self.capacity);
        }
        assert(range.intersect(free) =~= free);
        assert(range.difference(free) =~= self.occupied()) by {
            assert forall|s: int| range.difference(free).contains(s) <==> self.occupied().contains(s) by {
                if 0 <= s < self.capacity {
                    if self.slots[s] is None {
                        assert(self.free.contains(s));
                    } else if free.contains(s) {
                        let i = choose|i: int| 0 <= i < self.free.len() && self.free[i] == s;
                        assert(self.slots[self.free[i]] is None);
                    }
                }
            }
        }
        vstd::set_lib::lemma_set_difference_len(range, free);
        vstd::set_lib::lemma_len_difference(range, free);
    }
}

} // verus!
