//! The mathematical model of an open-addressing hash table: slots, the chain
//! of slots of every bucket, the list of free slots, and what each operation
//! makes of them.

use vstd::prelude::*;
use crate::lisp::LispObject;

verus! {

/// What a table asks of its keys: when two are the same key, and which hash
/// code a key has. A strategy is bound to a table when the table is made.
pub trait EqualityStrategy: Sized {
    /// Whether `a` and `b` are the same key.
    spec fn equal_spec(&self, a: LispObject, b: LispObject) -> bool;

    /// The hash code of `a`.
    spec fn hash_spec(&self, a: LispObject) -> u64;

    /// Every key is the same key as itself.
    proof fn lemma_reflexive(&self, a: LispObject)
        ensures
            self.equal_spec(a, a),
    ;

    /// Two keys that are each the same key as a third are the same key. With
    /// `lemma_reflexive` this makes `equal_spec` an equivalence.
    proof fn lemma_same_as_third(&self, a: LispObject, b: LispObject, c: LispObject)
        requires
            self.equal_spec(a, b),
            self.equal_spec(a, c),
        ensures
            self.equal_spec(b, c),
    ;

    /// Keys with different hash codes are different keys.
    proof fn lemma_hash_agrees(&self, a: LispObject, b: LispObject)
        requires
            self.equal_spec(a, b),
        ensures
            self.hash_spec(a) == self.hash_spec(b),
    ;

    /// Decides whether `a` and `b` are the same key.
    fn equal(&self, a: LispObject, b: LispObject) -> (r: bool)
        ensures
            r == self.equal_spec(a, b),
    ;

    /// Computes the hash code of `a`.
    fn hash(&self, a: LispObject) -> (h: u64)
        ensures
            h == self.hash_spec(a),
    ;

    /// The symbol that names this strategy.
    spec fn name_spec(&self) -> LispObject;

    /// Hands out the symbol that names this strategy.
    fn name(&self) -> (r: LispObject)
        ensures
            r == self.name_spec(),
    ;

    /// A copy of this strategy for a copy of its table.
    fn duplicate(&self) -> (copy: Self)
        ensures
            copy == *self,
    ;
}

/// A key, its value and the hash code it was stored under.
#[derive(Clone, Copy, Debug, PartialEq, Eq, Structural)]
pub struct Entry {
    pub key: LispObject,
    pub value: LispObject,
    pub hash: u64,
}

/// Which part of an entry must be reachable from elsewhere for the entry to
/// survive a sweep.
#[derive(Clone, Copy, Debug, PartialEq, Eq, Structural)]
pub enum WeakKind {
    /// Entries survive every sweep.
    Strong,
    /// The key.
    Key,
    /// The value.
    Value,
    /// The key or the value: an entry goes when either is dead.
    KeyOrValue,
    /// The key and the value: an entry goes when both are dead.
    KeyAndValue,
}

/// A fraction.
#[derive(Clone, Copy, Debug, PartialEq, Eq, Structural)]
pub struct Ratio {
    pub num: u32,
    pub den: u32,
}

/// How a table grows: by a number of slots, or by a factor.
#[derive(Clone, Copy, Debug, PartialEq, Eq, Structural)]
pub enum RehashSize {
    Increment(usize),
    Factor(Ratio),
}

/// The result of looking a key up.
#[derive(Clone, Copy, Debug, PartialEq, Eq, PartialOrd, Ord, Structural)]
pub enum HashLookupResult {
    /// No entry has the key. Carries the hash code of the key, for a `put`
    /// that may follow.
    Missing(u64),
    /// The slot of the entry that has the key.
    Found(isize),
}

/// The chains that result from entering the occupied ones among the first `n`
/// slots, in ascending order, each at the head of the chain of its bucket.
pub open spec fn rebucket(slots: Seq<Option<Entry>>, capacity: nat, n: nat) -> Seq<Seq<int>>
    decreases n,
{
    if n == 0 {
        Seq::new(capacity, |b: int| Seq::<int>::empty())
    } else {
        let before = rebucket(slots, capacity, (n - 1) as nat);
        match slots[n - 1] {
            Some(e) => {
                let b = e.hash as int % capacity as int;
                before.update(b, seq![n - 1] + before[b])
            },
            None => before,
        }
    }
}

/// The state of a table.
pub struct TableModel<S> {
    pub strategy: S,
    /// The number of buckets, which is also the number of slots.
    pub capacity: nat,
    /// The number of entries.
    pub count: nat,
    /// The load above which the table grows before it takes another entry.
    pub rehash_threshold: Ratio,
    pub rehash_size: RehashSize,
    pub weak_kind: WeakKind,
    /// The entry in each slot, if the slot is occupied.
    pub slots: Seq<Option<Entry>>,
    /// For each bucket, the slots of its entries in the order in which a
    /// lookup visits them.
    pub chains: Seq<Seq<int>>,
    /// The slots without an entry, the next one to be used first.
    pub free: Seq<int>,
}

impl<S: EqualityStrategy> TableModel<S> {
    /// The bucket of a hash code.
    pub open spec fn bucket(self, hash: u64) -> int {
        hash as int % self.capacity as int
    }

    /// Every entry is on the chain of its bucket and nowhere else, every other
    /// slot is on the free list, and `count` is the number of entries.
    pub open spec fn wf(self) -> bool {
        &&& self.capacity <= isize::MAX
        &&& self.slots.len() == self.capacity
        &&& self.chains.len() == self.capacity
        &&& self.count + self.free.len() == self.capacity
        &&& 0 < self.rehash_threshold.num <= self.rehash_threshold.den
        &&& self.rehash_size matches RehashSize::Factor(r) ==> r.den > 0
        &&& forall|b: int, i: int|
            0 <= b < self.capacity && 0 <= i < self.chains[b].len() ==> {
                &&& 0 <= (#[trigger] self.chains[b][i]) < self.capacity
                &&& self.slots[self.chains[b][i]] is Some
                &&& self.bucket(self.slots[self.chains[b][i]]->Some_0.hash) == b
            }
        &&& forall|b: int| 0 <= b < self.capacity ==> (#[trigger] self.chains[b]).no_duplicates()
        &&& forall|s: int|
            0 <= s < self.capacity && (#[trigger] self.slots[s]) is Some ==> self.chains[self.bucket(
                self.slots[s]->Some_0.hash,
            )].contains(s)
        &&& forall|i: int|
            0 <= i < self.free.len() ==> 0 <= (#[trigger] self.free[i]) < self.capacity
                && self.slots[self.free[i]] is None
        &&& self.free.no_duplicates()
        &&& forall|s: int|
            0 <= s < self.capacity && (#[trigger] self.slots[s]) is None ==> self.free.contains(s)
    }

    /// Whether slot `slot` holds an entry whose key is the same key as `key`.
    pub open spec fn matches(self, slot: int, key: LispObject) -> bool {
        self.slots[slot] is Some && self.strategy.equal_spec(key, self.slots[slot]->Some_0.key)
    }

    /// The position on `chain`, at or after `i`, of the first slot that holds
    /// `key`; the length of `chain` if there is none.
    pub open spec fn match_from(self, chain: Seq<int>, key: LispObject, i: int) -> int
        decreases chain.len() - i,
    {
        if i < 0 || i >= chain.len() {
            chain.len() as int
        } else if self.matches(chain[i], key) {
            i
        } else {
            self.match_from(chain, key, i + 1)
        }
    }

    /// Looks `key` up: the chain of the bucket of its hash code is searched
    /// from its head, and the first slot that holds `key` is found.
    pub open spec fn lookup(self, key: LispObject) -> HashLookupResult {
        let h = self.strategy.hash_spec(key);
        if self.capacity == 0 {
            HashLookupResult::Missing(h)
        } else {
            let chain = self.chains[self.bucket(h)];
            let i = self.match_from(chain, key, 0);
            if i < chain.len() {
                HashLookupResult::Found(chain[i] as isize)
            } else {
                HashLookupResult::Missing(h)
            }
        }
    }

    /// Whether one more entry would take the load above the threshold.
    pub open spec fn needs_resize(self) -> bool {
        (self.count + 1) * self.rehash_threshold.den > self.capacity * self.rehash_threshold.num
    }

    /// The capacity after growing: what `rehash_size` makes of the capacity,
    /// at least one more than now, and no more than a slot index can address.
    pub open spec fn grown_capacity(self) -> nat {
        let want: int = match self.rehash_size {
            RehashSize::Increment(n) => self.capacity + n,
            RehashSize::Factor(r) => (self.capacity * r.num) / (r.den as int),
        };
        let more: int = if want > self.capacity {
            want
        } else {
            self.capacity as int + 1
        };
        if more > isize::MAX {
            isize::MAX as nat
        } else {
            more as nat
        }
    }

    /// The table after growing. Every entry keeps its slot; the chains are
    /// built anew for the new number of buckets; the new slots go to the front
    /// of the free list.
    pub open spec fn resized(self) -> TableModel<S> {
        let capacity = self.grown_capacity();
        let slots = self.slots + Seq::new((capacity - self.capacity) as nat, |i: int| None::<Entry>);
        TableModel {
            capacity,
            slots,
            chains: rebucket(slots, capacity, self.capacity),
            free: Seq::new((capacity - self.capacity) as nat, |i: int| self.capacity + i) + self.free,
            ..self
        }
    }

    /// The table as `put` enters into it: grown if one more entry would take
    /// the load above the threshold and the table can still grow.
    pub open spec fn with_room(self) -> TableModel<S> {
        if self.needs_resize() && self.capacity < isize::MAX {
            self.resized()
        } else {
            self
        }
    }

    /// Enters `key` with `value` under `hash`: into the first free slot, at
    /// the head of the chain of its bucket. The result is the new table and
    /// the slot.
    pub open spec fn put(self, key: LispObject, value: LispObject, hash: u64) -> (
        TableModel<S>,
        int,
    ) {
        (self.with_room().inserted(key, value, hash), self.with_room().free[0])
    }

    /// The table with `key`, `value` and `hash` in its first free slot, at the
    /// head of the chain of the bucket of `hash`.
    pub open spec fn inserted(self, key: LispObject, value: LispObject, hash: u64) -> TableModel<S> {
        let slot = self.free[0];
        let b = self.bucket(hash);
        TableModel {
            count: self.count + 1,
            slots: self.slots.update(slot, Some(Entry { key, value, hash })),
            chains: self.chains.update(b, seq![slot] + self.chains[b]),
            free: self.free.drop_first(),
            ..self
        }
    }

    /// The table without the entry in the slot at position `i` of the chain of
    /// bucket `b`. The slot becomes the first free slot.
    pub open spec fn unlinked(self, b: int, i: int) -> TableModel<S> {
        let slot = self.chains[b][i];
        TableModel {
            count: (self.count - 1) as nat,
            slots: self.slots.update(slot, None),
            chains: self.chains.update(b, self.chains[b].remove(i)),
            free: seq![slot] + self.free,
            ..self
        }
    }

    /// Removes the entry that a lookup of `key` finds. Without such an entry
    /// the table stays as it is.
    pub open spec fn remove(self, key: LispObject) -> TableModel<S> {
        if self.capacity == 0 {
            self
        } else {
            let b = self.bucket(self.strategy.hash_spec(key));
            let i = self.match_from(self.chains[b], key, 0);
            if i < self.chains[b].len() {
                self.unlinked(b, i)
            } else {
                self
            }
        }
    }

    /// The table without entries: every slot is free, in ascending order.
    pub open spec fn cleared(self) -> TableModel<S> {
        TableModel {
            count: 0,
            slots: Seq::new(self.capacity, |s: int| None::<Entry>),
            chains: Seq::new(self.capacity, |b: int| Seq::<int>::empty()),
            free: Seq::new(self.capacity, |s: int| s),
            ..self
        }
    }

    /// A table of `capacity` slots without entries.
    pub open spec fn empty(
        strategy: S,
        capacity: nat,
        rehash_threshold: Ratio,
        rehash_size: RehashSize,
        weak_kind: WeakKind,
    ) -> TableModel<S> {
        TableModel {
            strategy,
            capacity,
            count: 0,
            rehash_threshold,
            rehash_size,
            weak_kind,
            slots: Seq::new(capacity, |s: int| None::<Entry>),
            chains: Seq::new(capacity, |b: int| Seq::<int>::empty()),
            free: Seq::new(capacity, |s: int| s),
        }
    }

    /// The position of `slot` on the chain of its bucket.
    pub open spec fn position(self, slot: int) -> int {
        let chain = self.chains[self.bucket(self.slots[slot]->Some_0.hash)];
        choose|i: int| 0 <= i < chain.len() && chain[i] == slot
    }

    /// The table without the entry in `slot`.
    pub open spec fn without_slot(self, slot: int) -> TableModel<S> {
        self.unlinked(self.bucket(self.slots[slot]->Some_0.hash), self.position(slot))
    }

    /// The table after a sweep of its first `n` slots, in ascending order,
    /// where `key_live` and `value_live` say for each slot whether the key and
    /// the value in it are live.
    pub open spec fn sweep_upto(self, key_live: Seq<bool>, value_live: Seq<bool>, n: nat) -> TableModel<S>
        decreases n,
    {
        if n == 0 {
            self
        } else {
            let before = self.sweep_upto(key_live, value_live, (n - 1) as nat);
            if before.slots[n - 1] is Some && before.swept(key_live[n - 1], value_live[n - 1]) {
                before.without_slot(n - 1)
            } else {
                before
            }
        }
    }

    /// Whether a sweep removes an entry, given which of its key and its value
    /// are live.
    pub open spec fn swept(self, key_live: bool, value_live: bool) -> bool {
        match self.weak_kind {
            WeakKind::Strong => false,
            WeakKind::Key => !key_live,
            WeakKind::Value => !value_live,
            WeakKind::KeyOrValue => !key_live || !value_live,
            WeakKind::KeyAndValue => !key_live && !value_live,
        }
    }
}

/// What `rebucket` builds: one chain for each bucket, each holding exactly the
/// occupied slots of its bucket among the first `n`, highest slot first.
pub proof fn lemma_rebucket(slots: Seq<Option<Entry>>, capacity: nat, n: nat)
    requires
        n <= slots.len(),
        capacity > 0,
    ensures
        rebucket(slots, capacity, n).len() == capacity,
        forall|b: int, i: int|
            0 <= b < capacity && 0 <= i < rebucket(slots, capacity, n)[b].len() ==> {
                &&& 0 <= (#[trigger] rebucket(slots, capacity, n)[b][i]) < n
                &&& slots[rebucket(slots, capacity, n)[b][i]] is Some
                &&& slots[rebucket(slots, capacity, n)[b][i]]->Some_0.hash as int % capacity as int
                    == b
            },
        forall|b: int, i: int, j: int|
            0 <= b < capacity && 0 <= i < j < rebucket(slots, capacity, n)[b].len()
                ==> rebucket(slots, capacity, n)[b][i] > rebucket(slots, capacity, n)[b][j],
        forall|s: int|
            0 <= s < n && (#[trigger] slots[s]) is Some ==> rebucket(
                slots,
                capacity,
                n,
            )[slots[s]->Some_0.hash as int % capacity as int].contains(s),
    decreases n,
{
    if n > 0 {
        lemma_rebucket(slots, capacity, (n - 1) as nat);
        let before = rebucket(slots, capacity, (n - 1) as nat);
        let after = rebucket(slots, capacity, n);
        match slots[n - 1] {
            Some(e) => {
                let b0 = e.hash as int % capacity as int;
                assert(after[b0] == seq![n - 1] + before[b0]);
                assert forall|b: int, i: int|
                    0 <= b < capacity && 0 <= i < after[b].len() implies {
                    &&& 0 <= (#[trigger] after[b][i]) < n
                    &&& slots[after[b][i]] is Some
                    &&& slots[after[b][i]]->Some_0.hash as int % capacity as int == b
                } by {
                    if b == b0 && i > 0 {
                        assert(after[b][i] == before[b][i - 1]);
                    }
                }
                assert forall|b: int, i: int, j: int|
                    0 <= b < capacity && 0 <= i < j < after[b].len() implies after[b][i]
                    > after[b][j] by {
                    if b == b0 {
                        assert(after[b][j] == before[b][j - 1]);
                        if i > 0 {
                            assert(after[b][i] == before[b][i - 1]);
                        }
                    }
                }
                assert forall|s: int| 0 <= s < n && (#[trigger] slots[s]) is Some implies after[slots[s]->Some_0.hash as int
                    % capacity as int].contains(s) by {
                    let b = slots[s]->Some_0.hash as int % capacity as int;
                    if s == n - 1 {
                        assert(after[b][0] == s);
                    } else {
                        let j = choose|j: int| 0 <= j < before[b].len() && before[b][j] == s;
                        if b == b0 {
                            assert(after[b][j + 1] == s);
                        } else {
                            assert(after[b][j] == s);
                        }
                    }
                }
            },
            None => {},
        }
    }
}

impl<S: EqualityStrategy> TableModel<S> {
    /// A table without entries is well formed.
    pub proof fn lemma_empty_wf(
        strategy: S,
        capacity: nat,
        rehash_threshold: Ratio,
        rehash_size: RehashSize,
        weak_kind: WeakKind,
    )
        requires
            capacity <= isize::MAX,
            0 < rehash_threshold.num <= rehash_threshold.den,
            rehash_size matches RehashSize::Factor(r) ==> r.den > 0,
        ensures
            Self::empty(strategy, capacity, rehash_threshold, rehash_size, weak_kind).wf(),
    {
        let m = Self::empty(strategy, capacity, rehash_threshold, rehash_size, weak_kind);
        assert forall|s: int| 0 <= s < m.capacity && (#[trigger] m.slots[s]) is None implies m.free.contains(
            s,
        ) by {
            assert(m.free[s] == s);
        }
    }

    /// Clearing keeps a table well formed.
    pub proof fn lemma_cleared_wf(self)
        requires
            self.wf(),
        ensures
            self.cleared().wf(),
    {
        let m = self.cleared();
        assert forall|s: int| 0 <= s < m.capacity && (#[trigger] m.slots[s]) is None implies m.free.contains(
            s,
        ) by {
            assert(m.free[s] == s);
        }
    }

    /// A table that takes no entry above its threshold has a free slot.
    pub proof fn lemma_room(self)
        requires
            self.wf(),
            !self.needs_resize(),
        ensures
            self.count < self.capacity,
    {
        let num = self.rehash_threshold.num as int;
        let den = self.rehash_threshold.den as int;
        let count = self.count as int;
        let cap = self.capacity as int;
        assert((count + 1) * den <= cap * num);
        assert(count + 1 <= cap) by (nonlinear_arith)
            requires
                (count + 1) * den <= cap * num,
                0 < num <= den,
                0 <= count,
                0 <= cap,
        ;
    }

    /// Entering into a table with a free slot keeps it well formed.
    pub proof fn lemma_inserted_wf(self, key: LispObject, value: LispObject, hash: u64)
        requires
            self.wf(),
            self.free.len() > 0,
        ensures
            self.inserted(key, value, hash).wf(),
            0 <= self.free[0] < self.capacity,
            self.slots[self.free[0]] is None,
            0 <= self.bucket(hash) < self.capacity,
    {
        let m = self.inserted(key, value, hash);
        let slot = self.free[0];
        let b0 = self.bucket(hash);
        assert(0 <= slot < self.capacity && self.slots[slot] is None);
        assert(m.chains[b0] == seq![slot] + self.chains[b0]);
        assert forall|b: int, i: int| 0 <= b < m.capacity && 0 <= i < m.chains[b].len() implies {
            &&& 0 <= (#[trigger] m.chains[b][i]) < m.capacity
            &&& m.slots[m.chains[b][i]] is Some
            &&& m.bucket(m.slots[m.chains[b][i]]->Some_0.hash) == b
        } by {
            if b == b0 {
                if i > 0 {
                    assert(m.chains[b][i] == self.chains[b][i - 1]);
                }
            } else {
                assert(m.chains[b][i] == self.chains[b][i]);
            }
        }
        assert forall|b: int| 0 <= b < m.capacity implies (#[trigger] m.chains[b]).no_duplicates() by {
            if b == b0 {
                let c = m.chains[b];
                assert(self.chains[b].no_duplicates());
                assert forall|i: int, j: int| 0 <= i < c.len() && 0 <= j < c.len() && i != j implies c[i]
                    != c[j] by {
                    if i > 0 {
                        assert(c[i] == self.chains[b][i - 1]);
                    }
                    if j > 0 {
                        assert(c[j] == self.chains[b][j - 1]);
                    }
                }
            }
        }
        assert forall|s: int| 0 <= s < m.capacity && (#[trigger] m.slots[s]) is Some implies m.chains[m.bucket(
            m.slots[s]->Some_0.hash,
        )].contains(s) by {
            let b = m.bucket(m.slots[s]->Some_0.hash);
            if s == slot {
                assert(m.chains[b][0] == s);
            } else {
                assert(self.slots[s] is Some);
                let j = choose|j: int| 0 <= j < self.chains[b].len() && self.chains[b][j] == s;
                if b == b0 {
                    assert(m.chains[b][j + 1] == s);
                } else {
                    assert(m.chains[b][j] == s);
                }
            }
        }
        assert forall|i: int| 0 <= i < m.free.len() implies 0 <= (#[trigger] m.free[i]) < m.capacity
            && m.slots[m.free[i]] is None by {
            assert(m.free[i] == self.free[i + 1]);
        }
        assert forall|i: int, j: int| 0 <= i < m.free.len() && 0 <= j < m.free.len() && i != j implies m.free[i]
            != m.free[j] by {
            assert(m.free[i] == self.free[i + 1]);
            assert(m.free[j] == self.free[j + 1]);
        }
        assert forall|s: int| 0 <= s < m.capacity && (#[trigger] m.slots[s]) is None implies m.free.contains(
            s,
        ) by {
            assert(self.slots[s] is None);
            let j = choose|j: int| 0 <= j < self.free.len() && self.free[j] == s;
            assert(m.free[j - 1] == s);
        }
    }

    /// Growing keeps a table well formed and its entries in their slots, and
    /// leaves it with a free slot.
    pub proof fn lemma_resized_wf(self)
        requires
            self.wf(),
            self.capacity < isize::MAX,
        ensures
            self.resized().wf(),
            self.resized().capacity > self.capacity,
            self.resized().count == self.count,
            self.resized().free.len() > 0,
            forall|s: int| 0 <= s < self.capacity ==> self.resized().slots[s] == self.slots[s],
            forall|s: int| self.capacity <= s < self.resized().capacity ==> self.resized().slots[s] is None,
    {
        let m = self.resized();
        let old_cap = self.capacity;
        lemma_rebucket(m.slots, m.capacity, old_cap);
        assert forall|b: int| 0 <= b < m.capacity implies (#[trigger] m.chains[b]).no_duplicates() by {
        }
        let fresh = Seq::new((m.capacity - old_cap) as nat, |i: int| old_cap + i);
        assert(m.free == fresh + self.free);
        assert forall|i: int| 0 <= i < m.free.len() implies 0 <= (#[trigger] m.free[i]) < m.capacity
            && m.slots[m.free[i]] is None by {
            if i >= fresh.len() {
                assert(m.free[i] == self.free[i - fresh.len()]);
            }
        }
        assert forall|i: int, j: int| 0 <= i < m.free.len() && 0 <= j < m.free.len() && i != j implies m.free[i]
            != m.free[j] by {
            if i >= fresh.len() {
                assert(m.free[i] == self.free[i - fresh.len()]);
            }
            if j >= fresh.len() {
                assert(m.free[j] == self.free[j - fresh.len()]);
            }
        }
        assert forall|s: int| 0 <= s < m.capacity && (#[trigger] m.slots[s]) is None implies m.free.contains(
            s,
        ) by {
            if s < old_cap {
                assert(self.slots[s] is None);
                let j = choose|j: int| 0 <= j < self.free.len() && self.free[j] == s;
                assert(m.free[fresh.len() + j] == s);
            } else {
                assert(m.free[s - old_cap] == s);
            }
        }
    }

    /// Taking an entry off its chain keeps a table well formed.
    pub proof fn lemma_unlinked_wf(self, b: int, i: int)
        requires
            self.wf(),
            0 <= b < self.capacity,
            0 <= i < self.chains[b].len(),
        ensures
            self.unlinked(b, i).wf(),
            self.count > 0,
    {
        let m = self.unlinked(b, i);
        let slot = self.chains[b][i];
        let chain = self.chains[b];
        assert(0 <= slot < self.capacity && self.slots[slot] is Some);
        assert(chain.no_duplicates());
        if self.free.len() == self.capacity {
            // every slot would be free
            self.free.unique_seq_to_set();
            vstd::set_lib::lemma_int_range(0, self.capacity as int);
            let range = vstd::set_lib::set_int_range(0, self.capacity as int);
            assert forall|x: int| self.free.to_set().contains(x) implies range.contains(x) by {
            }
            vstd::set_lib::lemma_subset_equality(self.free.to_set(), range);
            assert(range.contains(slot));
            assert(self.free.contains(slot));
            assert(false);
        }
        assert forall|b2: int, i2: int| 0 <= b2 < m.capacity && 0 <= i2 < m.chains[b2].len() implies {
            &&& 0 <= (#[trigger] m.chains[b2][i2]) < m.capacity
            &&& m.slots[m.chains[b2][i2]] is Some
            &&& m.bucket(m.slots[m.chains[b2][i2]]->Some_0.hash) == b2
        } by {
            if b2 == b {
                if i2 < i {
                    assert(m.chains[b2][i2] == chain[i2]);
                } else {
                    assert(m.chains[b2][i2] == chain[i2 + 1]);
                }
            } else {
                assert(m.chains[b2][i2] == self.chains[b2][i2]);
                assert(self.bucket(self.slots[slot]->Some_0.hash) == b);
            }
        }
        assert forall|b2: int| 0 <= b2 < m.capacity implies (#[trigger] m.chains[b2]).no_duplicates() by {
            if b2 == b {
                let c = m.chains[b2];
                assert forall|x: int, y: int| 0 <= x < c.len() && 0 <= y < c.len() && x != y implies c[x]
                    != c[y] by {
                    let x0 = if x < i { x } else { x + 1 };
                    let y0 = if y < i { y } else { y + 1 };
                    assert(c[x] == chain[x0]);
                    assert(c[y] == chain[y0]);
                }
            } else {
                assert(m.chains[b2] == self.chains[b2]);
            }
        }
        assert forall|s: int| 0 <= s < m.capacity && (#[trigger] m.slots[s]) is Some implies m.chains[m.bucket(
            m.slots[s]->Some_0.hash,
        )].contains(s) by {
            assert(self.slots[s] is Some);
            let b2 = m.bucket(m.slots[s]->Some_0.hash);
            let j = choose|j: int| 0 <= j < self.chains[b2].len() && self.chains[b2][j] == s;
            if b2 == b {
                if j < i {
                    assert(m.chains[b2][j] == s);
                } else {
                    assert(m.chains[b2][j - 1] == s);
                }
            } else {
                assert(m.chains[b2][j] == s);
            }
        }
        assert forall|k: int| 0 <= k < m.free.len() implies 0 <= (#[trigger] m.free[k]) < m.capacity
            && m.slots[m.free[k]] is None by {
            if k > 0 {
                assert(m.free[k] == self.free[k - 1]);
            }
        }
        assert forall|x: int, y: int| 0 <= x < m.free.len() && 0 <= y < m.free.len() && x != y implies m.free[x]
            != m.free[y] by {
            if x > 0 {
                assert(m.free[x] == self.free[x - 1]);
            }
            if y > 0 {
                assert(m.free[y] == self.free[y - 1]);
            }
        }
        assert forall|s: int| 0 <= s < m.capacity && (#[trigger] m.slots[s]) is None implies m.free.contains(
            s,
        ) by {
            if s == slot {
                assert(m.free[0] == s);
            } else {
                let j = choose|j: int| 0 <= j < self.free.len() && self.free[j] == s;
                assert(m.free[j + 1] == s);
            }
        }
    }
}

} // verus!
