//! The hash table engine: parallel arrays of keys, values and hash codes, a
//! chain of slots for every bucket, and a list of free slots.

use vstd::prelude::*;
use crate::lisp::LispObject;
use crate::table_model::{
    rebucket, Entry, EqualityStrategy, HashLookupResult, Ratio, RehashSize, TableModel, WeakKind,
};

verus! {

/// The index that ends a chain.
pub open spec fn end_of_chain() -> int {
    -1
}

/// The first slot of a chain, or the end mark of an empty one.
pub open spec fn head_of(chain: Seq<int>) -> int {
    if chain.len() == 0 {
        end_of_chain()
    } else {
        chain[0]
    }
}

/// The slot after position `i` of a chain, or the end mark after the last.
pub open spec fn link_after(chain: Seq<int>, i: int) -> int {
    if i + 1 < chain.len() {
        chain[i + 1]
    } else {
        end_of_chain()
    }
}

/// Whether the bucket heads and the links realise `chains`.
pub open spec fn chains_linked(
    chains: Seq<Seq<int>>,
    bucket_index: Seq<isize>,
    next_chain: Seq<isize>,
) -> bool {
    &&& forall|b: int| 0 <= b < chains.len() ==> #[trigger] bucket_index[b] == head_of(chains[b])
    &&& forall|b: int, i: int|
        0 <= b < chains.len() && 0 <= i < chains[b].len() ==> next_chain[chains[b][i]] == #[trigger] link_after(
            chains[b],
            i,
        )
}

/// Whether `head` and the links realise `list`.
pub open spec fn list_linked(list: Seq<int>, head: isize, next_chain: Seq<isize>) -> bool {
    &&& head == head_of(list)
    &&& forall|i: int| 0 <= i < list.len() ==> next_chain[list[i]] == #[trigger] link_after(list, i)
}

/// A handle to a hash table: its index in the arena that owns it, or nothing.
#[derive(Clone, Copy, Debug, PartialEq, Eq, Structural)]
pub struct LispHashTableRef {
    pub index: Option<usize>,
}

/// A hash table with chained buckets over dense arrays. The table owns its
/// arrays; keys and values are handles that it does not interpret.
pub struct AssocTable<S: EqualityStrategy> {
    strategy: S,
    count: usize,
    rehash_threshold: Ratio,
    rehash_size: RehashSize,
    weak_kind: WeakKind,
    next_weak: LispHashTableRef,
    keys: Vec<LispObject>,
    values: Vec<LispObject>,
    hashes: Vec<Option<u64>>,
    next_chain: Vec<isize>,
    bucket_index: Vec<isize>,
    next_free: isize,
    chains: Ghost<Seq<Seq<int>>>,
    free: Ghost<Seq<int>>,
}

/// The entries that the three arrays hold.
pub open spec fn slots_of(
    keys: Seq<LispObject>,
    values: Seq<LispObject>,
    hashes: Seq<Option<u64>>,
) -> Seq<Option<Entry>> {
    Seq::new(
        hashes.len(),
        |s: int|
            match hashes[s] {
                Some(hash) => Some(Entry { key: keys[s], value: values[s], hash }),
                None => None,
            },
    )
}

/// A vector of `n` copies of `x`.
fn filled<T: Copy>(n: usize, x: T) -> (v: Vec<T>)
    ensures
        v@ == Seq::new(n as nat, |i: int| x),
{
    let mut v: Vec<T> = Vec::new();
    let mut i: usize = 0;
    while i < n
        invariant
            i <= n,
            v@ == Seq::new(i as nat, |k: int| x),
        decreases n - i,
    {
        v.push(x);
        i = i + 1;
        assert(v@ =~= Seq::new(i as nat, |k: int| x));
    }
    v
}

/// Appends copies of `x` to `v` until it has `n` elements.
fn extend_to<T: Copy>(v: &mut Vec<T>, n: usize, x: T)
    requires
        old(v)@.len() <= n,
    ensures
        final(v)@ == old(v)@ + Seq::new((n - old(v)@.len()) as nat, |i: int| x),
{
    let ghost before = v@;
    let mut i: usize = v.len();
    while i < n
        invariant
            before.len() <= i <= n,
            v@ == before + Seq::new((i - before.len()) as nat, |k: int| x),
        decreases n - i,
    {
        v.push(x);
        i = i + 1;
        assert(v@ =~= before + Seq::new((i - before.len()) as nat, |k: int| x));
    }
}

/// A copy of `v`.
fn copied<T: Copy>(v: &Vec<T>) -> (r: Vec<T>)
    ensures
        r@ == v@,
{
    let mut r: Vec<T> = Vec::new();
    let mut i: usize = 0;
    while i < v.len()
        invariant
            i <= v.len(),
            r@ == v@.subrange(0, i as int),
        decreases v.len() - i,
    {
        r.push(v[i]);
        i = i + 1;
        assert(r@ =~= v@.subrange(0, i as int));
    }
    assert(v@.subrange(0, v@.len() as int) =~= v@);
    r
}

/// Links the slots from `from` up to the length of `next_chain` into a list
/// that runs in ascending order and ends in `tail`.
fn thread_fresh(next_chain: &mut Vec<isize>, from: usize, tail: isize)
    requires
        from <= old(next_chain)@.len() <= isize::MAX,
    ensures
        final(next_chain)@.len() == old(next_chain)@.len(),
        forall|s: int| 0 <= s < from ==> final(next_chain)@[s] == old(next_chain)@[s],
        forall|s: int|
            from <= s < final(next_chain)@.len() ==> final(next_chain)@[s] == if s + 1 < final(next_chain)@.len() {
                s + 1
            } else {
                tail as int
            },
{
    let n = next_chain.len();
    let mut i: usize = from;
    while i < n
        invariant
            from <= i <= n <= isize::MAX,
            next_chain@.len() == n,
            forall|s: int| 0 <= s < from ==> next_chain@[s] == old(next_chain)@[s],
            forall|s: int|
                from <= s < i ==> next_chain@[s] == if s + 1 < n {
                    s + 1
                } else {
                    tail as int
                },
        decreases n - i,
    {
        next_chain[i] = if i + 1 < n { (i + 1) as isize } else { tail };
        i = i + 1;
    }
}

/// Builds the bucket heads and the links for the chains that `rebucket`
/// describes: enters the occupied ones among the first `n` slots, in ascending
/// order, each at the head of the chain of its bucket.
fn rebuild_index(
    hashes: &Vec<Option<u64>>,
    next_chain: &mut Vec<isize>,
    n: usize,
    Ghost(slots): Ghost<Seq<Option<Entry>>>,
) -> (index: Vec<isize>)
    requires
        0 < hashes@.len() <= isize::MAX,
        n <= hashes@.len(),
        old(next_chain)@.len() == hashes@.len(),
        slots.len() == hashes@.len(),
        forall|s: int|
            0 <= s < hashes@.len() ==> (hashes@[s] is Some <==> (#[trigger] slots[s]) is Some) && (
            hashes@[s] is Some ==> slots[s]->Some_0.hash == hashes@[s]->Some_0),
    ensures
        index@.len() == hashes@.len(),
        final(next_chain)@.len() == hashes@.len(),
        chains_linked(rebucket(slots, hashes@.len(), n as nat), index@, final(next_chain)@),
        forall|s: int|
            0 <= s < hashes@.len() && (s >= n || hashes@[s] is None) ==> final(next_chain)@[s] == old(next_chain)@[s],
{
    let capacity = hashes.len();
    let mut index: Vec<isize> = filled(capacity, -1);
    let mut s: usize = 0;
    while s < n
        invariant
            0 < capacity <= isize::MAX,
            capacity == hashes@.len(),
            s <= n <= capacity,
            index@.len() == capacity,
            next_chain@.len() == capacity,
            slots.len() == capacity,
            forall|t: int|
                0 <= t < capacity ==> (hashes@[t] is Some <==> (#[trigger] slots[t]) is Some) && (hashes@[t] is Some
                    ==> slots[t]->Some_0.hash == hashes@[t]->Some_0),
            chains_linked(rebucket(slots, capacity as nat, s as nat), index@, next_chain@),
            forall|t: int|
                0 <= t < capacity && (t >= s || hashes@[t] is None) ==> next_chain@[t] == old(next_chain)@[t],
        decreases n - s,
    {
        let ghost before = rebucket(slots, capacity as nat, s as nat);
        let ghost after = rebucket(slots, capacity as nat, (s + 1) as nat);
        proof {
            crate::table_model::lemma_rebucket(slots, capacity as nat, s as nat);
            crate::table_model::lemma_rebucket(slots, capacity as nat, (s + 1) as nat);
        }
        match hashes[s] {
            Some(hash) => {
                let b = (hash % (capacity as u64)) as usize;
                let ghost links = next_chain@;
                let ghost heads = index@;
                next_chain[s] = index[b];
                index[b] = s as isize;
                proof {
                    assert(slots[s as int] is Some);
                    assert(after == before.update(b as int, seq![s as int] + before[b as int]));
                    assert forall|c: int| 0 <= c < after.len() implies #[trigger] index@[c] == head_of(
                        after[c],
                    ) by {
                        if c == b {
                            assert(after[c][0] == s);
                        }
                    }
                    assert forall|c: int, i: int| 0 <= c < after.len() && 0 <= i < after[c].len() implies next_chain@[after[c][i]]
                        == #[trigger] link_after(after[c], i) by {
                        if c == b {
                            if i == 0 {
                                assert(after[c][0] == s);
                                if before[c].len() > 0 {
                                    assert(after[c][1] == before[c][0]);
                                }
                            } else {
                                assert(after[c][i] == before[c][i - 1]);
                                assert(before[c][i - 1] < s);
                                assert(links[before[c][i - 1]] == link_after(before[c], i - 1));
                                if i + 1 < after[c].len() {
                                    assert(after[c][i + 1] == before[c][i]);
                                }
                            }
                        } else {
                            assert(after[c][i] == before[c][i]);
                            assert(before[c][i] < s);
                            assert(links[before[c][i]] == link_after(before[c], i));
                        }
                    }
                }
            },
            None => {
                proof {
                    assert(slots[s as int] is None);
                    assert(after == before);
                }
            },
        }
        s = s + 1;
    }
    index
}

/// Entering an entry turns the links of a table into the links of the table
/// with the entry.
proof fn lemma_inserted_linked<S: EqualityStrategy>(
    room: TableModel<S>,
    heads: Seq<isize>,
    links: Seq<isize>,
    next_free: isize,
    key: LispObject,
    value: LispObject,
    hash: u64,
)
    requires
        room.wf(),
        room.free.len() > 0,
        heads.len() == room.capacity,
        links.len() == room.capacity,
        chains_linked(room.chains, heads, links),
        list_linked(room.free, next_free, links),
    ensures
        next_free == room.free[0],
        chains_linked(
            room.inserted(key, value, hash).chains,
            heads.update(room.bucket(hash), next_free),
            links.update(next_free as int, heads[room.bucket(hash)]),
        ),
        list_linked(
            room.inserted(key, value, hash).free,
            links[next_free as int],
            links.update(next_free as int, heads[room.bucket(hash)]),
        ),
{
    let after = room.inserted(key, value, hash);
    let slot = room.free[0];
    let b = room.bucket(hash);
    let new_heads = heads.update(b, next_free);
    let new_links = links.update(slot, heads[b]);
    assert(0 <= slot < room.capacity && room.slots[slot] is None);
    assert(after.chains[b] == seq![slot] + room.chains[b]);
    assert(after.chains[b][0] == slot);
    assert(next_free == slot) by {
        assert(links[room.free[0]] == link_after(room.free, 0));
    }
    assert forall|c: int, i: int| 0 <= c < after.chains.len() && 0 <= i < after.chains[c].len() implies new_links[after.chains[c][i]]
        == #[trigger] link_after(after.chains[c], i) by {
        if c == b {
            if i == 0 {
                if room.chains[c].len() > 0 {
                    assert(after.chains[c][1] == room.chains[c][0]);
                }
            } else {
                assert(after.chains[c][i] == room.chains[c][i - 1]);
                assert(room.slots[room.chains[c][i - 1]] is Some);
                assert(links[room.chains[c][i - 1]] == link_after(room.chains[c], i - 1));
                if i + 1 < after.chains[c].len() {
                    assert(after.chains[c][i + 1] == room.chains[c][i]);
                }
            }
        } else {
            assert(after.chains[c][i] == room.chains[c][i]);
            assert(room.slots[room.chains[c][i]] is Some);
            assert(links[room.chains[c][i]] == link_after(room.chains[c], i));
        }
    }
    assert forall|c: int| 0 <= c < after.chains.len() implies #[trigger] new_heads[c] == head_of(
        after.chains[c],
    ) by {
        if c != b {
            assert(after.chains[c] == room.chains[c]);
        }
    }
    assert forall|i: int| 0 <= i < after.free.len() implies new_links[after.free[i]] == #[trigger] link_after(
        after.free,
        i,
    ) by {
        assert(after.free[i] == room.free[i + 1]);
        assert(links[room.free[i + 1]] == link_after(room.free, i + 1));
        if i + 1 < after.free.len() {
            assert(after.free[i + 1] == room.free[i + 2]);
        }
    }
    assert(links[room.free[0]] == link_after(room.free, 0));
    if room.free.len() > 1 {
        assert(after.free[0] == room.free[1]);
    }
}

/// Taking an entry off its chain turns the links of a table into the links
/// of the table without the entry.
proof fn lemma_unlinked_linked<S: EqualityStrategy>(
    m: TableModel<S>,
    heads: Seq<isize>,
    links: Seq<isize>,
    next_free: isize,
    b: int,
    i: int,
)
    requires
        m.wf(),
        heads.len() == m.capacity,
        links.len() == m.capacity,
        chains_linked(m.chains, heads, links),
        list_linked(m.free, next_free, links),
        0 <= b < m.capacity,
        0 <= i < m.chains[b].len(),
    ensures
        chains_linked(
            m.unlinked(b, i).chains,
            if i == 0 {
                heads.update(b, links[m.chains[b][i]])
            } else {
                heads
            },
            (if i == 0 {
                links
            } else {
                links.update(m.chains[b][i - 1], links[m.chains[b][i]])
            }).update(m.chains[b][i], next_free),
        ),
        list_linked(
            m.unlinked(b, i).free,
            m.chains[b][i] as isize,
            (if i == 0 {
                links
            } else {
                links.update(m.chains[b][i - 1], links[m.chains[b][i]])
            }).update(m.chains[b][i], next_free),
        ),
{
    let after = m.unlinked(b, i);
    let chain = m.chains[b];
    let slot = chain[i];
    let new_heads = if i == 0 {
        heads.update(b, links[slot])
    } else {
        heads
    };
    let mid = if i == 0 {
        links
    } else {
        links.update(chain[i - 1], links[slot])
    };
    let new_links = mid.update(slot, next_free);
    assert(chain.no_duplicates());
    assert(0 <= slot < m.capacity && m.slots[slot] is Some);
    assert(m.bucket(m.slots[slot]->Some_0.hash) == b);
    assert(after.chains[b] == chain.remove(i));
    if i > 0 {
        assert(0 <= chain[i - 1] < m.capacity && m.slots[chain[i - 1]] is Some);
        assert(m.bucket(m.slots[chain[i - 1]]->Some_0.hash) == b);
    }
    assert(links[slot] == link_after(chain, i));
    assert forall|c: int, j: int| 0 <= c < after.chains.len() && 0 <= j < after.chains[c].len() implies new_links[after.chains[c][j]]
        == #[trigger] link_after(after.chains[c], j) by {
        if c == b {
            if j < i {
                assert(after.chains[c][j] == chain[j]);
                assert(links[chain[j]] == link_after(chain, j));
                if j + 1 < i {
                    assert(after.chains[c][j + 1] == chain[j + 1]);
                } else if j + 1 < after.chains[c].len() {
                    assert(after.chains[c][j + 1] == chain[j + 2]);
                }
            } else {
                assert(after.chains[c][j] == chain[j + 1]);
                assert(links[chain[j + 1]] == link_after(chain, j + 1));
                if j + 1 < after.chains[c].len() {
                    assert(after.chains[c][j + 1] == chain[j + 2]);
                }
            }
        } else {
            assert(after.chains[c][j] == m.chains[c][j]);
            assert(m.bucket(m.slots[m.chains[c][j]]->Some_0.hash) == c);
            assert(links[m.chains[c][j]] == link_after(m.chains[c], j));
        }
    }
    assert forall|c: int| 0 <= c < after.chains.len() implies #[trigger] new_heads[c] == head_of(
        after.chains[c],
    ) by {
        if c == b {
            if i == 0 {
                if chain.len() > 1 {
                    assert(after.chains[c][0] == chain[1]);
                }
            } else {
                assert(after.chains[c][0] == chain[0]);
            }
        } else {
            assert(after.chains[c] == m.chains[c]);
        }
    }
    assert(after.free[0] == slot);
    assert forall|k: int| 0 <= k < after.free.len() implies new_links[after.free[k]] == #[trigger] link_after(
        after.free,
        k,
    ) by {
        if k == 0 {
            if m.free.len() > 0 {
                assert(after.free[1] == m.free[0]);
            }
        } else {
            assert(after.free[k] == m.free[k - 1]);
            assert(m.slots[m.free[k - 1]] is None);
            assert(links[m.free[k - 1]] == link_after(m.free, k - 1));
            if k + 1 < after.free.len() {
                assert(after.free[k + 1] == m.free[k]);
            }
        }
    }
}

impl<S: EqualityStrategy> View for AssocTable<S> {
    type V = TableModel<S>;

    closed spec fn view(&self) -> TableModel<S> {
        TableModel {
            strategy: self.strategy,
            capacity: self.hashes@.len(),
            count: self.count as nat,
            rehash_threshold: self.rehash_threshold,
            rehash_size: self.rehash_size,
            weak_kind: self.weak_kind,
            slots: slots_of(self.keys@, self.values@, self.hashes@),
            chains: self.chains@,
            free: self.free@,
        }
    }
}

impl<S: EqualityStrategy> AssocTable<S> {
    /// The links in the arrays are those of the chains and of the free list.
    pub closed spec fn linked(&self) -> bool {
        let capacity = self.hashes@.len();
        &&& self.keys@.len() == capacity
        &&& self.values@.len() == capacity
        &&& self.next_chain@.len() == capacity
        &&& self.bucket_index@.len() == capacity
        &&& chains_linked(self.chains@, self.bucket_index@, self.next_chain@)
        &&& list_linked(self.free@, self.next_free, self.next_chain@)
        &&& forall|s: int|
            0 <= s < capacity && (#[trigger] self.hashes@[s]) is None ==> self.keys@[s] == LispObject::Nil
                && self.values@[s] == LispObject::Nil
    }

    /// The table is in a state that its operations keep.
    pub open spec fn wf(&self) -> bool {
        self@.wf() && self.linked()
    }

    /// The handle of the table that follows this one among the weak tables.
    pub closed spec fn next_weak_spec(&self) -> LispHashTableRef {
        self.next_weak
    }

    /// The array of links that the table holds: for every slot the slot
    /// that follows it, or the end mark.
    pub closed spec fn slot_links(&self) -> Seq<isize> {
        self.next_chain@
    }

    /// The array of first slots that the table holds: for every bucket the
    /// first slot of its chain, or the end mark.
    pub closed spec fn bucket_heads(&self) -> Seq<isize> {
        self.bucket_index@
    }

    /// A table of `capacity` slots without entries.
    pub fn new(
        strategy: S,
        capacity: usize,
        rehash_threshold: Ratio,
        rehash_size: RehashSize,
        weak_kind: WeakKind,
    ) -> (table: AssocTable<S>)
        requires
            capacity <= isize::MAX,
            0 < rehash_threshold.num <= rehash_threshold.den,
            rehash_size matches RehashSize::Factor(r) ==> r.den > 0,
        ensures
            table.wf(),
            table@ == TableModel::empty(
                strategy,
                capacity as nat,
                rehash_threshold,
                rehash_size,
                weak_kind,
            ),
            table.next_weak_spec() == (LispHashTableRef { index: None }),
    {
        let keys: Vec<LispObject> = filled(capacity, LispObject::Nil);
        let values: Vec<LispObject> = filled(capacity, LispObject::Nil);
        let hashes: Vec<Option<u64>> = filled(capacity, None);
        let bucket_index: Vec<isize> = filled(capacity, -1);
        let mut next_chain: Vec<isize> = filled(capacity, -1);
        thread_fresh(&mut next_chain, 0, -1);
        let next_free: isize = if capacity > 0 { 0 } else { -1 };
        let table = AssocTable {
            strategy,
            count: 0,
            rehash_threshold,
            rehash_size,
            weak_kind,
            next_weak: LispHashTableRef { index: None },
            keys,
            values,
            hashes,
            next_chain,
            bucket_index,
            next_free,
            chains: Ghost(Seq::new(capacity as nat, |b: int| Seq::<int>::empty())),
            free: Ghost(Seq::new(capacity as nat, |s: int| s)),
        };
        proof {
            TableModel::lemma_empty_wf(
                strategy,
                capacity as nat,
                rehash_threshold,
                rehash_size,
                weak_kind,
            );
            assert(table@.slots =~= Seq::new(capacity as nat, |s: int| None::<Entry>));
            assert(table@ == TableModel::empty(
                strategy,
                capacity as nat,
                rehash_threshold,
                rehash_size,
                weak_kind,
            ));
        }
        table
    }

    /// The number of entries.
    pub fn count(&self) -> (n: usize)
        ensures
            n == self@.count,
    {
        self.count
    }

    /// The number of slots.
    pub fn size(&self) -> (n: usize)
        requires
            self.wf(),
        ensures
            n == self@.capacity,
    {
        self.next_chain.len()
    }

    /// The strategy that the table was made with.
    pub fn strategy(&self) -> (s: &S)
        ensures
            *s == self@.strategy,
    {
        &self.strategy
    }

    /// Which part of an entry keeps it alive.
    pub fn get_weak(&self) -> (kind: WeakKind)
        ensures
            kind == self@.weak_kind,
    {
        self.weak_kind
    }

    /// The load above which the table grows.
    pub fn rehash_threshold(&self) -> (r: Ratio)
        ensures
            r == self@.rehash_threshold,
    {
        self.rehash_threshold
    }

    /// How the table grows.
    pub fn rehash_size(&self) -> (r: RehashSize)
        ensures
            r == self@.rehash_size,
    {
        self.rehash_size
    }

    /// Looks `key` up. Finds the slot of the first entry on the chain of the
    /// key's bucket that has the key; without one, hands back the hash code
    /// that it computed.
    pub fn lookup(&self, key: LispObject) -> (r: HashLookupResult)
        requires
            self.wf(),
        ensures
            r == self@.lookup(key),
    {
        let hash = self.strategy.hash(key);
        let capacity = self.bucket_index.len();
        if capacity == 0 {
            return HashLookupResult::Missing(hash);
        }
        let b = (hash % (capacity as u64)) as usize;
        let ghost chain = self.chains@[b as int];
        let ghost mut i: int = 0;
        let mut slot = self.bucket_index[b];
        while slot >= 0
            invariant
                self.wf(),
                capacity == self@.capacity,
                0 <= b < capacity,
                b == self@.bucket(self@.strategy.hash_spec(key)),
                chain == self.chains@[b as int],
                0 <= i <= chain.len(),
                slot == if i < chain.len() { chain[i] } else { end_of_chain() },
                self@.match_from(chain, key, 0) == self@.match_from(chain, key, i),
            decreases chain.len() - i,
        {
            let s = slot as usize;
            assert(self@.slots[slot as int] is Some);
            assert(self@.slots[slot as int]->Some_0.key == self.keys@[slot as int]);
            if self.strategy.equal(key, self.keys[s]) {
                assert(self@.matches(chain[i], key));
                assert(self@.match_from(chain, key, i) == i);
                return HashLookupResult::Found(slot);
            }
            assert(!self@.matches(chain[i], key));
            assert(self.next_chain@[chain[i]] == link_after(chain, i));
            slot = self.next_chain[s];
            proof {
                i = i + 1;
            }
        }
        HashLookupResult::Missing(hash)
    }

    /// Whether one more entry would take the load above the threshold.
    fn needs_resize(&self) -> (r: bool)
        requires
            self.wf(),
        ensures
            r == self@.needs_resize(),
    {
        let count = self.count as u128;
        let capacity = self.hashes.len() as u128;
        let num = self.rehash_threshold.num as u128;
        let den = self.rehash_threshold.den as u128;
        assert((count + 1) * den <= 0x1_0000_0000_0000_0000 * 0x1_0000_0000) by (nonlinear_arith)
            requires
                0 <= count < 0x1_0000_0000_0000_0000,
                0 <= den < 0x1_0000_0000,
        ;
        assert(capacity * num <= 0x1_0000_0000_0000_0000 * 0x1_0000_0000) by (nonlinear_arith)
            requires
                0 <= capacity <= 0x1_0000_0000_0000_0000,
                0 <= num <= 0x1_0000_0000,
        ;
        (count + 1) * den > capacity * num
    }

    /// The capacity after growing.
    fn grown_capacity(&self) -> (c: usize)
        requires
            self.wf(),
        ensures
            c == self@.grown_capacity(),
    {
        let capacity = self.hashes.len() as u128;
        let max = isize::MAX as usize;
        let want: u128 = match self.rehash_size {
            RehashSize::Increment(n) => capacity + n as u128,
            RehashSize::Factor(r) => {
                let num = r.num as u128;
                assert(capacity * num <= 0x1_0000_0000_0000_0000 * 0x1_0000_0000) by (nonlinear_arith)
                    requires
                        0 <= capacity <= 0x1_0000_0000_0000_0000,
                        0 <= num <= 0x1_0000_0000,
                ;
                (capacity * num) / (r.den as u128)
            },
        };
        let more: u128 = if want > capacity {
            want
        } else {
            capacity + 1
        };
        if more > max as u128 {
            max
        } else {
            more as usize
        }
    }

    /// Grows the table. Every entry keeps its slot.
    fn resize(&mut self)
        requires
            old(self).wf(),
            old(self)@.capacity < isize::MAX,
        ensures
            final(self).wf(),
            final(self)@ == old(self)@.resized(),
            final(self).next_weak_spec() == old(self).next_weak_spec(),
    {
        let old_capacity = self.hashes.len();
        let capacity = self.grown_capacity();
        proof {
            old(self)@.lemma_resized_wf();
        }
        extend_to(&mut self.keys, capacity, LispObject::Nil);
        extend_to(&mut self.values, capacity, LispObject::Nil);
        extend_to(&mut self.hashes, capacity, None);
        extend_to(&mut self.next_chain, capacity, -1);
        thread_fresh(&mut self.next_chain, old_capacity, self.next_free);
        self.next_free = old_capacity as isize;
        let ghost slots = slots_of(self.keys@, self.values@, self.hashes@);
        let ghost threaded = self.next_chain@;
        let ghost fresh = Seq::new((capacity - old_capacity) as nat, |i: int| old_capacity + i);
        let ghost free = fresh + old(self).free@;
        proof {
            assert(slots =~= old(self)@.resized().slots);
            assert(list_linked(free, self.next_free, threaded)) by {
                assert forall|i: int| 0 <= i < free.len() implies threaded[free[i]] == #[trigger] link_after(
                    free,
                    i,
                ) by {
                    if i < fresh.len() {
                        assert(free[i] == old_capacity + i);
                        if i + 1 < fresh.len() {
                            assert(free[i + 1] == old_capacity + i + 1);
                        } else if old(self).free@.len() > 0 {
                            assert(free[i + 1] == old(self).free@[0]);
                        }
                    } else {
                        let j = i - fresh.len();
                        assert(free[i] == old(self).free@[j]);
                        assert(old(self).next_chain@[old(self).free@[j]] == link_after(old(self).free@, j));
                        if j + 1 < old(self).free@.len() {
                            assert(free[i + 1] == old(self).free@[j + 1]);
                        }
                    }
                }
            }
        }
        let index = rebuild_index(&self.hashes, &mut self.next_chain, old_capacity, Ghost(slots));
        self.bucket_index = index;
        self.chains = Ghost(rebucket(slots, capacity as nat, old_capacity as nat));
        self.free = Ghost(free);
        proof {
            assert(self@ == old(self)@.resized());
            assert forall|i: int| 0 <= i < free.len() implies self.next_chain@[free[i]] == #[trigger] link_after(
                free,
                i,
            ) by {
                assert(threaded[free[i]] == link_after(free, i));
                assert(self@.slots[free[i]] is None);
            }
        }
    }

    /// Enters `key` with `value` under `hash`, which is the hash code that a
    /// lookup of `key` computed. The table first grows if one more entry
    /// would take its load above the threshold. The entry goes into the first
    /// free slot and to the head of the chain of its bucket; that slot is
    /// returned.
    pub fn put(&mut self, key: LispObject, value: LispObject, hash: u64) -> (slot: isize)
        requires
            old(self).wf(),
            old(self)@.count < isize::MAX,
        ensures
            final(self).wf(),
            (final(self)@, slot as int) == old(self)@.put(key, value, hash),
            final(self).next_weak_spec() == old(self).next_weak_spec(),
    {
        if self.needs_resize() && self.hashes.len() < isize::MAX as usize {
            self.resize();
            proof {
                old(self)@.lemma_resized_wf();
            }
        } else {
            proof {
                if !old(self)@.needs_resize() {
                    old(self)@.lemma_room();
                }
            }
        }
        self.insert(key, value, hash)
    }

    /// Enters an entry into the first free slot and at the head of the chain
    /// of its bucket.
    fn insert(&mut self, key: LispObject, value: LispObject, hash: u64) -> (slot: isize)
        requires
            old(self).wf(),
            old(self)@.free.len() > 0,
        ensures
            final(self).wf(),
            final(self)@ == old(self)@.inserted(key, value, hash),
            slot == old(self)@.free[0],
            final(self).next_weak_spec() == old(self).next_weak_spec(),
    {
        let ghost room = self@;
        let ghost links = self.next_chain@;
        let ghost heads = self.bucket_index@;
        proof {
            room.lemma_inserted_wf(key, value, hash);
            lemma_inserted_linked(room, heads, links, self.next_free, key, value, hash);
        }
        let slot = self.next_free;
        let s = slot as usize;
        let capacity = self.hashes.len();
        let b = (hash % (capacity as u64)) as usize;
        self.next_free = self.next_chain[s];
        self.keys[s] = key;
        self.values[s] = value;
        self.hashes[s] = Some(hash);
        self.next_chain[s] = self.bucket_index[b];
        self.bucket_index[b] = slot;
        self.count = self.count + 1;
        self.chains = Ghost(room.chains.update(b as int, seq![slot as int] + room.chains[b as int]));
        self.free = Ghost(room.free.drop_first());
        proof {
            let after = room.inserted(key, value, hash);
            assert(self@.slots =~= after.slots);
            assert(self@ == after);
            assert(self.next_chain@ == links.update(slot as int, heads[b as int]));
            assert(self.bucket_index@ == heads.update(b as int, slot));
        }
        slot
    }

    /// Searches the chain of bucket `b` for `key`. The result is the slot of
    /// the first entry that has the key and the slot before it on the chain,
    /// each the end mark if there is none.
    fn find(&self, b: usize, key: LispObject) -> (r: (isize, isize))
        requires
            self.wf(),
            0 <= b < self@.capacity,
        ensures
            ({
                let chain = self@.chains[b as int];
                let i = self@.match_from(chain, key, 0);
                &&& 0 <= i <= chain.len()
                &&& r.1 == if i < chain.len() { chain[i] } else { end_of_chain() }
                &&& r.0 == if 0 < i { chain[i - 1] } else { end_of_chain() }
            }),
    {
        let ghost chain = self.chains@[b as int];
        let ghost mut i: int = 0;
        let mut prev: isize = -1;
        let mut slot = self.bucket_index[b];
        while slot >= 0
            invariant
                self.wf(),
                0 <= b < self@.capacity,
                chain == self.chains@[b as int],
                0 <= i <= chain.len(),
                slot == if i < chain.len() { chain[i] } else { end_of_chain() },
                prev == if 0 < i { chain[i - 1] } else { end_of_chain() },
                self@.match_from(chain, key, 0) == self@.match_from(chain, key, i),
            ensures
                0 <= i <= chain.len(),
                slot == if i < chain.len() { chain[i] } else { end_of_chain() },
                prev == if 0 < i { chain[i - 1] } else { end_of_chain() },
                self@.match_from(chain, key, 0) == i,
            decreases chain.len() - i,
        {
            let s = slot as usize;
            assert(self@.slots[slot as int] is Some);
            assert(self@.slots[slot as int]->Some_0.key == self.keys@[slot as int]);
            if self.strategy.equal(key, self.keys[s]) {
                assert(self@.matches(chain[i], key));
                break;
            }
            assert(!self@.matches(chain[i], key));
            assert(self.next_chain@[chain[i]] == link_after(chain, i));
            prev = slot;
            slot = self.next_chain[s];
            proof {
                i = i + 1;
            }
        }
        (prev, slot)
    }

    /// Takes the entry in `slot` off the chain of bucket `b`, where `prev` is
    /// the slot before it, and puts the slot at the head of the free list.
    fn unlink(&mut self, b: usize, prev: isize, slot: isize, Ghost(i): Ghost<int>)
        requires
            old(self).wf(),
            0 <= b < old(self)@.capacity,
            0 <= i < old(self)@.chains[b as int].len(),
            slot == old(self)@.chains[b as int][i],
            prev == if 0 < i { old(self)@.chains[b as int][i - 1] } else { end_of_chain() },
        ensures
            final(self).wf(),
            final(self)@ == old(self)@.unlinked(b as int, i),
            final(self).next_weak_spec() == old(self).next_weak_spec(),
    {
        let ghost m = self@;
        let ghost links = self.next_chain@;
        let ghost heads = self.bucket_index@;
        proof {
            m.lemma_unlinked_wf(b as int, i);
            lemma_unlinked_linked(m, heads, links, self.next_free, b as int, i);
            if i > 0 {
                assert(0 <= m.chains[b as int][i - 1] < m.capacity);
            }
        }
        let s = slot as usize;
        let next = self.next_chain[s];
        if prev < 0 {
            self.bucket_index[b] = next;
        } else {
            self.next_chain[prev as usize] = next;
        }
        self.keys[s] = LispObject::Nil;
        self.values[s] = LispObject::Nil;
        self.hashes[s] = None;
        self.next_chain[s] = self.next_free;
        self.next_free = slot;
        self.count = self.count - 1;
        self.chains = Ghost(m.chains.update(b as int, m.chains[b as int].remove(i)));
        self.free = Ghost(seq![slot as int] + m.free);
        proof {
            let after = m.unlinked(b as int, i);
            assert(self@.slots =~= after.slots);
            assert(self@ == after);
        }
    }

    /// Removes the entry that a lookup of `key` finds. The slot becomes free;
    /// the arrays keep their size. Without such an entry nothing changes.
    pub fn remove(&mut self, key: LispObject)
        requires
            old(self).wf(),
        ensures
            final(self).wf(),
            final(self)@ == old(self)@.remove(key),
            final(self).next_weak_spec() == old(self).next_weak_spec(),
    {
        let hash = self.strategy.hash(key);
        let capacity = self.bucket_index.len();
        if capacity == 0 {
            return ;
        }
        let b = (hash % (capacity as u64)) as usize;
        let (prev, slot) = self.find(b, key);
        if slot >= 0 {
            let ghost i = self@.match_from(self@.chains[b as int], key, 0);
            self.unlink(b, prev, slot, Ghost(i));
        }
    }

    /// Removes every entry. The capacity, the strategy and the weakness stay.
    pub fn clear(&mut self)
        requires
            old(self).wf(),
        ensures
            final(self).wf(),
            final(self)@ == old(self)@.cleared(),
            final(self).next_weak_spec() == old(self).next_weak_spec(),
    {
        let capacity = self.hashes.len();
        let mut fresh = AssocTable::new(
            self.strategy.duplicate(),
            capacity,
            self.rehash_threshold,
            self.rehash_size,
            self.weak_kind,
        );
        fresh.next_weak = self.next_weak;
        *self = fresh;
    }

    /// An independent table with the same entries in the same slots. Keys and
    /// values are handles and are shared; the arrays are not.
    pub fn copy(&self) -> (table: AssocTable<S>)
        requires
            self.wf(),
        ensures
            table.wf(),
            table@ == self@,
            table.next_weak_spec() == self.next_weak_spec(),
    {
        AssocTable {
            strategy: self.strategy.duplicate(),
            count: self.count,
            rehash_threshold: self.rehash_threshold,
            rehash_size: self.rehash_size,
            weak_kind: self.weak_kind,
            next_weak: self.next_weak,
            keys: copied(&self.keys),
            values: copied(&self.values),
            hashes: copied(&self.hashes),
            next_chain: copied(&self.next_chain),
            bucket_index: copied(&self.bucket_index),
            next_free: self.next_free,
            chains: Ghost(self.chains@),
            free: Ghost(self.free@),
        }
    }

    /// The key in slot `idx`; the terminator if the slot is free.
    pub fn get_hash_key(&self, idx: isize) -> (key: LispObject)
        requires
            self.wf(),
            0 <= idx < self@.capacity,
        ensures
            key == match self@.slots[idx as int] {
                Some(e) => e.key,
                None => LispObject::Nil,
            },
    {
        self.keys[idx as usize]
    }

    /// The value in slot `idx`; the terminator if the slot is free.
    pub fn get_hash_value(&self, idx: isize) -> (value: LispObject)
        requires
            self.wf(),
            0 <= idx < self@.capacity,
        ensures
            value == match self@.slots[idx as int] {
                Some(e) => e.value,
                None => LispObject::Nil,
            },
    {
        self.values[idx as usize]
    }

    /// The hash code that the entry in slot `idx` was stored under; nothing if
    /// the slot is free.
    pub fn get_hash_hash(&self, idx: isize) -> (hash: Option<u64>)
        requires
            self.wf(),
            0 <= idx < self@.capacity,
        ensures
            hash == match self@.slots[idx as int] {
                Some(e) => Some(e.hash),
                None => None,
            },
    {
        self.hashes[idx as usize]
    }

    /// Replaces the value of the entry in slot `idx`. A free slot stays free.
    pub fn set_hash_value(&mut self, idx: isize, value: LispObject)
        requires
            old(self).wf(),
            0 <= idx < old(self)@.capacity,
        ensures
            final(self).wf(),
            final(self)@ == (TableModel {
                slots: match old(self)@.slots[idx as int] {
                    Some(e) => old(self)@.slots.update(idx as int, Some(Entry { value, ..e })),
                    None => old(self)@.slots,
                },
                ..old(self)@
            }),
            final(self).next_weak_spec() == old(self).next_weak_spec(),
    {
        let s = idx as usize;
        if self.hashes[s].is_some() {
            self.values[s] = value;
            proof {
                let e = old(self)@.slots[idx as int]->Some_0;
                assert(self@.slots =~= old(self)@.slots.update(idx as int, Some(Entry { value, ..e })));
            }
        } else {
            proof {
                assert(self@.slots =~= old(self)@.slots);
            }
        }
    }

    /// The handle of the table that follows this one among the weak tables.
    pub fn get_next_weak(&self) -> (next: LispHashTableRef)
        ensures
            next == self.next_weak_spec(),
    {
        self.next_weak
    }

    /// Makes `other` the table that follows this one among the weak tables.
    pub fn set_next_weak(&mut self, other: LispHashTableRef)
        ensures
            final(self).next_weak_spec() == other,
            final(self)@ == old(self)@,
            old(self).wf() ==> final(self).wf(),
    {
        self.next_weak = other;
    }

    /// The hash codes of the slots, nothing for a free slot.
    pub fn get_hash(&self) -> (hashes: Vec<Option<u64>>)
        requires
            self.wf(),
        ensures
            hashes@.len() == self@.capacity,
            forall|s: int|
                0 <= s < self@.capacity ==> #[trigger] hashes@[s] == match self@.slots[s] {
                    Some(e) => Some(e.hash),
                    None => None,
                },
    {
        copied(&self.hashes)
    }

    /// For every slot the slot that follows it, on the chain of its bucket if
    /// it holds an entry and on the free list if not; the end mark for the
    /// last of each.
    pub fn get_next(&self) -> (next: Vec<isize>)
        requires
            self.wf(),
        ensures
            next@.len() == self@.capacity,
            forall|b: int, i: int|
                0 <= b < self@.capacity && 0 <= i < self@.chains[b].len() ==> next@[self@.chains[b][i]]
                    == #[trigger] link_after(self@.chains[b], i),
            forall|i: int|
                0 <= i < self@.free.len() ==> next@[self@.free[i]] == #[trigger] link_after(self@.free, i),
            next@ == self.slot_links(),
    {
        copied(&self.next_chain)
    }

    /// For every bucket the first slot of its chain; the end mark for an
    /// empty bucket.
    pub fn get_index(&self) -> (index: Vec<isize>)
        requires
            self.wf(),
        ensures
            index@.len() == self@.capacity,
            forall|b: int| 0 <= b < self@.capacity ==> #[trigger] index@[b] == head_of(self@.chains[b]),
            index@ == self.bucket_heads(),
    {
        copied(&self.bucket_index)
    }

    /// The keys and values of the slots, side by side: the key of slot `s` at
    /// `2 s`, its value at `2 s + 1`, the terminator for both in a free slot.
    pub fn get_key_and_value(&self) -> (pairs: Vec<LispObject>)
        requires
            self.wf(),
        ensures
            pairs@.len() == 2 * self@.capacity,
            forall|j: int|
                0 <= j < 2 * self@.capacity ==> #[trigger] pairs@[j] == match self@.slots[j / 2] {
                    Some(e) => if j % 2 == 0 {
                        e.key
                    } else {
                        e.value
                    },
                    None => LispObject::Nil,
                },
    {
        let mut pairs: Vec<LispObject> = Vec::new();
        let n = self.keys.len();
        let mut s: usize = 0;
        while s < n
            invariant
                self.wf(),
                n == self@.capacity,
                0 <= s <= n,
                pairs@.len() == 2 * s,
                forall|j: int|
                    0 <= j < 2 * s ==> #[trigger] pairs@[j] == if j % 2 == 0 {
                        self.keys@[j / 2]
                    } else {
                        self.values@[j / 2]
                    },
            decreases n - s,
        {
            pairs.push(self.keys[s]);
            pairs.push(self.values[s]);
            s = s + 1;
        }
        pairs
    }

    /// Replaces the hash codes of the slots. Every slot must stay occupied or
    /// free as it is, and every entry in its bucket.
    pub fn set_hash(&mut self, hash: Vec<Option<u64>>)
        requires
            old(self).wf(),
            hash@.len() == old(self)@.capacity,
            forall|s: int|
                0 <= s < hash@.len() ==> (#[trigger] hash@[s] is Some <==> old(self)@.slots[s] is Some) && (hash@[s] is Some
                    ==> old(self)@.bucket(hash@[s]->Some_0) == old(self)@.bucket(old(self)@.slots[s]->Some_0.hash)),
        ensures
            final(self).wf(),
            final(self)@ == (TableModel {
                slots: Seq::new(
                    old(self)@.capacity,
                    |s: int|
                        match old(self)@.slots[s] {
                            Some(e) => Some(Entry { hash: hash@[s]->Some_0, ..e }),
                            None => None,
                        },
                ),
                ..old(self)@
            }),
            final(self).next_weak_spec() == old(self).next_weak_spec(),
    {
        let ghost before = self@;
        self.hashes = hash;
        proof {
            let after = self@;
            assert(after.slots =~= Seq::new(
                before.capacity,
                |s: int|
                    match before.slots[s] {
                        Some(e) => Some(Entry { hash: hash@[s]->Some_0, ..e }),
                        None => None,
                    },
            ));
            assert forall|b: int, i: int| 0 <= b < after.capacity && 0 <= i < after.chains[b].len() implies {
                &&& 0 <= (#[trigger] after.chains[b][i]) < after.capacity
                &&& after.slots[after.chains[b][i]] is Some
                &&& after.bucket(after.slots[after.chains[b][i]]->Some_0.hash) == b
            } by {
                let slot = before.chains[b][i];
                assert(before.slots[slot] is Some);
                assert(hash@[slot] is Some);
            }
            assert forall|s: int| 0 <= s < after.capacity && (#[trigger] after.slots[s]) is Some implies after.chains[after.bucket(
                after.slots[s]->Some_0.hash,
            )].contains(s) by {
                assert(before.slots[s] is Some);
                assert(hash@[s] is Some);
            }
            assert forall|i: int| 0 <= i < after.free.len() implies 0 <= (#[trigger] after.free[i]) < after.capacity
                && after.slots[after.free[i]] is None by {
                assert(before.slots[before.free[i]] is None);
            }
            assert forall|s: int| 0 <= s < after.capacity && (#[trigger] after.slots[s]) is None implies after.free.contains(
                s,
            ) by {
                assert(before.slots[s] is None);
            }
            assert forall|s: int| 0 <= s < after.capacity && (#[trigger] self.hashes@[s]) is None implies self.keys@[s]
                == LispObject::Nil && self.values@[s] == LispObject::Nil by {
                assert(hash@[s] is None);
                assert(old(self).hashes@[s] is None);
            }
        }
    }

    /// Replaces the array of links between the slots by `next`, which the
    /// table holds from then on. The new links must be those of the chains
    /// and of the free list of the table, so that the table stands for the
    /// same entries as before.
    pub fn set_next(&mut self, next: Vec<isize>)
        requires
            old(self).wf(),
            next@.len() == old(self)@.capacity,
            forall|b: int, i: int|
                0 <= b < old(self)@.capacity && 0 <= i < old(self)@.chains[b].len() ==> next@[old(self)@.chains[b][i]]
                    == #[trigger] link_after(old(self)@.chains[b], i),
            forall|i: int|
                0 <= i < old(self)@.free.len() ==> next@[old(self)@.free[i]] == #[trigger] link_after(
                    old(self)@.free,
                    i,
                ),
        ensures
            final(self).wf(),
            final(self)@ == old(self)@,
            final(self).slot_links() == next@,
            final(self).bucket_heads() == old(self).bucket_heads(),
            final(self).next_weak_spec() == old(self).next_weak_spec(),
    {
        self.next_chain = next;
    }

    /// Replaces the array of first slots of the buckets by `index`, which
    /// the table holds from then on. The new first slots must be those of
    /// the chains of the table, so that the table stands for the same
    /// entries as before.
    pub fn set_index(&mut self, index: Vec<isize>)
        requires
            old(self).wf(),
            index@.len() == old(self)@.capacity,
            forall|b: int| 0 <= b < old(self)@.capacity ==> #[trigger] index@[b] == head_of(old(self)@.chains[b]),
        ensures
            final(self).wf(),
            final(self)@ == old(self)@,
            final(self).bucket_heads() == index@,
            final(self).slot_links() == old(self).slot_links(),
            final(self).next_weak_spec() == old(self).next_weak_spec(),
    {
        self.bucket_index = index;
    }

    /// Replaces the keys and values of the slots, which stand side by side
    /// in `pairs`: the key of slot `s` at `2 s`, its value at `2 s + 1`. A
    /// free slot must have the terminator for both.
    pub fn set_key_and_value(&mut self, pairs: Vec<LispObject>)
        requires
            old(self).wf(),
            pairs@.len() == 2 * old(self)@.capacity,
            forall|s: int|
                0 <= s < old(self)@.capacity && (#[trigger] old(self)@.slots[s]) is None ==> pairs@[2 * s]
                    == LispObject::Nil && pairs@[2 * s + 1] == LispObject::Nil,
        ensures
            final(self).wf(),
            final(self)@ == (TableModel {
                slots: Seq::new(
                    old(self)@.capacity,
                    |s: int|
                        match old(self)@.slots[s] {
                            Some(e) => Some(Entry { key: pairs@[2 * s], value: pairs@[2 * s + 1], ..e }),
                            None => None,
                        },
                ),
                ..old(self)@
            }),
            final(self).next_weak_spec() == old(self).next_weak_spec(),
    {
        let n = self.hashes.len();
        let total = pairs.len();
        let mut keys: Vec<LispObject> = Vec::new();
        let mut values: Vec<LispObject> = Vec::new();
        let mut s: usize = 0;
        while s < n
            invariant
                0 <= s <= n,
                total == 2 * n,
                pairs@.len() == 2 * n,
                keys@.len() == s,
                values@.len() == s,
                forall|t: int| 0 <= t < s ==> #[trigger] keys@[t] == pairs@[2 * t] && values@[t] == pairs@[2 * t + 1],
            decreases n - s,
        {
            keys.push(pairs[2 * s]);
            values.push(pairs[2 * s + 1]);
            s = s + 1;
        }
        let ghost before = self@;
        self.keys = keys;
        self.values = values;
        proof {
            let after = self@;
            assert(after.slots =~= Seq::new(
                before.capacity,
                |s: int|
                    match before.slots[s] {
                        Some(e) => Some(Entry { key: pairs@[2 * s], value: pairs@[2 * s + 1], ..e }),
                        None => None,
                    },
            ));
            assert forall|b: int, i: int| 0 <= b < after.capacity && 0 <= i < after.chains[b].len() implies {
                &&& 0 <= (#[trigger] after.chains[b][i]) < after.capacity
                &&& after.slots[after.chains[b][i]] is Some
                &&& after.bucket(after.slots[after.chains[b][i]]->Some_0.hash) == b
            } by {
                assert(before.slots[before.chains[b][i]] is Some);
            }
            assert forall|s: int| 0 <= s < after.capacity && (#[trigger] after.slots[s]) is Some implies after.chains[after.bucket(
                after.slots[s]->Some_0.hash,
            )].contains(s) by {
                assert(before.slots[s] is Some);
            }
            assert forall|i: int| 0 <= i < after.free.len() implies 0 <= (#[trigger] after.free[i]) < after.capacity
                && after.slots[after.free[i]] is None by {
                assert(before.slots[before.free[i]] is None);
            }
            assert forall|s: int| 0 <= s < after.capacity && (#[trigger] after.slots[s]) is None implies after.free.contains(
                s,
            ) by {
                assert(before.slots[s] is None);
            }
            assert forall|s: int| 0 <= s < after.capacity && (#[trigger] self.hashes@[s]) is None implies self.keys@[s]
                == LispObject::Nil && self.values@[s] == LispObject::Nil by {
                assert(before.slots[s] is None);
            }
        }
    }

    /// Finds on the chain of bucket `b` the slot before `slot`.
    fn find_slot(&self, b: usize, slot: isize) -> (r: (isize, Ghost<int>))
        requires
            self.wf(),
            0 <= slot < self@.capacity,
            self@.slots[slot as int] is Some,
            b == self@.bucket(self@.slots[slot as int]->Some_0.hash),
        ensures
            0 <= r.1@ < self@.chains[b as int].len(),
            self@.chains[b as int][r.1@] == slot,
            r.1@ == self@.position(slot as int),
            r.0 == if 0 < r.1@ { self@.chains[b as int][r.1@ - 1] } else { end_of_chain() },
    {
        let ghost chain = self.chains@[b as int];
        let ghost mut i: int = 0;
        let mut prev: isize = -1;
        let mut cur = self.bucket_index[b];
        proof {
            assert(chain.contains(slot as int));
            assert(chain.no_duplicates());
        }
        while cur != slot
            invariant
                self.wf(),
                0 <= b < self@.capacity,
                chain == self.chains@[b as int],
                chain.contains(slot as int),
                0 <= i <= chain.len(),
                cur == if i < chain.len() { chain[i] } else { end_of_chain() },
                prev == if 0 < i { chain[i - 1] } else { end_of_chain() },
                forall|k: int| 0 <= k < i ==> chain[k] != slot,
                0 <= slot,
            decreases chain.len() - i,
        {
            proof {
                let j = choose|j: int| 0 <= j < chain.len() && chain[j] == slot;
                assert(i <= j);
                assert(i < chain.len());
            }
            assert(self.next_chain@[chain[i]] == link_after(chain, i));
            prev = cur;
            cur = self.next_chain[cur as usize];
            proof {
                i = i + 1;
            }
        }
        proof {
            let j = choose|j: int| 0 <= j < chain.len() && chain[j] == slot;
            assert(i <= j);
            assert(i < chain.len());
            assert(chain.no_duplicates());
            let p = self@.position(slot as int);
            assert(0 <= p < chain.len() && chain[p] == slot);
        }
        (prev, Ghost(i))
    }

    /// Removes the entry in `slot`.
    fn remove_slot(&mut self, slot: usize)
        requires
            old(self).wf(),
            0 <= slot < old(self)@.capacity,
            old(self)@.slots[slot as int] is Some,
        ensures
            final(self).wf(),
            final(self)@ == old(self)@.without_slot(slot as int),
            final(self).next_weak_spec() == old(self).next_weak_spec(),
    {
        let capacity = self.hashes.len();
        let hash = match self.hashes[slot] {
            Some(h) => h,
            None => 0,
        };
        let b = (hash % (capacity as u64)) as usize;
        let (prev, Ghost(i)) = self.find_slot(b, slot as isize);
        self.unlink(b, prev, slot as isize, Ghost(i));
    }

    /// Sweeps the table: asks `is_live` about the key and the value of every
    /// entry, slot by slot, and removes the entries that the weakness of the
    /// table does not keep. A table that is not weak keeps every entry.
    pub fn sweep<F: Fn(LispObject) -> bool>(&mut self, is_live: F)
        requires
            old(self).wf(),
            forall|v: LispObject| call_requires(is_live, (v,)),
        ensures
            final(self).wf(),
            final(self).next_weak_spec() == old(self).next_weak_spec(),
            exists|key_live: Seq<bool>, value_live: Seq<bool>|
                #![trigger old(self)@.sweep_upto(key_live, value_live, old(self)@.capacity)]
                {
                    &&& key_live.len() == old(self)@.capacity
                    &&& value_live.len() == old(self)@.capacity
                    &&& answers(is_live, old(self)@.slots, key_live, value_live)
                    &&& final(self)@ == old(self)@.sweep_upto(key_live, value_live, old(self)@.capacity)
                },
    {
        let capacity = self.hashes.len();
        let ghost mut key_live = Seq::<bool>::empty();
        let ghost mut value_live = Seq::<bool>::empty();
        let mut s: usize = 0;
        while s < capacity
            invariant
                self.wf(),
                forall|v: LispObject| call_requires(is_live, (v,)),
                capacity == old(self)@.capacity,
                capacity == self@.capacity,
                0 <= s <= capacity,
                key_live.len() == s,
                value_live.len() == s,
                self.next_weak_spec() == old(self).next_weak_spec(),
                self@ == old(self)@.sweep_upto(key_live, value_live, s as nat),
                forall|t: int| s <= t < capacity ==> self@.slots[t] == old(self)@.slots[t],
                forall|t: int|
                    0 <= t < s && (#[trigger] old(self)@.slots[t]) is Some ==> call_ensures(
                        is_live,
                        (old(self)@.slots[t]->Some_0.key,),
                        key_live[t],
                    ) && call_ensures(is_live, (old(self)@.slots[t]->Some_0.value,), value_live[t]),
            decreases capacity - s,
        {
            let ghost before = self@;
            let ghost kl = key_live;
            let ghost vl = value_live;
            let mut key_is_live = true;
            let mut value_is_live = true;
            let occupied = self.hashes[s].is_some();
            if occupied {
                key_is_live = is_live(self.keys[s]);
                value_is_live = is_live(self.values[s]);
                let gone = match self.weak_kind {
                    WeakKind::Strong => false,
                    WeakKind::Key => !key_is_live,
                    WeakKind::Value => !value_is_live,
                    WeakKind::KeyOrValue => !key_is_live || !value_is_live,
                    WeakKind::KeyAndValue => !key_is_live && !value_is_live,
                };
                if gone {
                    self.remove_slot(s);
                }
            }
            proof {
                key_live = kl.push(key_is_live);
                value_live = vl.push(value_is_live);
                lemma_sweep_prefix(old(self)@, kl, vl, key_live, value_live, s as nat);
            }
            s = s + 1;
        }
        proof {
            assert(answers(is_live, old(self)@.slots, key_live, value_live));
        }
    }
}

/// Whether `key_live` and `value_live` are what `is_live` said of the key and
/// the value in every occupied slot.
pub open spec fn answers<F: Fn(LispObject) -> bool>(
    is_live: F,
    slots: Seq<Option<Entry>>,
    key_live: Seq<bool>,
    value_live: Seq<bool>,
) -> bool {
    forall|t: int|
        0 <= t < slots.len() && (#[trigger] slots[t]) is Some ==> call_ensures(
            is_live,
            (slots[t]->Some_0.key,),
            key_live[t],
        ) && call_ensures(is_live, (slots[t]->Some_0.value,), value_live[t])
}

/// A sweep of the first `n` slots looks at the first `n` answers only.
proof fn lemma_sweep_prefix<S: EqualityStrategy>(
    m: TableModel<S>,
    key_live: Seq<bool>,
    value_live: Seq<bool>,
    more_keys: Seq<bool>,
    more_values: Seq<bool>,
    n: nat,
)
    requires
        n <= key_live.len() <= more_keys.len(),
        n <= value_live.len() <= more_values.len(),
        forall|t: int| 0 <= t < n ==> key_live[t] == more_keys[t] && value_live[t] == more_values[t],
    ensures
        m.sweep_upto(key_live, value_live, n) == m.sweep_upto(more_keys, more_values, n),
    decreases n,
{
    if n > 0 {
        lemma_sweep_prefix(m, key_live, value_live, more_keys, more_values, (n - 1) as nat);
    }
}

} // verus!
