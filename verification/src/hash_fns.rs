//! The operations on hash tables that Lisp programs call.

use vstd::prelude::*;
use crate::hashtable::LispHashTableRef;
use crate::lisp::{LispError, LispObject, TypePredicate};
use crate::registry::handle_of;
use crate::table_arena::{next_occupied, TableArena};
use crate::table_model::{
    Entry, EqualityStrategy, HashLookupResult, Ratio, TableModel, WeakKind,
};

verus! {

impl LispObject {
    /// Whether this is a handle to a hash table.
    pub fn is_hash_table(self) -> (r: bool)
        ensures
            r == (self is HashTable),
    {
        match self {
            LispObject::HashTable(_) => true,
            _ => false,
        }
    }

    /// The hash table that this is a handle to; anything else is the wrong
    /// type.
    pub fn as_hash_table_or_error(self) -> (r: Result<LispHashTableRef, LispError>)
        ensures
            r == if self is HashTable {
                Ok::<LispHashTableRef, LispError>(LispHashTableRef { index: Some(self->HashTable_0) })
            } else {
                Err(LispError::WrongType(TypePredicate::HashTablep, self))
            },
    {
        match self {
            LispObject::HashTable(i) => Ok(LispHashTableRef { index: Some(i) }),
            _ => Err(LispError::WrongType(TypePredicate::HashTablep, self)),
        }
    }
}

impl LispHashTableRef {
    /// The handle as a value. The empty handle is the terminator.
    pub fn as_object(self) -> (r: LispObject)
        ensures
            r == match self.index {
                Some(i) => LispObject::HashTable(i),
                None => LispObject::Nil,
            },
    {
        match self.index {
            Some(i) => LispObject::HashTable(i),
            None => LispObject::Nil,
        }
    }
}

/// A copy of `table`: a new table with the same entries in the same slots.
/// Keys and values are not copied, only the table itself is. The copy of a
/// table that the registry of weak tables holds is entered into the registry
/// just ahead of `table`, so that both are swept.
pub fn copy_hash_table<S: EqualityStrategy>(table: LispHashTableRef, arena: &mut TableArena<S>) -> (copy:
    LispHashTableRef)
    requires
        old(arena).wf(),
        old(arena).has(table),
    ensures
        final(arena).wf(),
        final(arena)@ == old(arena)@.push(old(arena)@[table.at()]),
        copy == handle_of(old(arena)@.len() as int),
        copy != table,
        final(arena).weak_registry() == if old(arena).weak_registry().contains(table.at()) {
            old(arena).weak_registry().insert(
                old(arena).weak_registry().index_of(table.at()),
                old(arena)@.len() as int,
            )
        } else {
            old(arena).weak_registry()
        },
{
    let n = arena.len();
    arena.copy_at(table.position())
}

/// A copy is independent of the table it was made from: associating a key
/// with a value in the copy changes neither the number of entries of that
/// table nor what a lookup in it finds.
pub proof fn lemma_copy_is_independent<S: EqualityStrategy>(
    tables: Seq<TableModel<S>>,
    i: int,
    key: LispObject,
    value: LispObject,
)
    requires
        0 <= i < tables.len(),
    ensures
        ({
            let copied = tables.push(tables[i]);
            let copy = tables.len() as int;
            let after = copied.update(copy, puthash_spec(copied[copy], key, value));
            &&& copied[copy] == tables[i]
            &&& after[i] == tables[i]
            &&& after[i].count == tables[i].count
            &&& forall|k: LispObject| after[i].lookup(k) == tables[i].lookup(k)
        }),
{
}

/// The value that `key` has in `hash_table`; `dflt` if the table has no entry
/// for `key`.
pub fn gethash<S: EqualityStrategy>(
    key: LispObject,
    hash_table: LispHashTableRef,
    dflt: LispObject,
    arena: &TableArena<S>,
) -> (r: LispObject)
    requires
        arena.wf(),
        arena.has(hash_table),
    ensures
        r == match arena@[hash_table.at()].value_of(key) {
            Some(value) => value,
            None => dflt,
        },
{
    proof {
        arena.lemma_registry();
        arena@[hash_table.at()].lemma_lookup_sound(key);
    }
    match hash_table.lookup(arena, key) {
        HashLookupResult::Found(idx) => hash_table.get_hash_value(arena, idx),
        HashLookupResult::Missing(_) => dflt,
    }
}

/// What `puthash` makes of a table: the value of the entry that a lookup of
/// `key` finds is replaced; without such an entry, `key` is entered with
/// `value` under the hash code that the lookup computed.
pub open spec fn puthash_spec<S: EqualityStrategy>(m: TableModel<S>, key: LispObject, value: LispObject) -> TableModel<
    S,
> {
    match m.lookup(key) {
        HashLookupResult::Found(idx) => TableModel {
            slots: m.slots.update(idx as int, Some(Entry { value, ..m.slots[idx as int]->Some_0 })),
            ..m
        },
        HashLookupResult::Missing(hash) => m.put(key, value, hash).0,
    }
}

/// What `puthash` promises of a proper table: the table stays proper, a
/// lookup of `key` leads to `value` afterwards, and every other entry keeps
/// its slot and its value.
pub proof fn lemma_puthash<S: EqualityStrategy>(m: TableModel<S>, key: LispObject, value: LispObject)
    requires
        m.wf(),
        m.proper(),
        m.count < isize::MAX,
    ensures
        puthash_spec(m, key, value).wf(),
        puthash_spec(m, key, value).proper(),
        puthash_spec(m, key, value).value_of(key) == Some(value),
        puthash_spec(m, key, value).count == m.count + if m.lookup(key) is Missing {
            1nat
        } else {
            0nat
        },
        forall|s: int|
            0 <= s < m.capacity && m.slots[s] is Some && !m.strategy.equal_spec(key, m.slots[s]->Some_0.key)
                ==> #[trigger] puthash_spec(m, key, value).slots[s] == m.slots[s],
{
    let after = puthash_spec(m, key, value);
    m.lemma_lookup_sound(key);
    match m.lookup(key) {
        HashLookupResult::Found(idx) => {
            let slot = idx as int;
            let e = m.slots[slot]->Some_0;
            assert(after.slots[slot] == Some(Entry { value, ..e }));
            assert forall|s: int| 0 <= s < after.capacity && (#[trigger] after.slots[s]) is Some implies m.slots[s] is Some
                && after.slots[s]->Some_0.key == m.slots[s]->Some_0.key && after.slots[s]->Some_0.hash
                == m.slots[s]->Some_0.hash by {
            }
            assert(after.proper()) by {
                assert forall|s: int, t: int|
                    0 <= s < after.capacity && 0 <= t < after.capacity && s != t && (#[trigger] after.slots[s]) is Some
                        && (#[trigger] after.slots[t]) is Some implies !after.strategy.equal_spec(
                    after.slots[s]->Some_0.key,
                    after.slots[t]->Some_0.key,
                ) by {
                    assert(m.slots[s] is Some && m.slots[t] is Some);
                }
            }
            assert(after.wf()) by {
                assert forall|b: int, i: int| 0 <= b < after.capacity && 0 <= i < after.chains[b].len() implies {
                    &&& 0 <= (#[trigger] after.chains[b][i]) < after.capacity
                    &&& after.slots[after.chains[b][i]] is Some
                    &&& after.bucket(after.slots[after.chains[b][i]]->Some_0.hash) == b
                } by {
                    assert(m.slots[m.chains[b][i]] is Some);
                }
                assert forall|s: int| 0 <= s < after.capacity && (#[trigger] after.slots[s]) is Some implies after.chains[after.bucket(
                    after.slots[s]->Some_0.hash,
                )].contains(s) by {
                    assert(m.slots[s] is Some);
                }
                assert forall|i: int| 0 <= i < after.free.len() implies 0 <= (#[trigger] after.free[i])
                    < after.capacity && after.slots[after.free[i]] is None by {
                    assert(m.slots[m.free[i]] is None);
                }
                assert forall|s: int| 0 <= s < after.capacity && (#[trigger] after.slots[s]) is None implies after.free.contains(
                    s,
                ) by {
                    assert(m.slots[s] is None);
                }
            }
            // The entry of the key is found where it was.
            m.strategy.lemma_reflexive(e.key);
            m.lemma_lookup_finds_entry(slot);
            after.lemma_lookup_finds_entry(slot);
            assert(after.lookup(key) == m.lookup(key)) by {
                if m.capacity > 0 {
                    let b = m.bucket(m.strategy.hash_spec(key));
                    lemma_same_matches(m, after, m.chains[b], key, 0);
                }
            }
        },
        HashLookupResult::Missing(hash) => {
            // Nothing in a proper table has the key: an entry with it would
            // stand on the chain that was searched.
            assert(m.is_new(key)) by {
                assert forall|s: int| 0 <= s < m.capacity && (#[trigger] m.slots[s]) is Some implies !m.strategy.equal_spec(
                    key,
                    m.slots[s]->Some_0.key,
                ) && !m.strategy.equal_spec(m.slots[s]->Some_0.key, key) by {
                    let other = m.slots[s]->Some_0.key;
                    if m.strategy.equal_spec(other, key) {
                        m.strategy.lemma_reflexive(other);
                        m.strategy.lemma_same_as_third(other, key, other);
                    }
                    if m.strategy.equal_spec(key, other) {
                        m.strategy.lemma_hash_agrees(key, other);
                        let b = m.bucket(m.strategy.hash_spec(key));
                        let chain = m.chains[b];
                        assert(chain.contains(s));
                        let j = choose|j: int| 0 <= j < chain.len() && chain[j] == s;
                        m.lemma_match_from(chain, key, 0);
                        assert(m.matches(chain[j], key));
                    }
                }
            }
            m.lemma_put_new(key, value);
            let (put, slot) = m.put(key, value, hash);
            put.lemma_lookup_finds_entry(slot);
        },
    }
}

/// A search of a chain ends at the same place in two tables with the same
/// keys in the same slots.
pub proof fn lemma_same_matches<S: EqualityStrategy>(
    m: TableModel<S>,
    after: TableModel<S>,
    chain: Seq<int>,
    key: LispObject,
    i: int,
)
    requires
        m.strategy == after.strategy,
        m.slots.len() == after.slots.len(),
        forall|s: int|
            0 <= s < m.slots.len() ==> ((#[trigger] m.slots[s]) is Some <==> after.slots[s] is Some) && (m.slots[s] is Some
                ==> m.slots[s]->Some_0.key == after.slots[s]->Some_0.key),
        forall|k: int| 0 <= k < chain.len() ==> 0 <= #[trigger] chain[k] < m.slots.len(),
    ensures
        m.match_from(chain, key, i) == after.match_from(chain, key, i),
    decreases chain.len() - i,
{
    if 0 <= i < chain.len() {
        assert(m.slots[chain[i]] is Some <==> after.slots[chain[i]] is Some);
        lemma_same_matches(m, after, chain, key, i + 1);
    }
}

/// Associates `key` with `value` in `hash_table`: replaces the value if the
/// table has an entry for `key`, and enters a new entry if not. Returns
/// `value`.
pub fn puthash<S: EqualityStrategy>(
    key: LispObject,
    value: LispObject,
    hash_table: LispHashTableRef,
    arena: &mut TableArena<S>,
) -> (r: LispObject)
    requires
        old(arena).wf(),
        old(arena).has(hash_table),
        old(arena)@[hash_table.at()].count < isize::MAX,
    ensures
        r == value,
        final(arena).wf(),
        final(arena)@ == old(arena)@.update(
            hash_table.at(),
            puthash_spec(old(arena)@[hash_table.at()], key, value),
        ),
        final(arena).weak_registry() == old(arena).weak_registry(),
        old(arena)@[hash_table.at()].proper() ==> final(arena)@[hash_table.at()].proper() && final(arena)@[hash_table.at()].value_of(key) == Some(value),
{
    proof {
        arena.lemma_registry();
        arena@[hash_table.at()].lemma_lookup_sound(key);
        if arena@[hash_table.at()].proper() {
            lemma_puthash(arena@[hash_table.at()], key, value);
        }
    }
    match hash_table.lookup(arena, key) {
        HashLookupResult::Found(idx) => {
            hash_table.set_hash_value(arena, idx, value);
        },
        HashLookupResult::Missing(hash) => {
            hash_table.put(arena, key, value, hash);
        },
    }
    value
}

/// Removes `key` from `hash_table`.
pub fn remhash<S: EqualityStrategy>(key: LispObject, hash_table: LispHashTableRef, arena: &mut TableArena<S>)
    requires
        old(arena).wf(),
        old(arena).has(hash_table),
    ensures
        final(arena).wf(),
        final(arena)@ == old(arena)@.update(hash_table.at(), old(arena)@[hash_table.at()].remove(key)),
        final(arena).weak_registry() == old(arena).weak_registry(),
        old(arena)@[hash_table.at()].proper() ==> final(arena)@[hash_table.at()].proper() && final(arena)@[hash_table.at()].value_of(key) is None,
{
    proof {
        arena.lemma_registry();
        if arena@[hash_table.at()].proper() {
            arena@[hash_table.at()].lemma_remove_present(key);
        }
    }
    hash_table.remove(arena, key);
}

/// The entries of a table from slot `from` on, in the order of their slots.
pub open spec fn entries_from(slots: Seq<Option<Entry>>, from: int) -> Seq<(LispObject, LispObject)>
    decreases slots.len() - from,
{
    if from < 0 || from >= slots.len() {
        Seq::empty()
    } else {
        match slots[from] {
            Some(e) => seq![(e.key, e.value)] + entries_from(slots, from + 1),
            None => entries_from(slots, from + 1),
        }
    }
}

/// The entries of a table from slot `from` on begin with the entry in the
/// next occupied slot.
pub proof fn lemma_entries_from(slots: Seq<Option<Entry>>, from: int)
    requires
        0 <= from,
    ensures
        ({
            let n = next_occupied(slots, from);
            entries_from(slots, from) == if n < slots.len() {
                seq![(slots[n]->Some_0.key, slots[n]->Some_0.value)] + entries_from(slots, n + 1)
            } else {
                Seq::empty()
            }
        }),
        from <= next_occupied(slots, from) || from >= slots.len(),
        next_occupied(slots, from) < slots.len() ==> slots[next_occupied(slots, from)] is Some,
    decreases slots.len() - from,
{
    if from < slots.len() && slots[from] is None {
        lemma_entries_from(slots, from + 1);
    }
}

/// The keys and values of the entries of `hash_table`, in the order of their
/// slots: what a function is to be called with, entry by entry, to map over
/// the table.
pub fn maphash<S: EqualityStrategy>(hash_table: LispHashTableRef, arena: &TableArena<S>) -> (entries: Vec<
    (LispObject, LispObject),
>)
    requires
        arena.wf(),
        arena.has(hash_table),
    ensures
        entries@ == entries_from(arena@[hash_table.at()].slots, 0),
{
    let mut entries: Vec<(LispObject, LispObject)> = Vec::new();
    let mut it = hash_table.iter();
    let ghost slots = arena@[hash_table.at()].slots;
    proof {
        arena.lemma_registry();
    }
    loop
        invariant
            arena.wf(),
            arena.has(hash_table),
            it.0.table == hash_table,
            slots == arena@[hash_table.at()].slots,
            0 <= it.0.current <= slots.len(),
            entries@ + entries_from(slots, it.0.current as int) == entries_from(slots, 0),
        decreases slots.len() - it.0.current,
    {
        let ghost before = it.0.current;
        let ghost seen = entries@;
        proof {
            lemma_entries_from(slots, before as int);
        }
        match it.next(arena) {
            Some(pair) => {
                entries.push(pair);
                proof {
                    assert(entries@ + entries_from(slots, it.0.current as int) =~= seen + entries_from(
                        slots,
                        before as int,
                    ));
                }
            },
            None => {
                proof {
                    assert(entries_from(slots, before as int) =~= Seq::empty());
                    assert(entries@ =~= seen + entries_from(slots, before as int));
                }
                return entries;
            },
        }
    }
}

/// Whether `obj` is a hash table.
pub fn hash_table_p(obj: LispObject) -> (r: bool)
    ensures
        r == (obj is HashTable),
{
    obj.is_hash_table()
}

/// The number of entries of `table`.
pub fn hash_table_count<S: EqualityStrategy>(table: LispHashTableRef, arena: &TableArena<S>) -> (n: i64)
    requires
        arena.wf(),
        arena.has(table),
    ensures
        n == arena@[table.at()].count,
{
    proof {
        arena.lemma_registry();
    }
    arena.table(table).count() as i64
}

/// The load above which `table` grows, as a fraction.
pub fn hash_table_rehash_threshold<S: EqualityStrategy>(table: LispHashTableRef, arena: &TableArena<S>) -> (r:
    Ratio)
    requires
        arena.wf(),
        arena.has(table),
    ensures
        r == arena@[table.at()].rehash_threshold,
{
    arena.table(table).rehash_threshold()
}

/// The number of slots of `table`: the number of entries that it holds
/// without a change of its arrays.
pub fn hash_table_size<S: EqualityStrategy>(table: LispHashTableRef, arena: &TableArena<S>) -> (n: i64)
    requires
        arena.wf(),
        arena.has(table),
    ensures
        n == arena@[table.at()].capacity,
{
    proof {
        arena.lemma_registry();
    }
    table.size(arena) as i64
}

/// The symbol that names the strategy of `table`.
pub fn hash_table_test<S: EqualityStrategy>(table: LispHashTableRef, arena: &TableArena<S>) -> (r: LispObject)
    requires
        arena.wf(),
        arena.has(table),
    ensures
        r == arena@[table.at()].strategy.name_spec(),
{
    arena.table(table).strategy().name()
}

/// The weakness of `table`.
pub fn hash_table_weakness<S: EqualityStrategy>(table: LispHashTableRef, arena: &TableArena<S>) -> (kind:
    WeakKind)
    requires
        arena.wf(),
        arena.has(table),
    ensures
        kind == arena@[table.at()].weak_kind,
{
    table.get_weak(arena)
}

/// Removes every entry from `hash_table`, and returns the table.
pub fn clrhash<S: EqualityStrategy>(hash_table: LispHashTableRef, arena: &mut TableArena<S>) -> (r:
    LispHashTableRef)
    requires
        old(arena).wf(),
        old(arena).has(hash_table),
    ensures
        r == hash_table,
        final(arena).wf(),
        final(arena)@ == old(arena)@.update(hash_table.at(), old(arena)@[hash_table.at()].cleared()),
        final(arena).weak_registry() == old(arena).weak_registry(),
{
    hash_table.clear(arena);
    hash_table
}

impl From<LispHashTableRef> for LispObject {
    fn from(h: LispHashTableRef) -> (r: LispObject) {
        h.as_object()
    }
}

impl vstd::std_specs::convert::FromSpecImpl<LispHashTableRef> for LispObject {
    open spec fn obeys_from_spec() -> bool {
        true
    }

    open spec fn from_spec(h: LispHashTableRef) -> LispObject {
        match h.index {
            Some(i) => LispObject::HashTable(i),
            None => LispObject::Nil,
        }
    }
}

impl TryFrom<LispObject> for LispHashTableRef {
    type Error = LispError;

    fn try_from(o: LispObject) -> (r: Result<LispHashTableRef, LispError>) {
        o.as_hash_table_or_error()
    }
}

impl vstd::std_specs::convert::TryFromSpecImpl<LispObject> for LispHashTableRef {
    open spec fn obeys_try_from_spec() -> bool {
        true
    }

    open spec fn try_from_spec(o: LispObject) -> Result<LispHashTableRef, LispError> {
        if o is HashTable {
            Ok(LispHashTableRef { index: Some(o->HashTable_0) })
        } else {
            Err(LispError::WrongType(TypePredicate::HashTablep, o))
        }
    }
}

} // verus!
