//! The store that owns every hash table, handles to the tables in it, and the
//! registry of the weak tables among them.

use vstd::prelude::*;
use crate::hashtable::{head_of, link_after, AssocTable, LispHashTableRef};
use crate::lisp::{LispError, LispObject, TypePredicate};
use crate::registry::{
    handle_of, lemma_registry_frame, lemma_registry_insert, lemma_registry_skip, linked_registry,
    skipped,
};
use crate::table_model::{
    Entry, EqualityStrategy, HashLookupResult, Ratio, RehashSize, TableModel, WeakKind,
};

verus! {

/// The store that owns every hash table. The weak tables that are swept form
/// a registry: a list that begins at the table registered last and runs
/// along the `next_weak` links.
pub struct TableArena<S: EqualityStrategy> {
    tables: Vec<AssocTable<S>>,
    weak_head: LispHashTableRef,
    registry: Ghost<Seq<int>>,
}

impl<S: EqualityStrategy> View for TableArena<S> {
    type V = Seq<TableModel<S>>;

    closed spec fn view(&self) -> Seq<TableModel<S>> {
        Seq::new(self.tables@.len(), |i: int| self.tables@[i]@)
    }
}

impl<S: EqualityStrategy> TableArena<S> {
    /// The positions of the weak tables, in the order of the registry.
    pub closed spec fn weak_registry(&self) -> Seq<int> {
        self.registry@
    }

    /// The table after the one at position `i` among the weak tables.
    pub closed spec fn next_weak_of(&self, i: int) -> LispHashTableRef {
        self.tables@[i].next_weak_spec()
    }

    /// The first table of the registry.
    pub closed spec fn weak_head_spec(&self) -> LispHashTableRef {
        self.weak_head
    }

    /// For every table the handle that it holds for the table after it.
    pub closed spec fn links(&self) -> Seq<LispHashTableRef> {
        Seq::new(self.tables@.len(), |i: int| self.tables@[i].next_weak_spec())
    }

    /// The array of links between the slots that the table at position `i`
    /// holds.
    pub closed spec fn slot_links_of(&self, i: int) -> Seq<isize> {
        self.tables@[i].slot_links()
    }

    /// The array of first slots of the buckets that the table at position
    /// `i` holds.
    pub closed spec fn bucket_heads_of(&self, i: int) -> Seq<isize> {
        self.tables@[i].bucket_heads()
    }

    /// For every table whether it is weak.
    pub closed spec fn weak(&self) -> Seq<bool> {
        Seq::new(self.tables@.len(), |i: int| self.tables@[i]@.weak_kind != WeakKind::Strong)
    }

    /// Every table is well formed, and the registry holds weak tables, each
    /// once, linked in its order.
    pub closed spec fn wf(&self) -> bool {
        &&& forall|i: int| 0 <= i < self.tables@.len() ==> (#[trigger] self.tables@[i]).wf()
        &&& linked_registry(self.links(), self.weak(), self.weak_head, self.registry@)
    }

    /// Whether `table` is a handle to a table of this arena.
    pub open spec fn has(&self, table: LispHashTableRef) -> bool {
        table.index is Some && table.index->Some_0 < self@.len()
    }

    /// The links of the tables are those of the registry.
    pub proof fn lemma_registry(&self)
        requires
            self.wf(),
        ensures
            self.weak_head_spec() == handle_of(head_of(self.weak_registry())),
            self.weak_registry().no_duplicates(),
            forall|k: int|
                0 <= k < self.weak_registry().len() ==> 0 <= (#[trigger] self.weak_registry()[k]) < self@.len()
                    && self@[self.weak_registry()[k]].weak_kind != WeakKind::Strong && self.next_weak_of(
                    self.weak_registry()[k],
                ) == handle_of(link_after(self.weak_registry(), k)),
            forall|i: int| 0 <= i < self@.len() ==> (#[trigger] self@[i]).wf(),
    {
        assert forall|k: int| 0 <= k < self.registry@.len() implies 0 <= (#[trigger] self.registry@[k])
            < self@.len() && self@[self.registry@[k]].weak_kind != WeakKind::Strong && self.next_weak_of(
            self.registry@[k],
        ) == handle_of(link_after(self.registry@, k)) by {
            assert(self.weak()[self.registry@[k]]);
            assert(self.links()[self.registry@[k]] == handle_of(link_after(self.registry@, k)));
        }
        assert forall|i: int| 0 <= i < self@.len() implies (#[trigger] self@[i]).wf() by {
            assert(self.tables@[i].wf());
        }
    }

    /// An arena without tables.
    pub fn new() -> (arena: TableArena<S>)
        ensures
            arena.wf(),
            arena@.len() == 0,
            arena.weak_registry().len() == 0,
    {
        TableArena {
            tables: Vec::new(),
            weak_head: LispHashTableRef { index: None },
            registry: Ghost(Seq::empty()),
        }
    }

    /// The number of tables.
    pub fn len(&self) -> (n: usize)
        ensures
            n == self@.len(),
    {
        self.tables.len()
    }

    /// Whether `table` is a handle to a table of this arena.
    pub fn contains(&self, table: LispHashTableRef) -> (r: bool)
        ensures
            r == self.has(table),
    {
        match table.index {
            Some(i) => i < self.tables.len(),
            None => false,
        }
    }

    /// The first table of the registry of weak tables; the empty handle if
    /// the registry holds none.
    pub fn weak_head(&self) -> (head: LispHashTableRef)
        ensures
            head == self.weak_head_spec(),
    {
        self.weak_head
    }

    /// The table that `table` denotes.
    pub fn table(&self, table: LispHashTableRef) -> (t: &AssocTable<S>)
        requires
            self.wf(),
            self.has(table),
        ensures
            t.wf(),
            t@ == self@[table.index->Some_0 as int],
            t.next_weak_spec() == self.next_weak_of(table.index->Some_0 as int),
            t.slot_links() == self.slot_links_of(table.index->Some_0 as int),
            t.bucket_heads() == self.bucket_heads_of(table.index->Some_0 as int),
    {
        let i = match table.index {
            Some(i) => i,
            None => 0,
        };
        assert(self.tables@[i as int].wf());
        &self.tables[i]
    }

    /// Adds `table` to the arena; a weak table goes to the front of the
    /// registry.
    pub fn adopt(&mut self, table: AssocTable<S>) -> (handle: LispHashTableRef)
        requires
            old(self).wf(),
            table.wf(),
        ensures
            final(self).wf(),
            final(self)@ == old(self)@.push(table@),
            handle == handle_of(old(self)@.len() as int),
            final(self).weak_registry() == if table@.weak_kind == WeakKind::Strong {
                old(self).weak_registry()
            } else {
                seq![old(self)@.len() as int] + old(self).weak_registry()
            },
    {
        let mut table = table;
        let index = self.tables.len();
        let ghost registry = self.registry@;
        let weak = match table.get_weak() {
            WeakKind::Strong => false,
            _ => true,
        };
        if weak {
            table.set_next_weak(self.weak_head);
            self.weak_head = LispHashTableRef { index: Some(index) };
            self.registry = Ghost(seq![index as int] + registry);
        }
        let ghost entered = table;
        self.tables.push(table);
        let count = self.tables.len();
        proof {
            assert(self@ =~= old(self)@.push(entered@));
            assert forall|i: int| 0 <= i < self.tables@.len() implies (#[trigger] self.tables@[i]).wf() by {
                if i < index {
                    assert(self.tables@[i] == old(self).tables@[i]);
                }
            }
            lemma_registry_frame(
                old(self).links(),
                old(self).weak(),
                old(self).weak_head,
                registry,
                self.links(),
                self.weak(),
            );
            if weak {
                // A registry that begins with the new table is one that was
                // cut short before its first table and given a new head.
                let now = self.registry@;
                assert forall|k: int| 0 <= k < now.len() implies 0 <= (#[trigger] now[k]) < self.links().len()
                    && self.weak()[now[k]] by {
                    if k > 0 {
                        assert(now[k] == registry[k - 1]);
                    }
                }
                assert forall|k: int| 0 <= k < now.len() implies self.links()[now[k]] == handle_of(
                    #[trigger] link_after(now, k),
                ) by {
                    if k > 0 {
                        assert(now[k] == registry[k - 1]);
                        assert(old(self).links()[registry[k - 1]] == handle_of(link_after(registry, k - 1)));
                        if k + 1 < now.len() {
                            assert(now[k + 1] == registry[k]);
                        }
                    } else if registry.len() > 0 {
                        assert(now[1] == registry[0]);
                    }
                }
                assert forall|x: int, y: int| 0 <= x < now.len() && 0 <= y < now.len() && x != y implies now[x]
                    != now[y] by {
                    if x > 0 {
                        assert(now[x] == registry[x - 1]);
                    }
                    if y > 0 {
                        assert(now[y] == registry[y - 1]);
                    }
                }
            }
        }
        LispHashTableRef { index: Some(index) }
    }

    /// A change to one table that keeps it well formed, as weak as it was and
    /// linked as it was keeps the arena well formed.
    proof fn lemma_changed(&self, before: &TableArena<S>, i: int)
        requires
            before.wf(),
            0 <= i < before.tables@.len(),
            self.tables@.len() == before.tables@.len(),
            forall|j: int| 0 <= j < self.tables@.len() && j != i ==> self.tables@[j] == before.tables@[j],
            self.tables@[i].wf(),
            self.tables@[i]@.weak_kind == before.tables@[i]@.weak_kind,
            self.tables@[i].next_weak_spec() == before.tables@[i].next_weak_spec(),
            self.weak_head == before.weak_head,
            self.registry@ == before.registry@,
        ensures
            self.wf(),
            self@ == before@.update(i, self.tables@[i]@),
            self.weak_registry() == before.weak_registry(),
    {
        assert(self@ =~= before@.update(i, self.tables@[i]@));
        assert forall|j: int| 0 <= j < self.tables@.len() implies (#[trigger] self.tables@[j]).wf() by {
            if j != i {
                assert(before.tables@[j].wf());
            }
        }
        assert(self.links() =~= before.links());
        assert(self.weak() =~= before.weak());
    }

    /// Enters into the table at position `i`.
    fn put_at(&mut self, i: usize, key: LispObject, value: LispObject, hash: u64) -> (slot: isize)
        requires
            old(self).wf(),
            i < old(self)@.len(),
            old(self)@[i as int].count < isize::MAX,
        ensures
            final(self).wf(),
            final(self)@ == old(self)@.update(i as int, old(self)@[i as int].put(key, value, hash).0),
            slot == old(self)@[i as int].put(key, value, hash).1,
            final(self).weak_registry() == old(self).weak_registry(),
    {
        assert(self.tables@[i as int].wf());
        let slot = self.tables[i].put(key, value, hash);
        proof {
            self.lemma_changed(old(self), i as int);
        }
        slot
    }

    /// Removes from the table at position `i`.
    fn remove_at(&mut self, i: usize, key: LispObject)
        requires
            old(self).wf(),
            i < old(self)@.len(),
        ensures
            final(self).wf(),
            final(self)@ == old(self)@.update(i as int, old(self)@[i as int].remove(key)),
            final(self).weak_registry() == old(self).weak_registry(),
    {
        assert(self.tables@[i as int].wf());
        self.tables[i].remove(key);
        proof {
            self.lemma_changed(old(self), i as int);
        }
    }

    /// Clears the table at position `i`.
    fn clear_at(&mut self, i: usize)
        requires
            old(self).wf(),
            i < old(self)@.len(),
        ensures
            final(self).wf(),
            final(self)@ == old(self)@.update(i as int, old(self)@[i as int].cleared()),
            final(self).weak_registry() == old(self).weak_registry(),
    {
        assert(self.tables@[i as int].wf());
        self.tables[i].clear();
        proof {
            self.lemma_changed(old(self), i as int);
        }
    }

    /// Replaces a value in the table at position `i`.
    fn set_value_at(&mut self, i: usize, idx: isize, value: LispObject)
        requires
            old(self).wf(),
            i < old(self)@.len(),
            0 <= idx < old(self)@[i as int].capacity,
        ensures
            final(self).wf(),
            final(self)@ == old(self)@.update(
                i as int,
                TableModel {
                    slots: match old(self)@[i as int].slots[idx as int] {
                        Some(e) => old(self)@[i as int].slots.update(idx as int, Some(Entry { value, ..e })),
                        None => old(self)@[i as int].slots,
                    },
                    ..old(self)@[i as int]
                },
            ),
            final(self).weak_registry() == old(self).weak_registry(),
    {
        assert(self.tables@[i as int].wf());
        self.tables[i].set_hash_value(idx, value);
        proof {
            self.lemma_changed(old(self), i as int);
        }
    }

    /// Sweeps the table at position `i`.
    fn sweep_at<F: Fn(LispObject) -> bool>(&mut self, i: usize, is_live: F)
        requires
            old(self).wf(),
            i < old(self)@.len(),
            forall|v: LispObject| call_requires(is_live, (v,)),
        ensures
            final(self).wf(),
            final(self).weak_registry() == old(self).weak_registry(),
            exists|key_live: Seq<bool>, value_live: Seq<bool>|
                #![trigger old(self)@[i as int].sweep_upto(key_live, value_live, old(self)@[i as int].capacity)]
                {
                    &&& key_live.len() == old(self)@[i as int].capacity
                    &&& value_live.len() == old(self)@[i as int].capacity
                    &&& crate::hashtable::answers(is_live, old(self)@[i as int].slots, key_live, value_live)
                    &&& final(self)@ == old(self)@.update(
                        i as int,
                        old(self)@[i as int].sweep_upto(key_live, value_live, old(self)@[i as int].capacity),
                    )
                },
    {
        assert(self.tables@[i as int].wf());
        self.tables[i].sweep(is_live);
        proof {
            let before = old(self).tables@[i as int]@;
            let (key_live, value_live) = choose|key_live: Seq<bool>, value_live: Seq<bool>|
                #![trigger before.sweep_upto(key_live, value_live, before.capacity)]
                {
                    &&& key_live.len() == before.capacity
                    &&& value_live.len() == before.capacity
                    &&& crate::hashtable::answers(is_live, before.slots, key_live, value_live)
                    &&& self.tables@[i as int]@ == before.sweep_upto(key_live, value_live, before.capacity)
                };
            before.lemma_sweep(key_live, value_live, before.capacity);
            self.lemma_changed(old(self), i as int);
        }
    }

    /// Replaces the hash codes of the table at position `i`.
    pub(crate) fn set_hash_at(&mut self, i: usize, hash: Vec<Option<u64>>)
        requires
            old(self).wf(),
            i < old(self)@.len(),
            hash@.len() == old(self)@[i as int].capacity,
            forall|s: int|
                0 <= s < hash@.len() ==> (#[trigger] hash@[s] is Some <==> old(self)@[i as int].slots[s] is Some)
                    && (hash@[s] is Some ==> old(self)@[i as int].bucket(hash@[s]->Some_0) == old(self)@[i as int].bucket(old(self)@[i as int].slots[s]->Some_0.hash)),
        ensures
            final(self).wf(),
            final(self)@ == old(self)@.update(
                i as int,
                TableModel {
                    slots: Seq::new(
                        old(self)@[i as int].capacity,
                        |s: int|
                            match old(self)@[i as int].slots[s] {
                                Some(e) => Some(Entry { hash: hash@[s]->Some_0, ..e }),
                                None => None,
                            },
                    ),
                    ..old(self)@[i as int]
                },
            ),
            final(self).weak_registry() == old(self).weak_registry(),
    {
        assert(self.tables@[i as int].wf());
        self.tables[i].set_hash(hash);
        proof {
            self.lemma_changed(old(self), i as int);
        }
    }

    /// Replaces the links of the table at position `i` by `next`. The
    /// arrays of the other tables stay.
    pub(crate) fn set_next_at(&mut self, i: usize, next: Vec<isize>)
        requires
            old(self).wf(),
            i < old(self)@.len(),
            next@.len() == old(self)@[i as int].capacity,
            forall|b: int, k: int|
                0 <= b < old(self)@[i as int].capacity && 0 <= k < old(self)@[i as int].chains[b].len()
                    ==> next@[old(self)@[i as int].chains[b][k]] == #[trigger] link_after(
                    old(self)@[i as int].chains[b],
                    k,
                ),
            forall|k: int|
                0 <= k < old(self)@[i as int].free.len() ==> next@[old(self)@[i as int].free[k]]
                    == #[trigger] link_after(old(self)@[i as int].free, k),
        ensures
            final(self).wf(),
            final(self)@ == old(self)@,
            final(self).weak_registry() == old(self).weak_registry(),
            final(self).slot_links_of(i as int) == next@,
            final(self).bucket_heads_of(i as int) == old(self).bucket_heads_of(i as int),
            forall|j: int|
                0 <= j < old(self)@.len() && j != i ==> #[trigger] final(self).slot_links_of(j) == old(
                    self,
                ).slot_links_of(j) && final(self).bucket_heads_of(j) == old(self).bucket_heads_of(j),
    {
        assert(self.tables@[i as int].wf());
        self.tables[i].set_next(next);
        proof {
            self.lemma_changed(old(self), i as int);
            assert(self@ =~= old(self)@);
        }
    }

    /// Replaces the bucket heads of the table at position `i` by `index`.
    /// The arrays of the other tables stay.
    pub(crate) fn set_index_at(&mut self, i: usize, index: Vec<isize>)
        requires
            old(self).wf(),
            i < old(self)@.len(),
            index@.len() == old(self)@[i as int].capacity,
            forall|b: int|
                0 <= b < old(self)@[i as int].capacity ==> #[trigger] index@[b] == head_of(
                    old(self)@[i as int].chains[b],
                ),
        ensures
            final(self).wf(),
            final(self)@ == old(self)@,
            final(self).weak_registry() == old(self).weak_registry(),
            final(self).bucket_heads_of(i as int) == index@,
            final(self).slot_links_of(i as int) == old(self).slot_links_of(i as int),
            forall|j: int|
                0 <= j < old(self)@.len() && j != i ==> #[trigger] final(self).slot_links_of(j) == old(
                    self,
                ).slot_links_of(j) && final(self).bucket_heads_of(j) == old(self).bucket_heads_of(j),
    {
        assert(self.tables@[i as int].wf());
        self.tables[i].set_index(index);
        proof {
            self.lemma_changed(old(self), i as int);
            assert(self@ =~= old(self)@);
        }
    }

    /// Replaces the keys and values of the table at position `i`.
    pub(crate) fn set_key_and_value_at(&mut self, i: usize, pairs: Vec<LispObject>)
        requires
            old(self).wf(),
            i < old(self)@.len(),
            pairs@.len() == 2 * old(self)@[i as int].capacity,
            forall|s: int|
                0 <= s < old(self)@[i as int].capacity && (#[trigger] old(self)@[i as int].slots[s]) is None
                    ==> pairs@[2 * s] == LispObject::Nil && pairs@[2 * s + 1] == LispObject::Nil,
        ensures
            final(self).wf(),
            final(self)@ == old(self)@.update(
                i as int,
                TableModel {
                    slots: Seq::new(
                        old(self)@[i as int].capacity,
                        |s: int|
                            match old(self)@[i as int].slots[s] {
                                Some(e) => Some(Entry { key: pairs@[2 * s], value: pairs@[2 * s + 1], ..e }),
                                None => None,
                            },
                    ),
                    ..old(self)@[i as int]
                },
            ),
            final(self).weak_registry() == old(self).weak_registry(),
    {
        assert(self.tables@[i as int].wf());
        self.tables[i].set_key_and_value(pairs);
        proof {
            self.lemma_changed(old(self), i as int);
        }
    }

    /// Whether the table at position `i` is in the registry; if it is, its
    /// position there and the table before it.
    fn find_weak(&self, i: usize) -> (r: (bool, Option<usize>, Ghost<int>))
        requires
            self.wf(),
            i < self@.len(),
        ensures
            r.0 == self.weak_registry().contains(i as int),
            r.0 ==> {
                &&& r.2@ == self.weak_registry().index_of(i as int)
                &&& 0 <= r.2@ < self.weak_registry().len()
                &&& self.weak_registry()[r.2@] == i
                &&& r.1 == if r.2@ > 0 { Some(self.weak_registry()[r.2@ - 1] as usize) } else { None }
                &&& r.1 matches Some(p) ==> p < self@.len()
            },
    {
        let ghost registry = self.registry@;
        let count = self.tables.len();
        let ghost mut k: int = 0;
        let mut prev: Option<usize> = None;
        let mut cur = self.weak_head;
        loop
            invariant
                self.wf(),
                i < count,
                count == self.tables@.len(),
                registry == self.registry@,
                0 <= k <= registry.len(),
                cur == handle_of(if k < registry.len() { registry[k] } else { -1 }),
                prev == if k > 0 { Some(registry[k - 1] as usize) } else { None },
                prev matches Some(p) ==> p < self.tables@.len(),
                forall|j: int| 0 <= j < k ==> registry[j] != i,
            decreases registry.len() - k,
        {
            match cur.index {
                None => {
                    proof {
                        if k < registry.len() {
                            assert(0 <= registry[k]);
                        }
                    }
                    return (false, None, Ghost(k));
                },
                Some(c) => {
                    proof {
                        assert(k < registry.len());
                        assert(0 <= registry[k] < self.links().len());
                        assert(c == registry[k]);
                        assert(self.links()[registry[k]] == handle_of(link_after(registry, k)));
                        if k + 1 < registry.len() {
                            assert(0 <= registry[k + 1] < self.links().len());
                        }
                    }
                    if c == i {
                        proof {
                            let pos = registry.index_of(i as int);
                            assert(registry.contains(i as int));
                            assert(0 <= pos < registry.len() && registry[pos] == i as int);
                            assert(registry.no_duplicates());
                        }
                        return (true, prev, Ghost(k));
                    }
                    prev = Some(c);
                    cur = self.tables[c].get_next_weak();
                    proof {
                        k = k + 1;
                    }
                },
            }
        }
    }

    /// Adds a copy of the table at position `i`. A copy of a table that the
    /// registry holds is entered into it just ahead of the table it was
    /// copied from.
    pub(crate) fn copy_at(&mut self, i: usize) -> (handle: LispHashTableRef)
        requires
            old(self).wf(),
            i < old(self)@.len(),
        ensures
            final(self).wf(),
            final(self)@ == old(self)@.push(old(self)@[i as int]),
            handle == handle_of(old(self)@.len() as int),
            final(self).weak_registry() == if old(self).weak_registry().contains(i as int) {
                old(self).weak_registry().insert(
                    old(self).weak_registry().index_of(i as int),
                    old(self)@.len() as int,
                )
            } else {
                old(self).weak_registry()
            },
    {
        assert(self.tables@[i as int].wf());
        let ghost registry = self.registry@;
        let index = self.tables.len();
        let mut copy = self.tables[i].copy();
        let (found, prev, Ghost(pos)) = self.find_weak(i);
        if !found {
            copy.set_next_weak(LispHashTableRef { index: None });
            let ghost entered = copy;
            self.tables.push(copy);
            let count = self.tables.len();
            proof {
                assert(self@ =~= old(self)@.push(entered@));
                assert forall|j: int| 0 <= j < self.tables@.len() implies (#[trigger] self.tables@[j]).wf() by {
                    if j < index {
                        assert(self.tables@[j] == old(self).tables@[j]);
                    }
                }
                lemma_registry_frame(
                    old(self).links(),
                    old(self).weak(),
                    old(self).weak_head,
                    registry,
                    self.links(),
                    self.weak(),
                );
            }
            return LispHashTableRef { index: Some(index) };
        }
        proof {
            assert(old(self).weak()[registry[pos]]);
        }
        copy.set_next_weak(LispHashTableRef { index: Some(i) });
        let ghost entered = copy;
        self.tables.push(copy);
        match prev {
            None => {
                self.weak_head = LispHashTableRef { index: Some(index) };
            },
            Some(p) => {
                self.tables[p].set_next_weak(LispHashTableRef { index: Some(index) });
            },
        }
        self.registry = Ghost(registry.insert(pos, index as int));
        let count = self.tables.len();
        proof {
            assert(self@ =~= old(self)@.push(entered@));
            assert forall|j: int| 0 <= j < self.tables@.len() implies (#[trigger] self.tables@[j]).wf() by {
                if j < index {
                    assert(old(self).tables@[j].wf());
                }
            }
            assert forall|k: int| 0 <= k < registry.len() implies self.weak()[#[trigger] registry[k]] == old(self).weak()[registry[k]] && self.links()[registry[k]] == if k == pos - 1 {
                handle_of(index as int)
            } else {
                old(self).links()[registry[k]]
            } by {
                assert(0 <= registry[k] < index);
                if k != pos - 1 && pos > 0 {
                    assert(registry[k] != registry[pos - 1]);
                }
            }
            lemma_registry_insert(
                old(self).links(),
                old(self).weak(),
                old(self).weak_head,
                registry,
                self.links(),
                self.weak(),
                self.weak_head,
                pos,
            );
        }
        LispHashTableRef { index: Some(index) }
    }

    /// Makes `other` the table that follows the table at position `i` in the
    /// registry. The tables between the two leave the registry.
    pub(crate) fn skip_after(&mut self, i: usize, other: LispHashTableRef)
        requires
            old(self).wf(),
            i < old(self)@.len(),
            old(self).weak_registry().contains(i as int),
            other.index matches Some(o) ==> old(self).weak_registry().contains(o as int) && old(self).weak_registry().index_of(i as int) < old(self).weak_registry().index_of(o as int),
        ensures
            final(self).wf(),
            final(self)@ == old(self)@,
            final(self).weak_registry() == skipped(
                old(self).weak_registry(),
                old(self).weak_registry().index_of(i as int),
                other,
            ),
    {
        let ghost registry = self.registry@;
        let ghost from = registry.index_of(i as int);
        let ghost to = match other.index {
            Some(o) => registry.index_of(o as int),
            None => registry.len() as int,
        };
        let count = self.tables.len();
        proof {
            assert(0 <= from < registry.len() && registry[from] == i as int);
            if other.index is Some {
                assert(0 <= to < registry.len() && registry[to] == other.index->Some_0 as int);
                assert(0 <= registry[to] < self.links().len());
            }
        }
        self.tables[i].set_next_weak(other);
        self.registry = Ghost(registry.subrange(0, from + 1) + registry.subrange(to, registry.len() as int));
        proof {
            assert(self@ =~= old(self)@);
            assert forall|j: int| 0 <= j < self.tables@.len() implies (#[trigger] self.tables@[j]).wf() by {
                assert(old(self).tables@[j].wf());
            }
            assert(self.weak() =~= old(self).weak());
            assert forall|k: int| 0 <= k < registry.len() implies self.links()[#[trigger] registry[k]] == if k
                == from {
                handle_of(if to < registry.len() { registry[to] } else { -1 })
            } else {
                old(self).links()[registry[k]]
            } by {
                assert(0 <= registry[k] < count);
                if k != from {
                    assert(registry[k] != registry[from]);
                }
            }
            lemma_registry_skip(
                old(self).links(),
                old(self).weak(),
                old(self).weak_head,
                registry,
                self.links(),
                self.weak_head,
                from,
                to,
            );
        }
    }

    /// Makes `other` the first table of the registry. The tables before it
    /// leave the registry; with the empty handle, all tables do.
    pub fn set_weak_head(&mut self, other: LispHashTableRef)
        requires
            old(self).wf(),
            other.index matches Some(o) ==> old(self).weak_registry().contains(o as int),
        ensures
            final(self).wf(),
            final(self)@ == old(self)@,
            final(self).weak_registry() == skipped(old(self).weak_registry(), -1, other),
            final(self).weak_head_spec() == other,
    {
        let ghost registry = self.registry@;
        let ghost to = match other.index {
            Some(o) => registry.index_of(o as int),
            None => registry.len() as int,
        };
        let count = self.tables.len();
        proof {
            if other.index is Some {
                assert(0 <= to < registry.len() && registry[to] == other.index->Some_0 as int);
                assert(0 <= registry[to] < self.links().len());
            }
        }
        self.weak_head = other;
        self.registry = Ghost(registry.subrange(0, 0) + registry.subrange(to, registry.len() as int));
        proof {
            assert(self@ =~= old(self)@);
            assert(self.links() =~= old(self).links());
            assert(self.weak() =~= old(self).weak());
            lemma_registry_skip(
                old(self).links(),
                old(self).weak(),
                old(self).weak_head,
                registry,
                self.links(),
                self.weak_head,
                -1,
                to,
            );
        }
    }

    /// Whether the registry holds `table`.
    pub fn is_registered(&self, table: LispHashTableRef) -> (r: bool)
        requires
            self.wf(),
        ensures
            r == (self.has(table) && self.weak_registry().contains(table.at())),
    {
        match table.index {
            Some(i) => {
                if i < self.tables.len() {
                    let (found, _, _) = self.find_weak(i);
                    found
                } else {
                    proof {
                        if self.registry@.contains(i as int) {
                            let k = choose|k: int| 0 <= k < self.registry@.len() && self.registry@[k] == i as int;
                            assert(0 <= self.registry@[k] < self.links().len());
                        }
                    }
                    false
                }
            },
            None => false,
        }
    }
}

impl LispHashTableRef {
    /// The handle that denotes no table.
    pub fn empty() -> (r: LispHashTableRef)
        ensures
            r.index is None,
    {
        LispHashTableRef { index: None }
    }

    /// Whether this handle denotes no table.
    pub fn is_null(self) -> (r: bool)
        ensures
            r == (self.index is None),
    {
        self.index.is_none()
    }

    /// The position that a handle of a table of an arena denotes.
    pub open spec fn at(self) -> int {
        self.index->Some_0 as int
    }

    /// The position that the handle denotes.
    pub(crate) fn position(self) -> (i: usize)
        requires
            self.index is Some,
        ensures
            i == self.at(),
    {
        match self.index {
            Some(i) => i,
            None => 0,
        }
    }

    /// Makes a table without entries in `arena` and hands out the handle to
    /// it. A weak table is entered at the front of the registry.
    pub fn allocate<S: EqualityStrategy>(
        arena: &mut TableArena<S>,
        strategy: S,
        capacity: usize,
        rehash_threshold: Ratio,
        rehash_size: RehashSize,
        weak_kind: WeakKind,
    ) -> (table: LispHashTableRef)
        requires
            old(arena).wf(),
            capacity <= isize::MAX,
            0 < rehash_threshold.num <= rehash_threshold.den,
            rehash_size matches RehashSize::Factor(r) ==> r.den > 0,
        ensures
            final(arena).wf(),
            final(arena)@ == old(arena)@.push(
                TableModel::empty(strategy, capacity as nat, rehash_threshold, rehash_size, weak_kind),
            ),
            table == handle_of(old(arena)@.len() as int),
            final(arena).weak_registry() == if weak_kind == WeakKind::Strong {
                old(arena).weak_registry()
            } else {
                seq![old(arena)@.len() as int] + old(arena).weak_registry()
            },
    {
        let table = AssocTable::new(strategy, capacity, rehash_threshold, rehash_size, weak_kind);
        arena.adopt(table)
    }

    /// Looks `key` up in the table.
    pub fn lookup<S: EqualityStrategy>(self, arena: &TableArena<S>, key: LispObject) -> (r: HashLookupResult)
        requires
            arena.wf(),
            arena.has(self),
        ensures
            r == arena@[self.at()].lookup(key),
    {
        arena.table(self).lookup(key)
    }

    /// Enters `key` with `value` under `hash` into the table, and returns the
    /// slot of the new entry.
    pub fn put<S: EqualityStrategy>(
        self,
        arena: &mut TableArena<S>,
        key: LispObject,
        value: LispObject,
        hash: u64,
    ) -> (slot: isize)
        requires
            old(arena).wf(),
            old(arena).has(self),
            old(arena)@[self.at()].count < isize::MAX,
        ensures
            final(arena).wf(),
            final(arena)@ == old(arena)@.update(self.at(), old(arena)@[self.at()].put(key, value, hash).0),
            slot == old(arena)@[self.at()].put(key, value, hash).1,
            final(arena).weak_registry() == old(arena).weak_registry(),
    {
        arena.put_at(self.position(), key, value, hash)
    }

    /// Removes the entry of `key` from the table.
    pub fn remove<S: EqualityStrategy>(self, arena: &mut TableArena<S>, key: LispObject)
        requires
            old(arena).wf(),
            old(arena).has(self),
        ensures
            final(arena).wf(),
            final(arena)@ == old(arena)@.update(self.at(), old(arena)@[self.at()].remove(key)),
            final(arena).weak_registry() == old(arena).weak_registry(),
    {
        arena.remove_at(self.position(), key)
    }

    /// The number of slots of the table.
    pub fn size<S: EqualityStrategy>(self, arena: &TableArena<S>) -> (n: usize)
        requires
            arena.wf(),
            arena.has(self),
        ensures
            n == arena@[self.at()].capacity,
    {
        arena.table(self).size()
    }

    /// Removes every entry from the table.
    pub fn clear<S: EqualityStrategy>(self, arena: &mut TableArena<S>)
        requires
            old(arena).wf(),
            old(arena).has(self),
        ensures
            final(arena).wf(),
            final(arena)@ == old(arena)@.update(self.at(), old(arena)@[self.at()].cleared()),
            final(arena).weak_registry() == old(arena).weak_registry(),
    {
        arena.clear_at(self.position())
    }

    /// Sweeps the table: removes the entries that its weakness does not keep,
    /// given what `is_live` says of their keys and values.
    pub fn sweep<S: EqualityStrategy, F: Fn(LispObject) -> bool>(self, arena: &mut TableArena<S>, is_live: F)
        requires
            old(arena).wf(),
            old(arena).has(self),
            forall|v: LispObject| call_requires(is_live, (v,)),
        ensures
            final(arena).wf(),
            final(arena).weak_registry() == old(arena).weak_registry(),
            exists|key_live: Seq<bool>, value_live: Seq<bool>|
                #![trigger old(arena)@[self.at()].sweep_upto(key_live, value_live, old(arena)@[self.at()].capacity)]
                {
                    &&& key_live.len() == old(arena)@[self.at()].capacity
                    &&& value_live.len() == old(arena)@[self.at()].capacity
                    &&& crate::hashtable::answers(is_live, old(arena)@[self.at()].slots, key_live, value_live)
                    &&& final(arena)@ == old(arena)@.update(
                        self.at(),
                        old(arena)@[self.at()].sweep_upto(
                            key_live,
                            value_live,
                            old(arena)@[self.at()].capacity,
                        ),
                    )
                },
    {
        arena.sweep_at(self.position(), is_live)
    }

    /// The table that follows this one in the registry of weak tables; the
    /// empty handle after the last, and for a table that is not weak.
    pub fn get_next_weak<S: EqualityStrategy>(self, arena: &TableArena<S>) -> (next: LispHashTableRef)
        requires
            arena.wf(),
            arena.has(self),
        ensures
            next == arena.next_weak_of(self.at()),
    {
        arena.table(self).get_next_weak()
    }

    /// Makes `other` the table that follows this one in the registry of weak
    /// tables: the tables that stood between the two are unlinked and leave
    /// the registry. This is how a sweeper drops tables that nothing refers
    /// to any more. `other` must come after this table, or be the empty
    /// handle, which ends the registry here.
    pub fn set_next_weak<S: EqualityStrategy>(self, arena: &mut TableArena<S>, other: LispHashTableRef)
        requires
            old(arena).wf(),
            old(arena).has(self),
            old(arena).weak_registry().contains(self.at()),
            other.index matches Some(o) ==> old(arena).weak_registry().contains(o as int) && old(arena).weak_registry().index_of(self.at()) < old(arena).weak_registry().index_of(o as int),
        ensures
            final(arena).wf(),
            final(arena)@ == old(arena)@,
            final(arena).weak_registry() == skipped(
                old(arena).weak_registry(),
                old(arena).weak_registry().index_of(self.at()),
                other,
            ),
    {
        arena.skip_after(self.position(), other)
    }

    /// The hash codes of the slots of the table, nothing for a free slot.
    pub fn get_hash<S: EqualityStrategy>(self, arena: &TableArena<S>) -> (hashes: Vec<Option<u64>>)
        requires
            arena.wf(),
            arena.has(self),
        ensures
            hashes@.len() == arena@[self.at()].capacity,
            forall|s: int|
                0 <= s < arena@[self.at()].capacity ==> #[trigger] hashes@[s] == match arena@[self.at()].slots[s] {
                    Some(e) => Some(e.hash),
                    None => None,
                },
    {
        arena.table(self).get_hash()
    }

    /// For every slot of the table the slot that follows it, on the chain of
    /// its bucket or on the free list.
    pub fn get_next<S: EqualityStrategy>(self, arena: &TableArena<S>) -> (next: Vec<isize>)
        requires
            arena.wf(),
            arena.has(self),
        ensures
            next@.len() == arena@[self.at()].capacity,
            forall|b: int, i: int|
                0 <= b < arena@[self.at()].capacity && 0 <= i < arena@[self.at()].chains[b].len()
                    ==> next@[arena@[self.at()].chains[b][i]] == #[trigger] link_after(
                    arena@[self.at()].chains[b],
                    i,
                ),
            forall|i: int|
                0 <= i < arena@[self.at()].free.len() ==> next@[arena@[self.at()].free[i]]
                    == #[trigger] link_after(arena@[self.at()].free, i),
            next@ == arena.slot_links_of(self.at()),
    {
        arena.table(self).get_next()
    }

    /// For every bucket of the table the first slot of its chain.
    pub fn get_index<S: EqualityStrategy>(self, arena: &TableArena<S>) -> (index: Vec<isize>)
        requires
            arena.wf(),
            arena.has(self),
        ensures
            index@.len() == arena@[self.at()].capacity,
            forall|b: int|
                0 <= b < arena@[self.at()].capacity ==> #[trigger] index@[b] == head_of(
                    arena@[self.at()].chains[b],
                ),
            index@ == arena.bucket_heads_of(self.at()),
    {
        arena.table(self).get_index()
    }

    /// The keys and values of the slots of the table, side by side.
    pub fn get_key_and_value<S: EqualityStrategy>(self, arena: &TableArena<S>) -> (pairs: Vec<LispObject>)
        requires
            arena.wf(),
            arena.has(self),
        ensures
            pairs@.len() == 2 * arena@[self.at()].capacity,
            forall|j: int|
                0 <= j < 2 * arena@[self.at()].capacity ==> #[trigger] pairs@[j] == match arena@[self.at()].slots[j
                    / 2] {
                    Some(e) => if j % 2 == 0 {
                        e.key
                    } else {
                        e.value
                    },
                    None => LispObject::Nil,
                },
    {
        arena.table(self).get_key_and_value()
    }

    /// Replaces the hash codes of the slots of the table. Every slot must
    /// stay occupied or free as it is, and every entry in its bucket.
    pub fn set_hash<S: EqualityStrategy>(self, arena: &mut TableArena<S>, hash: Vec<Option<u64>>)
        requires
            old(arena).wf(),
            old(arena).has(self),
            hash@.len() == old(arena)@[self.at()].capacity,
            forall|s: int|
                0 <= s < hash@.len() ==> (#[trigger] hash@[s] is Some <==> old(arena)@[self.at()].slots[s] is Some)
                    && (hash@[s] is Some ==> old(arena)@[self.at()].bucket(hash@[s]->Some_0) == old(arena)@[self.at()].bucket(old(arena)@[self.at()].slots[s]->Some_0.hash)),
        ensures
            final(arena).wf(),
            final(arena)@ == old(arena)@.update(
                self.at(),
                TableModel {
                    slots: Seq::new(
                        old(arena)@[self.at()].capacity,
                        |s: int|
                            match old(arena)@[self.at()].slots[s] {
                                Some(e) => Some(Entry { hash: hash@[s]->Some_0, ..e }),
                                None => None,
                            },
                    ),
                    ..old(arena)@[self.at()]
                },
            ),
            final(arena).weak_registry() == old(arena).weak_registry(),
    {
        arena.set_hash_at(self.position(), hash)
    }

    /// Replaces the array of links between the slots of the table by
    /// `next`, which the table holds from then on. The new links must be
    /// those of the chains and of the free list of the table, so that the
    /// table stands for the same entries as before. The arrays of the other
    /// tables stay.
    pub fn set_next<S: EqualityStrategy>(self, arena: &mut TableArena<S>, next: Vec<isize>)
        requires
            old(arena).wf(),
            old(arena).has(self),
            next@.len() == old(arena)@[self.at()].capacity,
            forall|b: int, i: int|
                0 <= b < old(arena)@[self.at()].capacity && 0 <= i < old(arena)@[self.at()].chains[b].len()
                    ==> next@[old(arena)@[self.at()].chains[b][i]] == #[trigger] link_after(
                    old(arena)@[self.at()].chains[b],
                    i,
                ),
            forall|i: int|
                0 <= i < old(arena)@[self.at()].free.len() ==> next@[old(arena)@[self.at()].free[i]]
                    == #[trigger] link_after(old(arena)@[self.at()].free, i),
        ensures
            final(arena).wf(),
            final(arena)@ == old(arena)@,
            final(arena).weak_registry() == old(arena).weak_registry(),
            final(arena).slot_links_of(self.at()) == next@,
            final(arena).bucket_heads_of(self.at()) == old(arena).bucket_heads_of(self.at()),
            forall|j: int|
                0 <= j < old(arena)@.len() && j != self.at() ==> #[trigger] final(arena).slot_links_of(j) == old(
                    arena,
                ).slot_links_of(j) && final(arena).bucket_heads_of(j) == old(arena).bucket_heads_of(j),
    {
        let i = self.position();
        arena.set_next_at(i, next);
        proof {
            assert forall|j: int| 0 <= j < old(arena)@.len() && j != self.at() implies #[trigger] arena.slot_links_of(
                j,
            ) == old(arena).slot_links_of(j) && arena.bucket_heads_of(j) == old(arena).bucket_heads_of(j) by {
                assert(j != i);
            }
        }
    }

    /// Replaces the array of first slots of the buckets of the table by
    /// `index`, which the table holds from then on. The new first slots
    /// must be those of the chains of the table, so that the table stands
    /// for the same entries as before. The arrays of the other tables stay.
    pub fn set_index<S: EqualityStrategy>(self, arena: &mut TableArena<S>, index: Vec<isize>)
        requires
            old(arena).wf(),
            old(arena).has(self),
            index@.len() == old(arena)@[self.at()].capacity,
            forall|b: int|
                0 <= b < old(arena)@[self.at()].capacity ==> #[trigger] index@[b] == head_of(
                    old(arena)@[self.at()].chains[b],
                ),
        ensures
            final(arena).wf(),
            final(arena)@ == old(arena)@,
            final(arena).weak_registry() == old(arena).weak_registry(),
            final(arena).bucket_heads_of(self.at()) == index@,
            final(arena).slot_links_of(self.at()) == old(arena).slot_links_of(self.at()),
            forall|j: int|
                0 <= j < old(arena)@.len() && j != self.at() ==> #[trigger] final(arena).slot_links_of(j) == old(
                    arena,
                ).slot_links_of(j) && final(arena).bucket_heads_of(j) == old(arena).bucket_heads_of(j),
    {
        let i = self.position();
        arena.set_index_at(i, index);
        proof {
            assert forall|j: int| 0 <= j < old(arena)@.len() && j != self.at() implies #[trigger] arena.slot_links_of(
                j,
            ) == old(arena).slot_links_of(j) && arena.bucket_heads_of(j) == old(arena).bucket_heads_of(j) by {
                assert(j != i);
            }
        }
    }

    /// Replaces the keys and values of the slots of the table, which stand
    /// side by side in `pairs`. A free slot must have the terminator for
    /// both.
    pub fn set_key_and_value<S: EqualityStrategy>(self, arena: &mut TableArena<S>, pairs: Vec<LispObject>)
        requires
            old(arena).wf(),
            old(arena).has(self),
            pairs@.len() == 2 * old(arena)@[self.at()].capacity,
            forall|s: int|
                0 <= s < old(arena)@[self.at()].capacity && (#[trigger] old(arena)@[self.at()].slots[s]) is None
                    ==> pairs@[2 * s] == LispObject::Nil && pairs@[2 * s + 1] == LispObject::Nil,
        ensures
            final(arena).wf(),
            final(arena)@ == old(arena)@.update(
                self.at(),
                TableModel {
                    slots: Seq::new(
                        old(arena)@[self.at()].capacity,
                        |s: int|
                            match old(arena)@[self.at()].slots[s] {
                                Some(e) => Some(Entry { key: pairs@[2 * s], value: pairs@[2 * s + 1], ..e }),
                                None => None,
                            },
                    ),
                    ..old(arena)@[self.at()]
                },
            ),
            final(arena).weak_registry() == old(arena).weak_registry(),
    {
        arena.set_key_and_value_at(self.position(), pairs)
    }

    /// Which part of an entry keeps it alive.
    pub fn get_weak<S: EqualityStrategy>(self, arena: &TableArena<S>) -> (kind: WeakKind)
        requires
            arena.wf(),
            arena.has(self),
        ensures
            kind == arena@[self.at()].weak_kind,
    {
        arena.table(self).get_weak()
    }

    /// The value in slot `idx`; the terminator if the slot is free.
    pub fn get_hash_value<S: EqualityStrategy>(self, arena: &TableArena<S>, idx: isize) -> (value: LispObject)
        requires
            arena.wf(),
            arena.has(self),
            0 <= idx < arena@[self.at()].capacity,
        ensures
            value == match arena@[self.at()].slots[idx as int] {
                Some(e) => e.value,
                None => LispObject::Nil,
            },
    {
        arena.table(self).get_hash_value(idx)
    }

    /// Replaces the value of the entry in slot `idx`. A free slot stays free.
    pub fn set_hash_value<S: EqualityStrategy>(self, arena: &mut TableArena<S>, idx: isize, value: LispObject)
        requires
            old(arena).wf(),
            old(arena).has(self),
            0 <= idx < old(arena)@[self.at()].capacity,
        ensures
            final(arena).wf(),
            final(arena)@ == old(arena)@.update(
                self.at(),
                TableModel {
                    slots: match old(arena)@[self.at()].slots[idx as int] {
                        Some(e) => old(arena)@[self.at()].slots.update(idx as int, Some(Entry { value, ..e })),
                        None => old(arena)@[self.at()].slots,
                    },
                    ..old(arena)@[self.at()]
                },
            ),
            final(arena).weak_registry() == old(arena).weak_registry(),
    {
        arena.set_value_at(self.position(), idx, value)
    }

    /// The key in slot `idx`; the terminator if the slot is free.
    pub fn get_hash_key<S: EqualityStrategy>(self, arena: &TableArena<S>, idx: isize) -> (key: LispObject)
        requires
            arena.wf(),
            arena.has(self),
            0 <= idx < arena@[self.at()].capacity,
        ensures
            key == match arena@[self.at()].slots[idx as int] {
                Some(e) => e.key,
                None => LispObject::Nil,
            },
    {
        arena.table(self).get_hash_key(idx)
    }

    /// The hash code of the entry in slot `idx`; nothing if the slot is free.
    pub fn get_hash_hash<S: EqualityStrategy>(self, arena: &TableArena<S>, idx: isize) -> (hash: Option<u64>)
        requires
            arena.wf(),
            arena.has(self),
            0 <= idx < arena@[self.at()].capacity,
        ensures
            hash == match arena@[self.at()].slots[idx as int] {
                Some(e) => Some(e.hash),
                None => None,
            },
    {
        arena.table(self).get_hash_hash(idx)
    }

    /// A walker over the slot indices of the table.
    pub fn indices(&self) -> (it: HashTableIter)
        ensures
            it.table == *self,
            it.current == 0,
    {
        HashTableIter { table: *self, current: 0 }
    }

    /// A walker over the keys and values of the entries of the table.
    pub fn iter(&self) -> (it: KeyAndValueIter)
        ensures
            it.0.table == *self,
            it.0.current == 0,
    {
        KeyAndValueIter(self.indices())
    }
}

/// A walker over the slot indices of a table, from zero up to the number of
/// slots that the table has when it is asked.
pub struct HashTableIter {
    pub table: LispHashTableRef,
    pub current: usize,
}

impl HashTableIter {
    /// The next slot index; nothing once every slot has been handed out.
    pub fn next<S: EqualityStrategy>(&mut self, arena: &TableArena<S>) -> (r: Option<isize>)
        requires
            arena.wf(),
            arena.has(old(self).table),
        ensures
            final(self).table == old(self).table,
            old(self).current < arena@[old(self).table.at()].capacity ==> r == Some(old(self).current as isize)
                && final(self).current == old(self).current + 1,
            old(self).current >= arena@[old(self).table.at()].capacity ==> r is None && final(self).current
                == old(self).current,
    {
        // The size is read anew on every call: the table may have grown since
        // the walker was made.
        let size = self.table.size(arena);
        proof {
            arena.lemma_registry();
        }
        if self.current < size {
            let cur = self.current;
            self.current = self.current + 1;
            Some(cur as isize)
        } else {
            None
        }
    }
}

/// The first occupied slot at or after `from`; the number of slots if there
/// is none.
pub open spec fn next_occupied(slots: Seq<Option<Entry>>, from: int) -> int
    decreases slots.len() - from,
{
    if from < 0 || from >= slots.len() {
        slots.len() as int
    } else if slots[from] is Some {
        from
    } else {
        next_occupied(slots, from + 1)
    }
}

/// A walker over the keys and values of the entries of a table, in the order
/// of their slots.
pub struct KeyAndValueIter(pub HashTableIter);

impl KeyAndValueIter {
    /// The key and the value of the next entry; nothing once every slot has
    /// been passed.
    pub fn next<S: EqualityStrategy>(&mut self, arena: &TableArena<S>) -> (r: Option<(LispObject, LispObject)>)
        requires
            arena.wf(),
            arena.has(old(self).0.table),
        ensures
            final(self).0.table == old(self).0.table,
            ({
                let slots = arena@[old(self).0.table.at()].slots;
                let n = next_occupied(slots, old(self).0.current as int);
                if old(self).0.current < slots.len() {
                    if n < slots.len() {
                        r == Some((slots[n]->Some_0.key, slots[n]->Some_0.value)) && final(self).0.current == n + 1
                    } else {
                        r is None && final(self).0.current == slots.len()
                    }
                } else {
                    r is None && final(self).0.current == old(self).0.current
                }
            }),
    {
        let ghost slots = arena@[self.0.table.at()].slots;
        proof {
            arena.lemma_registry();
        }
        loop
            invariant
                arena.wf(),
                arena.has(self.0.table),
                self.0.table == old(self).0.table,
                slots == arena@[self.0.table.at()].slots,
                slots.len() == arena@[self.0.table.at()].capacity,
                old(self).0.current <= self.0.current,
                old(self).0.current < slots.len() ==> self.0.current <= slots.len(),
                old(self).0.current >= slots.len() ==> self.0.current == old(self).0.current,
                next_occupied(slots, old(self).0.current as int) == next_occupied(slots, self.0.current as int)
                    || (self.0.current >= slots.len() && next_occupied(slots, old(self).0.current as int)
                    == slots.len()),
            decreases slots.len() - self.0.current,
        {
            match self.0.next(arena) {
                Some(idx) => {
                    if self.0.table.get_hash_hash(arena, idx).is_some() {
                        let key = self.0.table.get_hash_key(arena, idx);
                        let value = self.0.table.get_hash_value(arena, idx);
                        return Some((key, value));
                    }
                },
                None => {
                    return None;
                },
            }
        }
    }
}

} // verus!
