use lisp_core::hash_fns::{
    clrhash, copy_hash_table, gethash, hash_table_count, hash_table_p, hash_table_rehash_threshold,
    hash_table_size, hash_table_test, hash_table_weakness, maphash, puthash, remhash,
};
use lisp_core::hashtable::{AssocTable, LispHashTableRef};
use lisp_core::lisp::{LispError, LispObject, TypePredicate, SYM_EQ};
use lisp_core::strategies::{payload_of, EqTest, FoldedEqTest};
use lisp_core::table_arena::TableArena;
use lisp_core::table_model::{EqualityStrategy, HashLookupResult, Ratio, RehashSize, WeakKind};

fn fix(n: i64) -> LispObject {
    LispObject::Fixnum(n)
}

fn four_fifths() -> Ratio {
    Ratio { num: 4, den: 5 }
}

fn half_more() -> RehashSize {
    RehashSize::Factor(Ratio { num: 3, den: 2 })
}

fn table(capacity: usize) -> AssocTable<EqTest> {
    AssocTable::new(EqTest, capacity, four_fifths(), half_more(), WeakKind::Strong)
}

fn put_new<S: EqualityStrategy>(t: &mut AssocTable<S>, key: LispObject, value: LispObject) -> isize {
    match t.lookup(key) {
        HashLookupResult::Missing(hash) => t.put(key, value, hash),
        HashLookupResult::Found(_) => panic!("the key is there already"),
    }
}

fn value_of<S: EqualityStrategy>(t: &AssocTable<S>, key: LispObject) -> Option<LispObject> {
    match t.lookup(key) {
        HashLookupResult::Found(slot) => Some(t.get_hash_value(slot)),
        HashLookupResult::Missing(_) => None,
    }
}

#[test]
fn lookup_in_a_table_without_slots_reports_the_hash() {
    let t = table(0);
    assert_eq!(t.lookup(fix(42)), HashLookupResult::Missing(42));
    assert_eq!(t.size(), 0);
    assert_eq!(t.count(), 0);
}

#[test]
fn missing_carries_the_hash_of_the_key() {
    let t = table(8);
    assert_eq!(t.lookup(fix(13)), HashLookupResult::Missing(payload_of(fix(13))));
    assert_eq!(t.lookup(fix(-1)), HashLookupResult::Missing(0));
    assert_eq!(t.lookup(LispObject::Symbol(5)), HashLookupResult::Missing(5));
}

#[test]
fn put_then_lookup_round_trips_for_every_key() {
    let mut t = table(8);
    let keys: Vec<i64> = vec![17, 3, 99, -4, 0, 1000, 8, 16, 24, 5, 6, 7];
    for (i, k) in keys.iter().enumerate() {
        put_new(&mut t, fix(*k), fix(i as i64 * 10));
    }
    assert_eq!(t.count(), keys.len());
    for (i, k) in keys.iter().enumerate() {
        assert_eq!(value_of(&t, fix(*k)), Some(fix(i as i64 * 10)));
    }
    assert_eq!(value_of(&t, fix(12345)), None);
}

#[test]
fn round_trip_does_not_depend_on_the_insertion_order() {
    let keys: Vec<i64> = (0..40).collect();
    let mut forward = table(4);
    let mut backward = table(4);
    for k in keys.iter() {
        put_new(&mut forward, fix(*k), fix(k * k));
    }
    for k in keys.iter().rev() {
        put_new(&mut backward, fix(*k), fix(k * k));
    }
    for k in keys.iter() {
        assert_eq!(value_of(&forward, fix(*k)), Some(fix(k * k)));
        assert_eq!(value_of(&backward, fix(*k)), Some(fix(k * k)));
    }
    assert_eq!(forward.count(), 40);
    assert_eq!(backward.count(), 40);
}

#[test]
fn colliding_keys_share_a_chain_and_are_all_found() {
    let mut t = AssocTable::new(
        FoldedEqTest { range: 2 },
        8,
        four_fifths(),
        half_more(),
        WeakKind::Strong,
    );
    for k in 0..6 {
        put_new(&mut t, fix(k), fix(100 + k));
    }
    for k in 0..6 {
        assert_eq!(value_of(&t, fix(k)), Some(fix(100 + k)));
    }
    // Only two buckets are in use.
    let index = t.get_index();
    assert_eq!(index.iter().filter(|h| **h >= 0).count(), 2);
    // The entry put last stands at the head of its chain.
    assert_eq!(t.lookup(fix(5)), HashLookupResult::Found(index[1]));
    assert_eq!(t.lookup(fix(4)), HashLookupResult::Found(index[0]));
}

#[test]
fn a_single_hash_code_still_finds_every_key() {
    let mut t = AssocTable::new(
        FoldedEqTest { range: 0 },
        2,
        Ratio { num: 1, den: 1 },
        RehashSize::Increment(1),
        WeakKind::Strong,
    );
    for k in 0..10 {
        put_new(&mut t, fix(k), fix(-k));
    }
    for k in 0..10 {
        assert_eq!(value_of(&t, fix(k)), Some(fix(-k)));
    }
    assert_eq!(t.lookup(fix(10)), HashLookupResult::Missing(0));
}

#[test]
fn seventh_key_crosses_the_threshold_of_a_table_of_eight() {
    let mut t = table(8);
    for k in 0..6 {
        put_new(&mut t, fix(k), fix(k + 100));
        // Six entries are within eight times four fifths.
        assert_eq!(t.size(), 8);
    }
    put_new(&mut t, fix(6), fix(106));
    // Seven are not: the table has grown once, by its factor.
    assert_eq!(t.size(), 12);
    assert_eq!(t.count(), 7);
    for k in 0..7 {
        assert_eq!(value_of(&t, fix(k)), Some(fix(k + 100)));
    }
}

#[test]
fn resize_happens_once_per_crossing_and_keeps_slots() {
    let mut t = table(8);
    let mut slots = Vec::new();
    let mut sizes = Vec::new();
    for k in 0..12 {
        slots.push(put_new(&mut t, fix(k), fix(k)));
        sizes.push(t.size());
    }
    // 7 > 6.4 grows 8 to 12; 10 > 9.6 grows 12 to 18.
    assert_eq!(sizes, vec![8, 8, 8, 8, 8, 8, 12, 12, 12, 18, 18, 18]);
    for k in 0..12 {
        assert_eq!(t.lookup(fix(k)), HashLookupResult::Found(slots[k as usize]));
        assert_eq!(t.get_hash_key(slots[k as usize]), fix(k));
    }
}

#[test]
fn growth_by_increment_and_from_no_slots() {
    let mut t = AssocTable::new(
        EqTest,
        0,
        Ratio { num: 1, den: 2 },
        RehashSize::Increment(3),
        WeakKind::Strong,
    );
    put_new(&mut t, fix(1), fix(1));
    assert_eq!(t.size(), 3);
    put_new(&mut t, fix(2), fix(2));
    // Two entries in three slots are above one half.
    assert_eq!(t.size(), 6);
    assert_eq!(value_of(&t, fix(1)), Some(fix(1)));
    assert_eq!(value_of(&t, fix(2)), Some(fix(2)));
}

#[test]
fn a_factor_that_does_not_grow_adds_one_slot() {
    let mut t = AssocTable::new(
        EqTest,
        1,
        Ratio { num: 1, den: 1 },
        RehashSize::Factor(Ratio { num: 1, den: 1 }),
        WeakKind::Strong,
    );
    put_new(&mut t, fix(1), fix(1));
    assert_eq!(t.size(), 1);
    put_new(&mut t, fix(2), fix(2));
    assert_eq!(t.size(), 2);
}

#[test]
fn removing_a_missing_key_changes_nothing() {
    let mut t = table(8);
    for k in 0..5 {
        put_new(&mut t, fix(k), fix(k * 2));
    }
    let before: Vec<HashLookupResult> = (0..10).map(|k| t.lookup(fix(k))).collect();
    t.remove(fix(77));
    t.remove(fix(77));
    assert_eq!(t.count(), 5);
    let after: Vec<HashLookupResult> = (0..10).map(|k| t.lookup(fix(k))).collect();
    assert_eq!(before, after);
}

#[test]
fn remove_unlinks_head_middle_and_tail_of_a_chain() {
    for victim in 0..3 {
        let mut t = AssocTable::new(
            FoldedEqTest { range: 1 },
            8,
            four_fifths(),
            half_more(),
            WeakKind::Strong,
        );
        for k in 0..3 {
            put_new(&mut t, fix(k), fix(k + 50));
        }
        t.remove(fix(victim));
        assert_eq!(t.count(), 2);
        for k in 0..3 {
            let expected = if k == victim { None } else { Some(fix(k + 50)) };
            assert_eq!(value_of(&t, fix(k)), expected);
        }
        assert_eq!(t.size(), 8);
    }
}

#[test]
fn a_freed_slot_is_used_again_first() {
    let mut t = table(8);
    let a = put_new(&mut t, fix(1), fix(1));
    let b = put_new(&mut t, fix(2), fix(2));
    assert_eq!((a, b), (0, 1));
    t.remove(fix(1));
    assert_eq!(t.get_hash_key(a), LispObject::Nil);
    assert_eq!(t.get_hash_hash(a), None);
    assert_eq!(put_new(&mut t, fix(3), fix(3)), a);
    assert_eq!(t.get_hash_hash(a), Some(3));
}

#[test]
fn clear_empties_the_table_and_keeps_its_settings() {
    let mut t = AssocTable::new(EqTest, 8, four_fifths(), half_more(), WeakKind::Value);
    for k in 0..5 {
        put_new(&mut t, fix(k), fix(k));
    }
    t.clear();
    assert_eq!(t.count(), 0);
    assert_eq!(t.size(), 8);
    assert_eq!(t.get_weak(), WeakKind::Value);
    assert_eq!(t.rehash_threshold(), four_fifths());
    for k in 0..5 {
        assert_eq!(value_of(&t, fix(k)), None);
    }
    assert_eq!(put_new(&mut t, fix(9), fix(9)), 0);
}

#[test]
fn a_copy_is_independent_of_its_source() {
    let mut source = table(8);
    for k in 0..5 {
        put_new(&mut source, fix(k), fix(k));
    }
    let mut copy = source.copy();
    put_new(&mut copy, fix(100), fix(100));
    copy.remove(fix(0));
    assert_eq!(source.count(), 5);
    assert_eq!(copy.count(), 5);
    assert_eq!(value_of(&source, fix(100)), None);
    assert_eq!(value_of(&source, fix(0)), Some(fix(0)));
    assert_eq!(value_of(&copy, fix(100)), Some(fix(100)));
    assert_eq!(value_of(&copy, fix(0)), None);
    for k in 1..5 {
        assert_eq!(source.lookup(fix(k)), copy.lookup(fix(k)));
    }
}

#[test]
fn arrays_show_the_slots_side_by_side() {
    let mut t = table(3);
    put_new(&mut t, fix(7), fix(70));
    assert_eq!(
        t.get_key_and_value(),
        vec![
            fix(7),
            fix(70),
            LispObject::Nil,
            LispObject::Nil,
            LispObject::Nil,
            LispObject::Nil
        ]
    );
    assert_eq!(t.get_hash(), vec![Some(7), None, None]);
    // 7 mod 3 is bucket 1; slot 0 ends its chain; slots 1 and 2 are free.
    assert_eq!(t.get_index(), vec![-1, 0, -1]);
    assert_eq!(t.get_next(), vec![-1, 2, -1]);
}

#[test]
fn set_hash_value_replaces_the_value_of_an_entry_only() {
    let mut t = table(4);
    let slot = put_new(&mut t, fix(1), fix(10));
    t.set_hash_value(slot, fix(11));
    assert_eq!(value_of(&t, fix(1)), Some(fix(11)));
    t.set_hash_value(3, fix(99));
    assert_eq!(t.get_hash_value(3), LispObject::Nil);
    assert_eq!(t.count(), 1);
}

fn weak_table(kind: WeakKind) -> AssocTable<EqTest> {
    let mut t = AssocTable::new(EqTest, 8, four_fifths(), half_more(), kind);
    // live key and value, dead key, dead value, both dead
    put_new(&mut t, fix(1), fix(2));
    put_new(&mut t, fix(-1), fix(4));
    put_new(&mut t, fix(3), fix(-2));
    put_new(&mut t, fix(-3), fix(-4));
    t
}

fn survivors(t: &AssocTable<EqTest>) -> Vec<bool> {
    [1, -1, 3, -3]
        .iter()
        .map(|k| value_of(t, fix(*k)).is_some())
        .collect()
}

fn positive(v: LispObject) -> bool {
    matches!(v, LispObject::Fixnum(n) if n > 0)
}

#[test]
fn sweep_follows_the_weakness_of_the_table() {
    let cases = [
        (WeakKind::Strong, vec![true, true, true, true]),
        (WeakKind::Key, vec![true, false, true, false]),
        (WeakKind::Value, vec![true, true, false, false]),
        (WeakKind::KeyOrValue, vec![true, false, false, false]),
        (WeakKind::KeyAndValue, vec![true, true, true, false]),
    ];
    for (kind, expected) in cases {
        let mut t = weak_table(kind);
        t.sweep(positive);
        assert_eq!(survivors(&t), expected);
        assert_eq!(t.count(), expected.iter().filter(|b| **b).count());
        assert_eq!(t.get_weak(), kind);
    }
}

#[test]
fn handles_reach_tables_through_the_arena() {
    let mut arena: TableArena<EqTest> = TableArena::new();
    let t = LispHashTableRef::allocate(
        &mut arena,
        EqTest,
        8,
        four_fifths(),
        half_more(),
        WeakKind::Strong,
    );
    assert!(arena.contains(t));
    assert!(!arena.contains(LispHashTableRef::empty()));
    assert!(LispHashTableRef::empty().is_null());
    assert_eq!(puthash(fix(1), fix(10), t, &mut arena), fix(10));
    assert_eq!(puthash(fix(2), fix(20), t, &mut arena), fix(20));
    assert_eq!(puthash(fix(1), fix(11), t, &mut arena), fix(11));
    assert_eq!(hash_table_count(t, &arena), 2);
    assert_eq!(gethash(fix(1), t, LispObject::Nil, &arena), fix(11));
    assert_eq!(gethash(fix(3), t, fix(-1), &arena), fix(-1));
    remhash(fix(1), t, &mut arena);
    assert_eq!(gethash(fix(1), t, fix(-1), &arena), fix(-1));
    assert_eq!(hash_table_count(t, &arena), 1);
    assert_eq!(hash_table_size(t, &arena), 8);
    assert_eq!(hash_table_rehash_threshold(t, &arena), four_fifths());
    assert_eq!(hash_table_test(t, &arena), LispObject::Symbol(SYM_EQ));
    assert_eq!(hash_table_weakness(t, &arena), WeakKind::Strong);
    assert_eq!(clrhash(t, &mut arena), t);
    assert_eq!(hash_table_count(t, &arena), 0);
    assert_eq!(t.size(&arena), 8);
}

#[test]
fn handle_methods_mirror_the_table() {
    let mut arena: TableArena<EqTest> = TableArena::new();
    let t = LispHashTableRef::allocate(
        &mut arena,
        EqTest,
        4,
        four_fifths(),
        half_more(),
        WeakKind::Strong,
    );
    let hash = match t.lookup(&arena, fix(6)) {
        HashLookupResult::Missing(h) => h,
        HashLookupResult::Found(_) => panic!("found in an empty table"),
    };
    assert_eq!(hash, 6);
    let slot = t.put(&mut arena, fix(6), fix(60), hash);
    assert_eq!(t.lookup(&arena, fix(6)), HashLookupResult::Found(slot));
    assert_eq!(t.get_hash_key(&arena, slot), fix(6));
    assert_eq!(t.get_hash_value(&arena, slot), fix(60));
    assert_eq!(t.get_hash_hash(&arena, slot), Some(6));
    t.set_hash_value(&mut arena, slot, fix(61));
    assert_eq!(t.get_hash_value(&arena, slot), fix(61));
    assert_eq!(t.get_hash(&arena), vec![Some(6), None, None, None]);
    assert_eq!(t.get_index(&arena), vec![-1, -1, 0, -1]);
    assert_eq!(t.get_next(&arena), vec![-1, 2, 3, -1]);
    assert_eq!(t.get_key_and_value(&arena).len(), 8);
    assert_eq!(t.get_weak(&arena), WeakKind::Strong);
    t.remove(&mut arena, fix(6));
    assert_eq!(t.lookup(&arena, fix(6)), HashLookupResult::Missing(6));
    t.clear(&mut arena);
    assert_eq!(arena.table(t).count(), 0);
}

#[test]
fn iterators_walk_slots_and_entries() {
    let mut arena: TableArena<EqTest> = TableArena::new();
    let t = LispHashTableRef::allocate(
        &mut arena,
        EqTest,
        4,
        Ratio { num: 1, den: 1 },
        half_more(),
        WeakKind::Strong,
    );
    puthash(fix(1), fix(10), t, &mut arena);
    puthash(fix(2), fix(20), t, &mut arena);
    puthash(fix(3), fix(30), t, &mut arena);
    remhash(fix(2), t, &mut arena);
    let mut indices = t.indices();
    let mut seen = Vec::new();
    while let Some(i) = indices.next(&arena) {
        seen.push(i);
    }
    assert_eq!(seen, vec![0, 1, 2, 3]);
    assert_eq!(indices.next(&arena), None);
    let mut pairs = t.iter();
    assert_eq!(pairs.next(&arena), Some((fix(1), fix(10))));
    assert_eq!(pairs.next(&arena), Some((fix(3), fix(30))));
    assert_eq!(pairs.next(&arena), None);
    assert_eq!(pairs.next(&arena), None);
    assert_eq!(maphash(t, &arena), vec![(fix(1), fix(10)), (fix(3), fix(30))]);
}

#[test]
fn index_walker_sees_a_table_that_grows() {
    let mut arena: TableArena<EqTest> = TableArena::new();
    let t = LispHashTableRef::allocate(
        &mut arena,
        EqTest,
        1,
        Ratio { num: 1, den: 1 },
        RehashSize::Increment(2),
        WeakKind::Strong,
    );
    let mut indices = t.indices();
    assert_eq!(indices.next(&arena), Some(0));
    assert_eq!(indices.next(&arena), None);
    puthash(fix(1), fix(1), t, &mut arena);
    puthash(fix(2), fix(2), t, &mut arena);
    assert_eq!(indices.next(&arena), Some(1));
    assert_eq!(indices.next(&arena), Some(2));
    assert_eq!(indices.next(&arena), None);
}

#[test]
fn copy_of_a_table_in_the_arena_is_independent() {
    let mut arena: TableArena<EqTest> = TableArena::new();
    let t = LispHashTableRef::allocate(
        &mut arena,
        EqTest,
        8,
        four_fifths(),
        half_more(),
        WeakKind::Strong,
    );
    puthash(fix(1), fix(10), t, &mut arena);
    let copy = copy_hash_table(t, &mut arena);
    assert_ne!(copy, t);
    puthash(fix(2), fix(20), copy, &mut arena);
    assert_eq!(hash_table_count(t, &arena), 1);
    assert_eq!(hash_table_count(copy, &arena), 2);
    assert_eq!(gethash(fix(2), t, LispObject::Nil, &arena), LispObject::Nil);
    assert_eq!(gethash(fix(1), copy, LispObject::Nil, &arena), fix(10));
    assert_eq!(arena.weak_head(), LispHashTableRef::empty());
    assert_eq!(copy.get_next_weak(&arena), LispHashTableRef::empty());
}

fn registry(arena: &TableArena<EqTest>) -> Vec<LispHashTableRef> {
    let mut out = Vec::new();
    let mut cur = arena.weak_head();
    while !cur.is_null() {
        out.push(cur);
        cur = cur.get_next_weak(arena);
    }
    out
}

#[test]
fn copy_of_a_weak_table_is_registered_ahead_of_its_source() {
    let mut arena: TableArena<EqTest> = TableArena::new();
    let make = |arena: &mut TableArena<EqTest>, kind: WeakKind| {
        LispHashTableRef::allocate(arena, EqTest, 4, four_fifths(), half_more(), kind)
    };
    let rest = make(&mut arena, WeakKind::Key);
    let strong = make(&mut arena, WeakKind::Strong);
    let old = make(&mut arena, WeakKind::Value);
    let first = make(&mut arena, WeakKind::KeyAndValue);
    assert_eq!(registry(&arena), vec![first, old, rest]);
    let new = copy_hash_table(old, &mut arena);
    assert_eq!(registry(&arena), vec![first, new, old, rest]);
    let head_copy = copy_hash_table(first, &mut arena);
    assert_eq!(registry(&arena), vec![head_copy, first, new, old, rest]);
    copy_hash_table(strong, &mut arena);
    assert_eq!(registry(&arena), vec![head_copy, first, new, old, rest]);
    assert_eq!(hash_table_weakness(new, &arena), WeakKind::Value);
}

#[test]
fn sweep_through_a_handle_keeps_the_registry() {
    let mut arena: TableArena<EqTest> = TableArena::new();
    let t = LispHashTableRef::allocate(
        &mut arena,
        EqTest,
        4,
        four_fifths(),
        half_more(),
        WeakKind::Key,
    );
    puthash(fix(1), fix(10), t, &mut arena);
    puthash(fix(-1), fix(10), t, &mut arena);
    t.sweep(&mut arena, positive);
    assert_eq!(hash_table_count(t, &arena), 1);
    assert_eq!(gethash(fix(1), t, LispObject::Nil, &arena), fix(10));
    assert_eq!(registry(&arena), vec![t]);
}

#[test]
fn values_tell_hash_tables_from_other_data() {
    assert!(hash_table_p(LispObject::HashTable(0)));
    assert!(!hash_table_p(LispObject::Nil));
    assert!(LispObject::HashTable(3).is_hash_table());
    assert_eq!(
        LispObject::HashTable(3).as_hash_table_or_error(),
        Ok(LispHashTableRef { index: Some(3) })
    );
    assert_eq!(
        fix(3).as_hash_table_or_error(),
        Err(LispError::WrongType(TypePredicate::HashTablep, fix(3)))
    );
    assert_eq!(
        LispHashTableRef { index: Some(3) }.as_object(),
        LispObject::HashTable(3)
    );
    assert_eq!(LispHashTableRef::empty().as_object(), LispObject::Nil);
}

#[test]
fn lookup_results_are_ordered_with_missing_first() {
    assert!(HashLookupResult::Missing(9) < HashLookupResult::Found(0));
    assert!(HashLookupResult::Found(1) < HashLookupResult::Found(2));
}

#[test]
fn strategies_hash_by_payload() {
    assert_eq!(EqTest.hash(fix(5)), 5);
    assert_eq!(EqTest.hash(fix(-5)), 4);
    assert_eq!(EqTest.hash(LispObject::Nil), 0);
    assert_eq!(EqTest.hash(LispObject::True), 1);
    assert_eq!(EqTest.hash(LispObject::Cons(12)), 12);
    assert!(EqTest.equal(fix(5), fix(5)));
    assert!(!EqTest.equal(fix(5), LispObject::Symbol(5)));
    let folded = FoldedEqTest { range: 4 };
    assert_eq!(folded.hash(fix(9)), 1);
    assert_eq!(FoldedEqTest { range: 0 }.hash(fix(9)), 0);
    assert_eq!(folded.name(), LispObject::Symbol(SYM_EQ));
}

#[test]
fn a_sweeper_unlinks_tables_from_the_registry() {
    let mut arena: TableArena<EqTest> = TableArena::new();
    let make = |arena: &mut TableArena<EqTest>| {
        LispHashTableRef::allocate(arena, EqTest, 4, four_fifths(), half_more(), WeakKind::Key)
    };
    let d = make(&mut arena);
    let c = make(&mut arena);
    let b = make(&mut arena);
    let a = make(&mut arena);
    assert_eq!(registry(&arena), vec![a, b, c, d]);
    assert!(arena.is_registered(c));
    // Tables b and c are dropped: a is linked to d.
    a.set_next_weak(&mut arena, d);
    assert_eq!(registry(&arena), vec![a, d]);
    assert!(!arena.is_registered(b));
    assert!(!arena.is_registered(c));
    assert!(arena.is_registered(d));
    assert!(!arena.is_registered(LispHashTableRef::empty()));
    // A copy of a table that has left the registry is not entered.
    let copy = copy_hash_table(b, &mut arena);
    assert_eq!(registry(&arena), vec![a, d]);
    assert!(!arena.is_registered(copy));
    // The head is dropped, then the rest.
    arena.set_weak_head(d);
    assert_eq!(registry(&arena), vec![d]);
    d.set_next_weak(&mut arena, LispHashTableRef::empty());
    assert_eq!(registry(&arena), vec![d]);
    arena.set_weak_head(LispHashTableRef::empty());
    assert_eq!(registry(&arena), Vec::<LispHashTableRef>::new());
    // The tables are still there.
    assert_eq!(hash_table_count(a, &arena), 0);
    assert_eq!(arena.len(), 5);
}

#[test]
fn the_last_table_of_the_registry_can_end_it_earlier() {
    let mut arena: TableArena<EqTest> = TableArena::new();
    let make = |arena: &mut TableArena<EqTest>| {
        LispHashTableRef::allocate(arena, EqTest, 4, four_fifths(), half_more(), WeakKind::Value)
    };
    let c = make(&mut arena);
    let b = make(&mut arena);
    let a = make(&mut arena);
    a.set_next_weak(&mut arena, LispHashTableRef::empty());
    assert_eq!(registry(&arena), vec![a]);
    assert!(!arena.is_registered(b) && !arena.is_registered(c));
}

#[test]
fn puthash_and_gethash_round_trip_through_resizes() {
    let mut arena: TableArena<EqTest> = TableArena::new();
    let t = LispHashTableRef::allocate(
        &mut arena,
        EqTest,
        2,
        four_fifths(),
        half_more(),
        WeakKind::Strong,
    );
    for k in 0..200 {
        puthash(fix(k), fix(k * 3), t, &mut arena);
    }
    for k in 0..200 {
        assert_eq!(gethash(fix(k), t, LispObject::Nil, &arena), fix(k * 3));
    }
    assert_eq!(hash_table_count(t, &arena), 200);
    for k in (0..200).step_by(2) {
        remhash(fix(k), t, &mut arena);
    }
    for k in 0..200 {
        let expected = if k % 2 == 0 { LispObject::Nil } else { fix(k * 3) };
        assert_eq!(gethash(fix(k), t, LispObject::Nil, &arena), expected);
    }
    assert_eq!(hash_table_count(t, &arena), 100);
}

#[test]
fn arrays_can_be_put_back_as_they_were() {
    let mut t = table(4);
    put_new(&mut t, fix(1), fix(10));
    put_new(&mut t, fix(5), fix(50));
    let (hash, next, index) = (t.get_hash(), t.get_next(), t.get_index());
    t.set_hash(hash);
    t.set_next(next);
    t.set_index(index);
    let pairs = t.get_key_and_value();
    t.set_key_and_value(pairs);
    assert_eq!(value_of(&t, fix(1)), Some(fix(10)));
    assert_eq!(value_of(&t, fix(5)), Some(fix(50)));
    assert_eq!(t.count(), 2);
}

#[test]
fn keys_values_and_hash_codes_can_be_replaced() {
    let mut t = table(4);
    let slot = put_new(&mut t, fix(1), fix(10));
    assert_eq!(slot, 0);
    // Another hash code of the same bucket.
    t.set_hash(vec![Some(5), None, None, None]);
    assert_eq!(t.get_hash_hash(0), Some(5));
    let nil = LispObject::Nil;
    t.set_key_and_value(vec![fix(5), fix(55), nil, nil, nil, nil, nil, nil]);
    assert_eq!(value_of(&t, fix(5)), Some(fix(55)));
    assert_eq!(value_of(&t, fix(1)), None);
    assert_eq!(t.count(), 1);
}

#[test]
fn handles_replace_arrays_of_their_table() {
    let mut arena: TableArena<EqTest> = TableArena::new();
    let t = LispHashTableRef::allocate(
        &mut arena,
        EqTest,
        2,
        Ratio { num: 1, den: 1 },
        half_more(),
        WeakKind::Strong,
    );
    puthash(fix(2), fix(20), t, &mut arena);
    let (hash, next, index) = (t.get_hash(&arena), t.get_next(&arena), t.get_index(&arena));
    t.set_hash(&mut arena, hash);
    t.set_next(&mut arena, next);
    t.set_index(&mut arena, index);
    t.set_key_and_value(&mut arena, vec![fix(4), fix(40), LispObject::Nil, LispObject::Nil]);
    t.set_hash(&mut arena, vec![Some(4), None]);
    assert_eq!(gethash(fix(4), t, LispObject::Nil, &arena), fix(40));
    assert_eq!(gethash(fix(2), t, LispObject::Nil, &arena), LispObject::Nil);
}

#[test]
fn links_and_bucket_heads_are_held_as_they_were_set() {
    let mut t = table(4);
    put_new(&mut t, fix(1), fix(10));
    put_new(&mut t, fix(5), fix(50));
    put_new(&mut t, fix(2), fix(20));
    let (next, index) = (t.get_next(), t.get_index());
    t.set_next(next.clone());
    assert_eq!(t.get_next(), next);
    assert_eq!(t.get_index(), index);
    t.set_index(index.clone());
    assert_eq!(t.get_index(), index);
    assert_eq!(t.get_next(), next);
    assert_eq!(value_of(&t, fix(5)), Some(fix(50)));

    let mut arena: TableArena<EqTest> = TableArena::new();
    let a = LispHashTableRef::allocate(&mut arena, EqTest, 2, four_fifths(), half_more(), WeakKind::Strong);
    let b = LispHashTableRef::allocate(&mut arena, EqTest, 4, four_fifths(), half_more(), WeakKind::Strong);
    puthash(fix(3), fix(30), a, &mut arena);
    puthash(fix(7), fix(70), b, &mut arena);
    let (next, index) = (a.get_next(&arena), a.get_index(&arena));
    let (other_next, other_index) = (b.get_next(&arena), b.get_index(&arena));
    a.set_next(&mut arena, next.clone());
    a.set_index(&mut arena, index.clone());
    assert_eq!(a.get_next(&arena), next);
    assert_eq!(a.get_index(&arena), index);
    assert_eq!(b.get_next(&arena), other_next);
    assert_eq!(b.get_index(&arena), other_index);
    assert_eq!(gethash(fix(3), a, LispObject::Nil, &arena), fix(30));
    assert_eq!(gethash(fix(7), b, LispObject::Nil, &arena), fix(70));
}

#[test]
fn table_handles_convert_to_values_and_back() {
    let handle = LispHashTableRef { index: Some(7) };
    let value: LispObject = handle.into();
    assert_eq!(value, LispObject::HashTable(7));
    assert_eq!(LispHashTableRef::try_from(value), Ok(handle));
    assert_eq!(
        LispHashTableRef::try_from(fix(7)),
        Err(LispError::WrongType(TypePredicate::HashTablep, fix(7)))
    );
    let nothing: LispObject = LispHashTableRef::empty().into();
    assert_eq!(nothing, LispObject::Nil);
}
