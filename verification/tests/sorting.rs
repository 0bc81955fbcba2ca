use lisp_core::lisp::{LispError, LispObject, TypePredicate};
use lisp_core::list_fns::{list, nthcdr};
use lisp_core::lists::{LispConsCircularChecks, LispConsEndChecks, PairArena};
use lisp_core::sorting::{inorder, merge, sort_list};

fn fix(n: i64) -> LispObject {
    LispObject::Fixnum(n)
}

fn less(a: LispObject, b: LispObject) -> LispObject {
    match (a, b) {
        (LispObject::Fixnum(x), LispObject::Fixnum(y)) if x < y => LispObject::True,
        _ => LispObject::Nil,
    }
}

/// Compares the tens only, so that numbers with the same tens are equal.
fn less_by_tens(a: LispObject, b: LispObject) -> LispObject {
    match (a, b) {
        (LispObject::Fixnum(x), LispObject::Fixnum(y)) if x / 10 < y / 10 => LispObject::True,
        _ => LispObject::Nil,
    }
}

fn numbers(head: LispObject, arena: &PairArena) -> Vec<i64> {
    let mut out = Vec::new();
    let mut it = head.iter_cars(LispConsEndChecks::on, LispConsCircularChecks::on);
    while let Some(item) = it.next(arena).unwrap() {
        match item {
            LispObject::Fixnum(n) => out.push(n),
            other => panic!("not a number: {:?}", other),
        }
    }
    out
}

fn list_of(items: &[i64], arena: &mut PairArena) -> LispObject {
    let objects: Vec<LispObject> = items.iter().map(|n| fix(*n)).collect();
    list(&objects, arena)
}

#[test]
fn inorder_asks_whether_the_second_comes_first() {
    assert!(inorder(&less, fix(1), fix(2)));
    assert!(inorder(&less, fix(2), fix(2)));
    assert!(!inorder(&less, fix(3), fix(2)));
}

#[test]
fn merge_weaves_two_sorted_lists() {
    let mut arena = PairArena::new();
    let a = list_of(&[1, 4, 6], &mut arena);
    let b = list_of(&[2, 3, 5, 7, 8], &mut arena);
    let nodes = arena.len();
    let merged = merge(a, b, &less, &mut arena).unwrap();
    assert_eq!(numbers(merged, &arena), vec![1, 2, 3, 4, 5, 6, 7, 8]);
    assert_eq!(merged, a);
    // The nodes were relinked; none was made.
    assert_eq!(arena.len(), nodes);
}

#[test]
fn merge_with_an_empty_list_is_the_other_list() {
    let mut arena = PairArena::new();
    let a = list_of(&[1, 2], &mut arena);
    assert_eq!(merge(a, LispObject::Nil, &less, &mut arena), Ok(a));
    assert_eq!(merge(LispObject::Nil, a, &less, &mut arena), Ok(a));
    assert_eq!(
        merge(LispObject::Nil, LispObject::Nil, &less, &mut arena),
        Ok(LispObject::Nil)
    );
    assert_eq!(merge(LispObject::Nil, fix(3), &less, &mut arena), Ok(fix(3)));
}

#[test]
fn merge_takes_the_first_list_on_a_tie() {
    let mut arena = PairArena::new();
    let a = list_of(&[10, 20], &mut arena);
    let b = list_of(&[11, 21], &mut arena);
    let merged = merge(a, b, &less_by_tens, &mut arena).unwrap();
    assert_eq!(numbers(merged, &arena), vec![10, 11, 20, 21]);
}

#[test]
fn merge_fails_at_a_list_that_ends_in_an_atom() {
    let mut arena = PairArena::new();
    let a = list_of(&[2], &mut arena);
    let b = LispObject::cons(&mut arena, fix(1), fix(5));
    assert_eq!(
        merge(a, b, &less, &mut arena),
        Err(LispError::WrongType(TypePredicate::Consp, fix(5)))
    );
    // The node that was taken is linked as it was.
    assert_eq!(b.as_cons().unwrap().cdr(&arena), fix(5));
}

#[test]
fn sort_list_sorts_in_place() {
    let mut arena = PairArena::new();
    let head = list_of(&[5, 3, 9, 1, 4, 8, 2, 7, 6, 0], &mut arena);
    let nodes = arena.len();
    let sorted = sort_list(head, &less, &mut arena).unwrap();
    assert_eq!(numbers(sorted, &arena), vec![0, 1, 2, 3, 4, 5, 6, 7, 8, 9]);
    assert_eq!(arena.len(), nodes);
    assert_eq!(nthcdr(10, sorted, &arena), Ok(LispObject::Nil));
}

#[test]
fn sort_list_keeps_equal_elements_in_their_order() {
    let mut arena = PairArena::new();
    let head = list_of(&[21, 10, 22, 11, 12, 20, 13], &mut arena);
    let sorted = sort_list(head, &less_by_tens, &mut arena).unwrap();
    assert_eq!(numbers(sorted, &arena), vec![10, 11, 12, 13, 21, 22, 20]);
}

#[test]
fn sort_list_of_short_lists_changes_nothing() {
    let mut arena = PairArena::new();
    assert_eq!(sort_list(LispObject::Nil, &less, &mut arena), Ok(LispObject::Nil));
    assert_eq!(sort_list(fix(7), &less, &mut arena), Ok(fix(7)));
    let one = list_of(&[4], &mut arena);
    assert_eq!(sort_list(one, &less, &mut arena), Ok(one));
    assert_eq!(numbers(one, &arena), vec![4]);
}

#[test]
fn sort_list_of_a_list_that_ends_in_an_atom() {
    let mut arena = PairArena::new();
    let tail = LispObject::cons(&mut arena, fix(2), fix(5));
    let head = LispObject::cons(&mut arena, fix(1), tail);
    // In order already: the first half is used up first, the rest is kept.
    assert_eq!(sort_list(head, &less, &mut arena), Ok(head));
    assert_eq!(nthcdr(2, head, &arena), Ok(fix(5)));
    let tail = LispObject::cons(&mut arena, fix(1), fix(5));
    let head = LispObject::cons(&mut arena, fix(2), tail);
    // Out of order: the second half runs into the atom.
    assert_eq!(
        sort_list(head, &less, &mut arena),
        Err(LispError::WrongType(TypePredicate::Consp, fix(5)))
    );
}

#[test]
fn sort_list_sorts_a_long_list() {
    let mut arena = PairArena::new();
    let items: Vec<i64> = (0..500).map(|i| (i * 7919) % 1009).collect();
    let head = list_of(&items, &mut arena);
    let sorted = sort_list(head, &less, &mut arena).unwrap();
    let mut expected = items.clone();
    expected.sort();
    assert_eq!(numbers(sorted, &arena), expected);
}
