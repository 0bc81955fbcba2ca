use lisp_core::lisp::{LispError, LispObject, TypePredicate};
use lisp_core::list_fns::{
    assoc_impl, assq, atom, car, car_safe, cdr, cdr_safe, consp, delq, list, listp, lookup_member,
    make_list, memq, memql, nlistp, nth, nthcdr, rassoc_impl, rassq, safe_length, setcar, setcdr,
    MOST_POSITIVE_FIXNUM,
};
use lisp_core::lists::{
    circular_list, CarIter, LispCons, LispConsCircularChecks, LispConsEndChecks, PairArena, TailsIter,
};
use lisp_core::plists::{internal_plist_get, internal_plist_put, plist_get, plist_member, plist_put};

fn fix(n: i64) -> LispObject {
    LispObject::Fixnum(n)
}

fn sym(n: u32) -> LispObject {
    LispObject::Symbol(n)
}

fn elements(head: LispObject, arena: &PairArena) -> Vec<LispObject> {
    let mut out = Vec::new();
    let mut it = head.iter_cars(LispConsEndChecks::on, LispConsCircularChecks::on);
    while let Some(item) = it.next(arena).unwrap() {
        out.push(item);
    }
    out
}

fn circular(arena: &mut PairArena, items: &[LispObject]) -> LispObject {
    let head = list(items, arena);
    let mut last = head;
    while let Some(next) = cdr(last, arena).unwrap().as_cons() {
        last = LispObject::Cons(next.0);
    }
    last.as_cons().unwrap().set_cdr(arena, head);
    head
}

#[test]
fn type_predicates_tell_pairs_from_atoms() {
    let mut arena = PairArena::new();
    let pair = LispObject::cons(&mut arena, fix(1), fix(2));
    assert!(consp(pair) && !atom(pair) && listp(pair) && !nlistp(pair));
    assert!(!consp(LispObject::Nil) && atom(LispObject::Nil));
    assert!(listp(LispObject::Nil) && !nlistp(LispObject::Nil));
    assert!(atom(fix(3)) && nlistp(fix(3)));
    assert!(pair.is_cons() && pair.is_list() && LispObject::Nil.is_list());
    assert!(!fix(3).is_list());
}

#[test]
fn check_list_rejects_what_is_no_list() {
    let mut arena = PairArena::new();
    let pair = LispObject::cons(&mut arena, fix(1), LispObject::Nil);
    assert_eq!(pair.check_list(), Ok(()));
    assert_eq!(LispObject::Nil.check_list(), Ok(()));
    assert_eq!(
        fix(5).check_list(),
        Err(LispError::WrongType(TypePredicate::Listp, fix(5)))
    );
}

#[test]
fn as_cons_or_error_rejects_the_terminator() {
    assert_eq!(LispObject::Cons(4).as_cons(), Some(LispCons(4)));
    assert_eq!(LispObject::Nil.as_cons(), None);
    assert_eq!(LispObject::Cons(4).as_cons_or_error(), Ok(LispCons(4)));
    assert_eq!(
        LispObject::Nil.as_cons_or_error(),
        Err(LispError::WrongType(TypePredicate::Consp, LispObject::Nil))
    );
}

#[test]
fn cons_makes_a_node_with_both_slots() {
    let mut arena = PairArena::new();
    let pair = LispObject::cons(&mut arena, fix(1), fix(2));
    assert_eq!(pair, LispObject::Cons(0));
    let cell = pair.as_cons().unwrap();
    assert_eq!(cell.car(&arena), fix(1));
    assert_eq!(cell.cdr(&arena), fix(2));
    assert_eq!(cell.as_tuple(&arena), (fix(1), fix(2)));
    assert_eq!(cell.as_object(), pair);
    assert_eq!(arena.len(), 1);
    assert!(arena.contains(cell));
    assert!(!arena.contains(LispCons(1)));
}

#[test]
fn setcar_and_setcdr_rewrite_in_place_and_return_the_new_value() {
    let mut arena = PairArena::new();
    let pair = LispObject::cons(&mut arena, fix(1), fix(2)).as_cons().unwrap();
    assert_eq!(setcar(pair, fix(10), &mut arena), fix(10));
    assert_eq!(pair.as_tuple(&arena), (fix(10), fix(2)));
    assert_eq!(setcdr(pair, fix(20), &mut arena), fix(20));
    assert_eq!(pair.as_tuple(&arena), (fix(10), fix(20)));
}

#[test]
fn car_and_cdr_of_the_terminator_are_the_terminator() {
    let mut arena = PairArena::new();
    let pair = LispObject::cons(&mut arena, fix(1), fix(2));
    assert_eq!(car(pair, &arena), Ok(fix(1)));
    assert_eq!(cdr(pair, &arena), Ok(fix(2)));
    assert_eq!(car(LispObject::Nil, &arena), Ok(LispObject::Nil));
    assert_eq!(cdr(LispObject::Nil, &arena), Ok(LispObject::Nil));
    assert_eq!(
        car(fix(7), &arena),
        Err(LispError::WrongType(TypePredicate::Consp, fix(7)))
    );
    assert_eq!(
        cdr(fix(7), &arena),
        Err(LispError::WrongType(TypePredicate::Consp, fix(7)))
    );
    assert_eq!(car_safe(pair, &arena), fix(1));
    assert_eq!(cdr_safe(pair, &arena), fix(2));
    assert_eq!(car_safe(fix(7), &arena), LispObject::Nil);
    assert_eq!(cdr_safe(fix(7), &arena), LispObject::Nil);
}

#[test]
fn list_builds_a_proper_chain_in_order() {
    let mut arena = PairArena::new();
    let head = list(&[fix(1), fix(2), fix(3)], &mut arena);
    assert_eq!(elements(head, &arena), vec![fix(1), fix(2), fix(3)]);
    assert_eq!(arena.len(), 3);
    assert_eq!(list(&[], &mut arena), LispObject::Nil);
    assert_eq!(arena.len(), 3);
}

#[test]
fn make_list_repeats_the_initial_element() {
    let mut arena = PairArena::new();
    let head = make_list(4, sym(9), &mut arena);
    assert_eq!(elements(head, &arena), vec![sym(9); 4]);
    assert_eq!(make_list(0, sym(9), &mut arena), LispObject::Nil);
}

#[test]
fn nthcdr_and_nth_count_from_zero() {
    let mut arena = PairArena::new();
    let head = list(&[fix(10), fix(11), fix(12)], &mut arena);
    assert_eq!(nthcdr(0, head, &arena), Ok(head));
    assert_eq!(nthcdr(-3, head, &arena), Ok(head));
    assert_eq!(nth(0, head, &arena), Ok(fix(10)));
    assert_eq!(nth(2, head, &arena), Ok(fix(12)));
    // Beyond the end the tail is the terminator, and so is the element.
    assert_eq!(nthcdr(3, head, &arena), Ok(LispObject::Nil));
    assert_eq!(nthcdr(40, head, &arena), Ok(LispObject::Nil));
    assert_eq!(nth(40, head, &arena), Ok(LispObject::Nil));
}

#[test]
fn nthcdr_keeps_a_tail_that_is_no_pair() {
    let mut arena = PairArena::new();
    let tail = LispObject::cons(&mut arena, fix(2), fix(99));
    let head = LispObject::cons(&mut arena, fix(1), tail);
    assert_eq!(nthcdr(2, head, &arena), Ok(fix(99)));
    // One more step would have to follow the atom.
    assert_eq!(
        nthcdr(3, head, &arena),
        Err(LispError::WrongStructure(TypePredicate::Listp, head))
    );
    assert_eq!(
        nth(2, head, &arena),
        Err(LispError::WrongType(TypePredicate::Consp, fix(99)))
    );
}

#[test]
fn length_counts_a_proper_list() {
    let mut arena = PairArena::new();
    let head = list(&[fix(1), fix(2), fix(3), fix(4)], &mut arena);
    assert_eq!(head.as_cons().unwrap().length(&arena), Ok(4));
    assert_eq!(safe_length(head, &arena), 4);
    assert!(4 <= MOST_POSITIVE_FIXNUM as usize);
}

#[test]
fn length_rejects_improper_and_circular_lists() {
    let mut arena = PairArena::new();
    let improper = LispObject::cons(&mut arena, fix(1), fix(2));
    assert_eq!(
        improper.as_cons().unwrap().length(&arena),
        Err(LispError::WrongStructure(TypePredicate::Listp, improper))
    );
    let ring = circular(&mut arena, &[fix(1), fix(2), fix(3)]);
    assert!(matches!(
        ring.as_cons().unwrap().length(&arena),
        Err(LispError::CircularStructure(_))
    ));
}

#[test]
fn safe_length_never_fails() {
    let mut arena = PairArena::new();
    assert_eq!(safe_length(fix(5), &arena), 0);
    assert_eq!(safe_length(LispObject::Nil, &arena), 0);
    let improper = LispObject::cons(&mut arena, fix(1), fix(2));
    assert_eq!(safe_length(improper, &arena), 1);
    let ring = circular(&mut arena, &[fix(1), fix(2), fix(3)]);
    let n = safe_length(ring, &arena);
    assert!(n >= 3 && n <= 4 * arena.len() + 4);
    assert_eq!(n, 4);
}

#[test]
fn memq_returns_the_tail_that_begins_with_the_element() {
    let mut arena = PairArena::new();
    let head = list(&[sym(1), sym(2), sym(3), sym(2)], &mut arena);
    let found = memq(sym(2), head, &arena).unwrap();
    assert_eq!(found, nthcdr(1, head, &arena).unwrap());
    assert_eq!(elements(found, &arena), vec![sym(2), sym(3), sym(2)]);
    assert_eq!(memq(sym(7), head, &arena), Ok(LispObject::Nil));
    assert_eq!(memql(sym(3), head, &arena), nthcdr(2, head, &arena));
    assert_eq!(memq(sym(1), LispObject::Nil, &arena), Ok(LispObject::Nil));
}

#[test]
fn memq_reports_a_malformed_list_only_when_the_element_is_missing() {
    let mut arena = PairArena::new();
    let tail = LispObject::cons(&mut arena, sym(2), fix(0));
    let head = LispObject::cons(&mut arena, sym(1), tail);
    assert_eq!(memq(sym(2), head, &arena), Ok(tail));
    assert_eq!(
        memq(sym(3), head, &arena),
        Err(LispError::WrongStructure(TypePredicate::Listp, head))
    );
    let ring = circular(&mut arena, &[sym(1), sym(2), sym(3)]);
    assert_eq!(memq(sym(3), ring, &arena), nthcdr(2, ring, &arena));
    assert!(matches!(
        memq(sym(4), ring, &arena),
        Err(LispError::CircularStructure(_))
    ));
}

#[test]
fn lookup_member_uses_the_comparison_it_is_given() {
    let mut arena = PairArena::new();
    let head = list(&[fix(1), fix(4), fix(9)], &mut arena);
    let more = |a: LispObject, b: LispObject| match (a, b) {
        (LispObject::Fixnum(x), LispObject::Fixnum(y)) => y > x,
        _ => false,
    };
    assert_eq!(
        lookup_member(fix(3), head, more, &arena),
        nthcdr(1, head, &arena)
    );
    assert_eq!(lookup_member(fix(9), head, more, &arena), Ok(LispObject::Nil));
}

#[test]
fn assq_finds_the_first_pair_with_the_key() {
    let mut arena = PairArena::new();
    let first = LispObject::cons(&mut arena, sym(1), fix(10));
    let second = LispObject::cons(&mut arena, sym(2), fix(20));
    let again = LispObject::cons(&mut arena, sym(2), fix(30));
    // An element that is no pair is passed over.
    let alist = list(&[first, sym(2), second, again], &mut arena);
    assert_eq!(assq(sym(2), alist, &arena), Ok(second));
    assert_eq!(assq(sym(1), alist, &arena), Ok(first));
    assert_eq!(assq(sym(3), alist, &arena), Ok(LispObject::Nil));
    assert_eq!(rassq(fix(30), alist, &arena), Ok(again));
    assert_eq!(rassq(fix(40), alist, &arena), Ok(LispObject::Nil));
    let same = |a: LispObject, b: LispObject| a == b;
    assert_eq!(assoc_impl(sym(2), alist, same, &arena), Ok(second));
    assert_eq!(rassoc_impl(fix(10), alist, same, &arena), Ok(first));
}

#[test]
fn delq_unlinks_every_occurrence() {
    let mut arena = PairArena::new();
    let head = list(&[sym(1), sym(2), sym(1), sym(3), sym(1)], &mut arena);
    let nodes = arena.len();
    let kept = delq(sym(1), head, &mut arena).unwrap();
    assert_eq!(elements(kept, &arena), vec![sym(2), sym(3)]);
    // The list begins later, and no node was made.
    assert_eq!(kept, LispObject::Cons(head.as_cons().unwrap().0 - 1));
    assert_eq!(arena.len(), nodes);
}

#[test]
fn delq_of_a_missing_element_changes_nothing() {
    let mut arena = PairArena::new();
    let head = list(&[sym(1), sym(2)], &mut arena);
    assert_eq!(delq(sym(9), head, &mut arena), Ok(head));
    assert_eq!(elements(head, &arena), vec![sym(1), sym(2)]);
    assert_eq!(delq(sym(9), LispObject::Nil, &mut arena), Ok(LispObject::Nil));
}

#[test]
fn delq_of_every_element_leaves_the_terminator() {
    let mut arena = PairArena::new();
    let head = list(&[sym(1), sym(1)], &mut arena);
    assert_eq!(delq(sym(1), head, &mut arena), Ok(LispObject::Nil));
}

#[test]
fn delq_reports_a_malformed_list() {
    let mut arena = PairArena::new();
    let head = LispObject::cons(&mut arena, sym(1), fix(3));
    assert_eq!(
        delq(sym(1), head, &mut arena),
        Err(LispError::WrongStructure(TypePredicate::Listp, head))
    );
}

#[test]
fn plist_finds_the_value_of_b_by_stepping_over_pairs() {
    let mut arena = PairArena::new();
    let (a, b, c) = (sym(1), sym(2), sym(3));
    let plist = list(&[a, fix(1), b, fix(2), c, fix(3)], &mut arena);
    assert_eq!(plist_get(plist, b, &arena), fix(2));
    assert_eq!(plist_get(plist, a, &arena), fix(1));
    assert_eq!(plist_get(plist, c, &arena), fix(3));
    // A value is no key.
    assert_eq!(plist_get(plist, fix(2), &arena), LispObject::Nil);
    assert_eq!(plist_get(plist, sym(4), &arena), LispObject::Nil);
    let tail = plist_member(plist, b, &arena).unwrap().unwrap();
    assert_eq!(LispObject::Cons(tail.0), nthcdr(2, plist, &arena).unwrap());
    assert_eq!(plist_member(plist, sym(4), &arena), Ok(None));
}

#[test]
fn plist_get_never_signals_an_error() {
    let mut arena = PairArena::new();
    let odd = list(&[sym(1), fix(1), sym(2)], &mut arena);
    assert_eq!(plist_get(odd, sym(2), &arena), LispObject::Nil);
    assert_eq!(plist_get(odd, sym(1), &arena), fix(1));
    assert_eq!(plist_get(fix(5), sym(1), &arena), LispObject::Nil);
    let ring = circular(&mut arena, &[sym(1), fix(1), sym(2), fix(2)]);
    assert_eq!(plist_get(ring, sym(2), &arena), fix(2));
    assert_eq!(plist_get(ring, sym(3), &arena), LispObject::Nil);
}

#[test]
fn internal_plist_get_with_checks_reports_odd_and_circular_lists() {
    let mut arena = PairArena::new();
    let same = |a: LispObject, b: LispObject| a == b;
    let odd = list(&[sym(1), fix(1), sym(2)], &mut arena);
    assert_eq!(
        internal_plist_get(
            odd,
            sym(2),
            same,
            LispConsEndChecks::on,
            LispConsCircularChecks::on,
            &arena
        ),
        Err(LispError::WrongStructure(TypePredicate::Plistp, odd))
    );
    let ring = circular(&mut arena, &[sym(1), fix(1), sym(2), fix(2)]);
    assert!(matches!(
        internal_plist_get(
            ring,
            sym(3),
            same,
            LispConsEndChecks::on,
            LispConsCircularChecks::on,
            &arena
        ),
        Err(LispError::CircularStructure(_))
    ));
    assert!(matches!(
        plist_member(ring, sym(3), &arena),
        Err(LispError::CircularStructure(_))
    ));
}

#[test]
fn plist_put_replaces_the_value_of_a_key_in_place() {
    let mut arena = PairArena::new();
    let plist = list(&[sym(1), fix(1), sym(2), fix(2)], &mut arena);
    let nodes = arena.len();
    assert_eq!(plist_put(plist, sym(2), fix(20), &mut arena), Ok(plist));
    assert_eq!(
        elements(plist, &arena),
        vec![sym(1), fix(1), sym(2), fix(20)]
    );
    assert_eq!(arena.len(), nodes);
}

#[test]
fn plist_put_appends_a_new_key_behind_the_last_value() {
    let mut arena = PairArena::new();
    let plist = list(&[sym(1), fix(1)], &mut arena);
    assert_eq!(plist_put(plist, sym(2), fix(2), &mut arena), Ok(plist));
    assert_eq!(
        elements(plist, &arena),
        vec![sym(1), fix(1), sym(2), fix(2)]
    );
    assert_eq!(plist_get(plist, sym(2), &arena), fix(2));
}

#[test]
fn plist_put_on_the_empty_list_makes_a_new_list() {
    let mut arena = PairArena::new();
    let plist = plist_put(LispObject::Nil, sym(1), fix(1), &mut arena).unwrap();
    assert_eq!(elements(plist, &arena), vec![sym(1), fix(1)]);
    let same = |a: LispObject, b: LispObject| a == b;
    let again = internal_plist_put(plist, sym(1), fix(5), same, &mut arena).unwrap();
    assert_eq!(again, plist);
    assert_eq!(elements(plist, &arena), vec![sym(1), fix(5)]);
}

#[test]
fn plist_get_finds_what_plist_put_stored() {
    let mut arena = PairArena::new();
    let mut plist = LispObject::Nil;
    for (key, value) in [(1, 10), (2, 20), (1, 11), (3, 30), (2, 21)] {
        plist = plist_put(plist, sym(key), fix(value), &mut arena).unwrap();
        assert_eq!(plist_get(plist, sym(key), &arena), fix(value));
    }
    assert_eq!(
        elements(plist, &arena),
        vec![sym(1), fix(11), sym(2), fix(21), sym(3), fix(30)]
    );
    assert_eq!(plist_get(plist, sym(4), &arena), LispObject::Nil);
    // A value is no key.
    assert_eq!(plist_get(plist, fix(11), &arena), LispObject::Nil);
}

#[test]
fn plist_put_rejects_an_odd_list_and_leaves_it_alone() {
    let mut arena = PairArena::new();
    let odd = list(&[sym(1), fix(1), sym(2)], &mut arena);
    let nodes = arena.len();
    assert_eq!(
        plist_put(odd, sym(3), fix(3), &mut arena),
        Err(LispError::WrongStructure(TypePredicate::Plistp, odd))
    );
    assert_eq!(arena.len(), nodes);
    assert_eq!(elements(odd, &arena), vec![sym(1), fix(1), sym(2)]);
}

#[test]
fn car_walker_hands_out_first_slots() {
    let mut arena = PairArena::new();
    let head = list(&[fix(1), fix(2)], &mut arena);
    let tails = TailsIter::new(
        head,
        TypePredicate::Listp,
        LispConsEndChecks::on,
        LispConsCircularChecks::on,
    );
    let mut cars = CarIter::new(tails);
    assert_eq!(cars.rest(), head);
    assert_eq!(cars.next(&arena), Ok(Some(fix(1))));
    assert_eq!(cars.next(&arena), Ok(Some(fix(2))));
    assert_eq!(cars.rest(), LispObject::Nil);
    assert_eq!(cars.next(&arena), Ok(None));
    let mut from_cell = head
        .as_cons()
        .unwrap()
        .iter_cars(LispConsEndChecks::on, LispConsCircularChecks::on);
    assert_eq!(from_cell.next(&arena), Ok(Some(fix(1))));
}

#[test]
fn circular_list_is_the_error_for_a_cycle() {
    assert_eq!(
        circular_list(fix(1)),
        LispError::CircularStructure(fix(1))
    );
}

#[test]
fn the_walker_constructors_agree() {
    let mut arena = PairArena::new();
    let head = list(&[fix(1), fix(2)], &mut arena);
    let ends = LispConsEndChecks::on;
    let all = LispConsCircularChecks::on;
    let mut walkers = vec![
        head.iter_tails(ends, all),
        head.iter_tails_v2(ends, all),
        head.iter_tails_plist(ends, all),
        head.iter_tails_plist_v2(ends, all),
        head.as_cons().unwrap().iter_tails(ends, all),
    ];
    for it in walkers.iter_mut() {
        assert_eq!(it.next(&arena), Ok(Some(head.as_cons().unwrap())));
        assert!(matches!(it.next(&arena), Ok(Some(_))));
        assert_eq!(it.next(&arena), Ok(None));
    }
    // The two kinds differ in the shape that they report.
    let mut plain = fix(3).iter_tails_v2(ends, all);
    let mut plist = fix(3).iter_tails_plist_v2(ends, all);
    assert_eq!(
        plain.next(&arena),
        Err(LispError::WrongStructure(TypePredicate::Listp, fix(3)))
    );
    assert_eq!(
        plist.next(&arena),
        Err(LispError::WrongStructure(TypePredicate::Plistp, fix(3)))
    );
}

fn same_tens(a: LispObject, b: LispObject) -> bool {
    match (a, b) {
        (LispObject::Fixnum(x), LispObject::Fixnum(y)) => x / 10 == y / 10,
        _ => false,
    }
}

fn never(_a: LispObject, _b: LispObject) -> bool {
    false
}

#[test]
fn member_compares_with_the_equality_it_is_given() {
    let mut arena = PairArena::new();
    let head = list(&[fix(5), fix(17), fix(29)], &mut arena);
    assert_eq!(
        lisp_core::list_fns::member(fix(12), head, same_tens, &arena),
        nthcdr(1, head, &arena)
    );
    assert_eq!(
        lisp_core::list_fns::member(fix(40), head, same_tens, &arena),
        Ok(LispObject::Nil)
    );
    // The same datum is not found unless the equality says so.
    assert_eq!(
        lisp_core::list_fns::member(fix(5), head, never, &arena),
        Ok(LispObject::Nil)
    );
}

#[test]
fn assoc_takes_the_same_datum_for_equal_without_asking() {
    let mut arena = PairArena::new();
    let first = LispObject::cons(&mut arena, fix(11), sym(1));
    let second = LispObject::cons(&mut arena, fix(25), sym(2));
    let alist = list(&[first, second], &mut arena);
    let no_test = None::<&fn(LispObject, LispObject) -> bool>;
    assert_eq!(
        lisp_core::list_fns::assoc(fix(25), alist, no_test, &never, &arena),
        Ok(second)
    );
    assert_eq!(
        lisp_core::list_fns::assoc(fix(27), alist, no_test, &never, &arena),
        Ok(LispObject::Nil)
    );
    assert_eq!(
        lisp_core::list_fns::assoc(fix(27), alist, no_test, &same_tens, &arena),
        Ok(second)
    );
    // With a test, only the test decides.
    let test: fn(LispObject, LispObject) -> bool = never;
    assert_eq!(
        lisp_core::list_fns::assoc(fix(25), alist, Some(&test), &same_tens, &arena),
        Ok(LispObject::Nil)
    );
    let test: fn(LispObject, LispObject) -> bool = same_tens;
    assert_eq!(
        lisp_core::list_fns::assoc(fix(19), alist, Some(&test), &never, &arena),
        Ok(first)
    );
    assert_eq!(
        lisp_core::list_fns::rassoc(sym(2), alist, &never, &arena),
        Ok(second)
    );
    assert_eq!(
        lisp_core::list_fns::rassoc(sym(3), alist, &never, &arena),
        Ok(LispObject::Nil)
    );
}

#[test]
fn lax_plist_functions_compare_with_the_equality_they_are_given() {
    let mut arena = PairArena::new();
    let plist = list(&[fix(10), sym(1), fix(20), sym(2)], &mut arena);
    assert_eq!(
        lisp_core::plists::lax_plist_get(plist, fix(25), same_tens, &arena),
        Ok(sym(2))
    );
    assert_eq!(
        lisp_core::plists::lax_plist_get(plist, fix(35), same_tens, &arena),
        Ok(LispObject::Nil)
    );
    assert_eq!(
        lisp_core::plists::lax_plist_put(plist, fix(15), sym(9), same_tens, &mut arena),
        Ok(plist)
    );
    assert_eq!(
        elements(plist, &arena),
        vec![fix(10), sym(9), fix(20), sym(2)]
    );
    let odd = list(&[fix(10), sym(1), fix(20)], &mut arena);
    assert_eq!(
        lisp_core::plists::lax_plist_get(odd, fix(25), same_tens, &arena),
        Err(LispError::WrongStructure(TypePredicate::Plistp, odd))
    );
}

#[test]
fn handles_convert_to_values_and_back() {
    let cell = LispCons(4);
    let value: LispObject = cell.into();
    assert_eq!(value, LispObject::Cons(4));
    assert_eq!(LispCons::try_from(value), Ok(cell));
    assert_eq!(
        LispCons::try_from(LispObject::Nil),
        Err(LispError::WrongType(TypePredicate::Consp, LispObject::Nil))
    );
    assert_eq!(value.as_cons_if_list(), Ok(Some(cell)));
    assert_eq!(fix(3).as_cons_if_list(), Ok(None));
    assert_eq!(
        LispObject::Nil.as_cons_if_list(),
        Err(LispError::WrongType(TypePredicate::Consp, LispObject::Nil))
    );
}
