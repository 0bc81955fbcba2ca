use lisp_core::lisp::{LispError, LispObject, TypePredicate};
use lisp_core::list_fns::{list, nthcdr, safe_length};
use lisp_core::lists::{
    LispCons, LispConsCircularChecks, LispConsEndChecks, PairArena, Stride, TailsIter, WalkerState,
};

fn sym(n: u32) -> LispObject {
    LispObject::Symbol(n)
}

/// Builds the chain A -> B -> C -> A and returns the three nodes.
fn cycle_of_three(arena: &mut PairArena) -> (LispObject, LispObject, LispObject) {
    let c = LispObject::cons(arena, sym(3), LispObject::Nil);
    let b = LispObject::cons(arena, sym(2), c);
    let a = LispObject::cons(arena, sym(1), b);
    c.as_cons().unwrap().set_cdr(arena, a);
    (a, b, c)
}

fn walk_all(it: &mut TailsIter, arena: &PairArena, limit: usize) -> (Vec<LispCons>, Result<(), LispError>) {
    let mut seen = Vec::new();
    for _ in 0..limit {
        match it.next(arena) {
            Ok(Some(cons)) => seen.push(cons),
            Ok(None) => return (seen, Ok(())),
            Err(e) => return (seen, Err(e)),
        }
    }
    panic!("the walk did not stop within {} steps", limit);
}

#[test]
fn empty_chain_ends_at_once() {
    let arena = PairArena::new();
    let mut it = TailsIter::new(
        LispObject::Nil,
        TypePredicate::Listp,
        LispConsEndChecks::on,
        LispConsCircularChecks::on,
    );
    assert_eq!(it.next(&arena), Ok(None));
    assert_eq!(it.rest(), LispObject::Nil);
    assert_eq!(it.state(), WalkerState::ExhaustedClean);
}

#[test]
fn atom_head_is_malformed_when_end_checks_are_on() {
    let arena = PairArena::new();
    let mut it = TailsIter::new(
        LispObject::Fixnum(3),
        TypePredicate::Listp,
        LispConsEndChecks::on,
        LispConsCircularChecks::on,
    );
    assert_eq!(
        it.next(&arena),
        Err(LispError::WrongStructure(TypePredicate::Listp, LispObject::Fixnum(3)))
    );
    assert_eq!(it.state(), WalkerState::ExhaustedMalformed);
}

#[test]
fn atom_head_ends_quietly_when_end_checks_are_off() {
    let arena = PairArena::new();
    let mut it = TailsIter::new(
        LispObject::Fixnum(3),
        TypePredicate::Listp,
        LispConsEndChecks::off,
        LispConsCircularChecks::on,
    );
    assert_eq!(it.next(&arena), Ok(None));
    assert_eq!(it.rest(), LispObject::Fixnum(3));
    assert_eq!(it.state(), WalkerState::ExhaustedClean);
}

#[test]
fn improper_tail_is_reported_with_the_head_of_the_chain() {
    let mut arena = PairArena::new();
    let tail = LispObject::cons(&mut arena, sym(2), LispObject::Fixnum(9));
    let head = LispObject::cons(&mut arena, sym(1), tail);
    let mut it = head.iter_tails_plist(LispConsEndChecks::on, LispConsCircularChecks::on);
    assert_eq!(it.next(&arena), Ok(Some(head.as_cons().unwrap())));
    assert_eq!(it.next(&arena), Ok(Some(tail.as_cons().unwrap())));
    assert_eq!(
        it.next(&arena),
        Err(LispError::WrongStructure(TypePredicate::Plistp, head))
    );
    assert_eq!(it.rest(), LispObject::Fixnum(9));
}

#[test]
fn cycle_of_three_raises_circular_structure_within_a_bound() {
    let mut arena = PairArena::new();
    let (a, b, c) = cycle_of_three(&mut arena);
    let mut it = a.iter_tails(LispConsEndChecks::on, LispConsCircularChecks::on);
    let (seen, end) = walk_all(&mut it, &arena, 100);
    // A, B, C, A are handed out; the fifth link leads back to the tortoise.
    assert_eq!(
        seen,
        vec![
            a.as_cons().unwrap(),
            b.as_cons().unwrap(),
            c.as_cons().unwrap(),
            a.as_cons().unwrap()
        ]
    );
    assert_eq!(end, Err(LispError::CircularStructure(c)));
    assert!(seen.len() <= 4 * arena.len() + 4);
    assert_eq!(it.state(), WalkerState::CycleDetected);
}

#[test]
fn cycle_of_three_stops_quietly_under_the_safe_policy() {
    let mut arena = PairArena::new();
    let (a, b, c) = cycle_of_three(&mut arena);
    let mut it = a.iter_tails(LispConsEndChecks::on, LispConsCircularChecks::safe);
    let (seen, end) = walk_all(&mut it, &arena, 100);
    assert_eq!(end, Ok(()));
    assert_eq!(seen.len(), 4);
    for node in [a, b, c] {
        let times = seen.iter().filter(|s| LispObject::Cons(s.0) == node).count();
        assert!(times >= 1 && times <= 2);
    }
    // The stop is told apart from the end of a chain.
    assert_eq!(it.state(), WalkerState::CycleDetected);
}

#[test]
fn cycle_of_three_is_accepted_without_checks() {
    let mut arena = PairArena::new();
    let (a, _, _) = cycle_of_three(&mut arena);
    let mut it = a.iter_tails(LispConsEndChecks::on, LispConsCircularChecks::off);
    // No comparison is made: the walk goes on for as long as it is asked.
    for _ in 0..1000 {
        assert!(matches!(it.next(&arena), Ok(Some(_))));
    }
    assert_eq!(it.state(), WalkerState::Running);
}

#[test]
fn self_loop_is_found() {
    let mut arena = PairArena::new();
    let a = LispObject::cons(&mut arena, sym(1), LispObject::Nil);
    a.as_cons().unwrap().set_cdr(&mut arena, a);
    let mut it = a.iter_tails(LispConsEndChecks::on, LispConsCircularChecks::on);
    let (seen, end) = walk_all(&mut it, &arena, 100);
    assert!(seen.len() <= 4 * arena.len() + 4);
    assert_eq!(end, Err(LispError::CircularStructure(a)));
}

#[test]
fn long_cycle_is_found_within_the_bound() {
    let mut arena = PairArena::new();
    let mut head = LispObject::Nil;
    let mut last = LispObject::Nil;
    for i in 0..1000 {
        head = LispObject::cons(&mut arena, LispObject::Fixnum(i), head);
        if i == 0 {
            last = head;
        }
    }
    last.as_cons().unwrap().set_cdr(&mut arena, head);
    let mut it = head.iter_tails(LispConsEndChecks::on, LispConsCircularChecks::on);
    let (seen, end) = walk_all(&mut it, &arena, 10_000);
    assert!(matches!(end, Err(LispError::CircularStructure(_))));
    assert!(seen.len() >= 1000);
    assert!(seen.len() <= 4 * arena.len() + 4);
}

#[test]
fn acyclic_chain_gives_the_same_sequence_under_every_policy() {
    let mut arena = PairArena::new();
    let items: Vec<LispObject> = (0..50).map(LispObject::Fixnum).collect();
    let head = list(&items, &mut arena);
    let mut runs = Vec::new();
    for policy in [
        LispConsCircularChecks::off,
        LispConsCircularChecks::safe,
        LispConsCircularChecks::on,
    ] {
        let mut it = head.iter_tails(LispConsEndChecks::on, policy);
        let (seen, end) = walk_all(&mut it, &arena, 1000);
        assert_eq!(end, Ok(()));
        assert_eq!(it.state(), WalkerState::ExhaustedClean);
        assert_eq!(it.rest(), LispObject::Nil);
        runs.push(seen);
    }
    assert_eq!(runs[0].len(), 50);
    assert_eq!(runs[0], runs[1]);
    assert_eq!(runs[1], runs[2]);
    let cars: Vec<LispObject> = runs[0].iter().map(|c| c.car(&arena)).collect();
    assert_eq!(cars, items);
}

#[test]
fn acyclic_improper_chain_gives_the_same_error_under_every_policy() {
    let mut arena = PairArena::new();
    let tail = LispObject::cons(&mut arena, sym(2), LispObject::True);
    let head = LispObject::cons(&mut arena, sym(1), tail);
    for policy in [
        LispConsCircularChecks::off,
        LispConsCircularChecks::safe,
        LispConsCircularChecks::on,
    ] {
        let mut it = head.iter_tails(LispConsEndChecks::on, policy);
        let (seen, end) = walk_all(&mut it, &arena, 10);
        assert_eq!(seen.len(), 2);
        assert_eq!(end, Err(LispError::WrongStructure(TypePredicate::Listp, head)));
    }
}

#[test]
fn stride_two_hands_out_every_other_node() {
    let mut arena = PairArena::new();
    let items: Vec<LispObject> = (0..6).map(LispObject::Fixnum).collect();
    let head = list(&items, &mut arena);
    let mut it = head
        .iter_tails(LispConsEndChecks::on, LispConsCircularChecks::on)
        .step_by(Stride::Two);
    let (seen, end) = walk_all(&mut it, &arena, 10);
    assert_eq!(end, Ok(()));
    let cars: Vec<LispObject> = seen.iter().map(|c| c.car(&arena)).collect();
    assert_eq!(
        cars,
        vec![LispObject::Fixnum(0), LispObject::Fixnum(2), LispObject::Fixnum(4)]
    );
}

#[test]
fn acyclic_chain_gives_the_same_pairs_under_every_policy() {
    let mut arena = PairArena::new();
    let items: Vec<LispObject> = (0..41).map(LispObject::Fixnum).collect();
    let head = list(&items, &mut arena);
    let mut runs = Vec::new();
    for policy in [
        LispConsCircularChecks::off,
        LispConsCircularChecks::safe,
        LispConsCircularChecks::on,
    ] {
        let mut it = head.iter_tails(LispConsEndChecks::on, policy).step_by(Stride::Two);
        let (seen, end) = walk_all(&mut it, &arena, 1000);
        assert_eq!(end, Ok(()));
        assert_eq!(it.state(), WalkerState::ExhaustedClean);
        runs.push(seen);
    }
    assert_eq!(runs[0].len(), 21);
    assert_eq!(runs[0], runs[1]);
    assert_eq!(runs[1], runs[2]);
    let cars: Vec<LispObject> = runs[0].iter().map(|c| c.car(&arena)).collect();
    let expected: Vec<LispObject> = (0..21).map(|i| LispObject::Fixnum(2 * i)).collect();
    assert_eq!(cars, expected);
}

#[test]
fn rest_keeps_the_exact_tail_after_partial_consumption() {
    let mut arena = PairArena::new();
    let tail = LispObject::cons(&mut arena, sym(2), LispObject::Fixnum(7));
    let head = LispObject::cons(&mut arena, sym(1), tail);
    let mut it = head.iter_tails(LispConsEndChecks::on, LispConsCircularChecks::safe);
    assert_eq!(it.rest(), head);
    assert_eq!(it.next(&arena), Ok(Some(head.as_cons().unwrap())));
    assert_eq!(it.rest(), tail);
    assert_eq!(it.next(&arena), Ok(Some(tail.as_cons().unwrap())));
    assert_eq!(it.rest(), LispObject::Fixnum(7));
}

#[test]
fn walker_sees_the_chain_as_it_is_at_each_step() {
    let mut arena = PairArena::new();
    let items: Vec<LispObject> = (0..3).map(LispObject::Fixnum).collect();
    let head = list(&items, &mut arena);
    let mut it = head.iter_tails(LispConsEndChecks::on, LispConsCircularChecks::on);
    let first = it.next(&arena).unwrap().unwrap();
    // Cut the chain behind the node that the walker stands on.
    let second = first.cdr(&arena).as_cons().unwrap();
    second.set_cdr(&mut arena, LispObject::Nil);
    assert_eq!(it.next(&arena), Ok(Some(second)));
    assert_eq!(it.next(&arena), Ok(None));
}

#[test]
fn dangling_handle_is_no_pair_node() {
    let arena = PairArena::new();
    let ghost = LispObject::Cons(17);
    let mut on = ghost.iter_tails(LispConsEndChecks::on, LispConsCircularChecks::on);
    assert_eq!(
        on.next(&arena),
        Err(LispError::WrongStructure(TypePredicate::Listp, ghost))
    );
    assert_eq!(safe_length(ghost, &arena), 0);
}

#[test]
fn nthcdr_goes_round_a_cycle() {
    let mut arena = PairArena::new();
    let (a, b, c) = cycle_of_three(&mut arena);
    assert_eq!(nthcdr(0, a, &arena), Ok(a));
    assert_eq!(nthcdr(1, a, &arena), Ok(b));
    assert_eq!(nthcdr(2, a, &arena), Ok(c));
    assert_eq!(nthcdr(3, a, &arena), Ok(a));
    assert_eq!(nthcdr(10, a, &arena), Ok(b));
}
