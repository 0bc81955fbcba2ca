//! Property lists: lists of alternating keys and values, walked two links at
//! a time.

use vstd::prelude::*;
use crate::chains::finite;
use crate::lisp::{LispError, LispObject, TypePredicate};
use crate::list_fns::{first_of, first_where, lemma_first_where, not_found, second_of};
use crate::lists::{
    end_error, is_pair, LispCons, LispConsCircularChecks, LispConsEndChecks, PairArena, PairNode,
    Stride, TailsIter, Traversal,
};
use crate::walks::{is_node, lemma_start_tracks};

verus! {

/// The walk that a function makes over the keys of `plist`.
pub open spec fn plist_walk(
    plist: LispObject,
    end_checks: LispConsEndChecks,
    circular_checks: LispConsCircularChecks,
) -> Traversal {
    Traversal {
        stride: Stride::Two,
        ..Traversal::start(plist, end_error(TypePredicate::Plistp, end_checks), circular_checks)
    }
}

/// The node that holds the value of the key in `cons`, if the chain goes on
/// to one.
pub open spec fn value_cell(cells: Seq<PairNode>, cons: LispCons) -> Option<LispCons> {
    if is_pair(cells, second_of(cells, cons)) {
        Some(LispCons(second_of(cells, cons)->Cons_0))
    } else {
        None
    }
}

/// Whether a search of the key nodes `nodes` for `prop` went past the first
/// `n` and stopped at the next, if there is one: each of the first `n` has a
/// value and a key that `cmp` did not accept, and the next has no value or a
/// key that `cmp` accepted.
pub open spec fn plist_found_at<F: Fn(LispObject, LispObject) -> bool>(
    cells: Seq<PairNode>,
    nodes: Seq<LispCons>,
    prop: LispObject,
    cmp: F,
    n: int,
) -> bool {
    &&& 0 <= n <= nodes.len()
    &&& forall|j: int|
        0 <= j < n ==> value_cell(cells, #[trigger] nodes[j]) is Some && call_ensures(
            cmp,
            (first_of(cells, nodes[j]), prop),
            false,
        )
    &&& n < nodes.len() ==> value_cell(cells, nodes[n]) is None || call_ensures(
        cmp,
        (first_of(cells, nodes[n]), prop),
        true,
    )
}

/// Where a search of a property list ended.
pub enum PlistSearch {
    /// At a key that was accepted: the node of the key and the node of its
    /// value.
    Found(LispCons, LispCons),
    /// At a key without a value.
    Odd(LispCons),
    /// At the end of the walk. Carries the node of the last key, if there was
    /// a key.
    End(Option<LispCons>),
}

/// Where a search that went past `n` of the key nodes `nodes` ended.
pub open spec fn search_outcome(
    cells: Seq<PairNode>,
    nodes: Seq<LispCons>,
    stop: crate::lists::StepResult,
    n: int,
) -> Result<PlistSearch, LispError> {
    if n < nodes.len() {
        match value_cell(cells, nodes[n]) {
            Some(value) => Ok(PlistSearch::Found(nodes[n], value)),
            None => Ok(PlistSearch::Odd(nodes[n])),
        }
    } else {
        match stop {
            Ok(_) => Ok(
                PlistSearch::End(
                    if n > 0 {
                        Some(nodes[n - 1])
                    } else {
                        None
                    },
                ),
            ),
            Err(e) => Err(e),
        }
    }
}

/// Searches the keys of a property list for one that `cmp` accepts as `prop`.
fn plist_search<F: Fn(LispObject, LispObject) -> bool>(
    start: TailsIter,
    prop: LispObject,
    cmp: F,
    arena: &PairArena,
) -> (r: Result<PlistSearch, LispError>)
    requires
        forall|a: LispObject, b: LispObject| call_requires(cmp, (a, b)),
        start@.tracks(arena@),
    ensures
        exists|n: int|
            {
                &&& #[trigger] plist_found_at(arena@, start@.yields(arena@), prop, cmp, n)
                &&& r == search_outcome(arena@, start@.yields(arena@), start@.stop(arena@), n)
            },
        forall|i: int| 0 <= i < start@.yields(arena@).len() ==> (#[trigger] start@.yields(arena@)[i]).0 < arena@.len(),
{
    let mut it = start;
    let ghost walk = it@;
    let ghost nodes = walk.yields(arena@);
    let ghost mut n: int = 0;
    let mut last: Option<LispCons> = None;
    proof {
        lemma_yields_in_arena(walk, arena@);
    }
    loop
        invariant
            forall|a: LispObject, b: LispObject| call_requires(cmp, (a, b)),
            it@.tracks(arena@),
            walk == start@,
            nodes == walk.yields(arena@),
            0 <= n <= nodes.len(),
            nodes == nodes.subrange(0, n) + it@.yields(arena@),
            it@.stop(arena@) == walk.stop(arena@),
            last == if n > 0 { Some(nodes[n - 1]) } else { None },
            forall|i: int| 0 <= i < nodes.len() ==> (#[trigger] nodes[i]).0 < arena@.len(),
            forall|j: int|
                0 <= j < n ==> value_cell(arena@, #[trigger] nodes[j]) is Some && call_ensures(
                    cmp,
                    (first_of(arena@, nodes[j]), prop),
                    false,
                ),
        decreases it@.fuel(arena@),
    {
        let ghost before = it@;
        match it.next(arena) {
            Ok(Some(tail)) => {
                proof {
                    assert(before.yields(arena@) == seq![tail] + it@.yields(arena@));
                    assert(nodes[n] == before.yields(arena@)[0]);
                    assert(nodes.subrange(0, n + 1) =~= nodes.subrange(0, n) + seq![tail]);
                    assert(nodes =~= nodes.subrange(0, n + 1) + it@.yields(arena@));
                }
                match arena.pair_at(tail.cdr(arena)) {
                    None => {
                        assert(plist_found_at(arena@, nodes, prop, cmp, n));
                        return Ok(PlistSearch::Odd(tail));
                    },
                    Some((value, _)) => {
                        if cmp(tail.car(arena), prop) {
                            assert(plist_found_at(arena@, nodes, prop, cmp, n));
                            return Ok(PlistSearch::Found(tail, value));
                        }
                        last = Some(tail);
                    },
                }
                proof {
                    n = n + 1;
                }
            },
            Ok(None) => {
                proof {
                    assert(before.yields(arena@) =~= Seq::<LispCons>::empty());
                    assert(nodes =~= nodes.subrange(0, n));
                    assert(plist_found_at(arena@, nodes, prop, cmp, n));
                }
                return Ok(PlistSearch::End(last));
            },
            Err(e) => {
                proof {
                    assert(before.yields(arena@) =~= Seq::<LispCons>::empty());
                    assert(nodes =~= nodes.subrange(0, n));
                    assert(plist_found_at(arena@, nodes, prop, cmp, n));
                }
                return Err(e);
            },
        }
    }
}

/// Every node that a walk hands out is a node of the arena.
pub proof fn lemma_yields_in_arena(t: Traversal, cells: Seq<PairNode>)
    ensures
        forall|i: int| 0 <= i < t.yields(cells).len() ==> (#[trigger] t.yields(cells)[i]).0 < cells.len(),
    decreases t.fuel(cells),
{
    if t.tracks(cells) && is_node(t.advance(cells).1) {
        crate::walks::lemma_advance_tracks(t, cells);
        lemma_yields_in_arena(t.advance(cells).0, cells);
        let rest = t.advance(cells).0.yields(cells);
        assert forall|i: int| 0 <= i < t.yields(cells).len() implies (#[trigger] t.yields(cells)[i]).0
            < cells.len() by {
            if i > 0 {
                assert(t.yields(cells)[i] == rest[i - 1]);
            }
        }
    }
}

/// A walk without end checks that does not treat a cycle as an error stops
/// quietly.
pub proof fn lemma_quiet_stop(t: Traversal, cells: Seq<PairNode>)
    requires
        t.end_error is None,
        t.cycle_policy != LispConsCircularChecks::on,
    ensures
        t.stop(cells) is Ok,
    decreases t.fuel(cells),
{
    if t.tracks(cells) && is_node(t.advance(cells).1) {
        crate::walks::lemma_advance_tracks(t, cells);
        lemma_quiet_stop(t.advance(cells).0, cells);
    }
}

/// Searches `plist` for a key that `cmp` accepts as `prop` and returns the
/// value that follows it; the terminator if no key is accepted. With end
/// checks on, a key without a value and an end other than the terminator are
/// errors. A walk that does not look for cycles needs a chain that ends.
pub fn internal_plist_get<F: Fn(LispObject, LispObject) -> bool>(
    plist: LispObject,
    prop: LispObject,
    cmp: F,
    end_checks: LispConsEndChecks,
    circular_checks: LispConsCircularChecks,
    arena: &PairArena,
) -> (r: Result<LispObject, LispError>)
    requires
        forall|a: LispObject, b: LispObject| call_requires(cmp, (a, b)),
        circular_checks == LispConsCircularChecks::off ==> finite(arena@, plist),
    ensures
        ({
            let walk = plist_walk(plist, end_checks, circular_checks);
            let nodes = walk.yields(arena@);
            exists|n: int|
                {
                &&& #[trigger] plist_found_at(arena@, nodes, prop, cmp, n)
                &&& r == if n < nodes.len() {
                    match value_cell(arena@, nodes[n]) {
                        Some(value) => Ok::<LispObject, LispError>(first_of(arena@, value)),
                        None => if end_checks == LispConsEndChecks::on {
                            Err(LispError::WrongStructure(TypePredicate::Plistp, plist))
                        } else {
                            Ok(LispObject::Nil)
                        },
                    }
                } else {
                    not_found(walk.stop(arena@))
                }
                }
        }),
{
    let it = plist.iter_tails_plist(end_checks, circular_checks).step_by(Stride::Two);
    proof {
        arena.lemma_len();
        lemma_start_tracks(plist, end_error(TypePredicate::Plistp, end_checks), circular_checks, arena@);
        assert(it@ == plist_walk(plist, end_checks, circular_checks));
    }
    let found = plist_search(it, prop, cmp, arena);
    let ghost nodes = it@.yields(arena@);
    let ghost n = choose|n: int|
        {
            &&& plist_found_at(arena@, nodes, prop, cmp, n)
            &&& found == search_outcome(arena@, nodes, it@.stop(arena@), n)
        };
    match found {
        Ok(PlistSearch::Found(_, value)) => Ok(value.car(arena)),
        Ok(PlistSearch::Odd(_)) => {
            // A key without a value is an odd number of elements.
            if end_checks == LispConsEndChecks::on {
                Err(LispError::WrongStructure(TypePredicate::Plistp, plist))
            } else {
                Ok(LispObject::Nil)
            }
        },
        Ok(PlistSearch::End(_)) => Ok(LispObject::Nil),
        Err(e) => Err(e),
    }
}

/// The value of `prop` in a property list whose key nodes are `nodes`: the
/// value after the first key that is `prop` itself, if every key before it
/// has a value; the terminator otherwise.
pub open spec fn plist_get_spec(cells: Seq<PairNode>, nodes: Seq<LispCons>, prop: LispObject) -> LispObject {
    let n = first_where(
        nodes,
        |c: LispCons| value_cell(cells, c) is None || first_of(cells, c) == prop,
        0,
    );
    if n < nodes.len() && value_cell(cells, nodes[n]) is Some {
        first_of(cells, value_cell(cells, nodes[n])->Some_0)
    } else {
        LispObject::Nil
    }
}

/// The value of `prop` in `plist`: the element after the first key that is
/// `prop` itself. The terminator if `prop` is no key of the list. Never an
/// error: a list that is cut short, ends in something else or runs in a
/// circle yields the terminator as well, unless `prop` comes first.
pub fn plist_get(plist: LispObject, prop: LispObject, arena: &PairArena) -> (r: LispObject)
    ensures
        r == plist_get_spec(
            arena@,
            plist_walk(plist, LispConsEndChecks::off, LispConsCircularChecks::safe).yields(arena@),
            prop,
        ),
{
    let same = |a: LispObject, b: LispObject| -> (r: bool)
        ensures
            r == (a == b),
        { a.eq(b) };
    let r = internal_plist_get(
        plist,
        prop,
        same,
        LispConsEndChecks::off,
        LispConsCircularChecks::safe,
        arena,
    );
    proof {
        let walk = plist_walk(plist, LispConsEndChecks::off, LispConsCircularChecks::safe);
        let nodes = walk.yields(arena@);
        let n = choose|n: int|
            {
                &&& plist_found_at(arena@, nodes, prop, same, n)
                &&& r == if n < nodes.len() {
                    match value_cell(arena@, nodes[n]) {
                        Some(value) => Ok::<LispObject, LispError>(first_of(arena@, value)),
                        None => Ok(LispObject::Nil),
                    }
                } else {
                    not_found(walk.stop(arena@))
                }
            };
        let wanted = |c: LispCons| value_cell(arena@, c) is None || first_of(arena@, c) == prop;
        assert forall|j: int| 0 <= j < n implies !wanted(#[trigger] nodes[j]) by {
            assert(call_ensures(same, (first_of(arena@, nodes[j]), prop), false));
        }
        lemma_first_where(nodes, wanted, 0, n);
        lemma_quiet_stop(walk, arena@);
    }
    match r {
        Ok(value) => value,
        Err(_) => LispObject::Nil,
    }
}

/// The tail of `plist` that begins with the key `prop` itself; nothing if
/// `prop` is no key of the list. Tells a missing property from a property
/// whose value is the terminator.
pub fn plist_member(plist: LispObject, prop: LispObject, arena: &PairArena) -> (r: Result<
    Option<LispCons>,
    LispError,
>)
    ensures
        ({
            let walk = plist_walk(plist, LispConsEndChecks::on, LispConsCircularChecks::on);
            let nodes = walk.yields(arena@);
            let n = first_where(nodes, |c: LispCons| first_of(arena@, c) == prop, 0);
            r == if n < nodes.len() {
                Ok::<Option<LispCons>, LispError>(Some(nodes[n]))
            } else {
                match walk.stop(arena@) {
                    Ok(_) => Ok(None),
                    Err(e) => Err(e),
                }
            }
        }),
{
    let mut it = plist.iter_tails_plist(LispConsEndChecks::on, LispConsCircularChecks::on).step_by(
        Stride::Two,
    );
    let ghost walk = it@;
    let ghost nodes = walk.yields(arena@);
    let ghost wanted = |c: LispCons| first_of(arena@, c) == prop;
    let ghost mut n: int = 0;
    proof {
        arena.lemma_len();
        lemma_start_tracks(plist, Some(TypePredicate::Plistp), LispConsCircularChecks::on, arena@);
        assert(walk == plist_walk(plist, LispConsEndChecks::on, LispConsCircularChecks::on));
    }
    loop
        invariant
            it@.tracks(arena@),
            walk == plist_walk(plist, LispConsEndChecks::on, LispConsCircularChecks::on),
            nodes == walk.yields(arena@),
            wanted == |c: LispCons| first_of(arena@, c) == prop,
            0 <= n <= nodes.len(),
            nodes == nodes.subrange(0, n) + it@.yields(arena@),
            it@.stop(arena@) == walk.stop(arena@),
            forall|j: int| 0 <= j < n ==> !wanted(#[trigger] nodes[j]),
        decreases it@.fuel(arena@),
    {
        let ghost before = it@;
        match it.next(arena) {
            Ok(Some(tail)) => {
                proof {
                    assert(before.yields(arena@) == seq![tail] + it@.yields(arena@));
                    assert(nodes[n] == before.yields(arena@)[0]);
                    assert(nodes.subrange(0, n + 1) =~= nodes.subrange(0, n) + seq![tail]);
                    assert(nodes =~= nodes.subrange(0, n + 1) + it@.yields(arena@));
                }
                if prop.eq(tail.car(arena)) {
                    proof {
                        lemma_first_where(nodes, wanted, 0, n);
                    }
                    return Ok(Some(tail));
                }
                proof {
                    n = n + 1;
                }
            },
            Ok(None) => {
                proof {
                    assert(before.yields(arena@) =~= Seq::<LispCons>::empty());
                    assert(nodes =~= nodes.subrange(0, n));
                    lemma_first_where(nodes, wanted, 0, n);
                }
                return Ok(None);
            },
            Err(e) => {
                proof {
                    assert(before.yields(arena@) =~= Seq::<LispCons>::empty());
                    assert(nodes =~= nodes.subrange(0, n));
                    lemma_first_where(nodes, wanted, 0, n);
                }
                return Err(e);
            },
        }
    }
}

/// Sets the value of the first key of `plist` that `cmp` accepts as `prop`
/// to `val`, in place. If no key is accepted, a new key and value are linked
/// in behind the last value; an empty list yields a new list of the two. The
/// result is the list to use from now on. A key without a value, an end
/// other than the terminator and a circular list are errors that leave the
/// arena as it was.
pub fn internal_plist_put<F: Fn(LispObject, LispObject) -> bool>(
    plist: LispObject,
    prop: LispObject,
    val: LispObject,
    cmp: F,
    arena: &mut PairArena,
) -> (r: Result<LispObject, LispError>)
    requires
        forall|a: LispObject, b: LispObject| call_requires(cmp, (a, b)),
    ensures
        ({
            let cells = old(arena)@;
            let walk = plist_walk(plist, LispConsEndChecks::on, LispConsCircularChecks::on);
            let nodes = walk.yields(cells);
            exists|n: int|
                {
                    &&& #[trigger] plist_found_at(cells, nodes, prop, cmp, n)
                    &&& (r, final(arena)@) == plist_put_spec(
                        cells,
                        plist,
                        prop,
                        val,
                        nodes,
                        walk.stop(cells),
                        n,
                    )
                }
        }),
{
    let it = plist.iter_tails_plist(LispConsEndChecks::on, LispConsCircularChecks::on).step_by(
        Stride::Two,
    );
    proof {
        arena.lemma_len();
        lemma_start_tracks(plist, Some(TypePredicate::Plistp), LispConsCircularChecks::on, arena@);
        assert(it@ == plist_walk(plist, LispConsEndChecks::on, LispConsCircularChecks::on));
    }
    let found = plist_search(it, prop, cmp, arena);
    let ghost cells = arena@;
    let ghost nodes = it@.yields(cells);
    let ghost n = choose|n: int|
        {
            &&& plist_found_at(cells, nodes, prop, cmp, n)
            &&& found == search_outcome(cells, nodes, it@.stop(cells), n)
        };
    match found {
        Ok(PlistSearch::Found(_, value)) => {
            value.set_car(arena, val);
            Ok(plist)
        },
        Ok(PlistSearch::Odd(_)) => Err(LispError::WrongStructure(TypePredicate::Plistp, plist)),
        Ok(PlistSearch::End(None)) => {
            let rest = LispObject::cons(arena, val, LispObject::Nil);
            Ok(LispObject::cons(arena, prop, rest))
        },
        Ok(PlistSearch::End(Some(last))) => {
            assert(value_cell(cells, nodes[n - 1]) is Some);
            match arena.pair_at(last.cdr(arena)) {
                Some((last_value, node)) => {
                    let rest = LispObject::cons(arena, val, node.second);
                    let added = LispObject::cons(arena, prop, rest);
                    last_value.set_cdr(arena, added);
                    Ok(plist)
                },
                None => Err(LispError::WrongType(TypePredicate::Consp, last.cdr(arena))),
            }
        },
        Err(e) => Err(e),
    }
}

/// What `internal_plist_put` returns and makes of the arena, given the key
/// nodes of the list, how the walk over them stops, and the number of keys
/// that the search went past.
pub open spec fn plist_put_spec(
    cells: Seq<PairNode>,
    plist: LispObject,
    prop: LispObject,
    val: LispObject,
    nodes: Seq<LispCons>,
    stop: crate::lists::StepResult,
    n: int,
) -> (Result<LispObject, LispError>, Seq<PairNode>) {
    if n < nodes.len() {
        match value_cell(cells, nodes[n]) {
            Some(value) => (
                Ok(plist),
                cells.update(value.0 as int, PairNode { first: val, second: second_of(cells, value) }),
            ),
            None => (Err(LispError::WrongStructure(TypePredicate::Plistp, plist)), cells),
        }
    } else {
        match stop {
            Err(e) => (Err(e), cells),
            Ok(_) => {
                let value_node = LispObject::Cons(cells.len() as usize);
                let key_node = LispObject::Cons((cells.len() + 1) as usize);
                if n == 0 {
                    (
                        Ok(key_node),
                        cells.push(PairNode { first: val, second: LispObject::Nil }).push(
                            PairNode { first: prop, second: value_node },
                        ),
                    )
                } else {
                    let last = value_cell(cells, nodes[n - 1])->Some_0;
                    (
                        Ok(plist),
                        cells.push(PairNode { first: val, second: second_of(cells, last) }).push(
                            PairNode { first: prop, second: value_node },
                        ).update(
                            last.0 as int,
                            PairNode { first: first_of(cells, last), second: key_node },
                        ),
                    )
                }
            },
        }
    }
}

/// Sets the value of the key `prop` itself in `plist` to `val`, in place, or
/// links the key and the value in at the end. The result is the list to use
/// from now on: a search of it finds `val` for `prop`, if the list ends.
pub fn plist_put(plist: LispObject, prop: LispObject, val: LispObject, arena: &mut PairArena) -> (r: Result<
    LispObject,
    LispError,
>)
    ensures
        ({
            let cells = old(arena)@;
            let walk = plist_walk(plist, LispConsEndChecks::on, LispConsCircularChecks::on);
            let nodes = walk.yields(cells);
            let n = first_where(
                nodes,
                |c: LispCons| value_cell(cells, c) is None || first_of(cells, c) == prop,
                0,
            );
            (r, final(arena)@) == plist_put_spec(cells, plist, prop, val, nodes, walk.stop(cells), n)
        }),
        finite(old(arena)@, plist) && r is Ok ==> plist_get_spec(
            final(arena)@,
            plist_walk(r->Ok_0, LispConsEndChecks::off, LispConsCircularChecks::safe).yields(final(arena)@),
            prop,
        ) == val,
{
    let same = |a: LispObject, b: LispObject| -> (r: bool)
        ensures
            r == (a == b),
        { a.eq(b) };
    let ghost cells = arena@;
    proof {
        arena.lemma_len();
    }
    let r = internal_plist_put(plist, prop, val, same, arena);
    proof {
        arena.lemma_len();
        if finite(cells, plist) {
            crate::plist_laws::lemma_plist_put_then_get(cells, plist, prop, val);
        }
        let walk = plist_walk(plist, LispConsEndChecks::on, LispConsCircularChecks::on);
        let nodes = walk.yields(cells);
        let n = choose|n: int|
            {
                &&& plist_found_at(cells, nodes, prop, same, n)
                &&& (r, arena@) == plist_put_spec(cells, plist, prop, val, nodes, walk.stop(cells), n)
            };
        let wanted = |c: LispCons| value_cell(cells, c) is None || first_of(cells, c) == prop;
        assert forall|j: int| 0 <= j < n implies !wanted(#[trigger] nodes[j]) by {
            assert(call_ensures(same, (first_of(cells, nodes[j]), prop), false));
        }
        lemma_first_where(nodes, wanted, 0, n);
    }
    r
}

/// The value of the first key of `plist` that `equal` takes for equal to
/// `prop`; the terminator if there is none. A key without a value, an end
/// other than the terminator and a circular list are errors.
pub fn lax_plist_get<E: Fn(LispObject, LispObject) -> bool>(
    plist: LispObject,
    prop: LispObject,
    equal: E,
    arena: &PairArena,
) -> (r: Result<LispObject, LispError>)
    requires
        forall|a: LispObject, b: LispObject| call_requires(equal, (a, b)),
    ensures
        ({
            let walk = plist_walk(plist, LispConsEndChecks::on, LispConsCircularChecks::on);
            let nodes = walk.yields(arena@);
            exists|n: int|
                {
                    &&& #[trigger] plist_found_at(arena@, nodes, prop, equal, n)
                    &&& r == if n < nodes.len() {
                        match value_cell(arena@, nodes[n]) {
                            Some(value) => Ok::<LispObject, LispError>(first_of(arena@, value)),
                            None => Err(LispError::WrongStructure(TypePredicate::Plistp, plist)),
                        }
                    } else {
                        not_found(walk.stop(arena@))
                    }
                }
        }),
{
    internal_plist_get(plist, prop, equal, LispConsEndChecks::on, LispConsCircularChecks::on, arena)
}

/// Sets the value of the first key of `plist` that `equal` takes for equal
/// to `prop` to `val`, in place, or links the key and the value in at the
/// end. The result is the list to use from now on.
pub fn lax_plist_put<E: Fn(LispObject, LispObject) -> bool>(
    plist: LispObject,
    prop: LispObject,
    val: LispObject,
    equal: E,
    arena: &mut PairArena,
) -> (r: Result<LispObject, LispError>)
    requires
        forall|a: LispObject, b: LispObject| call_requires(equal, (a, b)),
    ensures
        ({
            let cells = old(arena)@;
            let walk = plist_walk(plist, LispConsEndChecks::on, LispConsCircularChecks::on);
            let nodes = walk.yields(cells);
            exists|n: int|
                {
                    &&& #[trigger] plist_found_at(cells, nodes, prop, equal, n)
                    &&& (r, final(arena)@) == plist_put_spec(
                        cells,
                        plist,
                        prop,
                        val,
                        nodes,
                        walk.stop(cells),
                        n,
                    )
                }
        }),
{
    internal_plist_put(plist, prop, val, equal, arena)
}

} // verus!
