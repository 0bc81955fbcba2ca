//! Comparison of two lists element by element.

use vstd::prelude::*;
use crate::chains::finite;
use crate::lisp::{LispError, LispObject};
use crate::list_fns::{first_of, list_walk, second_of};
use crate::lists::{LispCons, LispConsCircularChecks, LispConsEndChecks, PairArena, PairNode, StepResult};
use crate::walks::lemma_start_tracks;

verus! {

/// How thoroughly two data are compared.
#[derive(Clone, Copy, Debug, PartialEq, Eq, Structural)]
pub enum EqualKind {
    /// Without a check for cycles: the lists must end.
    NoQuit,
    Plain,
    IncludingProperties,
}

/// The cycle policy of the walks of a comparison.
pub open spec fn equal_checks(kind: EqualKind) -> LispConsCircularChecks {
    if kind == EqualKind::NoQuit {
        LispConsCircularChecks::off
    } else {
        LispConsCircularChecks::on
    }
}

/// The depth at which the elements of a list are compared.
pub open spec fn item_depth(kind: EqualKind, depth: i32) -> int {
    if kind == EqualKind::NoQuit {
        0
    } else {
        depth + 1
    }
}

/// The table of visited data that is handed on for the elements.
pub open spec fn item_table(kind: EqualKind, ht: LispObject) -> LispObject {
    if kind == EqualKind::NoQuit {
        LispObject::Nil
    } else {
        ht
    }
}

/// Whether the first `n` pairs of nodes were compared and the comparison
/// went on: their elements were found equal, and what follows them differs.
pub open spec fn equal_so_far<E: Fn(LispObject, LispObject, EqualKind, i32, LispObject) -> bool>(
    cells: Seq<PairNode>,
    nodes1: Seq<LispCons>,
    nodes2: Seq<LispCons>,
    kind: EqualKind,
    depth: i32,
    ht: LispObject,
    internal_equal: E,
    n: int,
) -> bool {
    &&& 0 <= n <= nodes1.len()
    &&& n <= nodes2.len()
    &&& forall|k: int|
        0 <= k < n ==> call_ensures(
            internal_equal,
            (
                first_of(cells, #[trigger] nodes1[k]),
                first_of(cells, nodes2[k]),
                kind,
                item_depth(kind, depth) as i32,
                item_table(kind, ht),
            ),
            true,
        ) && second_of(cells, nodes1[k]) != second_of(cells, nodes2[k])
}

/// Whether `r` is how a comparison ends after `n` pairs of nodes that let it
/// go on. Elements that differ make the lists differ; tails that are the
/// same datum make them equal; a list that stops before the other makes them
/// differ; lists that stop together are compared by what is left of them.
pub open spec fn equal_ends<E: Fn(LispObject, LispObject, EqualKind, i32, LispObject) -> bool>(
    cells: Seq<PairNode>,
    nodes1: Seq<LispCons>,
    nodes2: Seq<LispCons>,
    stop1: StepResult,
    stop2: StepResult,
    rest1: LispObject,
    rest2: LispObject,
    kind: EqualKind,
    depth: i32,
    ht: LispObject,
    internal_equal: E,
    n: int,
    r: Result<bool, LispError>,
) -> bool {
    if n < nodes1.len() {
        if n < nodes2.len() {
            let items = (
                first_of(cells, nodes1[n]),
                first_of(cells, nodes2[n]),
                kind,
                item_depth(kind, depth) as i32,
                item_table(kind, ht),
            );
            ||| call_ensures(internal_equal, items, false) && r == Ok::<bool, LispError>(false)
            ||| call_ensures(internal_equal, items, true) && second_of(cells, nodes1[n]) == second_of(
                cells,
                nodes2[n],
            ) && r == Ok::<bool, LispError>(true)
        } else {
            match stop2 {
                Err(e) => r == Err::<bool, LispError>(e),
                Ok(_) => r == Ok::<bool, LispError>(false),
            }
        }
    } else {
        match stop1 {
            Err(e) => r == Err::<bool, LispError>(e),
            Ok(_) => if n < nodes2.len() {
                r == Ok::<bool, LispError>(false)
            } else {
                match stop2 {
                    Err(e) => r == Err::<bool, LispError>(e),
                    Ok(_) => exists|v: bool|
                        call_ensures(internal_equal, (rest1, rest2, kind, (depth + 1) as i32, ht), v) && r
                            == Ok::<bool, LispError>(v),
                }
            }
        }
    }
}

impl LispCons {
    /// Whether the list from this node and the list from `other` are equal:
    /// their elements are compared pair by pair with `internal_equal`, which
    /// also compares what is left when both lists stop. Two tails that are
    /// the same datum end the comparison early. Unless `kind` is `NoQuit`, a
    /// circular list is an error.
    pub fn equal<E: Fn(LispObject, LispObject, EqualKind, i32, LispObject) -> bool>(
        self,
        other: LispCons,
        kind: EqualKind,
        depth: i32,
        ht: LispObject,
        internal_equal: &E,
        arena: &PairArena,
    ) -> (r: Result<bool, LispError>)
        requires
            forall|a: LispObject, b: LispObject, k: EqualKind, d: i32, t: LispObject|
                call_requires(*internal_equal, (a, b, k, d, t)),
            depth < i32::MAX,
            kind == EqualKind::NoQuit ==> finite(arena@, LispObject::Cons(self.0)) && finite(
                arena@,
                LispObject::Cons(other.0),
            ),
        ensures
            ({
                let walk1 = list_walk(LispObject::Cons(self.0), LispConsEndChecks::off, equal_checks(kind));
                let walk2 = list_walk(LispObject::Cons(other.0), LispConsEndChecks::off, equal_checks(kind));
                exists|n: int|
                    {
                        &&& #[trigger] equal_so_far(
                            arena@,
                            walk1.yields(arena@),
                            walk2.yields(arena@),
                            kind,
                            depth,
                            ht,
                            *internal_equal,
                            n,
                        )
                        &&& equal_ends(
                            arena@,
                            walk1.yields(arena@),
                            walk2.yields(arena@),
                            walk1.stop(arena@),
                            walk2.stop(arena@),
                            walk1.stopped(arena@).current,
                            walk2.stopped(arena@).current,
                            kind,
                            depth,
                            ht,
                            *internal_equal,
                            n,
                            r,
                        )
                    }
            }),
    {
        let circular_checks = match kind {
            EqualKind::NoQuit => LispConsCircularChecks::off,
            _ => LispConsCircularChecks::on,
        };
        let item_depth: i32 = match kind {
            EqualKind::NoQuit => 0,
            _ => depth + 1,
        };
        let item_ht = match kind {
            EqualKind::NoQuit => LispObject::Nil,
            _ => ht,
        };
        let mut it1 = self.iter_tails(LispConsEndChecks::off, circular_checks);
        let mut it2 = other.iter_tails(LispConsEndChecks::off, circular_checks);
        let ghost walk1 = it1@;
        let ghost walk2 = it2@;
        let ghost nodes1 = walk1.yields(arena@);
        let ghost nodes2 = walk2.yields(arena@);
        let ghost mut n: int = 0;
        proof {
            arena.lemma_len();
            lemma_start_tracks(LispObject::Cons(self.0), None, circular_checks, arena@);
            lemma_start_tracks(LispObject::Cons(other.0), None, circular_checks, arena@);
        }
        loop
            invariant
                forall|a: LispObject, b: LispObject, k: EqualKind, d: i32, t: LispObject|
                    call_requires(*internal_equal, (a, b, k, d, t)),
                depth < i32::MAX,
                item_depth == crate::equality::item_depth(kind, depth),
                item_ht == item_table(kind, ht),
                walk1 == list_walk(LispObject::Cons(self.0), LispConsEndChecks::off, equal_checks(kind)),
                walk2 == list_walk(LispObject::Cons(other.0), LispConsEndChecks::off, equal_checks(kind)),
                nodes1 == walk1.yields(arena@),
                nodes2 == walk2.yields(arena@),
                it1@.tracks(arena@),
                it2@.tracks(arena@),
                nodes1 == nodes1.subrange(0, n) + it1@.yields(arena@),
                nodes2 == nodes2.subrange(0, n) + it2@.yields(arena@),
                it1@.stop(arena@) == walk1.stop(arena@),
                it2@.stop(arena@) == walk2.stop(arena@),
                it1@.stopped(arena@) == walk1.stopped(arena@),
                it2@.stopped(arena@) == walk2.stopped(arena@),
                equal_so_far(arena@, nodes1, nodes2, kind, depth, ht, *internal_equal, n),
            decreases it1@.fuel(arena@),
        {
            let ghost before1 = it1@;
            let ghost before2 = it2@;
            let first = match it1.next(arena) {
                Ok(first) => first,
                Err(e) => {
                    proof {
                        assert(before1.yields(arena@) =~= Seq::<LispCons>::empty());
                        assert(nodes1 =~= nodes1.subrange(0, n));
                    }
                    return Err(e);
                },
            };
            proof {
                if first is Some {
                    assert(before1.yields(arena@) == seq![first->Some_0] + it1@.yields(arena@));
                    assert(nodes1[n] == before1.yields(arena@)[0]);
                    assert(nodes1.subrange(0, n + 1) =~= nodes1.subrange(0, n) + seq![first->Some_0]);
                    assert(nodes1 =~= nodes1.subrange(0, n + 1) + it1@.yields(arena@));
                } else {
                    assert(before1.yields(arena@) =~= Seq::<LispCons>::empty());
                    assert(nodes1 =~= nodes1.subrange(0, n));
                }
            }
            let second = match it2.next(arena) {
                Ok(second) => second,
                Err(e) => {
                    proof {
                        assert(before2.yields(arena@) =~= Seq::<LispCons>::empty());
                        assert(nodes2 =~= nodes2.subrange(0, n));
                    }
                    return Err(e);
                },
            };
            proof {
                if second is Some {
                    assert(before2.yields(arena@) == seq![second->Some_0] + it2@.yields(arena@));
                    assert(nodes2[n] == before2.yields(arena@)[0]);
                    assert(nodes2.subrange(0, n + 1) =~= nodes2.subrange(0, n) + seq![second->Some_0]);
                    assert(nodes2 =~= nodes2.subrange(0, n + 1) + it2@.yields(arena@));
                } else {
                    assert(before2.yields(arena@) =~= Seq::<LispCons>::empty());
                    assert(nodes2 =~= nodes2.subrange(0, n));
                }
            }
            match (first, second) {
                (Some(cons1), Some(cons2)) => {
                    let (item1, tail1) = cons1.as_tuple(arena);
                    let (item2, tail2) = cons2.as_tuple(arena);
                    if !internal_equal(item1, item2, kind, item_depth, item_ht) {
                        return Ok(false);
                    } else if tail1.eq(tail2) {
                        return Ok(true);
                    }
                    proof {
                        n = n + 1;
                    }
                },
                (None, None) => {
                    // Both lists have stopped: what is left decides.
                    return Ok(internal_equal(it1.rest(), it2.rest(), kind, depth + 1, ht));
                },
                _ => {
                    return Ok(false);
                },
            }
        }
    }
}

} // verus!
