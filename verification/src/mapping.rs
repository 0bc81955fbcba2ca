//! Mapping a function over the elements of a list.

use vstd::prelude::*;
use crate::chains::finite;
use crate::lisp::{LispError, LispObject};
use crate::list_fns::{first_of, firsts, list_walk};
use crate::lists::{CarIter, LispCons, LispConsCircularChecks, LispConsEndChecks, PairArena, Traversal};
use crate::walks::{lemma_start_tracks, lemma_yields_bounded};

verus! {

/// The number of results of a mapping over `n` elements, as far as a fixnum
/// of the machine holds it.
pub open spec fn mapped_count(n: nat) -> i64 {
    if n > i64::MAX {
        i64::MAX
    } else {
        n as i64
    }
}

/// Whether `after` is `before` with the results of `fun` for the first
/// elements of the walk in its first places: as many as there are elements
/// and places. The other places are as they were.
pub open spec fn mapped_into<F: Fn(LispObject) -> LispObject>(
    before: Seq<LispObject>,
    after: Seq<LispObject>,
    fun: F,
    elements: Seq<LispObject>,
) -> bool {
    &&& after.len() == before.len()
    &&& forall|i: int|
        0 <= i < before.len() ==> if i < elements.len() {
            call_ensures(fun, (elements[i],), #[trigger] after[i])
        } else {
            after[i] == before[i]
        }
}

/// Calls `fun` with every element that the walker hands out, in order, and
/// stores the results in `output` as far as it has room. Returns the number
/// of elements.
pub fn mapcar_over_iterator<F: Fn(LispObject) -> LispObject>(
    output: &mut Vec<LispObject>,
    fun: &F,
    walker: CarIter,
    arena: &PairArena,
) -> (r: Result<i64, LispError>)
    requires
        forall|v: LispObject| call_requires(*fun, (v,)),
        walker@.tracks(arena@),
    ensures
        mapped_into(old(output)@, final(output)@, *fun, firsts(arena@, walker@.yields(arena@))),
        r == match walker@.stop(arena@) {
            Ok(_) => Ok::<i64, LispError>(mapped_count(walker@.yields(arena@).len())),
            Err(e) => Err(e),
        },
{
    let mut it = walker;
    let ghost start = it@;
    let ghost nodes = start.yields(arena@);
    let ghost elements = firsts(arena@, nodes);
    let mut mapped: u128 = 0;
    let mut i: usize = 0;
    proof {
        arena.lemma_len();
        lemma_yields_bounded(start, arena@);
        crate::list_fns::lemma_fuel_bounded(start, arena@);
    }
    loop
        invariant
            forall|v: LispObject| call_requires(*fun, (v,)),
            it@.tracks(arena@),
            start == walker@,
            nodes == start.yields(arena@),
            elements == firsts(arena@, nodes),
            nodes.len() <= 4 * arena@.len() + 4,
            arena@.len() <= usize::MAX,
            0 <= mapped <= nodes.len(),
            i == if mapped > usize::MAX { usize::MAX as int } else { mapped as int },
            nodes == nodes.subrange(0, mapped as int) + it@.yields(arena@),
            it@.stop(arena@) == start.stop(arena@),
            output@.len() == old(output)@.len(),
            forall|k: int|
                0 <= k < output@.len() ==> if k < mapped {
                    call_ensures(*fun, (elements[k],), #[trigger] output@[k])
                } else {
                    output@[k] == old(output)@[k]
                },
        decreases it@.fuel(arena@),
    {
        let ghost before = it@;
        match it.next(arena) {
            Ok(Some(elt)) => {
                proof {
                    let tail = crate::walks::node_of(before.advance(arena@).1);
                    assert(before.yields(arena@) == seq![tail] + it@.yields(arena@));
                    assert(nodes[mapped as int] == before.yields(arena@)[0]);
                    assert(nodes.subrange(0, mapped + 1) =~= nodes.subrange(0, mapped as int) + seq![tail]);
                    assert(nodes =~= nodes.subrange(0, mapped + 1) + it@.yields(arena@));
                    assert(elements[mapped as int] == elt);
                }
                let dummy = fun(elt);
                if output.len() > i && mapped <= usize::MAX as u128 {
                    output[i] = dummy;
                }
                mapped = mapped + 1;
                if i < usize::MAX {
                    i = i + 1;
                }
            },
            Ok(None) => {
                proof {
                    assert(before.yields(arena@) =~= Seq::<LispCons>::empty());
                    assert(nodes =~= nodes.subrange(0, mapped as int));
                }
                if mapped > i64::MAX as u128 {
                    return Ok(i64::MAX);
                }
                return Ok(mapped as i64);
            },
            Err(e) => {
                proof {
                    assert(before.yields(arena@) =~= Seq::<LispCons>::empty());
                    assert(nodes =~= nodes.subrange(0, mapped as int));
                }
                return Err(e);
            },
        }
    }
}

/// Applies `fun` to each element of the list `seq`, one by one, and stores
/// the results in `vals` as far as it has room. Returns the number of
/// elements. The list is walked without checks: it must end, and what it
/// ends in does not matter.
pub fn mapcar1<F: Fn(LispObject) -> LispObject>(
    vals: &mut Vec<LispObject>,
    fun: &F,
    seq: LispObject,
    arena: &PairArena,
) -> (r: i64)
    requires
        forall|v: LispObject| call_requires(*fun, (v,)),
        finite(arena@, seq),
    ensures
        ({
            let nodes = crate::walks::chain_pairs(arena@, seq);
            &&& mapped_into(old(vals)@, final(vals)@, *fun, firsts(arena@, nodes))
            &&& r == mapped_count(nodes.len())
        }),
{
    let it = seq.iter_cars(LispConsEndChecks::off, LispConsCircularChecks::off);
    proof {
        arena.lemma_len();
        lemma_start_tracks(seq, None, LispConsCircularChecks::off, arena@);
        crate::walks::lemma_finite_walk(it@, arena@);
    }
    match mapcar_over_iterator(vals, fun, it, arena) {
        Ok(n) => n,
        Err(_) => 0,
    }
}

} // verus!
