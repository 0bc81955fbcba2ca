//! The list of frames: the frame after and the frame before a frame.

use vstd::prelude::*;
use crate::chains::finite;
use crate::frames::{
    frame_or_error, live_frame_data, window_frame_data, window_of, FrameArena, LispFrameOrSelected,
    LispFrameRef, LispWindowRef, Window,
};
use crate::lisp::{LispError, LispObject, TypePredicate};
use crate::lists::{LispCons, LispConsCircularChecks, LispConsEndChecks, PairArena, PairNode};
use crate::list_fns::{elements, firsts};
use crate::walks::{chain_pairs, lemma_finite_walk, lemma_start_tracks};

verus! {

/// Gathers the elements of a list that ends.
pub fn elements_of(list: LispObject, arena: &PairArena) -> (r: Vec<LispObject>)
    requires
        finite(arena@, list),
    ensures
        r@ == elements(arena@, list),
{
    let mut it = list.iter_cars(LispConsEndChecks::off, LispConsCircularChecks::off);
    let ghost start = it@;
    let ghost nodes = chain_pairs(arena@, list);
    let mut out: Vec<LispObject> = Vec::new();
    proof {
        arena.lemma_len();
        lemma_start_tracks(list, None, LispConsCircularChecks::off, arena@);
        lemma_finite_walk(start, arena@);
    }
    loop
        invariant
            it@.tracks(arena@),
            nodes == chain_pairs(arena@, list),
            nodes == start.yields(arena@),
            0 <= out@.len() <= nodes.len(),
            nodes == nodes.subrange(0, out@.len() as int) + it@.yields(arena@),
            out@ == firsts(arena@, nodes.subrange(0, out@.len() as int)),
        decreases it@.fuel(arena@),
    {
        let ghost before = it@;
        let ghost n = out@.len() as int;
        match it.next(arena) {
            Ok(Some(elt)) => {
                proof {
                    let tail = crate::walks::node_of(before.advance(arena@).1);
                    assert(before.yields(arena@) == seq![tail] + it@.yields(arena@));
                    assert(nodes[n] == before.yields(arena@)[0]);
                    assert(nodes.subrange(0, n + 1) =~= nodes.subrange(0, n) + seq![tail]);
                    assert(nodes =~= nodes.subrange(0, n + 1) + it@.yields(arena@));
                }
                out.push(elt);
                proof {
                    assert(out@ =~= firsts(arena@, nodes.subrange(0, n + 1)));
                }
            },
            _ => {
                proof {
                    assert(before.yields(arena@) =~= Seq::<LispCons>::empty());
                    assert(nodes =~= nodes.subrange(0, n));
                }
                return out;
            },
        }
    }
}

/// The position in `items`, at or after `i`, of the first that satisfies
/// `wanted`; the length of `items` if there is none.
pub open spec fn first_index(items: Seq<LispObject>, wanted: spec_fn(LispObject) -> bool, i: int) -> int
    decreases items.len() - i,
{
    if i < 0 || i >= items.len() {
        items.len() as int
    } else if wanted(items[i]) {
        i
    } else {
        first_index(items, wanted, i + 1)
    }
}

/// A position before which nothing satisfies `wanted`, and which holds
/// something that does or is the end, is where the search ends.
pub proof fn lemma_first_index(items: Seq<LispObject>, wanted: spec_fn(LispObject) -> bool, i: int, n: int)
    requires
        0 <= i <= n <= items.len(),
        forall|j: int| i <= j < n ==> !wanted(#[trigger] items[j]),
        n < items.len() ==> wanted(items[n]),
    ensures
        first_index(items, wanted, i) == n,
    decreases n - i,
{
    if i < n {
        lemma_first_index(items, wanted, i + 1, n);
    }
}

/// The test for the frame `frame`.
pub open spec fn is_the_frame(frame: LispFrameRef) -> spec_fn(LispObject) -> bool {
    |x: LispObject| x == LispObject::Frame(frame.0)
}

/// The test for what is no frame.
pub open spec fn is_no_frame() -> spec_fn(LispObject) -> bool {
    |x: LispObject| !(x is Frame)
}

/// Whether `x` stands at more than one place of `items`.
pub open spec fn occurs_twice(items: Seq<LispObject>, x: LispObject) -> bool {
    exists|i: int, j: int| 0 <= i < j < items.len() && items[i] == x && items[j] == x
}

/// The frames that are looked at as candidates for the frame after `frame`,
/// in order, and how the search ends if none of them is accepted. The frames
/// after the first place of `frame` in the list are looked at first; if
/// `frame` stands in the list once only, the whole list is then looked at
/// from its beginning. An element that is no frame ends the search with an
/// error when it is reached.
pub open spec fn next_frame_candidates(items: Seq<LispObject>, frame: LispFrameRef) -> (
    Seq<LispObject>,
    Result<LispFrameRef, LispError>,
) {
    let p = first_index(items, is_the_frame(frame), 0);
    let q = first_index(items, is_no_frame(), 0);
    if q < p {
        (Seq::empty(), Err(LispError::WrongType(TypePredicate::Framep, items[q])))
    } else if q < items.len() {
        (items.subrange(p + 1, q), Err(LispError::WrongType(TypePredicate::Framep, items[q])))
    } else if occurs_twice(items, LispObject::Frame(frame.0)) {
        (items.subrange(p + 1, items.len() as int), Ok(frame))
    } else {
        (items.subrange(p + 1, items.len() as int) + items, Ok(frame))
    }
}

/// Whether `r` is the outcome of asking `candidate` about `candidates` in
/// order until it accepts one: `candidate` said the terminator of the first
/// `n`, and `r` is the next, of which it said something else, or `ending` if
/// there is no next.
pub open spec fn first_accepted<C: Fn(LispObject, LispObject, LispObject) -> LispObject>(
    candidates: Seq<LispObject>,
    ending: Result<LispFrameRef, LispError>,
    frame: LispObject,
    miniframe: LispObject,
    candidate: C,
    n: int,
    r: Result<LispFrameRef, LispError>,
) -> bool {
    &&& 0 <= n <= candidates.len()
    &&& forall|k: int|
        0 <= k < n ==> call_ensures(candidate, (#[trigger] candidates[k], frame, miniframe), LispObject::Nil)
    &&& if n < candidates.len() {
        &&& exists|v: LispObject|
            v != LispObject::Nil && call_ensures(candidate, (candidates[n], frame, miniframe), v)
        &&& r == frame_or_error(candidates[n])
    } else {
        r == ending
    }
}

/// The frame after `frame` in `frame_list`, which is taken to run in a
/// circle: the first frame after it, or failing that before it, that
/// `candidate_frame` accepts for `frame` and `miniframe`; `frame` itself if
/// none is accepted. `frame` must be live and stand in the list, which must
/// end.
pub fn next_frame<C: Fn(LispObject, LispObject, LispObject) -> LispObject>(
    frame: LispFrameOrSelected,
    miniframe: LispObject,
    frame_list: LispObject,
    candidate_frame: &C,
    frames: &FrameArena,
    arena: &PairArena,
) -> (r: Result<LispFrameRef, LispError>)
    requires
        forall|a: LispObject, b: LispObject, c: LispObject| call_requires(*candidate_frame, (a, b, c)),
        finite(arena@, frame_list),
        live_frame_data(frame, frames) is Ok ==> elements(arena@, frame_list).contains(
            LispObject::Frame(frame.frame_spec(frames.current_frame)->Ok_0.0),
        ),
    ensures
        match live_frame_data(frame, frames) {
            Err(e) => r == Err::<LispFrameRef, LispError>(e),
            Ok(_) => {
                let f = frame.frame_spec(frames.current_frame)->Ok_0;
                let (candidates, ending) = next_frame_candidates(elements(arena@, frame_list), f);
                exists|n: int|
                    #[trigger] first_accepted(
                        candidates,
                        ending,
                        LispObject::Frame(f.0),
                        miniframe,
                        *candidate_frame,
                        n,
                        r,
                    )
            },
        },
{
    let frame_ref = match frame.live_or_error(frames) {
        Ok(f) => f,
        Err(e) => {
            return Err(e);
        },
    };
    let frame_obj = frame_ref.as_object();
    let items = elements_of(frame_list, arena);
    let ghost spec_candidates = next_frame_candidates(items@, frame_ref);
    // Before the frame: nothing is asked.
    let p = match find_frame(&items, frame_ref) {
        Ok(p) => p,
        Err(e) => {
            proof {
                assert(first_accepted(
                    spec_candidates.0,
                    spec_candidates.1,
                    frame_obj,
                    miniframe,
                    *candidate_frame,
                    0,
                    Err(e),
                ));
            }
            return Err(e);
        },
    };
    // After the frame: every frame is a candidate.
    let mut again = false;
    let ghost mut n: int = 0;
    let mut k: usize = p + 1;
    while k < items.len()
        invariant
            p < k <= items@.len(),
            live_frame_data(frame, frames) is Ok,
            frame.frame_spec(frames.current_frame) == Ok::<LispFrameRef, LispError>(frame_ref),
            items@ == elements(arena@, frame_list),
            p == first_index(items@, is_the_frame(frame_ref), 0),
            items@[p as int] == frame_obj,
            frame_obj == LispObject::Frame(frame_ref.0),
            forall|a: LispObject, b: LispObject, c: LispObject| call_requires(*candidate_frame, (a, b, c)),
            forall|j: int| 0 <= j < k ==> (#[trigger] items@[j]) is Frame,
            n == k - p - 1,
            forall|j: int|
                p < j < k ==> call_ensures(*candidate_frame, (#[trigger] items@[j], frame_obj, miniframe), LispObject::Nil),
            again <==> exists|j: int| p < j < k && items@[j] == frame_obj,
            spec_candidates == next_frame_candidates(items@, frame_ref),
        decreases items@.len() - k,
    {
        let f = match items[k].as_frame_or_error() {
            Ok(f) => f,
            Err(e) => {
                proof {
                    lemma_first_index(items@, is_no_frame(), 0, k as int);
                    let cands = items@.subrange(p + 1, k as int);
                    assert(spec_candidates.0 == cands);
                    assert forall|j: int| 0 <= j < n implies call_ensures(
                        *candidate_frame,
                        (#[trigger] cands[j], frame_obj, miniframe),
                        LispObject::Nil,
                    ) by {
                        assert(cands[j] == items@[p + 1 + j]);
                    }
                    assert(first_accepted(
                        spec_candidates.0,
                        spec_candidates.1,
                        frame_obj,
                        miniframe,
                        *candidate_frame,
                        n,
                        Err(e),
                    ));
                }
                return Err(e);
            },
        };
        let tmp = candidate_frame(f.as_object(), frame_obj, miniframe);
        if !tmp.is_nil() {
            // Found a candidate: the search is over.
            proof {
                lemma_candidates_prefix(items@, frame_ref, p as int, k as int);
                let cands = spec_candidates.0;
                assert(cands[n] == items@[k as int]);
                assert forall|j: int| 0 <= j < n implies call_ensures(
                    *candidate_frame,
                    (#[trigger] cands[j], frame_obj, miniframe),
                    LispObject::Nil,
                ) by {
                    assert(cands[j] == items@[p + 1 + j]);
                }
                assert(first_accepted(cands, spec_candidates.1, frame_obj, miniframe, *candidate_frame, n, Ok(f)));
            }
            return Ok(f);
        }
        if frame_ref == f {
            again = true;
        }
        k = k + 1;
        proof {
            n = n + 1;
        }
    }
    proof {
        lemma_first_index(items@, is_no_frame(), 0, items@.len() as int);
        lemma_first_index_bounds(items@, is_the_frame(frame_ref), 0);
        lemma_occurs_twice(items@, frame_obj, p as int, again);
    }
    if !again {
        // The frame stands in the list once: the list is gone through again
        // from its beginning.
        let ghost first = items@.subrange(p + 1, items@.len() as int);
        k = 0;
        while k < items.len()
            invariant
                0 <= k <= items@.len(),
                p < items@.len(),
                live_frame_data(frame, frames) is Ok,
                frame.frame_spec(frames.current_frame) == Ok::<LispFrameRef, LispError>(frame_ref),
                items@ == elements(arena@, frame_list),
                first == items@.subrange(p + 1, items@.len() as int),
                spec_candidates == (first + items@, Ok::<LispFrameRef, LispError>(frame_ref)),
                spec_candidates == next_frame_candidates(items@, frame_ref),
                frame_obj == LispObject::Frame(frame_ref.0),
                forall|a: LispObject, b: LispObject, c: LispObject| call_requires(*candidate_frame, (a, b, c)),
                forall|j: int| 0 <= j < items@.len() ==> (#[trigger] items@[j]) is Frame,
                forall|j: int|
                    p < j < items@.len() ==> call_ensures(
                        *candidate_frame,
                        (#[trigger] items@[j], frame_obj, miniframe),
                        LispObject::Nil,
                    ),
                forall|j: int|
                    0 <= j < k ==> call_ensures(
                        *candidate_frame,
                        (#[trigger] items@[j], frame_obj, miniframe),
                        LispObject::Nil,
                    ),
            decreases items@.len() - k,
        {
            let f = match items[k].as_frame_or_error() {
                Ok(f) => f,
                Err(e) => {
                    return Err(e);
                },
            };
            let tmp = candidate_frame(f.as_object(), frame_obj, miniframe);
            if !tmp.is_nil() {
                proof {
                    let cands = spec_candidates.0;
                    let at = first.len() + k;
                    assert(cands[at] == items@[k as int]);
                    assert forall|j: int| 0 <= j < at implies call_ensures(
                        *candidate_frame,
                        (#[trigger] cands[j], frame_obj, miniframe),
                        LispObject::Nil,
                    ) by {
                        if j < first.len() {
                            assert(cands[j] == items@[p + 1 + j]);
                        } else {
                            assert(cands[j] == items@[j - first.len()]);
                        }
                    }
                    assert(first_accepted(cands, spec_candidates.1, frame_obj, miniframe, *candidate_frame, at, Ok(f)));
                }
                return Ok(f);
            }
            k = k + 1;
        }
        proof {
            let cands = spec_candidates.0;
            assert forall|j: int| 0 <= j < cands.len() implies call_ensures(
                *candidate_frame,
                (#[trigger] cands[j], frame_obj, miniframe),
                LispObject::Nil,
            ) by {
                if j < first.len() {
                    assert(cands[j] == items@[p + 1 + j]);
                } else {
                    assert(cands[j] == items@[j - first.len()]);
                }
            }
            assert(first_accepted(
                cands,
                spec_candidates.1,
                frame_obj,
                miniframe,
                *candidate_frame,
                cands.len() as int,
                Ok(frame_ref),
            ));
        }
        return Ok(frame_ref);
    }
    proof {
        let cands = spec_candidates.0;
        assert(cands == items@.subrange(p + 1, items@.len() as int));
        assert forall|j: int| 0 <= j < cands.len() implies call_ensures(
            *candidate_frame,
            (#[trigger] cands[j], frame_obj, miniframe),
            LispObject::Nil,
        ) by {
            assert(cands[j] == items@[p + 1 + j]);
        }
        assert(first_accepted(
            cands,
            spec_candidates.1,
            frame_obj,
            miniframe,
            *candidate_frame,
            cands.len() as int,
            Ok(frame_ref),
        ));
    }
    Ok(frame_ref)
}

/// The first place of `frame` in `items`. An element before it that is no
/// frame is an error.
fn find_frame(items: &Vec<LispObject>, frame: LispFrameRef) -> (r: Result<usize, LispError>)
    requires
        items@.contains(LispObject::Frame(frame.0)),
    ensures
        ({
            let p = first_index(items@, is_the_frame(frame), 0);
            let q = first_index(items@, is_no_frame(), 0);
            match r {
                Ok(i) => i == p && p < q && p < items@.len() && items@[p] == LispObject::Frame(frame.0)
                    && forall|j: int| 0 <= j <= p ==> (#[trigger] items@[j]) is Frame,
                Err(e) => q < p && q < items@.len() && e == LispError::WrongType(
                    TypePredicate::Framep,
                    items@[q],
                ),
            }
        }),
{
    let ghost w = choose|w: int| 0 <= w < items@.len() && items@[w] == LispObject::Frame(frame.0);
    let mut k: usize = 0;
    while k < items.len()
        invariant
            0 <= k <= w < items@.len(),
            items@[w] == LispObject::Frame(frame.0),
            forall|j: int| 0 <= j < k ==> (#[trigger] items@[j]) is Frame && items@[j] != LispObject::Frame(frame.0),
        decreases items@.len() - k,
    {
        let f = match items[k].as_frame_or_error() {
            Ok(f) => f,
            Err(e) => {
                proof {
                    lemma_first_index(items@, is_no_frame(), 0, k as int);
                    lemma_first_index_after(items@, is_the_frame(frame), 0, k as int);
                    lemma_first_index_bounds(items@, is_the_frame(frame), 0);
                }
                return Err(e);
            },
        };
        if frame == f {
            proof {
                lemma_first_index(items@, is_the_frame(frame), 0, k as int);
                lemma_first_index_after(items@, is_no_frame(), 0, k + 1);
            }
            return Ok(k);
        }
        k = k + 1;
    }
    Ok(0)
}

/// The first place of something wanted is not before a place before which
/// nothing is wanted.
pub proof fn lemma_first_index_after(
    items: Seq<LispObject>,
    wanted: spec_fn(LispObject) -> bool,
    i: int,
    n: int,
)
    requires
        0 <= i <= n <= items.len(),
        forall|j: int| i <= j < n ==> !wanted(#[trigger] items[j]),
    ensures
        first_index(items, wanted, i) >= n,
    decreases n - i,
{
    if i < n {
        lemma_first_index_after(items, wanted, i + 1, n);
    } else {
        lemma_first_index_bounds(items, wanted, i);
    }
}

/// A search ends at or after its start, at something wanted or at the end.
pub proof fn lemma_first_index_bounds(items: Seq<LispObject>, wanted: spec_fn(LispObject) -> bool, i: int)
    requires
        0 <= i <= items.len(),
    ensures
        i <= first_index(items, wanted, i) <= items.len(),
        first_index(items, wanted, i) < items.len() ==> wanted(items[first_index(items, wanted, i)]),
        forall|j: int| i <= j < first_index(items, wanted, i) ==> !wanted(#[trigger] items[j]),
    decreases items.len() - i,
{
    if i < items.len() && !wanted(items[i]) {
        lemma_first_index_bounds(items, wanted, i + 1);
    }
}

/// While every element up to `k` is a frame, the candidates begin with the
/// frames after the first place of the frame, up to `k`.
pub proof fn lemma_candidates_prefix(items: Seq<LispObject>, frame: LispFrameRef, p: int, k: int)
    requires
        0 <= p < k < items.len(),
        p == first_index(items, is_the_frame(frame), 0),
        forall|j: int| 0 <= j <= k ==> (#[trigger] items[j]) is Frame,
    ensures
        next_frame_candidates(items, frame).0.len() > k - p - 1,
        forall|j: int|
            0 <= j <= k - p - 1 ==> #[trigger] next_frame_candidates(items, frame).0[j] == items[p + 1 + j],
{
    lemma_first_index_after(items, is_no_frame(), 0, k + 1);
    lemma_first_index_bounds(items, is_no_frame(), 0);
}

/// Whether a frame stands in the list twice, given its first place and
/// whether it stands at a later place.
pub proof fn lemma_occurs_twice(items: Seq<LispObject>, x: LispObject, p: int, again: bool)
    requires
        0 <= p < items.len(),
        items[p] == x,
        forall|j: int| 0 <= j < p ==> items[j] != x,
        again <==> exists|j: int| p < j < items.len() && items[j] == x,
    ensures
        occurs_twice(items, x) == again,
{
    if again {
        let j = choose|j: int| p < j < items.len() && items[j] == x;
        assert(0 <= p < j < items.len() && items[p] == x && items[j] == x);
    }
    if occurs_twice(items, x) {
        let (i, j) = choose|i: int, j: int| 0 <= i < j < items.len() && items[i] == x && items[j] == x;
        assert(p <= i);
        assert(p < j < items.len() && items[j] == x);
    }
}

/// The candidate that was accepted last among the first `k` answers; the
/// terminator if none was.
pub open spec fn accepted_before(answers: Seq<LispObject>, k: nat) -> LispObject
    decreases k,
{
    if k == 0 {
        LispObject::Nil
    } else if answers[k - 1] != LispObject::Nil {
        answers[k - 1]
    } else {
        accepted_before(answers, (k - 1) as nat)
    }
}

/// Whether the search for the frame before `frame` stops at element `k`,
/// given what was accepted before it: at something that is no frame, and at
/// `frame` itself once a candidate has been accepted.
pub open spec fn previous_stops(items: Seq<LispObject>, frame: LispObject, answers: Seq<LispObject>, k: int) -> bool {
    !(items[k] is Frame) || (items[k] == frame && accepted_before(answers, k as nat) != LispObject::Nil)
}

/// Whether `answers` are what `candidate` said of the elements of the list
/// before the search stopped.
pub open spec fn previous_asked<C: Fn(LispObject, LispObject, LispObject) -> LispObject>(
    items: Seq<LispObject>,
    frame: LispObject,
    miniframe: LispObject,
    candidate: C,
    answers: Seq<LispObject>,
) -> bool {
    &&& answers.len() <= items.len()
    &&& forall|k: int|
        0 <= k < answers.len() ==> #[trigger] previous_step(items, frame, miniframe, candidate, answers, k)
    &&& answers.len() < items.len() ==> previous_stops(items, frame, answers, answers.len() as int)
}

/// Whether answer `k` is what `candidate` said of element `k`, at which the
/// search did not stop.
pub open spec fn previous_step<C: Fn(LispObject, LispObject, LispObject) -> LispObject>(
    items: Seq<LispObject>,
    frame: LispObject,
    miniframe: LispObject,
    candidate: C,
    answers: Seq<LispObject>,
    k: int,
) -> bool {
    !previous_stops(items, frame, answers, k) && call_ensures(candidate, (items[k], frame, miniframe), answers[k])
}

/// One more answer, for an element at which the search did not stop, extends
/// the record of the search.
pub proof fn lemma_previous_push<C: Fn(LispObject, LispObject, LispObject) -> LispObject>(
    items: Seq<LispObject>,
    frame: LispObject,
    miniframe: LispObject,
    candidate: C,
    answers: Seq<LispObject>,
    v: LispObject,
)
    requires
        answers.len() < items.len(),
        forall|k: int|
            0 <= k < answers.len() ==> #[trigger] previous_step(items, frame, miniframe, candidate, answers, k),
        !previous_stops(items, frame, answers, answers.len() as int),
        call_ensures(candidate, (items[answers.len() as int], frame, miniframe), v),
    ensures
        forall|k: int|
            0 <= k < answers.len() + 1 ==> #[trigger] previous_step(
                items,
                frame,
                miniframe,
                candidate,
                answers.push(v),
                k,
            ),
        accepted_before(answers.push(v), (answers.len() + 1) as nat) == if v != LispObject::Nil {
            v
        } else {
            accepted_before(answers, answers.len())
        },
{
    let more = answers.push(v);
    assert forall|k: int| 0 <= k < answers.len() + 1 implies #[trigger] previous_step(
        items,
        frame,
        miniframe,
        candidate,
        more,
        k,
    ) by {
        lemma_accepted_prefix(answers, more, k as nat);
        if k < answers.len() {
            assert(previous_step(items, frame, miniframe, candidate, answers, k));
            assert(more[k] == answers[k]);
        }
    }
    lemma_accepted_prefix(answers, more, answers.len());
}

/// The outcome of the search for the frame before `frame`, given the answers
/// of the candidate test.
pub open spec fn previous_result(items: Seq<LispObject>, frame: LispFrameRef, answers: Seq<LispObject>) -> Result<
    LispFrameRef,
    LispError,
> {
    let n = answers.len();
    let prev = accepted_before(answers, n);
    if n < items.len() && !(items[n as int] is Frame) {
        Err(LispError::WrongType(TypePredicate::Framep, items[n as int]))
    } else if prev == LispObject::Nil {
        Ok(frame)
    } else {
        frame_or_error(prev)
    }
}

/// What was accepted before a place depends on the answers before it only.
pub proof fn lemma_accepted_prefix(answers: Seq<LispObject>, more: Seq<LispObject>, k: nat)
    requires
        k <= answers.len() <= more.len(),
        forall|j: int| 0 <= j < answers.len() ==> answers[j] == more[j],
    ensures
        accepted_before(answers, k) == accepted_before(more, k),
    decreases k,
{
    if k > 0 {
        lemma_accepted_prefix(answers, more, (k - 1) as nat);
    }
}

/// The frame before `frame` in `frame_list`: what `candidate_frame` said of
/// the last frame before it that it accepted for `frame` and `miniframe`;
/// failing that, of the last frame in the list that it accepted; `frame`
/// itself if it accepted none. `frame` must be live, and the list must end.
pub fn previous_frame<C: Fn(LispObject, LispObject, LispObject) -> LispObject>(
    frame: LispFrameOrSelected,
    miniframe: LispObject,
    frame_list: LispObject,
    candidate_frame: &C,
    frames: &FrameArena,
    arena: &PairArena,
) -> (r: Result<LispFrameRef, LispError>)
    requires
        forall|a: LispObject, b: LispObject, c: LispObject| call_requires(*candidate_frame, (a, b, c)),
        finite(arena@, frame_list),
    ensures
        match live_frame_data(frame, frames) {
            Err(e) => r == Err::<LispFrameRef, LispError>(e),
            Ok(_) => {
                let f = frame.frame_spec(frames.current_frame)->Ok_0;
                let items = elements(arena@, frame_list);
                exists|answers: Seq<LispObject>|
                    #[trigger] previous_asked(items, LispObject::Frame(f.0), miniframe, *candidate_frame, answers)
                        && r == previous_result(items, f, answers)
            },
        },
{
    let frame_ref = match frame.live_or_error(frames) {
        Ok(f) => f,
        Err(e) => {
            return Err(e);
        },
    };
    let frame_obj = frame_ref.as_object();
    let items = elements_of(frame_list, arena);
    let ghost mut answers: Seq<LispObject> = Seq::empty();
    let mut prev = LispObject::Nil;
    let mut k: usize = 0;
    while k < items.len()
        invariant
            0 <= k <= items@.len(),
            live_frame_data(frame, frames) is Ok,
            frame.frame_spec(frames.current_frame) == Ok::<LispFrameRef, LispError>(frame_ref),
            items@ == elements(arena@, frame_list),
            frame_obj == LispObject::Frame(frame_ref.0),
            forall|a: LispObject, b: LispObject, c: LispObject| call_requires(*candidate_frame, (a, b, c)),
            answers.len() == k,
            prev == accepted_before(answers, k as nat),
            forall|j: int|
                0 <= j < k ==> #[trigger] previous_step(
                    items@,
                    frame_obj,
                    miniframe,
                    *candidate_frame,
                    answers,
                    j,
                ),
        decreases items@.len() - k,
    {
        let f = match items[k].as_frame_or_error() {
            Ok(f) => f,
            Err(e) => {
                proof {
                    assert(previous_asked(items@, frame_obj, miniframe, *candidate_frame, answers));
                }
                return Err(e);
            },
        };
        if frame_ref == f && !prev.is_nil() {
            // The frames match and a frame before was accepted.
            proof {
                assert(previous_asked(items@, frame_obj, miniframe, *candidate_frame, answers));
            }
            return prev.as_frame_or_error();
        }
        let tmp = candidate_frame(f.as_object(), frame_obj, miniframe);
        if !tmp.is_nil() {
            // Found a candidate: it is remembered.
            prev = tmp;
        }
        proof {
            lemma_previous_push(items@, frame_obj, miniframe, *candidate_frame, answers, tmp);
            answers = answers.push(tmp);
        }
        k = k + 1;
    }
    proof {
        assert(previous_asked(items@, frame_obj, miniframe, *candidate_frame, answers));
    }
    // The whole list has been gone through.
    if prev.is_nil() {
        // No frame was accepted.
        Ok(frame_ref)
    } else {
        // No frame before the frame was accepted: the last in the list is it.
        prev.as_frame_or_error()
    }
}

/// The window `k` levels below `w`: the window that is the contents of the
/// window above it. A window whose contents is no window is the last level.
pub open spec fn descent(windows: Seq<Window>, w: LispObject, k: nat) -> LispObject
    decreases k,
{
    if k == 0 {
        w
    } else {
        let above = descent(windows, w, (k - 1) as nat);
        if has_child(windows, above) {
            window_of(windows, above)->Some_0.contents
        } else {
            above
        }
    }
}

/// Whether `w` is a window whose contents is a window.
pub open spec fn has_child(windows: Seq<Window>, w: LispObject) -> bool {
    window_of(windows, w) is Some && window_of(windows, w)->Some_0.contents is Window
}

/// Once the descent has reached a window without a child, it stays there.
pub proof fn lemma_descent_stays(windows: Seq<Window>, w: LispObject, a: nat, b: nat)
    requires
        !has_child(windows, descent(windows, w, a)),
        a <= b,
    ensures
        descent(windows, w, b) == descent(windows, w, a),
    decreases b,
{
    if a < b {
        lemma_descent_stays(windows, w, a, (b - 1) as nat);
    }
}

/// Whether the descent from `w` reaches a window without a child.
pub open spec fn has_bottom(windows: Seq<Window>, w: LispObject) -> bool {
    exists|d: nat| !has_child(windows, #[trigger] descent(windows, w, d))
}

/// The window without a child that the descent from `w` reaches.
pub open spec fn bottom(windows: Seq<Window>, w: LispObject) -> LispObject {
    descent(windows, w, choose|d: nat| !has_child(windows, #[trigger] descent(windows, w, d)))
}

/// The topmost, leftmost live window on the frame of `frame_or_window`: the
/// window reached from the root window of the frame by going to the contents
/// for as long as the contents is a window. The tree of windows must have a
/// bottom there.
pub fn frame_first_window(frame_or_window: LispObject, arena: &FrameArena) -> (r: Result<LispWindowRef, LispError>)
    requires
        window_frame_data(frame_or_window, arena) matches Ok(f) ==> has_bottom(arena.windows@, f.root_window),
    ensures
        r == match window_frame_data(frame_or_window, arena) {
            Err(e) => Err::<LispWindowRef, LispError>(e),
            Ok(f) => if f.root_window is Window {
                Ok(LispWindowRef(bottom(arena.windows@, f.root_window)->Window_0))
            } else {
                Err(LispError::WrongType(TypePredicate::Windowp, f.root_window))
            },
        },
{
    let root = match crate::frames::frame_root_window(frame_or_window, arena) {
        Ok(root) => root,
        Err(e) => {
            return Err(e);
        },
    };
    let mut window = match root {
        LispObject::Window(i) => LispWindowRef(i),
        _ => {
            return Err(LispError::WrongType(TypePredicate::Windowp, root));
        },
    };
    let ghost depth = choose|d: nat| !has_child(arena.windows@, #[trigger] descent(arena.windows@, root, d));
    let ghost mut k: nat = 0;
    loop
        invariant
            k <= depth,
            depth == choose|d: nat| !has_child(arena.windows@, #[trigger] descent(arena.windows@, root, d)),
            !has_child(arena.windows@, descent(arena.windows@, root, depth)),
            LispObject::Window(window.0) == descent(arena.windows@, root, k),
            root is Window,
            window_frame_data(frame_or_window, arena) matches Ok(f) && f.root_window == root,
        decreases depth - k,
    {
        let child = match arena.window(LispObject::Window(window.0)) {
            Some((_, win)) => match win.contents {
                LispObject::Window(i) => Some(LispWindowRef(i)),
                _ => None,
            },
            None => None,
        };
        match child {
            Some(win) => {
                proof {
                    if k >= depth {
                        lemma_descent_stays(arena.windows@, root, depth, k);
                    }
                    k = k + 1;
                }
                window = win;
            },
            None => {
                proof {
                    lemma_descent_stays(arena.windows@, root, k, depth);
                }
                return Ok(window);
            },
        }
    }
}

} // verus!
