//! What a walk over an unchanging arena produces: that it ends, which nodes it
//! hands out, and how it stops.

use vstd::prelude::*;
use crate::chains::{
    chain_len, finite, lemma_chain_len, lemma_chain_len_rest, lemma_chain_len_zero,
    lemma_finite_chain_has_no_repeat, lemma_long_chain_repeats, lemma_pairs_before,
    lemma_repeat_shifts, lemma_tail_at_add,
};
use crate::lisp::{LispError, LispObject, TypePredicate};
use crate::lists::{
    is_pair, rest_of, tail_at, LispCons, LispConsCircularChecks, PairNode, StepResult, Stride,
    Traversal, WalkerState,
};

verus! {

/// Whether a step handed out a node.
pub open spec fn is_node(r: StepResult) -> bool {
    r matches Ok(Some(_))
}

/// The node that a step handed out.
pub open spec fn node_of(r: StepResult) -> LispCons {
    r->Ok_0->Some_0
}

impl Traversal {
    /// The number of links between the head and the tortoise of a walk that
    /// compares.
    pub open spec fn tortoise_pos(self) -> nat {
        (self.step_budget - 2) as nat
    }

    /// The number of links between the head and `current` of a walk that
    /// compares.
    pub open spec fn pos(self) -> nat {
        (2 * self.step_budget - 2 - self.step_counter) as nat
    }

    /// Whether this walk has run over `cells` as they are now, from its head
    /// and without stopping. A walk that compares has kept its tortoise and
    /// its counters in step with the chain; a walk that does not compare must
    /// be on a chain that ends.
    pub open spec fn tracks(self, cells: Seq<PairNode>) -> bool {
        &&& self.wf()
        &&& cells.len() <= usize::MAX
        &&& if self.cycle_policy == LispConsCircularChecks::off {
            finite(cells, self.current)
        } else {
            &&& self.step_budget <= 2 * cells.len() + 2
            &&& self.tortoise == tail_at(cells, self.head, self.tortoise_pos())
            &&& self.current == tail_at(cells, self.head, self.pos())
            &&& forall|k: nat| k < self.pos() ==> is_pair(cells, #[trigger] tail_at(cells, self.head, k))
            &&& forall|p: nat|
                self.tortoise_pos() < p <= self.pos() ==> #[trigger] tail_at(cells, self.head, p)
                    != self.tortoise
        }
    }

    /// A bound on the number of nodes that this walk can still hand out over
    /// `cells`.
    pub open spec fn fuel(self, cells: Seq<PairNode>) -> nat {
        if self.cycle_policy == LispConsCircularChecks::off {
            chain_len(cells, self.current)
        } else {
            (4 * cells.len() + 4 - self.pos()) as nat
        }
    }

    /// The nodes that this walk hands out over `cells` until it stops.
    pub open spec fn yields(self, cells: Seq<PairNode>) -> Seq<LispCons>
        decreases self.fuel(cells),
    {
        if self.tracks(cells) && is_node(self.advance(cells).1) {
            proof {
                lemma_advance_tracks(self, cells);
            }
            seq![node_of(self.advance(cells).1)] + self.advance(cells).0.yields(cells)
        } else {
            Seq::empty()
        }
    }

    /// The walk at the moment it stops over `cells`: after the first request
    /// that hands out no node.
    pub open spec fn stopped(self, cells: Seq<PairNode>) -> Traversal
        decreases self.fuel(cells),
    {
        if self.tracks(cells) && is_node(self.advance(cells).1) {
            proof {
                lemma_advance_tracks(self, cells);
            }
            self.advance(cells).0.stopped(cells)
        } else {
            self.advance(cells).0
        }
    }

    /// How this walk stops over `cells`: the result of the first request that
    /// hands out no node.
    pub open spec fn stop(self, cells: Seq<PairNode>) -> StepResult
        decreases self.fuel(cells),
    {
        if self.tracks(cells) && is_node(self.advance(cells).1) {
            proof {
                lemma_advance_tracks(self, cells);
            }
            self.advance(cells).0.stop(cells)
        } else {
            self.advance(cells).1
        }
    }

    /// How a walk ends at a tail that is no pair node.
    pub open spec fn end_result(self, tail: LispObject) -> StepResult {
        if tail != LispObject::Nil && self.end_error is Some {
            Err(LispError::WrongStructure(self.end_error->Some_0, self.head))
        } else {
            Ok(None)
        }
    }
}

/// The handles of the pair nodes on the chain from `v`, in order.
pub open spec fn chain_pairs(cells: Seq<PairNode>, v: LispObject) -> Seq<LispCons> {
    Seq::new(chain_len(cells, v), |k: int| LispCons(tail_at(cells, v, k as nat)->Cons_0))
}

/// A walk that has not taken a step tracks every arena, provided that it
/// compares or that the chain ends.
pub proof fn lemma_start_tracks(
    head: LispObject,
    end_error: Option<TypePredicate>,
    cycle_policy: LispConsCircularChecks,
    cells: Seq<PairNode>,
)
    requires
        cells.len() <= usize::MAX,
        cycle_policy == LispConsCircularChecks::off ==> finite(cells, head),
    ensures
        Traversal::start(head, end_error, cycle_policy).tracks(cells),
        Traversal::start(head, end_error, cycle_policy).pos() == 0,
{
    let t = Traversal::start(head, end_error, cycle_policy);
    assert(tail_at(cells, head, 0) == head);
}

/// A link that hands out a node keeps the walk in step with the arena and
/// uses up fuel.
pub proof fn lemma_step_tracks(t: Traversal, cells: Seq<PairNode>)
    requires
        t.tracks(cells),
        is_node(t.step(cells).1),
    ensures
        t.step(cells).0.tracks(cells),
        t.step(cells).0.fuel(cells) < t.fuel(cells),
        t.step(cells).0.fuel(cells) + 1 == t.fuel(cells),
{
    let t2 = t.step(cells).0;
    if t.cycle_policy == LispConsCircularChecks::off {
        lemma_chain_len_rest(cells, t.current);
    } else {
        let n = cells.len();
        let head = t.head;
        let pos = t.pos();
        let next = rest_of(cells, t.current);
        assert(tail_at(cells, head, pos + 1) == next);
        assert forall|k: nat| k < pos + 1 implies is_pair(cells, #[trigger] tail_at(cells, head, k)) by {
            if k == pos {
            }
        }
        if t.step_counter == 1 {
            // The budget is used up. Had the tortoise been beyond the last cell,
            // the chain would have come back to it within this budget.
            let tp = t.tortoise_pos();
            if tp >= n {
                assert forall|k: nat| k <= n implies is_pair(cells, #[trigger] tail_at(cells, head, k)) by {
                }
                let (i, j) = lemma_long_chain_repeats(cells, head);
                let d = (j - i) as nat;
                lemma_repeat_shifts(cells, head, i, j, (tp - i) as nat);
                assert(i + (tp - i) as nat == tp);
                assert(j + (tp - i) as nat == tp + d);
                assert(tail_at(cells, head, tp + d) == t.tortoise);
                assert(tp < tp + d <= pos);
                assert(false);
            }
            assert(t.step_budget <= n + 1);
            assert(t2.step_budget == 2 * t.step_budget);
            assert(t2.pos() == pos + 1);
            assert(t2.tortoise_pos() == pos + 1);
        } else {
            assert(t2.pos() == pos + 1);
            assert(t2.tortoise_pos() == t.tortoise_pos());
            assert forall|p: nat| t2.tortoise_pos() < p <= t2.pos() implies #[trigger] tail_at(
                cells,
                head,
                p,
            ) != t2.tortoise by {
                if p == pos + 1 {
                }
            }
        }
    }
}

/// A request that hands out a node keeps the walk in step with the arena and
/// uses up fuel.
pub proof fn lemma_advance_tracks(t: Traversal, cells: Seq<PairNode>)
    requires
        t.tracks(cells),
        is_node(t.advance(cells).1),
    ensures
        t.advance(cells).0.tracks(cells),
        t.advance(cells).0.fuel(cells) < t.fuel(cells),
{
    let begun = Traversal { started: true, ..t };
    assert(begun.tracks(cells));
    assert(begun.fuel(cells) == t.fuel(cells));
    if t.started && t.stride == Stride::Two {
        lemma_step_tracks(begun, cells);
        lemma_step_tracks(begun.step(cells).0, cells);
    } else {
        lemma_step_tracks(begun, cells);
    }
}

/// A walk hands out no more nodes than it has fuel.
pub proof fn lemma_yields_bounded(t: Traversal, cells: Seq<PairNode>)
    ensures
        t.yields(cells).len() <= t.fuel(cells),
    decreases t.fuel(cells),
{
    if t.tracks(cells) && is_node(t.advance(cells).1) {
        lemma_advance_tracks(t, cells);
        lemma_yields_bounded(t.advance(cells).0, cells);
    }
}

/// A walk that compares stops within a bound that depends on the size of the
/// arena alone: whatever the shape of the chain, it hands out at most four
/// nodes for each cell of the arena, and four more.
pub proof fn lemma_checked_walk_is_bounded(
    head: LispObject,
    end_error: Option<TypePredicate>,
    cycle_policy: LispConsCircularChecks,
    stride: Stride,
    cells: Seq<PairNode>,
)
    requires
        cycle_policy != LispConsCircularChecks::off,
    ensures
        (Traversal { stride, ..Traversal::start(head, end_error, cycle_policy) }).yields(cells).len()
            <= 4 * cells.len() + 4,
{
    let t = Traversal { stride, ..Traversal::start(head, end_error, cycle_policy) };
    lemma_yields_bounded(t, cells);
}

/// Over a chain that ends, a walk with stride one hands out the pair nodes of
/// the chain in order, whatever its cycle policy, and stops at the tail that
/// is no pair node: with an error if end checks are on and that tail is not
/// the terminator, quietly otherwise.
pub proof fn lemma_finite_walk(t: Traversal, cells: Seq<PairNode>)
    requires
        t.tracks(cells),
        t.stride == Stride::One,
        finite(cells, t.head),
    ensures
        finite(cells, t.current),
        t.yields(cells) == chain_pairs(cells, t.current),
        t.stopped(cells).current == tail_at(cells, t.current, chain_len(cells, t.current)),
        t.stop(cells) == t.end_result(t.stopped(cells).current),
        t.stopped(cells).state == if t.stop(cells) is Err {
            WalkerState::ExhaustedMalformed
        } else {
            WalkerState::ExhaustedClean
        },
    decreases t.fuel(cells),
{
    let checked = t.cycle_policy != LispConsCircularChecks::off;
    if checked {
        crate::chains::lemma_finite_tail(cells, t.head, t.pos());
    }
    let begun = Traversal { started: true, ..t };
    assert(t.advance(cells) == begun.step(cells));
    if !is_pair(cells, t.current) {
        lemma_chain_len_zero(cells, t.current);
        assert(t.yields(cells) =~= chain_pairs(cells, t.current));
        assert(tail_at(cells, t.current, 0) == t.current);
    } else {
        let next = rest_of(cells, t.current);
        if checked {
            let tp = t.tortoise_pos();
            lemma_pairs_before(cells, t.head, tp, t.pos());
            lemma_finite_chain_has_no_repeat(cells, t.head, tp, t.pos() + 1);
            assert(tail_at(cells, t.head, t.pos() + 1) == next);
        }
        assert(is_node(t.advance(cells).1));
        let t2 = t.advance(cells).0;
        lemma_advance_tracks(t, cells);
        lemma_finite_walk(t2, cells);
        lemma_chain_len_rest(cells, t.current);
        let n = chain_len(cells, t.current);
        assert(t2.current == next);
        assert(tail_at(cells, t.current, 0) == t.current);
        assert forall|k: nat| #![auto] tail_at(cells, t.current, k + 1) == tail_at(cells, next, k) by {
            crate::chains::lemma_tail_at_rest(cells, t.current, k);
        }
        assert(tail_at(cells, t.current, ((n - 1) as nat) + 1) == tail_at(cells, next, (n - 1) as nat));
        let lhs = seq![node_of(t.advance(cells).1)] + chain_pairs(cells, next);
        let rhs = chain_pairs(cells, t.current);
        assert(lhs.len() == rhs.len());
        assert forall|i: int| 0 <= i < lhs.len() implies lhs[i] == rhs[i] by {
            if i > 0 {
                assert(tail_at(cells, t.current, ((i - 1) as nat) + 1) == tail_at(cells, next, (i - 1) as nat));
            }
        }
        assert(lhs =~= rhs);
    }
}

/// Over a chain that ends, the three cycle policies produce the same nodes and
/// stop in the same way.
pub proof fn lemma_acyclic_equivalence(
    head: LispObject,
    end_error: Option<TypePredicate>,
    first: LispConsCircularChecks,
    second: LispConsCircularChecks,
    cells: Seq<PairNode>,
)
    requires
        cells.len() <= usize::MAX,
        finite(cells, head),
    ensures
        Traversal::start(head, end_error, first).yields(cells) == Traversal::start(
            head,
            end_error,
            second,
        ).yields(cells),
        Traversal::start(head, end_error, first).stop(cells) == Traversal::start(
            head,
            end_error,
            second,
        ).stop(cells),
        Traversal::start(head, end_error, first).stopped(cells).current == Traversal::start(
            head,
            end_error,
            second,
        ).stopped(cells).current,
{
    lemma_start_tracks(head, end_error, first, cells);
    lemma_start_tracks(head, end_error, second, cells);
    lemma_finite_walk(Traversal::start(head, end_error, first), cells);
    lemma_finite_walk(Traversal::start(head, end_error, second), cells);
}

/// Over a chain that never ends, a walk that compares stops because it meets
/// its tortoise again: with an error under the `on` policy, quietly under
/// `safe`. The state of the stopped walk tells this end from the end of a
/// chain.
pub proof fn lemma_cycle_is_found(t: Traversal, cells: Seq<PairNode>)
    requires
        t.tracks(cells),
        t.cycle_policy != LispConsCircularChecks::off,
        !finite(cells, t.head),
    ensures
        t.stopped(cells).state == WalkerState::CycleDetected,
        t.stop(cells) == if t.cycle_policy == LispConsCircularChecks::on {
            Err::<Option<LispCons>, LispError>(LispError::CircularStructure(t.stopped(cells).current))
        } else {
            Ok(None)
        },
    decreases t.fuel(cells),
{
    assert forall|k: nat| is_pair(cells, #[trigger] tail_at(cells, t.head, k)) by {
    }
    let begun = Traversal { started: true, ..t };
    assert(begun.tracks(cells));
    assert(is_pair(cells, tail_at(cells, t.head, begun.pos())));
    if is_node(t.advance(cells).1) {
        lemma_advance_tracks(t, cells);
        lemma_cycle_is_found(t.advance(cells).0, cells);
    } else if t.started && t.stride == Stride::Two {
        if is_node(begun.step(cells).1) {
            lemma_step_tracks(begun, cells);
            let skipped = begun.step(cells).0;
            assert(is_pair(cells, tail_at(cells, t.head, skipped.pos())));
        }
    }
}

/// On a chain that comes back to an earlier value after `j` links, a link
/// that hands out a node leaves the step budget within twice `j` and two.
pub proof fn lemma_step_within(t: Traversal, cells: Seq<PairNode>, i: nat, j: nat)
    requires
        t.tracks(cells),
        t.cycle_policy != LispConsCircularChecks::off,
        i < j,
        tail_at(cells, t.head, i) == tail_at(cells, t.head, j),
        t.step_budget <= 2 * j + 2,
        is_node(t.step(cells).1),
    ensures
        t.step(cells).0.step_budget <= 2 * j + 2,
        t.step(cells).0.pos() == t.pos() + 1,
        t.step(cells).0.cycle_policy == t.cycle_policy,
        t.step(cells).0.head == t.head,
{
    if t.step_counter == 1 {
        let tp = t.tortoise_pos();
        if tp >= j {
            let d = (j - i) as nat;
            lemma_repeat_shifts(cells, t.head, i, j, (tp - i) as nat);
            assert(i + (tp - i) as nat == tp);
            assert(j + (tp - i) as nat == tp + d);
            assert(tail_at(cells, t.head, tp + d) == t.tortoise);
            assert(tp < tp + d <= t.pos());
            assert(false);
        }
    }
}

/// On a chain that comes back to an earlier value after `j` links, a walk
/// that compares hands out no more nodes than four for each of the `j` links
/// and four more, less the nodes it has passed.
pub proof fn lemma_yields_within(t: Traversal, cells: Seq<PairNode>, i: nat, j: nat)
    requires
        t.wf(),
        t.cycle_policy != LispConsCircularChecks::off,
        i < j,
        tail_at(cells, t.head, i) == tail_at(cells, t.head, j),
        t.step_budget <= 2 * j + 2,
    ensures
        t.yields(cells).len() + t.pos() <= 4 * j + 4,
    decreases t.fuel(cells),
{
    if t.tracks(cells) && is_node(t.advance(cells).1) {
        lemma_advance_tracks(t, cells);
        let begun = Traversal { started: true, ..t };
        assert(begun.tracks(cells));
        assert(begun.pos() == t.pos());
        if t.started && t.stride == Stride::Two {
            lemma_step_within(begun, cells, i, j);
            lemma_step_tracks(begun, cells);
            lemma_step_within(begun.step(cells).0, cells, i, j);
        } else {
            lemma_step_within(begun, cells, i, j);
        }
        lemma_yields_within(t.advance(cells).0, cells, i, j);
    }
}

/// On a chain that comes back to an earlier value after `j` links, a walk
/// that compares stops after it has handed out at most `4 j + 4` nodes. For
/// a chain that is a cycle of `j` nodes this is four times the length of the
/// cycle, and four.
pub proof fn lemma_cycle_walk_is_short(
    head: LispObject,
    end_error: Option<TypePredicate>,
    cycle_policy: LispConsCircularChecks,
    stride: Stride,
    cells: Seq<PairNode>,
    i: nat,
    j: nat,
)
    requires
        cycle_policy != LispConsCircularChecks::off,
        i < j,
        tail_at(cells, head, i) == tail_at(cells, head, j),
    ensures
        (Traversal { stride, ..Traversal::start(head, end_error, cycle_policy) }).yields(cells).len() <= 4
            * j + 4,
{
    let t = Traversal { stride, ..Traversal::start(head, end_error, cycle_policy) };
    lemma_yields_within(t, cells, i, j);
}

/// Every `step`-th of `nodes`, beginning with the one at position `i`.
pub open spec fn every(nodes: Seq<LispCons>, i: int, step: int) -> Seq<LispCons>
    decreases nodes.len() - i,
{
    if i < 0 || i >= nodes.len() || step <= 0 {
        Seq::empty()
    } else if i + step >= nodes.len() {
        seq![nodes[i]]
    } else {
        seq![nodes[i]] + every(nodes, i + step, step)
    }
}

/// Picking from a list without its first `k` nodes is picking from the list
/// `k` positions later.
pub proof fn lemma_every_shift(nodes: Seq<LispCons>, k: int, i: int, step: int)
    requires
        0 <= k <= nodes.len(),
        0 <= i,
    ensures
        every(nodes.subrange(k, nodes.len() as int), i, step) == every(nodes, i + k, step),
    decreases nodes.len() - k - i,
{
    let rest = nodes.subrange(k, nodes.len() as int);
    if i < rest.len() && step > 0 {
        assert(rest[i] == nodes[i + k]);
        if i + step < rest.len() {
            lemma_every_shift(nodes, k, i + step, step);
        }
    }
}

/// The pair nodes of the chain one link on are the pair nodes of the chain
/// without the first.
pub proof fn lemma_chain_pairs_rest(cells: Seq<PairNode>, v: LispObject)
    requires
        finite(cells, v),
        is_pair(cells, v),
    ensures
        chain_pairs(cells, rest_of(cells, v)) == chain_pairs(cells, v).subrange(
            1,
            chain_pairs(cells, v).len() as int,
        ),
        chain_pairs(cells, v).len() > 0,
        chain_pairs(cells, v)[0] == LispCons(v->Cons_0),
{
    lemma_chain_len_rest(cells, v);
    let next = rest_of(cells, v);
    let all = chain_pairs(cells, v);
    let tail = chain_pairs(cells, next);
    assert(tail_at(cells, v, 0) == v);
    assert forall|k: int| 0 <= k < tail.len() implies tail[k] == all.subrange(1, all.len() as int)[k] by {
        crate::chains::lemma_tail_at_rest(cells, v, k as nat);
    }
    assert(tail =~= all.subrange(1, all.len() as int));
}

/// The number of links between two nodes that a walk hands out.
pub open spec fn stride_len(stride: Stride) -> int {
    if stride == Stride::Two {
        2
    } else {
        1
    }
}

/// Over a chain that ends, a walk hands out the pair nodes of the chain in
/// order, every one or every other one as its stride says, whatever its
/// cycle policy, and stops at the tail that is no pair node: with an error
/// if end checks are on and that tail is not the terminator, quietly
/// otherwise.
pub proof fn lemma_finite_strided_walk(t: Traversal, cells: Seq<PairNode>)
    requires
        t.tracks(cells),
        finite(cells, t.head),
    ensures
        finite(cells, t.current),
        t.yields(cells) == every(
            chain_pairs(cells, t.current),
            if t.started && t.stride == Stride::Two {
                1
            } else {
                0
            },
            stride_len(t.stride),
        ),
        t.stop(cells) == t.end_result(tail_at(cells, t.current, chain_len(cells, t.current))),
    decreases t.fuel(cells),
{
    let checked = t.cycle_policy != LispConsCircularChecks::off;
    if checked {
        crate::chains::lemma_finite_tail(cells, t.head, t.pos());
    }
    let begun = Traversal { started: true, ..t };
    let nodes = chain_pairs(cells, t.current);
    let n = chain_len(cells, t.current);
    lemma_chain_len(cells, t.current);
    assert(tail_at(cells, t.current, 0) == t.current);
    if !is_pair(cells, t.current) {
        lemma_chain_len_zero(cells, t.current);
        assert(t.yields(cells) =~= Seq::<LispCons>::empty());
    } else {
        lemma_no_cycle_found(begun, cells);
        lemma_chain_pairs_rest(cells, t.current);
        lemma_chain_len_rest(cells, t.current);
        let first = begun.step(cells).0;
        lemma_step_tracks(begun, cells);
        let next = rest_of(cells, t.current);
        assert(first.current == next);
        assert(tail_at(cells, t.current, ((n - 1) as nat) + 1) == tail_at(cells, next, (n - 1) as nat)) by {
            crate::chains::lemma_tail_at_rest(cells, t.current, (n - 1) as nat);
        }
        if t.started && t.stride == Stride::Two {
            // The first node is passed over.
            if !is_pair(cells, next) {
                lemma_chain_len_zero(cells, next);
                assert(tail_at(cells, next, 0) == next);
                assert(t.yields(cells) =~= Seq::<LispCons>::empty());
                assert(every(nodes, 1, 2) =~= Seq::<LispCons>::empty());
            } else {
                if checked {
                    crate::chains::lemma_finite_tail(cells, first.head, first.pos());
                }
                lemma_no_cycle_found(first, cells);
                lemma_chain_pairs_rest(cells, next);
                lemma_chain_len_rest(cells, next);
                lemma_step_tracks(first, cells);
                let t2 = t.advance(cells).0;
                assert(t2 == first.step(cells).0);
                lemma_finite_strided_walk(t2, cells);
                let after = rest_of(cells, next);
                let tail = chain_pairs(cells, after);
                assert(tail == chain_pairs(cells, next).subrange(1, chain_pairs(cells, next).len() as int));
                assert(tail =~= nodes.subrange(2, nodes.len() as int));
                lemma_every_shift(nodes, 2, 1, 2);
                assert(nodes[1] == chain_pairs(cells, next)[0]);
                assert(t.yields(cells) == seq![node_of(t.advance(cells).1)] + t2.yields(cells));
                assert(tail_at(cells, next, ((n - 2) as nat) + 1) == tail_at(cells, after, (n - 2) as nat)) by {
                    crate::chains::lemma_tail_at_rest(cells, next, (n - 2) as nat);
                }
            }
        } else {
            let t2 = t.advance(cells).0;
            assert(t2 == first);
            lemma_finite_strided_walk(t2, cells);
            let tail = chain_pairs(cells, next);
            let step = stride_len(t.stride);
            assert(t.yields(cells) == seq![node_of(t.advance(cells).1)] + t2.yields(cells));
            if t.stride == Stride::Two {
                lemma_every_shift(nodes, 1, 1, 2);
            } else {
                lemma_every_shift(nodes, 1, 0, 1);
            }
        }
    }
}

/// On a chain that ends, a link from a pair node hands out the node: no
/// cycle is found.
pub proof fn lemma_no_cycle_found(t: Traversal, cells: Seq<PairNode>)
    requires
        t.tracks(cells),
        finite(cells, t.head),
        is_pair(cells, t.current),
    ensures
        is_node(t.step(cells).1),
        node_of(t.step(cells).1) == LispCons(t.current->Cons_0),
        t.step(cells).0.current == rest_of(cells, t.current),
{
    if t.cycle_policy != LispConsCircularChecks::off {
        let tp = t.tortoise_pos();
        lemma_pairs_before(cells, t.head, tp, t.pos());
        lemma_finite_chain_has_no_repeat(cells, t.head, tp, t.pos() + 1);
        assert(tail_at(cells, t.head, t.pos() + 1) == rest_of(cells, t.current));
    }
}

/// Over a chain that ends, the three cycle policies produce the same nodes
/// and stop in the same way, with either stride.
pub proof fn lemma_acyclic_equivalence_strided(
    head: LispObject,
    end_error: Option<TypePredicate>,
    first: LispConsCircularChecks,
    second: LispConsCircularChecks,
    stride: Stride,
    cells: Seq<PairNode>,
)
    requires
        cells.len() <= usize::MAX,
        finite(cells, head),
    ensures
        (Traversal { stride, ..Traversal::start(head, end_error, first) }).yields(cells) == (Traversal {
            stride,
            ..Traversal::start(head, end_error, second)
        }).yields(cells),
        (Traversal { stride, ..Traversal::start(head, end_error, first) }).stop(cells) == (Traversal {
            stride,
            ..Traversal::start(head, end_error, second)
        }).stop(cells),
{
    lemma_start_tracks(head, end_error, first, cells);
    lemma_start_tracks(head, end_error, second, cells);
    let a = Traversal { stride, ..Traversal::start(head, end_error, first) };
    let b = Traversal { stride, ..Traversal::start(head, end_error, second) };
    assert(a.tracks(cells));
    assert(b.tracks(cells));
    lemma_finite_strided_walk(a, cells);
    lemma_finite_strided_walk(b, cells);
}

} // verus!
