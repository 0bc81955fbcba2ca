//! Merging and sorting of lists in place, by relinking their nodes.

use vstd::prelude::*;
use crate::chains::{chain_len, finite, lemma_chain_len, lemma_end_absorbs, lemma_finite_chain_has_no_repeat};
use crate::lisp::{LispError, LispObject, TypePredicate};
use crate::list_fns::{car, cdr, setcdr};
use crate::lists::{is_pair, rest_of, tail_at, LispCons, PairArena, PairNode};

verus! {

/// Whether `a` may stand before `b`: `pred` does not say that `b` comes
/// before `a`.
pub fn inorder<P: Fn(LispObject, LispObject) -> LispObject>(pred: &P, a: LispObject, b: LispObject) -> (r:
    bool)
    requires
        call_requires(*pred, (b, a)),
    ensures
        exists|v: LispObject| call_ensures(*pred, (b, a), v) && r == (v == LispObject::Nil),
{
    let v = pred(b, a);
    v.is_nil()
}

/// The arena after the nodes `nodes` have been linked into a chain in their
/// order that goes on to `end`. First slots stay.
pub open spec fn relink(cells: Seq<PairNode>, nodes: Seq<LispCons>, end: LispObject) -> Seq<PairNode>
    decreases nodes.len(),
{
    if nodes.len() == 0 {
        cells
    } else {
        let last = nodes.last();
        relink(cells, nodes.drop_last(), LispObject::Cons(last.0)).update(
            last.0 as int,
            PairNode { first: cells[last.0 as int].first, second: end },
        )
    }
}

/// The arena after the nodes `nodes` have been linked into a chain in their
/// order, the last of them still linked as it was.
pub open spec fn relink_open(cells: Seq<PairNode>, nodes: Seq<LispCons>) -> Seq<PairNode> {
    if nodes.len() == 0 {
        cells
    } else {
        relink(cells, nodes.drop_last(), LispObject::Cons(nodes.last().0))
    }
}

/// Relinking changes the second slots of the relinked nodes and nothing
/// else.
pub proof fn lemma_relink_frame(cells: Seq<PairNode>, nodes: Seq<LispCons>, end: LispObject)
    requires
        forall|k: int| 0 <= k < nodes.len() ==> (#[trigger] nodes[k]).0 < cells.len(),
    ensures
        relink(cells, nodes, end).len() == cells.len(),
        forall|idx: int|
            0 <= idx < cells.len() ==> (#[trigger] relink(cells, nodes, end)[idx]).first == cells[idx].first,
        forall|idx: int|
            0 <= idx < cells.len() && (forall|k: int| 0 <= k < nodes.len() ==> (#[trigger] nodes[k]).0 != idx)
                ==> #[trigger] relink(cells, nodes, end)[idx] == cells[idx],
    decreases nodes.len(),
{
    if nodes.len() > 0 {
        let head = nodes.drop_last();
        let last = nodes.last();
        assert(nodes[nodes.len() - 1] == last);
        assert forall|k: int| 0 <= k < head.len() implies (#[trigger] head[k]).0 < cells.len() by {
            assert(head[k] == nodes[k]);
        }
        lemma_relink_frame(cells, head, LispObject::Cons(last.0));
        let inner = relink(cells, head, LispObject::Cons(last.0));
        assert forall|idx: int|
            0 <= idx < cells.len() && (forall|k: int| 0 <= k < nodes.len() ==> (#[trigger] nodes[k]).0 != idx) implies #[trigger] relink(
            cells,
            nodes,
            end,
        )[idx] == cells[idx] by {
            assert forall|k: int| 0 <= k < head.len() implies (#[trigger] head[k]).0 != idx by {
                assert(head[k] == nodes[k]);
            }
            assert(inner[idx] == cells[idx]);
        }
    }
}

/// What a merge does with the two lists as they stand.
pub enum MergeEnd {
    /// Both lists begin with a pair node: one of the two is taken.
    Continue,
    /// One list is at its end: the merged nodes are linked to the given rest.
    Done(LispObject),
    /// A list begins with something that has no first slot.
    Fail(LispError),
}

/// What a merge does with lists that stand at `l1` and `l2`.
pub open spec fn merge_end(cells: Seq<PairNode>, l1: LispObject, l2: LispObject) -> MergeEnd {
    if l1 == LispObject::Nil {
        MergeEnd::Done(l2)
    } else if l2 == LispObject::Nil {
        MergeEnd::Done(l1)
    } else if !is_pair(cells, l1) {
        MergeEnd::Fail(LispError::WrongType(TypePredicate::Consp, l1))
    } else if !is_pair(cells, l2) {
        MergeEnd::Fail(LispError::WrongType(TypePredicate::Consp, l2))
    } else {
        MergeEnd::Continue
    }
}

/// The number of nodes taken from the first list among the first `n` that
/// were taken: one for each answer that is the terminator.
pub open spec fn taken(answers: Seq<LispObject>, n: nat) -> nat
    decreases n,
{
    if n == 0 {
        0
    } else {
        taken(answers, (n - 1) as nat) + if answers[n - 1] == LispObject::Nil {
            1nat
        } else {
            0nat
        }
    }
}

/// The node that was taken at step `k` of a merge with the given answers of
/// the predicate.
pub open spec fn merged_node(
    cells: Seq<PairNode>,
    l1: LispObject,
    l2: LispObject,
    answers: Seq<LispObject>,
    k: int,
) -> LispCons {
    let i = taken(answers, k as nat);
    if answers[k] == LispObject::Nil {
        LispCons(tail_at(cells, l1, i)->Cons_0)
    } else {
        LispCons(tail_at(cells, l2, (k - i) as nat)->Cons_0)
    }
}

/// The nodes that a merge with the given answers took, in their new order.
pub open spec fn merged_nodes(cells: Seq<PairNode>, l1: LispObject, l2: LispObject, answers: Seq<LispObject>) -> Seq<
    LispCons,
> {
    Seq::new(answers.len(), |k: int| merged_node(cells, l1, l2, answers, k))
}

/// Whether answer `k` is what `pred` said at step `k` of a merge of `l1` and
/// `l2`: both lists began with a pair node, and `pred` was asked whether the
/// element of the second list comes before the element of the first.
pub open spec fn merge_step<P: Fn(LispObject, LispObject) -> LispObject>(
    cells: Seq<PairNode>,
    l1: LispObject,
    l2: LispObject,
    pred: P,
    answers: Seq<LispObject>,
    k: int,
) -> bool {
    let i = taken(answers, k as nat);
    let a = tail_at(cells, l1, i);
    let b = tail_at(cells, l2, (k - i) as nat);
    &&& merge_end(cells, a, b) is Continue
    &&& call_ensures(pred, (cells[b->Cons_0 as int].first, cells[a->Cons_0 as int].first), answers[k])
}

/// Whether `answers` are what `pred` said in a merge of `l1` and `l2`, step
/// by step.
pub open spec fn merge_trace<P: Fn(LispObject, LispObject) -> LispObject>(
    cells: Seq<PairNode>,
    l1: LispObject,
    l2: LispObject,
    pred: P,
    answers: Seq<LispObject>,
) -> bool {
    forall|k: int| 0 <= k < answers.len() ==> #[trigger] merge_step(cells, l1, l2, pred, answers, k)
}

/// What a merge with the given answers returns and makes of the arena.
pub open spec fn merge_result(
    cells: Seq<PairNode>,
    l1: LispObject,
    l2: LispObject,
    answers: Seq<LispObject>,
) -> (Result<LispObject, LispError>, Seq<PairNode>) {
    let n = answers.len();
    let i = taken(answers, n);
    let nodes = merged_nodes(cells, l1, l2, answers);
    match merge_end(cells, tail_at(cells, l1, i), tail_at(cells, l2, (n - i) as nat)) {
        MergeEnd::Done(rest) => (
            Ok(
                if n == 0 {
                    rest
                } else {
                    LispObject::Cons(nodes[0].0)
                },
            ),
            relink(cells, nodes, rest),
        ),
        MergeEnd::Fail(e) => (Err(e), relink_open(cells, nodes)),
        MergeEnd::Continue => (Err(LispError::ListTooLong), cells),
    }
}

/// Whether the chains from `l1` and `l2` have no node in common.
pub open spec fn disjoint(cells: Seq<PairNode>, l1: LispObject, l2: LispObject) -> bool {
    forall|i: nat, j: nat|
        is_pair(cells, #[trigger] tail_at(cells, l1, i)) && is_pair(cells, #[trigger] tail_at(cells, l2, j))
            ==> tail_at(cells, l1, i) != tail_at(cells, l2, j)
}

/// No more nodes are taken from the first list than are taken.
pub proof fn lemma_taken(answers: Seq<LispObject>, n: nat, m: nat)
    requires
        n <= m,
    ensures
        taken(answers, n) <= taken(answers, m),
        taken(answers, m) - taken(answers, n) <= m - n,
        taken(answers, n) <= n,
    decreases m,
{
    if n < m {
        lemma_taken(answers, n, (m - 1) as nat);
    } else if n > 0 {
        lemma_taken(answers, (n - 1) as nat, (n - 1) as nat);
    }
}

/// The count of nodes taken looks at the answers before it only.
pub proof fn lemma_taken_prefix(answers: Seq<LispObject>, more: Seq<LispObject>, n: nat)
    requires
        n <= answers.len() <= more.len(),
        forall|k: int| 0 <= k < answers.len() ==> answers[k] == more[k],
    ensures
        taken(answers, n) == taken(more, n),
    decreases n,
{
    if n > 0 {
        lemma_taken_prefix(answers, more, (n - 1) as nat);
    }
}

/// Whether every one of `nodes` is a pair node from one of the first `i`
/// positions of the first list or of the first `j` positions of the second.
#[verifier::opaque]
pub open spec fn taken_from(
    cells: Seq<PairNode>,
    l1: LispObject,
    l2: LispObject,
    nodes: Seq<LispCons>,
    i: nat,
    j: nat,
) -> bool {
    forall|k: int|
        0 <= k < nodes.len() ==> (#[trigger] nodes[k]).0 < cells.len() && ((exists|p: nat|
            p < i && nodes[k] == LispCons(tail_at(cells, l1, p)->Cons_0)) || (exists|p: nat|
            p < j && nodes[k] == LispCons(tail_at(cells, l2, p)->Cons_0)))
}

/// The node at which a list stands has not been taken, so it is linked as it
/// was before the merge.
pub proof fn lemma_untouched(
    cells: Seq<PairNode>,
    l1: LispObject,
    l2: LispObject,
    nodes: Seq<LispCons>,
    i: nat,
    j: nat,
    of_first: bool,
)
    requires
        finite(cells, l1),
        finite(cells, l2),
        disjoint(cells, l1, l2),
        i <= chain_len(cells, l1),
        j <= chain_len(cells, l2),
        is_pair(cells, if of_first { tail_at(cells, l1, i) } else { tail_at(cells, l2, j) }),
        taken_from(cells, l1, l2, nodes, i, j),
    ensures
        ({
            let at = if of_first {
                tail_at(cells, l1, i)
            } else {
                tail_at(cells, l2, j)
            };
            &&& relink_open(cells, nodes)[at->Cons_0 as int] == cells[at->Cons_0 as int]
            &&& forall|k: int| 0 <= k < nodes.len() ==> (#[trigger] nodes[k]).0 != at->Cons_0
        }),
{
    reveal(taken_from);
    let at = if of_first {
        tail_at(cells, l1, i)
    } else {
        tail_at(cells, l2, j)
    };
    let idx = at->Cons_0 as int;
    lemma_chain_len(cells, l1);
    lemma_chain_len(cells, l2);
    lemma_relink_open_frame(cells, nodes);
    assert forall|k: int| 0 <= k < nodes.len() implies (#[trigger] nodes[k]).0 != idx by {
        if exists|p: nat| p < i && nodes[k] == LispCons(tail_at(cells, l1, p)->Cons_0) {
            let p = choose|p: nat| p < i && nodes[k] == LispCons(tail_at(cells, l1, p)->Cons_0);
            assert(is_pair(cells, tail_at(cells, l1, p)));
            if of_first {
                lemma_finite_chain_has_no_repeat(cells, l1, p, i);
            }
        } else {
            let p = choose|p: nat| p < j && nodes[k] == LispCons(tail_at(cells, l2, p)->Cons_0);
            assert(is_pair(cells, tail_at(cells, l2, p)));
            if !of_first {
                lemma_finite_chain_has_no_repeat(cells, l2, p, j);
            }
        }
    }
}

/// Taking the node at which a list stands adds it to the nodes taken.
pub proof fn lemma_taken_from_push(
    cells: Seq<PairNode>,
    l1: LispObject,
    l2: LispObject,
    nodes: Seq<LispCons>,
    i: nat,
    j: nat,
    of_first: bool,
)
    requires
        taken_from(cells, l1, l2, nodes, i, j),
        is_pair(cells, if of_first { tail_at(cells, l1, i) } else { tail_at(cells, l2, j) }),
    ensures
        taken_from(
            cells,
            l1,
            l2,
            nodes.push(
                LispCons((if of_first { tail_at(cells, l1, i) } else { tail_at(cells, l2, j) })->Cons_0),
            ),
            if of_first { i + 1 } else { i },
            if of_first { j } else { j + 1 },
        ),
        forall|k: int| 0 <= k < nodes.len() ==> (#[trigger] nodes[k]).0 < cells.len(),
{
    reveal(taken_from);
    let at = if of_first {
        tail_at(cells, l1, i)
    } else {
        tail_at(cells, l2, j)
    };
    let more = nodes.push(LispCons(at->Cons_0));
    let i2 = if of_first { i + 1 } else { i };
    let j2 = if of_first { j } else { j + 1 };
    assert forall|k: int| 0 <= k < more.len() implies (#[trigger] more[k]).0 < cells.len() && ((exists|p: nat|
        p < i2 && more[k] == LispCons(tail_at(cells, l1, p)->Cons_0)) || (exists|p: nat|
        p < j2 && more[k] == LispCons(tail_at(cells, l2, p)->Cons_0))) by {
        if k < nodes.len() {
            assert(more[k] == nodes[k]);
            if exists|p: nat| p < i && nodes[k] == LispCons(tail_at(cells, l1, p)->Cons_0) {
                let p = choose|p: nat| p < i && nodes[k] == LispCons(tail_at(cells, l1, p)->Cons_0);
                assert(p < i2 && more[k] == LispCons(tail_at(cells, l1, p)->Cons_0));
            } else {
                let p = choose|p: nat| p < j && nodes[k] == LispCons(tail_at(cells, l2, p)->Cons_0);
                assert(p < j2 && more[k] == LispCons(tail_at(cells, l2, p)->Cons_0));
            }
        } else {
            if of_first {
                assert(i < i2 && more[k] == LispCons(tail_at(cells, l1, i)->Cons_0));
            } else {
                assert(j < j2 && more[k] == LispCons(tail_at(cells, l2, j)->Cons_0));
            }
        }
    }
}

/// One more answer, given where both lists began with a pair node, extends
/// the record of a merge.
pub proof fn lemma_trace_push<P: Fn(LispObject, LispObject) -> LispObject>(
    cells: Seq<PairNode>,
    l1: LispObject,
    l2: LispObject,
    pred: P,
    answers: Seq<LispObject>,
    v: LispObject,
)
    requires
        merge_trace(cells, l1, l2, pred, answers),
        merge_step(cells, l1, l2, pred, answers.push(v), answers.len() as int),
    ensures
        merge_trace(cells, l1, l2, pred, answers.push(v)),
{
    let more = answers.push(v);
    assert forall|k: int| 0 <= k < more.len() implies #[trigger] merge_step(cells, l1, l2, pred, more, k) by {
        if k < answers.len() {
            lemma_taken_prefix(answers, more, k as nat);
            assert(merge_step(cells, l1, l2, pred, answers, k));
            assert(more[k] == answers[k]);
        }
    }
}

/// Merges two lists in place into one, by relinking their nodes. At every
/// step the first elements of the two are compared, and the element of the
/// first list is taken unless `pred` says that the element of the second
/// comes before it. When a list is used up, the nodes taken are linked to
/// what is left of the other. The lists must end and have no node in common.
pub fn merge<P: Fn(LispObject, LispObject) -> LispObject>(
    l1: LispObject,
    l2: LispObject,
    pred: &P,
    arena: &mut PairArena,
) -> (r: Result<LispObject, LispError>)
    requires
        forall|a: LispObject, b: LispObject| call_requires(*pred, (a, b)),
        finite(old(arena)@, l1),
        finite(old(arena)@, l2),
        disjoint(old(arena)@, l1, l2),
    ensures
        exists|answers: Seq<LispObject>|
            {
                &&& #[trigger] merge_trace(old(arena)@, l1, l2, *pred, answers)
                &&& (r, final(arena)@) == merge_result(old(arena)@, l1, l2, answers)
                &&& !(merge_end(
                    old(arena)@,
                    tail_at(old(arena)@, l1, taken(answers, answers.len())),
                    tail_at(old(arena)@, l2, (answers.len() - taken(answers, answers.len())) as nat),
                ) is Continue)
            },
{
    let ghost cells = arena@;
    let ghost mut answers: Seq<LispObject> = Seq::empty();
    let ghost mut nodes: Seq<LispCons> = Seq::empty();
    let ghost mut i: nat = 0;
    let ghost mut j: nat = 0;
    let ghost la = chain_len(cells, l1);
    let ghost lb = chain_len(cells, l2);
    let mut cur1 = l1;
    let mut cur2 = l2;
    let mut tail: Option<LispCons> = None;
    let mut value = LispObject::Nil;
    proof {
        lemma_chain_len(cells, l1);
        lemma_chain_len(cells, l2);
        assert(tail_at(cells, l1, 0) == l1);
        assert(tail_at(cells, l2, 0) == l2);
        assert(nodes =~= merged_nodes(cells, l1, l2, answers));
        assert(taken_from(cells, l1, l2, nodes, i, j)) by {
            reveal(taken_from);
        }
    }
    loop
        invariant
            forall|a: LispObject, b: LispObject| call_requires(*pred, (a, b)),
            cells == old(arena)@,
            finite(cells, l1),
            finite(cells, l2),
            disjoint(cells, l1, l2),
            la == chain_len(cells, l1),
            lb == chain_len(cells, l2),
            !is_pair(cells, tail_at(cells, l1, la)),
            !is_pair(cells, tail_at(cells, l2, lb)),
            i <= la,
            j <= lb,
            i == taken(answers, answers.len()),
            i + j == answers.len(),
            cur1 == tail_at(cells, l1, i),
            cur2 == tail_at(cells, l2, j),
            merge_trace(cells, l1, l2, *pred, answers),
            nodes == merged_nodes(cells, l1, l2, answers),
            taken_from(cells, l1, l2, nodes, i, j),
            arena@ == relink_open(cells, nodes),
            arena@.len() == cells.len(),
            tail == if nodes.len() > 0 { Some(nodes.last()) } else { None },
            tail matches Some(cons) ==> cons.0 < cells.len(),
            value == if nodes.len() > 0 { LispObject::Cons(nodes[0].0) } else { LispObject::Nil },
        decreases la - i + lb - j,
    {
        if cur1.is_nil() {
            match tail {
                Some(cons) => {
                    proof {
                        lemma_close(cells, nodes, cur2, l1, l2, i, j);
                    }
                    setcdr(cons, cur2, arena);
                    return Ok(value);
                },
                None => {
                    return Ok(cur2);
                },
            }
        }
        if cur2.is_nil() {
            match tail {
                Some(cons) => {
                    proof {
                        lemma_close(cells, nodes, cur1, l1, l2, i, j);
                    }
                    setcdr(cons, cur1, arena);
                    return Ok(value);
                },
                None => {
                    return Ok(cur1);
                },
            }
        }
        // Both lists go on. Their first nodes have not been relinked.
        proof {
            if is_pair(cells, cur1) {
                lemma_untouched(cells, l1, l2, nodes, i, j, true);
            }
            if is_pair(cells, cur2) {
                lemma_untouched(cells, l1, l2, nodes, i, j, false);
            }
        }
        let a = match car(cur1, arena) {
            Ok(a) => a,
            Err(e) => {
                return Err(e);
            },
        };
        let b = match car(cur2, arena) {
            Ok(b) => b,
            Err(e) => {
                return Err(e);
            },
        };
        let first = inorder(pred, a, b);
        let ghost v = choose|v: LispObject| call_ensures(*pred, (b, a), v) && first == (v == LispObject::Nil);
        let item;
        if first {
            item = cur1;
            cur1 = match cdr(cur1, arena) {
                Ok(rest) => rest,
                Err(e) => {
                    return Err(e);
                },
            };
        } else {
            item = cur2;
            cur2 = match cdr(cur2, arena) {
                Ok(rest) => rest,
                Err(e) => {
                    return Err(e);
                },
            };
        }
        let ghost before = answers;
        let ghost taken_before = nodes;
        proof {
            lemma_taken_prefix(before, before.push(v), before.len());
            assert(merge_step(cells, l1, l2, *pred, before.push(v), before.len() as int));
            lemma_trace_push(cells, l1, l2, *pred, before, v);
            lemma_merged_push(cells, l1, l2, before, v);
            lemma_taken_from_push(cells, l1, l2, nodes, i, j, first);
            lemma_relink_open_frame(cells, nodes);
            answers = before.push(v);
            nodes = merged_nodes(cells, l1, l2, answers);
            assert(nodes =~= taken_before.push(LispCons(item->Cons_0)));
            if first {
                assert(item == tail_at(cells, l1, i) && is_pair(cells, item));
                assert(i < la);
                i = i + 1;
            } else {
                assert(item == tail_at(cells, l2, j) && is_pair(cells, item));
                assert(j < lb);
                j = j + 1;
            }
        }
        match tail {
            Some(cons) => {
                setcdr(cons, item, arena);
            },
            None => {
                value = item;
            },
        }
        tail = item.as_cons();
        proof {
            assert(nodes.drop_last() =~= taken_before);
            assert(nodes.last() == LispCons(item->Cons_0));
            assert(arena@ =~= relink_open(cells, nodes));
        }
    }
}

/// Linking the last of the nodes taken to `rest` closes the chain of them.
pub proof fn lemma_close(
    cells: Seq<PairNode>,
    nodes: Seq<LispCons>,
    rest: LispObject,
    l1: LispObject,
    l2: LispObject,
    i: nat,
    j: nat,
)
    requires
        nodes.len() > 0,
        taken_from(cells, l1, l2, nodes, i, j),
    ensures
        relink(cells, nodes, rest) == relink_open(cells, nodes).update(
            nodes.last().0 as int,
            PairNode { first: relink_open(cells, nodes)[nodes.last().0 as int].first, second: rest },
        ),
        nodes.last().0 < cells.len(),
{
    reveal(taken_from);
    lemma_relink_open_frame(cells, nodes);
    assert(nodes[nodes.len() - 1] == nodes.last());
}

/// The arena in which nodes have been linked in their order, the last of
/// them as it was, has the first slots and the size of the arena before, and
/// every other node as it was.
pub proof fn lemma_relink_open_frame(cells: Seq<PairNode>, nodes: Seq<LispCons>)
    requires
        forall|k: int| 0 <= k < nodes.len() ==> (#[trigger] nodes[k]).0 < cells.len(),
    ensures
        relink_open(cells, nodes).len() == cells.len(),
        forall|idx: int|
            0 <= idx < cells.len() ==> (#[trigger] relink_open(cells, nodes)[idx]).first == cells[idx].first,
        forall|idx: int|
            0 <= idx < cells.len() && (forall|k: int| 0 <= k < nodes.len() - 1 ==> (#[trigger] nodes[k]).0 != idx)
                ==> #[trigger] relink_open(cells, nodes)[idx] == cells[idx],
{
    if nodes.len() > 0 {
        let head = nodes.drop_last();
        assert forall|k: int| 0 <= k < head.len() implies (#[trigger] head[k]).0 < cells.len() by {
            assert(head[k] == nodes[k]);
        }
        lemma_relink_frame(cells, head, LispObject::Cons(nodes.last().0));
        assert forall|idx: int|
            0 <= idx < cells.len() && (forall|k: int| 0 <= k < nodes.len() - 1 ==> (#[trigger] nodes[k]).0 != idx) implies #[trigger] relink_open(
            cells,
            nodes,
        )[idx] == cells[idx] by {
            assert forall|k: int| 0 <= k < head.len() implies (#[trigger] head[k]).0 != idx by {
                assert(head[k] == nodes[k]);
            }
        }
    }
}

/// One more answer adds one node to the nodes taken and leaves the others.
pub proof fn lemma_merged_push(
    cells: Seq<PairNode>,
    l1: LispObject,
    l2: LispObject,
    answers: Seq<LispObject>,
    v: LispObject,
)
    ensures
        merged_nodes(cells, l1, l2, answers.push(v)).len() == answers.len() + 1,
        merged_nodes(cells, l1, l2, answers.push(v)).drop_last() == merged_nodes(cells, l1, l2, answers),
        taken(answers.push(v), answers.len() + 1) == taken(answers, answers.len()) + if v == LispObject::Nil {
            1nat
        } else {
            0nat
        },
        merged_nodes(cells, l1, l2, answers.push(v)).last() == if v == LispObject::Nil {
            LispCons(tail_at(cells, l1, taken(answers, answers.len()))->Cons_0)
        } else {
            LispCons(
                tail_at(cells, l2, (answers.len() - taken(answers, answers.len())) as nat)->Cons_0,
            )
        },
{
    let more = answers.push(v);
    lemma_taken_prefix(answers, more, answers.len());
    assert forall|k: int| 0 <= k < answers.len() implies merged_node(cells, l1, l2, more, k) == merged_node(
        cells,
        l1,
        l2,
        answers,
        k,
    ) by {
        lemma_taken_prefix(answers, more, k as nat);
    }
    assert(merged_nodes(cells, l1, l2, more).drop_last() =~= merged_nodes(cells, l1, l2, answers));
}

/// A chain whose nodes are the same in two arenas of the same size is the
/// same chain in both.
pub proof fn lemma_same_chain(before: Seq<PairNode>, after: Seq<PairNode>, v: LispObject, n: nat)
    requires
        before.len() == after.len(),
        forall|k: nat|
            k < n && is_pair(before, #[trigger] tail_at(before, v, k)) ==> after[tail_at(before, v, k)->Cons_0 as int]
                == before[tail_at(before, v, k)->Cons_0 as int],
    ensures
        forall|k: nat| k <= n ==> #[trigger] tail_at(after, v, k) == tail_at(before, v, k),
    decreases n,
{
    if n > 0 {
        lemma_same_chain(before, after, v, (n - 1) as nat);
        let m = (n - 1) as nat;
        assert(tail_at(after, v, m) == tail_at(before, v, m));
        assert(tail_at(after, v, n) == rest_of(after, tail_at(after, v, m)));
        assert(tail_at(before, v, n) == rest_of(before, tail_at(before, v, m)));
    } else {
        assert(tail_at(after, v, 0) == tail_at(before, v, 0));
    }
}

/// A finite chain whose nodes are the same in two arenas of the same size
/// is finite in both, with the same length.
pub proof fn lemma_same_finite_chain(before: Seq<PairNode>, after: Seq<PairNode>, v: LispObject)
    requires
        before.len() == after.len(),
        finite(before, v),
        forall|k: nat|
            k < chain_len(before, v) ==> after[(#[trigger] tail_at(before, v, k))->Cons_0 as int]
                == before[tail_at(before, v, k)->Cons_0 as int],
    ensures
        finite(after, v),
        chain_len(after, v) == chain_len(before, v),
        forall|k: nat| k <= chain_len(before, v) ==> #[trigger] tail_at(after, v, k) == tail_at(before, v, k),
{
    let n = chain_len(before, v);
    lemma_chain_len(before, v);
    lemma_same_chain(before, after, v, n);
    assert forall|j: nat| j < n implies is_pair(after, #[trigger] tail_at(after, v, j)) by {
        assert(tail_at(after, v, j) == tail_at(before, v, j));
        assert(is_pair(before, tail_at(before, v, j)));
    }
    assert(tail_at(after, v, n) == tail_at(before, v, n));
    crate::chains::lemma_chain_len_is(after, v, n);
}

/// In the arena in which distinct nodes have been linked in their order, the
/// chain from the first of them runs through them in that order and goes on
/// to the end that they were linked to.
pub proof fn lemma_relinked_chain(cells: Seq<PairNode>, nodes: Seq<LispCons>, end: LispObject)
    requires
        nodes.len() > 0,
        nodes.no_duplicates(),
        forall|k: int| 0 <= k < nodes.len() ==> (#[trigger] nodes[k]).0 < cells.len(),
    ensures
        forall|k: nat|
            k < nodes.len() ==> #[trigger] tail_at(relink(cells, nodes, end), LispObject::Cons(nodes[0].0), k)
                == LispObject::Cons(nodes[k as int].0),
        tail_at(relink(cells, nodes, end), LispObject::Cons(nodes[0].0), nodes.len()) == end,
    decreases nodes.len(),
{
    let after = relink(cells, nodes, end);
    let head = LispObject::Cons(nodes[0].0);
    let last = nodes.last();
    let front = nodes.drop_last();
    lemma_relink_frame(cells, nodes, end);
    assert forall|k: int| 0 <= k < front.len() implies (#[trigger] front[k]).0 < cells.len() by {
        assert(front[k] == nodes[k]);
    }
    lemma_relink_frame(cells, front, LispObject::Cons(last.0));
    let inner = relink(cells, front, LispObject::Cons(last.0));
    if nodes.len() == 1 {
        assert(tail_at(after, head, 0) == head);
        assert(tail_at(after, head, 1) == rest_of(after, tail_at(after, head, 0)));
    } else {
        assert(front[0] == nodes[0]);
        assert forall|x: int, y: int| 0 <= x < front.len() && 0 <= y < front.len() && x != y implies front[x]
            != front[y] by {
            assert(front[x] == nodes[x] && front[y] == nodes[y]);
        }
        lemma_relinked_chain(cells, front, LispObject::Cons(last.0));
        let m = front.len();
        // The nodes before the last are linked in `after` as in `inner`.
        assert forall|k: nat|
            k < m && is_pair(inner, #[trigger] tail_at(inner, head, k)) implies after[tail_at(inner, head, k)->Cons_0 as int]
            == inner[tail_at(inner, head, k)->Cons_0 as int] by {
            assert(tail_at(inner, head, k) == LispObject::Cons(front[k as int].0));
            assert(front[k as int] == nodes[k as int]);
            assert(nodes[k as int] != nodes[m as int]);
        }
        lemma_same_chain(inner, after, head, m);
        assert forall|k: nat| k < nodes.len() implies #[trigger] tail_at(after, head, k) == LispObject::Cons(
            nodes[k as int].0,
        ) by {
            if k < m {
                assert(tail_at(after, head, k) == tail_at(inner, head, k));
                assert(front[k as int] == nodes[k as int]);
            } else {
                assert(tail_at(after, head, m) == tail_at(inner, head, m));
            }
        }
        assert(tail_at(after, head, m) == LispObject::Cons(last.0));
        assert(tail_at(after, head, (m + 1) as nat) == rest_of(after, tail_at(after, head, m)));
    }
}

/// Whether the chain from `head` in `after` is a rearrangement of the chain
/// from `list` in `before`: it ends, has as many nodes, each of them a node
/// of the chain before, and leads to the same end.
pub open spec fn rearranged(
    before: Seq<PairNode>,
    list: LispObject,
    after: Seq<PairNode>,
    head: LispObject,
) -> bool {
    let n = chain_len(before, list);
    &&& finite(after, head)
    &&& chain_len(after, head) == n
    &&& tail_at(after, head, n) == tail_at(before, list, n)
    &&& forall|k: nat|
        k < n ==> exists|m: nat| m < n && #[trigger] tail_at(after, head, k) == tail_at(before, list, m)
}

/// Whether `after` differs from `before` in the second slots of nodes of the
/// chain from `list` only.
pub open spec fn only_relinked(before: Seq<PairNode>, list: LispObject, after: Seq<PairNode>) -> bool {
    &&& after.len() == before.len()
    &&& forall|idx: int| 0 <= idx < before.len() ==> (#[trigger] after[idx]).first == before[idx].first
    &&& forall|idx: int|
        0 <= idx < before.len() && (forall|m: nat|
            m < chain_len(before, list) ==> #[trigger] tail_at(before, list, m) != LispObject::Cons(idx as usize))
            ==> #[trigger] after[idx] == before[idx]
}

/// Whether `node` is the pair node at one of the first `i` positions of the
/// first list or of the first `j` positions of the second.
pub open spec fn drawn(
    cells: Seq<PairNode>,
    l1: LispObject,
    l2: LispObject,
    node: LispCons,
    i: nat,
    j: nat,
) -> bool {
    ||| exists|p: nat|
        p < i && is_pair(cells, #[trigger] tail_at(cells, l1, p)) && LispObject::Cons(node.0) == tail_at(
            cells,
            l1,
            p,
        )
    ||| exists|p: nat|
        p < j && is_pair(cells, #[trigger] tail_at(cells, l2, p)) && LispObject::Cons(node.0) == tail_at(
            cells,
            l2,
            p,
        )
}

/// No step of a merge takes a node from beyond the end of a list.
pub proof fn lemma_steps_within<P: Fn(LispObject, LispObject) -> LispObject>(
    cells: Seq<PairNode>,
    l1: LispObject,
    l2: LispObject,
    pred: P,
    answers: Seq<LispObject>,
    k: nat,
)
    requires
        finite(cells, l1),
        finite(cells, l2),
        merge_trace(cells, l1, l2, pred, answers),
        k <= answers.len(),
    ensures
        taken(answers, k) <= chain_len(cells, l1),
        k - taken(answers, k) <= chain_len(cells, l2),
        taken(answers, k) <= k,
    decreases k,
{
    lemma_chain_len(cells, l1);
    lemma_chain_len(cells, l2);
    if k > 0 {
        let m = (k - 1) as nat;
        lemma_steps_within(cells, l1, l2, pred, answers, m);
        assert(merge_step(cells, l1, l2, pred, answers, m as int));
        let i = taken(answers, m);
        if i >= chain_len(cells, l1) {
            lemma_end_absorbs(cells, l1, chain_len(cells, l1), i);
        }
        if m - i >= chain_len(cells, l2) {
            lemma_end_absorbs(cells, l2, chain_len(cells, l2), (m - i) as nat);
        }
    }
}

/// The nodes that a merge took are pair nodes of the two lists, each taken
/// once.
pub proof fn lemma_merged_distinct<P: Fn(LispObject, LispObject) -> LispObject>(
    cells: Seq<PairNode>,
    l1: LispObject,
    l2: LispObject,
    pred: P,
    answers: Seq<LispObject>,
)
    requires
        finite(cells, l1),
        finite(cells, l2),
        disjoint(cells, l1, l2),
        merge_trace(cells, l1, l2, pred, answers),
    ensures
        merged_nodes(cells, l1, l2, answers).no_duplicates(),
        forall|k: int|
            0 <= k < answers.len() ==> (#[trigger] merged_nodes(cells, l1, l2, answers)[k]).0 < cells.len(),
        forall|k: int|
            0 <= k < answers.len() ==> drawn(
                cells,
                l1,
                l2,
                #[trigger] merged_nodes(cells, l1, l2, answers)[k],
                taken(answers, answers.len()),
                (answers.len() - taken(answers, answers.len())) as nat,
            ),
{
    let nodes = merged_nodes(cells, l1, l2, answers);
    let n = answers.len();
    lemma_taken(answers, n, n);
    assert forall|k: int| 0 <= k < n implies (#[trigger] nodes[k]).0 < cells.len() && drawn(
        cells,
        l1,
        l2,
        nodes[k],
        taken(answers, n),
        (n - taken(answers, n)) as nat,
    ) by {
        assert(merge_step(cells, l1, l2, pred, answers, k));
        lemma_taken(answers, (k + 1) as nat, n);
        lemma_taken(answers, k as nat, k as nat);
        let i = taken(answers, k as nat);
        assert(taken(answers, (k + 1) as nat) == i + if answers[k] == LispObject::Nil {
            1nat
        } else {
            0nat
        });
        if answers[k] == LispObject::Nil {
            assert(i < taken(answers, n) && is_pair(cells, tail_at(cells, l1, i)) && LispObject::Cons(nodes[k].0)
                == tail_at(cells, l1, i));
        } else {
            let q = (k - i) as nat;
            assert(q < n - taken(answers, n) && is_pair(cells, tail_at(cells, l2, q)) && LispObject::Cons(
                nodes[k].0,
            ) == tail_at(cells, l2, q));
        }
    }
    assert forall|x: int, y: int| 0 <= x < n && 0 <= y < n && x < y implies nodes[x] != nodes[y] by {
        assert(merge_step(cells, l1, l2, pred, answers, x));
        assert(merge_step(cells, l1, l2, pred, answers, y));
        lemma_taken(answers, (x + 1) as nat, y as nat);
        lemma_taken(answers, x as nat, x as nat);
        lemma_taken(answers, y as nat, y as nat);
        let ix = taken(answers, x as nat);
        let iy = taken(answers, y as nat);
        assert(taken(answers, (x + 1) as nat) == ix + if answers[x] == LispObject::Nil {
            1nat
        } else {
            0nat
        });
        if answers[x] == LispObject::Nil {
            if answers[y] == LispObject::Nil {
                lemma_finite_chain_has_no_repeat(cells, l1, ix, iy);
            }
        } else {
            if answers[y] != LispObject::Nil {
                lemma_finite_chain_has_no_repeat(cells, l2, (x - ix) as nat, (y - iy) as nat);
            }
        }
    }
    assert forall|x: int, y: int| 0 <= x < n && 0 <= y < n && x != y implies nodes[x] != nodes[y] by {
        if x < y {
        } else {
            assert(nodes[y] != nodes[x]);
        }
    }
}

/// The value `t` links into what a merge left over: the rest of the list
/// that was not used up first.
pub open spec fn left_over(
    cells: Seq<PairNode>,
    l1: LispObject,
    l2: LispObject,
    answers: Seq<LispObject>,
    t: nat,
) -> LispObject {
    let i = taken(answers, answers.len());
    let j = (answers.len() - i) as nat;
    if tail_at(cells, l1, i) == LispObject::Nil {
        tail_at(cells, l2, j + t)
    } else {
        tail_at(cells, l1, i + t)
    }
}

/// The chain that a merge which comes to its end makes: it runs through the
/// nodes that were taken, in the order in which they were taken, and then
/// through what was left over.
pub proof fn lemma_merged_chain<P: Fn(LispObject, LispObject) -> LispObject>(
    cells: Seq<PairNode>,
    l1: LispObject,
    l2: LispObject,
    pred: P,
    answers: Seq<LispObject>,
)
    requires
        finite(cells, l1),
        finite(cells, l2),
        disjoint(cells, l1, l2),
        merge_trace(cells, l1, l2, pred, answers),
        merge_end(
            cells,
            tail_at(cells, l1, taken(answers, answers.len())),
            tail_at(cells, l2, (answers.len() - taken(answers, answers.len())) as nat),
        ) is Done,
    ensures
        ({
            let (r, after) = merge_result(cells, l1, l2, answers);
            let total = chain_len(cells, l1) + chain_len(cells, l2);
            &&& r is Ok
            &&& after.len() == cells.len()
            &&& answers.len() <= total
            &&& forall|k: nat|
                k < answers.len() ==> #[trigger] tail_at(after, r->Ok_0, k) == LispObject::Cons(
                    merged_nodes(cells, l1, l2, answers)[k as int].0,
                )
            &&& forall|k: nat|
                answers.len() <= k <= total ==> #[trigger] tail_at(after, r->Ok_0, k) == left_over(
                    cells,
                    l1,
                    l2,
                    answers,
                    (k - answers.len()) as nat,
                )
        }),
{
    let n = answers.len();
    let i = taken(answers, n);
    let j = (n - i) as nat;
    let nodes = merged_nodes(cells, l1, l2, answers);
    let rest = merge_end(cells, tail_at(cells, l1, i), tail_at(cells, l2, j))->Done_0;
    let (r, after) = merge_result(cells, l1, l2, answers);
    let head = r->Ok_0;
    let total = (chain_len(cells, l1) + chain_len(cells, l2)) as nat;
    let more = chain_len(cells, rest);
    lemma_left_over(cells, l1, l2, pred, answers);
    lemma_merged_distinct(cells, l1, l2, pred, answers);
    lemma_relink_frame(cells, nodes, rest);
    lemma_chain_len(cells, rest);
    // What is left over is in the new arena as it was.
    assert forall|t: nat| t < more implies after[(#[trigger] tail_at(cells, rest, t))->Cons_0 as int]
        == cells[tail_at(cells, rest, t)->Cons_0 as int] by {
        let node = tail_at(cells, rest, t);
        let idx = node->Cons_0 as int;
        assert(is_pair(cells, node));
        assert(untaken(cells, l1, l2, answers, node));
        assert forall|k: int| 0 <= k < nodes.len() implies (#[trigger] nodes[k]).0 != idx by {
        }
        assert(relink(cells, nodes, rest)[idx] == cells[idx]);
    }
    lemma_same_finite_chain(cells, after, rest);
    if n == 0 {
        assert(head == rest);
        assert(after == cells);
    } else {
        lemma_relinked_chain(cells, nodes, rest);
        assert(head == LispObject::Cons(nodes[0].0));
    }
    assert forall|k: nat| n <= k <= total implies #[trigger] tail_at(after, head, k) == left_over(
        cells,
        l1,
        l2,
        answers,
        (k - n) as nat,
    ) by {
        let t = (k - n) as nat;
        if n > 0 {
            crate::chains::lemma_tail_at_add(after, head, n, t);
        }
        assert(tail_at(after, rest, t) == tail_at(cells, rest, t));
        assert(tail_at(cells, rest, t) == left_over(cells, l1, l2, answers, t));
    }
}

/// Whether `node` is one of the pair nodes of the list `l1` or of the list
/// `l2`.
pub open spec fn node_of_either(cells: Seq<PairNode>, l1: LispObject, l2: LispObject, node: LispObject) -> bool {
    ||| exists|m: nat| m < chain_len(cells, l1) && node == #[trigger] tail_at(cells, l1, m)
    ||| exists|m: nat| m < chain_len(cells, l2) && node == #[trigger] tail_at(cells, l2, m)
}

/// Each node of the chain that a merge makes is a pair node of one of the
/// two lists.
pub proof fn lemma_merged_node<P: Fn(LispObject, LispObject) -> LispObject>(
    cells: Seq<PairNode>,
    l1: LispObject,
    l2: LispObject,
    pred: P,
    answers: Seq<LispObject>,
    k: nat,
)
    requires
        finite(cells, l1),
        finite(cells, l2),
        disjoint(cells, l1, l2),
        merge_trace(cells, l1, l2, pred, answers),
        merge_end(
            cells,
            tail_at(cells, l1, taken(answers, answers.len())),
            tail_at(cells, l2, (answers.len() - taken(answers, answers.len())) as nat),
        ) is Done,
        k < chain_len(cells, l1) + chain_len(cells, l2),
    ensures
        ({
            let (r, after) = merge_result(cells, l1, l2, answers);
            &&& is_pair(after, tail_at(after, r->Ok_0, k))
            &&& node_of_either(cells, l1, l2, tail_at(after, r->Ok_0, k))
        }),
{
    let n = answers.len();
    let i = taken(answers, n);
    let j = (n - i) as nat;
    let la = chain_len(cells, l1);
    let lb = chain_len(cells, l2);
    let (r, after) = merge_result(cells, l1, l2, answers);
    let node = tail_at(after, r->Ok_0, k);
    lemma_merged_chain(cells, l1, l2, pred, answers);
    lemma_taken(answers, n, n);
    if k < n {
        lemma_drawn_from(cells, l1, l2, pred, answers, k as int);
        lemma_merged_distinct(cells, l1, l2, pred, answers);
        assert(merged_nodes(cells, l1, l2, answers)[k as int].0 < cells.len());
    } else {
        let t = (k - n) as nat;
        lemma_left_over(cells, l1, l2, pred, answers);
        assert(node == left_over(cells, l1, l2, answers, t));
        if tail_at(cells, l1, i) == LispObject::Nil {
            let m = (j + t) as nat;
            assert(m < lb);
            lemma_chain_len(cells, l2);
            assert(node == tail_at(cells, l2, m));
            assert(is_pair(cells, tail_at(cells, l2, m)));
        } else {
            let m = (i + t) as nat;
            assert(m < la);
            lemma_chain_len(cells, l1);
            assert(node == tail_at(cells, l1, m));
            assert(is_pair(cells, tail_at(cells, l1, m)));
        }
    }
}

/// What a merge that comes to its end makes of two lists: one chain that
/// ends, has as many nodes as the two together, each of them a node of one
/// of the two, and leads to the end of the list that was not used up first.
pub proof fn lemma_merge_done<P: Fn(LispObject, LispObject) -> LispObject>(
    cells: Seq<PairNode>,
    l1: LispObject,
    l2: LispObject,
    pred: P,
    answers: Seq<LispObject>,
)
    requires
        finite(cells, l1),
        finite(cells, l2),
        disjoint(cells, l1, l2),
        merge_trace(cells, l1, l2, pred, answers),
        merge_end(
            cells,
            tail_at(cells, l1, taken(answers, answers.len())),
            tail_at(cells, l2, (answers.len() - taken(answers, answers.len())) as nat),
        ) is Done,
    ensures
        ({
            let (r, after) = merge_result(cells, l1, l2, answers);
            let la = chain_len(cells, l1);
            let lb = chain_len(cells, l2);
            &&& r is Ok
            &&& finite(after, r->Ok_0)
            &&& chain_len(after, r->Ok_0) == la + lb
            &&& tail_at(after, r->Ok_0, la + lb) == if tail_at(cells, l1, la) == LispObject::Nil {
                tail_at(cells, l2, lb)
            } else {
                tail_at(cells, l1, la)
            }
            &&& forall|k: nat|
                k < la + lb ==> node_of_either(cells, l1, l2, #[trigger] tail_at(after, r->Ok_0, k))
        }),
{
    let n = answers.len();
    let la = chain_len(cells, l1);
    let lb = chain_len(cells, l2);
    let i = taken(answers, n);
    let j = (n - i) as nat;
    let rest = merge_end(cells, tail_at(cells, l1, i), tail_at(cells, l2, j))->Done_0;
    let (r, after) = merge_result(cells, l1, l2, answers);
    let head = r->Ok_0;
    let total = (la + lb) as nat;
    let more = chain_len(cells, rest);
    lemma_merged_chain(cells, l1, l2, pred, answers);
    lemma_left_over(cells, l1, l2, pred, answers);
    assert forall|k: nat| k < total implies is_pair(after, #[trigger] tail_at(after, head, k))
        && node_of_either(cells, l1, l2, tail_at(after, head, k)) by {
        lemma_merged_node(cells, l1, l2, pred, answers, k);
    }
    assert(tail_at(after, head, total) == left_over(cells, l1, l2, answers, more));
    assert(tail_at(cells, rest, more) == left_over(cells, l1, l2, answers, more));
    lemma_chain_len(cells, rest);
    assert(!is_pair(after, tail_at(after, head, total)));
    crate::chains::lemma_chain_len_is(after, head, total);
}

/// Whether `node` is a pair node that a merge with the given answers did not
/// take.
pub open spec fn untaken(
    cells: Seq<PairNode>,
    l1: LispObject,
    l2: LispObject,
    answers: Seq<LispObject>,
    node: LispObject,
) -> bool {
    forall|k: int|
        0 <= k < answers.len() ==> (#[trigger] merged_nodes(cells, l1, l2, answers)[k]).0 != node->Cons_0
}

/// A node that a merge took is a pair node of one of the two lists.
pub proof fn lemma_drawn_from<P: Fn(LispObject, LispObject) -> LispObject>(
    cells: Seq<PairNode>,
    l1: LispObject,
    l2: LispObject,
    pred: P,
    answers: Seq<LispObject>,
    k: int,
)
    requires
        finite(cells, l1),
        finite(cells, l2),
        disjoint(cells, l1, l2),
        merge_trace(cells, l1, l2, pred, answers),
        0 <= k < answers.len(),
    ensures
        node_of_either(cells, l1, l2, LispObject::Cons(merged_nodes(cells, l1, l2, answers)[k].0)),
{
    let n = answers.len();
    let i = taken(answers, n);
    let j = (n - i) as nat;
    let nodes = merged_nodes(cells, l1, l2, answers);
    lemma_steps_within(cells, l1, l2, pred, answers, n);
    lemma_merged_distinct(cells, l1, l2, pred, answers);
    assert(drawn(cells, l1, l2, nodes[k], i, j));
    if exists|p: nat|
        p < i && is_pair(cells, #[trigger] tail_at(cells, l1, p)) && LispObject::Cons(nodes[k].0) == tail_at(
            cells,
            l1,
            p,
        ) {
        let p = choose|p: nat|
            p < i && is_pair(cells, #[trigger] tail_at(cells, l1, p)) && LispObject::Cons(nodes[k].0)
                == tail_at(cells, l1, p);
        assert(p < chain_len(cells, l1) && LispObject::Cons(nodes[k].0) == tail_at(cells, l1, p));
    } else {
        let p = choose|p: nat|
            p < j && is_pair(cells, #[trigger] tail_at(cells, l2, p)) && LispObject::Cons(nodes[k].0)
                == tail_at(cells, l2, p);
        assert(p < chain_len(cells, l2) && LispObject::Cons(nodes[k].0) == tail_at(cells, l2, p));
    }
}

/// What a merge that comes to its end leaves over: the rest of the list that
/// was not used up first, which ends, has the nodes that were not taken, and
/// leads to the end of that list.
pub proof fn lemma_left_over<P: Fn(LispObject, LispObject) -> LispObject>(
    cells: Seq<PairNode>,
    l1: LispObject,
    l2: LispObject,
    pred: P,
    answers: Seq<LispObject>,
)
    requires
        finite(cells, l1),
        finite(cells, l2),
        disjoint(cells, l1, l2),
        merge_trace(cells, l1, l2, pred, answers),
        merge_end(
            cells,
            tail_at(cells, l1, taken(answers, answers.len())),
            tail_at(cells, l2, (answers.len() - taken(answers, answers.len())) as nat),
        ) is Done,
    ensures
        ({
            let n = answers.len();
            let i = taken(answers, n);
            let j = (n - i) as nat;
            let la = chain_len(cells, l1);
            let lb = chain_len(cells, l2);
            let rest = merge_end(cells, tail_at(cells, l1, i), tail_at(cells, l2, j))->Done_0;
            &&& i <= la
            &&& j <= lb
            &&& tail_at(cells, l1, i) == LispObject::Nil ==> i == la
            &&& tail_at(cells, l1, i) != LispObject::Nil ==> j == lb
            &&& finite(cells, rest)
            &&& chain_len(cells, rest) + n == la + lb
            &&& forall|t: nat|
                t <= chain_len(cells, rest) ==> #[trigger] tail_at(cells, rest, t) == left_over(cells, l1, l2, answers, t)
            &&& forall|t: nat|
                t < chain_len(cells, rest) ==> untaken(cells, l1, l2, answers, #[trigger] tail_at(cells, rest, t))
            &&& tail_at(cells, rest, chain_len(cells, rest)) == if tail_at(cells, l1, la) == LispObject::Nil {
                tail_at(cells, l2, lb)
            } else {
                tail_at(cells, l1, la)
            }
        }),
{
    let n = answers.len();
    let i = taken(answers, n);
    let j = (n - i) as nat;
    let la = chain_len(cells, l1);
    let lb = chain_len(cells, l2);
    let nodes = merged_nodes(cells, l1, l2, answers);
    let cur1 = tail_at(cells, l1, i);
    let cur2 = tail_at(cells, l2, j);
    let rest = merge_end(cells, cur1, cur2)->Done_0;
    lemma_chain_len(cells, l1);
    lemma_chain_len(cells, l2);
    lemma_steps_within(cells, l1, l2, pred, answers, n);
    lemma_merged_distinct(cells, l1, l2, pred, answers);
    let first_done = cur1 == LispObject::Nil;
    let from = if first_done { l2 } else { l1 };
    let at = if first_done { j } else { i };
    let len = if first_done { lb } else { la };
    assert(rest == tail_at(cells, from, at));
    if first_done {
        if i < la {
            assert(is_pair(cells, tail_at(cells, l1, i)));
        }
    } else {
        if j < lb {
            assert(is_pair(cells, tail_at(cells, l2, j)));
        }
    }
    let more = (len - at) as nat;
    crate::chains::lemma_finite_tail(cells, from, at);
    assert forall|t: nat| t <= more implies #[trigger] tail_at(cells, rest, t) == left_over(
        cells,
        l1,
        l2,
        answers,
        t,
    ) by {
        crate::chains::lemma_tail_at_add(cells, from, at, t);
    }
    assert forall|t: nat| t < more implies is_pair(cells, #[trigger] tail_at(cells, rest, t)) by {
        assert(tail_at(cells, rest, t) == left_over(cells, l1, l2, answers, t));
        assert(is_pair(cells, tail_at(cells, from, at + t)));
    }
    assert(tail_at(cells, rest, more) == tail_at(cells, from, len)) by {
        crate::chains::lemma_tail_at_add(cells, from, at, more);
    }
    crate::chains::lemma_chain_len_is(cells, rest, more);
    assert forall|t: nat| t < more implies untaken(cells, l1, l2, answers, #[trigger] tail_at(cells, rest, t)) by {
        let node = tail_at(cells, rest, t);
        assert(node == left_over(cells, l1, l2, answers, t));
        assert(node == tail_at(cells, from, at + t));
        assert(is_pair(cells, node));
        assert forall|k: int| 0 <= k < nodes.len() implies (#[trigger] nodes[k]).0 != node->Cons_0 by {
            assert(drawn(cells, l1, l2, nodes[k], i, j));
            if exists|p: nat|
                p < i && is_pair(cells, #[trigger] tail_at(cells, l1, p)) && LispObject::Cons(nodes[k].0)
                    == tail_at(cells, l1, p) {
                let p = choose|p: nat|
                    p < i && is_pair(cells, #[trigger] tail_at(cells, l1, p)) && LispObject::Cons(nodes[k].0)
                        == tail_at(cells, l1, p);
                if !first_done {
                    lemma_finite_chain_has_no_repeat(cells, l1, p, at + t);
                }
            } else {
                let p = choose|p: nat|
                    p < j && is_pair(cells, #[trigger] tail_at(cells, l2, p)) && LispObject::Cons(nodes[k].0)
                        == tail_at(cells, l2, p);
                if first_done {
                    lemma_finite_chain_has_no_repeat(cells, l2, p, at + t);
                }
            }
        }
    }
    // The end of the list that was used up first is the terminator, so the
    // merged list ends as the other list does.
    if first_done {
        assert(tail_at(cells, l1, la) == LispObject::Nil);
    } else {
        assert(cur2 == LispObject::Nil);
        assert(tail_at(cells, l2, lb) == LispObject::Nil);
    }
}

/// Whether the chain from `a` in `now` ends and has nodes only from the
/// positions `lo` up to `hi` of the chain from `list` in `cells`.
pub open spec fn within(
    now: Seq<PairNode>,
    a: LispObject,
    cells: Seq<PairNode>,
    list: LispObject,
    lo: nat,
    hi: nat,
) -> bool {
    &&& finite(now, a)
    &&& forall|k: nat|
        k < chain_len(now, a) ==> exists|m: nat|
            lo <= m < hi && #[trigger] tail_at(now, a, k) == tail_at(cells, list, m)
}

/// Chains with nodes from separate stretches of a finite chain have no node
/// in common.
pub proof fn lemma_within_disjoint(
    now: Seq<PairNode>,
    a: LispObject,
    b: LispObject,
    cells: Seq<PairNode>,
    list: LispObject,
    h: nat,
    n: nat,
)
    requires
        now.len() == cells.len(),
        finite(cells, list),
        n == chain_len(cells, list),
        h <= n,
        within(now, a, cells, list, 0, h),
        within(now, b, cells, list, h, n),
    ensures
        disjoint(now, a, b),
{
    lemma_chain_len(now, a);
    lemma_chain_len(now, b);
    lemma_chain_len(cells, list);
    assert forall|i: nat, j: nat|
        is_pair(now, #[trigger] tail_at(now, a, i)) && is_pair(now, #[trigger] tail_at(now, b, j)) implies tail_at(
        now,
        a,
        i,
    ) != tail_at(now, b, j) by {
        if i >= chain_len(now, a) {
            lemma_end_absorbs(now, a, chain_len(now, a), i);
        }
        if j >= chain_len(now, b) {
            lemma_end_absorbs(now, b, chain_len(now, b), j);
        }
        let m1 = choose|m: nat| 0 <= m < h && tail_at(now, a, i) == tail_at(cells, list, m);
        let m2 = choose|m: nat| h <= m < n && tail_at(now, b, j) == tail_at(cells, list, m);
        assert(is_pair(cells, tail_at(cells, list, m1)));
        lemma_finite_chain_has_no_repeat(cells, list, m1, m2);
    }
}

/// A chain that has no node in common with a list that was relinked is as it
/// was.
pub proof fn lemma_untouched_chain(before: Seq<PairNode>, list: LispObject, after: Seq<PairNode>, other: LispObject)
    requires
        only_relinked(before, list, after),
        finite(before, list),
        finite(before, other),
        disjoint(before, list, other),
    ensures
        finite(after, other),
        chain_len(after, other) == chain_len(before, other),
        forall|k: nat| k <= chain_len(before, other) ==> #[trigger] tail_at(after, other, k) == tail_at(before, other, k),
{
    lemma_chain_len(before, list);
    lemma_chain_len(before, other);
    assert forall|k: nat| k < chain_len(before, other) implies after[(#[trigger] tail_at(before, other, k))->Cons_0 as int]
        == before[tail_at(before, other, k)->Cons_0 as int] by {
        let node = tail_at(before, other, k);
        let idx = node->Cons_0 as int;
        assert(is_pair(before, node));
        assert forall|m: nat| m < chain_len(before, list) implies #[trigger] tail_at(before, list, m) != LispObject::Cons(
            idx as usize,
        ) by {
            assert(is_pair(before, tail_at(before, list, m)));
        }
    }
    lemma_same_finite_chain(before, after, other);
}

/// Relinking a list whose nodes are nodes of the chain from `list` keeps the
/// changes on that chain.
pub proof fn lemma_changes_compose(
    cells: Seq<PairNode>,
    list: LispObject,
    now: Seq<PairNode>,
    a: LispObject,
    after: Seq<PairNode>,
)
    requires
        finite(cells, list),
        only_relinked(cells, list, now),
        only_relinked(now, a, after),
        within(now, a, cells, list, 0, chain_len(cells, list)),
    ensures
        only_relinked(cells, list, after),
{
    assert forall|idx: int|
        0 <= idx < cells.len() && (forall|m: nat|
            m < chain_len(cells, list) ==> #[trigger] tail_at(cells, list, m) != LispObject::Cons(idx as usize)) implies #[trigger] after[idx]
        == cells[idx] by {
        assert(now[idx] == cells[idx]);
        assert forall|k: nat| k < chain_len(now, a) implies #[trigger] tail_at(now, a, k) != LispObject::Cons(
            idx as usize,
        ) by {
            let m = choose|m: nat| 0 <= m < chain_len(cells, list) && tail_at(now, a, k) == tail_at(cells, list, m);
            assert(tail_at(cells, list, m) != LispObject::Cons(idx as usize));
        }
        assert(after[idx] == now[idx]);
    }
    assert forall|idx: int| 0 <= idx < cells.len() implies (#[trigger] after[idx]).first == cells[idx].first by {
        assert(after[idx].first == now[idx].first);
        assert(now[idx].first == cells[idx].first);
    }
}

/// Cutting a finite list behind its node at position `h - 1` leaves two
/// lists: the first `h` nodes, which now end in the terminator, and the rest
/// as it was.
pub proof fn lemma_cut(cells: Seq<PairNode>, list: LispObject, h: nat)
    requires
        finite(cells, list),
        1 <= h <= chain_len(cells, list),
    ensures
        ({
            let n = chain_len(cells, list);
            let node = tail_at(cells, list, (h - 1) as nat);
            let back = tail_at(cells, list, h);
            let after = cells.update(
                node->Cons_0 as int,
                PairNode { first: cells[node->Cons_0 as int].first, second: LispObject::Nil },
            );
            &&& is_pair(cells, node)
            &&& back == cells[node->Cons_0 as int].second
            &&& only_relinked(cells, list, after)
            &&& within(after, list, cells, list, 0, h)
            &&& chain_len(after, list) == h
            &&& tail_at(after, list, h) == LispObject::Nil
            &&& within(after, back, cells, list, h, n)
            &&& chain_len(after, back) == n - h
            &&& tail_at(after, back, (n - h) as nat) == tail_at(cells, list, n)
            &&& disjoint(after, list, back)
        }),
{
    let n = chain_len(cells, list);
    let node = tail_at(cells, list, (h - 1) as nat);
    let idx = node->Cons_0 as int;
    let back = tail_at(cells, list, h);
    let after = cells.update(idx, PairNode { first: cells[idx].first, second: LispObject::Nil });
    lemma_chain_len(cells, list);
    assert(is_pair(cells, node));
    assert(back == rest_of(cells, node));
    // The nodes before the cut are linked as they were.
    assert forall|k: nat|
        k < h - 1 && is_pair(cells, #[trigger] tail_at(cells, list, k)) implies after[tail_at(cells, list, k)->Cons_0 as int]
        == cells[tail_at(cells, list, k)->Cons_0 as int] by {
        lemma_finite_chain_has_no_repeat(cells, list, k, (h - 1) as nat);
    }
    lemma_same_chain(cells, after, list, (h - 1) as nat);
    assert(tail_at(after, list, (h - 1) as nat) == node);
    assert(tail_at(after, list, h) == rest_of(after, tail_at(after, list, (h - 1) as nat)));
    assert forall|j: nat| j < h implies is_pair(after, #[trigger] tail_at(after, list, j)) by {
        assert(tail_at(after, list, j) == tail_at(cells, list, j));
        assert(is_pair(cells, tail_at(cells, list, j)));
    }
    crate::chains::lemma_chain_len_is(after, list, h);
    assert forall|k: nat| k < chain_len(after, list) implies exists|m: nat|
        0 <= m < h && #[trigger] tail_at(after, list, k) == tail_at(cells, list, m) by {
        assert(0 <= k < h && tail_at(after, list, k) == tail_at(cells, list, k));
    }
    // The rest is as it was.
    crate::chains::lemma_finite_tail(cells, list, h);
    assert forall|t: nat| t <= n - h implies #[trigger] tail_at(cells, back, t) == tail_at(cells, list, h + t) by {
        crate::chains::lemma_tail_at_add(cells, list, h, t);
    }
    assert forall|t: nat| t < n - h implies is_pair(cells, #[trigger] tail_at(cells, back, t)) by {
        assert(tail_at(cells, back, t) == tail_at(cells, list, h + t));
    }
    assert(tail_at(cells, back, (n - h) as nat) == tail_at(cells, list, h + (n - h) as nat));
    crate::chains::lemma_chain_len_is(cells, back, (n - h) as nat);
    assert forall|t: nat| t < chain_len(cells, back) implies after[(#[trigger] tail_at(cells, back, t))->Cons_0 as int]
        == cells[tail_at(cells, back, t)->Cons_0 as int] by {
        assert(tail_at(cells, back, t) == tail_at(cells, list, h + t));
        lemma_finite_chain_has_no_repeat(cells, list, (h - 1) as nat, h + t);
    }
    lemma_same_finite_chain(cells, after, back);
    assert forall|k: nat| k < chain_len(after, back) implies exists|m: nat|
        h <= m < n && #[trigger] tail_at(after, back, k) == tail_at(cells, list, m) by {
        let m = (h + k) as nat;
        assert(tail_at(after, back, k) == tail_at(cells, back, k));
        assert(h <= m < n && tail_at(after, back, k) == tail_at(cells, list, m));
    }
    lemma_within_disjoint(after, list, back, cells, list, h, n);
    assert forall|i: int|
        0 <= i < cells.len() && (forall|m: nat|
            m < chain_len(cells, list) ==> #[trigger] tail_at(cells, list, m) != LispObject::Cons(i as usize)) implies #[trigger] after[i]
        == cells[i] by {
        assert(tail_at(cells, list, (h - 1) as nat) != LispObject::Cons(i as usize));
    }
}

/// A rearrangement of a chain with nodes from a stretch of a list has nodes
/// from that stretch.
pub proof fn lemma_rearranged_within(
    before: Seq<PairNode>,
    a: LispObject,
    after: Seq<PairNode>,
    head: LispObject,
    cells: Seq<PairNode>,
    list: LispObject,
    lo: nat,
    hi: nat,
)
    requires
        within(before, a, cells, list, lo, hi),
        rearranged(before, a, after, head),
    ensures
        within(after, head, cells, list, lo, hi),
{
    assert forall|k: nat| k < chain_len(after, head) implies exists|m: nat|
        lo <= m < hi && #[trigger] tail_at(after, head, k) == tail_at(cells, list, m) by {
        let q = choose|q: nat| q < chain_len(before, a) && tail_at(after, head, k) == tail_at(before, a, q);
        let m = choose|m: nat| lo <= m < hi && tail_at(before, a, q) == tail_at(cells, list, m);
        assert(lo <= m < hi && tail_at(after, head, k) == tail_at(cells, list, m));
    }
}

/// A chain that is the same in another arena has its nodes from the same
/// stretch of a list there.
pub proof fn lemma_within_same(
    before: Seq<PairNode>,
    after: Seq<PairNode>,
    a: LispObject,
    cells: Seq<PairNode>,
    list: LispObject,
    lo: nat,
    hi: nat,
)
    requires
        within(before, a, cells, list, lo, hi),
        finite(after, a),
        chain_len(after, a) == chain_len(before, a),
        forall|k: nat| k <= chain_len(before, a) ==> #[trigger] tail_at(after, a, k) == tail_at(before, a, k),
    ensures
        within(after, a, cells, list, lo, hi),
{
    assert forall|k: nat| k < chain_len(after, a) implies exists|m: nat|
        lo <= m < hi && #[trigger] tail_at(after, a, k) == tail_at(cells, list, m) by {
        assert(tail_at(after, a, k) == tail_at(before, a, k));
        let m = choose|m: nat| lo <= m < hi && tail_at(before, a, k) == tail_at(cells, list, m);
        assert(lo <= m < hi && tail_at(after, a, k) == tail_at(cells, list, m));
    }
}

/// A chain with nodes from a stretch of a list has nodes of the list.
pub proof fn lemma_within_wider(
    now: Seq<PairNode>,
    a: LispObject,
    cells: Seq<PairNode>,
    list: LispObject,
    lo: nat,
    hi: nat,
    n: nat,
)
    requires
        within(now, a, cells, list, lo, hi),
        hi <= n,
    ensures
        within(now, a, cells, list, 0, n),
{
    assert forall|k: nat| k < chain_len(now, a) implies exists|m: nat|
        0 <= m < n && #[trigger] tail_at(now, a, k) == tail_at(cells, list, m) by {
        let m = choose|m: nat| lo <= m < hi && tail_at(now, a, k) == tail_at(cells, list, m);
        assert(0 <= m < n && tail_at(now, a, k) == tail_at(cells, list, m));
    }
}

/// However a merge ends, it changes nothing but second slots of nodes of the
/// two lists.
pub proof fn lemma_merge_frame<P: Fn(LispObject, LispObject) -> LispObject>(
    cells: Seq<PairNode>,
    l1: LispObject,
    l2: LispObject,
    pred: P,
    answers: Seq<LispObject>,
)
    requires
        finite(cells, l1),
        finite(cells, l2),
        disjoint(cells, l1, l2),
        merge_trace(cells, l1, l2, pred, answers),
    ensures
        ({
            let after = merge_result(cells, l1, l2, answers).1;
            &&& after.len() == cells.len()
            &&& forall|idx: int| 0 <= idx < cells.len() ==> (#[trigger] after[idx]).first == cells[idx].first
            &&& forall|idx: int|
                0 <= idx < cells.len() && (forall|m: nat|
                    m < chain_len(cells, l1) ==> #[trigger] tail_at(cells, l1, m) != LispObject::Cons(idx as usize))
                    && (forall|m: nat|
                    m < chain_len(cells, l2) ==> #[trigger] tail_at(cells, l2, m) != LispObject::Cons(idx as usize))
                    ==> #[trigger] after[idx] == cells[idx]
        }),
{
    let n = answers.len();
    let i = taken(answers, n);
    let j = (n - i) as nat;
    let nodes = merged_nodes(cells, l1, l2, answers);
    let after = merge_result(cells, l1, l2, answers).1;
    lemma_steps_within(cells, l1, l2, pred, answers, n);
    lemma_merged_distinct(cells, l1, l2, pred, answers);
    lemma_relink_open_frame(cells, nodes);
    let end = merge_end(cells, tail_at(cells, l1, i), tail_at(cells, l2, j));
    if end is Done {
        lemma_relink_frame(cells, nodes, end->Done_0);
    }
    assert forall|idx: int|
        0 <= idx < cells.len() && (forall|m: nat|
            m < chain_len(cells, l1) ==> #[trigger] tail_at(cells, l1, m) != LispObject::Cons(idx as usize)) && (forall|
            m: nat,
        | m < chain_len(cells, l2) ==> #[trigger] tail_at(cells, l2, m) != LispObject::Cons(idx as usize)) implies #[trigger] after[idx]
        == cells[idx] by {
        assert forall|k: int| 0 <= k < nodes.len() implies (#[trigger] nodes[k]).0 != idx by {
            if nodes[k].0 == idx {
                assert(drawn(cells, l1, l2, nodes[k], i, j));
                if exists|p: nat|
                    p < i && is_pair(cells, #[trigger] tail_at(cells, l1, p)) && LispObject::Cons(nodes[k].0)
                        == tail_at(cells, l1, p) {
                    let p = choose|p: nat|
                        p < i && is_pair(cells, #[trigger] tail_at(cells, l1, p)) && LispObject::Cons(nodes[k].0)
                            == tail_at(cells, l1, p);
                    assert(tail_at(cells, l1, p) != LispObject::Cons(idx as usize));
                } else {
                    let p = choose|p: nat|
                        p < j && is_pair(cells, #[trigger] tail_at(cells, l2, p)) && LispObject::Cons(nodes[k].0)
                            == tail_at(cells, l2, p);
                    assert(tail_at(cells, l2, p) != LispObject::Cons(idx as usize));
                }
            }
        }
    }
}

/// Whether the list from `list` ends in the terminator.
pub open spec fn ends_well(cells: Seq<PairNode>, list: LispObject) -> bool {
    tail_at(cells, list, chain_len(cells, list)) == LispObject::Nil
}

/// A merge of two finite lists that end in the terminator comes to its end:
/// it never stands at something that has no first slot.
pub proof fn lemma_merge_succeeds<P: Fn(LispObject, LispObject) -> LispObject>(
    cells: Seq<PairNode>,
    l1: LispObject,
    l2: LispObject,
    pred: P,
    answers: Seq<LispObject>,
)
    requires
        finite(cells, l1),
        finite(cells, l2),
        ends_well(cells, l1),
        ends_well(cells, l2),
        merge_trace(cells, l1, l2, pred, answers),
    ensures
        !(merge_end(
            cells,
            tail_at(cells, l1, taken(answers, answers.len())),
            tail_at(cells, l2, (answers.len() - taken(answers, answers.len())) as nat),
        ) is Fail),
{
    lemma_steps_within(cells, l1, l2, pred, answers, answers.len());
    lemma_chain_len(cells, l1);
    lemma_chain_len(cells, l2);
}

/// The last step of a sort: merging the sorted halves of a list yields a
/// rearrangement of the list, and changes nothing but second slots of its
/// nodes.
pub proof fn lemma_sorted<P: Fn(LispObject, LispObject) -> LispObject>(
    cells: Seq<PairNode>,
    list: LispObject,
    h: nat,
    now: Seq<PairNode>,
    front: LispObject,
    back: LispObject,
    pred: P,
    answers: Seq<LispObject>,
)
    requires
        finite(cells, list),
        1 <= h < chain_len(cells, list),
        only_relinked(cells, list, now),
        within(now, front, cells, list, 0, h),
        within(now, back, cells, list, h, chain_len(cells, list)),
        chain_len(now, front) == h,
        chain_len(now, back) == chain_len(cells, list) - h,
        tail_at(now, front, h) == LispObject::Nil,
        tail_at(now, back, (chain_len(cells, list) - h) as nat) == tail_at(cells, list, chain_len(cells, list)),
        merge_trace(now, front, back, pred, answers),
        !(merge_end(
            now,
            tail_at(now, front, taken(answers, answers.len())),
            tail_at(now, back, (answers.len() - taken(answers, answers.len())) as nat),
        ) is Continue),
    ensures
        disjoint(now, front, back),
        only_relinked(cells, list, merge_result(now, front, back, answers).1),
        merge_result(now, front, back, answers).0 matches Ok(head) ==> rearranged(
            cells,
            list,
            merge_result(now, front, back, answers).1,
            head,
        ),
{
    let n = chain_len(cells, list);
    let (r, after) = merge_result(now, front, back, answers);
    lemma_within_disjoint(now, front, back, cells, list, h, n);
    lemma_merge_frame(now, front, back, pred, answers);
    assert forall|idx: int|
        0 <= idx < cells.len() && (forall|m: nat|
            m < n ==> #[trigger] tail_at(cells, list, m) != LispObject::Cons(idx as usize)) implies #[trigger] after[idx]
        == cells[idx] by {
        assert(now[idx] == cells[idx]);
        assert forall|k: nat| k < chain_len(now, front) implies #[trigger] tail_at(now, front, k) != LispObject::Cons(
            idx as usize,
        ) by {
            let m = choose|m: nat| 0 <= m < h && tail_at(now, front, k) == tail_at(cells, list, m);
            assert(tail_at(cells, list, m) != LispObject::Cons(idx as usize));
        }
        assert forall|k: nat| k < chain_len(now, back) implies #[trigger] tail_at(now, back, k) != LispObject::Cons(
            idx as usize,
        ) by {
            let m = choose|m: nat| h <= m < n && tail_at(now, back, k) == tail_at(cells, list, m);
            assert(tail_at(cells, list, m) != LispObject::Cons(idx as usize));
        }
        assert(after[idx] == now[idx]);
    }
    assert forall|idx: int| 0 <= idx < cells.len() implies (#[trigger] after[idx]).first == cells[idx].first by {
        assert(after[idx].first == now[idx].first);
        assert(now[idx].first == cells[idx].first);
    }
    if r is Ok {
        let head = r->Ok_0;
        lemma_merge_done(now, front, back, pred, answers);
        assert forall|k: nat| k < n implies exists|m: nat|
            m < n && #[trigger] tail_at(after, head, k) == tail_at(cells, list, m) by {
            let node = tail_at(after, head, k);
            assert(node_of_either(now, front, back, node));
            if exists|q: nat| q < chain_len(now, front) && node == #[trigger] tail_at(now, front, q) {
                let q = choose|q: nat| q < chain_len(now, front) && node == #[trigger] tail_at(now, front, q);
                let m = choose|m: nat| 0 <= m < h && tail_at(now, front, q) == tail_at(cells, list, m);
                assert(m < n && tail_at(after, head, k) == tail_at(cells, list, m));
            } else {
                let q = choose|q: nat| q < chain_len(now, back) && node == #[trigger] tail_at(now, back, q);
                let m = choose|m: nat| h <= m < n && tail_at(now, back, q) == tail_at(cells, list, m);
                assert(m < n && tail_at(after, head, k) == tail_at(cells, list, m));
            }
        }
    }
}

/// The element at position `k` of the list from `head`.
pub open spec fn element_at(cells: Seq<PairNode>, head: LispObject, k: nat) -> LispObject {
    cells[tail_at(cells, head, k)->Cons_0 as int].first
}

/// Whether no element of the list from `head` comes before the element that
/// it follows, where `lt(a, b)` says that `a` comes before `b`.
pub open spec fn in_order(
    cells: Seq<PairNode>,
    head: LispObject,
    lt: spec_fn(LispObject, LispObject) -> bool,
) -> bool {
    forall|k: nat| 0 < k < chain_len(cells, head) ==> #[trigger] follows(cells, head, lt, k)
}

/// Whether the element at position `k` of the list from `head` does not
/// come before the element at the position before it.
pub open spec fn follows(
    cells: Seq<PairNode>,
    head: LispObject,
    lt: spec_fn(LispObject, LispObject) -> bool,
    k: nat,
) -> bool {
    !lt(element_at(cells, head, k), element_at(cells, head, (k - 1) as nat))
}

/// Whether `pred` answers with something other than the terminator exactly
/// when its first argument comes before its second.
pub open spec fn decides<P: Fn(LispObject, LispObject) -> LispObject>(
    pred: P,
    lt: spec_fn(LispObject, LispObject) -> bool,
) -> bool {
    forall|a: LispObject, b: LispObject, v: LispObject|
        #[trigger] call_ensures(pred, (a, b), v) ==> ((v != LispObject::Nil) <==> lt(a, b))
}

/// Whether of two values at most one comes before the other.
pub open spec fn asymmetric(lt: spec_fn(LispObject, LispObject) -> bool) -> bool {
    forall|a: LispObject, b: LispObject| #[trigger] lt(a, b) ==> !lt(b, a)
}

/// After a step of a merge of lists that are in order, the elements at which
/// the two lists stand do not come before the element that was taken.
pub proof fn lemma_merge_step_order<P: Fn(LispObject, LispObject) -> LispObject>(
    cells: Seq<PairNode>,
    l1: LispObject,
    l2: LispObject,
    pred: P,
    answers: Seq<LispObject>,
    lt: spec_fn(LispObject, LispObject) -> bool,
    k: nat,
)
    requires
        finite(cells, l1),
        finite(cells, l2),
        merge_trace(cells, l1, l2, pred, answers),
        decides(pred, lt),
        asymmetric(lt),
        in_order(cells, l1, lt),
        in_order(cells, l2, lt),
        k < answers.len(),
    ensures
        ({
            let i = taken(answers, k + 1);
            let j = (k + 1 - i) as nat;
            let last = cells[merged_node(cells, l1, l2, answers, k as int).0 as int].first;
            &&& is_pair(cells, tail_at(cells, l1, i)) ==> !lt(element_at(cells, l1, i), last)
            &&& is_pair(cells, tail_at(cells, l2, j)) ==> !lt(element_at(cells, l2, j), last)
        }),
{
    let i = taken(answers, k);
    let j = (k - i) as nat;
    lemma_taken(answers, k, k);
    lemma_chain_len(cells, l1);
    lemma_chain_len(cells, l2);
    assert(merge_step(cells, l1, l2, pred, answers, k as int));
    let a = tail_at(cells, l1, i);
    let b = tail_at(cells, l2, j);
    let first_a = cells[a->Cons_0 as int].first;
    let first_b = cells[b->Cons_0 as int].first;
    assert(call_ensures(pred, (first_b, first_a), answers[k as int]));
    assert(taken(answers, k + 1) == i + if answers[k as int] == LispObject::Nil {
        1nat
    } else {
        0nat
    });
    if answers[k as int] == LispObject::Nil {
        assert(!lt(first_b, first_a));
        if is_pair(cells, tail_at(cells, l1, i + 1)) {
            if i + 1 >= chain_len(cells, l1) {
                lemma_end_absorbs(cells, l1, chain_len(cells, l1), i + 1);
            }
            assert(follows(cells, l1, lt, i + 1));
        }
    } else {
        assert(lt(first_b, first_a));
        if is_pair(cells, tail_at(cells, l2, j + 1)) {
            if j + 1 >= chain_len(cells, l2) {
                lemma_end_absorbs(cells, l2, chain_len(cells, l2), j + 1);
            }
            assert(follows(cells, l2, lt, j + 1));
        }
    }
}

/// A merge of two lists that are in order, with a predicate that decides
/// which of two elements comes first, yields a list that is in order.
pub proof fn lemma_merge_in_order<P: Fn(LispObject, LispObject) -> LispObject>(
    cells: Seq<PairNode>,
    l1: LispObject,
    l2: LispObject,
    pred: P,
    answers: Seq<LispObject>,
    lt: spec_fn(LispObject, LispObject) -> bool,
)
    requires
        finite(cells, l1),
        finite(cells, l2),
        disjoint(cells, l1, l2),
        merge_trace(cells, l1, l2, pred, answers),
        merge_end(
            cells,
            tail_at(cells, l1, taken(answers, answers.len())),
            tail_at(cells, l2, (answers.len() - taken(answers, answers.len())) as nat),
        ) is Done,
        decides(pred, lt),
        asymmetric(lt),
        in_order(cells, l1, lt),
        in_order(cells, l2, lt),
    ensures
        in_order(merge_result(cells, l1, l2, answers).1, merge_result(cells, l1, l2, answers).0->Ok_0, lt),
{
    let n = answers.len();
    let i = taken(answers, n);
    let j = (n - i) as nat;
    let la = chain_len(cells, l1);
    let lb = chain_len(cells, l2);
    let (r, after) = merge_result(cells, l1, l2, answers);
    let head = r->Ok_0;
    let nodes = merged_nodes(cells, l1, l2, answers);
    lemma_merge_done(cells, l1, l2, pred, answers);
    lemma_merged_chain(cells, l1, l2, pred, answers);
    lemma_merge_frame(cells, l1, l2, pred, answers);
    lemma_merged_distinct(cells, l1, l2, pred, answers);
    lemma_steps_within(cells, l1, l2, pred, answers, n);
    lemma_chain_len(cells, l1);
    lemma_chain_len(cells, l2);
    lemma_chain_len(after, head);
    let first_done = tail_at(cells, l1, i) == LispObject::Nil;
    assert forall|k: nat| 0 < k < chain_len(after, head) implies #[trigger] follows(after, head, lt, k) by {
        let p = (k - 1) as nat;
        assert(is_pair(after, tail_at(after, head, k)));
        assert(is_pair(after, tail_at(after, head, p)));
        if k <= n {
            // The element before was taken at step `p`.
            assert(tail_at(after, head, p) == LispObject::Cons(nodes[p as int].0));
            assert(element_at(after, head, p) == cells[nodes[p as int].0 as int].first);
            lemma_merge_step_order(cells, l1, l2, pred, answers, lt, p);
            let ik = taken(answers, k);
            let jk = (k - ik) as nat;
            lemma_taken(answers, k, k);
            if k < n {
                assert(merge_step(cells, l1, l2, pred, answers, k as int));
                assert(tail_at(after, head, k) == LispObject::Cons(nodes[k as int].0));
                assert(element_at(after, head, k) == cells[nodes[k as int].0 as int].first);
            } else {
                assert(tail_at(after, head, k) == left_over(cells, l1, l2, answers, 0));
                let at = tail_at(after, head, k);
                assert(after[at->Cons_0 as int].first == cells[at->Cons_0 as int].first);
            }
        } else {
            let t = (k - n) as nat;
            assert(tail_at(after, head, k) == left_over(cells, l1, l2, answers, t));
            assert(tail_at(after, head, p) == left_over(cells, l1, l2, answers, (t - 1) as nat));
            let x = tail_at(after, head, k);
            let y = tail_at(after, head, p);
            assert(after[x->Cons_0 as int].first == cells[x->Cons_0 as int].first);
            assert(after[y->Cons_0 as int].first == cells[y->Cons_0 as int].first);
            if first_done {
                if j + t >= lb {
                    lemma_end_absorbs(cells, l2, lb, j + t);
                }
                assert(follows(cells, l2, lt, j + t));
            } else {
                if i + t >= la {
                    lemma_end_absorbs(cells, l1, la, i + t);
                }
                assert(follows(cells, l1, lt, i + t));
            }
        }
    }
}

/// A list that is the same chain with the same elements in another arena is
/// in order there if it is in order here.
pub proof fn lemma_in_order_same(
    before: Seq<PairNode>,
    after: Seq<PairNode>,
    head: LispObject,
    lt: spec_fn(LispObject, LispObject) -> bool,
)
    requires
        in_order(before, head, lt),
        finite(before, head),
        after.len() == before.len(),
        chain_len(after, head) == chain_len(before, head),
        forall|k: nat| k <= chain_len(before, head) ==> #[trigger] tail_at(after, head, k) == tail_at(before, head, k),
        forall|idx: int| 0 <= idx < before.len() ==> (#[trigger] after[idx]).first == before[idx].first,
    ensures
        in_order(after, head, lt),
{
    lemma_chain_len(before, head);
    assert forall|k: nat| 0 < k < chain_len(after, head) implies #[trigger] follows(after, head, lt, k) by {
        let p = (k - 1) as nat;
        assert(tail_at(after, head, k) == tail_at(before, head, k));
        assert(tail_at(after, head, p) == tail_at(before, head, p));
        assert(is_pair(before, tail_at(before, head, k)));
        assert(is_pair(before, tail_at(before, head, p)));
        assert(follows(before, head, lt, k));
    }
}

/// Three values of which the order of the outer two is to follow from the
/// order of each with the one between.
pub open spec fn between(a: LispObject, b: LispObject, c: LispObject) -> bool {
    true
}

/// Whether a value that does not come before a second, which does not come
/// before a third, does not come before the third.
pub open spec fn passes_on(lt: spec_fn(LispObject, LispObject) -> bool) -> bool {
    forall|a: LispObject, b: LispObject, c: LispObject|
        #[trigger] between(a, b, c) ==> (!lt(b, a) && !lt(c, b) ==> !lt(c, a))
}

/// In a list that is in order, no element comes before any element that it
/// follows, however far apart the two stand, provided that the order passes
/// on from neighbour to neighbour.
pub proof fn lemma_in_order_throughout(
    cells: Seq<PairNode>,
    head: LispObject,
    lt: spec_fn(LispObject, LispObject) -> bool,
    i: nat,
    j: nat,
)
    requires
        in_order(cells, head, lt),
        i < j < chain_len(cells, head),
        passes_on(lt),
    ensures
        !lt(element_at(cells, head, j), element_at(cells, head, i)),
    decreases j - i,
{
    let before = (j - 1) as nat;
    assert(follows(cells, head, lt, j));
    if i < before {
        lemma_in_order_throughout(cells, head, lt, i, before);
        assert(between(element_at(cells, head, i), element_at(cells, head, before), element_at(cells, head, j)));
    }
}

/// Sorts `list` in place by merging: the list is cut in two halves, each
/// half is sorted, and the sorted halves are merged. The result is a
/// rearrangement of the nodes of the list; it is in order if `pred` decides
/// which of two elements comes first. The list must end.
pub fn sort_list<P: Fn(LispObject, LispObject) -> LispObject>(list: LispObject, pred: &P, arena: &mut PairArena) -> (r:
    Result<LispObject, LispError>)
    requires
        forall|a: LispObject, b: LispObject| call_requires(*pred, (a, b)),
        finite(old(arena)@, list),
    ensures
        only_relinked(old(arena)@, list, final(arena)@),
        r matches Ok(head) ==> rearranged(old(arena)@, list, final(arena)@, head),
        chain_len(old(arena)@, list) < 2 ==> r == Ok::<LispObject, LispError>(list) && final(arena)@ == old(arena)@,
        ends_well(old(arena)@, list) ==> r is Ok,
        forall|lt: spec_fn(LispObject, LispObject) -> bool|
            #![trigger decides(*pred, lt)]
            decides(*pred, lt) && asymmetric(lt) && r is Ok ==> in_order(final(arena)@, r->Ok_0, lt),
    decreases chain_len(old(arena)@, list),
{
    let ghost cells = arena@;
    let ghost n = chain_len(cells, list);
    proof {
        arena.lemma_len();
        crate::walks::lemma_start_tracks(list, None, crate::lists::LispConsCircularChecks::safe, cells);
        crate::walks::lemma_finite_walk(
            crate::list_fns::list_walk(
                list,
                crate::lists::LispConsEndChecks::off,
                crate::lists::LispConsCircularChecks::safe,
            ),
            cells,
        );
        crate::chains::lemma_chain_len_bounded(cells, list);
        lemma_chain_len(cells, list);
    }
    let length = crate::list_fns::safe_length(list, arena);
    assert(length == n);
    if length < 2 {
        proof {
            assert forall|k: nat| k < n implies exists|m: nat|
                m < n && #[trigger] tail_at(cells, list, k) == tail_at(cells, list, m) by {
                assert(k < n && tail_at(cells, list, k) == tail_at(cells, list, k));
            }
        }
        return Ok(list);
    }
    let half = length / 2;
    let ghost h = half as nat;
    proof {
        lemma_cut(cells, list, h);
        if half - 1 > 0 {
            assert(is_pair(cells, tail_at(cells, list, (half - 2) as nat)));
        }
    }
    let item = match crate::list_fns::nthcdr((half - 1) as i64, list, arena) {
        Ok(item) => item,
        Err(e) => {
            return Err(e);
        },
    };
    assert(item == tail_at(cells, list, (h - 1) as nat));
    let back = match cdr(item, arena) {
        Ok(back) => back,
        Err(e) => {
            return Err(e);
        },
    };
    let cell = match item.as_cons_or_error() {
        Ok(cell) => cell,
        Err(e) => {
            return Err(e);
        },
    };
    setcdr(cell, LispObject::Nil, arena);
    let ghost cut = arena@;
    proof {
        lemma_within_wider(cut, list, cells, list, 0, h, n);
    }
    let front = match sort_list(list, pred, arena) {
        Ok(front) => front,
        Err(e) => {
            proof {
                lemma_changes_compose(cells, list, cut, list, arena@);
            }
            return Err(e);
        },
    };
    let ghost half_sorted = arena@;
    proof {
        lemma_changes_compose(cells, list, cut, list, half_sorted);
        lemma_rearranged_within(cut, list, half_sorted, front, cells, list, 0, h);
        lemma_untouched_chain(cut, list, half_sorted, back);
        lemma_within_same(cut, half_sorted, back, cells, list, h, n);
        lemma_within_wider(half_sorted, back, cells, list, h, n, n);
        lemma_within_disjoint(half_sorted, front, back, cells, list, h, n);
    }
    let back = match sort_list(back, pred, arena) {
        Ok(back) => back,
        Err(e) => {
            proof {
                lemma_changes_compose(cells, list, half_sorted, back, arena@);
            }
            return Err(e);
        },
    };
    let ghost sorted = arena@;
    let ghost old_back = tail_at(cells, list, h);
    proof {
        lemma_changes_compose(cells, list, half_sorted, old_back, sorted);
        lemma_rearranged_within(half_sorted, old_back, sorted, back, cells, list, h, n);
        lemma_disjoint_flip(half_sorted, front, old_back);
        lemma_untouched_chain(half_sorted, old_back, sorted, front);
        lemma_within_same(half_sorted, sorted, front, cells, list, 0, h);
        lemma_within_disjoint(sorted, front, back, cells, list, h, n);
    }
    let r = merge(front, back, pred, arena);
    proof {
        let answers = choose|answers: Seq<LispObject>|
            {
                &&& #[trigger] merge_trace(sorted, front, back, *pred, answers)
                &&& (r, arena@) == merge_result(sorted, front, back, answers)
                &&& !(merge_end(
                    sorted,
                    tail_at(sorted, front, taken(answers, answers.len())),
                    tail_at(sorted, back, (answers.len() - taken(answers, answers.len())) as nat),
                ) is Continue)
            };
        lemma_sorted(cells, list, h, sorted, front, back, *pred, answers);
        if ends_well(cells, list) {
            lemma_merge_succeeds(sorted, front, back, *pred, answers);
        }
        assert forall|lt: spec_fn(LispObject, LispObject) -> bool|
            #![trigger decides(*pred, lt)]
            decides(*pred, lt) && asymmetric(lt) && r is Ok implies in_order(arena@, r->Ok_0, lt) by {
            assert(in_order(half_sorted, front, lt));
            assert(in_order(sorted, back, lt));
            lemma_in_order_same(half_sorted, sorted, front, lt);
            lemma_merge_in_order(sorted, front, back, *pred, answers, lt);
        }
    }
    r
}

/// Having no node in common goes both ways.
pub proof fn lemma_disjoint_flip(cells: Seq<PairNode>, a: LispObject, b: LispObject)
    requires
        disjoint(cells, a, b),
    ensures
        disjoint(cells, b, a),
{
    assert forall|i: nat, j: nat|
        is_pair(cells, #[trigger] tail_at(cells, b, i)) && is_pair(cells, #[trigger] tail_at(cells, a, j)) implies tail_at(
        cells,
        b,
        i,
    ) != tail_at(cells, a, j) by {
        assert(is_pair(cells, tail_at(cells, a, j)) && is_pair(cells, tail_at(cells, b, i)));
    }
}

} // verus!
