//! What deleting from a list that ends leaves: the elements that are not the
//! deleted one, in their order, on the nodes that held them.

use vstd::prelude::*;
use crate::chains::{chain_len, finite, lemma_chain_len, lemma_chain_len_is, lemma_finite_chain_has_no_repeat};
use crate::lisp::{LispObject, TypePredicate};
use crate::list_fns::{delq_pass, elements, first_of, firsts, list_walk};
use crate::lists::{is_pair, rest_of, tail_at, LispCons, LispConsCircularChecks, LispConsEndChecks, PairNode};
use crate::sorting::{lemma_relink_frame, lemma_relinked_chain, relink};
use crate::walks::{chain_pairs, lemma_finite_walk, lemma_start_tracks};

verus! {

/// The test that a deletion of `elt` keeps an element by: it is not `elt`
/// itself.
pub open spec fn is_other_than(elt: LispObject) -> spec_fn(LispObject) -> bool {
    |x: LispObject| x != elt
}

/// The nodes among the first `k` of `nodes` whose first slot is not `elt`.
pub open spec fn kept_nodes(cells: Seq<PairNode>, nodes: Seq<LispCons>, elt: LispObject, k: nat) -> Seq<LispCons>
    decreases k,
{
    if k == 0 {
        Seq::empty()
    } else {
        let before = kept_nodes(cells, nodes, elt, (k - 1) as nat);
        if first_of(cells, nodes[k - 1]) == elt {
            before
        } else {
            before.push(nodes[k - 1])
        }
    }
}

/// The nodes that are kept are among the nodes that were looked at.
pub proof fn lemma_kept_nodes(cells: Seq<PairNode>, nodes: Seq<LispCons>, elt: LispObject, k: nat)
    requires
        k <= nodes.len(),
    ensures
        kept_nodes(cells, nodes, elt, k).len() <= k,
        forall|i: int|
            0 <= i < kept_nodes(cells, nodes, elt, k).len() ==> exists|m: int|
                0 <= m < k && #[trigger] kept_nodes(cells, nodes, elt, k)[i] == nodes[m],
    decreases k,
{
    if k > 0 {
        let before = kept_nodes(cells, nodes, elt, (k - 1) as nat);
        let now = kept_nodes(cells, nodes, elt, k);
        lemma_kept_nodes(cells, nodes, elt, (k - 1) as nat);
        assert forall|i: int| 0 <= i < now.len() implies exists|m: int| 0 <= m < k && #[trigger] now[i] == nodes[m] by {
            if i < before.len() {
                let m = choose|m: int| 0 <= m < k - 1 && before[i] == nodes[m];
                assert(0 <= m < k && now[i] == nodes[m]);
            } else {
                assert(0 <= k - 1 < k && now[i] == nodes[k - 1]);
            }
        }
    }
}

/// The first slots of the nodes that are kept are the first slots of the
/// nodes without those that are `elt`.
pub proof fn lemma_kept_firsts(cells: Seq<PairNode>, nodes: Seq<LispCons>, elt: LispObject, k: nat)
    requires
        k <= nodes.len(),
    ensures
        firsts(cells, kept_nodes(cells, nodes, elt, k)) == firsts(cells, nodes.take(k as int)).filter(
            is_other_than(elt),
        ),
    decreases k,
{
    let pred = is_other_than(elt);
    if k == 0 {
        reveal(Seq::filter);
        assert(firsts(cells, nodes.take(0)) =~= Seq::<LispObject>::empty());
        assert(firsts(cells, kept_nodes(cells, nodes, elt, 0)) =~= Seq::<LispObject>::empty());
        assert(Seq::<LispObject>::empty().filter(pred) =~= Seq::<LispObject>::empty());
    } else {
        let m = (k - 1) as nat;
        let item = first_of(cells, nodes[m as int]);
        lemma_kept_firsts(cells, nodes, elt, m);
        let short = firsts(cells, nodes.take(m as int));
        assert(firsts(cells, nodes.take(k as int)) =~= short.push(item));
        short.lemma_filter_push(item, pred);
        let before = kept_nodes(cells, nodes, elt, m);
        if item == elt {
            assert(!pred(item));
        } else {
            assert(pred(item));
            assert(firsts(cells, before.push(nodes[m as int])) =~= firsts(cells, before).push(item));
        }
    }
}

/// No node of a chain that ends occurs twice among its pair nodes.
pub proof fn lemma_chain_pairs_distinct(cells: Seq<PairNode>, list: LispObject)
    requires
        finite(cells, list),
    ensures
        chain_pairs(cells, list).no_duplicates(),
        forall|k: int|
            0 <= k < chain_pairs(cells, list).len() ==> (#[trigger] chain_pairs(cells, list)[k]).0 < cells.len(),
        forall|k: int|
            0 <= k < chain_pairs(cells, list).len() ==> tail_at(cells, list, k as nat) == LispObject::Cons(
                (#[trigger] chain_pairs(cells, list)[k]).0,
            ),
{
    let nodes = chain_pairs(cells, list);
    lemma_chain_len(cells, list);
    assert forall|i: int, j: int| 0 <= i < nodes.len() && 0 <= j < nodes.len() && i != j implies nodes[i]
        != nodes[j] by {
        assert(is_pair(cells, tail_at(cells, list, i as nat)));
        assert(is_pair(cells, tail_at(cells, list, j as nat)));
        if i < j {
            lemma_finite_chain_has_no_repeat(cells, list, i as nat, j as nat);
        } else {
            lemma_finite_chain_has_no_repeat(cells, list, j as nat, i as nat);
        }
    }
    assert forall|k: int| 0 <= k < nodes.len() implies (#[trigger] nodes[k]).0 < cells.len() && tail_at(
        cells,
        list,
        k as nat,
    ) == LispObject::Cons(nodes[k].0) by {
        assert(is_pair(cells, tail_at(cells, list, k as nat)));
    }
}

/// The nodes that are kept are pair nodes of the arena, and none of them
/// occurs twice.
pub proof fn lemma_kept_distinct(cells: Seq<PairNode>, list: LispObject, elt: LispObject, k: nat)
    requires
        finite(cells, list),
        k <= chain_len(cells, list),
    ensures
        kept_nodes(cells, chain_pairs(cells, list), elt, k).no_duplicates(),
        forall|i: int|
            0 <= i < kept_nodes(cells, chain_pairs(cells, list), elt, k).len() ==> (#[trigger] kept_nodes(
                cells,
                chain_pairs(cells, list),
                elt,
                k,
            )[i]).0 < cells.len(),
    decreases k,
{
    let nodes = chain_pairs(cells, list);
    let now = kept_nodes(cells, nodes, elt, k);
    lemma_chain_pairs_distinct(cells, list);
    lemma_kept_nodes(cells, nodes, elt, k);
    if k > 0 {
        let before = kept_nodes(cells, nodes, elt, (k - 1) as nat);
        lemma_kept_distinct(cells, list, elt, (k - 1) as nat);
        lemma_kept_nodes(cells, nodes, elt, (k - 1) as nat);
        assert forall|i: int, j: int| 0 <= i < now.len() && 0 <= j < now.len() && i != j implies now[i]
            != now[j] by {
            if i < before.len() && j < before.len() {
                assert(before[i] != before[j]);
            } else if i < before.len() {
                let m = choose|m: int| 0 <= m < k - 1 && before[i] == nodes[m];
                assert(nodes[m] != nodes[k - 1]);
            } else {
                let m = choose|m: int| 0 <= m < k - 1 && before[j] == nodes[m];
                assert(nodes[m] != nodes[k - 1]);
            }
        }
    }
    assert forall|i: int| 0 <= i < now.len() implies (#[trigger] now[i]).0 < cells.len() by {
        let m = choose|m: int| 0 <= m < k && now[i] == nodes[m];
        assert(nodes[m].0 < cells.len());
    }
}

/// What a deletion has made of a list that ends after it has looked at the
/// first `k` nodes: the nodes that it kept are linked in their order and go
/// on to the rest of the list, which is as it was.
pub proof fn lemma_delq_so_far(cells: Seq<PairNode>, list: LispObject, elt: LispObject, k: nat)
    requires
        finite(cells, list),
        k <= chain_len(cells, list),
    ensures
        ({
            let nodes = chain_pairs(cells, list);
            let kept = kept_nodes(cells, nodes, elt, k);
            let pass = delq_pass(cells, list, nodes, elt, k);
            let rest = tail_at(cells, list, k);
            if kept.len() == 0 {
                &&& pass.cells == cells
                &&& pass.remaining == rest
                &&& pass.kept is None
            } else {
                &&& pass.cells == relink(cells, kept, rest)
                &&& pass.remaining == LispObject::Cons(kept[0].0)
                &&& pass.kept == Some(kept.last())
            }
        }),
    decreases k,
{
    let nodes = chain_pairs(cells, list);
    if k > 0 {
        let m = (k - 1) as nat;
        lemma_delq_so_far(cells, list, elt, m);
        lemma_chain_pairs_distinct(cells, list);
        lemma_kept_distinct(cells, list, elt, m);
        lemma_kept_nodes(cells, nodes, elt, m);
        let before = delq_pass(cells, list, nodes, elt, m);
        let kept = kept_nodes(cells, nodes, elt, m);
        let tail = nodes[m as int];
        let here = tail_at(cells, list, m);
        let rest = tail_at(cells, list, k);
        assert(here == LispObject::Cons(tail.0));
        assert(rest == rest_of(cells, here));
        assert(rest == cells[tail.0 as int].second);
        // The node that is looked at has not been relinked.
        assert forall|i: int| 0 <= i < kept.len() implies (#[trigger] kept[i]).0 != tail.0 by {
            let p = choose|p: int| 0 <= p < m && kept[i] == nodes[p];
            assert(nodes[p] != nodes[m as int]);
        }
        lemma_relink_frame(cells, kept, here);
        assert(before.cells[tail.0 as int] == cells[tail.0 as int]);
        let node = cells[tail.0 as int];
        if node.first == elt {
            if kept.len() > 0 {
                let last = kept.last();
                let inner = relink(cells, kept.drop_last(), LispObject::Cons(last.0));
                assert forall|i: int| 0 <= i < kept.drop_last().len() implies (#[trigger] kept.drop_last()[i]).0
                    < cells.len() by {
                    assert(kept.drop_last()[i] == kept[i]);
                }
                lemma_relink_frame(cells, kept.drop_last(), LispObject::Cons(last.0));
                assert(last.0 < inner.len());
                assert(before.cells == inner.update(
                    last.0 as int,
                    PairNode { first: cells[last.0 as int].first, second: here },
                ));
                assert(before.cells[last.0 as int].first == cells[last.0 as int].first);
                assert(before.cells.update(
                    last.0 as int,
                    PairNode { first: before.cells[last.0 as int].first, second: rest },
                ) =~= relink(cells, kept, rest));
            }
        } else {
            let more = kept.push(tail);
            assert(more.drop_last() =~= kept);
            assert(more.last() == tail);
            assert(relink(cells, more, rest) == relink(cells, kept, here).update(
                tail.0 as int,
                PairNode { first: cells[tail.0 as int].first, second: rest },
            ));
            assert(before.cells =~= before.cells.update(
                tail.0 as int,
                PairNode { first: cells[tail.0 as int].first, second: rest },
            ));
            if kept.len() == 0 {
                assert(relink(cells, kept, here) == cells);
            }
            assert(more[0] == if kept.len() == 0 {
                tail
            } else {
                kept[0]
            });
        }
    }
}

/// Deleting `elt` from a list that ends leaves a list that ends in the same
/// way and holds the elements that are not `elt` itself, in the order that
/// they had. First slots stay as they were.
pub proof fn lemma_delq_leaves_the_others(cells: Seq<PairNode>, list: LispObject, elt: LispObject)
    requires
        cells.len() <= usize::MAX,
        finite(cells, list),
    ensures
        ({
            let walk = list_walk(list, LispConsEndChecks::on, LispConsCircularChecks::on);
            let nodes = walk.yields(cells);
            let pass = delq_pass(cells, list, nodes, elt, nodes.len());
            &&& nodes == chain_pairs(cells, list)
            &&& pass.cells.len() == cells.len()
            &&& forall|idx: int| 0 <= idx < cells.len() ==> (#[trigger] pass.cells[idx]).first == cells[idx].first
            &&& finite(pass.cells, pass.remaining)
            &&& elements(pass.cells, pass.remaining) == elements(cells, list).filter(is_other_than(elt))
            &&& tail_at(pass.cells, pass.remaining, chain_len(pass.cells, pass.remaining)) == tail_at(
                cells,
                list,
                chain_len(cells, list),
            )
        }),
{
    let walk = list_walk(list, LispConsEndChecks::on, LispConsCircularChecks::on);
    lemma_start_tracks(list, Some(TypePredicate::Listp), LispConsCircularChecks::on, cells);
    lemma_finite_walk(walk, cells);
    let nodes = chain_pairs(cells, list);
    let n = chain_len(cells, list);
    let kept = kept_nodes(cells, nodes, elt, n);
    let pass = delq_pass(cells, list, nodes, elt, n);
    let end = tail_at(cells, list, n);
    lemma_chain_len(cells, list);
    lemma_delq_so_far(cells, list, elt, n);
    lemma_kept_distinct(cells, list, elt, n);
    lemma_kept_firsts(cells, nodes, elt, n);
    assert(nodes.take(n as int) =~= nodes);
    if kept.len() == 0 {
        assert(tail_at(cells, end, 0) == end);
        lemma_chain_len_is(cells, end, 0);
        assert(chain_pairs(cells, end) =~= kept);
    } else {
        let after = pass.cells;
        let head = pass.remaining;
        lemma_relink_frame(cells, kept, end);
        lemma_relinked_chain(cells, kept, end);
        assert forall|j: nat| j < kept.len() implies is_pair(after, #[trigger] tail_at(after, head, j)) by {
            assert(tail_at(after, head, j) == LispObject::Cons(kept[j as int].0));
        }
        lemma_chain_len_is(after, head, kept.len());
        assert(chain_pairs(after, head) =~= kept);
        assert(firsts(after, kept) =~= firsts(cells, kept));
    }
}

} // verus!
