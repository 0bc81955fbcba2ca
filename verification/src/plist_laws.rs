//! What a search of a property list that ends finds: the walk hands out the
//! nodes at the even positions, and the value of a key is the element that
//! follows the first of them that holds the key.

use vstd::prelude::*;
use crate::chains::{chain_len, finite, lemma_chain_len, lemma_chain_len_is};
use crate::deletion::lemma_chain_pairs_distinct;
use crate::lisp::{LispObject, TypePredicate};
use crate::list_fns::{elements, first_of, first_where, lemma_first_where, second_of};
use crate::lists::{is_pair, rest_of, tail_at, LispCons, LispConsCircularChecks, LispConsEndChecks, PairNode};
use crate::plists::{plist_get_spec, plist_put_spec, plist_walk, value_cell};
use crate::walks::{chain_pairs, every, lemma_finite_strided_walk, lemma_start_tracks};

verus! {

/// The key at place `j` of a property list: its element at position `2 * j`.
pub open spec fn key_at(cells: Seq<PairNode>, plist: LispObject, j: int) -> LispObject {
    elements(cells, plist)[2 * j]
}

/// The value at place `j` of a property list: its element at position
/// `2 * j + 1`.
pub open spec fn value_at(cells: Seq<PairNode>, plist: LispObject, j: int) -> LispObject {
    elements(cells, plist)[2 * j + 1]
}

/// Every other node from position `i` on: the one at place `j` is the node
/// at position `i + 2 * j`.
pub proof fn lemma_every_other(nodes: Seq<LispCons>, i: int, j: int)
    requires
        0 <= i,
        0 <= j,
        i + 2 * j < nodes.len(),
    ensures
        j < every(nodes, i, 2).len(),
        every(nodes, i, 2)[j] == nodes[i + 2 * j],
    decreases j,
{
    if j > 0 {
        lemma_every_other(nodes, i + 2, j - 1);
    }
}

/// The walk over the keys of a property list that ends hands out the nodes
/// at the even positions of the list.
pub proof fn lemma_plist_keys(cells: Seq<PairNode>, plist: LispObject, j: int)
    requires
        cells.len() <= usize::MAX,
        finite(cells, plist),
        0 <= j,
        2 * j < chain_len(cells, plist),
    ensures
        ({
            let keys = plist_walk(plist, LispConsEndChecks::off, LispConsCircularChecks::safe).yields(cells);
            &&& j < keys.len()
            &&& keys[j] == chain_pairs(cells, plist)[2 * j]
            &&& first_of(cells, keys[j]) == key_at(cells, plist, j)
            &&& 2 * j + 1 < chain_len(cells, plist) ==> value_cell(cells, keys[j]) == Some(
                chain_pairs(cells, plist)[2 * j + 1],
            ) && first_of(cells, chain_pairs(cells, plist)[2 * j + 1]) == value_at(cells, plist, j)
            &&& 2 * j + 1 == chain_len(cells, plist) ==> value_cell(cells, keys[j]) is None
        }),
{
    let walk = plist_walk(plist, LispConsEndChecks::off, LispConsCircularChecks::safe);
    lemma_start_tracks(plist, None, LispConsCircularChecks::safe, cells);
    assert(walk.tracks(cells));
    lemma_finite_strided_walk(walk, cells);
    let nodes = chain_pairs(cells, plist);
    lemma_every_other(nodes, 0, j);
    lemma_chain_len(cells, plist);
    let here = tail_at(cells, plist, (2 * j) as nat);
    assert(is_pair(cells, here));
    assert(tail_at(cells, plist, (2 * j + 1) as nat) == rest_of(cells, here));
}

/// In a property list that ends, the value of a key is the value at the
/// first place at which the key stands.
pub proof fn lemma_plist_get_finds_the_value(cells: Seq<PairNode>, plist: LispObject, prop: LispObject, i: int)
    requires
        cells.len() <= usize::MAX,
        finite(cells, plist),
        0 <= i,
        2 * i + 1 < chain_len(cells, plist),
        key_at(cells, plist, i) == prop,
        forall|j: int| 0 <= j < i ==> #[trigger] key_at(cells, plist, j) != prop,
    ensures
        plist_get_spec(
            cells,
            plist_walk(plist, LispConsEndChecks::off, LispConsCircularChecks::safe).yields(cells),
            prop,
        ) == value_at(cells, plist, i),
{
    let keys = plist_walk(plist, LispConsEndChecks::off, LispConsCircularChecks::safe).yields(cells);
    let wanted = |c: LispCons| value_cell(cells, c) is None || first_of(cells, c) == prop;
    lemma_plist_keys(cells, plist, i);
    assert forall|j: int| 0 <= j < i implies !wanted(#[trigger] keys[j]) by {
        lemma_plist_keys(cells, plist, j);
        assert(key_at(cells, plist, j) != prop);
    }
    lemma_first_where(keys, wanted, 0, i);
}

/// In a property list that ends, a key that stands at no place has no
/// value: the search yields the terminator.
pub proof fn lemma_plist_get_misses(cells: Seq<PairNode>, plist: LispObject, prop: LispObject)
    requires
        cells.len() <= usize::MAX,
        finite(cells, plist),
        forall|j: int| 0 <= j && 2 * j < chain_len(cells, plist) ==> #[trigger] key_at(cells, plist, j) != prop,
    ensures
        plist_get_spec(
            cells,
            plist_walk(plist, LispConsEndChecks::off, LispConsCircularChecks::safe).yields(cells),
            prop,
        ) == LispObject::Nil,
{
    let keys = plist_walk(plist, LispConsEndChecks::off, LispConsCircularChecks::safe).yields(cells);
    let wanted = |c: LispCons| value_cell(cells, c) is None || first_of(cells, c) == prop;
    let n = first_where(keys, wanted, 0);
    lemma_keys_count(cells, plist);
    lemma_found(keys, wanted, 0);
    if n < keys.len() && value_cell(cells, keys[n]) is Some {
        lemma_plist_keys(cells, plist, n);
        assert(key_at(cells, plist, n) != prop);
    }
}

/// Where a search ends: at a node that is wanted, or at the end.
pub proof fn lemma_found(nodes: Seq<LispCons>, wanted: spec_fn(LispCons) -> bool, i: int)
    requires
        0 <= i <= nodes.len(),
    ensures
        i <= first_where(nodes, wanted, i) <= nodes.len(),
        first_where(nodes, wanted, i) < nodes.len() ==> wanted(nodes[first_where(nodes, wanted, i)]),
        forall|j: int| i <= j < first_where(nodes, wanted, i) ==> !wanted(#[trigger] nodes[j]),
    decreases nodes.len() - i,
{
    if i < nodes.len() && !wanted(nodes[i]) {
        lemma_found(nodes, wanted, i + 1);
    }
}

/// The number of nodes among every other one from position `i` on.
pub proof fn lemma_every_other_len(nodes: Seq<LispCons>, i: int)
    requires
        0 <= i,
    ensures
        2 * every(nodes, i, 2).len() + i <= nodes.len() + 1 || i >= nodes.len(),
        i >= nodes.len() ==> every(nodes, i, 2).len() == 0,
    decreases nodes.len() - i,
{
    if i < nodes.len() && i + 2 < nodes.len() {
        lemma_every_other_len(nodes, i + 2);
    }
}

/// The walk over the keys of a property list that ends hands out one node
/// for every two of the list, and one more for a last node without a
/// partner.
pub proof fn lemma_keys_count(cells: Seq<PairNode>, plist: LispObject)
    requires
        cells.len() <= usize::MAX,
        finite(cells, plist),
    ensures
        2 * plist_walk(plist, LispConsEndChecks::off, LispConsCircularChecks::safe).yields(cells).len()
            <= chain_len(cells, plist) + 1,
{
    let walk = plist_walk(plist, LispConsEndChecks::off, LispConsCircularChecks::safe);
    lemma_start_tracks(plist, None, LispConsCircularChecks::safe, cells);
    assert(walk.tracks(cells));
    lemma_finite_strided_walk(walk, cells);
    lemma_every_other_len(chain_pairs(cells, plist), 0);
}

/// The walk over the keys of a property list that ends hands out a node for
/// every two nodes of the list and for a last node without a partner, with
/// whatever checks it is made.
pub proof fn lemma_keys_of(
    cells: Seq<PairNode>,
    plist: LispObject,
    end_checks: LispConsEndChecks,
    circular_checks: LispConsCircularChecks,
)
    requires
        cells.len() <= usize::MAX,
        finite(cells, plist),
    ensures
        ({
            let walk = plist_walk(plist, end_checks, circular_checks);
            let keys = walk.yields(cells);
            let len = chain_len(cells, plist);
            &&& keys == every(chain_pairs(cells, plist), 0, 2)
            &&& len <= 2 * keys.len() <= len + 1
            &&& walk.stop(cells) == walk.end_result(tail_at(cells, plist, len))
        }),
{
    let walk = plist_walk(plist, end_checks, circular_checks);
    lemma_start_tracks(plist, crate::lists::end_error(TypePredicate::Plistp, end_checks), circular_checks, cells);
    assert(walk.tracks(cells));
    lemma_finite_strided_walk(walk, cells);
    let nodes = chain_pairs(cells, plist);
    lemma_every_other_len(nodes, 0);
    let keys = every(nodes, 0, 2);
    if 2 * keys.len() < nodes.len() {
        lemma_every_other(nodes, 0, keys.len() as int);
    }
}

/// A chain whose nodes have the same second slots in a second arena, which
/// holds every node of the first, is the same chain there.
pub proof fn lemma_same_links(before: Seq<PairNode>, after: Seq<PairNode>, v: LispObject, n: nat)
    requires
        before.len() <= after.len(),
        forall|k: nat|
            k < n ==> is_pair(before, #[trigger] tail_at(before, v, k)) && after[tail_at(before, v, k)->Cons_0 as int].second
                == before[tail_at(before, v, k)->Cons_0 as int].second,
    ensures
        forall|k: nat| k <= n ==> #[trigger] tail_at(after, v, k) == tail_at(before, v, k),
    decreases n,
{
    if n > 0 {
        let m = (n - 1) as nat;
        lemma_same_links(before, after, v, m);
        assert(tail_at(after, v, m) == tail_at(before, v, m));
        assert(is_pair(before, tail_at(before, v, m)));
        assert(tail_at(after, v, n) == rest_of(after, tail_at(after, v, m)));
        assert(tail_at(before, v, n) == rest_of(before, tail_at(before, v, m)));
    } else {
        assert(tail_at(after, v, 0) == tail_at(before, v, 0));
    }
}

/// After a value has been put for a key into a property list that ends, a
/// search of the list that results finds that value for the key, provided
/// that the arena can hold the nodes it has then.
pub proof fn lemma_plist_put_then_get(cells: Seq<PairNode>, plist: LispObject, prop: LispObject, val: LispObject)
    requires
        cells.len() <= usize::MAX,
        finite(cells, plist),
    ensures
        ({
            let walk = plist_walk(plist, LispConsEndChecks::on, LispConsCircularChecks::on);
            let nodes = walk.yields(cells);
            let n = first_where(
                nodes,
                |c: LispCons| value_cell(cells, c) is None || first_of(cells, c) == prop,
                0,
            );
            let (r, after) = plist_put_spec(cells, plist, prop, val, nodes, walk.stop(cells), n);
            r is Ok && after.len() <= usize::MAX ==> finite(after, r->Ok_0) && plist_get_spec(
                after,
                plist_walk(r->Ok_0, LispConsEndChecks::off, LispConsCircularChecks::safe).yields(after),
                prop,
            ) == val
        }),
{
    let walk = plist_walk(plist, LispConsEndChecks::on, LispConsCircularChecks::on);
    let keys = walk.yields(cells);
    let wanted = |c: LispCons| value_cell(cells, c) is None || first_of(cells, c) == prop;
    let n = first_where(keys, wanted, 0);
    let (r, after) = plist_put_spec(cells, plist, prop, val, keys, walk.stop(cells), n);
    let len = chain_len(cells, plist);
    let all = chain_pairs(cells, plist);
    lemma_keys_of(cells, plist, LispConsEndChecks::on, LispConsCircularChecks::on);
    lemma_keys_of(cells, plist, LispConsEndChecks::off, LispConsCircularChecks::safe);
    lemma_found(keys, wanted, 0);
    lemma_chain_len(cells, plist);
    lemma_chain_pairs_distinct(cells, plist);
    assert forall|j: int| 0 <= j < n implies #[trigger] key_at(cells, plist, j) != prop && 2 * j + 1 < len by {
        lemma_plist_keys(cells, plist, j);
        assert(!wanted(keys[j]));
    }
    if r is Ok && after.len() <= usize::MAX {
        let head = r->Ok_0;
        if n < keys.len() {
            lemma_plist_keys(cells, plist, n);
            let cell = value_cell(cells, keys[n])->Some_0;
            assert(cell == all[2 * n + 1]);
            assert(head == plist);
            assert forall|k: nat| k < len implies is_pair(cells, #[trigger] tail_at(cells, plist, k))
                && after[tail_at(cells, plist, k)->Cons_0 as int].second == cells[tail_at(
                cells,
                plist,
                k,
            )->Cons_0 as int].second by {}
            lemma_same_links(cells, after, plist, len);
            assert forall|j: nat| j < len implies is_pair(after, #[trigger] tail_at(after, plist, j)) by {
                assert(tail_at(after, plist, j) == tail_at(cells, plist, j));
            }
            assert(tail_at(after, plist, len) == tail_at(cells, plist, len));
            lemma_chain_len_is(after, plist, len);
            assert(chain_pairs(after, plist) =~= all);
            assert forall|j: int| 0 <= j < n implies #[trigger] key_at(after, plist, j) != prop by {
                assert(all[2 * j] != all[2 * n + 1]);
                assert(key_at(after, plist, j) == key_at(cells, plist, j));
            }
            assert(all[2 * n] != all[2 * n + 1]);
            assert(key_at(after, plist, n) == key_at(cells, plist, n));
            assert(value_at(after, plist, n) == val);
            lemma_plist_get_finds_the_value(after, plist, prop, n);
        } else {
            let value_node = LispObject::Cons(cells.len() as usize);
            let key_node = LispObject::Cons((cells.len() + 1) as usize);
            assert(tail_at(cells, plist, len) == LispObject::Nil);
            if 2 * n > len {
                lemma_plist_keys(cells, plist, n - 1);
                assert(wanted(keys[n - 1]));
            }
            assert(len == 2 * n);
            if n == 0 {
                assert(head == key_node);
                assert(tail_at(after, head, 0) == head);
                assert(tail_at(after, head, 1) == rest_of(after, tail_at(after, head, 0)));
                assert(tail_at(after, head, 2) == rest_of(after, tail_at(after, head, 1)));
                assert forall|j: nat| j < 2 implies is_pair(after, #[trigger] tail_at(after, head, j)) by {}
                lemma_chain_len_is(after, head, 2);
                assert(key_at(after, head, 0) == prop);
                assert(value_at(after, head, 0) == val);
                lemma_plist_get_finds_the_value(after, head, prop, 0);
            } else {
                lemma_plist_keys(cells, plist, n - 1);
                let last = value_cell(cells, keys[n - 1])->Some_0;
                assert(last == all[len - 1]);
                assert(head == plist);
                assert(second_of(cells, last) == rest_of(cells, tail_at(cells, plist, (len - 1) as nat)));
                assert(second_of(cells, last) == LispObject::Nil);
                let m = (len - 1) as nat;
                assert forall|k: nat| k < m implies is_pair(cells, #[trigger] tail_at(cells, plist, k))
                    && after[tail_at(cells, plist, k)->Cons_0 as int].second == cells[tail_at(
                    cells,
                    plist,
                    k,
                )->Cons_0 as int].second by {
                    assert(all[k as int] != all[len - 1]);
                }
                lemma_same_links(cells, after, plist, m);
                assert(tail_at(after, plist, m) == LispObject::Cons(last.0));
                assert(tail_at(after, plist, len) == rest_of(after, tail_at(after, plist, m)));
                assert(tail_at(after, plist, len) == key_node);
                assert(tail_at(after, plist, len + 1) == rest_of(after, tail_at(after, plist, len)));
                assert(tail_at(after, plist, len + 2) == rest_of(after, tail_at(after, plist, len + 1)));
                assert forall|j: nat| j < len + 2 implies is_pair(after, #[trigger] tail_at(after, plist, j)) by {
                    if j < len {
                        assert(tail_at(after, plist, j) == tail_at(cells, plist, j));
                        assert(is_pair(cells, tail_at(cells, plist, j)));
                    }
                }
                lemma_chain_len_is(after, plist, len + 2);
                assert forall|j: int| 0 <= j < n implies #[trigger] key_at(after, plist, j) != prop by {
                    assert(tail_at(after, plist, (2 * j) as nat) == tail_at(cells, plist, (2 * j) as nat));
                    assert(key_at(after, plist, j) == key_at(cells, plist, j));
                }
                assert(key_at(after, plist, n) == prop);
                assert(value_at(after, plist, n) == val);
                lemma_plist_get_finds_the_value(after, plist, prop, n);
            }
        }
    }
}

} // verus!
