//! The shape of chains of pair nodes: how far a chain runs, when it ends, and
//! when it must lead back into itself.

use vstd::prelude::*;
use crate::lisp::LispObject;
use crate::lists::{is_pair, rest_of, tail_at, PairNode};

verus! {

/// Whether the chain from `v` reaches a value that is no pair node.
pub open spec fn finite(cells: Seq<PairNode>, v: LispObject) -> bool {
    exists|k: nat| !is_pair(cells, #[trigger] tail_at(cells, v, k))
}

/// The least position at or before `k` from which on the chain from `v` holds
/// no pair node, given that it holds none at `k`.
pub open spec fn first_end(cells: Seq<PairNode>, v: LispObject, k: nat) -> nat
    decreases k,
{
    if k == 0 {
        0
    } else if !is_pair(cells, tail_at(cells, v, (k - 1) as nat)) {
        first_end(cells, v, (k - 1) as nat)
    } else {
        k
    }
}

/// The number of pair nodes on the chain from `v` before it ends. Meaningful
/// for finite chains.
pub open spec fn chain_len(cells: Seq<PairNode>, v: LispObject) -> nat {
    first_end(cells, v, choose|k: nat| !is_pair(cells, #[trigger] tail_at(cells, v, k)))
}

/// Walking `a` links and then `b` more is walking `a + b` links.
pub proof fn lemma_tail_at_add(cells: Seq<PairNode>, v: LispObject, a: nat, b: nat)
    ensures
        tail_at(cells, v, a + b) == tail_at(cells, tail_at(cells, v, a), b),
    decreases b,
{
    if b > 0 {
        lemma_tail_at_add(cells, v, a, (b - 1) as nat);
        assert((a + b - 1) as nat == a + (b - 1) as nat);
    }
}

/// One link first and `k` more is `k + 1` links.
pub proof fn lemma_tail_at_rest(cells: Seq<PairNode>, v: LispObject, k: nat)
    ensures
        tail_at(cells, v, k + 1) == tail_at(cells, rest_of(cells, v), k),
{
    lemma_tail_at_add(cells, v, 1, k);
    assert(tail_at(cells, v, 1) == rest_of(cells, tail_at(cells, v, 0)));
}

/// A chain that has ended stays where it ended.
pub proof fn lemma_end_absorbs(cells: Seq<PairNode>, v: LispObject, a: nat, b: nat)
    requires
        !is_pair(cells, tail_at(cells, v, a)),
        a <= b,
    ensures
        tail_at(cells, v, b) == tail_at(cells, v, a),
    decreases b,
{
    if a < b {
        lemma_end_absorbs(cells, v, a, (b - 1) as nat);
    }
}

/// Before a pair node, a chain holds pair nodes only.
pub proof fn lemma_pairs_before(cells: Seq<PairNode>, v: LispObject, a: nat, b: nat)
    requires
        is_pair(cells, tail_at(cells, v, b)),
        a <= b,
    ensures
        is_pair(cells, tail_at(cells, v, a)),
{
    if !is_pair(cells, tail_at(cells, v, a)) {
        lemma_end_absorbs(cells, v, a, b);
    }
}

/// `first_end` finds the first position that holds no pair node.
pub proof fn lemma_first_end(cells: Seq<PairNode>, v: LispObject, k: nat)
    requires
        !is_pair(cells, tail_at(cells, v, k)),
    ensures
        first_end(cells, v, k) <= k,
        !is_pair(cells, tail_at(cells, v, first_end(cells, v, k))),
        forall|j: nat| j < first_end(cells, v, k) ==> is_pair(cells, #[trigger] tail_at(cells, v, j)),
    decreases k,
{
    if k == 0 {
    } else if !is_pair(cells, tail_at(cells, v, (k - 1) as nat)) {
        lemma_first_end(cells, v, (k - 1) as nat);
    } else {
        assert forall|j: nat| j < k implies is_pair(cells, #[trigger] tail_at(cells, v, j)) by {
            lemma_pairs_before(cells, v, j, (k - 1) as nat);
        }
    }
}

/// The length of a finite chain is the position of its first value that is no
/// pair node.
pub proof fn lemma_chain_len(cells: Seq<PairNode>, v: LispObject)
    requires
        finite(cells, v),
    ensures
        !is_pair(cells, tail_at(cells, v, chain_len(cells, v))),
        forall|j: nat| j < chain_len(cells, v) ==> is_pair(cells, #[trigger] tail_at(cells, v, j)),
{
    let k = choose|k: nat| !is_pair(cells, #[trigger] tail_at(cells, v, k));
    lemma_first_end(cells, v, k);
}

/// A position is the length of the chain if it is the first without a pair
/// node.
pub proof fn lemma_chain_len_is(cells: Seq<PairNode>, v: LispObject, n: nat)
    requires
        !is_pair(cells, tail_at(cells, v, n)),
        forall|j: nat| j < n ==> is_pair(cells, #[trigger] tail_at(cells, v, j)),
    ensures
        finite(cells, v),
        chain_len(cells, v) == n,
{
    lemma_chain_len(cells, v);
    let m = chain_len(cells, v);
    if m < n {
        assert(is_pair(cells, tail_at(cells, v, m)));
    }
    if n < m {
        assert(is_pair(cells, tail_at(cells, v, n)));
    }
}

/// The chain from the successor of a pair node is one node shorter.
pub proof fn lemma_chain_len_rest(cells: Seq<PairNode>, v: LispObject)
    requires
        finite(cells, v),
        is_pair(cells, v),
    ensures
        finite(cells, rest_of(cells, v)),
        chain_len(cells, v) == chain_len(cells, rest_of(cells, v)) + 1,
{
    lemma_chain_len(cells, v);
    let n = chain_len(cells, v);
    assert(tail_at(cells, v, 0) == v);
    assert(n > 0);
    let r = rest_of(cells, v);
    lemma_tail_at_rest(cells, v, (n - 1) as nat);
    assert forall|j: nat| j < n - 1 implies is_pair(cells, #[trigger] tail_at(cells, r, j)) by {
        lemma_tail_at_rest(cells, v, j);
        assert(is_pair(cells, tail_at(cells, v, j + 1)));
    }
    lemma_chain_len_is(cells, r, (n - 1) as nat);
}

/// A chain without a pair node at its head has length zero.
pub proof fn lemma_chain_len_zero(cells: Seq<PairNode>, v: LispObject)
    requires
        !is_pair(cells, v),
    ensures
        finite(cells, v),
        chain_len(cells, v) == 0,
{
    assert(tail_at(cells, v, 0) == v);
    lemma_chain_len_is(cells, v, 0);
}

/// Every tail of a finite chain is finite.
pub proof fn lemma_finite_tail(cells: Seq<PairNode>, v: LispObject, k: nat)
    requires
        finite(cells, v),
    ensures
        finite(cells, tail_at(cells, v, k)),
{
    lemma_chain_len(cells, v);
    let n = chain_len(cells, v);
    let w = tail_at(cells, v, k);
    if n <= k {
        lemma_end_absorbs(cells, v, n, k);
        assert(tail_at(cells, w, 0) == w);
    } else {
        lemma_tail_at_add(cells, v, k, (n - k) as nat);
        assert(k + (n - k) as nat == n);
        assert(!is_pair(cells, tail_at(cells, w, (n - k) as nat)));
    }
}

/// A value that recurs on a chain recurs at the same distance ever after.
pub proof fn lemma_repeat_shifts(cells: Seq<PairNode>, v: LispObject, i: nat, j: nat, m: nat)
    requires
        tail_at(cells, v, i) == tail_at(cells, v, j),
    ensures
        tail_at(cells, v, i + m) == tail_at(cells, v, j + m),
{
    lemma_tail_at_add(cells, v, i, m);
    lemma_tail_at_add(cells, v, j, m);
}

/// A value that recurs on a chain recurs beyond every position.
pub proof fn lemma_repeat_recurs(cells: Seq<PairNode>, v: LispObject, i: nat, j: nat, bound: nat) -> (p: nat)
    requires
        i < j,
        tail_at(cells, v, i) == tail_at(cells, v, j),
    ensures
        p >= bound,
        tail_at(cells, v, p) == tail_at(cells, v, i),
    decreases bound,
{
    if bound <= i {
        i
    } else {
        let q = lemma_repeat_recurs(cells, v, i, j, (bound - 1) as nat);
        let d = (j - i) as nat;
        lemma_tail_at_add(cells, v, q, d);
        lemma_tail_at_add(cells, v, i, d);
        assert(i + d == j);
        q + d
    }
}

/// On a finite chain no pair node occurs twice.
pub proof fn lemma_finite_chain_has_no_repeat(cells: Seq<PairNode>, v: LispObject, i: nat, j: nat)
    requires
        finite(cells, v),
        i < j,
        is_pair(cells, tail_at(cells, v, i)),
    ensures
        tail_at(cells, v, i) != tail_at(cells, v, j),
{
    if tail_at(cells, v, i) == tail_at(cells, v, j) {
        lemma_chain_len(cells, v);
        let n = chain_len(cells, v);
        let p = lemma_repeat_recurs(cells, v, i, j, n);
        lemma_pairs_before(cells, v, n, p);
    }
}

/// A chain that holds more pair nodes than the arena has cells holds one of
/// them twice.
pub proof fn lemma_long_chain_repeats(cells: Seq<PairNode>, v: LispObject) -> (r: (nat, nat))
    requires
        forall|k: nat| k <= cells.len() ==> is_pair(cells, #[trigger] tail_at(cells, v, k)),
    ensures
        r.0 < r.1 <= cells.len(),
        tail_at(cells, v, r.0) == tail_at(cells, v, r.1),
{
    let n = cells.len();
    let s = Seq::new(n + 1, |k: int| tail_at(cells, v, k as nat)->Cons_0 as int);
    if s.no_duplicates() {
        s.unique_seq_to_set();
        let range = vstd::set_lib::set_int_range(0, n as int);
        vstd::set_lib::lemma_int_range(0, n as int);
        assert forall|x: int| s.to_set().contains(x) implies range.contains(x) by {
            let k = choose|k: int| 0 <= k < s.len() && s[k] == x;
            assert(is_pair(cells, tail_at(cells, v, k as nat)));
        }
        vstd::set_lib::lemma_len_subset(s.to_set(), range);
        assert(false);
    }
    let (a, b) = choose|a: int, b: int| 0 <= a < s.len() && 0 <= b < s.len() && a != b && s[a] == s[b];
    assert(is_pair(cells, tail_at(cells, v, a as nat)));
    assert(is_pair(cells, tail_at(cells, v, b as nat)));
    if a < b {
        (a as nat, b as nat)
    } else {
        (b as nat, a as nat)
    }
}

/// A finite chain has no more pair nodes than the arena has cells.
pub proof fn lemma_chain_len_bounded(cells: Seq<PairNode>, v: LispObject)
    requires
        finite(cells, v),
    ensures
        chain_len(cells, v) <= cells.len(),
{
    lemma_chain_len(cells, v);
    if chain_len(cells, v) > cells.len() {
        let (i, j) = lemma_long_chain_repeats(cells, v);
        lemma_finite_chain_has_no_repeat(cells, v, i, j);
    }
}

} // verus!
