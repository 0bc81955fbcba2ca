//! Operations on lists: chains of pair nodes that end in the terminator.

use vstd::prelude::*;
use crate::chains::{chain_len, finite, lemma_chain_len_bounded, lemma_end_absorbs};
use crate::lisp::{LispError, LispObject, TypePredicate};
use crate::lists::{
    is_pair, rest_of, tail_at, LispCons, LispConsCircularChecks, LispConsEndChecks, PairArena,
    PairNode, Stride, TailsIter, Traversal,
};
use crate::walks::{chain_pairs, is_node, lemma_finite_walk, lemma_start_tracks, lemma_yields_bounded};

verus! {

/// The largest integer that a fixnum holds.
pub const MOST_POSITIVE_FIXNUM: i64 = 0x1fff_ffff_ffff_ffff;

/// Whether `object` is not a pair node. The terminator is not one.
pub fn atom(object: LispObject) -> (r: bool)
    ensures
        r == !(object is Cons),
{
    !object.is_cons()
}

/// Whether `object` is a pair node.
pub fn consp(object: LispObject) -> (r: bool)
    ensures
        r == (object is Cons),
{
    object.is_cons()
}

/// Whether `object` is a list: a pair node or the terminator.
pub fn listp(object: LispObject) -> (r: bool)
    ensures
        r == (object is Cons || object == LispObject::Nil),
{
    object.is_nil() || consp(object)
}

/// Whether `object` is not a list.
pub fn nlistp(object: LispObject) -> (r: bool)
    ensures
        r == !(object is Cons || object == LispObject::Nil),
{
    !listp(object)
}

/// Sets the first slot of `cell` to `newcar`, and returns `newcar`.
pub fn setcar(cell: LispCons, newcar: LispObject, arena: &mut PairArena) -> (r: LispObject)
    requires
        cell.0 < old(arena)@.len(),
    ensures
        r == newcar,
        final(arena)@ == old(arena)@.update(
            cell.0 as int,
            PairNode { first: newcar, second: old(arena)@[cell.0 as int].second },
        ),
{
    cell.set_car(arena, newcar);
    newcar
}

/// Sets the second slot of `cell` to `newcdr`, and returns `newcdr`.
pub fn setcdr(cell: LispCons, newcdr: LispObject, arena: &mut PairArena) -> (r: LispObject)
    requires
        cell.0 < old(arena)@.len(),
    ensures
        r == newcdr,
        final(arena)@ == old(arena)@.update(
            cell.0 as int,
            PairNode { first: old(arena)@[cell.0 as int].first, second: newcdr },
        ),
{
    cell.set_cdr(arena, newcdr);
    newcdr
}

/// The first slot of a pair node, and the terminator for the terminator.
pub open spec fn car_spec(cells: Seq<PairNode>, list: LispObject) -> Result<LispObject, LispError> {
    if is_pair(cells, list) {
        Ok(cells[list->Cons_0 as int].first)
    } else if list == LispObject::Nil {
        Ok(LispObject::Nil)
    } else {
        Err(LispError::WrongType(TypePredicate::Consp, list))
    }
}

/// The second slot of a pair node, and the terminator for the terminator.
pub open spec fn cdr_spec(cells: Seq<PairNode>, list: LispObject) -> Result<LispObject, LispError> {
    if is_pair(cells, list) {
        Ok(cells[list->Cons_0 as int].second)
    } else if list == LispObject::Nil {
        Ok(LispObject::Nil)
    } else {
        Err(LispError::WrongType(TypePredicate::Consp, list))
    }
}

/// The first slot of `list`. The terminator has the terminator as its first
/// slot; any other value that is no pair node is an error.
pub fn car(list: LispObject, arena: &PairArena) -> (r: Result<LispObject, LispError>)
    ensures
        r == car_spec(arena@, list),
{
    match arena.pair_at(list) {
        Some((_, node)) => Ok(node.first),
        None => {
            if list.is_nil() {
                Ok(list)
            } else {
                Err(LispError::WrongType(TypePredicate::Consp, list))
            }
        },
    }
}

/// The second slot of `list`. The terminator has the terminator as its second
/// slot; any other value that is no pair node is an error.
pub fn cdr(list: LispObject, arena: &PairArena) -> (r: Result<LispObject, LispError>)
    ensures
        r == cdr_spec(arena@, list),
{
    match arena.pair_at(list) {
        Some((_, node)) => Ok(node.second),
        None => {
            if list.is_nil() {
                Ok(list)
            } else {
                Err(LispError::WrongType(TypePredicate::Consp, list))
            }
        },
    }
}

/// The first slot of `object` if it is a pair node, the terminator otherwise.
pub fn car_safe(object: LispObject, arena: &PairArena) -> (r: LispObject)
    ensures
        r == if is_pair(arena@, object) {
            arena@[object->Cons_0 as int].first
        } else {
            LispObject::Nil
        },
{
    match arena.pair_at(object) {
        Some((_, node)) => node.first,
        None => LispObject::Nil,
    }
}

/// The second slot of `object` if it is a pair node, the terminator
/// otherwise.
pub fn cdr_safe(object: LispObject, arena: &PairArena) -> (r: LispObject)
    ensures
        r == if is_pair(arena@, object) {
            arena@[object->Cons_0 as int].second
        } else {
            LispObject::Nil
        },
{
    match arena.pair_at(object) {
        Some((_, node)) => node.second,
        None => LispObject::Nil,
    }
}

/// Whether a tail is neither a pair node nor the terminator.
pub open spec fn malformed(cells: Seq<PairNode>, tail: LispObject) -> bool {
    !is_pair(cells, tail) && tail != LispObject::Nil
}

/// What taking the second slot `n` times makes of `list`: the tail `n` links
/// on, where the terminator is its own tail; an error if a tail that is
/// neither a pair node nor the terminator would have to be followed.
pub open spec fn nthcdr_spec(cells: Seq<PairNode>, n: int, list: LispObject) -> Result<
    LispObject,
    LispError,
> {
    if n <= 0 {
        Ok(list)
    } else if malformed(cells, tail_at(cells, list, (n - 1) as nat)) {
        Err(LispError::WrongStructure(TypePredicate::Listp, list))
    } else {
        Ok(tail_at(cells, list, n as nat))
    }
}

/// Takes the second slot `n` times on `list`. A circular list is followed
/// round and round.
pub fn nthcdr(n: i64, list: LispObject, arena: &PairArena) -> (r: Result<LispObject, LispError>)
    ensures
        r == nthcdr_spec(arena@, n as int, list),
{
    if n <= 0 {
        return Ok(list);
    }
    // The walker hands out nothing for a tail that is no pair node, so its
    // result cannot tell where the walk stands. Counting the steps and asking
    // for the rest can.
    let mut it = list.iter_tails(LispConsEndChecks::on, LispConsCircularChecks::safe);
    let mut i: i64 = 0;
    while i < n
        invariant
            0 <= i <= n,
            it@.wf(),
            it@.head == list,
            it@.stride == Stride::One,
            it@.end_error == Some(TypePredicate::Listp),
            it@.cycle_policy == LispConsCircularChecks::safe,
            it@.current == tail_at(arena@, list, i as nat),
            i > 0 ==> !malformed(arena@, tail_at(arena@, list, (i - 1) as nat)),
        decreases n - i,
    {
        match it.next(arena) {
            Err(e) => {
                proof {
                    lemma_end_absorbs(arena@, list, i as nat, (n - 1) as nat);
                }
                return Err(e);
            },
            _ => {},
        }
        i = i + 1;
    }
    Ok(it.rest())
}

/// The element `n` of `list`, counting from zero; the terminator if the list
/// is not that long.
pub fn nth(n: i64, list: LispObject, arena: &PairArena) -> (r: Result<LispObject, LispError>)
    ensures
        r == match nthcdr_spec(arena@, n as int, list) {
            Ok(tail) => car_spec(arena@, tail),
            Err(e) => Err(e),
        },
{
    match nthcdr(n, list, arena) {
        Ok(tail) => car(tail, arena),
        Err(e) => Err(e),
    }
}

/// The walk that a function makes over `list` with the given checks.
pub open spec fn list_walk(
    list: LispObject,
    end_checks: LispConsEndChecks,
    circular_checks: LispConsCircularChecks,
) -> Traversal {
    Traversal::start(list, crate::lists::end_error(TypePredicate::Listp, end_checks), circular_checks)
}

/// Runs a walker to its end and counts the nodes that it hands out.
fn count_nodes(it: &mut TailsIter, arena: &PairArena) -> (r: (u128, Result<(), LispError>))
    requires
        old(it)@.tracks(arena@),
    ensures
        r.0 == old(it)@.yields(arena@).len(),
        r.1 == match old(it)@.stop(arena@) {
            Ok(_) => Ok::<(), LispError>(()),
            Err(e) => Err(e),
        },
        final(it)@ == old(it)@.stopped(arena@),
{
    let mut count: u128 = 0;
    let ghost start = it@;
    proof {
        arena.lemma_len();
        lemma_yields_bounded(start, arena@);
        lemma_fuel_bounded(start, arena@);
    }
    loop
        invariant
            it@.tracks(arena@),
            arena@.len() <= usize::MAX,
            count + it@.yields(arena@).len() == start.yields(arena@).len(),
            it@.stop(arena@) == start.stop(arena@),
            it@.stopped(arena@) == start.stopped(arena@),
            start == old(it)@,
            start.yields(arena@).len() <= 4 * arena@.len() + 4,
        decreases it@.fuel(arena@),
    {
        match it.next(arena) {
            Ok(Some(_)) => {
                count = count + 1;
            },
            Ok(None) => {
                return (count, Ok(()));
            },
            Err(e) => {
                return (count, Err(e));
            },
        }
    }
}

/// The fuel of a walk that is in step with an arena fits the machine five
/// times over.
pub proof fn lemma_fuel_bounded(t: Traversal, cells: Seq<PairNode>)
    requires
        t.tracks(cells),
    ensures
        t.fuel(cells) <= 4 * cells.len() + 4,
{
    if t.cycle_policy == LispConsCircularChecks::off {
        lemma_chain_len_bounded(cells, t.current);
    }
}

impl LispCons {
    /// The number of elements of the list that starts at this node. A list
    /// that does not end in the terminator, a circular list and a list
    /// longer than a fixnum can count are errors.
    pub fn length(self, arena: &PairArena) -> (r: Result<usize, LispError>)
        ensures
            r == {
                let walk = list_walk(
                    LispObject::Cons(self.0),
                    LispConsEndChecks::on,
                    LispConsCircularChecks::on,
                );
                match walk.stop(arena@) {
                    Err(e) => Err::<usize, LispError>(e),
                    Ok(_) => if walk.yields(arena@).len() > MOST_POSITIVE_FIXNUM {
                        Err(LispError::ListTooLong)
                    } else {
                        Ok(walk.yields(arena@).len() as usize)
                    },
                }
            },
            finite(arena@, LispObject::Cons(self.0)) ==> r == {
                let list = LispObject::Cons(self.0);
                let n = chain_len(arena@, list);
                if tail_at(arena@, list, n) != LispObject::Nil {
                    Err::<usize, LispError>(LispError::WrongStructure(TypePredicate::Listp, list))
                } else if n > MOST_POSITIVE_FIXNUM {
                    Err(LispError::ListTooLong)
                } else {
                    Ok(n as usize)
                }
            },
            !finite(arena@, LispObject::Cons(self.0)) ==> r matches Err(LispError::CircularStructure(_)),
    {
        let mut it = self.iter_tails(LispConsEndChecks::on, LispConsCircularChecks::on);
        proof {
            arena.lemma_len();
            lemma_start_tracks(
                LispObject::Cons(self.0),
                Some(TypePredicate::Listp),
                LispConsCircularChecks::on,
                arena@,
            );
            let walk = list_walk(LispObject::Cons(self.0), LispConsEndChecks::on, LispConsCircularChecks::on);
            if finite(arena@, LispObject::Cons(self.0)) {
                lemma_finite_walk(walk, arena@);
            } else {
                crate::walks::lemma_cycle_is_found(walk, arena@);
            }
        }
        let (count, end) = count_nodes(&mut it, arena);
        match end {
            Err(e) => Err(e),
            Ok(()) => {
                if count > MOST_POSITIVE_FIXNUM as u128 {
                    Err(LispError::ListTooLong)
                } else {
                    Ok(count as usize)
                }
            },
        }
    }
}

/// The number of pair nodes that a walk over `list` meets before it stops at
/// the end of the chain or at a detected cycle: of a chain that ends, the
/// number of its pair nodes. Never an error: for a value that is no list
/// the result is zero, for a circular list it is a finite number that is at
/// least the number of distinct nodes. A count that the machine cannot hold
/// is reported as the largest that it can.
pub fn safe_length(list: LispObject, arena: &PairArena) -> (r: usize)
    ensures
        r == {
            let n = list_walk(list, LispConsEndChecks::off, LispConsCircularChecks::safe).yields(
                arena@,
            ).len();
            if n > usize::MAX {
                usize::MAX as nat
            } else {
                n
            }
        },
        finite(arena@, list) ==> r == chain_len(arena@, list),
{
    let mut it = list.iter_tails(LispConsEndChecks::off, LispConsCircularChecks::safe);
    proof {
        arena.lemma_len();
        lemma_start_tracks(list, None, LispConsCircularChecks::safe, arena@);
        if finite(arena@, list) {
            lemma_finite_walk(list_walk(list, LispConsEndChecks::off, LispConsCircularChecks::safe), arena@);
            lemma_chain_len_bounded(arena@, list);
        }
    }
    let (count, _) = count_nodes(&mut it, arena);
    if count > usize::MAX as u128 {
        usize::MAX
    } else {
        count as usize
    }
}

/// What a search hands back when the walk stops without a find: the
/// terminator after a quiet stop, the error otherwise.
pub open spec fn not_found(stop: crate::lists::StepResult) -> Result<LispObject, LispError> {
    match stop {
        Ok(_) => Ok(LispObject::Nil),
        Err(e) => Err(e),
    }
}

/// The first slot of a node.
pub open spec fn first_of(cells: Seq<PairNode>, cons: LispCons) -> LispObject {
    cells[cons.0 as int].first
}

/// The second slot of a node.
pub open spec fn second_of(cells: Seq<PairNode>, cons: LispCons) -> LispObject {
    cells[cons.0 as int].second
}

/// The position in `nodes`, at or after `i`, of the first node that
/// satisfies `wanted`; the length of `nodes` if there is none.
pub open spec fn first_where(nodes: Seq<LispCons>, wanted: spec_fn(LispCons) -> bool, i: int) -> int
    decreases nodes.len() - i,
{
    if i < 0 || i >= nodes.len() {
        nodes.len() as int
    } else if wanted(nodes[i]) {
        i
    } else {
        first_where(nodes, wanted, i + 1)
    }
}

/// A position before which no node satisfies `wanted`, and which holds one
/// that does or is the end, is where the search from `i` ends.
pub proof fn lemma_first_where(nodes: Seq<LispCons>, wanted: spec_fn(LispCons) -> bool, i: int, n: int)
    requires
        0 <= i <= n <= nodes.len(),
        forall|j: int| i <= j < n ==> !wanted(#[trigger] nodes[j]),
        n < nodes.len() ==> wanted(nodes[n]),
    ensures
        first_where(nodes, wanted, i) == n,
    decreases n - i,
{
    if i < n {
        lemma_first_where(nodes, wanted, i + 1, n);
    }
}

/// Which value of a node a search compares with its key.
#[derive(Clone, Copy, Debug, PartialEq, Eq, Structural)]
pub enum Probe {
    /// The first slot of the node.
    Element,
    /// The first slot of the pair node in the first slot of the node.
    ElementFirst,
    /// The second slot of the pair node in the first slot of the node.
    ElementSecond,
}

/// The value of `cons` that a search compares with its key, if the node has
/// one.
pub open spec fn probed(cells: Seq<PairNode>, cons: LispCons, probe: Probe) -> Option<LispObject> {
    let element = first_of(cells, cons);
    match probe {
        Probe::Element => Some(element),
        Probe::ElementFirst => if is_pair(cells, element) {
            Some(cells[element->Cons_0 as int].first)
        } else {
            None
        },
        Probe::ElementSecond => if is_pair(cells, element) {
            Some(cells[element->Cons_0 as int].second)
        } else {
            None
        },
    }
}

/// Whether the first `n` of `nodes` were passed over and the next one, if
/// there is one, was accepted: `cmp` was asked about every node with a value
/// to compare, and said no to each of the first `n` and yes to the next.
pub open spec fn found_at<F: Fn(LispObject, LispObject) -> bool>(
    cells: Seq<PairNode>,
    nodes: Seq<LispCons>,
    key: LispObject,
    cmp: F,
    probe: Probe,
    n: int,
) -> bool {
    &&& 0 <= n <= nodes.len()
    &&& forall|j: int|
        0 <= j < n ==> (probed(cells, #[trigger] nodes[j], probe) matches Some(v) ==> call_ensures(
            cmp,
            (key, v),
            false,
        ))
    &&& n < nodes.len() ==> (probed(cells, nodes[n], probe) matches Some(v) && call_ensures(
        cmp,
        (key, v),
        true,
    ))
}

/// Whether a search went past the first `n` of `nodes` and stopped at the
/// next, if there is one, where `said(key, v, r)` tells that the comparison
/// of `key` with the value `v` may have come out as `r`.
pub open spec fn found_by(
    cells: Seq<PairNode>,
    nodes: Seq<LispCons>,
    key: LispObject,
    said: spec_fn(LispObject, LispObject, bool) -> bool,
    probe: Probe,
    n: int,
) -> bool {
    &&& 0 <= n <= nodes.len()
    &&& forall|j: int|
        0 <= j < n ==> (probed(cells, #[trigger] nodes[j], probe) matches Some(v) ==> said(key, v, false))
    &&& n < nodes.len() ==> (probed(cells, nodes[n], probe) matches Some(v) && said(key, v, true))
}

/// The comparison that asks `cmp`.
pub open spec fn asked<F: Fn(LispObject, LispObject) -> bool>(cmp: F) -> spec_fn(
    LispObject,
    LispObject,
    bool,
) -> bool {
    |a: LispObject, b: LispObject, r: bool| call_ensures(cmp, (a, b), r)
}

/// The comparison that takes two values for the same if they are the same
/// datum, and asks `equal` otherwise.
pub open spec fn same_or<E: Fn(LispObject, LispObject) -> bool>(equal: E) -> spec_fn(
    LispObject,
    LispObject,
    bool,
) -> bool {
    |a: LispObject, b: LispObject, r: bool|
        if a == b {
            r
        } else {
            call_ensures(equal, (a, b), r)
        }
}

/// The comparison that a search makes: `same_or` if values that are the same
/// datum are accepted without asking, `asked` if not.
pub open spec fn said_by<F: Fn(LispObject, LispObject) -> bool>(cmp: F, same_first: bool) -> spec_fn(
    LispObject,
    LispObject,
    bool,
) -> bool {
    if same_first {
        same_or(cmp)
    } else {
        asked(cmp)
    }
}

/// Runs a walk until the probed value of a node is accepted as `key`: by
/// `cmp`, or without asking it if `same_first` is set and the value is the
/// key itself.
fn search<F: Fn(LispObject, LispObject) -> bool>(
    start: TailsIter,
    key: LispObject,
    cmp: &F,
    same_first: bool,
    probe: Probe,
    arena: &PairArena,
) -> (r: Result<Option<LispCons>, LispError>)
    requires
        forall|a: LispObject, b: LispObject| call_requires(*cmp, (a, b)),
        start@.tracks(arena@),
    ensures
        exists|n: int|
            {
                &&& #[trigger] found_by(
                    arena@,
                    start@.yields(arena@),
                    key,
                    said_by(*cmp, same_first),
                    probe,
                    n,
                )
                &&& r == if n < start@.yields(arena@).len() {
                    Ok::<Option<LispCons>, LispError>(Some(start@.yields(arena@)[n]))
                } else {
                    match start@.stop(arena@) {
                        Ok(_) => Ok(None),
                        Err(e) => Err(e),
                    }
                }
            },
        r matches Ok(Some(cons)) ==> cons.0 < arena@.len(),
{
    let mut it = start;
    let ghost walk = it@;
    let ghost nodes = walk.yields(arena@);
    let ghost said = said_by(*cmp, same_first);
    let ghost mut n: int = 0;
    loop
        invariant
            forall|a: LispObject, b: LispObject| call_requires(*cmp, (a, b)),
            it@.tracks(arena@),
            walk == start@,
            nodes == walk.yields(arena@),
            said == said_by(*cmp, same_first),
            0 <= n <= nodes.len(),
            nodes == nodes.subrange(0, n) + it@.yields(arena@),
            it@.stop(arena@) == walk.stop(arena@),
            forall|j: int|
                0 <= j < n ==> (probed(arena@, #[trigger] nodes[j], probe) matches Some(v) ==> said(key, v, false)),
        decreases it@.fuel(arena@),
    {
        let ghost before = it@;
        match it.next(arena) {
            Ok(Some(tail)) => {
                proof {
                    assert(before.yields(arena@) == seq![tail] + it@.yields(arena@));
                    assert(nodes[n] == before.yields(arena@)[0]);
                    assert(nodes.subrange(0, n + 1) =~= nodes.subrange(0, n) + seq![tail]);
                    assert(nodes =~= nodes.subrange(0, n + 1) + it@.yields(arena@));
                }
                let element = tail.car(arena);
                let value = match probe {
                    Probe::Element => Some(element),
                    Probe::ElementFirst => match arena.pair_at(element) {
                        Some((_, node)) => Some(node.first),
                        None => None,
                    },
                    Probe::ElementSecond => match arena.pair_at(element) {
                        Some((_, node)) => Some(node.second),
                        None => None,
                    },
                };
                assert(value == probed(arena@, tail, probe));
                if let Some(v) = value {
                    if (same_first && key.eq(v)) || cmp(key, v) {
                        assert(said(key, v, true));
                        assert(found_by(arena@, nodes, key, said, probe, n));
                        return Ok(Some(tail));
                    }
                    assert(said(key, v, false));
                }
                proof {
                    n = n + 1;
                }
            },
            Ok(None) => {
                proof {
                    assert(before.yields(arena@) =~= Seq::<LispCons>::empty());
                    assert(nodes =~= nodes.subrange(0, n));
                    assert(found_by(arena@, nodes, key, said, probe, n));
                }
                return Ok(None);
            },
            Err(e) => {
                proof {
                    assert(before.yields(arena@) =~= Seq::<LispCons>::empty());
                    assert(nodes =~= nodes.subrange(0, n));
                    assert(found_by(arena@, nodes, key, said, probe, n));
                }
                return Err(e);
            },
        }
    }
}

/// Searches `list` for the first tail whose first slot `cmp` accepts as
/// `elt`. The result is that tail, or the terminator if no first slot is
/// accepted. A list that does not end in the terminator and a circular list
/// are errors, unless an accepted element comes first.
pub fn lookup_member<F: Fn(LispObject, LispObject) -> bool>(
    elt: LispObject,
    list: LispObject,
    cmp: F,
    arena: &PairArena,
) -> (r: Result<LispObject, LispError>)
    requires
        forall|a: LispObject, b: LispObject| call_requires(cmp, (a, b)),
    ensures
        ({
            let walk = list_walk(list, LispConsEndChecks::on, LispConsCircularChecks::on);
            let nodes = walk.yields(arena@);
            exists|n: int|
                {
                    &&& found_at(arena@, nodes, elt, cmp, Probe::Element, n)
                    &&& r == if n < nodes.len() {
                        Ok::<LispObject, LispError>(LispObject::Cons(nodes[n].0))
                    } else {
                        not_found(walk.stop(arena@))
                    }
                }
        }),
{
    let it = list.iter_tails(LispConsEndChecks::on, LispConsCircularChecks::on);
    proof {
        arena.lemma_len();
        lemma_start_tracks(list, Some(TypePredicate::Listp), LispConsCircularChecks::on, arena@);
    }
    let found = search(it, elt, &cmp, false, Probe::Element, arena);
    let ghost nodes = it@.yields(arena@);
    let ghost n = choose|n: int|
        {
            &&& #[trigger] found_by(arena@, nodes, elt, said_by(cmp, false), Probe::Element, n)
            &&& found == if n < nodes.len() {
                Ok::<Option<LispCons>, LispError>(Some(nodes[n]))
            } else {
                match it@.stop(arena@) {
                    Ok(_) => Ok(None),
                    Err(e) => Err(e),
                }
            }
        };
    assert(found_at(arena@, nodes, elt, cmp, Probe::Element, n));
    match found {
        Ok(Some(tail)) => Ok(LispObject::Cons(tail.0)),
        Ok(None) => Ok(LispObject::Nil),
        Err(e) => Err(e),
    }
}

/// Searches the elements of `list` for the first pair node whose first slot
/// `cmp` accepts as `key`. The result is that element, or the terminator if
/// there is none. Elements that are no pair nodes are passed over.
pub fn assoc_impl<F: Fn(LispObject, LispObject) -> bool>(
    key: LispObject,
    list: LispObject,
    cmp: F,
    arena: &PairArena,
) -> (r: Result<LispObject, LispError>)
    requires
        forall|a: LispObject, b: LispObject| call_requires(cmp, (a, b)),
    ensures
        ({
            let walk = list_walk(list, LispConsEndChecks::on, LispConsCircularChecks::on);
            let nodes = walk.yields(arena@);
            exists|n: int|
                {
                    &&& found_at(arena@, nodes, key, cmp, Probe::ElementFirst, n)
                    &&& r == if n < nodes.len() {
                        Ok::<LispObject, LispError>(first_of(arena@, nodes[n]))
                    } else {
                        not_found(walk.stop(arena@))
                    }
                }
        }),
{
    let it = list.iter_tails(LispConsEndChecks::on, LispConsCircularChecks::on);
    proof {
        arena.lemma_len();
        lemma_start_tracks(list, Some(TypePredicate::Listp), LispConsCircularChecks::on, arena@);
    }
    let found = search(it, key, &cmp, false, Probe::ElementFirst, arena);
    let ghost nodes = it@.yields(arena@);
    let ghost n = choose|n: int|
        {
            &&& #[trigger] found_by(arena@, nodes, key, said_by(cmp, false), Probe::ElementFirst, n)
            &&& found == if n < nodes.len() {
                Ok::<Option<LispCons>, LispError>(Some(nodes[n]))
            } else {
                match it@.stop(arena@) {
                    Ok(_) => Ok(None),
                    Err(e) => Err(e),
                }
            }
        };
    assert(found_at(arena@, nodes, key, cmp, Probe::ElementFirst, n));
    match found {
        Ok(Some(tail)) => Ok(tail.car(arena)),
        Ok(None) => Ok(LispObject::Nil),
        Err(e) => Err(e),
    }
}

/// Searches the elements of `list` for the first pair node whose second slot
/// `cmp` accepts as `key`. The result is that element, or the terminator if
/// there is none.
pub fn rassoc_impl<F: Fn(LispObject, LispObject) -> bool>(
    key: LispObject,
    list: LispObject,
    cmp: F,
    arena: &PairArena,
) -> (r: Result<LispObject, LispError>)
    requires
        forall|a: LispObject, b: LispObject| call_requires(cmp, (a, b)),
    ensures
        ({
            let walk = list_walk(list, LispConsEndChecks::on, LispConsCircularChecks::on);
            let nodes = walk.yields(arena@);
            exists|n: int|
                {
                    &&& found_at(arena@, nodes, key, cmp, Probe::ElementSecond, n)
                    &&& r == if n < nodes.len() {
                        Ok::<LispObject, LispError>(first_of(arena@, nodes[n]))
                    } else {
                        not_found(walk.stop(arena@))
                    }
                }
        }),
{
    let it = list.iter_tails(LispConsEndChecks::on, LispConsCircularChecks::on);
    proof {
        arena.lemma_len();
        lemma_start_tracks(list, Some(TypePredicate::Listp), LispConsCircularChecks::on, arena@);
    }
    let found = search(it, key, &cmp, false, Probe::ElementSecond, arena);
    let ghost nodes = it@.yields(arena@);
    let ghost n = choose|n: int|
        {
            &&& #[trigger] found_by(arena@, nodes, key, said_by(cmp, false), Probe::ElementSecond, n)
            &&& found == if n < nodes.len() {
                Ok::<Option<LispCons>, LispError>(Some(nodes[n]))
            } else {
                match it@.stop(arena@) {
                    Ok(_) => Ok(None),
                    Err(e) => Err(e),
                }
            }
        };
    assert(found_at(arena@, nodes, key, cmp, Probe::ElementSecond, n));
    match found {
        Ok(Some(tail)) => Ok(tail.car(arena)),
        Ok(None) => Ok(LispObject::Nil),
        Err(e) => Err(e),
    }
}

/// Whether `cmp` says yes exactly for two values that are the same datum.
pub open spec fn decides_eq<F: Fn(LispObject, LispObject) -> bool>(cmp: F) -> bool {
    &&& forall|a: LispObject, b: LispObject| call_requires(cmp, (a, b))
    &&& forall|a: LispObject, b: LispObject, r: bool| call_ensures(cmp, (a, b), r) ==> r == (a == b)
}

/// A search with a comparison that decides identity ends at the first node
/// whose probed value is the key.
pub proof fn lemma_found_at_eq<F: Fn(LispObject, LispObject) -> bool>(
    cells: Seq<PairNode>,
    nodes: Seq<LispCons>,
    key: LispObject,
    cmp: F,
    probe: Probe,
    n: int,
)
    requires
        decides_eq(cmp),
        found_at(cells, nodes, key, cmp, probe, n),
    ensures
        first_where(nodes, |c: LispCons| probed(cells, c, probe) == Some(key), 0) == n,
{
    let wanted = |c: LispCons| probed(cells, c, probe) == Some(key);
    assert forall|j: int| 0 <= j < n implies !wanted(#[trigger] nodes[j]) by {
        if probed(cells, nodes[j], probe) is Some {
            let v = probed(cells, nodes[j], probe)->Some_0;
            assert(call_ensures(cmp, (key, v), false));
        }
    }
    if n < nodes.len() {
        let v = probed(cells, nodes[n], probe)->Some_0;
        assert(call_ensures(cmp, (key, v), true));
    }
    lemma_first_where(nodes, wanted, 0, n);
}

/// The result of searching `nodes` for a node that satisfies `wanted`: the
/// first such node, or what `stop` says if there is none.
pub open spec fn search_result(
    nodes: Seq<LispCons>,
    wanted: spec_fn(LispCons) -> bool,
    stop: crate::lists::StepResult,
) -> Result<LispObject, LispError> {
    let n = first_where(nodes, wanted, 0);
    if n < nodes.len() {
        Ok(LispObject::Cons(nodes[n].0))
    } else {
        not_found(stop)
    }
}

/// The first tail of `list` whose first slot is `elt` itself; the terminator
/// if there is none. A list that does not end in the terminator and a
/// circular list are errors, unless `elt` comes first.
pub fn memq(elt: LispObject, list: LispObject, arena: &PairArena) -> (r: Result<LispObject, LispError>)
    ensures
        ({
            let walk = list_walk(list, LispConsEndChecks::on, LispConsCircularChecks::on);
            r == search_result(
                walk.yields(arena@),
                |c: LispCons| probed(arena@, c, Probe::Element) == Some(elt),
                walk.stop(arena@),
            )
        }),
{
    let same = |a: LispObject, b: LispObject| -> (r: bool)
        ensures
            r == (a == b),
        { a.eq(b) };
    let r = lookup_member(elt, list, same, arena);
    proof {
        let walk = list_walk(list, LispConsEndChecks::on, LispConsCircularChecks::on);
        let nodes = walk.yields(arena@);
        let n = choose|n: int|
            {
                &&& found_at(arena@, nodes, elt, same, Probe::Element, n)
                &&& r == if n < nodes.len() {
                    Ok::<LispObject, LispError>(LispObject::Cons(nodes[n].0))
                } else {
                    not_found(walk.stop(arena@))
                }
            };
        lemma_found_at_eq(arena@, nodes, elt, same, Probe::Element, n);
    }
    r
}

/// As `memq`: numbers that are the same number are the same datum here.
pub fn memql(elt: LispObject, list: LispObject, arena: &PairArena) -> (r: Result<LispObject, LispError>)
    ensures
        ({
            let walk = list_walk(list, LispConsEndChecks::on, LispConsCircularChecks::on);
            r == search_result(
                walk.yields(arena@),
                |c: LispCons| probed(arena@, c, Probe::Element) == Some(elt),
                walk.stop(arena@),
            )
        }),
{
    memq(elt, list, arena)
}

/// The element that a search ends at: the first slot of the first node that
/// satisfies `wanted`, or what `stop` says if there is none.
pub open spec fn element_result(
    cells: Seq<PairNode>,
    nodes: Seq<LispCons>,
    wanted: spec_fn(LispCons) -> bool,
    stop: crate::lists::StepResult,
) -> Result<LispObject, LispError> {
    let n = first_where(nodes, wanted, 0);
    if n < nodes.len() {
        Ok(first_of(cells, nodes[n]))
    } else {
        not_found(stop)
    }
}

/// The first element of `list` that is a pair node with `key` itself in its
/// first slot; the terminator if there is none. Elements that are no pair
/// nodes are passed over.
pub fn assq(key: LispObject, list: LispObject, arena: &PairArena) -> (r: Result<LispObject, LispError>)
    ensures
        ({
            let walk = list_walk(list, LispConsEndChecks::on, LispConsCircularChecks::on);
            r == element_result(
                arena@,
                walk.yields(arena@),
                |c: LispCons| probed(arena@, c, Probe::ElementFirst) == Some(key),
                walk.stop(arena@),
            )
        }),
{
    let same = |a: LispObject, b: LispObject| -> (r: bool)
        ensures
            r == (a == b),
        { a.eq(b) };
    let r = assoc_impl(key, list, same, arena);
    proof {
        let walk = list_walk(list, LispConsEndChecks::on, LispConsCircularChecks::on);
        let nodes = walk.yields(arena@);
        let n = choose|n: int|
            {
                &&& found_at(arena@, nodes, key, same, Probe::ElementFirst, n)
                &&& r == if n < nodes.len() {
                    Ok::<LispObject, LispError>(first_of(arena@, nodes[n]))
                } else {
                    not_found(walk.stop(arena@))
                }
            };
        lemma_found_at_eq(arena@, nodes, key, same, Probe::ElementFirst, n);
    }
    r
}

/// The first element of `list` that is a pair node with `key` itself in its
/// second slot; the terminator if there is none.
pub fn rassq(key: LispObject, list: LispObject, arena: &PairArena) -> (r: Result<LispObject, LispError>)
    ensures
        ({
            let walk = list_walk(list, LispConsEndChecks::on, LispConsCircularChecks::on);
            r == element_result(
                arena@,
                walk.yields(arena@),
                |c: LispCons| probed(arena@, c, Probe::ElementSecond) == Some(key),
                walk.stop(arena@),
            )
        }),
{
    let same = |a: LispObject, b: LispObject| -> (r: bool)
        ensures
            r == (a == b),
        { a.eq(b) };
    let r = rassoc_impl(key, list, same, arena);
    proof {
        let walk = list_walk(list, LispConsEndChecks::on, LispConsCircularChecks::on);
        let nodes = walk.yields(arena@);
        let n = choose|n: int|
            {
                &&& found_at(arena@, nodes, key, same, Probe::ElementSecond, n)
                &&& r == if n < nodes.len() {
                    Ok::<LispObject, LispError>(first_of(arena@, nodes[n]))
                } else {
                    not_found(walk.stop(arena@))
                }
            };
        lemma_found_at_eq(arena@, nodes, key, same, Probe::ElementSecond, n);
    }
    r
}

/// Runs a walker to its end and gathers the nodes that it hands out.
fn collect_nodes(start: TailsIter, arena: &PairArena) -> (r: (Vec<LispCons>, Result<(), LispError>))
    requires
        start@.tracks(arena@),
    ensures
        r.0@ == start@.yields(arena@),
        r.1 == match start@.stop(arena@) {
            Ok(_) => Ok::<(), LispError>(()),
            Err(e) => Err(e),
        },
        forall|i: int| 0 <= i < r.0@.len() ==> (#[trigger] r.0@[i]).0 < arena@.len(),
{
    let mut it = start;
    let mut nodes: Vec<LispCons> = Vec::new();
    loop
        invariant
            it@.tracks(arena@),
            nodes@ + it@.yields(arena@) == start@.yields(arena@),
            it@.stop(arena@) == start@.stop(arena@),
            forall|i: int| 0 <= i < nodes@.len() ==> (#[trigger] nodes@[i]).0 < arena@.len(),
        decreases it@.fuel(arena@),
    {
        let ghost before = it@;
        let ghost seen = nodes@;
        match it.next(arena) {
            Ok(Some(tail)) => {
                nodes.push(tail);
                proof {
                    assert(before.yields(arena@) == seq![tail] + it@.yields(arena@));
                    assert(nodes@ + it@.yields(arena@) =~= seen + before.yields(arena@));
                }
            },
            Ok(None) => {
                proof {
                    assert(before.yields(arena@) =~= Seq::<LispCons>::empty());
                    assert(nodes@ =~= seen + before.yields(arena@));
                }
                return (nodes, Ok(()));
            },
            Err(e) => {
                proof {
                    assert(before.yields(arena@) =~= Seq::<LispCons>::empty());
                    assert(nodes@ =~= seen + before.yields(arena@));
                }
                return (nodes, Err(e));
            },
        }
    }
}

/// The state of a deletion pass: the arena, the list that remains, and the
/// last node that was kept.
pub struct Deletion {
    pub cells: Seq<PairNode>,
    pub remaining: LispObject,
    pub kept: Option<LispCons>,
}

/// What deleting `elt` makes of the first `k` of `nodes`. A node whose first
/// slot is `elt` itself is unlinked: the node kept last is linked to what
/// follows it; at the front of the list, where no node has been kept, what
/// follows it becomes the list that remains.
pub open spec fn delq_pass(
    cells: Seq<PairNode>,
    list: LispObject,
    nodes: Seq<LispCons>,
    elt: LispObject,
    k: nat,
) -> Deletion
    decreases k,
{
    if k == 0 {
        Deletion { cells, remaining: list, kept: None }
    } else {
        let before = delq_pass(cells, list, nodes, elt, (k - 1) as nat);
        let tail = nodes[k - 1];
        let node = before.cells[tail.0 as int];
        if node.first == elt {
            match before.kept {
                Some(kept) => Deletion {
                    cells: before.cells.update(
                        kept.0 as int,
                        PairNode { first: before.cells[kept.0 as int].first, second: node.second },
                    ),
                    ..before
                },
                None => Deletion { remaining: node.second, ..before },
            }
        } else {
            Deletion { kept: Some(tail), ..before }
        }
    }
}

/// Deletes from `list`, in place, the elements that are `elt` itself. The
/// result is the list that remains, which begins later than `list` if `elt`
/// stood at the front: of a list that ends in the terminator, the elements
/// that are not `elt`, in their order. The list is walked before any node is
/// relinked; if the walk ends in an error, the nodes that it handed out have
/// been dealt with all the same.
pub fn delq(elt: LispObject, list: LispObject, arena: &mut PairArena) -> (r: Result<LispObject, LispError>)
    ensures
        ({
            let walk = list_walk(list, LispConsEndChecks::on, LispConsCircularChecks::on);
            let nodes = walk.yields(old(arena)@);
            let pass = delq_pass(old(arena)@, list, nodes, elt, nodes.len());
            &&& final(arena)@ == pass.cells
            &&& r == match walk.stop(old(arena)@) {
                Ok(_) => Ok::<LispObject, LispError>(pass.remaining),
                Err(e) => Err(e),
            }
        }),
        finite(old(arena)@, list) ==> (r is Ok <==> tail_at(old(arena)@, list, chain_len(old(arena)@, list))
            == LispObject::Nil),
        finite(old(arena)@, list) && r is Ok ==> finite(final(arena)@, r->Ok_0) && elements(
            final(arena)@,
            r->Ok_0,
        ) == elements(old(arena)@, list).filter(crate::deletion::is_other_than(elt)),
{
    let it = list.iter_tails(LispConsEndChecks::on, LispConsCircularChecks::on);
    proof {
        arena.lemma_len();
        lemma_start_tracks(list, Some(TypePredicate::Listp), LispConsCircularChecks::on, arena@);
        if finite(arena@, list) {
            crate::deletion::lemma_delq_leaves_the_others(arena@, list, elt);
            crate::walks::lemma_finite_walk(
                list_walk(list, LispConsEndChecks::on, LispConsCircularChecks::on),
                arena@,
            );
        }
    }
    let (nodes, end) = collect_nodes(it, arena);
    let mut remaining = list;
    let mut prev: Option<LispCons> = None;
    let mut k: usize = 0;
    while k < nodes.len()
        invariant
            0 <= k <= nodes.len(),
            arena@.len() == old(arena)@.len(),
            forall|i: int| 0 <= i < nodes@.len() ==> (#[trigger] nodes@[i]).0 < arena@.len(),
            prev matches Some(kept) ==> kept.0 < arena@.len(),
            (Deletion { cells: arena@, remaining, kept: prev }) == delq_pass(
                old(arena)@,
                list,
                nodes@,
                elt,
                k as nat,
            ),
        decreases nodes.len() - k,
    {
        let tail = nodes[k];
        let (item, rest) = tail.as_tuple(arena);
        if elt.eq(item) {
            match prev {
                Some(cons) => {
                    setcdr(cons, rest, arena);
                },
                None => {
                    remaining = rest;
                },
            }
        } else {
            prev = Some(tail);
        }
        k = k + 1;
    }
    match end {
        Ok(()) => Ok(remaining),
        Err(e) => Err(e),
    }
}

/// The first slots of nodes.
pub open spec fn firsts(cells: Seq<PairNode>, nodes: Seq<LispCons>) -> Seq<LispObject> {
    Seq::new(nodes.len(), |i: int| first_of(cells, nodes[i]))
}

/// The elements of the list `list`.
pub open spec fn elements(cells: Seq<PairNode>, list: LispObject) -> Seq<LispObject> {
    firsts(cells, chain_pairs(cells, list))
}

/// The nodes of a new list of `items`, the node of the last item first,
/// where `base` is the index of the first of them.
pub open spec fn list_nodes(items: Seq<LispObject>, base: nat) -> Seq<PairNode> {
    Seq::new(
        items.len(),
        |k: int|
            PairNode {
                first: items[items.len() - 1 - k],
                second: if k == 0 {
                    LispObject::Nil
                } else {
                    LispObject::Cons((base + k - 1) as usize)
                },
            },
    )
}

/// The head of a new list of `n` items whose nodes begin at index `base`.
pub open spec fn list_head(n: nat, base: nat) -> LispObject {
    if n == 0 {
        LispObject::Nil
    } else {
        LispObject::Cons((base + n - 1) as usize)
    }
}

/// A list made of new nodes is a chain that ends in the terminator and has
/// the items as its elements, in order.
pub proof fn lemma_list_chain(cells: Seq<PairNode>, items: Seq<LispObject>)
    requires
        cells.len() + items.len() <= usize::MAX,
    ensures
        ({
            let after = cells + list_nodes(items, cells.len());
            let head = list_head(items.len(), cells.len());
            &&& finite(after, head)
            &&& chain_len(after, head) == items.len()
            &&& tail_at(after, head, items.len()) == LispObject::Nil
            &&& elements(after, head) == items
        }),
{
    let base = cells.len();
    let n = items.len();
    let after = cells + list_nodes(items, base);
    let head = list_head(n, base);
    assert forall|k: nat| k <= n implies #[trigger] tail_at(after, head, k) == if k < n {
        LispObject::Cons((base + n - 1 - k) as usize)
    } else {
        LispObject::Nil
    } by {
        lemma_list_tail(cells, items, k);
    }
    assert forall|j: nat| j < n implies is_pair(after, #[trigger] tail_at(after, head, j)) by {
    }
    crate::chains::lemma_chain_len_is(after, head, n);
    let got = elements(after, head);
    assert(got.len() == n);
    assert forall|k: int| 0 <= k < n implies got[k] == items[k] by {
        assert(tail_at(after, head, k as nat) == LispObject::Cons((base + n - 1 - k) as usize));
        assert(after[base + n - 1 - k] == list_nodes(items, base)[n - 1 - k]);
    }
    assert(got =~= items);
}

/// The tail `k` links down a list made of new nodes.
pub proof fn lemma_list_tail(cells: Seq<PairNode>, items: Seq<LispObject>, k: nat)
    requires
        cells.len() + items.len() <= usize::MAX,
        k <= items.len(),
    ensures
        tail_at(cells + list_nodes(items, cells.len()), list_head(items.len(), cells.len()), k) == if k
            < items.len() {
            LispObject::Cons((cells.len() + items.len() - 1 - k) as usize)
        } else {
            LispObject::Nil
        },
    decreases k,
{
    let base = cells.len();
    let n = items.len();
    let after = cells + list_nodes(items, base);
    if k > 0 {
        lemma_list_tail(cells, items, (k - 1) as nat);
        let idx = base + n - k;
        assert(tail_at(after, list_head(n, base), (k - 1) as nat) == LispObject::Cons(idx as usize));
        assert(after[idx] == list_nodes(items, base)[n - k]);
    }
}

/// A new list with `args` as its elements.
pub fn list(args: &[LispObject], arena: &mut PairArena) -> (r: LispObject)
    ensures
        final(arena)@ == old(arena)@ + list_nodes(args@, old(arena)@.len()),
        r == list_head(args@.len(), old(arena)@.len()),
        finite(final(arena)@, r),
        elements(final(arena)@, r) == args@,
        tail_at(final(arena)@, r, args@.len()) == LispObject::Nil,
{
    let ghost base = arena@.len();
    let n = args.len();
    let mut r = LispObject::Nil;
    let mut k: usize = 0;
    while k < n
        invariant
            0 <= k <= n,
            n == args@.len(),
            base == old(arena)@.len(),
            arena@ == old(arena)@ + list_nodes(args@, base).subrange(0, k as int),
            r == list_head(k as nat, base),
        decreases n - k,
    {
        let ghost before = arena@;
        proof {
            arena.lemma_len();
        }
        r = LispObject::cons(arena, args[n - 1 - k], r);
        proof {
            arena.lemma_len();
            assert(arena@ =~= old(arena)@ + list_nodes(args@, base).subrange(0, k + 1));
        }
        k = k + 1;
    }
    proof {
        assert(list_nodes(args@, base).subrange(0, n as int) =~= list_nodes(args@, base));
        arena.lemma_len();
        lemma_list_chain(old(arena)@, args@);
    }
    r
}

/// A new list of `length` elements, each of them `init`.
pub fn make_list(length: u64, init: LispObject, arena: &mut PairArena) -> (r: LispObject)
    ensures
        final(arena)@ == old(arena)@ + list_nodes(
            Seq::new(length as nat, |i: int| init),
            old(arena)@.len(),
        ),
        r == list_head(length as nat, old(arena)@.len()),
        finite(final(arena)@, r),
        elements(final(arena)@, r) == Seq::new(length as nat, |i: int| init),
{
    let ghost base = arena@.len();
    let ghost items = Seq::new(length as nat, |i: int| init);
    let mut r = LispObject::Nil;
    let mut k: u64 = 0;
    while k < length
        invariant
            0 <= k <= length,
            base == old(arena)@.len(),
            items == Seq::new(length as nat, |i: int| init),
            arena@ == old(arena)@ + list_nodes(items, base).subrange(0, k as int),
            r == list_head(k as nat, base),
        decreases length - k,
    {
        proof {
            arena.lemma_len();
        }
        r = LispObject::cons(arena, init, r);
        proof {
            arena.lemma_len();
            assert(arena@ =~= old(arena)@ + list_nodes(items, base).subrange(0, k + 1));
        }
        k = k + 1;
    }
    proof {
        assert(list_nodes(items, base).subrange(0, length as int) =~= list_nodes(items, base));
        arena.lemma_len();
        lemma_list_chain(old(arena)@, items);
    }
    r
}

/// The first tail of `list` whose first slot `equal` takes for equal to
/// `elt`; the terminator if there is none.
pub fn member<E: Fn(LispObject, LispObject) -> bool>(
    elt: LispObject,
    list: LispObject,
    equal: E,
    arena: &PairArena,
) -> (r: Result<LispObject, LispError>)
    requires
        forall|a: LispObject, b: LispObject| call_requires(equal, (a, b)),
    ensures
        ({
            let walk = list_walk(list, LispConsEndChecks::on, LispConsCircularChecks::on);
            let nodes = walk.yields(arena@);
            exists|n: int|
                {
                    &&& found_at(arena@, nodes, elt, equal, Probe::Element, n)
                    &&& r == if n < nodes.len() {
                        Ok::<LispObject, LispError>(LispObject::Cons(nodes[n].0))
                    } else {
                        not_found(walk.stop(arena@))
                    }
                }
        }),
{
    lookup_member(elt, list, equal, arena)
}

/// The comparison of `assoc`: what the test says if there is one; without
/// one, the same datum or what `equal` says.
pub open spec fn assoc_said<E: Fn(LispObject, LispObject) -> bool, T: Fn(LispObject, LispObject) -> bool>(
    testfn: Option<&T>,
    equal: E,
) -> spec_fn(LispObject, LispObject, bool) -> bool {
    match testfn {
        Some(f) => asked(*f),
        None => same_or(equal),
    }
}

/// The first element of `list` that is a pair node whose first slot is equal
/// to `key`; the terminator if there is none. With a test, two values are
/// equal if `testfn` says so; without one, if they are the same datum or
/// `equal` takes them for equal.
pub fn assoc<E: Fn(LispObject, LispObject) -> bool, T: Fn(LispObject, LispObject) -> bool>(
    key: LispObject,
    list: LispObject,
    testfn: Option<&T>,
    equal: &E,
    arena: &PairArena,
) -> (r: Result<LispObject, LispError>)
    requires
        forall|a: LispObject, b: LispObject| call_requires(*equal, (a, b)),
        testfn matches Some(f) ==> forall|a: LispObject, b: LispObject| call_requires(*f, (a, b)),
    ensures
        ({
            let walk = list_walk(list, LispConsEndChecks::on, LispConsCircularChecks::on);
            let nodes = walk.yields(arena@);
            exists|n: int|
                {
                    &&& #[trigger] found_by(
                        arena@,
                        nodes,
                        key,
                        assoc_said(testfn, *equal),
                        Probe::ElementFirst,
                        n,
                    )
                    &&& r == if n < nodes.len() {
                        Ok::<LispObject, LispError>(first_of(arena@, nodes[n]))
                    } else {
                        not_found(walk.stop(arena@))
                    }
                }
        }),
{
    let it = list.iter_tails(LispConsEndChecks::on, LispConsCircularChecks::on);
    proof {
        arena.lemma_len();
        lemma_start_tracks(list, Some(TypePredicate::Listp), LispConsCircularChecks::on, arena@);
    }
    let ghost nodes = it@.yields(arena@);
    let found = match testfn {
        Some(f) => {
            let found = search(it, key, f, false, Probe::ElementFirst, arena);
            proof {
                let n = choose|n: int|
                    {
                        &&& #[trigger] found_by(arena@, nodes, key, said_by(*f, false), Probe::ElementFirst, n)
                        &&& found == if n < nodes.len() {
                            Ok::<Option<LispCons>, LispError>(Some(nodes[n]))
                        } else {
                            match it@.stop(arena@) {
                                Ok(_) => Ok(None),
                                Err(e) => Err(e),
                            }
                        }
                    };
                assert(found_by(arena@, nodes, key, assoc_said(testfn, *equal), Probe::ElementFirst, n));
            }
            found
        },
        None => {
            let found = search(it, key, equal, true, Probe::ElementFirst, arena);
            proof {
                let n = choose|n: int|
                    {
                        &&& #[trigger] found_by(arena@, nodes, key, said_by(*equal, true), Probe::ElementFirst, n)
                        &&& found == if n < nodes.len() {
                            Ok::<Option<LispCons>, LispError>(Some(nodes[n]))
                        } else {
                            match it@.stop(arena@) {
                                Ok(_) => Ok(None),
                                Err(e) => Err(e),
                            }
                        }
                    };
                assert(found_by(arena@, nodes, key, assoc_said(testfn, *equal), Probe::ElementFirst, n));
            }
            found
        },
    };
    match found {
        Ok(Some(tail)) => Ok(tail.car(arena)),
        Ok(None) => Ok(LispObject::Nil),
        Err(e) => Err(e),
    }
}

/// The first element of `list` that is a pair node whose second slot is the
/// same datum as `key` or one that `equal` takes for equal to it; the
/// terminator if there is none.
pub fn rassoc<E: Fn(LispObject, LispObject) -> bool>(
    key: LispObject,
    list: LispObject,
    equal: &E,
    arena: &PairArena,
) -> (r: Result<LispObject, LispError>)
    requires
        forall|a: LispObject, b: LispObject| call_requires(*equal, (a, b)),
    ensures
        ({
            let walk = list_walk(list, LispConsEndChecks::on, LispConsCircularChecks::on);
            let nodes = walk.yields(arena@);
            exists|n: int|
                {
                    &&& #[trigger] found_by(arena@, nodes, key, same_or(*equal), Probe::ElementSecond, n)
                    &&& r == if n < nodes.len() {
                        Ok::<LispObject, LispError>(first_of(arena@, nodes[n]))
                    } else {
                        not_found(walk.stop(arena@))
                    }
                }
        }),
{
    let it = list.iter_tails(LispConsEndChecks::on, LispConsCircularChecks::on);
    proof {
        arena.lemma_len();
        lemma_start_tracks(list, Some(TypePredicate::Listp), LispConsCircularChecks::on, arena@);
    }
    let ghost nodes = it@.yields(arena@);
    let found = search(it, key, equal, true, Probe::ElementSecond, arena);
    proof {
        let n = choose|n: int|
            {
                &&& #[trigger] found_by(arena@, nodes, key, said_by(*equal, true), Probe::ElementSecond, n)
                &&& found == if n < nodes.len() {
                    Ok::<Option<LispCons>, LispError>(Some(nodes[n]))
                } else {
                    match it@.stop(arena@) {
                        Ok(_) => Ok(None),
                        Err(e) => Err(e),
                    }
                }
            };
        assert(found_by(arena@, nodes, key, same_or(*equal), Probe::ElementSecond, n));
    }
    match found {
        Ok(Some(tail)) => Ok(tail.car(arena)),
        Ok(None) => Ok(LispObject::Nil),
        Err(e) => Err(e),
    }
}

} // verus!
