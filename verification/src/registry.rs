//! The registry of weak tables as a list of positions, linked through the
//! tables that it holds.

use vstd::prelude::*;
use crate::hashtable::{head_of, link_after, LispHashTableRef};

verus! {

/// The handle for a position in the arena; the empty handle for the end mark.
pub open spec fn handle_of(index: int) -> LispHashTableRef {
    if index < 0 {
        LispHashTableRef { index: None }
    } else {
        LispHashTableRef { index: Some(index as usize) }
    }
}

/// Whether `registry` is a list of weak tables, each once, that begins at
/// `head` and runs along the links `next`: `next[i]` is the handle that the
/// table at position `i` holds for the table after it, and `weak[i]` says
/// whether the table at position `i` is weak.
pub open spec fn linked_registry(
    next: Seq<LispHashTableRef>,
    weak: Seq<bool>,
    head: LispHashTableRef,
    registry: Seq<int>,
) -> bool {
    &&& next.len() == weak.len()
    &&& next.len() <= usize::MAX
    &&& forall|k: int| 0 <= k < registry.len() ==> 0 <= (#[trigger] registry[k]) < next.len() && weak[registry[k]]
    &&& forall|k: int|
        0 <= k < registry.len() ==> next[registry[k]] == handle_of(#[trigger] link_after(registry, k))
    &&& registry.no_duplicates()
    &&& head == handle_of(head_of(registry))
}

/// The registry cut short: its tables up to position `from`, and then `other`
/// and the tables after it; none of those if `other` is the empty handle.
pub open spec fn skipped(registry: Seq<int>, from: int, other: LispHashTableRef) -> Seq<int> {
    registry.subrange(0, from + 1) + match other.index {
        Some(o) => registry.subrange(registry.index_of(o as int), registry.len() as int),
        None => Seq::empty(),
    }
}

/// A registry stays what it is when the tables that it holds stay as weak
/// and as linked as they were, whatever becomes of other tables and however
/// many are added.
pub proof fn lemma_registry_frame(
    next: Seq<LispHashTableRef>,
    weak: Seq<bool>,
    head: LispHashTableRef,
    registry: Seq<int>,
    next2: Seq<LispHashTableRef>,
    weak2: Seq<bool>,
)
    requires
        linked_registry(next, weak, head, registry),
        next2.len() == weak2.len(),
        next.len() <= next2.len() <= usize::MAX,
        forall|k: int|
            0 <= k < registry.len() ==> next2[#[trigger] registry[k]] == next[registry[k]] && weak2[registry[k]]
                == weak[registry[k]],
    ensures
        linked_registry(next2, weak2, head, registry),
{
    assert forall|k: int| 0 <= k < registry.len() implies next2[registry[k]] == handle_of(
        #[trigger] link_after(registry, k),
    ) by {
        assert(next2[registry[k]] == next[registry[k]]);
    }
}

/// Entering a new weak table at position `pos` of a registry, linked to by
/// the table before it and linking to the table that stood there, yields a
/// registry.
pub proof fn lemma_registry_insert(
    next: Seq<LispHashTableRef>,
    weak: Seq<bool>,
    head: LispHashTableRef,
    registry: Seq<int>,
    next2: Seq<LispHashTableRef>,
    weak2: Seq<bool>,
    head2: LispHashTableRef,
    pos: int,
)
    requires
        linked_registry(next, weak, head, registry),
        0 <= pos < registry.len(),
        next2.len() == next.len() + 1,
        weak2.len() == next2.len(),
        next2.len() <= usize::MAX,
        weak2[next.len() as int],
        next2[next.len() as int] == handle_of(registry[pos]),
        head2 == if pos == 0 {
            handle_of(next.len() as int)
        } else {
            head
        },
        forall|k: int|
            0 <= k < registry.len() ==> weak2[#[trigger] registry[k]] == weak[registry[k]] && next2[registry[k]]
                == if k == pos - 1 {
                handle_of(next.len() as int)
            } else {
                next[registry[k]]
            },
    ensures
        linked_registry(next2, weak2, head2, registry.insert(pos, next.len() as int)),
{
    let now = registry.insert(pos, next.len() as int);
    let index = next.len() as int;
    assert forall|x: int| 0 <= x < now.len() implies 0 <= (#[trigger] now[x]) < next2.len() && weak2[now[x]] by {
        if x < pos {
            assert(now[x] == registry[x]);
        } else if x > pos {
            assert(now[x] == registry[x - 1]);
        }
    }
    assert forall|x: int| 0 <= x < now.len() implies next2[now[x]] == handle_of(#[trigger] link_after(now, x)) by {
        if x < pos {
            assert(now[x] == registry[x]);
            assert(next[registry[x]] == handle_of(link_after(registry, x)));
            if x + 1 < pos {
                assert(now[x + 1] == registry[x + 1]);
            } else {
                assert(now[x + 1] == index);
            }
        } else if x == pos {
            assert(now[x] == index);
            assert(now[x + 1] == registry[pos]);
        } else {
            assert(now[x] == registry[x - 1]);
            assert(next[registry[x - 1]] == handle_of(link_after(registry, x - 1)));
            if x + 1 < now.len() {
                assert(now[x + 1] == registry[x]);
            }
        }
    }
    assert forall|x: int, y: int| 0 <= x < now.len() && 0 <= y < now.len() && x != y implies now[x] != now[y] by {
        let x0 = if x < pos { x } else { x - 1 };
        let y0 = if y < pos { y } else { y - 1 };
        if x != pos {
            assert(now[x] == registry[x0]);
        }
        if y != pos {
            assert(now[y] == registry[y0]);
        }
    }
    if pos == 0 {
        assert(now[0] == index);
    } else {
        assert(now[0] == registry[0]);
    }
}

/// Linking the table at position `from` of a registry to the table at
/// position `to`, or the head to it if `from` is before the first, yields
/// the registry without the tables between the two.
pub proof fn lemma_registry_skip(
    next: Seq<LispHashTableRef>,
    weak: Seq<bool>,
    head: LispHashTableRef,
    registry: Seq<int>,
    next2: Seq<LispHashTableRef>,
    head2: LispHashTableRef,
    from: int,
    to: int,
)
    requires
        linked_registry(next, weak, head, registry),
        -1 <= from < to <= registry.len(),
        next2.len() == next.len(),
        head2 == if from < 0 {
            handle_of(if to < registry.len() { registry[to] } else { -1 })
        } else {
            head
        },
        forall|k: int|
            0 <= k < registry.len() ==> next2[#[trigger] registry[k]] == if k == from {
                handle_of(if to < registry.len() { registry[to] } else { -1 })
            } else {
                next[registry[k]]
            },
    ensures
        linked_registry(
            next2,
            weak,
            head2,
            registry.subrange(0, from + 1) + registry.subrange(to, registry.len() as int),
        ),
{
    let kept = registry.subrange(0, from + 1);
    let rest = registry.subrange(to, registry.len() as int);
    let now = kept + rest;
    let cut = to - from - 1;
    assert forall|x: int| 0 <= x < now.len() implies #[trigger] now[x] == registry[origin(x, from, cut)] by {
        if x <= from {
            assert(now[x] == kept[x]);
        } else {
            assert(now[x] == rest[x - kept.len()]);
        }
    }
    lemma_skip_links(next, weak, registry, next2, now, from, to);
    assert forall|x: int, y: int| 0 <= x < now.len() && 0 <= y < now.len() && x != y implies now[x] != now[y] by {
        assert(now[x] == registry[origin(x, from, cut)]);
        assert(now[y] == registry[origin(y, from, cut)]);
    }
    if now.len() > 0 {
        assert(now[0] == registry[origin(0, from, cut)]);
    }
}

/// The position in the registry of the table at position `x` of the registry
/// from which `cut` tables after position `from` have been taken.
pub open spec fn origin(x: int, from: int, cut: int) -> int {
    if x <= from {
        x
    } else {
        x + cut
    }
}

/// The tables of a registry that has been cut short are linked in its order.
proof fn lemma_skip_links(
    next: Seq<LispHashTableRef>,
    weak: Seq<bool>,
    registry: Seq<int>,
    next2: Seq<LispHashTableRef>,
    now: Seq<int>,
    from: int,
    to: int,
)
    requires
        -1 <= from < to <= registry.len(),
        next2.len() == next.len(),
        now.len() == registry.len() - (to - from - 1),
        forall|x: int| 0 <= x < now.len() ==> #[trigger] now[x] == registry[origin(x, from, to - from - 1)],
        forall|k: int| 0 <= k < registry.len() ==> 0 <= (#[trigger] registry[k]) < next.len() && weak[registry[k]],
        forall|k: int|
            0 <= k < registry.len() ==> next[registry[k]] == handle_of(#[trigger] link_after(registry, k)),
        forall|k: int|
            0 <= k < registry.len() ==> next2[#[trigger] registry[k]] == if k == from {
                handle_of(if to < registry.len() { registry[to] } else { -1 })
            } else {
                next[registry[k]]
            },
    ensures
        forall|x: int| 0 <= x < now.len() ==> 0 <= (#[trigger] now[x]) < next2.len() && weak[now[x]],
        forall|x: int| 0 <= x < now.len() ==> next2[now[x]] == handle_of(#[trigger] link_after(now, x)),
{
    let cut = to - from - 1;
    assert forall|x: int| 0 <= x < now.len() implies 0 <= (#[trigger] now[x]) < next2.len() && weak[now[x]] by {
        assert(now[x] == registry[origin(x, from, cut)]);
    }
    assert forall|x: int| 0 <= x < now.len() implies next2[now[x]] == handle_of(#[trigger] link_after(now, x)) by {
        let y = origin(x, from, cut);
        assert(now[x] == registry[y]);
        assert(0 <= registry[y] < next.len());
        assert(next[registry[y]] == handle_of(link_after(registry, y)));
        if x + 1 < now.len() {
            assert(now[x + 1] == registry[origin(x + 1, from, cut)]);
        }
        if x == from {
            assert(link_after(now, x) == if to < registry.len() { registry[to] } else { -1 });
        } else {
            assert(link_after(now, x) == link_after(registry, y));
        }
    }
}

} // verus!
