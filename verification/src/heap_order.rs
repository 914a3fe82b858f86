//! The order of a binary min-heap laid out in a sequence.
//!
//! The node at `i` has its parent at `(i - 1) / 2`. Nodes are ranked by a pair of
//! numbers, the first one counting more.
use vstd::prelude::*;

verus! {

/// Whether rank `a` comes strictly before rank `b`.
pub open spec fn rank_less(a: (u64, u64), b: (u64, u64)) -> bool {
    a.0 < b.0 || (a.0 == b.0 && a.1 < b.1)
}

/// The position of the parent of `i`.
pub open spec fn parent_of(i: int) -> int {
    (i - 1) / 2
}

/// The node at `i` does not come before its parent.
pub open spec fn edge_ok(ranks: Seq<(u64, u64)>, i: int) -> bool {
    !rank_less(ranks[i], ranks[parent_of(i)])
}

/// No node comes before its parent.
pub open spec fn heap_ordered(ranks: Seq<(u64, u64)>) -> bool {
    forall|i: int| 1 <= i < ranks.len() ==> #[trigger] edge_ok(ranks, i)
}

/// No child of `pos` comes before the parent of `pos`.
pub open spec fn bridged(ranks: Seq<(u64, u64)>, pos: int) -> bool {
    pos > 0 ==> forall|c: int|
        1 <= c < ranks.len() && #[trigger] parent_of(c) == pos ==> !rank_less(
            ranks[c],
            ranks[parent_of(pos)],
        )
}

/// A heap but for the node at `pos`, which may stand wrong to its parent and to
/// its children.
pub open spec fn ordered_around(ranks: Seq<(u64, u64)>, pos: int) -> bool {
    &&& forall|i: int|
        1 <= i < ranks.len() && i != pos && parent_of(i) != pos ==> #[trigger] edge_ok(ranks, i)
    &&& bridged(ranks, pos)
}

/// A heap but for the node at `pos`, which may come before its parent.
pub open spec fn ordered_but_up(ranks: Seq<(u64, u64)>, pos: int) -> bool {
    &&& forall|i: int| 1 <= i < ranks.len() && i != pos ==> #[trigger] edge_ok(ranks, i)
    &&& bridged(ranks, pos)
}

/// A node that set out from `start` has sunk to `pos`: the children of `pos` may
/// come before it, and where it has not moved yet it may come before its parent.
pub open spec fn sinking(ranks: Seq<(u64, u64)>, start: int, pos: int) -> bool {
    &&& 0 <= start <= pos
    &&& forall|i: int|
        1 <= i < ranks.len() && i != start && parent_of(i) != pos ==> #[trigger] edge_ok(ranks, i)
    &&& pos != start && 1 <= start < ranks.len() ==> edge_ok(ranks, start)
    &&& bridged(ranks, pos)
}

/// `ranks` with the nodes at `i` and `j` exchanged.
pub open spec fn swapped<A>(s: Seq<A>, i: int, j: int) -> Seq<A> {
    s.update(i, s[j]).update(j, s[i])
}

/// The root of a heap comes before no other node.
pub proof fn lemma_root_is_least(ranks: Seq<(u64, u64)>, i: int)
    requires
        heap_ordered(ranks),
        0 <= i < ranks.len(),
    ensures
        !rank_less(ranks[i], ranks[0]),
    decreases i,
{
    if i > 0 {
        assert(edge_ok(ranks, i));
        lemma_root_is_least(ranks, parent_of(i));
    }
}

/// A new rank at one position of a heap disturbs the order around that position
/// only.
pub proof fn lemma_rerank(ranks: Seq<(u64, u64)>, pos: int, rank: (u64, u64))
    requires
        heap_ordered(ranks),
        0 <= pos < ranks.len(),
    ensures
        ordered_around(ranks.update(pos, rank), pos),
        !rank_less(rank, ranks[pos]) && pos > 0 ==> edge_ok(ranks.update(pos, rank), pos),
{
    let after = ranks.update(pos, rank);
    assert forall|i: int|
        1 <= i < after.len() && i != pos && parent_of(i) != pos implies #[trigger] edge_ok(
        after,
        i,
    ) by {
        assert(edge_ok(ranks, i));
    }
    if pos > 0 {
        assert(edge_ok(ranks, pos));
        assert forall|c: int| 1 <= c < after.len() && #[trigger] parent_of(c) == pos implies !rank_less(
            after[c],
            after[parent_of(pos)],
        ) by {
            assert(edge_ok(ranks, c));
        }
    }
}

/// A new node at the end of a heap may come before its parent and disturbs
/// nothing else.
pub proof fn lemma_append(ranks: Seq<(u64, u64)>, rank: (u64, u64))
    requires
        heap_ordered(ranks),
    ensures
        ordered_but_up(ranks.push(rank), ranks.len() as int),
{
    let after = ranks.push(rank);
    assert forall|i: int| 1 <= i < after.len() && i != ranks.len() implies #[trigger] edge_ok(
        after,
        i,
    ) by {
        assert(edge_ok(ranks, i));
    }
}

/// One step up: a node that comes before its parent changes places with it.
pub proof fn lemma_rise(ranks: Seq<(u64, u64)>, pos: int)
    requires
        ordered_but_up(ranks, pos),
        0 < pos < ranks.len(),
        rank_less(ranks[pos], ranks[parent_of(pos)]),
    ensures
        ordered_but_up(swapped(ranks, parent_of(pos), pos), parent_of(pos)),
{
    let up = parent_of(pos);
    let after = swapped(ranks, up, pos);
    assert forall|i: int| 1 <= i < after.len() && i != up implies #[trigger] edge_ok(after, i) by {
        if i != pos {
            if parent_of(i) == pos {
                assert(!rank_less(ranks[i], ranks[up]));
            } else {
                assert(edge_ok(ranks, i));
            }
        }
    }
    if up > 0 {
        assert(edge_ok(ranks, up));
        assert forall|c: int| 1 <= c < after.len() && #[trigger] parent_of(c) == up implies !rank_less(
            after[c],
            after[parent_of(up)],
        ) by {
            if c != pos {
                assert(edge_ok(ranks, c));
            }
        }
    }
}

/// One step down: the smaller child changes places with the sinking node.
pub proof fn lemma_sink(ranks: Seq<(u64, u64)>, start: int, pos: int, child: int)
    requires
        sinking(ranks, start, pos),
        1 <= child < ranks.len(),
        parent_of(child) == pos,
        rank_less(ranks[child], ranks[pos]),
        forall|c: int|
            1 <= c < ranks.len() && #[trigger] parent_of(c) == pos ==> !rank_less(
                ranks[c],
                ranks[child],
            ),
    ensures
        sinking(swapped(ranks, pos, child), start, child),
{
    let after = swapped(ranks, pos, child);
    assert forall|i: int|
        1 <= i < after.len() && i != start && parent_of(i) != child implies #[trigger] edge_ok(
        after,
        i,
    ) by {
        if i == pos {
            assert(parent_of(child) == pos);
        } else if parent_of(i) != pos {
            assert(edge_ok(ranks, i));
        }
    }
    if 1 <= start {
        if pos == start {
            assert(parent_of(child) == pos);
        } else {
            assert(edge_ok(ranks, start));
        }
        assert(edge_ok(after, start));
    }
    assert forall|c: int| 1 <= c < after.len() && #[trigger] parent_of(c) == child implies !rank_less(
        after[c],
        after[parent_of(child)],
    ) by {
        assert(edge_ok(ranks, c));
    }
}

/// The end of the way down: no child comes before the sinking node.
pub proof fn lemma_sunk(ranks: Seq<(u64, u64)>, start: int, pos: int)
    requires
        sinking(ranks, start, pos),
        pos < ranks.len(),
        forall|c: int|
            1 <= c < ranks.len() && #[trigger] parent_of(c) == pos ==> !rank_less(
                ranks[c],
                ranks[pos],
            ),
    ensures
        ordered_but_up(ranks, start),
        pos != start ==> heap_ordered(ranks),
{
    assert forall|i: int| 1 <= i < ranks.len() && i != start implies #[trigger] edge_ok(
        ranks,
        i,
    ) by {
        assert(parent_of(i) == pos ==> !rank_less(ranks[i], ranks[pos]));
    }
    if start > 0 && pos != start {
        assert forall|c: int| 1 <= c < ranks.len() && #[trigger] parent_of(c) == start implies !rank_less(
            ranks[c],
            ranks[parent_of(start)],
        ) by {
            assert(edge_ok(ranks, c));
        }
    }
}

} // verus!
