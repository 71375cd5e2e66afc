//! Rings: circular doubly-linked lists inside the arena, and what walking
//! and splicing do to them.

use crate::sparse_grid::base_node::{
    attached, is_closed, returns_home, splice_in, splice_out, walk, walk_from, BaseNode, Direction,
};
use vstd::prelude::*;

verus! {

/// The entry after position `t` of a ring, wrapping around at the end.
pub open spec fn ring_next(ring: Seq<usize>, t: int) -> usize {
    if t + 1 < ring.len() {
        ring[t + 1]
    } else {
        ring[0]
    }
}

/// `ring` lists, without repetition, arena entries each of which is linked to
/// the next one along `dir` and back again, the last one to the first.
pub open spec fn is_ring(links: Seq<BaseNode>, ring: Seq<usize>, dir: Direction) -> bool {
    &&& ring.len() > 0
    &&& ring.no_duplicates()
    &&& forall|t: int| 0 <= t < ring.len() ==> #[trigger] linked_at(links, ring, dir, t)
}

/// The entry at position `t` of `ring` lies in the arena, points along `dir`
/// at the entry after it, and that one points back.
pub open spec fn linked_at(links: Seq<BaseNode>, ring: Seq<usize>, dir: Direction, t: int) -> bool {
    let x = ring[t];
    &&& x < links.len()
    &&& links[x as int].link(dir) == ring_next(ring, t)
    &&& links[ring_next(ring, t) as int].link(dir.back()) == x
}

/// The same ring, read from its first entry in the opposite direction.
pub open spec fn turned(ring: Seq<usize>) -> Seq<usize> {
    seq![ring[0]] + ring.skip(1).reverse()
}

/// A ring has no more entries than the arena.
pub proof fn lemma_ring_bounded(links: Seq<BaseNode>, ring: Seq<usize>, dir: Direction)
    requires
        is_ring(links, ring, dir),
    ensures
        ring.len() <= links.len(),
{
    let ids = ring.map_values(|x: usize| x as int);
    assert(ids.no_duplicates()) by {
        assert forall|i: int, j: int| 0 <= i < ids.len() && 0 <= j < ids.len() && i != j implies ids[i]
            != ids[j] by {
            assert(ring[i] != ring[j]);
        }
    }
    ids.unique_seq_to_set();
    let range = vstd::set_lib::set_int_range(0, links.len() as int);
    vstd::set_lib::lemma_int_range(0, links.len() as int);
    assert(ids.to_set().subset_of(range)) by {
        assert forall|v: int| ids.to_set().contains(v) implies range.contains(v) by {
            let i = choose|i: int| 0 <= i < ids.len() && ids[i] == v;
            assert(linked_at(links, ring, dir, i));
        }
    }
    vstd::set_lib::lemma_len_subset(ids.to_set(), range);
}

/// From position `p` of a ring, a walk along the ring's direction meets the
/// rest of the ring in order and then comes back to the first entry.
pub proof fn lemma_ring_walk_from(
    links: Seq<BaseNode>,
    ring: Seq<usize>,
    dir: Direction,
    p: int,
    fuel: nat,
)
    requires
        is_ring(links, ring, dir),
        0 <= p < ring.len(),
        fuel >= ring.len() - p,
    ensures
        returns_home(links, dir, ring[0], ring[p], fuel),
        walk_from(links, dir, ring[0], ring[p], fuel) == ring.skip(p + 1),
    decreases ring.len() - p,
{
    let x = ring[p];
    let next = links[x as int].link(dir);
    assert(linked_at(links, ring, dir, p));
    if p + 1 < ring.len() {
        assert(ring[p + 1] != ring[0]);
        lemma_ring_walk_from(links, ring, dir, p + 1, (fuel - 1) as nat);
        assert(seq![next] + ring.skip(p + 2) =~= ring.skip(p + 1));
    } else {
        assert(ring.skip(p + 1) =~= Seq::<usize>::empty());
    }
}

/// Walking a ring from its first entry meets the other entries in order.
pub proof fn lemma_ring_walk(links: Seq<BaseNode>, ring: Seq<usize>, dir: Direction)
    requires
        is_ring(links, ring, dir),
    ensures
        is_closed(links, dir, ring[0]),
        walk(links, dir, ring[0]) == ring.skip(1),
{
    lemma_ring_bounded(links, ring, dir);
    lemma_ring_walk_from(links, ring, dir, 0, links.len());
}

/// A ring read backwards is a ring of the opposite direction.
pub proof fn lemma_ring_turned(links: Seq<BaseNode>, ring: Seq<usize>, dir: Direction)
    requires
        is_ring(links, ring, dir),
    ensures
        is_ring(links, turned(ring), dir.back()),
{
    let n = ring.len() as int;
    let rev = turned(ring);
    assert(rev.len() == n);
    assert forall|t: int| 0 <= t < n implies #[trigger] rev[t] == (if t == 0 {
        ring[0]
    } else {
        ring[n - t]
    }) by {
        if t > 0 {
            assert(rev[t] == ring.skip(1).reverse()[t - 1]);
        }
    }
    assert(rev.no_duplicates()) by {
        assert forall|i: int, j: int| 0 <= i < n && 0 <= j < n && i != j implies rev[i] != rev[j] by {
            let a = if i == 0 { 0 } else { n - i };
            let b = if j == 0 { 0 } else { n - j };
            assert(rev[i] == ring[a]);
            assert(rev[j] == ring[b]);
        }
    }
    assert(dir.back().back() == dir);
    assert forall|t: int| 0 <= t < n implies #[trigger] linked_at(links, rev, dir.back(), t) by {
        // rev[t] is ring[a]; the entry after it in rev is the one before ring[a].
        let a = if t == 0 { 0 } else { n - t };
        let b = if a == 0 { n - 1 } else { a - 1 };
        assert(rev[t] == ring[a]);
        assert(ring_next(rev, t) == ring[b]) by {
            if t + 1 < n {
                assert(rev[t + 1] == ring[n - (t + 1)]);
            }
        }
        assert(ring_next(ring, b) == ring[a]);
        assert(linked_at(links, ring, dir, b));
        assert(linked_at(links, ring, dir, a));
    }
}

/// Walking a ring against its direction meets the other entries in reverse.
pub proof fn lemma_ring_walk_back(links: Seq<BaseNode>, ring: Seq<usize>, dir: Direction)
    requires
        is_ring(links, ring, dir),
    ensures
        is_closed(links, dir.back(), ring[0]),
        walk(links, dir.back(), ring[0]) == ring.skip(1).reverse(),
{
    lemma_ring_turned(links, ring, dir);
    lemma_ring_walk(links, turned(ring), dir.back());
    assert(turned(ring).skip(1) =~= ring.skip(1).reverse());
}

/// A ring is still a ring in any arena that agrees with the old one on the
/// ring's own links.
pub proof fn lemma_ring_frame(
    links: Seq<BaseNode>,
    other: Seq<BaseNode>,
    ring: Seq<usize>,
    dir: Direction,
)
    requires
        is_ring(links, ring, dir),
        other.len() >= links.len(),
        forall|t: int|
            0 <= t < ring.len() ==> {
                let x = #[trigger] ring[t];
                &&& other[x as int].link(dir) == links[x as int].link(dir)
                &&& other[x as int].link(dir.back()) == links[x as int].link(dir.back())
            },
    ensures
        is_ring(other, ring, dir),
{
    assert forall|t: int| 0 <= t < ring.len() implies #[trigger] linked_at(other, ring, dir, t) by {
        let u = if t + 1 < ring.len() { t + 1 } else { 0 };
        assert(ring_next(ring, t) == ring[u]);
        assert(linked_at(links, ring, dir, t));
        assert(ring[t] == ring[t] && ring[u] == ring[u]);
    }
}

/// Taking the entry at position `p` out of a ring leaves a ring without that
/// entry, and putting it back restores the arena exactly.
pub proof fn lemma_splice_out(links: Seq<BaseNode>, ring: Seq<usize>, dir: Direction, p: int)
    requires
        is_ring(links, ring, dir),
        ring.len() >= 2,
        0 <= p < ring.len(),
    ensures
        is_ring(splice_out(links, dir, ring[p]), ring.remove(p), dir),
        splice_out(links, dir, ring[p]).len() == links.len(),
        splice_out(links, dir, ring[p])[ring[p] as int] == links[ring[p] as int],
        splice_in(splice_out(links, dir, ring[p]), dir, ring[p]) == links,
        ring.contains(links[ring[p] as int].link(dir)),
        ring.contains(links[ring[p] as int].link(dir.back())),
        forall|x: int|
            0 <= x < links.len() && !ring.contains(x as usize) ==> #[trigger] splice_out(
                links,
                dir,
                ring[p],
            )[x] == links[x],
        forall|x: int, other: Direction|
            0 <= x < links.len() && other != dir && other != dir.back() ==> #[trigger] splice_out(
                links,
                dir,
                ring[p],
            )[x].link(other) == links[x].link(other),
{
    let n = ring.len() as int;
    let m = ring[p];
    let a = if p == 0 { n - 1 } else { p - 1 };
    let b = if p + 1 < n { p + 1 } else { 0 };
    let prev = links[m as int].link(dir.back());
    let next = links[m as int].link(dir);
    assert(ring_next(ring, a) == m);
    assert(linked_at(links, ring, dir, a));
    assert(linked_at(links, ring, dir, p));
    assert(linked_at(links, ring, dir, b));
    assert(ring[a] == prev);
    assert(ring[b] == next);
    assert(prev != m && next != m);
    assert(ring.contains(ring[a]) && ring.contains(ring[b]));
    let out = splice_out(links, dir, m);
    let rest = ring.remove(p);
    ring.remove_ensures(p);
    assert(dir.back() != dir);
    assert(rest.no_duplicates()) by {
        assert forall|i: int, j: int|
            0 <= i < rest.len() && 0 <= j < rest.len() && i != j implies rest[i] != rest[j] by {
            let i2 = if i < p { i } else { i + 1 };
            let j2 = if j < p { j } else { j + 1 };
            assert(rest[i] == ring[i2]);
            assert(rest[j] == ring[j2]);
        }
    }
    assert forall|t: int| 0 <= t < rest.len() implies #[trigger] linked_at(out, rest, dir, t) by {
        let t2 = if t < p { t } else { t + 1 };
        let x = ring[t2];
        assert(linked_at(links, ring, dir, t2));
        assert(rest[t] == x);
        // The entry after x in the old ring, and in the new one.
        let u2 = if t2 + 1 < n { t2 + 1 } else { 0 };
        assert(ring_next(ring, t2) == ring[u2]);
        let u = if t + 1 < rest.len() { t + 1 } else { 0 };
        let v2 = if u < p { u } else { u + 1 };
        assert(ring_next(rest, t) == rest[u]);
        assert(rest[u] == ring[v2]);
        assert(linked_at(links, ring, dir, v2));
        assert(linked_at(links, ring, dir, u2));
        if t2 == a {
            // x is the entry before m: it now points past m.
            assert(v2 == b);
        } else {
            assert(u2 == v2);
            assert(ring[v2] != next) by {
                if ring[v2] == next {
                    assert(ring[v2] == ring[b]);
                }
            }
            assert(x != prev);
        }
    }
    assert(splice_in(out, dir, m) =~= links);
}

/// Following a ring from one of its entries and coming back, in either
/// order, ends at that entry.
pub proof fn lemma_ring_reciprocal(links: Seq<BaseNode>, ring: Seq<usize>, dir: Direction, x: usize)
    requires
        is_ring(links, ring, dir),
        ring.contains(x),
    ensures
        x < links.len(),
        links[x as int].link(dir) < links.len(),
        links[x as int].link(dir.back()) < links.len(),
        links[links[x as int].link(dir) as int].link(dir.back()) == x,
        links[links[x as int].link(dir.back()) as int].link(dir) == x,
{
    let n = ring.len() as int;
    let t = choose|t: int| 0 <= t < ring.len() && ring[t] == x;
    let before = if t == 0 { n - 1 } else { t - 1 };
    let after = if t + 1 < n { t + 1 } else { 0 };
    assert(linked_at(links, ring, dir, t));
    assert(linked_at(links, ring, dir, before));
    assert(linked_at(links, ring, dir, after));
    assert(ring_next(ring, before) == x);
}

/// A ring may be read from any of its entries.
pub proof fn lemma_ring_rotate(links: Seq<BaseNode>, ring: Seq<usize>, dir: Direction, p: int)
    requires
        is_ring(links, ring, dir),
        0 <= p < ring.len(),
    ensures
        is_ring(links, ring.skip(p) + ring.take(p), dir),
{
    let n = ring.len() as int;
    let rot = ring.skip(p) + ring.take(p);
    assert forall|t: int| 0 <= t < n implies #[trigger] rot[t] == (if t + p < n {
        ring[t + p]
    } else {
        ring[t + p - n]
    }) by {}
    assert(rot.no_duplicates()) by {
        assert forall|i: int, j: int| 0 <= i < n && 0 <= j < n && i != j implies rot[i] != rot[j] by {
            let a = if i + p < n { i + p } else { i + p - n };
            let b = if j + p < n { j + p } else { j + p - n };
            assert(rot[i] == ring[a]);
            assert(rot[j] == ring[b]);
        }
    }
    assert forall|t: int| 0 <= t < n implies #[trigger] linked_at(links, rot, dir, t) by {
        let a = if t + p < n { t + p } else { t + p - n };
        assert(rot[t] == ring[a]);
        let u = if t + 1 < n { t + 1 } else { 0 };
        let b = if u + p < n { u + p } else { u + p - n };
        assert(ring_next(rot, t) == rot[u]);
        assert(rot[u] == ring[b]);
        assert(ring_next(ring, a) == ring[b]);
        assert(linked_at(links, ring, dir, a));
    }
}

/// What making `from` and `to` neighbours does to every link of the arena.
pub proof fn lemma_attached(links: Seq<BaseNode>, dir: Direction, from: usize, to: usize)
    requires
        from < links.len(),
        to < links.len(),
    ensures
        attached(links, dir, from, to).len() == links.len(),
        forall|x: int, d: Direction|
            0 <= x < links.len() ==> #[trigger] attached(links, dir, from, to)[x].link(d) == (if x
                == from && d == dir {
                to
            } else if x == to && d == dir.back() {
                from
            } else {
                links[x].link(d)
            }),
{
    assert(dir.back() != dir);
}

/// An entry whose links point at itself is a ring of its own.
pub proof fn lemma_ring_single(links: Seq<BaseNode>, dir: Direction, x: usize)
    requires
        x < links.len(),
        links[x as int].link(dir) == x,
        links[x as int].link(dir.back()) == x,
    ensures
        is_ring(links, seq![x], dir),
{
    assert(linked_at(links, seq![x], dir, 0));
}

/// Linking a fresh entry between the last and the first entry of a ring
/// gives the ring with that entry at its end.
pub proof fn lemma_ring_push(links: Seq<BaseNode>, ring: Seq<usize>, dir: Direction, fresh: usize)
    requires
        is_ring(links, ring, dir),
        fresh < links.len(),
        !ring.contains(fresh),
    ensures
        is_ring(
            attached(attached(links, dir, ring.last(), fresh), dir, fresh, ring[0]),
            ring.push(fresh),
            dir,
        ),
{
    let n = ring.len() as int;
    let one = attached(links, dir, ring.last(), fresh);
    let two = attached(one, dir, fresh, ring[0]);
    let grown = ring.push(fresh);
    assert(dir.back() != dir);
    assert(grown.no_duplicates()) by {
        assert forall|i: int, j: int|
            0 <= i < grown.len() && 0 <= j < grown.len() && i != j implies grown[i] != grown[j] by {
            if i < n && j < n {
                assert(ring[i] != ring[j]);
            } else if i < n {
                assert(ring.contains(ring[i]));
            } else {
                assert(ring.contains(ring[j]));
            }
        }
    }
    assert(linked_at(links, ring, dir, 0));
    assert(linked_at(links, ring, dir, n - 1));
    assert forall|t: int| 0 <= t < grown.len() implies #[trigger] linked_at(two, grown, dir, t) by {
        if t < n {
            let x = ring[t];
            assert(ring.contains(x));
            assert(linked_at(links, ring, dir, t));
            assert(grown[t] == x);
            if t + 1 < n {
                assert(ring.contains(ring[t + 1]));
                assert(ring[t + 1] != ring[0]);
                assert(ring[t] != ring[n - 1]);
                assert(ring_next(grown, t) == ring[t + 1]);
                assert(linked_at(links, ring, dir, t + 1));
            } else {
                assert(ring_next(grown, t) == fresh);
            }
        } else {
            assert(ring.contains(ring[0]));
            assert(ring.contains(ring[n - 1]));
            assert(grown[t] == fresh);
            assert(ring_next(grown, t) == ring[0]);
        }
    }
}

} // verus!
