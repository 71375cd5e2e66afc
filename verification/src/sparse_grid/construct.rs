//! Building the rings of a grid from the coordinates of its ones.

use crate::grid::{indices, lemma_push_contains, strictly_ascending};
use crate::sparse_grid::base_node::{attached, BaseNode, Direction};
use crate::sparse_grid::ring::{
    lemma_attached, lemma_ring_bounded, lemma_ring_frame, lemma_ring_push, lemma_ring_single,
    linked_at,
};
use crate::sparse_grid::state::{
    column_ok, column_ring, column_sorted, header_ring, headers_ok, initial, present, row_linked,
    Column, GridState, Layout, Node,
};
use vstd::prelude::*;

verus! {

/// Puts `row` at its place in an ascending list, unless it is there already.
pub fn insert_sorted(bucket: &mut Vec<usize>, row: usize)
    requires
        strictly_ascending(old(bucket)@),
    ensures
        strictly_ascending(final(bucket)@),
        forall|x: usize| final(bucket)@.contains(x) <==> (old(bucket)@.contains(x) || x == row),
        final(bucket)@.len() <= old(bucket)@.len() + 1,
{
    let mut i: usize = bucket.len();
    while i > 0 && bucket[i - 1] > row
        invariant
            i <= bucket@.len(),
            bucket@ == old(bucket)@,
            forall|k: int| i <= k < bucket@.len() ==> row < #[trigger] bucket@[k],
        decreases i,
    {
        i -= 1;
    }
    if i > 0 && bucket[i - 1] == row {
        assert(bucket@.contains(row));
        return ;
    }
    let ghost before = bucket@;
    bucket.insert(i, row);
    proof {
        let after = bucket@;
        assert forall|a: int, b: int| 0 <= a < b < after.len() implies #[trigger] after[a]
            < #[trigger] after[b] by {
            let a2 = if a < i { a } else { a - 1 };
            let b2 = if b < i { b } else { b - 1 };
            if a != i && b != i {
                assert(before[a2] < before[b2]);
            } else if a == i {
                assert(after[b] == before[b - 1]);
            } else {
                assert(after[a] == before[a]);
                if a < i - 1 {
                    assert(before[a] < before[i - 1]);
                }
            }
        }
        assert forall|x: usize| after.contains(x) <==> (before.contains(x) || x == row) by {
            if after.contains(x) {
                let k = choose|k: int| 0 <= k < after.len() && after[k] == x;
                if k < i {
                    assert(before[k] == x);
                } else if k > i {
                    assert(before[k - 1] == x);
                }
            }
            if before.contains(x) {
                let k = choose|k: int| 0 <= k < before.len() && before[k] == x;
                if k < i {
                    assert(after[k] == x);
                } else {
                    assert(after[k + 1] == x);
                }
            }
            assert(after[i as int] == row);
        }
    }
}

/// The number of rows in the first `upto` buckets.
pub open spec fn total_len(buckets: Seq<Vec<usize>>, upto: int) -> nat
    decreases upto,
{
    if upto <= 0 {
        0
    } else {
        total_len(buckets, upto - 1) + buckets[upto - 1]@.len()
    }
}

/// Buckets that differ in one place differ in total by that bucket's length.
pub proof fn lemma_total_len_update(
    before: Seq<Vec<usize>>,
    after: Seq<Vec<usize>>,
    at: int,
    upto: int,
)
    requires
        0 <= at < before.len(),
        before.len() == after.len(),
        0 <= upto <= before.len(),
        forall|j: int| 0 <= j < before.len() && j != at ==> before[j] == after[j],
    ensures
        total_len(after, upto) == total_len(before, upto) + (if at < upto {
            after[at]@.len() - before[at]@.len()
        } else {
            0
        }),
    decreases upto,
{
    if upto > 0 {
        lemma_total_len_update(before, after, at, upto - 1);
    }
}

/// The total grows with the number of buckets counted.
pub proof fn lemma_total_len_monotonic(buckets: Seq<Vec<usize>>, a: int, b: int)
    requires
        0 <= a <= b,
    ensures
        total_len(buckets, a) <= total_len(buckets, b),
    decreases b,
{
    if a < b {
        lemma_total_len_monotonic(buckets, a, b - 1);
    }
}

/// Empty buckets hold no rows.
pub proof fn lemma_total_len_empty(buckets: Seq<Vec<usize>>, upto: int)
    requires
        0 <= upto <= buckets.len(),
        forall|k: int| 0 <= k < buckets.len() ==> (#[trigger] buckets[k])@.len() == 0,
    ensures
        total_len(buckets, upto) == 0,
    decreases upto,
{
    if upto > 0 {
        lemma_total_len_empty(buckets, upto - 1);
    }
}

/// The rows of every column, ascending and without repetition.
pub fn bucket_rows(num_columns: usize, coordinates: &Vec<(usize, usize)>) -> (buckets: Vec<
    Vec<usize>,
>)
    requires
        forall|i: int|
            0 <= i < coordinates@.len() ==> 1 <= (#[trigger] coordinates@[i]).1 <= num_columns,
    ensures
        buckets@.len() == num_columns,
        forall|j: int| 0 <= j < num_columns ==> strictly_ascending(#[trigger] buckets@[j]@),
        forall|j: int, r: usize|
            0 <= j < num_columns ==> (#[trigger] buckets@[j]@.contains(r) <==> coordinates@.contains(
                (r, (j + 1) as usize),
            )),
        total_len(buckets@, num_columns as int) <= coordinates@.len(),
{
    let mut buckets: Vec<Vec<usize>> = Vec::new();
    let mut j: usize = 0;
    while j < num_columns
        invariant
            j <= num_columns,
            buckets@.len() == j,
            forall|k: int| 0 <= k < j ==> (#[trigger] buckets@[k])@.len() == 0,
        decreases num_columns - j,
    {
        buckets.push(Vec::new());
        j += 1;
    }
    proof {
        lemma_total_len_empty(buckets@, num_columns as int);
    }
    let mut i: usize = 0;
    while i < coordinates.len()
        invariant
            i <= coordinates@.len(),
            buckets@.len() == num_columns,
            forall|k: int|
                0 <= k < coordinates@.len() ==> 1 <= (#[trigger] coordinates@[k]).1 <= num_columns,
            forall|j: int| 0 <= j < num_columns ==> strictly_ascending(#[trigger] buckets@[j]@),
            forall|j: int, r: usize|
                0 <= j < num_columns ==> (#[trigger] buckets@[j]@.contains(r) <==> coordinates@.take(
                    i as int,
                ).contains((r, (j + 1) as usize))),
            total_len(buckets@, num_columns as int) <= i,
        decreases coordinates@.len() - i,
    {
        let (row, column) = coordinates[i];
        let ghost before = buckets@;
        let ghost seen = coordinates@.take(i as int);
        insert_sorted(&mut buckets[column - 1], row);
        proof {
            lemma_total_len_update(before, buckets@, column - 1, num_columns as int);
            let now = coordinates@.take(i + 1);
            assert(now =~= seen.push((row, column)));
            assert forall|j: int, r: usize| 0 <= j < num_columns implies (
            #[trigger] buckets@[j]@.contains(r) <==> now.contains((r, (j + 1) as usize))) by {
                let pair = (r, (j + 1) as usize);
                assert(before[j]@.contains(r) <==> seen.contains(pair));
                if now.contains(pair) {
                    let k = choose|k: int| 0 <= k < now.len() && now[k] == pair;
                    if k < seen.len() {
                        assert(seen[k] == pair);
                    }
                }
                if seen.contains(pair) {
                    let k = choose|k: int| 0 <= k < seen.len() && seen[k] == pair;
                    assert(now[k] == pair);
                }
                assert(now[i as int] == (row, column));
            }
        }
        i += 1;
    }
    proof {
        assert(coordinates@.take(i as int) =~= coordinates@);
    }
    buckets
}

/// The layout after one more entry, at `(row, column)`, has been added.
pub open spec fn grown_layout(l: Layout, row: usize, column: usize) -> Layout {
    Layout {
        nodes: l.nodes.push(Node { row, column }),
        row_ring: l.row_ring.update(
            row as int,
            l.row_ring[row as int].push(l.nodes.len() as usize),
        ),
        row_pos: l.row_pos.push(l.row_ring[row as int].len() as int),
        ..l
    }
}

/// The links after one more entry has been added below the last entry of
/// its column and to the right of the last entry of its row.
pub open spec fn grown_links(l: Layout, s: GridState, row: usize, column: usize) -> Seq<BaseNode> {
    let id = l.nodes.len() as usize;
    let alone = s.links.push(BaseNode { left: id, right: id, up: id, down: id });
    let above = s.links[column as int].up;
    let hung = attached(
        attached(alone, Direction::Down, above, id),
        Direction::Down,
        id,
        column,
    );
    let ring = l.row_ring[row as int];
    if ring.len() == 0 {
        hung
    } else {
        attached(
            attached(hung, Direction::Right, ring.last(), id),
            Direction::Right,
            id,
            ring[0],
        )
    }
}

/// The state after one more entry has been added.
pub open spec fn grown_state(l: Layout, s: GridState, row: usize, column: usize) -> GridState {
    GridState {
        links: grown_links(l, s, row, column),
        columns: s.columns.update(
            column as int,
            Column { size: (s.columns[column as int].size + 1) as usize, ..s.columns[column as int] },
        ),
        lists: s.lists.update(
            column as int,
            s.lists[column as int].push(l.nodes.len() as usize),
        ),
        headers: s.headers,
    }
}

/// `(row, column)` comes after every entry of the layout, columns first.
pub open spec fn comes_next(l: Layout, row: usize, column: usize) -> bool {
    &&& 1 <= row <= l.num_rows
    &&& l.is_column(column)
    &&& forall|x: usize|
        l.is_node(x) ==> (#[trigger] l.col(x) < column || (l.col(x) == column && l.row(x) < row))
}

/// Adding the entry that comes next keeps the layout and the rings in order.
pub proof fn lemma_grow(l: Layout, s: GridState, row: usize, column: usize)
    requires
        l.ok(),
        initial(l, s),
        comes_next(l, row, column),
        l.nodes.len() < usize::MAX,
    ensures
        grown_layout(l, row, column).ok(),
        initial(grown_layout(l, row, column), grown_state(l, s, row, column)),
        s.columns[column as int].size < l.nodes.len(),
        s.links[column as int].up < s.links.len(),
        l.row_ring[row as int].len() > 0 ==> l.row_ring[row as int].last() < s.links.len()
            && l.row_ring[row as int][0] < s.links.len(),
{
    let id = l.nodes.len() as usize;
    let l2 = grown_layout(l, row, column);
    let s2 = grown_state(l, s, row, column);
    let alone = s.links.push(BaseNode { left: id, right: id, up: id, down: id });
    let above = s.links[column as int].up;
    let hung_half = attached(alone, Direction::Down, above, id);
    let hung = attached(hung_half, Direction::Down, id, column);
    let ring = l.row_ring[row as int];
    let list = s.lists[column as int];
    let cring = column_ring(s, column as int);
    let done = s2.links;
    assert(column_ok(l, s, column as int));
    assert(l.row_ok(row as int));
    assert(row_linked(l, s, row as int));
    assert(linked_at(s.links, cring, Direction::Down, cring.len() - 1));
    assert(cring.last() == above);
    lemma_ring_bounded(s.links, cring, Direction::Down);
    if ring.len() > 0 {
        assert(linked_at(s.links, ring, Direction::Right, 0));
        assert(linked_at(s.links, ring, Direction::Right, ring.len() - 1));
        assert(l.is_node(ring[0]));
        assert(l.is_node(ring[ring.len() - 1]));
    }
    lemma_attached(alone, Direction::Down, above, id);
    lemma_attached(hung_half, Direction::Down, id, column);
    if ring.len() > 0 {
        let tied_half = attached(hung, Direction::Right, ring.last(), id);
        lemma_attached(hung, Direction::Right, ring.last(), id);
        lemma_attached(tied_half, Direction::Right, id, ring[0]);
    }
    // What has changed among the links of the old entries.
    assert forall|x: int, d: Direction| 0 <= x < s.links.len() implies #[trigger] done[x].link(d)
        == (if x == above && d == Direction::Down {
        id
    } else if x == column && d == Direction::Up {
        id
    } else if ring.len() > 0 && x == ring.last() && d == Direction::Right {
        id
    } else if ring.len() > 0 && x == ring[0] && d == Direction::Left {
        id
    } else {
        s.links[x].link(d)
    }) by {
        assert(alone[x] == s.links[x]);
        assert(hung_half[x].link(d) == if x == above && d == Direction::Down {
            id
        } else {
            alone[x].link(d)
        });
        assert(hung[x].link(d) == if x == column && d == Direction::Up {
            id
        } else {
            hung_half[x].link(d)
        });
        if ring.len() > 0 {
            let tied_half = attached(hung, Direction::Right, ring.last(), id);
            assert(tied_half[x].link(d) == if x == ring.last() && d == Direction::Right {
                id
            } else {
                hung[x].link(d)
            });
            assert(done[x].link(d) == if x == ring[0] && d == Direction::Left {
                id
            } else {
                tied_half[x].link(d)
            });
        }
    }
    // The layout.
    assert forall|h: usize| h <= l2.num_columns implies #[trigger] l2.header_ok(h) by {
        assert(l.header_ok(h));
    }
    assert forall|x: usize| l2.is_node(x) implies #[trigger] l2.node_ok(x) by {
        if x < id {
            assert(l.node_ok(x));
        }
    }
    assert forall|r: int| 1 <= r <= l2.num_rows implies #[trigger] l2.row_ok(r) by {
        assert(l.row_ok(r));
        let old_ring = l.row_ring[r];
        let new_ring = l2.row_ring[r];
        assert forall|t: int| 0 <= t < new_ring.len() implies l2.is_node(#[trigger] new_ring[t])
            && l2.row(new_ring[t]) == r by {
            if t < old_ring.len() {
                assert(l.is_node(old_ring[t]));
            }
        }
        assert forall|t: int, u: int| 0 <= t < u < new_ring.len() implies l2.col(
            #[trigger] new_ring[t],
        ) < l2.col(#[trigger] new_ring[u]) by {
            assert(l.is_node(old_ring[t]));
            if u < old_ring.len() {
                assert(l.is_node(old_ring[u]));
                assert(l.col(old_ring[t]) < l.col(old_ring[u]));
            } else {
                assert(l.col(old_ring[t]) < column || (l.col(old_ring[t]) == column && l.row(
                    old_ring[t],
                ) < row));
            }
        }
    }
    // The columns.
    assert forall|i: int| 1 <= i <= l2.num_columns implies #[trigger] column_ok(l2, s2, i) by {
        assert(column_ok(l, s, i));
        let old_list = s.lists[i];
        let new_list = s2.lists[i];
        assert(column_sorted(l2, new_list, i)) by {
            assert forall|k: int| 0 <= k < new_list.len() implies l2.is_node(
                #[trigger] new_list[k],
            ) && l2.col(new_list[k]) == i by {
                if k < old_list.len() {
                    assert(l.is_node(old_list[k]));
                }
            }
            assert forall|k: int, m: int| 0 <= k < m < new_list.len() implies l2.row(
                #[trigger] new_list[k],
            ) < l2.row(#[trigger] new_list[m]) by {
                assert(l.is_node(old_list[k]));
                if m < old_list.len() {
                    assert(l.is_node(old_list[m]));
                    assert(l.row(old_list[k]) < l.row(old_list[m]));
                } else {
                    assert(l.col(old_list[k]) < column || (l.col(old_list[k]) == column && l.row(
                        old_list[k],
                    ) < row));
                }
            }
        }
        let old_ring = column_ring(s, i);
        if i == column {
            lemma_ring_frame(s.links, alone, old_ring, Direction::Down);
            assert(!old_ring.contains(id)) by {
                if old_ring.contains(id) {
                    let t = choose|t: int| 0 <= t < old_ring.len() && old_ring[t] == id;
                    assert(linked_at(s.links, old_ring, Direction::Down, t));
                }
            }
            lemma_ring_push(alone, old_ring, Direction::Down, id);
            let new_ring = old_ring.push(id);
            assert(new_ring =~= column_ring(s2, i));
            assert forall|t: int| 0 <= t < new_ring.len() implies {
                let x = #[trigger] new_ring[t];
                &&& done[x as int].link(Direction::Down) == hung[x as int].link(Direction::Down)
                &&& done[x as int].link(Direction::Down.back()) == hung[x as int].link(
                    Direction::Down.back(),
                )
            } by {}
            lemma_ring_frame(hung, done, new_ring, Direction::Down);
        } else {
            assert(column_ring(s2, i) =~= old_ring);
            assert forall|t: int| 0 <= t < old_ring.len() implies {
                let x = #[trigger] old_ring[t];
                &&& done[x as int].link(Direction::Down) == s.links[x as int].link(Direction::Down)
                &&& done[x as int].link(Direction::Down.back()) == s.links[x as int].link(
                    Direction::Down.back(),
                )
            } by {
                let x = old_ring[t];
                assert(linked_at(s.links, old_ring, Direction::Down, t));
                if t == 0 {
                    assert(x == i);
                } else {
                    assert(x == old_list[t - 1]);
                    assert(l.is_node(x) && l.col(x) == i);
                }
                if cring.len() > 1 {
                    assert(above == list[list.len() - 1]);
                    assert(l.is_node(list[list.len() - 1]) && l.col(list[list.len() - 1]) == column);
                } else {
                    assert(above == column);
                }
            }
            lemma_ring_frame(s.links, done, old_ring, Direction::Down);
        }
    }
    // The header ring.
    assert(headers_ok(l2, s2)) by {
        let hr = header_ring(s);
        assert(header_ring(s2) =~= hr);
        assert forall|t: int| 0 <= t < hr.len() implies {
            let x = #[trigger] hr[t];
            &&& done[x as int].link(Direction::Right) == s.links[x as int].link(Direction::Right)
            &&& done[x as int].link(Direction::Right.back()) == s.links[x as int].link(
                Direction::Right.back(),
            )
        } by {
            let x = hr[t];
            assert(linked_at(s.links, hr, Direction::Right, t));
            if t > 0 {
                assert(x == s.headers[t - 1]);
                assert(l.is_column(x));
            }
        }
        lemma_ring_frame(s.links, done, hr, Direction::Right);
        assert forall|c: usize| l2.is_column(c) implies (s2.headers.contains(c) <==> !(
        #[trigger] s2.columns[c as int]).is_covered) by {
            assert(s.headers.contains(c) <==> !s.columns[c as int].is_covered);
        }
    }
    // The rows.
    assert forall|r: int| 1 <= r <= l2.num_rows implies #[trigger] row_linked(l2, s2, r) by {
        assert(row_linked(l, s, r));
        assert(l.row_ok(r));
        let old_ring = l.row_ring[r];
        if r == row {
            if ring.len() == 0 {
                assert(l2.row_ring[r] =~= seq![id]);
                lemma_ring_single(done, Direction::Right, id);
            } else {
                assert forall|t: int| 0 <= t < ring.len() implies {
                    let x = #[trigger] ring[t];
                    &&& hung[x as int].link(Direction::Right) == s.links[x as int].link(
                        Direction::Right,
                    )
                    &&& hung[x as int].link(Direction::Right.back()) == s.links[x as int].link(
                        Direction::Right.back(),
                    )
                } by {
                    assert(linked_at(s.links, ring, Direction::Right, t));
                }
                lemma_ring_frame(s.links, hung, ring, Direction::Right);
                assert(!ring.contains(id)) by {
                    if ring.contains(id) {
                        let t = choose|t: int| 0 <= t < ring.len() && ring[t] == id;
                        assert(l.is_node(ring[t]));
                    }
                }
                lemma_ring_push(hung, ring, Direction::Right, id);
                assert(l2.row_ring[r] =~= ring.push(id));
            }
        } else if old_ring.len() > 0 {
            assert forall|t: int| 0 <= t < old_ring.len() implies {
                let x = #[trigger] old_ring[t];
                &&& done[x as int].link(Direction::Right) == s.links[x as int].link(
                    Direction::Right,
                )
                &&& done[x as int].link(Direction::Right.back()) == s.links[x as int].link(
                    Direction::Right.back(),
                )
            } by {
                let x = old_ring[t];
                assert(linked_at(s.links, old_ring, Direction::Right, t));
                assert(l.is_node(x) && l.row(x) == r);
            }
            lemma_ring_frame(s.links, done, old_ring, Direction::Right);
        }
    }
    assert forall|x: usize| l2.is_node(x) implies #[trigger] present(l2, s2, x) by {
        if x < id {
            assert(present(l, s, x));
            assert(l.node_ok(x));
            lemma_push_contains(list, id, x);
        } else {
            lemma_push_contains(list, id, x);
        }
    }
    assert forall|c: usize| l2.is_column(c) implies !(#[trigger] s2.columns[c as int]).is_covered by {
        assert(!s.columns[c as int].is_covered);
    }
}

/// The ones of the grown layout are the old ones and the new entry.
pub proof fn lemma_grown_ones(l: Layout, row: usize, column: usize)
    requires
        l.nodes.len() > l.num_columns,
        l.nodes.len() < usize::MAX,
        row < l.row_ring.len(),
    ensures
        forall|r: usize, c: usize|
            #[trigger] grown_layout(l, row, column).ones().contains((r, c)) <==> (l.ones().contains(
                (r, c),
            ) || (r == row && c == column)),
        forall|x: usize|
            #[trigger] grown_layout(l, row, column).is_node(x) <==> (l.is_node(x) || x
                == l.nodes.len()),
        forall|x: usize|
            l.is_node(x) ==> grown_layout(l, row, column).row(x) == l.row(x) && #[trigger] grown_layout(
                l,
                row,
                column,
            ).col(x) == l.col(x),
        grown_layout(l, row, column).row(l.nodes.len() as usize) == row,
        grown_layout(l, row, column).col(l.nodes.len() as usize) == column,
{
    let l2 = grown_layout(l, row, column);
    let id = l.nodes.len() as usize;
    assert forall|r: usize, c: usize| #[trigger]
        l2.ones().contains((r, c)) <==> (l.ones().contains((r, c)) || (r == row && c
            == column)) by {
        if l2.ones().contains((r, c)) {
            let x = choose|x: usize| l2.is_node(x) && l2.row(x) == r && l2.col(x) == c;
            if x < id {
                assert(l.is_node(x) && l.row(x) == r && l.col(x) == c);
            }
        }
        if l.ones().contains((r, c)) {
            let x = choose|x: usize| l.is_node(x) && l.row(x) == r && l.col(x) == c;
            assert(l2.is_node(x) && l2.row(x) == r && l2.col(x) == c);
        }
        if r == row && c == column {
            assert(l2.is_node(id) && l2.row(id) == r && l2.col(id) == c);
        }
    }
}

/// The tables name the first and the last entry of row `r`, if it has one.
pub open spec fn row_table_ok(l: Layout, first: Seq<usize>, last: Seq<usize>, r: int) -> bool {
    let ring = l.row_ring[r];
    if ring.len() == 0 {
        first[r] == 0
    } else {
        first[r] == ring[0] && last[r] == ring.last()
    }
}

/// The vectors of a grid under construction hold the rings of `s`, in which
/// nothing is covered, and the tables name the ends of every row.
pub open spec fn building(
    l: Layout,
    s: GridState,
    links: Seq<BaseNode>,
    nodes: Seq<Node>,
    columns: Seq<Column>,
    first: Seq<usize>,
    last: Seq<usize>,
) -> bool {
    &&& l.ok()
    &&& initial(l, s)
    &&& links == s.links
    &&& columns == s.columns
    &&& nodes == l.nodes
    &&& first.len() == l.num_rows + 1
    &&& last.len() == l.num_rows + 1
    &&& forall|r: int| 1 <= r <= l.num_rows ==> #[trigger] row_table_ok(l, first, last, r)
}

/// Adds the entry at `(row, column)` to the arena, below the last entry of
/// its column and to the right of the last entry of its row.
pub(crate) fn append_entry(
    links: &mut Vec<BaseNode>,
    nodes: &mut Vec<Node>,
    columns: &mut Vec<Column>,
    first_in_row: &mut Vec<usize>,
    last_in_row: &mut Vec<usize>,
    row: usize,
    column: usize,
    Ghost(l): Ghost<Layout>,
    Ghost(s): Ghost<GridState>,
)
    requires
        building(
            l,
            s,
            old(links)@,
            old(nodes)@,
            old(columns)@,
            old(first_in_row)@,
            old(last_in_row)@,
        ),
        comes_next(l, row, column),
        old(links)@.len() < usize::MAX,
    ensures
        building(
            grown_layout(l, row, column),
            grown_state(l, s, row, column),
            final(links)@,
            final(nodes)@,
            final(columns)@,
            final(first_in_row)@,
            final(last_in_row)@,
        ),
{
    proof {
        lemma_grow(l, s, row, column);
        assert(l.row_ok(row as int));
        assert(row_table_ok(l, first_in_row@, last_in_row@, row as int));
        assert(column_ok(l, s, column as int));
    }
    let id = links.len();
    let mut base = BaseNode::new();
    base.set_self_ptr(id);
    links.push(base);
    nodes.push(Node { row, column });
    let above = links[column].up;
    BaseNode::add_below(links, above, id);
    BaseNode::add_below(links, id, column);
    let mut header = columns[column];
    header.size = header.size + 1;
    columns.set(column, header);
    let first = first_in_row[row];
    if first == 0 {
        proof {
            if l.row_ring[row as int].len() > 0 {
                assert(l.is_node(l.row_ring[row as int][0]));
            }
        }
        first_in_row.set(row, id);
    } else {
        let last = last_in_row[row];
        BaseNode::add_right(links, last, id);
        BaseNode::add_right(links, id, first);
    }
    last_in_row.set(row, id);
    proof {
        let l2 = grown_layout(l, row, column);
        assert forall|r: int| 1 <= r <= l2.num_rows implies #[trigger] row_table_ok(
            l2,
            first_in_row@,
            last_in_row@,
            r,
        ) by {
            assert(row_table_ok(l, old(first_in_row)@, old(last_in_row)@, r));
        }
    }
}

/// The layout of a grid with `num_columns` columns, rows up to `num_rows`
/// and no entries.
pub open spec fn empty_layout(num_columns: usize, num_rows: usize) -> Layout {
    Layout {
        num_columns: num_columns as nat,
        num_rows: num_rows as nat,
        nodes: Seq::new((num_columns + 1) as nat, |i: int| Node { row: 0, column: i as usize }),
        row_ring: Seq::new((num_rows + 1) as nat, |r: int| Seq::empty()),
        row_pos: Seq::new((num_columns + 1) as nat, |i: int| 0int),
    }
}

/// The links of the header `i` of an empty grid.
pub open spec fn header_links(num_columns: usize, i: int) -> BaseNode {
    BaseNode {
        left: if i == 0 {
            num_columns
        } else {
            (i - 1) as usize
        },
        right: if i == num_columns {
            0
        } else {
            (i + 1) as usize
        },
        up: i as usize,
        down: i as usize,
    }
}

/// The rings of a grid with `num_columns` columns and no entries.
pub open spec fn empty_state(num_columns: usize) -> GridState {
    GridState {
        links: Seq::new((num_columns + 1) as nat, |i: int| header_links(num_columns, i)),
        columns: Seq::new(
            (num_columns + 1) as nat,
            |i: int| Column { size: 0, index: i as usize, is_covered: false },
        ),
        lists: Seq::new((num_columns + 1) as nat, |i: int| Seq::empty()),
        headers: indices(num_columns as nat),
    }
}

/// The headers alone form a grid in which nothing is covered.
pub proof fn lemma_empty(num_columns: usize, num_rows: usize)
    requires
        num_columns < usize::MAX,
    ensures
        empty_layout(num_columns, num_rows).ok(),
        initial(empty_layout(num_columns, num_rows), empty_state(num_columns)),
{
    let l = empty_layout(num_columns, num_rows);
    let s = empty_state(num_columns);
    assert forall|h: usize| h <= l.num_columns implies #[trigger] l.header_ok(h) by {}
    assert forall|r: int| 1 <= r <= l.num_rows implies #[trigger] l.row_ok(r) by {}
    assert forall|j: int| 1 <= j <= l.num_columns implies #[trigger] column_ok(l, s, j) by {
        assert(column_ring(s, j) =~= seq![j as usize]);
        lemma_ring_single(s.links, Direction::Down, j as usize);
    }
    assert(headers_ok(l, s)) by {
        let hr = header_ring(s);
        assert forall|t: int| 0 <= t < hr.len() implies #[trigger] hr[t] == t by {
            if t > 0 {
                assert(hr[t] == s.headers[t - 1]);
            }
        }
        assert forall|t: int| 0 <= t < hr.len() implies #[trigger] linked_at(
            s.links,
            hr,
            Direction::Right,
            t,
        ) by {
            assert(hr[t] == t);
            if t + 1 < hr.len() {
                assert(hr[t + 1] == t + 1);
            } else {
                assert(hr[0] == 0);
            }
        }
        assert(hr.no_duplicates()) by {
            assert forall|i: int, j: int|
                0 <= i < hr.len() && 0 <= j < hr.len() && i != j implies hr[i] != hr[j] by {
                assert(hr[i] == i);
                assert(hr[j] == j);
            }
        }
        assert forall|c: usize| l.is_column(c) implies (s.headers.contains(c) <==> !(
        #[trigger] s.columns[c as int]).is_covered) by {
            assert(s.headers[c - 1] == c);
        }
    }
    assert forall|r: int| 1 <= r <= l.num_rows implies #[trigger] row_linked(l, s, r) by {}
}

/// The headers of a grid with `num_columns` columns, linked into a ring in
/// index order behind the root sentinel.
pub fn header_arena(num_columns: usize) -> (arena: (Vec<BaseNode>, Vec<Node>, Vec<Column>))
    requires
        num_columns < usize::MAX,
    ensures
        arena.0@ == empty_state(num_columns).links,
        arena.1@ == empty_layout(num_columns, 0).nodes,
        arena.2@ == empty_state(num_columns).columns,
{
    let mut links: Vec<BaseNode> = Vec::new();
    let mut nodes: Vec<Node> = Vec::new();
    let mut columns: Vec<Column> = Vec::new();
    let mut i: usize = 0;
    while i <= num_columns
        invariant
            num_columns < usize::MAX,
            i <= num_columns + 1,
            links@.len() == i,
            nodes@.len() == i,
            columns@.len() == i,
            forall|k: int| 0 <= k < i ==> #[trigger] links@[k] == header_links(num_columns, k),
            forall|k: int| 0 <= k < i ==> #[trigger] nodes@[k] == (Node { row: 0, column: k as usize }),
            forall|k: int|
                0 <= k < i ==> #[trigger] columns@[k] == (Column {
                    size: 0,
                    index: k as usize,
                    is_covered: false,
                }),
        decreases num_columns + 1 - i,
    {
        let mut base = BaseNode::new();
        base.set_self_ptr(i);
        base.left = if i == 0 { num_columns } else { i - 1 };
        base.right = if i == num_columns { 0 } else { i + 1 };
        links.push(base);
        nodes.push(Node { row: 0, column: i });
        columns.push(Column { size: 0, index: i, is_covered: false });
        i += 1;
    }
    proof {
        assert(links@ =~= empty_state(num_columns).links);
        assert(nodes@ =~= empty_layout(num_columns, 0).nodes);
        assert(columns@ =~= empty_state(num_columns).columns);
    }
    (links, nodes, columns)
}

/// A table with one zero for every row index up to `num_rows`.
pub fn row_table(num_rows: usize) -> (table: Vec<usize>)
    requires
        num_rows < usize::MAX,
    ensures
        table@.len() == num_rows + 1,
        forall|r: int| 0 <= r <= num_rows ==> #[trigger] table@[r] == 0,
{
    let mut table: Vec<usize> = Vec::new();
    let mut r: usize = 0;
    while r <= num_rows
        invariant
            num_rows < usize::MAX,
            r <= num_rows + 1,
            table@.len() == r,
            forall|k: int| 0 <= k < r ==> #[trigger] table@[k] == 0,
        decreases num_rows + 1 - r,
    {
        table.push(0);
        r += 1;
    }
    table
}

} // verus!
