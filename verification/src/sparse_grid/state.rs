//! The abstract state of the linked grid: which entries stand in which
//! ring, and how covering a column changes that.

use crate::sparse_grid::base_node::{
    is_closed, splice_in, splice_out, walk, without, BaseNode, Direction,
};
use crate::sparse_grid::ring::{
    is_ring, lemma_ring_frame, lemma_ring_rotate, lemma_ring_walk, lemma_ring_walk_back,
    lemma_splice_out, linked_at,
};
use crate::grid::lemma_push_contains;
use vstd::prelude::*;

verus! {

/// What the grid knows of one arena entry besides its links.
///
/// For a matrix entry these are its coordinates. A column header has row 0
/// and its own index as column; the root sentinel has both 0.
#[derive(Clone, Copy, Debug, PartialEq, Eq, Hash)]
pub struct Node {
    pub row: usize,
    pub column: usize,
}

/// The bookkeeping of one column header.
#[derive(Clone, Copy, Debug, PartialEq, Eq, Hash)]
pub struct Column {
    /// Number of entries that stand in the column's ring.
    pub size: usize,
    /// The column's index; 0 for the root sentinel.
    pub index: usize,
    /// Whether the column is out of the header ring.
    pub is_covered: bool,
}

/// The part of a grid that never changes once it is built.
pub struct Layout {
    /// Number of columns; their headers are the arena entries `1..=num_columns`.
    pub num_columns: nat,
    /// The largest row index.
    pub num_rows: nat,
    /// Coordinates of every arena entry.
    pub nodes: Seq<Node>,
    /// For every row index, the row's entries by ascending column.
    pub row_ring: Seq<Seq<usize>>,
    /// For every arena entry, its position in the ring of its row.
    pub row_pos: Seq<int>,
}

impl Layout {
    /// `x` is an entry of the matrix, not a header.
    pub open spec fn is_node(self, x: usize) -> bool {
        self.num_columns < x < self.nodes.len()
    }

    /// `c` is a column index.
    pub open spec fn is_column(self, c: usize) -> bool {
        1 <= c <= self.num_columns
    }

    pub open spec fn row(self, x: usize) -> usize {
        self.nodes[x as int].row
    }

    pub open spec fn col(self, x: usize) -> usize {
        self.nodes[x as int].column
    }

    /// The header `h` carries row 0 and its own index.
    pub open spec fn header_ok(self, h: usize) -> bool {
        self.row(h) == 0 && self.col(h) == h
    }

    /// The entry `x` has coordinates inside the matrix and stands in the
    /// ring of its row at the recorded position.
    pub open spec fn node_ok(self, x: usize) -> bool {
        &&& 1 <= self.row(x) <= self.num_rows
        &&& self.is_column(self.col(x))
        &&& 0 <= self.row_pos[x as int] < self.row_ring[self.row(x) as int].len()
        &&& self.row_ring[self.row(x) as int][self.row_pos[x as int]] == x
    }

    /// The ring of row `r` holds entries of that row only, by strictly
    /// ascending column.
    pub open spec fn row_ok(self, r: int) -> bool {
        let ring = self.row_ring[r];
        &&& forall|t: int|
            0 <= t < ring.len() ==> self.is_node(#[trigger] ring[t]) && self.row(ring[t]) == r
        &&& forall|t: int, u: int|
            0 <= t < u < ring.len() ==> self.col(#[trigger] ring[t]) < self.col(#[trigger] ring[u])
    }

    pub open spec fn ok(self) -> bool {
        &&& self.nodes.len() > self.num_columns
        &&& self.row_ring.len() == self.num_rows + 1
        &&& self.row_pos.len() == self.nodes.len()
        &&& forall|h: usize| h <= self.num_columns ==> #[trigger] self.header_ok(h)
        &&& forall|x: usize| self.is_node(x) ==> #[trigger] self.node_ok(x)
        &&& forall|r: int| 1 <= r <= self.num_rows ==> #[trigger] self.row_ok(r)
    }

    /// The ones of the matrix: the coordinates of its entries.
    pub open spec fn ones(self) -> Set<(usize, usize)> {
        Set::new(
            |rc: (usize, usize)|
                exists|x: usize| self.is_node(x) && self.row(x) == rc.0 && self.col(x) == rc.1,
        )
    }
}

/// `list` holds entries of column `j` only, by strictly ascending row.
pub open spec fn column_sorted(l: Layout, list: Seq<usize>, j: int) -> bool {
    &&& forall|k: int| 0 <= k < list.len() ==> l.is_node(#[trigger] list[k]) && l.col(list[k]) == j
    &&& forall|k: int, m: int|
        0 <= k < m < list.len() ==> l.row(#[trigger] list[k]) < l.row(#[trigger] list[m])
}

/// Column indices by strictly ascending value.
pub open spec fn ascending(s: Seq<usize>) -> bool {
    forall|k: int, m: int| 0 <= k < m < s.len() ==> #[trigger] s[k] < #[trigger] s[m]
}

/// Everything about a grid that covering and uncovering change, together
/// with the rings that the links form.
pub struct GridState {
    /// The links of every arena entry.
    pub links: Seq<BaseNode>,
    /// The bookkeeping of every header, the root sentinel first.
    pub columns: Seq<Column>,
    /// For every column, the entries that stand in its ring, top to bottom.
    pub lists: Seq<Seq<usize>>,
    /// The columns that stand in the header ring, left to right.
    pub headers: Seq<usize>,
}

/// The ring of column `j`: its header, then its entries top to bottom.
pub open spec fn column_ring(s: GridState, j: int) -> Seq<usize> {
    seq![j as usize] + s.lists[j]
}

/// The header ring: the root sentinel, then the uncovered columns.
pub open spec fn header_ring(s: GridState) -> Seq<usize> {
    seq![0usize] + s.headers
}

/// Column `j` is a sorted ring whose length its header records.
pub open spec fn column_ok(l: Layout, s: GridState, j: int) -> bool {
    &&& column_sorted(l, s.lists[j], j)
    &&& is_ring(s.links, column_ring(s, j), Direction::Down)
    &&& s.columns[j].size == s.lists[j].len()
    &&& s.columns[j].index == j
}

/// The header ring holds exactly the columns that are not covered.
pub open spec fn headers_ok(l: Layout, s: GridState) -> bool {
    &&& is_ring(s.links, header_ring(s), Direction::Right)
    &&& ascending(s.headers)
    &&& forall|k: int| 0 <= k < s.headers.len() ==> l.is_column(#[trigger] s.headers[k])
    &&& forall|c: usize|
        l.is_column(c) ==> (s.headers.contains(c) <==> !(#[trigger] s.columns[c as int]).is_covered)
}

/// The row ring of row `r`, if the row has entries, is a ring of the arena.
pub open spec fn row_linked(l: Layout, s: GridState, r: int) -> bool {
    l.row_ring[r].len() > 0 ==> is_ring(s.links, l.row_ring[r], Direction::Right)
}

/// The links of `s` form the rings that `s` names; the root sentinel has no
/// ring above or below it.
pub open spec fn valid(l: Layout, s: GridState) -> bool {
    &&& s.links.len() == l.nodes.len()
    &&& s.links[0].up == 0
    &&& s.links[0].down == 0
    &&& s.columns.len() == l.num_columns + 1
    &&& s.lists.len() == l.num_columns + 1
    &&& forall|j: int| 1 <= j <= l.num_columns ==> #[trigger] column_ok(l, s, j)
    &&& headers_ok(l, s)
    &&& forall|r: int| 1 <= r <= l.num_rows ==> #[trigger] row_linked(l, s, r)
}

/// The state after entry `m` has left the ring of its column.
pub open spec fn unlink_node(l: Layout, s: GridState, m: usize) -> GridState {
    let j = l.col(m) as int;
    GridState {
        links: splice_out(s.links, Direction::Down, m),
        columns: s.columns.update(
            j,
            Column { size: (s.columns[j].size - 1) as usize, ..s.columns[j] },
        ),
        lists: s.lists.update(j, s.lists[j].remove(s.lists[j].index_of(m))),
        headers: s.headers,
    }
}

/// The state after column `c` has left the header ring.
pub open spec fn hide_column(s: GridState, c: usize) -> GridState {
    GridState {
        links: splice_out(s.links, Direction::Right, c),
        columns: s.columns.update(c as int, Column { is_covered: true, ..s.columns[c as int] }),
        lists: s.lists,
        headers: s.headers.remove(s.headers.index_of(c)),
    }
}

/// Taking an entry out of a sorted list leaves a sorted list that holds
/// the other entries.
pub proof fn lemma_sorted_remove(l: Layout, list: Seq<usize>, j: int, k: int)
    requires
        column_sorted(l, list, j),
        0 <= k < list.len(),
    ensures
        column_sorted(l, list.remove(k), j),
        !list.remove(k).contains(list[k]),
        forall|x: usize| x != list[k] ==> (list.remove(k).contains(x) <==> list.contains(x)),
{
    let rest = list.remove(k);
    list.remove_ensures(k);
    assert forall|i: int| 0 <= i < rest.len() implies rest[i] == list[if i < k {
        i
    } else {
        i + 1
    }] by {}
    assert forall|i: int| 0 <= i < rest.len() implies l.is_node(#[trigger] rest[i]) && l.col(
        rest[i],
    ) == j by {
        let i2 = if i < k { i } else { i + 1 };
        assert(rest[i] == list[i2]);
    }
    assert forall|a: int, b: int| 0 <= a < b < rest.len() implies l.row(#[trigger] rest[a]) < l.row(
        #[trigger] rest[b],
    ) by {
        let a2 = if a < k { a } else { a + 1 };
        let b2 = if b < k { b } else { b + 1 };
        assert(rest[a] == list[a2]);
        assert(rest[b] == list[b2]);
    }
    if rest.contains(list[k]) {
        let i = choose|i: int| 0 <= i < rest.len() && rest[i] == list[k];
        let i2 = if i < k { i } else { i + 1 };
        assert(rest[i] == list[i2]);
        if i2 < k {
            assert(l.row(list[i2]) < l.row(list[k]));
        } else {
            assert(l.row(list[k]) < l.row(list[i2]));
        }
    }
    assert forall|x: usize| x != list[k] implies (rest.contains(x) <==> list.contains(x)) by {
        if rest.contains(x) {
            let i = choose|i: int| 0 <= i < rest.len() && rest[i] == x;
            let i2 = if i < k { i } else { i + 1 };
            assert(rest[i] == list[i2]);
        }
        if list.contains(x) {
            let i = choose|i: int| 0 <= i < list.len() && list[i] == x;
            let i2 = if i < k { i } else { i - 1 };
            assert(rest[i2] == list[i]);
        }
    }
}

/// An entry of a sorted list stands at the position that `index_of` names.
pub proof fn lemma_index_of(list: Seq<usize>, x: usize)
    requires
        list.contains(x),
    ensures
        0 <= list.index_of(x) < list.len(),
        list[list.index_of(x)] == x,
{
}

/// Taking a live entry out of its column keeps the state valid, touches no
/// horizontal link, and is undone by putting the entry back.
pub proof fn lemma_unlink_node(l: Layout, s: GridState, m: usize)
    requires
        l.ok(),
        valid(l, s),
        l.is_node(m),
        s.lists[l.col(m) as int].contains(m),
    ensures
        valid(l, unlink_node(l, s, m)),
        splice_in(unlink_node(l, s, m).links, Direction::Down, m) == s.links,
        unlink_node(l, s, m).links[m as int] == s.links[m as int],
        s.columns[l.col(m) as int].size >= 1,
        1 <= l.col(m) <= l.num_columns,
        s.links[m as int].up < s.links.len(),
        s.links[m as int].down < s.links.len(),
{
    let j = l.col(m) as int;
    assert(l.node_ok(m));
    assert(column_ok(l, s, j));
    let list = s.lists[j];
    let k = list.index_of(m);
    lemma_index_of(list, m);
    let ring = column_ring(s, j);
    let after = unlink_node(l, s, m);
    assert(ring[k + 1] == m);
    lemma_splice_out(s.links, ring, Direction::Down, k + 1);
    lemma_sorted_remove(l, list, j, k);
    assert(ring.remove(k + 1) =~= column_ring(after, j));
    assert(linked_at(s.links, ring, Direction::Down, k + 1));
    assert(linked_at(s.links, ring, Direction::Down, k));
    assert(list.len() >= 1);
    // Every member of the ring of column j carries column j.
    assert forall|x: usize| ring.contains(x) implies l.col(x) == j by {
        let t = choose|t: int| 0 <= t < ring.len() && ring[t] == x;
        if t == 0 {
            assert(l.header_ok(j as usize));
        } else {
            assert(ring[t] == list[t - 1]);
        }
    }
    assert forall|i: int| 1 <= i <= l.num_columns implies #[trigger] column_ok(l, after, i) by {
        assert(column_ok(l, s, i));
        if i != j {
            let other = column_ring(s, i);
            assert(column_ring(after, i) =~= other);
            assert forall|t: int| 0 <= t < other.len() implies {
                let x = #[trigger] other[t];
                &&& after.links[x as int].link(Direction::Down) == s.links[x as int].link(
                    Direction::Down,
                )
                &&& after.links[x as int].link(Direction::Down.back()) == s.links[x as int].link(
                    Direction::Down.back(),
                )
            } by {
                let x = other[t];
                assert(linked_at(s.links, other, Direction::Down, t));
                if t == 0 {
                    assert(l.header_ok(i as usize));
                } else {
                    assert(other[t] == s.lists[i][t - 1]);
                }
                assert(l.col(x) == i);
                assert(!ring.contains(x));
            }
            lemma_ring_frame(s.links, after.links, other, Direction::Down);
        }
    }
    assert(headers_ok(l, after)) by {
        let hr = header_ring(s);
        assert(header_ring(after) =~= hr);
        assert forall|t: int| 0 <= t < hr.len() implies {
            let x = #[trigger] hr[t];
            &&& after.links[x as int].link(Direction::Right) == s.links[x as int].link(
                Direction::Right,
            )
            &&& after.links[x as int].link(Direction::Right.back()) == s.links[x as int].link(
                Direction::Right.back(),
            )
        } by {
            assert(linked_at(s.links, hr, Direction::Right, t));
        }
        lemma_ring_frame(s.links, after.links, hr, Direction::Right);
        assert forall|c: usize| l.is_column(c) implies (after.headers.contains(c) <==> !(
        #[trigger] after.columns[c as int]).is_covered) by {
            assert(s.columns[c as int].is_covered == after.columns[c as int].is_covered);
        }
    }
    assert forall|r: int| 1 <= r <= l.num_rows implies #[trigger] row_linked(l, after, r) by {
        assert(row_linked(l, s, r));
        let rr = l.row_ring[r];
        if rr.len() > 0 {
            assert forall|t: int| 0 <= t < rr.len() implies {
                let x = #[trigger] rr[t];
                &&& after.links[x as int].link(Direction::Right) == s.links[x as int].link(
                    Direction::Right,
                )
                &&& after.links[x as int].link(Direction::Right.back()) == s.links[x as int].link(
                    Direction::Right.back(),
                )
            } by {
                assert(linked_at(s.links, rr, Direction::Right, t));
            }
            lemma_ring_frame(s.links, after.links, rr, Direction::Right);
        }
    }
}

/// Taking an uncovered column out of the header ring keeps the state valid,
/// touches no vertical link, and is undone by putting the header back.
pub proof fn lemma_hide_column(l: Layout, s: GridState, c: usize)
    requires
        l.ok(),
        valid(l, s),
        l.is_column(c),
        !s.columns[c as int].is_covered,
    ensures
        valid(l, hide_column(s, c)),
        splice_in(hide_column(s, c).links, Direction::Right, c) == s.links,
        s.links[c as int].left < s.links.len(),
        s.links[c as int].right < s.links.len(),
        !hide_column(s, c).headers.contains(c),
        forall|x: usize| x != c ==> (hide_column(s, c).headers.contains(x) <==> s.headers.contains(x)),
{
    let after = hide_column(s, c);
    let hr = header_ring(s);
    assert(s.headers.contains(c));
    let k = s.headers.index_of(c);
    assert(hr[k + 1] == c);
    lemma_splice_out(s.links, hr, Direction::Right, k + 1);
    assert(hr.remove(k + 1) =~= header_ring(after));
    assert(linked_at(s.links, hr, Direction::Right, k + 1));
    assert(linked_at(s.links, hr, Direction::Right, k));
    let rest = s.headers.remove(k);
    s.headers.remove_ensures(k);
    assert forall|i: int| 0 <= i < rest.len() implies l.is_column(#[trigger] rest[i]) by {
        let i2 = if i < k { i } else { i + 1 };
        assert(rest[i] == s.headers[i2]);
    }
    assert(ascending(rest)) by {
        assert forall|a: int, b: int| 0 <= a < b < rest.len() implies #[trigger] rest[a]
            < #[trigger] rest[b] by {
            let a2 = if a < k { a } else { a + 1 };
            let b2 = if b < k { b } else { b + 1 };
            assert(rest[a] == s.headers[a2]);
            assert(rest[b] == s.headers[b2]);
        }
    }
    if rest.contains(c) {
        let i = choose|i: int| 0 <= i < rest.len() && rest[i] == c;
        let i2 = if i < k { i } else { i + 1 };
        assert(rest[i] == s.headers[i2]);
        if i2 < k {
            assert(s.headers[i2] < s.headers[k]);
        } else {
            assert(s.headers[k] < s.headers[i2]);
        }
    }
    assert forall|x: usize| x != c implies (rest.contains(x) <==> s.headers.contains(x)) by {
        if rest.contains(x) {
            let i = choose|i: int| 0 <= i < rest.len() && rest[i] == x;
            let i2 = if i < k { i } else { i + 1 };
            assert(rest[i] == s.headers[i2]);
        }
        if s.headers.contains(x) {
            let i = choose|i: int| 0 <= i < s.headers.len() && s.headers[i] == x;
            let i2 = if i < k { i } else { i - 1 };
            assert(rest[i2] == s.headers[i]);
        }
    }
    assert forall|x: usize| #[trigger] hr.contains(x) implies x <= l.num_columns by {
        let t = choose|t: int| 0 <= t < hr.len() && hr[t] == x;
        if t > 0 {
            assert(hr[t] == s.headers[t - 1]);
        }
    }
    assert forall|d: usize|
        l.is_column(d) implies (after.headers.contains(d) <==> !(
        #[trigger] after.columns[d as int]).is_covered) by {
        assert(s.headers.contains(d) <==> !s.columns[d as int].is_covered);
    }
    assert forall|i: int| 1 <= i <= l.num_columns implies #[trigger] column_ok(l, after, i) by {
        assert(column_ok(l, s, i));
        let other = column_ring(s, i);
        assert(column_ring(after, i) =~= other);
        assert forall|t: int| 0 <= t < other.len() implies {
            let x = #[trigger] other[t];
            &&& after.links[x as int].link(Direction::Down) == s.links[x as int].link(
                Direction::Down,
            )
            &&& after.links[x as int].link(Direction::Down.back()) == s.links[x as int].link(
                Direction::Down.back(),
            )
        } by {
            assert(linked_at(s.links, other, Direction::Down, t));
        }
        lemma_ring_frame(s.links, after.links, other, Direction::Down);
    }
    assert forall|r: int| 1 <= r <= l.num_rows implies #[trigger] row_linked(l, after, r) by {
        assert(row_linked(l, s, r));
        assert(l.row_ok(r));
        let rr = l.row_ring[r];
        if rr.len() > 0 {
            assert forall|t: int| 0 <= t < rr.len() implies {
                let x = #[trigger] rr[t];
                &&& after.links[x as int].link(Direction::Right) == s.links[x as int].link(
                    Direction::Right,
                )
                &&& after.links[x as int].link(Direction::Right.back()) == s.links[x as int].link(
                    Direction::Right.back(),
                )
            } by {
                let x = rr[t];
                assert(linked_at(s.links, rr, Direction::Right, t));
                assert(l.is_node(x));
                assert(!hr.contains(x));
            }
            lemma_ring_frame(s.links, after.links, rr, Direction::Right);
        }
    }
}

/// The entries of the row of `x` other than `x`, in the order in which a
/// walk to the right from `x` meets them.
pub open spec fn row_others(l: Layout, x: usize) -> Seq<usize> {
    let ring = l.row_ring[l.row(x) as int];
    let p = l.row_pos[x as int];
    ring.skip(p + 1) + ring.take(p)
}

/// The entries that leave their columns when the first `a` rows of `list`
/// are hidden, in the order in which they leave.
pub open spec fn cover_ops(l: Layout, list: Seq<usize>, a: int) -> Seq<usize>
    decreases a,
{
    if a <= 0 {
        Seq::empty()
    } else {
        cover_ops(l, list, a - 1) + row_others(l, list[a - 1])
    }
}

/// The state after the entries `ops` have left their columns, one by one.
pub open spec fn unlink_all(l: Layout, s: GridState, ops: Seq<usize>) -> GridState
    decreases ops.len(),
{
    if ops.len() == 0 {
        s
    } else {
        unlink_node(l, unlink_all(l, s, ops.drop_last()), ops.last())
    }
}

/// The state after column `c` has been covered: its header has left the
/// header ring, and every row that stood in the column has left all its
/// other columns.
pub open spec fn cover_state(l: Layout, s: GridState, c: usize) -> GridState {
    unlink_all(
        l,
        hide_column(s, c),
        cover_ops(l, s.lists[c as int], s.lists[c as int].len() as int),
    )
}

/// The state that covering the columns of `stack`, in order, makes of `origin`.
pub open spec fn state_after(l: Layout, origin: GridState, stack: Seq<usize>) -> GridState
    decreases stack.len(),
{
    if stack.len() == 0 {
        origin
    } else {
        cover_state(l, state_after(l, origin, stack.drop_last()), stack.last())
    }
}

/// No column of `stack` holds an entry of row `r`.
pub open spec fn row_live(l: Layout, stack: Seq<usize>, r: int) -> bool {
    forall|t: int|
        0 <= t < l.row_ring[r].len() ==> !stack.contains(l.col(#[trigger] l.row_ring[r][t]))
}

/// The columns of `stack` are distinct column indices.
pub open spec fn stack_ok(l: Layout, stack: Seq<usize>) -> bool {
    &&& stack.no_duplicates()
    &&& forall|k: int| 0 <= k < stack.len() ==> l.is_column(#[trigger] stack[k])
}

/// Entry `x` stands in the ring of its column.
pub open spec fn present(l: Layout, s: GridState, x: usize) -> bool {
    s.lists[l.col(x) as int].contains(x)
}

/// What holds of a state between two operations: the covered columns are
/// those of `stack`, and an entry of an uncovered column stands in its ring
/// exactly if no covered column holds an entry of its row.
pub open spec fn at_rest(l: Layout, s: GridState, stack: Seq<usize>) -> bool {
    &&& valid(l, s)
    &&& forall|c: usize|
        l.is_column(c) ==> ((#[trigger] s.columns[c as int]).is_covered <==> stack.contains(c))
    &&& forall|x: usize|
        l.is_node(x) && !stack.contains(l.col(x)) ==> (#[trigger] present(l, s, x) <==> row_live(
            l,
            stack,
            l.row(x) as int,
        ))
}

/// The state in which nothing is covered: every entry stands in its column
/// and every column in the header ring.
pub open spec fn initial(l: Layout, s: GridState) -> bool {
    &&& valid(l, s)
    &&& forall|c: usize| l.is_column(c) ==> !(#[trigger] s.columns[c as int]).is_covered
    &&& forall|x: usize| l.is_node(x) ==> #[trigger] present(l, s, x)
}

/// The entries `ops` can leave their columns one after the other: they are
/// distinct and all stand in their columns in `s`.
pub open spec fn can_unlink(l: Layout, s: GridState, ops: Seq<usize>) -> bool {
    &&& ops.no_duplicates()
    &&& forall|k: int| 0 <= k < ops.len() ==> l.is_node(#[trigger] ops[k]) && present(l, s, ops[k])
}

/// After the first `i` of the entries `ops` have left, the state is valid,
/// the header ring is as before, and the columns hold what they held, less
/// those entries.
pub proof fn lemma_unlink_all(l: Layout, s: GridState, ops: Seq<usize>, i: int)
    requires
        l.ok(),
        valid(l, s),
        can_unlink(l, s, ops),
        0 <= i <= ops.len(),
    ensures
        valid(l, unlink_all(l, s, ops.take(i))),
        unlink_all(l, s, ops.take(i)).headers == s.headers,
        forall|c: int|
            0 <= c <= l.num_columns ==> (#[trigger] unlink_all(l, s, ops.take(i)).columns[c]).is_covered
                == s.columns[c].is_covered,
        forall|x: usize|
            l.is_node(x) ==> (#[trigger] present(l, unlink_all(l, s, ops.take(i)), x) <==> present(
                l,
                s,
                x,
            ) && !ops.take(i).contains(x)),
        forall|c: int|
            0 <= c <= l.num_columns && (forall|k: int| 0 <= k < i ==> l.col(#[trigger] ops[k]) != c)
                ==> #[trigger] unlink_all(l, s, ops.take(i)).lists[c] == s.lists[c],
        i < ops.len() ==> unlink_all(l, s, ops.take(i + 1)) == unlink_node(
            l,
            unlink_all(l, s, ops.take(i)),
            ops[i],
        ),
        i < ops.len() ==> l.is_node(ops[i]) && present(l, unlink_all(l, s, ops.take(i)), ops[i]),
    decreases i,
{
    if i < ops.len() {
        assert(ops.take(i + 1).drop_last() =~= ops.take(i));
        assert(ops.take(i + 1).last() == ops[i]);
        assert(!ops.take(i).contains(ops[i])) by {
            let done = ops.take(i);
            if done.contains(ops[i]) {
                let k = choose|k: int| 0 <= k < done.len() && done[k] == ops[i];
                assert(ops[k] == ops[i]);
            }
        }
    }
    if i == 0 {
        assert(ops.take(0) =~= Seq::<usize>::empty());
        assert(unlink_all(l, s, ops.take(0)) == s);
    } else {
        lemma_unlink_all(l, s, ops, i - 1);
        let before = unlink_all(l, s, ops.take(i - 1));
        let m = ops[i - 1];
        let after = unlink_all(l, s, ops.take(i));
        assert(ops.take(i).drop_last() =~= ops.take(i - 1));
        assert(ops.take(i).last() == m);
        assert(after == unlink_node(l, before, m));
        assert(l.is_node(m) && present(l, s, m));
        assert(!ops.take(i - 1).contains(m)) by {
            if ops.take(i - 1).contains(m) {
                let done = ops.take(i - 1);
                let k = choose|k: int| 0 <= k < done.len() && done[k] == m;
                assert(ops[k] == ops[i - 1]);
            }
        }
        assert(present(l, before, m));
        lemma_unlink_node(l, before, m);
        let j = l.col(m) as int;
        let list = before.lists[j];
        let k = list.index_of(m);
        lemma_index_of(list, m);
        assert(column_ok(l, before, j));
        lemma_sorted_remove(l, list, j, k);
        assert forall|x: usize| l.is_node(x) implies (#[trigger] present(l, after, x) <==> present(
            l,
            s,
            x,
        ) && !ops.take(i).contains(x)) by {
            assert(present(l, before, x) <==> present(l, s, x) && !ops.take(i - 1).contains(x));
            assert(ops.take(i) =~= ops.take(i - 1).push(m));
            if x == m {
                assert(ops.take(i)[i - 1] == m);
            } else {
                let now = ops.take(i);
                let done = ops.take(i - 1);
                if now.contains(x) {
                    let t = choose|t: int| 0 <= t < now.len() && now[t] == x;
                    assert(done[t] == x);
                }
                if done.contains(x) {
                    let t = choose|t: int| 0 <= t < done.len() && done[t] == x;
                    assert(now[t] == x);
                }
                assert(l.node_ok(x));
                assert(l.node_ok(m));
                if l.col(x) != j {
                    assert(after.lists[l.col(x) as int] == before.lists[l.col(x) as int]);
                }
            }
        }
        assert forall|c: int|
            0 <= c <= l.num_columns && (forall|k: int|
                0 <= k < i ==> l.col(#[trigger] ops[k]) != c) implies #[trigger] after.lists[c]
            == s.lists[c] by {
            assert(l.col(ops[i - 1]) != c);
            assert(before.lists[c] == s.lists[c]);
        }
    }
}

/// One of the first `a` entries of `list` lies in row `r`.
pub open spec fn row_in(l: Layout, list: Seq<usize>, a: int, r: usize) -> bool {
    exists|b: int| 0 <= b < a && l.row(#[trigger] list[b]) == r
}

/// The entry at position `i` of the walk to the right from `x`.
pub proof fn lemma_row_others_index(l: Layout, x: usize, i: int)
    requires
        l.ok(),
        l.is_node(x),
        0 <= i < row_others(l, x).len(),
    ensures
        row_others(l, x).len() == l.row_ring[l.row(x) as int].len() - 1,
        ({
            let ring = l.row_ring[l.row(x) as int];
            let p = l.row_pos[x as int];
            let t = if i < ring.len() - p - 1 {
                p + 1 + i
            } else {
                i - (ring.len() - p - 1)
            };
            &&& 0 <= t < ring.len()
            &&& t != p
            &&& row_others(l, x)[i] == ring[t]
            &&& l.is_node(ring[t])
            &&& l.row(ring[t]) == l.row(x)
            &&& l.col(ring[t]) != l.col(x)
        }),
{
    assert(l.node_ok(x));
    let r = l.row(x) as int;
    assert(l.row_ok(r));
    let ring = l.row_ring[r];
    let p = l.row_pos[x as int];
    let t = if i < ring.len() - p - 1 {
        p + 1 + i
    } else {
        i - (ring.len() - p - 1)
    };
    assert(ring[p] == x);
    if t < p {
        assert(l.col(ring[t]) < l.col(ring[p]));
    } else {
        assert(l.col(ring[p]) < l.col(ring[t]));
    }
}

/// Two entries that a walk to the right from `x` meets on the same side of
/// `x` come by ascending column.
pub proof fn lemma_row_others_order(l: Layout, x: usize, i: int, j: int)
    requires
        l.ok(),
        l.is_node(x),
        0 <= i < j < row_others(l, x).len(),
    ensures
        (l.col(row_others(l, x)[i]) < l.col(x)) == (l.col(row_others(l, x)[j]) < l.col(x)) ==> l.col(
            row_others(l, x)[i],
        ) < l.col(row_others(l, x)[j]),
{
    lemma_row_others_index(l, x, i);
    lemma_row_others_index(l, x, j);
    assert(l.node_ok(x));
    let r = l.row(x) as int;
    assert(l.row_ok(r));
    let ring = l.row_ring[r];
    let p = l.row_pos[x as int];
    let ti = if i < ring.len() - p - 1 { p + 1 + i } else { i - (ring.len() - p - 1) };
    let tj = if j < ring.len() - p - 1 { p + 1 + j } else { j - (ring.len() - p - 1) };
    if ti < p {
        assert(l.col(ring[ti]) < l.col(ring[p]));
    } else {
        assert(l.col(ring[p]) < l.col(ring[ti]));
    }
    if tj < p {
        assert(l.col(ring[tj]) < l.col(ring[p]));
    } else {
        assert(l.col(ring[p]) < l.col(ring[tj]));
    }
    if ti < tj {
        assert(l.col(ring[ti]) < l.col(ring[tj]));
    }
}

/// The entries that leave when the first `a` rows of an uncovered column
/// are hidden: they are distinct, stand in their columns, lie in other
/// columns than `c`, and are all the other entries of those rows.
pub proof fn lemma_cover_ops(l: Layout, s: GridState, stack: Seq<usize>, c: usize, a: int)
    requires
        l.ok(),
        at_rest(l, s, stack),
        l.is_column(c),
        !stack.contains(c),
        0 <= a <= s.lists[c as int].len(),
    ensures
        cover_ops(l, s.lists[c as int], a).no_duplicates(),
        forall|k: int|
            0 <= k < cover_ops(l, s.lists[c as int], a).len() ==> {
                let m = #[trigger] cover_ops(l, s.lists[c as int], a)[k];
                &&& l.is_node(m)
                &&& l.col(m) != c
                &&& present(l, s, m)
                &&& row_in(l, s.lists[c as int], a, l.row(m))
            },
        forall|y: usize|
            l.is_node(y) && l.col(y) != c && #[trigger] row_in(l, s.lists[c as int], a, l.row(y))
                ==> cover_ops(l, s.lists[c as int], a).contains(y),
    decreases a,
{
    let list = s.lists[c as int];
    let ops = cover_ops(l, list, a);
    if a > 0 {
        lemma_cover_ops(l, s, stack, c, a - 1);
        let before = cover_ops(l, list, a - 1);
        let x = list[a - 1];
        let chunk = row_others(l, x);
        assert(ops == before + chunk);
        assert(column_ok(l, s, c as int));
        assert(l.is_node(x) && l.col(x) == c);
        assert(l.node_ok(x));
        let r = l.row(x) as int;
        let ring = l.row_ring[r];
        let p = l.row_pos[x as int];
        assert(l.row_ok(r));
        assert(present(l, s, x));
        assert(row_live(l, stack, r));
        assert forall|k: int| 0 <= k < ops.len() implies {
            let m = #[trigger] ops[k];
            &&& l.is_node(m)
            &&& l.col(m) != c
            &&& present(l, s, m)
            &&& row_in(l, list, a, l.row(m))
        } by {
            if k < before.len() {
                let m = before[k];
                assert(ops[k] == m);
                assert(row_in(l, list, a - 1, l.row(m)));
                let b = choose|b: int| 0 <= b < a - 1 && l.row(#[trigger] list[b]) == l.row(m);
                assert(row_in(l, list, a, l.row(m)));
            } else {
                let i = k - before.len();
                lemma_row_others_index(l, x, i);
                let m = chunk[i];
                assert(ops[k] == m);
                let t = if i < ring.len() - p - 1 {
                    p + 1 + i
                } else {
                    i - (ring.len() - p - 1)
                };
                assert(m == ring[t]);
                assert(!stack.contains(l.col(ring[t])));
                assert(l.row(list[a - 1]) == l.row(m));
                assert(row_in(l, list, a, l.row(m)));
                assert(present(l, s, m) <==> row_live(l, stack, l.row(m) as int));
            }
        }
        assert(ops.no_duplicates()) by {
            assert forall|i: int, j: int| 0 <= i < j < ops.len() implies ops[i] != ops[j] by {
                if j < before.len() {
                    assert(before[i] != before[j]);
                } else if i < before.len() {
                    let m = before[i];
                    assert(ops[i] == m);
                    assert(row_in(l, list, a - 1, l.row(m)));
                    let b = choose|b: int| 0 <= b < a - 1 && l.row(#[trigger] list[b]) == l.row(m);
                    assert(l.row(list[b]) < l.row(list[a - 1]));
                    lemma_row_others_index(l, x, j - before.len());
                    assert(ops[j] == chunk[j - before.len()]);
                } else {
                    let i2 = i - before.len();
                    let j2 = j - before.len();
                    lemma_row_others_index(l, x, i2);
                    lemma_row_others_index(l, x, j2);
                    assert(ops[i] == chunk[i2]);
                    assert(ops[j] == chunk[j2]);
                    let ti = if i2 < ring.len() - p - 1 {
                        p + 1 + i2
                    } else {
                        i2 - (ring.len() - p - 1)
                    };
                    let tj = if j2 < ring.len() - p - 1 {
                        p + 1 + j2
                    } else {
                        j2 - (ring.len() - p - 1)
                    };
                    if ti < tj {
                        assert(l.col(ring[ti]) < l.col(ring[tj]));
                    } else {
                        assert(l.col(ring[tj]) < l.col(ring[ti]));
                    }
                }
            }
        }
        assert forall|y: usize|
            l.is_node(y) && l.col(y) != c && #[trigger] row_in(l, list, a, l.row(y)) implies ops.contains(
            y,
        ) by {
            let b = choose|b: int| 0 <= b < a && l.row(#[trigger] list[b]) == l.row(y);
            if b < a - 1 {
                assert(row_in(l, list, a - 1, l.row(y)));
                assert(before.contains(y));
                let k = choose|k: int| 0 <= k < before.len() && before[k] == y;
                assert(ops[k] == y);
            } else {
                assert(l.node_ok(y));
                let t = l.row_pos[y as int];
                assert(ring[t] == y);
                assert(t != p);
                let i = if t > p {
                    t - p - 1
                } else {
                    t + (ring.len() - p - 1)
                };
                assert(chunk[i] == y);
                assert(ops[before.len() + i] == y);
            }
        }
    } else {
        assert forall|y: usize|
            l.is_node(y) && l.col(y) != c && #[trigger] row_in(l, list, a, l.row(y)) implies ops.contains(
            y,
        ) by {
            let b = choose|b: int| 0 <= b < a && l.row(#[trigger] list[b]) == l.row(y);
        }
    }
}

/// Covering an uncovered column of a state at rest gives a state at rest
/// for the longer stack, and leaves the column's own ring as it was.
pub proof fn lemma_cover_state(l: Layout, s: GridState, stack: Seq<usize>, c: usize)
    requires
        l.ok(),
        at_rest(l, s, stack),
        l.is_column(c),
        !stack.contains(c),
    ensures
        at_rest(l, cover_state(l, s, c), stack.push(c)),
        cover_state(l, s, c).lists[c as int] == s.lists[c as int],
        can_unlink(
            l,
            hide_column(s, c),
            cover_ops(l, s.lists[c as int], s.lists[c as int].len() as int),
        ),
        valid(l, hide_column(s, c)),
{
    let list = s.lists[c as int];
    let s1 = hide_column(s, c);
    let ops = cover_ops(l, list, list.len() as int);
    let end = cover_state(l, s, c);
    let longer = stack.push(c);
    assert(!s.columns[c as int].is_covered);
    lemma_hide_column(l, s, c);
    lemma_cover_ops(l, s, stack, c, list.len() as int);
    assert(can_unlink(l, s1, ops)) by {
        assert forall|k: int| 0 <= k < ops.len() implies l.is_node(#[trigger] ops[k]) && present(
            l,
            s1,
            ops[k],
        ) by {
            assert(present(l, s, ops[k]));
        }
    }
    lemma_unlink_all(l, s1, ops, ops.len() as int);
    assert(ops.take(ops.len() as int) =~= ops);
    assert forall|d: usize| l.is_column(d) implies ((#[trigger] end.columns[d as int]).is_covered
        <==> longer.contains(d)) by {
        lemma_push_contains(stack, c, d);
        assert(end.columns[d as int].is_covered == s1.columns[d as int].is_covered);
        assert(s.columns[d as int].is_covered <==> stack.contains(d));
    }
    assert forall|x: usize| l.is_node(x) && !longer.contains(l.col(x)) implies (#[trigger] present(
        l,
        end,
        x,
    ) <==> row_live(l, longer, l.row(x) as int)) by {
        let j = l.col(x);
        let r = l.row(x) as int;
        let ring = l.row_ring[r];
        lemma_push_contains(stack, c, j);
        assert(l.node_ok(x));
        assert(l.row_ok(r));
        assert(present(l, end, x) <==> present(l, s1, x) && !ops.contains(x));
        assert(present(l, s1, x) == present(l, s, x));
        assert(present(l, s, x) <==> row_live(l, stack, r));
        if present(l, end, x) {
            assert forall|t: int| 0 <= t < ring.len() implies !longer.contains(
                l.col(#[trigger] ring[t]),
            ) by {
                let y = ring[t];
                lemma_push_contains(stack, c, l.col(y));
                if l.col(y) == c {
                    assert(present(l, s, y) <==> row_live(l, stack, l.row(y) as int));
                    assert(list.contains(y));
                    let b = choose|b: int| 0 <= b < list.len() && list[b] == y;
                    assert(l.row(list[b]) == l.row(x));
                    assert(row_in(l, list, list.len() as int, l.row(x)));
                    assert(ops.contains(x));
                }
            }
        }
        if row_live(l, longer, r) {
            assert forall|t: int| 0 <= t < ring.len() implies !stack.contains(
                l.col(#[trigger] ring[t]),
            ) by {
                lemma_push_contains(stack, c, l.col(ring[t]));
            }
            if ops.contains(x) {
                let k = choose|k: int| 0 <= k < ops.len() && ops[k] == x;
                assert(row_in(l, list, list.len() as int, l.row(ops[k])));
                let b = choose|b: int| 0 <= b < list.len() && l.row(#[trigger] list[b]) == l.row(x);
                let y = list[b];
                assert(column_ok(l, s, c as int));
                assert(l.is_node(y) && l.col(y) == c);
                assert(l.node_ok(y));
                assert(ring[l.row_pos[y as int]] == y);
                lemma_push_contains(stack, c, c);
            }
        }
    }
    assert forall|k: int| 0 <= k < ops.len() implies l.col(#[trigger] ops[k]) != c by {}
}

/// The state after any stack of distinct columns has been covered is at rest.
pub proof fn lemma_state_after(l: Layout, origin: GridState, stack: Seq<usize>)
    requires
        l.ok(),
        initial(l, origin),
        stack_ok(l, stack),
    ensures
        at_rest(l, state_after(l, origin, stack), stack),
    decreases stack.len(),
{
    if stack.len() == 0 {
        assert forall|x: usize| l.is_node(x) && !stack.contains(l.col(x)) implies (
        #[trigger] present(l, origin, x) <==> row_live(l, stack, l.row(x) as int)) by {}
    } else {
        let shorter = stack.drop_last();
        let c = stack.last();
        assert(stack_ok(l, shorter)) by {
            assert forall|i: int, j: int|
                0 <= i < shorter.len() && 0 <= j < shorter.len() && i != j implies shorter[i]
                != shorter[j] by {
                assert(stack[i] != stack[j]);
            }
            assert forall|k: int| 0 <= k < shorter.len() implies l.is_column(
                #[trigger] shorter[k],
            ) by {
                assert(shorter[k] == stack[k]);
            }
        }
        lemma_state_after(l, origin, shorter);
        assert(!shorter.contains(c)) by {
            if shorter.contains(c) {
                let k = choose|k: int| 0 <= k < shorter.len() && shorter[k] == c;
                assert(stack[k] == stack[stack.len() - 1]);
            }
        }
        assert(l.is_column(stack[stack.len() - 1]));
        lemma_cover_state(l, state_after(l, origin, shorter), shorter, c);
        assert(shorter.push(c) =~= stack);
    }
}

/// Leaving out a value that does not occur changes nothing.
pub proof fn lemma_without_absent(q: Seq<usize>, v: usize)
    requires
        !q.contains(v),
    ensures
        without(q, Some(v)) == q,
    decreases q.len(),
{
    let pred = |x: usize| Some(v) != Some(x);
    if q.len() == 0 {
        assert(q.filter(pred).len() <= q.len()) by {
            q.lemma_filter_len(pred);
        }
        assert(q.filter(pred) =~= q);
    } else {
        let front = q.drop_last();
        assert(q =~= front.push(q.last()));
        assert(!front.contains(v)) by {
            if front.contains(v) {
                let i = choose|i: int| 0 <= i < front.len() && front[i] == v;
                assert(q[i] == v);
            }
        }
        assert(q[q.len() - 1] != v);
        lemma_without_absent(front, v);
        front.lemma_filter_push(q.last(), pred);
    }
}

/// Walking down from the header of a column meets the column's entries top
/// to bottom, walking up meets them bottom to top.
pub proof fn lemma_column_walk(l: Layout, s: GridState, c: usize)
    requires
        l.ok(),
        valid(l, s),
        l.is_column(c),
    ensures
        is_closed(s.links, Direction::Down, c),
        without(walk(s.links, Direction::Down, c), Some(c)) == s.lists[c as int],
        is_closed(s.links, Direction::Up, c),
        without(walk(s.links, Direction::Up, c), Some(c)) == s.lists[c as int].reverse(),
        forall|k: int|
            0 <= k < s.lists[c as int].len() ==> l.is_node(#[trigger] s.lists[c as int][k]) && l.col(
                s.lists[c as int][k],
            ) == c,
{
    assert(column_ok(l, s, c as int));
    let ring = column_ring(s, c as int);
    let list = s.lists[c as int];
    lemma_ring_walk(s.links, ring, Direction::Down);
    lemma_ring_walk_back(s.links, ring, Direction::Down);
    assert(ring.skip(1) =~= list);
    assert(!list.contains(c)) by {
        if list.contains(c) {
            let k = choose|k: int| 0 <= k < list.len() && list[k] == c;
            assert(l.is_node(list[k]));
        }
    }
    lemma_without_absent(list, c);
    assert(!list.reverse().contains(c)) by {
        if list.reverse().contains(c) {
            let rev = list.reverse();
            let k = choose|k: int| 0 <= k < rev.len() && rev[k] == c;
            assert(list[list.len() - 1 - k] == c);
            assert(list.contains(c));
        }
    }
    lemma_without_absent(list.reverse(), c);
}

/// Walking right from the root sentinel meets the uncovered columns in
/// ascending order.
pub proof fn lemma_header_walk(l: Layout, s: GridState)
    requires
        l.ok(),
        valid(l, s),
    ensures
        is_closed(s.links, Direction::Right, 0),
        without(walk(s.links, Direction::Right, 0), Some(0usize)) == s.headers,
{
    let ring = header_ring(s);
    lemma_ring_walk(s.links, ring, Direction::Right);
    assert(ring.skip(1) =~= s.headers);
    assert(!s.headers.contains(0)) by {
        if s.headers.contains(0) {
            let k = choose|k: int| 0 <= k < s.headers.len() && s.headers[k] == 0;
            assert(l.is_column(s.headers[k]));
        }
    }
    lemma_without_absent(s.headers, 0);
}

/// Walking right from an entry meets the other entries of its row; walking
/// left meets them in the opposite order.
pub proof fn lemma_row_walk(l: Layout, s: GridState, x: usize)
    requires
        l.ok(),
        valid(l, s),
        l.is_node(x),
    ensures
        is_closed(s.links, Direction::Right, x),
        without(walk(s.links, Direction::Right, x), Some(x)) == row_others(l, x),
        is_closed(s.links, Direction::Left, x),
        without(walk(s.links, Direction::Left, x), Some(x)) == row_others(l, x).reverse(),
{
    assert(l.node_ok(x));
    let r = l.row(x) as int;
    assert(row_linked(l, s, r));
    assert(l.row_ok(r));
    let ring = l.row_ring[r];
    let p = l.row_pos[x as int];
    let rot = ring.skip(p) + ring.take(p);
    lemma_ring_rotate(s.links, ring, Direction::Right, p);
    lemma_ring_walk(s.links, rot, Direction::Right);
    lemma_ring_walk_back(s.links, rot, Direction::Right);
    assert(rot[0] == x);
    let others = row_others(l, x);
    assert(rot.skip(1) =~= others);
    assert(!others.contains(x)) by {
        if others.contains(x) {
            let i = choose|i: int| 0 <= i < others.len() && others[i] == x;
            lemma_row_others_index(l, x, i);
        }
    }
    lemma_without_absent(others, x);
    assert(!others.reverse().contains(x)) by {
        if others.reverse().contains(x) {
            let rev = others.reverse();
            let k = choose|k: int| 0 <= k < rev.len() && rev[k] == x;
            assert(others[others.len() - 1 - k] == x);
            assert(others.contains(x));
        }
    }
    lemma_without_absent(others.reverse(), x);
}

/// The entries that leave for the first `a` rows are the first of those that
/// leave for the first `b` rows.
pub proof fn lemma_cover_ops_prefix(l: Layout, list: Seq<usize>, a: int, b: int)
    requires
        0 <= a <= b,
    ensures
        cover_ops(l, list, a).len() <= cover_ops(l, list, b).len(),
        cover_ops(l, list, b).take(cover_ops(l, list, a).len() as int) == cover_ops(l, list, a),
    decreases b,
{
    if a < b {
        lemma_cover_ops_prefix(l, list, a, b - 1);
        let mid = cover_ops(l, list, b - 1);
        let full = cover_ops(l, list, b);
        assert(full == mid + row_others(l, list[b - 1]));
        assert(full.take(cover_ops(l, list, a).len() as int) =~= mid.take(
            cover_ops(l, list, a).len() as int,
        ));
    } else {
        assert(cover_ops(l, list, b).take(cover_ops(l, list, b).len() as int) =~= cover_ops(
            l,
            list,
            b,
        ));
    }
}

} // verus!
