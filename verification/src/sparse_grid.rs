//! The dancing-links grid: a sparse 0/1 matrix whose columns can be covered
//! and uncovered in time proportional to the links touched.
//!
//! Headers and entries live in one arena. Entry 0 is the root sentinel, the
//! entries `1..=num_columns` are the column headers, the others are the
//! ones of the matrix. All links are arena indices.

pub mod base_node;
pub mod construct;
pub mod ring;
pub mod state;

use crate::grid::{
    coordinates_ok, indices, initial_model, largest_row, lemma_ascending_filter,
    lemma_filter_indices, lemma_max_row, lemma_max_row_below, lemma_push_contains,
    strictly_ascending, Grid, GridModel,
};
use crate::sparse_grid::base_node::{down, left, right, up, walk, BaseNode, Direction};
use crate::sparse_grid::construct::{
    append_entry, bucket_rows, building, empty_layout, empty_state, grown_layout, grown_state,
    header_arena, lemma_empty, lemma_grown_ones, lemma_total_len_monotonic, row_table,
    row_table_ok, total_len,
};
use crate::sparse_grid::ring::{lemma_ring_reciprocal, lemma_ring_walk};
use crate::sparse_grid::state::{
    at_rest, can_unlink, cover_ops, cover_state, hide_column, initial, lemma_column_walk,
    lemma_cover_ops_prefix, lemma_cover_state, lemma_header_walk, lemma_hide_column,
    lemma_row_others_index, lemma_row_others_order, lemma_row_walk, lemma_state_after,
    lemma_unlink_all, lemma_unlink_node, present, row_live, row_others, stack_ok, state_after,
    unlink_all, unlink_node, valid, Column, GridState, Layout, Node,
};
use vstd::prelude::*;

verus! {

/// Dancing-links grid.
pub struct SparseGrid {
    links: Vec<BaseNode>,
    nodes: Vec<Node>,
    columns: Vec<Column>,
    num_columns: usize,
    max_row: usize,
    layout: Ghost<Layout>,
    origin: Ghost<GridState>,
    stack: Ghost<Seq<usize>>,
}

impl SparseGrid {
    /// The links of every arena entry.
    pub closed spec fn links(&self) -> Seq<BaseNode> {
        self.links@
    }

    /// The bookkeeping of every header, the root sentinel first.
    pub closed spec fn columns(&self) -> Seq<Column> {
        self.columns@
    }

    /// What never changes after the grid has been built.
    pub closed spec fn layout(&self) -> Layout {
        self.layout@
    }

    /// The state in which the grid was built.
    pub closed spec fn origin(&self) -> GridState {
        self.origin@
    }

    /// The covered columns, the most recently covered last.
    pub closed spec fn stack(&self) -> Seq<usize> {
        self.stack@
    }

    /// The rings that the links form at present.
    pub closed spec fn state(&self) -> GridState {
        state_after(self.layout@, self.origin@, self.stack@)
    }

    /// The links and the bookkeeping are what covering the columns of the
    /// stack, in order, makes of the state in which the grid was built.
    pub closed spec fn inv(&self) -> bool {
        let l = self.layout@;
        &&& l.ok()
        &&& initial(l, self.origin@)
        &&& stack_ok(l, self.stack@)
        &&& self.nodes@ == l.nodes
        &&& self.num_columns == l.num_columns
        &&& self.max_row == l.num_rows
        &&& self.links@ == self.state().links
        &&& self.columns@ == self.state().columns
    }

    /// Takes one entry off the count of column `index`.
    fn decrement_size(columns: &mut Vec<Column>, index: usize)
        requires
            index < old(columns)@.len(),
            old(columns)@[index as int].size >= 1,
        ensures
            final(columns)@ == old(columns)@.update(
                index as int,
                Column {
                    size: (old(columns)@[index as int].size - 1) as usize,
                    ..old(columns)@[index as int]
                },
            ),
    {
        let mut column = columns[index];
        column.size = column.size - 1;
        columns.set(index, column);
    }

    /// Adds one entry to the count of column `index`.
    fn increment_size(columns: &mut Vec<Column>, index: usize)
        requires
            index < old(columns)@.len(),
            old(columns)@[index as int].size < usize::MAX,
        ensures
            final(columns)@ == old(columns)@.update(
                index as int,
                Column {
                    size: (old(columns)@[index as int].size + 1) as usize,
                    ..old(columns)@[index as int]
                },
            ),
    {
        let mut column = columns[index];
        column.size = column.size + 1;
        columns.set(index, column);
    }

    /// Takes every entry of the row of `node`, but `node` itself, out of its
    /// column.
    fn cover_row(
        &mut self,
        node: usize,
        Ghost(s1): Ghost<GridState>,
        Ghost(ops): Ghost<Seq<usize>>,
        Ghost(done): Ghost<int>,
    )
        requires
            old(self).layout@.ok(),
            valid(old(self).layout@, s1),
            can_unlink(old(self).layout@, s1, ops),
            old(self).layout@.is_node(node),
            old(self).nodes@ == old(self).layout@.nodes,
            0 <= done,
            done + row_others(old(self).layout@, node).len() <= ops.len(),
            ops.subrange(done, done + row_others(old(self).layout@, node).len()) == row_others(
                old(self).layout@,
                node,
            ),
            old(self).links@ == unlink_all(old(self).layout@, s1, ops.take(done)).links,
            old(self).columns@ == unlink_all(old(self).layout@, s1, ops.take(done)).columns,
        ensures
            final(self).links@ == unlink_all(
                old(self).layout@,
                s1,
                ops.take(done + row_others(old(self).layout@, node).len()),
            ).links,
            final(self).columns@ == unlink_all(
                old(self).layout@,
                s1,
                ops.take(done + row_others(old(self).layout@, node).len()),
            ).columns,
            final(self).nodes == old(self).nodes,
            final(self).num_columns == old(self).num_columns,
            final(self).max_row == old(self).max_row,
            final(self).layout == old(self).layout,
            final(self).origin == old(self).origin,
            final(self).stack == old(self).stack,
    {
        let ghost l = self.layout@;
        proof {
            lemma_unlink_all(l, s1, ops, done);
            lemma_row_walk(l, unlink_all(l, s1, ops.take(done)), node);
        }
        let others = right(&self.links, node, Some(node));
        let mut b: usize = 0;
        while b < others.len()
            invariant
                l == self.layout@,
                l.ok(),
                valid(l, s1),
                can_unlink(l, s1, ops),
                self.nodes@ == l.nodes,
                others@ == row_others(l, node),
                0 <= done,
                done + others@.len() <= ops.len(),
                ops.subrange(done, done + others@.len()) == others@,
                0 <= b <= others@.len(),
                self.links@ == unlink_all(l, s1, ops.take(done + b)).links,
                self.columns@ == unlink_all(l, s1, ops.take(done + b)).columns,
                self.nodes == old(self).nodes,
                self.num_columns == old(self).num_columns,
                self.max_row == old(self).max_row,
                self.layout == old(self).layout,
                self.origin == old(self).origin,
                self.stack == old(self).stack,
            decreases others@.len() - b,
        {
            let m = others[b];
            proof {
                let cur = unlink_all(l, s1, ops.take(done + b));
                lemma_unlink_all(l, s1, ops, done + b);
                assert(ops[done + b] == ops.subrange(done, done + others@.len())[b as int]);
                assert(ops[done + b] == m);
                lemma_unlink_node(l, cur, m);
                assert(unlink_all(l, s1, ops.take(done + b + 1)) == unlink_node(l, cur, m));
            }
            let column = self.nodes[m].column;
            Self::decrement_size(&mut self.columns, column);
            BaseNode::cover_vertical(&mut self.links, m);
            b += 1;
        }
    }

    /// Puts every entry of the row of `node`, but `node` itself, back into
    /// its column, the last one that left first.
    fn uncover_row(
        &mut self,
        node: usize,
        Ghost(s1): Ghost<GridState>,
        Ghost(ops): Ghost<Seq<usize>>,
        Ghost(done): Ghost<int>,
    )
        requires
            old(self).layout@.ok(),
            valid(old(self).layout@, s1),
            can_unlink(old(self).layout@, s1, ops),
            old(self).layout@.is_node(node),
            old(self).nodes@ == old(self).layout@.nodes,
            0 <= done,
            done + row_others(old(self).layout@, node).len() <= ops.len(),
            ops.subrange(done, done + row_others(old(self).layout@, node).len()) == row_others(
                old(self).layout@,
                node,
            ),
            old(self).links@ == unlink_all(
                old(self).layout@,
                s1,
                ops.take(done + row_others(old(self).layout@, node).len()),
            ).links,
            old(self).columns@ == unlink_all(
                old(self).layout@,
                s1,
                ops.take(done + row_others(old(self).layout@, node).len()),
            ).columns,
        ensures
            final(self).links@ == unlink_all(old(self).layout@, s1, ops.take(done)).links,
            final(self).columns@ == unlink_all(old(self).layout@, s1, ops.take(done)).columns,
            final(self).nodes == old(self).nodes,
            final(self).num_columns == old(self).num_columns,
            final(self).max_row == old(self).max_row,
            final(self).layout == old(self).layout,
            final(self).origin == old(self).origin,
            final(self).stack == old(self).stack,
    {
        let ghost l = self.layout@;
        let ghost width = row_others(l, node).len() as int;
        proof {
            lemma_unlink_all(l, s1, ops, done + width);
            lemma_row_walk(l, unlink_all(l, s1, ops.take(done + width)), node);
        }
        let others = left(&self.links, node, Some(node));
        let mut b: usize = 0;
        while b < others.len()
            invariant
                l == self.layout@,
                l.ok(),
                valid(l, s1),
                can_unlink(l, s1, ops),
                self.nodes@ == l.nodes,
                width == row_others(l, node).len(),
                others@ == row_others(l, node).reverse(),
                0 <= done,
                done + width <= ops.len(),
                ops.subrange(done, done + width) == row_others(l, node),
                0 <= b <= width,
                self.links@ == unlink_all(l, s1, ops.take(done + width - b)).links,
                self.columns@ == unlink_all(l, s1, ops.take(done + width - b)).columns,
                self.nodes == old(self).nodes,
                self.num_columns == old(self).num_columns,
                self.max_row == old(self).max_row,
                self.layout == old(self).layout,
                self.origin == old(self).origin,
                self.stack == old(self).stack,
            decreases width - b,
        {
            let m = others[b];
            proof {
                let i = done + width - b - 1;
                let before = unlink_all(l, s1, ops.take(i));
                lemma_unlink_all(l, s1, ops, i);
                assert(ops[i] == ops.subrange(done, done + width)[width - b - 1]);
                assert(others@[b as int] == row_others(l, node)[width - 1 - b]);
                assert(ops[i] == m);
                lemma_unlink_node(l, before, m);
                assert(unlink_all(l, s1, ops.take(i + 1)) == unlink_node(l, before, m));
                assert(self.columns@.update(
                    l.col(m) as int,
                    Column {
                        size: (self.columns@[l.col(m) as int].size + 1) as usize,
                        ..self.columns@[l.col(m) as int]
                    },
                ) =~= before.columns);
            }
            let column = self.nodes[m].column;
            Self::increment_size(&mut self.columns, column);
            BaseNode::uncover_vertical(&mut self.links, m);
            b += 1;
        }
    }
}

impl SparseGrid {
    /// The matrix and the stack of covered columns.
    pub closed spec fn view_model(&self) -> GridModel {
        GridModel {
            num_columns: self.layout@.num_columns,
            num_rows: self.layout@.num_rows,
            ones: self.layout@.ones(),
            covered: self.stack@,
        }
    }

    /// No covered column holds an entry of a row exactly if no covered
    /// column has a one in it.
    proof fn lemma_row_live(&self, r: usize)
        requires
            self.inv(),
            1 <= r <= self.layout@.num_rows,
        ensures
            row_live(self.layout@, self.stack@, r as int) <==> self.view_model().row_live(r),
    {
        let l = self.layout@;
        let ring = l.row_ring[r as int];
        assert(l.row_ok(r as int));
        if row_live(l, self.stack@, r as int) {
            assert forall|c: usize| self.stack@.contains(c) implies !l.ones().contains((r, c)) by {
                if l.ones().contains((r, c)) {
                    let x = choose|x: usize| l.is_node(x) && l.row(x) == r && l.col(x) == c;
                    assert(l.node_ok(x));
                    assert(ring[l.row_pos[x as int]] == x);
                }
            }
        }
        if self.view_model().row_live(r) {
            assert forall|t: int| 0 <= t < ring.len() implies !self.stack@.contains(
                l.col(#[trigger] ring[t]),
            ) by {
                let x = ring[t];
                let m = self.view_model();
                assert(l.is_node(x) && l.row(x) == r);
                assert(m.ones.contains((r, l.col(x))));
                if self.stack@.contains(l.col(x)) {
                    assert(m.covered.contains(l.col(x)));
                    assert(!m.ones.contains((r, l.col(x))));
                }
            }
        }
    }

    /// The rows of the entries of an uncovered column are the live rows of
    /// that column.
    proof fn lemma_live_rows(&self, column: usize)
        requires
            self.inv(),
            self.layout@.is_column(column),
            !self.stack@.contains(column),
        ensures
            self.state().lists[column as int].len() == self.view_model().live_rows(column).len(),
            forall|k: int|
                0 <= k < self.state().lists[column as int].len() ==> self.layout@.row(
                    #[trigger] self.state().lists[column as int][k],
                ) == self.view_model().live_rows(column)[k],
    {
        let l = self.layout@;
        let s = self.state();
        let m = self.view_model();
        lemma_state_after(l, self.origin@, self.stack@);
        assert(state::column_ok(l, s, column as int));
        let list = s.lists[column as int];
        let rows = Seq::new(list.len(), |k: int| l.row(list[k]));
        let pred = |r: usize| m.ones.contains((r, column)) && m.row_live(r);
        assert(strictly_ascending(rows)) by {
            assert forall|i: int, j: int| 0 <= i < j < rows.len() implies #[trigger] rows[i]
                < #[trigger] rows[j] by {
                assert(l.row(list[i]) < l.row(list[j]));
            }
        }
        assert forall|r: usize| rows.contains(r) <==> (1 <= r <= l.num_rows && pred(r)) by {
            if rows.contains(r) {
                let k = choose|k: int| 0 <= k < rows.len() && rows[k] == r;
                let x = list[k];
                assert(l.is_node(x) && l.col(x) == column);
                assert(l.node_ok(x));
                assert(present(l, s, x));
                self.lemma_row_live(r);
                assert(l.ones().contains((r, column)));
            }
            if 1 <= r <= l.num_rows && pred(r) {
                let x = choose|x: usize| l.is_node(x) && l.row(x) == r && l.col(x) == column;
                self.lemma_row_live(r);
                assert(present(l, s, x));
                let k = choose|k: int| 0 <= k < list.len() && list[k] == x;
                assert(rows[k] == r);
            }
        }
        lemma_ascending_filter(rows, l.num_rows, pred);
        assert forall|k: int| 0 <= k < list.len() implies l.row(#[trigger] list[k]) == m.live_rows(
            column,
        )[k] by {
            assert(rows[k] == l.row(list[k]));
        }
    }
}

impl SparseGrid {
    /// Builds the rings of the matrix with the given ones: one ring per
    /// column, by ascending row, and one ring per row, by ascending column.
    fn build(num_columns: usize, coordinates: Vec<(usize, usize)>) -> (grid: Self)
        requires
            coordinates_ok(num_columns, coordinates@),
        ensures
            grid.inv(),
            grid.view_model() == initial_model(num_columns, coordinates@),
    {
        let buckets = bucket_rows(num_columns, &coordinates);
        let max_row = largest_row(&coordinates);
        proof {
            lemma_max_row_below(coordinates@, usize::MAX);
        }
        let (mut links, mut nodes, mut columns) = header_arena(num_columns);
        let mut first_in_row = row_table(max_row);
        let mut last_in_row = row_table(max_row);
        let ghost mut l = empty_layout(num_columns, max_row);
        let ghost mut s = empty_state(num_columns);
        proof {
            lemma_empty(num_columns, max_row);
            assert(nodes@ =~= l.nodes);
            assert forall|r: int| 1 <= r <= l.num_rows implies #[trigger] row_table_ok(
                l,
                first_in_row@,
                last_in_row@,
                r,
            ) by {}
            assert forall|r: usize, c: usize| #[trigger]
                l.ones().contains((r, c)) <==> (1 <= c < 1 && buckets@[c - 1]@.contains(r)) by {}
        }
        let mut j: usize = 1;
        while j <= num_columns
            invariant
                1 <= j <= num_columns + 1,
                coordinates_ok(num_columns, coordinates@),
                max_row == crate::grid::max_row(coordinates@),
                buckets@.len() == num_columns,
                forall|c: int| 0 <= c < num_columns ==> strictly_ascending(#[trigger] buckets@[c]@),
                forall|c: int, r: usize|
                    0 <= c < num_columns ==> (#[trigger] buckets@[c]@.contains(r)
                        <==> coordinates@.contains((r, (c + 1) as usize))),
                total_len(buckets@, num_columns as int) <= coordinates@.len(),
                building(l, s, links@, nodes@, columns@, first_in_row@, last_in_row@),
                l.num_columns == num_columns,
                l.num_rows == max_row,
                links@.len() == num_columns + 1 + total_len(buckets@, j - 1),
                forall|x: usize| l.is_node(x) ==> #[trigger] l.col(x) < j,
                forall|r: usize, c: usize| #[trigger]
                    l.ones().contains((r, c)) <==> (1 <= c < j && buckets@[c - 1]@.contains(r)),
            decreases num_columns + 1 - j,
        {
            let bucket = &buckets[j - 1];
            let mut k: usize = 0;
            proof {
                assert(bucket@.take(0) =~= Seq::<usize>::empty());
            }
            while k < bucket.len()
                invariant
                    1 <= j <= num_columns,
                    coordinates_ok(num_columns, coordinates@),
                    max_row == crate::grid::max_row(coordinates@),
                    buckets@.len() == num_columns,
                    bucket@ == buckets@[j - 1]@,
                    strictly_ascending(bucket@),
                    forall|c: int, r: usize|
                        0 <= c < num_columns ==> (#[trigger] buckets@[c]@.contains(r)
                            <==> coordinates@.contains((r, (c + 1) as usize))),
                    total_len(buckets@, num_columns as int) <= coordinates@.len(),
                    building(l, s, links@, nodes@, columns@, first_in_row@, last_in_row@),
                    l.num_columns == num_columns,
                    l.num_rows == max_row,
                    0 <= k <= bucket@.len(),
                    links@.len() == num_columns + 1 + total_len(buckets@, j - 1) + k,
                    forall|x: usize|
                        l.is_node(x) ==> (#[trigger] l.col(x) < j || (l.col(x) == j
                            && bucket@.take(k as int).contains(l.row(x)))),
                    forall|r: usize, c: usize| #[trigger]
                        l.ones().contains((r, c)) <==> ((1 <= c < j && buckets@[c - 1]@.contains(
                            r,
                        )) || (c == j && bucket@.take(k as int).contains(r))),
                decreases bucket@.len() - k,
            {
                let row = bucket[k];
                let ghost seen = bucket@.take(k as int);
                proof {
                    lemma_total_len_monotonic(buckets@, j as int, num_columns as int);
                    assert(bucket@.contains(row));
                    assert(coordinates@.contains((row, j)));
                    let i = choose|i: int| 0 <= i < coordinates@.len() && coordinates@[i] == (row, j);
                    lemma_max_row(coordinates@, i);
                    assert forall|x: usize| l.is_node(x) implies (#[trigger] l.col(x) < j || (l.col(
                        x,
                    ) == j && l.row(x) < row)) by {
                        if l.col(x) == j {
                            let t = choose|t: int| 0 <= t < seen.len() && seen[t] == l.row(x);
                            assert(bucket@[t] < bucket@[k as int]);
                        }
                    }
                    lemma_grown_ones(l, row, j);
                }
                append_entry(
                    &mut links,
                    &mut nodes,
                    &mut columns,
                    &mut first_in_row,
                    &mut last_in_row,
                    row,
                    j,
                    Ghost(l),
                    Ghost(s),
                );
                proof {
                    let l2 = grown_layout(l, row, j);
                    let now = bucket@.take(k + 1);
                    assert(now =~= seen.push(row));
                    assert forall|x: usize| l2.is_node(x) implies (#[trigger] l2.col(x) < j || (
                    l2.col(x) == j && now.contains(l2.row(x)))) by {
                        if l.is_node(x) {
                            assert(l.col(x) < j || (l.col(x) == j && seen.contains(l.row(x))));
                            lemma_push_contains(seen, row, l.row(x));
                        } else {
                            lemma_push_contains(seen, row, row);
                        }
                    }
                    assert forall|r: usize, c: usize| #[trigger]
                        l2.ones().contains((r, c)) <==> ((1 <= c < j && buckets@[c - 1]@.contains(
                            r,
                        )) || (c == j && now.contains(r))) by {
                        lemma_push_contains(seen, row, r);
                        assert(l.ones().contains((r, c)) <==> ((1 <= c < j && buckets@[c
                            - 1]@.contains(r)) || (c == j && seen.contains(r))));
                    }
                    s = grown_state(l, s, row, j);
                    l = l2;
                }
                k += 1;
            }
            proof {
                assert(bucket@.take(k as int) =~= bucket@);
                assert forall|r: usize, c: usize| #[trigger]
                    l.ones().contains((r, c)) <==> (1 <= c < j + 1 && buckets@[c - 1]@.contains(
                        r,
                    )) by {}
            }
            j += 1;
        }
        proof {
            assert(l.ones() =~= coordinates@.to_set()) by {
                assert forall|rc: (usize, usize)| l.ones().contains(rc) <==> coordinates@.to_set().contains(
                    rc,
                ) by {
                    let (r, c) = rc;
                    assert(l.ones().contains((r, c)) <==> (1 <= c < j && buckets@[c - 1]@.contains(
                        r,
                    )));
                    if 1 <= c <= num_columns {
                        assert(buckets@[c - 1]@.contains(r) <==> coordinates@.contains(
                            (r, ((c - 1) + 1) as usize),
                        ));
                    }
                    if coordinates@.contains(rc) {
                        let i = choose|i: int| 0 <= i < coordinates@.len() && coordinates@[i] == rc;
                        assert(1 <= coordinates@[i].1 <= num_columns);
                    }
                }
            }
            assert(state_after(l, s, Seq::<usize>::empty()) == s);
        }
        SparseGrid {
            links,
            nodes,
            columns,
            num_columns,
            max_row,
            layout: Ghost(l),
            origin: Ghost(s),
            stack: Ghost(Seq::empty()),
        }
    }
}

impl Grid for SparseGrid {
    closed spec fn wf(&self) -> bool {
        self.inv()
    }

    closed spec fn model(&self) -> GridModel {
        self.view_model()
    }

    closed spec fn is_row_handle(&self, row: usize) -> bool {
        self.layout@.is_node(row)
    }

    closed spec fn row_of(&self, row: usize) -> usize {
        self.layout@.row(row)
    }

    open spec fn can_hold(num_columns: usize, coordinates: Seq<(usize, usize)>) -> bool {
        true
    }

    fn new(num_columns: usize, coordinates: Vec<(usize, usize)>) -> (grid: Self) {
        Self::build(num_columns, coordinates)
    }

    fn cover(&mut self, column: usize)
        ensures
            final(self).layout() == old(self).layout(),
            final(self).origin() == old(self).origin(),
    {
        let ghost l = self.layout@;
        let ghost origin = self.origin@;
        let ghost stack = self.stack@;
        let ghost s = state_after(l, origin, stack);
        let ghost s1 = hide_column(s, column);
        let ghost list = s.lists[column as int];
        let ghost ops = cover_ops(l, list, list.len() as int);
        proof {
            lemma_state_after(l, origin, stack);
            lemma_cover_state(l, s, stack, column);
            lemma_hide_column(l, s, column);
            lemma_column_walk(l, s1, column);
        }
        BaseNode::cover_horizontal(&mut self.links, column);
        let mut header = self.columns[column];
        header.is_covered = true;
        self.columns.set(column, header);
        let rows = down(&self.links, column, Some(column));
        let mut a: usize = 0;
        let ghost mut done: int = 0;
        proof {
            assert(ops.take(0) =~= Seq::<usize>::empty());
        }
        while a < rows.len()
            invariant
                l == self.layout@,
                origin == self.origin@,
                stack == self.stack@,
                l.ok(),
                valid(l, s1),
                can_unlink(l, s1, ops),
                self.nodes@ == l.nodes,
                self.num_columns == old(self).num_columns,
                self.max_row == old(self).max_row,
                rows@ == list,
                ops == cover_ops(l, list, list.len() as int),
                forall|k: int| 0 <= k < list.len() ==> l.is_node(#[trigger] list[k]),
                0 <= a <= rows@.len(),
                done == cover_ops(l, list, a as int).len(),
                self.links@ == unlink_all(l, s1, ops.take(done)).links,
                self.columns@ == unlink_all(l, s1, ops.take(done)).columns,
            decreases rows@.len() - a,
        {
            let node = rows[a];
            proof {
                lemma_cover_ops_prefix(l, list, a as int, list.len() as int);
                lemma_cover_ops_prefix(l, list, a + 1, list.len() as int);
                let next = cover_ops(l, list, a + 1);
                assert(next == cover_ops(l, list, a as int) + row_others(l, node));
                assert(ops.subrange(done, done + row_others(l, node).len()) =~= row_others(
                    l,
                    node,
                )) by {
                    assert forall|i: int| 0 <= i < row_others(l, node).len() implies ops[done + i]
                        == row_others(l, node)[i] by {
                        assert(ops.take(next.len() as int)[done + i] == next[done + i]);
                    }
                }
            }
            self.cover_row(node, Ghost(s1), Ghost(ops), Ghost(done));
            proof {
                done = done + row_others(l, node).len();
            }
            a += 1;
        }
        proof {
            let longer = stack.push(column);
            assert(ops.take(done) =~= ops);
            assert(longer.drop_last() =~= stack);
            assert(state_after(l, origin, longer) == cover_state(l, s, column));
            assert(stack_ok(l, longer)) by {
                assert forall|i: int, j: int|
                    0 <= i < longer.len() && 0 <= j < longer.len() && i != j implies longer[i]
                    != longer[j] by {
                    if i < stack.len() && j < stack.len() {
                        assert(stack[i] != stack[j]);
                    } else if i < stack.len() {
                        assert(stack.contains(stack[i]));
                    } else {
                        assert(stack.contains(stack[j]));
                    }
                }
            }
        }
        self.stack = Ghost(stack.push(column));
    }

    fn uncover(&mut self, column: usize)
        ensures
            final(self).layout() == old(self).layout(),
            final(self).origin() == old(self).origin(),
    {
        let ghost l = self.layout@;
        let ghost origin = self.origin@;
        let ghost stack = self.stack@;
        let ghost shorter = stack.drop_last();
        let ghost s = state_after(l, origin, shorter);
        let ghost s1 = hide_column(s, column);
        let ghost list = s.lists[column as int];
        let ghost ops = cover_ops(l, list, list.len() as int);
        let ghost end = cover_state(l, s, column);
        proof {
            assert(stack_ok(l, shorter)) by {
                assert forall|i: int, j: int|
                    0 <= i < shorter.len() && 0 <= j < shorter.len() && i != j implies shorter[i]
                    != shorter[j] by {
                    assert(stack[i] != stack[j]);
                }
                assert forall|k: int| 0 <= k < shorter.len() implies l.is_column(
                    #[trigger] shorter[k],
                ) by {
                    assert(shorter[k] == stack[k]);
                }
            }
            assert(!shorter.contains(column)) by {
                if shorter.contains(column) {
                    let k = choose|k: int| 0 <= k < shorter.len() && shorter[k] == column;
                    assert(stack[k] == stack[stack.len() - 1]);
                }
            }
            assert(l.is_column(stack[stack.len() - 1]));
            lemma_state_after(l, origin, shorter);
            lemma_cover_state(l, s, shorter, column);
            lemma_hide_column(l, s, column);
            assert(state_after(l, origin, stack) == end);
            lemma_column_walk(l, end, column);
            assert(ops.take(ops.len() as int) =~= ops);
        }
        let rows = up(&self.links, column, Some(column));
        let mut a: usize = 0;
        let ghost mut done: int = ops.len() as int;
        while a < rows.len()
            invariant
                l == self.layout@,
                origin == self.origin@,
                stack == self.stack@,
                l.ok(),
                valid(l, s1),
                can_unlink(l, s1, ops),
                self.nodes@ == l.nodes,
                self.num_columns == old(self).num_columns,
                self.max_row == old(self).max_row,
                rows@ == list.reverse(),
                ops == cover_ops(l, list, list.len() as int),
                forall|k: int| 0 <= k < list.len() ==> l.is_node(#[trigger] list[k]),
                0 <= a <= rows@.len(),
                done == cover_ops(l, list, list.len() - a).len(),
                self.links@ == unlink_all(l, s1, ops.take(done)).links,
                self.columns@ == unlink_all(l, s1, ops.take(done)).columns,
            decreases rows@.len() - a,
        {
            let node = rows[a];
            let ghost at = list.len() - a - 1;
            let ghost start = cover_ops(l, list, at).len() as int;
            proof {
                assert(node == list[at]);
                lemma_cover_ops_prefix(l, list, at, list.len() as int);
                lemma_cover_ops_prefix(l, list, at + 1, list.len() as int);
                let next = cover_ops(l, list, at + 1);
                assert(next == cover_ops(l, list, at) + row_others(l, node));
                assert(ops.subrange(start, start + row_others(l, node).len()) =~= row_others(
                    l,
                    node,
                )) by {
                    assert forall|i: int| 0 <= i < row_others(l, node).len() implies ops[start + i]
                        == row_others(l, node)[i] by {
                        assert(ops.take(next.len() as int)[start + i] == next[start + i]);
                    }
                }
            }
            self.uncover_row(node, Ghost(s1), Ghost(ops), Ghost(start));
            proof {
                done = start;
            }
            a += 1;
        }
        proof {
            assert(ops.take(0) =~= Seq::<usize>::empty());
            assert(self.links@ == s1.links);
            assert(self.columns@ == s1.columns);
        }
        BaseNode::uncover_horizontal(&mut self.links, column);
        let mut header = self.columns[column];
        header.is_covered = false;
        self.columns.set(column, header);
        proof {
            assert(self.columns@ =~= s.columns);
        }
        self.stack = Ghost(shorter);
    }

    fn uncovered_columns(&self) -> (columns: Vec<usize>) {
        proof {
            let l = self.layout@;
            let s = self.state();
            lemma_state_after(l, self.origin@, self.stack@);
            lemma_header_walk(l, s);
            let stack = self.stack@;
            let pred = |c: usize| !stack.contains(c);
            assert forall|x: usize| s.headers.contains(x) <==> (1 <= x <= l.num_columns && pred(
                x,
            )) by {
                if s.headers.contains(x) {
                    let k = choose|k: int| 0 <= k < s.headers.len() && s.headers[k] == x;
                    assert(l.is_column(s.headers[k]));
                }
                if l.is_column(x) {
                    assert(s.columns[x as int].is_covered <==> stack.contains(x));
                }
            }
            lemma_ascending_filter(s.headers, l.num_columns, pred);
        }
        right(&self.links, 0, Some(0))
    }

    fn uncovered_rows_in_column(&self, column: usize) -> (rows: Vec<usize>) {
        proof {
            lemma_state_after(self.layout@, self.origin@, self.stack@);
            lemma_column_walk(self.layout@, self.state(), column);
            self.lemma_live_rows(column);
        }
        down(&self.links, column, Some(column))
    }

    fn column_id(&self, column: usize) -> (id: usize)
        ensures
            column < self.columns().len(),
            id == self.columns()[column as int].index,
    {
        proof {
            lemma_state_after(self.layout@, self.origin@, self.stack@);
            assert(state::column_ok(self.layout@, self.state(), column as int));
        }
        self.columns[column].index
    }

    fn row_id(&self, row: usize) -> (id: usize) {
        proof {
            assert(self.layout@.node_ok(row));
        }
        self.nodes[row].row
    }

    fn column_size(&self, column: usize) -> (size: usize) {
        proof {
            lemma_state_after(self.layout@, self.origin@, self.stack@);
            assert(state::column_ok(self.layout@, self.state(), column as int));
            self.lemma_live_rows(column);
        }
        self.columns[column].size
    }

    fn uncovered_columns_in_row(&self, row: usize) -> (columns: Vec<usize>) {
        let ghost l = self.layout@;
        let ghost s = self.state();
        let ghost m = self.view_model();
        proof {
            lemma_state_after(l, self.origin@, self.stack@);
            lemma_row_walk(l, s, row);
            assert(l.node_ok(row));
        }
        let others = right(&self.links, row, Some(row));
        let own = self.nodes[row].column;
        let mut columns: Vec<usize> = Vec::new();
        let mut b: usize = 0;
        while b < others.len()
            invariant
                self.inv(),
                l == self.layout@,
                s == self.state(),
                at_rest(l, s, self.stack@),
                l.is_node(row),
                own == l.col(row),
                others@ == row_others(l, row),
                0 <= b <= others@.len(),
                strictly_ascending(columns@),
                forall|c: usize| #[trigger]
                    columns@.contains(c) <==> !self.stack@.contains(c) && c < own && met(
                        l,
                        others@,
                        b as int,
                        c,
                    ),
            decreases others@.len() - b,
        {
            let node = others[b];
            proof {
                lemma_row_others_index(l, row, b as int);
                assert(l.node_ok(node));
            }
            let column = self.nodes[node].column;
            let ghost before = columns@;
            if column < own && !self.columns[column].is_covered {
                proof {
                    assert forall|k: int| 0 <= k < before.len() implies #[trigger] before[k]
                        < column by {
                        assert(before.contains(before[k]));
                        let i = choose|i: int|
                            0 <= i < b && l.col(#[trigger] others@[i]) == before[k];
                        lemma_row_others_order(l, row, i, b as int);
                    }
                }
                columns.push(column);
            }
            proof {
                assert(s.columns[column as int].is_covered <==> self.stack@.contains(column));
                assert forall|c: usize| #[trigger]
                    columns@.contains(c) <==> !self.stack@.contains(c) && c < own && met(
                        l,
                        others@,
                        b + 1,
                        c,
                    ) by {
                    lemma_push_contains(before, column, c);
                    lemma_met_step(l, others@, b as int, c);
                }
            }
            b += 1;
        }
        let ghost low = columns@;
        if !self.columns[own].is_covered {
            proof {
                assert forall|k: int| 0 <= k < low.len() implies #[trigger] low[k] < own by {
                    assert(low.contains(low[k]));
                }
            }
            columns.push(own);
        }
        let ghost mid = columns@;
        proof {
            assert(s.columns[own as int].is_covered <==> self.stack@.contains(own));
            assert forall|c: usize| #[trigger]
                mid.contains(c) <==> !self.stack@.contains(c) && c <= own && (c == own || met(
                    l,
                    others@,
                    others@.len() as int,
                    c,
                )) by {
                lemma_push_contains(low, own, c);
            }
        }
        b = 0;
        while b < others.len()
            invariant
                self.inv(),
                l == self.layout@,
                s == self.state(),
                at_rest(l, s, self.stack@),
                l.is_node(row),
                own == l.col(row),
                others@ == row_others(l, row),
                0 <= b <= others@.len(),
                strictly_ascending(columns@),
                forall|c: usize| #[trigger]
                    columns@.contains(c) <==> mid.contains(c) || (!self.stack@.contains(c) && c > own
                        && met(l, others@, b as int, c)),
                forall|c: usize| #[trigger] mid.contains(c) ==> c <= own,
            decreases others@.len() - b,
        {
            let node = others[b];
            proof {
                lemma_row_others_index(l, row, b as int);
                assert(l.node_ok(node));
            }
            let column = self.nodes[node].column;
            let ghost before = columns@;
            if column > own && !self.columns[column].is_covered {
                proof {
                    assert forall|k: int| 0 <= k < before.len() implies #[trigger] before[k]
                        < column by {
                        assert(before.contains(before[k]));
                        if !mid.contains(before[k]) {
                            let i = choose|i: int|
                                0 <= i < b && l.col(#[trigger] others@[i]) == before[k];
                            lemma_row_others_order(l, row, i, b as int);
                        }
                    }
                }
                columns.push(column);
            }
            proof {
                assert(s.columns[column as int].is_covered <==> self.stack@.contains(column));
                assert forall|c: usize| #[trigger]
                    columns@.contains(c) <==> mid.contains(c) || (!self.stack@.contains(c) && c > own
                        && met(l, others@, b + 1, c)) by {
                    lemma_push_contains(before, column, c);
                    lemma_met_step(l, others@, b as int, c);
                }
            }
            b += 1;
        }
        proof {
            let r = l.row(row);
            let ring = l.row_ring[r as int];
            let p = l.row_pos[row as int];
            let pred = |c: usize| m.ones.contains((r, c)) && !m.covered.contains(c);
            assert(l.row_ok(r as int));
            assert forall|c: usize| columns@.contains(c) <==> (1 <= c <= l.num_columns && pred(c)) by {
                if columns@.contains(c) {
                    if c == own {
                        assert(l.ones().contains((r, c)));
                    } else {
                        assert(met(l, others@, others@.len() as int, c));
                        let i = choose|i: int|
                            0 <= i < others@.len() && l.col(#[trigger] others@[i]) == c;
                        lemma_row_others_index(l, row, i);
                        assert(l.node_ok(others@[i]));
                        assert(l.ones().contains((r, c)));
                    }
                }
                if 1 <= c <= l.num_columns && pred(c) {
                    let x = choose|x: usize| l.is_node(x) && l.row(x) == r && l.col(x) == c;
                    assert(l.node_ok(x));
                    let t = l.row_pos[x as int];
                    assert(ring[t] == x);
                    if x != row {
                        let w = ring.len() as int;
                        let i = if t > p { t - p - 1 } else { t + (w - p - 1) };
                        assert(ring[p] == row);
                        assert(others@[i] == x);
                        lemma_row_others_index(l, row, i);
                        assert(met(l, others@, others@.len() as int, c));
                    }
                }
            }
            lemma_ascending_filter(columns@, l.num_columns, pred);
        }
        columns
    }
}

impl SparseGrid {
    /// The one at `(row, column)` has not been hidden: neither its column
    /// nor any column with a one in its row is covered.
    pub open spec fn shows(m: GridModel, row: usize, column: usize) -> bool {
        m.ones.contains((row, column)) && !m.covered.contains(column) && m.row_live(row)
    }

    /// Return true if there are no uncovered columns in the grid.
    pub fn is_empty(&self) -> (empty: bool)
        requires
            self.wf(),
        ensures
            empty == (self.model().uncovered_columns().len() == 0),
    {
        proof {
            self.lemma_root_walk_is_uncovered();
            let s = self.state();
            lemma_state_after(self.layout@, self.origin@, self.stack@);
            let ring = state::header_ring(s);
            assert(ring::linked_at(s.links, ring, Direction::Right, 0));
            lemma_ring_walk(s.links, ring, Direction::Right);
            assert(ring.skip(1) =~= s.headers);
            if s.headers.len() > 0 {
                assert(self.layout@.is_column(s.headers[0]));
            }
        }
        self.links[0].right == 0
    }

    /// Return the handle of the column with the given index, if there is
    /// one. Index 0 names the root sentinel.
    pub fn get_column(&self, index: usize) -> (column: Option<usize>)
        requires
            self.wf(),
        ensures
            column == (if index <= self.model().num_columns {
                Some(index)
            } else {
                None
            }),
    {
        if index <= self.num_columns {
            Some(index)
        } else {
            None
        }
    }

    /// Return the handles of all columns of the grid, covered or not,
    /// ascending.
    pub fn all_columns(&self) -> (columns: Vec<usize>)
        requires
            self.wf(),
        ensures
            columns@ == indices(self.model().num_columns),
    {
        let mut columns: Vec<usize> = Vec::new();
        let mut index: usize = 0;
        while index < self.num_columns
            invariant
                0 <= index <= self.num_columns,
                columns@ =~= indices(index as nat),
            decreases self.num_columns - index,
        {
            columns.push(index + 1);
            index += 1;
        }
        columns
    }

    /// Convert the grid to a dense representation: one list of cells for
    /// every row up to the largest, true where a one has not been hidden.
    /// A grid without columns has no rows.
    pub fn to_dense(&self) -> (dense: Vec<Vec<bool>>)
        requires
            self.wf(),
        ensures
            dense@.len() == (if self.model().num_columns == 0 {
                0
            } else {
                self.model().num_rows
            }),
            forall|r: int|
                0 <= r < dense@.len() ==> (#[trigger] dense@[r])@.len() == self.model().num_columns,
            forall|r: int, c: int|
                0 <= r < dense@.len() && 0 <= c < self.model().num_columns ==> #[trigger] dense@[r]@[c]
                    == Self::shows(self.model(), (r + 1) as usize, (c + 1) as usize),
    {
        let ghost l = self.layout@;
        let ghost s = self.state();
        let ghost m = self.view_model();
        let mut dense: Vec<Vec<bool>> = Vec::new();
        if self.num_columns == 0 {
            return dense;
        }
        let mut r: usize = 0;
        while r < self.max_row
            invariant
                0 <= r <= self.max_row,
                dense@.len() == r,
                forall|k: int| 0 <= k < r ==> (#[trigger] dense@[k])@.len() == self.num_columns,
                forall|k: int, c: int|
                    0 <= k < r && 0 <= c < self.num_columns ==> !(#[trigger] dense@[k]@[c]),
            decreases self.max_row - r,
        {
            let mut row: Vec<bool> = Vec::new();
            let mut c: usize = 0;
            while c < self.num_columns
                invariant
                    0 <= c <= self.num_columns,
                    row@.len() == c,
                    forall|k: int| 0 <= k < c ==> !(#[trigger] row@[k]),
                decreases self.num_columns - c,
            {
                row.push(false);
                c += 1;
            }
            dense.push(row);
            r += 1;
        }
        let columns = self.uncovered_columns();
        proof {
            lemma_state_after(l, self.origin@, self.stack@);
            lemma_filter_indices(l.num_columns, |c: usize| !m.covered.contains(c));
        }
        let mut k: usize = 0;
        while k < columns.len()
            invariant
                self.inv(),
                l == self.layout@,
                s == self.state(),
                m == self.view_model(),
                at_rest(l, s, self.stack@),
                columns@ == m.uncovered_columns(),
                strictly_ascending(columns@),
                forall|x: usize|
                    columns@.contains(x) <==> (1 <= x <= l.num_columns && !m.covered.contains(x)),
                0 <= k <= columns@.len(),
                dense@.len() == self.max_row,
                forall|r: int| 0 <= r < dense@.len() ==> (#[trigger] dense@[r])@.len() == self.num_columns,
                forall|r: int, c: int|
                    0 <= r < dense@.len() && 0 <= c < self.num_columns ==> #[trigger] dense@[r]@[c] == (
                    Self::shows(m, (r + 1) as usize, (c + 1) as usize) && exists|i: int|
                        0 <= i < k && #[trigger] columns@[i] == c + 1),
            decreases columns@.len() - k,
        {
            let column = columns[k];
            proof {
                assert(columns@.contains(column));
                lemma_column_walk(l, s, column);
                self.lemma_live_rows(column);
            }
            let rows = down(&self.links, column, Some(column));
            let ghost list = s.lists[column as int];
            let ghost start = dense@;
            let mut i: usize = 0;
            while i < rows.len()
                invariant
                    self.inv(),
                    l == self.layout@,
                    s == self.state(),
                    m == self.view_model(),
                    at_rest(l, s, self.stack@),
                    l.is_column(column),
                    !self.stack@.contains(column),
                    rows@ == list,
                    list == s.lists[column as int],
                    forall|j: int|
                        0 <= j < list.len() ==> l.is_node(#[trigger] list[j]) && l.col(list[j])
                            == column,
                    0 <= i <= rows@.len(),
                    dense@.len() == self.max_row,
                    start.len() == self.max_row,
                    forall|r: int|
                        0 <= r < dense@.len() ==> (#[trigger] dense@[r])@.len() == self.num_columns,
                    forall|r: int, c: int|
                        0 <= r < dense@.len() && 0 <= c < self.num_columns ==> #[trigger] dense@[r]@[c]
                            == (if c + 1 == column {
                            exists|j: int| 0 <= j < i && l.row(#[trigger] list[j]) == r + 1
                        } else {
                            start[r]@[c]
                        }),
                decreases rows@.len() - i,
            {
                let node = rows[i];
                proof {
                    assert(l.is_node(list[i as int]));
                    assert(l.node_ok(node));
                }
                let row = self.nodes[node].row;
                let ghost before = dense@;
                dense[row - 1].set(column - 1, true);
                proof {
                    assert forall|r: int, c: int|
                        0 <= r < dense@.len() && 0 <= c < self.num_columns implies #[trigger] dense@[r]@[c]
                        == (if c + 1 == column {
                        exists|j: int| 0 <= j < i + 1 && l.row(#[trigger] list[j]) == r + 1
                    } else {
                        start[r]@[c]
                    }) by {
                        if c + 1 == column {
                            if r + 1 == row {
                                assert(l.row(list[i as int]) == r + 1);
                            } else {
                                assert(dense@[r]@[c] == before[r]@[c]);
                                if exists|j: int| 0 <= j < i + 1 && l.row(#[trigger] list[j]) == r + 1 {
                                    let j = choose|j: int|
                                        0 <= j < i + 1 && l.row(#[trigger] list[j]) == r + 1;
                                    assert(j < i);
                                }
                            }
                        } else {
                            assert(dense@[r]@[c] == before[r]@[c]);
                        }
                    }
                }
                i += 1;
            }
            proof {
                assert forall|r: int, c: int|
                    0 <= r < dense@.len() && 0 <= c < self.num_columns implies #[trigger] dense@[r]@[c]
                    == (Self::shows(m, (r + 1) as usize, (c + 1) as usize) && exists|i: int|
                    0 <= i < k + 1 && #[trigger] columns@[i] == c + 1) by {
                    let row = (r + 1) as usize;
                    if c + 1 == column {
                        assert(columns@[k as int] == c + 1);
                        // The entries of the column are its live rows.
                        let live = m.live_rows(column);
                        lemma_filter_indices(
                            l.num_rows,
                            |x: usize| m.ones.contains((x, column)) && m.row_live(x),
                        );
                        if exists|j: int| 0 <= j < list.len() && l.row(#[trigger] list[j]) == r + 1 {
                            let j = choose|j: int|
                                0 <= j < list.len() && l.row(#[trigger] list[j]) == r + 1;
                            assert(live[j] == row);
                            assert(live.contains(row));
                        }
                        if Self::shows(m, row, column) {
                            assert(live.contains(row));
                            let j = choose|j: int| 0 <= j < live.len() && live[j] == row;
                            assert(l.row(list[j]) == r + 1);
                        }
                    } else {
                        if exists|i: int| 0 <= i < k + 1 && #[trigger] columns@[i] == c + 1 {
                            let i = choose|i: int| 0 <= i < k + 1 && #[trigger] columns@[i] == c + 1;
                            assert(i < k);
                        }
                    }
                }
            }
            k += 1;
        }
        proof {
            assert forall|r: int, c: int|
                0 <= r < dense@.len() && 0 <= c < self.num_columns implies #[trigger] dense@[r]@[c]
                == Self::shows(m, (r + 1) as usize, (c + 1) as usize) by {
                let column = (c + 1) as usize;
                if Self::shows(m, (r + 1) as usize, column) {
                    assert(columns@.contains(column));
                    let i = choose|i: int| 0 <= i < columns@.len() && columns@[i] == column;
                    assert(columns@[i] == c + 1);
                }
            }
        }
        dense
    }
}

impl Column {
    /// Cover the column with the given handle, and every row that has an
    /// entry in it.
    pub fn cover(grid: &mut SparseGrid, column: usize)
        requires
            old(grid).wf(),
            old(grid).model().is_column(column),
            !old(grid).model().covered.contains(column),
        ensures
            final(grid).wf(),
            final(grid).model() == old(grid).model().cover(column),
            final(grid).layout() == old(grid).layout(),
            final(grid).origin() == old(grid).origin(),
    {
        grid.cover(column)
    }

    /// Uncover the column with the given handle, which must be the most
    /// recently covered one.
    pub fn uncover(grid: &mut SparseGrid, column: usize)
        requires
            old(grid).wf(),
            old(grid).model().covered.len() > 0,
            old(grid).model().covered.last() == column,
        ensures
            final(grid).wf(),
            final(grid).model() == old(grid).model().uncover(),
            final(grid).layout() == old(grid).layout(),
            final(grid).origin() == old(grid).origin(),
    {
        grid.uncover(column)
    }

    /// Return true if no row of an uncovered column is live.
    pub fn is_empty(grid: &SparseGrid, column: usize) -> (empty: bool)
        requires
            grid.wf(),
            grid.model().is_column(column),
            !grid.model().covered.contains(column),
        ensures
            empty == (grid.model().live_rows(column).len() == 0),
    {
        grid.column_size(column) == 0
    }

    /// Return the indices of the live rows of an uncovered column, top to
    /// bottom.
    pub fn row_indices(grid: &SparseGrid, column: usize) -> (indices: Vec<usize>)
        requires
            grid.wf(),
            grid.model().is_column(column),
            !grid.model().covered.contains(column),
        ensures
            indices@ == grid.model().live_rows(column),
    {
        let rows = grid.uncovered_rows_in_column(column);
        let mut indices: Vec<usize> = Vec::new();
        let mut i: usize = 0;
        while i < rows.len()
            invariant
                grid.wf(),
                rows@.len() == grid.model().live_rows(column).len(),
                forall|k: int|
                    0 <= k < rows@.len() ==> grid.is_row_handle(#[trigger] rows@[k]) && grid.row_of(
                        rows@[k],
                    ) == grid.model().live_rows(column)[k],
                0 <= i <= rows@.len(),
                indices@ == grid.model().live_rows(column).take(i as int),
            decreases rows@.len() - i,
        {
            let id = grid.row_id(rows[i]);
            indices.push(id);
            proof {
                let live = grid.model().live_rows(column);
                assert(live.take(i + 1) =~= live.take(i as int).push(live[i as int]));
            }
            i += 1;
        }
        proof {
            let live = grid.model().live_rows(column);
            assert(live.take(i as int) =~= live);
        }
        indices
    }

    /// Return handles to the live rows of an uncovered column, top to
    /// bottom.
    pub fn rows(grid: &SparseGrid, column: usize) -> (rows: Vec<usize>)
        requires
            grid.wf(),
            grid.model().is_column(column),
            !grid.model().covered.contains(column),
        ensures
            rows@.len() == grid.model().live_rows(column).len(),
            forall|i: int|
                0 <= i < rows@.len() ==> grid.is_row_handle(#[trigger] rows@[i]) && grid.row_of(
                    rows@[i],
                ) == grid.model().live_rows(column)[i],
    {
        grid.uncovered_rows_in_column(column)
    }

    /// Return the index that the header of the column carries. It is the
    /// column's handle.
    pub fn index(grid: &SparseGrid, column: usize) -> (index: usize)
        requires
            grid.wf(),
            grid.model().is_column(column),
        ensures
            column < grid.columns().len(),
            index == grid.columns()[column as int].index,
            index == column,
    {
        grid.column_id(column)
    }

    /// Return the number of live rows of an uncovered column.
    pub fn size(grid: &SparseGrid, column: usize) -> (size: usize)
        requires
            grid.wf(),
            grid.model().is_column(column),
            !grid.model().covered.contains(column),
        ensures
            size == grid.model().live_rows(column).len(),
    {
        grid.column_size(column)
    }
}

impl Node {
    /// Return the row index of the entry with the given handle.
    pub fn row_index(grid: &SparseGrid, node: usize) -> (row: usize)
        requires
            grid.wf(),
            grid.is_row_handle(node),
        ensures
            row == grid.row_of(node),
            1 <= row <= grid.model().num_rows,
    {
        grid.row_id(node)
    }

    /// Return the column index of the entry with the given handle.
    pub fn column_index(grid: &SparseGrid, node: usize) -> (column: usize)
        requires
            grid.wf(),
            grid.is_row_handle(node),
        ensures
            column == grid.layout().col(node),
            grid.model().is_column(column),
            grid.model().ones.contains((grid.row_of(node), column)),
    {
        proof {
            assert(grid.layout@.node_ok(node));
            assert(grid.layout@.ones().contains((grid.layout@.row(node), grid.layout@.col(node))));
        }
        grid.nodes[node].column
    }

    /// Return the handles of the other entries of the row of an entry, in
    /// the order in which the way to the left meets them.
    pub fn neighbors(grid: &SparseGrid, node: usize) -> (others: Vec<usize>)
        requires
            grid.wf(),
            grid.is_row_handle(node),
        ensures
            others@ == row_others(grid.layout(), node).reverse(),
            forall|i: int|
                0 <= i < others@.len() ==> grid.is_row_handle(#[trigger] others@[i]) && grid.row_of(
                    others@[i],
                ) == grid.row_of(node),
    {
        proof {
            let l = grid.layout@;
            lemma_state_after(l, grid.origin@, grid.stack@);
            lemma_row_walk(l, grid.state(), node);
            let forward = row_others(l, node);
            assert forall|i: int| 0 <= i < forward.len() implies l.is_node(
                #[trigger] forward.reverse()[i],
            ) && l.row(forward.reverse()[i]) == l.row(node) by {
                lemma_row_others_index(l, node, forward.len() - 1 - i);
            }
        }
        left(&grid.links, node, Some(node))
    }
}

/// A change of what is covered.
pub enum GridOp {
    /// Cover the column.
    Cover(usize),
    /// Uncover the column.
    Uncover(usize),
}

/// The stack of covered columns after the operations `ops` have been applied
/// to `stack`, in order; none if one of them is not allowed: a covered column
/// cannot be covered, and only the most recently covered can be uncovered.
pub open spec fn stack_after(stack: Seq<usize>, ops: Seq<GridOp>) -> Option<Seq<usize>>
    decreases ops.len(),
{
    if ops.len() == 0 {
        Some(stack)
    } else {
        match ops[0] {
            GridOp::Cover(column) => if stack.contains(column) {
                None
            } else {
                stack_after(stack.push(column), ops.skip(1))
            },
            GridOp::Uncover(column) => if stack.len() > 0 && stack.last() == column {
                stack_after(stack.drop_last(), ops.skip(1))
            } else {
                None
            },
        }
    }
}

/// Every cover of `ops` is matched by a later uncover of the same column,
/// and the other way round, like brackets.
pub open spec fn balanced(ops: Seq<GridOp>) -> bool {
    stack_after(Seq::empty(), ops) == Some(Seq::<usize>::empty())
}

/// Operations that take the stack `inner` to `result` take a stack that
/// ends in `inner` to one that ends in `result`, if they are allowed there.
pub proof fn lemma_stack_after_above(
    below: Seq<usize>,
    inner: Seq<usize>,
    ops: Seq<GridOp>,
    result: Seq<usize>,
)
    requires
        stack_after(inner, ops) == Some(result),
        stack_after(below + inner, ops) is Some,
    ensures
        stack_after(below + inner, ops) == Some(below + result),
    decreases ops.len(),
{
    if ops.len() > 0 {
        match ops[0] {
            GridOp::Cover(column) => {
                assert((below + inner).push(column) =~= below + inner.push(column));
                lemma_stack_after_above(below, inner.push(column), ops.skip(1), result);
            },
            GridOp::Uncover(column) => {
                assert((below + inner).drop_last() =~= below + inner.drop_last());
                lemma_stack_after_above(below, inner.drop_last(), ops.skip(1), result);
            },
        }
    }
}

impl SparseGrid {
    /// Entry `n` can be reached from the root sentinel: it is the root, or a
    /// header met on the way to the right from the root, or an entry met
    /// on the way down from such a header.
    pub open spec fn is_live(&self, n: usize) -> bool {
        let headers = walk(self.links(), Direction::Right, 0);
        ||| n == 0
        ||| headers.contains(n)
        ||| exists|c: usize|
            headers.contains(c) && #[trigger] walk(self.links(), Direction::Down, c).contains(n)
    }

    /// The links and the column records of a grid are what covering the
    /// columns of its stack, one after the other, makes of the rings in
    /// which the grid was built; those were the rings of a matrix with
    /// nothing covered.
    pub proof fn lemma_links_are_state(&self)
        requires
            self.wf(),
        ensures
            self.layout().ok(),
            initial(self.layout(), self.origin()),
            stack_ok(self.layout(), self.model().covered),
            self.layout().ones() == self.model().ones,
            self.layout().num_columns == self.model().num_columns,
            self.layout().num_rows == self.model().num_rows,
            self.links() == state_after(self.layout(), self.origin(), self.model().covered).links,
            self.columns() == state_after(
                self.layout(),
                self.origin(),
                self.model().covered,
            ).columns,
            at_rest(
                self.layout(),
                state_after(self.layout(), self.origin(), self.model().covered),
                self.model().covered,
            ),
    {
        lemma_state_after(self.layout@, self.origin@, self.stack@);
    }

    /// After any balanced sequence of cover and uncover operations, every
    /// link and every column record of the grid is what it was before.
    pub proof fn lemma_balanced_restores(&self, after: &SparseGrid, ops: Seq<GridOp>)
        requires
            self.wf(),
            after.wf(),
            after.layout() == self.layout(),
            after.origin() == self.origin(),
            balanced(ops),
            stack_after(self.model().covered, ops) == Some(after.model().covered),
        ensures
            after.links() == self.links(),
            after.columns() == self.columns(),
    {
        let stack = self.model().covered;
        assert(Seq::<usize>::empty() + Seq::<usize>::empty() =~= Seq::<usize>::empty());
        assert(stack + Seq::<usize>::empty() =~= stack);
        lemma_stack_after_above(stack, Seq::empty(), ops, Seq::empty());
    }

    /// The size that a column header records is the number of entries
    /// met on the way down from the header.
    pub proof fn lemma_size_counts_entries(&self, column: usize)
        requires
            self.wf(),
            self.model().is_column(column),
        ensures
            walk(self.links(), Direction::Down, column).len() == self.columns()[column as int].size,
    {
        let l = self.layout@;
        let s = self.state();
        lemma_state_after(l, self.origin@, self.stack@);
        assert(state::column_ok(l, s, column as int));
        let ring = state::column_ring(s, column as int);
        lemma_ring_walk(s.links, ring, Direction::Down);
        assert(ring.skip(1) =~= s.lists[column as int]);
    }

    /// The way to the right from the root sentinel meets exactly the
    /// columns that are not covered, each once.
    pub proof fn lemma_root_walk_is_uncovered(&self)
        requires
            self.wf(),
        ensures
            walk(self.links(), Direction::Right, 0).no_duplicates(),
            forall|c: usize|
                walk(self.links(), Direction::Right, 0).contains(c) <==> (self.model().is_column(c)
                    && !(#[trigger] self.columns()[c as int]).is_covered),
            walk(self.links(), Direction::Right, 0) == self.model().uncovered_columns(),
    {
        let l = self.layout@;
        let s = self.state();
        let stack = self.stack@;
        lemma_state_after(l, self.origin@, stack);
        let ring = state::header_ring(s);
        lemma_ring_walk(s.links, ring, Direction::Right);
        assert(ring.skip(1) =~= s.headers);
        assert(s.headers.no_duplicates()) by {
            assert forall|i: int, j: int|
                0 <= i < s.headers.len() && 0 <= j < s.headers.len() && i != j implies s.headers[i]
                != s.headers[j] by {
                if i < j {
                    assert(s.headers[i] < s.headers[j]);
                } else {
                    assert(s.headers[j] < s.headers[i]);
                }
            }
        }
        let pred = |c: usize| !stack.contains(c);
        assert forall|x: usize| s.headers.contains(x) <==> (1 <= x <= l.num_columns && pred(x)) by {
            if s.headers.contains(x) {
                let k = choose|k: int| 0 <= k < s.headers.len() && s.headers[k] == x;
                assert(l.is_column(s.headers[k]));
            }
            if l.is_column(x) {
                assert(s.columns[x as int].is_covered <==> stack.contains(x));
            }
        }
        lemma_ascending_filter(s.headers, l.num_columns, pred);
        assert forall|c: usize|
            s.headers.contains(c) <==> (self.view_model().is_column(c) && !(
            #[trigger] self.columns@[c as int]).is_covered) by {
            if s.headers.contains(c) {
                let k = choose|k: int| 0 <= k < s.headers.len() && s.headers[k] == c;
                assert(l.is_column(s.headers[k]));
            }
        }
    }

    /// Every entry that can be reached from the root is the right
    /// neighbour of its left neighbour, the left neighbour of its right
    /// neighbour, and the same above and below.
    pub proof fn lemma_links_reciprocal(&self, n: usize)
        requires
            self.wf(),
            self.is_live(n),
        ensures
            n < self.links().len(),
            self.links()[n as int].left < self.links().len(),
            self.links()[n as int].right < self.links().len(),
            self.links()[n as int].up < self.links().len(),
            self.links()[n as int].down < self.links().len(),
            self.links()[self.links()[n as int].left as int].right == n,
            self.links()[self.links()[n as int].right as int].left == n,
            self.links()[self.links()[n as int].up as int].down == n,
            self.links()[self.links()[n as int].down as int].up == n,
    {
        let l = self.layout@;
        let s = self.state();
        lemma_state_after(l, self.origin@, self.stack@);
        let hr = state::header_ring(s);
        lemma_ring_walk(s.links, hr, Direction::Right);
        assert(hr.skip(1) =~= s.headers);
        let headers = walk(s.links, Direction::Right, 0);
        if n == 0 {
            assert(hr[0] == 0);
            lemma_ring_reciprocal(s.links, hr, Direction::Right, n);
        } else if headers.contains(n) {
            let k = choose|k: int| 0 <= k < s.headers.len() && s.headers[k] == n;
            assert(hr[k + 1] == n);
            assert(l.is_column(s.headers[k]));
            lemma_ring_reciprocal(s.links, hr, Direction::Right, n);
            assert(state::column_ok(l, s, n as int));
            let cr = state::column_ring(s, n as int);
            assert(cr[0] == n);
            lemma_ring_reciprocal(s.links, cr, Direction::Down, n);
        } else {
            let c = choose|c: usize|
                headers.contains(c) && #[trigger] walk(s.links, Direction::Down, c).contains(n);
            let k = choose|k: int| 0 <= k < s.headers.len() && s.headers[k] == c;
            assert(l.is_column(s.headers[k]));
            assert(state::column_ok(l, s, c as int));
            let cr = state::column_ring(s, c as int);
            lemma_ring_walk(s.links, cr, Direction::Down);
            assert(cr.skip(1) =~= s.lists[c as int]);
            let list = s.lists[c as int];
            let at = choose|at: int| 0 <= at < list.len() && list[at] == n;
            assert(cr[at + 1] == n);
            lemma_ring_reciprocal(s.links, cr, Direction::Down, n);
            assert(l.is_node(list[at]));
            assert(l.node_ok(n));
            let r = l.row(n) as int;
            assert(state::row_linked(l, s, r));
            let rr = l.row_ring[r];
            assert(rr[l.row_pos[n as int]] == n);
            lemma_ring_reciprocal(s.links, rr, Direction::Right, n);
        }
    }
}

/// One of the first `b` entries of `others` lies in column `c`.
pub open spec fn met(l: Layout, others: Seq<usize>, b: int, c: usize) -> bool {
    exists|i: int| 0 <= i < b && l.col(#[trigger] others[i]) == c
}

/// An entry is among the first `b + 1` if it is among the first `b` or is the
/// one after them.
pub proof fn lemma_met_step(l: Layout, others: Seq<usize>, b: int, c: usize)
    requires
        0 <= b < others.len(),
    ensures
        met(l, others, b + 1, c) <==> (met(l, others, b, c) || l.col(others[b]) == c),
{
    if met(l, others, b + 1, c) {
        let i = choose|i: int| 0 <= i < b + 1 && l.col(#[trigger] others[i]) == c;
        if i < b {
            assert(met(l, others, b, c));
        }
    }
    if met(l, others, b, c) {
        let i = choose|i: int| 0 <= i < b && l.col(#[trigger] others[i]) == c;
        assert(0 <= i < b + 1 && l.col(others[i]) == c);
    }
}

} // verus!
