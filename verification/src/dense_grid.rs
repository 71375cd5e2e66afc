//! Dense `Grid` implementation for use in the `Solver`.
//!
//! The matrix is kept as a table of cells, and covering is a matter of
//! marking rows and columns. This is easy to audit and avoids chasing
//! links; for small matrices it is likely the faster backend.

use crate::grid::{
    coordinates_ok, indices, initial_model, largest_row, lemma_filter_indices, lemma_max_row,
    lemma_push_contains, max_row, Grid, GridModel,
};
use std::collections::HashSet;
use vstd::prelude::*;

verus! {

broadcast use vstd::std_specs::hash::group_hash_axioms;

/// A covered column and the rows that covering it has hidden.
pub struct Cover {
    column: usize,
    rows: Vec<usize>,
}

/// The table of cells and the marks of what is covered.
pub struct DenseGridInner {
    num_rows: usize,
    num_columns: usize,
    covered_columns: HashSet<usize>,
    covered_rows: HashSet<usize>,
    data: Vec<bool>,
    covers: Vec<Cover>,
}

/// Dense grid implementation
pub struct DenseGrid(DenseGridInner);

/// The place of the cell of row `row` and column `column`, both counted
/// from 0, in a table with `num_columns` columns.
pub open spec fn cell_index(row: int, column: int, num_columns: int) -> int {
    row * num_columns + column
}

/// The cell of row `row` and column `column`, both counted from 0, lies in a
/// table of `num_rows` rows.
pub proof fn lemma_cell_in_table(row: int, column: int, num_rows: int, num_columns: int)
    requires
        0 <= row < num_rows,
        0 <= column < num_columns,
    ensures
        0 <= row * num_columns <= cell_index(row, column, num_columns) < num_rows * num_columns,
{
    assert(0 <= row * num_columns && row * num_columns + column < num_rows * num_columns)
        by (nonlinear_arith)
        requires
            0 <= row < num_rows,
            0 <= column < num_columns,
    ;
}

/// Different cells stand at different places.
pub proof fn lemma_cell_index_injective(
    row: int,
    column: int,
    other_row: int,
    other_column: int,
    num_columns: int,
)
    requires
        0 <= column < num_columns,
        0 <= other_column < num_columns,
        cell_index(row, column, num_columns) == cell_index(other_row, other_column, num_columns),
    ensures
        row == other_row,
        column == other_column,
{
    vstd::arithmetic::div_mod::lemma_fundamental_div_mod_converse(
        row * num_columns + column,
        num_columns,
        row,
        column,
    );
    vstd::arithmetic::div_mod::lemma_fundamental_div_mod_converse(
        other_row * num_columns + other_column,
        num_columns,
        other_row,
        other_column,
    );
}

/// With one more column covered, a row stays live if it was live and has
/// no one in that column.
pub proof fn lemma_row_live_push(m: GridModel, column: usize, row: usize)
    ensures
        m.cover(column).row_live(row) <==> (m.row_live(row) && !m.ones.contains((row, column))),
{
    let after = m.cover(column);
    if after.row_live(row) {
        assert forall|c: usize| m.covered.contains(c) implies !m.ones.contains((row, c)) by {
            lemma_push_contains(m.covered, column, c);
            assert(after.covered.contains(c));
        }
        lemma_push_contains(m.covered, column, column);
        assert(after.covered.contains(column));
    }
    if m.row_live(row) && !m.ones.contains((row, column)) {
        assert forall|c: usize| after.covered.contains(c) implies !after.ones.contains(
            (row, c),
        ) by {
            lemma_push_contains(m.covered, column, c);
            if c != column {
                assert(m.covered.contains(c));
            }
        }
    }
}

impl DenseGridInner {
    /// The covered columns, the most recently covered last.
    pub closed spec fn stack(&self) -> Seq<usize> {
        self.covers@.map_values(|cover: Cover| cover.column)
    }

    /// The matrix has a one at `(row, column)`, both counted from 1.
    pub closed spec fn cell(&self, row: usize, column: usize) -> bool {
        &&& 1 <= row <= self.num_rows
        &&& 1 <= column <= self.num_columns
        &&& self.data@[cell_index(row - 1, column - 1, self.num_columns as int)]
    }

    /// The matrix and the stack of covered columns.
    pub closed spec fn model(&self) -> GridModel {
        GridModel {
            num_columns: self.num_columns as nat,
            num_rows: self.num_rows as nat,
            ones: Set::new(|rc: (usize, usize)| self.cell(rc.0, rc.1)),
            covered: self.stack(),
        }
    }

    /// The model at the time when the cover at position `i` was made.
    pub closed spec fn model_before(&self, i: int) -> GridModel {
        GridModel { covered: self.stack().take(i), ..self.model() }
    }

    /// The marks say what the stack of covers says: the marked columns are
    /// the covered ones, the marked rows are those with a one in a covered
    /// column, and every cover remembers the rows that it has hidden.
    pub closed spec fn inv(&self) -> bool {
        &&& self.data@.len() == self.num_rows * self.num_columns
        &&& self.stack().no_duplicates()
        &&& forall|i: int|
            0 <= i < self.stack().len() ==> 1 <= #[trigger] self.stack()[i] <= self.num_columns
        &&& forall|c: usize| #[trigger] self.covered_columns@.contains(c) <==> self.stack().contains(c)
        &&& forall|r: usize| #[trigger]
            self.covered_rows@.contains(r) <==> (1 <= r <= self.num_rows && !self.model().row_live(
                r,
            ))
        &&& forall|i: int|
            0 <= i < self.covers@.len() ==> (#[trigger] self.covers@[i]).rows@ == self.model_before(
                i,
            ).live_rows(self.covers@[i].column)
    }

    /// The row and the column, both counted from 0, of the cell at place
    /// `index` of a table with `num_columns` columns.
    pub fn to_row_column(index: usize, num_columns: usize) -> (place: (usize, usize))
        requires
            num_columns > 0,
        ensures
            place.0 == index / num_columns,
            place.1 == index % num_columns,
            cell_index(place.0 as int, place.1 as int, num_columns as int) == index,
    {
        proof {
            vstd::arithmetic::div_mod::lemma_fundamental_div_mod(index as int, num_columns as int);
            assert(num_columns * (index / num_columns) == (index / num_columns) * num_columns)
                by (nonlinear_arith);
        }
        let row = index / num_columns;
        let column = index % num_columns;
        (row, column)
    }

    /// The place of the cell of row `row` and column `column`, both counted
    /// from 0, in a table with `num_columns` columns.
    pub fn to_index(row: usize, column: usize, num_columns: usize) -> (index: usize)
        requires
            row * num_columns + column <= usize::MAX,
        ensures
            index == cell_index(row as int, column as int, num_columns as int),
    {
        proof {
            assert(0 <= row * num_columns) by (nonlinear_arith)
                requires
                    0 <= row,
                    0 <= num_columns,
            ;
        }
        row * num_columns + column
    }

    /// Builds the table with `num_columns` columns whose ones are at the
    /// given `(row, column)` coordinates, with nothing covered.
    pub fn new(num_columns: usize, filled_coordinates: Vec<(usize, usize)>) -> (grid: Self)
        requires
            coordinates_ok(num_columns, filled_coordinates@),
            max_row(filled_coordinates@) * num_columns <= usize::MAX,
        ensures
            grid.inv(),
            grid.model() == initial_model(num_columns, filled_coordinates@),
    {
        let num_rows = largest_row(&filled_coordinates);
        let mut data = vec![false; num_rows * num_columns];
        let mut i: usize = 0;
        proof {
            assert forall|r: int, c: int|
                0 <= r < num_rows && 0 <= c < num_columns implies (#[trigger] data@[cell_index(
                r,
                c,
                num_columns as int,
            )] <==> filled_coordinates@.take(0).contains(((r + 1) as usize, (c + 1) as usize))) by {
                lemma_cell_in_table(r, c, num_rows as int, num_columns as int);
            }
        }
        while i < filled_coordinates.len()
            invariant
                coordinates_ok(num_columns, filled_coordinates@),
                num_rows == max_row(filled_coordinates@),
                num_rows * num_columns <= usize::MAX,
                data@.len() == num_rows * num_columns,
                0 <= i <= filled_coordinates@.len(),
                forall|r: int, c: int|
                    0 <= r < num_rows && 0 <= c < num_columns ==> (#[trigger] data@[cell_index(
                        r,
                        c,
                        num_columns as int,
                    )] <==> filled_coordinates@.take(i as int).contains(
                        ((r + 1) as usize, (c + 1) as usize),
                    )),
            decreases filled_coordinates@.len() - i,
        {
            let (row, column) = filled_coordinates[i];
            let ghost before = data@;
            let ghost seen = filled_coordinates@.take(i as int);
            proof {
                lemma_max_row(filled_coordinates@, i as int);
                lemma_cell_in_table(row - 1, column - 1, num_rows as int, num_columns as int);
            }
            data.set(Self::to_index(row - 1, column - 1, num_columns), true);
            proof {
                let now = filled_coordinates@.take(i + 1);
                assert(now =~= seen.push((row, column)));
                assert forall|r: int, c: int|
                    0 <= r < num_rows && 0 <= c < num_columns implies (#[trigger] data@[cell_index(
                    r,
                    c,
                    num_columns as int,
                )] <==> now.contains(((r + 1) as usize, (c + 1) as usize))) by {
                    let pair = ((r + 1) as usize, (c + 1) as usize);
                    lemma_cell_in_table(r, c, num_rows as int, num_columns as int);
                    assert(before[cell_index(r, c, num_columns as int)] <==> seen.contains(pair));
                    if cell_index(r, c, num_columns as int) == cell_index(
                        row - 1,
                        column - 1,
                        num_columns as int,
                    ) {
                        lemma_cell_index_injective(r, c, row - 1, column - 1, num_columns as int);
                        assert(now[i as int] == pair);
                    } else {
                        if now.contains(pair) {
                            let k = choose|k: int| 0 <= k < now.len() && now[k] == pair;
                            assert(k < i);
                            assert(seen[k] == pair);
                        }
                        if seen.contains(pair) {
                            let k = choose|k: int| 0 <= k < seen.len() && seen[k] == pair;
                            assert(now[k] == pair);
                        }
                    }
                }
            }
            i += 1;
        }
        let grid = DenseGridInner {
            num_rows,
            num_columns,
            covered_columns: HashSet::with_capacity(num_columns / 2),
            covered_rows: HashSet::with_capacity(num_rows / 2),
            covers: Vec::new(),
            data,
        };
        proof {
            assert(filled_coordinates@.take(i as int) =~= filled_coordinates@);
            assert(grid.stack() =~= Seq::<usize>::empty());
            assert(grid.model().ones =~= filled_coordinates@.to_set()) by {
                assert forall|rc: (usize, usize)|
                    grid.model().ones.contains(rc) <==> filled_coordinates@.to_set().contains(
                        rc,
                    ) by {
                    if grid.cell(rc.0, rc.1) {
                        assert(data@[cell_index(rc.0 - 1, rc.1 - 1, num_columns as int)]);
                    }
                    if filled_coordinates@.contains(rc) {
                        let k = choose|k: int|
                            0 <= k < filled_coordinates@.len() && filled_coordinates@[k] == rc;
                        lemma_max_row(filled_coordinates@, k);
                        assert(1 <= filled_coordinates@[k].1 <= num_columns);
                        assert(data@[cell_index(rc.0 - 1, rc.1 - 1, num_columns as int)]);
                    }
                }
            }
            assert forall|r: usize| #[trigger]
                grid.covered_rows@.contains(r) <==> (1 <= r <= grid.num_rows
                    && !grid.model().row_live(r)) by {}
        }
        grid
    }

    /// Whether the matrix has a one at `(row, column)`, both counted from 1.
    fn has_one(&self, row: usize, column: usize) -> (yes: bool)
        requires
            self.inv(),
            1 <= row <= self.num_rows,
            1 <= column <= self.num_columns,
        ensures
            yes == self.model().ones.contains((row, column)),
    {
        assert(self.data@.len() == self.data.len());
        proof {
            lemma_cell_in_table(
                row - 1,
                column - 1,
                self.num_rows as int,
                self.num_columns as int,
            );
        }
        self.data[Self::to_index(row - 1, column - 1, self.num_columns)]
    }

    /// Covers `column`: marks it and every row that has a one in it.
    pub fn cover(&mut self, column: usize)
        requires
            old(self).inv(),
            old(self).model().is_column(column),
            !old(self).model().covered.contains(column),
        ensures
            final(self).inv(),
            final(self).model() == old(self).model().cover(column),
    {
        let rows = self.uncovered_rows_in_column(column);
        let cover = Cover { column, rows };
        let ghost before = *self;
        let ghost m = self.model();
        let fresh = self.covered_columns.insert(column);
        let mut i: usize = 0;
        while i < cover.rows.len()
            invariant
                0 <= i <= cover.rows@.len(),
                self.num_rows == before.num_rows,
                self.num_columns == before.num_columns,
                self.data == before.data,
                self.covers == before.covers,
                self.covered_columns@ == before.covered_columns@.insert(column),
                forall|r: usize| #[trigger]
                    self.covered_rows@.contains(r) <==> (before.covered_rows@.contains(r) || exists|
                        k: int,
                    |
                        0 <= k < i && #[trigger] cover.rows@[k] == r),
            decreases cover.rows@.len() - i,
        {
            let row = cover.rows[i];
            let ghost marked = self.covered_rows@;
            self.covered_rows.insert(row);
            proof {
                assert forall|r: usize| #[trigger]
                    self.covered_rows@.contains(r) <==> (before.covered_rows@.contains(r) || exists|
                        k: int,
                    |
                        0 <= k < i + 1 && #[trigger] cover.rows@[k] == r) by {
                    if exists|k: int| 0 <= k < i + 1 && #[trigger] cover.rows@[k] == r {
                        let k = choose|k: int| 0 <= k < i + 1 && #[trigger] cover.rows@[k] == r;
                        if k < i {
                            assert(marked.contains(r));
                        }
                    }
                    if marked.contains(r) && !before.covered_rows@.contains(r) {
                        let k = choose|k: int| 0 <= k < i && #[trigger] cover.rows@[k] == r;
                        assert(0 <= k < i + 1);
                    }
                }
            }
            i += 1;
        }
        let ghost hidden = cover.rows@;
        self.covers.push(cover);
        proof {
            let after = self.model();
            let longer = m.covered.push(column);
            assert(self.stack() =~= longer);
            assert(after.ones =~= m.ones);
            assert(after == m.cover(column));
            assert(longer.no_duplicates()) by {
                assert forall|a: int, b: int|
                    0 <= a < longer.len() && 0 <= b < longer.len() && a != b implies longer[a]
                    != longer[b] by {
                    if a < m.covered.len() && b < m.covered.len() {
                        assert(m.covered[a] != m.covered[b]);
                    } else if a < m.covered.len() {
                        assert(m.covered.contains(m.covered[a]));
                    } else {
                        assert(m.covered.contains(m.covered[b]));
                    }
                }
            }
            assert forall|c: usize| #[trigger]
                self.covered_columns@.contains(c) <==> self.stack().contains(c) by {
                assert(before.covered_columns@.contains(c) <==> m.covered.contains(c));
                lemma_push_contains(m.covered, column, c);
            }
            lemma_filter_indices(
                m.num_rows,
                |r: usize| m.ones.contains((r, column)) && m.row_live(r),
            );
            assert forall|r: usize| after.row_live(r) <==> (m.row_live(r) && !m.ones.contains(
                (r, column),
            )) by {
                lemma_row_live_push(m, column, r);
            }
            assert forall|r: usize| #[trigger]
                self.covered_rows@.contains(r) <==> (1 <= r <= self.num_rows && !after.row_live(
                    r,
                )) by {
                assert(before.covered_rows@.contains(r) <==> (1 <= r <= self.num_rows
                    && !m.row_live(r)));
                assert(hidden.contains(r) <==> (1 <= r <= self.num_rows && m.ones.contains(
                    (r, column),
                ) && m.row_live(r)));
                if exists|k: int| 0 <= k < hidden.len() && #[trigger] hidden[k] == r {
                    assert(hidden.contains(r));
                }
                if hidden.contains(r) {
                    let k = choose|k: int| 0 <= k < hidden.len() && hidden[k] == r;
                    assert(0 <= k < hidden.len() && hidden[k] == r);
                }
                if m.ones.contains((r, column)) {
                    assert(before.cell(r, column));
                }
            }
            assert forall|k: int| 0 <= k < self.covers@.len() implies (
            #[trigger] self.covers@[k]).rows@ == self.model_before(k).live_rows(
                self.covers@[k].column,
            ) by {
                if k < before.covers@.len() {
                    assert(self.covers@[k] == before.covers@[k]);
                    assert(longer.take(k) =~= m.covered.take(k));
                    assert(self.model_before(k) == before.model_before(k));
                } else {
                    assert(longer.take(k) =~= m.covered);
                    assert(self.model_before(k) == m);
                }
            }
        }
    }

    /// Uncovers `column`, which must be the most recently covered one:
    /// takes its mark away, and the marks of the rows that covering it has
    /// hidden.
    pub fn uncover(&mut self, column: usize)
        requires
            old(self).inv(),
            old(self).model().covered.len() > 0,
            old(self).model().covered.last() == column,
        ensures
            final(self).inv(),
            final(self).model() == old(self).model().uncover(),
    {
        let ghost before = *self;
        let ghost m = self.model();
        let ghost shorter = m.covered.drop_last();
        let ghost earlier = GridModel { covered: shorter, ..m };
        let cover = self.covers.pop().unwrap();
        proof {
            assert(before.covers@[before.covers@.len() - 1] == cover);
            assert(m.covered[m.covered.len() - 1] == cover.column);
            assert(m.covered.take(m.covered.len() - 1) =~= shorter);
            assert(before.model_before(before.covers@.len() - 1) == earlier);
        }
        let was = self.covered_columns.remove(&cover.column);
        let mut i: usize = 0;
        while i < cover.rows.len()
            invariant
                0 <= i <= cover.rows@.len(),
                self.num_rows == before.num_rows,
                self.num_columns == before.num_columns,
                self.data == before.data,
                self.covers@ == before.covers@.drop_last(),
                self.covered_columns@ == before.covered_columns@.remove(column),
                forall|r: usize| #[trigger]
                    self.covered_rows@.contains(r) <==> (before.covered_rows@.contains(r) && !exists|
                        k: int,
                    |
                        0 <= k < i && #[trigger] cover.rows@[k] == r),
            decreases cover.rows@.len() - i,
        {
            let row = cover.rows[i];
            let ghost marked = self.covered_rows@;
            self.covered_rows.remove(&row);
            proof {
                assert forall|r: usize| #[trigger]
                    self.covered_rows@.contains(r) <==> (before.covered_rows@.contains(r) && !exists|
                        k: int,
                    |
                        0 <= k < i + 1 && #[trigger] cover.rows@[k] == r) by {
                    if exists|k: int| 0 <= k < i + 1 && #[trigger] cover.rows@[k] == r {
                        let k = choose|k: int| 0 <= k < i + 1 && #[trigger] cover.rows@[k] == r;
                        if k < i {
                            assert(!marked.contains(r));
                        }
                    }
                    if exists|k: int| 0 <= k < i && #[trigger] cover.rows@[k] == r {
                        let k = choose|k: int| 0 <= k < i && #[trigger] cover.rows@[k] == r;
                        assert(0 <= k < i + 1);
                    }
                }
            }
            i += 1;
        }
        proof {
            let after = self.model();
            let hidden = cover.rows@;
            assert(self.stack() =~= shorter);
            assert(after.ones =~= m.ones);
            assert(after == m.uncover());
            assert(shorter.no_duplicates()) by {
                assert forall|a: int, b: int|
                    0 <= a < shorter.len() && 0 <= b < shorter.len() && a != b implies shorter[a]
                    != shorter[b] by {
                    assert(m.covered[a] != m.covered[b]);
                }
            }
            assert(m.covered =~= shorter.push(column));
            assert(!shorter.contains(column)) by {
                if shorter.contains(column) {
                    let k = choose|k: int| 0 <= k < shorter.len() && shorter[k] == column;
                    assert(m.covered[k] == m.covered[m.covered.len() - 1]);
                }
            }
            assert forall|k: int| 0 <= k < shorter.len() implies 1 <= #[trigger] shorter[k]
                <= self.num_columns by {
                assert(shorter[k] == m.covered[k]);
            }
            assert forall|c: usize| #[trigger]
                self.covered_columns@.contains(c) <==> self.stack().contains(c) by {
                assert(before.covered_columns@.contains(c) <==> m.covered.contains(c));
                lemma_push_contains(shorter, column, c);
            }
            lemma_filter_indices(
                earlier.num_rows,
                |r: usize| earlier.ones.contains((r, column)) && earlier.row_live(r),
            );
            assert(after == earlier);
            assert(m == earlier.cover(column));
            assert forall|r: usize| m.row_live(r) <==> (earlier.row_live(r) && !earlier.ones.contains(
                (r, column),
            )) by {
                lemma_row_live_push(earlier, column, r);
            }
            assert forall|r: usize| #[trigger]
                self.covered_rows@.contains(r) <==> (1 <= r <= self.num_rows && !after.row_live(
                    r,
                )) by {
                assert(before.covered_rows@.contains(r) <==> (1 <= r <= self.num_rows
                    && !m.row_live(r)));
                assert(hidden.contains(r) <==> (1 <= r <= self.num_rows && earlier.ones.contains(
                    (r, column),
                ) && earlier.row_live(r)));
                if exists|k: int| 0 <= k < hidden.len() && #[trigger] hidden[k] == r {
                    assert(hidden.contains(r));
                }
                if hidden.contains(r) {
                    let k = choose|k: int| 0 <= k < hidden.len() && hidden[k] == r;
                    assert(0 <= k < hidden.len() && hidden[k] == r);
                }
                if earlier.ones.contains((r, column)) {
                    assert(before.cell(r, column));
                }
            }
            assert forall|k: int| 0 <= k < self.covers@.len() implies (
            #[trigger] self.covers@[k]).rows@ == self.model_before(k).live_rows(
                self.covers@[k].column,
            ) by {
                assert(self.covers@[k] == before.covers@[k]);
                assert(shorter.take(k) =~= m.covered.take(k));
                assert(self.model_before(k) == before.model_before(k));
            }
        }
    }

    /// The uncovered columns, ascending.
    pub fn uncovered_columns(&self) -> (columns: Vec<usize>)
        requires
            self.inv(),
        ensures
            columns@ == self.model().uncovered_columns(),
    {
        let ghost m = self.model();
        let ghost pred = |c: usize| !m.covered.contains(c);
        let mut columns: Vec<usize> = Vec::new();
        let mut column: usize = 0;
        proof {
            assert(indices(0) =~= Seq::<usize>::empty());
            Seq::<usize>::empty().lemma_filter_len(pred);
        }
        while column < self.num_columns
            invariant
                self.inv(),
                m == self.model(),
                pred == |c: usize| !m.covered.contains(c),
                0 <= column <= self.num_columns,
                columns@ == indices(column as nat).filter(pred),
            decreases self.num_columns - column,
        {
            proof {
                assert(indices((column + 1) as nat) =~= indices(column as nat).push(
                    (column + 1) as usize,
                ));
                indices(column as nat).lemma_filter_push((column + 1) as usize, pred);
            }
            if !self.covered_columns.contains(&(column + 1)) {
                columns.push(column + 1);
            }
            column += 1;
        }
        columns
    }

    /// The rows with a one in `column` that no covered column hides,
    /// ascending.
    pub fn uncovered_rows_in_column(&self, column: usize) -> (rows: Vec<usize>)
        requires
            self.inv(),
            self.model().is_column(column),
        ensures
            rows@ == self.model().live_rows(column),
    {
        let ghost m = self.model();
        let ghost pred = |r: usize| m.ones.contains((r, column)) && m.row_live(r);
        let mut rows: Vec<usize> = Vec::new();
        let mut row: usize = 0;
        proof {
            assert(indices(0) =~= Seq::<usize>::empty());
            Seq::<usize>::empty().lemma_filter_len(pred);
        }
        while row < self.num_rows
            invariant
                self.inv(),
                m == self.model(),
                m.is_column(column),
                pred == |r: usize| m.ones.contains((r, column)) && m.row_live(r),
                0 <= row <= self.num_rows,
                rows@ == indices(row as nat).filter(pred),
            decreases self.num_rows - row,
        {
            proof {
                assert(indices((row + 1) as nat) =~= indices(row as nat).push((row + 1) as usize));
                indices(row as nat).lemma_filter_push((row + 1) as usize, pred);
            }
            if !self.covered_rows.contains(&(row + 1)) && self.has_one(row + 1, column) {
                rows.push(row + 1);
            }
            row += 1;
        }
        rows
    }

    /// The number of rows with a one in `column` that no covered column
    /// hides.
    pub fn column_size(&self, column: usize) -> (size: usize)
        requires
            self.inv(),
            self.model().is_column(column),
        ensures
            size == self.model().live_rows(column).len(),
    {
        let ghost m = self.model();
        let ghost pred = |r: usize| m.ones.contains((r, column)) && m.row_live(r);
        let mut size: usize = 0;
        let mut row: usize = 0;
        proof {
            assert(indices(0) =~= Seq::<usize>::empty());
            Seq::<usize>::empty().lemma_filter_len(pred);
        }
        while row < self.num_rows
            invariant
                self.inv(),
                m == self.model(),
                m.is_column(column),
                pred == |r: usize| m.ones.contains((r, column)) && m.row_live(r),
                0 <= row <= self.num_rows,
                size == indices(row as nat).filter(pred).len(),
                size <= row,
            decreases self.num_rows - row,
        {
            proof {
                assert(indices((row + 1) as nat) =~= indices(row as nat).push((row + 1) as usize));
                indices(row as nat).lemma_filter_push((row + 1) as usize, pred);
            }
            if !self.covered_rows.contains(&(row + 1)) && self.has_one(row + 1, column) {
                size += 1;
            }
            row += 1;
        }
        size
    }

    /// The uncovered columns in which `row` has a one, ascending.
    pub fn uncovered_columns_in_row(&self, row: usize) -> (columns: Vec<usize>)
        requires
            self.inv(),
            1 <= row <= self.model().num_rows,
        ensures
            columns@ == self.model().row_columns(row),
    {
        let ghost m = self.model();
        let ghost pred = |c: usize| m.ones.contains((row, c)) && !m.covered.contains(c);
        let mut columns: Vec<usize> = Vec::new();
        let mut column: usize = 0;
        proof {
            assert(indices(0) =~= Seq::<usize>::empty());
            Seq::<usize>::empty().lemma_filter_len(pred);
        }
        while column < self.num_columns
            invariant
                self.inv(),
                m == self.model(),
                1 <= row <= self.num_rows,
                pred == |c: usize| m.ones.contains((row, c)) && !m.covered.contains(c),
                0 <= column <= self.num_columns,
                columns@ == indices(column as nat).filter(pred),
            decreases self.num_columns - column,
        {
            proof {
                assert(indices((column + 1) as nat) =~= indices(column as nat).push(
                    (column + 1) as usize,
                ));
                indices(column as nat).lemma_filter_push((column + 1) as usize, pred);
            }
            if !self.covered_columns.contains(&(column + 1)) && self.has_one(row, column + 1) {
                columns.push(column + 1);
            }
            column += 1;
        }
        columns
    }
}

impl Grid for DenseGrid {
    closed spec fn wf(&self) -> bool {
        self.0.inv()
    }

    closed spec fn model(&self) -> GridModel {
        self.0.model()
    }

    closed spec fn is_row_handle(&self, row: usize) -> bool {
        1 <= row <= self.0.num_rows
    }

    closed spec fn row_of(&self, row: usize) -> usize {
        row
    }

    open spec fn can_hold(num_columns: usize, coordinates: Seq<(usize, usize)>) -> bool {
        max_row(coordinates) * num_columns <= usize::MAX
    }

    fn new(num_columns: usize, coordinates: Vec<(usize, usize)>) -> (grid: Self) {
        DenseGrid(DenseGridInner::new(num_columns, coordinates))
    }

    fn cover(&mut self, column: usize) {
        self.0.cover(column)
    }

    fn uncover(&mut self, column: usize) {
        self.0.uncover(column)
    }

    fn uncovered_columns(&self) -> (columns: Vec<usize>) {
        self.0.uncovered_columns()
    }

    fn uncovered_rows_in_column(&self, column: usize) -> (rows: Vec<usize>) {
        proof {
            lemma_filter_indices(
                self.0.model().num_rows,
                |r: usize|
                    self.0.model().ones.contains((r, column)) && self.0.model().row_live(r),
            );
        }
        let rows = self.0.uncovered_rows_in_column(column);
        proof {
            assert forall|i: int| 0 <= i < rows@.len() implies self.is_row_handle(
                #[trigger] rows@[i],
            ) by {
                assert(rows@.contains(rows@[i]));
            }
        }
        rows
    }

    fn column_id(&self, column: usize) -> (id: usize) {
        column
    }

    fn row_id(&self, row: usize) -> (id: usize) {
        row
    }

    fn column_size(&self, column: usize) -> (size: usize) {
        self.0.column_size(column)
    }

    fn uncovered_columns_in_row(&self, row: usize) -> (columns: Vec<usize>) {
        self.0.uncovered_columns_in_row(row)
    }
}

} // verus!
