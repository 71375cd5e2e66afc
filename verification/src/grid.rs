//! What a grid backend offers to the solver, and the mathematical model in
//! which its behaviour is stated.
//!
//! A grid stores a sparse 0/1 matrix. Rows and columns are numbered from 1.
//! Covering a column hides it together with every row that has an entry in
//! it; uncovering undoes the most recent cover.

use vstd::prelude::*;

verus! {

/// The mathematical content of a grid.
pub struct GridModel {
    /// Number of columns.
    pub num_columns: nat,
    /// The largest row index that occurs.
    pub num_rows: nat,
    /// The coordinates `(row, column)` of the ones of the matrix.
    pub ones: Set<(usize, usize)>,
    /// The covered columns, the most recently covered last.
    pub covered: Seq<usize>,
}

/// The numbers `1, 2, .., n`.
pub open spec fn indices(n: nat) -> Seq<usize> {
    Seq::new(n, |i: int| (i + 1) as usize)
}

/// Strictly ascending numbers.
pub open spec fn strictly_ascending(s: Seq<usize>) -> bool {
    forall|i: int, j: int| 0 <= i < j < s.len() ==> #[trigger] s[i] < #[trigger] s[j]
}

impl GridModel {
    /// `column` is one of the columns of the matrix.
    pub open spec fn is_column(self, column: usize) -> bool {
        1 <= column <= self.num_columns
    }

    /// No covered column has a one in row `row`.
    pub open spec fn row_live(self, row: usize) -> bool {
        forall|c: usize| self.covered.contains(c) ==> !self.ones.contains((row, c))
    }

    /// The columns that are not covered, ascending.
    pub open spec fn uncovered_columns(self) -> Seq<usize> {
        indices(self.num_columns).filter(|c: usize| !self.covered.contains(c))
    }

    /// The rows with a one in `column` that no covered column hides, ascending.
    pub open spec fn live_rows(self, column: usize) -> Seq<usize> {
        indices(self.num_rows).filter(
            |r: usize| self.ones.contains((r, column)) && self.row_live(r),
        )
    }

    /// The uncovered columns in which `row` has a one, ascending.
    pub open spec fn row_columns(self, row: usize) -> Seq<usize> {
        indices(self.num_columns).filter(
            |c: usize| self.ones.contains((row, c)) && !self.covered.contains(c),
        )
    }

    /// The model after `column` has been covered.
    pub open spec fn cover(self, column: usize) -> GridModel {
        GridModel { covered: self.covered.push(column), ..self }
    }

    /// The model after the most recent cover has been undone.
    pub open spec fn uncover(self) -> GridModel {
        GridModel { covered: self.covered.drop_last(), ..self }
    }
}

/// The largest row index among `coordinates`, 0 if there are none.
pub open spec fn max_row(coordinates: Seq<(usize, usize)>) -> usize
    decreases coordinates.len(),
{
    if coordinates.len() == 0 {
        0
    } else {
        let rest = max_row(coordinates.drop_last());
        if coordinates.last().0 > rest {
            coordinates.last().0
        } else {
            rest
        }
    }
}

/// The model of a grid that has just been built from `coordinates`.
pub open spec fn initial_model(num_columns: usize, coordinates: Seq<(usize, usize)>) -> GridModel {
    GridModel {
        num_columns: num_columns as nat,
        num_rows: max_row(coordinates) as nat,
        ones: coordinates.to_set(),
        covered: Seq::empty(),
    }
}

/// The coordinates from which a grid with `num_columns` columns can be
/// built: rows and columns are numbered from 1, every column exists, and
/// the arena of headers and entries can be indexed.
pub open spec fn coordinates_ok(num_columns: usize, coordinates: Seq<(usize, usize)>) -> bool {
    &&& num_columns + coordinates.len() + 1 <= usize::MAX
    &&& forall|i: int|
        0 <= i < coordinates.len() ==> {
            let (row, column) = #[trigger] coordinates[i];
            &&& 1 <= row < usize::MAX
            &&& 1 <= column <= num_columns
        }
}

/// A store for a sparse 0/1 matrix whose columns can be covered and
/// uncovered.
///
/// Columns are addressed by their index. Rows are addressed by handles
/// that `uncovered_rows_in_column` hands out; `row_id` gives a handle's
/// row index.
pub trait Grid: Sized {
    /// The grid's internal invariant.
    spec fn wf(&self) -> bool;

    /// The matrix and the stack of covered columns.
    spec fn model(&self) -> GridModel;

    /// `row` is a handle to a row of the matrix.
    spec fn is_row_handle(&self, row: usize) -> bool;

    /// The index of the row that `row` is a handle to.
    spec fn row_of(&self, row: usize) -> usize;

    /// The backend has room for a matrix with the given columns and ones.
    spec fn can_hold(num_columns: usize, coordinates: Seq<(usize, usize)>) -> bool;

    /// Builds the grid with `num_columns` columns whose ones are at the
    /// given `(row, column)` coordinates, with nothing covered. The order
    /// of the coordinates does not matter, and a coordinate that is given
    /// more than once counts once.
    fn new(num_columns: usize, coordinates: Vec<(usize, usize)>) -> (grid: Self)
        requires
            coordinates_ok(num_columns, coordinates@),
            Self::can_hold(num_columns, coordinates@),
        ensures
            grid.wf(),
            grid.model() == initial_model(num_columns, coordinates@),
    ;

    /// Covers `column`.
    fn cover(&mut self, column: usize)
        requires
            old(self).wf(),
            old(self).model().is_column(column),
            !old(self).model().covered.contains(column),
        ensures
            final(self).wf(),
            final(self).model() == old(self).model().cover(column),
    ;

    /// Uncovers `column`, which must be the most recently covered one.
    fn uncover(&mut self, column: usize)
        requires
            old(self).wf(),
            old(self).model().covered.len() > 0,
            old(self).model().covered.last() == column,
        ensures
            final(self).wf(),
            final(self).model() == old(self).model().uncover(),
    ;

    /// The uncovered columns, ascending.
    fn uncovered_columns(&self) -> (columns: Vec<usize>)
        requires
            self.wf(),
        ensures
            columns@ == self.model().uncovered_columns(),
    ;

    /// Handles to the live rows of an uncovered column, top to bottom.
    fn uncovered_rows_in_column(&self, column: usize) -> (rows: Vec<usize>)
        requires
            self.wf(),
            self.model().is_column(column),
            !self.model().covered.contains(column),
        ensures
            rows@.len() == self.model().live_rows(column).len(),
            forall|i: int|
                0 <= i < rows@.len() ==> self.is_row_handle(#[trigger] rows@[i]) && self.row_of(
                    rows@[i],
                ) == self.model().live_rows(column)[i],
    ;

    /// The index of a column.
    fn column_id(&self, column: usize) -> (id: usize)
        requires
            self.wf(),
            self.model().is_column(column),
        ensures
            id == column,
    ;

    /// The index of the row that `row` is a handle to.
    fn row_id(&self, row: usize) -> (id: usize)
        requires
            self.wf(),
            self.is_row_handle(row),
        ensures
            id == self.row_of(row),
            1 <= id <= self.model().num_rows,
    ;

    /// The number of live rows of an uncovered column.
    fn column_size(&self, column: usize) -> (size: usize)
        requires
            self.wf(),
            self.model().is_column(column),
            !self.model().covered.contains(column),
        ensures
            size == self.model().live_rows(column).len(),
    ;

    /// The uncovered columns in which a row has a one, ascending.
    fn uncovered_columns_in_row(&self, row: usize) -> (columns: Vec<usize>)
        requires
            self.wf(),
            self.is_row_handle(row),
        ensures
            columns@ == self.model().row_columns(self.row_of(row)),
    ;
}

/// A strictly ascending list of the numbers in `1..=n` that meet `pred` is
/// the filtered list of those numbers.
pub proof fn lemma_ascending_filter(s: Seq<usize>, n: nat, pred: spec_fn(usize) -> bool)
    requires
        n <= usize::MAX,
        strictly_ascending(s),
        forall|x: usize| s.contains(x) <==> (1 <= x <= n && pred(x)),
    ensures
        s == indices(n).filter(pred),
    decreases n,
{
    if n == 0 {
        if s.len() > 0 {
            assert(s.contains(s[0]));
        }
        assert(indices(0) =~= Seq::<usize>::empty());
        assert(Seq::<usize>::empty().filter(pred) =~= Seq::<usize>::empty());
        assert(s =~= Seq::<usize>::empty());
    } else {
        let top = n as usize;
        let less = indices((n - 1) as nat);
        assert(indices(n) =~= less.push(top));
        less.lemma_filter_push(top, pred);
        let shorter = if pred(top) {
            s.drop_last()
        } else {
            s
        };
        if pred(top) {
            assert(s.contains(top));
            let k = choose|k: int| 0 <= k < s.len() && s[k] == top;
            if k + 1 < s.len() {
                assert(s.contains(s[k + 1]));
                assert(s[k] < s[k + 1]);
            }
            assert(s =~= shorter.push(top));
        }
        assert forall|x: usize| shorter.contains(x) <==> (1 <= x <= n - 1 && pred(x)) by {
            if shorter.contains(x) {
                let k = choose|k: int| 0 <= k < shorter.len() && shorter[k] == x;
                assert(s[k] == x);
                assert(s.contains(x));
                if pred(top) {
                    assert(s[k] < s[s.len() - 1]);
                }
            }
            if 1 <= x <= n - 1 && pred(x) {
                assert(s.contains(x));
                let k = choose|k: int| 0 <= k < s.len() && s[k] == x;
                if pred(top) {
                    assert(k < s.len() - 1);
                    assert(shorter[k] == x);
                }
            }
        }
        lemma_ascending_filter(shorter, (n - 1) as nat, pred);
    }
}

/// The filtered list of the numbers in `1..=n` is strictly ascending and
/// holds exactly the numbers that meet `pred`.
pub proof fn lemma_filter_indices(n: nat, pred: spec_fn(usize) -> bool)
    requires
        n <= usize::MAX,
    ensures
        strictly_ascending(indices(n).filter(pred)),
        forall|x: usize| indices(n).filter(pred).contains(x) <==> (1 <= x <= n && pred(x)),
        indices(n).filter(pred).len() <= n,
    decreases n,
{
    let full = indices(n).filter(pred);
    if n == 0 {
        assert(indices(0) =~= Seq::<usize>::empty());
        indices(0).lemma_filter_len(pred);
        assert(full =~= Seq::<usize>::empty());
    } else {
        let top = n as usize;
        let less = indices((n - 1) as nat);
        let part = less.filter(pred);
        assert(indices(n) =~= less.push(top));
        less.lemma_filter_push(top, pred);
        lemma_filter_indices((n - 1) as nat, pred);
        assert forall|x: usize| full.contains(x) <==> (1 <= x <= n && pred(x)) by {
            assert(part.contains(x) <==> (1 <= x <= n - 1 && pred(x)));
            if pred(top) {
                assert(full == part.push(top));
                if full.contains(x) {
                    let k = choose|k: int| 0 <= k < full.len() && full[k] == x;
                    if k < part.len() {
                        assert(part[k] == x);
                    }
                }
                if part.contains(x) {
                    let k = choose|k: int| 0 <= k < part.len() && part[k] == x;
                    assert(full[k] == x);
                }
                assert(full[part.len() as int] == top);
            }
        }
        assert(strictly_ascending(full)) by {
            assert forall|i: int, j: int| 0 <= i < j < full.len() implies #[trigger] full[i]
                < #[trigger] full[j] by {
                if pred(top) {
                    if j == part.len() {
                        assert(part.contains(part[i]));
                    } else {
                        assert(part[i] < part[j]);
                    }
                } else {
                    assert(part[i] < part[j]);
                }
            }
        }
    }
}

/// No row index among the coordinates exceeds the largest.
pub proof fn lemma_max_row(coordinates: Seq<(usize, usize)>, i: int)
    requires
        0 <= i < coordinates.len(),
    ensures
        coordinates[i].0 <= max_row(coordinates),
    decreases coordinates.len(),
{
    if i < coordinates.len() - 1 {
        lemma_max_row(coordinates.drop_last(), i);
    }
}

/// The largest row index stays below any bound that all row indices keep.
pub proof fn lemma_max_row_below(coordinates: Seq<(usize, usize)>, bound: usize)
    requires
        bound > 0,
        forall|i: int| 0 <= i < coordinates.len() ==> (#[trigger] coordinates[i]).0 < bound,
    ensures
        max_row(coordinates) < bound,
    decreases coordinates.len(),
{
    if coordinates.len() > 0 {
        let rest = coordinates.drop_last();
        assert forall|i: int| 0 <= i < rest.len() implies (#[trigger] rest[i]).0 < bound by {
            assert(rest[i] == coordinates[i]);
        }
        lemma_max_row_below(rest, bound);
        assert(coordinates.last() == coordinates[coordinates.len() - 1]);
    }
}

/// The largest row index among the coordinates, 0 if there are none.
pub fn largest_row(coordinates: &Vec<(usize, usize)>) -> (largest: usize)
    ensures
        largest == max_row(coordinates@),
{
    let mut largest: usize = 0;
    let mut i: usize = 0;
    proof {
        assert(coordinates@.take(0) =~= Seq::<(usize, usize)>::empty());
    }
    while i < coordinates.len()
        invariant
            i <= coordinates@.len(),
            largest == max_row(coordinates@.take(i as int)),
        decreases coordinates@.len() - i,
    {
        proof {
            let now = coordinates@.take(i + 1);
            assert(now.drop_last() =~= coordinates@.take(i as int));
            assert(now.last() == coordinates@[i as int]);
        }
        if coordinates[i].0 > largest {
            largest = coordinates[i].0;
        }
        i += 1;
    }
    proof {
        assert(coordinates@.take(i as int) =~= coordinates@);
    }
    largest
}

/// An entry of a sequence with one more entry is the new one or an old one.
pub proof fn lemma_push_contains(s: Seq<usize>, v: usize, x: usize)
    ensures
        s.push(v).contains(x) <==> (s.contains(x) || x == v),
{
    let grown = s.push(v);
    if grown.contains(x) {
        let i = choose|i: int| 0 <= i < grown.len() && grown[i] == x;
        if i < s.len() {
            assert(s[i] == x);
        }
    }
    if s.contains(x) {
        let i = choose|i: int| 0 <= i < s.len() && s[i] == x;
        assert(grown[i] == x);
    }
    assert(grown[s.len() as int] == v);
}

} // verus!
