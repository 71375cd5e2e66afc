//! The `n` queens puzzle is the problem of placing `n` chess queens on an
//! `n`×`n` chessboard so that no two queens threaten each other.
//!
//! A solution has one queen in every row and in every column, and at most
//! one on every diagonal.

use crate::util::{two_combination_iter, two_combinations, views};
use crate::solver::{problem_fits, Solver};
use crate::ExactCover;
use vstd::prelude::*;

verus! {

/// A position on the chess board.
#[derive(Debug, Copy, Clone, PartialEq, Eq, Hash, PartialOrd, Ord, Structural)]
pub struct Possibility {
    /// The row index, ranging from 0 to `n - 1`.
    pub row: usize,
    /// The column index, ranging from 0 to `n - 1`.
    pub column: usize,
}

/// A condition which must be satisfied in order to solve an `n` queens puzzle.
#[derive(Debug, Copy, Clone, PartialEq, Eq, Hash, PartialOrd, Ord, Structural)]
pub enum Constraint {
    /// A given row has exactly one queen.
    Row {
        /// The row index
        index: usize,
    },
    /// A given column has exactly one queen.
    Column {
        /// The column index
        index: usize,
    },
    /// A leading diagonal has at most one queen.
    LeadingDiagonal {
        /// The leading diagonal index
        index: usize,
    },
    /// A trailing diagonal has at most one queen.
    TrailingDiagonal {
        /// The trailing diagonal index
        index: usize,
    },
}

/// An instance of the `n` queens problem.
#[derive(Debug)]
pub struct NQueens {
    /// The positions that could solve the puzzle.
    pub possibilities: Vec<Possibility>,
    /// The constraints that must be satisfied for this puzzle.
    pub constraints: Vec<Constraint>,
    /// The length of the chess board side, equal to `n`.
    pub side_length: usize,
    /// The positions that are given as fixed.
    pub filled_values: Vec<Possibility>,
}

/// Every position of a board of the given side, the row changing fastest.
pub open spec fn all_possibilities(side_length: usize) -> Seq<Possibility> {
    two_combinations(seq![side_length, side_length], seq![0usize, 0usize]).map_values(
        |t: Seq<usize>| Possibility { row: t[1], column: t[0] },
    )
}

/// Every constraint of a board of the given side: the rows, the columns,
/// the leading diagonals, the trailing diagonals.
pub open spec fn all_constraints(side_length: usize) -> Seq<Constraint> {
    Seq::new(side_length as nat, |i: int| Constraint::Row { index: i as usize }) + Seq::new(
        side_length as nat,
        |i: int| Constraint::Column { index: i as usize },
    ) + Seq::new(
        (2 * side_length - 1) as nat,
        |i: int| Constraint::LeadingDiagonal { index: i as usize },
    ) + Seq::new(
        (2 * side_length - 1) as nat,
        |i: int| Constraint::TrailingDiagonal { index: i as usize },
    )
}

/// One of the filled positions is `(row, column)`.
pub open spec fn square_filled(filled: Seq<Possibility>, row: usize, column: usize) -> bool {
    exists|i: int|
        0 <= i < filled.len() && (#[trigger] filled[i]).row == row && filled[i].column == column
}

/// One of the filled positions satisfies `constraint`.
pub open spec fn already_satisfied(
    filled: Seq<Possibility>,
    side_length: usize,
    constraint: Constraint,
) -> bool {
    exists|i: int| 0 <= i < filled.len() && (#[trigger] filled[i]).spec_satisfies(side_length, constraint)
}

/// The possibilities of a puzzle: the positions that are not filled.
pub open spec fn open_possibilities(side_length: usize, filled: Seq<Possibility>) -> Seq<
    Possibility,
> {
    all_possibilities(side_length).filter(|p: Possibility| !square_filled(filled, p.row, p.column))
}

/// The constraints of a puzzle: those that no filled position satisfies.
pub open spec fn open_constraints(side_length: usize, filled: Seq<Possibility>) -> Seq<
    Constraint,
> {
    all_constraints(side_length).filter(
        |c: Constraint| !already_satisfied(filled, side_length, c),
    )
}

impl Possibility {
    /// The index of the leading diagonal through this position.
    pub open spec fn spec_leading_diagonal(self, side_length: usize) -> int {
        self.column - self.row + side_length - 1
    }

    /// The index of the trailing diagonal through this position.
    pub open spec fn spec_trailing_diagonal(self) -> int {
        self.row + self.column
    }

    /// Whether a queen at this position satisfies `constraint`.
    pub open spec fn spec_satisfies(self, side_length: usize, constraint: Constraint) -> bool {
        match constraint {
            Constraint::Row { index } => self.row == index,
            Constraint::Column { index } => self.column == index,
            Constraint::LeadingDiagonal { index } => self.spec_leading_diagonal(side_length)
                == index,
            Constraint::TrailingDiagonal { index } => self.spec_trailing_diagonal() == index,
        }
    }

    /// This position lies on a board of the given side.
    pub open spec fn on_board(self, side_length: usize) -> bool {
        self.row < side_length && self.column < side_length
    }

    /// The constraints that a queen at this position satisfies.
    pub open spec fn spec_satisfied_constraints(self, side_length: usize) -> Seq<Constraint> {
        seq![
            Constraint::Row { index: self.row },
            Constraint::Column { index: self.column },
            Constraint::LeadingDiagonal {
                index: self.spec_leading_diagonal(side_length) as usize,
            },
            Constraint::TrailingDiagonal { index: self.spec_trailing_diagonal() as usize },
        ]
    }

    /// Return all positions on the chess board for a given side length.
    pub fn all(side_length: usize) -> (all: Vec<Possibility>)
        ensures
            all@ == all_possibilities(side_length),
    {
        let pairs = two_combination_iter([side_length, side_length], [0, 0]);
        let mut all: Vec<Possibility> = Vec::new();
        let mut i: usize = 0;
        let ghost limits = seq![side_length, side_length];
        let ghost start = seq![0usize, 0usize];
        proof {
            assert([side_length, side_length]@ =~= limits);
            assert([0usize, 0usize]@ =~= start);
        }
        while i < pairs.len()
            invariant
                views(pairs@) == two_combinations(limits, start),
                0 <= i <= pairs@.len(),
                all@.len() == i,
                forall|k: int|
                    0 <= k < i ==> #[trigger] all@[k] == (Possibility {
                        row: pairs@[k]@[1],
                        column: pairs@[k]@[0],
                    }),
            decreases pairs@.len() - i,
        {
            let pair = pairs[i];
            all.push(Possibility { row: pair[1], column: pair[0] });
            i += 1;
        }
        proof {
            assert(all@ =~= all_possibilities(side_length)) by {
                assert forall|k: int| 0 <= k < all@.len() implies all@[k] == all_possibilities(
                    side_length,
                )[k] by {
                    assert(views(pairs@)[k] == pairs@[k]@);
                }
            }
        }
        all
    }

    /// Return the leading diagonal index for a given side length.
    ///
    /// This value ranges from 0 to `2n - 2`.
    pub fn leading_diagonal(self, side_length: usize) -> (index: usize)
        requires
            self.on_board(side_length),
            2 * side_length <= usize::MAX,
        ensures
            index == self.spec_leading_diagonal(side_length),
            index < 2 * side_length - 1,
    {
        self.column + (side_length - 1 - self.row)
    }

    /// Return the trailing diagonal index.
    ///
    /// The value ranges from 0 to `2n - 2`.
    pub fn trailing_diagonal(self) -> (index: usize)
        requires
            self.row + self.column <= usize::MAX,
        ensures
            index == self.spec_trailing_diagonal(),
    {
        self.row + self.column
    }

    /// Return the constraints that are satisfied by a queen at this position.
    pub fn satisfied_constraints(self, side_length: usize) -> (satisfied: Vec<Constraint>)
        requires
            self.on_board(side_length),
            2 * side_length <= usize::MAX,
        ensures
            satisfied@ == self.spec_satisfied_constraints(side_length),
    {
        let mut satisfied: Vec<Constraint> = Vec::new();
        satisfied.push(Constraint::Row { index: self.row });
        satisfied.push(Constraint::Column { index: self.column });
        satisfied.push(Constraint::LeadingDiagonal { index: self.leading_diagonal(side_length) });
        satisfied.push(Constraint::TrailingDiagonal { index: self.trailing_diagonal() });
        proof {
            assert(satisfied@ =~= self.spec_satisfied_constraints(side_length));
        }
        satisfied
    }

    /// Return true if a queen at this position satisfies the given constraint.
    pub fn satisfies(&self, side_length: usize, constraint: &Constraint) -> (yes: bool)
        ensures
            yes == self.spec_satisfies(side_length, *constraint),
    {
        match constraint {
            Constraint::Row { index } => self.row == *index,
            Constraint::Column { index } => self.column == *index,
            Constraint::LeadingDiagonal { index } => {
                self.column as u128 + side_length as u128 == *index as u128 + self.row as u128 + 1
            },
            Constraint::TrailingDiagonal { index } => {
                self.row as u128 + self.column as u128 == *index as u128
            },
        }
    }
}

/// The constraints that a queen on the board satisfies are those that it lists.
pub proof fn lemma_satisfied_constraints(
    possibility: Possibility,
    side_length: usize,
    constraint: Constraint,
)
    requires
        possibility.on_board(side_length),
        2 * side_length <= usize::MAX,
    ensures
        possibility.spec_satisfied_constraints(side_length).contains(constraint)
            <==> possibility.spec_satisfies(side_length, constraint),
{
    let listed = possibility.spec_satisfied_constraints(side_length);
    if listed.contains(constraint) {
        let k = choose|k: int| 0 <= k < listed.len() && listed[k] == constraint;
        assert(k == 0 || k == 1 || k == 2 || k == 3);
    }
    if possibility.spec_satisfies(side_length, constraint) {
        match constraint {
            Constraint::Row { .. } => {
                assert(listed[0] == constraint);
            },
            Constraint::Column { .. } => {
                assert(listed[1] == constraint);
            },
            Constraint::LeadingDiagonal { .. } => {
                assert(listed[2] == constraint);
            },
            Constraint::TrailingDiagonal { .. } => {
                assert(listed[3] == constraint);
            },
        }
    }
}

impl Constraint {
    /// Return all constraints for a given `side_length`.
    pub fn all(side_length: usize) -> (all: Vec<Constraint>)
        requires
            1 <= side_length,
            2 * side_length <= usize::MAX,
        ensures
            all@ == all_constraints(side_length),
    {
        let ghost rows = Seq::new(side_length as nat, |i: int| Constraint::Row { index: i as usize });
        let ghost columns = Seq::new(
            side_length as nat,
            |i: int| Constraint::Column { index: i as usize },
        );
        let ghost leading = Seq::new(
            (2 * side_length - 1) as nat,
            |i: int| Constraint::LeadingDiagonal { index: i as usize },
        );
        let ghost trailing = Seq::new(
            (2 * side_length - 1) as nat,
            |i: int| Constraint::TrailingDiagonal { index: i as usize },
        );
        let mut all: Vec<Constraint> = Vec::new();
        let mut i: usize = 0;
        while i < side_length
            invariant
                0 <= i <= side_length,
                all@ =~= rows.take(i as int),
                rows == Seq::new(side_length as nat, |i: int| Constraint::Row { index: i as usize }),
            decreases side_length - i,
        {
            all.push(Constraint::Row { index: i });
            i += 1;
        }
        i = 0;
        while i < side_length
            invariant
                0 <= i <= side_length,
                all@ =~= rows + columns.take(i as int),
                columns == Seq::new(
                    side_length as nat,
                    |i: int| Constraint::Column { index: i as usize },
                ),
            decreases side_length - i,
        {
            all.push(Constraint::Column { index: i });
            i += 1;
        }
        let diagonals = 2 * side_length - 1;
        i = 0;
        while i < diagonals
            invariant
                0 <= i <= diagonals,
                diagonals == 2 * side_length - 1,
                all@ =~= rows + columns + leading.take(i as int),
                leading == Seq::new(
                    (2 * side_length - 1) as nat,
                    |i: int| Constraint::LeadingDiagonal { index: i as usize },
                ),
            decreases diagonals - i,
        {
            all.push(Constraint::LeadingDiagonal { index: i });
            i += 1;
        }
        i = 0;
        while i < diagonals
            invariant
                0 <= i <= diagonals,
                diagonals == 2 * side_length - 1,
                all@ =~= rows + columns + leading + trailing.take(i as int),
                trailing == Seq::new(
                    (2 * side_length - 1) as nat,
                    |i: int| Constraint::TrailingDiagonal { index: i as usize },
                ),
            decreases diagonals - i,
        {
            all.push(Constraint::TrailingDiagonal { index: i });
            i += 1;
        }
        proof {
            assert(all@ =~= all_constraints(side_length));
        }
        all
    }
}

/// Whether one of the filled positions is `(row, column)`.
pub fn is_square_filled(filled: &Vec<Possibility>, row: usize, column: usize) -> (yes: bool)
    ensures
        yes == square_filled(filled@, row, column),
{
    let mut i: usize = 0;
    while i < filled.len()
        invariant
            0 <= i <= filled@.len(),
            forall|k: int|
                0 <= k < i ==> !((#[trigger] filled@[k]).row == row && filled@[k].column == column),
        decreases filled@.len() - i,
    {
        if filled[i].row == row && filled[i].column == column {
            return true;
        }
        i += 1;
    }
    false
}

/// Whether one of the filled positions satisfies `constraint`.
pub fn is_already_satisfied(
    filled: &Vec<Possibility>,
    side_length: usize,
    constraint: &Constraint,
) -> (yes: bool)
    ensures
        yes == already_satisfied(filled@, side_length, *constraint),
{
    let mut i: usize = 0;
    while i < filled.len()
        invariant
            0 <= i <= filled@.len(),
            forall|k: int|
                0 <= k < i ==> !(#[trigger] filled@[k]).spec_satisfies(side_length, *constraint),
        decreases filled@.len() - i,
    {
        if filled[i].satisfies(side_length, constraint) {
            return true;
        }
        i += 1;
    }
    false
}

impl NQueens {
    /// Create a new instance of the `n` queens problem with the given side
    /// length and the given queens placed.
    pub fn new(side_length: usize, filled_values: Vec<Possibility>) -> (queens: Self)
        requires
            1 <= side_length,
            2 * side_length <= usize::MAX,
        ensures
            queens.possibilities@ == open_possibilities(side_length, filled_values@),
            queens.constraints@ == open_constraints(side_length, filled_values@),
            queens.side_length == side_length,
            queens.filled_values@ == filled_values@,
    {
        let everything = Possibility::all(side_length);
        let mut possibilities: Vec<Possibility> = Vec::new();
        let ghost free = |p: Possibility| !square_filled(filled_values@, p.row, p.column);
        let mut i: usize = 0;
        proof {
            assert(everything@.take(0) =~= Seq::<Possibility>::empty());
            Seq::<Possibility>::empty().lemma_filter_len(free);
        }
        while i < everything.len()
            invariant
                0 <= i <= everything@.len(),
                free == |p: Possibility| !square_filled(filled_values@, p.row, p.column),
                possibilities@ == everything@.take(i as int).filter(free),
            decreases everything@.len() - i,
        {
            let possibility = everything[i];
            proof {
                assert(everything@.take(i + 1) =~= everything@.take(i as int).push(possibility));
                everything@.take(i as int).lemma_filter_push(possibility, free);
            }
            if !is_square_filled(&filled_values, possibility.row, possibility.column) {
                possibilities.push(possibility);
            }
            i += 1;
        }
        let conditions = Constraint::all(side_length);
        let mut constraints: Vec<Constraint> = Vec::new();
        let ghost open = |c: Constraint| !already_satisfied(filled_values@, side_length, c);
        proof {
            assert(everything@.take(i as int) =~= everything@);
            assert(conditions@.take(0) =~= Seq::<Constraint>::empty());
            Seq::<Constraint>::empty().lemma_filter_len(open);
        }
        i = 0;
        while i < conditions.len()
            invariant
                0 <= i <= conditions@.len(),
                open == |c: Constraint| !already_satisfied(filled_values@, side_length, c),
                constraints@ == conditions@.take(i as int).filter(open),
            decreases conditions@.len() - i,
        {
            let condition = conditions[i];
            proof {
                assert(conditions@.take(i + 1) =~= conditions@.take(i as int).push(condition));
                conditions@.take(i as int).lemma_filter_push(condition, open);
            }
            if !is_already_satisfied(&filled_values, side_length, &condition) {
                constraints.push(condition);
            }
            i += 1;
        }
        proof {
            assert(conditions@.take(i as int) =~= conditions@);
        }
        NQueens { possibilities, constraints, side_length, filled_values }
    }
}

impl NQueens {
    /// Return a solver for this puzzle.
    pub fn solver(&self) -> (solver: Solver<'_, Self>)
        requires
            problem_fits(self),
        ensures
            solver.wf(),
            solver.problem() == self,
            solver.found() == 0,
    {
        Solver::new(self)
    }
}

impl ExactCover for NQueens {
    type Constraint = Constraint;

    type Possibility = Possibility;

    open spec fn spec_satisfies(&self, poss: &Self::Possibility, cons: &Self::Constraint) -> bool {
        poss.spec_satisfies(self.side_length, *cons)
    }

    open spec fn spec_is_optional(&self, cons: &Self::Constraint) -> bool {
        cons is LeadingDiagonal || cons is TrailingDiagonal
    }

    open spec fn spec_possibilities(&self) -> Seq<Self::Possibility> {
        self.possibilities@
    }

    open spec fn spec_constraints(&self) -> Seq<Self::Constraint> {
        self.constraints@
    }

    fn satisfies(&self, poss: &Self::Possibility, cons: &Self::Constraint) -> (yes: bool) {
        poss.satisfies(self.side_length, cons)
    }

    fn is_optional(&self, cons: &Self::Constraint) -> (yes: bool) {
        match cons {
            Constraint::LeadingDiagonal { .. } => true,
            Constraint::TrailingDiagonal { .. } => true,
            _ => false,
        }
    }

    fn possibilities(&self) -> (list: &[Self::Possibility]) {
        self.possibilities.as_slice()
    }

    fn constraints(&self) -> (list: &[Self::Constraint]) {
        self.constraints.as_slice()
    }
}

} // verus!
