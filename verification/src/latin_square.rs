//! A Latin square is an n × n array filled with n different symbols, each
//! occurring exactly once in each row and exactly once in each column.

use crate::util::{
    three_combination_iter, three_combinations, two_combination_iter, two_combinations, views,
};
use crate::solver::{problem_fits, Solver};
use crate::ExactCover;
use vstd::prelude::*;

verus! {

/// A position and value for a box inside of a Latin square puzzle.
#[derive(Debug, Copy, Clone, PartialEq, Eq, Hash, PartialOrd, Ord, Structural)]
pub struct Possibility {
    /// The row position of the box, from 0 to `side_length - 1`.
    pub row: usize,
    /// The column position of the box, from 0 to `side_length - 1`.
    pub column: usize,
    /// The value present inside of the box, from 1 to `side_length`.
    pub value: usize,
}

/// A condition which must be satisfied in order to solve a Latin square puzzle.
#[derive(Debug, Copy, Clone, PartialEq, Eq, Hash, PartialOrd, Ord, Structural)]
pub enum Constraint {
    /// Each row holds a numeric value exactly once.
    RowNumber {
        /// The row index
        row: usize,
        /// The unique numeric value
        value: usize,
    },
    /// Each column holds a numeric value exactly once.
    ColumnNumber {
        /// The column index
        column: usize,
        /// The unique numeric value
        value: usize,
    },
    /// Each box is filled exactly once.
    RowColumn {
        /// The row index
        row: usize,
        /// The column index
        column: usize,
    },
}

/// Instance of a Latin square puzzle.
#[derive(Debug)]
pub struct LatinSquare {
    /// The positions and values that could solve the puzzle.
    pub possibilities: Vec<Possibility>,
    /// The constraints that must be satisfied for this puzzle.
    pub constraints: Vec<Constraint>,
    /// The values and positions that are given as fixed.
    pub filled_values: Vec<Possibility>,
}

/// Every position and value of a square of the given side, the value
/// changing fastest, then the row, then the column.
pub open spec fn all_possibilities(side_length: usize) -> Seq<Possibility> {
    three_combinations(
        seq![side_length, side_length, (side_length + 1) as usize],
        seq![0usize, 0usize, 1usize],
    ).map_values(|t: Seq<usize>| Possibility { row: t[1], column: t[0], value: t[2] })
}

/// Every constraint of a square of the given side: the row conditions, then
/// the column conditions, then the boxes.
pub open spec fn all_constraints(side_length: usize) -> Seq<Constraint> {
    two_combinations(
        seq![side_length, (side_length + 1) as usize],
        seq![0usize, 1usize],
    ).map_values(|t: Seq<usize>| Constraint::RowNumber { row: t[0], value: t[1] })
        + two_combinations(
        seq![side_length, (side_length + 1) as usize],
        seq![0usize, 1usize],
    ).map_values(|t: Seq<usize>| Constraint::ColumnNumber { column: t[0], value: t[1] })
        + two_combinations(seq![side_length, side_length], seq![0usize, 0usize]).map_values(
        |t: Seq<usize>| Constraint::RowColumn { row: t[0], column: t[1] },
    )
}

/// One of the filled values stands in the box at `(row, column)`.
pub open spec fn box_filled(filled: Seq<Possibility>, row: usize, column: usize) -> bool {
    exists|i: int| 0 <= i < filled.len() && (#[trigger] filled[i]).row == row && filled[i].column == column
}

/// One of the filled values satisfies `constraint`.
pub open spec fn already_satisfied(filled: Seq<Possibility>, constraint: Constraint) -> bool {
    exists|i: int| 0 <= i < filled.len() && (#[trigger] filled[i]).spec_satisfies(constraint)
}

/// The possibilities of a puzzle: those whose box is not filled.
pub open spec fn open_possibilities(side_length: usize, filled: Seq<Possibility>) -> Seq<
    Possibility,
> {
    all_possibilities(side_length).filter(|p: Possibility| !box_filled(filled, p.row, p.column))
}

/// The constraints of a puzzle: those that no filled value satisfies.
pub open spec fn open_constraints(side_length: usize, filled: Seq<Possibility>) -> Seq<
    Constraint,
> {
    all_constraints(side_length).filter(|c: Constraint| !already_satisfied(filled, c))
}

impl Possibility {
    /// Whether this possibility satisfies `constraint`.
    pub open spec fn spec_satisfies(self, constraint: Constraint) -> bool {
        match constraint {
            Constraint::RowNumber { row, value } => self.row == row && self.value == value,
            Constraint::ColumnNumber { column, value } => self.column == column && self.value
                == value,
            Constraint::RowColumn { row, column } => self.row == row && self.column == column,
        }
    }

    /// The constraints that this possibility satisfies.
    pub open spec fn spec_satisfied_constraints(self) -> Seq<Constraint> {
        seq![
            Constraint::RowNumber { row: self.row, value: self.value },
            Constraint::ColumnNumber { column: self.column, value: self.value },
            Constraint::RowColumn { row: self.row, column: self.column },
        ]
    }

    /// Return all possibilities for the given `side_length`.
    pub fn all(side_length: usize) -> (all: Vec<Possibility>)
        requires
            side_length < usize::MAX,
        ensures
            all@ == all_possibilities(side_length),
    {
        let triples = three_combination_iter(
            [side_length, side_length, side_length + 1],
            [0, 0, 1],
        );
        let mut all: Vec<Possibility> = Vec::new();
        let mut i: usize = 0;
        let ghost limits = seq![side_length, side_length, (side_length + 1) as usize];
        let ghost start = seq![0usize, 0usize, 1usize];
        proof {
            assert([side_length, side_length, (side_length + 1) as usize]@ =~= limits);
            assert([0usize, 0usize, 1usize]@ =~= start);
        }
        while i < triples.len()
            invariant
                views(triples@) == three_combinations(limits, start),
                0 <= i <= triples@.len(),
                all@.len() == i,
                forall|k: int|
                    0 <= k < i ==> #[trigger] all@[k] == (Possibility {
                        row: triples@[k]@[1],
                        column: triples@[k]@[0],
                        value: triples@[k]@[2],
                    }),
            decreases triples@.len() - i,
        {
            let triple = triples[i];
            all.push(Possibility { row: triple[1], column: triple[0], value: triple[2] });
            i += 1;
        }
        proof {
            assert(all@ =~= all_possibilities(side_length)) by {
                assert forall|k: int| 0 <= k < all@.len() implies all@[k] == all_possibilities(
                    side_length,
                )[k] by {
                    assert(views(triples@)[k] == triples@[k]@);
                }
            }
        }
        all
    }

    /// Return the constraints that are satisfied by this possibility.
    pub fn satisfied_constraints(self) -> (satisfied: Vec<Constraint>)
        ensures
            satisfied@ == self.spec_satisfied_constraints(),
    {
        let mut satisfied: Vec<Constraint> = Vec::new();
        satisfied.push(Constraint::RowNumber { row: self.row, value: self.value });
        satisfied.push(Constraint::ColumnNumber { column: self.column, value: self.value });
        satisfied.push(Constraint::RowColumn { row: self.row, column: self.column });
        proof {
            assert(satisfied@ =~= self.spec_satisfied_constraints());
        }
        satisfied
    }

    /// Return true if this possibility satisfies the given constraint.
    pub fn satisfies(&self, constraint: &Constraint) -> (yes: bool)
        ensures
            yes == self.spec_satisfies(*constraint),
    {
        match constraint {
            Constraint::RowNumber { row, value } => self.row == *row && self.value == *value,
            Constraint::ColumnNumber { column, value } => self.column == *column && self.value
                == *value,
            Constraint::RowColumn { row, column } => self.row == *row && self.column == *column,
        }
    }
}

/// The constraints that a possibility satisfies are those that it lists.
pub proof fn lemma_satisfied_constraints(possibility: Possibility, constraint: Constraint)
    ensures
        possibility.spec_satisfied_constraints().contains(constraint)
            <==> possibility.spec_satisfies(constraint),
{
    let listed = possibility.spec_satisfied_constraints();
    if possibility.spec_satisfies(constraint) {
        match constraint {
            Constraint::RowNumber { .. } => {
                assert(listed[0] == constraint);
            },
            Constraint::ColumnNumber { .. } => {
                assert(listed[1] == constraint);
            },
            Constraint::RowColumn { .. } => {
                assert(listed[2] == constraint);
            },
        }
    }
}

impl Constraint {
    /// Return all constraints for the given `side_length`.
    pub fn all(side_length: usize) -> (all: Vec<Constraint>)
        requires
            side_length < usize::MAX,
        ensures
            all@ == all_constraints(side_length),
    {
        let ghost numbered = two_combinations(
            seq![side_length, (side_length + 1) as usize],
            seq![0usize, 1usize],
        );
        let ghost boxes = two_combinations(seq![side_length, side_length], seq![0usize, 0usize]);
        let ghost rows = numbered.map_values(
            |t: Seq<usize>| Constraint::RowNumber { row: t[0], value: t[1] },
        );
        let ghost columns = numbered.map_values(
            |t: Seq<usize>| Constraint::ColumnNumber { column: t[0], value: t[1] },
        );
        let pairs = two_combination_iter([side_length, side_length + 1], [0, 1]);
        proof {
            assert([side_length, (side_length + 1) as usize]@ =~= seq![
                side_length,
                (side_length + 1) as usize,
            ]);
            assert([0usize, 1usize]@ =~= seq![0usize, 1usize]);
        }
        let mut all: Vec<Constraint> = Vec::new();
        let mut i: usize = 0;
        while i < pairs.len()
            invariant
                views(pairs@) == numbered,
                0 <= i <= pairs@.len(),
                all@ == rows.take(i as int),
                rows == numbered.map_values(
                    |t: Seq<usize>| Constraint::RowNumber { row: t[0], value: t[1] },
                ),
            decreases pairs@.len() - i,
        {
            let pair = pairs[i];
            proof {
                assert(views(pairs@)[i as int] == pairs@[i as int]@);
                assert(rows.take(i + 1) =~= rows.take(i as int).push(rows[i as int]));
            }
            all.push(Constraint::RowNumber { row: pair[0], value: pair[1] });
            i += 1;
        }
        proof {
            assert(rows.take(i as int) =~= rows);
            assert(rows + columns.take(0) =~= rows);
        }
        i = 0;
        while i < pairs.len()
            invariant
                views(pairs@) == numbered,
                0 <= i <= pairs@.len(),
                all@ == rows + columns.take(i as int),
                columns == numbered.map_values(
                    |t: Seq<usize>| Constraint::ColumnNumber { column: t[0], value: t[1] },
                ),
            decreases pairs@.len() - i,
        {
            let pair = pairs[i];
            proof {
                assert(views(pairs@)[i as int] == pairs@[i as int]@);
                assert(rows + columns.take(i + 1) =~= (rows + columns.take(i as int)).push(
                    columns[i as int],
                ));
            }
            all.push(Constraint::ColumnNumber { column: pair[0], value: pair[1] });
            i += 1;
        }
        let cells = two_combination_iter([side_length, side_length], [0, 0]);
        let ghost filled = boxes.map_values(
            |t: Seq<usize>| Constraint::RowColumn { row: t[0], column: t[1] },
        );
        proof {
            assert([side_length, side_length]@ =~= seq![side_length, side_length]);
            assert([0usize, 0usize]@ =~= seq![0usize, 0usize]);
            assert(columns.take(i as int) =~= columns);
            assert(rows + columns + filled.take(0) =~= rows + columns);
        }
        i = 0;
        while i < cells.len()
            invariant
                views(cells@) == boxes,
                0 <= i <= cells@.len(),
                all@ == rows + columns + filled.take(i as int),
                filled == boxes.map_values(
                    |t: Seq<usize>| Constraint::RowColumn { row: t[0], column: t[1] },
                ),
            decreases cells@.len() - i,
        {
            let cell = cells[i];
            proof {
                assert(views(cells@)[i as int] == cells@[i as int]@);
                assert(rows + columns + filled.take(i + 1) =~= (rows + columns + filled.take(
                    i as int,
                )).push(filled[i as int]));
            }
            all.push(Constraint::RowColumn { row: cell[0], column: cell[1] });
            i += 1;
        }
        proof {
            assert(filled.take(i as int) =~= filled);
        }
        all
    }
}

/// Whether one of the filled values stands in the box at `(row, column)`.
pub fn is_box_filled(filled: &Vec<Possibility>, row: usize, column: usize) -> (yes: bool)
    ensures
        yes == box_filled(filled@, row, column),
{
    let mut i: usize = 0;
    while i < filled.len()
        invariant
            0 <= i <= filled@.len(),
            forall|k: int|
                0 <= k < i ==> !((#[trigger] filled@[k]).row == row && filled@[k].column == column),
        decreases filled@.len() - i,
    {
        if filled[i].row == row && filled[i].column == column {
            return true;
        }
        i += 1;
    }
    false
}

/// Whether one of the filled values satisfies `constraint`.
pub fn is_already_satisfied(filled: &Vec<Possibility>, constraint: &Constraint) -> (yes: bool)
    ensures
        yes == already_satisfied(filled@, *constraint),
{
    let mut i: usize = 0;
    while i < filled.len()
        invariant
            0 <= i <= filled@.len(),
            forall|k: int| 0 <= k < i ==> !(#[trigger] filled@[k]).spec_satisfies(*constraint),
        decreases filled@.len() - i,
    {
        if filled[i].satisfies(constraint) {
            return true;
        }
        i += 1;
    }
    false
}

impl LatinSquare {
    /// The filled values hold symbols of a square of the given side.
    pub open spec fn values_in_range(side_length: usize, filled: Seq<Possibility>) -> bool {
        forall|i: int| 0 <= i < filled.len() ==> 0 < (#[trigger] filled[i]).value <= side_length
    }

    /// Create a new Latin square puzzle of the given side with the given
    /// values filled in.
    pub fn new(side_length: usize, filled_values: Vec<Possibility>) -> (square: Self)
        requires
            side_length < usize::MAX,
            Self::values_in_range(side_length, filled_values@),
        ensures
            square.possibilities@ == open_possibilities(side_length, filled_values@),
            square.constraints@ == open_constraints(side_length, filled_values@),
            square.filled_values@ == filled_values@,
    {
        let everything = Possibility::all(side_length);
        let mut possibilities: Vec<Possibility> = Vec::new();
        let ghost free = |p: Possibility| !box_filled(filled_values@, p.row, p.column);
        let mut i: usize = 0;
        proof {
            assert(everything@.take(0) =~= Seq::<Possibility>::empty());
            Seq::<Possibility>::empty().lemma_filter_len(free);
        }
        while i < everything.len()
            invariant
                0 <= i <= everything@.len(),
                free == |p: Possibility| !box_filled(filled_values@, p.row, p.column),
                possibilities@ == everything@.take(i as int).filter(free),
            decreases everything@.len() - i,
        {
            let possibility = everything[i];
            proof {
                assert(everything@.take(i + 1) =~= everything@.take(i as int).push(possibility));
                everything@.take(i as int).lemma_filter_push(possibility, free);
            }
            if !is_box_filled(&filled_values, possibility.row, possibility.column) {
                possibilities.push(possibility);
            }
            i += 1;
        }
        let conditions = Constraint::all(side_length);
        let mut constraints: Vec<Constraint> = Vec::new();
        let ghost open = |c: Constraint| !already_satisfied(filled_values@, c);
        proof {
            assert(everything@.take(i as int) =~= everything@);
            assert(conditions@.take(0) =~= Seq::<Constraint>::empty());
            Seq::<Constraint>::empty().lemma_filter_len(open);
        }
        i = 0;
        while i < conditions.len()
            invariant
                0 <= i <= conditions@.len(),
                open == |c: Constraint| !already_satisfied(filled_values@, c),
                constraints@ == conditions@.take(i as int).filter(open),
            decreases conditions@.len() - i,
        {
            let condition = conditions[i];
            proof {
                assert(conditions@.take(i + 1) =~= conditions@.take(i as int).push(condition));
                conditions@.take(i as int).lemma_filter_push(condition, open);
            }
            if !is_already_satisfied(&filled_values, &condition) {
                constraints.push(condition);
            }
            i += 1;
        }
        proof {
            assert(conditions@.take(i as int) =~= conditions@);
        }
        LatinSquare { possibilities, constraints, filled_values }
    }
}

impl LatinSquare {
    /// Return a solver for this puzzle.
    pub fn solver(&self) -> (solver: Solver<'_, Self>)
        requires
            problem_fits(self),
        ensures
            solver.wf(),
            solver.problem() == self,
            solver.found() == 0,
    {
        Solver::new(self)
    }
}

impl ExactCover for LatinSquare {
    type Constraint = Constraint;

    type Possibility = Possibility;

    open spec fn spec_satisfies(&self, poss: &Self::Possibility, cons: &Self::Constraint) -> bool {
        poss.spec_satisfies(*cons)
    }

    open spec fn spec_is_optional(&self, cons: &Self::Constraint) -> bool {
        false
    }

    open spec fn spec_possibilities(&self) -> Seq<Self::Possibility> {
        self.possibilities@
    }

    open spec fn spec_constraints(&self) -> Seq<Self::Constraint> {
        self.constraints@
    }

    fn satisfies(&self, poss: &Self::Possibility, cons: &Self::Constraint) -> (yes: bool) {
        poss.satisfies(cons)
    }

    fn is_optional(&self, _cons: &Self::Constraint) -> (yes: bool) {
        false
    }

    fn possibilities(&self) -> (list: &[Self::Possibility]) {
        self.possibilities.as_slice()
    }

    fn constraints(&self) -> (list: &[Self::Constraint]) {
        self.constraints.as_slice()
    }
}

} // verus!
