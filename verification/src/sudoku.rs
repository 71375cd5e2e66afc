//! A Sudoku puzzle is an `n^2` × `n^2` array with sub-arrays of size `n` ×
//! `n`. Each row, column, and sub-array contains the values `1` through
//! `n^2` with no repeats.

use crate::latin_square;
use crate::latin_square::LatinSquare;
use crate::solver::{problem_fits, Solver};
use crate::util::{two_combination_iter, two_combinations, views};
use crate::ExactCover;
use vstd::prelude::*;

verus! {

/// A position and value for a box inside of a Sudoku puzzle.
#[derive(Debug, Copy, Clone, PartialEq, Eq, Hash, PartialOrd, Ord, Structural)]
pub struct Possibility {
    /// The row position of the box, from 0 to `n - 1` for a board of side `n`.
    pub row: usize,
    /// The column position of the box, from 0 to `n - 1`.
    pub column: usize,
    /// The index of the subgrid, from 0 to `n - 1`.
    ///
    /// The row and the column determine it; it is kept to make checking the
    /// subgrid constraints cheap.
    pub square: usize,
    /// The value present inside of the box, from 1 to `n`.
    pub value: usize,
}

/// A condition which must be satisfied in order to solve a Sudoku puzzle.
#[derive(Debug, Copy, Clone, PartialEq, Eq, Hash, PartialOrd, Ord, Structural)]
pub enum Constraint {
    /// A constraint which is also shared by a Latin square puzzle.
    Latin(latin_square::Constraint),
    /// Each subgrid holds a numeric value exactly once.
    SquareNumber {
        /// The square index.
        square: usize,
        /// The unique numeric value
        value: usize,
    },
}

/// An instance of a Sudoku puzzle.
#[derive(Debug)]
pub struct Sudoku {
    /// The values and positions that are valid for this puzzle.
    pub possibilities: Vec<Possibility>,
    /// The constraints that must be satisfied for this puzzle.
    pub constraints: Vec<Constraint>,
}

/// The index of the subgrid of the box at `(row, column)`.
pub open spec fn square_of(row: usize, column: usize, box_side_length: usize) -> int {
    let side_length = box_side_length * box_side_length;
    let index = row * side_length + column;
    (index % side_length) / (box_side_length as int) + box_side_length * (index / (side_length
        * box_side_length))
}

/// The Sudoku possibility of a Latin square possibility.
pub open spec fn spec_from_latin(latin: latin_square::Possibility, box_side_length: usize) -> Possibility {
    Possibility {
        row: latin.row,
        column: latin.column,
        value: latin.value,
        square: square_of(latin.row, latin.column, box_side_length) as usize,
    }
}

/// The subgrid conditions of a board with boxes of the given side.
pub open spec fn all_square_numbers(box_side_length: usize) -> Seq<Constraint> {
    two_combinations(
        seq![
            (box_side_length * box_side_length) as usize,
            (box_side_length * box_side_length + 1) as usize,
        ],
        seq![0usize, 1usize],
    ).map_values(|t: Seq<usize>| Constraint::SquareNumber { square: t[0], value: t[1] })
}

/// One of the filled values, seen as a Sudoku possibility, satisfies
/// `constraint`.
pub open spec fn already_satisfied(
    filled: Seq<latin_square::Possibility>,
    box_side_length: usize,
    constraint: Constraint,
) -> bool {
    exists|i: int|
        0 <= i < filled.len() && spec_from_latin(#[trigger] filled[i], box_side_length).spec_satisfies(
            constraint,
        )
}

/// The boxes of the filled values lie on a board with boxes of the given
/// side, so that their subgrid can be computed.
pub open spec fn on_board(filled: Seq<latin_square::Possibility>, box_side_length: usize) -> bool {
    forall|i: int|
        0 <= i < filled.len() ==> (#[trigger] filled[i]).row < box_side_length * box_side_length
            && filled[i].column < box_side_length * box_side_length
}

/// The sides of the board and of its boxes can be multiplied.
pub open spec fn board_fits(box_side_length: usize) -> bool {
    &&& 1 <= box_side_length
    &&& box_side_length * box_side_length * (box_side_length * box_side_length) <= usize::MAX
}

/// The possibilities of a puzzle: those of the Latin square of the same
/// side, each with its subgrid.
pub open spec fn open_possibilities(
    box_side_length: usize,
    filled: Seq<latin_square::Possibility>,
) -> Seq<Possibility> {
    latin_square::open_possibilities(
        (box_side_length * box_side_length) as usize,
        filled,
    ).map_values(|p: latin_square::Possibility| spec_from_latin(p, box_side_length))
}

/// The constraints of a puzzle: those of the Latin square of the same side,
/// then the subgrid conditions, without those that a filled value satisfies.
pub open spec fn open_constraints(
    box_side_length: usize,
    filled: Seq<latin_square::Possibility>,
) -> Seq<Constraint> {
    (latin_square::open_constraints(
        (box_side_length * box_side_length) as usize,
        filled,
    ).map_values(|c: latin_square::Constraint| Constraint::Latin(c)) + all_square_numbers(
        box_side_length,
    )).filter(|c: Constraint| !already_satisfied(filled, box_side_length, c))
}

impl Possibility {
    /// The Latin square possibility with the same box and value.
    pub open spec fn spec_into_latin(self) -> latin_square::Possibility {
        latin_square::Possibility { row: self.row, column: self.column, value: self.value }
    }

    /// Whether this possibility satisfies `constraint`.
    pub open spec fn spec_satisfies(self, constraint: Constraint) -> bool {
        match constraint {
            Constraint::Latin(latin) => self.spec_into_latin().spec_satisfies(latin),
            Constraint::SquareNumber { square, value } => self.square == square && self.value
                == value,
        }
    }

    /// The constraints that this possibility satisfies.
    pub open spec fn spec_satisfied_constraints(self) -> Seq<Constraint> {
        seq![
            Constraint::Latin(latin_square::Constraint::RowNumber { row: self.row, value: self.value }),
            Constraint::Latin(
                latin_square::Constraint::ColumnNumber { column: self.column, value: self.value },
            ),
            Constraint::Latin(
                latin_square::Constraint::RowColumn { row: self.row, column: self.column },
            ),
            Constraint::SquareNumber { square: self.square, value: self.value },
        ]
    }

    /// Convert a `latin_square::Possibility` to a `sudoku::Possibility`.
    pub fn from_latin(latin: latin_square::Possibility, box_side_length: usize) -> (possibility:
        Self)
        requires
            board_fits(box_side_length),
            latin.row < box_side_length * box_side_length,
            latin.column < box_side_length * box_side_length,
        ensures
            possibility == spec_from_latin(latin, box_side_length),
            possibility.square == (latin.row / box_side_length) * box_side_length + latin.column
                / box_side_length,
            possibility.square < box_side_length * box_side_length,
    {
        proof {
            lemma_square(latin.row, latin.column, box_side_length);
        }
        let side_length = box_side_length * box_side_length;
        let index = latin.row * side_length + latin.column;
        let square = ((index % side_length) / box_side_length) + box_side_length * (index / (
        side_length * box_side_length));
        Possibility { row: latin.row, column: latin.column, value: latin.value, square }
    }

    /// Return the constraints that are satisfied by this possibility.
    pub fn satisfied_constraints(self) -> (satisfied: Vec<Constraint>)
        ensures
            satisfied@ == self.spec_satisfied_constraints(),
    {
        let mut satisfied: Vec<Constraint> = Vec::new();
        satisfied.push(
            Constraint::Latin(latin_square::Constraint::RowNumber { row: self.row, value: self.value }),
        );
        satisfied.push(
            Constraint::Latin(
                latin_square::Constraint::ColumnNumber { column: self.column, value: self.value },
            ),
        );
        satisfied.push(
            Constraint::Latin(
                latin_square::Constraint::RowColumn { row: self.row, column: self.column },
            ),
        );
        satisfied.push(Constraint::SquareNumber { square: self.square, value: self.value });
        proof {
            assert(satisfied@ =~= self.spec_satisfied_constraints());
        }
        satisfied
    }

    /// Return true if this possibility satisfies the given constraint.
    pub fn satisfies(&self, constraint: &Constraint) -> (yes: bool)
        ensures
            yes == self.spec_satisfies(*constraint),
    {
        match constraint {
            Constraint::Latin(latin) => latin_square::Possibility::from(*self).satisfies(latin),
            Constraint::SquareNumber { square, value } => self.square == *square && self.value
                == *value,
        }
    }
}

/// The subgrid of a box on the board is the one in its band of rows and its
/// stack of columns, and the computation of its index stays in range.
pub proof fn lemma_square(row: usize, column: usize, box_side_length: usize)
    requires
        board_fits(box_side_length),
        row < box_side_length * box_side_length,
        column < box_side_length * box_side_length,
    ensures
        1 <= box_side_length * box_side_length <= usize::MAX,
        row * (box_side_length * box_side_length) + column <= usize::MAX,
        1 <= box_side_length * box_side_length * box_side_length <= usize::MAX,
        square_of(row, column, box_side_length) == (row / box_side_length) * box_side_length
            + column / box_side_length,
        0 <= square_of(row, column, box_side_length) < box_side_length * box_side_length,
{
    let b = box_side_length as int;
    let s = b * b;
    let r = row as int;
    let c = column as int;
    assert(s >= 1 && s * s >= s && s * b >= s && s * b <= s * s) by (nonlinear_arith)
        requires
            s == b * b,
            b >= 1,
    ;
    assert(r * s + c < s * s) by (nonlinear_arith)
        requires
            0 <= r < s,
            0 <= c < s,
    ;
    let index = r * s + c;
    vstd::arithmetic::div_mod::lemma_fundamental_div_mod_converse(index, s, r, c);
    assert(index % s == c);
    // index / (s * b) == r / b
    let q = r / b;
    let rem = r % b;
    vstd::arithmetic::div_mod::lemma_fundamental_div_mod(r, b);
    assert(r == b * q + rem);
    assert(0 <= rem < b);
    assert(index == q * (s * b) + (rem * s + c)) by (nonlinear_arith)
        requires
            index == r * s + c,
            r == b * q + rem,
    ;
    assert(0 <= rem * s + c < s * b) by (nonlinear_arith)
        requires
            0 <= rem < b,
            0 <= c < s,
            s >= 0,
    ;
    vstd::arithmetic::div_mod::lemma_fundamental_div_mod_converse(index, s * b, q, rem * s + c);
    assert(index / (s * b) == q);
    assert(0 <= q < b) by (nonlinear_arith)
        requires
            r == b * q + rem,
            0 <= rem < b,
            0 <= r < b * b,
            b >= 1,
    ;
    assert(0 <= c / b < b) by (nonlinear_arith)
        requires
            0 <= c < b * b,
            b >= 1,
    ;
    assert(b * q == q * b) by (nonlinear_arith);
    assert(q * b + c / b < b * b) by (nonlinear_arith)
        requires
            0 <= q < b,
            0 <= c / b < b,
    ;
}

impl Constraint {
    /// Return the subgrid conditions of a board with boxes of the given side.
    pub fn all_square_number(box_side_length: usize) -> (all: Vec<Constraint>)
        requires
            box_side_length * box_side_length < usize::MAX,
        ensures
            all@ == all_square_numbers(box_side_length),
    {
        let side_length = box_side_length * box_side_length;
        let pairs = two_combination_iter([side_length, side_length + 1], [0, 1]);
        let ghost numbered = two_combinations(
            seq![side_length, (side_length + 1) as usize],
            seq![0usize, 1usize],
        );
        proof {
            assert([side_length, (side_length + 1) as usize]@ =~= seq![
                side_length,
                (side_length + 1) as usize,
            ]);
            assert([0usize, 1usize]@ =~= seq![0usize, 1usize]);
        }
        let mut all: Vec<Constraint> = Vec::new();
        let mut i: usize = 0;
        while i < pairs.len()
            invariant
                views(pairs@) == numbered,
                0 <= i <= pairs@.len(),
                all@.len() == i,
                forall|k: int|
                    0 <= k < i ==> #[trigger] all@[k] == (Constraint::SquareNumber {
                        square: pairs@[k]@[0],
                        value: pairs@[k]@[1],
                    }),
            decreases pairs@.len() - i,
        {
            let pair = pairs[i];
            all.push(Constraint::SquareNumber { square: pair[0], value: pair[1] });
            i += 1;
        }
        proof {
            assert(all@ =~= all_square_numbers(box_side_length)) by {
                assert forall|k: int| 0 <= k < all@.len() implies all@[k] == all_square_numbers(
                    box_side_length,
                )[k] by {
                    assert(views(pairs@)[k] == pairs@[k]@);
                }
            }
        }
        all
    }

}

impl From<latin_square::Constraint> for Constraint {
    fn from(src: latin_square::Constraint) -> (constraint: Self) {
        Constraint::Latin(src)
    }
}

impl vstd::std_specs::convert::FromSpecImpl<latin_square::Constraint> for Constraint {
    open spec fn obeys_from_spec() -> bool {
        true
    }

    open spec fn from_spec(src: latin_square::Constraint) -> Self {
        Constraint::Latin(src)
    }
}

impl From<Possibility> for latin_square::Possibility {
    fn from(possibility: Possibility) -> (latin: Self) {
        latin_square::Possibility {
            row: possibility.row,
            column: possibility.column,
            value: possibility.value,
        }
    }
}

impl vstd::std_specs::convert::FromSpecImpl<Possibility> for latin_square::Possibility {
    open spec fn obeys_from_spec() -> bool {
        true
    }

    open spec fn from_spec(possibility: Possibility) -> Self {
        possibility.spec_into_latin()
    }
}

/// Whether one of the filled values, seen as a Sudoku possibility,
/// satisfies `constraint`.
pub fn is_already_satisfied(
    filled: &Vec<latin_square::Possibility>,
    box_side_length: usize,
    constraint: &Constraint,
) -> (yes: bool)
    requires
        board_fits(box_side_length),
        on_board(filled@, box_side_length),
    ensures
        yes == already_satisfied(filled@, box_side_length, *constraint),
{
    let mut i: usize = 0;
    while i < filled.len()
        invariant
            board_fits(box_side_length),
            on_board(filled@, box_side_length),
            0 <= i <= filled@.len(),
            forall|k: int|
                0 <= k < i ==> !spec_from_latin(#[trigger] filled@[k], box_side_length).spec_satisfies(
                    *constraint,
                ),
        decreases filled@.len() - i,
    {
        if Possibility::from_latin(filled[i], box_side_length).satisfies(constraint) {
            return true;
        }
        i += 1;
    }
    false
}

/// A copy of the filled values.
fn copy_filled(filled: &Vec<latin_square::Possibility>) -> (copy: Vec<latin_square::Possibility>)
    ensures
        copy@ == filled@,
{
    let mut copy: Vec<latin_square::Possibility> = Vec::new();
    let mut i: usize = 0;
    while i < filled.len()
        invariant
            0 <= i <= filled@.len(),
            copy@ == filled@.take(i as int),
        decreases filled@.len() - i,
    {
        copy.push(filled[i]);
        proof {
            assert(filled@.take(i + 1) =~= filled@.take(i as int).push(filled@[i as int]));
        }
        i += 1;
    }
    proof {
        assert(filled@.take(i as int) =~= filled@);
    }
    copy
}

/// The byte is one of the digits `0` to `9`.
pub open spec fn is_digit(byte: u8) -> bool {
    48 <= byte <= 57
}

/// The bytes describe a board of the given side: one digit for every box,
/// row by row, none larger than the side; `0` stands for an empty box.
pub open spec fn puzzle_ok(input: Seq<u8>, side_length: usize) -> bool {
    &&& input.len() == side_length * side_length
    &&& forall|i: int|
        0 <= i < input.len() ==> is_digit(#[trigger] input[i]) && input[i] - 48 <= side_length
}

/// The value that the digit at place `i` of the description fills in.
pub open spec fn given_at(input: Seq<u8>, side_length: usize, i: int) -> latin_square::Possibility {
    latin_square::Possibility {
        row: (i / (side_length as int)) as usize,
        column: (i % (side_length as int)) as usize,
        value: (input[i] - 48) as usize,
    }
}

/// The values that a description fills in: one for every digit other
/// than `0`, in the order of the digits.
pub open spec fn givens(input: Seq<u8>, side_length: usize) -> Seq<latin_square::Possibility> {
    Seq::new(input.len(), |i: int| i).filter(|i: int| input[i] != 48).map_values(
        |i: int| given_at(input, side_length, i),
    )
}

/// Reads the description of a puzzle: one digit for every box of the
/// board, row by row, `0` for an empty box. Returns the values that it
/// fills in, or none if it does not describe a board of this size.
pub fn parse_puzzle(input: &[u8], box_side_length: usize) -> (filled: Option<
    Vec<latin_square::Possibility>,
>)
    requires
        board_fits(box_side_length),
    ensures
        filled is Some <==> puzzle_ok(input@, (box_side_length * box_side_length) as usize),
        filled matches Some(values) ==> {
            &&& values@ == givens(input@, (box_side_length * box_side_length) as usize)
            &&& on_board(values@, box_side_length)
            &&& LatinSquare::values_in_range(
                (box_side_length * box_side_length) as usize,
                values@,
            )
        },
{
    proof {
        let b = box_side_length as int;
        assert(1 <= b * b && b * b <= b * b * (b * b)) by (nonlinear_arith)
            requires
                b >= 1,
        ;
    }
    let side_length = box_side_length * box_side_length;
    let cells = side_length * side_length;
    if input.len() != cells {
        return None;
    }
    let mut values: Vec<latin_square::Possibility> = Vec::new();
    let ghost places = Seq::new(input@.len(), |i: int| i);
    let ghost given = |i: int| input@[i] != 48;
    let ghost value = |i: int| given_at(input@, side_length, i);
    let mut i: usize = 0;
    proof {
        assert(places.take(0) =~= Seq::<int>::empty());
        Seq::<int>::empty().lemma_filter_len(given);
        assert(places.take(0).filter(given).map_values(value) =~= Seq::<
            latin_square::Possibility,
        >::empty());
    }
    while i < input.len()
        invariant
            side_length >= 1,
            side_length == box_side_length * box_side_length,
            input@.len() == side_length * side_length,
            0 <= i <= input@.len(),
            places == Seq::new(input@.len(), |i: int| i),
            given == |i: int| input@[i] != 48,
            value == |i: int| given_at(input@, side_length, i),
            values@ == places.take(i as int).filter(given).map_values(value),
            forall|k: int|
                0 <= k < i ==> is_digit(#[trigger] input@[k]) && input@[k] - 48 <= side_length,
            on_board(values@, box_side_length),
            LatinSquare::values_in_range(side_length, values@),
        decreases input@.len() - i,
    {
        let byte = input[i];
        if byte < 48 || byte > 57 || (byte - 48) as usize > side_length {
            return None;
        }
        proof {
            let seen = places.take(i as int);
            assert(places.take(i + 1) =~= seen.push(i as int));
            seen.lemma_filter_push(i as int, given);
            if given(i as int) {
                assert(seen.filter(given).push(i as int).map_values(value) =~= seen.filter(
                    given,
                ).map_values(value).push(value(i as int)));
            }
            assert(i / side_length < side_length) by (nonlinear_arith)
                requires
                    0 <= i < side_length * side_length,
                    side_length >= 1,
            ;
        }
        if byte != 48 {
            let ghost before = values@;
            let found = latin_square::Possibility {
                row: i / side_length,
                column: i % side_length,
                value: (byte - 48) as usize,
            };
            values.push(found);
            proof {
                assert forall|k: int| 0 <= k < values@.len() implies (#[trigger] values@[k]).row
                    < box_side_length * box_side_length && values@[k].column < box_side_length
                    * box_side_length by {
                    if k < before.len() {
                        assert(values@[k] == before[k]);
                    }
                }
                assert forall|k: int| 0 <= k < values@.len() implies 0 < (
                #[trigger] values@[k]).value <= side_length by {
                    if k < before.len() {
                        assert(values@[k] == before[k]);
                    }
                }
            }
        }
        i += 1;
    }
    proof {
        assert(places.take(i as int) =~= places);
    }
    Some(values)
}

/// The value that byte `i` of sixteen fills into a board of side 4: the
/// remainder of the byte by 5, in the box `i` counted row by row.
pub open spec fn small_given_at(bytes: Seq<u8>, i: int) -> latin_square::Possibility {
    latin_square::Possibility {
        row: (i / 4) as usize,
        column: (i % 4) as usize,
        value: (bytes[i] % 5) as usize,
    }
}

/// The filled values of the puzzle of side 4 that sixteen bytes stand for:
/// one for every byte that is not a multiple of 5.
pub open spec fn small_givens(bytes: Seq<u8>) -> Seq<latin_square::Possibility> {
    Seq::new(16, |i: int| i).filter(|i: int| bytes[i] % 5 != 0).map_values(
        |i: int| small_given_at(bytes, i),
    )
}

/// Turns sixteen arbitrary bytes into the filled values of a puzzle of side
/// 4: every byte fills its box with its remainder by 5, or leaves it
/// empty if that is 0.
pub fn small_puzzle(bytes: [u8; 16]) -> (filled: Vec<latin_square::Possibility>)
    ensures
        filled@ == small_givens(bytes@),
        on_board(filled@, 2),
        LatinSquare::values_in_range(4, filled@),
{
    let mut filled: Vec<latin_square::Possibility> = Vec::new();
    let ghost places = Seq::new(16, |i: int| i);
    let ghost given = |i: int| bytes@[i] % 5 != 0;
    let ghost value = |i: int| small_given_at(bytes@, i);
    let mut index: usize = 0;
    proof {
        assert(places.take(0) =~= Seq::<int>::empty());
        Seq::<int>::empty().lemma_filter_len(given);
        assert(places.take(0).filter(given).map_values(value) =~= Seq::<
            latin_square::Possibility,
        >::empty());
    }
    while index < 16
        invariant
            0 <= index <= 16,
            places == Seq::new(16, |i: int| i),
            given == |i: int| bytes@[i] % 5 != 0,
            value == |i: int| small_given_at(bytes@, i),
            filled@ == places.take(index as int).filter(given).map_values(value),
            on_board(filled@, 2),
            LatinSquare::values_in_range(4, filled@),
        decreases 16 - index,
    {
        let row = index / 4;
        let column = index % 4;
        let remainder = (bytes[index] % 5) as usize;
        proof {
            let seen = places.take(index as int);
            assert(places.take(index + 1) =~= seen.push(index as int));
            seen.lemma_filter_push(index as int, given);
            if given(index as int) {
                assert(seen.filter(given).push(index as int).map_values(value) =~= seen.filter(
                    given,
                ).map_values(value).push(value(index as int)));
            }
        }
        if remainder != 0 {
            let ghost before = filled@;
            filled.push(latin_square::Possibility { row, column, value: remainder });
            proof {
                assert forall|k: int| 0 <= k < filled@.len() implies (#[trigger] filled@[k]).row < 2
                    * 2 && filled@[k].column < 2 * 2 by {
                    if k < before.len() {
                        assert(filled@[k] == before[k]);
                    }
                }
                assert forall|k: int| 0 <= k < filled@.len() implies 0 < (
                #[trigger] filled@[k]).value <= 4 by {
                    if k < before.len() {
                        assert(filled@[k] == before[k]);
                    }
                }
            }
        }
        index += 1;
    }
    proof {
        assert(places.take(index as int) =~= places);
    }
    filled
}

/// The description with the digits of the first `count` possibilities
/// written into their boxes.
pub open spec fn filled_in(
    input: Seq<u8>,
    chosen: Seq<Possibility>,
    side_length: usize,
    count: int,
) -> Seq<u8>
    decreases count,
{
    if count <= 0 {
        input
    } else {
        filled_in(input, chosen, side_length, count - 1).update(
            chosen[count - 1].row * side_length + chosen[count - 1].column,
            (48 + chosen[count - 1].value) as u8,
        )
    }
}

/// The possibilities lie on the board and hold values of one digit.
pub open spec fn writable(chosen: Seq<Possibility>, side_length: usize) -> bool {
    forall|k: int|
        0 <= k < chosen.len() ==> (#[trigger] chosen[k]).row < side_length && chosen[k].column
            < side_length && chosen[k].value <= 9
}

/// Whether the possibilities lie on the board and hold values of one
/// digit.
pub fn is_writable(chosen: &Vec<&Possibility>, side_length: usize) -> (yes: bool)
    ensures
        yes == writable(chosen@.map_values(|p: &Possibility| *p), side_length),
{
    let ghost values = chosen@.map_values(|p: &Possibility| *p);
    let mut k: usize = 0;
    while k < chosen.len()
        invariant
            0 <= k <= chosen@.len(),
            values == chosen@.map_values(|p: &Possibility| *p),
            forall|j: int|
                0 <= j < k ==> (#[trigger] values[j]).row < side_length && values[j].column
                    < side_length && values[j].value <= 9,
        decreases chosen@.len() - k,
    {
        let possibility = chosen[k];
        if possibility.row >= side_length || possibility.column >= side_length
            || possibility.value > 9 {
            assert(values[k as int] == *possibility);
            return false;
        }
        assert(values[k as int] == *possibility);
        k += 1;
    }
    true
}

/// Writes the digits of the possibilities of a solution into the
/// description of the puzzle that it solves.
pub fn fill_in(input: &[u8], chosen: &Vec<&Possibility>, side_length: usize) -> (output: Vec<u8>)
    requires
        input@.len() == side_length * side_length,
        writable(chosen@.map_values(|p: &Possibility| *p), side_length),
    ensures
        output@ == filled_in(
            input@,
            chosen@.map_values(|p: &Possibility| *p),
            side_length,
            chosen@.len() as int,
        ),
{
    let ghost values = chosen@.map_values(|p: &Possibility| *p);
    let mut output: Vec<u8> = Vec::new();
    let mut i: usize = 0;
    while i < input.len()
        invariant
            0 <= i <= input@.len(),
            output@ == input@.take(i as int),
        decreases input@.len() - i,
    {
        output.push(input[i]);
        proof {
            assert(input@.take(i + 1) =~= input@.take(i as int).push(input@[i as int]));
        }
        i += 1;
    }
    proof {
        assert(input@.take(i as int) =~= input@);
    }
    let mut k: usize = 0;
    while k < chosen.len()
        invariant
            0 <= k <= chosen@.len(),
            values == chosen@.map_values(|p: &Possibility| *p),
            writable(values, side_length),
            input@.len() == side_length * side_length,
            input@.len() <= usize::MAX,
            output@.len() == input@.len(),
            output@ == filled_in(input@, values, side_length, k as int),
        decreases chosen@.len() - k,
    {
        let possibility = chosen[k];
        proof {
            assert(values[k as int] == *possibility);
            assert(0 <= possibility.row * side_length && possibility.row * side_length
                + possibility.column < side_length * side_length) by (nonlinear_arith)
                requires
                    0 <= possibility.row < side_length,
                    0 <= possibility.column < side_length,
            ;
        }
        output.set(possibility.row * side_length + possibility.column, 48 + possibility.value as u8);
        k += 1;
    }
    output
}

impl Sudoku {
    /// Create a new Sudoku puzzle.
    ///
    /// The puzzle has size `n^2` × `n^2` (where `n = box_side_length`) and
    /// the given values filled in.
    pub fn new(box_side_length: usize, filled_values: Vec<latin_square::Possibility>) -> (sudoku:
        Self)
        requires
            board_fits(box_side_length),
            box_side_length * box_side_length < usize::MAX,
            on_board(filled_values@, box_side_length),
            LatinSquare::values_in_range(
                (box_side_length * box_side_length) as usize,
                filled_values@,
            ),
        ensures
            sudoku.possibilities@ == open_possibilities(box_side_length, filled_values@),
            sudoku.constraints@ == open_constraints(box_side_length, filled_values@),
    {
        let side_length = box_side_length * box_side_length;
        let latin = LatinSquare::new(side_length, copy_filled(&filled_values));
        let mut possibilities: Vec<Possibility> = Vec::new();
        let mut i: usize = 0;
        let ghost converted = latin.possibilities@.map_values(
            |p: latin_square::Possibility| spec_from_latin(p, box_side_length),
        );
        proof {
            // Every possibility of the Latin square lies on the board.
            let limits = seq![side_length, side_length, (side_length + 1) as usize];
            let start = seq![0usize, 0usize, 1usize];
            let everything = latin_square::all_possibilities(side_length);
            assert forall|k: int| 0 <= k < everything.len() implies (#[trigger] everything[k]).row
                < side_length && everything[k].column < side_length by {
                crate::util::lemma_three_combinations_bounds(limits, start, k);
            }
            assert forall|k: int| 0 <= k < latin.possibilities@.len() implies (
            #[trigger] latin.possibilities@[k]).row < side_length && latin.possibilities@[k].column
                < side_length by {
                let free = |p: latin_square::Possibility|
                    !latin_square::box_filled(filled_values@, p.row, p.column);
                everything.lemma_filter_contains_rev(free, latin.possibilities@[k]);
                assert(latin.possibilities@.contains(latin.possibilities@[k]));
                let j = choose|j: int|
                    0 <= j < everything.len() && everything[j] == latin.possibilities@[k];
                assert(everything[j].row < side_length);
            }
        }
        while i < latin.possibilities.len()
            invariant
                board_fits(box_side_length),
                side_length == box_side_length * box_side_length,
                0 <= i <= latin.possibilities@.len(),
                forall|k: int|
                    0 <= k < latin.possibilities@.len() ==> (#[trigger] latin.possibilities@[k]).row
                        < side_length && latin.possibilities@[k].column < side_length,
                possibilities@ == converted.take(i as int),
                converted == latin.possibilities@.map_values(
                    |p: latin_square::Possibility| spec_from_latin(p, box_side_length),
                ),
            decreases latin.possibilities@.len() - i,
        {
            possibilities.push(Possibility::from_latin(latin.possibilities[i], box_side_length));
            proof {
                assert(converted.take(i + 1) =~= converted.take(i as int).push(converted[i as int]));
            }
            i += 1;
        }
        let squares = Constraint::all_square_number(box_side_length);
        let ghost carried = latin.constraints@.map_values(
            |c: latin_square::Constraint| Constraint::Latin(c),
        );
        let ghost candidates = carried + squares@;
        let ghost open = |c: Constraint| !already_satisfied(filled_values@, box_side_length, c);
        let mut constraints: Vec<Constraint> = Vec::new();
        proof {
            assert(converted.take(i as int) =~= converted);
            assert(candidates.take(0) =~= Seq::<Constraint>::empty());
            Seq::<Constraint>::empty().lemma_filter_len(open);
        }
        i = 0;
        while i < latin.constraints.len()
            invariant
                board_fits(box_side_length),
                on_board(filled_values@, box_side_length),
                0 <= i <= latin.constraints@.len(),
                carried == latin.constraints@.map_values(
                    |c: latin_square::Constraint| Constraint::Latin(c),
                ),
                candidates == carried + squares@,
                open == |c: Constraint| !already_satisfied(filled_values@, box_side_length, c),
                constraints@ == candidates.take(i as int).filter(open),
            decreases latin.constraints@.len() - i,
        {
            let constraint = Constraint::from(latin.constraints[i]);
            proof {
                assert(candidates[i as int] == carried[i as int]);
                assert(candidates.take(i + 1) =~= candidates.take(i as int).push(constraint));
                candidates.take(i as int).lemma_filter_push(constraint, open);
            }
            if !is_already_satisfied(&filled_values, box_side_length, &constraint) {
                constraints.push(constraint);
            }
            i += 1;
        }
        let ghost offset = latin.constraints@.len() as int;
        i = 0;
        while i < squares.len()
            invariant
                board_fits(box_side_length),
                on_board(filled_values@, box_side_length),
                0 <= i <= squares@.len(),
                offset == carried.len(),
                candidates == carried + squares@,
                open == |c: Constraint| !already_satisfied(filled_values@, box_side_length, c),
                constraints@ == candidates.take(offset + i).filter(open),
            decreases squares@.len() - i,
        {
            let constraint = squares[i];
            proof {
                assert(candidates[offset + i] == squares@[i as int]);
                assert(candidates.take(offset + i + 1) =~= candidates.take(offset + i).push(
                    constraint,
                ));
                candidates.take(offset + i).lemma_filter_push(constraint, open);
            }
            if !is_already_satisfied(&filled_values, box_side_length, &constraint) {
                constraints.push(constraint);
            }
            i += 1;
        }
        proof {
            assert(candidates.take(offset + i) =~= candidates);
        }
        Sudoku { possibilities, constraints }
    }

    /// Return a solver for this puzzle.
    pub fn solver(&self) -> (solver: Solver<'_, Self>)
        requires
            problem_fits(self),
        ensures
            solver.wf(),
            solver.problem() == self,
            solver.found() == 0,
    {
        Solver::new(self)
    }
}

impl ExactCover for Sudoku {
    type Constraint = Constraint;

    type Possibility = Possibility;

    open spec fn spec_satisfies(&self, poss: &Self::Possibility, cons: &Self::Constraint) -> bool {
        poss.spec_satisfies(*cons)
    }

    open spec fn spec_is_optional(&self, cons: &Self::Constraint) -> bool {
        false
    }

    open spec fn spec_possibilities(&self) -> Seq<Self::Possibility> {
        self.possibilities@
    }

    open spec fn spec_constraints(&self) -> Seq<Self::Constraint> {
        self.constraints@
    }

    fn satisfies(&self, poss: &Self::Possibility, cons: &Self::Constraint) -> (yes: bool) {
        poss.satisfies(cons)
    }

    fn is_optional(&self, _cons: &Self::Constraint) -> (yes: bool) {
        false
    }

    fn possibilities(&self) -> (list: &[Self::Possibility]) {
        self.possibilities.as_slice()
    }

    fn constraints(&self) -> (list: &[Self::Constraint]) {
        self.constraints.as_slice()
    }
}

} // verus!
