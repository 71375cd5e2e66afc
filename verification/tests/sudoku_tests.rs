use dancing_links::latin_square;
use dancing_links::sudoku::{fill_in, is_writable, parse_puzzle, Constraint, Possibility, Sudoku};
use dancing_links::Solver;

fn lp(row: usize, column: usize, value: usize) -> latin_square::Possibility {
    latin_square::Possibility { row, column, value }
}

fn p(row: usize, column: usize, square: usize, value: usize) -> Possibility {
    Possibility {
        row,
        column,
        square,
        value,
    }
}

fn c_row(row: usize, value: usize) -> Constraint {
    Constraint::Latin(latin_square::Constraint::RowNumber { row, value })
}

fn c_col(column: usize, value: usize) -> Constraint {
    Constraint::Latin(latin_square::Constraint::ColumnNumber { column, value })
}

fn c_row_col(row: usize, column: usize) -> Constraint {
    Constraint::Latin(latin_square::Constraint::RowColumn { row, column })
}

fn c_square(square: usize, value: usize) -> Constraint {
    Constraint::SquareNumber { square, value }
}

fn ring_filled() -> Vec<latin_square::Possibility> {
    vec![
        // top row
        lp(0, 0, 1),
        lp(0, 1, 2),
        lp(0, 2, 3),
        lp(0, 3, 4),
        // middle bits
        lp(1, 0, 3),
        lp(2, 0, 2),
        lp(1, 3, 2),
        lp(2, 3, 3),
        // bottom row
        lp(3, 0, 4),
        lp(3, 1, 3),
        lp(3, 2, 2),
        lp(3, 3, 1),
    ]
}

fn parse_sudoku_possibilities(
    sudoku_input: &str,
    box_side_length: usize,
) -> (Sudoku, Vec<latin_square::Possibility>) {
    let side_length = box_side_length * box_side_length;

    assert_eq!(
        sudoku_input.len(),
        side_length * side_length,
        "Input needs to be `side_length` * `side_length` characters long."
    );

    let filled_values: Vec<_> = sudoku_input
        .char_indices()
        .filter_map(|(index, c)| {
            c.to_digit(10).and_then(|value| {
                if value == 0 {
                    None
                } else {
                    Some(latin_square::Possibility {
                        row: index / side_length,
                        column: index % side_length,
                        value: usize::try_from(value).unwrap(),
                    })
                }
            })
        })
        .collect();

    (
        Sudoku::new(box_side_length, filled_values.clone()),
        filled_values,
    )
}

fn format_sudoku_possibilities(
    possibilities: impl IntoIterator<Item = Possibility>,
    box_side_length: usize,
) -> String {
    let side_length = box_side_length * box_side_length;
    let mut output = vec![b'0'; side_length * side_length];

    for possibility in possibilities {
        let index = possibility.row * side_length + possibility.column;
        if output[index] == b'0' {
            let formated_value = possibility.value.to_string();
            assert_eq!(formated_value.len(), 1);
            output[index] = formated_value.as_bytes()[0];
        } else {
            panic!(
                "Overwriting an existing value [{}] with [{}] at position [{},{}]",
                output[index], possibility.value, possibility.row, possibility.column
            );
        }
    }

    String::from_utf8(output).unwrap()
}

#[test]
fn sudoku_check_generated_possibilities_constraints() {
    let mut sudoku = Sudoku::new(2, ring_filled());

    sudoku.possibilities.sort();
    assert_eq!(
        sudoku.possibilities,
        vec![
            p(1, 1, 0, 1),
            p(1, 1, 0, 2),
            p(1, 1, 0, 3),
            p(1, 1, 0, 4),
            p(1, 2, 1, 1),
            p(1, 2, 1, 2),
            p(1, 2, 1, 3),
            p(1, 2, 1, 4),
            p(2, 1, 2, 1),
            p(2, 1, 2, 2),
            p(2, 1, 2, 3),
            p(2, 1, 2, 4),
            p(2, 2, 3, 1),
            p(2, 2, 3, 2),
            p(2, 2, 3, 3),
            p(2, 2, 3, 4),
        ]
    );
    sudoku.constraints.sort();
    assert_eq!(
        sudoku.constraints,
        vec![
            c_row(1, 1),
            c_row(1, 4),
            c_row(2, 1),
            c_row(2, 4),
            c_col(1, 1),
            c_col(1, 4),
            c_col(2, 1),
            c_col(2, 4),
            c_row_col(1, 1),
            c_row_col(1, 2),
            c_row_col(2, 1),
            c_row_col(2, 2),
            c_square(0, 4),
            c_square(1, 1),
            c_square(2, 1),
            c_square(3, 4),
        ]
    );
}

#[test]
fn solve_small_sudoku() {
    let sudoku = Sudoku::new(2, ring_filled());

    let mut solver = sudoku.solver();
    let solutions = solver.all_solutions();

    assert_eq!(solutions.len(), 1);
    assert_eq!(
        solutions[0],
        vec![
            &p(1, 1, 0, 4),
            &p(1, 2, 1, 1),
            &p(2, 1, 2, 1),
            &p(2, 2, 3, 4)
        ]
    );
}

#[test]
fn enumerate_all_sudoku_solutions_small() {
    let puzzle_4x4 = Sudoku::new(2, vec![]);
    let mut solver_4x4 = Solver::new(&puzzle_4x4);
    assert_eq!(solver_4x4.all_solutions().len(), 288);
}

#[test]
fn single_sudoku_test() {
    let sudoku_input =
        "006008047000607200304009060003100005010020480740005009020930600081000034905006170";
    let expected_solved_sudoku =
        "296318547158647293374259861863194725519723486742865319427931658681572934935486172";

    let (puzzle, filled_values) = parse_sudoku_possibilities(sudoku_input, 3);
    let mut solver = Solver::new(&puzzle);

    let solutions = solver.all_solutions();
    assert_eq!(solutions.len(), 1);
    let solution = &solutions[0];
    let actual_solved_sudoku = format_sudoku_possibilities(
        filled_values
            .into_iter()
            .map(|poss| Possibility::from_latin(poss, 3))
            .chain(solution.iter().map(|p| **p)),
        3,
    );

    assert_eq!(actual_solved_sudoku, expected_solved_sudoku);
}

#[test]
fn from_latin_finds_the_square() {
    assert_eq!(Possibility::from_latin(lp(0, 0, 1), 3), p(0, 0, 0, 1));
    assert_eq!(Possibility::from_latin(lp(4, 7, 9), 3), p(4, 7, 5, 9));
    assert_eq!(Possibility::from_latin(lp(8, 8, 2), 3), p(8, 8, 8, 2));
    assert_eq!(Possibility::from_latin(lp(3, 1, 2), 2), p(3, 1, 2, 2));
}

#[test]
fn sudoku_possibility_lists_what_it_satisfies() {
    let possibility = p(4, 7, 5, 9);
    let satisfied = possibility.satisfied_constraints();
    assert_eq!(
        satisfied,
        vec![c_row(4, 9), c_col(7, 9), c_row_col(4, 7), c_square(5, 9)]
    );
    for constraint in &satisfied {
        assert!(possibility.satisfies(constraint));
    }
    assert!(!possibility.satisfies(&c_square(4, 9)));
    assert!(!possibility.satisfies(&c_row(4, 8)));
}

#[test]
fn puzzle_descriptions_are_read() {
    let filled = parse_puzzle(b"1030000000000204", 2).unwrap();
    assert_eq!(filled, vec![lp(0, 0, 1), lp(0, 2, 3), lp(3, 1, 2), lp(3, 3, 4)]);
    assert_eq!(
        parse_puzzle(b"0000000000000000", 2),
        Some(vec![])
    );
}

#[test]
fn bad_puzzle_descriptions_are_refused() {
    // Too short, too long.
    assert_eq!(parse_puzzle(b"103000000000020", 2), None);
    assert_eq!(parse_puzzle(b"10300000000002040", 2), None);
    assert_eq!(parse_puzzle(b"", 2), None);
    // Not a digit.
    assert_eq!(parse_puzzle(b"10300000000002a4", 2), None);
    assert_eq!(parse_puzzle(b"103000000000020/", 2), None);
    assert_eq!(parse_puzzle(b"103000000000020:", 2), None);
    // A digit that the board has no room for.
    assert_eq!(parse_puzzle(b"1030000000000205", 2), None);
    assert!(parse_puzzle(b"1030000000000204", 2).is_some());
}

#[test]
fn solutions_are_written_into_the_description() {
    let input = b"1030000000000204";
    let chosen = vec![p(0, 1, 0, 2), p(3, 2, 3, 1), p(1, 0, 0, 4)];
    let refs: Vec<&Possibility> = chosen.iter().collect();
    assert!(is_writable(&refs, 4));
    assert_eq!(fill_in(input, &refs, 4), b"1230400000000214".to_vec());
    assert_eq!(fill_in(input, &vec![], 4), input.to_vec());

    let off_board = vec![p(4, 0, 0, 1)];
    assert!(!is_writable(&off_board.iter().collect(), 4));
    let two_digits = vec![p(0, 0, 0, 10)];
    assert!(!is_writable(&two_digits.iter().collect(), 16));
}

#[test]
fn sixteen_bytes_make_a_small_puzzle() {
    let mut bytes = [0u8; 16];
    bytes[0] = 1;
    bytes[5] = 7;
    bytes[6] = 10;
    bytes[15] = 255;
    let filled = dancing_links::sudoku::small_puzzle(bytes);
    assert_eq!(filled, vec![lp(0, 0, 1), lp(1, 1, 2)]);

    let all = dancing_links::sudoku::small_puzzle([9u8; 16]);
    assert_eq!(all.len(), 16);
    assert_eq!(all[6], lp(1, 2, 4));
    // Whatever the bytes, the puzzle can be solved without a panic.
    let puzzle = Sudoku::new(2, all);
    assert_eq!(Solver::new(&puzzle).all_solutions().len(), 0);
}

#[test]
fn small_problems_fit() {
    let puzzle = Sudoku::new(3, vec![]);
    assert!(dancing_links::solver::fits(&puzzle));
    assert_eq!(puzzle.possibilities.len(), 729);
    assert_eq!(puzzle.constraints.len(), 324);
}

/// The empty Sudoku puzzle of side 6, with boxes of two rows and three
/// columns.
fn empty_6x6() -> Sudoku {
    let possibilities = (0..6)
        .flat_map(|row| {
            (0..6).flat_map(move |column| (1..=6).map(move |value| (row, column, value)))
        })
        .map(|(row, column, value)| {
            let square = 2 * (row / 2) + (column / 3);
            Possibility {
                row,
                column,
                square,
                value,
            }
        })
        .collect();
    let constraints = (0..6)
        .flat_map(|row| {
            (0..6).flat_map(move |column| (1..=6).map(move |value| (row, column, value)))
        })
        .flat_map(|(row, column, value)| {
            [
                Constraint::Latin(latin_square::Constraint::ColumnNumber { column, value }),
                Constraint::Latin(latin_square::Constraint::RowNumber { row, value }),
                Constraint::Latin(latin_square::Constraint::RowColumn { row, column }),
            ]
        })
        .chain(
            (0..6).flat_map(|square| {
                (1..=6).map(move |value| Constraint::SquareNumber { square, value })
            }),
        )
        .collect();

    Sudoku {
        possibilities,
        constraints,
    }
}

#[test]
fn enumerate_many_sudoku_solutions() {
    let puzzle_6x6 = empty_6x6();
    let mut solver_6x6 = Solver::new(&puzzle_6x6);
    let mut count = 0;
    while count < 10_000 && solver_6x6.next_solution().is_some() {
        count += 1;
    }
    assert_eq!(count, 10_000);
}

#[test]
fn conversions_between_latin_and_sudoku() {
    let latin: latin_square::Possibility = p(4, 7, 5, 9).into();
    assert_eq!(latin, lp(4, 7, 9));
    assert_eq!(
        Constraint::from(latin_square::Constraint::RowNumber { row: 1, value: 2 }),
        c_row(1, 2)
    );
}
