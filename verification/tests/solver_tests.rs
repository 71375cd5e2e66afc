use dancing_links::dense_grid::DenseGrid;
use dancing_links::latin_square::{self, LatinSquare};
use dancing_links::polyomino::{self, Polyomino, ShapeTransform};
use dancing_links::queens::{self, NQueens};
use dancing_links::sudoku::Sudoku;
use dancing_links::{ExactCover, Solver};

fn p(row: usize, column: usize, value: usize) -> latin_square::Possibility {
    latin_square::Possibility { row, column, value }
}

/// The tiling puzzle whose incidence matrix has the given ones: row `r` is
/// a placement with the cells `(0, c)` for its ones `(r, c)`, column `c`
/// is the cell `(0, c)`.
fn matrix(rows: usize, columns: usize, ones: &[(usize, usize)]) -> Polyomino {
    Polyomino {
        possibilities: (0..rows)
            .map(|row| polyomino::Possibility {
                shape_index: row,
                occupied_cells: ones
                    .iter()
                    .filter(|(r, _)| *r == row)
                    .map(|(_, c)| (0, *c))
                    .collect(),
            })
            .collect(),
        constraints: (0..columns)
            .map(|column| polyomino::Constraint::Field(0, column))
            .collect(),
        grid_dimensions: (1, columns),
        polyominoes: vec![],
        transformations: ShapeTransform::NoTransform,
    }
}

fn rows_of(solution: &[&polyomino::Possibility]) -> Vec<usize> {
    solution.iter().map(|row| row.shape_index).collect()
}

fn all_rows(solutions: &[Vec<&polyomino::Possibility>]) -> Vec<Vec<usize>> {
    solutions.iter().map(|solution| rows_of(solution)).collect()
}

fn check_solution<E: ExactCover>(problem: &E, solution: &[&E::Possibility]) {
    for constraint in problem.constraints() {
        let hits = solution
            .iter()
            .filter(|possibility| problem.satisfies(possibility, constraint))
            .count();
        if problem.is_optional(constraint) {
            assert!(hits <= 1);
        } else {
            assert_eq!(hits, 1);
        }
    }
}

#[test]
fn single_row_single_column() {
    let problem = LatinSquare {
        possibilities: vec![p(0, 0, 1)],
        constraints: vec![latin_square::Constraint::RowColumn { row: 0, column: 0 }],
        filled_values: vec![],
    };
    let mut solver = Solver::new(&problem);
    assert_eq!(solver.next_solution(), Some(vec![&p(0, 0, 1)]));
    assert_eq!(solver.next_solution(), None);
    assert_eq!(solver.next_solution(), None);

    let mut dense = Solver::<LatinSquare, DenseGrid>::with_grid(&problem);
    assert_eq!(dense.all_solutions(), vec![vec![&p(0, 0, 1)]]);
}

#[test]
fn knuth_example_has_one_cover() {
    // The matrix of the dancing links paper: the cover is the rows 0, 3, 4.
    let ones = [
        (0, 2),
        (0, 4),
        (0, 5),
        (1, 0),
        (1, 3),
        (1, 6),
        (2, 1),
        (2, 2),
        (2, 5),
        (3, 0),
        (3, 3),
        (4, 1),
        (4, 6),
        (5, 3),
        (5, 4),
        (5, 6),
    ];
    let problem = matrix(6, 7, &ones);
    let mut solver = Solver::new(&problem);
    let solutions = solver.all_solutions();
    assert_eq!(solutions.len(), 1);
    check_solution(&problem, &solutions[0]);
    let mut rows = rows_of(&solutions[0]);
    rows.sort();
    assert_eq!(rows, vec![0, 3, 4]);

    let mut dense = Solver::<Polyomino, DenseGrid>::with_grid(&problem);
    assert_eq!(dense.all_solutions(), solutions);
}

#[test]
fn smallest_column_is_tried_first() {
    // Column 1 has one row, column 0 has two: the search branches on
    // column 1 first, so row 2 leads both solutions.
    let problem = matrix(3, 2, &[(0, 0), (1, 0), (2, 1)]);
    let mut solver = Solver::new(&problem);
    assert_eq!(rows_of(&solver.next_solution().unwrap()), vec![2, 0]);
    assert_eq!(rows_of(&solver.next_solution().unwrap()), vec![2, 1]);
    assert_eq!(solver.next_solution(), None);
}

#[test]
fn ties_go_to_the_first_column() {
    // Both columns have two rows: the search branches on column 0 and tries
    // its rows from the top.
    let problem = matrix(4, 2, &[(0, 1), (1, 0), (2, 1), (3, 0)]);
    let mut solver = Solver::new(&problem);
    assert_eq!(
        all_rows(&solver.all_solutions()),
        vec![vec![1, 0], vec![1, 2], vec![3, 0], vec![3, 2]]
    );
}

#[test]
fn optional_columns_are_covered_at_most_once() {
    // The diagonal is optional. The queens at (0, 1) and (1, 0) stand on
    // it, so they cannot go together; the queen at (1, 2) fills row 1
    // without it.
    let q = |row, column| queens::Possibility { row, column };
    let problem = NQueens {
        possibilities: vec![q(0, 1), q(1, 0), q(1, 2)],
        constraints: vec![
            queens::Constraint::Row { index: 0 },
            queens::Constraint::Row { index: 1 },
            queens::Constraint::TrailingDiagonal { index: 1 },
        ],
        side_length: 3,
        filled_values: vec![],
    };
    let mut solver = Solver::new(&problem);
    let solutions = solver.all_solutions();
    assert_eq!(solutions, vec![vec![&q(0, 1), &q(1, 2)]]);
    for solution in &solutions {
        check_solution(&problem, solution);
    }
}

#[test]
fn nothing_mandatory_gives_no_solution() {
    let q = |row, column| queens::Possibility { row, column };
    let problem = NQueens {
        possibilities: vec![q(0, 1), q(1, 0)],
        constraints: vec![
            queens::Constraint::TrailingDiagonal { index: 1 },
            queens::Constraint::LeadingDiagonal { index: 1 },
        ],
        side_length: 2,
        filled_values: vec![],
    };
    let mut solver = Solver::new(&problem);
    assert_eq!(solver.next_solution(), None);

    let empty = matrix(0, 0, &[]);
    let mut solver = Solver::new(&empty);
    assert_eq!(solver.next_solution(), None);
}

#[test]
fn mandatory_column_without_rows_gives_no_solution() {
    let problem = matrix(2, 3, &[(0, 0), (1, 1)]);
    let mut solver = Solver::new(&problem);
    assert_eq!(
        solver.all_solutions(),
        Vec::<Vec<&polyomino::Possibility>>::new()
    );
}

#[test]
fn every_solution_is_an_exact_cover() {
    let queens = NQueens::new(6, vec![]);
    let mut solver = queens.solver();
    let solutions = solver.all_solutions();
    assert_eq!(solutions.len(), 4);
    for solution in &solutions {
        check_solution(&queens, solution);
    }

    let sudoku = Sudoku::new(2, vec![p(0, 0, 1), p(1, 2, 1), p(3, 3, 4)]);
    let mut solver = sudoku.solver();
    let solutions = solver.all_solutions();
    assert!(!solutions.is_empty());
    for solution in &solutions {
        check_solution(&sudoku, solution);
    }
}

#[test]
fn draining_gives_what_all_solutions_gives() {
    let square = LatinSquare::new(3, vec![]);
    let mut all_at_once = Solver::new(&square);
    let all = all_at_once.all_solutions();
    assert_eq!(all.len(), 12);

    let mut one_by_one = Solver::new(&square);
    let mut drained = Vec::new();
    while let Some(solution) = one_by_one.next_solution() {
        drained.push(solution);
    }
    assert_eq!(drained, all);
    assert_eq!(one_by_one.next_solution(), None);
    assert_eq!(all_at_once.all_solutions(), Vec::<Vec<&latin_square::Possibility>>::new());
}

#[test]
fn all_solutions_gives_the_rest() {
    let queens = NQueens::new(6, vec![]);
    let mut solver = queens.solver();
    let first = solver.next_solution().unwrap();
    let rest = solver.all_solutions();
    assert_eq!(rest.len(), 3);
    let mut fresh = queens.solver();
    let all = fresh.all_solutions();
    assert_eq!(all.len(), 4);
    assert_eq!(all[0], first);
    assert_eq!(&all[1..], &rest[..]);
}

#[test]
fn reset_starts_over() {
    let square = LatinSquare::new(2, vec![]);
    let mut solver = Solver::new(&square);
    let fresh = solver.all_solutions();
    assert_eq!(fresh.len(), 2);

    solver.reset();
    assert_eq!(solver.all_solutions(), fresh);

    solver.reset();
    assert_eq!(solver.next_solution().as_ref(), Some(&fresh[0]));
    solver.reset();
    assert_eq!(solver.all_solutions(), fresh);
}

#[test]
fn dense_backend_finds_the_same_solutions() {
    let square = LatinSquare::new(2, vec![p(0, 0, 1), p(0, 1, 2)]);
    let mut sparse = Solver::new(&square);
    let mut dense = Solver::<LatinSquare, DenseGrid>::with_grid(&square);
    assert_eq!(dense.all_solutions(), sparse.all_solutions());

    let sudoku = Sudoku::new(2, vec![p(0, 0, 1), p(1, 2, 1), p(3, 3, 4)]);
    let mut sparse = Solver::new(&sudoku);
    let mut dense = Solver::<Sudoku, DenseGrid>::with_grid(&sudoku);
    let expected = sparse.all_solutions();
    assert!(!expected.is_empty());
    assert_eq!(dense.all_solutions(), expected);
    dense.reset();
    assert_eq!(dense.next_solution().as_ref(), Some(&expected[0]));

    let queens = NQueens::new(5, vec![]);
    let mut sparse = queens.solver();
    let mut dense = Solver::<NQueens, DenseGrid>::with_grid(&queens);
    let expected = sparse.all_solutions();
    assert_eq!(expected.len(), 10);
    assert_eq!(dense.all_solutions(), expected);
}

#[test]
fn solutions_of_a_latin_square_are_latin_squares() {
    let filled = vec![p(0, 0, 3), p(2, 1, 1)];
    let square = LatinSquare::new(3, filled.clone());
    let mut solver = square.solver();
    let solutions = solver.all_solutions();
    assert!(!solutions.is_empty());
    for solution in &solutions {
        let mut cells = vec![vec![0; 3]; 3];
        for possibility in solution.iter().map(|poss| **poss).chain(filled.iter().copied()) {
            assert_eq!(cells[possibility.row][possibility.column], 0);
            cells[possibility.row][possibility.column] = possibility.value;
        }
        for index in 0..3 {
            let mut row: Vec<usize> = cells[index].clone();
            let mut column: Vec<usize> = (0..3).map(|r| cells[r][index]).collect();
            row.sort();
            column.sort();
            assert_eq!(row, vec![1, 2, 3]);
            assert_eq!(column, vec![1, 2, 3]);
        }
    }
}

#[test]
fn a_solver_by_reference() {
    let square = LatinSquare::new(2, vec![]);
    let by_reference = &square;
    let mut solver = Solver::new(&by_reference);
    assert_eq!(solver.all_solutions().len(), 2);
}

/// The exact covers of a matrix by rows that are not empty, found by trying
/// every choice of rows.
fn covers_by_trying(rows: usize, columns: usize, ones: &[(usize, usize)]) -> Vec<Vec<usize>> {
    let mut found = Vec::new();
    for choice in 0u32..(1 << rows) {
        let chosen: Vec<usize> = (0..rows).filter(|row| choice & (1 << row) != 0).collect();
        let no_empty_row = chosen
            .iter()
            .all(|row| ones.iter().any(|(r, _)| r == row));
        let exact = (0..columns).all(|column| {
            chosen
                .iter()
                .filter(|row| ones.contains(&(**row, column)))
                .count()
                == 1
        });
        if no_empty_row && exact {
            found.push(chosen);
        }
    }
    found.sort();
    found
}

#[test]
fn solver_finds_what_trying_every_choice_finds() {
    // A fixed sequence of made-up matrices.
    let mut state: u64 = 0x2545_f491_4f6c_dd1d;
    let mut next = move |bound: u64| {
        state ^= state << 13;
        state ^= state >> 7;
        state ^= state << 17;
        state % bound
    };
    for _ in 0..200 {
        let rows = 1 + next(7) as usize;
        let columns = 1 + next(5) as usize;
        let density = 2 + next(3);
        let mut ones = Vec::new();
        for row in 0..rows {
            for column in 0..columns {
                if next(density) == 0 {
                    ones.push((row, column));
                }
            }
        }
        let problem = matrix(rows, columns, &ones);
        let expected = covers_by_trying(rows, columns, &ones);

        let mut sparse = Solver::new(&problem);
        let solutions = sparse.all_solutions();
        let mut found: Vec<Vec<usize>> = solutions
            .iter()
            .map(|solution| {
                let mut rows = rows_of(solution);
                rows.sort();
                rows
            })
            .collect();
        found.sort();
        assert_eq!(found, expected);
        for solution in &solutions {
            check_solution(&problem, solution);
        }

        let mut dense = Solver::<Polyomino, DenseGrid>::with_grid(&problem);
        assert_eq!(dense.all_solutions(), solutions);
    }
}

/// A problem type of the caller's own: the incidence matrix as it stands.
struct Incidence {
    rows: Vec<usize>,
    columns: Vec<usize>,
    ones: Vec<(usize, usize)>,
    optional: Vec<usize>,
}

impl ExactCover for Incidence {
    type Possibility = usize;
    type Constraint = usize;

    fn satisfies(&self, poss: &usize, cons: &usize) -> bool {
        self.ones.contains(&(*poss, *cons))
    }

    fn is_optional(&self, cons: &usize) -> bool {
        self.optional.contains(cons)
    }

    fn possibilities(&self) -> &[usize] {
        &self.rows
    }

    fn constraints(&self) -> &[usize] {
        &self.columns
    }
}

#[test]
fn a_problem_type_of_the_callers_own() {
    let problem = Incidence {
        rows: vec![0, 1, 2],
        columns: vec![0, 1, 2],
        ones: vec![(0, 0), (0, 2), (1, 1), (1, 2), (2, 1)],
        optional: vec![2],
    };
    let mut solver = Solver::new(&problem);
    assert_eq!(solver.next_solution(), Some(vec![&0, &2]));
    assert_eq!(solver.next_solution(), None);
    solver.reset();
    assert_eq!(solver.all_solutions(), vec![vec![&0, &2]]);

    let one = Incidence {
        rows: vec![0],
        columns: vec![0],
        ones: vec![(0, 0)],
        optional: vec![],
    };
    let mut dense = Solver::<Incidence, DenseGrid>::with_grid(&one);
    assert_eq!(dense.all_solutions(), vec![vec![&0]]);
}
