use dancing_links::latin_square::{Constraint, LatinSquare, Possibility};
use dancing_links::ExactCover;

fn p(row: usize, column: usize, value: usize) -> Possibility {
    Possibility { row, column, value }
}

fn c_row(row: usize, value: usize) -> Constraint {
    Constraint::RowNumber { row, value }
}

fn c_col(column: usize, value: usize) -> Constraint {
    Constraint::ColumnNumber { column, value }
}

fn c_row_col(row: usize, column: usize) -> Constraint {
    Constraint::RowColumn { row, column }
}

#[test]
fn check_all_possibilities() {
    let some_possibilities: Vec<_> = Possibility::all(2);

    assert_eq!(
        &some_possibilities,
        &[
            p(0, 0, 1),
            p(0, 0, 2),
            p(1, 0, 1),
            p(1, 0, 2),
            p(0, 1, 1),
            p(0, 1, 2),
            p(1, 1, 1),
            p(1, 1, 2),
        ]
    );
}

#[test]
fn latin_square_check_generated_possibilities_constraints() {
    let mut square = LatinSquare::new(2, vec![p(0, 0, 1), p(0, 1, 2)]);

    square.possibilities.sort();
    assert_eq!(
        square.possibilities,
        vec![p(1, 0, 1), p(1, 0, 2), p(1, 1, 1), p(1, 1, 2)]
    );
    square.constraints.sort();
    assert_eq!(
        square.constraints,
        vec![
            c_row(1, 1),
            c_row(1, 2),
            c_col(0, 2),
            c_col(1, 1),
            c_row_col(1, 0),
            c_row_col(1, 1)
        ]
    );
}

#[test]
fn solve_small_latin_square() {
    let square = LatinSquare::new(2, vec![p(0, 0, 1), p(0, 1, 2)]);
    let mut solver = square.solver();
    let solutions = solver.all_solutions();

    assert_eq!(solutions.len(), 1);
    assert_eq!(solutions[0], vec![&p(1, 0, 2), &p(1, 1, 1)]);
}

#[test]
fn solve_multi_solution_latin_square() {
    let square = LatinSquare::new(2, vec![]);
    let mut solver = square.solver();
    let solutions = solver.all_solutions();

    assert_eq!(solutions.len(), 2);

    assert_eq!(
        solutions[0],
        vec![&p(0, 0, 1), &p(0, 1, 2), &p(1, 1, 1), &p(1, 0, 2)]
    );
    assert_eq!(
        solutions[1],
        vec![&p(0, 1, 1), &p(0, 0, 2), &p(1, 0, 1), &p(1, 1, 2)]
    );
}

#[test]
fn solve_impossible_latin_square() {
    let square = LatinSquare::new(2, vec![p(0, 0, 1), p(0, 1, 1)]);
    let mut solver = square.solver();
    let solutions = solver.all_solutions();

    assert_eq!(solutions.len(), 0);
}

#[test]
fn latin_possibility_lists_what_it_satisfies() {
    let possibility = p(1, 2, 3);
    let satisfied = possibility.satisfied_constraints();
    assert_eq!(satisfied, vec![c_row(1, 3), c_col(2, 3), c_row_col(1, 2)]);
    for constraint in Constraint::all(3) {
        assert_eq!(
            possibility.satisfies(&constraint),
            satisfied.contains(&constraint)
        );
    }
}

#[test]
fn latin_constraints_in_order() {
    assert_eq!(
        Constraint::all(2),
        vec![
            c_row(0, 1),
            c_row(0, 2),
            c_row(1, 1),
            c_row(1, 2),
            c_col(0, 1),
            c_col(0, 2),
            c_col(1, 1),
            c_col(1, 2),
            c_row_col(0, 0),
            c_row_col(0, 1),
            c_row_col(1, 0),
            c_row_col(1, 1),
        ]
    );
    assert!(Constraint::all(0).is_empty());
    assert!(Possibility::all(0).is_empty());
}

#[test]
fn empty_square_keeps_everything() {
    let square = LatinSquare::new(3, vec![]);
    assert_eq!(square.possibilities, Possibility::all(3));
    assert_eq!(square.constraints, Constraint::all(3));
    assert!(square.filled_values.is_empty());
    assert_eq!(square.possibilities().len(), 27);
    assert!(!square.is_optional(&c_row(0, 1)));
}
