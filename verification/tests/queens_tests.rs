use dancing_links::queens::{Constraint, NQueens, Possibility};

fn p(row: usize, column: usize) -> Possibility {
    Possibility { row, column }
}

#[test]
fn check_diagonal_indices() {
    let side_length = 8;
    let leading_possibilities_it = (0..side_length)
        .rev()
        .map(|row| Possibility { row, column: 0 })
        .chain((1..side_length).map(|column| Possibility { row: 0, column }));

    let leading_diagonal_indices: Vec<_> = leading_possibilities_it
        .map(|poss| poss.leading_diagonal(side_length))
        .collect();

    assert_eq!(leading_diagonal_indices, (0..15).collect::<Vec<_>>());

    let trailing_possibilities_it = (0..side_length)
        .map(|column| Possibility { column, row: 0 })
        .chain((1..side_length).map(|row| Possibility {
            row,
            column: side_length - 1,
        }));

    let trailing_diagonal_indices: Vec<_> = trailing_possibilities_it
        .map(|poss| poss.trailing_diagonal())
        .collect();
    assert_eq!(trailing_diagonal_indices, (0..15).collect::<Vec<_>>());
}

#[test]
fn check_tiny_boards() {
    let size_one_board = NQueens::new(1, vec![]);
    let size_one_solutions = size_one_board.solver().all_solutions();

    assert_eq!(size_one_solutions.len(), 1);
    assert_eq!(size_one_solutions[0], vec![&p(0, 0)]);

    let size_two_board = NQueens::new(2, vec![]);
    assert_eq!(size_two_board.solver().all_solutions().len(), 0);

    let size_three_board = NQueens::new(3, vec![]);
    assert_eq!(size_three_board.solver().all_solutions().len(), 0);
}

#[test]
fn check_small_board() {
    let queens = NQueens::new(4, vec![]);
    let mut solver = queens.solver();

    let mut first_solution = solver.next_solution().unwrap();
    first_solution.sort();
    assert_eq!(first_solution, vec![&p(0, 1), &p(1, 3), &p(2, 0), &p(3, 2)]);

    let mut second_solution = solver.next_solution().unwrap();
    second_solution.sort();
    assert_eq!(
        second_solution,
        vec![&p(0, 2), &p(1, 0), &p(2, 3), &p(3, 1)]
    );

    assert!(solver.next_solution().is_none());
}

#[test]
fn count_medium_board() {
    let queens = NQueens::new(8, vec![]);

    assert_eq!(queens.solver().all_solutions().len(), 92);
}

#[test]
fn queen_lists_what_it_satisfies() {
    let queen = p(2, 5);
    let satisfied = queen.satisfied_constraints(8);
    assert_eq!(
        satisfied,
        vec![
            Constraint::Row { index: 2 },
            Constraint::Column { index: 5 },
            Constraint::LeadingDiagonal { index: 10 },
            Constraint::TrailingDiagonal { index: 7 },
        ]
    );
    for constraint in &satisfied {
        assert!(queen.satisfies(8, constraint));
    }
    assert!(!queen.satisfies(8, &Constraint::LeadingDiagonal { index: 9 }));
    assert!(!queen.satisfies(8, &Constraint::Row { index: 5 }));
}

#[test]
fn queens_constraints_in_order() {
    assert_eq!(
        Constraint::all(2),
        vec![
            Constraint::Row { index: 0 },
            Constraint::Row { index: 1 },
            Constraint::Column { index: 0 },
            Constraint::Column { index: 1 },
            Constraint::LeadingDiagonal { index: 0 },
            Constraint::LeadingDiagonal { index: 1 },
            Constraint::LeadingDiagonal { index: 2 },
            Constraint::TrailingDiagonal { index: 0 },
            Constraint::TrailingDiagonal { index: 1 },
            Constraint::TrailingDiagonal { index: 2 },
        ]
    );
    assert_eq!(
        Possibility::all(2),
        vec![p(0, 0), p(1, 0), p(0, 1), p(1, 1)]
    );
}

#[test]
fn filled_queen_removes_its_constraints() {
    let queens = NQueens::new(4, vec![p(0, 1)]);
    assert_eq!(queens.possibilities.len(), 15);
    assert!(!queens.possibilities.contains(&p(0, 1)));
    assert!(!queens.constraints.contains(&Constraint::Row { index: 0 }));
    assert!(!queens.constraints.contains(&Constraint::Column { index: 1 }));
    assert!(!queens
        .constraints
        .contains(&Constraint::LeadingDiagonal { index: 4 }));
    assert!(!queens
        .constraints
        .contains(&Constraint::TrailingDiagonal { index: 1 }));
    assert_eq!(queens.constraints.len(), 4 + 4 + 7 + 7 - 4);
}
