use dancing_links::polyomino::{
    compare_shapes, sort_dedup, Constraint, PShape, Polyomino, Possibility, ShapeOrder,
    ShapeTransform,
};
use std::collections::HashSet;

#[test]
fn test_new_pshape_no_truncate() {
    let pshape = PShape::new(3, vec![0, 0, 1, 1, 1, 1]);
    assert!(pshape.width == 3, "");
    assert!(pshape.mask == vec![0, 0, 1, 1, 1, 1]);
}

#[test]
fn test_new_pshape_left_truncate() {
    let pshape = PShape::new(4, vec![0, 0, 1, 1, 0, 0, 0, 1]);
    assert!(pshape.width == 2);
    assert!(pshape.mask == vec![1, 1, 0, 1]);
}

#[test]
fn test_new_pshape_right_truncate() {
    let pshape = PShape::new(3, vec![1, 1, 0, 1, 0, 0]);
    assert!(pshape.width == 2);
    assert!(pshape.mask == vec![1, 1, 1, 0]);
}

#[test]
fn test_new_pshape_top_truncate() {
    let pshape = PShape::new(3, vec![0, 0, 0, 1, 1, 0, 1, 0, 1]);
    assert!(pshape.width == 3);
    assert!(pshape.mask == vec![1, 1, 0, 1, 0, 1]);
}

#[test]
fn test_new_pshape_bottom_truncate() {
    let pshape = PShape::new(2, vec![1, 0, 0, 1, 1, 0, 0, 0]);
    assert!(pshape.width == 2);
    assert!(pshape.mask == vec![1, 0, 0, 1, 1, 0]);
}

#[test]
fn test_new_pshape_all_trucates() {
    let pshape = PShape::new(
        5,
        vec![
            0, 0, 0, 0, 0, 0, 1, 0, 1, 0, 0, 0, 1, 0, 0, 0, 1, 0, 1, 0, 0, 0, 0, 0, 0,
        ],
    );
    assert!(pshape.width == 3);
    assert!(pshape.mask == vec![1, 0, 1, 0, 1, 0, 1, 0, 1]);
}

#[test]
fn test_pshape_from_array() {
    assert_eq!(
        PShape::from([[1, 0, 1], [0, 1, 0], [0, 1, 0]]),
        PShape::new(3, vec![1, 0, 1, 0, 1, 0, 0, 1, 0])
    );
    assert_eq!(
        PShape::from([[0, 0, 0, 0], [0, 1, 1, 0], [0, 1, 1, 0], [0, 0, 0, 0]]),
        PShape::new(2, vec![1, 1, 1, 1])
    );
}

#[test]
fn test_possibility_satisfied_constraints() {
    let possibility = Possibility {
        shape_index: 0,
        occupied_cells: vec![(0, 0), (0, 1), (1, 0)],
    };
    let constraints: Vec<_> = possibility.satisfied_constraints();
    assert_eq!(constraints.len(), 4); // 1 shape + 3 fields
    assert!(constraints.contains(&Constraint::ShapeIndex(0)));
    assert!(constraints.contains(&Constraint::Field(0, 0)));
    assert!(constraints.contains(&Constraint::Field(0, 1)));
    assert!(constraints.contains(&Constraint::Field(1, 0)));
}

#[test]
fn test_polyomino_constraints() {
    let constraints: Vec<_> = Constraint::all((3, 4), 2);
    assert_eq!(constraints.len(), 14); // 2 shapes + 12 fields
    assert!(constraints.contains(&Constraint::ShapeIndex(0)));
    assert!(constraints.contains(&Constraint::ShapeIndex(1)));
    assert!(constraints.contains(&Constraint::Field(0, 0)));
    assert!(constraints.contains(&Constraint::Field(0, 1)));
    assert!(constraints.contains(&Constraint::Field(0, 2)));
    assert!(constraints.contains(&Constraint::Field(0, 3)));
    assert!(constraints.contains(&Constraint::Field(1, 0)));
    assert!(constraints.contains(&Constraint::Field(1, 1)));
    assert!(constraints.contains(&Constraint::Field(1, 2)));
    assert!(constraints.contains(&Constraint::Field(1, 3)));
    assert!(constraints.contains(&Constraint::Field(2, 0)));
    assert!(constraints.contains(&Constraint::Field(2, 1)));
    assert!(constraints.contains(&Constraint::Field(2, 2)));
    assert!(constraints.contains(&Constraint::Field(2, 3)));
}

#[test]
fn test_polyomino_creation() {
    let polyominoes = vec![
        PShape::from([[1, 1], [1, 0], [1, 0]]), // J-shape
        PShape::from([[0, 1], [1, 1], [1, 0]]), // Z-shape
        PShape::from([[0, 1], [0, 1], [1, 1]]), // J-shape
    ];
    let grid_dimensions = (3, 4);
    let transformations = ShapeTransform::NoTransform;

    let polyomino = Polyomino::new(grid_dimensions, polyominoes, transformations);

    assert_eq!(polyomino.grid_dimensions, (3, 4));
    assert_eq!(polyomino.polyominoes.len(), 3);
    assert_eq!(polyomino.transformations, ShapeTransform::NoTransform);
}

#[test]
fn test_removal_empty_rows_and_columns() {
    let shape1: PShape = PShape::from([
        [0, 0, 0, 0, 0, 0, 0],
        [0, 0, 0, 0, 0, 0, 0],
        [0, 0, 0, 0, 0, 0, 0],
        [0, 0, 1, 1, 0, 0, 0],
        [0, 0, 1, 0, 0, 1, 0],
        [0, 0, 1, 1, 0, 0, 0],
        [0, 0, 0, 0, 0, 0, 0],
        [0, 0, 0, 1, 0, 0, 0],
        [0, 0, 0, 1, 0, 0, 0],
        [0, 0, 0, 0, 0, 0, 0],
    ]);
    let expected1: PShape = PShape::from([
        [1, 1, 0, 0],
        [1, 0, 0, 1],
        [1, 1, 0, 0],
        [0, 0, 0, 0],
        [0, 1, 0, 0],
        [0, 1, 0, 0],
    ]);
    assert_eq!(shape1, expected1);
    let shape2: PShape = PShape::from([
        [0, 0, 0, 0, 0, 0, 0, 0, 0, 0, 0, 0, 0],
        [0, 1, 0, 1, 0, 1, 0, 1, 0, 1, 0, 1, 0],
        [0, 0, 0, 0, 0, 0, 0, 0, 0, 0, 0, 0, 0],
        [0, 1, 0, 1, 0, 1, 0, 1, 0, 1, 0, 1, 0],
        [0, 0, 0, 0, 0, 0, 0, 0, 0, 0, 0, 0, 0],
        [0, 1, 0, 1, 0, 1, 0, 1, 0, 1, 0, 1, 0],
        [0, 0, 0, 0, 0, 0, 0, 0, 0, 0, 0, 0, 0],
        [0, 1, 0, 1, 0, 1, 0, 1, 0, 1, 0, 1, 0],
        [0, 0, 0, 0, 0, 0, 0, 0, 0, 0, 0, 0, 0],
        [0, 1, 0, 1, 0, 1, 0, 1, 0, 1, 0, 1, 0],
        [0, 0, 0, 0, 0, 0, 0, 0, 0, 0, 0, 0, 0],
        [0, 1, 0, 1, 0, 1, 0, 1, 0, 1, 0, 1, 0],
        [0, 0, 0, 0, 0, 0, 0, 0, 0, 0, 0, 0, 0],
    ]);
    let expected2: PShape = PShape::from([
        [1, 0, 1, 0, 1, 0, 1, 0, 1, 0, 1],
        [0, 0, 0, 0, 0, 0, 0, 0, 0, 0, 0],
        [1, 0, 1, 0, 1, 0, 1, 0, 1, 0, 1],
        [0, 0, 0, 0, 0, 0, 0, 0, 0, 0, 0],
        [1, 0, 1, 0, 1, 0, 1, 0, 1, 0, 1],
        [0, 0, 0, 0, 0, 0, 0, 0, 0, 0, 0],
        [1, 0, 1, 0, 1, 0, 1, 0, 1, 0, 1],
        [0, 0, 0, 0, 0, 0, 0, 0, 0, 0, 0],
        [1, 0, 1, 0, 1, 0, 1, 0, 1, 0, 1],
        [0, 0, 0, 0, 0, 0, 0, 0, 0, 0, 0],
        [1, 0, 1, 0, 1, 0, 1, 0, 1, 0, 1],
    ]);
    assert_eq!(shape2, expected2);
}

#[test]
fn test_rotate() {
    let shape = PShape::from([[1, 0, 0], [1, 1, 1]]);
    let rotated_shape = Polyomino::rotate(&shape);
    let expected_shape = PShape::from([[1, 1], [1, 0], [1, 0]]);
    assert_eq!(rotated_shape, expected_shape);
}

#[test]
fn test_generate_rotations() {
    let shape = PShape::from([[1, 0, 0], [1, 1, 1]]);
    let rotations = Polyomino::generate_rotations(&shape);
    let expected1 = PShape::from([[1, 1], [1, 0], [1, 0]]);
    let expected2 = PShape::from([[1, 1, 1], [0, 0, 1]]);
    let expected3 = PShape::from([[0, 1], [0, 1], [1, 1]]);
    assert_eq!(rotations.len(), 4);
    assert_eq!(rotations[0], shape);
    assert_eq!(rotations[1], expected1);
    assert_eq!(rotations[2], expected2);
    assert_eq!(rotations[3], expected3);
}

#[test]
fn test_generate_symmetries() {
    let shape = PShape::from([[1, 0, 0], [1, 1, 1]]);
    let symmetries_no_transform =
        Polyomino::generate_symmetries(&shape, ShapeTransform::NoTransform);
    assert_eq!(symmetries_no_transform.len(), 1);
    assert_eq!(symmetries_no_transform[0], shape);

    let symmetries_rotation =
        Polyomino::generate_symmetries(&shape, ShapeTransform::PureRotation);
    assert_eq!(symmetries_rotation.len(), 4);
    assert_eq!(symmetries_rotation, Polyomino::generate_rotations(&shape));

    let symmetries_full_symmetry =
        Polyomino::generate_symmetries(&shape, ShapeTransform::FullSymmetry);
    let expected4 = PShape::from([[1, 1, 1], [1, 0, 0]]);
    let expected5 = PShape::from([[1, 0], [1, 0], [1, 1]]);
    let expected6 = PShape::from([[0, 0, 1], [1, 1, 1]]);
    let expected7 = PShape::from([[1, 1], [0, 1], [0, 1]]);
    assert_eq!(symmetries_full_symmetry.len(), 8);
    assert_eq!(
        &symmetries_full_symmetry[..4],
        Polyomino::generate_rotations(&shape)
    );
    assert_eq!(
        &symmetries_full_symmetry[4..],
        vec![expected4, expected5, expected6, expected7]
    );
}

#[test]
fn test_generate_single_possibility() {
    let shape = PShape::from([[1, 1], [1, 1]]);
    let grid_dimensions = (2, 2);
    let transform = ShapeTransform::FullSymmetry;

    let possibilities =
        Polyomino::generate_all_possibilities(&[shape], grid_dimensions, transform);
    assert_eq!(possibilities.len(), 1); // 1 possible placement in a 2x2 grid

    let expected_possibilities = vec![Possibility {
        shape_index: 0,
        occupied_cells: vec![(0, 0), (0, 1), (1, 0), (1, 1)],
    }];

    assert_eq!(possibilities, expected_possibilities);
}

#[test]
fn test_generate_no_possibilities() {
    let shape = PShape::from([[1, 1], [1, 1]]);
    let grid_dimensions = (1, 1);
    let transform = ShapeTransform::FullSymmetry;

    let possibilities =
        Polyomino::generate_all_possibilities(&[shape], grid_dimensions, transform);
    assert!(possibilities.is_empty()); // No possible placements in a 1x1
                                       // grid
}

#[test]
fn test_generate_only_fitting_possibilities() {
    let shape = PShape::from([[1, 0], [1, 0], [1, 1]]);
    let grid_dimensions = (2, 3);
    let transform = ShapeTransform::PureRotation;

    let possibilities =
        Polyomino::generate_all_possibilities(&[shape], grid_dimensions, transform);
    assert_eq!(possibilities.len(), 2); // 2 possible placements in a 2x3 grid

    let expected_possibilities = vec![
        Possibility {
            shape_index: 0,
            occupied_cells: vec![(0, 2), (1, 0), (1, 1), (1, 2)],
        },
        Possibility {
            shape_index: 0,
            occupied_cells: vec![(0, 0), (0, 1), (0, 2), (1, 0)],
        },
    ];

    assert_eq!(possibilities, expected_possibilities);
}

#[test]
fn test_generate_possibilities_no_transformations() {
    let shapes = vec![
        PShape::from([[1, 1], [1, 0], [1, 0]]), // J-shape
        PShape::from([[0, 1], [1, 1], [1, 0]]), // Z-shape
        PShape::from([[0, 1], [0, 1], [1, 1]]), // J-shape
    ];
    let grid_dimensions = (3, 4);
    let transform = ShapeTransform::NoTransform;

    let possibilities =
        Polyomino::generate_all_possibilities(&shapes, grid_dimensions, transform);

    assert_eq!(possibilities.len(), 9); // 9 possible placements for the shapes in a 3x4 grid
    let expected_possibilities = vec![
        Possibility {
            shape_index: 0,
            occupied_cells: vec![(0, 0), (0, 1), (1, 0), (2, 0)],
        },
        Possibility {
            shape_index: 0,
            occupied_cells: vec![(0, 1), (0, 2), (1, 1), (2, 1)],
        },
        Possibility {
            shape_index: 0,
            occupied_cells: vec![(0, 2), (0, 3), (1, 2), (2, 2)],
        },
        Possibility {
            shape_index: 1,
            occupied_cells: vec![(0, 1), (1, 0), (1, 1), (2, 0)],
        },
        Possibility {
            shape_index: 1,
            occupied_cells: vec![(0, 2), (1, 1), (1, 2), (2, 1)],
        },
        Possibility {
            shape_index: 1,
            occupied_cells: vec![(0, 3), (1, 2), (1, 3), (2, 2)],
        },
        Possibility {
            shape_index: 2,
            occupied_cells: vec![(0, 1), (1, 1), (2, 0), (2, 1)],
        },
        Possibility {
            shape_index: 2,
            occupied_cells: vec![(0, 2), (1, 2), (2, 1), (2, 2)],
        },
        Possibility {
            shape_index: 2,
            occupied_cells: vec![(0, 3), (1, 3), (2, 2), (2, 3)],
        },
    ];
    let possibilities: HashSet<Possibility> = HashSet::from_iter(possibilities);
    let expected_possibilities: HashSet<Possibility> =
        HashSet::from_iter(expected_possibilities);
    assert_eq!(possibilities, expected_possibilities);
}

#[test]
fn test_generate_possibilities_pure_rotation() {
    let shapes = vec![
        PShape::from([[1, 1], [1, 0], [1, 0]]), // J-shape
        PShape::from([[0, 1], [1, 1], [1, 0]]), // Z-shape
        PShape::from([[0, 1], [0, 1], [1, 1]]), // J-shape
    ];
    let grid_dimensions = (3, 4);
    let transform = ShapeTransform::PureRotation;

    let possibilities =
        Polyomino::generate_all_possibilities(&shapes, grid_dimensions, transform);

    assert_eq!(possibilities.len(), 35); // 35 possible placements for the shapes in a 3x4 grid
    let expected_possibilities = vec![
        Possibility {
            shape_index: 0,
            occupied_cells: vec![(0, 1), (1, 1), (2, 0), (2, 1)],
        },
        Possibility {
            shape_index: 0,
            occupied_cells: vec![(0, 2), (1, 2), (2, 1), (2, 2)],
        },
        Possibility {
            shape_index: 0,
            occupied_cells: vec![(0, 3), (1, 3), (2, 2), (2, 3)],
        },
        Possibility {
            shape_index: 0,
            occupied_cells: vec![(0, 0), (1, 0), (1, 1), (1, 2)],
        },
        Possibility {
            shape_index: 0,
            occupied_cells: vec![(0, 1), (1, 1), (1, 2), (1, 3)],
        },
        Possibility {
            shape_index: 0,
            occupied_cells: vec![(1, 0), (2, 0), (2, 1), (2, 2)],
        },
        Possibility {
            shape_index: 0,
            occupied_cells: vec![(1, 1), (2, 1), (2, 2), (2, 3)],
        },
        Possibility {
            shape_index: 0,
            occupied_cells: vec![(0, 0), (0, 1), (1, 0), (2, 0)],
        },
        Possibility {
            shape_index: 0,
            occupied_cells: vec![(0, 1), (0, 2), (1, 1), (2, 1)],
        },
        Possibility {
            shape_index: 0,
            occupied_cells: vec![(0, 2), (0, 3), (1, 2), (2, 2)],
        },
        Possibility {
            shape_index: 0,
            occupied_cells: vec![(0, 0), (0, 1), (0, 2), (1, 2)],
        },
        Possibility {
            shape_index: 0,
            occupied_cells: vec![(0, 1), (0, 2), (0, 3), (1, 3)],
        },
        Possibility {
            shape_index: 0,
            occupied_cells: vec![(1, 0), (1, 1), (1, 2), (2, 2)],
        },
        Possibility {
            shape_index: 0,
            occupied_cells: vec![(1, 1), (1, 2), (1, 3), (2, 3)],
        },
        Possibility {
            shape_index: 1,
            occupied_cells: vec![(0, 1), (1, 0), (1, 1), (2, 0)],
        },
        Possibility {
            shape_index: 1,
            occupied_cells: vec![(0, 2), (1, 1), (1, 2), (2, 1)],
        },
        Possibility {
            shape_index: 1,
            occupied_cells: vec![(0, 3), (1, 2), (1, 3), (2, 2)],
        },
        Possibility {
            shape_index: 1,
            occupied_cells: vec![(0, 0), (0, 1), (1, 1), (1, 2)],
        },
        Possibility {
            shape_index: 1,
            occupied_cells: vec![(0, 1), (0, 2), (1, 2), (1, 3)],
        },
        Possibility {
            shape_index: 1,
            occupied_cells: vec![(1, 0), (1, 1), (2, 1), (2, 2)],
        },
        Possibility {
            shape_index: 1,
            occupied_cells: vec![(1, 1), (1, 2), (2, 2), (2, 3)],
        },
        Possibility {
            shape_index: 2,
            occupied_cells: vec![(0, 1), (1, 1), (2, 0), (2, 1)],
        },
        Possibility {
            shape_index: 2,
            occupied_cells: vec![(0, 2), (1, 2), (2, 1), (2, 2)],
        },
        Possibility {
            shape_index: 2,
            occupied_cells: vec![(0, 3), (1, 3), (2, 2), (2, 3)],
        },
        Possibility {
            shape_index: 2,
            occupied_cells: vec![(0, 0), (1, 0), (1, 1), (1, 2)],
        },
        Possibility {
            shape_index: 2,
            occupied_cells: vec![(0, 1), (1, 1), (1, 2), (1, 3)],
        },
        Possibility {
            shape_index: 2,
            occupied_cells: vec![(1, 0), (2, 0), (2, 1), (2, 2)],
        },
        Possibility {
            shape_index: 2,
            occupied_cells: vec![(1, 1), (2, 1), (2, 2), (2, 3)],
        },
        Possibility {
            shape_index: 2,
            occupied_cells: vec![(0, 0), (0, 1), (1, 0), (2, 0)],
        },
        Possibility {
            shape_index: 2,
            occupied_cells: vec![(0, 1), (0, 2), (1, 1), (2, 1)],
        },
        Possibility {
            shape_index: 2,
            occupied_cells: vec![(0, 2), (0, 3), (1, 2), (2, 2)],
        },
        Possibility {
            shape_index: 2,
            occupied_cells: vec![(0, 0), (0, 1), (0, 2), (1, 2)],
        },
        Possibility {
            shape_index: 2,
            occupied_cells: vec![(0, 1), (0, 2), (0, 3), (1, 3)],
        },
        Possibility {
            shape_index: 2,
            occupied_cells: vec![(1, 0), (1, 1), (1, 2), (2, 2)],
        },
        Possibility {
            shape_index: 2,
            occupied_cells: vec![(1, 1), (1, 2), (1, 3), (2, 3)],
        },
    ];
    let possibilities: HashSet<Possibility> = HashSet::from_iter(possibilities);
    let expected_possibilities: HashSet<Possibility> =
        HashSet::from_iter(expected_possibilities);
    assert_eq!(possibilities, expected_possibilities);
}

#[test]
fn test_generate_possibilities_full_symmetry() {
    let shapes = vec![
        PShape::from([[1, 1], [1, 0], [1, 0]]), // J-shape
        PShape::from([[0, 1], [1, 1], [1, 0]]), // Z-shape
        PShape::from([[0, 1], [0, 1], [1, 1]]), // J-shape
    ];
    let grid_dimensions = (3, 4);
    let transform = ShapeTransform::FullSymmetry;

    let possibilities =
        Polyomino::generate_all_possibilities(&shapes, grid_dimensions, transform);

    assert_eq!(possibilities.len(), 70); // 70 possible placements for the shapes in a 3x4 grid

    let expected_possibilities = vec![
        Possibility {
            shape_index: 0,
            occupied_cells: vec![(0, 2), (1, 0), (1, 1), (1, 2)],
        },
        Possibility {
            shape_index: 0,
            occupied_cells: vec![(0, 3), (1, 1), (1, 2), (1, 3)],
        },
        Possibility {
            shape_index: 0,
            occupied_cells: vec![(1, 2), (2, 0), (2, 1), (2, 2)],
        },
        Possibility {
            shape_index: 0,
            occupied_cells: vec![(1, 3), (2, 1), (2, 2), (2, 3)],
        },
        Possibility {
            shape_index: 0,
            occupied_cells: vec![(0, 1), (1, 1), (2, 0), (2, 1)],
        },
        Possibility {
            shape_index: 0,
            occupied_cells: vec![(0, 2), (1, 2), (2, 1), (2, 2)],
        },
        Possibility {
            shape_index: 0,
            occupied_cells: vec![(0, 3), (1, 3), (2, 2), (2, 3)],
        },
        Possibility {
            shape_index: 0,
            occupied_cells: vec![(0, 0), (1, 0), (2, 0), (2, 1)],
        },
        Possibility {
            shape_index: 0,
            occupied_cells: vec![(0, 1), (1, 1), (2, 1), (2, 2)],
        },
        Possibility {
            shape_index: 0,
            occupied_cells: vec![(0, 2), (1, 2), (2, 2), (2, 3)],
        },
        Possibility {
            shape_index: 0,
            occupied_cells: vec![(0, 0), (1, 0), (1, 1), (1, 2)],
        },
        Possibility {
            shape_index: 0,
            occupied_cells: vec![(0, 1), (1, 1), (1, 2), (1, 3)],
        },
        Possibility {
            shape_index: 0,
            occupied_cells: vec![(1, 0), (2, 0), (2, 1), (2, 2)],
        },
        Possibility {
            shape_index: 0,
            occupied_cells: vec![(1, 1), (2, 1), (2, 2), (2, 3)],
        },
        Possibility {
            shape_index: 0,
            occupied_cells: vec![(0, 0), (0, 1), (1, 1), (2, 1)],
        },
        Possibility {
            shape_index: 0,
            occupied_cells: vec![(0, 1), (0, 2), (1, 2), (2, 2)],
        },
        Possibility {
            shape_index: 0,
            occupied_cells: vec![(0, 2), (0, 3), (1, 3), (2, 3)],
        },
        Possibility {
            shape_index: 0,
            occupied_cells: vec![(0, 0), (0, 1), (1, 0), (2, 0)],
        },
        Possibility {
            shape_index: 0,
            occupied_cells: vec![(0, 1), (0, 2), (1, 1), (2, 1)],
        },
        Possibility {
            shape_index: 0,
            occupied_cells: vec![(0, 2), (0, 3), (1, 2), (2, 2)],
        },
        Possibility {
            shape_index: 0,
            occupied_cells: vec![(0, 0), (0, 1), (0, 2), (1, 2)],
        },
        Possibility {
            shape_index: 0,
            occupied_cells: vec![(0, 1), (0, 2), (0, 3), (1, 3)],
        },
        Possibility {
            shape_index: 0,
            occupied_cells: vec![(1, 0), (1, 1), (1, 2), (2, 2)],
        },
        Possibility {
            shape_index: 0,
            occupied_cells: vec![(1, 1), (1, 2), (1, 3), (2, 3)],
        },
        Possibility {
            shape_index: 0,
            occupied_cells: vec![(0, 0), (0, 1), (0, 2), (1, 0)],
        },
        Possibility {
            shape_index: 0,
            occupied_cells: vec![(0, 1), (0, 2), (0, 3), (1, 1)],
        },
        Possibility {
            shape_index: 0,
            occupied_cells: vec![(1, 0), (1, 1), (1, 2), (2, 0)],
        },
        Possibility {
            shape_index: 0,
            occupied_cells: vec![(1, 1), (1, 2), (1, 3), (2, 1)],
        },
        Possibility {
            shape_index: 1,
            occupied_cells: vec![(0, 1), (1, 0), (1, 1), (2, 0)],
        },
        Possibility {
            shape_index: 1,
            occupied_cells: vec![(0, 2), (1, 1), (1, 2), (2, 1)],
        },
        Possibility {
            shape_index: 1,
            occupied_cells: vec![(0, 3), (1, 2), (1, 3), (2, 2)],
        },
        Possibility {
            shape_index: 1,
            occupied_cells: vec![(0, 1), (0, 2), (1, 0), (1, 1)],
        },
        Possibility {
            shape_index: 1,
            occupied_cells: vec![(0, 2), (0, 3), (1, 1), (1, 2)],
        },
        Possibility {
            shape_index: 1,
            occupied_cells: vec![(1, 1), (1, 2), (2, 0), (2, 1)],
        },
        Possibility {
            shape_index: 1,
            occupied_cells: vec![(1, 2), (1, 3), (2, 1), (2, 2)],
        },
        Possibility {
            shape_index: 1,
            occupied_cells: vec![(0, 0), (1, 0), (1, 1), (2, 1)],
        },
        Possibility {
            shape_index: 1,
            occupied_cells: vec![(0, 1), (1, 1), (1, 2), (2, 2)],
        },
        Possibility {
            shape_index: 1,
            occupied_cells: vec![(0, 2), (1, 2), (1, 3), (2, 3)],
        },
        Possibility {
            shape_index: 1,
            occupied_cells: vec![(0, 0), (0, 1), (1, 1), (1, 2)],
        },
        Possibility {
            shape_index: 1,
            occupied_cells: vec![(0, 1), (0, 2), (1, 2), (1, 3)],
        },
        Possibility {
            shape_index: 1,
            occupied_cells: vec![(1, 0), (1, 1), (2, 1), (2, 2)],
        },
        Possibility {
            shape_index: 1,
            occupied_cells: vec![(1, 1), (1, 2), (2, 2), (2, 3)],
        },
        Possibility {
            shape_index: 2,
            occupied_cells: vec![(0, 2), (1, 0), (1, 1), (1, 2)],
        },
        Possibility {
            shape_index: 2,
            occupied_cells: vec![(0, 3), (1, 1), (1, 2), (1, 3)],
        },
        Possibility {
            shape_index: 2,
            occupied_cells: vec![(1, 2), (2, 0), (2, 1), (2, 2)],
        },
        Possibility {
            shape_index: 2,
            occupied_cells: vec![(1, 3), (2, 1), (2, 2), (2, 3)],
        },
        Possibility {
            shape_index: 2,
            occupied_cells: vec![(0, 1), (1, 1), (2, 0), (2, 1)],
        },
        Possibility {
            shape_index: 2,
            occupied_cells: vec![(0, 2), (1, 2), (2, 1), (2, 2)],
        },
        Possibility {
            shape_index: 2,
            occupied_cells: vec![(0, 3), (1, 3), (2, 2), (2, 3)],
        },
        Possibility {
            shape_index: 2,
            occupied_cells: vec![(0, 0), (1, 0), (2, 0), (2, 1)],
        },
        Possibility {
            shape_index: 2,
            occupied_cells: vec![(0, 1), (1, 1), (2, 1), (2, 2)],
        },
        Possibility {
            shape_index: 2,
            occupied_cells: vec![(0, 2), (1, 2), (2, 2), (2, 3)],
        },
        Possibility {
            shape_index: 2,
            occupied_cells: vec![(0, 0), (1, 0), (1, 1), (1, 2)],
        },
        Possibility {
            shape_index: 2,
            occupied_cells: vec![(0, 1), (1, 1), (1, 2), (1, 3)],
        },
        Possibility {
            shape_index: 2,
            occupied_cells: vec![(1, 0), (2, 0), (2, 1), (2, 2)],
        },
        Possibility {
            shape_index: 2,
            occupied_cells: vec![(1, 1), (2, 1), (2, 2), (2, 3)],
        },
        Possibility {
            shape_index: 2,
            occupied_cells: vec![(0, 0), (0, 1), (1, 1), (2, 1)],
        },
        Possibility {
            shape_index: 2,
            occupied_cells: vec![(0, 1), (0, 2), (1, 2), (2, 2)],
        },
        Possibility {
            shape_index: 2,
            occupied_cells: vec![(0, 2), (0, 3), (1, 3), (2, 3)],
        },
        Possibility {
            shape_index: 2,
            occupied_cells: vec![(0, 0), (0, 1), (1, 0), (2, 0)],
        },
        Possibility {
            shape_index: 2,
            occupied_cells: vec![(0, 1), (0, 2), (1, 1), (2, 1)],
        },
        Possibility {
            shape_index: 2,
            occupied_cells: vec![(0, 2), (0, 3), (1, 2), (2, 2)],
        },
        Possibility {
            shape_index: 2,
            occupied_cells: vec![(0, 0), (0, 1), (0, 2), (1, 2)],
        },
        Possibility {
            shape_index: 2,
            occupied_cells: vec![(0, 1), (0, 2), (0, 3), (1, 3)],
        },
        Possibility {
            shape_index: 2,
            occupied_cells: vec![(1, 0), (1, 1), (1, 2), (2, 2)],
        },
        Possibility {
            shape_index: 2,
            occupied_cells: vec![(1, 1), (1, 2), (1, 3), (2, 3)],
        },
        Possibility {
            shape_index: 2,
            occupied_cells: vec![(0, 0), (0, 1), (0, 2), (1, 0)],
        },
        Possibility {
            shape_index: 2,
            occupied_cells: vec![(0, 1), (0, 2), (0, 3), (1, 1)],
        },
        Possibility {
            shape_index: 2,
            occupied_cells: vec![(1, 0), (1, 1), (1, 2), (2, 0)],
        },
        Possibility {
            shape_index: 2,
            occupied_cells: vec![(1, 1), (1, 2), (1, 3), (2, 1)],
        },
    ];
    let possibilities: HashSet<Possibility> = HashSet::from_iter(possibilities);
    let expected_possibilities: HashSet<Possibility> =
        HashSet::from_iter(expected_possibilities);
    assert_eq!(possibilities, expected_possibilities);
}

#[test]
fn test_new_polyomino_puzzle() {
    let shapes = vec![
        PShape::from([[1, 1], [1, 0], [1, 0]]), // J-shape
        PShape::from([[0, 1], [1, 1], [1, 0]]), // Z-shape
        PShape::from([[0, 1], [0, 1], [1, 1]]), // J-shape
    ];
    let grid_dimensions = (3, 4);
    let transform = ShapeTransform::NoTransform;
    let polyomino = Polyomino::new(grid_dimensions, shapes, transform);
    assert_eq!(polyomino.grid_dimensions, (3, 4));
    assert_eq!(
        polyomino.polyominoes,
        vec![
            PShape::from([[1, 1], [1, 0], [1, 0]]), // J-shape
            PShape::from([[0, 1], [1, 1], [1, 0]]), // Z-shape
            PShape::from([[0, 1], [0, 1], [1, 1]]), // J-shape
        ]
    );
    assert_eq!(polyomino.transformations, ShapeTransform::NoTransform);
    assert_eq!(polyomino.possibilities.len(), 9);
    assert_eq!(
        polyomino.possibilities,
        Polyomino::generate_all_possibilities(
            &polyomino.polyominoes,
            polyomino.grid_dimensions,
            polyomino.transformations,
        )
    );
    assert_eq!(polyomino.constraints.len(), 15); // 3 shape + 12 field
    assert_eq!(
        polyomino.constraints,
        Constraint::all(polyomino.grid_dimensions, polyomino.polyominoes.len())
    );
}

#[test]
fn test_solve_small_puzzle() {
    let shapes = vec![
        PShape::from([[1, 1], [1, 0], [1, 0]]), // J-shape
        PShape::from([[0, 1], [1, 1], [1, 0]]), // Z-shape
        PShape::from([[0, 1], [0, 1], [1, 1]]), // J-shape
    ];
    let grid_dimensions = (3, 4);
    let transform = ShapeTransform::NoTransform;
    let polyomino = Polyomino::new(grid_dimensions, shapes, transform);

    let mut solver = polyomino.solver();
    let solution = solver.next_solution();
    assert!(solution.is_some());
    let mut solution = solution.unwrap();
    solution.sort();
    assert_eq!(solution.len(), 3);
    assert_eq!(
        solution.into_iter().cloned().collect::<Vec<Possibility>>(),
        vec![
            Possibility {
                shape_index: 0,
                occupied_cells: vec![(0, 0), (0, 1), (1, 0), (2, 0)]
            },
            Possibility {
                shape_index: 1,
                occupied_cells: vec![(0, 2), (1, 1), (1, 2), (2, 1)]
            },
            Possibility {
                shape_index: 2,
                occupied_cells: vec![(0, 3), (1, 3), (2, 2), (2, 3)]
            }
        ]
    );
    assert!(solver.next_solution().is_none()); // No more solutions
}

#[test]
fn shapes_are_compared_by_width_then_mask() {
    let narrow = PShape::from([[1], [1], [1]]);
    let wide = PShape::from([[1, 1, 1]]);
    let bent = PShape::from([[1, 0], [1, 1]]);
    let other = PShape::from([[1, 1], [1, 0]]);
    assert_eq!(compare_shapes(&narrow, &wide), ShapeOrder::Before);
    assert_eq!(compare_shapes(&wide, &narrow), ShapeOrder::After);
    assert_eq!(compare_shapes(&bent, &other), ShapeOrder::Before);
    assert_eq!(compare_shapes(&other, &bent), ShapeOrder::After);
    assert_eq!(compare_shapes(&bent, &bent.clone()), ShapeOrder::Same);
    // A mask that is the beginning of another comes first.
    let short = PShape { width: 2, mask: vec![1, 0] };
    assert_eq!(compare_shapes(&short, &bent), ShapeOrder::Before);
    for (a, b) in [(&narrow, &wide), (&bent, &other), (&short, &bent), (&bent, &bent)] {
        let expected = match a.cmp(b) {
            std::cmp::Ordering::Less => ShapeOrder::Before,
            std::cmp::Ordering::Equal => ShapeOrder::Same,
            std::cmp::Ordering::Greater => ShapeOrder::After,
        };
        assert_eq!(compare_shapes(a, b), expected);
    }
}

#[test]
fn forms_are_sorted_and_distinct() {
    let shape = PShape::from([[1, 1], [1, 1]]);
    let forms = Polyomino::generate_symmetries(&shape, ShapeTransform::FullSymmetry);
    assert_eq!(forms.len(), 8);
    assert_eq!(sort_dedup(&forms), vec![shape.clone()]);

    let bar = PShape::from([[1, 1, 1]]);
    let forms = Polyomino::generate_symmetries(&bar, ShapeTransform::FullSymmetry);
    let mut expected = forms.clone();
    expected.sort();
    expected.dedup();
    assert_eq!(expected.len(), 2);
    assert_eq!(sort_dedup(&forms), expected);

    let bent = PShape::from([[1, 0, 0], [1, 1, 1]]);
    let forms = Polyomino::generate_symmetries(&bent, ShapeTransform::FullSymmetry);
    let mut expected = forms.clone();
    expected.sort();
    expected.dedup();
    assert_eq!(expected.len(), 8);
    assert_eq!(sort_dedup(&forms), expected);
    assert_eq!(sort_dedup(&vec![]), Vec::<PShape>::new());
}

#[test]
fn reflection_reverses_the_rows() {
    let shape = PShape::from([[1, 0, 0], [1, 1, 1]]);
    assert_eq!(
        Polyomino::reflect(&shape),
        PShape::from([[1, 1, 1], [1, 0, 0]])
    );
    assert_eq!(Polyomino::reflect(&Polyomino::reflect(&shape)), shape);
    let copy = shape.copy();
    assert_eq!(copy, shape);
    assert_eq!(shape.width(), 3);
    assert_eq!(shape.height(), 2);
}

#[test]
fn four_turns_give_the_shape_back() {
    let shape = PShape::from([[0, 1, 0], [1, 1, 1], [0, 0, 1]]);
    let mut turned = shape.copy();
    for _ in 0..4 {
        turned = Polyomino::rotate(&turned);
    }
    assert_eq!(turned, shape);
}

#[test]
fn cells_other_than_one_are_kept_but_not_placed() {
    // A cell of value 2 counts when the edges are cut, not when the shape
    // is placed.
    let shape = PShape::new(3, vec![0, 0, 0, 2, 1, 0]);
    assert_eq!(shape.width, 2);
    assert_eq!(shape.mask, vec![2, 1]);
    let placements =
        Polyomino::generate_all_possibilities(&[shape], (1, 2), ShapeTransform::NoTransform);
    assert_eq!(
        placements,
        vec![Possibility {
            shape_index: 0,
            occupied_cells: vec![(0, 1)]
        }]
    );
}

#[test]
fn placement_satisfies_its_shape_and_cells() {
    let possibility = Possibility {
        shape_index: 1,
        occupied_cells: vec![(0, 0), (0, 1), (1, 0)],
    };
    assert!(possibility.satisfies(&Constraint::ShapeIndex(1)));
    assert!(!possibility.satisfies(&Constraint::ShapeIndex(0)));
    assert!(possibility.satisfies(&Constraint::Field(1, 0)));
    assert!(!possibility.satisfies(&Constraint::Field(1, 1)));
    assert_eq!(
        possibility.satisfied_constraints(),
        vec![
            Constraint::ShapeIndex(1),
            Constraint::Field(0, 0),
            Constraint::Field(0, 1),
            Constraint::Field(1, 0)
        ]
    );
}
