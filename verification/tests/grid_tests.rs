use dancing_links::dense_grid::{DenseGrid, DenseGridInner};
use dancing_links::sparse_grid::base_node::{down, left, right, up, BaseNode, Direction};
use dancing_links::sparse_grid::state::{Column, Node};
use dancing_links::sparse_grid::SparseGrid;
use dancing_links::Grid;

fn rows_of(cells: &[bool], width: usize) -> Vec<Vec<bool>> {
    cells.chunks(width).map(|row| row.to_vec()).collect()
}

fn small_coordinates() -> Vec<(usize, usize)> {
    vec![(1, 1), (1, 4), (2, 2), (3, 3), (4, 1), (4, 4)]
}

#[test]
fn create_a_small_grid() {
    let grid = SparseGrid::new(4, small_coordinates());

    assert_eq!(
        grid.to_dense(),
        rows_of(&[
            true, false, false, true,
            false, true, false, false,
            false, false, true, false,
            true, false, false, true
        ], 4)
    );
}

#[test]
fn create_weird_grids() {
    let thin_grid = SparseGrid::new(1, vec![
        (1, 1),
        (2, 1),
        (3, 1),
        // skip 4
        (5, 1),
        // skip 6, 7
        (8, 1)
    ]);

    assert_eq!(
        thin_grid.to_dense(),
        rows_of(&[
            true,
            true,
            true,
            false,
            true,
            false,
            false,
            true
        ], 1)
    );
    assert!(!thin_grid.is_empty());

    let very_thin_grid = SparseGrid::new(0, vec![]);

    assert_eq!(very_thin_grid.to_dense(), Vec::<Vec<bool>>::new());
    assert!(very_thin_grid.is_empty());
}

#[test]
fn cover_uncover_column() {
    let mut grid = SparseGrid::new(4, small_coordinates());

    // mutate the grid
    let fourth = grid.all_columns()[3];
    Column::cover(&mut grid, fourth);

    // Check remaining columns
    assert_eq!(grid.uncovered_columns(), vec![1, 2, 3]);
    assert_eq!(
        grid.to_dense(),
        rows_of(&[
            false, false, false, false,
            false, true, false, false,
            false, false, true, false,
            false, false, false, false
        ], 4)
    );

    // mutate the grid
    Column::uncover(&mut grid, fourth);

    // Check remaining columns
    assert_eq!(grid.uncovered_columns(), vec![1, 2, 3, 4]);
    assert_eq!(
        grid.to_dense(),
        rows_of(&[
            true, false, false, true,
            false, true, false, false,
            false, false, true, false,
            true, false, false, true
        ], 4)
    );
}

#[test]
fn cover_uncover_all() {
    let mut grid = SparseGrid::new(4, vec![
        (1, 1),                 (1, 4),
                (2, 2),
                        (3, 3),
        (4, 1),                 (4, 4)
    ]);

    // mutate the grid
    for column in grid.all_columns() {
        Column::cover(&mut grid, column)
    }

    // Check remaining columns
    assert_eq!(grid.uncovered_columns(), Vec::<usize>::new());
    assert_eq!(
        grid.to_dense(),
        rows_of(&[
            false, false, false, false,
            false, false, false, false,
            false, false, false, false,
            false, false, false, false
        ], 4)
    );
    assert!(grid.is_empty());

    // mutate the grid
    for column in grid.all_columns().into_iter().rev() {
        Column::uncover(&mut grid, column)
    }

    // Check remaining columns
    assert_eq!(grid.uncovered_columns(), vec![1, 2, 3, 4]);
    assert_eq!(
        grid.to_dense(),
        rows_of(&[
            true, false, false, true,
            false, true, false, false,
            false, false, true, false,
            true, false, false, true
        ], 4)
    );
    assert!(!grid.is_empty());
}

#[test]
fn latin_square_cover_1() {
    // [1, 0, 0, 0, 1, 0]
    // [0, 1, 1, 0, 1, 0]
    // [1, 0, 0, 1, 0, 1]
    // [0, 1, 0, 0, 0, 1]
    let mut grid = SparseGrid::new(6, vec![
        (1, 1),                         (1, 5),
                (2, 2), (2, 3),         (2, 5),
        (3, 1),                 (3, 4),         (3, 6),
                (4, 2),                         (4, 6),
    ]);

    assert_eq!(
        grid.to_dense(),
        rows_of(&[
            true, false, false, false, true, false,
            false, true, true, false, true, false,
            true, false, false, true, false, true,
            false, true, false, false, false, true,
        ], 6)
    );
    assert!(!grid.is_empty());

    let second = grid.get_column(2).unwrap();
    Column::cover(&mut grid, second);
    let third = grid.get_column(3).unwrap();
    Column::cover(&mut grid, third);
    let fifth = grid.get_column(5).unwrap();
    Column::cover(&mut grid, fifth);

    assert_eq!(
        grid.to_dense(),
        rows_of(&[
            false, false, false, false, false, false,
            false, false, false, false, false, false,
            true, false, false, true, false, true,
            false, false, false, false, false, false,
        ], 6)
    );
}

fn row_ids<G: Grid>(grid: &G, column: usize) -> Vec<usize> {
    grid.uncovered_rows_in_column(column)
        .into_iter()
        .map(|row| grid.row_id(row))
        .collect()
}

fn check_backend<G: Grid>() {
    // [1, 0, 0, 0, 1, 0]
    // [0, 1, 1, 0, 1, 0]
    // [1, 0, 0, 1, 0, 1]
    // [0, 1, 0, 0, 0, 1]
    let coordinates = vec![
        (4, 6),
        (1, 1),
        (3, 6),
        (2, 5),
        (2, 2),
        (3, 4),
        (1, 5),
        (2, 3),
        (3, 1),
        (4, 2),
    ];
    let mut grid = G::new(6, coordinates);

    assert_eq!(grid.uncovered_columns(), vec![1, 2, 3, 4, 5, 6]);
    assert_eq!(row_ids(&grid, 5), vec![1, 2]);
    assert_eq!(row_ids(&grid, 1), vec![1, 3]);
    assert_eq!(grid.column_size(6), 2);
    assert_eq!(grid.column_size(3), 1);
    for column in 1..=6 {
        assert_eq!(grid.column_id(column), column);
        assert_eq!(grid.column_size(column), row_ids(&grid, column).len());
    }
    let second = grid.uncovered_rows_in_column(3)[0];
    assert_eq!(grid.row_id(second), 2);
    assert_eq!(grid.uncovered_columns_in_row(second), vec![2, 3, 5]);

    // Covering column 5 hides the rows 1 and 2 everywhere else.
    grid.cover(5);
    assert_eq!(grid.uncovered_columns(), vec![1, 2, 3, 4, 6]);
    assert_eq!(row_ids(&grid, 1), vec![3]);
    assert_eq!(row_ids(&grid, 2), vec![4]);
    assert_eq!(row_ids(&grid, 3), Vec::<usize>::new());
    assert_eq!(grid.column_size(3), 0);
    assert_eq!(grid.column_size(6), 2);

    grid.cover(1);
    assert_eq!(grid.uncovered_columns(), vec![2, 3, 4, 6]);
    assert_eq!(row_ids(&grid, 4), Vec::<usize>::new());
    assert_eq!(row_ids(&grid, 6), vec![4]);
    let fourth = grid.uncovered_rows_in_column(6)[0];
    assert_eq!(grid.uncovered_columns_in_row(fourth), vec![2, 6]);

    grid.uncover(1);
    assert_eq!(grid.uncovered_columns(), vec![1, 2, 3, 4, 6]);
    assert_eq!(row_ids(&grid, 6), vec![3, 4]);
    assert_eq!(row_ids(&grid, 4), vec![3]);
    let third = grid.uncovered_rows_in_column(4)[0];
    assert_eq!(grid.uncovered_columns_in_row(third), vec![1, 4, 6]);

    grid.uncover(5);
    assert_eq!(grid.uncovered_columns(), vec![1, 2, 3, 4, 5, 6]);
    assert_eq!(row_ids(&grid, 5), vec![1, 2]);
    assert_eq!(row_ids(&grid, 2), vec![2, 4]);
    assert_eq!(grid.column_size(3), 1);
}

#[test]
fn sparse_backend_covers_and_uncovers() {
    check_backend::<SparseGrid>();
}

#[test]
fn dense_backend_covers_and_uncovers() {
    check_backend::<DenseGrid>();
}

#[test]
fn repeated_coordinates_are_one_entry() {
    let coordinates = vec![(1, 1), (2, 1), (1, 1), (2, 2), (2, 1)];
    let sparse = SparseGrid::new(2, coordinates.clone());
    let dense = DenseGrid::new(2, coordinates);
    assert_eq!(sparse.column_size(1), 2);
    assert_eq!(sparse.column_size(2), 1);
    assert_eq!(dense.column_size(1), 2);
    assert_eq!(dense.column_size(2), 1);
    assert_eq!(row_ids(&sparse, 1), vec![1, 2]);
    assert_eq!(row_ids(&dense, 1), vec![1, 2]);
}

#[test]
fn balanced_covers_restore_the_dense_view() {
    let mut grid = SparseGrid::new(4, small_coordinates());
    let before = grid.to_dense();
    grid.cover(2);
    grid.cover(4);
    grid.cover(1);
    grid.uncover(1);
    grid.cover(3);
    grid.uncover(3);
    grid.uncover(4);
    grid.uncover(2);
    assert_eq!(grid.to_dense(), before);
    assert_eq!(grid.uncovered_columns(), vec![1, 2, 3, 4]);
    for column in 1..=4 {
        assert_eq!(grid.column_size(column), row_ids(&grid, column).len());
    }
}

#[test]
fn dense_table_places() {
    assert_eq!(DenseGridInner::to_index(0, 0, 4), 0);
    assert_eq!(DenseGridInner::to_index(2, 3, 4), 11);
    assert_eq!(DenseGridInner::to_row_column(11, 4), (2, 3));
    assert_eq!(DenseGridInner::to_row_column(4, 4), (1, 0));
    let inner = DenseGridInner::new(2, vec![(1, 2), (3, 1)]);
    assert_eq!(inner.uncovered_columns(), vec![1, 2]);
    assert_eq!(inner.uncovered_rows_in_column(1), vec![3]);
    assert_eq!(inner.uncovered_rows_in_column(2), vec![1]);
    assert_eq!(inner.uncovered_columns_in_row(2), Vec::<usize>::new());
    assert_eq!(inner.column_size(1), 1);
}

fn ring_of_three() -> Vec<BaseNode> {
    // Three entries in one ring to the right, each alone in its column ring.
    let mut links = Vec::new();
    for index in 0..3 {
        let mut node = BaseNode::new();
        node.set_self_ptr(index);
        links.push(node);
    }
    BaseNode::add_right(&mut links, 0, 1);
    BaseNode::add_right(&mut links, 1, 2);
    BaseNode::add_right(&mut links, 2, 0);
    links
}

#[test]
fn base_node_links() {
    let stray = BaseNode::new();
    assert_eq!(
        stray,
        BaseNode {
            left: 0,
            right: 0,
            up: 0,
            down: 0
        }
    );
    let mut own = BaseNode::new();
    own.set_self_ptr(7);
    assert_eq!(
        own,
        BaseNode {
            left: 7,
            right: 7,
            up: 7,
            down: 7
        }
    );
    assert_eq!(own.link(Direction::Left), 7);
    assert_eq!(own.with_link(Direction::Up, 3).up, 3);
    assert_eq!(Direction::Up.back(), Direction::Down);
    assert_eq!(Direction::Right.back(), Direction::Left);
}

#[test]
fn walks_along_a_ring() {
    let links = ring_of_three();
    assert_eq!(right(&links, 0, Some(0)), vec![1, 2]);
    assert_eq!(right(&links, 1, None), vec![2, 0]);
    assert_eq!(right(&links, 1, Some(0)), vec![2]);
    assert_eq!(left(&links, 0, Some(0)), vec![2, 1]);
    assert_eq!(left(&links, 2, None), vec![1, 0]);
    assert_eq!(up(&links, 1, Some(1)), Vec::<usize>::new());
    assert_eq!(down(&links, 2, None), Vec::<usize>::new());
}

#[test]
fn unlinking_and_relinking_restores_the_ring() {
    let mut links = ring_of_three();
    let before = links.clone();
    BaseNode::cover_horizontal(&mut links, 1);
    assert_eq!(right(&links, 0, None), vec![2]);
    assert_eq!(left(&links, 0, None), vec![2]);
    // The entry taken out keeps its own links.
    assert_eq!(links[1], before[1]);
    BaseNode::uncover_horizontal(&mut links, 1);
    assert_eq!(links, before);

    let mut column = Vec::new();
    for index in 0..3 {
        let mut node = BaseNode::new();
        node.set_self_ptr(index);
        column.push(node);
    }
    BaseNode::add_below(&mut column, 0, 1);
    BaseNode::add_below(&mut column, 1, 2);
    BaseNode::add_above(&mut column, 0, 2);
    assert_eq!(down(&column, 0, None), vec![1, 2]);
    assert_eq!(up(&column, 0, None), vec![2, 1]);
    let whole = column.clone();
    BaseNode::cover_vertical(&mut column, 2);
    BaseNode::cover_vertical(&mut column, 1);
    assert_eq!(down(&column, 0, None), Vec::<usize>::new());
    BaseNode::uncover_vertical(&mut column, 1);
    BaseNode::uncover_vertical(&mut column, 2);
    assert_eq!(column, whole);
}

#[test]
fn columns_and_entries_by_handle() {
    // [1, 0, 0, 0, 1, 0]
    // [0, 1, 1, 0, 1, 0]
    // [1, 0, 0, 1, 0, 1]
    // [0, 1, 0, 0, 0, 1]
    let mut grid = SparseGrid::new(6, vec![
        (1, 1), (1, 5),
        (2, 2), (2, 3), (2, 5),
        (3, 1), (3, 4), (3, 6),
        (4, 2), (4, 6),
    ]);
    assert_eq!(grid.get_column(6), Some(6));
    assert_eq!(grid.get_column(7), None);
    assert_eq!(grid.all_columns(), vec![1, 2, 3, 4, 5, 6]);
    assert_eq!(Column::index(&grid, 4), 4);
    assert_eq!(Column::size(&grid, 5), 2);
    assert_eq!(Column::row_indices(&grid, 5), vec![1, 2]);
    assert!(!Column::is_empty(&grid, 3));

    let rows = Column::rows(&grid, 3);
    assert_eq!(rows.len(), 1);
    let entry = rows[0];
    assert_eq!(Node::row_index(&grid, entry), 2);
    assert_eq!(Node::column_index(&grid, entry), 3);
    // To the left of the entry in column 3 stands column 2, then, around
    // the end of the row, column 5.
    let others = Node::neighbors(&grid, entry);
    let columns: Vec<usize> = others
        .iter()
        .map(|other| Node::column_index(&grid, *other))
        .collect();
    assert_eq!(columns, vec![2, 5]);
    for other in others {
        assert_eq!(Node::row_index(&grid, other), 2);
    }

    Column::cover(&mut grid, 5);
    assert!(Column::is_empty(&grid, 3));
    assert_eq!(Column::row_indices(&grid, 2), vec![4]);
    assert_eq!(Column::size(&grid, 1), 1);
    Column::uncover(&mut grid, 5);
    assert_eq!(Column::row_indices(&grid, 2), vec![2, 4]);
}

#[test]
fn neighbours_point_back() {
    let mut links = ring_of_three();
    BaseNode::add_below(&mut links, 0, 1);
    BaseNode::add_below(&mut links, 1, 2);
    BaseNode::add_below(&mut links, 2, 0);
    for index in 0..3 {
        let node = links[index];
        assert_eq!(links[node.left].right, index);
        assert_eq!(links[node.right].left, index);
        assert_eq!(links[node.up].down, index);
        assert_eq!(links[node.down].up, index);
    }
    // Taking an entry out keeps this true of the entries that stay.
    BaseNode::cover_vertical(&mut links, 1);
    for index in [0, 2] {
        let node = links[index];
        assert_eq!(links[node.up].down, index);
        assert_eq!(links[node.down].up, index);
    }
    assert_eq!(down(&links, 0, None), vec![2]);
}

#[test]
fn root_walk_meets_the_uncovered_columns() {
    let mut grid = SparseGrid::new(5, small_coordinates());
    assert_eq!(grid.uncovered_columns(), vec![1, 2, 3, 4, 5]);
    grid.cover(3);
    grid.cover(1);
    assert_eq!(grid.uncovered_columns(), vec![2, 4, 5]);
    assert!(!grid.is_empty());
    grid.cover(5);
    grid.cover(2);
    grid.cover(4);
    assert_eq!(grid.uncovered_columns(), Vec::<usize>::new());
    assert!(grid.is_empty());
    grid.uncover(4);
    assert_eq!(grid.uncovered_columns(), vec![4]);
}
