use game_of_life::Grid;

#[test]
fn test_grid_get_and_contains() {
    let grid = Grid::new(vec![vec![1, 2], vec![3, 4]]);

    assert_eq!(grid.get(0, 0), Some(&1));
    assert_eq!(grid.get(0, 1), Some(&2));
    assert_eq!(grid.get(1, 0), Some(&3));
    assert_eq!(grid.get(1, 1), Some(&4));
    assert_eq!(grid.get(2, 0), None);
    assert_eq!(grid.get(0, 2), None);

    assert!(grid.contains(1, 1));
    assert!(!grid.contains(2, 2));
}

#[test]
fn test_grid_handles_ragged_rows() {
    let grid = Grid::new(vec![vec![10], vec![20, 21, 22]]);

    assert_eq!(grid.get(0, 1), None);
    assert_eq!(grid.get(1, 2), Some(&22));
    assert!(grid.contains(1, 1));
    assert!(!grid.contains(0, 1));
}

#[test]
fn test_grid_8_neighbours_interior() {
    let grid = Grid::new(vec![vec![1, 2, 3], vec![4, 5, 6], vec![7, 8, 9]]);

    let neighbours = grid.get_8_neighbours(1, 1);
    assert_eq!(
        neighbours,
        [
            ((-1, -1), Some(&1)),
            ((-1, 0), Some(&2)),
            ((-1, 1), Some(&3)),
            ((0, -1), Some(&4)),
            ((0, 1), Some(&6)),
            ((1, -1), Some(&7)),
            ((1, 0), Some(&8)),
            ((1, 1), Some(&9)),
        ]
    );
}

#[test]
fn test_grid_8_neighbours_corner() {
    let grid = Grid::new(vec![vec![1, 2], vec![3, 4]]);

    let neighbours = grid.get_8_neighbours(0, 0);
    assert_eq!(
        neighbours,
        [
            ((-1, -1), None),
            ((-1, 0), None),
            ((-1, 1), None),
            ((0, -1), None),
            ((0, 1), Some(&2)),
            ((1, -1), None),
            ((1, 0), Some(&3)),
            ((1, 1), Some(&4)),
        ]
    );
}

#[test]
fn test_grid_accessors() {
    let mut grid = Grid::new(vec![vec![1, 2], vec![3, 4]]);

    assert_eq!(grid.grid(), &vec![vec![1, 2], vec![3, 4]]);

    grid.grid_mut()[0][1] = 9;
    assert_eq!(grid.get(0, 1), Some(&9));
}
