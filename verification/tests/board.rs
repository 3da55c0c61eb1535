use game_of_life::board::get_adjacents;
use game_of_life::Board;

#[test]
fn test_adjacents() {
    assert_eq!(get_adjacents(0, 0), vec![(1, 0), (0, 1), (1, 1)]);

    assert_eq!(get_adjacents(1, 0), vec![(0, 0), (2, 0), (0, 1), (1, 1), (2, 1)]);

    assert_eq!(
        get_adjacents(1, 1),
        vec![(0, 0), (1, 0), (2, 0), (0, 1), (2, 1), (0, 2), (1, 2), (2, 2)]
    );
}

#[test]
fn test_from_cells() {
    let mut expected = Board::new(3, 3);
    expected.make_alive(1, 0);
    expected.make_alive(1, 1);
    expected.make_alive(1, 2);

    let board = Board::from_cells(3, 3, &vec![vec![0, 1, 0], vec![0, 1, 0], vec![0, 1, 0]]);

    assert_eq!(expected, board);

    let mut expected = Board::new(3, 3);
    expected.make_alive(0, 1);
    expected.make_alive(1, 1);
    expected.make_alive(2, 1);

    let board = Board::from_cells(3, 3, &vec![vec![0, 0, 0], vec![1, 1, 1], vec![0, 0, 0]]);

    assert_eq!(expected, board);
}

#[test]
fn test_board_tick() {
    let board = Board::from_cells(3, 3, &vec![vec![0, 1, 0], vec![0, 1, 0], vec![0, 1, 0]]);

    let expected = Board::from_cells(3, 3, &vec![vec![0, 0, 0], vec![1, 1, 1], vec![0, 0, 0]]);

    assert_eq!(board.tick(), expected)
}

#[test]
fn test_partial_eq() {
    assert_eq!(
        Board::from_cells(3, 3, &vec![vec![1, 1, 0], vec![0, 1, 1], vec![0, 1, 0]]),
        Board::from_cells(3, 3, &vec![vec![1, 1, 0], vec![0, 1, 1], vec![0, 1, 0]]),
    );

    assert_ne!(
        Board::from_cells(3, 3, &vec![vec![0, 1, 1], vec![0, 1, 0], vec![1, 1, 1]]),
        Board::from_cells(3, 3, &vec![vec![0, 1, 1], vec![0, 1, 1], vec![1, 1, 1]]),
    );
}

fn run_simulation(width: usize, height: usize, steps: Vec<Vec<Vec<usize>>>) {
    let mut board = Board::from_cells(width, height, &steps[0]);

    for next in &steps[1..] {
        board = board.tick();

        let expected = Board::from_cells(width, height, next);

        assert_eq!(board, expected)
    }
}

#[test]
fn test_blinker() {
    run_simulation(
        3,
        3,
        vec![
            vec![vec![0, 1, 0], vec![0, 1, 0], vec![0, 1, 0]],
            vec![vec![0, 0, 0], vec![1, 1, 1], vec![0, 0, 0]],
            vec![vec![0, 1, 0], vec![0, 1, 0], vec![0, 1, 0]],
            vec![vec![0, 0, 0], vec![1, 1, 1], vec![0, 0, 0]],
        ],
    );
}

#[test]
fn test_glider() {
    run_simulation(
        4,
        4,
        vec![
            vec![vec![1, 0, 0], vec![0, 1, 1], vec![1, 1, 0]],
            vec![vec![0, 1, 0], vec![0, 0, 1], vec![1, 1, 1]],
            vec![vec![0, 0, 0], vec![1, 0, 1], vec![0, 1, 1], vec![0, 1, 0]],
            vec![vec![0, 0, 0], vec![0, 0, 1], vec![1, 0, 1], vec![0, 1, 1]],
            vec![vec![0, 0, 0, 0], vec![0, 1, 0, 0], vec![0, 0, 1, 1], vec![0, 1, 1, 0]],
        ],
    )
}

#[test]
fn test_blinker_active_set_size() {
    let mut board = Board::from_cells(3, 3, &vec![vec![0, 1, 0], vec![0, 1, 0], vec![0, 1, 0]]);
    assert_eq!(board.alive_cells().len(), 3);
    board = board.tick();
    assert_eq!(board.alive_cells().len(), 3);
    board = board.tick();
    assert_eq!(board.alive_cells().len(), 3);
    assert_eq!(
        board,
        Board::from_cells(3, 3, &vec![vec![0, 1, 0], vec![0, 1, 0], vec![0, 1, 0]])
    );
}

#[test]
fn test_from_cells_round_trip() {
    let pattern = vec![vec![1], vec![0, 0, 1], vec![], vec![1, 1]];
    let board = Board::from_cells(4, 4, &pattern);

    let mut alive = board.alive_cells().clone();
    alive.sort();
    assert_eq!(alive, vec![(0, 0), (0, 3), (1, 3), (2, 1)]);

    let mut seen = alive.clone();
    seen.dedup();
    assert_eq!(seen.len(), alive.len());
}

#[test]
fn test_equality_ignores_marking_order() {
    let mut one = Board::new(3, 3);
    one.make_alive(0, 0);
    one.make_alive(2, 2);

    let mut other = Board::new(3, 3);
    other.make_alive(2, 2);
    other.make_alive(0, 0);

    assert_ne!(one.alive_cells(), other.alive_cells());
    assert_eq!(one, other);
}

#[test]
fn test_full_equals_every_cell_marked() {
    let full = Board::full(3, 3);

    let mut marked = Board::new(3, 3);
    for y in 0..3 {
        for x in 0..3 {
            marked.make_alive(x, y);
        }
    }

    assert_eq!(full.alive_cells().len(), 9);
    assert_eq!(full, marked);

    let ones = Board::from_cells(3, 3, &vec![vec![1, 1, 1], vec![1, 1, 1], vec![1, 1, 1]]);
    assert_eq!(full, ones);
}

#[test]
fn test_full_clamps_counts_at_the_edge() {
    let full = Board::full(3, 3);
    let cells = full.cells();

    assert_eq!(cells[0].neighbour_count(), 3);
    assert_eq!(cells[1].neighbour_count(), 5);
    assert_eq!(cells[4].neighbour_count(), 8);
}

#[test]
fn test_rand_with_certain_probability() {
    let mut rng = rand::rng();
    let board = Board::rand(&mut rng, 4, 4, 1, 1);
    assert_eq!(board, Board::full(4, 4));
}

#[test]
fn test_rand_with_zero_probability() {
    let mut rng = rand::rng();
    let board = Board::rand(&mut rng, 4, 4, 0, 7);
    assert_eq!(board, Board::new(4, 4));
    assert_eq!(board.alive_cells().len(), 0);
}

#[test]
fn test_tick_of_empty_board_is_empty() {
    let board = Board::new(3, 3);
    assert_eq!(board.tick(), Board::new(3, 3));
}

#[test]
fn test_lone_cell_dies() {
    let board = Board::from_cells(1, 1, &vec![vec![1]]);
    assert_eq!(board.alive_cells(), &vec![(0, 0)]);
    assert_eq!(board.tick(), Board::new(1, 1));
}

#[test]
fn test_extent_getters() {
    let board = Board::new(5, 2);
    assert_eq!(board.width(), 5);
    assert_eq!(board.height(), 2);
    assert_eq!(board.cells().len(), 10);
}
