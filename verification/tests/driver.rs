use game_of_life::{Board, EmptyBoard, GameOfLifeBoard};

#[test]
fn test_empty_board_driver() {
    let empty = EmptyBoard;
    assert_eq!(GameOfLifeBoard::alive_cells(&empty), &[]);
    assert_eq!(GameOfLifeBoard::size(&empty), None);
    let next = GameOfLifeBoard::tick(&empty);
    assert_eq!(GameOfLifeBoard::alive_cells(&next), &[]);
}

#[test]
fn test_board_driver() {
    let board = Board::from_cells(3, 3, &vec![vec![0, 1, 0], vec![0, 1, 0], vec![0, 1, 0]]);
    assert_eq!(GameOfLifeBoard::size(&board), Some((3, 3)));
    assert_eq!(GameOfLifeBoard::alive_cells(&board), &[(1, 0), (1, 1), (1, 2)]);

    let next = GameOfLifeBoard::tick(&board);
    assert_eq!(
        next,
        Board::from_cells(3, 3, &vec![vec![0, 0, 0], vec![1, 1, 1], vec![0, 0, 0]])
    );
}
