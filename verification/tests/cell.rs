use game_of_life::Cell;

#[test]
fn test_neighbours_for_dead() {
    assert!(!Cell::new(false, 8).next_state());
    assert!(!Cell::new(false, 7).next_state());
    assert!(!Cell::new(false, 6).next_state());
    assert!(!Cell::new(false, 5).next_state());
    assert!(!Cell::new(false, 4).next_state());

    assert!(Cell::new(false, 3).next_state());

    assert!(!Cell::new(false, 2).next_state());
    assert!(!Cell::new(false, 1).next_state());
    assert!(!Cell::new(false, 0).next_state());
}

#[test]
fn test_neighbours_for_alive() {
    assert!(!Cell::new(true, 8).next_state());
    assert!(!Cell::new(true, 7).next_state());
    assert!(!Cell::new(true, 6).next_state());
    assert!(!Cell::new(true, 5).next_state());
    assert!(!Cell::new(true, 4).next_state());

    assert!(Cell::new(true, 3).next_state());
    assert!(Cell::new(true, 2).next_state());

    assert!(!Cell::new(true, 1).next_state());
    assert!(!Cell::new(true, 0).next_state());
}

#[test]
fn test_cell_constructor() {
    for i in 0..=8 {
        let cell = Cell::new(true, i);
        assert!(cell.is_alive());
        assert_eq!(cell.neighbour_count(), i);
    }

    for i in 0..=8 {
        let cell = Cell::new(false, i);
        assert!(!cell.is_alive());
        assert_eq!(cell.neighbour_count(), i);
    }
}

#[test]
fn test_transition_split_rules() {
    for i in 0..=8i8 {
        let alive = Cell::new(true, i);
        assert_eq!(alive.next_alive_state(), i == 2 || i == 3);
        assert_eq!(alive.next_state(), i == 2 || i == 3);

        let dead = Cell::new(false, i);
        assert_eq!(dead.next_dead_state(), i == 3);
        assert_eq!(dead.next_state(), i == 3);
    }
}

#[test]
fn test_make_alive_and_dead_keep_count() {
    let mut cell = Cell::new(false, 5);
    cell.make_alive();
    assert!(cell.is_alive());
    assert!(!cell.is_dead());
    assert_eq!(cell.neighbour_count(), 5);

    cell.make_dead();
    assert!(cell.is_dead());
    assert!(!cell.is_alive());
    assert_eq!(cell.neighbour_count(), 5);
}

#[test]
fn test_empty_cell() {
    let cell = Cell::empty();
    assert!(cell.is_dead());
    assert_eq!(cell.neighbour_count(), 0);
}
