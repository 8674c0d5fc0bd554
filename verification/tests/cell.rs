use bastard_minesweeper::Cell;

#[test]
fn default_cell_is_open() {
    assert_eq!(Cell::default(), Cell::Quantum(None));
}

#[test]
fn bomb_count_of_an_open_cell_is_zero_to_one() {
    let r = Cell::Quantum(None).bomb_count();
    assert_eq!((*r.start(), *r.end()), (0, 1));
}

#[test]
fn bomb_count_of_a_committed_cell_is_its_value() {
    let mine = Cell::Quantum(Some(true)).bomb_count();
    assert_eq!((*mine.start(), *mine.end()), (1, 1));
    let safe = Cell::Quantum(Some(false)).bomb_count();
    assert_eq!((*safe.start(), *safe.end()), (0, 0));
}

#[test]
fn bomb_count_of_a_concrete_cell_is_its_value() {
    let mine = Cell::Concrete(true).bomb_count();
    assert_eq!((*mine.start(), *mine.end()), (1, 1));
    let safe = Cell::Concrete(false).bomb_count();
    assert_eq!((*safe.start(), *safe.end()), (0, 0));
}

#[test]
fn bomb_count_of_a_discovered_cell_is_zero() {
    for cell in [Cell::Discovered(None), Cell::Discovered(Some(0)), Cell::Discovered(Some(5))] {
        let r = cell.bomb_count();
        assert_eq!((*r.start(), *r.end()), (0, 0));
    }
}

#[test]
fn bomb_count_contains_the_possible_values() {
    assert!(Cell::Quantum(None).bomb_count().contains(&0));
    assert!(Cell::Quantum(None).bomb_count().contains(&1));
    assert!(!Cell::Concrete(true).bomb_count().contains(&0));
    assert!(!Cell::Discovered(Some(3)).bomb_count().contains(&1));
}

#[test]
fn is_bomb_treats_open_cells_as_bombs() {
    assert!(Cell::Quantum(None).is_bomb());
    assert!(Cell::Quantum(Some(true)).is_bomb());
    assert!(Cell::Concrete(true).is_bomb());
    assert!(!Cell::Quantum(Some(false)).is_bomb());
    assert!(!Cell::Concrete(false).is_bomb());
    assert!(!Cell::Discovered(None).is_bomb());
    assert!(!Cell::Discovered(Some(8)).is_bomb());
}
