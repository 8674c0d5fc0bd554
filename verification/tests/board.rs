use bastard_minesweeper::{Board, Cell};

fn bounds(board: &Board, x: usize, y: usize) -> (u8, u8) {
    let r = board.count_neighboring_bombs(x, y);
    (*r.start(), *r.end())
}

#[test]
fn new_board_is_all_open() {
    let board = Board::new(3, 2);
    assert_eq!(board.dim(), (3, 2));
    for (x, y) in board.points() {
        assert_eq!(board.get(x, y), Some(Cell::Quantum(None)));
    }
    assert_eq!(board.get(3, 0), None);
    assert_eq!(board.get(0, 2), None);
}

#[test]
fn empty_boards_have_no_points() {
    assert_eq!(Board::new(0, 0).points(), vec![]);
    assert_eq!(Board::new(0, 4).dim(), (0, 4));
    assert_eq!(Board::new(0, 4).points(), vec![]);
    assert_eq!(Board::new(4, 0).points(), vec![]);
}

#[test]
fn points_run_by_column_then_row() {
    let board = Board::new(2, 3);
    assert_eq!(board.points(), vec![(0, 0), (0, 1), (0, 2), (1, 0), (1, 1), (1, 2)]);
}

#[test]
fn set_changes_one_cell_only() {
    let mut board = Board::new(2, 2);
    board.set(1, 0, Cell::Concrete(true));
    assert_eq!(board.get(1, 0), Some(Cell::Concrete(true)));
    assert_eq!(board.get(0, 0), Some(Cell::Quantum(None)));
    assert_eq!(board.get(0, 1), Some(Cell::Quantum(None)));
    assert_eq!(board.get(1, 1), Some(Cell::Quantum(None)));
    assert_eq!(board.dim(), (2, 2));
}

#[test]
fn clone_is_independent_of_its_source() {
    let mut board = Board::new(2, 1);
    board.set(0, 0, Cell::Concrete(true));
    let copy = board.clone();
    board.set(1, 0, Cell::Discovered(Some(1)));
    assert_eq!(copy.dim(), (2, 1));
    assert_eq!(copy.get(0, 0), Some(Cell::Concrete(true)));
    assert_eq!(copy.get(1, 0), Some(Cell::Quantum(None)));
    assert_eq!(board.get(1, 0), Some(Cell::Discovered(Some(1))));
}

#[test]
fn neighbors_of_the_centre_come_in_order() {
    let mut board = Board::new(3, 3);
    board.set(0, 1, Cell::Concrete(true));
    let ns = board.neighbors(1, 1);
    let places: Vec<(usize, usize)> = ns.iter().map(|n| (n.0, n.1)).collect();
    assert_eq!(places, vec![(0, 0), (0, 1), (0, 2), (1, 0), (1, 2), (2, 0), (2, 1), (2, 2)]);
    assert_eq!(ns[1].2, Cell::Concrete(true));
    assert_eq!(ns[0].2, Cell::Quantum(None));
}

#[test]
fn neighbors_are_clipped_at_the_edges() {
    let board = Board::new(3, 2);
    let corner: Vec<(usize, usize)> = board.neighbors(0, 0).iter().map(|n| (n.0, n.1)).collect();
    assert_eq!(corner, vec![(0, 1), (1, 0), (1, 1)]);
    let far: Vec<(usize, usize)> = board.neighbors(2, 1).iter().map(|n| (n.0, n.1)).collect();
    assert_eq!(far, vec![(1, 0), (1, 1), (2, 0)]);
    let edge: Vec<(usize, usize)> = board.neighbors(1, 0).iter().map(|n| (n.0, n.1)).collect();
    assert_eq!(edge, vec![(0, 0), (0, 1), (1, 1), (2, 0), (2, 1)]);
}

#[test]
fn neighbors_of_a_place_outside_touch_the_board_edge() {
    let board = Board::new(2, 2);
    let outside: Vec<(usize, usize)> = board.neighbors(2, 0).iter().map(|n| (n.0, n.1)).collect();
    assert_eq!(outside, vec![(1, 0), (1, 1)]);
    assert!(board.neighbors(5, 5).is_empty());
    assert!(board.neighbors(usize::MAX, usize::MAX).is_empty());
}

#[test]
fn a_single_square_has_no_neighbors() {
    let board = Board::new(1, 1);
    assert!(board.neighbors(0, 0).is_empty());
    assert_eq!(bounds(&board, 0, 0), (0, 0));
}

#[test]
fn count_sums_lows_and_highs() {
    let mut board = Board::new(3, 3);
    board.set(0, 0, Cell::Concrete(true));
    board.set(0, 1, Cell::Quantum(Some(true)));
    board.set(0, 2, Cell::Quantum(Some(false)));
    board.set(1, 0, Cell::Concrete(false));
    board.set(1, 2, Cell::Discovered(Some(3)));
    board.set(2, 0, Cell::Discovered(None));
    // (2, 1) and (2, 2) stay open
    assert_eq!(bounds(&board, 1, 1), (2, 4));
}

#[test]
fn count_of_all_open_neighbors_is_zero_to_their_number() {
    let board = Board::new(3, 3);
    assert_eq!(bounds(&board, 1, 1), (0, 8));
    assert_eq!(bounds(&board, 0, 0), (0, 3));
    assert_eq!(bounds(&board, 1, 0), (0, 5));
}

#[test]
fn count_of_all_mines_is_eight() {
    let mut board = Board::new(3, 3);
    for (x, y) in board.points() {
        board.set(x, y, Cell::Concrete(true));
    }
    assert_eq!(bounds(&board, 1, 1), (8, 8));
}

#[test]
fn count_does_not_include_the_square_itself() {
    let mut board = Board::new(2, 1);
    board.set(0, 0, Cell::Concrete(true));
    assert_eq!(bounds(&board, 0, 0), (0, 1));
    assert_eq!(bounds(&board, 1, 0), (1, 1));
}

#[test]
fn clue_zero_rejects_a_mine_next_to_it() {
    let mut board = Board::new(2, 1);
    board.set(0, 0, Cell::Discovered(Some(0)));
    assert!(!board.assignment_is_legal(1, 0, true));
    assert!(board.assignment_is_legal(1, 0, false));
}

#[test]
fn clue_one_with_one_open_neighbor_forces_a_mine() {
    let mut board = Board::new(2, 1);
    board.set(0, 0, Cell::Discovered(Some(1)));
    assert!(board.assignment_is_legal(1, 0, true));
    assert!(!board.assignment_is_legal(1, 0, false));
}

#[test]
fn clue_one_with_two_open_neighbors_admits_both_values() {
    let mut board = Board::new(3, 1);
    board.set(1, 0, Cell::Discovered(Some(1)));
    assert!(board.assignment_is_legal(0, 0, true));
    assert!(board.assignment_is_legal(0, 0, false));
    board.set(0, 0, Cell::Quantum(Some(true)));
    assert!(!board.assignment_is_legal(2, 0, true));
    assert!(board.assignment_is_legal(2, 0, false));
}

#[test]
fn legality_does_not_depend_on_the_present_value() {
    let mut board = Board::new(3, 1);
    board.set(1, 0, Cell::Discovered(Some(1)));
    board.set(2, 0, Cell::Quantum(Some(false)));
    for present in [Cell::Quantum(None), Cell::Quantum(Some(true)), Cell::Quantum(Some(false))] {
        board.set(0, 0, present);
        assert!(board.assignment_is_legal(0, 0, true));
        assert!(!board.assignment_is_legal(0, 0, false));
    }
}

#[test]
fn clues_without_a_number_constrain_nothing() {
    let mut board = Board::new(2, 1);
    board.set(0, 0, Cell::Discovered(None));
    assert!(board.assignment_is_legal(1, 0, true));
    assert!(board.assignment_is_legal(1, 0, false));
}

#[test]
fn two_clues_can_rule_out_both_values() {
    let mut board = Board::new(3, 1);
    board.set(0, 0, Cell::Discovered(Some(1)));
    board.set(2, 0, Cell::Discovered(Some(0)));
    assert!(!board.assignment_is_legal(1, 0, true));
    assert!(!board.assignment_is_legal(1, 0, false));
}

#[test]
fn clear_cell_reveals_safe_squares() {
    let mut board = Board::new(2, 1);
    board.set(0, 0, Cell::Quantum(Some(false)));
    board.set(1, 0, Cell::Concrete(false));
    assert!(board.clear_cell(0, 0));
    assert!(board.clear_cell(1, 0));
    assert_eq!(board.get(0, 0), Some(Cell::Discovered(None)));
    assert_eq!(board.get(1, 0), Some(Cell::Discovered(None)));
}

#[test]
fn clear_cell_on_a_mine_signals_the_loss() {
    let mut board = Board::new(3, 1);
    board.set(0, 0, Cell::Quantum(Some(true)));
    board.set(1, 0, Cell::Concrete(true));
    assert!(!board.clear_cell(0, 0));
    assert!(!board.clear_cell(1, 0));
    assert!(!board.clear_cell(2, 0));
    assert_eq!(board.get(0, 0), Some(Cell::Quantum(Some(true))));
    assert_eq!(board.get(1, 0), Some(Cell::Concrete(true)));
    assert_eq!(board.get(2, 0), Some(Cell::Quantum(None)));
}

#[test]
fn clear_cell_keeps_a_revealed_square() {
    let mut board = Board::new(2, 1);
    board.set(0, 0, Cell::Discovered(Some(2)));
    board.set(1, 0, Cell::Discovered(None));
    assert!(board.clear_cell(0, 0));
    assert!(board.clear_cell(1, 0));
    assert_eq!(board.get(0, 0), Some(Cell::Discovered(Some(2))));
    assert_eq!(board.get(1, 0), Some(Cell::Discovered(None)));
}

fn classic_board() -> Board {
    // mines at (0, 0) and (2, 1); everything else safe
    let mut board = Board::new(3, 2);
    for (x, y) in board.points() {
        board.set(x, y, Cell::Concrete(false));
    }
    board.set(0, 0, Cell::Concrete(true));
    board.set(2, 1, Cell::Concrete(true));
    board
}

#[test]
fn find_discovered_counts_lists_pending_clues_in_order() {
    let mut board = classic_board();
    assert!(board.clear_cell(1, 1));
    assert!(board.clear_cell(0, 1));
    assert!(board.clear_cell(2, 0));
    assert_eq!(
        board.find_discovered_counts(),
        vec![((0, 1), 1), ((1, 1), 2), ((2, 0), 1)]
    );
}

#[test]
fn find_discovered_counts_skips_clues_already_filled() {
    let mut board = classic_board();
    assert!(board.clear_cell(1, 1));
    board.fill_discovered();
    assert!(board.clear_cell(1, 0));
    assert_eq!(board.find_discovered_counts(), vec![((1, 0), 2)]);
}

#[test]
fn fill_discovered_gives_each_clue_the_number_of_mines_around() {
    let mut board = classic_board();
    for (x, y) in [(0, 1), (1, 0), (1, 1), (2, 0)] {
        assert!(board.clear_cell(x, y));
    }
    assert!(board.discovered_exact());
    board.fill_discovered();
    assert_eq!(board.get(0, 1), Some(Cell::Discovered(Some(1))));
    assert_eq!(board.get(1, 0), Some(Cell::Discovered(Some(2))));
    assert_eq!(board.get(1, 1), Some(Cell::Discovered(Some(2))));
    assert_eq!(board.get(2, 0), Some(Cell::Discovered(Some(1))));
    assert_eq!(board.get(0, 0), Some(Cell::Concrete(true)));
    assert_eq!(board.get(2, 1), Some(Cell::Concrete(true)));
    assert!(board.find_discovered_counts().is_empty());
}

#[test]
fn fill_discovered_twice_changes_nothing() {
    let mut board = classic_board();
    for (x, y) in [(0, 1), (1, 0), (1, 1), (2, 0)] {
        assert!(board.clear_cell(x, y));
    }
    board.fill_discovered();
    let once: Vec<Option<Cell>> = board.points().iter().map(|p| board.get(p.0, p.1)).collect();
    assert!(board.discovered_exact());
    board.fill_discovered();
    let twice: Vec<Option<Cell>> = board.points().iter().map(|p| board.get(p.0, p.1)).collect();
    assert_eq!(once, twice);
}

#[test]
fn discovered_exact_sees_open_neighbors_and_stale_clues() {
    let mut board = Board::new(2, 1);
    board.set(0, 0, Cell::Discovered(None));
    assert!(!board.discovered_exact());
    board.set(1, 0, Cell::Quantum(Some(true)));
    assert!(board.discovered_exact());
    board.set(0, 0, Cell::Discovered(Some(0)));
    assert!(!board.discovered_exact());
    board.set(0, 0, Cell::Discovered(Some(1)));
    assert!(board.discovered_exact());
}

#[test]
fn pending_counts_give_the_least_number_of_mines() {
    let mut board = Board::new(3, 1);
    board.set(1, 0, Cell::Discovered(None));
    board.set(0, 0, Cell::Quantum(Some(true)));
    assert_eq!(board.pending_counts(), vec![((1, 0), 1)]);
}

#[test]
fn touches_discovered_looks_at_all_eight_neighbors() {
    let mut board = Board::new(3, 3);
    assert!(!board.touches_discovered(1, 1));
    board.set(2, 2, Cell::Discovered(None));
    assert!(board.touches_discovered(1, 1));
    assert!(!board.touches_discovered(0, 0));
    assert!(!board.touches_discovered(2, 2));
}

#[test]
fn count_mines_counts_committed_and_fixed_mines() {
    let mut board = Board::new(3, 2);
    assert_eq!(board.count_mines(), 0);
    board.set(0, 0, Cell::Concrete(true));
    board.set(1, 1, Cell::Quantum(Some(true)));
    board.set(2, 1, Cell::Quantum(Some(false)));
    board.set(2, 0, Cell::Discovered(Some(1)));
    assert_eq!(board.count_mines(), 2);
}
