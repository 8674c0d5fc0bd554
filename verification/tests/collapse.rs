use bastard_minesweeper::collapse::{CollapseReport, Selection};
use bastard_minesweeper::{Board, Cell};

fn mines_and_open(board: &Board) -> (usize, usize) {
    let mut mines = 0;
    let mut open = 0;
    for (x, y) in board.points() {
        match board.get(x, y) {
            Some(Cell::Quantum(Some(true))) | Some(Cell::Concrete(true)) => mines += 1,
            Some(Cell::Quantum(None)) => open += 1,
            _ => {}
        }
    }
    (mines, open)
}

#[test]
fn one_by_one_board_without_mines_has_nothing_to_resolve() {
    let mut board = Board::new(1, 1);
    board.collapse(0, None);
    assert_eq!(board.get(0, 0), Some(Cell::Quantum(None)));
    let mut revealed = Board::new(1, 1);
    revealed.set(0, 0, Cell::Discovered(None));
    revealed.collapse(0, None);
    assert_eq!(revealed.get(0, 0), Some(Cell::Discovered(None)));
}

#[test]
fn without_mines_left_every_candidate_becomes_safe() {
    let mut board = Board::new(3, 3);
    board.set(1, 1, Cell::Discovered(None));
    board.collapse(0, None);
    for (x, y) in board.points() {
        if (x, y) != (1, 1) {
            assert_eq!(board.get(x, y), Some(Cell::Quantum(Some(false))));
        }
    }
    assert_eq!(board.get(1, 1), Some(Cell::Discovered(None)));
}

#[test]
fn mines_on_the_board_use_up_the_budget() {
    let mut board = Board::new(3, 1);
    board.set(0, 0, Cell::Concrete(true));
    board.set(1, 0, Cell::Discovered(None));
    board.collapse(1, None);
    assert_eq!(board.get(0, 0), Some(Cell::Concrete(true)));
    assert_eq!(board.get(2, 0), Some(Cell::Quantum(Some(false))));
}

#[test]
fn clue_zero_commits_its_neighbor_safe() {
    for max_bombs in [1, 2, 7] {
        let mut board = Board::new(2, 1);
        board.set(0, 0, Cell::Discovered(Some(0)));
        assert!(!board.assignment_is_legal(1, 0, true));
        board.collapse(max_bombs, None);
        assert_eq!(board.get(1, 0), Some(Cell::Quantum(Some(false))));
        assert_eq!(board.get(0, 0), Some(Cell::Discovered(Some(0))));
    }
}

#[test]
fn clue_one_with_two_neighbors_gets_exactly_one_mine() {
    for max_bombs in [1, 3] {
        let mut board = Board::new(3, 1);
        board.set(1, 0, Cell::Discovered(Some(1)));
        board.collapse(max_bombs, None);
        let left = board.get(0, 0);
        let right = board.get(2, 0);
        let one_mine = (left == Some(Cell::Quantum(Some(true)))
            && right == Some(Cell::Quantum(Some(false))))
            || (left == Some(Cell::Quantum(Some(false)))
                && right == Some(Cell::Quantum(Some(true))));
        assert!(one_mine);
        let r = board.count_neighboring_bombs(1, 0);
        assert_eq!((*r.start(), *r.end()), (1, 1));
    }
}

#[test]
fn squares_away_from_revealed_ones_stay_open() {
    let mut board = Board::new(4, 1);
    board.set(0, 0, Cell::Discovered(Some(0)));
    board.collapse(3, None);
    assert_eq!(board.get(1, 0), Some(Cell::Quantum(Some(false))));
    assert_eq!(board.get(2, 0), Some(Cell::Quantum(None)));
    assert_eq!(board.get(3, 0), Some(Cell::Quantum(None)));
}

#[test]
fn squares_outside_the_window_stay_as_they_are() {
    let mut board = Board::new(3, 1);
    board.set(1, 0, Cell::Discovered(Some(1)));
    board.collapse(2, Some((0, 0)..(1, 1)));
    assert!(matches!(board.get(0, 0), Some(Cell::Quantum(Some(_)))));
    assert_eq!(board.get(2, 0), Some(Cell::Quantum(None)));
}

#[test]
fn an_empty_window_changes_nothing() {
    let mut board = Board::new(3, 1);
    board.set(1, 0, Cell::Discovered(Some(1)));
    board.collapse(2, Some((2, 0)..(2, 1)));
    assert_eq!(board.get(0, 0), Some(Cell::Quantum(None)));
    assert_eq!(board.get(2, 0), Some(Cell::Quantum(None)));
}

#[test]
fn a_forced_value_is_not_searched_again() {
    let mut board = Board::new(3, 1);
    board.set(0, 0, Cell::Quantum(Some(true)));
    board.set(1, 0, Cell::Discovered(Some(1)));
    board.set(2, 0, Cell::Quantum(Some(false)));
    assert!(board.find_candidates(&((0, 0)..(3, 1))).is_empty());
    board.collapse(4, None);
    assert_eq!(board.get(0, 0), Some(Cell::Quantum(Some(true))));
    assert_eq!(board.get(2, 0), Some(Cell::Quantum(Some(false))));
}

#[test]
fn a_committed_value_that_could_be_otherwise_is_a_candidate() {
    let mut board = Board::new(3, 1);
    board.set(0, 0, Cell::Quantum(Some(true)));
    board.set(1, 0, Cell::Discovered(Some(1)));
    assert_eq!(board.find_candidates(&((0, 0)..(3, 1))), vec![(0, 0), (2, 0)]);
    board.set(1, 0, Cell::Discovered(None));
    board.set(2, 0, Cell::Quantum(Some(false)));
    assert_eq!(board.find_candidates(&((0, 0)..(3, 1))), vec![(0, 0), (2, 0)]);
}

#[test]
fn concrete_squares_are_no_candidates() {
    let mut board = Board::new(3, 1);
    board.set(0, 0, Cell::Concrete(false));
    board.set(1, 0, Cell::Discovered(None));
    board.set(2, 0, Cell::Concrete(true));
    assert!(board.find_candidates(&((0, 0)..(3, 1))).is_empty());
    board.collapse(5, None);
    assert_eq!(board.get(0, 0), Some(Cell::Concrete(false)));
    assert_eq!(board.get(2, 0), Some(Cell::Concrete(true)));
}

#[test]
fn collapse_never_exceeds_the_mine_budget() {
    for max_bombs in 0..6 {
        let mut board = Board::new(4, 4);
        board.set(1, 1, Cell::Discovered(None));
        board.set(2, 2, Cell::Discovered(None));
        board.collapse(max_bombs, None);
        let (mines, _) = mines_and_open(&board);
        assert!(mines <= max_bombs);
        assert_eq!(board.count_mines(), mines);
    }
}

#[test]
fn collapse_then_fill_leaves_consistent_clues() {
    let mut board = Board::new(3, 3);
    board.set(1, 1, Cell::Discovered(None));
    board.collapse(3, None);
    let (mines, open) = mines_and_open(&board);
    assert_eq!(open, 0);
    assert!(mines <= 3);
    assert!(board.discovered_exact());
    board.fill_discovered();
    assert_eq!(board.get(1, 1), Some(Cell::Discovered(Some(mines as u8))));
}

#[test]
fn repeated_collapse_keeps_revealed_clues() {
    let mut board = Board::new(5, 1);
    board.set(2, 0, Cell::Discovered(Some(1)));
    board.collapse(2, None);
    let r = board.count_neighboring_bombs(2, 0);
    assert_eq!((*r.start(), *r.end()), (1, 1));
    board.collapse(2, None);
    let r = board.count_neighboring_bombs(2, 0);
    assert_eq!((*r.start(), *r.end()), (1, 1));
    let (mines, _) = mines_and_open(&board);
    assert_eq!(mines, 1);
}

#[test]
fn opened_reopens_one_value_only() {
    let mut board = Board::new(4, 1);
    board.set(0, 0, Cell::Quantum(Some(true)));
    board.set(1, 0, Cell::Quantum(Some(false)));
    board.set(2, 0, Cell::Concrete(true));
    let mines_open = board.opened(true);
    assert_eq!(mines_open.get(0, 0), Some(Cell::Quantum(None)));
    assert_eq!(mines_open.get(1, 0), Some(Cell::Quantum(Some(false))));
    assert_eq!(mines_open.get(2, 0), Some(Cell::Concrete(true)));
    let safes_open = board.opened(false);
    assert_eq!(safes_open.get(0, 0), Some(Cell::Quantum(Some(true))));
    assert_eq!(safes_open.get(1, 0), Some(Cell::Quantum(None)));
    assert_eq!(board.get(0, 0), Some(Cell::Quantum(Some(true))));
}

#[test]
fn paint_replaces_the_listed_squares() {
    let mut board = Board::new(2, 2);
    board.paint(&vec![(0, 1), (1, 0), (0, 1)], Cell::Quantum(Some(false)));
    assert_eq!(board.get(0, 1), Some(Cell::Quantum(Some(false))));
    assert_eq!(board.get(1, 0), Some(Cell::Quantum(Some(false))));
    assert_eq!(board.get(0, 0), Some(Cell::Quantum(None)));
    assert_eq!(board.get(1, 1), Some(Cell::Quantum(None)));
}

#[test]
fn select_modal_commits_one_of_the_states() {
    let mut board = Board::new(3, 1);
    board.set(1, 0, Cell::Discovered(None));
    let cells = vec![(0, 0), (2, 0)];
    let states = vec![vec![true, false], vec![false, true], vec![false, false]];
    board.select_modal(&cells, &states);
    let got = vec![board.get(0, 0), board.get(2, 0)];
    let as_cells = |s: &Vec<bool>| -> Vec<Option<Cell>> {
        s.iter().map(|b| Some(Cell::Quantum(Some(*b)))).collect()
    };
    assert!(states.iter().any(|s| as_cells(s) == got));
}

#[test]
fn select_modal_with_one_state_commits_it() {
    let mut board = Board::new(2, 1);
    board.set(0, 0, Cell::Discovered(None));
    board.select_modal(&vec![(1, 0)], &vec![vec![true]]);
    assert_eq!(board.get(1, 0), Some(Cell::Quantum(Some(true))));
}

#[test]
fn select_modal_without_states_changes_nothing() {
    let mut board = Board::new(2, 1);
    board.select_modal(&vec![(1, 0)], &vec![]);
    assert_eq!(board.get(1, 0), Some(Cell::Quantum(None)));
}

fn pending_between_two_open() -> (Board, Vec<(usize, usize)>, Vec<Vec<bool>>) {
    let mut board = Board::new(3, 1);
    board.set(1, 0, Cell::Discovered(None));
    let cells = vec![(0, 0), (2, 0)];
    let states = vec![vec![true, false], vec![false, true], vec![false, false]];
    (board, cells, states)
}

fn committed(board: &Board) -> Vec<Option<Cell>> {
    vec![board.get(0, 0), board.get(2, 0)]
}

fn as_cells(state: &[bool]) -> Vec<Option<Cell>> {
    state.iter().map(|b| Some(Cell::Quantum(Some(*b)))).collect()
}

#[test]
fn select_from_commits_the_pattern_that_came_most_often() {
    let (mut board, cells, states) = pending_between_two_open();
    board.select_from(&cells, &states, &vec![2, 0, 1]);
    assert_eq!(committed(&board), as_cells(&[true, false]));
    assert_eq!(board.get(1, 0), Some(Cell::Discovered(None)));
}

#[test]
fn select_from_keeps_the_first_assignment_of_a_pattern() {
    let (mut board, cells, states) = pending_between_two_open();
    board.select_from(&cells, &states, &vec![1, 0]);
    assert_eq!(committed(&board), as_cells(&[false, true]));
    let (mut board, cells, states) = pending_between_two_open();
    board.select_from(&cells, &states, &vec![0, 1, 1]);
    assert_eq!(committed(&board), as_cells(&[true, false]));
}

#[test]
fn select_from_breaks_ties_by_the_later_assignment() {
    let (mut board, cells, states) = pending_between_two_open();
    board.select_from(&cells, &states, &vec![2, 2, 0, 1]);
    assert_eq!(committed(&board), as_cells(&[true, false]));
    let (mut board, cells, states) = pending_between_two_open();
    board.select_from(&cells, &states, &vec![1, 2]);
    assert_eq!(committed(&board), as_cells(&[false, true]));
}

#[test]
fn select_from_with_one_sample_commits_it() {
    for draw in 0..3 {
        let (mut board, cells, states) = pending_between_two_open();
        board.select_from(&cells, &states, &vec![draw]);
        assert_eq!(committed(&board), as_cells(&states[draw]));
    }
}

#[test]
fn select_from_without_samples_changes_nothing() {
    let (mut board, cells, states) = pending_between_two_open();
    board.select_from(&cells, &states, &vec![]);
    assert_eq!(committed(&board), vec![Some(Cell::Quantum(None)), Some(Cell::Quantum(None))]);
}

#[test]
fn select_from_may_count_one_assignment_many_times() {
    let (mut board, cells, states) = pending_between_two_open();
    board.select_from(&cells, &states, &vec![2, 1, 2, 2, 0, 2]);
    assert_eq!(committed(&board), as_cells(&[false, false]));
}

#[test]
fn select_modal_always_commits_one_of_the_states() {
    for _ in 0..20 {
        let (mut board, cells, states) = pending_between_two_open();
        board.select_modal(&cells, &states);
        let got = committed(&board);
        assert!(states.iter().any(|s| as_cells(s) == got));
    }
}

#[test]
fn a_column_with_clue_zero_commits_its_neighbor_safe() {
    let mut board = Board::new(1, 2);
    board.set(0, 0, Cell::Discovered(Some(0)));
    board.collapse(1, None);
    assert_eq!(board.get(0, 1), Some(Cell::Quantum(Some(false))));
    assert_eq!(board.get(0, 0), Some(Cell::Discovered(Some(0))));
}

#[test]
fn a_column_with_clue_one_gets_exactly_one_mine() {
    let mut board = Board::new(1, 3);
    board.set(0, 1, Cell::Discovered(Some(1)));
    board.collapse(1, None);
    let got = (board.get(0, 0), board.get(0, 2));
    let mine = Some(Cell::Quantum(Some(true)));
    let safe = Some(Cell::Quantum(Some(false)));
    assert!(got == (mine, safe) || got == (safe, mine));
    assert_eq!(board.get(0, 1), Some(Cell::Discovered(Some(1))));
}

#[test]
fn two_clues_in_a_column_force_both_squares() {
    let mut board = Board::new(1, 4);
    board.set(0, 1, Cell::Discovered(Some(1)));
    board.set(0, 3, Cell::Discovered(Some(0)));
    board.collapse(1, None);
    assert_eq!(board.get(0, 0), Some(Cell::Quantum(Some(true))));
    assert_eq!(board.get(0, 2), Some(Cell::Quantum(Some(false))));
    assert_eq!(board.get(0, 1), Some(Cell::Discovered(Some(1))));
    assert_eq!(board.get(0, 3), Some(Cell::Discovered(Some(0))));
}

#[test]
fn a_window_commits_inside_and_leaves_outside_open() {
    let mut board = Board::new(1, 3);
    board.set(0, 1, Cell::Discovered(Some(0)));
    board.collapse(1, Some((0, 0)..(1, 1)));
    assert_eq!(board.get(0, 0), Some(Cell::Quantum(Some(false))));
    assert_eq!(board.get(0, 2), Some(Cell::Quantum(None)));
}

#[test]
fn select_from_reports_what_it_counted() {
    let (mut board, cells, states) = pending_between_two_open();
    let counts = board.select_from(&cells, &states, &vec![2, 0, 1, 2]);
    assert_eq!(counts, Selection { patterns: 2, samples: 2 });
    assert_eq!(committed(&board), as_cells(&[true, false]));
    let (mut board, cells, states) = pending_between_two_open();
    assert_eq!(
        board.select_from(&cells, &states, &vec![]),
        Selection { patterns: 0, samples: 0 }
    );
    let (mut board, cells, states) = pending_between_two_open();
    assert_eq!(
        board.select_from(&cells, &states, &vec![1, 1, 0]),
        Selection { patterns: 1, samples: 3 }
    );
}

#[test]
fn select_modal_reports_what_it_counted() {
    let (mut board, cells, _) = pending_between_two_open();
    let counts = board.select_modal(&cells, &vec![vec![false, true]]);
    assert_eq!(counts, Selection { patterns: 1, samples: 1 });
    assert_eq!(committed(&board), as_cells(&[false, true]));
    assert_eq!(
        board.select_modal(&cells, &vec![]),
        Selection { patterns: 0, samples: 0 }
    );
}

#[test]
fn collapse_and_report_tells_what_was_found() {
    let mut board = Board::new(3, 1);
    board.set(1, 0, Cell::Discovered(Some(1)));
    let report = board.collapse_and_report(5, None);
    assert_eq!((report.candidates, report.budget, report.states), (2, 5, 2));
    assert_eq!(report.selection.patterns, 1);
    assert!(report.selection.samples >= 1 && report.selection.samples <= 2);
    let mut empty = Board::new(2, 2);
    assert_eq!(
        empty.collapse_and_report(3, None),
        CollapseReport {
            candidates: 0,
            budget: 3,
            states: 0,
            selection: Selection { patterns: 0, samples: 0 }
        }
    );
    let mut spent = Board::new(3, 1);
    spent.set(1, 0, Cell::Discovered(None));
    assert_eq!(
        spent.collapse_and_report(0, None),
        CollapseReport {
            candidates: 2,
            budget: 0,
            states: 0,
            selection: Selection { patterns: 0, samples: 0 }
        }
    );
}
