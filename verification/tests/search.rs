use std::sync::Arc;

use bastard_minesweeper::path::{extend, materialize, Cons};
use bastard_minesweeper::{Board, Cell};

#[test]
fn materialize_gives_the_choices_in_the_order_made() {
    let list = extend(extend(extend(Arc::new(Cons::Empty), true), false), false);
    assert_eq!(materialize(&list), vec![true, false, false]);
    assert_eq!(materialize(&Arc::new(Cons::Empty)), Vec::<bool>::new());
}

#[test]
fn histories_share_their_common_part() {
    let root = extend(Arc::new(Cons::Empty), true);
    let left = extend(Arc::clone(&root), true);
    let right = extend(Arc::clone(&root), false);
    assert_eq!(materialize(&left), vec![true, true]);
    assert_eq!(materialize(&right), vec![true, false]);
    assert_eq!(Arc::strong_count(&root), 3);
}

#[test]
fn two_open_neighbors_of_a_one_give_two_assignments() {
    let mut board = Board::new(3, 1);
    board.set(1, 0, Cell::Discovered(Some(1)));
    let cells = vec![(0, 0), (2, 0)];
    for budget in [1, 2, 10] {
        let states = board.enumerate(&cells, budget);
        assert_eq!(states, vec![vec![true, false], vec![false, true]]);
    }
}

#[test]
fn enumerate_leaves_the_board_as_it_was() {
    let mut board = Board::new(3, 1);
    board.set(1, 0, Cell::Discovered(Some(1)));
    let _ = board.enumerate(&vec![(0, 0), (2, 0)], 2);
    assert_eq!(board.get(0, 0), Some(Cell::Quantum(None)));
    assert_eq!(board.get(2, 0), Some(Cell::Quantum(None)));
}

#[test]
fn without_a_budget_only_safe_squares_are_tried() {
    let mut board = Board::new(3, 1);
    board.set(1, 0, Cell::Discovered(Some(1)));
    assert!(board.enumerate(&vec![(0, 0), (2, 0)], 0).is_empty());
    board.set(1, 0, Cell::Discovered(Some(0)));
    assert_eq!(board.enumerate(&vec![(0, 0), (2, 0)], 0), vec![vec![false, false]]);
}

#[test]
fn the_budget_bounds_the_mines_of_every_assignment() {
    let board = Board::new(3, 1);
    let cells = vec![(0, 0), (1, 0), (2, 0)];
    let states = board.enumerate(&cells, 1);
    assert_eq!(
        states,
        vec![
            vec![true, false, false],
            vec![false, true, false],
            vec![false, false, true],
            vec![false, false, false],
        ]
    );
}

#[test]
fn no_squares_give_no_assignment() {
    let board = Board::new(2, 2);
    assert!(board.enumerate(&vec![], 3).is_empty());
}

#[test]
fn a_forced_square_makes_no_fork() {
    let mut board = Board::new(2, 1);
    board.set(0, 0, Cell::Discovered(Some(1)));
    assert_eq!(board.enumerate(&vec![(1, 0)], 1), vec![vec![true]]);
    board.set(0, 0, Cell::Discovered(Some(0)));
    assert_eq!(board.enumerate(&vec![(1, 0)], 1), vec![vec![false]]);
}

#[test]
fn an_unsatisfiable_clue_kills_every_branch() {
    let mut board = Board::new(2, 1);
    board.set(0, 0, Cell::Discovered(Some(2)));
    assert!(board.enumerate(&vec![(1, 0)], 5).is_empty());
}

#[test]
fn eight_free_squares_give_every_assignment_mines_first() {
    let board = Board::new(3, 3);
    let cells: Vec<(usize, usize)> = board.points().into_iter().take(8).collect();
    let states = board.enumerate(&cells, 8);
    assert_eq!(states.len(), 256);
    for (i, state) in states.iter().enumerate() {
        let expected: Vec<bool> = (0..8).map(|bit| (i >> (7 - bit)) & 1 == 0).collect();
        assert_eq!(state, &expected);
    }
}

#[test]
fn every_assignment_found_keeps_the_clues() {
    let mut board = Board::new(3, 3);
    board.set(1, 1, Cell::Discovered(Some(3)));
    let cells: Vec<(usize, usize)> =
        board.points().into_iter().filter(|p| *p != (1, 1)).collect();
    let states = board.enumerate(&cells, 8);
    assert_eq!(states.len(), 56);
    for state in &states {
        let mut trial = board.clone();
        trial.assign(&cells, state);
        let r = trial.count_neighboring_bombs(1, 1);
        assert_eq!((*r.start(), *r.end()), (3, 3));
        assert_eq!(trial.count_mines(), 3);
    }
}

#[test]
fn collapse_inner_returns_whole_histories() {
    let mut board = Board::new(3, 1);
    board.set(1, 0, Cell::Discovered(Some(1)));
    let cells = vec![(0, 0), (2, 0)];
    let start = extend(Arc::new(Cons::Empty), false);
    let found = board.clone().collapse_inner(start, 0, &cells, 1, 1);
    let lists: Vec<Vec<bool>> = found.iter().map(materialize).collect();
    assert_eq!(lists, vec![vec![false, true], vec![false, false]]);
}

#[test]
fn assign_commits_values_in_order() {
    let mut board = Board::new(2, 2);
    board.assign(&vec![(0, 0), (1, 1), (0, 1)], &vec![true, false]);
    assert_eq!(board.get(0, 0), Some(Cell::Quantum(Some(true))));
    assert_eq!(board.get(1, 1), Some(Cell::Quantum(Some(false))));
    assert_eq!(board.get(0, 1), Some(Cell::Quantum(None)));
    assert_eq!(board.get(1, 0), Some(Cell::Quantum(None)));
}
