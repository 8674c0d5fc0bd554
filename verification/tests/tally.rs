use bastard_minesweeper::order::sort_by_sum;
use bastard_minesweeper::tally::{best, best_place, precedes_in_order, record, same_pattern, Group};

#[test]
fn same_pattern_compares_every_entry() {
    let a = vec![((0, 1), 2), ((3, 4), 0)];
    assert!(same_pattern(&a, &a.clone()));
    assert!(!same_pattern(&a, &vec![((0, 1), 2)]));
    assert!(!same_pattern(&a, &vec![((0, 1), 2), ((3, 4), 1)]));
    assert!(!same_pattern(&a, &vec![((0, 1), 2), ((4, 3), 0)]));
    assert!(same_pattern(&vec![], &vec![]));
}

#[test]
fn precedes_in_order_is_the_order_of_the_dictionary() {
    assert!(precedes_in_order(&vec![false, true], &vec![true, false]));
    assert!(!precedes_in_order(&vec![true, false], &vec![false, true]));
    assert!(precedes_in_order(&vec![true], &vec![true, false]));
    assert!(!precedes_in_order(&vec![true, false], &vec![true]));
    assert!(!precedes_in_order(&vec![true, false], &vec![true, false]));
    assert!(precedes_in_order(&vec![], &vec![false]));
    assert!(!precedes_in_order(&vec![], &vec![]));
    for (a, b) in [
        (vec![false, true], vec![true, false]),
        (vec![true], vec![true, false]),
        (vec![true, true], vec![true, true]),
    ] {
        assert_eq!(precedes_in_order(&a, &b), a < b);
        assert_eq!(precedes_in_order(&b, &a), b < a);
    }
}

#[test]
fn record_counts_samples_by_pattern() {
    let mut groups: Vec<Group> = Vec::new();
    record(&mut groups, vec![((0, 0), 1)], 4);
    record(&mut groups, vec![((0, 0), 2)], 2);
    record(&mut groups, vec![((0, 0), 1)], 7);
    record(&mut groups, vec![((0, 0), 1)], 4);
    assert_eq!(groups.len(), 2);
    assert_eq!(groups[0].key, vec![((0, 0), 1)]);
    assert_eq!((groups[0].count, groups[0].state), (3, 4));
    assert_eq!(groups[1].key, vec![((0, 0), 2)]);
    assert_eq!((groups[1].count, groups[1].state), (1, 2));
}

#[test]
fn best_takes_the_pattern_that_came_most_often() {
    let states = vec![vec![true, false], vec![false, true], vec![false, false]];
    let mut groups: Vec<Group> = Vec::new();
    for (pattern, state) in [(1, 0), (2, 2), (2, 2), (1, 1), (2, 2)] {
        record(&mut groups, vec![((1, 1), pattern)], state);
    }
    assert_eq!(best(&groups, &states), Some(2));
}

#[test]
fn best_breaks_ties_by_the_later_assignment() {
    let states = vec![vec![false, true], vec![true, false], vec![false, false]];
    let mut groups: Vec<Group> = Vec::new();
    record(&mut groups, vec![((1, 1), 0)], 2);
    record(&mut groups, vec![((1, 1), 1)], 1);
    record(&mut groups, vec![((1, 1), 2)], 0);
    assert_eq!(best(&groups, &states), Some(1));
    let mut other_way: Vec<Group> = Vec::new();
    record(&mut other_way, vec![((1, 1), 1)], 1);
    record(&mut other_way, vec![((1, 1), 2)], 0);
    record(&mut other_way, vec![((1, 1), 0)], 2);
    assert_eq!(best(&other_way, &states), Some(1));
}

#[test]
fn best_of_nothing_is_nothing() {
    assert_eq!(best(&Vec::new(), &vec![vec![true]]), None);
}

#[test]
fn sort_by_sum_orders_by_the_sum_of_the_coordinates() {
    let cells = vec![(2, 2), (0, 1), (3, 0), (0, 0), (1, 0), (1, 2), (0, 3)];
    assert_eq!(
        sort_by_sum(&cells),
        vec![(0, 0), (0, 1), (1, 0), (3, 0), (1, 2), (0, 3), (2, 2)]
    );
}

#[test]
fn sort_by_sum_agrees_with_the_stable_sort_of_the_standard_library() {
    let cells: Vec<(usize, usize)> =
        (0..40).map(|i| ((i * 7) % 5, (i * 11) % 6)).collect();
    let mut expected = cells.clone();
    expected.sort_by_key(|(x, y)| x + y);
    assert_eq!(sort_by_sum(&cells), expected);
    assert_eq!(sort_by_sum(&vec![]), vec![]);
}

#[test]
fn sort_by_sum_does_not_overflow_on_large_coordinates() {
    let cells = vec![(usize::MAX, usize::MAX), (usize::MAX, 0), (0, 0)];
    assert_eq!(sort_by_sum(&cells), vec![(0, 0), (usize::MAX, 0), (usize::MAX, usize::MAX)]);
}

#[test]
fn best_place_is_the_place_of_the_chosen_group() {
    let states = vec![vec![false, true], vec![true, false], vec![false, false]];
    let mut groups: Vec<Group> = Vec::new();
    assert_eq!(best_place(&groups, &states), None);
    record(&mut groups, vec![((1, 1), 0)], 2);
    record(&mut groups, vec![((1, 1), 1)], 1);
    record(&mut groups, vec![((1, 1), 2)], 0);
    assert_eq!(best_place(&groups, &states), Some(1));
    record(&mut groups, vec![((1, 1), 0)], 0);
    assert_eq!(best_place(&groups, &states), Some(0));
    assert_eq!(best(&groups, &states), Some(2));
}
