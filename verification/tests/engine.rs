use collesort::driver::{first_solution, solve};
use collesort::error::ErrorKind;
use collesort::greedy::{greedy_partition, greedy_upper_bound};
use collesort::input::prepare_input;
use collesort::layout::arrange;
use collesort::search::{groups, lex_less, SearchCursor};
use collesort::solution::Solution;

fn drain(cursor: &mut SearchCursor) -> Vec<(Vec<usize>, u128)> {
    let mut all = Vec::new();
    while let Some(s) = cursor.next() {
        all.push((s.assignment.clone(), s.amplitude));
    }
    all
}

#[test]
fn working_input_is_sorted_and_remembers_positions() {
    let raw = vec![3, 9, 3, -2, 9];
    let input = prepare_input(&raw, 5).unwrap();
    assert_eq!(input.values(), &vec![9, 9, 3, 3, -2]);
    assert_eq!(input.origin(), &vec![1, 4, 0, 2, 3]);
    assert_eq!(input.len(), 5);
}

#[test]
fn working_input_rejects_wrong_sizes() {
    assert!(matches!(prepare_input(&vec![1, 2, 3], 4), Err(ErrorKind::SizeMismatch)));
    assert!(matches!(prepare_input(&vec![1], 1), Err(ErrorKind::SizeMismatch)));
    assert!(matches!(prepare_input(&vec![], 0), Err(ErrorKind::SizeMismatch)));
    let long: Vec<i64> = (0..25).collect();
    assert!(matches!(prepare_input(&long, 25), Err(ErrorKind::SizeMismatch)));
    let most: Vec<i64> = (0..24).collect();
    assert!(prepare_input(&most, 24).is_ok());
    assert!(prepare_input(&vec![1, 2], 2).is_ok());
}

#[test]
fn greedy_fills_the_lightest_open_group() {
    let input = prepare_input(&vec![1, 2, 3, 4], 4).unwrap();
    let s = greedy_partition(&input, 2);
    assert_eq!(s.assignment, vec![0, 1, 1, 0]);
    assert_eq!(s.amplitude, 0);
    assert_eq!(greedy_upper_bound(&input, 2), 0);
}

#[test]
fn greedy_respects_group_capacity() {
    let input = prepare_input(&vec![1, 1, 1, 10], 4).unwrap();
    let s = greedy_partition(&input, 2);
    assert_eq!(s.assignment, vec![0, 1, 1, 0]);
    assert_eq!(s.amplitude, 9);
}

#[test]
fn greedy_need_not_be_optimal_and_search_is_never_worse() {
    let input = prepare_input(&vec![10, 9, 8, 7, 6, 2], 6).unwrap();
    let greedy = greedy_partition(&input, 2);
    assert_eq!(greedy.assignment, vec![0, 1, 1, 0, 0, 1]);
    assert_eq!(greedy.amplitude, 4);
    let best = solve(&input, 2).unwrap();
    assert_eq!(best.assignment, vec![0, 0, 1, 1, 1, 0]);
    assert_eq!(best.amplitude, 0);
    assert!(best.amplitude <= greedy.amplitude);
    assert!(best.is_better_than(&greedy));
    assert!(!greedy.is_better_than(&best));
}

#[test]
fn greedy_with_one_group_takes_everything() {
    let input = prepare_input(&vec![5, -5, 7], 3).unwrap();
    let s = greedy_partition(&input, 1);
    assert_eq!(s.assignment, vec![0, 0, 0]);
    assert_eq!(s.amplitude, 0);
}

#[test]
fn cursor_hands_out_assignments_by_amplitude() {
    let input = prepare_input(&vec![1, 2, 3, 4], 4).unwrap();
    let mut cursor = SearchCursor::new(&input, 2, u128::MAX);
    let all = drain(&mut cursor);
    assert_eq!(
        all,
        vec![(vec![0, 1, 1, 0], 0), (vec![0, 1, 0, 1], 2), (vec![0, 0, 1, 1], 4)]
    );
    assert!(cursor.next().is_none());
}

#[test]
fn cursor_breaks_ties_in_lexicographic_order() {
    let input = prepare_input(&vec![1, 1, 1, 1], 4).unwrap();
    let mut cursor = SearchCursor::new(&input, 2, 0);
    let all = drain(&mut cursor);
    assert_eq!(
        all,
        vec![(vec![0, 0, 1, 1], 0), (vec![0, 1, 0, 1], 0), (vec![0, 1, 1, 0], 0)]
    );
}

#[test]
fn cursor_respects_its_bound() {
    let input = prepare_input(&vec![1, 2, 3, 4], 4).unwrap();
    let mut cursor = SearchCursor::new(&input, 2, 2);
    let all = drain(&mut cursor);
    assert_eq!(all, vec![(vec![0, 1, 1, 0], 0), (vec![0, 1, 0, 1], 2)]);
}

#[test]
fn cursor_visits_each_partition_once() {
    // Six values in three pairs: 6! / (2!^3 * 3!) = 15 partitions.
    let input = prepare_input(&vec![1, 2, 4, 8, 16, 32], 6).unwrap();
    let mut cursor = SearchCursor::new(&input, 3, u128::MAX);
    let all = drain(&mut cursor);
    assert_eq!(all.len(), 15);
    for pair in all.windows(2) {
        assert!(pair[0].1 <= pair[1].1);
        assert_ne!(pair[0].0, pair[1].0);
    }
    assert_eq!(all[0], (vec![0, 1, 2, 2, 1, 0], 21));
}

#[test]
fn cursor_is_empty_for_impossible_sizes() {
    let input = prepare_input(&vec![1, 2, 3, 4, 5], 5).unwrap();
    assert!(SearchCursor::new(&input, 2, u128::MAX).next().is_none());
    assert!(SearchCursor::new(&input, 0, u128::MAX).next().is_none());
    assert!(SearchCursor::new(&input, 6, u128::MAX).next().is_none());
}

#[test]
fn a_fresh_cursor_starts_over() {
    let input = prepare_input(&vec![7, 3, 5, 1], 4).unwrap();
    let first = groups(&input, 2).next().unwrap();
    let again = groups(&input, 2).next().unwrap();
    assert_eq!(first.assignment, again.assignment);
    assert_eq!(first.amplitude, again.amplitude);
    assert_eq!(first.assignment, vec![0, 1, 1, 0]);
    assert_eq!(first.amplitude, 0);
}

#[test]
fn groups_is_seeded_with_the_greedy_bound() {
    let input = prepare_input(&vec![10, 9, 8, 7, 6, 2], 6).unwrap();
    let mut cursor = groups(&input, 2);
    let all = drain(&mut cursor);
    assert!(!all.is_empty());
    assert_eq!(all[0], (vec![0, 0, 1, 1, 1, 0], 0));
    assert!(all.iter().all(|(_, amplitude)| *amplitude <= 4));
    assert_eq!(all.last().unwrap().1, 4);
}

#[test]
fn exhausted_cursor_is_no_solution() {
    let input = prepare_input(&vec![1, 1, 1, 10], 4).unwrap();
    let mut cursor = SearchCursor::new(&input, 2, 8);
    assert!(matches!(first_solution(&mut cursor), Err(ErrorKind::NoSolution)));
    let mut cursor = SearchCursor::new(&input, 2, 9);
    let s = first_solution(&mut cursor).unwrap();
    assert_eq!(s.assignment, vec![0, 0, 1, 1]);
    assert_eq!(s.amplitude, 9);
}

#[test]
fn first_solution_leaves_the_rest_to_be_taken() {
    let input = prepare_input(&vec![1, 2, 3, 4], 4).unwrap();
    let mut cursor = SearchCursor::new(&input, 2, u128::MAX);
    assert_eq!(first_solution(&mut cursor).unwrap().amplitude, 0);
    assert_eq!(first_solution(&mut cursor).unwrap().amplitude, 2);
    assert_eq!(first_solution(&mut cursor).unwrap().amplitude, 4);
    assert!(matches!(first_solution(&mut cursor), Err(ErrorKind::NoSolution)));
    assert!(matches!(first_solution(&mut cursor), Err(ErrorKind::NoSolution)));
}

#[test]
fn solve_checks_the_team_count() {
    let input = prepare_input(&vec![1, 2, 3, 4], 4).unwrap();
    assert!(matches!(solve(&input, 0), Err(ErrorKind::InvalidTeamCount)));
    assert!(matches!(solve(&input, 3), Err(ErrorKind::SizeMismatch)));
    assert!(matches!(solve(&input, 8), Err(ErrorKind::SizeMismatch)));
    assert_eq!(solve(&input, 1).unwrap().amplitude, 0);
    assert_eq!(solve(&input, 4).unwrap().amplitude, 3);
}

#[test]
fn solve_with_negative_values() {
    let input = prepare_input(&vec![-5, -1, -3, -7, 0, -8], 6).unwrap();
    assert_eq!(input.values(), &vec![0, -1, -3, -5, -7, -8]);
    let s = solve(&input, 2).unwrap();
    assert_eq!(s.assignment, vec![0, 1, 1, 0, 0, 1]);
    assert_eq!(s.amplitude, 0);
}

#[test]
fn solve_with_the_widest_values() {
    let input = prepare_input(&vec![i64::MAX, i64::MAX, i64::MIN, i64::MIN], 4).unwrap();
    let s = solve(&input, 2).unwrap();
    assert_eq!(s.assignment, vec![0, 1, 0, 1]);
    assert_eq!(s.amplitude, 0);
    let input = prepare_input(&vec![i64::MAX, i64::MAX, i64::MIN, i64::MIN], 4).unwrap();
    let mut cursor = SearchCursor::new(&input, 2, u128::MAX);
    let all = drain(&mut cursor);
    assert_eq!(all.len(), 3);
    assert_eq!(all[2].0, vec![0, 0, 1, 1]);
    assert_eq!(all[2].1, 4 * (i64::MAX as u128) + 2);
}

#[test]
fn arrange_lays_groups_out_in_order() {
    let values = vec![9, 7, 5, 3, 1, 0];
    let assignment = vec![2, 0, 1, 0, 2, 1];
    assert_eq!(arrange(&values, &assignment, 3), vec![7, 3, 5, 0, 9, 1]);
    assert_eq!(arrange(&values, &assignment, 2), vec![7, 3, 5, 0]);
    assert_eq!(arrange(&values, &assignment, 0), Vec::<i64>::new());
}

#[test]
fn lexicographic_comparison() {
    assert!(lex_less(&vec![0, 0, 1, 1], &vec![0, 1, 0, 1]));
    assert!(!lex_less(&vec![0, 1, 0, 1], &vec![0, 0, 1, 1]));
    assert!(!lex_less(&vec![0, 1, 0, 1], &vec![0, 1, 0, 1]));
    assert!(!lex_less(&vec![0, 1], &vec![0, 1, 2]));
    assert!(lex_less(&vec![0, 1, 0], &vec![0, 2]));
}

#[test]
fn solutions_compare_by_amplitude_only() {
    let a = Solution { assignment: vec![0, 1, 1, 0], amplitude: 3 };
    let b = Solution { assignment: vec![0, 0, 1, 1], amplitude: 3 };
    let c = Solution { assignment: vec![0, 1, 0, 1], amplitude: 4 };
    assert!(!a.is_better_than(&b));
    assert!(!b.is_better_than(&a));
    assert!(a.is_better_than(&c));
    assert!(!c.is_better_than(&a));
    let d = c.duplicate();
    assert_eq!(d.assignment, c.assignment);
    assert_eq!(d.amplitude, c.amplitude);
}
