use collesort::{run_collesort, run_collesort_w, run_collesort_with, ErrorKind};

fn team_sums(out: &[i64], teams: usize) -> Vec<i64> {
    let size = out.len() / teams;
    out.chunks(size).map(|team| team.iter().sum()).collect()
}

fn spread(out: &[i64], teams: usize) -> i64 {
    let sums = team_sums(out, teams);
    sums.iter().max().unwrap() - sums.iter().min().unwrap()
}

#[test]
fn four_values_two_teams_balance_exactly() {
    let out = run_collesort(vec![1, 2, 3, 4], 2).unwrap();
    assert_eq!(out, vec![4, 1, 3, 2]);
    assert_eq!(team_sums(&out, 2), vec![5, 5]);
}

#[test]
fn one_large_value_among_small_ones() {
    let out = run_collesort(vec![1, 1, 1, 10], 2).unwrap();
    assert_eq!(out, vec![10, 1, 1, 1]);
    assert_eq!(team_sums(&out, 2), vec![11, 2]);
    assert_eq!(spread(&out, 2), 9);
}

#[test]
fn length_not_divisible_is_a_size_mismatch() {
    assert_eq!(run_collesort(vec![1, 2, 3, 4, 5], 2), Err(ErrorKind::SizeMismatch));
}

#[test]
fn zero_teams_is_an_invalid_team_count() {
    assert_eq!(run_collesort(vec![1, 2, 3, 4], 0), Err(ErrorKind::InvalidTeamCount));
}

#[test]
fn one_team_is_an_invalid_team_count() {
    assert_eq!(run_collesort(vec![1, 2, 3, 4], 1), Err(ErrorKind::InvalidTeamCount));
}

#[test]
fn six_teams_is_an_invalid_team_count() {
    assert_eq!(run_collesort(vec![1, 2, 3, 4, 5, 6], 6), Err(ErrorKind::InvalidTeamCount));
}

#[test]
fn more_than_twenty_four_values_is_a_size_mismatch() {
    let values: Vec<i64> = (0..26).collect();
    assert_eq!(run_collesort(values, 2), Err(ErrorKind::SizeMismatch));
}

#[test]
fn no_values_is_a_size_mismatch() {
    assert_eq!(run_collesort(vec![], 2), Err(ErrorKind::SizeMismatch));
}

#[test]
fn announced_size_must_match() {
    assert_eq!(run_collesort_with::<6, 2>(vec![1, 2, 3, 4]), Err(ErrorKind::SizeMismatch));
    assert_eq!(run_collesort_with::<4, 0>(vec![1, 2, 3, 4]), Err(ErrorKind::InvalidTeamCount));
    assert_eq!(run_collesort_with::<5, 2>(vec![1, 2, 3, 4, 5]), Err(ErrorKind::SizeMismatch));
    assert_eq!(run_collesort_with::<4, 2>(vec![1, 2, 3, 4]), Ok(vec![4, 1, 3, 2]));
}

#[test]
fn team_counts_outside_two_to_five_are_served_below_the_entry_point() {
    assert_eq!(run_collesort_with::<4, 1>(vec![2, 4, 1, 3]), Ok(vec![4, 3, 2, 1]));
    assert_eq!(run_collesort_with::<6, 6>(vec![2, 4, 1, 3, 6, 5]), Ok(vec![6, 5, 4, 3, 2, 1]));
    assert_eq!(run_collesort_w::<6>(vec![2, 4, 1, 3, 6, 5]), Ok(vec![6, 5, 4, 3, 2, 1]));
    assert_eq!(run_collesort_with::<25, 5>((0..25).collect()), Err(ErrorKind::SizeMismatch));
    assert_eq!(run_collesort_with::<0, 2>(vec![]), Err(ErrorKind::SizeMismatch));
}

#[test]
fn dispatch_by_length() {
    assert_eq!(run_collesort_w::<2>(vec![7]), Err(ErrorKind::SizeMismatch));
    assert_eq!(run_collesort_w::<0>(vec![7, 8]), Err(ErrorKind::InvalidTeamCount));
    assert_eq!(run_collesort_w::<3>(vec![7, 8]), Err(ErrorKind::SizeMismatch));
    assert_eq!(run_collesort_w::<2>(vec![7, 8]), Ok(vec![8, 7]));
}

#[test]
fn one_value_per_team_spreads_from_min_to_max() {
    let out = run_collesort(vec![3, -7, 12, 5], 4).unwrap();
    assert_eq!(out, vec![12, 5, 3, -7]);
    assert_eq!(spread(&out, 4), 12 - (-7));
}

#[test]
fn output_is_a_permutation_of_the_input() {
    let input = vec![9, 4, 4, 7, 1, 8, 2, 2, 6];
    let out = run_collesort(input.clone(), 3).unwrap();
    let mut a = input;
    let mut b = out.clone();
    a.sort();
    b.sort();
    assert_eq!(a, b);
    assert_eq!(team_sums(&out, 3), vec![15, 14, 14]);
}

#[test]
fn same_input_same_output() {
    let input = vec![5, 3, 8, 1, 9, 2, 7, 4];
    let first = run_collesort(input.clone(), 4).unwrap();
    let second = run_collesort(input, 4).unwrap();
    assert_eq!(first, second);
    assert_eq!(spread(&first, 4), 1);
}

#[test]
fn extreme_values_do_not_overflow() {
    let out = run_collesort(vec![i64::MAX, i64::MIN, i64::MAX, i64::MIN], 2).unwrap();
    assert_eq!(out, vec![i64::MAX, i64::MIN, i64::MAX, i64::MIN]);
}

#[test]
fn twenty_four_values_in_four_teams() {
    let input: Vec<i64> = (1..=24).collect();
    let out = run_collesort(input, 4).unwrap();
    assert_eq!(team_sums(&out, 4), vec![75, 75, 75, 75]);
}

fn smallest_spread_by_enumeration(values: &[i64], teams: usize) -> i64 {
    let n = values.len();
    let size = n / teams;
    let mut labels = vec![0usize; n];
    let mut best = i64::MAX;
    loop {
        let mut counts = vec![0usize; teams];
        let mut sums = vec![0i64; teams];
        for i in 0..n {
            counts[labels[i]] += 1;
            sums[labels[i]] += values[i];
        }
        if counts.iter().all(|c| *c == size) {
            let spread = sums.iter().max().unwrap() - sums.iter().min().unwrap();
            if spread < best {
                best = spread;
            }
        }
        let mut i = 0;
        while i < n && labels[i] + 1 == teams {
            labels[i] = 0;
            i += 1;
        }
        if i == n {
            return best;
        }
        labels[i] += 1;
    }
}

fn next_value(seed: &mut u64) -> i64 {
    *seed = seed.wrapping_mul(6364136223846793005).wrapping_add(1442695040888963407);
    ((*seed >> 40) % 201) as i64 - 100
}

#[test]
fn spread_matches_exhaustive_enumeration() {
    let mut seed = 2024u64;
    let sizes: [(usize, usize); 10] =
        [(2, 2), (4, 2), (6, 2), (8, 2), (3, 3), (6, 3), (9, 3), (4, 4), (8, 4), (5, 5)];
    for &(n, teams) in &sizes {
        for _ in 0..4 {
            let values: Vec<i64> = (0..n).map(|_| next_value(&mut seed)).collect();
            let out = run_collesort(values.clone(), teams).unwrap();
            assert_eq!(spread(&out, teams), smallest_spread_by_enumeration(&values, teams));
            let mut a = values.clone();
            let mut b = out.clone();
            a.sort();
            b.sort();
            assert_eq!(a, b);
        }
    }
}

#[test]
fn every_supported_team_count() {
    let values: Vec<i64> =
        vec![12, 7, 3, 9, 15, 1, 20, 6, 11, 4, 8, 2, 18, 5, 10, 14, 16, 13, 19, 17];
    assert_eq!(team_sums(&run_collesort(values.clone(), 2).unwrap(), 2), vec![105, 105]);
    assert_eq!(team_sums(&run_collesort(values.clone(), 4).unwrap(), 4), vec![53, 53, 52, 52]);
    assert_eq!(team_sums(&run_collesort(values.clone(), 5).unwrap(), 5), vec![42, 42, 42, 42, 42]);
    let values: Vec<i64> = (1..=18).collect();
    assert_eq!(team_sums(&run_collesort(values, 3).unwrap(), 3), vec![57, 57, 57]);
}

#[test]
fn teams_are_listed_largest_value_first() {
    let out = run_collesort(vec![2, 9, 4, 7, 5, 3], 3).unwrap();
    assert_eq!(out, vec![9, 2, 7, 3, 5, 4]);
    assert_eq!(team_sums(&out, 3), vec![11, 10, 9]);
}
