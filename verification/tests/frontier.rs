use collesort::frontier::Frontier;

fn state(f: &Frontier) -> (Vec<usize>, Vec<usize>, Vec<i128>, usize) {
    (f.assign.clone(), f.counts.clone(), f.sums.clone(), f.opened)
}

#[test]
fn a_new_frontier_is_empty() {
    let f = Frontier::new(vec![4, 3, 2, 1], 2);
    assert_eq!(f.group_size, 2);
    assert_eq!(f.floor_average, 5);
    assert_eq!(f.ceiling_average, 5);
    assert_eq!(f.assign, Vec::<usize>::new());
    assert_eq!(f.counts, vec![0, 0]);
    assert_eq!(f.sums, vec![0, 0]);
    assert_eq!(f.opened, 0);
}

#[test]
fn placing_and_taking_back() {
    let mut f = Frontier::new(vec![4, 3, 2, 1], 2);
    f.place(0);
    assert_eq!(state(&f), (vec![0], vec![1, 0], vec![4, 0], 1));
    f.place(1);
    assert_eq!(state(&f), (vec![0, 1], vec![1, 1], vec![4, 3], 2));
    f.place(1);
    assert_eq!(state(&f), (vec![0, 1, 1], vec![1, 2], vec![4, 5], 2));
    f.unplace();
    assert_eq!(state(&f), (vec![0, 1], vec![1, 1], vec![4, 3], 2));
    f.unplace();
    assert_eq!(state(&f), (vec![0], vec![1, 0], vec![4, 0], 1));
    f.unplace();
    assert_eq!(state(&f), (vec![], vec![0, 0], vec![0, 0], 0));
}

#[test]
fn spread_of_a_complete_frontier() {
    let mut f = Frontier::new(vec![10, 1, 1, 1], 2);
    f.place(0);
    f.place(0);
    f.place(1);
    f.place(1);
    assert_eq!(f.spread(), 9);
    let mut f = Frontier::new(vec![4, 3, 2, 1], 2);
    f.place(0);
    f.place(1);
    f.place(1);
    f.place(0);
    assert_eq!(f.spread(), 0);
}

#[test]
fn least_loaded_prefers_the_lightest_group_with_room() {
    let mut f = Frontier::new(vec![10, 1, 1, 1], 2);
    assert_eq!(f.least_loaded(), 0);
    f.place(0);
    assert_eq!(f.least_loaded(), 1);
    f.place(1);
    assert_eq!(f.least_loaded(), 1);
    f.place(1);
    assert_eq!(f.least_loaded(), 0);
}

#[test]
fn averages_are_rounded_both_ways() {
    let f = Frontier::new(vec![3, 2, 1, 1], 2);
    assert_eq!((f.floor_average, f.ceiling_average), (3, 4));
    let f = Frontier::new(vec![-1, -1, -2, -3], 2);
    assert_eq!((f.floor_average, f.ceiling_average), (-4, -3));
    let f = Frontier::new(vec![-1, -1, -2, -4], 2);
    assert_eq!((f.floor_average, f.ceiling_average), (-4, -4));
}

#[test]
fn lower_bound_of_partial_assignments() {
    // Nothing placed: floors 2 * 1, ceilings 2 * 4, average 5.
    let mut f = Frontier::new(vec![4, 3, 2, 1], 2);
    assert_eq!(f.lower_bound(), 0);
    // One group holds 4 and 3: it ends at 7, the other at most at 2 * 2.
    f.place(0);
    f.place(0);
    assert_eq!(f.lower_bound(), 7 - 4);
    f.unplace();
    // One group holds 4: it ends between 5 and 7, the other between 2 and 6.
    assert_eq!(f.lower_bound(), 0);
}

#[test]
fn lower_bound_uses_the_average() {
    // The group with 100 and 1 cannot end below 101, the other not above 3.
    let mut f = Frontier::new(vec![100, 1, 1, 1, 1, 0], 2);
    f.place(0);
    f.place(0);
    assert_eq!(f.lower_bound(), 101 - 3);
    f.unplace();
    assert_eq!(f.lower_bound(), 100 - 3);
    // Seven cannot be split evenly: one group ends at 4 or more, one at 3 or
    // less.
    let f = Frontier::new(vec![3, 2, 1, 1], 2);
    assert_eq!(f.lower_bound(), 1);
}
