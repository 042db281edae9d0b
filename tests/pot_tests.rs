use gto_poker::pot::{build_pots, distribute};

#[test]
fn all_in_makes_main_and_side_pot() {
    // Seat 0 is all-in for 50; seats 1 and 2 put in 300 each.
    let pots = build_pots(&vec![50, 300, 300], &vec![false, false, false]);
    assert_eq!(pots.len(), 2);
    assert_eq!(pots[0].amount, 150);
    assert_eq!(pots[0].eligible, vec![true, true, true]);
    assert_eq!(pots[1].amount, 500);
    assert_eq!(pots[1].eligible, vec![false, true, true]);

    // Seat 0 holds the best hand, seat 2 the second best.
    let payouts = distribute(&pots, &vec![900, 100, 500], 0);
    assert_eq!(payouts, vec![150, 0, 500]);
    assert_eq!(payouts.iter().sum::<u64>(), 650);
}

#[test]
fn cascade_of_all_ins_and_a_fold() {
    let pots = build_pots(&vec![50, 150, 300, 100], &vec![false, false, false, true]);
    assert_eq!(pots.iter().map(|p| p.amount).collect::<Vec<_>>(), vec![200, 250, 150]);
    assert_eq!(pots[0].eligible, vec![true, true, true, false]);
    assert_eq!(pots[1].eligible, vec![false, true, true, false]);
    assert_eq!(pots[2].eligible, vec![false, false, true, false]);
    let payouts = distribute(&pots, &vec![10, 20, 5, 99], 3);
    assert_eq!(payouts, vec![0, 450, 150, 0]);
}

#[test]
fn tie_splits_evenly_with_odd_chip_left_of_button() {
    let pots = build_pots(&vec![101, 101, 101], &vec![true, false, false]);
    assert_eq!(pots.len(), 1);
    assert_eq!(pots[0].amount, 303);
    // Seats 1 and 2 tie; the button is seat 1, so seat 2 is first to its left.
    let payouts = distribute(&pots, &vec![0, 77, 77], 1);
    assert_eq!(payouts, vec![0, 151, 152]);
    let payouts = distribute(&pots, &vec![0, 77, 77], 2);
    assert_eq!(payouts, vec![0, 152, 151]);
}

#[test]
fn no_chips_no_pots() {
    assert!(build_pots(&vec![0, 0], &vec![false, false]).is_empty());
}

#[test]
fn chips_above_every_live_level_join_the_top_pot() {
    let pots = build_pots(&vec![400, 100], &vec![true, false]);
    assert_eq!(pots.len(), 1);
    assert_eq!(pots[0].amount, 500);
    assert_eq!(pots[0].eligible, vec![false, true]);
}

#[test]
fn eight_seats_with_distinct_all_ins() {
    let contributions: Vec<u32> = vec![10, 20, 30, 40, 50, 60, 70, 80];
    let folded = vec![false; 8];
    let pots = build_pots(&contributions, &folded);
    assert_eq!(pots.len(), 8);
    assert_eq!(pots[0].amount, 80);
    assert_eq!(pots[7].amount, 10);
    assert_eq!(pots.iter().map(|p| p.amount).sum::<u64>(), 360);
    // Seat 0 holds the best hand and can only win the main pot.
    let scores = vec![99, 1, 2, 3, 4, 5, 6, 7];
    let payouts = distribute(&pots, &scores, 0);
    assert_eq!(payouts[0], 80);
    assert_eq!(payouts.iter().sum::<u64>(), 360);
}

#[test]
fn largest_contributions_are_summed_without_overflow() {
    let pots = build_pots(&vec![u32::MAX, u32::MAX], &vec![false, false]);
    assert_eq!(pots.len(), 1);
    assert_eq!(pots[0].amount, 2 * u32::MAX as u64);
    let payouts = distribute(&pots, &vec![5, 5], 0);
    assert_eq!(payouts, vec![u32::MAX as u64, u32::MAX as u64]);
}
