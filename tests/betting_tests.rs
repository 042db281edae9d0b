use gto_poker::betting::BettingRound;
use gto_poker::game::GameError;
use gto_poker::player::{Action, SeatStatus};

fn chips_in_play(round: &BettingRound) -> u64 {
    let seats = round.seats();
    let stacks: u64 = seats.iter().map(|s| s.stack as u64).sum();
    stacks + round.pot_total()
}

#[test]
fn street_closes_after_a_fold_and_two_matching_calls() {
    let mut round = BettingRound::new(&vec![1000, 1000, 1000], 0).unwrap();
    round.apply(0, Action::Fold).unwrap();
    assert!(!round.is_closed());
    round.apply(1, Action::Call).unwrap();
    assert!(!round.is_closed());
    round.apply(2, Action::Call).unwrap();
    assert!(round.is_closed());
}

#[test]
fn raise_reopens_the_street() {
    let mut round = BettingRound::new(&vec![1000, 1000, 1000], 0).unwrap();
    round.apply(0, Action::Call).unwrap();
    round.apply(1, Action::Raise(100)).unwrap();
    assert_eq!(round.current_bet(), 100);
    round.apply(2, Action::Call).unwrap();
    assert!(!round.is_closed());
    assert_eq!(round.to_act(), 0);
    round.apply(0, Action::Call).unwrap();
    assert!(round.is_closed());
    assert_eq!(round.pot_total(), 300);
}

#[test]
fn invalid_actions_change_nothing() {
    let mut round = BettingRound::new(&vec![500, 500], 0).unwrap();
    assert_eq!(round.apply(1, Action::Call), Err(GameError::InvalidAction));
    round.apply(0, Action::Raise(50)).unwrap();
    assert_eq!(round.apply(1, Action::Raise(50)), Err(GameError::InvalidAction));
    assert_eq!(round.apply(1, Action::Raise(600)), Err(GameError::InsufficientChips));
    assert_eq!(round.to_act(), 1);
    assert_eq!(round.pot_total(), 50);
}

#[test]
fn call_larger_than_stack_goes_all_in() {
    let mut round = BettingRound::new(&vec![1000, 300], 0).unwrap();
    round.apply(0, Action::Raise(500)).unwrap();
    round.apply(1, Action::Call).unwrap();
    let seats = round.seats();
    assert_eq!(seats[1].stack, 0);
    assert_eq!(seats[1].committed, 300);
    assert_eq!(seats[1].status, SeatStatus::AllIn);
    assert!(round.is_closed());
}

#[test]
fn short_all_in_does_not_reopen() {
    let mut round = BettingRound::new(&vec![1000, 1000, 50], 0).unwrap();
    round.apply(0, Action::Raise(100)).unwrap();
    round.apply(1, Action::Call).unwrap();
    round.apply(2, Action::AllIn).unwrap();
    assert_eq!(round.current_bet(), 100);
    assert!(round.is_closed());
}

#[test]
fn chips_are_conserved_at_every_step() {
    let mut round = BettingRound::new(&vec![400, 800, 1200], 1).unwrap();
    let start = chips_in_play(&round);
    assert_eq!(start, 2400);
    let moves = vec![(1, Action::Raise(100)), (2, Action::Raise(300)), (0, Action::AllIn), (1, Action::Call), (2, Action::Call)];
    for (seat, action) in moves {
        round.apply(seat, action).unwrap();
        assert_eq!(chips_in_play(&round), start);
    }
    round.next_street(0);
    assert_eq!(chips_in_play(&round), start);
    assert_eq!(round.current_bet(), 0);
}

#[test]
fn table_size_must_be_two_to_eight() {
    assert!(matches!(BettingRound::new(&vec![100], 0), Err(GameError::InvalidPlayerCount)));
    assert!(matches!(BettingRound::new(&vec![100; 9], 0), Err(GameError::InvalidPlayerCount)));
}

#[test]
fn full_table_of_eight_and_sitting_out() {
    let mut round = BettingRound::new(&vec![100, 0, 100, 100, 100, 100, 100, u32::MAX], 1).unwrap();
    // Seat 1 has no chips and sits out, so seat 2 acts first.
    assert_eq!(round.to_act(), 2);
    assert_eq!(round.seats()[1].status, SeatStatus::SittingOut);
    for seat in [2, 3, 4, 5, 6] {
        round.apply(seat, Action::Fold).unwrap();
    }
    round.apply(7, Action::AllIn).unwrap();
    assert_eq!(round.current_bet(), u32::MAX);
    round.apply(0, Action::Call).unwrap();
    assert!(round.is_closed());
    assert_eq!(round.pot_total(), u32::MAX as u64 + 100);
}
