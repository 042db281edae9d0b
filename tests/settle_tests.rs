use gto_poker::betting::BettingRound;
use gto_poker::game::{next_step, GameError, HandStep, PokerGame, Street};
use gto_poker::player::Action;

fn table(names: &[&str]) -> PokerGame {
    let mut game = PokerGame::new().unwrap();
    game.initialize_players(names.iter().map(|n| n.to_string()).collect()).unwrap();
    game
}

#[test]
fn all_in_for_50_against_two_300s_settles_two_pots() {
    let mut game = table(&["A", "B", "C"]);
    let mut round = BettingRound::new(&vec![50, 1000, 1000], 0).unwrap();
    round.act(0, Action::AllIn).unwrap();
    round.act(1, Action::Raise(300)).unwrap();
    round.act(2, Action::Call).unwrap();
    assert!(round.is_closed());
    assert_eq!(next_step(Street::River, &round), HandStep::Showdown);
    // No cards were dealt, so every hand scores alike and each pot is split.
    let s = game.settle_hand(&round, 0).unwrap();
    assert_eq!(s.pots.len(), 2);
    assert_eq!(s.pots[0].amount, 150);
    assert_eq!(s.pots[0].eligible, vec![true, true, true]);
    assert_eq!(s.pots[1].amount, 500);
    assert_eq!(s.pots[1].eligible, vec![false, true, true]);
    assert_eq!(s.payouts, vec![50, 300, 300]);
    assert_eq!(s.payouts.iter().sum::<u64>(), 650);
    assert_eq!(game.stacks(), vec![50, 1000, 1000]);
    assert_eq!(s.next_button, 1);
    assert_eq!(game.num_cards_in_deck(), 52);
}

#[test]
fn tie_gives_the_odd_chip_left_of_the_button() {
    let mut game = table(&["A", "B", "C"]);
    let mut round = BettingRound::new(&game.stacks(), 0).unwrap();
    round.act(0, Action::Raise(99)).unwrap();
    round.act(1, Action::Call).unwrap();
    round.act(2, Action::Raise(100)).unwrap();
    round.act(0, Action::Call).unwrap();
    round.act(1, Action::Fold).unwrap();
    assert!(round.is_closed());
    let s = game.settle_hand(&round, 0).unwrap();
    assert_eq!(s.payouts, vec![149, 0, 150]);
    assert_eq!(game.stacks(), vec![1049, 901, 1050]);
    assert_eq!(game.stacks().iter().sum::<u32>(), 3000);
}

#[test]
fn uncontested_pot_goes_to_the_last_seat() {
    let mut game = table(&["A", "B", "C"]);
    game.new_deck().unwrap();
    game.deal_player_cards().unwrap();
    let mut round = BettingRound::new(&game.stacks(), 0).unwrap();
    round.act(0, Action::Raise(100)).unwrap();
    round.act(1, Action::Fold).unwrap();
    round.act(2, Action::Fold).unwrap();
    assert_eq!(next_step(Street::Preflop, &round), HandStep::Uncontested);
    let s = game.settle_hand(&round, 2).unwrap();
    assert_eq!(s.payouts, vec![100, 0, 0]);
    assert_eq!(game.stacks(), vec![1000, 1000, 1000]);
    assert_eq!(s.next_button, 0);
    assert_eq!(game.num_cards_in_hands(), 0);
}

#[test]
fn streets_follow_in_order() {
    let round = BettingRound::new(&vec![100, 100], 0).unwrap();
    assert_eq!(next_step(Street::Preflop, &round), HandStep::DealFlop);
    assert_eq!(next_step(Street::Flop, &round), HandStep::DealTurn);
    assert_eq!(next_step(Street::Turn, &round), HandStep::DealRiver);
    assert_eq!(next_step(Street::River, &round), HandStep::Showdown);
}

#[test]
fn settling_with_no_seat_in_fails() {
    let mut game = table(&["A", "B"]);
    let mut round = BettingRound::new(&vec![0, 0], 0).unwrap();
    assert!(round.act(0, Action::Fold).is_err());
    assert!(matches!(game.settle_hand(&round, 0), Err(GameError::NoPlayers)));
    assert_eq!(game.stacks(), vec![1000, 1000]);
}
