use gto_poker::betting::BettingRound;
use gto_poker::game::PokerGame;
use gto_poker::player::Action;
use gto_poker::position::{first_to_act, Position};
use gto_poker::pot::{build_pots, distribute};

#[test]
fn a_hand_played_to_showdown_conserves_chips() {
    let mut game = PokerGame::new().unwrap();
    game.initialize_players(vec!["A".to_string(), "B".to_string(), "C".to_string()]).unwrap();
    game.new_deck().unwrap();
    game.assign_positions(0);
    assert_eq!(game.players()[0].get_position(), Some(Position::Button));
    assert_eq!(game.players()[2].get_position(), Some(Position::BigBlind));
    game.deal_player_cards().unwrap();

    let stacks = game.stacks();
    let mut round = BettingRound::new(&stacks, first_to_act(0, 3, true)).unwrap();
    assert_eq!(round.to_act(), 0);
    round.apply(0, Action::Raise(100)).unwrap();
    round.apply(1, Action::Fold).unwrap();
    round.apply(2, Action::Call).unwrap();
    assert!(round.is_closed());
    for street in 0..3 {
        match street {
            0 => game.flop().unwrap(),
            1 => game.turn().unwrap(),
            _ => game.river().unwrap(),
        }
        round.next_street(first_to_act(0, 3, false));
        round.apply(2, Action::Call).unwrap();
        round.apply(0, Action::Call).unwrap();
        assert!(round.is_closed());
    }
    assert_eq!(game.num_community_cards(), 5);

    let out = round.folded();
    assert_eq!(out, vec![false, true, false]);
    let pots = build_pots(&round.contributions(), &out);
    let scores = game.showdown_scores(&out);
    assert_eq!(scores[1], 0);
    assert!(scores[0] > 0 && scores[2] > 0);
    let payouts = distribute(&pots, &scores, 0);
    assert_eq!(payouts.iter().sum::<u64>(), 200);
    let behind: Vec<u32> = round.seats().iter().map(|s| s.stack).collect();
    game.settle(&behind, &payouts);
    let total: u32 = game.stacks().iter().sum();
    assert_eq!(total, 3000);
    assert_eq!(game.state().pot, 0);
    game.end_game().unwrap();
    assert_eq!(game.num_cards_in_deck(), 52);
}

#[test]
fn snapshot_lists_names_and_wagers() {
    let mut game = PokerGame::new().unwrap();
    game.initialize_players(vec!["Alice".to_string(), "Bob".to_string()]).unwrap();
    let state = game.state();
    assert_eq!(state.player_bets, vec![("Alice".to_string(), 0), ("Bob".to_string(), 0)]);
    assert_eq!(state.current_bet, 0);
    assert!(state.community_cards.is_empty());
}
