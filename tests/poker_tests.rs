use gto_poker::game::{GameError, PokerGame, Street};

fn create_game() -> PokerGame {
    PokerGame::new().expect("Failed to create game")
}

fn two_player_game() -> PokerGame {
    let mut game = create_game();
    game.initialize_players(vec!["Alice".to_string(), "Bob".to_string()]).unwrap();
    game
}

#[test]
fn test_no_players() {
    let game = create_game();
    assert!(matches!(game.check_no_players(), Err(GameError::NoPlayers)));
}

#[test]
fn test_initialize_players() {
    let game = two_player_game();
    assert_eq!(game.num_players(), 2);
}

#[test]
fn poker_tests_test_new_deck() {
    let mut game = create_game();
    assert_eq!(game.num_cards_in_deck(), 0);
    game.new_deck().unwrap();
    assert_eq!(game.num_cards_in_deck(), 52);
    game.clear_deck();
    assert_eq!(game.num_cards_in_deck(), 0);
}

#[test]
fn test_deal_player_cards() {
    let mut game = two_player_game();
    game.new_deck().unwrap();
    game.deal_player_cards().unwrap();
    assert_eq!(game.num_cards_in_hands(), 4);
    assert_eq!(game.num_cards_in_deck(), 48);
}

#[test]
fn test_flop() {
    let mut game = two_player_game();
    game.new_deck().unwrap();
    game.deal_player_cards().unwrap();
    game.flop().unwrap();
    assert_eq!(game.num_community_cards(), 3);
    assert_eq!(game.num_cards_in_deck(), 44);
}

#[test]
fn test_turn() {
    let mut game = two_player_game();
    game.new_deck().unwrap();
    assert_eq!(game.num_cards_in_deck(), 52);
    game.deal_player_cards().unwrap();
    assert_eq!(game.num_cards_in_deck(), 48);
    game.flop().unwrap();
    assert_eq!(game.num_cards_in_deck(), 44);
    game.turn().unwrap();
    assert_eq!(game.num_cards_in_deck(), 42);
    assert_eq!(game.num_community_cards(), 4);
}

#[test]
fn test_river() {
    let mut game = two_player_game();
    game.new_deck().unwrap();
    assert_eq!(game.num_cards_in_deck(), 52);
    game.deal_player_cards().unwrap();
    assert_eq!(game.num_cards_in_deck(), 48);
    game.flop().unwrap();
    assert_eq!(game.num_cards_in_deck(), 44);
    game.turn().unwrap();
    assert_eq!(game.num_cards_in_deck(), 42);
    game.river().unwrap();
    assert_eq!(game.num_community_cards(), 5);
    assert_eq!(game.num_cards_in_deck(), 40);
}

#[test]
fn test_get_community_cards() {
    let mut game = two_player_game();
    game.new_deck().unwrap();
    game.deal_player_cards().unwrap();
    assert_eq!(game.num_cards_in_deck(), 48);
    game.flop().unwrap();
    assert_eq!(game.num_cards_in_deck(), 44);
    game.turn().unwrap();
    assert_eq!(game.num_cards_in_deck(), 42);
    game.river().unwrap();
    assert_eq!(game.num_cards_in_deck(), 40);
    let community_cards = game.get_community_cards();
    assert_eq!(community_cards.len(), 5);
}

#[test]
fn test_get_player_cards() {
    let mut game = two_player_game();
    game.new_deck().unwrap();
    game.deal_player_cards().unwrap();
    let player_cards = game.num_cards_in_hands();
    assert_eq!(player_cards, 4);
}

#[test]
fn test_end_game() {
    let mut game = two_player_game();
    game.new_deck().unwrap();
    game.deal_player_cards().unwrap();
    game.flop().unwrap();
    game.turn().unwrap();
    game.river().unwrap();
    game.end_game().unwrap();
    assert_eq!(game.num_community_cards(), 0);
    assert_eq!(game.num_cards_in_hands(), 0);
    assert_eq!(game.num_cards_in_deck(), 52);
}

#[test]
fn test_new_game() {
    let mut game = two_player_game();
    game.new_deck().unwrap();
    assert_eq!(game.num_players(), 2);
    assert_eq!(game.num_cards_in_deck(), 52);
    assert_eq!(game.pot(), 0);
}

#[test]
fn test_deal_cards() {
    let mut game = two_player_game();
    game.new_deck().unwrap();
    game.deal_player_cards().unwrap();
    assert_eq!(game.players()[0].get_hand().len(), 2);
    assert_eq!(game.players()[1].get_hand().len(), 2);
    assert_eq!(game.num_cards_in_deck(), 48);
}

#[test]
fn player_count_outside_two_to_eight_is_refused() {
    let mut game = create_game();
    assert_eq!(game.initialize_players(vec!["Solo".to_string()]), Err(GameError::InvalidPlayerCount));
    let nine: Vec<String> = (0..9).map(|i| format!("P{}", i)).collect();
    assert_eq!(game.initialize_players(nine), Err(GameError::InvalidPlayerCount));
    assert_eq!(game.num_players(), 0);
}

#[test]
fn dealing_twice_is_refused_without_drawing() {
    let mut game = two_player_game();
    game.new_deck().unwrap();
    game.deal_player_cards().unwrap();
    assert!(game.deal_player_cards().is_err());
    assert_eq!(game.num_cards_in_deck(), 48);
}

#[test]
fn streets_are_recorded() {
    let mut game = two_player_game();
    assert_eq!(game.get_round(), None);
    game.new_deck().unwrap();
    game.flop().unwrap();
    assert_eq!(game.get_round(), Some(Street::Flop));
    game.turn().unwrap();
    assert_eq!(game.get_round(), Some(Street::Turn));
    game.river().unwrap();
    assert_eq!(game.get_round(), Some(Street::River));
    game.end_game().unwrap();
    assert_eq!(game.get_round(), None);
}

#[test]
fn community_cards_need_a_card_to_burn() {
    let mut game = two_player_game();
    assert!(game.flop().is_err());
    assert_eq!(game.num_community_cards(), 0);
}
