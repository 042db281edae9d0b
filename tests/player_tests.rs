use gto_poker::card::{Card, Suit};
use gto_poker::player::{Action, Player, PlayerError, PlayerType, SeatStatus};
use gto_poker::position::Position;
use gto_poker::variant::PokerVariant;

fn create_test_player() -> Player {
    Player::new(String::from("Test Player"), 1000, PlayerType::Bot, PokerVariant::TexasHoldem)
}

#[test]
fn test_new_player() {
    let player = create_test_player();
    assert_eq!(player.get_chips(), 1000);
    assert_eq!(player.get_hand().len(), 0);
    assert_eq!(player.get_bet_in_round(), 0);
    assert_eq!(player.game_variant(), PokerVariant::TexasHoldem);
}

#[test]
fn test_receive_card_texas_holdem() {
    let mut player = create_test_player();

    let card1 = Card::new(Suit::Hearts, 10).unwrap();
    assert!(player.receive_card(card1).is_ok());
    assert_eq!(player.get_hand().len(), 1);
    assert!(!player.has_complete_hand());

    let card2 = Card::new(Suit::Spades, 14).unwrap();
    assert!(player.receive_card(card2).is_ok());
    assert_eq!(player.get_hand().len(), 2);
    assert!(player.has_complete_hand());

    let card3 = Card::new(Suit::Clubs, 2).unwrap();
    assert!(matches!(player.receive_card(card3), Err(PlayerError::TooManyCards)));
    assert_eq!(player.get_hand().len(), 2);
}

#[test]
fn test_variant_specific_limits() {
    let mut holdem_player =
        Player::new(String::from("Holdem Player"), 1000, PlayerType::Bot, PokerVariant::TexasHoldem);

    assert!(holdem_player.receive_card(Card::new(Suit::Hearts, 10).unwrap()).is_ok());
    assert!(holdem_player.receive_card(Card::new(Suit::Spades, 11).unwrap()).is_ok());
    assert!(holdem_player.has_complete_hand());

    assert!(matches!(
        holdem_player.receive_card(Card::new(Suit::Clubs, 12).unwrap()),
        Err(PlayerError::TooManyCards)
    ));
}

#[test]
fn test_clear_hand() {
    let mut player = create_test_player();

    let card1 = Card::new(Suit::Hearts, 10).unwrap();
    let card2 = Card::new(Suit::Spades, 14).unwrap();
    player.receive_card(card1).unwrap();
    player.receive_card(card2).unwrap();

    assert_eq!(player.get_hand().len(), 2);
    assert!(player.has_complete_hand());

    player.clear_hand();
    assert_eq!(player.get_hand().len(), 0);
    assert!(!player.has_complete_hand());
}

#[test]
fn test_place_bet() {
    let mut player = create_test_player();

    let big_blind = 100;

    assert!(player.place_bet(big_blind * 2).is_ok());
    assert_eq!(player.get_chips(), 800);
    assert_eq!(player.get_bet_in_round(), 200);

    let mut all_in_player = create_test_player();
    assert!(all_in_player.place_bet(1000).is_ok());
    assert_eq!(all_in_player.get_chips(), 0);
    assert_eq!(all_in_player.get_bet_in_round(), 1000);

    assert!(matches!(all_in_player.place_bet(1), Err(PlayerError::InsufficientChips)));
}

#[test]
fn test_win_pot() {
    let mut player = create_test_player();

    player.place_bet(200).unwrap();
    player.win_pot(600);

    assert_eq!(player.get_chips(), 1400);
}

#[test]
fn test_reset_bet_in_round() {
    let mut player = create_test_player();

    player.place_bet(100).unwrap();
    assert_eq!(player.get_bet_in_round(), 100);

    player.reset_bet_in_round();
    assert_eq!(player.get_bet_in_round(), 0);
}

#[test]
fn test_player_type() {
    let human_player = Player::new(String::from("Human"), 1000, PlayerType::Human, PokerVariant::TexasHoldem);
    let bot_player = Player::new(String::from("Bot"), 1000, PlayerType::Bot, PokerVariant::TexasHoldem);

    match human_player.get_player_type() {
        PlayerType::Human => assert!(true),
        _ => panic!("Expected Human player type"),
    }

    match bot_player.get_player_type() {
        PlayerType::Bot => assert!(true),
        _ => panic!("Expected Bot player type"),
    }
}

#[test]
fn test_texas_holdem_positions() {
    let mut player = create_test_player();

    let positions = vec![
        Position::Button,
        Position::SmallBlind,
        Position::BigBlind,
        Position::UTG,
        Position::MP,
        Position::HJ,
        Position::CO,
    ];

    for pos in positions {
        player.adjust_position(pos);
        assert_eq!(player.get_position(), Some(pos));
    }
}

#[test]
fn test_multiple_betting_rounds() {
    let mut player = create_test_player();
    let initial_chips = player.get_chips();

    player.place_bet(100).unwrap();
    player.reset_bet_in_round();

    player.place_bet(200).unwrap();
    player.reset_bet_in_round();

    player.place_bet(300).unwrap();
    player.reset_bet_in_round();

    player.place_bet(400).unwrap();

    assert_eq!(player.get_chips(), initial_chips - 1000);
}

#[test]
fn test_human_player_new() {
    let player1 = Player::new(String::from("Player 1"), 100, PlayerType::Human, PokerVariant::TexasHoldem);
    assert_eq!(player1.get_name(), "Player 1");
    assert_eq!(player1.get_chips(), 100);
}

#[test]
fn betting_the_whole_stack_goes_all_in() {
    let mut player = create_test_player();
    assert_eq!(player.status(), SeatStatus::Active);
    player.place_bet(999).unwrap();
    assert_eq!(player.status(), SeatStatus::Active);
    player.place_bet(1).unwrap();
    assert_eq!(player.status(), SeatStatus::AllIn);
}

#[test]
fn reset_for_hand_sits_out_an_empty_stack() {
    let mut broke = create_test_player();
    broke.receive_card(Card::new(Suit::Hearts, 3).unwrap()).unwrap();
    broke.place_bet(1000).unwrap();
    broke.reset_for_hand();
    assert_eq!(broke.status(), SeatStatus::SittingOut);
    assert_eq!(broke.get_hand().len(), 0);
    assert_eq!(broke.get_bet_in_round(), 0);

    let mut folded = create_test_player();
    folded.fold();
    assert_eq!(folded.status(), SeatStatus::Folded);
    folded.reset_for_hand();
    assert_eq!(folded.status(), SeatStatus::Active);
}

#[test]
fn bot_always_folds() {
    let bot = create_test_player();
    assert_eq!(bot.get_bot_action(50), Ok(Action::Fold));
}

#[test]
fn action_amount_is_the_raise_total() {
    assert_eq!(Action::Raise(250).amount(), 250);
    assert_eq!(Action::Call.amount(), 0);
    assert_eq!(Action::Fold.amount(), 0);
    assert_eq!(Action::AllIn.amount(), 0);
}
