use gto_poker::betting::BettingRound;
use gto_poker::player::{Action, Player, PlayerError, PlayerType};
use gto_poker::reply::parse_reply;
use gto_poker::variant::PokerVariant;

#[test]
fn words_are_read_ignoring_case_and_blanks() {
    assert_eq!(parse_reply("fold", "", 0), Ok(Action::Fold));
    assert_eq!(parse_reply("  CALL\n", "", 10), Ok(Action::Call));
    assert_eq!(parse_reply("Check", "", 0), Ok(Action::Call));
    assert_eq!(parse_reply("AllIn", "", 0), Ok(Action::AllIn));
    assert_eq!(parse_reply("raise", " 120 \n", 100), Ok(Action::Raise(120)));
}

#[test]
fn bad_replies_are_errors() {
    assert_eq!(parse_reply("fly", "", 0), Err(PlayerError::InvalidInput));
    assert_eq!(parse_reply("", "", 0), Err(PlayerError::InvalidInput));
    assert_eq!(parse_reply("raise", "abc", 0), Err(PlayerError::InvalidInput));
    assert_eq!(parse_reply("raise", "", 0), Err(PlayerError::InvalidInput));
    assert_eq!(parse_reply("raise", "4294967296", 0), Err(PlayerError::InvalidInput));
    assert_eq!(parse_reply("raise", "100", 100), Err(PlayerError::InvalidRaiseAmount));
    assert_eq!(parse_reply("raise", "4294967295", 100), Ok(Action::Raise(4294967295)));
}

#[test]
fn human_and_bot_actions() {
    let human = Player::new("Ann".to_string(), 500, PlayerType::Human, PokerVariant::TexasHoldem);
    let bot = Player::new("Bot".to_string(), 500, PlayerType::Bot, PokerVariant::TexasHoldem);
    assert_eq!(human.get_action(20, "raise", "60"), Ok(Action::Raise(60)));
    assert_eq!(human.get_action(20, "call", ""), Ok(Action::Call));
    assert_eq!(bot.get_action(20, "raise", "60"), Ok(Action::Fold));
}

#[test]
fn test_human_fold() {
    let player1 = Player::new(String::from("Player 1"), 100, PlayerType::Human, PokerVariant::TexasHoldem);
    let action = player1.get_action(10, "fold", "");
    assert_eq!(action, Ok(Action::Fold));
}

#[test]
fn test_human_call() {
    // Seat 1 holds 100 chips and calls a bet of 10 made by seat 0.
    let player1 = Player::new(String::from("Player 1"), 100, PlayerType::Human, PokerVariant::TexasHoldem);
    let mut round = BettingRound::new(&vec![100, player1.get_chips()], 0).unwrap();
    round.apply(0, Action::Raise(10)).unwrap();
    let action = player1.get_action(10, "call", "").unwrap();
    assert_eq!(action, Action::Call);
    round.apply(1, action).unwrap();
    assert_eq!(round.seats()[1].stack, 90);
    assert_eq!(round.seats()[1].wager, 10);
}

#[test]
fn test_human_check() {
    let player1 = Player::new(String::from("Player 1"), 100, PlayerType::Human, PokerVariant::TexasHoldem);
    let mut round = BettingRound::new(&vec![player1.get_chips(), 100], 0).unwrap();
    // A check is a call that owes nothing.
    let action = player1.get_action(0, "check", "").unwrap();
    assert_eq!(action, Action::Call);
    round.act(0, action).unwrap();
    assert_eq!(round.seats()[0].stack, 100);
    assert_eq!(round.seats()[0].wager, 0);
}

#[test]
fn test_human_raise() {
    // Seat 1 is Player 1 with 100 chips; seat 0 keeps raising against it.
    let player1 = Player::new(String::from("Player 1"), 100, PlayerType::Human, PokerVariant::TexasHoldem);
    let mut round = BettingRound::new(&vec![1000, player1.get_chips()], 0).unwrap();
    round.act(0, Action::Raise(10)).unwrap();
    let action = player1.get_action(10, "raise", "30").unwrap();
    assert_eq!(action, Action::Raise(30));
    round.act(1, action).unwrap();
    assert_eq!(round.seats()[1].stack, 70);
    assert_eq!(round.seats()[1].wager, 30);
    round.act(0, Action::Raise(45)).unwrap();
    let action2 = player1.get_action(45, "raise", "60").unwrap();
    assert_eq!(action2, Action::Raise(60));
    round.act(1, action2).unwrap();
    // Raising to 60 from a wager of 30 pays only the 30 more.
    assert_eq!(round.seats()[1].stack, 40);
    assert_eq!(round.seats()[1].wager, 60);
    round.act(0, Action::Raise(80)).unwrap();
    let action3 = player1.get_action(80, "allin", "").unwrap();
    round.act(1, action3).unwrap();
    assert_eq!(round.seats()[1].stack, 0);
    assert_eq!(round.seats()[1].wager, 100);
}

#[test]
fn test_human_allin() {
    let player1 = Player::new(String::from("Player 1"), 100, PlayerType::Human, PokerVariant::TexasHoldem);
    let mut round = BettingRound::new(&vec![player1.get_chips(), 1000], 0).unwrap();
    let action1 = player1.get_action(0, "raise", "20").unwrap();
    assert_eq!(action1, Action::Raise(20));
    round.act(0, action1).unwrap();
    assert_eq!(round.seats()[0].stack, 80);
    assert_eq!(round.seats()[0].wager, 20);
    round.act(1, Action::Raise(30)).unwrap();
    let action = player1.get_action(30, "allin", "").unwrap();
    assert_eq!(action, Action::AllIn);
    round.act(0, action).unwrap();
    assert_eq!(round.seats()[0].stack, 0);
    assert_eq!(round.seats()[0].wager, 100);
}

#[test]
fn test_human_raise_must_be_at_least() {
    // A raise must go above the current bet.
    let player1 = Player::new(String::from("Player 1"), 100, PlayerType::Human, PokerVariant::TexasHoldem);
    let action = player1.get_action(15, "raise", "15");
    assert_eq!(action, Err(PlayerError::InvalidRaiseAmount));
    assert_eq!(player1.get_chips(), 100);
    assert_eq!(player1.get_bet_in_round(), 0);
}

#[test]
fn amounts_read_like_u32_from_str_after_trim() {
    assert_eq!(parse_reply("raise", "+50", 10), Ok(Action::Raise(50)));
    assert_eq!(parse_reply("raise", " +0050\t", 10), Ok(Action::Raise(50)));
    assert_eq!(parse_reply("raise", "+", 10), Err(PlayerError::InvalidInput));
    assert_eq!(parse_reply("raise", "++5", 0), Err(PlayerError::InvalidInput));
    assert_eq!(parse_reply("raise", "-5", 0), Err(PlayerError::InvalidInput));
}

#[test]
fn unicode_white_space_is_trimmed() {
    assert_eq!(parse_reply("\u{a0}fold\u{3000}", "", 0), Ok(Action::Fold));
    assert_eq!(parse_reply("\u{2009}raise\u{0b}", "\u{85}70\u{2028}", 10), Ok(Action::Raise(70)));
    assert_eq!("\u{a0}fold\u{3000}".trim(), "fold");
    assert_eq!(parse_reply("fo\u{a0}ld", "", 0), Err(PlayerError::InvalidInput));
}

#[test]
fn raise_beyond_the_stack_goes_all_in() {
    let mut round = BettingRound::new(&vec![100, 1000], 0).unwrap();
    round.act(0, Action::Raise(500)).unwrap();
    assert_eq!(round.seats()[0].stack, 0);
    assert_eq!(round.seats()[0].wager, 100);
    assert_eq!(round.current_bet(), 100);
}
