use gto_poker::card::{Card, Suit};
use gto_poker::deck::{Deck, DeckError};

// A deck is created empty and filled by `initialize`.
fn full_deck() -> Deck {
    let mut deck = Deck::new().unwrap();
    deck.initialize().unwrap();
    deck
}

#[test]
fn deck_tests_test_new_deck() {
    let deck = full_deck();
    assert_eq!(deck.remaining(), 52);
}

#[test]
fn test_draw_card() {
    let mut deck = full_deck();
    let card = deck.draw().unwrap();
    assert_eq!(deck.remaining(), 51);
    assert!(card.rank() >= 2 && card.rank() <= 14);
}

#[test]
fn test_draw_all_cards() {
    let mut deck = full_deck();
    for _ in 0..52 {
        deck.draw().unwrap();
    }
    assert_eq!(deck.remaining(), 0);
    assert!(matches!(deck.draw(), Err(DeckError::NotEnoughCards)));
}

#[test]
fn test_shuffle() {
    let mut deck1 = full_deck();
    let mut deck2 = full_deck();

    let first_cards: Vec<Card> = (0..5).map(|_| deck1.draw().unwrap()).collect();

    deck2.shuffle();

    let shuffled_cards: Vec<Card> = (0..5).map(|_| deck2.draw().unwrap()).collect();

    // This has a very small chance of failing even if shuffle works correctly.
    assert_ne!(first_cards, shuffled_cards);
}

#[test]
fn test_remaining_cards() {
    let mut deck = full_deck();
    assert_eq!(deck.remaining(), 52);

    for i in (1..=52).rev() {
        deck.draw().unwrap();
        assert_eq!(deck.remaining(), i - 1);
    }
}

#[test]
fn test_initialize_with_all_cards() {
    let mut deck = full_deck();
    let mut card_counts = std::collections::HashMap::new();

    for _ in 0..52 {
        let card = deck.draw().unwrap();
        *card_counts.entry((card.suit(), card.rank())).or_insert(0) += 1;
    }

    for suit in &[Suit::Hearts, Suit::Diamonds, Suit::Clubs, Suit::Spades] {
        for rank in 2..=14 {
            assert_eq!(card_counts[&(*suit, rank)], 1, "Card {:?} {} should appear exactly once", suit, rank);
        }
    }
}

#[test]
fn new_deck_is_empty_until_initialized() {
    let mut deck = Deck::new().unwrap();
    assert_eq!(deck.remaining(), 0);
    assert_eq!(deck.draw(), Err(DeckError::NotEnoughCards));
    assert_eq!(deck.burn(), Err(DeckError::NotEnoughCards));
}

#[test]
fn initialize_gives_canonical_order_drawn_from_the_end() {
    let mut deck = full_deck();
    // Canonical order is suit-major, ranks ascending; draws come off the end.
    assert_eq!(deck.draw().unwrap(), Card::new(Suit::Spades, 14).unwrap());
    assert_eq!(deck.draw().unwrap(), Card::new(Suit::Spades, 13).unwrap());
    for _ in 0..49 {
        deck.draw().unwrap();
    }
    assert_eq!(deck.draw().unwrap(), Card::new(Suit::Hearts, 2).unwrap());
}

#[test]
fn burn_removes_exactly_one_card() {
    let mut deck = full_deck();
    deck.burn().unwrap();
    assert_eq!(deck.remaining(), 51);
    assert_eq!(deck.draw().unwrap(), Card::new(Suit::Spades, 13).unwrap());
}

#[test]
fn shuffled_deck_holds_every_card_once() {
    let mut deck = Deck::new().unwrap();
    deck.initialize_and_shuffle().unwrap();
    assert_eq!(deck.remaining(), 52);
    let mut seen = std::collections::HashSet::new();
    while let Ok(card) = deck.draw() {
        assert!(seen.insert((card.suit(), card.rank())));
    }
    assert_eq!(seen.len(), 52);
}

#[test]
fn reset_after_play_restores_canonical_order() {
    let mut first = full_deck();
    let mut deck = full_deck();
    deck.shuffle();
    for _ in 0..52 {
        deck.draw().unwrap();
    }
    deck.clear();
    deck.initialize().unwrap();
    for _ in 0..52 {
        assert_eq!(deck.draw().unwrap(), first.draw().unwrap());
    }
}
