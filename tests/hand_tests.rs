use gto_poker::card::{Card, Suit};
use gto_poker::hand::{compare_hands, evaluate, evaluate_five, HandCategory, CATEGORY_WEIGHT};
use std::cmp::Ordering;

fn c(suit: Suit, rank: u8) -> Card {
    Card::new(suit, rank).unwrap()
}

fn royal_flush() -> Vec<Card> {
    vec![c(Suit::Spades, 14), c(Suit::Spades, 13), c(Suit::Spades, 12), c(Suit::Spades, 11), c(Suit::Spades, 10)]
}

fn four_nines() -> Vec<Card> {
    vec![c(Suit::Diamonds, 9), c(Suit::Clubs, 9), c(Suit::Hearts, 9), c(Suit::Spades, 9), c(Suit::Clubs, 2)]
}

fn sevens_full() -> Vec<Card> {
    vec![c(Suit::Hearts, 7), c(Suit::Diamonds, 7), c(Suit::Clubs, 7), c(Suit::Spades, 2), c(Suit::Hearts, 2)]
}

#[test]
fn royal_flush_beats_quads_beats_full_house() {
    let royal = evaluate_five(&royal_flush());
    let quads = evaluate_five(&four_nines());
    let full = evaluate_five(&sevens_full());
    assert_eq!(royal.category, HandCategory::StraightFlush);
    assert_eq!(quads.category, HandCategory::FourOfAKind);
    assert_eq!(full.category, HandCategory::FullHouse);
    assert_eq!(compare_hands(&royal, &quads), Ordering::Greater);
    assert_eq!(compare_hands(&quads, &full), Ordering::Greater);
    assert_eq!(compare_hands(&full, &royal), Ordering::Less);
}

#[test]
fn exact_scores() {
    // Full house, sevens over twos: category 6, key 7 7 7 2 2 in base fifteen.
    let full = evaluate_five(&sevens_full());
    let key = 7 * 50625 + 7 * 3375 + 7 * 225 + 2 * 15 + 2;
    assert_eq!(full.score, 6 * CATEGORY_WEIGHT + key);
    // Royal flush: category 8, key is the top rank alone.
    let royal = evaluate_five(&royal_flush());
    assert_eq!(royal.score, 8 * CATEGORY_WEIGHT + 14 * 50625);
}

#[test]
fn wheel_is_the_lowest_straight() {
    let wheel = vec![c(Suit::Hearts, 14), c(Suit::Clubs, 2), c(Suit::Diamonds, 3), c(Suit::Spades, 4), c(Suit::Hearts, 5)];
    let six_high = vec![c(Suit::Hearts, 6), c(Suit::Clubs, 2), c(Suit::Diamonds, 3), c(Suit::Spades, 4), c(Suit::Hearts, 5)];
    let w = evaluate_five(&wheel);
    let s = evaluate_five(&six_high);
    assert_eq!(w.category, HandCategory::Straight);
    assert_eq!(s.category, HandCategory::Straight);
    assert_eq!(compare_hands(&w, &s), Ordering::Less);
}

#[test]
fn every_category_is_recognised() {
    let cases: Vec<(Vec<Card>, HandCategory)> = vec![
        (vec![c(Suit::Hearts, 2), c(Suit::Clubs, 5), c(Suit::Diamonds, 9), c(Suit::Spades, 11), c(Suit::Hearts, 13)], HandCategory::HighCard),
        (vec![c(Suit::Hearts, 2), c(Suit::Clubs, 2), c(Suit::Diamonds, 9), c(Suit::Spades, 11), c(Suit::Hearts, 13)], HandCategory::OnePair),
        (vec![c(Suit::Hearts, 2), c(Suit::Clubs, 2), c(Suit::Diamonds, 9), c(Suit::Spades, 9), c(Suit::Hearts, 13)], HandCategory::TwoPair),
        (vec![c(Suit::Hearts, 2), c(Suit::Clubs, 2), c(Suit::Diamonds, 2), c(Suit::Spades, 9), c(Suit::Hearts, 13)], HandCategory::ThreeOfAKind),
        (vec![c(Suit::Hearts, 8), c(Suit::Clubs, 9), c(Suit::Diamonds, 10), c(Suit::Spades, 11), c(Suit::Hearts, 12)], HandCategory::Straight),
        (vec![c(Suit::Hearts, 2), c(Suit::Hearts, 5), c(Suit::Hearts, 9), c(Suit::Hearts, 11), c(Suit::Hearts, 13)], HandCategory::Flush),
    ];
    for (cards, category) in cases {
        assert_eq!(evaluate_five(&cards).category, category);
    }
}

#[test]
fn kickers_break_ties_within_a_category() {
    let pair_king_kicker = vec![c(Suit::Hearts, 8), c(Suit::Clubs, 8), c(Suit::Diamonds, 13), c(Suit::Spades, 4), c(Suit::Hearts, 3)];
    let pair_queen_kicker = vec![c(Suit::Spades, 8), c(Suit::Diamonds, 8), c(Suit::Clubs, 12), c(Suit::Hearts, 4), c(Suit::Clubs, 3)];
    assert_eq!(
        compare_hands(&evaluate_five(&pair_king_kicker), &evaluate_five(&pair_queen_kicker)),
        Ordering::Greater
    );
}

#[test]
fn best_of_seven_cards() {
    // Hole cards A♠ K♠ with a board Q♠ J♠ 10♠ 2♦ 3♣ make a royal flush.
    let mut cards = vec![c(Suit::Spades, 14), c(Suit::Spades, 13)];
    cards.extend(vec![c(Suit::Spades, 12), c(Suit::Spades, 11), c(Suit::Spades, 10), c(Suit::Diamonds, 2), c(Suit::Clubs, 3)]);
    let best = evaluate(&cards).unwrap();
    assert_eq!(best, evaluate_five(&royal_flush()));
}

#[test]
fn fewer_than_five_cards_have_no_hand() {
    let cards = vec![c(Suit::Spades, 14), c(Suit::Spades, 13), c(Suit::Hearts, 2), c(Suit::Clubs, 3)];
    assert_eq!(evaluate(&cards), None);
}

#[test]
fn shared_straight_on_the_board_is_an_exact_tie() {
    let board = vec![c(Suit::Hearts, 5), c(Suit::Clubs, 6), c(Suit::Diamonds, 7), c(Suit::Spades, 8), c(Suit::Hearts, 9)];
    let mut first = vec![c(Suit::Clubs, 2), c(Suit::Diamonds, 3)];
    first.extend(board.clone());
    let mut second = vec![c(Suit::Spades, 2), c(Suit::Hearts, 3)];
    second.extend(board);
    let a = evaluate(&first).unwrap();
    let b = evaluate(&second).unwrap();
    assert_eq!(a, b);
    assert_eq!(compare_hands(&a, &b), Ordering::Equal);
}
