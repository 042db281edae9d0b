use vstd::prelude::*;
use vstd::seq_lib::*;
use crate::card::{Card, CardError, Suit, MAX_RANK, MIN_RANK};
use rand::seq::SliceRandom;

verus! {

/// Number of cards in a full deck.
pub const DECK_SIZE: usize = 52;

/// Number of ranks in each suit.
pub const RANKS_PER_SUIT: usize = 13;

/// The suit that comes `i`-th in the canonical order (Hearts, Diamonds, Clubs, Spades).
pub open spec fn suit_at(i: int) -> Suit {
    if i == 0 {
        Suit::Hearts
    } else if i == 1 {
        Suit::Diamonds
    } else if i == 2 {
        Suit::Clubs
    } else {
        Suit::Spades
    }
}

/// The `i`-th card of the canonical deck: suit-major, ranks ascending from two to ace.
pub open spec fn canonical_card(i: int) -> Card {
    Card::spec_new(suit_at(i / 13), (i % 13 + 2) as u8)
}

/// The full deck in canonical order.
pub open spec fn canonical_deck() -> Seq<Card> {
    Seq::new(52, |i: int| canonical_card(i))
}

/// A deck of cards. Cards are drawn from the end of the sequence.
pub struct Deck {
    cards: Vec<Card>,
}

/// Why a deck operation failed.
#[derive(Debug, Clone, Copy, PartialEq, Eq, Structural)]
pub enum DeckError {
    /// The deck holds no card to draw or burn.
    NotEnoughCards,
    /// A card could not be made.
    CardError(CardError),
}

impl View for Deck {
    type V = Seq<Card>;

    closed spec fn view(&self) -> Seq<Card> {
        self.cards@
    }
}

fn suit_of_index(i: usize) -> (r: Suit)
    requires
        i < 4,
    ensures
        r == suit_at(i as int),
{
    if i == 0 {
        Suit::Hearts
    } else if i == 1 {
        Suit::Diamonds
    } else if i == 2 {
        Suit::Clubs
    } else {
        Suit::Spades
    }
}

/// Relies on rand's `SliceRandom::shuffle` with `thread_rng`: it only swaps
/// elements of the slice, so the result is a permutation of the input.
#[verifier::external_body]
fn shuffle_cards(cards: &mut Vec<Card>)
    ensures
        final(cards)@.to_multiset() == old(cards)@.to_multiset(),
        final(cards)@.len() == old(cards)@.len(),
{
    let mut rng = rand::thread_rng();
    cards.shuffle(&mut rng);
}

/// The canonical deck holds 52 distinct cards.
pub proof fn lemma_canonical_deck_distinct()
    ensures
        canonical_deck().len() == 52,
        canonical_deck().no_duplicates(),
{
    broadcast use Card::lemma_fields;

    let d = canonical_deck();
    assert forall|i: int, j: int| 0 <= i < d.len() && 0 <= j < d.len() && i != j implies d[i]
        != d[j] by {
        if d[i] == d[j] {
            assert(d[i].spec_suit() == suit_at(i / 13));
            assert(d[j].spec_suit() == suit_at(j / 13));
            assert(d[i].spec_rank() == (i % 13 + 2) as u8);
            assert(d[j].spec_rank() == (j % 13 + 2) as u8);
            assert(0 <= i / 13 < 4 && 0 <= j / 13 < 4);
            assert(i / 13 == j / 13);
            assert(i % 13 == j % 13);
        }
    }
}

/// Every arrangement of the full deck, as a shuffle leaves it, holds each of
/// the 52 canonical cards exactly once and nothing else.
pub proof fn lemma_permuted_deck_is_full(s: Seq<Card>)
    requires
        s.to_multiset() == canonical_deck().to_multiset(),
    ensures
        s.len() == 52,
        s.no_duplicates(),
        forall|c: Card| s.contains(c) <==> canonical_deck().contains(c),
{
    broadcast use group_to_multiset_ensures;

    lemma_canonical_deck_distinct();
    canonical_deck().lemma_multiset_has_no_duplicates();
    s.lemma_multiset_has_no_duplicates_conv();
    assert(s.len() == s.to_multiset().len());
    assert(canonical_deck().len() == canonical_deck().to_multiset().len());
    assert forall|c: Card| s.contains(c) <==> canonical_deck().contains(c) by {
        assert(s.contains(c) <==> s.to_multiset().count(c) > 0);
        assert(canonical_deck().contains(c) <==> canonical_deck().to_multiset().count(c) > 0);
    }
}

impl Deck {
    /// An empty deck; `initialize` fills it.
    pub fn new() -> (r: Result<Deck, DeckError>)
        ensures
            r is Ok,
            r->Ok_0@ == Seq::<Card>::empty(),
    {
        Ok(Deck { cards: Vec::with_capacity(DECK_SIZE) })
    }

    /// Replaces the contents with the 52 cards in canonical order, whatever
    /// the deck held before; running it again gives the same deck.
    pub fn initialize(&mut self) -> (r: Result<(), DeckError>)
        ensures
            r is Ok,
            final(self)@ == canonical_deck(),
    {
        broadcast use Card::lemma_fields;

        self.cards.clear();
        let mut s: usize = 0;
        while s < 4
            invariant
                s <= 4,
                self.cards@ == canonical_deck().take((s * 13) as int),
            decreases 4 - s,
        {
            let suit = suit_of_index(s);
            let mut rank: u8 = MIN_RANK;
            while rank <= MAX_RANK
                invariant
                    s < 4,
                    MIN_RANK <= rank <= MAX_RANK + 1,
                    suit == suit_at(s as int),
                    self.cards@ == canonical_deck().take((s * 13 + rank - 2) as int),
                decreases MAX_RANK + 1 - rank,
            {
                let card = match Card::new(suit, rank) {
                    Ok(c) => c,
                    Err(e) => {
                        return Err(DeckError::CardError(e));
                    },
                };
                let ghost k: int = (s * 13 + rank - 2) as int;
                assert(k / 13 == s as int && k % 13 == rank - 2);
                self.cards.push(card);
                assert(self.cards@ =~= canonical_deck().take(k + 1));
                rank = rank + 1;
            }
            s = s + 1;
        }
        assert(self.cards@ =~= canonical_deck());
        Ok(())
    }

    /// Puts the cards in a random order; the deck keeps exactly the same cards.
    pub fn shuffle(&mut self)
        ensures
            final(self)@.to_multiset() == old(self)@.to_multiset(),
            final(self)@.len() == old(self)@.len(),
    {
        shuffle_cards(&mut self.cards);
    }

    /// Fills the deck with the 52 cards and shuffles it: the result is some
    /// arrangement of the canonical deck.
    pub fn initialize_and_shuffle(&mut self) -> (r: Result<(), DeckError>)
        ensures
            r is Ok,
            final(self)@.to_multiset() == canonical_deck().to_multiset(),
            final(self)@.len() == 52,
    {
        self.initialize()?;
        self.shuffle();
        Ok(())
    }

    /// Takes the top card (the last of the sequence); fails with
    /// `NotEnoughCards`, leaving the deck as it was, when it is empty.
    pub fn draw(&mut self) -> (r: Result<Card, DeckError>)
        ensures
            old(self)@.len() == 0 ==> r == Err::<Card, DeckError>(DeckError::NotEnoughCards)
                && final(self)@ == old(self)@,
            old(self)@.len() > 0 ==> r == Ok::<Card, DeckError>(old(self)@.last())
                && final(self)@ == old(self)@.drop_last(),
    {
        match self.cards.pop() {
            Some(c) => Ok(c),
            None => Err(DeckError::NotEnoughCards),
        }
    }

    /// Discards the top card without showing it; fails as `draw` does.
    pub fn burn(&mut self) -> (r: Result<(), DeckError>)
        ensures
            old(self)@.len() == 0 ==> r == Err::<(), DeckError>(DeckError::NotEnoughCards)
                && final(self)@ == old(self)@,
            old(self)@.len() > 0 ==> r is Ok && final(self)@ == old(self)@.drop_last(),
    {
        self.draw()?;
        Ok(())
    }

    /// The number of cards left to draw.
    pub fn remaining(&self) -> (r: usize)
        ensures
            r == self@.len(),
    {
        self.cards.len()
    }

    /// Removes every card.
    pub fn clear(&mut self)
        ensures
            final(self)@ == Seq::<Card>::empty(),
    {
        self.cards.clear();
    }
}

} // verus!
