use vstd::prelude::*;

verus! {

/// The four suits. No order is implied between them.
#[derive(Debug, Clone, Copy, PartialEq, Eq, Hash, Structural)]
pub enum Suit {
    Hearts,
    Diamonds,
    Clubs,
    Spades,
}

/// The lowest rank a card may carry (a two).
pub const MIN_RANK: u8 = 2;

/// The highest rank a card may carry (an ace; 11, 12, 13 are J, Q, K).
pub const MAX_RANK: u8 = 14;

/// A playing card: a suit and a rank in `MIN_RANK..=MAX_RANK`.
#[derive(Debug, Clone, Copy, PartialEq, Eq, Hash, Structural)]
pub struct Card {
    suit: Suit,
    rank: u8,
}

/// Why a card could not be made.
#[derive(Debug, Clone, Copy, PartialEq, Eq, Structural)]
pub enum CardError {
    /// The rank lies outside `MIN_RANK..=MAX_RANK`; it carries that rank.
    InvalidCardRank(u8),
}

/// Whether `rank` is the rank of a real card.
pub open spec fn valid_rank(rank: int) -> bool {
    MIN_RANK <= rank <= MAX_RANK
}

impl Card {
    /// The suit of the card, for specifications.
    pub closed spec fn spec_suit(self) -> Suit {
        self.suit
    }

    /// The rank of the card, for specifications.
    pub closed spec fn spec_rank(self) -> u8 {
        self.rank
    }

    /// The card of the given suit and rank, for specifications.
    pub closed spec fn spec_new(suit: Suit, rank: u8) -> Card {
        Card { suit, rank }
    }

    /// A card is determined by its suit and rank.
    pub broadcast proof fn lemma_fields(suit: Suit, rank: u8)
        ensures
            #[trigger] Card::spec_new(suit, rank).spec_suit() == suit,
            Card::spec_new(suit, rank).spec_rank() == rank,
    {
    }

    #[verifier::type_invariant]
    spec fn well_formed(self) -> bool {
        valid_rank(self.rank as int)
    }

    /// Makes the card `(suit, rank)`; fails with `InvalidCardRank(rank)`
    /// exactly when the rank is not in `MIN_RANK..=MAX_RANK`.
    pub fn new(suit: Suit, rank: u8) -> (r: Result<Card, CardError>)
        ensures
            valid_rank(rank as int) <==> r is Ok,
            r is Ok ==> r->Ok_0 == Card::spec_new(suit, rank),
            r is Err ==> r->Err_0 == CardError::InvalidCardRank(rank),
    {
        if rank < MIN_RANK || rank > MAX_RANK {
            return Err(CardError::InvalidCardRank(rank));
        }
        Ok(Card { suit, rank })
    }

    /// The suit of the card.
    pub fn suit(&self) -> (r: Suit)
        ensures
            r == self.spec_suit(),
    {
        self.suit
    }

    /// The rank of the card, always in `MIN_RANK..=MAX_RANK`.
    pub fn rank(&self) -> (r: u8)
        ensures
            r == self.spec_rank(),
            valid_rank(r as int),
    {
        proof {
            use_type_invariant(self);
        }
        self.rank
    }
}

} // verus!
