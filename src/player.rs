use vstd::prelude::*;
use crate::card::{Card, CardError};
use crate::deck::DeckError;
use crate::position::Position;
use crate::variant::PokerVariant;
use crate::reply::{parse_reply, reply_action};
use vstd::string::StringSliceAdditionalSpecFns;

verus! {

/// A move a seat can make when it is its turn. A check is a `Call` that owes nothing.
#[derive(Debug, Clone, Copy, PartialEq, Eq, Structural)]
pub enum Action {
    Fold,
    Call,
    /// Raise the street's bet to the given total.
    Raise(u32),
    /// Put in the whole remaining stack.
    AllIn,
}

impl Action {
    /// The total that a raise asks for; zero for every other action.
    pub fn amount(&self) -> (r: u32)
        ensures
            r == (match *self {
                Action::Raise(a) => a,
                _ => 0,
            }),
    {
        match self {
            Action::Raise(a) => *a,
            _ => 0,
        }
    }
}

/// Who chooses a seat's actions.
#[derive(Debug, Clone, Copy, PartialEq, Eq, Structural)]
pub enum PlayerType {
    Human,
    Bot,
}

/// Where a seat stands in the current hand.
#[derive(Debug, Clone, Copy, PartialEq, Eq, Structural)]
pub enum SeatStatus {
    Active,
    Folded,
    AllIn,
    SittingOut,
}

/// Why a seat operation failed.
#[derive(Debug, Clone, Copy, PartialEq, Eq, Structural)]
pub enum PlayerError {
    /// The seat already holds the variant's number of hole cards.
    TooManyCards,
    /// The reply could not be read as an action.
    InvalidInput,
    /// A raise did not go above the current bet.
    InvalidRaiseAmount,
    /// The bet is larger than the stack.
    InsufficientChips,
    /// Reading the reply failed.
    IoError,
    /// The hand holds the wrong number of cards for the variant.
    InvalidCardCount,
    CardError(CardError),
    DeckError(DeckError),
}

/// What a seat holds, as plain values.
pub struct PlayerView {
    pub name: Seq<char>,
    pub hand: Seq<Card>,
    pub chips: u32,
    pub bet_in_round: u32,
    pub position: Option<Position>,
    pub player_type: PlayerType,
    pub variant: PokerVariant,
    pub status: SeatStatus,
}

/// One seat at the table: its stack, hole cards, wager on the current street
/// and status.
pub struct Player {
    name: String,
    hand: Vec<Card>,
    chips: u32,
    bet_in_round: u32,
    position: Option<Position>,
    player_type: PlayerType,
    game_variant: PokerVariant,
    status: SeatStatus,
}

impl View for Player {
    type V = PlayerView;

    closed spec fn view(&self) -> PlayerView {
        PlayerView {
            name: self.name@,
            hand: self.hand@,
            chips: self.chips,
            bet_in_round: self.bet_in_round,
            position: self.position,
            player_type: self.player_type,
            variant: self.game_variant,
            status: self.status,
        }
    }
}

impl Player {
    /// The stack plus the street wager fit in a `u32`, and the seat never
    /// holds more hole cards than its variant deals.
    pub open spec fn wf(&self) -> bool {
        &&& self@.chips + self@.bet_in_round <= u32::MAX
        &&& self@.hand.len() <= self@.variant.spec_hole_cards()
    }

    /// A seat with the given name and stack, no cards, no wager, no role yet, active.
    pub fn new(name: String, buy_in: u32, player_type: PlayerType, variant: PokerVariant) -> (r:
        Player)
        ensures
            r.wf(),
            r@ == (PlayerView {
                name: name@,
                hand: Seq::empty(),
                chips: buy_in,
                bet_in_round: 0,
                position: None,
                player_type,
                variant,
                status: SeatStatus::Active,
            }),
    {
        Player {
            name,
            hand: Vec::with_capacity(variant.hole_cards()),
            chips: buy_in,
            bet_in_round: 0,
            position: None,
            player_type,
            game_variant: variant,
            status: SeatStatus::Active,
        }
    }

    /// Gives the seat a role for this hand.
    pub fn set_position(&mut self, position: Position)
        requires
            old(self).wf(),
        ensures
            final(self).wf(),
            final(self)@ == (PlayerView { position: Some(position), ..old(self)@ }),
    {
        self.position = Some(position);
    }

    /// Gives the seat a new role; the same as `set_position`.
    pub fn adjust_position(&mut self, position: Position)
        requires
            old(self).wf(),
        ensures
            final(self).wf(),
            final(self)@ == (PlayerView { position: Some(position), ..old(self)@ }),
    {
        self.set_position(position);
    }

    /// Adds a hole card; fails with `TooManyCards`, changing nothing, once the
    /// seat holds the variant's number of hole cards.
    pub fn receive_card(&mut self, card: Card) -> (r: Result<(), PlayerError>)
        requires
            old(self).wf(),
        ensures
            final(self).wf(),
            old(self)@.hand.len() >= old(self)@.variant.spec_hole_cards() ==> r == Err::<
                (),
                PlayerError,
            >(PlayerError::TooManyCards) && final(self)@ == old(self)@,
            old(self)@.hand.len() < old(self)@.variant.spec_hole_cards() ==> r is Ok
                && final(self)@ == (PlayerView { hand: old(self)@.hand.push(card), ..old(self)@ }),
    {
        if self.hand.len() >= self.game_variant.hole_cards() {
            return Err(PlayerError::TooManyCards);
        }
        self.hand.push(card);
        Ok(())
    }

    /// Whether the seat holds exactly the variant's number of hole cards.
    pub fn has_complete_hand(&self) -> (r: bool)
        ensures
            r <==> self@.hand.len() == self@.variant.spec_hole_cards(),
    {
        self.hand.len() == self.game_variant.hole_cards()
    }

    /// Drops the hole cards.
    pub fn clear_hand(&mut self)
        requires
            old(self).wf(),
        ensures
            final(self).wf(),
            final(self)@ == (PlayerView { hand: Seq::empty(), ..old(self)@ }),
    {
        self.hand.clear();
    }

    /// The seat's decision when the bet to match is `current_bet`. An
    /// automatic seat folds; a human seat's typed `reply` (and `amount`, for
    /// a raise) is read as `reply_action` says, and an unreadable or
    /// too-small reply is an error, so that the seat can be asked again.
    pub fn get_action(&self, current_bet: u32, reply: &str, amount: &str) -> (r: Result<
        Action,
        PlayerError,
    >)
        ensures
            self@.player_type == PlayerType::Bot ==> r == Ok::<Action, PlayerError>(Action::Fold),
            self@.player_type == PlayerType::Human ==> r == reply_action(
                reply.spec_bytes(),
                amount.spec_bytes(),
                current_bet,
            ),
    {
        match self.player_type {
            PlayerType::Human => parse_reply(reply, amount, current_bet),
            PlayerType::Bot => self.get_bot_action(current_bet),
        }
    }

    /// The action of an automatic seat: it always folds.
    pub fn get_bot_action(&self, _current_bet: u32) -> (r: Result<Action, PlayerError>)
        ensures
            r == Ok::<Action, PlayerError>(Action::Fold),
    {
        Ok(Action::Fold)
    }

    /// Moves `amount` from the stack to the street wager; fails with
    /// `InsufficientChips`, changing nothing, when the stack is smaller. A bet
    /// of the whole stack puts the seat all-in.
    pub fn place_bet(&mut self, amount: u32) -> (r: Result<(), PlayerError>)
        requires
            old(self).wf(),
        ensures
            final(self).wf(),
            amount > old(self)@.chips ==> r == Err::<(), PlayerError>(
                PlayerError::InsufficientChips,
            ) && final(self)@ == old(self)@,
            amount <= old(self)@.chips ==> r is Ok && final(self)@ == (PlayerView {
                chips: (old(self)@.chips - amount) as u32,
                bet_in_round: (old(self)@.bet_in_round + amount) as u32,
                status: if amount == old(self)@.chips && amount > 0 {
                    SeatStatus::AllIn
                } else {
                    old(self)@.status
                },
                ..old(self)@
            }),
    {
        if amount > self.chips {
            return Err(PlayerError::InsufficientChips);
        }
        if amount == self.chips && amount > 0 {
            self.status = SeatStatus::AllIn;
        }
        self.chips = self.chips - amount;
        self.bet_in_round = self.bet_in_round + amount;
        Ok(())
    }

    /// Adds winnings to the stack.
    pub fn win_pot(&mut self, amount: u32)
        requires
            old(self).wf(),
            old(self)@.chips + old(self)@.bet_in_round + amount <= u32::MAX,
        ensures
            final(self).wf(),
            final(self)@ == (PlayerView { chips: (old(self)@.chips + amount) as u32, ..old(self)@ }),
    {
        self.chips = self.chips + amount;
    }

    /// Zeroes the wager at the start of a street; stack, cards and status stay.
    pub fn reset_bet_in_round(&mut self)
        requires
            old(self).wf(),
        ensures
            final(self).wf(),
            final(self)@ == (PlayerView { bet_in_round: 0, ..old(self)@ }),
    {
        self.bet_in_round = 0;
    }

    /// Sets the stack as a hand settles it, with nothing wagered.
    pub fn set_stack(&mut self, chips: u32)
        requires
            old(self).wf(),
        ensures
            final(self).wf(),
            final(self)@ == (PlayerView { chips, bet_in_round: 0, ..old(self)@ }),
    {
        self.chips = chips;
        self.bet_in_round = 0;
    }

    /// Marks the seat as out of the current hand.
    pub fn fold(&mut self)
        requires
            old(self).wf(),
        ensures
            final(self).wf(),
            final(self)@ == (PlayerView { status: SeatStatus::Folded, ..old(self)@ }),
    {
        self.status = SeatStatus::Folded;
    }

    /// Sets up the seat for a new hand: no cards, no wager, and active again,
    /// unless the stack is empty, which sits the seat out.
    pub fn reset_for_hand(&mut self)
        requires
            old(self).wf(),
        ensures
            final(self).wf(),
            final(self)@ == (PlayerView {
                hand: Seq::empty(),
                bet_in_round: 0,
                status: if old(self)@.chips == 0 {
                    SeatStatus::SittingOut
                } else {
                    SeatStatus::Active
                },
                ..old(self)@
            }),
    {
        self.hand.clear();
        self.bet_in_round = 0;
        if self.chips == 0 {
            self.status = SeatStatus::SittingOut;
        } else {
            self.status = SeatStatus::Active;
        }
    }

    /// The stack.
    pub fn get_chips(&self) -> (r: u32)
        ensures
            r == self@.chips,
    {
        self.chips
    }

    /// The hole cards.
    pub fn get_hand(&self) -> (r: &[Card])
        ensures
            r@ == self@.hand,
    {
        self.hand.as_slice()
    }

    /// The wager on the current street.
    pub fn get_bet_in_round(&self) -> (r: u32)
        ensures
            r == self@.bet_in_round,
    {
        self.bet_in_round
    }

    /// Who chooses the seat's actions.
    pub fn get_player_type(&self) -> (r: PlayerType)
        ensures
            r == self@.player_type,
    {
        self.player_type
    }

    /// The seat's role, once one was given.
    pub fn get_position(&self) -> (r: Option<Position>)
        ensures
            r == self@.position,
    {
        self.position
    }

    /// The variant the seat is dealt for.
    pub fn game_variant(&self) -> (r: PokerVariant)
        ensures
            r == self@.variant,
    {
        self.game_variant
    }

    /// The seat's status in the hand.
    pub fn status(&self) -> (r: SeatStatus)
        ensures
            r == self@.status,
    {
        self.status
    }

    /// The seat's name.
    pub fn get_name(&self) -> (r: &String)
        ensures
            r@ == self@.name,
    {
        &self.name
    }
}

} // verus!
