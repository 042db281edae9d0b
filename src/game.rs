use vstd::prelude::*;
use crate::card::{Card, CardError};
use crate::deck::{canonical_deck, Deck, DeckError};
use crate::player::{Player, PlayerError, PlayerType, PlayerView};
use crate::variant::PokerVariant;
use crate::hand::{best_hand, evaluate};
use crate::position::{next_button, role_of_seat, spec_next_button, spec_role, valid_seat_count};
use crate::betting::{count_in_hand, chips_held, chips_committed, stacks_sum, in_hand, lemma_someone_in_hand, lemma_held_is_stacks_plus_pot, BettingRound, Seat};
use crate::pot::{build_pots, distribute, lemma_showdown_conserves_chips, payout_of, payout_sum, pots_of, total_sum, Pot};

verus! {

/// Why a game operation failed.
#[derive(Debug, Clone, Copy, PartialEq, Eq, Structural)]
pub enum GameError {
    /// The table must seat two to eight players.
    InvalidPlayerCount,
    /// No one is seated.
    NoPlayers,
    /// The action is not allowed now: the street is over, it is another
    /// seat's turn, the seat cannot act, or a raise does not exceed the bet.
    InvalidAction,
    /// The seat does not have the chips for the bet.
    InsufficientChips,
    /// Settling would leave a stack above `u32::MAX`.
    ChipOverflow,
    PlayerError(PlayerError),
    CardError(CardError),
    DeckError(DeckError),
}

/// The streets of a hand, in order, and its end.
#[derive(Debug, Clone, Copy, PartialEq, Eq, Structural)]
pub enum Street {
    Preflop,
    Flop,
    Turn,
    River,
    Final,
}

/// A read-only snapshot of the table for display.
pub struct GameState {
    pub community_cards: Vec<Card>,
    pub current_bet: u32,
    pub pot: u32,
    /// Each seat's name and wager on the current street, in table order.
    pub player_bets: Vec<(String, u32)>,
}

/// What follows a street whose betting is over.
#[derive(Debug, Clone, Copy, PartialEq, Eq, Structural)]
pub enum HandStep {
    DealFlop,
    DealTurn,
    DealRiver,
    /// The river is over with two or more seats in: evaluate and settle.
    Showdown,
    /// One seat or none is left: settle without dealing or evaluating.
    Uncontested,
}

/// A settled hand: its pots, what each seat won, and where the button goes.
pub struct Settlement {
    pub pots: Vec<Pot>,
    pub payouts: Vec<u64>,
    pub next_button: usize,
}

/// Per seat, whether it is out of the hand.
pub open spec fn folded_of(seats: Seq<Seat>) -> Seq<bool> {
    Seq::new(seats.len(), |i: int| !in_hand(seats[i]))
}

/// Per seat, what it put in over the hand.
pub open spec fn contributions_of(seats: Seq<Seat>) -> Seq<u32> {
    Seq::new(seats.len(), |i: int| seats[i].committed)
}

/// The showdown scores that settle a hand: a seat still in scores its best
/// hand when the pot is contested; otherwise every score is zero, so no hand
/// is evaluated.
pub open spec fn settle_scores(g: GameView, out: Seq<bool>, contested: bool) -> Seq<u32> {
    Seq::new(
        g.players.len(),
        |i: int|
            if !contested || out[i] {
                0
            } else {
                seat_score(g.players[i].hand, g.community)
            },
    )
}

/// The scores that settle a hand with the seats `seats` at table `g`.
pub open spec fn hand_scores(g: GameView, seats: Seq<Seat>) -> Seq<u32> {
    settle_scores(g, folded_of(seats), count_in_hand(seats, seats.len() as int) > 1)
}

/// The sum of the stacks of the first `n` seats.
pub open spec fn chips_total(players: Seq<PlayerView>, n: int) -> int
    decreases n,
{
    if n <= 0 {
        0
    } else {
        chips_total(players, n - 1) + players[n - 1].chips
    }
}

/// What comes after the betting on `street` is over: the next street's
/// cards while two or more seats are in, the showdown after the river, and
/// settlement at once when one seat or none is left.
pub open spec fn spec_next_step(street: Street, in_hand_count: int) -> HandStep {
    if in_hand_count <= 1 {
        HandStep::Uncontested
    } else {
        match street {
            Street::Preflop => HandStep::DealFlop,
            Street::Flop => HandStep::DealTurn,
            Street::Turn => HandStep::DealRiver,
            _ => HandStep::Showdown,
        }
    }
}

/// What follows a closed street, as `spec_next_step`.
pub fn next_step(street: Street, round: &BettingRound) -> (r: HandStep)
    requires
        round.wf(),
    ensures
        r == spec_next_step(street, count_in_hand(round@.seats, round@.seats.len() as int) as int),
{
    if round.seats_in_hand() <= 1 {
        return HandStep::Uncontested;
    }
    match street {
        Street::Preflop => HandStep::DealFlop,
        Street::Flop => HandStep::DealTurn,
        Street::Turn => HandStep::DealRiver,
        _ => HandStep::Showdown,
    }
}

/// Each seat's chips behind, when each of them plus the seat's winnings
/// fits in a `u32`.
fn stacks_if_fit(seats: &Vec<Seat>, payouts: &Vec<u64>) -> (r: Option<Vec<u32>>)
    requires
        seats@.len() == payouts@.len(),
    ensures
        r is Some <==> forall|i: int|
            0 <= i < seats@.len() ==> #[trigger] seats@[i].stack + payouts@[i] <= u32::MAX,
        r matches Some(b) ==> b@.len() == seats@.len() && forall|i: int|
            0 <= i < seats@.len() ==> #[trigger] b@[i] == seats@[i].stack,
{
    let n = seats.len();
    let mut behind: Vec<u32> = Vec::new();
    let mut i: usize = 0;
    while i < n
        invariant
            i <= n == seats@.len() == payouts@.len(),
            behind@.len() == i,
            forall|j: int| 0 <= j < i ==> #[trigger] behind@[j] == seats@[j].stack,
            forall|j: int| 0 <= j < i ==> #[trigger] seats@[j].stack + payouts@[j] <= u32::MAX,
        decreases n - i,
    {
        let stack = seats[i].stack;
        if payouts[i] > (0xffff_ffffu32 - stack) as u64 {
            return None;
        }
        behind.push(stack);
        i = i + 1;
    }
    Some(behind)
}

proof fn lemma_settled_totals(
    before: Seq<PlayerView>,
    mid: Seq<PlayerView>,
    after: Seq<PlayerView>,
    seats: Seq<Seat>,
    pots: Seq<Pot>,
    sc: Seq<u32>,
    payouts: Seq<u64>,
    button: int,
)
    requires
        before.len() == seats.len() == payouts.len(),
        forall|i: int| 0 <= i < seats.len() ==> #[trigger] seats[i].stack + payouts[i] <= u32::MAX,
        forall|i: int|
            0 <= i < seats.len() ==> #[trigger] payouts[i] == payout_of(
                pots,
                sc,
                button,
                i,
                pots.len() as int,
            ),
        mid == Seq::new(
            seats.len(),
            |i: int|
                PlayerView {
                    chips: (seats[i].stack + payouts[i]) as u32,
                    bet_in_round: 0,
                    ..before[i]
                },
        ),
        after == Seq::new(seats.len(), |i: int| PlayerView { hand: Seq::empty(), ..mid[i] }),
        payout_sum(pots, sc, button, seats.len() as int, pots.len() as int) == total_sum(
            contributions_of(seats),
            seats.len() as int,
        ),
    ensures
        after == Seq::new(
            seats.len(),
            |i: int|
                PlayerView {
                    chips: (seats[i].stack + payouts[i]) as u32,
                    bet_in_round: 0,
                    hand: Seq::empty(),
                    ..before[i]
                },
        ),
        chips_total(after, seats.len() as int) == chips_held(seats, seats.len() as int),
{
    let m = seats.len() as int;
    assert(after =~= Seq::new(
        seats.len(),
        |i: int|
            PlayerView {
                chips: (seats[i].stack + payouts[i]) as u32,
                bet_in_round: 0,
                hand: Seq::empty(),
                ..before[i]
            },
    ));
    lemma_chips_total_settled(after, seats, pots, sc, button, m);
    lemma_contributions_total(seats, m);
    lemma_held_is_stacks_plus_pot(seats, m);
}

proof fn lemma_chips_total_settled(
    players: Seq<PlayerView>,
    seats: Seq<Seat>,
    pots: Seq<Pot>,
    sc: Seq<u32>,
    button: int,
    m: int,
)
    requires
        0 <= m <= players.len(),
        players.len() == seats.len(),
        forall|i: int|
            0 <= i < players.len() ==> #[trigger] players[i].chips == seats[i].stack + payout_of(
                pots,
                sc,
                button,
                i,
                pots.len() as int,
            ),
    ensures
        chips_total(players, m) == stacks_sum(seats, m) + payout_sum(
            pots,
            sc,
            button,
            m,
            pots.len() as int,
        ),
    decreases m,
{
    if m > 0 {
        lemma_chips_total_settled(players, seats, pots, sc, button, m - 1);
    }
}

proof fn lemma_contributions_total(seats: Seq<Seat>, m: int)
    requires
        0 <= m <= seats.len(),
    ensures
        total_sum(contributions_of(seats), m) == chips_committed(seats, m),
    decreases m,
{
    if m > 0 {
        lemma_contributions_total(seats, m - 1);
    }
}

/// The stack each seat buys in for.
pub const STARTING_CHIPS: u32 = 1000;

/// Hole cards dealt to each seat at a Texas Hold'em table.
pub const HOLE_CARDS: usize = 2;

/// A Texas Hold'em table: its seats, the deck, the community cards and the
/// street being played.
pub struct PokerGame {
    players: Vec<Player>,
    deck: Deck,
    pot: u32,
    current_bet: u32,
    community_cards: Vec<Card>,
    rounds: Option<Street>,
}

/// What the table holds, as plain values.
pub struct GameView {
    pub players: Seq<PlayerView>,
    pub deck: Seq<Card>,
    pub pot: u32,
    pub current_bet: u32,
    pub community: Seq<Card>,
    pub round: Option<Street>,
}

impl View for PokerGame {
    type V = GameView;

    closed spec fn view(&self) -> GameView {
        GameView {
            players: self.players@.map_values(|p: Player| p@),
            deck: self.deck@,
            pot: self.pot,
            current_bet: self.current_bet,
            community: self.community_cards@,
            round: self.rounds,
        }
    }
}

/// The number of hole cards held by the first `n` seats.
pub open spec fn cards_in_hands(players: Seq<PlayerView>, n: int) -> int
    decreases n,
{
    if n <= 0 {
        0
    } else {
        cards_in_hands(players, n - 1) + players[n - 1].hand.len()
    }
}

/// A seat of this table: consistent and dealt Texas Hold'em.
pub open spec fn seat_ok(p: PlayerView) -> bool {
    &&& p.chips + p.bet_in_round <= u32::MAX
    &&& p.hand.len() <= p.variant.spec_hole_cards()
    &&& p.variant == PokerVariant::TexasHoldem
}

/// The showdown score of a seat holding `hole` with the board `community`:
/// the score of its best five-card hand, or zero without five cards.
pub open spec fn seat_score(hole: Seq<Card>, community: Seq<Card>) -> u32 {
    match best_hand(hole + community) {
        Some(v) => v.score,
        None => 0,
    }
}

/// The cards `deck` deals when `count` cards are drawn one by one from its top.
pub open spec fn drawn(deck: Seq<Card>, count: int) -> Seq<Card> {
    Seq::new(count as nat, |i: int| deck[deck.len() - 1 - i])
}

impl PokerGame {
    /// The table is consistent: at most eight seats, each a consistent
    /// Texas Hold'em seat.
    pub open spec fn wf(&self) -> bool {
        &&& self@.players.len() <= 8
        &&& forall|i: int| 0 <= i < self@.players.len() ==> seat_ok(#[trigger] self@.players[i])
    }

    /// An empty table: no seats, an empty deck, no community cards, no street.
    pub fn new() -> (r: Result<PokerGame, GameError>)
        ensures
            r is Ok,
            r->Ok_0.wf(),
            r->Ok_0@.players.len() == 0,
            r->Ok_0@.deck.len() == 0,
            r->Ok_0@.community.len() == 0,
            r->Ok_0@.pot == 0,
            r->Ok_0@.round is None,
    {
        let deck = match Deck::new() {
            Ok(d) => d,
            Err(e) => {
                return Err(GameError::DeckError(e));
            },
        };
        let game = PokerGame {
            players: Vec::new(),
            deck,
            pot: 0,
            current_bet: 0,
            community_cards: Vec::with_capacity(5),
            rounds: None,
        };
        assert(game@.players =~= Seq::<PlayerView>::empty());
        Ok(game)
    }

    /// Seats a human Texas Hold'em player with `STARTING_CHIPS` for each
    /// name, in order. Fails with `InvalidPlayerCount`, seating no one, when
    /// there are fewer than two or more than eight names, or the table would
    /// then hold more than eight seats.
    pub fn initialize_players(&mut self, player_names: Vec<String>) -> (r: Result<(), GameError>)
        requires
            old(self).wf(),
        ensures
            final(self).wf(),
            (player_names@.len() < 2 || player_names@.len() > 8 || old(self)@.players.len()
                + player_names@.len() > 8) ==> r == Err::<(), GameError>(
                GameError::InvalidPlayerCount,
            ) && final(self)@ == old(self)@,
            !(player_names@.len() < 2 || player_names@.len() > 8 || old(self)@.players.len()
                + player_names@.len() > 8) ==> r is Ok && final(self)@ == (GameView {
                players: old(self)@.players + Seq::new(
                    player_names@.len(),
                    |i: int|
                        PlayerView {
                            name: player_names@[i]@,
                            hand: Seq::empty(),
                            chips: STARTING_CHIPS,
                            bet_in_round: 0,
                            position: None,
                            player_type: PlayerType::Human,
                            variant: PokerVariant::TexasHoldem,
                            status: crate::player::SeatStatus::Active,
                        },
                ),
                ..old(self)@
            }),
    {
        let total_players = player_names.len();
        if total_players < 2 || total_players > 8 || self.players.len() + total_players > 8 {
            return Err(GameError::InvalidPlayerCount);
        }
        let ghost start_view = self@;
        let ghost start = self@.players;
        let ghost names = player_names@;
        let mut i: usize = 0;
        while i < total_players
            invariant
                names == player_names@,
                names.len() == total_players,
                start.len() + total_players <= 8,
                self@.players.len() == start.len() + i,
                i <= total_players,
                self.wf(),
                self@ == (GameView { players: self@.players, ..start_view }),
                start == start_view.players,
                forall|j: int| 0 <= j < start.len() ==> #[trigger] self@.players[j] == start[j],
                forall|j: int|
                    0 <= j < i ==> #[trigger] self@.players[start.len() + j] == (PlayerView {
                        name: names[j]@,
                        hand: Seq::empty(),
                        chips: STARTING_CHIPS,
                        bet_in_round: 0,
                        position: None,
                        player_type: PlayerType::Human,
                        variant: PokerVariant::TexasHoldem,
                        status: crate::player::SeatStatus::Active,
                    }),
            decreases total_players - i,
        {
            let name = player_names[i].clone();
            let player = Player::new(name, STARTING_CHIPS, PlayerType::Human, PokerVariant::TexasHoldem);
            let ghost before = self@.players;
            let ghost pv = player@;
            self.players.push(player);
            assert(self@.players =~= before.push(pv));
            i = i + 1;
        }
        assert forall|k: int| start.len() <= k < self@.players.len() implies #[trigger] self@.players[k]
            == (PlayerView {
            name: names[k - start.len()]@,
            hand: Seq::empty(),
            chips: STARTING_CHIPS,
            bet_in_round: 0,
            position: None,
            player_type: PlayerType::Human,
            variant: PokerVariant::TexasHoldem,
            status: crate::player::SeatStatus::Active,
        }) by {
            assert(self@.players[start.len() + (k - start.len())] == self@.players[k]);
        }
        assert(self@.players =~= start + Seq::new(
            player_names@.len(),
            |i: int|
                PlayerView {
                    name: player_names@[i]@,
                    hand: Seq::empty(),
                    chips: STARTING_CHIPS,
                    bet_in_round: 0,
                    position: None,
                    player_type: PlayerType::Human,
                    variant: PokerVariant::TexasHoldem,
                    status: crate::player::SeatStatus::Active,
                },
        ));
        Ok(())
    }

    fn deal_one_round(&mut self) -> (r: Result<(), GameError>)
        requires
            old(self).wf(),
            old(self)@.deck.len() >= old(self)@.players.len(),
            forall|i: int|
                0 <= i < old(self)@.players.len() ==> #[trigger] old(self)@.players[i].hand.len()
                    < HOLE_CARDS,
        ensures
            r is Ok,
            final(self).wf(),
            final(self)@ == (GameView {
                players: Seq::new(
                    old(self)@.players.len(),
                    |i: int|
                        PlayerView {
                            hand: old(self)@.players[i].hand.push(
                                old(self)@.deck[old(self)@.deck.len() - 1 - i],
                            ),
                            ..old(self)@.players[i]
                        },
                ),
                deck: old(self)@.deck.take(old(self)@.deck.len() - old(self)@.players.len()),
                ..old(self)@
            }),
    {
        let ghost start = self@;
        let n = self.players.len();
        let mut p: usize = 0;
        while p < n
            invariant
                n == self@.players.len() == start.players.len(),
                p <= n,
                start.deck.len() >= n,
                self.wf(),
                self@.deck == start.deck.take(start.deck.len() - p),
                self@ == (GameView { players: self@.players, deck: self@.deck, ..start }),
                forall|i: int|
                    0 <= i < p ==> #[trigger] self@.players[i] == (PlayerView {
                        hand: start.players[i].hand.push(start.deck[start.deck.len() - 1 - i]),
                        ..start.players[i]
                    }),
                forall|i: int| p <= i < n ==> #[trigger] self@.players[i] == start.players[i],
                forall|i: int| 0 <= i < n ==> #[trigger] start.players[i].hand.len() < HOLE_CARDS,
            decreases n - p,
        {
            let card = match self.deck.draw() {
                Ok(c) => c,
                Err(e) => {
                    return Err(GameError::DeckError(e));
                },
            };
            let ghost before = self@.players;
            proof {
                assert(self.players@[p as int]@ == self@.players[p as int]);
            }
            let res = self.players[p].receive_card(card);
            assert(self@.players =~= before.update(
                p as int,
                PlayerView { hand: before[p as int].hand.push(card), ..before[p as int] },
            ));
            match res {
                Ok(()) => {},
                Err(e) => {
                    return Err(GameError::PlayerError(e));
                },
            }
            p = p + 1;
        }
        assert(self@.players =~= Seq::new(
            start.players.len(),
            |i: int|
                PlayerView {
                    hand: start.players[i].hand.push(start.deck[start.deck.len() - 1 - i]),
                    ..start.players[i]
                },
        ));
        Ok(())
    }

    /// Deals two hole cards to every seat, one at a time round the table,
    /// from the top of the deck. Fails, changing nothing, with
    /// `NotEnoughCards` when the deck holds fewer than two cards per seat,
    /// or else with `TooManyCards` when some seat already holds a card.
    pub fn deal_player_cards(&mut self) -> (r: Result<(), GameError>)
        requires
            old(self).wf(),
        ensures
            final(self).wf(),
            old(self)@.deck.len() < 2 * old(self)@.players.len() ==> r == Err::<(), GameError>(
                GameError::DeckError(DeckError::NotEnoughCards),
            ) && final(self)@ == old(self)@,
            old(self)@.deck.len() >= 2 * old(self)@.players.len() && (exists|i: int|
                0 <= i < old(self)@.players.len() && #[trigger] old(self)@.players[i].hand.len()
                    > 0) ==> r == Err::<(), GameError>(
                GameError::PlayerError(PlayerError::TooManyCards),
            ) && final(self)@ == old(self)@,
            old(self)@.deck.len() >= 2 * old(self)@.players.len() && (forall|i: int|
                0 <= i < old(self)@.players.len() ==> #[trigger] old(self)@.players[i].hand.len()
                    == 0) ==> r is Ok && final(self)@ == (GameView {
                players: Seq::new(
                    old(self)@.players.len(),
                    |i: int|
                        PlayerView {
                            hand: seq![
                                drawn(old(self)@.deck, 2 * old(self)@.players.len() as int)[i],
                                drawn(old(self)@.deck, 2 * old(self)@.players.len() as int)[old(
                                    self,
                                )@.players.len() + i],
                            ],
                            ..old(self)@.players[i]
                        },
                ),
                deck: old(self)@.deck.take(old(self)@.deck.len() - 2 * old(self)@.players.len()),
                ..old(self)@
            }),
    {
        let n = self.players.len();
        if self.deck.remaining() < 2 * n {
            return Err(GameError::DeckError(DeckError::NotEnoughCards));
        }
        let ghost first = self@;
        let mut i: usize = 0;
        while i < n
            invariant
                n == self@.players.len(),
                i <= n,
                self.wf(),
                self@ == first,
                self@.deck.len() >= 2 * n,
                forall|j: int| 0 <= j < i ==> #[trigger] self@.players[j].hand.len() == 0,
            decreases n - i,
        {
            proof {
                assert(self.players@[i as int]@ == self@.players[i as int]);
            }
            if self.players[i].get_hand().len() > 0 {
                return Err(GameError::PlayerError(PlayerError::TooManyCards));
            }
            i = i + 1;
        }
        let ghost start = self@;
        self.deal_one_round()?;
        let ghost mid = self@;
        self.deal_one_round()?;
        proof {
            let d = start.deck;
            let m = d.len() - n;
            assert(mid.deck =~= d.take(m));
            assert(self@.deck =~= d.take(d.len() - 2 * n));
            assert forall|i: int| 0 <= i < n implies #[trigger] self@.players[i] == (PlayerView {
                hand: seq![drawn(d, 2 * n)[i], drawn(d, 2 * n)[n + i]],
                ..start.players[i]
            }) by {
                assert(mid.deck[mid.deck.len() - 1 - i] == d[d.len() - 1 - (n + i)]);
                assert(self@.players[i].hand =~= seq![drawn(d, 2 * n)[i], drawn(d, 2 * n)[n + i]]);
            }
            assert(self@.players =~= Seq::new(
                n as nat,
                |i: int|
                    PlayerView {
                        hand: seq![drawn(d, 2 * n)[i], drawn(d, 2 * n)[n + i]],
                        ..start.players[i]
                    },
            ));
        }
        Ok(())
    }

    /// Burns the top card and deals `num_cards` community cards from the top.
    /// Fails with `NotEnoughCards`, changing nothing, when the deck holds
    /// fewer than `num_cards + 1` cards.
    pub fn deal_community_cards(&mut self, num_cards: usize) -> (r: Result<(), GameError>)
        requires
            old(self).wf(),
        ensures
            final(self).wf(),
            old(self)@.deck.len() < num_cards + 1 ==> r == Err::<(), GameError>(
                GameError::DeckError(DeckError::NotEnoughCards),
            ) && final(self)@ == old(self)@,
            old(self)@.deck.len() >= num_cards + 1 ==> r is Ok && final(self)@ == (GameView {
                community: old(self)@.community + drawn(old(self)@.deck.drop_last(), num_cards as int),
                deck: old(self)@.deck.take(old(self)@.deck.len() - 1 - num_cards),
                ..old(self)@
            }),
    {
        if self.deck.remaining() <= num_cards {
            return Err(GameError::DeckError(DeckError::NotEnoughCards));
        }
        let ghost start = self@;
        self.deck.burn().map_err(|e: DeckError| GameError::DeckError(e))?;
        let ghost burned = self@.deck;
        let mut k: usize = 0;
        while k < num_cards
            invariant
                k <= num_cards,
                burned == start.deck.drop_last(),
                burned.len() >= num_cards,
                self.wf(),
                self@.deck == burned.take(burned.len() - k),
                self@.community == start.community + drawn(burned, k as int),
                self@ == (GameView { deck: self@.deck, community: self@.community, ..start }),
            decreases num_cards - k,
        {
            let card = match self.deck.draw() {
                Ok(c) => c,
                Err(e) => {
                    return Err(GameError::DeckError(e));
                },
            };
            self.community_cards.push(card);
            assert(self@.community =~= start.community + drawn(burned, k + 1));
            assert(self@.deck =~= burned.take(burned.len() - (k + 1)));
            k = k + 1;
        }
        assert(self@.deck =~= start.deck.take(start.deck.len() - 1 - num_cards));
        Ok(())
    }

    /// Burns a card, deals three community cards and moves to the flop.
    pub fn flop(&mut self) -> (r: Result<(), GameError>)
        requires
            old(self).wf(),
        ensures
            final(self).wf(),
            old(self)@.deck.len() < 4 ==> r is Err && final(self)@ == old(self)@,
            old(self)@.deck.len() >= 4 ==> r is Ok && final(self)@ == (GameView {
                community: old(self)@.community + drawn(old(self)@.deck.drop_last(), 3),
                deck: old(self)@.deck.take(old(self)@.deck.len() - 4),
                round: Some(Street::Flop),
                ..old(self)@
            }),
    {
        self.deal_community_cards(3)?;
        self.rounds = Some(Street::Flop);
        Ok(())
    }

    /// Burns a card, deals the fourth community card and moves to the turn.
    pub fn turn(&mut self) -> (r: Result<(), GameError>)
        requires
            old(self).wf(),
        ensures
            final(self).wf(),
            old(self)@.deck.len() < 2 ==> r is Err && final(self)@ == old(self)@,
            old(self)@.deck.len() >= 2 ==> r is Ok && final(self)@ == (GameView {
                community: old(self)@.community + drawn(old(self)@.deck.drop_last(), 1),
                deck: old(self)@.deck.take(old(self)@.deck.len() - 2),
                round: Some(Street::Turn),
                ..old(self)@
            }),
    {
        self.deal_community_cards(1)?;
        self.rounds = Some(Street::Turn);
        Ok(())
    }

    /// Burns a card, deals the fifth community card and moves to the river.
    pub fn river(&mut self) -> (r: Result<(), GameError>)
        requires
            old(self).wf(),
        ensures
            final(self).wf(),
            old(self)@.deck.len() < 2 ==> r is Err && final(self)@ == old(self)@,
            old(self)@.deck.len() >= 2 ==> r is Ok && final(self)@ == (GameView {
                community: old(self)@.community + drawn(old(self)@.deck.drop_last(), 1),
                deck: old(self)@.deck.take(old(self)@.deck.len() - 2),
                round: Some(Street::River),
                ..old(self)@
            }),
    {
        self.deal_community_cards(1)?;
        self.rounds = Some(Street::River);
        Ok(())
    }

    /// Fills the deck with the 52 cards and shuffles it.
    pub fn new_deck(&mut self) -> (r: Result<(), GameError>)
        requires
            old(self).wf(),
        ensures
            r is Ok,
            final(self).wf(),
            final(self)@ == (GameView { deck: final(self)@.deck, ..old(self)@ }),
            final(self)@.deck.len() == 52,
            final(self)@.deck.to_multiset() == canonical_deck().to_multiset(),
    {
        self.deck.initialize().map_err(|e: DeckError| GameError::DeckError(e))?;
        self.deck.shuffle();
        Ok(())
    }

    /// Empties the deck.
    pub fn clear_deck(&mut self)
        requires
            old(self).wf(),
        ensures
            final(self).wf(),
            final(self)@ == (GameView { deck: Seq::empty(), ..old(self)@ }),
    {
        self.deck.clear();
    }

    /// Ends the hand: no community cards, an empty pot, no bet, no street,
    /// no hole cards, and a freshly filled and shuffled deck.
    pub fn end_game(&mut self) -> (r: Result<(), GameError>)
        requires
            old(self).wf(),
        ensures
            r is Ok,
            final(self).wf(),
            final(self)@.community.len() == 0,
            final(self)@.pot == 0,
            final(self)@.current_bet == 0,
            final(self)@.round is None,
            final(self)@.players == Seq::new(
                old(self)@.players.len(),
                |i: int| PlayerView { hand: Seq::empty(), ..old(self)@.players[i] },
            ),
            final(self)@.deck.len() == 52,
            final(self)@.deck.to_multiset() == canonical_deck().to_multiset(),
    {
        self.rounds = Some(Street::Final);
        self.community_cards.clear();
        self.pot = 0;
        self.current_bet = 0;
        self.rounds = None;
        let ghost snapshot = self@;
        let ghost start = self@.players;
        let n = self.players.len();
        let mut i: usize = 0;
        while i < n
            invariant
                n == self@.players.len() == start.len(),
                i <= n,
                self.wf(),
                self@ == (GameView { players: self@.players, ..snapshot }),
                snapshot.community.len() == 0,
                snapshot.pot == 0,
                snapshot.current_bet == 0,
                snapshot.round is None,
                forall|j: int|
                    0 <= j < i ==> #[trigger] self@.players[j] == (PlayerView {
                        hand: Seq::empty(),
                        ..start[j]
                    }),
                forall|j: int| i <= j < n ==> #[trigger] self@.players[j] == start[j],
            decreases n - i,
        {
            let ghost before = self@.players;
            proof {
                assert(self.players@[i as int]@ == self@.players[i as int]);
            }
            self.players[i].clear_hand();
            assert(self@.players =~= before.update(
                i as int,
                PlayerView { hand: Seq::empty(), ..before[i as int] },
            ));
            i = i + 1;
        }
        assert(self@.players =~= Seq::new(
            start.len(),
            |i: int| PlayerView { hand: Seq::empty(), ..start[i] },
        ));
        self.deck.initialize_and_shuffle().map_err(|e: DeckError| GameError::DeckError(e))?;
        Ok(())
    }

    /// The number of seats.
    pub fn num_players(&self) -> (r: usize)
        ensures
            r == self@.players.len(),
    {
        self.players.len()
    }

    /// Fails with `NoPlayers` exactly when no one is seated.
    pub fn check_no_players(&self) -> (r: Result<(), GameError>)
        ensures
            self@.players.len() == 0 <==> r == Err::<(), GameError>(GameError::NoPlayers),
            self@.players.len() > 0 <==> r is Ok,
    {
        if self.players.is_empty() {
            return Err(GameError::NoPlayers);
        }
        Ok(())
    }

    /// The number of cards left in the deck.
    pub fn num_cards_in_deck(&self) -> (r: usize)
        ensures
            r == self@.deck.len(),
    {
        self.deck.remaining()
    }

    /// The number of community cards dealt.
    pub fn num_community_cards(&self) -> (r: usize)
        ensures
            r == self@.community.len(),
    {
        self.community_cards.len()
    }

    /// The number of hole cards held over all seats.
    pub fn num_cards_in_hands(&self) -> (r: usize)
        requires
            self.wf(),
        ensures
            r == cards_in_hands(self@.players, self@.players.len() as int),
    {
        let n = self.players.len();
        let mut total: usize = 0;
        let mut i: usize = 0;
        while i < n
            invariant
                n == self@.players.len() <= 8,
                i <= n,
                self.wf(),
                total == cards_in_hands(self@.players, i as int),
                total <= 2 * i,
            decreases n - i,
        {
            proof {
                assert(self.players@[i as int]@ == self@.players[i as int]);
                assert(seat_ok(self@.players[i as int]));
            }
            total = total + self.players[i].get_hand().len();
            i = i + 1;
        }
        total
    }

    /// The community cards dealt so far.
    pub fn get_community_cards(&self) -> (r: &Vec<Card>)
        ensures
            r@ == self@.community,
    {
        &self.community_cards
    }

    /// The street being played, if a hand is under way.
    pub fn get_round(&self) -> (r: Option<Street>)
        ensures
            r == self@.round,
    {
        self.rounds
    }

    /// The chips in the pot.
    pub fn pot(&self) -> (r: u32)
        ensures
            r == self@.pot,
    {
        self.pot
    }

    /// The seats, in table order.
    pub fn players(&self) -> (r: &Vec<Player>)
        ensures
            r@.map_values(|p: Player| p@) == self@.players,
    {
        &self.players
    }

    /// Gives every seat its role for a hand with the button at `button`.
    pub fn assign_positions(&mut self, button: usize)
        requires
            old(self).wf(),
            valid_seat_count(old(self)@.players.len() as int),
            button < old(self)@.players.len(),
        ensures
            final(self).wf(),
            final(self)@ == (GameView {
                players: Seq::new(
                    old(self)@.players.len(),
                    |i: int|
                        PlayerView {
                            position: Some(
                                spec_role(i, button as int, old(self)@.players.len() as int),
                            ),
                            ..old(self)@.players[i]
                        },
                ),
                ..old(self)@
            }),
    {
        let ghost start = self@;
        let n = self.players.len();
        let mut i: usize = 0;
        while i < n
            invariant
                n == self@.players.len() == start.players.len(),
                valid_seat_count(n as int),
                button < n,
                i <= n,
                self.wf(),
                self@ == (GameView { players: self@.players, ..start }),
                forall|j: int|
                    0 <= j < i ==> #[trigger] self@.players[j] == (PlayerView {
                        position: Some(spec_role(j, button as int, n as int)),
                        ..start.players[j]
                    }),
                forall|j: int| i <= j < n ==> #[trigger] self@.players[j] == start.players[j],
            decreases n - i,
        {
            let role = role_of_seat(i, button, n);
            let ghost before = self@.players;
            proof {
                assert(self.players@[i as int]@ == self@.players[i as int]);
            }
            self.players[i].set_position(role);
            assert(self@.players =~= before.update(
                i as int,
                PlayerView { position: Some(role), ..before[i as int] },
            ));
            i = i + 1;
        }
        assert(self@.players =~= Seq::new(
            n as nat,
            |i: int|
                PlayerView {
                    position: Some(spec_role(i, button as int, n as int)),
                    ..start.players[i]
                },
        ));
    }

    /// Each seat's stack, in table order.
    pub fn stacks(&self) -> (r: Vec<u32>)
        ensures
            r@.len() == self@.players.len(),
            forall|i: int| 0 <= i < r@.len() ==> #[trigger] r@[i] == self@.players[i].chips,
    {
        let mut r: Vec<u32> = Vec::new();
        let mut i: usize = 0;
        while i < self.players.len()
            invariant
                i <= self@.players.len() == self.players@.len(),
                r@.len() == i,
                forall|j: int| 0 <= j < i ==> #[trigger] r@[j] == self@.players[j].chips,
            decreases self@.players.len() - i,
        {
            proof {
                assert(self.players@[i as int]@ == self@.players[i as int]);
            }
            r.push(self.players[i].get_chips());
            i = i + 1;
        }
        r
    }

    /// The showdown score of every seat: `seat_score` of its hole cards and
    /// the board for a seat still in, zero for one that is out.
    pub fn showdown_scores(&self, out: &Vec<bool>) -> (r: Vec<u32>)
        requires
            out@.len() == self@.players.len(),
        ensures
            r@.len() == self@.players.len(),
            forall|i: int|
                0 <= i < r@.len() ==> #[trigger] r@[i] == if out@[i] {
                    0
                } else {
                    seat_score(self@.players[i].hand, self@.community)
                },
    {
        let n = self.players.len();
        let mut r: Vec<u32> = Vec::new();
        let mut i: usize = 0;
        while i < n
            invariant
                n == self@.players.len() == self.players@.len() == out@.len(),
                i <= n,
                r@.len() == i,
                forall|j: int|
                    0 <= j < i ==> #[trigger] r@[j] == if out@[j] {
                        0
                    } else {
                        seat_score(self@.players[j].hand, self@.community)
                    },
            decreases n - i,
        {
            if out[i] {
                r.push(0);
            } else {
                proof {
                    assert(self.players@[i as int]@ == self@.players[i as int]);
                }
                let hole = self.players[i].get_hand();
                let mut cards: Vec<Card> = Vec::new();
                let mut k: usize = 0;
                while k < hole.len()
                    invariant
                        k <= hole@.len(),
                        cards@ == hole@.take(k as int),
                    decreases hole@.len() - k,
                {
                    cards.push(hole[k]);
                    assert(cards@ =~= hole@.take(k + 1));
                    k = k + 1;
                }
                let mut m: usize = 0;
                while m < self.community_cards.len()
                    invariant
                        m <= self@.community.len(),
                        k == hole@.len(),
                        cards@ == hole@ + self@.community.take(m as int),
                    decreases self@.community.len() - m,
                {
                    cards.push(self.community_cards[m]);
                    assert(cards@ =~= hole@ + self@.community.take(m + 1));
                    m = m + 1;
                }
                assert(cards@ =~= hole@ + self@.community);
                let score = match evaluate(&cards) {
                    Some(v) => v.score,
                    None => 0,
                };
                r.push(score);
            }
            i = i + 1;
        }
        r
    }

    /// Settles the hand: each seat's stack becomes what it has behind plus
    /// what it won, nothing stays wagered, and the pot is empty.
    pub fn settle(&mut self, behind: &Vec<u32>, won: &Vec<u64>)
        requires
            old(self).wf(),
            behind@.len() == old(self)@.players.len(),
            won@.len() == old(self)@.players.len(),
            forall|i: int| 0 <= i < behind@.len() ==> #[trigger] behind@[i] + won@[i] <= u32::MAX,
        ensures
            final(self).wf(),
            final(self)@ == (GameView {
                players: Seq::new(
                    old(self)@.players.len(),
                    |i: int|
                        PlayerView {
                            chips: (behind@[i] + won@[i]) as u32,
                            bet_in_round: 0,
                            ..old(self)@.players[i]
                        },
                ),
                pot: 0,
                current_bet: 0,
                ..old(self)@
            }),
    {
        self.pot = 0;
        self.current_bet = 0;
        let ghost start = self@;
        let n = self.players.len();
        let mut i: usize = 0;
        while i < n
            invariant
                n == self@.players.len() == start.players.len() == behind@.len() == won@.len(),
                forall|j: int| 0 <= j < n ==> #[trigger] behind@[j] + won@[j] <= u32::MAX,
                i <= n,
                self.wf(),
                self@ == (GameView { players: self@.players, ..start }),
                forall|j: int|
                    0 <= j < i ==> #[trigger] self@.players[j] == (PlayerView {
                        chips: (behind@[j] + won@[j]) as u32,
                        bet_in_round: 0,
                        ..start.players[j]
                    }),
                forall|j: int| i <= j < n ==> #[trigger] self@.players[j] == start.players[j],
            decreases n - i,
        {
            let chips = (behind[i] as u64 + won[i]) as u32;
            let ghost before = self@.players;
            proof {
                assert(self.players@[i as int]@ == self@.players[i as int]);
                assert(behind@[i as int] + won@[i as int] <= u32::MAX);
            }
            self.players[i].set_stack(chips);
            assert(self@.players =~= before.update(
                i as int,
                PlayerView { chips, bet_in_round: 0, ..before[i as int] },
            ));
            i = i + 1;
        }
        assert(self@.players =~= Seq::new(
            n as nat,
            |i: int|
                PlayerView {
                    chips: (behind@[i] + won@[i]) as u32,
                    bet_in_round: 0,
                    ..start.players[i]
                },
        ));
    }

    /// A snapshot of the table: the board, the bet, the pot and each seat's
    /// name and wager on the street.
    pub fn state(&self) -> (r: GameState)
        ensures
            r.community_cards@ == self@.community,
            r.current_bet == self@.current_bet,
            r.pot == self@.pot,
            r.player_bets@.len() == self@.players.len(),
            forall|i: int|
                0 <= i < r.player_bets@.len() ==> (#[trigger] r.player_bets@[i]).0@
                    == self@.players[i].name && r.player_bets@[i].1 == self@.players[i].bet_in_round,
    {
        let mut bets: Vec<(String, u32)> = Vec::new();
        let mut i: usize = 0;
        while i < self.players.len()
            invariant
                i <= self@.players.len() == self.players@.len(),
                bets@.len() == i,
                forall|j: int|
                    0 <= j < i ==> (#[trigger] bets@[j]).0@ == self@.players[j].name && bets@[j].1
                        == self@.players[j].bet_in_round,
            decreases self@.players.len() - i,
        {
            proof {
                assert(self.players@[i as int]@ == self@.players[i as int]);
            }
            let name = self.players[i].get_name().clone();
            bets.push((name, self.players[i].get_bet_in_round()));
            i = i + 1;
        }
        GameState {
            community_cards: self.community_cards.clone(),
            current_bet: self.current_bet,
            pot: self.pot,
            player_bets: bets,
        }
    }

    /// Settles a hand whose betting is over. Pots are built from what each
    /// seat put in (`pots_of`); when two or more seats are in, each seat
    /// still in is scored on its best hand (`seat_score`), and otherwise no
    /// hand is evaluated; each pot is paid out as `payout_of` says; each
    /// stack becomes its chips behind plus its winnings; then the table is
    /// reset as `end_game` does and the button moves one seat on. It fails
    /// with `NoPlayers` when no seat is left in the hand, and with
    /// `ChipOverflow` when a stack would exceed `u32::MAX`; a failure
    /// changes nothing. No chip is made or lost: the stacks afterwards add up
    /// to the chips the seats held in the hand.
    /// The scores `hand_scores` gives for the seats of `round`, where `out`
    /// marks the seats out of the hand.
    fn settle_scores_exec(&self, round: &BettingRound, out: &Vec<bool>) -> (r: Vec<u32>)
        requires
            round.wf(),
            round@.seats.len() == self@.players.len(),
            out@ == folded_of(round@.seats),
        ensures
            r@ == hand_scores(self@, round@.seats),
    {
        let n = self.players.len();
        if round.seats_in_hand() <= 1 {
            let mut scores: Vec<u32> = Vec::new();
            let mut i: usize = 0;
            while i < n
                invariant
                    i <= n,
                    scores@.len() == i,
                    forall|j: int| 0 <= j < i ==> #[trigger] scores@[j] == 0,
                decreases n - i,
            {
                scores.push(0);
                i = i + 1;
            }
            assert(scores@ =~= hand_scores(self@, round@.seats));
            scores
        } else {
            let scores = self.showdown_scores(out);
            assert(scores@ =~= hand_scores(self@, round@.seats));
            scores
        }
    }

    pub fn settle_hand(&mut self, round: &BettingRound, button: usize) -> (r: Result<
        Settlement,
        GameError,
    >)
        requires
            old(self).wf(),
            round.wf(),
            round@.seats.len() == old(self)@.players.len(),
            button < round@.seats.len(),
        ensures
            final(self).wf(),
            r is Err ==> final(self)@ == old(self)@,
            count_in_hand(round@.seats, round@.seats.len() as int) == 0 ==> r is Err && r->Err_0
                == GameError::NoPlayers,
            count_in_hand(round@.seats, round@.seats.len() as int) > 0 && r is Err ==> r->Err_0
                == GameError::ChipOverflow && exists|p: Seq<Pot>, i: int|
                #![trigger pots_of(contributions_of(round@.seats), folded_of(round@.seats), p), round@.seats[i]]
                pots_of(contributions_of(round@.seats), folded_of(round@.seats), p) && 0 <= i
                    < round@.seats.len() && round@.seats[i].stack + payout_of(
                    p,
                    hand_scores(old(self)@, round@.seats),
                    button as int,
                    i,
                    p.len() as int,
                ) > u32::MAX,
            r is Ok ==> {
                let v = round@;
                let n = v.seats.len() as int;
                let st = r->Ok_0;
                let sc = hand_scores(old(self)@, v.seats);
                &&& pots_of(contributions_of(v.seats), folded_of(v.seats), st.pots@)
                &&& st.payouts@.len() == n
                &&& forall|i: int|
                    0 <= i < n ==> #[trigger] st.payouts@[i] == payout_of(
                        st.pots@,
                        sc,
                        button as int,
                        i,
                        st.pots@.len() as int,
                    )
                &&& final(self)@.players == Seq::new(
                    n as nat,
                    |i: int|
                        PlayerView {
                            chips: (v.seats[i].stack + st.payouts@[i]) as u32,
                            bet_in_round: 0,
                            hand: Seq::empty(),
                            ..old(self)@.players[i]
                        },
                )
                &&& chips_total(final(self)@.players, n) == chips_held(v.seats, n)
                &&& final(self)@.community.len() == 0
                &&& final(self)@.pot == 0
                &&& final(self)@.round is None
                &&& final(self)@.deck.len() == 52
                &&& final(self)@.deck.to_multiset() == canonical_deck().to_multiset()
                &&& st.next_button == spec_next_button(button as int, n)
            },
    {
        let n = self.players.len();
        let in_hand_count = round.seats_in_hand();
        if in_hand_count == 0 {
            return Err(GameError::NoPlayers);
        }
        let out = round.folded();
        let contributions = round.contributions();
        let ghost v = round@;
        let ghost start = self@;
        assert(out@ =~= folded_of(v.seats));
        assert(contributions@ =~= contributions_of(v.seats));
        let pots = build_pots(&contributions, &out);
        let scores = self.settle_scores_exec(round, &out);
        proof {
            lemma_someone_in_hand(v.seats, n as int);
            let w = choose|w: int| 0 <= w < n && #[trigger] in_hand(v.seats[w]);
            assert(!out@[w]);
            lemma_showdown_conserves_chips(contributions@, out@, pots@, scores@, button as int);
        }
        let payouts = distribute(&pots, &scores, button);
        let seats = round.seats();
        let behind = match stacks_if_fit(&seats, &payouts) {
            Some(b) => b,
            None => {
                proof {
                    let i = choose|i: int|
                        0 <= i < seats@.len() && !(#[trigger] seats@[i].stack + payouts@[i]
                            <= u32::MAX);
                    assert(pots_of(contributions_of(v.seats), folded_of(v.seats), pots@));
                    assert(v.seats[i].stack + payout_of(
                        pots@,
                        hand_scores(start, v.seats),
                        button as int,
                        i,
                        pots@.len() as int,
                    ) > u32::MAX);
                }
                return Err(GameError::ChipOverflow);
            },
        };
        assert(behind@ =~= Seq::new(n as nat, |i: int| v.seats[i].stack));
        self.settle(&behind, &payouts);
        let ghost settled = self@;
        assert(settled.players =~= Seq::new(
            n as nat,
            |i: int|
                PlayerView {
                    chips: (v.seats[i].stack + payouts@[i]) as u32,
                    bet_in_round: 0,
                    ..start.players[i]
                },
        ));
        match self.end_game() {
            Ok(()) => {},
            Err(e) => {
                return Err(e);
            },
        }
        proof {
            lemma_settled_totals(start.players, settled.players, self@.players, v.seats, pots@, scores@, payouts@, button as int);
        }
        let next = next_button(button, n);
        Ok(Settlement { pots, payouts, next_button: next })
    }
}

} // verus!
