use vstd::prelude::*;
use crate::game::GameError;

verus! {

/// The roles a seat can hold at a table of up to eight.
#[derive(Debug, Clone, Copy, PartialEq, Eq, Structural)]
pub enum Position {
    SmallBlind,
    BigBlind,
    UTG,
    UTG1,
    MP,
    HJ,
    CO,
    Button,
}

/// Every role, in table order from the button.
pub open spec fn all_roles() -> Seq<Position> {
    seq![
        Position::Button,
        Position::SmallBlind,
        Position::BigBlind,
        Position::UTG,
        Position::UTG1,
        Position::MP,
        Position::HJ,
        Position::CO,
    ]
}

/// The roles in use at a table of `n` seats, in table order from the button;
/// empty when `n` is not in `2..=8`. Heads-up has no separate small blind.
pub open spec fn layout(n: int) -> Seq<Position> {
    if n == 2 {
        seq![Position::Button, Position::BigBlind]
    } else if n == 3 {
        seq![Position::Button, Position::SmallBlind, Position::BigBlind]
    } else if n == 4 {
        seq![Position::Button, Position::SmallBlind, Position::BigBlind, Position::UTG]
    } else if n == 5 {
        seq![Position::Button, Position::SmallBlind, Position::BigBlind, Position::UTG, Position::CO]
    } else if n == 6 {
        seq![
            Position::Button,
            Position::SmallBlind,
            Position::BigBlind,
            Position::UTG,
            Position::HJ,
            Position::CO,
        ]
    } else if n == 7 {
        seq![
            Position::Button,
            Position::SmallBlind,
            Position::BigBlind,
            Position::UTG,
            Position::MP,
            Position::HJ,
            Position::CO,
        ]
    } else if n == 8 {
        all_roles()
    } else {
        Seq::empty()
    }
}

/// Seats `2..=8` make a valid table.
pub open spec fn valid_seat_count(n: int) -> bool {
    2 <= n <= 8
}

/// The seat distance of a role from the button.
pub open spec fn spec_distance(p: Position) -> nat {
    match p {
        Position::Button => 0,
        Position::SmallBlind => 1,
        Position::BigBlind => 2,
        Position::UTG => 3,
        Position::UTG1 => 4,
        Position::MP => 5,
        Position::HJ => 6,
        Position::CO => 7,
    }
}

/// The role after `p` in the layout of `n` seats: the one after its place,
/// wrapping round, or the second role when `p` is not in the layout.
pub open spec fn spec_next(p: Position, n: int) -> Position {
    let l = layout(n);
    if exists|i: int| 0 <= i < l.len() && l[i] == p {
        let i = choose|i: int| 0 <= i < l.len() && l[i] == p;
        l[(i + 1) % (l.len() as int)]
    } else {
        l[1int % (l.len() as int)]
    }
}

/// The role of `seat` when the button sits at `button`: roles follow the
/// layout in table order, starting from the button.
pub open spec fn spec_role(seat: int, button: int, n: int) -> Position {
    layout(n)[(seat + n - button) % n]
}

/// The seat after `button` in table order: where the button moves next hand.
pub open spec fn spec_next_button(button: int, n: int) -> int {
    (button + 1) % n
}

/// The seat that acts first on a street: preflop, the seat after the big
/// blind (after the button when heads-up); later streets, the seat after the
/// button. Seats that cannot act are skipped by the betting engine.
pub open spec fn spec_first_to_act(button: int, n: int, preflop: bool) -> int {
    if preflop && n > 2 {
        (button + 3) % n
    } else {
        (button + 1) % n
    }
}

/// The role of `seat` at a table of `num_players` with the button at `button`.
pub fn role_of_seat(seat: usize, button: usize, num_players: usize) -> (r: Position)
    requires
        valid_seat_count(num_players as int),
        seat < num_players,
        button < num_players,
    ensures
        r == spec_role(seat as int, button as int, num_players as int),
{
    let layout = Position::positions_for_players(num_players);
    layout[(seat + num_players - button) % num_players]
}

/// Moves the button one seat on.
pub fn next_button(button: usize, num_players: usize) -> (r: usize)
    requires
        valid_seat_count(num_players as int),
        button < num_players,
    ensures
        r == spec_next_button(button as int, num_players as int),
        r < num_players,
{
    (button + 1) % num_players
}

/// The seat that acts first on a street, as `spec_first_to_act`.
pub fn first_to_act(button: usize, num_players: usize, preflop: bool) -> (r: usize)
    requires
        valid_seat_count(num_players as int),
        button < num_players,
    ensures
        r == spec_first_to_act(button as int, num_players as int, preflop),
        r < num_players,
{
    if preflop && num_players > 2 {
        (button + 3) % num_players
    } else {
        (button + 1) % num_players
    }
}

impl Position {
    /// All eight roles, in table order from the button.
    pub fn all_positions() -> (r: Vec<Position>)
        ensures
            r@ == all_roles(),
    {
        let r = vec![
            Position::Button,
            Position::SmallBlind,
            Position::BigBlind,
            Position::UTG,
            Position::UTG1,
            Position::MP,
            Position::HJ,
            Position::CO,
        ];
        assert(r@ =~= all_roles());
        r
    }

    /// The roles in use at a table of `num_players` seats; empty when the
    /// count is not in `2..=8`.
    pub fn positions_for_players(num_players: usize) -> (r: Vec<Position>)
        ensures
            r@ == layout(num_players as int),
            valid_seat_count(num_players as int) ==> r@.len() == num_players,
            !valid_seat_count(num_players as int) ==> r@.len() == 0,
    {
        let r = match num_players {
            2 => vec![Position::Button, Position::BigBlind],
            3 => vec![Position::Button, Position::SmallBlind, Position::BigBlind],
            4 => vec![Position::Button, Position::SmallBlind, Position::BigBlind, Position::UTG],
            5 => vec![
                Position::Button,
                Position::SmallBlind,
                Position::BigBlind,
                Position::UTG,
                Position::CO,
            ],
            6 => vec![
                Position::Button,
                Position::SmallBlind,
                Position::BigBlind,
                Position::UTG,
                Position::HJ,
                Position::CO,
            ],
            7 => vec![
                Position::Button,
                Position::SmallBlind,
                Position::BigBlind,
                Position::UTG,
                Position::MP,
                Position::HJ,
                Position::CO,
            ],
            8 => vec![
                Position::Button,
                Position::SmallBlind,
                Position::BigBlind,
                Position::UTG,
                Position::UTG1,
                Position::MP,
                Position::HJ,
                Position::CO,
            ],
            _ => Vec::new(),
        };
        assert(r@ =~= layout(num_players as int));
        r
    }

    /// The roles in use at a table of `num_players` seats; fails with
    /// `InvalidPlayerCount` when the count is not in `2..=8`.
    pub fn positions_for_seat_count(num_players: usize) -> (r: Result<Vec<Position>, GameError>)
        ensures
            valid_seat_count(num_players as int) ==> r is Ok && r->Ok_0@ == layout(
                num_players as int,
            ) && r->Ok_0@.len() == num_players,
            !valid_seat_count(num_players as int) ==> r is Err && r->Err_0
                == GameError::InvalidPlayerCount,
    {
        if num_players < 2 || num_players > 8 {
            return Err(GameError::InvalidPlayerCount);
        }
        Ok(Position::positions_for_players(num_players))
    }

    /// The role that follows this one at a table of `num_players` seats.
    pub fn next_position(&self, num_players: usize) -> (r: Position)
        requires
            valid_seat_count(num_players as int),
        ensures
            r == spec_next(*self, num_players as int),
    {
        let positions = Position::positions_for_players(num_players);
        let n = positions.len();
        let mut i: usize = 0;
        while i < n
            invariant
                n == positions@.len(),
                positions@ == layout(num_players as int),
                valid_seat_count(num_players as int),
                i <= n,
                forall|j: int| 0 <= j < i ==> positions@[j] != *self,
            decreases n - i,
        {
            if positions[i] == *self {
                assert(positions@.no_duplicates()) by {
                    assert(layout(num_players as int).no_duplicates());
                }
                let ghost c = choose|j: int| 0 <= j < n && positions@[j] == *self;
                assert(c == i);
                return positions[(i + 1) % n];
            }
            i = i + 1;
        }
        positions[1 % n]
    }

    /// Whether the role posts a blind.
    pub fn is_blind(&self) -> (r: bool)
        ensures
            r <==> (*self == Position::SmallBlind || *self == Position::BigBlind),
    {
        matches!(self, Position::SmallBlind | Position::BigBlind)
    }

    /// The seat distance of the role from the button.
    pub fn distance_from_btn(&self) -> (r: usize)
        ensures
            r == spec_distance(*self),
    {
        match self {
            Position::Button => 0,
            Position::SmallBlind => 1,
            Position::BigBlind => 2,
            Position::UTG => 3,
            Position::UTG1 => 4,
            Position::MP => 5,
            Position::HJ => 6,
            Position::CO => 7,
        }
    }
}

} // verus!
