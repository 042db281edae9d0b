use vstd::prelude::*;
use crate::game::GameError;
use crate::player::{Action, SeatStatus};

verus! {

/// The fewest seats a table can have.
pub const MIN_SEATS: usize = 2;

/// The most seats a table can have.
pub const MAX_SEATS: usize = 8;

/// One seat as the betting engine sees it.
#[derive(Debug, Clone, Copy, PartialEq, Eq, Structural)]
pub struct Seat {
    /// Chips behind, not yet wagered.
    pub stack: u32,
    /// Chips put in on the current street.
    pub wager: u32,
    /// Chips put in over the whole hand, this street included.
    pub committed: u32,
    pub status: SeatStatus,
    /// Whether the seat has acted since the bet last went up.
    pub acted: bool,
}

impl Seat {
    /// The chips the seat owns in this hand: behind plus put in.
    pub open spec fn holding(self) -> int {
        self.stack + self.committed
    }

    /// The seat's counters are consistent.
    pub open spec fn wf(self) -> bool {
        &&& self.stack + self.committed <= u32::MAX
        &&& self.wager <= self.committed
        &&& self.status == SeatStatus::Active ==> self.stack > 0
    }
}

/// Whether the seat can still win a pot: active or all-in.
pub open spec fn in_hand(s: Seat) -> bool {
    s.status == SeatStatus::Active || s.status == SeatStatus::AllIn
}

/// The number of seats among the first `n` that are still in the hand.
pub open spec fn count_in_hand(seats: Seq<Seat>, n: int) -> nat
    decreases n,
{
    if n <= 0 {
        0
    } else {
        count_in_hand(seats, n - 1) + if in_hand(seats[n - 1]) {
            1nat
        } else {
            0nat
        }
    }
}

/// The chips that the first `n` seats own in this hand.
pub open spec fn chips_held(seats: Seq<Seat>, n: int) -> int
    decreases n,
{
    if n <= 0 {
        0
    } else {
        chips_held(seats, n - 1) + seats[n - 1].holding()
    }
}

/// The chips put in by the first `n` seats over the hand.
pub open spec fn chips_committed(seats: Seq<Seat>, n: int) -> int
    decreases n,
{
    if n <= 0 {
        0
    } else {
        chips_committed(seats, n - 1) + seats[n - 1].committed
    }
}

/// A seat needs no further decision on this street: it cannot act, or it
/// has acted since the last raise and matched the bet.
pub open spec fn settled(s: Seat, bet: u32) -> bool {
    s.status != SeatStatus::Active || (s.acted && s.wager == bet)
}

/// The street is over: at most one seat is left in the hand, or every seat
/// still active has acted since the last raise and matched the bet.
pub open spec fn street_over(seats: Seq<Seat>, bet: u32) -> bool {
    count_in_hand(seats, seats.len() as int) <= 1 || forall|i: int|
        0 <= i < seats.len() ==> #[trigger] settled(seats[i], bet)
}

/// The first active seat in `lo..hi`, or `hi` when there is none.
pub open spec fn first_active(seats: Seq<Seat>, lo: int, hi: int) -> int
    decreases hi - lo,
{
    if lo >= hi {
        hi
    } else if seats[lo].status == SeatStatus::Active {
        lo
    } else {
        first_active(seats, lo + 1, hi)
    }
}

/// The next active seat after `seat` in table order, wrapping round; `seat`
/// itself when no seat is active.
pub open spec fn next_active(seats: Seq<Seat>, seat: int) -> int {
    let n = seats.len() as int;
    let a = first_active(seats, seat + 1, n);
    if a < n {
        a
    } else {
        let b = first_active(seats, 0, seat + 1);
        if b <= seat {
            b
        } else {
            seat
        }
    }
}

/// The seat after paying `amount` from its stack: all-in when that empties it.
pub open spec fn pay(s: Seat, amount: int) -> Seat {
    Seat {
        stack: (s.stack - amount) as u32,
        wager: (s.wager + amount) as u32,
        committed: (s.committed + amount) as u32,
        status: if amount == s.stack {
            SeatStatus::AllIn
        } else {
            s.status
        },
        acted: true,
    }
}

/// Every other active seat must act again.
pub open spec fn reopen(seats: Seq<Seat>, seat: int) -> Seq<Seat> {
    Seq::new(
        seats.len(),
        |i: int|
            if i != seat && seats[i].status == SeatStatus::Active {
                Seat { acted: false, ..seats[i] }
            } else {
                seats[i]
            },
    )
}

/// What the engine holds, as plain values.
pub struct BettingView {
    pub seats: Seq<Seat>,
    pub current_bet: u32,
    pub to_act: int,
    pub closed: bool,
}

/// The seats and bet after `seat` takes `action`, when it is allowed.
pub open spec fn after_action(seats: Seq<Seat>, bet: u32, seat: int, action: Action) -> (Seq<
    Seat,
>, u32) {
    let s = seats[seat];
    match action {
        Action::Fold => (seats.update(seat, Seat { status: SeatStatus::Folded, acted: true, ..s }), bet),
        Action::Call => {
            let owe = bet - s.wager;
            let amount = if owe >= s.stack {
                s.stack as int
            } else {
                owe
            };
            (seats.update(seat, pay(s, amount)), bet)
        },
        Action::Raise(to) => (reopen(seats, seat).update(seat, pay(s, to - s.wager)), to),
        Action::AllIn => {
            let w = s.wager + s.stack;
            if w >= bet {
                (reopen(seats, seat).update(seat, pay(s, s.stack as int)), w as u32)
            } else {
                (seats.update(seat, pay(s, s.stack as int)), bet)
            }
        },
    }
}

/// The engine after `seat` takes `action`, when it is allowed.
pub open spec fn step(v: BettingView, seat: int, action: Action) -> BettingView {
    let (seats, bet) = after_action(v.seats, v.current_bet, seat, action);
    BettingView {
        seats,
        current_bet: bet,
        to_act: next_active(seats, seat),
        closed: street_over(seats, bet),
    }
}

/// The action is refused as invalid: the street is over, it is not this
/// seat's turn, or a raise does not go above the bet.
pub open spec fn invalid_action(v: BettingView, seat: int, action: Action) -> bool {
    ||| v.closed
    ||| seat != v.to_act
    ||| (action matches Action::Raise(to) && to <= v.current_bet)
}

/// A valid raise that costs more than the seat's stack.
pub open spec fn short_raise(v: BettingView, seat: int, action: Action) -> bool {
    action matches Action::Raise(to) && to - v.seats[seat].wager > v.seats[seat].stack
}

/// The betting state of one hand, street by street.
pub struct BettingRound {
    seats: Vec<Seat>,
    current_bet: u32,
    to_act: usize,
    closed: bool,
}

impl View for BettingRound {
    type V = BettingView;

    closed spec fn view(&self) -> BettingView {
        BettingView {
            seats: self.seats@,
            current_bet: self.current_bet,
            to_act: self.to_act as int,
            closed: self.closed,
        }
    }
}

/// The engine state is consistent: two to eight seats, each consistent and
/// never above the bet, and while the street runs, the seat to act is active.
pub open spec fn view_wf(v: BettingView) -> bool {
    &&& MIN_SEATS <= v.seats.len() <= MAX_SEATS
    &&& 0 <= v.to_act < v.seats.len()
    &&& forall|i: int| 0 <= i < v.seats.len() ==> (#[trigger] v.seats[i]).wf()
    &&& forall|i: int| 0 <= i < v.seats.len() ==> #[trigger] v.seats[i].wager <= v.current_bet
    &&& !v.closed ==> v.seats[v.to_act].status == SeatStatus::Active
    &&& v.closed == street_over(v.seats, v.current_bet)
}

proof fn lemma_first_active(seats: Seq<Seat>, lo: int, hi: int)
    requires
        0 <= lo,
        hi <= seats.len(),
    ensures
        lo <= hi ==> lo <= first_active(seats, lo, hi) <= hi,
        first_active(seats, lo, hi) < hi ==> seats[first_active(seats, lo, hi)].status
            == SeatStatus::Active,
        forall|j: int|
            lo <= j < first_active(seats, lo, hi) && j < hi ==> #[trigger] seats[j].status
                != SeatStatus::Active,
    decreases hi - lo,
{
    if lo < hi && seats[lo].status != SeatStatus::Active {
        lemma_first_active(seats, lo + 1, hi);
    }
}

/// The next seat to act is active whenever some seat is.
proof fn lemma_next_active(seats: Seq<Seat>, seat: int)
    requires
        0 <= seat < seats.len(),
    ensures
        0 <= next_active(seats, seat) < seats.len(),
        (exists|j: int| 0 <= j < seats.len() && #[trigger] seats[j].status == SeatStatus::Active)
            ==> seats[next_active(seats, seat)].status == SeatStatus::Active,
{
    let n = seats.len() as int;
    lemma_first_active(seats, seat + 1, n);
    lemma_first_active(seats, 0, seat + 1);
}

/// The engine after `moves` (seat, action) in order: each allowed move is
/// taken as `step` says, and each refused one leaves the engine as it was.
pub open spec fn run(v: BettingView, moves: Seq<(int, Action)>) -> BettingView
    decreases moves.len(),
{
    if moves.len() == 0 {
        v
    } else {
        let seat = moves[0].0;
        let action = moves[0].1;
        let next = if invalid_action(v, seat, action) || short_raise(v, seat, action) {
            v
        } else {
            step(v, seat, action)
        };
        run(next, moves.drop_first())
    }
}

proof fn lemma_step_wf(v: BettingView, seat: int, action: Action)
    requires
        view_wf(v),
        !invalid_action(v, seat, action),
        !short_raise(v, seat, action),
    ensures
        view_wf(step(v, seat, action)),
        step(v, seat, action).seats.len() == v.seats.len(),
        forall|i: int|
            0 <= i < v.seats.len() ==> #[trigger] step(v, seat, action).seats[i].holding()
                == v.seats[i].holding(),
{
    let w = step(v, seat, action);
    lemma_next_active(w.seats, seat);
    assert(forall|i: int| 0 <= i < v.seats.len() ==> (#[trigger] w.seats[i]).wf());
    if !w.closed {
        let j = choose|j: int| 0 <= j < w.seats.len() && !settled(w.seats[j], w.current_bet);
        assert(w.seats[j].status == SeatStatus::Active);
    }
}

/// Chip conservation: whatever the seats do within a street, allowed or
/// refused, every seat's chips behind plus chips put in stay as they were,
/// so the stacks plus the pot always add up to what the seats started with.
pub proof fn lemma_chips_conserved(v: BettingView, moves: Seq<(int, Action)>)
    requires
        view_wf(v),
    ensures
        view_wf(run(v, moves)),
        run(v, moves).seats.len() == v.seats.len(),
        forall|i: int|
            0 <= i < v.seats.len() ==> #[trigger] run(v, moves).seats[i].holding()
                == v.seats[i].holding(),
        chips_held(run(v, moves).seats, v.seats.len() as int) == chips_held(
            v.seats,
            v.seats.len() as int,
        ),
    decreases moves.len(),
{
    if moves.len() > 0 {
        let seat = moves[0].0;
        let action = moves[0].1;
        let next = if invalid_action(v, seat, action) || short_raise(v, seat, action) {
            v
        } else {
            lemma_step_wf(v, seat, action);
            step(v, seat, action)
        };
        lemma_chips_conserved(next, moves.drop_first());
    }
    lemma_chips_held_equal(run(v, moves).seats, v.seats, v.seats.len() as int);
}

/// The chips a seat owns are the chips behind plus the chips put in, so the
/// chips held by all seats are their stacks plus the pot.
pub proof fn lemma_held_is_stacks_plus_pot(seats: Seq<Seat>, n: int)
    requires
        0 <= n <= seats.len(),
    ensures
        chips_held(seats, n) == stacks_sum(seats, n) + chips_committed(seats, n),
    decreases n,
{
    if n > 0 {
        lemma_held_is_stacks_plus_pot(seats, n - 1);
    }
}

/// The chips behind of the first `n` seats.
pub open spec fn stacks_sum(seats: Seq<Seat>, n: int) -> int
    decreases n,
{
    if n <= 0 {
        0
    } else {
        stacks_sum(seats, n - 1) + seats[n - 1].stack
    }
}

/// Street closure: with three active seats that have not yet acted, the
/// seat to act folding and the other two then calling, in table order,
/// closes the street after exactly those three actions, not before.
pub proof fn lemma_fold_and_two_calls_close(v: BettingView)
    requires
        view_wf(v),
        v.seats.len() == 3,
        forall|i: int|
            0 <= i < 3 ==> (#[trigger] v.seats[i]).status == SeatStatus::Active
                && !v.seats[i].acted,
    ensures
        ({
            let f = v.to_act;
            let s = (f + 1) % 3;
            let t = (f + 2) % 3;
            &&& !run(v, seq![(f, Action::Fold)]).closed
            &&& !run(v, seq![(f, Action::Fold), (s, Action::Call)]).closed
            &&& run(v, seq![(f, Action::Fold), (s, Action::Call), (t, Action::Call)]).closed
        }),
{
    let f = v.to_act;
    let s = (f + 1) % 3;
    let t = (f + 2) % 3;
    let m1 = seq![(f, Action::Fold)];
    let m2 = seq![(f, Action::Fold), (s, Action::Call)];
    let m3 = seq![(f, Action::Fold), (s, Action::Call), (t, Action::Call)];
    reveal_with_fuel(count_in_hand, 4);
    reveal_with_fuel(run, 2);
    reveal_with_fuel(first_active, 4);
    assert(!v.closed) by {
        assert(!settled(v.seats[f], v.current_bet));
    }
    let a = step(v, f, Action::Fold);
    lemma_step_wf(v, f, Action::Fold);
    assert(count_in_hand(a.seats, 3) == 2);
    assert(!settled(a.seats[s], a.current_bet));
    assert(!a.closed);
    assert(a.to_act == s);
    let b = step(a, s, Action::Call);
    lemma_step_wf(a, s, Action::Call);
    assert(!settled(b.seats[t], b.current_bet));
    assert(in_hand(b.seats[s]) && in_hand(b.seats[t]));
    assert(count_in_hand(b.seats, 3) == 2);
    assert(!b.closed);
    assert(b.to_act == t);
    let c = step(b, t, Action::Call);
    assert(forall|i: int| 0 <= i < 3 ==> #[trigger] settled(c.seats[i], c.current_bet));
    assert(c.closed);
    assert(m1.drop_first() =~= Seq::<(int, Action)>::empty());
    assert(m2.drop_first() =~= seq![(s, Action::Call)]);
    assert(m2.drop_first().drop_first() =~= Seq::<(int, Action)>::empty());
    assert(m3.drop_first() =~= seq![(s, Action::Call), (t, Action::Call)]);
    assert(m3.drop_first().drop_first() =~= seq![(t, Action::Call)]);
    assert(m3.drop_first().drop_first().drop_first() =~= Seq::<(int, Action)>::empty());
    assert(run(v, m1) == a);
    assert(run(a, m2.drop_first()) == b);
    assert(run(v, m2) == b);
    assert(run(b, m3.drop_first().drop_first()) == c);
    assert(run(a, m3.drop_first()) == c);
    assert(run(v, m3) == c);
}

proof fn lemma_chips_held_equal(a: Seq<Seat>, b: Seq<Seat>, n: int)
    requires
        0 <= n <= a.len(),
        a.len() == b.len(),
        forall|i: int| 0 <= i < a.len() ==> #[trigger] a[i].holding() == b[i].holding(),
    ensures
        chips_held(a, n) == chips_held(b, n),
    decreases n,
{
    if n > 0 {
        lemma_chips_held_equal(a, b, n - 1);
    }
}

/// When some seat is still in the hand, one of them can be named.
pub proof fn lemma_someone_in_hand(seats: Seq<Seat>, n: int)
    requires
        0 <= n <= seats.len(),
        count_in_hand(seats, n) > 0,
    ensures
        exists|i: int| 0 <= i < n && #[trigger] in_hand(seats[i]),
    decreases n,
{
    if !in_hand(seats[n - 1]) {
        lemma_someone_in_hand(seats, n - 1);
    }
}

proof fn lemma_count_bound(seats: Seq<Seat>, n: int)
    requires
        0 <= n,
    ensures
        count_in_hand(seats, n) <= n,
    decreases n,
{
    if n > 0 {
        lemma_count_bound(seats, n - 1);
    }
}

fn count_seats_in_hand(seats: &Vec<Seat>) -> (c: usize)
    requires
        seats@.len() <= MAX_SEATS,
    ensures
        c == count_in_hand(seats@, seats@.len() as int),
{
    let mut c: usize = 0;
    let mut i: usize = 0;
    while i < seats.len()
        invariant
            i <= seats@.len() <= MAX_SEATS,
            c == count_in_hand(seats@, i as int),
        decreases seats@.len() - i,
    {
        proof {
            lemma_count_bound(seats@, i as int);
        }
        let st = seats[i].status;
        if st == SeatStatus::Active || st == SeatStatus::AllIn {
            c = c + 1;
        }
        i = i + 1;
    }
    c
}

fn compute_street_over(seats: &Vec<Seat>, bet: u32) -> (r: bool)
    requires
        seats@.len() <= MAX_SEATS,
    ensures
        r == street_over(seats@, bet),
{
    if count_seats_in_hand(seats) <= 1 {
        return true;
    }
    let mut i: usize = 0;
    while i < seats.len()
        invariant
            i <= seats@.len(),
            count_in_hand(seats@, seats@.len() as int) > 1,
            forall|j: int| 0 <= j < i ==> #[trigger] settled(seats@[j], bet),
        decreases seats@.len() - i,
    {
        let s = seats[i];
        if s.status == SeatStatus::Active && !(s.acted && s.wager == bet) {
            assert(!settled(seats@[i as int], bet));
            return false;
        }
        i = i + 1;
    }
    true
}

fn find_active(seats: &Vec<Seat>, lo: usize, hi: usize) -> (r: usize)
    requires
        lo <= hi <= seats@.len(),
    ensures
        r == first_active(seats@, lo as int, hi as int),
    decreases hi - lo,
{
    let mut i = lo;
    while i < hi
        invariant
            lo <= i <= hi <= seats@.len(),
            first_active(seats@, lo as int, hi as int) == first_active(seats@, i as int, hi as int),
        decreases hi - i,
    {
        if seats[i].status == SeatStatus::Active {
            return i;
        }
        i = i + 1;
    }
    hi
}

fn compute_next_active(seats: &Vec<Seat>, seat: usize) -> (r: usize)
    requires
        seat < seats@.len(),
    ensures
        r == next_active(seats@, seat as int),
{
    let n = seats.len();
    let a = find_active(seats, seat + 1, n);
    if a < n {
        a
    } else {
        let b = find_active(seats, 0, seat + 1);
        if b <= seat {
            b
        } else {
            seat
        }
    }
}

fn pay_exec(s: Seat, amount: u32) -> (r: Seat)
    requires
        s.wf(),
        amount <= s.stack,
    ensures
        r == pay(s, amount as int),
        r.wf(),
        r.holding() == s.holding(),
{
    Seat {
        stack: s.stack - amount,
        wager: s.wager + amount,
        committed: s.committed + amount,
        status: if amount == s.stack {
            SeatStatus::AllIn
        } else {
            s.status
        },
        acted: true,
    }
}

fn reopen_exec(seats: &mut Vec<Seat>, seat: usize)
    ensures
        final(seats)@ == reopen(old(seats)@, seat as int),
{
    let ghost start = seats@;
    let mut i: usize = 0;
    while i < seats.len()
        invariant
            i <= seats@.len(),
            seats@.len() == start.len(),
            forall|j: int| 0 <= j < i ==> #[trigger] seats@[j] == reopen(start, seat as int)[j],
            forall|j: int| i <= j < seats@.len() ==> #[trigger] seats@[j] == start[j],
        decreases seats@.len() - i,
    {
        let s = seats[i];
        if i != seat && s.status == SeatStatus::Active {
            seats.set(i, Seat { acted: false, ..s });
        }
        i = i + 1;
    }
    assert(seats@ =~= reopen(start, seat as int));
}

fn sum_committed(seats: &Vec<Seat>) -> (r: u64)
    requires
        seats@.len() <= MAX_SEATS,
    ensures
        r == chips_committed(seats@, seats@.len() as int),
{
    let mut total: u64 = 0;
    let mut i: usize = 0;
    while i < seats.len()
        invariant
            i <= seats@.len() <= MAX_SEATS,
            total == chips_committed(seats@, i as int),
            total <= i * 0xffff_ffff,
        decreases seats@.len() - i,
    {
        total = total + seats[i].committed as u64;
        i = i + 1;
    }
    total
}

impl BettingRound {
    /// The engine state is consistent.
    pub open spec fn wf(&self) -> bool {
        view_wf(self@)
    }

    /// The chips that all seats own in this hand; no action changes it.
    pub open spec fn total_chips(&self) -> int {
        chips_held(self@.seats, self@.seats.len() as int)
    }

    /// Starts a hand for seats with the given stacks: seats with chips are
    /// active and the rest sit out; nothing is wagered; the first active seat
    /// at or after `first` acts first. Fails with `InvalidPlayerCount` unless
    /// there are two to eight seats, and `first` must be one of them.
    pub fn new(stacks: &Vec<u32>, first: usize) -> (r: Result<BettingRound, GameError>)
        requires
            first < stacks@.len() || stacks@.len() < MIN_SEATS || stacks@.len() > MAX_SEATS,
        ensures
            (stacks@.len() < MIN_SEATS || stacks@.len() > MAX_SEATS) <==> r == Err::<
                BettingRound,
                GameError,
            >(GameError::InvalidPlayerCount),
            MIN_SEATS <= stacks@.len() <= MAX_SEATS ==> r is Ok,
            r is Ok ==> {
                let v = r->Ok_0@;
                &&& r->Ok_0.wf()
                &&& v.current_bet == 0
                &&& v.seats.len() == stacks@.len()
                &&& forall|i: int|
                    0 <= i < stacks@.len() ==> #[trigger] v.seats[i] == (Seat {
                        stack: stacks@[i],
                        wager: 0,
                        committed: 0,
                        status: if stacks@[i] > 0 {
                            SeatStatus::Active
                        } else {
                            SeatStatus::SittingOut
                        },
                        acted: false,
                    })
                &&& !v.closed ==> v.to_act == (if first_active(v.seats, first as int, v.seats.len() as int)
                    < v.seats.len() {
                    first_active(v.seats, first as int, v.seats.len() as int)
                } else {
                    first_active(v.seats, 0, v.seats.len() as int)
                })
            },
    {
        let n = stacks.len();
        if n < MIN_SEATS || n > MAX_SEATS {
            return Err(GameError::InvalidPlayerCount);
        }
        let mut seats: Vec<Seat> = Vec::new();
        let mut i: usize = 0;
        while i < n
            invariant
                n == stacks@.len(),
                i <= n,
                seats@.len() == i,
                forall|j: int|
                    0 <= j < i ==> #[trigger] seats@[j] == (Seat {
                        stack: stacks@[j],
                        wager: 0,
                        committed: 0,
                        status: if stacks@[j] > 0 {
                            SeatStatus::Active
                        } else {
                            SeatStatus::SittingOut
                        },
                        acted: false,
                    }),
            decreases n - i,
        {
            let st = if stacks[i] > 0 {
                SeatStatus::Active
            } else {
                SeatStatus::SittingOut
            };
            seats.push(Seat { stack: stacks[i], wager: 0, committed: 0, status: st, acted: false });
            i = i + 1;
        }
        let closed = compute_street_over(&seats, 0);
        let a = find_active(&seats, first, n);
        let to_act = if a < n {
            a
        } else {
            let b = find_active(&seats, 0, n);
            if b < n {
                b
            } else {
                0
            }
        };
        proof {
            lemma_first_active(seats@, first as int, n as int);
            lemma_first_active(seats@, 0, n as int);
            if !closed {
                let j = choose|j: int| 0 <= j < seats@.len() && !settled(seats@[j], 0);
                assert(seats@[j].status == SeatStatus::Active);
            }
        }
        Ok(BettingRound { seats, current_bet: 0, to_act, closed })
    }

    /// Applies the decision of `seat`. An invalid action (the street is over,
    /// it is not the seat's turn, or a raise does not exceed the bet) fails
    /// with `InvalidAction`, a raise beyond the stack with
    /// `InsufficientChips`; both leave everything as it was, so the seat can
    /// be asked again. Otherwise the engine moves on as `step` says. No
    /// action creates or destroys chips.
    pub fn apply(&mut self, seat: usize, action: Action) -> (r: Result<(), GameError>)
        requires
            old(self).wf(),
        ensures
            final(self).wf(),
            invalid_action(old(self)@, seat as int, action) ==> r == Err::<(), GameError>(
                GameError::InvalidAction,
            ) && final(self)@ == old(self)@,
            !invalid_action(old(self)@, seat as int, action) && short_raise(
                old(self)@,
                seat as int,
                action,
            ) ==> r == Err::<(), GameError>(GameError::InsufficientChips) && final(self)@ == old(
                self,
            )@,
            !invalid_action(old(self)@, seat as int, action) && !short_raise(
                old(self)@,
                seat as int,
                action,
            ) ==> r is Ok && final(self)@ == step(old(self)@, seat as int, action),
            final(self)@.seats.len() == old(self)@.seats.len(),
            forall|i: int|
                0 <= i < old(self)@.seats.len() ==> #[trigger] final(self)@.seats[i].holding()
                    == old(self)@.seats[i].holding(),
            final(self).total_chips() == old(self).total_chips(),
    {
        if self.closed || seat != self.to_act {
            return Err(GameError::InvalidAction);
        }
        let ghost start = self.seats@;
        let s = self.seats[seat];
        let bet = self.current_bet;
        assert(s.wf());
        match action {
            Action::Fold => {
                self.seats.set(seat, Seat { status: SeatStatus::Folded, acted: true, ..s });
            },
            Action::Call => {
                let owe = bet - s.wager;
                let amount = if owe >= s.stack {
                    s.stack
                } else {
                    owe
                };
                let p = pay_exec(s, amount);
                self.seats.set(seat, p);
            },
            Action::Raise(to) => {
                if to <= bet {
                    return Err(GameError::InvalidAction);
                }
                if to - s.wager > s.stack {
                    return Err(GameError::InsufficientChips);
                }
                let p = pay_exec(s, to - s.wager);
                reopen_exec(&mut self.seats, seat);
                self.seats.set(seat, p);
                self.current_bet = to;
            },
            Action::AllIn => {
                let w = s.wager + s.stack;
                let p = pay_exec(s, s.stack);
                if w >= bet {
                    reopen_exec(&mut self.seats, seat);
                    self.seats.set(seat, p);
                    self.current_bet = w;
                } else {
                    self.seats.set(seat, p);
                }
            },
        }
        assert(forall|i: int|
            0 <= i < start.len() ==> #[trigger] self.seats@[i].holding() == start[i].holding());
        self.closed = compute_street_over(&self.seats, self.current_bet);
        self.to_act = compute_next_active(&self.seats, seat);
        proof {
            lemma_chips_held_equal(self.seats@, start, start.len() as int);
            lemma_next_active(self.seats@, seat as int);
            if !self.closed {
                let j = choose|j: int|
                    0 <= j < self.seats@.len() && !settled(self.seats@[j], self.current_bet);
                assert(self.seats@[j].status == SeatStatus::Active);
            }
        }
        Ok(())
    }

    /// Applies the decision of `seat` as a caller should: a raise beyond the
    /// seat's stack is taken as going all-in instead of being refused. Only
    /// an invalid action fails, with `InvalidAction`, changing nothing.
    pub fn act(&mut self, seat: usize, action: Action) -> (r: Result<(), GameError>)
        requires
            old(self).wf(),
        ensures
            final(self).wf(),
            invalid_action(old(self)@, seat as int, action) ==> r == Err::<(), GameError>(
                GameError::InvalidAction,
            ) && final(self)@ == old(self)@,
            !invalid_action(old(self)@, seat as int, action) && short_raise(
                old(self)@,
                seat as int,
                action,
            ) ==> r is Ok && final(self)@ == step(old(self)@, seat as int, Action::AllIn),
            !invalid_action(old(self)@, seat as int, action) && !short_raise(
                old(self)@,
                seat as int,
                action,
            ) ==> r is Ok && final(self)@ == step(old(self)@, seat as int, action),
            final(self).total_chips() == old(self).total_chips(),
    {
        match self.apply(seat, action) {
            Err(GameError::InsufficientChips) => self.apply(seat, Action::AllIn),
            other => other,
        }
    }

    /// Starts the next street: wagers go back to zero, every active seat must
    /// act again, the bet is zero, and the first active seat at or after
    /// `first` acts first. Stacks, chips put in and statuses stay.
    pub fn next_street(&mut self, first: usize)
        requires
            old(self).wf(),
            first < old(self)@.seats.len(),
        ensures
            final(self).wf(),
            final(self)@.current_bet == 0,
            final(self)@.seats == Seq::new(
                old(self)@.seats.len(),
                |i: int| Seat { wager: 0, acted: false, ..old(self)@.seats[i] },
            ),
            !final(self)@.closed ==> final(self)@.to_act == (if first_active(
                final(self)@.seats,
                first as int,
                final(self)@.seats.len() as int,
            ) < final(self)@.seats.len() {
                first_active(final(self)@.seats, first as int, final(self)@.seats.len() as int)
            } else {
                first_active(final(self)@.seats, 0, final(self)@.seats.len() as int)
            }),
            final(self).total_chips() == old(self).total_chips(),
    {
        let ghost start = self.seats@;
        let n = self.seats.len();
        let mut i: usize = 0;
        while i < n
            invariant
                n == self.seats@.len() == start.len(),
                i <= n,
                forall|j: int|
                    0 <= j < i ==> #[trigger] self.seats@[j] == (Seat {
                        wager: 0,
                        acted: false,
                        ..start[j]
                    }),
                forall|j: int| i <= j < n ==> #[trigger] self.seats@[j] == start[j],
            decreases n - i,
        {
            let s = self.seats[i];
            self.seats.set(i, Seat { wager: 0, acted: false, ..s });
            i = i + 1;
        }
        assert(self.seats@ =~= Seq::new(
            start.len(),
            |i: int| Seat { wager: 0, acted: false, ..start[i] },
        ));
        self.current_bet = 0;
        self.closed = compute_street_over(&self.seats, 0);
        let a = find_active(&self.seats, first, n);
        self.to_act = if a < n {
            a
        } else {
            let b = find_active(&self.seats, 0, n);
            if b < n {
                b
            } else {
                0
            }
        };
        proof {
            lemma_chips_held_equal(self.seats@, start, n as int);
            lemma_first_active(self.seats@, first as int, n as int);
            lemma_first_active(self.seats@, 0, n as int);
            if !self.closed {
                let j = choose|j: int| 0 <= j < self.seats@.len() && !settled(self.seats@[j], 0);
                assert(self.seats@[j].status == SeatStatus::Active);
            }
        }
    }

    /// The chips put in by all seats over the hand so far.
    pub fn pot_total(&self) -> (r: u64)
        requires
            self.wf(),
        ensures
            r == chips_committed(self@.seats, self@.seats.len() as int),
    {
        sum_committed(&self.seats)
    }

    /// What each seat put in over the hand.
    pub fn contributions(&self) -> (r: Vec<u32>)
        ensures
            r@.len() == self@.seats.len(),
            forall|i: int| 0 <= i < r@.len() ==> #[trigger] r@[i] == self@.seats[i].committed,
    {
        let mut r: Vec<u32> = Vec::new();
        let mut i: usize = 0;
        while i < self.seats.len()
            invariant
                i <= self@.seats.len(),
                r@.len() == i,
                forall|j: int| 0 <= j < i ==> #[trigger] r@[j] == self@.seats[j].committed,
            decreases self@.seats.len() - i,
        {
            r.push(self.seats[i].committed);
            i = i + 1;
        }
        r
    }

    /// For each seat, whether it is out of the hand (folded or sitting out).
    pub fn folded(&self) -> (r: Vec<bool>)
        ensures
            r@.len() == self@.seats.len(),
            forall|i: int| 0 <= i < r@.len() ==> #[trigger] r@[i] == !in_hand(self@.seats[i]),
    {
        let mut r: Vec<bool> = Vec::new();
        let mut i: usize = 0;
        while i < self.seats.len()
            invariant
                i <= self@.seats.len(),
                r@.len() == i,
                forall|j: int| 0 <= j < i ==> #[trigger] r@[j] == !in_hand(self@.seats[j]),
            decreases self@.seats.len() - i,
        {
            let st = self.seats[i].status;
            r.push(!(st == SeatStatus::Active || st == SeatStatus::AllIn));
            i = i + 1;
        }
        r
    }

    /// The number of seats still in the hand.
    pub fn seats_in_hand(&self) -> (r: usize)
        requires
            self.wf(),
        ensures
            r == count_in_hand(self@.seats, self@.seats.len() as int),
    {
        count_seats_in_hand(&self.seats)
    }

    /// The bet every active seat must match on this street.
    pub fn current_bet(&self) -> (r: u32)
        ensures
            r == self@.current_bet,
    {
        self.current_bet
    }

    /// The seat whose decision is awaited.
    pub fn to_act(&self) -> (r: usize)
        ensures
            r == self@.to_act,
    {
        self.to_act
    }

    /// Whether the street is over.
    pub fn is_closed(&self) -> (r: bool)
        ensures
            r == self@.closed,
    {
        self.closed
    }

    /// The seats, as plain values.
    pub fn seats(&self) -> (r: Vec<Seat>)
        ensures
            r@ == self@.seats,
    {
        self.seats.clone()
    }
}

} // verus!
