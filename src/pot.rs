use vstd::prelude::*;
use crate::betting::MAX_SEATS;

verus! {

/// One pot of the hand: its chips, which seats may win it, and the
/// contribution level that closes it.
#[derive(Debug, Clone)]
pub struct Pot {
    pub amount: u64,
    /// For each seat, whether it can win this pot.
    pub eligible: Vec<bool>,
    /// The per-seat contribution this pot is filled up to.
    pub cap: u32,
}

/// The sum of the contributions of the first `n` seats, each counted up to `x`.
pub open spec fn capped_sum(c: Seq<u32>, x: int, n: int) -> int
    decreases n,
{
    if n <= 0 {
        0
    } else {
        capped_sum(c, x, n - 1) + if c[n - 1] <= x {
            c[n - 1] as int
        } else {
            x
        }
    }
}

/// The sum of the contributions of the first `n` seats.
pub open spec fn total_sum(c: Seq<u32>, n: int) -> int
    decreases n,
{
    if n <= 0 {
        0
    } else {
        total_sum(c, n - 1) + c[n - 1]
    }
}

/// The sum of the amounts of the first `k` pots.
pub open spec fn pots_sum(p: Seq<Pot>, k: int) -> int
    decreases k,
{
    if k <= 0 {
        0
    } else {
        pots_sum(p, k - 1) + p[k - 1].amount
    }
}

/// The level below pot `j`: the previous pot's cap, or zero.
pub open spec fn lower_cap(p: Seq<Pot>, j: int) -> int {
    if j == 0 {
        0
    } else {
        p[j - 1].cap as int
    }
}

/// Whether some seat that has not folded put in exactly `v`.
pub open spec fn is_live_level(c: Seq<u32>, f: Seq<bool>, v: int) -> bool {
    exists|i: int| 0 <= i < c.len() && !f[i] && #[trigger] c[i] == v
}

/// The pots that a hand's contributions make. `c[i]` is what seat `i` put in
/// and `f[i]` whether it folded. There is one pot for each distinct positive
/// contribution of a seat still in, in increasing order; pot `j` holds what
/// every seat put in between the previous level and its own, and the seats
/// still in that reached its level may win it. Chips above the top level
/// (only folded seats can have put them in) join the top pot. When no seat
/// still in put in anything, all chips form one pot for the seats still in.
#[verifier::opaque]
pub open spec fn pots_of(c: Seq<u32>, f: Seq<bool>, p: Seq<Pot>) -> bool {
    let n = c.len() as int;
    let k = p.len() as int;
    &&& forall|j: int| 0 <= j < k ==> (#[trigger] p[j]).eligible@.len() == n
    &&& forall|j: int, i: int|
        0 <= j < k && 0 <= i < n ==> #[trigger] p[j].eligible@[i] == (!f[i] && c[i] >= p[j].cap)
    &&& forall|j: int| 0 < j < k ==> #[trigger] p[j - 1].cap < p[j].cap
    &&& forall|j: int| 0 <= j < k && p[j].cap > 0 ==> is_live_level(c, f, #[trigger] p[j].cap as int)
    &&& forall|i: int|
        0 <= i < n && !f[i] && c[i] > 0 ==> exists|j: int| 0 <= j < k && #[trigger] p[j].cap == c[i]
    &&& forall|j: int| 0 <= j < k && #[trigger] p[j].cap == 0 ==> k == 1
    &&& forall|j: int|
        0 <= j < k - 1 ==> #[trigger] p[j].amount == capped_sum(c, p[j].cap as int, n) - capped_sum(
            c,
            lower_cap(p, j),
            n,
        )
    &&& k > 0 ==> p[k - 1].amount == total_sum(c, n) - capped_sum(c, lower_cap(p, k - 1), n)
    &&& k == 0 <==> total_sum(c, n) == 0
}

proof fn lemma_capped_bounds(c: Seq<u32>, x: int, y: int, n: int)
    requires
        0 <= x <= y,
        0 <= n <= c.len(),
    ensures
        0 <= capped_sum(c, x, n) <= capped_sum(c, y, n) <= total_sum(c, n) <= n * 0xffff_ffff,
        x == 0 ==> capped_sum(c, x, n) == 0,
    decreases n,
{
    if n > 0 {
        lemma_capped_bounds(c, x, y, n - 1);
    }
}

proof fn lemma_total_ge_elem(c: Seq<u32>, i: int, n: int)
    requires
        0 <= i < n <= c.len(),
    ensures
        c[i] <= total_sum(c, n),
    decreases n,
{
    lemma_capped_bounds(c, 0, 0, n - 1);
    if i < n - 1 {
        lemma_total_ge_elem(c, i, n - 1);
    }
}

proof fn lemma_capped_full(c: Seq<u32>, n: int)
    requires
        0 <= n <= c.len(),
    ensures
        capped_sum(c, 0xffff_ffff, n) == total_sum(c, n),
    decreases n,
{
    if n > 0 {
        lemma_capped_full(c, n - 1);
    }
}

proof fn lemma_pots_sum_push(p: Seq<Pot>, q: Pot)
    ensures
        pots_sum(p.push(q), p.len() + 1int) == pots_sum(p, p.len() as int) + q.amount,
{
    assert(p.push(q).drop_last() =~= p);
    lemma_pots_sum_prefix(p.push(q), p, p.len() as int);
}

proof fn lemma_pots_sum_prefix(a: Seq<Pot>, b: Seq<Pot>, k: int)
    requires
        0 <= k <= a.len(),
        k <= b.len(),
        forall|j: int| 0 <= j < k ==> #[trigger] a[j].amount == b[j].amount,
    ensures
        pots_sum(a, k) == pots_sum(b, k),
    decreases k,
{
    if k > 0 {
        lemma_pots_sum_prefix(a, b, k - 1);
    }
}

fn capped_total(c: &Vec<u32>, x: u32) -> (r: u64)
    requires
        c@.len() <= MAX_SEATS,
    ensures
        r == capped_sum(c@, x as int, c@.len() as int),
{
    let mut total: u64 = 0;
    let mut i: usize = 0;
    while i < c.len()
        invariant
            i <= c@.len() <= MAX_SEATS,
            total == capped_sum(c@, x as int, i as int),
        decreases c@.len() - i,
    {
        proof {
            lemma_capped_bounds(c@, x as int, x as int, i as int);
        }
        let v = if c[i] <= x {
            c[i]
        } else {
            x
        };
        total = total + v as u64;
        i = i + 1;
    }
    total
}

/// The smallest contribution above `prev` of a seat still in, with its seat.
fn next_level(c: &Vec<u32>, f: &Vec<bool>, prev: u32) -> (r: Option<(usize, u32)>)
    requires
        c@.len() == f@.len(),
    ensures
        r matches Some((i, v)) ==> i < c@.len() && !f@[i as int] && c@[i as int] == v && v > prev
            && forall|q: int| 0 <= q < c@.len() && !f@[q] && c@[q] > prev ==> v <= #[trigger] c@[q],
        r is None ==> forall|q: int| 0 <= q < c@.len() && !f@[q] ==> #[trigger] c@[q] <= prev,
{
    let mut best: Option<(usize, u32)> = None;
    let mut i: usize = 0;
    while i < c.len()
        invariant
            i <= c@.len() == f@.len(),
            best matches Some((b, v)) ==> b < i && !f@[b as int] && c@[b as int] == v && v > prev
                && forall|q: int| 0 <= q < i && !f@[q] && c@[q] > prev ==> v <= #[trigger] c@[q],
            best is None ==> forall|q: int| 0 <= q < i && !f@[q] ==> #[trigger] c@[q] <= prev,
        decreases c@.len() - i,
    {
        if !f[i] && c[i] > prev {
            match best {
                None => {
                    best = Some((i, c[i]));
                },
                Some((_, v)) => {
                    if c[i] < v {
                        best = Some((i, c[i]));
                    }
                },
            }
        }
        i = i + 1;
    }
    best
}

/// For each seat, whether it has not folded and put in at least `cap`.
fn eligible_at(c: &Vec<u32>, f: &Vec<bool>, cap: u32) -> (e: Vec<bool>)
    requires
        c@.len() == f@.len(),
    ensures
        e@.len() == c@.len(),
        forall|i: int| 0 <= i < c@.len() ==> #[trigger] e@[i] == (!f@[i] && c@[i] >= cap),
{
    let mut e: Vec<bool> = Vec::new();
    let mut i: usize = 0;
    while i < c.len()
        invariant
            i <= c@.len() == f@.len(),
            e@.len() == i,
            forall|q: int| 0 <= q < i ==> #[trigger] e@[q] == (!f@[q] && c@[q] >= cap),
        decreases c@.len() - i,
    {
        e.push(!f[i] && c[i] >= cap);
        i = i + 1;
    }
    e
}

/// Splits the chips put in over a hand into the main pot and side pots, as
/// `pots_of` describes; the pots hold exactly the chips put in.
pub fn build_pots(contributions: &Vec<u32>, folded: &Vec<bool>) -> (pots: Vec<Pot>)
    requires
        contributions@.len() == folded@.len(),
        contributions@.len() <= MAX_SEATS,
    ensures
        pots_of(contributions@, folded@, pots@),
        pots_sum(pots@, pots@.len() as int) == total_sum(
            contributions@,
            contributions@.len() as int,
        ),
        total_sum(contributions@, contributions@.len() as int) <= contributions@.len()
            * 0xffff_ffff,
{
    reveal(pots_of);
    proof {
        lemma_capped_bounds(contributions@, 0, 0, contributions@.len() as int);
    }
    let ghost c = contributions@;
    let ghost f = folded@;
    let ghost n = c.len() as int;
    let mut pots: Vec<Pot> = Vec::new();
    let mut prev: u32 = 0;
    proof {
        lemma_capped_bounds(c, 0, 0, n);
    }
    loop
        invariant_except_break
            c == contributions@,
            f == folded@,
            n == c.len() == f.len() <= MAX_SEATS,
            forall|j: int| 0 <= j < pots@.len() ==> (#[trigger] pots@[j]).eligible@.len() == n,
            forall|j: int, i: int|
                0 <= j < pots@.len() && 0 <= i < n ==> #[trigger] pots@[j].eligible@[i] == (!f[i]
                    && c[i] >= pots@[j].cap),
            forall|j: int| 0 < j < pots@.len() ==> #[trigger] pots@[j - 1].cap < pots@[j].cap,
            forall|j: int| 0 <= j < pots@.len() ==> #[trigger] pots@[j].cap > 0,
            forall|j: int|
                0 <= j < pots@.len() ==> is_live_level(c, f, #[trigger] pots@[j].cap as int),
            forall|i: int|
                0 <= i < n && !f[i] && 0 < c[i] <= prev ==> exists|j: int|
                    0 <= j < pots@.len() && #[trigger] pots@[j].cap == c[i],
            forall|j: int|
                0 <= j < pots@.len() ==> #[trigger] pots@[j].amount == capped_sum(
                    c,
                    pots@[j].cap as int,
                    n,
                ) - capped_sum(c, lower_cap(pots@, j), n),
            pots@.len() > 0 ==> pots@[pots@.len() - 1].cap == prev,
            pots@.len() == 0 ==> prev == 0,
            pots_sum(pots@, pots@.len() as int) == capped_sum(c, prev as int, n),
        ensures
            n == c.len() == f.len() <= MAX_SEATS,
            forall|j: int| 0 <= j < pots@.len() ==> (#[trigger] pots@[j]).eligible@.len() == n,
            forall|j: int, i: int|
                0 <= j < pots@.len() && 0 <= i < n ==> #[trigger] pots@[j].eligible@[i] == (!f[i]
                    && c[i] >= pots@[j].cap),
            forall|j: int| 0 < j < pots@.len() ==> #[trigger] pots@[j - 1].cap < pots@[j].cap,
            forall|j: int| 0 <= j < pots@.len() ==> #[trigger] pots@[j].cap > 0,
            forall|j: int|
                0 <= j < pots@.len() ==> is_live_level(c, f, #[trigger] pots@[j].cap as int),
            forall|i: int|
                0 <= i < n && !f[i] && c[i] > 0 ==> exists|j: int|
                    0 <= j < pots@.len() && #[trigger] pots@[j].cap == c[i],
            forall|j: int|
                0 <= j < pots@.len() ==> #[trigger] pots@[j].amount == capped_sum(
                    c,
                    pots@[j].cap as int,
                    n,
                ) - capped_sum(c, lower_cap(pots@, j), n),
            pots@.len() > 0 ==> pots@[pots@.len() - 1].cap == prev,
            pots@.len() == 0 ==> prev == 0,
            pots_sum(pots@, pots@.len() as int) == capped_sum(c, prev as int, n),
            forall|q: int| 0 <= q < n && !f[q] ==> #[trigger] c[q] <= prev,
        decreases 0xffff_ffffu32 - prev,
    {
        match next_level(contributions, folded, prev) {
            None => {
                break ;
            },
            Some((w, next)) => {
                let hi = capped_total(contributions, next);
                let lo = capped_total(contributions, prev);
                proof {
                    lemma_capped_bounds(c, prev as int, next as int, n);
                }
                let eligible = eligible_at(contributions, folded, next);
                let pot = Pot { amount: hi - lo, eligible, cap: next };
                let ghost old_pots = pots@;
                proof {
                    lemma_pots_sum_push(old_pots, pot);
                    assert(is_live_level(c, f, next as int)) by {
                        assert(c[w as int] == next);
                    }
                }
                pots.push(pot);
                proof {
                    assert(pots@.drop_last() =~= old_pots);
                    assert forall|i: int|
                        0 <= i < n && !f[i] && 0 < c[i] <= next implies exists|j: int|
                        0 <= j < pots@.len() && #[trigger] pots@[j].cap == c[i] by {
                        if c[i] <= prev {
                            let j = choose|j: int|
                                0 <= j < old_pots.len() && #[trigger] old_pots[j].cap == c[i];
                            assert(pots@[j] == old_pots[j]);
                        } else {
                            assert(pots@[old_pots.len() as int].cap == c[i]);
                        }
                    }
                    assert forall|j: int|
                        0 <= j < pots@.len() implies #[trigger] pots@[j].amount == capped_sum(
                        c,
                        pots@[j].cap as int,
                        n,
                    ) - capped_sum(c, lower_cap(pots@, j), n) by {
                        if j < old_pots.len() {
                            assert(pots@[j] == old_pots[j]);
                            if j > 0 {
                                assert(pots@[j - 1] == old_pots[j - 1]);
                            }
                        }
                    }
                }
                prev = next;
            },
        }
    }
    let total = capped_total(contributions, 0xffff_ffff);
    let reached = capped_total(contributions, prev);
    proof {
        lemma_capped_full(c, n);
        lemma_capped_bounds(c, prev as int, 0xffff_ffff, n);
    }
    let excess = total - reached;
    let k = pots.len();
    if k > 0 {
        let ghost old_pots = pots@;
        proof {
            assert(is_live_level(c, f, old_pots[0].cap as int));
            let w = choose|w: int| 0 <= w < c.len() && !f[w] && #[trigger] c[w] == old_pots[0].cap;
            lemma_total_ge_elem(c, w, n);
        }
        let mut last = pots.pop().unwrap();
        proof {
            lemma_capped_bounds(c, lower_cap(old_pots, k - 1), prev as int, n);
        }
        last.amount = last.amount + excess;
        proof {
            lemma_pots_sum_push(old_pots.drop_last(), old_pots[k - 1]);
            assert(old_pots.drop_last().push(old_pots[k - 1]) =~= old_pots);
            lemma_pots_sum_push(old_pots.drop_last(), last);
        }
        pots.push(last);
        proof {
            assert(forall|j: int| 0 <= j < k - 1 ==> #[trigger] pots@[j] == old_pots[j]);
            assert(pots@.drop_last() =~= old_pots.drop_last());
            assert(pots@.len() == k);
            assert(total_sum(c, n) != 0);
            assert(forall|j: int|
                0 <= j < k ==> #[trigger] pots@[j].cap == old_pots[j].cap && pots@[j].eligible
                    == old_pots[j].eligible);
            assert forall|i: int| 0 <= i < n && !f[i] && c[i] > 0 implies exists|j: int|
                0 <= j < k && #[trigger] pots@[j].cap == c[i] by {
                let j = choose|j: int| 0 <= j < k && #[trigger] old_pots[j].cap == c[i];
                assert(pots@[j].cap == old_pots[j].cap);
            }
            assert(forall|j: int| 0 <= j < k ==> lower_cap(pots@, j) == lower_cap(old_pots, j));
            assert(pots_of(c, f, pots@));
        }
    } else if total > 0 {
        let eligible = eligible_at(contributions, folded, 0);
        let pot = Pot { amount: total, eligible, cap: 0 };
        proof {
            lemma_pots_sum_push(pots@, pot);
        }
        pots.push(pot);
        proof {
            assert(pots_of(c, f, pots@));
        }
    } else {
        assert(pots_of(c, f, pots@));
    }
    pots
}

/// Some seat may win the pot.
pub open spec fn has_contender(p: Pot) -> bool {
    exists|i: int| 0 <= i < p.eligible@.len() && #[trigger] p.eligible@[i]
}

/// What the first `n` seats take from the first `k` pots.
pub open spec fn payout_sum(pots: Seq<Pot>, s: Seq<u32>, button: int, n: int, k: int) -> int
    decreases n,
{
    if n <= 0 {
        0
    } else {
        payout_sum(pots, s, button, n - 1, k) + payout_of(pots, s, button, n - 1, k)
    }
}

proof fn lemma_payout_sum_step(pots: Seq<Pot>, s: Seq<u32>, button: int, n: int, k: int)
    requires
        0 <= n,
        0 <= k < pots.len(),
    ensures
        payout_sum(pots, s, button, n, k + 1) == payout_sum(pots, s, button, n, k) + share_prefix(
            pots[k],
            s,
            button,
            n,
        ),
    decreases n,
{
    if n > 0 {
        lemma_payout_sum_step(pots, s, button, n - 1, k);
    }
}

proof fn lemma_payout_sum_total(pots: Seq<Pot>, s: Seq<u32>, button: int, k: int)
    requires
        0 <= k <= pots.len(),
        0 <= button < s.len(),
        forall|j: int| 0 <= j < pots.len() ==> (#[trigger] pots[j]).eligible@.len() == s.len(),
        forall|j: int| 0 <= j < pots.len() ==> has_contender(#[trigger] pots[j]),
    ensures
        payout_sum(pots, s, button, s.len() as int, k) == pots_sum(pots, k),
    decreases k,
{
    let n = s.len() as int;
    if k > 0 {
        lemma_payout_sum_total(pots, s, button, k - 1);
        lemma_payout_sum_step(pots, s, button, n, k - 1);
        assert(has_contender(pots[k - 1]));
        lemma_pot_paid_in_full(pots[k - 1], s, button);
    } else {
        lemma_payout_sum_zero(pots, s, button, n);
    }
}

proof fn lemma_payout_sum_zero(pots: Seq<Pot>, s: Seq<u32>, button: int, n: int)
    requires
        0 <= n,
    ensures
        payout_sum(pots, s, button, n, 0) == 0,
    decreases n,
{
    if n > 0 {
        lemma_payout_sum_zero(pots, s, button, n - 1);
    }
}

/// A showdown pays out exactly the chips put in: when some seat is still in
/// the hand, every pot built from the contributions has a seat that may win
/// it, and what all seats take from all pots adds up to the contributions.
pub proof fn lemma_showdown_conserves_chips(
    c: Seq<u32>,
    f: Seq<bool>,
    pots: Seq<Pot>,
    s: Seq<u32>,
    button: int,
)
    requires
        c.len() == f.len() == s.len(),
        0 <= button < s.len(),
        pots_of(c, f, pots),
        pots_sum(pots, pots.len() as int) == total_sum(c, c.len() as int),
        exists|i: int| 0 <= i < f.len() && !#[trigger] f[i],
    ensures
        forall|j: int| 0 <= j < pots.len() ==> has_contender(#[trigger] pots[j]),
        forall|j: int| 0 <= j < pots.len() ==> (#[trigger] pots[j]).eligible@.len() == s.len(),
        payout_sum(pots, s, button, s.len() as int, pots.len() as int) == total_sum(
            c,
            c.len() as int,
        ),
{
    reveal(pots_of);
    let w = choose|i: int| 0 <= i < f.len() && !#[trigger] f[i];
    assert forall|j: int| 0 <= j < pots.len() implies has_contender(#[trigger] pots[j]) by {
        if pots[j].cap > 0 {
            assert(is_live_level(c, f, pots[j].cap as int));
            let i = choose|i: int| 0 <= i < c.len() && !f[i] && #[trigger] c[i] == pots[j].cap as int;
            assert(pots[j].eligible@[i]);
        } else {
            assert(pots[j].eligible@[w]);
        }
    }
    lemma_payout_sum_total(pots, s, button, pots.len() as int);
}

/// The best score among the first `n` seats allowed by `e`, or -1 when none is.
pub open spec fn best_score(e: Seq<bool>, s: Seq<u32>, n: int) -> int
    decreases n,
{
    if n <= 0 {
        -1
    } else {
        let b = best_score(e, s, n - 1);
        if e[n - 1] && s[n - 1] > b {
            s[n - 1] as int
        } else {
            b
        }
    }
}

/// Whether seat `i` wins a pot with eligibility `e`: it may win it and has
/// the best score among those that may.
pub open spec fn wins(e: Seq<bool>, s: Seq<u32>, i: int) -> bool {
    e[i] && s[i] == best_score(e, s, e.len() as int)
}

/// The number of winners among the first `n` seats.
pub open spec fn winner_count(e: Seq<bool>, s: Seq<u32>, n: int) -> nat
    decreases n,
{
    if n <= 0 {
        0
    } else {
        winner_count(e, s, n - 1) + if wins(e, s, n - 1) {
            1nat
        } else {
            0nat
        }
    }
}

/// The first winner in `lo..hi`, or `hi` when there is none.
pub open spec fn first_winner(e: Seq<bool>, s: Seq<u32>, lo: int, hi: int) -> int
    decreases hi - lo,
{
    if lo >= hi {
        hi
    } else if wins(e, s, lo) {
        lo
    } else {
        first_winner(e, s, lo + 1, hi)
    }
}

/// The winner closest to the left of the button, who takes the odd chips.
pub open spec fn odd_chip_seat(e: Seq<bool>, s: Seq<u32>, button: int) -> int {
    let n = e.len() as int;
    let a = first_winner(e, s, button + 1, n);
    if a < n {
        a
    } else {
        first_winner(e, s, 0, button + 1)
    }
}

/// What seat `i` takes from a pot: winners share it evenly, and the odd
/// chips that do not divide go to the winner closest to the button's left.
pub open spec fn pot_share(p: Pot, s: Seq<u32>, button: int, i: int) -> int {
    let e = p.eligible@;
    let w = winner_count(e, s, e.len() as int) as int;
    if wins(e, s, i) {
        p.amount as int / w + if i == odd_chip_seat(e, s, button) {
            p.amount as int % w
        } else {
            0
        }
    } else {
        0
    }
}

/// What seat `i` takes from the first `k` pots.
pub open spec fn payout_of(pots: Seq<Pot>, s: Seq<u32>, button: int, i: int, k: int) -> int
    decreases k,
{
    if k <= 0 {
        0
    } else {
        payout_of(pots, s, button, i, k - 1) + pot_share(pots[k - 1], s, button, i)
    }
}

/// The sum of the first `n` entries.
pub open spec fn seq_sum(v: Seq<u64>, n: int) -> int
    decreases n,
{
    if n <= 0 {
        0
    } else {
        seq_sum(v, n - 1) + v[n - 1]
    }
}

proof fn lemma_best_score(e: Seq<bool>, s: Seq<u32>, n: int)
    requires
        0 <= n <= e.len(),
        n <= s.len(),
    ensures
        forall|i: int| 0 <= i < n && e[i] ==> #[trigger] s[i] <= best_score(e, s, n),
        best_score(e, s, n) >= 0 ==> exists|i: int|
            0 <= i < n && e[i] && #[trigger] s[i] == best_score(e, s, n),
        (exists|i: int| 0 <= i < n && #[trigger] e[i]) ==> best_score(e, s, n) >= 0,
    decreases n,
{
    if n > 0 {
        lemma_best_score(e, s, n - 1);
        if best_score(e, s, n) >= 0 && !(e[n - 1] && s[n - 1] > best_score(e, s, n - 1)) {
            let i = choose|i: int| 0 <= i < n - 1 && e[i] && #[trigger] s[i] == best_score(e, s, n - 1);
            assert(s[i] == best_score(e, s, n));
        }
        assert forall|i: int| 0 <= i < n && #[trigger] e[i] implies best_score(e, s, n) >= 0 by {
            if i < n - 1 {
                assert(e[i]);
            }
        }
    }
}

proof fn lemma_first_winner(e: Seq<bool>, s: Seq<u32>, lo: int, hi: int)
    requires
        0 <= lo <= hi <= e.len(),
    ensures
        lo <= first_winner(e, s, lo, hi) <= hi,
        first_winner(e, s, lo, hi) < hi ==> wins(e, s, first_winner(e, s, lo, hi)),
        (exists|i: int| lo <= i < hi && #[trigger] wins(e, s, i)) ==> first_winner(e, s, lo, hi)
            < hi,
    decreases hi - lo,
{
    if lo < hi && !wins(e, s, lo) {
        lemma_first_winner(e, s, lo + 1, hi);
        assert forall|i: int| lo <= i < hi && #[trigger] wins(e, s, i) implies first_winner(
            e,
            s,
            lo,
            hi,
        ) < hi by {
            assert(i != lo);
        }
    }
}

/// A pot that some seat may win has a winner, and the odd chips go to one.
proof fn lemma_winners_exist(e: Seq<bool>, s: Seq<u32>, button: int)
    requires
        e.len() <= s.len(),
        0 <= button < e.len(),
        exists|i: int| 0 <= i < e.len() && #[trigger] e[i],
    ensures
        winner_count(e, s, e.len() as int) >= 1,
        0 <= odd_chip_seat(e, s, button) < e.len(),
        wins(e, s, odd_chip_seat(e, s, button)),
{
    let n = e.len() as int;
    lemma_best_score(e, s, n);
    let i = choose|i: int| 0 <= i < n && e[i] && #[trigger] s[i] == best_score(e, s, n);
    assert(wins(e, s, i));
    lemma_winner_count_pos(e, s, i, n);
    lemma_first_winner(e, s, button + 1, n);
    lemma_first_winner(e, s, 0, button + 1);
    if first_winner(e, s, button + 1, n) >= n {
        assert(!(button + 1 <= i < n));
        assert(0 <= i < button + 1);
    }
}

proof fn lemma_winner_count_pos(e: Seq<bool>, s: Seq<u32>, i: int, n: int)
    requires
        0 <= i < n <= e.len(),
        wins(e, s, i),
    ensures
        winner_count(e, s, n) >= 1,
    decreases n,
{
    if i < n - 1 {
        lemma_winner_count_pos(e, s, i, n - 1);
    }
}

/// The shares of one pot over the first `m` seats: the even part for each
/// winner, plus the odd chips once the odd-chip seat is passed.
proof fn lemma_share_prefix(p: Pot, s: Seq<u32>, button: int, m: int)
    requires
        0 <= m <= p.eligible@.len(),
        0 <= button < p.eligible@.len(),
        winner_count(p.eligible@, s, p.eligible@.len() as int) >= 1,
    ensures
        share_prefix(p, s, button, m) == (p.amount as int / (winner_count(
            p.eligible@,
            s,
            p.eligible@.len() as int,
        ) as int)) * winner_count(p.eligible@, s, m) + if odd_chip_seat(p.eligible@, s, button)
            < m && wins(p.eligible@, s, odd_chip_seat(p.eligible@, s, button)) {
            p.amount as int % (winner_count(p.eligible@, s, p.eligible@.len() as int) as int)
        } else {
            0
        },
    decreases m,
{
    let e = p.eligible@;
    let w = winner_count(e, s, e.len() as int) as int;
    let odd = odd_chip_seat(e, s, button);
    lemma_first_winner(e, s, button + 1, e.len() as int);
    lemma_first_winner(e, s, 0, button + 1);
    if m > 0 {
        lemma_share_prefix(p, s, button, m - 1);
        let q = p.amount as int / w;
        let c = winner_count(e, s, m - 1) as int;
        assert(q * (c + 1) == q * c + q) by (nonlinear_arith);
        let r = p.amount as int % w;
        let old_extra = if odd < m - 1 && wins(e, s, odd) {
            r
        } else {
            0
        };
        let new_extra = if odd < m && wins(e, s, odd) {
            r
        } else {
            0
        };
        assert(share_prefix(p, s, button, m - 1) == q * c + old_extra);
        assert(share_prefix(p, s, button, m) == share_prefix(p, s, button, m - 1) + pot_share(
            p,
            s,
            button,
            m - 1,
        ));
        if wins(e, s, m - 1) {
            assert(winner_count(e, s, m) == c + 1);
            assert(q * winner_count(e, s, m) == q * c + q);
            assert(pot_share(p, s, button, m - 1) == q + if m - 1 == odd {
                r
            } else {
                0
            });
            assert(share_prefix(p, s, button, m) == q * winner_count(e, s, m) + new_extra);
        } else {
            assert(winner_count(e, s, m) == c);
            assert(pot_share(p, s, button, m - 1) == 0);
            assert(new_extra == old_extra);
            assert(share_prefix(p, s, button, m) == q * winner_count(e, s, m) + new_extra);
        }
    } else {
        assert(winner_count(e, s, 0) == 0);
        let q = p.amount as int / w;
        assert(q * 0 == 0) by (nonlinear_arith);
        assert(share_prefix(p, s, button, 0) == 0);
        assert((p.amount as int / w) * winner_count(e, s, 0) == 0);
    }
}

/// The shares of pot `p` taken by the first `m` seats.
pub open spec fn share_prefix(p: Pot, s: Seq<u32>, button: int, m: int) -> int
    decreases m,
{
    if m <= 0 {
        0
    } else {
        share_prefix(p, s, button, m - 1) + pot_share(p, s, button, m - 1)
    }
}

/// A pot that some seat may win is paid out in full: its winners' shares
/// add up to exactly its amount.
pub proof fn lemma_pot_paid_in_full(p: Pot, s: Seq<u32>, button: int)
    requires
        p.eligible@.len() <= s.len(),
        0 <= button < p.eligible@.len(),
        has_contender(p),
    ensures
        share_prefix(p, s, button, p.eligible@.len() as int) == p.amount,
{
    let e = p.eligible@;
    let n = e.len() as int;
    lemma_winners_exist(e, s, button);
    lemma_share_prefix(p, s, button, n);
    let w = winner_count(e, s, n) as int;
    let a = p.amount as int;
    assert(a == (a / w) * w + a % w) by (nonlinear_arith)
        requires
            w >= 1,
    ;
}

proof fn lemma_seq_sum_update(v: Seq<u64>, i: int, x: u64, n: int)
    requires
        0 <= i < n <= v.len(),
    ensures
        seq_sum(v.update(i, x), n) == seq_sum(v, n) - v[i] + x,
    decreases n,
{
    if n - 1 > i {
        lemma_seq_sum_update(v, i, x, n - 1);
    } else {
        lemma_seq_sum_same(v.update(i, x), v, n - 1);
    }
}

proof fn lemma_seq_sum_same(a: Seq<u64>, b: Seq<u64>, n: int)
    requires
        0 <= n <= a.len(),
        n <= b.len(),
        forall|i: int| 0 <= i < n ==> a[i] == b[i],
    ensures
        seq_sum(a, n) == seq_sum(b, n),
    decreases n,
{
    if n > 0 {
        lemma_seq_sum_same(a, b, n - 1);
    }
}

proof fn lemma_seq_sum_ge(v: Seq<u64>, i: int, n: int)
    requires
        0 <= i < n <= v.len(),
    ensures
        v[i] <= seq_sum(v, n),
        seq_sum(v, n) >= 0,
    decreases n,
{
    assert(seq_sum(v, 0) == 0);
    if n == 1 {
        assert(seq_sum(v, 1) == v[0]);
    } else if i < n - 1 {
        lemma_seq_sum_ge(v, i, n - 1);
    } else {
        lemma_seq_sum_ge(v, 0, n - 1);
    }
}

proof fn lemma_pots_sum_nonneg(p: Seq<Pot>, k: int)
    requires
        0 <= k <= p.len(),
    ensures
        0 <= pots_sum(p, k),
    decreases k,
{
    if k > 0 {
        lemma_pots_sum_nonneg(p, k - 1);
    }
}

proof fn lemma_pots_sum_mono(p: Seq<Pot>, j: int, k: int)
    requires
        0 <= j <= k <= p.len(),
    ensures
        pots_sum(p, j) <= pots_sum(p, k),
        0 <= pots_sum(p, j),
    decreases k,
{
    lemma_pots_sum_nonneg(p, j);
    if k > j {
        lemma_pots_sum_mono(p, j, k - 1);
    }
}

/// The best score among the seats allowed by `e`.
fn best_score_exec(e: &Vec<bool>, s: &Vec<u32>) -> (r: i64)
    requires
        e@.len() <= s@.len(),
    ensures
        r == best_score(e@, s@, e@.len() as int),
{
    let mut b: i64 = -1;
    let mut i: usize = 0;
    while i < e.len()
        invariant
            i <= e@.len() <= s@.len(),
            b == best_score(e@, s@, i as int),
            -1 <= b <= u32::MAX,
        decreases e@.len() - i,
    {
        if e[i] && s[i] as i64 > b {
            b = s[i] as i64;
        }
        i = i + 1;
    }
    b
}

fn count_winners(e: &Vec<bool>, s: &Vec<u32>, best: i64) -> (r: u64)
    requires
        e@.len() <= s@.len(),
        e@.len() <= MAX_SEATS,
        best == best_score(e@, s@, e@.len() as int),
    ensures
        r == winner_count(e@, s@, e@.len() as int),
{
    let mut c: u64 = 0;
    let mut i: usize = 0;
    while i < e.len()
        invariant
            i <= e@.len() <= s@.len(),
            e@.len() <= MAX_SEATS,
            best == best_score(e@, s@, e@.len() as int),
            c == winner_count(e@, s@, i as int),
            c <= i,
        decreases e@.len() - i,
    {
        if e[i] && s[i] as i64 == best {
            c = c + 1;
        }
        i = i + 1;
    }
    c
}

fn find_winner(e: &Vec<bool>, s: &Vec<u32>, best: i64, lo: usize, hi: usize) -> (r: usize)
    requires
        e@.len() <= s@.len(),
        lo <= hi <= e@.len(),
        best == best_score(e@, s@, e@.len() as int),
    ensures
        r == first_winner(e@, s@, lo as int, hi as int),
{
    let mut i = lo;
    while i < hi
        invariant
            lo <= i <= hi <= e@.len() <= s@.len(),
            best == best_score(e@, s@, e@.len() as int),
            first_winner(e@, s@, lo as int, hi as int) == first_winner(e@, s@, i as int, hi as int),
        decreases hi - i,
    {
        if e[i] && s[i] as i64 == best {
            return i;
        }
        i = i + 1;
    }
    hi
}

/// Pays out every pot at showdown. `scores[i]` is the hand score of seat `i`
/// (only those of seats eligible for a pot matter), `button` the button seat.
/// Each pot goes to its eligible seats with the best score, shared evenly,
/// the odd chips to the winner closest to the button's left. The result is
/// what each seat takes, and the pots are paid out exactly: nothing is left
/// over and nothing is made up.
pub fn distribute(pots: &Vec<Pot>, scores: &Vec<u32>, button: usize) -> (payouts: Vec<u64>)
    requires
        button < scores@.len() <= MAX_SEATS,
        forall|j: int| 0 <= j < pots@.len() ==> (#[trigger] pots@[j]).eligible@.len() == scores@.len(),
        forall|j: int| 0 <= j < pots@.len() ==> has_contender(#[trigger] pots@[j]),
        pots_sum(pots@, pots@.len() as int) <= u64::MAX,
    ensures
        payouts@.len() == scores@.len(),
        forall|i: int|
            0 <= i < scores@.len() ==> #[trigger] payouts@[i] == payout_of(
                pots@,
                scores@,
                button as int,
                i,
                pots@.len() as int,
            ),
        seq_sum(payouts@, scores@.len() as int) == pots_sum(pots@, pots@.len() as int),
{
    let n = scores.len();
    let mut payouts: Vec<u64> = Vec::new();
    let mut i: usize = 0;
    while i < n
        invariant
            i <= n == scores@.len(),
            payouts@.len() == i,
            forall|q: int| 0 <= q < i ==> #[trigger] payouts@[q] == 0,
            seq_sum(payouts@, i as int) == 0,
        decreases n - i,
    {
        let ghost prior = payouts@;
        payouts.push(0);
        proof {
            lemma_seq_sum_same(payouts@, prior, i as int);
        }
        i = i + 1;
    }
    let mut k: usize = 0;
    while k < pots.len()
        invariant
            k <= pots@.len(),
            button < n == scores@.len() <= MAX_SEATS,
            payouts@.len() == n,
            forall|j: int| 0 <= j < pots@.len() ==> (#[trigger] pots@[j]).eligible@.len() == n,
            forall|j: int| 0 <= j < pots@.len() ==> has_contender(#[trigger] pots@[j]),
            pots_sum(pots@, pots@.len() as int) <= u64::MAX,
            forall|q: int|
                0 <= q < n ==> #[trigger] payouts@[q] == payout_of(
                    pots@,
                    scores@,
                    button as int,
                    q,
                    k as int,
                ),
            seq_sum(payouts@, n as int) == pots_sum(pots@, k as int),
        decreases pots@.len() - k,
    {
        let pot = &pots[k];
        let e = &pot.eligible;
        let best = best_score_exec(e, scores);
        let w = count_winners(e, scores, best);
        let a = find_winner(e, scores, best, button + 1, n);
        let odd = if a < n {
            a
        } else {
            find_winner(e, scores, best, 0, button + 1)
        };
        proof {
            lemma_winners_exist(e@, scores@, button as int);
            lemma_pot_paid_in_full(*pot, scores@, button as int);
            lemma_pots_sum_mono(pots@, k + 1, pots@.len() as int);
        }
        let share = pot.amount / w;
        let rem = pot.amount % w;
        let ghost before = payouts@;
        let mut i: usize = 0;
        while i < n
            invariant
                i <= n == scores@.len() <= MAX_SEATS,
                payouts@.len() == n,
                e@.len() == n,
                pot.eligible@ == e@,
                k < pots@.len(),
                *pot == pots@[k as int],
                best == best_score(e@, scores@, n as int),
                w == winner_count(e@, scores@, n as int),
                w >= 1,
                odd == odd_chip_seat(e@, scores@, button as int),
                share == pot.amount / w,
                rem == pot.amount % w,
                forall|q: int| 0 <= q < i ==> #[trigger] payouts@[q] == before[q] + pot_share(
                    *pot,
                    scores@,
                    button as int,
                    q,
                ),
                forall|q: int| i <= q < n ==> #[trigger] payouts@[q] == before[q],
                seq_sum(payouts@, n as int) == seq_sum(before, n as int) + share_prefix(
                    *pot,
                    scores@,
                    button as int,
                    i as int,
                ),
                seq_sum(before, n as int) == pots_sum(pots@, k as int),
                pots_sum(pots@, k as int) + pot.amount <= u64::MAX,
                share_prefix(*pot, scores@, button as int, n as int) == pot.amount,
            decreases n - i,
        {
            proof {
                lemma_share_prefix_mono(*pot, scores@, button as int, i + 1, n as int);
                lemma_share_prefix_mono(*pot, scores@, button as int, 0, i as int);
                lemma_seq_sum_ge(payouts@, i as int, n as int);
            }
            if e[i] && scores[i] as i64 == best {
                let extra = if i == odd {
                    rem
                } else {
                    0
                };
                let old_v = payouts[i];
                proof {
                    lemma_seq_sum_update(payouts@, i as int, (old_v + share + extra) as u64, n as int);
                }
                payouts.set(i, old_v + share + extra);
            }
            i = i + 1;
        }
        proof {
            assert(pots_sum(pots@, k + 1) == pots_sum(pots@, k as int) + pots@[k as int].amount);
        }
        k = k + 1;
    }
    payouts
}

proof fn lemma_share_prefix_mono(p: Pot, s: Seq<u32>, button: int, m: int, n: int)
    requires
        0 <= m <= n <= p.eligible@.len(),
    ensures
        share_prefix(p, s, button, m) <= share_prefix(p, s, button, n),
        share_prefix(p, s, button, m) - share_prefix(p, s, button, m - 1) == pot_share(
            p,
            s,
            button,
            m - 1,
        ) || m == 0,
    decreases n,
{
    if n > m {
        lemma_share_prefix_mono(p, s, button, m, n - 1);
        lemma_share_nonneg(p, s, button, n - 1);
    }
}

proof fn lemma_share_nonneg(p: Pot, s: Seq<u32>, button: int, i: int)
    requires
        0 <= i < p.eligible@.len(),
    ensures
        pot_share(p, s, button, i) >= 0,
{
    let e = p.eligible@;
    let w = winner_count(e, s, e.len() as int) as int;
    if wins(e, s, i) {
        lemma_winner_count_pos(e, s, i, e.len() as int);
        let a = p.amount as int;
        assert(a / w >= 0 && a % w >= 0) by (nonlinear_arith)
            requires
                a >= 0,
                w > 0,
        ;
    }
}

} // verus!
