use vstd::prelude::*;
use crate::card::Card;
use core::cmp::Ordering;
use vstd::seq_lib::group_to_multiset_ensures;

verus! {

/// The categories of a five-card hand, weakest first.
#[derive(Debug, Clone, Copy, PartialEq, Eq, Structural)]
pub enum HandCategory {
    HighCard,
    OnePair,
    TwoPair,
    ThreeOfAKind,
    Straight,
    Flush,
    FullHouse,
    FourOfAKind,
    StraightFlush,
}

/// The best five-card hand of a seat: its category and a score that orders
/// all hands. Equal scores are exact ties.
#[derive(Debug, Clone, Copy, PartialEq, Eq, Structural)]
pub struct HandValue {
    pub category: HandCategory,
    pub score: u32,
}

/// The place of a category in the order `HighCard < ... < StraightFlush`.
pub open spec fn category_index(c: HandCategory) -> int {
    match c {
        HandCategory::HighCard => 0,
        HandCategory::OnePair => 1,
        HandCategory::TwoPair => 2,
        HandCategory::ThreeOfAKind => 3,
        HandCategory::Straight => 4,
        HandCategory::Flush => 5,
        HandCategory::FullHouse => 6,
        HandCategory::FourOfAKind => 7,
        HandCategory::StraightFlush => 8,
    }
}

/// The weight of one category step in a score: above every tie-break key.
pub const CATEGORY_WEIGHT: u32 = 759375;

/// The number of cards of rank `r` in `h`.
pub open spec fn rank_count(h: Seq<Card>, r: int) -> nat
    decreases h.len(),
{
    if h.len() == 0 {
        0
    } else {
        rank_count(h.drop_last(), r) + if h.last().spec_rank() == r {
            1nat
        } else {
            0nat
        }
    }
}

/// Whether all cards of `h` share one suit.
pub open spec fn same_suit(h: Seq<Card>) -> bool {
    forall|i: int| 0 <= i < h.len() ==> #[trigger] h[i].spec_suit() == h[0].spec_suit()
}

/// A rank below two stands for the ace, which also plays low.
pub open spec fn ace_low(x: int) -> int {
    if x == 1 {
        14
    } else {
        x
    }
}

/// Whether `h` holds the five consecutive ranks that end at `top`.
pub open spec fn run_to(h: Seq<Card>, top: int) -> bool {
    &&& rank_count(h, top) > 0
    &&& rank_count(h, top - 1) > 0
    &&& rank_count(h, top - 2) > 0
    &&& rank_count(h, top - 3) > 0
    &&& rank_count(h, ace_low(top - 4)) > 0
}

/// The highest top in `5..=top` of a run held by `h`, or zero.
pub open spec fn straight_high_from(h: Seq<Card>, top: int) -> int
    decreases top,
{
    if top < 5 {
        0
    } else if run_to(h, top) {
        top
    } else {
        straight_high_from(h, top - 1)
    }
}

/// The top rank of the straight in `h` (five for the wheel A-2-3-4-5), or zero.
pub open spec fn straight_high(h: Seq<Card>) -> int {
    straight_high_from(h, 14)
}

/// The number of ranks in `2..=r` held exactly `c` times in `h`.
pub open spec fn ranks_with_count(h: Seq<Card>, c: int, r: int) -> nat
    decreases r,
{
    if r < 2 {
        0
    } else {
        ranks_with_count(h, c, r - 1) + if rank_count(h, r) == c {
            1nat
        } else {
            0nat
        }
    }
}

/// The category of the hand `h`.
pub open spec fn category(h: Seq<Card>) -> HandCategory {
    let straight = straight_high(h) > 0;
    let flush = same_suit(h);
    let n4 = ranks_with_count(h, 4, 14);
    let n3 = ranks_with_count(h, 3, 14);
    let n2 = ranks_with_count(h, 2, 14);
    if straight && flush {
        HandCategory::StraightFlush
    } else if n4 > 0 {
        HandCategory::FourOfAKind
    } else if n3 > 0 && n2 > 0 {
        HandCategory::FullHouse
    } else if flush {
        HandCategory::Flush
    } else if straight {
        HandCategory::Straight
    } else if n3 > 0 {
        HandCategory::ThreeOfAKind
    } else if n2 >= 2 {
        HandCategory::TwoPair
    } else if n2 == 1 {
        HandCategory::OnePair
    } else {
        HandCategory::HighCard
    }
}

/// The ranks of `h` held exactly `c` times, from `r` down, each repeated as
/// often as it is held, followed by those held fewer times.
pub open spec fn grouped_from(h: Seq<Card>, c: int, r: int) -> Seq<u8>
    decreases c, r,
{
    if c <= 0 {
        Seq::empty()
    } else if r < 2 {
        grouped_from(h, c - 1, 14)
    } else {
        (if rank_count(h, r) == c {
            Seq::new(c as nat, |i: int| r as u8)
        } else {
            Seq::empty()
        }) + grouped_from(h, c, r - 1)
    }
}

/// The ranks of `h` ordered by how often each is held, then by rank, both
/// descending: `7 7 7 2 2` for a full house of sevens over twos.
pub open spec fn grouped(h: Seq<Card>) -> Seq<u8> {
    grouped_from(h, 5, 14)
}

/// The `i`-th tie-break rank of `h`: the straight's top for a straight, else
/// the `i`-th grouped rank; zero past the end.
pub open spec fn key_digit(h: Seq<Card>, i: int) -> int {
    if straight_high(h) > 0 {
        if i == 0 {
            straight_high(h)
        } else {
            0
        }
    } else if i < grouped(h).len() {
        grouped(h)[i] as int
    } else {
        0
    }
}

/// The five tie-break ranks read as a number in base fifteen, so that numbers
/// compare as the rank lists do, left to right.
pub open spec fn key_value(h: Seq<Card>) -> int {
    key_digit(h, 0) * 50625 + key_digit(h, 1) * 3375 + key_digit(h, 2) * 225 + key_digit(h, 3)
        * 15 + key_digit(h, 4)
}

/// The score of the five-card hand `h`: its category first, then its key.
pub open spec fn hand_score(h: Seq<Card>) -> int {
    category_index(category(h)) * CATEGORY_WEIGHT + key_value(h)
}

/// The value of the five-card hand `h`.
pub open spec fn hand_value(h: Seq<Card>) -> HandValue {
    HandValue { category: category(h), score: hand_score(h) as u32 }
}

/// The better of two candidate values; the first on equal scores.
pub open spec fn better(a: Option<HandValue>, b: Option<HandValue>) -> Option<HandValue> {
    match (a, b) {
        (None, _) => b,
        (_, None) => a,
        (Some(x), Some(y)) => if x.score >= y.score {
            a
        } else {
            b
        },
    }
}

/// The best value among the five-card hands that extend `chosen` with cards
/// of `h` from index `i` on, taken in order; `None` when there is none.
pub open spec fn best_from(h: Seq<Card>, chosen: Seq<Card>, i: int) -> Option<HandValue>
    decreases h.len() - i,
{
    if chosen.len() >= 5 {
        Some(hand_value(chosen))
    } else if i >= h.len() || i < 0 {
        None
    } else {
        better(best_from(h, chosen.push(h[i]), i + 1), best_from(h, chosen, i + 1))
    }
}

/// The value of the best five-card hand that can be made from `h`.
pub open spec fn best_hand(h: Seq<Card>) -> Option<HandValue> {
    best_from(h, Seq::empty(), 0)
}

/// The cards of `h` at the positions `idx`, in that order.
pub open spec fn pick(h: Seq<Card>, idx: Seq<int>) -> Seq<Card> {
    Seq::new(idx.len(), |k: int| h[idx[k]])
}

/// Whether `idx` lists positions in `lo..hi` in strictly increasing order.
pub open spec fn increasing_in(idx: Seq<int>, lo: int, hi: int) -> bool {
    &&& forall|k: int| 0 <= k < idx.len() ==> lo <= #[trigger] idx[k] < hi
    &&& forall|k: int| 0 <= k < idx.len() - 1 ==> #[trigger] idx[k] < idx[k + 1]
}

/// The number of cards of `h` with a rank in `2..=r`.
pub open spec fn count_upto(h: Seq<Card>, r: int) -> int
    decreases r,
{
    if r < 2 {
        0
    } else {
        count_upto(h, r - 1) + rank_count(h, r)
    }
}

/// The cards of `h` with a rank in `2..=r` held exactly `c` times.
pub open spec fn level_size(h: Seq<Card>, c: int, r: int) -> int
    decreases r,
{
    if r < 2 {
        0
    } else {
        level_size(h, c, r - 1) + if rank_count(h, r) == c {
            c
        } else {
            0
        }
    }
}

/// The cards of `h` with a rank in `2..=r` held between one and `c` times.
pub open spec fn held_upto(h: Seq<Card>, c: int, r: int) -> int
    decreases r,
{
    if r < 2 {
        0
    } else {
        held_upto(h, c, r - 1) + if 1 <= rank_count(h, r) <= c {
            rank_count(h, r) as int
        } else {
            0
        }
    }
}

proof fn lemma_count_upto_last(h: Seq<Card>, r: int)
    requires
        h.len() > 0,
    ensures
        count_upto(h, r) == count_upto(h.drop_last(), r) + if 2 <= h.last().spec_rank() <= r {
            1int
        } else {
            0
        },
    decreases r,
{
    if r >= 2 {
        lemma_count_upto_last(h, r - 1);
    }
}

proof fn lemma_count_upto_len(h: Seq<Card>)
    requires
        forall|i: int| 0 <= i < h.len() ==> 2 <= #[trigger] h[i].spec_rank() <= 14,
    ensures
        count_upto(h, 14) == h.len(),
    decreases h.len(),
{
    if h.len() > 0 {
        let t = h.drop_last();
        assert forall|i: int| 0 <= i < t.len() implies 2 <= #[trigger] t[i].spec_rank() <= 14 by {
            assert(t[i] == h[i]);
        }
        lemma_count_upto_len(t);
        lemma_count_upto_last(h, 14);
    } else {
        lemma_count_upto_empty(h, 14);
    }
}

proof fn lemma_count_upto_empty(h: Seq<Card>, r: int)
    requires
        h.len() == 0,
    ensures
        count_upto(h, r) == 0,
    decreases r,
{
    if r >= 2 {
        lemma_count_upto_empty(h, r - 1);
    }
}

proof fn lemma_rank_count_le_len(h: Seq<Card>, r: int)
    ensures
        rank_count(h, r) <= h.len(),
    decreases h.len(),
{
    if h.len() > 0 {
        lemma_rank_count_le_len(h.drop_last(), r);
    }
}

proof fn lemma_grouped_len(h: Seq<Card>, c: int, r: int)
    requires
        1 <= c,
        r <= 14,
    ensures
        grouped_from(h, c, r).len() == level_size(h, c, r) + held_upto(h, c - 1, 14),
    decreases c, r,
{
    if r < 2 {
        assert(grouped_from(h, c, r) == grouped_from(h, c - 1, 14));
        if c > 1 {
            lemma_grouped_len(h, c - 1, 14);
            lemma_held_step(h, c - 1, 14);
        } else {
            lemma_held_zero(h, 14);
            assert(grouped_from(h, 0, 14) =~= Seq::<u8>::empty());
        }
    } else {
        lemma_grouped_len(h, c, r - 1);
        let head: Seq<u8> = if rank_count(h, r) == c {
            Seq::new(c as nat, |i: int| r as u8)
        } else {
            Seq::empty()
        };
        assert(grouped_from(h, c, r) == head + grouped_from(h, c, r - 1));
    }
}

proof fn lemma_held_step(h: Seq<Card>, c: int, r: int)
    requires
        1 <= c,
    ensures
        held_upto(h, c, r) == held_upto(h, c - 1, r) + level_size(h, c, r),
    decreases r,
{
    if r >= 2 {
        lemma_held_step(h, c, r - 1);
    }
}

proof fn lemma_held_zero(h: Seq<Card>, r: int)
    ensures
        held_upto(h, 0, r) == 0,
    decreases r,
{
    if r >= 2 {
        lemma_held_zero(h, r - 1);
    }
}

proof fn lemma_held_all(h: Seq<Card>, r: int)
    requires
        h.len() <= 5,
    ensures
        held_upto(h, 5, r) == count_upto(h, r),
    decreases r,
{
    if r >= 2 {
        lemma_held_all(h, r - 1);
        lemma_rank_count_le_len(h, r);
    }
}

/// For five real cards the grouped ranks list all five of them, so the
/// tie-break key is exactly the grouped ranks and never needs padding.
pub proof fn lemma_grouped_has_five(h: Seq<Card>)
    requires
        h.len() == 5,
        forall|i: int| 0 <= i < h.len() ==> 2 <= #[trigger] h[i].spec_rank() <= 14,
    ensures
        grouped(h).len() == 5,
{
    lemma_grouped_len(h, 5, 14);
    lemma_held_step(h, 5, 14);
    lemma_held_all(h, 14);
    lemma_count_upto_len(h);
}

proof fn lemma_rank_count_remove(h: Seq<Card>, k: int, r: int)
    requires
        0 <= k < h.len(),
    ensures
        rank_count(h, r) == rank_count(h.remove(k), r) + if h[k].spec_rank() == r {
            1nat
        } else {
            0nat
        },
    decreases h.len(),
{
    if k == h.len() - 1 {
        assert(h.remove(k) =~= h.drop_last());
    } else {
        lemma_rank_count_remove(h.drop_last(), k, r);
        assert(h.drop_last().remove(k) =~= h.remove(k).drop_last());
        assert(h.remove(k).last() == h.last());
    }
}

proof fn lemma_rank_count_perm(a: Seq<Card>, b: Seq<Card>, r: int)
    requires
        a.to_multiset() == b.to_multiset(),
    ensures
        rank_count(a, r) == rank_count(b, r),
    decreases a.len(),
{
    broadcast use group_to_multiset_ensures;

    assert(a.len() == a.to_multiset().len() && b.len() == b.to_multiset().len());
    if a.len() > 0 {
        let x = a.last();
        assert(a.to_multiset().count(x) > 0) by {
            assert(a.contains(x)) by {
                assert(a[a.len() - 1] == x);
            }
        }
        assert(b.contains(x));
        let k = choose|k: int| 0 <= k < b.len() && b[k] == x;
        assert(a.drop_last().push(x) =~= a);
        assert(a.drop_last().to_multiset() =~= a.to_multiset().remove(x));
        assert(b.remove(k).to_multiset() =~= b.to_multiset().remove(x));
        lemma_rank_count_perm(a.drop_last(), b.remove(k), r);
        lemma_rank_count_remove(b, k, r);
    }
}

proof fn lemma_same_suit_perm(a: Seq<Card>, b: Seq<Card>)
    requires
        a.to_multiset() == b.to_multiset(),
        same_suit(a),
    ensures
        same_suit(b),
{
    broadcast use group_to_multiset_ensures;

    assert forall|i: int| 0 <= i < b.len() implies #[trigger] b[i].spec_suit() == b[0].spec_suit() by {
        assert(b.contains(b[i]));
        assert(b.contains(b[0]));
        assert(b.to_multiset().count(b[i]) > 0);
        assert(b.to_multiset().count(b[0]) > 0);
        assert(a.to_multiset().count(b[i]) > 0);
        assert(a.to_multiset().count(b[0]) > 0);
        assert(a.contains(b[i]));
        assert(a.contains(b[0]));
        let j = choose|j: int| 0 <= j < a.len() && a[j] == b[i];
        let m = choose|m: int| 0 <= m < a.len() && a[m] == b[0];
        assert(a[j].spec_suit() == a[0].spec_suit());
        assert(a[m].spec_suit() == a[0].spec_suit());
    }
}

proof fn lemma_straight_congruent(a: Seq<Card>, b: Seq<Card>, top: int)
    requires
        forall|r: int| #[trigger] rank_count(a, r) == rank_count(b, r),
    ensures
        straight_high_from(a, top) == straight_high_from(b, top),
    decreases top,
{
    if top >= 5 {
        assert(run_to(a, top) == run_to(b, top));
        lemma_straight_congruent(a, b, top - 1);
    }
}

proof fn lemma_groups_congruent(a: Seq<Card>, b: Seq<Card>, c: int, r: int)
    requires
        forall|q: int| #[trigger] rank_count(a, q) == rank_count(b, q),
    ensures
        ranks_with_count(a, c, r) == ranks_with_count(b, c, r),
    decreases r,
{
    if r >= 2 {
        assert(rank_count(a, r) == rank_count(b, r));
        lemma_groups_congruent(a, b, c, r - 1);
    }
}

proof fn lemma_grouped_congruent(a: Seq<Card>, b: Seq<Card>, c: int, r: int)
    requires
        forall|q: int| #[trigger] rank_count(a, q) == rank_count(b, q),
    ensures
        grouped_from(a, c, r) == grouped_from(b, c, r),
    decreases c, r,
{
    if c > 0 {
        if r < 2 {
            lemma_grouped_congruent(a, b, c - 1, 14);
        } else {
            assert(rank_count(a, r) == rank_count(b, r));
            lemma_grouped_congruent(a, b, c, r - 1);
        }
    }
}

/// A hand's value depends only on which cards it holds, not on their order:
/// no seat is favoured by the order its cards come in.
pub proof fn lemma_value_ignores_order(a: Seq<Card>, b: Seq<Card>)
    requires
        a.to_multiset() == b.to_multiset(),
    ensures
        hand_value(a) == hand_value(b),
{
    assert forall|r: int| #[trigger] rank_count(a, r) == rank_count(b, r) by {
        lemma_rank_count_perm(a, b, r);
    }
    if same_suit(a) {
        lemma_same_suit_perm(a, b);
    }
    if same_suit(b) {
        lemma_same_suit_perm(b, a);
    }
    lemma_straight_congruent(a, b, 14);
    lemma_groups_congruent(a, b, 4, 14);
    lemma_groups_congruent(a, b, 3, 14);
    lemma_groups_congruent(a, b, 2, 14);
    lemma_grouped_congruent(a, b, 5, 14);
    assert(category(a) == category(b));
    assert(key_value(a) == key_value(b));
}

proof fn lemma_grouped_bounds(h: Seq<Card>, c: int, r: int)
    requires
        r <= 14,
    ensures
        forall|j: int|
            0 <= j < grouped_from(h, c, r).len() ==> 2 <= #[trigger] grouped_from(h, c, r)[j] <= 14,
    decreases c, r,
{
    if c <= 0 {
        assert(grouped_from(h, c, r) =~= Seq::<u8>::empty());
    } else if r < 2 {
        lemma_grouped_bounds(h, c - 1, 14);
        assert(grouped_from(h, c, r) == grouped_from(h, c - 1, 14));
    } else {
        lemma_grouped_bounds(h, c, r - 1);
        let head: Seq<u8> = if rank_count(h, r) == c {
            Seq::new(c as nat, |i: int| r as u8)
        } else {
            Seq::empty()
        };
        let tail = grouped_from(h, c, r - 1);
        assert(grouped_from(h, c, r) == head + tail);
        assert forall|j: int| 0 <= j < (head + tail).len() implies 2 <= #[trigger] (head
            + tail)[j] <= 14 by {
            if j < head.len() {
                assert((head + tail)[j] == head[j]);
            } else {
                assert((head + tail)[j] == tail[j - head.len()]);
            }
        }
    }
}

proof fn lemma_straight_bounds(h: Seq<Card>, top: int)
    requires
        top <= 14,
    ensures
        straight_high_from(h, top) == 0 || 5 <= straight_high_from(h, top) <= 14,
    decreases top,
{
    if top >= 5 && !run_to(h, top) {
        lemma_straight_bounds(h, top - 1);
    }
}

/// Every tie-break rank of a hand is at most an ace, so a key stays below
/// `CATEGORY_WEIGHT` and a score fits comfortably in a `u32`.
pub proof fn lemma_score_bounds(h: Seq<Card>)
    ensures
        forall|i: int| 0 <= i < 5 ==> 0 <= #[trigger] key_digit(h, i) <= 14,
        0 <= key_value(h) < CATEGORY_WEIGHT,
        0 <= hand_score(h) < 9 * CATEGORY_WEIGHT,
        hand_value(h).score == hand_score(h),
{
    lemma_grouped_bounds(h, 5, 14);
    lemma_straight_bounds(h, 14);
    assert forall|i: int| 0 <= i < 5 implies 0 <= #[trigger] key_digit(h, i) <= 14 by {
        if straight_high(h) <= 0 && i < grouped(h).len() {
            assert(2 <= grouped(h)[i] <= 14);
        }
    }
    assert(0 <= key_digit(h, 0) <= 14);
    assert(0 <= key_digit(h, 1) <= 14);
    assert(0 <= key_digit(h, 2) <= 14);
    assert(0 <= key_digit(h, 3) <= 14);
    assert(0 <= key_digit(h, 4) <= 14);
}

/// A hand of a higher category scores above every hand of a lower one.
pub proof fn lemma_category_dominates(a: Seq<Card>, b: Seq<Card>)
    requires
        category_index(category(a)) < category_index(category(b)),
    ensures
        hand_score(a) < hand_score(b),
{
    lemma_score_bounds(a);
    lemma_score_bounds(b);
}

/// Within one category, hands compare by their tie-break ranks, left to right.
pub proof fn lemma_same_category_by_key(a: Seq<Card>, b: Seq<Card>)
    requires
        category(a) == category(b),
    ensures
        hand_score(a) < hand_score(b) <==> key_value(a) < key_value(b),
{
}

/// Two hands score the same exactly when they have the same category and the
/// same five tie-break ranks: an equal score is an exact tie.
pub proof fn lemma_equal_score_is_tie(a: Seq<Card>, b: Seq<Card>)
    ensures
        hand_score(a) == hand_score(b) <==> (category(a) == category(b) && forall|i: int|
            0 <= i < 5 ==> #[trigger] key_digit(a, i) == key_digit(b, i)),
{
    lemma_score_bounds(a);
    lemma_score_bounds(b);
    if hand_score(a) == hand_score(b) {
        let ca = category_index(category(a));
        let cb = category_index(category(b));
        assert(ca == cb);
        assert(category(a) == category(b));
        let (a0, a1, a2, a3, a4) = (
            key_digit(a, 0),
            key_digit(a, 1),
            key_digit(a, 2),
            key_digit(a, 3),
            key_digit(a, 4),
        );
        let (b0, b1, b2, b3, b4) = (
            key_digit(b, 0),
            key_digit(b, 1),
            key_digit(b, 2),
            key_digit(b, 3),
            key_digit(b, 4),
        );
        assert(a0 == b0);
        assert(a1 == b1);
        assert(a2 == b2);
        assert(a3 == b3);
        assert(a4 == b4);
    }
}

proof fn lemma_better_ge(a: Option<HandValue>, b: Option<HandValue>)
    ensures
        a is Some ==> better(a, b) is Some && better(a, b)->0.score >= a->0.score,
        b is Some ==> better(a, b) is Some && better(a, b)->0.score >= b->0.score,
        better(a, b) == a || better(a, b) == b,
{
}

proof fn lemma_best_from_upper(h: Seq<Card>, chosen: Seq<Card>, i: int, idx: Seq<int>)
    requires
        0 <= i,
        chosen.len() <= 5,
        idx.len() == 5 - chosen.len(),
        increasing_in(idx, i, h.len() as int),
    ensures
        best_from(h, chosen, i) is Some,
        hand_score(chosen + pick(h, idx)) <= best_from(h, chosen, i)->0.score,
    decreases h.len() - i,
{
    if chosen.len() >= 5 {
        assert(chosen + pick(h, idx) =~= chosen);
        lemma_score_bounds(chosen);
    } else {
        assert(i <= idx[0] < h.len());
        let with = best_from(h, chosen.push(h[i]), i + 1);
        let without = best_from(h, chosen, i + 1);
        lemma_better_ge(with, without);
        if idx[0] == i {
            let rest = idx.drop_first();
            assert forall|k: int| 0 <= k < rest.len() implies i + 1 <= #[trigger] rest[k] < h.len() by {
                lemma_increasing_chain(idx, i, h.len() as int, k + 1);
            }
            assert(chosen.push(h[i]) + pick(h, rest) =~= chosen + pick(h, idx));
            lemma_best_from_upper(h, chosen.push(h[i]), i + 1, rest);
        } else {
            lemma_best_from_upper(h, chosen, i + 1, idx);
        }
    }
}

proof fn lemma_increasing_chain(idx: Seq<int>, lo: int, hi: int, m: int)
    requires
        increasing_in(idx, lo, hi),
        0 < m < idx.len(),
    ensures
        idx[0] < idx[m],
    decreases m,
{
    if m > 1 {
        lemma_increasing_chain(idx, lo, hi, m - 1);
        assert(idx[m - 1] < idx[m]);
    } else {
        assert(idx[0] < idx[1]);
    }
}

proof fn lemma_best_from_attained(h: Seq<Card>, chosen: Seq<Card>, i: int) -> (idx: Seq<int>)
    requires
        0 <= i,
        chosen.len() <= 5,
        best_from(h, chosen, i) is Some,
    ensures
        idx.len() == 5 - chosen.len(),
        increasing_in(idx, i, h.len() as int),
        best_from(h, chosen, i) == Some(hand_value(chosen + pick(h, idx))),
    decreases h.len() - i,
{
    if chosen.len() >= 5 {
        let idx = Seq::<int>::empty();
        assert(chosen + pick(h, idx) =~= chosen);
        idx
    } else {
        let with = best_from(h, chosen.push(h[i]), i + 1);
        let without = best_from(h, chosen, i + 1);
        lemma_better_ge(with, without);
        if better(with, without) == with && with is Some {
            let rest = lemma_best_from_attained(h, chosen.push(h[i]), i + 1);
            let idx = seq![i].add(rest);
            assert(chosen.push(h[i]) + pick(h, rest) =~= chosen + pick(h, idx));
            assert forall|k: int| 0 <= k < idx.len() - 1 implies #[trigger] idx[k] < idx[k + 1] by {
                if k > 0 {
                    assert(idx[k] == rest[k - 1]);
                }
            }
            idx
        } else {
            lemma_best_from_attained(h, chosen, i + 1)
        }
    }
}

/// The evaluated hand is the best five-card hand of the cards: it exists
/// exactly when there are at least five cards, some five of them make it, and
/// no five of them score higher.
pub proof fn lemma_best_hand_is_maximum(h: Seq<Card>)
    ensures
        best_hand(h) is Some <==> h.len() >= 5,
        best_hand(h) is Some ==> exists|idx: Seq<int>|
            idx.len() == 5 && increasing_in(idx, 0, h.len() as int) && best_hand(h) == Some(
                #[trigger] hand_value(pick(h, idx)),
            ),
        forall|idx: Seq<int>|
            idx.len() == 5 && increasing_in(idx, 0, h.len() as int) ==> #[trigger] hand_score(
                pick(h, idx),
            ) <= best_hand(h)->0.score,
{
    let e = Seq::<Card>::empty();
    assert forall|idx: Seq<int>|
        idx.len() == 5 && increasing_in(idx, 0, h.len() as int) implies #[trigger] hand_score(
        pick(h, idx),
    ) <= best_hand(h)->0.score by {
        lemma_best_from_upper(h, e, 0, idx);
        assert(e + pick(h, idx) =~= pick(h, idx));
    }
    if h.len() >= 5 {
        let idx = seq![0int, 1, 2, 3, 4];
        lemma_best_from_upper(h, e, 0, idx);
    }
    if best_hand(h) is Some {
        let idx = lemma_best_from_attained(h, e, 0);
        assert(e + pick(h, idx) =~= pick(h, idx));
        lemma_increasing_chain(idx, 0, h.len() as int, 4);
    }
}

proof fn lemma_count_step(h: Seq<Card>, i: int, r: int)
    requires
        0 <= i < h.len(),
    ensures
        rank_count(h.take(i + 1), r) == rank_count(h.take(i), r) + if h[i].spec_rank() == r {
            1nat
        } else {
            0nat
        },
{
    assert(h.take(i + 1).drop_last() =~= h.take(i));
}

/// Counts how many of the five cards carry each rank, indexed by rank.
fn count_ranks(h: &Vec<Card>) -> (counts: Vec<u8>)
    requires
        h@.len() == 5,
    ensures
        counts@.len() == 15,
        forall|r: int| 0 <= r < 15 ==> #[trigger] counts@[r] == rank_count(h@, r),
        forall|r: int| 0 <= r < 15 ==> #[trigger] counts@[r] <= 5,
{
    let mut counts: Vec<u8> = vec![0u8; 15];
    let mut i: usize = 0;
    while i < 5
        invariant
            h@.len() == 5,
            i <= 5,
            counts@.len() == 15,
            forall|r: int| 0 <= r < 15 ==> #[trigger] counts@[r] == rank_count(h@.take(i as int), r),
            forall|r: int| 0 <= r < 15 ==> #[trigger] counts@[r] <= i,
        decreases 5 - i,
    {
        let r = h[i].rank();
        proof {
            assert forall|q: int| 0 <= q < 15 implies rank_count(h@.take(i + 1), q) == (if q
                == r {
                counts@[q] + 1
            } else {
                counts@[q] as int
            }) by {
                lemma_count_step(h@, i as int, q);
            }
        }
        let c = counts[r as usize];
        counts.set(r as usize, c + 1);
        i = i + 1;
    }
    assert(h@.take(5) =~= h@);
    counts
}

/// The top of the straight held, as `straight_high`, read from the counts.
fn find_straight(h: &Vec<Card>, counts: &Vec<u8>) -> (top: u8)
    requires
        h@.len() == 5,
        counts@.len() == 15,
        forall|r: int| 0 <= r < 15 ==> #[trigger] counts@[r] == rank_count(h@, r),
    ensures
        top == straight_high(h@),
        top <= 14,
{
    let mut t: u8 = 14;
    while t >= 5
        invariant
            4 <= t <= 14,
            counts@.len() == 15,
            forall|r: int| 0 <= r < 15 ==> #[trigger] counts@[r] == rank_count(h@, r),
            straight_high(h@) == straight_high_from(h@, t as int),
        decreases t,
    {
        let low: usize = if t == 5 {
            14
        } else {
            (t - 4) as usize
        };
        if counts[t as usize] > 0 && counts[(t - 1) as usize] > 0 && counts[(t - 2) as usize] > 0
            && counts[(t - 3) as usize] > 0 && counts[low] > 0 {
            return t;
        }
        t = t - 1;
    }
    0
}

/// Whether all five cards share a suit.
fn all_same_suit(h: &Vec<Card>) -> (r: bool)
    requires
        h@.len() == 5,
    ensures
        r == same_suit(h@),
{
    let first = h[0].suit();
    let mut i: usize = 1;
    while i < 5
        invariant
            h@.len() == 5,
            1 <= i <= 5,
            first == h@[0].spec_suit(),
            forall|j: int| 0 <= j < i ==> #[trigger] h@[j].spec_suit() == h@[0].spec_suit(),
        decreases 5 - i,
    {
        if h[i].suit() != first {
            return false;
        }
        i = i + 1;
    }
    true
}

/// How many ranks are held exactly `c` times.
fn count_groups(h: &Vec<Card>, counts: &Vec<u8>, c: u8) -> (n: u8)
    requires
        counts@.len() == 15,
        forall|r: int| 0 <= r < 15 ==> #[trigger] counts@[r] == rank_count(h@, r),
    ensures
        n == ranks_with_count(h@, c as int, 14),
{
    let mut n: u8 = 0;
    let mut r: usize = 2;
    while r <= 14
        invariant
            2 <= r <= 15,
            counts@.len() == 15,
            forall|q: int| 0 <= q < 15 ==> #[trigger] counts@[q] == rank_count(h@, q),
            n == ranks_with_count(h@, c as int, r - 1),
            n <= r - 2,
        decreases 15 - r,
    {
        if counts[r] == c {
            n = n + 1;
        }
        r = r + 1;
    }
    n
}

/// The grouped ranks of the hand, as `grouped`.
fn group_ranks(h: &Vec<Card>, counts: &Vec<u8>) -> (key: Vec<u8>)
    requires
        counts@.len() == 15,
        forall|r: int| 0 <= r < 15 ==> #[trigger] counts@[r] == rank_count(h@, r),
    ensures
        key@ == grouped(h@),
        forall|j: int| 0 <= j < key@.len() ==> 2 <= #[trigger] key@[j] <= 14,
{
    let mut key: Vec<u8> = Vec::new();
    let mut c: u8 = 5;
    while c >= 1
        invariant
            c <= 5,
            counts@.len() == 15,
            forall|r: int| 0 <= r < 15 ==> #[trigger] counts@[r] == rank_count(h@, r),
            key@ + grouped_from(h@, c as int, 14) == grouped(h@),
            forall|j: int| 0 <= j < key@.len() ==> 2 <= #[trigger] key@[j] <= 14,
        decreases c,
    {
        let mut r: u8 = 14;
        while r >= 2
            invariant
                1 <= c <= 5,
                1 <= r <= 14,
                counts@.len() == 15,
                forall|q: int| 0 <= q < 15 ==> #[trigger] counts@[q] == rank_count(h@, q),
                key@ + grouped_from(h@, c as int, r as int) == grouped(h@),
                forall|j: int| 0 <= j < key@.len() ==> 2 <= #[trigger] key@[j] <= 14,
            decreases r,
        {
            let ghost before = key@;
            if counts[r as usize] == c {
                let mut k: u8 = 0;
                while k < c
                    invariant
                        k <= c,
                        2 <= r <= 14,
                        key@ == before + Seq::new(k as nat, |i: int| r as u8),
                        forall|j: int| 0 <= j < key@.len() ==> 2 <= #[trigger] key@[j] <= 14,
                        forall|j: int| 0 <= j < before.len() ==> 2 <= #[trigger] before[j] <= 14,
                    decreases c - k,
                {
                    key.push(r);
                    k = k + 1;
                    assert(key@ =~= before + Seq::new(k as nat, |i: int| r as u8));
                }
                assert(before + grouped_from(h@, c as int, r as int) =~= key@ + grouped_from(
                    h@,
                    c as int,
                    r - 1,
                ));
            } else {
                assert(grouped_from(h@, c as int, r as int) =~= grouped_from(
                    h@,
                    c as int,
                    r - 1,
                ));
            }
            r = r - 1;
        }
        c = c - 1;
    }
    assert(key@ =~= grouped(h@));
    key
}

/// The tie-break rank at place `i`, zero past the end of the key.
fn digit(key: &Vec<u8>, i: usize) -> (d: u32)
    requires
        forall|j: int| 0 <= j < key@.len() ==> 2 <= #[trigger] key@[j] <= 14,
    ensures
        d == (if i < key@.len() {
            key@[i as int] as int
        } else {
            0
        }),
        d <= 14,
{
    if i < key.len() {
        key[i] as u32
    } else {
        0
    }
}

/// The value of a five-card hand.
pub fn evaluate_five(h: &Vec<Card>) -> (v: HandValue)
    requires
        h@.len() == 5,
    ensures
        v == hand_value(h@),
        v.score == hand_score(h@),
{
    let counts = count_ranks(h);
    let flush = all_same_suit(h);
    let top = find_straight(h, &counts);
    let n4 = count_groups(h, &counts, 4);
    let n3 = count_groups(h, &counts, 3);
    let n2 = count_groups(h, &counts, 2);
    let straight = top > 0;
    let category = if straight && flush {
        HandCategory::StraightFlush
    } else if n4 > 0 {
        HandCategory::FourOfAKind
    } else if n3 > 0 && n2 > 0 {
        HandCategory::FullHouse
    } else if flush {
        HandCategory::Flush
    } else if straight {
        HandCategory::Straight
    } else if n3 > 0 {
        HandCategory::ThreeOfAKind
    } else if n2 >= 2 {
        HandCategory::TwoPair
    } else if n2 == 1 {
        HandCategory::OnePair
    } else {
        HandCategory::HighCard
    };
    let cat: u32 = match category {
        HandCategory::HighCard => 0,
        HandCategory::OnePair => 1,
        HandCategory::TwoPair => 2,
        HandCategory::ThreeOfAKind => 3,
        HandCategory::Straight => 4,
        HandCategory::Flush => 5,
        HandCategory::FullHouse => 6,
        HandCategory::FourOfAKind => 7,
        HandCategory::StraightFlush => 8,
    };
    let key_part: u32 = if straight {
        top as u32 * 50625
    } else {
        let key = group_ranks(h, &counts);
        digit(&key, 0) * 50625 + digit(&key, 1) * 3375 + digit(&key, 2) * 225 + digit(&key, 3)
            * 15 + digit(&key, 4)
    };
    HandValue { category, score: cat * CATEGORY_WEIGHT + key_part }
}

/// The better of two candidates, as `better`.
fn pick_better(a: Option<HandValue>, b: Option<HandValue>) -> (r: Option<HandValue>)
    ensures
        r == better(a, b),
{
    match (a, b) {
        (None, _) => b,
        (_, None) => a,
        (Some(x), Some(y)) => if x.score >= y.score {
            a
        } else {
            b
        },
    }
}

fn best_from_exec(h: &Vec<Card>, chosen: &mut Vec<Card>, i: usize) -> (r: Option<HandValue>)
    requires
        old(chosen)@.len() <= 5,
        i <= h@.len(),
    ensures
        r == best_from(h@, old(chosen)@, i as int),
        final(chosen)@ == old(chosen)@,
    decreases h@.len() - i,
{
    if chosen.len() >= 5 {
        return Some(evaluate_five(chosen));
    }
    if i >= h.len() {
        return None;
    }
    let ghost start = chosen@;
    chosen.push(h[i]);
    let with = best_from_exec(h, chosen, i + 1);
    chosen.pop();
    assert(chosen@ =~= start);
    let without = best_from_exec(h, chosen, i + 1);
    pick_better(with, without)
}

/// The value of the best five-card hand among `cards` (hole plus community
/// cards); `None` when there are fewer than five.
pub fn evaluate(cards: &Vec<Card>) -> (r: Option<HandValue>)
    ensures
        r == best_hand(cards@),
{
    let mut chosen: Vec<Card> = Vec::new();
    best_from_exec(cards, &mut chosen, 0)
}

/// Orders two hand values: by score, equal scores being an exact tie.
pub fn compare_hands(a: &HandValue, b: &HandValue) -> (r: Ordering)
    ensures
        a.score < b.score ==> r == Ordering::Less,
        a.score == b.score ==> r == Ordering::Equal,
        a.score > b.score ==> r == Ordering::Greater,
{
    if a.score < b.score {
        Ordering::Less
    } else if a.score == b.score {
        Ordering::Equal
    } else {
        Ordering::Greater
    }
}

} // verus!
