use vstd::prelude::*;
use vstd::string::StringSliceAdditionalSpecFns;
use crate::player::{Action, PlayerError};

verus! {

/// Whether `b` is an ASCII white-space character (tab to carriage return, space).
pub open spec fn is_ascii_space(b: u8) -> bool {
    b == 32 || 9 <= b <= 13
}

/// Whether the three bytes encode a white-space character outside Latin-1:
/// U+1680, U+2000 to U+200A, U+2028, U+2029, U+202F, U+205F or U+3000.
pub open spec fn is_wide_space(a: u8, b: u8, c: u8) -> bool {
    ||| (a == 0xE1 && b == 0x9A && c == 0x80)
    ||| (a == 0xE2 && b == 0x80 && ((0x80 <= c <= 0x8A) || c == 0xA8 || c == 0xA9 || c == 0xAF))
    ||| (a == 0xE2 && b == 0x81 && c == 0x9F)
    ||| (a == 0xE3 && b == 0x80 && c == 0x80)
}

/// Whether the two bytes encode U+0085 or U+00A0, the white space of Latin-1.
pub open spec fn is_latin_space(a: u8, b: u8) -> bool {
    a == 0xC2 && (b == 0x85 || b == 0xA0)
}

/// The length in bytes of the white-space character that starts at `i`
/// (every character Unicode calls White_Space, as `str::trim` drops), or zero.
pub open spec fn space_at(s: Seq<u8>, i: int) -> int {
    if 0 <= i < s.len() && is_ascii_space(s[i]) {
        1
    } else if 0 <= i && i + 1 < s.len() && is_latin_space(s[i], s[i + 1]) {
        2
    } else if 0 <= i && i + 2 < s.len() && is_wide_space(s[i], s[i + 1], s[i + 2]) {
        3
    } else {
        0
    }
}

/// The length in bytes of the white-space character that ends at `e`
/// without reaching below `lo`, or zero.
pub open spec fn space_before(s: Seq<u8>, e: int, lo: int) -> int {
    if lo <= e - 1 && e <= s.len() && is_ascii_space(s[e - 1]) {
        1
    } else if lo <= e - 2 && e <= s.len() && is_latin_space(s[e - 2], s[e - 1]) {
        2
    } else if lo <= e - 3 && e <= s.len() && is_wide_space(s[e - 3], s[e - 2], s[e - 1]) {
        3
    } else {
        0
    }
}

/// `b` with ASCII upper-case letters made lower-case.
pub open spec fn to_lower(b: u8) -> u8 {
    if 65 <= b <= 90 {
        (b + 32) as u8
    } else {
        b
    }
}

/// The first index from `i` on where no white space starts, or the length.
pub open spec fn lead(s: Seq<u8>, i: int) -> int
    decreases s.len() - i,
{
    if 0 <= i < s.len() && space_at(s, i) > 0 {
        lead(s, i + space_at(s, i))
    } else {
        i
    }
}

/// The end of `s` once trailing white space down to `lo` is dropped.
pub open spec fn trail(s: Seq<u8>, e: int, lo: int) -> int
    decreases e - lo,
{
    if space_before(s, e, lo) > 0 {
        trail(s, e - space_before(s, e, lo), lo)
    } else {
        e
    }
}

/// `s` without its leading and trailing white space, as `str::trim` gives
/// it for the UTF-8 bytes of a string.
pub open spec fn trimmed(s: Seq<u8>) -> Seq<u8> {
    s.subrange(lead(s, 0), trail(s, s.len() as int, lead(s, 0)))
}

/// Whether `s`, trimmed, spells the lower-case word `w`, ignoring ASCII case.
/// Only ASCII letters are folded: the words are ASCII, and no other
/// character lower-cases to one of their letters but the Kelvin sign, which
/// this does not read as `k`.
pub open spec fn is_word(s: Seq<u8>, w: Seq<u8>) -> bool {
    let t = trimmed(s);
    t.len() == w.len() && forall|i: int| 0 <= i < t.len() ==> #[trigger] to_lower(t[i]) == w[i]
}

/// Whether every byte of `s` is an ASCII digit.
pub open spec fn all_digits(s: Seq<u8>) -> bool {
    forall|i: int| 0 <= i < s.len() ==> 48 <= #[trigger] s[i] <= 57
}

/// The number that the decimal digits `s` write.
pub open spec fn digits_value(s: Seq<u8>) -> int
    decreases s.len(),
{
    if s.len() == 0 {
        0
    } else {
        digits_value(s.drop_last()) * 10 + (s.last() - 48)
    }
}

/// The digits of a trimmed amount: without one leading `+`, if there is one.
pub open spec fn unsigned_part(t: Seq<u8>) -> Seq<u8> {
    if t.len() > 0 && t[0] == 43 {
        t.drop_first()
    } else {
        t
    }
}

/// The amount written in `s`, read as `str::trim` and then `u32`'s `from_str`
/// read it: an optional `+` and at least one decimal digit between white
/// space, at most `u32::MAX`.
pub open spec fn amount_of(s: Seq<u8>) -> Option<u32> {
    let d = unsigned_part(trimmed(s));
    if d.len() > 0 && all_digits(d) && digits_value(d) <= u32::MAX {
        Some(digits_value(d) as u32)
    } else {
        None
    }
}

pub open spec fn word_fold() -> Seq<u8> {
    seq![102u8, 111, 108, 100]
}

pub open spec fn word_call() -> Seq<u8> {
    seq![99u8, 97, 108, 108]
}

pub open spec fn word_check() -> Seq<u8> {
    seq![99u8, 104, 101, 99, 107]
}

pub open spec fn word_raise() -> Seq<u8> {
    seq![114u8, 97, 105, 115, 101]
}

pub open spec fn word_allin() -> Seq<u8> {
    seq![97u8, 108, 108, 105, 110]
}

/// The action a typed reply asks for: `fold`, `call`, `check` (a call that
/// owes nothing), `allin`, or `raise` with the total in `amount`, which must
/// exceed the current bet. Case and surrounding white space do not matter.
pub open spec fn reply_action(reply: Seq<u8>, amount: Seq<u8>, current_bet: u32) -> Result<
    Action,
    PlayerError,
> {
    if is_word(reply, word_fold()) {
        Ok(Action::Fold)
    } else if is_word(reply, word_call()) || is_word(reply, word_check()) {
        Ok(Action::Call)
    } else if is_word(reply, word_allin()) {
        Ok(Action::AllIn)
    } else if is_word(reply, word_raise()) {
        match amount_of(amount) {
            None => Err(PlayerError::InvalidInput),
            Some(a) => if a <= current_bet {
                Err(PlayerError::InvalidRaiseAmount)
            } else {
                Ok(Action::Raise(a))
            },
        }
    } else {
        Err(PlayerError::InvalidInput)
    }
}

fn space_len_at(s: &[u8], i: usize) -> (r: usize)
    ensures
        r == space_at(s@, i as int),
{
    let n = s.len();
    if i < n && (s[i] == 32 || (s[i] >= 9 && s[i] <= 13)) {
        1
    } else if i < n && n - i > 1 && s[i] == 0xC2 && (s[i + 1] == 0x85 || s[i + 1] == 0xA0) {
        2
    } else if i < n && n - i > 2 && wide(s[i], s[i + 1], s[i + 2]) {
        3
    } else {
        0
    }
}

fn wide(a: u8, b: u8, c: u8) -> (r: bool)
    ensures
        r == is_wide_space(a, b, c),
{
    (a == 0xE1 && b == 0x9A && c == 0x80) || (a == 0xE2 && b == 0x80 && ((0x80 <= c && c <= 0x8A)
        || c == 0xA8 || c == 0xA9 || c == 0xAF)) || (a == 0xE2 && b == 0x81 && c == 0x9F) || (a
        == 0xE3 && b == 0x80 && c == 0x80)
}

fn space_len_before(s: &[u8], e: usize, lo: usize) -> (r: usize)
    requires
        lo <= e <= s@.len(),
    ensures
        r == space_before(s@, e as int, lo as int),
        r <= e - lo,
{
    if e - lo >= 1 && (s[e - 1] == 32 || (s[e - 1] >= 9 && s[e - 1] <= 13)) {
        1
    } else if e - lo >= 2 && s[e - 2] == 0xC2 && (s[e - 1] == 0x85 || s[e - 1] == 0xA0) {
        2
    } else if e - lo >= 3 && wide(s[e - 3], s[e - 2], s[e - 1]) {
        3
    } else {
        0
    }
}

fn lower(b: u8) -> (r: u8)
    ensures
        r == to_lower(b),
{
    if b >= 65 && b <= 90 {
        b + 32
    } else {
        b
    }
}

/// The bounds of `s` without its leading and trailing blanks.
fn trim_bounds(s: &[u8]) -> (r: (usize, usize))
    ensures
        r.0 == lead(s@, 0),
        r.1 == trail(s@, s@.len() as int, lead(s@, 0)),
        r.0 <= r.1 <= s@.len(),
{
    let n = s.len();
    let mut i: usize = 0;
    loop
        invariant
            i <= n == s@.len(),
            lead(s@, 0) == lead(s@, i as int),
        ensures
            i <= n == s@.len(),
            lead(s@, 0) == i,
        decreases n - i,
    {
        let k = space_len_at(s, i);
        if k == 0 {
            break;
        }
        i = i + k;
    }
    let mut e: usize = n;
    loop
        invariant
            i <= e <= n == s@.len(),
            i == lead(s@, 0),
            trail(s@, n as int, i as int) == trail(s@, e as int, i as int),
        ensures
            i <= e <= n == s@.len(),
            e == trail(s@, n as int, i as int),
        decreases e - i,
    {
        let k = space_len_before(s, e, i);
        if k == 0 {
            break;
        }
        e = e - k;
    }
    (i, e)
}

/// Whether `s`, trimmed, spells `w` ignoring ASCII case.
fn matches_word(s: &[u8], w: &[u8]) -> (r: bool)
    ensures
        r == is_word(s@, w@),
{
    let (a, b) = trim_bounds(s);
    let ghost t = trimmed(s@);
    if b - a != w.len() {
        return false;
    }
    let mut i: usize = 0;
    while i < w.len()
        invariant
            a <= b <= s@.len(),
            t == s@.subrange(a as int, b as int),
            t == trimmed(s@),
            t.len() == w@.len(),
            i <= w@.len(),
            forall|j: int| 0 <= j < i ==> #[trigger] to_lower(t[j]) == w@[j],
        decreases w@.len() - i,
    {
        assert(t[i as int] == s@[a + i]);
        if lower(s[a + i]) != w[i] {
            assert(to_lower(t[i as int]) != w@[i as int]);
            return false;
        }
        i = i + 1;
    }
    true
}

proof fn lemma_digits_prefix(s: Seq<u8>, i: int)
    requires
        0 <= i < s.len(),
    ensures
        digits_value(s.take(i + 1)) == digits_value(s.take(i)) * 10 + (s[i] - 48),
{
    assert(s.take(i + 1).drop_last() =~= s.take(i));
}

proof fn lemma_digits_grow(s: Seq<u8>, i: int)
    requires
        0 <= i <= s.len(),
        all_digits(s),
    ensures
        0 <= digits_value(s.take(i)) <= digits_value(s),
    decreases s.len() - i,
{
    if i < s.len() {
        lemma_digits_prefix(s, i);
        assert(48 <= s[i] <= 57);
        lemma_digits_grow(s, i + 1);
        lemma_digits_nonneg(s, i);
    } else {
        assert(s.take(i) =~= s);
        lemma_digits_nonneg(s, i);
    }
}

proof fn lemma_digits_nonneg(s: Seq<u8>, i: int)
    requires
        0 <= i <= s.len(),
        all_digits(s),
    ensures
        digits_value(s.take(i)) >= 0,
    decreases i,
{
    if i > 0 {
        lemma_digits_prefix(s, i - 1);
        lemma_digits_nonneg(s, i - 1);
    } else {
        assert(s.take(0) =~= Seq::<u8>::empty());
    }
}

/// The amount written in `s`, as `amount_of`.
fn parse_amount(s: &[u8]) -> (r: Option<u32>)
    ensures
        r == amount_of(s@),
{
    let (a0, b) = trim_bounds(s);
    let ghost t0 = trimmed(s@);
    let a = if a0 < b && s[a0] == 43 {
        a0 + 1
    } else {
        a0
    };
    let ghost t = unsigned_part(t0);
    assert(t =~= s@.subrange(a as int, b as int));
    if a == b {
        return None;
    }
    let mut i: usize = a;
    while i < b
        invariant
            a <= i <= b <= s@.len(),
            t == s@.subrange(a as int, b as int),
            t == unsigned_part(trimmed(s@)),
            forall|j: int| 0 <= j < i - a ==> 48 <= #[trigger] t[j] <= 57,
        decreases b - i,
    {
        assert(t[i - a] == s@[i as int]);
        if s[i] < 48 || s[i] > 57 {
            assert(!(48 <= t[i - a] <= 57));
            return None;
        }
        i = i + 1;
    }
    assert(all_digits(t));
    let mut v: u64 = 0;
    let mut k: usize = a;
    while k < b
        invariant
            a <= k <= b <= s@.len(),
            t == s@.subrange(a as int, b as int),
            t == unsigned_part(trimmed(s@)),
            all_digits(t),
            v == digits_value(t.take(k - a)),
            v <= u32::MAX,
        decreases b - k,
    {
        proof {
            lemma_digits_prefix(t, k - a);
            assert(t[k - a] == s@[k as int]);
        }
        v = v * 10 + (s[k] - 48) as u64;
        if v > 0xffff_ffff {
            proof {
                lemma_digits_grow(t, k - a + 1);
            }
            return None;
        }
        k = k + 1;
    }
    assert(t.take(b - a) =~= t);
    Some(v as u32)
}

/// Reads a typed reply as an action, as `reply_action` says: `reply` holds
/// the action word and `amount` the raise total, when there is one.
pub fn parse_reply(reply: &str, amount: &str, current_bet: u32) -> (r: Result<Action, PlayerError>)
    ensures
        r == reply_action(reply.spec_bytes(), amount.spec_bytes(), current_bet),
{
    let w = reply.as_bytes();
    let fold: [u8; 4] = [102, 111, 108, 100];
    let call: [u8; 4] = [99, 97, 108, 108];
    let check: [u8; 5] = [99, 104, 101, 99, 107];
    let raise: [u8; 5] = [114, 97, 105, 115, 101];
    let allin: [u8; 5] = [97, 108, 108, 105, 110];
    assert(fold@ =~= word_fold());
    assert(call@ =~= word_call());
    assert(check@ =~= word_check());
    assert(raise@ =~= word_raise());
    assert(allin@ =~= word_allin());
    if matches_word(w, fold.as_slice()) {
        Ok(Action::Fold)
    } else if matches_word(w, call.as_slice()) || matches_word(w, check.as_slice()) {
        Ok(Action::Call)
    } else if matches_word(w, allin.as_slice()) {
        Ok(Action::AllIn)
    } else if matches_word(w, raise.as_slice()) {
        match parse_amount(amount.as_bytes()) {
            None => Err(PlayerError::InvalidInput),
            Some(a) => if a <= current_bet {
                Err(PlayerError::InvalidRaiseAmount)
            } else {
                Ok(Action::Raise(a))
            },
        }
    } else {
        Err(PlayerError::InvalidInput)
    }
}

} // verus!
