//! The wire form of cards, actions and state messages: JSON text as
//! bytes, written canonically by the encoders; the parsers accept
//! exactly the canonical form, so that decoding an encoding gives the
//! value back.

use vstd::prelude::*;
use crate::api::{Cards, GameState, PlayAction, ServerNotification, SetupAction, Stage};
use crate::deck::{Card, Suit};
use crate::playercards::views_of;

verus! {

// ---------------------------------------------------------------------
// decimal numbers
// ---------------------------------------------------------------------

pub open spec fn is_digit(b: u8) -> bool {
    48 <= b <= 57
}

/// The decimal digits of `n`, most significant first.
pub open spec fn spec_enc_u64(n: int) -> Seq<u8>
    decreases n,
{
    if n <= 0 {
        seq![48u8]
    } else if n < 10 {
        seq![(48 + n) as u8]
    } else {
        spec_enc_u64(n / 10).push((48 + n % 10) as u8)
    }
}

/// The value of a digit string, read left to right after `acc`.
pub open spec fn spec_combine(acc: int, d: Seq<u8>) -> int
    decreases d.len(),
{
    if d.len() == 0 {
        acc
    } else {
        spec_combine(acc, d.drop_last()) * 10 + (d.last() - 48)
    }
}

/// Greedy digit run: consumes digits, at most 20 of them.
pub open spec fn spec_parse_digits(s: Seq<u8>, pos: int, acc: int, count: int) -> Option<
    (int, int),
>
    decreases s.len() - pos,
{
    if 0 <= pos < s.len() && is_digit(s[pos]) {
        if count >= 20 {
            None
        } else {
            spec_parse_digits(s, pos + 1, acc * 10 + (s[pos] - 48), count + 1)
        }
    } else {
        Some((acc, pos))
    }
}

/// A canonical decimal number: at least one digit, no leading zero, at
/// most 20 digits, value within `u64`.
pub open spec fn spec_parse_u64(s: Seq<u8>, pos: int) -> Option<(u64, int)> {
    if 0 <= pos < s.len() && is_digit(s[pos]) {
        if s[pos] == 48 && pos + 1 < s.len() && is_digit(s[pos + 1]) {
            None
        } else {
            match spec_parse_digits(s, pos, 0, 0) {
                Some((v, p)) => if v <= u64::MAX {
                    Some((v as u64, p))
                } else {
                    None
                },
                None => None,
            }
        }
    } else {
        None
    }
}

pub open spec fn pow10(k: nat) -> int
    decreases k,
{
    if k == 0 {
        1
    } else {
        10 * pow10((k - 1) as nat)
    }
}

proof fn lemma_enc_u64_is_digits(n: int)
    requires
        n >= 0,
    ensures
        spec_enc_u64(n).len() >= 1,
        forall|i: int|
            0 <= i < spec_enc_u64(n).len() ==> is_digit(#[trigger] spec_enc_u64(n)[i]),
        spec_enc_u64(n)[0] != 48 || spec_enc_u64(n).len() == 1,
        spec_combine(0, spec_enc_u64(n)) == n,
        n < pow10(spec_enc_u64(n).len() as nat),
    decreases n,
{
    assert(pow10(0) == 1);
    if n < 10 {
        assert(pow10(1) == 10);
        assert(spec_enc_u64(n).drop_last() =~= Seq::<u8>::empty());
        assert(spec_combine(0, Seq::<u8>::empty()) == 0);
    } else {
        lemma_enc_u64_is_digits(n / 10);
        let d = spec_enc_u64(n);
        let t = spec_enc_u64(n / 10);
        assert(d == t.push((48 + n % 10) as u8));
        assert(d.drop_last() == t);
        assert(d[0] == t[0]);
        if n / 10 < 10 {
            assert(t[0] == 48 + n / 10);
        }
        assert(spec_combine(0, d) == spec_combine(0, t) * 10 + n % 10);
        assert(spec_combine(0, d) == (n / 10) * 10 + n % 10);
        assert((n / 10) * 10 + n % 10 == n) by (nonlinear_arith)
            requires
                n >= 0,
        ;
        assert(n / 10 < pow10(t.len() as nat));
        assert(pow10(d.len() as nat) == 10 * pow10(t.len() as nat));
        assert(n < 10 * pow10(t.len() as nat)) by (nonlinear_arith)
            requires
                n >= 10,
                n / 10 < pow10(t.len() as nat),
        ;
    }
}

proof fn lemma_pow10_pos(k: nat)
    ensures
        pow10(k) >= 1,
    decreases k,
{
    if k > 0 {
        lemma_pow10_pos((k - 1) as nat);
    }
}

proof fn lemma_pow10_le(a: nat, b: nat)
    requires
        a <= b,
    ensures
        pow10(a) <= pow10(b),
        pow10(a) >= 1,
    decreases b,
{
    lemma_pow10_pos(a);
    if a < b {
        lemma_pow10_le(a, (b - 1) as nat);
    }
}

/// The smallest number of 21 digits is beyond `u64`.
proof fn lemma_pow10_20()
    ensures
        pow10(20) > u64::MAX as int,
        pow10(20) == 100000000000000000000,
{
    assert(pow10(0) == 1);
    assert(pow10(1) == 10);
    assert(pow10(2) == 100);
    assert(pow10(3) == 1000);
    assert(pow10(4) == 10000);
    assert(pow10(5) == 100000);
    assert(pow10(6) == 1000000);
    assert(pow10(7) == 10000000);
    assert(pow10(8) == 100000000);
    assert(pow10(9) == 1000000000);
    assert(pow10(10) == 10000000000);
    assert(pow10(11) == 100000000000);
    assert(pow10(12) == 1000000000000);
    assert(pow10(13) == 10000000000000);
    assert(pow10(14) == 100000000000000);
    assert(pow10(15) == 1000000000000000);
    assert(pow10(16) == 10000000000000000);
    assert(pow10(17) == 100000000000000000);
    assert(pow10(18) == 1000000000000000000);
    assert(pow10(19) == 10000000000000000000);
    assert(pow10(20) == 100000000000000000000);
}

/// Every `u64` has at most 20 decimal digits.
proof fn lemma_enc_u64_len(n: int)
    requires
        0 <= n <= u64::MAX,
    ensures
        spec_enc_u64(n).len() <= 20,
{
    lemma_enc_u64_is_digits(n);
    let l = spec_enc_u64(n).len();
    if l > 20 {
        lemma_pow10_20();
        assert(n >= pow10((l - 1) as nat)) by {
            lemma_combine_lower(spec_enc_u64(n));
        }
        lemma_pow10_le(20, (l - 1) as nat);
    }
}

/// A digit string without a leading zero is worth at least
/// `pow10(len - 1)`.
proof fn lemma_combine_lower(d: Seq<u8>)
    requires
        d.len() >= 1,
        forall|i: int| 0 <= i < d.len() ==> is_digit(#[trigger] d[i]),
        d[0] != 48 || d.len() == 1,
    ensures
        d[0] != 48 ==> spec_combine(0, d) >= pow10((d.len() - 1) as nat),
        spec_combine(0, d) >= 0,
    decreases d.len(),
{
    assert(pow10(0) == 1);
    if d.len() == 1 {
        assert(d.drop_last() =~= Seq::<u8>::empty());
        assert(spec_combine(0, Seq::<u8>::empty()) == 0);
        assert(is_digit(d[0]));
    } else {
        let t = d.drop_last();
        lemma_combine_lower(t);
        assert(is_digit(d[d.len() - 1]));
        assert(spec_combine(0, d) == spec_combine(0, t) * 10 + (d.last() - 48));
        assert(d[0] != 48);
        assert(pow10((d.len() - 1) as nat) == 10 * pow10((t.len() - 1) as nat));
        assert(spec_combine(0, t) * 10 >= pow10((t.len() - 1) as nat) * 10) by (nonlinear_arith)
            requires
                spec_combine(0, t) >= pow10((t.len() - 1) as nat),
        ;
    }
}

/// Reading one digit first is the same as folding it into the
/// accumulator.
proof fn lemma_combine_shift(acc: int, d: Seq<u8>)
    requires
        d.len() >= 1,
    ensures
        spec_combine(acc, d) == spec_combine(acc * 10 + (d[0] - 48), d.drop_first()),
    decreases d.len(),
{
    if d.len() == 1 {
        assert(d.drop_last() =~= Seq::<u8>::empty());
        assert(d.drop_first() =~= Seq::<u8>::empty());
        assert(spec_combine(acc, Seq::<u8>::empty()) == acc);
        assert(spec_combine(acc * 10 + (d[0] - 48), Seq::<u8>::empty()) == acc * 10 + (d[0]
            - 48));
    } else {
        let t = d.drop_last();
        lemma_combine_shift(acc, t);
        assert(t.drop_first() =~= d.drop_first().drop_last());
        assert(d.drop_first().last() == d.last());
        assert(t[0] == d[0]);
        assert(spec_combine(acc * 10 + (d[0] - 48), d.drop_first()) == spec_combine(
            acc * 10 + (d[0] - 48),
            d.drop_first().drop_last(),
        ) * 10 + (d.drop_first().last() - 48));
    }
}

/// The digit run starting at a canonical digit string stops exactly at
/// its end, yielding its value folded into the accumulator.
proof fn lemma_parse_digits_enc(s: Seq<u8>, pos: int, acc: int, count: int, d: Seq<u8>)
    requires
        0 <= pos,
        pos + d.len() <= s.len(),
        s.subrange(pos, pos + d.len()) == d,
        forall|i: int| 0 <= i < d.len() ==> is_digit(#[trigger] d[i]),
        pos + d.len() == s.len() || !is_digit(s[pos + d.len()]),
        count >= 0,
        count + d.len() <= 20,
    ensures
        spec_parse_digits(s, pos, acc, count) == Some(
            (spec_combine(acc, d), pos + d.len() as int),
        ),
    decreases d.len(),
{
    if d.len() == 0 {
        if pos < s.len() {
            assert(!is_digit(s[pos]));
        }
    } else {
        assert(s[pos] == d[0]);
        let acc2 = acc * 10 + (d[0] - 48);
        lemma_combine_shift(acc, d);
        assert(s.subrange(pos + 1, pos + d.len()) =~= d.drop_first());
        lemma_parse_digits_enc(s, pos + 1, acc2, count + 1, d.drop_first());
    }
}

/// Parsing right after an encoded number (with a non-digit or the end
/// next) gives that number back.
pub proof fn lemma_parse_enc_u64(s: Seq<u8>, pos: int, n: u64)
    requires
        0 <= pos,
        pos + spec_enc_u64(n as int).len() <= s.len(),
        s.subrange(pos, pos + spec_enc_u64(n as int).len()) == spec_enc_u64(n as int),
        pos + spec_enc_u64(n as int).len() == s.len() || !is_digit(
            s[pos + spec_enc_u64(n as int).len()],
        ),
    ensures
        spec_parse_u64(s, pos) == Some((n, pos + spec_enc_u64(n as int).len())),
{
    let d = spec_enc_u64(n as int);
    lemma_enc_u64_is_digits(n as int);
    lemma_enc_u64_len(n as int);
    assert(s[pos] == d[0]);
    if d[0] == 48 {
        // then n == 0 and d is the single digit "0"
        assert(d.len() == 1);
        if pos + 1 < s.len() {
            assert(!is_digit(s[pos + 1]));
        }
    } else {
        if pos + 1 < s.len() && s[pos] == 48 {
            assert(false);
        }
    }
    lemma_parse_digits_enc(s, pos, 0, 0, d);
}

/// The digit run is sound: it consumes digits up to a boundary, and its
/// value folds the consumed digits into the accumulator.
proof fn lemma_parse_digits_sound(s: Seq<u8>, pos: int, acc: int, count: int)
    requires
        0 <= pos <= s.len(),
    ensures
        match spec_parse_digits(s, pos, acc, count) {
            Some((v, p)) => {
                &&& pos <= p <= s.len()
                &&& (p == s.len() || !is_digit(s[p]))
                &&& (forall|m: int| pos <= m < p ==> is_digit(#[trigger] s[m]))
                &&& v == spec_combine(acc, s.subrange(pos, p))
            },
            None => true,
        },
    decreases s.len() - pos,
{
    if pos < s.len() && is_digit(s[pos]) {
        if count < 20 {
            let acc2 = acc * 10 + (s[pos] - 48);
            lemma_parse_digits_sound(s, pos + 1, acc2, count + 1);
            match spec_parse_digits(s, pos + 1, acc2, count + 1) {
                Some((v, p)) => {
                    let d = s.subrange(pos, p);
                    assert(d.len() >= 1);
                    assert(d[0] == s[pos]);
                    assert(d.drop_first() =~= s.subrange(pos + 1, p));
                    lemma_combine_shift(acc, d);
                },
                None => {},
            }
        }
    } else {
        assert(s.subrange(pos, pos) =~= Seq::<u8>::empty());
        assert(spec_combine(acc, Seq::<u8>::empty()) == acc);
    }
}

/// A canonical digit string is the encoding of its value.
proof fn lemma_canonical_digits(d: Seq<u8>)
    requires
        d.len() >= 1,
        forall|i: int| 0 <= i < d.len() ==> is_digit(#[trigger] d[i]),
        d[0] != 48 || d.len() == 1,
    ensures
        spec_enc_u64(spec_combine(0, d)) == d,
    decreases d.len(),
{
    lemma_combine_lower(d);
    if d.len() == 1 {
        let v = spec_combine(0, d);
        assert(d.drop_last() =~= Seq::<u8>::empty());
        assert(spec_combine(0, Seq::<u8>::empty()) == 0);
        assert(v == d[0] - 48);
        if v <= 0 {
            assert(d[0] == 48);
            assert(spec_enc_u64(v) =~= d);
        } else {
            assert(spec_enc_u64(v) =~= d);
        }
    } else {
        let t = d.drop_last();
        assert(t[0] == d[0]);
        lemma_canonical_digits(t);
        lemma_combine_lower(t);
        lemma_pow10_pos((t.len() - 1) as nat);
        let ct = spec_combine(0, t);
        let v = spec_combine(0, d);
        assert(is_digit(d[d.len() - 1]));
        assert(v == ct * 10 + (d.last() - 48));
        assert(ct >= 1);
        assert(v >= 10 && v / 10 == ct && v % 10 == d.last() - 48) by (nonlinear_arith)
            requires
                ct >= 1,
                0 <= d.last() - 48 < 10,
                v == ct * 10 + (d.last() - 48),
        ;
        assert(spec_enc_u64(v) == spec_enc_u64(ct).push((48 + v % 10) as u8));
        assert(spec_enc_u64(v) =~= d);
    }
}

/// A parsed number is sound: exactly its canonical encoding was consumed.
pub proof fn lemma_parse_u64_sound(s: Seq<u8>, pos: int)
    requires
        0 <= pos <= s.len(),
    ensures
        match spec_parse_u64(s, pos) {
            Some((v, p)) => {
                &&& pos < p <= s.len()
                &&& s.subrange(pos, p) == spec_enc_u64(v as int)
                &&& (p == s.len() || !is_digit(s[p]))
            },
            None => true,
        },
{
    if pos < s.len() && is_digit(s[pos]) {
        if !(s[pos] == 48 && pos + 1 < s.len() && is_digit(s[pos + 1])) {
            lemma_parse_digits_sound(s, pos, 0, 0);
            match spec_parse_digits(s, pos, 0, 0) {
                Some((v, p)) => {
                    if v <= u64::MAX {
                        let d = s.subrange(pos, p);
                        assert(p > pos) by {
                            if p == pos {
                                assert(!is_digit(s[pos]));
                            }
                        }
                        assert(d[0] == s[pos]);
                        assert(d[0] != 48 || d.len() == 1) by {
                            if d[0] == 48 && d.len() > 1 {
                                assert(is_digit(s[pos + 1]));
                            }
                        }
                        assert forall|i: int| 0 <= i < d.len() implies is_digit(
                            #[trigger] d[i],
                        ) by {
                            assert(d[i] == s[pos + i]);
                            assert(is_digit(s[pos + i]));
                        }
                        lemma_canonical_digits(d);
                        lemma_combine_lower(d);
                        assert((v as u64) as int == v);
                    }
                },
                None => {},
            }
        }
    }
}

// ---------------------------------------------------------------------
// literals
// ---------------------------------------------------------------------

/// An exact literal at `pos`.
pub open spec fn spec_parse_lit(s: Seq<u8>, pos: int, lit: Seq<u8>) -> Option<int> {
    if 0 <= pos && pos + lit.len() <= s.len() && s.subrange(pos, pos + lit.len()) == lit {
        Some(pos + lit.len())
    } else {
        None
    }
}

/// Splitting knowledge of a concatenation at `pos` into its two parts.
proof fn lemma_split_prefix(s: Seq<u8>, pos: int, a: Seq<u8>, b: Seq<u8>)
    requires
        0 <= pos,
        pos + a.len() + b.len() <= s.len(),
        s.subrange(pos, pos + a.len() + b.len()) == a + b,
    ensures
        s.subrange(pos, pos + a.len()) == a,
        s.subrange(pos + a.len(), pos + a.len() + b.len()) == b,
{
    let w = s.subrange(pos, pos + a.len() + b.len());
    assert forall|i: int| 0 <= i < a.len() implies s.subrange(pos, pos + a.len())[i] == a[i] by {
        assert(w[i] == (a + b)[i]);
    }
    assert(s.subrange(pos, pos + a.len()) =~= a);
    assert forall|i: int|
        0 <= i < b.len() implies s.subrange(pos + a.len(), pos + a.len() + b.len())[i] == b[i] by {
        assert(w[a.len() + i] == (a + b)[a.len() + i]);
    }
    assert(s.subrange(pos + a.len(), pos + a.len() + b.len()) =~= b);
}

pub open spec fn lit_rank_prefix() -> Seq<u8> {
    seq![
        123u8,
        '"' as u8,
        'r' as u8,
        'a' as u8,
        'n' as u8,
        'k' as u8,
        '"' as u8,
        ':' as u8,
    ]
}

pub open spec fn lit_suit_mid() -> Seq<u8> {
    seq![
        ',' as u8,
        '"' as u8,
        's' as u8,
        'u' as u8,
        'i' as u8,
        't' as u8,
        '"' as u8,
        ':' as u8,
    ]
}

pub open spec fn lit_club() -> Seq<u8> {
    seq!['"' as u8, 'C' as u8, 'l' as u8, 'u' as u8, 'b' as u8, '"' as u8]
}

pub open spec fn lit_diamond() -> Seq<u8> {
    seq![
        '"' as u8,
        'D' as u8,
        'i' as u8,
        'a' as u8,
        'm' as u8,
        'o' as u8,
        'n' as u8,
        'd' as u8,
        '"' as u8,
    ]
}

pub open spec fn lit_heart() -> Seq<u8> {
    seq!['"' as u8, 'H' as u8, 'e' as u8, 'a' as u8, 'r' as u8, 't' as u8, '"' as u8]
}

pub open spec fn lit_spade() -> Seq<u8> {
    seq!['"' as u8, 'S' as u8, 'p' as u8, 'a' as u8, 'd' as u8, 'e' as u8, '"' as u8]
}

pub open spec fn lit_exchange_prefix() -> Seq<u8> {
    seq![
        123u8,
        '"' as u8,
        'E' as u8,
        'x' as u8,
        'c' as u8,
        'h' as u8,
        'a' as u8,
        'n' as u8,
        'g' as u8,
        'e' as u8,
        'C' as u8,
        'a' as u8,
        'r' as u8,
        'd' as u8,
        '"' as u8,
        ':' as u8,
        123u8,
        '"' as u8,
        'h' as u8,
        'a' as u8,
        'n' as u8,
        'd' as u8,
        '"' as u8,
        ':' as u8,
    ]
}

pub open spec fn lit_compound_prefix() -> Seq<u8> {
    seq![
        123u8,
        '"' as u8,
        'C' as u8,
        'o' as u8,
        'm' as u8,
        'p' as u8,
        'o' as u8,
        'u' as u8,
        'n' as u8,
        'd' as u8,
        'C' as u8,
        'a' as u8,
        'r' as u8,
        'd' as u8,
        '"' as u8,
        ':' as u8,
        123u8,
        '"' as u8,
        'h' as u8,
        'a' as u8,
        'n' as u8,
        'd' as u8,
        '"' as u8,
        ':' as u8,
    ]
}

pub open spec fn lit_bottom_mid() -> Seq<u8> {
    seq![
        ',' as u8,
        '"' as u8,
        'b' as u8,
        'o' as u8,
        't' as u8,
        't' as u8,
        'o' as u8,
        'm' as u8,
        '"' as u8,
        ':' as u8,
    ]
}

pub open spec fn lit_finish_exchange() -> Seq<u8> {
    seq![
        '"' as u8,
        'F' as u8,
        'i' as u8,
        'n' as u8,
        'i' as u8,
        's' as u8,
        'h' as u8,
        'E' as u8,
        'x' as u8,
        'c' as u8,
        'h' as u8,
        'a' as u8,
        'n' as u8,
        'g' as u8,
        'e' as u8,
        '"' as u8,
    ]
}

pub open spec fn lit_place_prefix() -> Seq<u8> {
    seq![
        123u8,
        '"' as u8,
        'P' as u8,
        'l' as u8,
        'a' as u8,
        'c' as u8,
        'e' as u8,
        'C' as u8,
        'a' as u8,
        'r' as u8,
        'd' as u8,
        '"' as u8,
        ':' as u8,
        123u8,
        '"' as u8,
        'c' as u8,
        'a' as u8,
        'r' as u8,
        'd' as u8,
        '"' as u8,
        ':' as u8,
    ]
}

pub open spec fn lit_pickup_stack() -> Seq<u8> {
    seq![
        '"' as u8,
        'P' as u8,
        'i' as u8,
        'c' as u8,
        'k' as u8,
        'u' as u8,
        'p' as u8,
        'S' as u8,
        't' as u8,
        'a' as u8,
        'c' as u8,
        'k' as u8,
        '"' as u8,
    ]
}

pub open spec fn lit_stage_swap() -> Seq<u8> {
    seq![
        123u8,
        '"' as u8,
        'S' as u8,
        't' as u8,
        'a' as u8,
        'g' as u8,
        'e' as u8,
        '"' as u8,
        ':' as u8,
        '"' as u8,
        'S' as u8,
        'w' as u8,
        'a' as u8,
        'p' as u8,
        '"' as u8,
        125u8,
    ]
}

pub open spec fn lit_owner_prefix() -> Seq<u8> {
    seq![
        123u8,
        '"' as u8,
        'o' as u8,
        'w' as u8,
        'n' as u8,
        'e' as u8,
        'r' as u8,
        '_' as u8,
        'i' as u8,
        'd' as u8,
        '"' as u8,
        ':' as u8,
    ]
}

pub open spec fn lit_hand_mid() -> Seq<u8> {
    seq![
        ',' as u8,
        '"' as u8,
        'h' as u8,
        'a' as u8,
        'n' as u8,
        'd' as u8,
        '"' as u8,
        ':' as u8,
    ]
}

pub open spec fn lit_bottom_cards_mid() -> Seq<u8> {
    seq![
        ',' as u8,
        '"' as u8,
        'b' as u8,
        'o' as u8,
        't' as u8,
        't' as u8,
        'o' as u8,
        'm' as u8,
        '_' as u8,
        'c' as u8,
        'a' as u8,
        'r' as u8,
        'd' as u8,
        's' as u8,
        '"' as u8,
        ':' as u8,
    ]
}

pub open spec fn lit_game_start_prefix() -> Seq<u8> {
    seq![
        123u8,
        '"' as u8,
        'G' as u8,
        'a' as u8,
        'm' as u8,
        'e' as u8,
        'S' as u8,
        't' as u8,
        'a' as u8,
        'r' as u8,
        't' as u8,
        '"' as u8,
        ':' as u8,
    ]
}

pub open spec fn lit_id_prefix() -> Seq<u8> {
    seq![123u8, '"' as u8, 'I' as u8, 'd' as u8, '"' as u8, ':' as u8]
}

pub open spec fn lit_turn_prefix() -> Seq<u8> {
    seq![
        123u8,
        '"' as u8,
        't' as u8,
        'u' as u8,
        'r' as u8,
        'n' as u8,
        '"' as u8,
        ':' as u8,
    ]
}

pub open spec fn lit_stage_mid() -> Seq<u8> {
    seq![
        ',' as u8,
        '"' as u8,
        's' as u8,
        't' as u8,
        'a' as u8,
        'g' as u8,
        'e' as u8,
        '"' as u8,
        ':' as u8,
    ]
}

pub open spec fn lit_cards_mid() -> Seq<u8> {
    seq![
        ',' as u8,
        '"' as u8,
        'c' as u8,
        'a' as u8,
        'r' as u8,
        'd' as u8,
        's' as u8,
        '"' as u8,
        ':' as u8,
    ]
}

pub open spec fn lit_stack_mid() -> Seq<u8> {
    seq![
        ',' as u8,
        '"' as u8,
        's' as u8,
        't' as u8,
        'a' as u8,
        'c' as u8,
        'k' as u8,
        '"' as u8,
        ':' as u8,
    ]
}

pub open spec fn lit_other_players_mid() -> Seq<u8> {
    seq![
        ',' as u8,
        '"' as u8,
        'o' as u8,
        't' as u8,
        'h' as u8,
        'e' as u8,
        'r' as u8,
        '_' as u8,
        'p' as u8,
        'l' as u8,
        'a' as u8,
        'y' as u8,
        'e' as u8,
        'r' as u8,
        's' as u8,
        '"' as u8,
        ':' as u8,
    ]
}

pub open spec fn lit_stage_play() -> Seq<u8> {
    seq![
        123u8,
        '"' as u8,
        'S' as u8,
        't' as u8,
        'a' as u8,
        'g' as u8,
        'e' as u8,
        '"' as u8,
        ':' as u8,
        '"' as u8,
        'P' as u8,
        'l' as u8,
        'a' as u8,
        'y' as u8,
        '"' as u8,
        125u8,
    ]
}

// ---------------------------------------------------------------------
// executable helpers: literals and numbers
// ---------------------------------------------------------------------

/// Appends a literal to the output.
fn push_lit(out: &mut Vec<u8>, lit: &Vec<u8>)
    ensures
        final(out)@ == old(out)@ + lit@,
{
    proof {
        assert(out@ =~= old(out)@ + lit@.take(0));
    }
    let mut i: usize = 0;
    while i < lit.len()
        invariant
            i <= lit@.len(),
            out@ == old(out)@ + lit@.take(i as int),
        decreases lit@.len() - i,
    {
        let b = lit[i];
        out.push(b);
        proof {
            assert(old(out)@ + lit@.take(i + 1) =~= (old(out)@ + lit@.take(i as int)).push(
                lit@[i as int],
            ));
        }
        i = i + 1;
    }
    proof {
        assert(lit@.take(lit@.len() as int) =~= lit@);
    }
}

/// Consumes an exact literal, or reports that it is not there.
fn eat_lit(s: &Vec<u8>, pos: usize, lit: &Vec<u8>) -> (r: Option<usize>)
    requires
        pos <= s@.len(),
    ensures
        match r {
            Some(p) => spec_parse_lit(s@, pos as int, lit@) == Some(p as int) && pos <= p
                <= s@.len() && p == pos + lit@.len(),
            None => spec_parse_lit(s@, pos as int, lit@) is None,
        },
{
    if s.len() - pos < lit.len() {
        return None;
    }
    let mut i: usize = 0;
    while i < lit.len()
        invariant
            pos + lit@.len() <= s@.len(),
            i <= lit@.len(),
            forall|m: int| 0 <= m < i ==> s@[pos + m] == lit@[m],
        decreases lit@.len() - i,
    {
        proof {
            assert(pos + i < s@.len());
            assert(s@.len() == s.len());
        }
        if s[pos + i] != lit[i] {
            proof {
                assert(s@.subrange(pos as int, pos + lit@.len())[i as int] == s@[pos + i]);
                assert(s@.subrange(pos as int, pos + lit@.len()) != lit@);
            }
            return None;
        }
        i = i + 1;
    }
    proof {
        assert forall|m: int|
            0 <= m < lit@.len() implies s@.subrange(pos as int, pos + lit@.len())[m]
            == lit@[m] by {}
        assert(s@.subrange(pos as int, pos + lit@.len()) =~= lit@);
    }
    Some(pos + lit.len())
}

/// Appends the decimal digits of `n` to the output.
fn enc_u64_into(n: u64, out: &mut Vec<u8>)
    ensures
        final(out)@ == old(out)@ + spec_enc_u64(n as int),
    decreases n,
{
    if n < 10 {
        out.push(48 + (n as u8));
        proof {
            assert(out@ =~= old(out)@ + spec_enc_u64(n as int));
        }
    } else {
        enc_u64_into(n / 10, out);
        out.push(48 + ((n % 10) as u8));
        proof {
            assert(out@ =~= old(out)@ + spec_enc_u64(n as int));
        }
    }
}

/// The greedy digit run.
fn parse_digits(s: &Vec<u8>, pos: usize, acc: u128, count: u8) -> (r: Option<(u128, usize)>)
    requires
        pos <= s@.len(),
        count <= 20,
        acc < pow10(count as nat),
    ensures
        match r {
            Some((v, p)) => spec_parse_digits(s@, pos as int, acc as int, count as int) == Some(
                (v as int, p as int),
            ) && pos <= p <= s@.len(),
            None => spec_parse_digits(s@, pos as int, acc as int, count as int) is None,
        },
    decreases s@.len() - pos,
{
    if pos < s.len() {
        let b = s[pos];
        if 48 <= b && b <= 57 {
            if count >= 20 {
                return None;
            }
            proof {
                lemma_pow10_20();
                lemma_pow10_le((count + 1) as nat, 20);
                assert(pow10((count + 1) as nat) == 10 * pow10(count as nat));
                assert(acc * 10 + (b - 48) < pow10((count + 1) as nat)) by (nonlinear_arith)
                    requires
                        acc < pow10(count as nat),
                        pow10((count + 1) as nat) == 10 * pow10(count as nat),
                        b - 48 < 10,
                ;
                assert(acc * 10 + (b - 48) < u128::MAX as int);
            }
            let acc2 = acc * 10 + ((b - 48) as u128);
            return parse_digits(s, pos + 1, acc2, count + 1);
        }
    }
    Some((acc, pos))
}

/// A canonical decimal number.
fn parse_u64(s: &Vec<u8>, pos: usize) -> (r: Option<(u64, usize)>)
    requires
        pos <= s@.len(),
    ensures
        match r {
            Some((v, p)) => spec_parse_u64(s@, pos as int) == Some((v, p as int)) && pos <= p
                <= s@.len(),
            None => spec_parse_u64(s@, pos as int) is None,
        },
{
    if pos < s.len() {
        let b = s[pos];
        if 48 <= b && b <= 57 {
            if b == 48 && pos + 1 < s.len() {
                let b2 = s[pos + 1];
                if 48 <= b2 && b2 <= 57 {
                    return None;
                }
            }
            proof {
                assert(pow10(0) == 1);
            }
            match parse_digits(s, pos, 0, 0) {
                Some((v, p)) => {
                    if v <= u64::MAX as u128 {
                        return Some((v as u64, p));
                    }
                    return None;
                },
                None => {
                    return None;
                },
            }
        }
    }
    None
}

fn build_rank_prefix() -> (v: Vec<u8>)
    ensures
        v@ == lit_rank_prefix(),
{
    let mut v: Vec<u8> = Vec::new();
    v.push(123);
    v.push('"' as u8);
    v.push('r' as u8);
    v.push('a' as u8);
    v.push('n' as u8);
    v.push('k' as u8);
    v.push('"' as u8);
    v.push(':' as u8);
    proof {
        assert(v@ =~= lit_rank_prefix());
    }
    v
}

fn build_suit_mid() -> (v: Vec<u8>)
    ensures
        v@ == lit_suit_mid(),
{
    let mut v: Vec<u8> = Vec::new();
    v.push(',' as u8);
    v.push('"' as u8);
    v.push('s' as u8);
    v.push('u' as u8);
    v.push('i' as u8);
    v.push('t' as u8);
    v.push('"' as u8);
    v.push(':' as u8);
    proof {
        assert(v@ =~= lit_suit_mid());
    }
    v
}

fn build_club() -> (v: Vec<u8>)
    ensures
        v@ == lit_club(),
{
    let mut v: Vec<u8> = Vec::new();
    v.push('"' as u8);
    v.push('C' as u8);
    v.push('l' as u8);
    v.push('u' as u8);
    v.push('b' as u8);
    v.push('"' as u8);
    proof {
        assert(v@ =~= lit_club());
    }
    v
}

fn build_diamond() -> (v: Vec<u8>)
    ensures
        v@ == lit_diamond(),
{
    let mut v: Vec<u8> = Vec::new();
    v.push('"' as u8);
    v.push('D' as u8);
    v.push('i' as u8);
    v.push('a' as u8);
    v.push('m' as u8);
    v.push('o' as u8);
    v.push('n' as u8);
    v.push('d' as u8);
    v.push('"' as u8);
    proof {
        assert(v@ =~= lit_diamond());
    }
    v
}

fn build_heart() -> (v: Vec<u8>)
    ensures
        v@ == lit_heart(),
{
    let mut v: Vec<u8> = Vec::new();
    v.push('"' as u8);
    v.push('H' as u8);
    v.push('e' as u8);
    v.push('a' as u8);
    v.push('r' as u8);
    v.push('t' as u8);
    v.push('"' as u8);
    proof {
        assert(v@ =~= lit_heart());
    }
    v
}

fn build_spade() -> (v: Vec<u8>)
    ensures
        v@ == lit_spade(),
{
    let mut v: Vec<u8> = Vec::new();
    v.push('"' as u8);
    v.push('S' as u8);
    v.push('p' as u8);
    v.push('a' as u8);
    v.push('d' as u8);
    v.push('e' as u8);
    v.push('"' as u8);
    proof {
        assert(v@ =~= lit_spade());
    }
    v
}

fn build_exchange_prefix() -> (v: Vec<u8>)
    ensures
        v@ == lit_exchange_prefix(),
{
    let mut v: Vec<u8> = Vec::new();
    v.push(123);
    v.push('"' as u8);
    v.push('E' as u8);
    v.push('x' as u8);
    v.push('c' as u8);
    v.push('h' as u8);
    v.push('a' as u8);
    v.push('n' as u8);
    v.push('g' as u8);
    v.push('e' as u8);
    v.push('C' as u8);
    v.push('a' as u8);
    v.push('r' as u8);
    v.push('d' as u8);
    v.push('"' as u8);
    v.push(':' as u8);
    v.push(123);
    v.push('"' as u8);
    v.push('h' as u8);
    v.push('a' as u8);
    v.push('n' as u8);
    v.push('d' as u8);
    v.push('"' as u8);
    v.push(':' as u8);
    proof {
        assert(v@ =~= lit_exchange_prefix());
    }
    v
}

fn build_compound_prefix() -> (v: Vec<u8>)
    ensures
        v@ == lit_compound_prefix(),
{
    let mut v: Vec<u8> = Vec::new();
    v.push(123);
    v.push('"' as u8);
    v.push('C' as u8);
    v.push('o' as u8);
    v.push('m' as u8);
    v.push('p' as u8);
    v.push('o' as u8);
    v.push('u' as u8);
    v.push('n' as u8);
    v.push('d' as u8);
    v.push('C' as u8);
    v.push('a' as u8);
    v.push('r' as u8);
    v.push('d' as u8);
    v.push('"' as u8);
    v.push(':' as u8);
    v.push(123);
    v.push('"' as u8);
    v.push('h' as u8);
    v.push('a' as u8);
    v.push('n' as u8);
    v.push('d' as u8);
    v.push('"' as u8);
    v.push(':' as u8);
    proof {
        assert(v@ =~= lit_compound_prefix());
    }
    v
}

fn build_bottom_mid() -> (v: Vec<u8>)
    ensures
        v@ == lit_bottom_mid(),
{
    let mut v: Vec<u8> = Vec::new();
    v.push(',' as u8);
    v.push('"' as u8);
    v.push('b' as u8);
    v.push('o' as u8);
    v.push('t' as u8);
    v.push('t' as u8);
    v.push('o' as u8);
    v.push('m' as u8);
    v.push('"' as u8);
    v.push(':' as u8);
    proof {
        assert(v@ =~= lit_bottom_mid());
    }
    v
}

fn build_finish_exchange() -> (v: Vec<u8>)
    ensures
        v@ == lit_finish_exchange(),
{
    let mut v: Vec<u8> = Vec::new();
    v.push('"' as u8);
    v.push('F' as u8);
    v.push('i' as u8);
    v.push('n' as u8);
    v.push('i' as u8);
    v.push('s' as u8);
    v.push('h' as u8);
    v.push('E' as u8);
    v.push('x' as u8);
    v.push('c' as u8);
    v.push('h' as u8);
    v.push('a' as u8);
    v.push('n' as u8);
    v.push('g' as u8);
    v.push('e' as u8);
    v.push('"' as u8);
    proof {
        assert(v@ =~= lit_finish_exchange());
    }
    v
}

fn build_place_prefix() -> (v: Vec<u8>)
    ensures
        v@ == lit_place_prefix(),
{
    let mut v: Vec<u8> = Vec::new();
    v.push(123);
    v.push('"' as u8);
    v.push('P' as u8);
    v.push('l' as u8);
    v.push('a' as u8);
    v.push('c' as u8);
    v.push('e' as u8);
    v.push('C' as u8);
    v.push('a' as u8);
    v.push('r' as u8);
    v.push('d' as u8);
    v.push('"' as u8);
    v.push(':' as u8);
    v.push(123);
    v.push('"' as u8);
    v.push('c' as u8);
    v.push('a' as u8);
    v.push('r' as u8);
    v.push('d' as u8);
    v.push('"' as u8);
    v.push(':' as u8);
    proof {
        assert(v@ =~= lit_place_prefix());
    }
    v
}

fn build_pickup_stack() -> (v: Vec<u8>)
    ensures
        v@ == lit_pickup_stack(),
{
    let mut v: Vec<u8> = Vec::new();
    v.push('"' as u8);
    v.push('P' as u8);
    v.push('i' as u8);
    v.push('c' as u8);
    v.push('k' as u8);
    v.push('u' as u8);
    v.push('p' as u8);
    v.push('S' as u8);
    v.push('t' as u8);
    v.push('a' as u8);
    v.push('c' as u8);
    v.push('k' as u8);
    v.push('"' as u8);
    proof {
        assert(v@ =~= lit_pickup_stack());
    }
    v
}

fn build_stage_swap() -> (v: Vec<u8>)
    ensures
        v@ == lit_stage_swap(),
{
    let mut v: Vec<u8> = Vec::new();
    v.push(123);
    v.push('"' as u8);
    v.push('S' as u8);
    v.push('t' as u8);
    v.push('a' as u8);
    v.push('g' as u8);
    v.push('e' as u8);
    v.push('"' as u8);
    v.push(':' as u8);
    v.push('"' as u8);
    v.push('S' as u8);
    v.push('w' as u8);
    v.push('a' as u8);
    v.push('p' as u8);
    v.push('"' as u8);
    v.push(125);
    proof {
        assert(v@ =~= lit_stage_swap());
    }
    v
}

fn build_stage_play() -> (v: Vec<u8>)
    ensures
        v@ == lit_stage_play(),
{
    let mut v: Vec<u8> = Vec::new();
    v.push(123);
    v.push('"' as u8);
    v.push('S' as u8);
    v.push('t' as u8);
    v.push('a' as u8);
    v.push('g' as u8);
    v.push('e' as u8);
    v.push('"' as u8);
    v.push(':' as u8);
    v.push('"' as u8);
    v.push('P' as u8);
    v.push('l' as u8);
    v.push('a' as u8);
    v.push('y' as u8);
    v.push('"' as u8);
    v.push(125);
    proof {
        assert(v@ =~= lit_stage_play());
    }
    v
}

fn build_braces2() -> (v: Vec<u8>)
    ensures
        v@ == seq![125u8, 125u8],
{
    let mut v: Vec<u8> = Vec::new();
    v.push(125);
    v.push(125);
    proof {
        assert(v@ =~= seq![125u8, 125u8]);
    }
    v
}

// ---------------------------------------------------------------------
// suits and cards
// ---------------------------------------------------------------------

pub open spec fn spec_enc_suit(su: Suit) -> Seq<u8> {
    match su {
        Suit::Club => lit_club(),
        Suit::Diamond => lit_diamond(),
        Suit::Heart => lit_heart(),
        Suit::Spade => lit_spade(),
    }
}

pub open spec fn spec_parse_suit(s: Seq<u8>, pos: int) -> Option<(Suit, int)> {
    if spec_parse_lit(s, pos, lit_club()) is Some {
        Some((Suit::Club, pos + lit_club().len()))
    } else if spec_parse_lit(s, pos, lit_diamond()) is Some {
        Some((Suit::Diamond, pos + lit_diamond().len()))
    } else if spec_parse_lit(s, pos, lit_heart()) is Some {
        Some((Suit::Heart, pos + lit_heart().len()))
    } else if spec_parse_lit(s, pos, lit_spade()) is Some {
        Some((Suit::Spade, pos + lit_spade().len()))
    } else {
        None
    }
}

proof fn lemma_parse_enc_suit(s: Seq<u8>, pos: int, su: Suit)
    requires
        0 <= pos,
        pos + spec_enc_suit(su).len() <= s.len(),
        s.subrange(pos, pos + spec_enc_suit(su).len()) == spec_enc_suit(su),
    ensures
        spec_parse_suit(s, pos) == Some((su, pos + spec_enc_suit(su).len())),
{
    let e = spec_enc_suit(su);
    assert forall|i: int| 0 <= i < e.len() implies s[pos + i] == e[i] by {
        assert(s.subrange(pos, pos + e.len())[i] == s[pos + i]);
    }
    match su {
        Suit::Club => {},
        Suit::Diamond => {
            assert(s[pos + 1] == 'D' as u8);
            if pos + lit_club().len() <= s.len() {
                assert(s.subrange(pos, pos + lit_club().len())[1] == s[pos + 1]);
                assert(s.subrange(pos, pos + lit_club().len()) != lit_club());
            }
        },
        Suit::Heart => {
            assert(s[pos + 1] == 'H' as u8);
            if pos + lit_club().len() <= s.len() {
                assert(s.subrange(pos, pos + lit_club().len())[1] == s[pos + 1]);
                assert(s.subrange(pos, pos + lit_club().len()) != lit_club());
            }
            if pos + lit_diamond().len() <= s.len() {
                assert(s.subrange(pos, pos + lit_diamond().len())[1] == s[pos + 1]);
                assert(s.subrange(pos, pos + lit_diamond().len()) != lit_diamond());
            }
        },
        Suit::Spade => {
            assert(s[pos + 1] == 'S' as u8);
            if pos + lit_club().len() <= s.len() {
                assert(s.subrange(pos, pos + lit_club().len())[1] == s[pos + 1]);
                assert(s.subrange(pos, pos + lit_club().len()) != lit_club());
            }
            if pos + lit_diamond().len() <= s.len() {
                assert(s.subrange(pos, pos + lit_diamond().len())[1] == s[pos + 1]);
                assert(s.subrange(pos, pos + lit_diamond().len()) != lit_diamond());
            }
            if pos + lit_heart().len() <= s.len() {
                assert(s.subrange(pos, pos + lit_heart().len())[1] == s[pos + 1]);
                assert(s.subrange(pos, pos + lit_heart().len()) != lit_heart());
            }
        },
    }
}

pub open spec fn spec_enc_card(c: Card) -> Seq<u8> {
    lit_rank_prefix() + spec_enc_u64(c.rank as int) + lit_suit_mid() + spec_enc_suit(c.suit)
        + seq![125u8]
}

pub open spec fn spec_parse_card(s: Seq<u8>, pos: int) -> Option<(Card, int)> {
    match spec_parse_lit(s, pos, lit_rank_prefix()) {
        None => None,
        Some(p1) => match spec_parse_u64(s, p1) {
            None => None,
            Some((v, p2)) => if v > 255 {
                None
            } else {
                match spec_parse_lit(s, p2, lit_suit_mid()) {
                    None => None,
                    Some(p3) => match spec_parse_suit(s, p3) {
                        None => None,
                        Some((su, p4)) => match spec_parse_lit(s, p4, seq![125u8]) {
                            None => None,
                            Some(p5) => Some((Card { rank: v as u8, suit: su }, p5)),
                        },
                    },
                }
            },
        },
    }
}

pub proof fn lemma_parse_enc_card(s: Seq<u8>, pos: int, c: Card)
    requires
        0 <= pos,
        pos + spec_enc_card(c).len() <= s.len(),
        s.subrange(pos, pos + spec_enc_card(c).len()) == spec_enc_card(c),
    ensures
        spec_parse_card(s, pos) == Some((c, pos + spec_enc_card(c).len())),
        pos < pos + spec_enc_card(c).len(),
{
    let e1 = lit_rank_prefix();
    let e2 = spec_enc_u64(c.rank as int);
    let e3 = lit_suit_mid();
    let e4 = spec_enc_suit(c.suit);
    let e5 = seq![125u8];
    let whole = spec_enc_card(c);
    assert(whole =~= e1 + (e2 + (e3 + (e4 + e5))));
    lemma_split_prefix(s, pos, e1, e2 + (e3 + (e4 + e5)));
    let p1 = pos + e1.len();
    lemma_split_prefix(s, p1, e2, e3 + (e4 + e5));
    let p2 = p1 + e2.len();
    lemma_split_prefix(s, p2, e3, e4 + e5);
    let p3 = p2 + e3.len();
    lemma_split_prefix(s, p3, e4, e5);
    let p4 = p3 + e4.len();

    assert(spec_parse_lit(s, pos, e1) == Some(p1));
    assert(s[p2] == e3[0]) by {
        assert(s.subrange(p2, p2 + e3.len())[0] == s[p2]);
    }
    assert(!is_digit(s[p2]));
    lemma_parse_enc_u64(s, p1, c.rank as u64);
    assert(spec_parse_lit(s, p2, e3) == Some(p3));
    lemma_parse_enc_suit(s, p3, c.suit);
    assert(s.subrange(p4, p4 + 1) == e5);
    assert(spec_parse_lit(s, p4, seq![125u8]) == Some(p4 + 1));
}

/// Adjacent subranges join into one.
proof fn lemma_subrange_join(s: Seq<u8>, a: int, b: int, c: int)
    requires
        0 <= a <= b <= c <= s.len(),
    ensures
        s.subrange(a, c) == s.subrange(a, b) + s.subrange(b, c),
{
    assert(s.subrange(a, c) =~= s.subrange(a, b) + s.subrange(b, c));
}

/// A parsed suit is sound: exactly its tag was consumed.
proof fn lemma_parse_suit_sound(s: Seq<u8>, pos: int)
    requires
        0 <= pos <= s.len(),
    ensures
        match spec_parse_suit(s, pos) {
            Some((su, p)) => pos < p <= s.len() && s.subrange(pos, p) == spec_enc_suit(su),
            None => true,
        },
{
}

/// A parsed card is sound: exactly its encoding was consumed.
pub proof fn lemma_parse_card_sound(s: Seq<u8>, pos: int)
    requires
        0 <= pos <= s.len(),
    ensures
        match spec_parse_card(s, pos) {
            Some((c, p)) => pos < p <= s.len() && s.subrange(pos, p) == spec_enc_card(c),
            None => true,
        },
{
    match spec_parse_lit(s, pos, lit_rank_prefix()) {
        None => {},
        Some(p1) => {
            lemma_parse_u64_sound(s, p1);
            match spec_parse_u64(s, p1) {
                None => {},
                Some((v, p2)) => {
                    if v <= 255 {
                        match spec_parse_lit(s, p2, lit_suit_mid()) {
                            None => {},
                            Some(p3) => {
                                lemma_parse_suit_sound(s, p3);
                                match spec_parse_suit(s, p3) {
                                    None => {},
                                    Some((su, p4)) => {
                                        match spec_parse_lit(s, p4, seq![125u8]) {
                                            None => {},
                                            Some(p5) => {
                                                let c = Card { rank: v as u8, suit: su };
                                                assert((v as u8) as int == v as int);
                                                lemma_subrange_join(s, pos, p1, p2);
                                                lemma_subrange_join(s, pos, p2, p3);
                                                lemma_subrange_join(s, pos, p3, p4);
                                                lemma_subrange_join(s, pos, p4, p5);
                                                assert(s.subrange(pos, p5) =~= spec_enc_card(
                                                    c,
                                                ));
                                            },
                                        }
                                    },
                                }
                            },
                        }
                    }
                },
            }
        },
    }
}

// ---------------------------------------------------------------------
// card lists
// ---------------------------------------------------------------------

pub open spec fn spec_enc_card_items(cs: Seq<Card>) -> Seq<u8>
    decreases cs.len(),
{
    if cs.len() == 0 {
        Seq::<u8>::empty()
    } else if cs.len() == 1 {
        spec_enc_card(cs[0])
    } else {
        spec_enc_card(cs[0]) + seq![44u8] + spec_enc_card_items(cs.drop_first())
    }
}

pub open spec fn spec_enc_card_list(cs: Seq<Card>) -> Seq<u8> {
    seq![91u8] + spec_enc_card_items(cs) + seq![93u8]
}

pub open spec fn spec_parse_card_items(s: Seq<u8>, pos: int, acc: Seq<Card>) -> Option<
    (Seq<Card>, int),
>
    decreases s.len() - pos,
{
    match spec_parse_card(s, pos) {
        None => None,
        Some((c, p)) => if p >= s.len() {
            None
        } else if s[p] == 93 {
            Some((acc.push(c), p + 1))
        } else if s[p] == 44 && pos < p {
            spec_parse_card_items(s, p + 1, acc.push(c))
        } else {
            None
        },
    }
}

pub open spec fn spec_parse_card_list(s: Seq<u8>, pos: int) -> Option<(Seq<Card>, int)> {
    if 0 <= pos && pos < s.len() && s[pos] == 91 {
        if pos + 1 < s.len() && s[pos + 1] == 93 {
            Some((Seq::<Card>::empty(), pos + 2))
        } else {
            spec_parse_card_items(s, pos + 1, Seq::<Card>::empty())
        }
    } else {
        None
    }
}

proof fn lemma_parse_enc_card_items(s: Seq<u8>, pos: int, acc: Seq<Card>, cs: Seq<Card>)
    requires
        cs.len() >= 1,
        0 <= pos,
        pos + spec_enc_card_items(cs).len() + 1 <= s.len(),
        s.subrange(pos, pos + spec_enc_card_items(cs).len() + 1) == spec_enc_card_items(cs)
            + seq![93u8],
    ensures
        spec_parse_card_items(s, pos, acc) == Some(
            (acc + cs, pos + spec_enc_card_items(cs).len() + 1),
        ),
    decreases cs.len(),
{
    if cs.len() == 1 {
        lemma_split_prefix(s, pos, spec_enc_card(cs[0]), seq![93u8]);
        lemma_parse_enc_card(s, pos, cs[0]);
        let p = pos + spec_enc_card(cs[0]).len();
        assert(s[p] == 93) by {
            assert(s.subrange(p, p + 1)[0] == s[p]);
        }
        assert(acc.push(cs[0]) =~= acc + cs);
    } else {
        let e0 = spec_enc_card(cs[0]);
        let rest = spec_enc_card_items(cs.drop_first());
        assert(spec_enc_card_items(cs) + seq![93u8] =~= e0 + (seq![44u8] + (rest
            + seq![93u8])));
        lemma_split_prefix(s, pos, e0, seq![44u8] + (rest + seq![93u8]));
        lemma_parse_enc_card(s, pos, cs[0]);
        let p = pos + e0.len();
        lemma_split_prefix(s, p, seq![44u8], rest + seq![93u8]);
        assert(s[p] == 44) by {
            assert(s.subrange(p, p + 1)[0] == s[p]);
        }
        assert(s[p] != 93);
        lemma_parse_enc_card_items(s, p + 1, acc.push(cs[0]), cs.drop_first());
        assert(acc.push(cs[0]) + cs.drop_first() =~= acc + cs);
        assert(spec_enc_card_items(cs).len() == e0.len() + 1 + rest.len());
    }
}

pub proof fn lemma_parse_enc_card_list(s: Seq<u8>, pos: int, cs: Seq<Card>)
    requires
        0 <= pos,
        pos + spec_enc_card_list(cs).len() <= s.len(),
        s.subrange(pos, pos + spec_enc_card_list(cs).len()) == spec_enc_card_list(cs),
    ensures
        spec_parse_card_list(s, pos) == Some((cs, pos + spec_enc_card_list(cs).len())),
        pos < pos + spec_enc_card_list(cs).len(),
{
    let whole = spec_enc_card_list(cs);
    let items = spec_enc_card_items(cs);
    assert forall|i: int| 0 <= i < whole.len() implies s[pos + i] == whole[i] by {
        assert(s.subrange(pos, pos + whole.len())[i] == s[pos + i]);
    }
    assert(whole[0] == 91);
    assert(s[pos] == whole[0]);
    if cs.len() == 0 {
        assert(whole =~= seq![91u8, 93u8]);
        assert(whole[1] == 93);
        assert(s[pos + 1] == whole[1]);
    } else {
        assert(whole =~= seq![91u8] + (items + seq![93u8]));
        lemma_split_prefix(s, pos, seq![91u8], items + seq![93u8]);
        assert(items.len() >= 1) by {
            if cs.len() == 1 {
                assert(items == spec_enc_card(cs[0]));
            }
        }
        assert(whole[1] == items[0]);
        assert(s[pos + 1] == whole[1]);
        assert(items[0] == 123) by {
            if cs.len() == 1 {
                assert(items == spec_enc_card(cs[0]));
                assert(items[0] == lit_rank_prefix()[0]);
            } else {
                assert(items[0] == spec_enc_card(cs[0])[0]);
                assert(spec_enc_card(cs[0])[0] == lit_rank_prefix()[0]);
            }
        }
        assert(s[pos + 1] != 93);
        lemma_parse_enc_card_items(s, pos + 1, Seq::<Card>::empty(), cs);
        assert(Seq::<Card>::empty() + cs =~= cs);
    }
}

/// A parsed item run is sound: it extends the accumulator and consumed
/// exactly the encoding of the new items plus the closing bracket.
proof fn lemma_parse_card_items_sound(s: Seq<u8>, pos: int, acc: Seq<Card>)
    requires
        0 <= pos <= s.len(),
    ensures
        match spec_parse_card_items(s, pos, acc) {
            Some((res, p)) => {
                &&& pos < p <= s.len()
                &&& res.len() > acc.len()
                &&& res.take(acc.len() as int) == acc
                &&& s.subrange(pos, p) == spec_enc_card_items(res.skip(acc.len() as int))
                    + seq![93u8]
            },
            None => true,
        },
    decreases s.len() - pos,
{
    match spec_parse_card(s, pos) {
        None => {},
        Some((c, p0)) => {
            lemma_parse_card_sound(s, pos);
            if p0 >= s.len() {
            } else if s[p0] == 93 {
                let res = acc.push(c);
                assert(res.take(acc.len() as int) =~= acc);
                assert(res.skip(acc.len() as int) =~= seq![c]);
                assert(spec_enc_card_items(seq![c]) == spec_enc_card(c));
                assert(s.subrange(p0, p0 + 1) =~= seq![93u8]);
                lemma_subrange_join(s, pos, p0, p0 + 1);
                assert(s.subrange(pos, p0 + 1) =~= spec_enc_card_items(
                    res.skip(acc.len() as int),
                ) + seq![93u8]);
            } else if s[p0] == 44 && pos < p0 {
                lemma_parse_card_items_sound(s, p0 + 1, acc.push(c));
                match spec_parse_card_items(s, p0 + 1, acc.push(c)) {
                    None => {},
                    Some((res, p)) => {
                        let tail = res.skip(acc.len() as int);
                        assert(res.take(acc.len() as int) =~= acc) by {
                            assert(res.take(acc.len() + 1 as int) == acc.push(c));
                            assert forall|i: int| 0 <= i < acc.len() implies res.take(
                                acc.len() as int,
                            )[i] == acc[i] by {
                                assert(res.take(acc.len() + 1 as int)[i] == acc.push(c)[i]);
                            }
                        }
                        assert(tail.len() >= 2);
                        assert(tail[0] == c) by {
                            assert(res.take(acc.len() + 1 as int)[acc.len() as int] == acc.push(
                                c,
                            )[acc.len() as int]);
                        }
                        assert(tail.drop_first() =~= res.skip(acc.len() + 1 as int));
                        assert(spec_enc_card_items(tail) == spec_enc_card(tail[0]) + seq![44u8]
                            + spec_enc_card_items(tail.drop_first()));
                        assert(s.subrange(p0, p0 + 1) =~= seq![44u8]);
                        lemma_subrange_join(s, pos, p0, p0 + 1);
                        lemma_subrange_join(s, pos, p0 + 1, p);
                        assert(s.subrange(pos, p) =~= spec_enc_card_items(tail) + seq![93u8]);
                    },
                }
            }
        },
    }
}

/// A parsed card list is sound: exactly its encoding was consumed.
pub proof fn lemma_parse_card_list_sound(s: Seq<u8>, pos: int)
    requires
        0 <= pos <= s.len(),
    ensures
        match spec_parse_card_list(s, pos) {
            Some((cs, p)) => pos < p <= s.len() && s.subrange(pos, p) == spec_enc_card_list(cs),
            None => true,
        },
{
    if 0 <= pos && pos < s.len() && s[pos] == 91 {
        if pos + 1 < s.len() && s[pos + 1] == 93 {
            assert(spec_enc_card_items(Seq::<Card>::empty()) =~= Seq::<u8>::empty());
            assert(s.subrange(pos, pos + 2) =~= spec_enc_card_list(Seq::<Card>::empty()));
        } else {
            lemma_parse_card_items_sound(s, pos + 1, Seq::<Card>::empty());
            match spec_parse_card_items(s, pos + 1, Seq::<Card>::empty()) {
                None => {},
                Some((res, p)) => {
                    assert(res.skip(0) =~= res);
                    lemma_subrange_join(s, pos, pos + 1, p);
                    assert(s.subrange(pos, pos + 1) =~= seq![91u8]);
                    assert(s.subrange(pos, p) =~= spec_enc_card_list(res));
                },
            }
        }
    }
}

// ---------------------------------------------------------------------
// actions and stage
// ---------------------------------------------------------------------

/// The spec-level shape of a setup action, over sequences.
pub enum SetupActionModel {
    Exchange { hand: Seq<Card>, bottom: int },
    Compound { hand: Seq<Card>, bottom: int },
    Finish,
}

/// The model of an executable setup action.
pub open spec fn setup_model(a: SetupAction) -> SetupActionModel {
    match a {
        SetupAction::ExchangeCard { hand, bottom } => SetupActionModel::Exchange {
            hand: hand@,
            bottom: bottom as int,
        },
        SetupAction::CompoundCard { hand, bottom } => SetupActionModel::Compound {
            hand: hand@,
            bottom: bottom as int,
        },
        SetupAction::FinishExchange => SetupActionModel::Finish,
    }
}

pub open spec fn spec_enc_setup_model(m: SetupActionModel) -> Seq<u8> {
    match m {
        SetupActionModel::Exchange { hand, bottom } => lit_exchange_prefix()
            + spec_enc_card_list(hand) + lit_bottom_mid() + spec_enc_u64(bottom) + seq![
            125u8,
            125u8,
        ],
        SetupActionModel::Compound { hand, bottom } => lit_compound_prefix()
            + spec_enc_card_list(hand) + lit_bottom_mid() + spec_enc_u64(bottom) + seq![
            125u8,
            125u8,
        ],
        SetupActionModel::Finish => lit_finish_exchange(),
    }
}

/// The common tail of the two bracketed setup variants: a card list, the
/// bottom index, and the two closing braces.
pub open spec fn spec_parse_setup_tail(s: Seq<u8>, pos: int) -> Option<(Seq<Card>, int, int)> {
    match spec_parse_card_list(s, pos) {
        None => None,
        Some((cs, p2)) => match spec_parse_lit(s, p2, lit_bottom_mid()) {
            None => None,
            Some(p3) => match spec_parse_u64(s, p3) {
                None => None,
                Some((v, p4)) => if v > usize::MAX as u64 {
                    None
                } else {
                    match spec_parse_lit(s, p4, seq![125u8, 125u8]) {
                        None => None,
                        Some(p5) => Some((cs, v as int, p5)),
                    }
                },
            },
        },
    }
}

pub open spec fn spec_parse_setup(s: Seq<u8>, pos: int) -> Option<(SetupActionModel, int)> {
    if spec_parse_lit(s, pos, lit_exchange_prefix()) is Some {
        let p1 = pos + lit_exchange_prefix().len();
        match spec_parse_setup_tail(s, p1) {
            None => None,
            Some((cs, b, p)) => Some((SetupActionModel::Exchange { hand: cs, bottom: b }, p)),
        }
    } else if spec_parse_lit(s, pos, lit_compound_prefix()) is Some {
        let p1 = pos + lit_compound_prefix().len();
        match spec_parse_setup_tail(s, p1) {
            None => None,
            Some((cs, b, p)) => Some((SetupActionModel::Compound { hand: cs, bottom: b }, p)),
        }
    } else if spec_parse_lit(s, pos, lit_finish_exchange()) is Some {
        Some((SetupActionModel::Finish, pos + lit_finish_exchange().len()))
    } else {
        None
    }
}

/// A bracketed setup variant's tail parses back to its parts.
proof fn lemma_parse_enc_setup_tail(s: Seq<u8>, pos: int, cs: Seq<Card>, b: int)
    requires
        0 <= pos,
        0 <= b <= usize::MAX,
        pos + spec_enc_card_list(cs).len() + lit_bottom_mid().len() + spec_enc_u64(b).len() + 2
            <= s.len(),
        s.subrange(
            pos,
            pos + spec_enc_card_list(cs).len() + lit_bottom_mid().len() + spec_enc_u64(b).len()
                + 2,
        ) == spec_enc_card_list(cs) + lit_bottom_mid() + spec_enc_u64(b) + seq![125u8, 125u8],
    ensures
        spec_parse_setup_tail(s, pos) == Some(
            (
                cs,
                b,
                pos + spec_enc_card_list(cs).len() + lit_bottom_mid().len() + spec_enc_u64(
                    b,
                ).len() + 2,
            ),
        ),
{
    let e1 = spec_enc_card_list(cs);
    let e2 = lit_bottom_mid();
    let e3 = spec_enc_u64(b);
    let e4 = seq![125u8, 125u8];
    assert(e1 + e2 + e3 + e4 =~= e1 + (e2 + (e3 + e4)));
    lemma_split_prefix(s, pos, e1, e2 + (e3 + e4));
    let p2 = pos + e1.len();
    lemma_split_prefix(s, p2, e2, e3 + e4);
    let p3 = p2 + e2.len();
    lemma_split_prefix(s, p3, e3, e4);
    let p4 = p3 + e3.len();
    lemma_parse_enc_card_list(s, pos, cs);
    assert(spec_parse_lit(s, p2, e2) == Some(p3));
    assert(s[p4] == e4[0]) by {
        assert(s.subrange(p4, p4 + 2)[0] == s[p4]);
    }
    assert(!is_digit(s[p4]));
    let n64 = b as u64;
    assert(spec_enc_u64(n64 as int) == e3);
    lemma_parse_enc_u64(s, p3, n64);
    assert(spec_parse_lit(s, p4, e4) == Some(p4 + 2));
}

pub proof fn lemma_parse_enc_setup(s: Seq<u8>, pos: int, m: SetupActionModel)
    requires
        0 <= pos,
        match m {
            SetupActionModel::Exchange { hand, bottom } => 0 <= bottom <= usize::MAX,
            SetupActionModel::Compound { hand, bottom } => 0 <= bottom <= usize::MAX,
            SetupActionModel::Finish => true,
        },
        pos + spec_enc_setup_model(m).len() <= s.len(),
        s.subrange(pos, pos + spec_enc_setup_model(m).len()) == spec_enc_setup_model(m),
    ensures
        spec_parse_setup(s, pos) == Some((m, pos + spec_enc_setup_model(m).len())),
{
    let whole = spec_enc_setup_model(m);
    match m {
        SetupActionModel::Exchange { hand, bottom } => {
            let e0 = lit_exchange_prefix();
            let tail = spec_enc_card_list(hand) + lit_bottom_mid() + spec_enc_u64(bottom)
                + seq![125u8, 125u8];
            assert(whole =~= e0 + tail);
            lemma_split_prefix(s, pos, e0, tail);
            assert(spec_parse_lit(s, pos, e0) == Some(pos + e0.len()));
            lemma_parse_enc_setup_tail(s, pos + e0.len(), hand, bottom);
        },
        SetupActionModel::Compound { hand, bottom } => {
            let e0 = lit_compound_prefix();
            let tail = spec_enc_card_list(hand) + lit_bottom_mid() + spec_enc_u64(bottom)
                + seq![125u8, 125u8];
            assert(whole =~= e0 + tail);
            lemma_split_prefix(s, pos, e0, tail);
            assert(whole[2] == 'C' as u8);
            assert(s[pos + 2] == whole[2]);
            if pos + lit_exchange_prefix().len() <= s.len() {
                assert(s.subrange(pos, pos + lit_exchange_prefix().len())[2] == s[pos + 2]);
                assert(s.subrange(pos, pos + lit_exchange_prefix().len())
                    != lit_exchange_prefix());
            }
            assert(spec_parse_lit(s, pos, lit_exchange_prefix()) is None);
            assert(spec_parse_lit(s, pos, e0) == Some(pos + e0.len()));
            lemma_parse_enc_setup_tail(s, pos + e0.len(), hand, bottom);
        },
        SetupActionModel::Finish => {
            let e0 = lit_finish_exchange();
            assert(whole[0] == '"' as u8);
            assert(s[pos] == whole[0]);
            if pos + lit_exchange_prefix().len() <= s.len() {
                assert(s.subrange(pos, pos + lit_exchange_prefix().len())[0] == s[pos]);
                assert(s.subrange(pos, pos + lit_exchange_prefix().len())
                    != lit_exchange_prefix());
            }
            if pos + lit_compound_prefix().len() <= s.len() {
                assert(s.subrange(pos, pos + lit_compound_prefix().len())[0] == s[pos]);
                assert(s.subrange(pos, pos + lit_compound_prefix().len())
                    != lit_compound_prefix());
            }
            assert(spec_parse_lit(s, pos, e0) == Some(pos + e0.len()));
        },
    }
}

pub open spec fn spec_enc_play(a: PlayAction) -> Seq<u8> {
    match a {
        PlayAction::PlaceCard { card } => lit_place_prefix() + spec_enc_card(card) + seq![
            125u8,
            125u8,
        ],
        PlayAction::PickupStack => lit_pickup_stack(),
    }
}

pub open spec fn spec_parse_play(s: Seq<u8>, pos: int) -> Option<(PlayAction, int)> {
    if spec_parse_lit(s, pos, lit_place_prefix()) is Some {
        let p1 = pos + lit_place_prefix().len();
        match spec_parse_card(s, p1) {
            None => None,
            Some((c, p2)) => match spec_parse_lit(s, p2, seq![125u8, 125u8]) {
                None => None,
                Some(p3) => Some((PlayAction::PlaceCard { card: c }, p3)),
            },
        }
    } else if spec_parse_lit(s, pos, lit_pickup_stack()) is Some {
        Some((PlayAction::PickupStack, pos + lit_pickup_stack().len()))
    } else {
        None
    }
}

pub proof fn lemma_parse_enc_play(s: Seq<u8>, pos: int, a: PlayAction)
    requires
        0 <= pos,
        pos + spec_enc_play(a).len() <= s.len(),
        s.subrange(pos, pos + spec_enc_play(a).len()) == spec_enc_play(a),
    ensures
        spec_parse_play(s, pos) == Some((a, pos + spec_enc_play(a).len())),
{
    let whole = spec_enc_play(a);
    match a {
        PlayAction::PlaceCard { card } => {
            let e0 = lit_place_prefix();
            let e1 = spec_enc_card(card);
            let e2 = seq![125u8, 125u8];
            assert(whole =~= e0 + (e1 + e2));
            lemma_split_prefix(s, pos, e0, e1 + e2);
            let p1 = pos + e0.len();
            lemma_split_prefix(s, p1, e1, e2);
            assert(spec_parse_lit(s, pos, e0) == Some(p1));
            lemma_parse_enc_card(s, p1, card);
            let p2 = p1 + e1.len();
            assert(spec_parse_lit(s, p2, e2) == Some(p2 + 2));
        },
        PlayAction::PickupStack => {
            let e0 = lit_pickup_stack();
            assert(whole[0] == '"' as u8);
            assert(s[pos] == whole[0]) by {
                assert(s.subrange(pos, pos + whole.len())[0] == s[pos]);
            }
            if pos + lit_place_prefix().len() <= s.len() {
                assert(s.subrange(pos, pos + lit_place_prefix().len())[0] == s[pos]);
                assert(s.subrange(pos, pos + lit_place_prefix().len()) != lit_place_prefix());
            }
            assert(spec_parse_lit(s, pos, e0) == Some(pos + e0.len()));
        },
    }
}

pub open spec fn spec_enc_stage(st: Stage) -> Seq<u8> {
    match st {
        Stage::Swap => lit_stage_swap(),
        Stage::Play => lit_stage_play(),
    }
}

pub open spec fn spec_parse_stage(s: Seq<u8>, pos: int) -> Option<(Stage, int)> {
    if spec_parse_lit(s, pos, lit_stage_swap()) is Some {
        Some((Stage::Swap, pos + lit_stage_swap().len()))
    } else if spec_parse_lit(s, pos, lit_stage_play()) is Some {
        Some((Stage::Play, pos + lit_stage_play().len()))
    } else {
        None
    }
}

pub proof fn lemma_parse_enc_stage(s: Seq<u8>, pos: int, st: Stage)
    requires
        0 <= pos,
        pos + spec_enc_stage(st).len() <= s.len(),
        s.subrange(pos, pos + spec_enc_stage(st).len()) == spec_enc_stage(st),
    ensures
        spec_parse_stage(s, pos) == Some((st, pos + spec_enc_stage(st).len())),
{
    let whole = spec_enc_stage(st);
    match st {
        Stage::Swap => {},
        Stage::Play => {
            assert(whole[10] == 'P' as u8);
            assert(s[pos + 10] == whole[10]) by {
                assert(s.subrange(pos, pos + whole.len())[10] == s[pos + 10]);
            }
            if pos + lit_stage_swap().len() <= s.len() {
                assert(s.subrange(pos, pos + lit_stage_swap().len())[10] == s[pos + 10]);
                assert(s.subrange(pos, pos + lit_stage_swap().len()) != lit_stage_swap());
            }
        },
    }
}

// ---------------------------------------------------------------------
// executable codecs
// ---------------------------------------------------------------------

fn build_brace1() -> (v: Vec<u8>)
    ensures
        v@ == seq![125u8],
{
    let mut v: Vec<u8> = Vec::new();
    v.push(125);
    proof {
        assert(v@ =~= seq![125u8]);
    }
    v
}

fn enc_suit_into(su: Suit, out: &mut Vec<u8>)
    ensures
        final(out)@ == old(out)@ + spec_enc_suit(su),
{
    match su {
        Suit::Club => {
            let l = build_club();
            push_lit(out, &l);
        },
        Suit::Diamond => {
            let l = build_diamond();
            push_lit(out, &l);
        },
        Suit::Heart => {
            let l = build_heart();
            push_lit(out, &l);
        },
        Suit::Spade => {
            let l = build_spade();
            push_lit(out, &l);
        },
    }
}

fn enc_card_into(c: &Card, out: &mut Vec<u8>)
    ensures
        final(out)@ == old(out)@ + spec_enc_card(*c),
{
    let l1 = build_rank_prefix();
    push_lit(out, &l1);
    enc_u64_into(c.rank as u64, out);
    let l2 = build_suit_mid();
    push_lit(out, &l2);
    enc_suit_into(c.suit, out);
    out.push(125);
    proof {
        assert(out@ =~= old(out)@ + spec_enc_card(*c));
    }
}

/// Splitting an item off the back of an item list's encoding.
proof fn lemma_items_push(s: Seq<Card>, c: Card)
    ensures
        spec_enc_card_items(s.push(c)) == if s.len() == 0 {
            spec_enc_card(c)
        } else {
            spec_enc_card_items(s) + seq![44u8] + spec_enc_card(c)
        },
    decreases s.len(),
{
    let t = s.push(c);
    if s.len() == 0 {
        assert(t.len() == 1);
        assert(t[0] == c);
    } else {
        assert(t.len() >= 2);
        assert(t[0] == s[0]);
        assert(t.drop_first() =~= s.drop_first().push(c));
        lemma_items_push(s.drop_first(), c);
        if s.len() == 1 {
            assert(spec_enc_card_items(t) == spec_enc_card(s[0]) + seq![44u8] + spec_enc_card(
                c,
            )) by {
                assert(spec_enc_card_items(t) == spec_enc_card(t[0]) + seq![44u8]
                    + spec_enc_card_items(t.drop_first()));
                assert(spec_enc_card_items(s.drop_first().push(c)) == spec_enc_card(c));
            }
            assert(spec_enc_card_items(s) == spec_enc_card(s[0]));
        } else {
            assert(spec_enc_card_items(t) =~= spec_enc_card_items(s) + seq![44u8]
                + spec_enc_card(c)) by {
                assert(spec_enc_card_items(t) == spec_enc_card(t[0]) + seq![44u8]
                    + spec_enc_card_items(t.drop_first()));
                assert(spec_enc_card_items(s.drop_first().push(c)) == spec_enc_card_items(
                    s.drop_first(),
                ) + seq![44u8] + spec_enc_card(c));
                assert(spec_enc_card_items(s) == spec_enc_card(s[0]) + seq![44u8]
                    + spec_enc_card_items(s.drop_first()));
            }
        }
    }
}

fn enc_card_list_into(cs: &Vec<Card>, out: &mut Vec<u8>)
    ensures
        final(out)@ == old(out)@ + spec_enc_card_list(cs@),
{
    out.push(91);
    proof {
        assert(spec_enc_card_items(cs@.take(0)) =~= Seq::<u8>::empty());
        assert(out@ =~= old(out)@ + seq![91u8] + spec_enc_card_items(cs@.take(0)));
    }
    let mut i: usize = 0;
    while i < cs.len()
        invariant
            i <= cs@.len(),
            out@ == old(out)@ + seq![91u8] + spec_enc_card_items(cs@.take(i as int)),
        decreases cs@.len() - i,
    {
        let ghost before = out@;
        if i > 0 {
            out.push(44);
        }
        let c = cs[i];
        enc_card_into(&c, out);
        proof {
            assert(cs@.take(i + 1) =~= cs@.take(i as int).push(cs@[i as int]));
            lemma_items_push(cs@.take(i as int), cs@[i as int]);
            if i > 0 {
                assert(cs@.take(i as int).len() != 0);
                assert(out@ =~= old(out)@ + seq![91u8] + spec_enc_card_items(cs@.take(i + 1)));
            } else {
                assert(cs@.take(0) =~= Seq::<Card>::empty());
                assert(out@ =~= old(out)@ + seq![91u8] + spec_enc_card_items(cs@.take(i + 1)));
            }
        }
        i = i + 1;
    }
    out.push(93);
    proof {
        assert(cs@.take(cs@.len() as int) =~= cs@);
        assert(out@ =~= old(out)@ + spec_enc_card_list(cs@));
    }
}

fn parse_suit(s: &Vec<u8>, pos: usize) -> (r: Option<(Suit, usize)>)
    requires
        pos <= s@.len(),
    ensures
        match r {
            Some((su, p)) => spec_parse_suit(s@, pos as int) == Some((su, p as int)) && pos < p
                <= s@.len(),
            None => spec_parse_suit(s@, pos as int) is None,
        },
{
    let lc = build_club();
    if let Some(p) = eat_lit(s, pos, &lc) {
        return Some((Suit::Club, p));
    }
    let ld = build_diamond();
    if let Some(p) = eat_lit(s, pos, &ld) {
        return Some((Suit::Diamond, p));
    }
    let lh = build_heart();
    if let Some(p) = eat_lit(s, pos, &lh) {
        return Some((Suit::Heart, p));
    }
    let ls = build_spade();
    if let Some(p) = eat_lit(s, pos, &ls) {
        return Some((Suit::Spade, p));
    }
    None
}

fn parse_card(s: &Vec<u8>, pos: usize) -> (r: Option<(Card, usize)>)
    requires
        pos <= s@.len(),
    ensures
        match r {
            Some((c, p)) => spec_parse_card(s@, pos as int) == Some((c, p as int)) && pos < p
                <= s@.len(),
            None => spec_parse_card(s@, pos as int) is None,
        },
{
    let l1 = build_rank_prefix();
    let p1 = match eat_lit(s, pos, &l1) {
        Some(p) => p,
        None => {
            return None;
        },
    };
    let (v, p2) = match parse_u64(s, p1) {
        Some(x) => x,
        None => {
            return None;
        },
    };
    if v > 255 {
        return None;
    }
    let l2 = build_suit_mid();
    let p3 = match eat_lit(s, p2, &l2) {
        Some(p) => p,
        None => {
            return None;
        },
    };
    let (su, p4) = match parse_suit(s, p3) {
        Some(x) => x,
        None => {
            return None;
        },
    };
    let lb = build_brace1();
    let p5 = match eat_lit(s, p4, &lb) {
        Some(p) => p,
        None => {
            return None;
        },
    };
    Some((Card { rank: v as u8, suit: su }, p5))
}

fn parse_card_items(s: &Vec<u8>, pos: usize) -> (r: Option<(Vec<Card>, usize)>)
    requires
        pos <= s@.len(),
    ensures
        match r {
            Some((cs, p)) => spec_parse_card_items(s@, pos as int, Seq::<Card>::empty()) == Some(
                (cs@, p as int),
            ) && pos <= p <= s@.len(),
            None => spec_parse_card_items(s@, pos as int, Seq::<Card>::empty()) is None,
        },
{
    let mut acc: Vec<Card> = Vec::new();
    let mut p: usize = pos;
    loop
        invariant
            pos <= p <= s@.len(),
            spec_parse_card_items(s@, pos as int, Seq::<Card>::empty()) == spec_parse_card_items(
                s@,
                p as int,
                acc@,
            ),
        decreases s@.len() - p,
    {
        let ghost acc0 = acc@;
        match parse_card(s, p) {
            None => {
                return None;
            },
            Some((c, p2)) => {
                acc.push(c);
                if p2 >= s.len() {
                    return None;
                }
                let b = s[p2];
                if b == 93 {
                    proof {
                        assert(spec_parse_card_items(s@, p as int, acc0) == Some(
                            (acc0.push(c), p2 + 1),
                        ));
                    }
                    return Some((acc, p2 + 1));
                }
                if b != 44 {
                    return None;
                }
                proof {
                    assert(spec_parse_card_items(s@, p as int, acc0) == spec_parse_card_items(
                        s@,
                        p2 + 1,
                        acc0.push(c),
                    ));
                }
                p = p2 + 1;
            },
        }
    }
}

fn parse_card_list(s: &Vec<u8>, pos: usize) -> (r: Option<(Vec<Card>, usize)>)
    requires
        pos <= s@.len(),
    ensures
        match r {
            Some((cs, p)) => spec_parse_card_list(s@, pos as int) == Some((cs@, p as int)) && pos
                < p <= s@.len(),
            None => spec_parse_card_list(s@, pos as int) is None,
        },
{
    if pos >= s.len() {
        return None;
    }
    if s[pos] != 91 {
        return None;
    }
    if pos + 1 < s.len() {
        let b = s[pos + 1];
        if b == 93 {
            return Some((Vec::new(), pos + 2));
        }
    }
    parse_card_items(s, pos + 1)
}

fn parse_setup_tail(s: &Vec<u8>, pos: usize) -> (r: Option<(Vec<Card>, usize, usize)>)
    requires
        pos <= s@.len(),
    ensures
        match r {
            Some((cs, b, p)) => spec_parse_setup_tail(s@, pos as int) == Some(
                (cs@, b as int, p as int),
            ) && p <= s@.len(),
            None => spec_parse_setup_tail(s@, pos as int) is None,
        },
{
    let (cs, p2) = match parse_card_list(s, pos) {
        Some(x) => x,
        None => {
            return None;
        },
    };
    let l = build_bottom_mid();
    let p3 = match eat_lit(s, p2, &l) {
        Some(p) => p,
        None => {
            return None;
        },
    };
    let (v, p4) = match parse_u64(s, p3) {
        Some(x) => x,
        None => {
            return None;
        },
    };
    if v > usize::MAX as u64 {
        return None;
    }
    let lb = build_braces2();
    let p5 = match eat_lit(s, p4, &lb) {
        Some(p) => p,
        None => {
            return None;
        },
    };
    Some((cs, v as usize, p5))
}

// ---------------------------------------------------------------------
// the public wire interface
// ---------------------------------------------------------------------

/// A whole message holding exactly one card.
pub open spec fn spec_decode_card(s: Seq<u8>) -> Option<Card> {
    match spec_parse_card(s, 0) {
        Some((c, p)) => if p == s.len() {
            Some(c)
        } else {
            None
        },
        None => None,
    }
}

pub fn encode_card(c: &Card) -> (r: Vec<u8>)
    ensures
        r@ == spec_enc_card(*c),
{
    let mut out: Vec<u8> = Vec::new();
    enc_card_into(c, &mut out);
    proof {
        assert(out@ =~= spec_enc_card(*c));
    }
    out
}

pub fn decode_card(s: &Vec<u8>) -> (r: Option<Card>)
    ensures
        r == spec_decode_card(s@),
{
    match parse_card(s, 0) {
        Some((c, p)) => if p == s.len() {
            Some(c)
        } else {
            None
        },
        None => None,
    }
}

/// Decoding an encoded card yields the card back.
pub proof fn lemma_card_round_trip(c: Card)
    ensures
        spec_decode_card(spec_enc_card(c)) == Some(c),
{
    let e = spec_enc_card(c);
    assert(e.subrange(0, e.len() as int) =~= e);
    lemma_parse_enc_card(e, 0, c);
}

/// A whole message holding exactly one setup action.
pub open spec fn spec_decode_setup(s: Seq<u8>) -> Option<SetupActionModel> {
    match spec_parse_setup(s, 0) {
        Some((m, p)) => if p == s.len() {
            Some(m)
        } else {
            None
        },
        None => None,
    }
}

pub fn encode_setup_action(a: &SetupAction) -> (r: Vec<u8>)
    ensures
        r@ == spec_enc_setup_model(setup_model(*a)),
{
    match a {
        SetupAction::ExchangeCard { hand, bottom } => {
            let mut out: Vec<u8> = Vec::new();
            let l = build_exchange_prefix();
            push_lit(&mut out, &l);
            enc_card_list_into(hand, &mut out);
            let l2 = build_bottom_mid();
            push_lit(&mut out, &l2);
            enc_u64_into(*bottom as u64, &mut out);
            out.push(125);
            out.push(125);
            proof {
                assert(out@ =~= spec_enc_setup_model(setup_model(*a)));
            }
            out
        },
        SetupAction::CompoundCard { hand, bottom } => {
            let mut out: Vec<u8> = Vec::new();
            let l = build_compound_prefix();
            push_lit(&mut out, &l);
            enc_card_list_into(hand, &mut out);
            let l2 = build_bottom_mid();
            push_lit(&mut out, &l2);
            enc_u64_into(*bottom as u64, &mut out);
            out.push(125);
            out.push(125);
            proof {
                assert(out@ =~= spec_enc_setup_model(setup_model(*a)));
            }
            out
        },
        SetupAction::FinishExchange => {
            let out = build_finish_exchange();
            out
        },
    }
}

pub fn decode_setup_action(s: &Vec<u8>) -> (r: Option<SetupAction>)
    ensures
        match r {
            Some(a) => spec_decode_setup(s@) == Some(setup_model(a)),
            None => spec_decode_setup(s@) is None,
        },
{
    let l1 = build_exchange_prefix();
    if let Some(p1) = eat_lit(s, 0, &l1) {
        match parse_setup_tail(s, p1) {
            Some((cs, b, p)) => {
                if p == s.len() {
                    return Some(SetupAction::ExchangeCard { hand: cs, bottom: b });
                }
                return None;
            },
            None => {
                return None;
            },
        }
    }
    let l2 = build_compound_prefix();
    if let Some(p1) = eat_lit(s, 0, &l2) {
        match parse_setup_tail(s, p1) {
            Some((cs, b, p)) => {
                if p == s.len() {
                    return Some(SetupAction::CompoundCard { hand: cs, bottom: b });
                }
                return None;
            },
            None => {
                return None;
            },
        }
    }
    let l3 = build_finish_exchange();
    if let Some(p) = eat_lit(s, 0, &l3) {
        if p == s.len() {
            return Some(SetupAction::FinishExchange);
        }
        return None;
    }
    None
}

/// Decoding an encoded setup action yields the action back.
pub proof fn lemma_setup_round_trip(m: SetupActionModel)
    requires
        match m {
            SetupActionModel::Exchange { hand, bottom } => 0 <= bottom <= usize::MAX,
            SetupActionModel::Compound { hand, bottom } => 0 <= bottom <= usize::MAX,
            SetupActionModel::Finish => true,
        },
    ensures
        spec_decode_setup(spec_enc_setup_model(m)) == Some(m),
{
    let e = spec_enc_setup_model(m);
    assert(e.subrange(0, e.len() as int) =~= e);
    lemma_parse_enc_setup(e, 0, m);
}

/// A whole message holding exactly one play action.
pub open spec fn spec_decode_play(s: Seq<u8>) -> Option<PlayAction> {
    match spec_parse_play(s, 0) {
        Some((a, p)) => if p == s.len() {
            Some(a)
        } else {
            None
        },
        None => None,
    }
}

pub fn encode_play_action(a: &PlayAction) -> (r: Vec<u8>)
    ensures
        r@ == spec_enc_play(*a),
{
    match a {
        PlayAction::PlaceCard { card } => {
            let mut out: Vec<u8> = Vec::new();
            let l = build_place_prefix();
            push_lit(&mut out, &l);
            enc_card_into(card, &mut out);
            out.push(125);
            out.push(125);
            proof {
                assert(out@ =~= spec_enc_play(*a));
            }
            out
        },
        PlayAction::PickupStack => {
            let out = build_pickup_stack();
            out
        },
    }
}

pub fn decode_play_action(s: &Vec<u8>) -> (r: Option<PlayAction>)
    ensures
        r == spec_decode_play(s@),
{
    let l1 = build_place_prefix();
    if let Some(p1) = eat_lit(s, 0, &l1) {
        match parse_card(s, p1) {
            Some((c, p2)) => {
                let lb = build_braces2();
                match eat_lit(s, p2, &lb) {
                    Some(p3) => {
                        if p3 == s.len() {
                            return Some(PlayAction::PlaceCard { card: c });
                        }
                        return None;
                    },
                    None => {
                        return None;
                    },
                }
            },
            None => {
                return None;
            },
        }
    }
    let l2 = build_pickup_stack();
    if let Some(p) = eat_lit(s, 0, &l2) {
        if p == s.len() {
            return Some(PlayAction::PickupStack);
        }
        return None;
    }
    None
}

/// Decoding an encoded play action yields the action back.
pub proof fn lemma_play_round_trip(a: PlayAction)
    ensures
        spec_decode_play(spec_enc_play(a)) == Some(a),
{
    let e = spec_enc_play(a);
    assert(e.subrange(0, e.len() as int) =~= e);
    lemma_parse_enc_play(e, 0, a);
}

/// A whole message holding exactly one stage notice.
pub open spec fn spec_decode_stage(s: Seq<u8>) -> Option<Stage> {
    match spec_parse_stage(s, 0) {
        Some((st, p)) => if p == s.len() {
            Some(st)
        } else {
            None
        },
        None => None,
    }
}

pub fn encode_stage(st: Stage) -> (r: Vec<u8>)
    ensures
        r@ == spec_enc_stage(st),
{
    match st {
        Stage::Swap => build_stage_swap(),
        Stage::Play => build_stage_play(),
    }
}

pub fn decode_stage(s: &Vec<u8>) -> (r: Option<Stage>)
    ensures
        r == spec_decode_stage(s@),
{
    let l1 = build_stage_swap();
    if let Some(p) = eat_lit(s, 0, &l1) {
        if p == s.len() {
            return Some(Stage::Swap);
        }
        return None;
    }
    let l2 = build_stage_play();
    if let Some(p) = eat_lit(s, 0, &l2) {
        if p == s.len() {
            return Some(Stage::Play);
        }
        return None;
    }
    None
}

/// Decoding an encoded stage notice yields the stage back.
pub proof fn lemma_stage_round_trip(st: Stage)
    ensures
        spec_decode_stage(spec_enc_stage(st)) == Some(st),
{
    let e = spec_enc_stage(st);
    assert(e.subrange(0, e.len() as int) =~= e);
    lemma_parse_enc_stage(e, 0, st);
}

/// A parsed stage notice is sound: exactly its encoding was consumed.
pub proof fn lemma_parse_stage_sound(s: Seq<u8>, pos: int)
    requires
        0 <= pos <= s.len(),
    ensures
        match spec_parse_stage(s, pos) {
            Some((st, p)) => pos < p <= s.len() && s.subrange(pos, p) == spec_enc_stage(st),
            None => true,
        },
{
}

/// A parsed setup tail is sound: exactly the card list, the bottom
/// index and the closing braces were consumed.
proof fn lemma_parse_setup_tail_sound(s: Seq<u8>, pos: int)
    requires
        0 <= pos <= s.len(),
    ensures
        match spec_parse_setup_tail(s, pos) {
            Some((cs, b, p)) => {
                &&& pos < p <= s.len()
                &&& 0 <= b <= usize::MAX
                &&& s.subrange(pos, p) == spec_enc_card_list(cs) + lit_bottom_mid()
                    + spec_enc_u64(b) + seq![125u8, 125u8]
            },
            None => true,
        },
{
    match spec_parse_card_list(s, pos) {
        None => {},
        Some((cs, p2)) => {
            lemma_parse_card_list_sound(s, pos);
            match spec_parse_lit(s, p2, lit_bottom_mid()) {
                None => {},
                Some(p3) => {
                    lemma_parse_u64_sound(s, p3);
                    match spec_parse_u64(s, p3) {
                        None => {},
                        Some((v, p4)) => {
                            if v <= usize::MAX as u64 {
                                match spec_parse_lit(s, p4, seq![125u8, 125u8]) {
                                    None => {},
                                    Some(p5) => {
                                        assert((v as usize) as int == v as int);
                                        lemma_subrange_join(s, pos, p2, p3);
                                        lemma_subrange_join(s, pos, p3, p4);
                                        lemma_subrange_join(s, pos, p4, p5);
                                        assert(s.subrange(pos, p5) =~= spec_enc_card_list(cs)
                                            + lit_bottom_mid() + spec_enc_u64(v as int) + seq![
                                            125u8,
                                            125u8,
                                        ]);
                                    },
                                }
                            }
                        },
                    }
                },
            }
        },
    }
}

/// A parsed setup action is sound: exactly its encoding was consumed.
pub proof fn lemma_parse_setup_sound(s: Seq<u8>, pos: int)
    requires
        0 <= pos <= s.len(),
    ensures
        match spec_parse_setup(s, pos) {
            Some((m, p)) => pos < p <= s.len() && s.subrange(pos, p) == spec_enc_setup_model(m),
            None => true,
        },
{
    if spec_parse_lit(s, pos, lit_exchange_prefix()) is Some {
        let p1 = pos + lit_exchange_prefix().len();
        lemma_parse_setup_tail_sound(s, p1);
        match spec_parse_setup_tail(s, p1) {
            None => {},
            Some((cs, b, p)) => {
                lemma_subrange_join(s, pos, p1, p);
                assert(s.subrange(pos, p) =~= spec_enc_setup_model(
                    SetupActionModel::Exchange { hand: cs, bottom: b },
                ));
            },
        }
    } else if spec_parse_lit(s, pos, lit_compound_prefix()) is Some {
        let p1 = pos + lit_compound_prefix().len();
        lemma_parse_setup_tail_sound(s, p1);
        match spec_parse_setup_tail(s, p1) {
            None => {},
            Some((cs, b, p)) => {
                lemma_subrange_join(s, pos, p1, p);
                assert(s.subrange(pos, p) =~= spec_enc_setup_model(
                    SetupActionModel::Compound { hand: cs, bottom: b },
                ));
            },
        }
    }
}

/// A parsed play action is sound: exactly its encoding was consumed.
pub proof fn lemma_parse_play_sound(s: Seq<u8>, pos: int)
    requires
        0 <= pos <= s.len(),
    ensures
        match spec_parse_play(s, pos) {
            Some((a, p)) => pos < p <= s.len() && s.subrange(pos, p) == spec_enc_play(a),
            None => true,
        },
{
    if spec_parse_lit(s, pos, lit_place_prefix()) is Some {
        let p1 = pos + lit_place_prefix().len();
        lemma_parse_card_sound(s, p1);
        match spec_parse_card(s, p1) {
            None => {},
            Some((c, p2)) => {
                match spec_parse_lit(s, p2, seq![125u8, 125u8]) {
                    None => {},
                    Some(p3) => {
                        lemma_subrange_join(s, pos, p1, p2);
                        lemma_subrange_join(s, pos, p2, p3);
                        assert(s.subrange(pos, p3) =~= spec_enc_play(
                            PlayAction::PlaceCard { card: c },
                        ));
                    },
                }
            },
        }
    }
}

// ---------------------------------------------------------------------
// byte strings (participant ids) and the outbound state messages
// ---------------------------------------------------------------------

pub open spec fn spec_hex_digit(v: u8) -> u8 {
    if v < 10 {
        (48 + v) as u8
    } else {
        (87 + v) as u8
    }
}

/// How one byte of a string travels: quote and backslash are escaped,
/// control bytes become a four-digit escape, the rest go as they are.
pub open spec fn spec_esc(b: u8) -> Seq<u8> {
    if b == 34 || b == 92 {
        seq![92u8, b]
    } else if b < 32 {
        seq![92u8, 117u8, 48u8, 48u8, spec_hex_digit(b / 16), spec_hex_digit(b % 16)]
    } else {
        seq![b]
    }
}

pub open spec fn spec_enc_bytes_body(s: Seq<u8>) -> Seq<u8>
    decreases s.len(),
{
    if s.len() == 0 {
        Seq::<u8>::empty()
    } else {
        spec_enc_bytes_body(s.drop_last()) + spec_esc(s.last())
    }
}

/// A quoted, escaped byte string.
pub open spec fn spec_enc_bytes(s: Seq<u8>) -> Seq<u8> {
    seq![34u8] + spec_enc_bytes_body(s) + seq![34u8]
}

fn esc_into(b: u8, out: &mut Vec<u8>)
    ensures
        final(out)@ == old(out)@ + spec_esc(b),
{
    if b == 34 || b == 92 {
        out.push(92);
        out.push(b);
        proof {
            assert(out@ =~= old(out)@ + spec_esc(b));
        }
    } else if b < 32 {
        out.push(92);
        out.push(117);
        out.push(48);
        out.push(48);
        let hi = b / 16;
        let lo = b % 16;
        out.push(if hi < 10 { 48 + hi } else { 87 + hi });
        out.push(if lo < 10 { 48 + lo } else { 87 + lo });
        proof {
            assert(out@ =~= old(out)@ + spec_esc(b));
        }
    } else {
        out.push(b);
        proof {
            assert(out@ =~= old(out)@ + spec_esc(b));
        }
    }
}

fn enc_bytes_into(s: &Vec<u8>, out: &mut Vec<u8>)
    ensures
        final(out)@ == old(out)@ + spec_enc_bytes(s@),
{
    out.push(34);
    proof {
        assert(out@ =~= old(out)@ + seq![34u8] + spec_enc_bytes_body(s@.take(0)));
    }
    let mut i: usize = 0;
    while i < s.len()
        invariant
            i <= s@.len(),
            out@ == old(out)@ + seq![34u8] + spec_enc_bytes_body(s@.take(i as int)),
        decreases s@.len() - i,
    {
        let b = s[i];
        esc_into(b, out);
        proof {
            assert(s@.take(i + 1).drop_last() =~= s@.take(i as int));
            assert(s@.take(i + 1).last() == s@[i as int]);
        }
        i = i + 1;
    }
    out.push(34);
    proof {
        assert(s@.take(s@.len() as int) =~= s@);
        assert(out@ =~= old(out)@ + spec_enc_bytes(s@));
    }
}

pub open spec fn spec_unhex(b: u8) -> u8 {
    if b < 58 {
        (b - 48) as u8
    } else {
        (b - 87) as u8
    }
}

pub open spec fn is_hex_lower(b: u8) -> bool {
    48 <= b <= 57 || 97 <= b <= 102
}

/// The body of a quoted string up to and including its closing quote:
/// plain bytes, two-byte escapes for quote and backslash, and canonical
/// four-digit escapes for control bytes.
pub open spec fn spec_parse_bytes_body(s: Seq<u8>, pos: int, acc: Seq<u8>) -> Option<
    (Seq<u8>, int),
>
    decreases s.len() - pos,
{
    if pos < 0 || pos >= s.len() {
        None
    } else if s[pos] == 34 {
        Some((acc, pos + 1))
    } else if s[pos] == 92 {
        if pos + 2 <= s.len() && (s[pos + 1] == 34 || s[pos + 1] == 92) {
            spec_parse_bytes_body(s, pos + 2, acc.push(s[pos + 1]))
        } else if pos + 6 <= s.len() && s[pos + 1] == 117 && s[pos + 2] == 48 && s[pos + 3] == 48
            && (s[pos + 4] == 48 || s[pos + 4] == 49) && is_hex_lower(s[pos + 5]) {
            spec_parse_bytes_body(
                s,
                pos + 6,
                acc.push((spec_unhex(s[pos + 4]) * 16 + spec_unhex(s[pos + 5])) as u8),
            )
        } else {
            None
        }
    } else if s[pos] >= 32 {
        spec_parse_bytes_body(s, pos + 1, acc.push(s[pos]))
    } else {
        None
    }
}

pub open spec fn spec_parse_bytes(s: Seq<u8>, pos: int) -> Option<(Seq<u8>, int)> {
    if 0 <= pos && pos < s.len() && s[pos] == 34 {
        spec_parse_bytes_body(s, pos + 1, Seq::<u8>::empty())
    } else {
        None
    }
}

/// Splitting a byte's escape off the front of an encoded string body.
proof fn lemma_bytes_body_first(v: Seq<u8>)
    requires
        v.len() >= 1,
    ensures
        spec_enc_bytes_body(v) == spec_esc(v[0]) + spec_enc_bytes_body(v.drop_first()),
    decreases v.len(),
{
    if v.len() == 1 {
        assert(v.drop_last() =~= Seq::<u8>::empty());
        assert(v.drop_first() =~= Seq::<u8>::empty());
        assert(spec_enc_bytes_body(v) =~= spec_esc(v[0]) + spec_enc_bytes_body(v.drop_first()));
    } else {
        let t = v.drop_last();
        lemma_bytes_body_first(t);
        assert(t[0] == v[0]);
        assert(t.drop_first() =~= v.drop_first().drop_last());
        assert(v.drop_first().last() == v.last());
        assert(spec_enc_bytes_body(v.drop_first()) == spec_enc_bytes_body(
            v.drop_first().drop_last(),
        ) + spec_esc(v.drop_first().last()));
        assert(spec_enc_bytes_body(v) =~= spec_esc(v[0]) + spec_enc_bytes_body(v.drop_first()));
    }
}

proof fn lemma_parse_enc_bytes_body(s: Seq<u8>, pos: int, acc: Seq<u8>, v: Seq<u8>)
    requires
        0 <= pos,
        pos + spec_enc_bytes_body(v).len() + 1 <= s.len(),
        s.subrange(pos, pos + spec_enc_bytes_body(v).len() + 1) == spec_enc_bytes_body(v)
            + seq![34u8],
    ensures
        spec_parse_bytes_body(s, pos, acc) == Some(
            (acc + v, pos + spec_enc_bytes_body(v).len() + 1),
        ),
    decreases v.len(),
{
    if v.len() == 0 {
        assert(spec_enc_bytes_body(v) =~= Seq::<u8>::empty());
        assert(s[pos] == 34) by {
            assert(s.subrange(pos, pos + 1)[0] == s[pos]);
            assert((spec_enc_bytes_body(v) + seq![34u8])[0] == 34);
        }
        assert(acc + v =~= acc);
    } else {
        lemma_bytes_body_first(v);
        let e = spec_esc(v[0]);
        let rest = spec_enc_bytes_body(v.drop_first());
        assert(spec_enc_bytes_body(v) + seq![34u8] =~= e + (rest + seq![34u8]));
        lemma_split_prefix(s, pos, e, rest + seq![34u8]);
        assert forall|i: int| 0 <= i < e.len() implies s[pos + i] == e[i] by {
            assert(s.subrange(pos, pos + e.len())[i] == s[pos + i]);
        }
        let b = v[0];
        if b == 34 || b == 92 {
            assert(e[0] == 92 && e[1] == b);
            assert(s[pos] == 92 && s[pos + 1] == b);
            lemma_parse_enc_bytes_body(s, pos + 2, acc.push(b), v.drop_first());
            assert(acc.push(b) + v.drop_first() =~= acc + v);
        } else if b < 32 {
            assert(e[0] == 92 && e[1] == 117 && e[2] == 48 && e[3] == 48);
            assert(e[4] == spec_hex_digit(b / 16) && e[5] == spec_hex_digit(b % 16));
            assert(b / 16 == 0 || b / 16 == 1);
            assert(s[pos + 4] == 48 || s[pos + 4] == 49);
            assert(is_hex_lower(s[pos + 5]));
            assert(spec_unhex(spec_hex_digit(b / 16)) == b / 16);
            assert(spec_unhex(spec_hex_digit(b % 16)) == b % 16);
            assert((b / 16) * 16 + b % 16 == b) by (nonlinear_arith);
            assert((spec_unhex(s[pos + 4]) * 16 + spec_unhex(s[pos + 5])) as u8 == b);
            lemma_parse_enc_bytes_body(s, pos + 6, acc.push(b), v.drop_first());
            assert(acc.push(b) + v.drop_first() =~= acc + v);
        } else {
            assert(e[0] == b);
            assert(s[pos] == b);
            lemma_parse_enc_bytes_body(s, pos + 1, acc.push(b), v.drop_first());
            assert(acc.push(b) + v.drop_first() =~= acc + v);
        }
    }
}

/// Parsing right after an encoded byte string gives the bytes back.
pub proof fn lemma_parse_enc_bytes(s: Seq<u8>, pos: int, v: Seq<u8>)
    requires
        0 <= pos,
        pos + spec_enc_bytes(v).len() <= s.len(),
        s.subrange(pos, pos + spec_enc_bytes(v).len()) == spec_enc_bytes(v),
    ensures
        spec_parse_bytes(s, pos) == Some((v, pos + spec_enc_bytes(v).len())),
        pos < pos + spec_enc_bytes(v).len(),
{
    let whole = spec_enc_bytes(v);
    assert(whole =~= seq![34u8] + (spec_enc_bytes_body(v) + seq![34u8]));
    lemma_split_prefix(s, pos, seq![34u8], spec_enc_bytes_body(v) + seq![34u8]);
    assert(s[pos] == 34) by {
        assert(s.subrange(pos, pos + 1)[0] == s[pos]);
    }
    lemma_parse_enc_bytes_body(s, pos + 1, Seq::<u8>::empty(), v);
    assert(Seq::<u8>::empty() + v =~= v);
}

/// A parsed string body is sound: it extends the accumulator and
/// consumed exactly the escaping of the new bytes plus the closing
/// quote.
proof fn lemma_parse_bytes_body_sound(s: Seq<u8>, pos: int, acc: Seq<u8>)
    requires
        0 <= pos <= s.len(),
    ensures
        match spec_parse_bytes_body(s, pos, acc) {
            Some((res, p)) => {
                &&& pos < p <= s.len()
                &&& res.len() >= acc.len()
                &&& res.take(acc.len() as int) == acc
                &&& s.subrange(pos, p) == spec_enc_bytes_body(res.skip(acc.len() as int))
                    + seq![34u8]
            },
            None => true,
        },
    decreases s.len() - pos,
{
    if pos >= s.len() {
    } else if s[pos] == 34 {
        assert(spec_enc_bytes_body(acc.skip(acc.len() as int)) =~= Seq::<u8>::empty());
        assert(acc.take(acc.len() as int) =~= acc);
        assert(s.subrange(pos, pos + 1) =~= Seq::<u8>::empty() + seq![34u8]);
    } else if s[pos] == 92 {
        if pos + 2 <= s.len() && (s[pos + 1] == 34 || s[pos + 1] == 92) {
            let b = s[pos + 1];
            lemma_parse_bytes_body_sound(s, pos + 2, acc.push(b));
            match spec_parse_bytes_body(s, pos + 2, acc.push(b)) {
                None => {},
                Some((res, p)) => {
                    assert(s.subrange(pos, pos + 2) =~= spec_esc(b));
                    lemma_sound_step(s, pos, pos + 2, p, acc, b, res);
                },
            }
        } else if pos + 6 <= s.len() && s[pos + 1] == 117 && s[pos + 2] == 48 && s[pos + 3] == 48
            && (s[pos + 4] == 48 || s[pos + 4] == 49) && is_hex_lower(s[pos + 5]) {
            let b = (spec_unhex(s[pos + 4]) * 16 + spec_unhex(s[pos + 5])) as u8;
            lemma_parse_bytes_body_sound(s, pos + 6, acc.push(b));
            match spec_parse_bytes_body(s, pos + 6, acc.push(b)) {
                None => {},
                Some((res, p)) => {
                    let hi = spec_unhex(s[pos + 4]);
                    let lo = spec_unhex(s[pos + 5]);
                    assert(hi <= 1 && lo <= 15);
                    assert(b == hi * 16 + lo);
                    assert(b < 32);
                    assert(b / 16 == hi && b % 16 == lo) by (nonlinear_arith)
                        requires
                            b == hi * 16 + lo,
                            0 <= lo < 16,
                            0 <= hi,
                    ;
                    assert(spec_hex_digit(b / 16) == s[pos + 4]);
                    assert(spec_hex_digit(b % 16) == s[pos + 5]);
                    assert(s.subrange(pos, pos + 6) =~= spec_esc(b));
                    lemma_sound_step(s, pos, pos + 6, p, acc, b, res);
                },
            }
        }
    } else if s[pos] >= 32 {
        let b = s[pos];
        lemma_parse_bytes_body_sound(s, pos + 1, acc.push(b));
        match spec_parse_bytes_body(s, pos + 1, acc.push(b)) {
            None => {},
            Some((res, p)) => {
                assert(s.subrange(pos, pos + 1) =~= spec_esc(b));
                lemma_sound_step(s, pos, pos + 1, p, acc, b, res);
            },
        }
    }
}

/// One step of the string-body soundness argument: given the recursive
/// facts about the rest, the consumed range is the escape of the next
/// byte followed by the rest's range.
proof fn lemma_sound_step(
    s: Seq<u8>,
    pos: int,
    mid: int,
    p: int,
    acc: Seq<u8>,
    b: u8,
    res: Seq<u8>,
)
    requires
        0 <= pos <= mid <= p <= s.len(),
        res.len() >= acc.len() + 1,
        res.take(acc.len() + 1 as int) == acc.push(b),
        s.subrange(mid, p) == spec_enc_bytes_body(res.skip(acc.len() + 1 as int)) + seq![34u8],
        s.subrange(pos, mid) == spec_esc(b),
    ensures
        res.take(acc.len() as int) == acc,
        s.subrange(pos, p) == spec_enc_bytes_body(res.skip(acc.len() as int)) + seq![34u8],
{
    assert(res.take(acc.len() as int) =~= acc) by {
        assert forall|i: int| 0 <= i < acc.len() implies res.take(acc.len() as int)[i]
            == acc[i] by {
            assert(res.take(acc.len() + 1 as int)[i] == acc.push(b)[i]);
        }
    }
    let tail = res.skip(acc.len() as int);
    assert(tail.len() >= 1);
    assert(res[acc.len() as int] == b) by {
        assert(acc.push(b)[acc.len() as int] == b);
        assert(res.take(acc.len() + 1 as int)[acc.len() as int] == res[acc.len() as int]);
        assert(res.take(acc.len() + 1 as int) == acc.push(b));
    }
    assert(tail[0] == res[acc.len() as int]);
    assert(tail.drop_first() =~= res.skip(acc.len() + 1 as int));
    lemma_bytes_body_first(tail);
    lemma_subrange_join(s, pos, mid, p);
    assert(s.subrange(pos, p) =~= spec_enc_bytes_body(tail) + seq![34u8]);
}

/// A parsed byte string is sound: exactly its encoding was consumed.
pub proof fn lemma_parse_bytes_sound(s: Seq<u8>, pos: int)
    requires
        0 <= pos <= s.len(),
    ensures
        match spec_parse_bytes(s, pos) {
            Some((v, p)) => pos < p <= s.len() && s.subrange(pos, p) == spec_enc_bytes(v),
            None => true,
        },
{
    if 0 <= pos && pos < s.len() && s[pos] == 34 {
        lemma_parse_bytes_body_sound(s, pos + 1, Seq::<u8>::empty());
        match spec_parse_bytes_body(s, pos + 1, Seq::<u8>::empty()) {
            None => {},
            Some((res, p)) => {
                assert(res.skip(0) =~= res);
                lemma_subrange_join(s, pos, pos + 1, p);
                assert(s.subrange(pos, pos + 1) =~= seq![34u8]);
                assert(s.subrange(pos, p) =~= spec_enc_bytes(res));
            },
        }
    }
}

/// A list of same-shape encoded pieces, comma separated.
pub open spec fn spec_join_items(pieces: Seq<Seq<u8>>) -> Seq<u8>
    decreases pieces.len(),
{
    if pieces.len() == 0 {
        Seq::<u8>::empty()
    } else if pieces.len() == 1 {
        pieces[0]
    } else {
        pieces[0] + seq![44u8] + spec_join_items(pieces.drop_first())
    }
}

/// A bracketed, comma-separated list of encoded pieces.
pub open spec fn spec_enc_list_of(pieces: Seq<Seq<u8>>) -> Seq<u8> {
    seq![91u8] + spec_join_items(pieces) + seq![93u8]
}

/// Splitting a piece off the back of a joined list.
proof fn lemma_join_push(pieces: Seq<Seq<u8>>, e: Seq<u8>)
    ensures
        spec_join_items(pieces.push(e)) == if pieces.len() == 0 {
            e
        } else {
            spec_join_items(pieces) + seq![44u8] + e
        },
    decreases pieces.len(),
{
    let t = pieces.push(e);
    if pieces.len() == 0 {
        assert(t.len() == 1);
        assert(t[0] == e);
    } else {
        assert(t[0] == pieces[0]);
        assert(t.drop_first() =~= pieces.drop_first().push(e));
        lemma_join_push(pieces.drop_first(), e);
        if pieces.len() == 1 {
            assert(spec_join_items(t) == pieces[0] + seq![44u8] + e);
            assert(spec_join_items(pieces) == pieces[0]);
        } else {
            assert(spec_join_items(t) =~= spec_join_items(pieces) + seq![44u8] + e) by {
                assert(spec_join_items(t) == t[0] + seq![44u8] + spec_join_items(
                    t.drop_first(),
                ));
                assert(spec_join_items(pieces.drop_first().push(e)) == spec_join_items(
                    pieces.drop_first(),
                ) + seq![44u8] + e);
                assert(spec_join_items(pieces) == pieces[0] + seq![44u8] + spec_join_items(
                    pieces.drop_first(),
                ));
            }
        }
    }
}

/// The encodings of a sequence of card stacks.
pub open spec fn spec_stack_pieces(vs: Seq<Seq<Card>>) -> Seq<Seq<u8>> {
    vs.map_values(|stack: Seq<Card>| spec_enc_card_list(stack))
}

/// A list of card stacks, as for `bottom_cards`.
pub open spec fn spec_enc_stacks(vs: Seq<Seq<Card>>) -> Seq<u8> {
    spec_enc_list_of(spec_stack_pieces(vs))
}

fn enc_stacks_into(vs: &Vec<Vec<Card>>, out: &mut Vec<u8>)
    ensures
        final(out)@ == old(out)@ + spec_enc_stacks(views_of(vs@)),
{
    out.push(91);
    proof {
        assert(spec_stack_pieces(views_of(vs@).take(0)) =~= Seq::<Seq<u8>>::empty());
        assert(out@ =~= old(out)@ + seq![91u8] + spec_join_items(
            spec_stack_pieces(views_of(vs@).take(0)),
        ));
    }
    let mut i: usize = 0;
    while i < vs.len()
        invariant
            i <= vs@.len(),
            out@ == old(out)@ + seq![91u8] + spec_join_items(
                spec_stack_pieces(views_of(vs@).take(i as int)),
            ),
        decreases vs@.len() - i,
    {
        if i > 0 {
            out.push(44);
        }
        enc_card_list_into(&vs[i], out);
        proof {
            let pcs = spec_stack_pieces(views_of(vs@).take(i as int));
            assert(spec_stack_pieces(views_of(vs@).take(i + 1)) =~= pcs.push(
                spec_enc_card_list(vs@[i as int]@),
            ));
            lemma_join_push(pcs, spec_enc_card_list(vs@[i as int]@));
            if i > 0 {
                assert(pcs.len() != 0);
                assert(out@ =~= old(out)@ + seq![91u8] + spec_join_items(
                    spec_stack_pieces(views_of(vs@).take(i + 1)),
                ));
            } else {
                assert(out@ =~= old(out)@ + seq![91u8] + spec_join_items(
                    spec_stack_pieces(views_of(vs@).take(i + 1)),
                ));
            }
        }
        i = i + 1;
    }
    out.push(93);
    proof {
        assert(views_of(vs@).take(views_of(vs@).len() as int) =~= views_of(vs@));
        assert(out@ =~= old(out)@ + spec_enc_stacks(views_of(vs@)));
    }
}

fn build_owner_prefix() -> (v: Vec<u8>)
    ensures
        v@ == lit_owner_prefix(),
{
    let mut v: Vec<u8> = Vec::new();
    v.push(123);
    v.push('"' as u8);
    v.push('o' as u8);
    v.push('w' as u8);
    v.push('n' as u8);
    v.push('e' as u8);
    v.push('r' as u8);
    v.push('_' as u8);
    v.push('i' as u8);
    v.push('d' as u8);
    v.push('"' as u8);
    v.push(':' as u8);
    proof {
        assert(v@ =~= lit_owner_prefix());
    }
    v
}

fn build_hand_mid() -> (v: Vec<u8>)
    ensures
        v@ == lit_hand_mid(),
{
    let mut v: Vec<u8> = Vec::new();
    v.push(',' as u8);
    v.push('"' as u8);
    v.push('h' as u8);
    v.push('a' as u8);
    v.push('n' as u8);
    v.push('d' as u8);
    v.push('"' as u8);
    v.push(':' as u8);
    proof {
        assert(v@ =~= lit_hand_mid());
    }
    v
}

fn build_bottom_cards_mid() -> (v: Vec<u8>)
    ensures
        v@ == lit_bottom_cards_mid(),
{
    let mut v: Vec<u8> = Vec::new();
    v.push(',' as u8);
    v.push('"' as u8);
    v.push('b' as u8);
    v.push('o' as u8);
    v.push('t' as u8);
    v.push('t' as u8);
    v.push('o' as u8);
    v.push('m' as u8);
    v.push('_' as u8);
    v.push('c' as u8);
    v.push('a' as u8);
    v.push('r' as u8);
    v.push('d' as u8);
    v.push('s' as u8);
    v.push('"' as u8);
    v.push(':' as u8);
    proof {
        assert(v@ =~= lit_bottom_cards_mid());
    }
    v
}

/// One participant's disclosed cards on the wire.
pub open spec fn spec_enc_cards(owner: Seq<u8>, hand: Seq<Card>, bottom: Seq<Seq<Card>>) -> Seq<
    u8,
> {
    lit_owner_prefix() + spec_enc_bytes(owner) + lit_hand_mid() + spec_enc_card_list(hand)
        + lit_bottom_cards_mid() + spec_enc_stacks(bottom) + seq![125u8]
}

pub fn encode_cards(c: &Cards) -> (r: Vec<u8>)
    ensures
        r@ == spec_enc_cards(c.owner_id@, c.hand@, views_of(c.bottom_cards@)),
{
    let mut out: Vec<u8> = Vec::new();
    let l1 = build_owner_prefix();
    push_lit(&mut out, &l1);
    enc_bytes_into(&c.owner_id, &mut out);
    let l2 = build_hand_mid();
    push_lit(&mut out, &l2);
    enc_card_list_into(&c.hand, &mut out);
    let l3 = build_bottom_cards_mid();
    push_lit(&mut out, &l3);
    enc_stacks_into(&c.bottom_cards, &mut out);
    out.push(125);
    proof {
        assert(out@ =~= spec_enc_cards(c.owner_id@, c.hand@, views_of(c.bottom_cards@)));
    }
    out
}

pub open spec fn spec_parse_cards_msg(s: Seq<u8>, pos: int) -> Option<
    ((Seq<u8>, Seq<Card>, Seq<Seq<Card>>), int),
> {
    match spec_parse_lit(s, pos, lit_owner_prefix()) {
        None => None,
        Some(p1) => match spec_parse_bytes(s, p1) {
            None => None,
            Some((owner, p2)) => match spec_parse_lit(s, p2, lit_hand_mid()) {
                None => None,
                Some(p3) => match spec_parse_card_list(s, p3) {
                    None => None,
                    Some((hand, p4)) => match spec_parse_lit(s, p4, lit_bottom_cards_mid()) {
                        None => None,
                        Some(p5) => match spec_parse_stacks(s, p5) {
                            None => None,
                            Some((bottom, p6)) => match spec_parse_lit(s, p6, seq![125u8]) {
                                None => None,
                                Some(p7) => Some(((owner, hand, bottom), p7)),
                            },
                        },
                    },
                },
            },
        },
    }
}

#[verifier::rlimit(100)]
pub proof fn lemma_parse_enc_cards(
    s: Seq<u8>,
    pos: int,
    owner: Seq<u8>,
    hand: Seq<Card>,
    bottom: Seq<Seq<Card>>,
)
    requires
        0 <= pos,
        pos + spec_enc_cards(owner, hand, bottom).len() <= s.len(),
        s.subrange(pos, pos + spec_enc_cards(owner, hand, bottom).len()) == spec_enc_cards(
            owner,
            hand,
            bottom,
        ),
    ensures
        spec_parse_cards_msg(s, pos) == Some(
            ((owner, hand, bottom), pos + spec_enc_cards(owner, hand, bottom).len()),
        ),
        pos < pos + spec_enc_cards(owner, hand, bottom).len(),
{
    let e1 = lit_owner_prefix();
    let e2 = spec_enc_bytes(owner);
    let e3 = lit_hand_mid();
    let e4 = spec_enc_card_list(hand);
    let e5 = lit_bottom_cards_mid();
    let e6 = spec_enc_stacks(bottom);
    let e7 = seq![125u8];
    assert(spec_enc_cards(owner, hand, bottom) =~= e1 + (e2 + (e3 + (e4 + (e5 + (e6
        + e7))))));
    lemma_split_prefix(s, pos, e1, e2 + (e3 + (e4 + (e5 + (e6 + e7)))));
    let p1 = pos + e1.len();
    lemma_split_prefix(s, p1, e2, e3 + (e4 + (e5 + (e6 + e7))));
    let p2 = p1 + e2.len();
    lemma_split_prefix(s, p2, e3, e4 + (e5 + (e6 + e7)));
    let p3 = p2 + e3.len();
    lemma_split_prefix(s, p3, e4, e5 + (e6 + e7));
    let p4 = p3 + e4.len();
    lemma_split_prefix(s, p4, e5, e6 + e7);
    let p5 = p4 + e5.len();
    lemma_split_prefix(s, p5, e6, e7);
    let p6 = p5 + e6.len();
    assert(spec_parse_lit(s, pos, e1) == Some(p1));
    lemma_parse_enc_bytes(s, p1, owner);
    assert(spec_parse_lit(s, p2, e3) == Some(p3));
    lemma_parse_enc_card_list(s, p3, hand);
    assert(spec_parse_lit(s, p4, e5) == Some(p5));
    lemma_parse_enc_stacks(s, p5, bottom);
    assert(spec_parse_lit(s, p6, e7) == Some(p6 + 1));
}

/// A whole message holding one participant's disclosed cards.
pub open spec fn spec_decode_cards(s: Seq<u8>) -> Option<(Seq<u8>, Seq<Card>, Seq<Seq<Card>>)> {
    match spec_parse_cards_msg(s, 0) {
        Some((c, p)) => if p == s.len() {
            Some(c)
        } else {
            None
        },
        None => None,
    }
}

/// Decoding an encoded cards snapshot yields it back.
pub proof fn lemma_cards_round_trip(owner: Seq<u8>, hand: Seq<Card>, bottom: Seq<Seq<Card>>)
    ensures
        spec_decode_cards(spec_enc_cards(owner, hand, bottom)) == Some((owner, hand, bottom)),
{
    let e = spec_enc_cards(owner, hand, bottom);
    assert(e.subrange(0, e.len() as int) =~= e);
    lemma_parse_enc_cards(e, 0, owner, hand, bottom);
}

/// The triple views of a sequence of cards snapshots.
pub open spec fn cards_triples(s: Seq<Cards>) -> Seq<(Seq<u8>, Seq<Card>, Seq<Seq<Card>>)> {
    s.map_values(|c: Cards| (c.owner_id@, c.hand@, views_of(c.bottom_cards@)))
}

/// The encodings of a sequence of cards snapshots.
pub open spec fn spec_cards_pieces(ts: Seq<(Seq<u8>, Seq<Card>, Seq<Seq<Card>>)>) -> Seq<
    Seq<u8>,
> {
    ts.map_values(|t: (Seq<u8>, Seq<Card>, Seq<Seq<Card>>)| spec_enc_cards(t.0, t.1, t.2))
}

/// The setup-boundary broadcast: every participant's snapshot, as one
/// bracketed, comma-separated list.
pub fn encode_cards_list(cs: &Vec<Cards>) -> (r: Vec<u8>)
    ensures
        r@ == spec_enc_list_of(spec_cards_pieces(cards_triples(cs@))),
{
    let mut out: Vec<u8> = Vec::new();
    out.push(91);
    proof {
        assert(spec_cards_pieces(cards_triples(cs@.take(0))) =~= Seq::<Seq<u8>>::empty());
        assert(out@ =~= seq![91u8] + spec_join_items(
            spec_cards_pieces(cards_triples(cs@.take(0))),
        ));
    }
    let mut i: usize = 0;
    while i < cs.len()
        invariant
            i <= cs@.len(),
            out@ == seq![91u8] + spec_join_items(spec_cards_pieces(cards_triples(cs@.take(
                i as int,
            )))),
        decreases cs@.len() - i,
    {
        if i > 0 {
            out.push(44);
        }
        let piece = encode_cards(&cs[i]);
        push_lit(&mut out, &piece);
        proof {
            let pcs = spec_cards_pieces(cards_triples(cs@.take(i as int)));
            let e = spec_enc_cards(
                cs@[i as int].owner_id@,
                cs@[i as int].hand@,
                views_of(cs@[i as int].bottom_cards@),
            );
            assert(spec_cards_pieces(cards_triples(cs@.take(i + 1))) =~= pcs.push(e));
            lemma_join_push(pcs, e);
            assert(out@ =~= seq![91u8] + spec_join_items(
                spec_cards_pieces(cards_triples(cs@.take(i + 1))),
            ));
        }
        i = i + 1;
    }
    out.push(93);
    proof {
        assert(cs@.take(cs@.len() as int) =~= cs@);
        assert(out@ =~= spec_enc_list_of(spec_cards_pieces(cards_triples(cs@))));
    }
    out
}

/// The byte views of a sequence of ids.
pub open spec fn byte_views(s: Seq<Vec<u8>>) -> Seq<Seq<u8>> {
    s.map_values(|v: Vec<u8>| v@)
}

/// The encodings of a sequence of ids.
pub open spec fn spec_id_pieces(ids: Seq<Seq<u8>>) -> Seq<Seq<u8>> {
    ids.map_values(|id: Seq<u8>| spec_enc_bytes(id))
}

fn enc_id_list_into(ids: &Vec<Vec<u8>>, out: &mut Vec<u8>)
    ensures
        final(out)@ == old(out)@ + spec_enc_list_of(spec_id_pieces(byte_views(ids@))),
{
    out.push(91);
    proof {
        assert(spec_id_pieces(byte_views(ids@).take(0)) =~= Seq::<Seq<u8>>::empty());
        assert(out@ =~= old(out)@ + seq![91u8] + spec_join_items(
            spec_id_pieces(byte_views(ids@).take(0)),
        ));
    }
    let mut i: usize = 0;
    while i < ids.len()
        invariant
            i <= ids@.len(),
            out@ == old(out)@ + seq![91u8] + spec_join_items(
                spec_id_pieces(byte_views(ids@).take(i as int)),
            ),
        decreases ids@.len() - i,
    {
        if i > 0 {
            out.push(44);
        }
        enc_bytes_into(&ids[i], out);
        proof {
            let pcs = spec_id_pieces(byte_views(ids@).take(i as int));
            assert(spec_id_pieces(byte_views(ids@).take(i + 1)) =~= pcs.push(
                spec_enc_bytes(ids@[i as int]@),
            ));
            lemma_join_push(pcs, spec_enc_bytes(ids@[i as int]@));
            assert(out@ =~= old(out)@ + seq![91u8] + spec_join_items(
                spec_id_pieces(byte_views(ids@).take(i + 1)),
            ));
        }
        i = i + 1;
    }
    out.push(93);
    proof {
        assert(byte_views(ids@).take(byte_views(ids@).len() as int) =~= byte_views(ids@));
        assert(out@ =~= old(out)@ + spec_enc_list_of(spec_id_pieces(byte_views(ids@))));
    }
}

fn build_game_start_prefix() -> (v: Vec<u8>)
    ensures
        v@ == lit_game_start_prefix(),
{
    let mut v: Vec<u8> = Vec::new();
    v.push(123);
    v.push('"' as u8);
    v.push('G' as u8);
    v.push('a' as u8);
    v.push('m' as u8);
    v.push('e' as u8);
    v.push('S' as u8);
    v.push('t' as u8);
    v.push('a' as u8);
    v.push('r' as u8);
    v.push('t' as u8);
    v.push('"' as u8);
    v.push(':' as u8);
    proof {
        assert(v@ =~= lit_game_start_prefix());
    }
    v
}

fn build_id_prefix() -> (v: Vec<u8>)
    ensures
        v@ == lit_id_prefix(),
{
    let mut v: Vec<u8> = Vec::new();
    v.push(123);
    v.push('"' as u8);
    v.push('I' as u8);
    v.push('d' as u8);
    v.push('"' as u8);
    v.push(':' as u8);
    proof {
        assert(v@ =~= lit_id_prefix());
    }
    v
}

/// The spec-level shape of a notification, over sequences.
pub enum NotificationModel {
    Start(Seq<Seq<u8>>),
    Ident(Seq<u8>),
}

/// The model of an executable notification.
pub open spec fn notification_model(n: ServerNotification) -> NotificationModel {
    match n {
        ServerNotification::GameStart(ids) => NotificationModel::Start(byte_views(ids@)),
        ServerNotification::Id(id) => NotificationModel::Ident(id@),
    }
}

pub open spec fn spec_enc_notification_model(m: NotificationModel) -> Seq<u8> {
    match m {
        NotificationModel::Start(ids) => lit_game_start_prefix() + spec_enc_list_of(
            spec_id_pieces(ids),
        ) + seq![125u8],
        NotificationModel::Ident(id) => lit_id_prefix() + spec_enc_bytes(id) + seq![125u8],
    }
}

/// A match-start or id notice on the wire.
pub open spec fn spec_enc_notification(n: ServerNotification) -> Seq<u8> {
    spec_enc_notification_model(notification_model(n))
}

pub open spec fn spec_parse_notification(s: Seq<u8>, pos: int) -> Option<
    (NotificationModel, int),
> {
    if spec_parse_lit(s, pos, lit_game_start_prefix()) is Some {
        let p1 = pos + lit_game_start_prefix().len();
        match spec_parse_id_list(s, p1) {
            None => None,
            Some((ids, p2)) => match spec_parse_lit(s, p2, seq![125u8]) {
                None => None,
                Some(p3) => Some((NotificationModel::Start(ids), p3)),
            },
        }
    } else if spec_parse_lit(s, pos, lit_id_prefix()) is Some {
        let p1 = pos + lit_id_prefix().len();
        match spec_parse_bytes(s, p1) {
            None => None,
            Some((id, p2)) => match spec_parse_lit(s, p2, seq![125u8]) {
                None => None,
                Some(p3) => Some((NotificationModel::Ident(id), p3)),
            },
        }
    } else {
        None
    }
}

pub proof fn lemma_parse_enc_notification(s: Seq<u8>, pos: int, m: NotificationModel)
    requires
        0 <= pos,
        pos + spec_enc_notification_model(m).len() <= s.len(),
        s.subrange(pos, pos + spec_enc_notification_model(m).len()) == spec_enc_notification_model(
            m,
        ),
    ensures
        spec_parse_notification(s, pos) == Some((m, pos + spec_enc_notification_model(m).len())),
{
    let whole = spec_enc_notification_model(m);
    match m {
        NotificationModel::Start(ids) => {
            let e0 = lit_game_start_prefix();
            let e1 = spec_enc_list_of(spec_id_pieces(ids));
            assert(whole =~= e0 + (e1 + seq![125u8]));
            lemma_split_prefix(s, pos, e0, e1 + seq![125u8]);
            let p1 = pos + e0.len();
            lemma_split_prefix(s, p1, e1, seq![125u8]);
            assert(spec_parse_lit(s, pos, e0) == Some(p1));
            lemma_parse_enc_id_list(s, p1, ids);
            let p2 = p1 + e1.len();
            assert(s.subrange(p2, p2 + 1) == seq![125u8]);
            assert(spec_parse_lit(s, p2, seq![125u8]) == Some(p2 + 1));
        },
        NotificationModel::Ident(id) => {
            let e0 = lit_id_prefix();
            let e1 = spec_enc_bytes(id);
            assert(whole =~= e0 + (e1 + seq![125u8]));
            lemma_split_prefix(s, pos, e0, e1 + seq![125u8]);
            let p1 = pos + e0.len();
            lemma_split_prefix(s, p1, e1, seq![125u8]);
            assert(whole[2] == 'I' as u8);
            assert(s[pos + 2] == whole[2]) by {
                assert(s.subrange(pos, pos + whole.len())[2] == s[pos + 2]);
            }
            if pos + lit_game_start_prefix().len() <= s.len() {
                assert(s.subrange(pos, pos + lit_game_start_prefix().len())[2] == s[pos + 2]);
                assert(s.subrange(pos, pos + lit_game_start_prefix().len())
                    != lit_game_start_prefix());
            }
            assert(spec_parse_lit(s, pos, lit_game_start_prefix()) is None);
            assert(spec_parse_lit(s, pos, e0) == Some(p1));
            lemma_parse_enc_bytes(s, p1, id);
            let p2 = p1 + e1.len();
            assert(s.subrange(p2, p2 + 1) == seq![125u8]);
            assert(spec_parse_lit(s, p2, seq![125u8]) == Some(p2 + 1));
        },
    }
}

/// A whole notification message.
pub open spec fn spec_decode_notification(s: Seq<u8>) -> Option<NotificationModel> {
    match spec_parse_notification(s, 0) {
        Some((m, p)) => if p == s.len() {
            Some(m)
        } else {
            None
        },
        None => None,
    }
}

/// Decoding an encoded notification yields it back.
pub proof fn lemma_notification_round_trip(m: NotificationModel)
    ensures
        spec_decode_notification(spec_enc_notification_model(m)) == Some(m),
{
    let e = spec_enc_notification_model(m);
    assert(e.subrange(0, e.len() as int) =~= e);
    lemma_parse_enc_notification(e, 0, m);
}

pub fn encode_notification(n: &ServerNotification) -> (r: Vec<u8>)
    ensures
        r@ == spec_enc_notification(*n),
{
    match n {
        ServerNotification::GameStart(ids) => {
            let mut out: Vec<u8> = Vec::new();
            let l = build_game_start_prefix();
            push_lit(&mut out, &l);
            enc_id_list_into(ids, &mut out);
            out.push(125);
            proof {
                assert(out@ =~= spec_enc_notification(*n));
            }
            out
        },
        ServerNotification::Id(id) => {
            let mut out: Vec<u8> = Vec::new();
            let l = build_id_prefix();
            push_lit(&mut out, &l);
            enc_bytes_into(id, &mut out);
            out.push(125);
            proof {
                assert(out@ =~= spec_enc_notification(*n));
            }
            out
        },
    }
}

fn build_turn_prefix() -> (v: Vec<u8>)
    ensures
        v@ == lit_turn_prefix(),
{
    let mut v: Vec<u8> = Vec::new();
    v.push(123);
    v.push('"' as u8);
    v.push('t' as u8);
    v.push('u' as u8);
    v.push('r' as u8);
    v.push('n' as u8);
    v.push('"' as u8);
    v.push(':' as u8);
    proof {
        assert(v@ =~= lit_turn_prefix());
    }
    v
}

fn build_stage_mid() -> (v: Vec<u8>)
    ensures
        v@ == lit_stage_mid(),
{
    let mut v: Vec<u8> = Vec::new();
    v.push(',' as u8);
    v.push('"' as u8);
    v.push('s' as u8);
    v.push('t' as u8);
    v.push('a' as u8);
    v.push('g' as u8);
    v.push('e' as u8);
    v.push('"' as u8);
    v.push(':' as u8);
    proof {
        assert(v@ =~= lit_stage_mid());
    }
    v
}

fn build_cards_mid() -> (v: Vec<u8>)
    ensures
        v@ == lit_cards_mid(),
{
    let mut v: Vec<u8> = Vec::new();
    v.push(',' as u8);
    v.push('"' as u8);
    v.push('c' as u8);
    v.push('a' as u8);
    v.push('r' as u8);
    v.push('d' as u8);
    v.push('s' as u8);
    v.push('"' as u8);
    v.push(':' as u8);
    proof {
        assert(v@ =~= lit_cards_mid());
    }
    v
}

fn build_stack_mid() -> (v: Vec<u8>)
    ensures
        v@ == lit_stack_mid(),
{
    let mut v: Vec<u8> = Vec::new();
    v.push(',' as u8);
    v.push('"' as u8);
    v.push('s' as u8);
    v.push('t' as u8);
    v.push('a' as u8);
    v.push('c' as u8);
    v.push('k' as u8);
    v.push('"' as u8);
    v.push(':' as u8);
    proof {
        assert(v@ =~= lit_stack_mid());
    }
    v
}

fn build_other_players_mid() -> (v: Vec<u8>)
    ensures
        v@ == lit_other_players_mid(),
{
    let mut v: Vec<u8> = Vec::new();
    v.push(',' as u8);
    v.push('"' as u8);
    v.push('o' as u8);
    v.push('t' as u8);
    v.push('h' as u8);
    v.push('e' as u8);
    v.push('r' as u8);
    v.push('_' as u8);
    v.push('p' as u8);
    v.push('l' as u8);
    v.push('a' as u8);
    v.push('y' as u8);
    v.push('e' as u8);
    v.push('r' as u8);
    v.push('s' as u8);
    v.push('"' as u8);
    v.push(':' as u8);
    proof {
        assert(v@ =~= lit_other_players_mid());
    }
    v
}

/// One id-and-piles pair of the `other_players` list, as a two-element
/// array.
pub open spec fn spec_enc_pair(id: Seq<u8>, piles: Seq<Seq<Card>>) -> Seq<u8> {
    seq![91u8] + spec_enc_bytes(id) + seq![44u8] + spec_enc_stacks(piles) + seq![93u8]
}

/// The pair views of the `other_players` entries.
pub open spec fn pair_views(s: Seq<(Vec<u8>, Vec<Vec<Card>>)>) -> Seq<(Seq<u8>, Seq<Seq<Card>>)> {
    s.map_values(|pr: (Vec<u8>, Vec<Vec<Card>>)| (pr.0@, views_of(pr.1@)))
}

/// The encodings of the `other_players` entries.
pub open spec fn spec_pair_pieces(prs: Seq<(Seq<u8>, Seq<Seq<Card>>)>) -> Seq<Seq<u8>> {
    prs.map_values(|pr: (Seq<u8>, Seq<Seq<Card>>)| spec_enc_pair(pr.0, pr.1))
}

fn enc_pair_into(id: &Vec<u8>, piles: &Vec<Vec<Card>>, out: &mut Vec<u8>)
    ensures
        final(out)@ == old(out)@ + spec_enc_pair(id@, views_of(piles@)),
{
    out.push(91);
    enc_bytes_into(id, out);
    out.push(44);
    enc_stacks_into(piles, out);
    out.push(93);
    proof {
        assert(out@ =~= old(out)@ + spec_enc_pair(id@, views_of(piles@)));
    }
}

fn enc_pairs_into(prs: &Vec<(Vec<u8>, Vec<Vec<Card>>)>, out: &mut Vec<u8>)
    ensures
        final(out)@ == old(out)@ + spec_enc_list_of(spec_pair_pieces(pair_views(prs@))),
{
    out.push(91);
    proof {
        assert(spec_pair_pieces(pair_views(prs@).take(0)) =~= Seq::<Seq<u8>>::empty());
        assert(out@ =~= old(out)@ + seq![91u8] + spec_join_items(
            spec_pair_pieces(pair_views(prs@).take(0)),
        ));
    }
    let mut i: usize = 0;
    while i < prs.len()
        invariant
            i <= prs@.len(),
            out@ == old(out)@ + seq![91u8] + spec_join_items(
                spec_pair_pieces(pair_views(prs@).take(i as int)),
            ),
        decreases prs@.len() - i,
    {
        if i > 0 {
            out.push(44);
        }
        enc_pair_into(&prs[i].0, &prs[i].1, out);
        proof {
            let pcs = spec_pair_pieces(pair_views(prs@).take(i as int));
            assert(spec_pair_pieces(pair_views(prs@).take(i + 1)) =~= pcs.push(
                spec_enc_pair(prs@[i as int].0@, views_of(prs@[i as int].1@)),
            ));
            lemma_join_push(pcs, spec_enc_pair(prs@[i as int].0@, views_of(prs@[i as int].1@)));
            assert(out@ =~= old(out)@ + seq![91u8] + spec_join_items(
                spec_pair_pieces(pair_views(prs@).take(i + 1)),
            ));
        }
        i = i + 1;
    }
    out.push(93);
    proof {
        assert(pair_views(prs@).take(pair_views(prs@).len() as int) =~= pair_views(prs@));
        assert(out@ =~= old(out)@ + spec_enc_list_of(spec_pair_pieces(pair_views(prs@))));
    }
}

pub open spec fn spec_parse_stacks_items(s: Seq<u8>, pos: int, acc: Seq<Seq<Card>>) -> Option<
    (Seq<Seq<Card>>, int),
>
    decreases s.len() - pos,
{
    match spec_parse_card_list(s, pos) {
        None => None,
        Some((cs, p)) => if p >= s.len() {
            None
        } else if s[p] == 93 {
            Some((acc.push(cs), p + 1))
        } else if s[p] == 44 && pos < p {
            spec_parse_stacks_items(s, p + 1, acc.push(cs))
        } else {
            None
        },
    }
}

pub open spec fn spec_parse_stacks(s: Seq<u8>, pos: int) -> Option<(Seq<Seq<Card>>, int)> {
    if 0 <= pos && pos < s.len() && s[pos] == 91 {
        if pos + 1 < s.len() && s[pos + 1] == 93 {
            Some((Seq::<Seq<Card>>::empty(), pos + 2))
        } else {
            spec_parse_stacks_items(s, pos + 1, Seq::<Seq<Card>>::empty())
        }
    } else {
        None
    }
}

proof fn lemma_parse_enc_stacks_items(s: Seq<u8>, pos: int, acc: Seq<Seq<Card>>, vs: Seq<
    Seq<Card>,
>)
    requires
        vs.len() >= 1,
        0 <= pos,
        pos + spec_join_items(spec_stack_pieces(vs)).len() + 1 <= s.len(),
        s.subrange(pos, pos + spec_join_items(spec_stack_pieces(vs)).len() + 1)
            == spec_join_items(spec_stack_pieces(vs)) + seq![93u8],
    ensures
        spec_parse_stacks_items(s, pos, acc) == Some(
            (acc + vs, pos + spec_join_items(spec_stack_pieces(vs)).len() + 1),
        ),
    decreases vs.len(),
{
    let pieces = spec_stack_pieces(vs);
    if vs.len() == 1 {
        assert(spec_join_items(pieces) == spec_enc_card_list(vs[0]));
        lemma_split_prefix(s, pos, spec_enc_card_list(vs[0]), seq![93u8]);
        lemma_parse_enc_card_list(s, pos, vs[0]);
        let p = pos + spec_enc_card_list(vs[0]).len();
        assert(s[p] == 93) by {
            assert(s.subrange(p, p + 1)[0] == s[p]);
        }
        assert(acc.push(vs[0]) =~= acc + vs);
    } else {
        let e0 = spec_enc_card_list(vs[0]);
        assert(pieces[0] == e0);
        assert(pieces.drop_first() =~= spec_stack_pieces(vs.drop_first()));
        let rest = spec_join_items(spec_stack_pieces(vs.drop_first()));
        assert(spec_join_items(pieces) + seq![93u8] =~= e0 + (seq![44u8] + (rest
            + seq![93u8])));
        lemma_split_prefix(s, pos, e0, seq![44u8] + (rest + seq![93u8]));
        lemma_parse_enc_card_list(s, pos, vs[0]);
        let p = pos + e0.len();
        lemma_split_prefix(s, p, seq![44u8], rest + seq![93u8]);
        assert(s[p] == 44) by {
            assert(s.subrange(p, p + 1)[0] == s[p]);
        }
        lemma_parse_enc_stacks_items(s, p + 1, acc.push(vs[0]), vs.drop_first());
        assert(acc.push(vs[0]) + vs.drop_first() =~= acc + vs);
        assert(spec_join_items(pieces).len() == e0.len() + 1 + rest.len());
    }
}

pub proof fn lemma_parse_enc_stacks(s: Seq<u8>, pos: int, vs: Seq<Seq<Card>>)
    requires
        0 <= pos,
        pos + spec_enc_stacks(vs).len() <= s.len(),
        s.subrange(pos, pos + spec_enc_stacks(vs).len()) == spec_enc_stacks(vs),
    ensures
        spec_parse_stacks(s, pos) == Some((vs, pos + spec_enc_stacks(vs).len())),
        pos < pos + spec_enc_stacks(vs).len(),
{
    let whole = spec_enc_stacks(vs);
    let items = spec_join_items(spec_stack_pieces(vs));
    assert forall|i: int| 0 <= i < whole.len() implies s[pos + i] == whole[i] by {
        assert(s.subrange(pos, pos + whole.len())[i] == s[pos + i]);
    }
    assert(whole[0] == 91);
    assert(s[pos] == whole[0]);
    if vs.len() == 0 {
        assert(whole =~= seq![91u8, 93u8]);
        assert(whole[1] == 93);
        assert(s[pos + 1] == whole[1]);
    } else {
        assert(whole =~= seq![91u8] + (items + seq![93u8]));
        lemma_split_prefix(s, pos, seq![91u8], items + seq![93u8]);
        assert(items.len() >= 1 && items[0] == 91) by {
            let pieces = spec_stack_pieces(vs);
            assert(pieces[0] == spec_enc_card_list(vs[0]));
            assert(spec_enc_card_list(vs[0])[0] == 91);
            if vs.len() == 1 {
                assert(items == pieces[0]);
            } else {
                assert(items == pieces[0] + seq![44u8] + spec_join_items(pieces.drop_first()));
            }
        }
        assert(whole[1] == items[0]);
        assert(s[pos + 1] == whole[1]);
        assert(s[pos + 1] != 93);
        lemma_parse_enc_stacks_items(s, pos + 1, Seq::<Seq<Card>>::empty(), vs);
        assert(Seq::<Seq<Card>>::empty() + vs =~= vs);
    }
}

pub open spec fn spec_parse_id_items(s: Seq<u8>, pos: int, acc: Seq<Seq<u8>>) -> Option<
    (Seq<Seq<u8>>, int),
>
    decreases s.len() - pos,
{
    match spec_parse_bytes(s, pos) {
        None => None,
        Some((id, p)) => if p >= s.len() {
            None
        } else if s[p] == 93 {
            Some((acc.push(id), p + 1))
        } else if s[p] == 44 && pos < p {
            spec_parse_id_items(s, p + 1, acc.push(id))
        } else {
            None
        },
    }
}

pub open spec fn spec_parse_id_list(s: Seq<u8>, pos: int) -> Option<(Seq<Seq<u8>>, int)> {
    if 0 <= pos && pos < s.len() && s[pos] == 91 {
        if pos + 1 < s.len() && s[pos + 1] == 93 {
            Some((Seq::<Seq<u8>>::empty(), pos + 2))
        } else {
            spec_parse_id_items(s, pos + 1, Seq::<Seq<u8>>::empty())
        }
    } else {
        None
    }
}

proof fn lemma_parse_enc_id_items(s: Seq<u8>, pos: int, acc: Seq<Seq<u8>>, ids: Seq<Seq<u8>>)
    requires
        ids.len() >= 1,
        0 <= pos,
        pos + spec_join_items(spec_id_pieces(ids)).len() + 1 <= s.len(),
        s.subrange(pos, pos + spec_join_items(spec_id_pieces(ids)).len() + 1) == spec_join_items(
            spec_id_pieces(ids),
        ) + seq![93u8],
    ensures
        spec_parse_id_items(s, pos, acc) == Some(
            (acc + ids, pos + spec_join_items(spec_id_pieces(ids)).len() + 1),
        ),
    decreases ids.len(),
{
    let pieces = spec_id_pieces(ids);
    if ids.len() == 1 {
        assert(spec_join_items(pieces) == spec_enc_bytes(ids[0]));
        lemma_split_prefix(s, pos, spec_enc_bytes(ids[0]), seq![93u8]);
        lemma_parse_enc_bytes(s, pos, ids[0]);
        let p = pos + spec_enc_bytes(ids[0]).len();
        assert(s[p] == 93) by {
            assert(s.subrange(p, p + 1)[0] == s[p]);
        }
        assert(acc.push(ids[0]) =~= acc + ids);
    } else {
        let e0 = spec_enc_bytes(ids[0]);
        assert(pieces[0] == e0);
        assert(pieces.drop_first() =~= spec_id_pieces(ids.drop_first()));
        let rest = spec_join_items(spec_id_pieces(ids.drop_first()));
        assert(spec_join_items(pieces) + seq![93u8] =~= e0 + (seq![44u8] + (rest
            + seq![93u8])));
        lemma_split_prefix(s, pos, e0, seq![44u8] + (rest + seq![93u8]));
        lemma_parse_enc_bytes(s, pos, ids[0]);
        let p = pos + e0.len();
        lemma_split_prefix(s, p, seq![44u8], rest + seq![93u8]);
        assert(s[p] == 44) by {
            assert(s.subrange(p, p + 1)[0] == s[p]);
        }
        lemma_parse_enc_id_items(s, p + 1, acc.push(ids[0]), ids.drop_first());
        assert(acc.push(ids[0]) + ids.drop_first() =~= acc + ids);
        assert(spec_join_items(pieces).len() == e0.len() + 1 + rest.len());
    }
}

pub proof fn lemma_parse_enc_id_list(s: Seq<u8>, pos: int, ids: Seq<Seq<u8>>)
    requires
        0 <= pos,
        pos + spec_enc_list_of(spec_id_pieces(ids)).len() <= s.len(),
        s.subrange(pos, pos + spec_enc_list_of(spec_id_pieces(ids)).len()) == spec_enc_list_of(
            spec_id_pieces(ids),
        ),
    ensures
        spec_parse_id_list(s, pos) == Some(
            (ids, pos + spec_enc_list_of(spec_id_pieces(ids)).len()),
        ),
{
    let whole = spec_enc_list_of(spec_id_pieces(ids));
    let items = spec_join_items(spec_id_pieces(ids));
    assert forall|i: int| 0 <= i < whole.len() implies s[pos + i] == whole[i] by {
        assert(s.subrange(pos, pos + whole.len())[i] == s[pos + i]);
    }
    assert(whole[0] == 91);
    assert(s[pos] == whole[0]);
    if ids.len() == 0 {
        assert(whole =~= seq![91u8, 93u8]);
        assert(whole[1] == 93);
        assert(s[pos + 1] == whole[1]);
    } else {
        assert(whole =~= seq![91u8] + (items + seq![93u8]));
        lemma_split_prefix(s, pos, seq![91u8], items + seq![93u8]);
        assert(items.len() >= 1 && items[0] == 34) by {
            let pieces = spec_id_pieces(ids);
            assert(pieces[0] == spec_enc_bytes(ids[0]));
            assert(spec_enc_bytes(ids[0])[0] == 34);
            if ids.len() == 1 {
                assert(items == pieces[0]);
            } else {
                assert(items == pieces[0] + seq![44u8] + spec_join_items(pieces.drop_first()));
            }
        }
        assert(whole[1] == items[0]);
        assert(s[pos + 1] == whole[1]);
        assert(s[pos + 1] != 93);
        lemma_parse_enc_id_items(s, pos + 1, Seq::<Seq<u8>>::empty(), ids);
        assert(Seq::<Seq<u8>>::empty() + ids =~= ids);
    }
}

/// A parsed stack run is sound: it extends the accumulator and consumed
/// exactly the encodings of the new stacks plus the closing bracket.
proof fn lemma_parse_stacks_items_sound(s: Seq<u8>, pos: int, acc: Seq<Seq<Card>>)
    requires
        0 <= pos <= s.len(),
    ensures
        match spec_parse_stacks_items(s, pos, acc) {
            Some((res, p)) => {
                &&& pos < p <= s.len()
                &&& res.len() > acc.len()
                &&& res.take(acc.len() as int) == acc
                &&& s.subrange(pos, p) == spec_join_items(
                    spec_stack_pieces(res.skip(acc.len() as int)),
                ) + seq![93u8]
            },
            None => true,
        },
    decreases s.len() - pos,
{
    match spec_parse_card_list(s, pos) {
        None => {},
        Some((cs, p0)) => {
            lemma_parse_card_list_sound(s, pos);
            if p0 >= s.len() {
            } else if s[p0] == 93 {
                let res = acc.push(cs);
                assert(res.take(acc.len() as int) =~= acc);
                assert(res.skip(acc.len() as int) =~= seq![cs]);
                assert(spec_stack_pieces(seq![cs]).len() == 1);
                assert(spec_stack_pieces(seq![cs])[0] == spec_enc_card_list(cs));
                assert(spec_join_items(spec_stack_pieces(seq![cs])) == spec_enc_card_list(cs));
                assert(s.subrange(p0, p0 + 1) =~= seq![93u8]);
                lemma_subrange_join(s, pos, p0, p0 + 1);
                assert(s.subrange(pos, p0 + 1) =~= spec_join_items(
                    spec_stack_pieces(res.skip(acc.len() as int)),
                ) + seq![93u8]);
            } else if s[p0] == 44 && pos < p0 {
                lemma_parse_stacks_items_sound(s, p0 + 1, acc.push(cs));
                match spec_parse_stacks_items(s, p0 + 1, acc.push(cs)) {
                    None => {},
                    Some((res, p)) => {
                        let tail = res.skip(acc.len() as int);
                        assert(res.take(acc.len() as int) =~= acc) by {
                            assert forall|i: int| 0 <= i < acc.len() implies res.take(
                                acc.len() as int,
                            )[i] == acc[i] by {
                                assert(res.take(acc.len() + 1 as int)[i] == acc.push(cs)[i]);
                            }
                        }
                        assert(tail.len() >= 2);
                        assert(res[acc.len() as int] == cs) by {
                            assert(acc.push(cs)[acc.len() as int] == cs);
                            assert(res.take(acc.len() + 1 as int)[acc.len() as int]
                                == res[acc.len() as int]);
                            assert(res.take(acc.len() + 1 as int) == acc.push(cs));
                        }
                        assert(tail[0] == res[acc.len() as int]);
                        assert(tail.drop_first() =~= res.skip(acc.len() + 1 as int));
                        let pieces = spec_stack_pieces(tail);
                        assert(pieces.drop_first() =~= spec_stack_pieces(tail.drop_first()));
                        assert(spec_join_items(pieces) == spec_enc_card_list(cs) + seq![44u8]
                            + spec_join_items(spec_stack_pieces(tail.drop_first())));
                        assert(s.subrange(p0, p0 + 1) =~= seq![44u8]);
                        lemma_subrange_join(s, pos, p0, p0 + 1);
                        lemma_subrange_join(s, pos, p0 + 1, p);
                        assert(s.subrange(pos, p) =~= spec_join_items(pieces) + seq![93u8]);
                    },
                }
            }
        },
    }
}

/// A parsed stack list is sound: exactly its encoding was consumed.
pub proof fn lemma_parse_stacks_sound(s: Seq<u8>, pos: int)
    requires
        0 <= pos <= s.len(),
    ensures
        match spec_parse_stacks(s, pos) {
            Some((vs, p)) => pos < p <= s.len() && s.subrange(pos, p) == spec_enc_stacks(vs),
            None => true,
        },
{
    if 0 <= pos && pos < s.len() && s[pos] == 91 {
        if pos + 1 < s.len() && s[pos + 1] == 93 {
            assert(spec_stack_pieces(Seq::<Seq<Card>>::empty()) =~= Seq::<Seq<u8>>::empty());
            assert(s.subrange(pos, pos + 2) =~= spec_enc_stacks(Seq::<Seq<Card>>::empty()));
        } else {
            lemma_parse_stacks_items_sound(s, pos + 1, Seq::<Seq<Card>>::empty());
            match spec_parse_stacks_items(s, pos + 1, Seq::<Seq<Card>>::empty()) {
                None => {},
                Some((res, p)) => {
                    assert(res.skip(0) =~= res);
                    lemma_subrange_join(s, pos, pos + 1, p);
                    assert(s.subrange(pos, pos + 1) =~= seq![91u8]);
                    assert(s.subrange(pos, p) =~= spec_enc_stacks(res));
                },
            }
        }
    }
}

/// A parsed id run is sound: it extends the accumulator and consumed
/// exactly the encodings of the new ids plus the closing bracket.
proof fn lemma_parse_id_items_sound(s: Seq<u8>, pos: int, acc: Seq<Seq<u8>>)
    requires
        0 <= pos <= s.len(),
    ensures
        match spec_parse_id_items(s, pos, acc) {
            Some((res, p)) => {
                &&& pos < p <= s.len()
                &&& res.len() > acc.len()
                &&& res.take(acc.len() as int) == acc
                &&& s.subrange(pos, p) == spec_join_items(
                    spec_id_pieces(res.skip(acc.len() as int)),
                ) + seq![93u8]
            },
            None => true,
        },
    decreases s.len() - pos,
{
    match spec_parse_bytes(s, pos) {
        None => {},
        Some((id, p0)) => {
            lemma_parse_bytes_sound(s, pos);
            if p0 >= s.len() {
            } else if s[p0] == 93 {
                let res = acc.push(id);
                assert(res.take(acc.len() as int) =~= acc);
                assert(res.skip(acc.len() as int) =~= seq![id]);
                assert(spec_id_pieces(seq![id]).len() == 1);
                assert(spec_id_pieces(seq![id])[0] == spec_enc_bytes(id));
                assert(spec_join_items(spec_id_pieces(seq![id])) == spec_enc_bytes(id));
                assert(s.subrange(p0, p0 + 1) =~= seq![93u8]);
                lemma_subrange_join(s, pos, p0, p0 + 1);
                assert(s.subrange(pos, p0 + 1) =~= spec_join_items(
                    spec_id_pieces(res.skip(acc.len() as int)),
                ) + seq![93u8]);
            } else if s[p0] == 44 && pos < p0 {
                lemma_parse_id_items_sound(s, p0 + 1, acc.push(id));
                match spec_parse_id_items(s, p0 + 1, acc.push(id)) {
                    None => {},
                    Some((res, p)) => {
                        let tail = res.skip(acc.len() as int);
                        assert(res.take(acc.len() as int) =~= acc) by {
                            assert forall|i: int| 0 <= i < acc.len() implies res.take(
                                acc.len() as int,
                            )[i] == acc[i] by {
                                assert(res.take(acc.len() + 1 as int)[i] == acc.push(id)[i]);
                            }
                        }
                        assert(tail.len() >= 2);
                        assert(res[acc.len() as int] == id) by {
                            assert(acc.push(id)[acc.len() as int] == id);
                            assert(res.take(acc.len() + 1 as int)[acc.len() as int]
                                == res[acc.len() as int]);
                            assert(res.take(acc.len() + 1 as int) == acc.push(id));
                        }
                        assert(tail[0] == res[acc.len() as int]);
                        assert(tail.drop_first() =~= res.skip(acc.len() + 1 as int));
                        let pieces = spec_id_pieces(tail);
                        assert(pieces.drop_first() =~= spec_id_pieces(tail.drop_first()));
                        assert(spec_join_items(pieces) == spec_enc_bytes(id) + seq![44u8]
                            + spec_join_items(spec_id_pieces(tail.drop_first())));
                        assert(s.subrange(p0, p0 + 1) =~= seq![44u8]);
                        lemma_subrange_join(s, pos, p0, p0 + 1);
                        lemma_subrange_join(s, pos, p0 + 1, p);
                        assert(s.subrange(pos, p) =~= spec_join_items(pieces) + seq![93u8]);
                    },
                }
            }
        },
    }
}

/// A parsed id list is sound: exactly its encoding was consumed.
pub proof fn lemma_parse_id_list_sound(s: Seq<u8>, pos: int)
    requires
        0 <= pos <= s.len(),
    ensures
        match spec_parse_id_list(s, pos) {
            Some((ids, p)) => pos < p <= s.len() && s.subrange(pos, p) == spec_enc_list_of(
                spec_id_pieces(ids),
            ),
            None => true,
        },
{
    if 0 <= pos && pos < s.len() && s[pos] == 91 {
        if pos + 1 < s.len() && s[pos + 1] == 93 {
            assert(spec_id_pieces(Seq::<Seq<u8>>::empty()) =~= Seq::<Seq<u8>>::empty());
            assert(s.subrange(pos, pos + 2) =~= spec_enc_list_of(
                spec_id_pieces(Seq::<Seq<u8>>::empty()),
            ));
        } else {
            lemma_parse_id_items_sound(s, pos + 1, Seq::<Seq<u8>>::empty());
            match spec_parse_id_items(s, pos + 1, Seq::<Seq<u8>>::empty()) {
                None => {},
                Some((res, p)) => {
                    assert(res.skip(0) =~= res);
                    lemma_subrange_join(s, pos, pos + 1, p);
                    assert(s.subrange(pos, pos + 1) =~= seq![91u8]);
                    assert(s.subrange(pos, p) =~= spec_enc_list_of(spec_id_pieces(res)));
                },
            }
        }
    }
}

pub open spec fn spec_parse_pair(s: Seq<u8>, pos: int) -> Option<
    ((Seq<u8>, Seq<Seq<Card>>), int),
> {
    match spec_parse_lit(s, pos, seq![91u8]) {
        None => None,
        Some(p1) => match spec_parse_bytes(s, p1) {
            None => None,
            Some((id, p2)) => match spec_parse_lit(s, p2, seq![44u8]) {
                None => None,
                Some(p3) => match spec_parse_stacks(s, p3) {
                    None => None,
                    Some((vs, p4)) => match spec_parse_lit(s, p4, seq![93u8]) {
                        None => None,
                        Some(p5) => Some(((id, vs), p5)),
                    },
                },
            },
        },
    }
}

pub proof fn lemma_parse_enc_pair(s: Seq<u8>, pos: int, id: Seq<u8>, vs: Seq<Seq<Card>>)
    requires
        0 <= pos,
        pos + spec_enc_pair(id, vs).len() <= s.len(),
        s.subrange(pos, pos + spec_enc_pair(id, vs).len()) == spec_enc_pair(id, vs),
    ensures
        spec_parse_pair(s, pos) == Some(((id, vs), pos + spec_enc_pair(id, vs).len())),
        pos < pos + spec_enc_pair(id, vs).len(),
{
    let e1 = spec_enc_bytes(id);
    let e2 = spec_enc_stacks(vs);
    assert(spec_enc_pair(id, vs) =~= seq![91u8] + (e1 + (seq![44u8] + (e2 + seq![93u8]))));
    lemma_split_prefix(s, pos, seq![91u8], e1 + (seq![44u8] + (e2 + seq![93u8])));
    let p1 = pos + 1;
    lemma_split_prefix(s, p1, e1, seq![44u8] + (e2 + seq![93u8]));
    let p2 = p1 + e1.len();
    lemma_split_prefix(s, p2, seq![44u8], e2 + seq![93u8]);
    let p3 = p2 + 1;
    lemma_split_prefix(s, p3, e2, seq![93u8]);
    let p4 = p3 + e2.len();
    assert(spec_parse_lit(s, pos, seq![91u8]) == Some(p1));
    lemma_parse_enc_bytes(s, p1, id);
    assert(spec_parse_lit(s, p2, seq![44u8]) == Some(p3));
    lemma_parse_enc_stacks(s, p3, vs);
    assert(spec_parse_lit(s, p4, seq![93u8]) == Some(p4 + 1));
}

pub open spec fn spec_parse_pairs_items(s: Seq<u8>, pos: int, acc: Seq<
    (Seq<u8>, Seq<Seq<Card>>),
>) -> Option<(Seq<(Seq<u8>, Seq<Seq<Card>>)>, int)>
    decreases s.len() - pos,
{
    match spec_parse_pair(s, pos) {
        None => None,
        Some((pr, p)) => if p >= s.len() {
            None
        } else if s[p] == 93 {
            Some((acc.push(pr), p + 1))
        } else if s[p] == 44 && pos < p {
            spec_parse_pairs_items(s, p + 1, acc.push(pr))
        } else {
            None
        },
    }
}

pub open spec fn spec_parse_pairs_list(s: Seq<u8>, pos: int) -> Option<
    (Seq<(Seq<u8>, Seq<Seq<Card>>)>, int),
> {
    if 0 <= pos && pos < s.len() && s[pos] == 91 {
        if pos + 1 < s.len() && s[pos + 1] == 93 {
            Some((Seq::<(Seq<u8>, Seq<Seq<Card>>)>::empty(), pos + 2))
        } else {
            spec_parse_pairs_items(s, pos + 1, Seq::<(Seq<u8>, Seq<Seq<Card>>)>::empty())
        }
    } else {
        None
    }
}

proof fn lemma_parse_enc_pairs_items(
    s: Seq<u8>,
    pos: int,
    acc: Seq<(Seq<u8>, Seq<Seq<Card>>)>,
    prs: Seq<(Seq<u8>, Seq<Seq<Card>>)>,
)
    requires
        prs.len() >= 1,
        0 <= pos,
        pos + spec_join_items(spec_pair_pieces(prs)).len() + 1 <= s.len(),
        s.subrange(pos, pos + spec_join_items(spec_pair_pieces(prs)).len() + 1)
            == spec_join_items(spec_pair_pieces(prs)) + seq![93u8],
    ensures
        spec_parse_pairs_items(s, pos, acc) == Some(
            (acc + prs, pos + spec_join_items(spec_pair_pieces(prs)).len() + 1),
        ),
    decreases prs.len(),
{
    let pieces = spec_pair_pieces(prs);
    if prs.len() == 1 {
        assert(spec_join_items(pieces) == spec_enc_pair(prs[0].0, prs[0].1));
        lemma_split_prefix(s, pos, spec_enc_pair(prs[0].0, prs[0].1), seq![93u8]);
        lemma_parse_enc_pair(s, pos, prs[0].0, prs[0].1);
        let p = pos + spec_enc_pair(prs[0].0, prs[0].1).len();
        assert(s[p] == 93) by {
            assert(s.subrange(p, p + 1)[0] == s[p]);
        }
        assert((prs[0].0, prs[0].1) == prs[0]);
        assert(acc.push(prs[0]) =~= acc + prs);
    } else {
        let e0 = spec_enc_pair(prs[0].0, prs[0].1);
        assert(pieces[0] == e0);
        assert(pieces.drop_first() =~= spec_pair_pieces(prs.drop_first()));
        let rest = spec_join_items(spec_pair_pieces(prs.drop_first()));
        assert(spec_join_items(pieces) + seq![93u8] =~= e0 + (seq![44u8] + (rest
            + seq![93u8])));
        lemma_split_prefix(s, pos, e0, seq![44u8] + (rest + seq![93u8]));
        lemma_parse_enc_pair(s, pos, prs[0].0, prs[0].1);
        let p = pos + e0.len();
        lemma_split_prefix(s, p, seq![44u8], rest + seq![93u8]);
        assert(s[p] == 44) by {
            assert(s.subrange(p, p + 1)[0] == s[p]);
        }
        lemma_parse_enc_pairs_items(s, p + 1, acc.push(prs[0]), prs.drop_first());
        assert((prs[0].0, prs[0].1) == prs[0]);
        assert(acc.push(prs[0]) + prs.drop_first() =~= acc + prs);
        assert(spec_join_items(pieces).len() == e0.len() + 1 + rest.len());
    }
}

pub proof fn lemma_parse_enc_pairs_list(s: Seq<u8>, pos: int, prs: Seq<(Seq<u8>, Seq<Seq<Card>>)>)
    requires
        0 <= pos,
        pos + spec_enc_list_of(spec_pair_pieces(prs)).len() <= s.len(),
        s.subrange(pos, pos + spec_enc_list_of(spec_pair_pieces(prs)).len()) == spec_enc_list_of(
            spec_pair_pieces(prs),
        ),
    ensures
        spec_parse_pairs_list(s, pos) == Some(
            (prs, pos + spec_enc_list_of(spec_pair_pieces(prs)).len()),
        ),
{
    let whole = spec_enc_list_of(spec_pair_pieces(prs));
    let items = spec_join_items(spec_pair_pieces(prs));
    assert forall|i: int| 0 <= i < whole.len() implies s[pos + i] == whole[i] by {
        assert(s.subrange(pos, pos + whole.len())[i] == s[pos + i]);
    }
    assert(whole[0] == 91);
    assert(s[pos] == whole[0]);
    if prs.len() == 0 {
        assert(whole =~= seq![91u8, 93u8]);
        assert(whole[1] == 93);
        assert(s[pos + 1] == whole[1]);
    } else {
        assert(whole =~= seq![91u8] + (items + seq![93u8]));
        lemma_split_prefix(s, pos, seq![91u8], items + seq![93u8]);
        assert(items.len() >= 1 && items[0] == 91) by {
            let pieces = spec_pair_pieces(prs);
            assert(pieces[0] == spec_enc_pair(prs[0].0, prs[0].1));
            assert(spec_enc_pair(prs[0].0, prs[0].1)[0] == 91);
            if prs.len() == 1 {
                assert(items == pieces[0]);
            } else {
                assert(items == pieces[0] + seq![44u8] + spec_join_items(pieces.drop_first()));
            }
        }
        assert(whole[1] == items[0]);
        assert(s[pos + 1] == whole[1]);
        assert(s[pos + 1] != 93);
        lemma_parse_enc_pairs_items(s, pos + 1, Seq::<(Seq<u8>, Seq<Seq<Card>>)>::empty(), prs);
        assert(Seq::<(Seq<u8>, Seq<Seq<Card>>)>::empty() + prs =~= prs);
    }
}

/// The spec-level shape of a state snapshot, over sequences.
pub struct GameStateModel {
    pub turn: Seq<u8>,
    pub stage: Stage,
    pub owner: Seq<u8>,
    pub hand: Seq<Card>,
    pub bottom: Seq<Seq<Card>>,
    pub stack: Seq<Card>,
    pub others: Seq<(Seq<u8>, Seq<Seq<Card>>)>,
}

/// The model of an executable state snapshot.
pub open spec fn game_state_model(g: GameState) -> GameStateModel {
    GameStateModel {
        turn: g.turn@,
        stage: g.stage,
        owner: g.cards.owner_id@,
        hand: g.cards.hand@,
        bottom: views_of(g.cards.bottom_cards@),
        stack: g.stack@,
        others: pair_views(g.other_players@),
    }
}

pub open spec fn spec_enc_game_state_model(m: GameStateModel) -> Seq<u8> {
    lit_turn_prefix() + spec_enc_bytes(m.turn) + lit_stage_mid() + spec_enc_stage(m.stage)
        + lit_cards_mid() + spec_enc_cards(m.owner, m.hand, m.bottom) + lit_stack_mid()
        + spec_enc_card_list(m.stack) + lit_other_players_mid() + spec_enc_list_of(
        spec_pair_pieces(m.others),
    ) + seq![125u8]
}

/// A parsed pair is sound: exactly its encoding was consumed.
proof fn lemma_parse_pair_sound(s: Seq<u8>, pos: int)
    requires
        0 <= pos <= s.len(),
    ensures
        match spec_parse_pair(s, pos) {
            Some(((id, vs), p)) => pos < p <= s.len() && s.subrange(pos, p) == spec_enc_pair(
                id,
                vs,
            ),
            None => true,
        },
{
    match spec_parse_lit(s, pos, seq![91u8]) {
        None => {},
        Some(p1) => {
            lemma_parse_bytes_sound(s, p1);
            match spec_parse_bytes(s, p1) {
                None => {},
                Some((id, p2)) => {
                    match spec_parse_lit(s, p2, seq![44u8]) {
                        None => {},
                        Some(p3) => {
                            lemma_parse_stacks_sound(s, p3);
                            match spec_parse_stacks(s, p3) {
                                None => {},
                                Some((vs, p4)) => {
                                    match spec_parse_lit(s, p4, seq![93u8]) {
                                        None => {},
                                        Some(p5) => {
                                            lemma_subrange_join(s, pos, p1, p2);
                                            lemma_subrange_join(s, pos, p2, p3);
                                            lemma_subrange_join(s, pos, p3, p4);
                                            lemma_subrange_join(s, pos, p4, p5);
                                            assert(s.subrange(pos, p5) =~= spec_enc_pair(
                                                id,
                                                vs,
                                            ));
                                        },
                                    }
                                },
                            }
                        },
                    }
                },
            }
        },
    }
}

/// A parsed pair run is sound: it extends the accumulator and consumed
/// exactly the encodings of the new pairs plus the closing bracket.
proof fn lemma_parse_pairs_items_sound(s: Seq<u8>, pos: int, acc: Seq<(Seq<u8>, Seq<Seq<Card>>)>)
    requires
        0 <= pos <= s.len(),
    ensures
        match spec_parse_pairs_items(s, pos, acc) {
            Some((res, p)) => {
                &&& pos < p <= s.len()
                &&& res.len() > acc.len()
                &&& res.take(acc.len() as int) == acc
                &&& s.subrange(pos, p) == spec_join_items(
                    spec_pair_pieces(res.skip(acc.len() as int)),
                ) + seq![93u8]
            },
            None => true,
        },
    decreases s.len() - pos,
{
    match spec_parse_pair(s, pos) {
        None => {},
        Some((pr, p0)) => {
            lemma_parse_pair_sound(s, pos);
            assert(spec_enc_pair(pr.0, pr.1) == s.subrange(pos, p0));
            if p0 >= s.len() {
            } else if s[p0] == 93 {
                let res = acc.push(pr);
                assert(res.take(acc.len() as int) =~= acc);
                assert(res.skip(acc.len() as int) =~= seq![pr]);
                assert(spec_pair_pieces(seq![pr]).len() == 1);
                assert(spec_pair_pieces(seq![pr])[0] == spec_enc_pair(pr.0, pr.1));
                assert(spec_join_items(spec_pair_pieces(seq![pr])) == spec_enc_pair(
                    pr.0,
                    pr.1,
                ));
                assert(s.subrange(p0, p0 + 1) =~= seq![93u8]);
                lemma_subrange_join(s, pos, p0, p0 + 1);
                assert(s.subrange(pos, p0 + 1) =~= spec_join_items(
                    spec_pair_pieces(res.skip(acc.len() as int)),
                ) + seq![93u8]);
            } else if s[p0] == 44 && pos < p0 {
                lemma_parse_pairs_items_sound(s, p0 + 1, acc.push(pr));
                match spec_parse_pairs_items(s, p0 + 1, acc.push(pr)) {
                    None => {},
                    Some((res, p)) => {
                        let tail = res.skip(acc.len() as int);
                        assert(res.take(acc.len() as int) =~= acc) by {
                            assert forall|i: int| 0 <= i < acc.len() implies res.take(
                                acc.len() as int,
                            )[i] == acc[i] by {
                                assert(res.take(acc.len() + 1 as int)[i] == acc.push(pr)[i]);
                            }
                        }
                        assert(tail.len() >= 2);
                        assert(res[acc.len() as int] == pr) by {
                            assert(acc.push(pr)[acc.len() as int] == pr);
                            assert(res.take(acc.len() + 1 as int)[acc.len() as int]
                                == res[acc.len() as int]);
                            assert(res.take(acc.len() + 1 as int) == acc.push(pr));
                        }
                        assert(tail[0] == res[acc.len() as int]);
                        assert(tail.drop_first() =~= res.skip(acc.len() + 1 as int));
                        let pieces = spec_pair_pieces(tail);
                        assert(pieces.drop_first() =~= spec_pair_pieces(tail.drop_first()));
                        assert(spec_join_items(pieces) == spec_enc_pair(pr.0, pr.1) + seq![44u8]
                            + spec_join_items(spec_pair_pieces(tail.drop_first())));
                        assert(s.subrange(p0, p0 + 1) =~= seq![44u8]);
                        lemma_subrange_join(s, pos, p0, p0 + 1);
                        lemma_subrange_join(s, pos, p0 + 1, p);
                        assert(s.subrange(pos, p) =~= spec_join_items(pieces) + seq![93u8]);
                    },
                }
            }
        },
    }
}

/// A parsed pair list is sound: exactly its encoding was consumed.
pub proof fn lemma_parse_pairs_list_sound(s: Seq<u8>, pos: int)
    requires
        0 <= pos <= s.len(),
    ensures
        match spec_parse_pairs_list(s, pos) {
            Some((prs, p)) => pos < p <= s.len() && s.subrange(pos, p) == spec_enc_list_of(
                spec_pair_pieces(prs),
            ),
            None => true,
        },
{
    if 0 <= pos && pos < s.len() && s[pos] == 91 {
        if pos + 1 < s.len() && s[pos + 1] == 93 {
            assert(spec_pair_pieces(Seq::<(Seq<u8>, Seq<Seq<Card>>)>::empty()) =~= Seq::<
                Seq<u8>,
            >::empty());
            assert(s.subrange(pos, pos + 2) =~= spec_enc_list_of(
                spec_pair_pieces(Seq::<(Seq<u8>, Seq<Seq<Card>>)>::empty()),
            ));
        } else {
            lemma_parse_pairs_items_sound(s, pos + 1, Seq::<(Seq<u8>, Seq<Seq<Card>>)>::empty());
            match spec_parse_pairs_items(s, pos + 1, Seq::<(Seq<u8>, Seq<Seq<Card>>)>::empty()) {
                None => {},
                Some((res, p)) => {
                    assert(res.skip(0) =~= res);
                    lemma_subrange_join(s, pos, pos + 1, p);
                    assert(s.subrange(pos, pos + 1) =~= seq![91u8]);
                    assert(s.subrange(pos, p) =~= spec_enc_list_of(spec_pair_pieces(res)));
                },
            }
        }
    }
}

/// A parsed cards snapshot is sound: exactly its encoding was consumed.
pub proof fn lemma_parse_cards_sound(s: Seq<u8>, pos: int)
    requires
        0 <= pos <= s.len(),
    ensures
        match spec_parse_cards_msg(s, pos) {
            Some(((owner, hand, bottom), p)) => pos < p <= s.len() && s.subrange(pos, p)
                == spec_enc_cards(owner, hand, bottom),
            None => true,
        },
{
    match spec_parse_lit(s, pos, lit_owner_prefix()) {
        None => {},
        Some(p1) => {
            lemma_parse_bytes_sound(s, p1);
            match spec_parse_bytes(s, p1) {
                None => {},
                Some((owner, p2)) => {
                    match spec_parse_lit(s, p2, lit_hand_mid()) {
                        None => {},
                        Some(p3) => {
                            lemma_parse_card_list_sound(s, p3);
                            match spec_parse_card_list(s, p3) {
                                None => {},
                                Some((hand, p4)) => {
                                    match spec_parse_lit(s, p4, lit_bottom_cards_mid()) {
                                        None => {},
                                        Some(p5) => {
                                            lemma_parse_stacks_sound(s, p5);
                                            match spec_parse_stacks(s, p5) {
                                                None => {},
                                                Some((bottom, p6)) => {
                                                    match spec_parse_lit(s, p6, seq![125u8]) {
                                                        None => {},
                                                        Some(p7) => {
                                                            lemma_subrange_join(s, pos, p1, p2);
                                                            lemma_subrange_join(s, pos, p2, p3);
                                                            lemma_subrange_join(s, pos, p3, p4);
                                                            lemma_subrange_join(s, pos, p4, p5);
                                                            lemma_subrange_join(s, pos, p5, p6);
                                                            lemma_subrange_join(s, pos, p6, p7);
                                                            assert(s.subrange(pos, p7)
                                                                =~= spec_enc_cards(
                                                                owner,
                                                                hand,
                                                                bottom,
                                                            ));
                                                        },
                                                    }
                                                },
                                            }
                                        },
                                    }
                                },
                            }
                        },
                    }
                },
            }
        },
    }
}

/// A parsed notification is sound: exactly its encoding was consumed.
pub proof fn lemma_parse_notification_sound(s: Seq<u8>, pos: int)
    requires
        0 <= pos <= s.len(),
    ensures
        match spec_parse_notification(s, pos) {
            Some((m, p)) => pos < p <= s.len() && s.subrange(pos, p)
                == spec_enc_notification_model(m),
            None => true,
        },
{
    if spec_parse_lit(s, pos, lit_game_start_prefix()) is Some {
        let p1 = pos + lit_game_start_prefix().len();
        lemma_parse_id_list_sound(s, p1);
        match spec_parse_id_list(s, p1) {
            None => {},
            Some((ids, p2)) => {
                match spec_parse_lit(s, p2, seq![125u8]) {
                    None => {},
                    Some(p3) => {
                        lemma_subrange_join(s, pos, p1, p2);
                        lemma_subrange_join(s, pos, p2, p3);
                        assert(s.subrange(pos, p3) =~= spec_enc_notification_model(
                            NotificationModel::Start(ids),
                        ));
                    },
                }
            },
        }
    } else if spec_parse_lit(s, pos, lit_id_prefix()) is Some {
        let p1 = pos + lit_id_prefix().len();
        lemma_parse_bytes_sound(s, p1);
        match spec_parse_bytes(s, p1) {
            None => {},
            Some((id, p2)) => {
                match spec_parse_lit(s, p2, seq![125u8]) {
                    None => {},
                    Some(p3) => {
                        lemma_subrange_join(s, pos, p1, p2);
                        lemma_subrange_join(s, pos, p2, p3);
                        assert(s.subrange(pos, p3) =~= spec_enc_notification_model(
                            NotificationModel::Ident(id),
                        ));
                    },
                }
            },
        }
    }
}

/// A play-phase state snapshot on the wire.
pub open spec fn spec_enc_game_state(g: GameState) -> Seq<u8> {
    spec_enc_game_state_model(game_state_model(g))
}

pub open spec fn spec_parse_game_state(s: Seq<u8>, pos: int) -> Option<(GameStateModel, int)> {
    match spec_parse_lit(s, pos, lit_turn_prefix()) {
        None => None,
        Some(p1) => match spec_parse_bytes(s, p1) {
            None => None,
            Some((turn, p2)) => match spec_parse_lit(s, p2, lit_stage_mid()) {
                None => None,
                Some(p3) => match spec_parse_stage(s, p3) {
                    None => None,
                    Some((stage, p4)) => match spec_parse_lit(s, p4, lit_cards_mid()) {
                        None => None,
                        Some(p5) => match spec_parse_cards_msg(s, p5) {
                            None => None,
                            Some(((owner, hand, bottom), p6)) => match spec_parse_lit(
                                s,
                                p6,
                                lit_stack_mid(),
                            ) {
                                None => None,
                                Some(p7) => match spec_parse_card_list(s, p7) {
                                    None => None,
                                    Some((stack, p8)) => match spec_parse_lit(
                                        s,
                                        p8,
                                        lit_other_players_mid(),
                                    ) {
                                        None => None,
                                        Some(p9) => match spec_parse_pairs_list(s, p9) {
                                            None => None,
                                            Some((others, p10)) => match spec_parse_lit(
                                                s,
                                                p10,
                                                seq![125u8],
                                            ) {
                                                None => None,
                                                Some(p11) => Some(
                                                    (
                                                        GameStateModel {
                                                            turn,
                                                            stage,
                                                            owner,
                                                            hand,
                                                            bottom,
                                                            stack,
                                                            others,
                                                        },
                                                        p11,
                                                    ),
                                                ),
                                            },
                                        },
                                    },
                                },
                            },
                        },
                    },
                },
            },
        },
    }
}

#[verifier::rlimit(100)]
#[verifier::spinoff_prover]
pub proof fn lemma_parse_enc_game_state(s: Seq<u8>, pos: int, m: GameStateModel)
    requires
        0 <= pos,
        pos + spec_enc_game_state_model(m).len() <= s.len(),
        s.subrange(pos, pos + spec_enc_game_state_model(m).len()) == spec_enc_game_state_model(m),
    ensures
        spec_parse_game_state(s, pos) == Some((m, pos + spec_enc_game_state_model(m).len())),
{
    let e1 = lit_turn_prefix();
    let e2 = spec_enc_bytes(m.turn);
    let e3 = lit_stage_mid();
    let e4 = spec_enc_stage(m.stage);
    let e5 = lit_cards_mid();
    let e6 = spec_enc_cards(m.owner, m.hand, m.bottom);
    let e7 = lit_stack_mid();
    let e8 = spec_enc_card_list(m.stack);
    let e9 = lit_other_players_mid();
    let e10 = spec_enc_list_of(spec_pair_pieces(m.others));
    let e11 = seq![125u8];
    assert(spec_enc_game_state_model(m) =~= e1 + (e2 + (e3 + (e4 + (e5 + (e6 + (e7 + (e8 + (e9
        + (e10 + e11))))))))));
    lemma_split_prefix(s, pos, e1, e2 + (e3 + (e4 + (e5 + (e6 + (e7 + (e8 + (e9 + (e10
        + e11)))))))));
    let p1 = pos + e1.len();
    lemma_split_prefix(s, p1, e2, e3 + (e4 + (e5 + (e6 + (e7 + (e8 + (e9 + (e10 + e11))))))));
    let p2 = p1 + e2.len();
    lemma_split_prefix(s, p2, e3, e4 + (e5 + (e6 + (e7 + (e8 + (e9 + (e10 + e11)))))));
    let p3 = p2 + e3.len();
    lemma_split_prefix(s, p3, e4, e5 + (e6 + (e7 + (e8 + (e9 + (e10 + e11))))));
    let p4 = p3 + e4.len();
    lemma_split_prefix(s, p4, e5, e6 + (e7 + (e8 + (e9 + (e10 + e11)))));
    let p5 = p4 + e5.len();
    lemma_split_prefix(s, p5, e6, e7 + (e8 + (e9 + (e10 + e11))));
    let p6 = p5 + e6.len();
    lemma_split_prefix(s, p6, e7, e8 + (e9 + (e10 + e11)));
    let p7 = p6 + e7.len();
    lemma_split_prefix(s, p7, e8, e9 + (e10 + e11));
    let p8 = p7 + e8.len();
    lemma_split_prefix(s, p8, e9, e10 + e11);
    let p9 = p8 + e9.len();
    lemma_split_prefix(s, p9, e10, e11);
    let p10 = p9 + e10.len();
    assert(spec_parse_lit(s, pos, e1) == Some(p1));
    lemma_parse_enc_bytes(s, p1, m.turn);
    assert(spec_parse_lit(s, p2, e3) == Some(p3));
    lemma_parse_enc_stage(s, p3, m.stage);
    assert(spec_parse_lit(s, p4, e5) == Some(p5));
    lemma_parse_enc_cards(s, p5, m.owner, m.hand, m.bottom);
    assert(spec_parse_lit(s, p6, e7) == Some(p7));
    lemma_parse_enc_card_list(s, p7, m.stack);
    assert(spec_parse_lit(s, p8, e9) == Some(p9));
    lemma_parse_enc_pairs_list(s, p9, m.others);
    assert(spec_parse_lit(s, p10, e11) == Some(p10 + 1));
}

/// A parsed state snapshot is sound: exactly its encoding was consumed.
#[verifier::rlimit(100)]
#[verifier::spinoff_prover]
pub proof fn lemma_parse_game_state_sound(s: Seq<u8>, pos: int)
    requires
        0 <= pos <= s.len(),
    ensures
        match spec_parse_game_state(s, pos) {
            Some((m, p)) => pos < p <= s.len() && s.subrange(pos, p) == spec_enc_game_state_model(
                m,
            ),
            None => true,
        },
{
    match spec_parse_lit(s, pos, lit_turn_prefix()) {
        None => {},
        Some(p1) => {
            lemma_parse_bytes_sound(s, p1);
            match spec_parse_bytes(s, p1) {
                None => {},
                Some((turn, p2)) => match spec_parse_lit(s, p2, lit_stage_mid()) {
                    None => {},
                    Some(p3) => {
                        lemma_parse_stage_sound(s, p3);
                        match spec_parse_stage(s, p3) {
                            None => {},
                            Some((stage, p4)) => match spec_parse_lit(s, p4, lit_cards_mid()) {
                                None => {},
                                Some(p5) => {
                                    lemma_parse_cards_sound(s, p5);
                                    match spec_parse_cards_msg(s, p5) {
                                        None => {},
                                        Some(((owner, hand, bottom), p6)) => match spec_parse_lit(
                                            s,
                                            p6,
                                            lit_stack_mid(),
                                        ) {
                                            None => {},
                                            Some(p7) => {
                                                lemma_parse_card_list_sound(s, p7);
                                                match spec_parse_card_list(s, p7) {
                                                    None => {},
                                                    Some((stack, p8)) => match spec_parse_lit(
                                                        s,
                                                        p8,
                                                        lit_other_players_mid(),
                                                    ) {
                                                        None => {},
                                                        Some(p9) => {
                                                            lemma_parse_pairs_list_sound(s, p9);
                                                            match spec_parse_pairs_list(s, p9) {
                                                                None => {},
                                                                Some((others, p10)) => {
                                                                    match spec_parse_lit(
                                                                        s,
                                                                        p10,
                                                                        seq![125u8],
                                                                    ) {
                                                                        None => {},
                                                                        Some(p11) => {
                                                                            lemma_subrange_join(
                                                                                s,
                                                                                pos,
                                                                                p1,
                                                                                p2,
                                                                            );
                                                                            lemma_subrange_join(
                                                                                s,
                                                                                pos,
                                                                                p2,
                                                                                p3,
                                                                            );
                                                                            lemma_subrange_join(
                                                                                s,
                                                                                pos,
                                                                                p3,
                                                                                p4,
                                                                            );
                                                                            lemma_subrange_join(
                                                                                s,
                                                                                pos,
                                                                                p4,
                                                                                p5,
                                                                            );
                                                                            lemma_subrange_join(
                                                                                s,
                                                                                pos,
                                                                                p5,
                                                                                p6,
                                                                            );
                                                                            lemma_subrange_join(
                                                                                s,
                                                                                pos,
                                                                                p6,
                                                                                p7,
                                                                            );
                                                                            lemma_subrange_join(
                                                                                s,
                                                                                pos,
                                                                                p7,
                                                                                p8,
                                                                            );
                                                                            lemma_subrange_join(
                                                                                s,
                                                                                pos,
                                                                                p8,
                                                                                p9,
                                                                            );
                                                                            lemma_subrange_join(
                                                                                s,
                                                                                pos,
                                                                                p9,
                                                                                p10,
                                                                            );
                                                                            lemma_subrange_join(
                                                                                s,
                                                                                pos,
                                                                                p10,
                                                                                p11,
                                                                            );
                                                                            let m = GameStateModel {
                                                                                turn,
                                                                                stage,
                                                                                owner,
                                                                                hand,
                                                                                bottom,
                                                                                stack,
                                                                                others,
                                                                            };
                                                                            assert(s.subrange(
                                                                                pos,
                                                                                p11,
                                                                            )
                                                                                =~= spec_enc_game_state_model(
                                                                                m,
                                                                            ));
                                                                        },
                                                                    }
                                                                },
                                                            }
                                                        },
                                                    },
                                                }
                                            },
                                        },
                                    }
                                },
                            },
                        }
                    },
                },
            }
        },
    }
}

/// A whole state-snapshot message.
pub open spec fn spec_decode_game_state(s: Seq<u8>) -> Option<GameStateModel> {
    match spec_parse_game_state(s, 0) {
        Some((m, p)) => if p == s.len() {
            Some(m)
        } else {
            None
        },
        None => None,
    }
}

/// Decoding an encoded state snapshot yields it back.
#[verifier::rlimit(100)]
#[verifier::spinoff_prover]
pub proof fn lemma_game_state_round_trip(m: GameStateModel)
    ensures
        spec_decode_game_state(spec_enc_game_state_model(m)) == Some(m),
{
    let e = spec_enc_game_state_model(m);
    assert(e.subrange(0, e.len() as int) =~= e);
    lemma_parse_enc_game_state(e, 0, m);
}

// ---------------------------------------------------------------------
// executable decoders for the state messages
// ---------------------------------------------------------------------

/// Consumes one exact byte.
fn eat_byte(s: &Vec<u8>, pos: usize, b: u8) -> (r: Option<usize>)
    requires
        pos <= s@.len(),
    ensures
        match r {
            Some(p) => spec_parse_lit(s@, pos as int, seq![b]) == Some(p as int) && p == pos + 1
                && p <= s@.len(),
            None => spec_parse_lit(s@, pos as int, seq![b]) is None,
        },
{
    if pos < s.len() && s[pos] == b {
        proof {
            assert(s@.subrange(pos as int, pos + 1) =~= seq![b]);
        }
        Some(pos + 1)
    } else {
        proof {
            if pos < s@.len() {
                assert(s@.subrange(pos as int, pos + 1)[0] == s@[pos as int]);
            }
        }
        None
    }
}

fn parse_bytes(s: &Vec<u8>, pos: usize) -> (r: Option<(Vec<u8>, usize)>)
    requires
        pos <= s@.len(),
    ensures
        match r {
            Some((v, p)) => spec_parse_bytes(s@, pos as int) == Some((v@, p as int)) && pos < p
                <= s@.len(),
            None => spec_parse_bytes(s@, pos as int) is None,
        },
{
    if pos >= s.len() {
        return None;
    }
    if s[pos] != 34 {
        return None;
    }
    let mut acc: Vec<u8> = Vec::new();
    let mut p: usize = pos + 1;
    loop
        invariant
            pos < s@.len(),
            s@[pos as int] == 34,
            pos + 1 <= p <= s@.len(),
            spec_parse_bytes_body(s@, pos + 1, Seq::<u8>::empty()) == spec_parse_bytes_body(
                s@,
                p as int,
                acc@,
            ),
        decreases s@.len() - p,
    {
        if p >= s.len() {
            return None;
        }
        let b = s[p];
        if b == 34 {
            return Some((acc, p + 1));
        }
        let ghost acc0 = acc@;
        if b == 92 {
            if s.len() - p >= 2 && (s[p + 1] == 34 || s[p + 1] == 92) {
                let c = s[p + 1];
                acc.push(c);
                proof {
                    assert(spec_parse_bytes_body(s@, p as int, acc0) == spec_parse_bytes_body(
                        s@,
                        p + 2,
                        acc0.push(c),
                    ));
                }
                p = p + 2;
            } else if s.len() - p >= 6 && s[p + 1] == 117 && s[p + 2] == 48 && s[p + 3] == 48 && (
            s[p + 4] == 48 || s[p + 4] == 49) && ((48 <= s[p + 5] && s[p + 5] <= 57) || (97 <= s[p
                + 5] && s[p + 5] <= 102)) {
                let hi = s[p + 4] - 48;
                let lo = if s[p + 5] < 58 {
                    s[p + 5] - 48
                } else {
                    s[p + 5] - 87
                };
                let c = hi * 16 + lo;
                acc.push(c);
                proof {
                    assert(c == (spec_unhex(s@[p + 4]) * 16 + spec_unhex(s@[p + 5])) as u8);
                    assert(spec_parse_bytes_body(s@, p as int, acc0) == spec_parse_bytes_body(
                        s@,
                        p + 6,
                        acc0.push(c),
                    ));
                }
                p = p + 6;
            } else {
                return None;
            }
        } else if b >= 32 {
            acc.push(b);
            proof {
                assert(spec_parse_bytes_body(s@, p as int, acc0) == spec_parse_bytes_body(
                    s@,
                    p + 1,
                    acc0.push(b),
                ));
            }
            p = p + 1;
        } else {
            return None;
        }
    }
}

fn parse_stage_at(s: &Vec<u8>, pos: usize) -> (r: Option<(Stage, usize)>)
    requires
        pos <= s@.len(),
    ensures
        match r {
            Some((st, p)) => spec_parse_stage(s@, pos as int) == Some((st, p as int)) && p
                <= s@.len(),
            None => spec_parse_stage(s@, pos as int) is None,
        },
{
    let l1 = build_stage_swap();
    if let Some(p) = eat_lit(s, pos, &l1) {
        return Some((Stage::Swap, p));
    }
    let l2 = build_stage_play();
    if let Some(p) = eat_lit(s, pos, &l2) {
        return Some((Stage::Play, p));
    }
    None
}

fn parse_stacks(s: &Vec<u8>, pos: usize) -> (r: Option<(Vec<Vec<Card>>, usize)>)
    requires
        pos <= s@.len(),
    ensures
        match r {
            Some((vs, p)) => spec_parse_stacks(s@, pos as int) == Some(
                (views_of(vs@), p as int),
            ) && pos < p <= s@.len(),
            None => spec_parse_stacks(s@, pos as int) is None,
        },
{
    if pos >= s.len() {
        return None;
    }
    if s[pos] != 91 {
        return None;
    }
    if pos + 1 < s.len() {
        let b = s[pos + 1];
        if b == 93 {
            proof {
                assert(views_of(Seq::<Vec<Card>>::empty()) =~= Seq::<Seq<Card>>::empty());
            }
            return Some((Vec::new(), pos + 2));
        }
    }
    let mut acc: Vec<Vec<Card>> = Vec::new();
    let mut p: usize = pos + 1;
    proof {
        assert(views_of(acc@) =~= Seq::<Seq<Card>>::empty());
    }
    loop
        invariant
            pos < s@.len(),
            s@[pos as int] == 91,
            !(pos + 1 < s@.len() && s@[pos + 1] == 93),
            pos + 1 <= p <= s@.len(),
            spec_parse_stacks_items(s@, pos + 1, Seq::<Seq<Card>>::empty())
                == spec_parse_stacks_items(s@, p as int, views_of(acc@)),
        decreases s@.len() - p,
    {
        let ghost acc0 = views_of(acc@);
        match parse_card_list(s, p) {
            None => {
                return None;
            },
            Some((cs, p2)) => {
                let ghost csv = cs@;
                acc.push(cs);
                proof {
                    assert(views_of(acc@) =~= acc0.push(csv));
                }
                if p2 >= s.len() {
                    return None;
                }
                let b = s[p2];
                if b == 93 {
                    proof {
                        assert(spec_parse_stacks_items(s@, p as int, acc0) == Some(
                            (acc0.push(csv), p2 + 1),
                        ));
                    }
                    return Some((acc, p2 + 1));
                }
                if b != 44 {
                    return None;
                }
                proof {
                    assert(spec_parse_stacks_items(s@, p as int, acc0) == spec_parse_stacks_items(
                        s@,
                        p2 + 1,
                        acc0.push(csv),
                    ));
                }
                p = p2 + 1;
            },
        }
    }
}

fn parse_id_list(s: &Vec<u8>, pos: usize) -> (r: Option<(Vec<Vec<u8>>, usize)>)
    requires
        pos <= s@.len(),
    ensures
        match r {
            Some((ids, p)) => spec_parse_id_list(s@, pos as int) == Some(
                (byte_views(ids@), p as int),
            ) && pos < p <= s@.len(),
            None => spec_parse_id_list(s@, pos as int) is None,
        },
{
    if pos >= s.len() {
        return None;
    }
    if s[pos] != 91 {
        return None;
    }
    if pos + 1 < s.len() {
        let b = s[pos + 1];
        if b == 93 {
            proof {
                assert(byte_views(Seq::<Vec<u8>>::empty()) =~= Seq::<Seq<u8>>::empty());
            }
            return Some((Vec::new(), pos + 2));
        }
    }
    let mut acc: Vec<Vec<u8>> = Vec::new();
    let mut p: usize = pos + 1;
    proof {
        assert(byte_views(acc@) =~= Seq::<Seq<u8>>::empty());
    }
    loop
        invariant
            pos < s@.len(),
            s@[pos as int] == 91,
            !(pos + 1 < s@.len() && s@[pos + 1] == 93),
            pos + 1 <= p <= s@.len(),
            spec_parse_id_items(s@, pos + 1, Seq::<Seq<u8>>::empty()) == spec_parse_id_items(
                s@,
                p as int,
                byte_views(acc@),
            ),
        decreases s@.len() - p,
    {
        let ghost acc0 = byte_views(acc@);
        match parse_bytes(s, p) {
            None => {
                return None;
            },
            Some((id, p2)) => {
                let ghost idv = id@;
                acc.push(id);
                proof {
                    assert(byte_views(acc@) =~= acc0.push(idv));
                }
                if p2 >= s.len() {
                    return None;
                }
                let b = s[p2];
                if b == 93 {
                    proof {
                        assert(spec_parse_id_items(s@, p as int, acc0) == Some(
                            (acc0.push(idv), p2 + 1),
                        ));
                    }
                    return Some((acc, p2 + 1));
                }
                if b != 44 {
                    return None;
                }
                proof {
                    assert(spec_parse_id_items(s@, p as int, acc0) == spec_parse_id_items(
                        s@,
                        p2 + 1,
                        acc0.push(idv),
                    ));
                }
                p = p2 + 1;
            },
        }
    }
}

fn parse_pair(s: &Vec<u8>, pos: usize) -> (r: Option<((Vec<u8>, Vec<Vec<Card>>), usize)>)
    requires
        pos <= s@.len(),
    ensures
        match r {
            Some(((id, vs), p)) => spec_parse_pair(s@, pos as int) == Some(
                ((id@, views_of(vs@)), p as int),
            ) && pos < p <= s@.len(),
            None => spec_parse_pair(s@, pos as int) is None,
        },
{
    let p1 = match eat_byte(s, pos, 91) {
        Some(p) => p,
        None => {
            return None;
        },
    };
    let (id, p2) = match parse_bytes(s, p1) {
        Some(x) => x,
        None => {
            return None;
        },
    };
    let p3 = match eat_byte(s, p2, 44) {
        Some(p) => p,
        None => {
            return None;
        },
    };
    let (vs, p4) = match parse_stacks(s, p3) {
        Some(x) => x,
        None => {
            return None;
        },
    };
    let p5 = match eat_byte(s, p4, 93) {
        Some(p) => p,
        None => {
            return None;
        },
    };
    Some(((id, vs), p5))
}

fn parse_pairs_list(s: &Vec<u8>, pos: usize) -> (r: Option<
    (Vec<(Vec<u8>, Vec<Vec<Card>>)>, usize),
>)
    requires
        pos <= s@.len(),
    ensures
        match r {
            Some((prs, p)) => spec_parse_pairs_list(s@, pos as int) == Some(
                (pair_views(prs@), p as int),
            ) && pos < p <= s@.len(),
            None => spec_parse_pairs_list(s@, pos as int) is None,
        },
{
    if pos >= s.len() {
        return None;
    }
    if s[pos] != 91 {
        return None;
    }
    if pos + 1 < s.len() {
        let b = s[pos + 1];
        if b == 93 {
            proof {
                assert(pair_views(Seq::<(Vec<u8>, Vec<Vec<Card>>)>::empty()) =~= Seq::<
                    (Seq<u8>, Seq<Seq<Card>>),
                >::empty());
            }
            return Some((Vec::new(), pos + 2));
        }
    }
    let mut acc: Vec<(Vec<u8>, Vec<Vec<Card>>)> = Vec::new();
    let mut p: usize = pos + 1;
    proof {
        assert(pair_views(acc@) =~= Seq::<(Seq<u8>, Seq<Seq<Card>>)>::empty());
    }
    loop
        invariant
            pos < s@.len(),
            s@[pos as int] == 91,
            !(pos + 1 < s@.len() && s@[pos + 1] == 93),
            pos + 1 <= p <= s@.len(),
            spec_parse_pairs_items(s@, pos + 1, Seq::<(Seq<u8>, Seq<Seq<Card>>)>::empty())
                == spec_parse_pairs_items(s@, p as int, pair_views(acc@)),
        decreases s@.len() - p,
    {
        let ghost acc0 = pair_views(acc@);
        match parse_pair(s, p) {
            None => {
                return None;
            },
            Some((pr, p2)) => {
                let ghost prv = (pr.0@, views_of(pr.1@));
                acc.push(pr);
                proof {
                    assert(pair_views(acc@) =~= acc0.push(prv));
                }
                if p2 >= s.len() {
                    return None;
                }
                let b = s[p2];
                if b == 93 {
                    proof {
                        assert(spec_parse_pairs_items(s@, p as int, acc0) == Some(
                            (acc0.push(prv), p2 + 1),
                        ));
                    }
                    return Some((acc, p2 + 1));
                }
                if b != 44 {
                    return None;
                }
                proof {
                    assert(spec_parse_pairs_items(s@, p as int, acc0) == spec_parse_pairs_items(
                        s@,
                        p2 + 1,
                        acc0.push(prv),
                    ));
                }
                p = p2 + 1;
            },
        }
    }
}

fn parse_cards_msg(s: &Vec<u8>, pos: usize) -> (r: Option<(Cards, usize)>)
    requires
        pos <= s@.len(),
    ensures
        match r {
            Some((c, p)) => spec_parse_cards_msg(s@, pos as int) == Some(
                ((c.owner_id@, c.hand@, views_of(c.bottom_cards@)), p as int),
            ) && pos < p <= s@.len(),
            None => spec_parse_cards_msg(s@, pos as int) is None,
        },
{
    let l1 = build_owner_prefix();
    let p1 = match eat_lit(s, pos, &l1) {
        Some(p) => p,
        None => {
            return None;
        },
    };
    let (owner, p2) = match parse_bytes(s, p1) {
        Some(x) => x,
        None => {
            return None;
        },
    };
    let l2 = build_hand_mid();
    let p3 = match eat_lit(s, p2, &l2) {
        Some(p) => p,
        None => {
            return None;
        },
    };
    let (hand, p4) = match parse_card_list(s, p3) {
        Some(x) => x,
        None => {
            return None;
        },
    };
    let l3 = build_bottom_cards_mid();
    let p5 = match eat_lit(s, p4, &l3) {
        Some(p) => p,
        None => {
            return None;
        },
    };
    let (bottom, p6) = match parse_stacks(s, p5) {
        Some(x) => x,
        None => {
            return None;
        },
    };
    let p7 = match eat_byte(s, p6, 125) {
        Some(p) => p,
        None => {
            return None;
        },
    };
    Some((Cards { owner_id: owner, hand, bottom_cards: bottom }, p7))
}

pub fn decode_cards(s: &Vec<u8>) -> (r: Option<Cards>)
    ensures
        match r {
            Some(c) => spec_decode_cards(s@) == Some((c.owner_id@, c.hand@, views_of(
                c.bottom_cards@,
            ))),
            None => spec_decode_cards(s@) is None,
        },
{
    match parse_cards_msg(s, 0) {
        Some((c, p)) => {
            if p == s.len() {
                Some(c)
            } else {
                None
            }
        },
        None => None,
    }
}

pub fn decode_notification(s: &Vec<u8>) -> (r: Option<ServerNotification>)
    ensures
        match r {
            Some(n) => spec_decode_notification(s@) == Some(notification_model(n)),
            None => spec_decode_notification(s@) is None,
        },
{
    let l1 = build_game_start_prefix();
    if let Some(p1) = eat_lit(s, 0, &l1) {
        let (ids, p2) = match parse_id_list(s, p1) {
            Some(x) => x,
            None => {
                return None;
            },
        };
        let p3 = match eat_byte(s, p2, 125) {
            Some(p) => p,
            None => {
                return None;
            },
        };
        if p3 == s.len() {
            return Some(ServerNotification::GameStart(ids));
        }
        return None;
    }
    let l2 = build_id_prefix();
    if let Some(p1) = eat_lit(s, 0, &l2) {
        let (id, p2) = match parse_bytes(s, p1) {
            Some(x) => x,
            None => {
                return None;
            },
        };
        let p3 = match eat_byte(s, p2, 125) {
            Some(p) => p,
            None => {
                return None;
            },
        };
        if p3 == s.len() {
            return Some(ServerNotification::Id(id));
        }
        return None;
    }
    None
}

pub fn decode_game_state(s: &Vec<u8>) -> (r: Option<GameState>)
    ensures
        match r {
            Some(g) => spec_decode_game_state(s@) == Some(game_state_model(g)),
            None => spec_decode_game_state(s@) is None,
        },
{
    let l1 = build_turn_prefix();
    let p1 = match eat_lit(s, 0, &l1) {
        Some(p) => p,
        None => {
            return None;
        },
    };
    let (turn, p2) = match parse_bytes(s, p1) {
        Some(x) => x,
        None => {
            return None;
        },
    };
    let l2 = build_stage_mid();
    let p3 = match eat_lit(s, p2, &l2) {
        Some(p) => p,
        None => {
            return None;
        },
    };
    let (stage, p4) = match parse_stage_at(s, p3) {
        Some(x) => x,
        None => {
            return None;
        },
    };
    let l3 = build_cards_mid();
    let p5 = match eat_lit(s, p4, &l3) {
        Some(p) => p,
        None => {
            return None;
        },
    };
    let (cards, p6) = match parse_cards_msg(s, p5) {
        Some(x) => x,
        None => {
            return None;
        },
    };
    let l4 = build_stack_mid();
    let p7 = match eat_lit(s, p6, &l4) {
        Some(p) => p,
        None => {
            return None;
        },
    };
    let (stack, p8) = match parse_card_list(s, p7) {
        Some(x) => x,
        None => {
            return None;
        },
    };
    let l5 = build_other_players_mid();
    let p9 = match eat_lit(s, p8, &l5) {
        Some(p) => p,
        None => {
            return None;
        },
    };
    let (others, p10) = match parse_pairs_list(s, p9) {
        Some(x) => x,
        None => {
            return None;
        },
    };
    let p11 = match eat_byte(s, p10, 125) {
        Some(p) => p,
        None => {
            return None;
        },
    };
    if p11 == s.len() {
        Some(GameState { turn, stage, cards, stack, other_players: others })
    } else {
        None
    }
}

pub fn encode_game_state(g: &GameState) -> (r: Vec<u8>)
    ensures
        r@ == spec_enc_game_state(*g),
{
    let mut out: Vec<u8> = Vec::new();
    let l1 = build_turn_prefix();
    push_lit(&mut out, &l1);
    enc_bytes_into(&g.turn, &mut out);
    let l2 = build_stage_mid();
    push_lit(&mut out, &l2);
    let st = encode_stage(g.stage);
    push_lit(&mut out, &st);
    let l3 = build_cards_mid();
    push_lit(&mut out, &l3);
    let cs = encode_cards(&g.cards);
    push_lit(&mut out, &cs);
    let l4 = build_stack_mid();
    push_lit(&mut out, &l4);
    enc_card_list_into(&g.stack, &mut out);
    let l5 = build_other_players_mid();
    push_lit(&mut out, &l5);
    enc_pairs_into(&g.other_players, &mut out);
    out.push(125);
    proof {
        assert(out@ =~= spec_enc_game_state(*g));
    }
    out
}

} // verus!
