//! What the digits of a number are worth, and what rounding does to that
//! worth: a rounded number is the nearest one with the wanted places, and of
//! two that are equally near the one whose last digit is even.

use crate::decimal::{increment, lemma_increment, rounds_up, zeros, DecimalView};
use crate::text::{all_digits, digit_value, digits_value, is_digit, NINE, ONE, ZERO};
use vstd::prelude::*;

verus! {

/// Ten to the power of `n`.
pub open spec fn pow10(n: nat) -> nat
    decreases n,
{
    if n == 0 {
        1
    } else {
        10 * pow10((n - 1) as nat)
    }
}

/// The number without its sign and its point: its magnitude times ten to
/// the number of its places.
pub open spec fn scaled_value(d: DecimalView) -> nat {
    digits_value(d.int_digits + d.frac_digits)
}

/// A power of ten is at least one.
pub proof fn lemma_pow10_positive(n: nat)
    ensures
        pow10(n) >= 1,
    decreases n,
{
    if n > 0 {
        lemma_pow10_positive((n - 1) as nat);
    }
}

/// Digits behind digits: the digits in front count as many powers of ten
/// more as digits follow.
pub proof fn lemma_digits_value_concat(a: Seq<u8>, b: Seq<u8>)
    ensures
        digits_value(a + b) == digits_value(a) * pow10(b.len()) + digits_value(b),
    decreases b.len(),
{
    let x = digits_value(a) as int;
    if b.len() == 0 {
        assert(a + b =~= a);
        assert(pow10(0) == 1);
        assert(digits_value(b) == 0);
        assert(x * 1 == x);
    } else {
        let shorter = b.drop_last();
        let k = shorter.len();
        lemma_digits_value_concat(a, shorter);
        assert((a + b).drop_last() =~= a + shorter);
        assert((a + b).last() == b.last());
        let h = pow10(k) as int;
        let y = digits_value(shorter) as int;
        let g = digit_value(b.last()) as int;
        assert(digits_value(a + shorter) == x * h + y);
        assert(digits_value(a + b) == digits_value(a + shorter) * 10 + g);
        assert(digits_value(b) == y * 10 + g);
        assert(pow10(b.len()) == 10 * h);
        assert((x * h + y) * 10 + g == x * (10 * h) + (y * 10 + g)) by (nonlinear_arith);
    }
}

/// Digits are worth less than the power of ten of their count.
pub proof fn lemma_digits_value_bound(s: Seq<u8>)
    ensures
        digits_value(s) < pow10(s.len()),
    decreases s.len(),
{
    if s.len() > 0 {
        lemma_digits_value_bound(s.drop_last());
    }
}

/// Digits are worth nothing exactly where all of them are `0`.
pub proof fn lemma_digits_value_zero(s: Seq<u8>)
    requires
        all_digits(s),
    ensures
        digits_value(s) == 0 <==> (forall|i: int| 0 <= i < s.len() ==> s[i] == ZERO),
    decreases s.len(),
{
    if s.len() > 0 {
        let shorter = s.drop_last();
        lemma_digits_value_zero(shorter);
        assert(is_digit(s.last()));
        if digits_value(s) == 0 {
            assert forall|i: int| 0 <= i < s.len() implies s[i] == ZERO by {
                if i < shorter.len() {
                    assert(shorter[i] == s[i]);
                }
            }
        }
        if forall|i: int| 0 <= i < s.len() ==> s[i] == ZERO {
            assert forall|i: int| 0 <= i < shorter.len() implies shorter[i] == ZERO by {
                assert(shorter[i] == s[i]);
            }
            assert(s.last() == s[s.len() - 1]);
        }
    }
}

/// Zeros are worth nothing.
pub proof fn lemma_zeros_value(n: nat)
    ensures
        all_digits(zeros(n)),
        digits_value(zeros(n)) == 0,
{
    lemma_digits_value_zero(zeros(n));
}

/// Adding one to the digits adds one to their worth.
pub proof fn lemma_increment_value(digits: Seq<u8>)
    requires
        all_digits(digits),
    ensures
        digits_value(increment(digits)) == digits_value(digits) + 1,
    decreases digits.len(),
{
    if digits.len() == 0 {
        let one = seq![ONE];
        assert(one.drop_last() =~= Seq::<u8>::empty());
        assert(digits_value(one.drop_last()) == 0);
    } else {
        let shorter = digits.drop_last();
        assert(is_digit(digits.last()));
        if digits.last() == NINE {
            lemma_increment_value(shorter);
            let more = increment(shorter).push(ZERO);
            assert(more.drop_last() =~= increment(shorter));
        } else {
            let more = shorter.push((digits.last() + 1) as u8);
            assert(more.drop_last() =~= shorter);
        }
    }
}

/// Digits are worth an odd number exactly where the last of them is odd.
proof fn lemma_digits_value_parity(s: Seq<u8>)
    requires
        s.len() >= 1,
        all_digits(s),
    ensures
        digits_value(s) % 2 == (s.last() % 2) as int,
{
    assert(is_digit(s.last()));
    let x = digits_value(s.drop_last()) as int;
    let g = digit_value(s.last()) as int;
    assert((x * 10 + g) % 2 == g % 2) by (nonlinear_arith);
}

/// The rule of the digits is the rule of the worth: what is cut off rounds
/// away from zero exactly where it is worth more than half a unit of the
/// last digit that is kept, or exactly half and the kept digits are odd.
pub proof fn lemma_rounds_up_value(kept: Seq<u8>, dropped: Seq<u8>)
    requires
        kept.len() >= 1,
        dropped.len() >= 1,
        all_digits(kept),
        all_digits(dropped),
    ensures
        rounds_up(kept, dropped) <==> (2 * digits_value(dropped) > pow10(dropped.len()) || (2
            * digits_value(dropped) == pow10(dropped.len()) && digits_value(kept) % 2 == 1)),
{
    let first = seq![dropped[0]];
    let tail = dropped.skip(1);
    let h = pow10(tail.len()) as int;
    let t = digits_value(tail) as int;
    let x = digit_value(dropped[0]) as int;
    assert(dropped =~= first + tail);
    lemma_digits_value_concat(first, tail);
    assert(first.drop_last() =~= Seq::<u8>::empty());
    assert(digits_value(first.drop_last()) == 0);
    assert(digits_value(first) == x);
    lemma_digits_value_bound(tail);
    lemma_pow10_positive(tail.len());
    assert(is_digit(dropped[0]));
    assert forall|i: int| 0 <= i < tail.len() implies is_digit(#[trigger] tail[i]) by {
        assert(tail[i] == dropped[i + 1]);
    }
    lemma_digits_value_zero(tail);
    lemma_digits_value_parity(kept);
    assert(pow10(dropped.len()) == 10 * h);
    let v = digits_value(dropped) as int;
    assert(v == x * h + t);
    let sticky = exists|i: int| 1 <= i < dropped.len() && dropped[i] != ZERO;
    if sticky {
        let i = choose|i: int| 1 <= i < dropped.len() && dropped[i] != ZERO;
        assert(tail[i - 1] != ZERO);
        assert(t != 0);
    } else {
        assert forall|i: int| 0 <= i < tail.len() implies tail[i] == ZERO by {
            assert(tail[i] == dropped[i + 1]);
        }
        assert(t == 0);
    }
    if x >= 6 {
        assert(2 * (x * h + t) > 10 * h) by (nonlinear_arith)
            requires
                x >= 6,
                h >= 1,
                t >= 0,
        ;
    } else if x == 5 {
        assert(2 * (x * h + t) == 10 * h + 2 * t) by (nonlinear_arith)
            requires
                x == 5,
        ;
    } else {
        assert(2 * (x * h + t) < 10 * h) by (nonlinear_arith)
            requires
                0 <= x <= 4,
                0 <= t < h,
        ;
    }
}

/// Rounding to fewer places gives the nearest number with those places: it
/// is at most half a unit of its last digit away, and where it is exactly
/// half a unit away its last digit is even.
pub proof fn lemma_round_to_nearest(d: DecimalView, places: nat)
    requires
        d.wf(),
        places < d.frac_digits.len(),
    ensures
        ({
            let unit = pow10((d.frac_digits.len() - places) as nat) as int;
            let given = scaled_value(d) as int;
            let rounded = scaled_value(d.round_to(places)) as int;
            &&& 2 * (rounded * unit - given) <= unit
            &&& 2 * (given - rounded * unit) <= unit
            &&& (2 * (rounded * unit - given) == unit || 2 * (given - rounded * unit) == unit)
                ==> rounded % 2 == 0
        }),
{
    let kept = d.int_digits + d.frac_digits.take(places as int);
    let dropped = d.frac_digits.skip(places as int);
    let up = rounds_up(kept, dropped);
    let digits = if up {
        increment(kept)
    } else {
        kept
    };
    let result = d.round_to(places);
    let unit = pow10(dropped.len()) as int;
    let given = scaled_value(d) as int;
    let rounded = scaled_value(result) as int;
    let k = digits_value(kept) as int;
    let v = digits_value(dropped) as int;
    let u: int = if up {
        1
    } else {
        0
    };
    assert(all_digits(kept)) by {
        assert forall|i: int| 0 <= i < kept.len() implies is_digit(#[trigger] kept[i]) by {
            if i < d.int_digits.len() {
                assert(is_digit(d.int_digits[i]));
            } else {
                assert(is_digit(d.frac_digits[i - d.int_digits.len()]));
            }
        }
    }
    assert(all_digits(dropped)) by {
        assert forall|i: int| 0 <= i < dropped.len() implies is_digit(#[trigger] dropped[i]) by {
            assert(is_digit(d.frac_digits[i + places]));
        }
    }
    lemma_increment(kept);
    assert(result.int_digits + result.frac_digits =~= digits);
    if up {
        lemma_increment_value(kept);
    }
    assert(rounded == k + u);
    assert(d.int_digits + d.frac_digits =~= kept + dropped);
    lemma_digits_value_concat(kept, dropped);
    assert(given == k * unit + v);
    lemma_digits_value_bound(dropped);
    lemma_rounds_up_value(kept, dropped);
    assert(rounded * unit - given == u * unit - v) by (nonlinear_arith)
        requires
            rounded == k + u,
            given == k * unit + v,
    ;
}

/// Rounding to as many places or more changes nothing of the worth: the
/// number is the same, written with zeros behind.
pub proof fn lemma_round_to_fill(d: DecimalView, places: nat)
    requires
        places >= d.frac_digits.len(),
    ensures
        scaled_value(d.round_to(places)) == scaled_value(d) * pow10(
            (places - d.frac_digits.len()) as nat,
        ),
{
    let fill = zeros((places - d.frac_digits.len()) as nat);
    let result = d.round_to(places);
    assert(result.int_digits + result.frac_digits =~= (d.int_digits + d.frac_digits) + fill);
    lemma_digits_value_concat(d.int_digits + d.frac_digits, fill);
    lemma_zeros_value(fill.len());
}

} // verus!
