//! Decimal numbers as they are written: a sign, the digits before the point
//! and the digits after it.
//!
//! A `Decimal` stands for a measured value (a mass-to-charge ratio, an
//! intensity, a retention time) in the one form the interchange format knows
//! it: its decimal text. The digits are kept as given, so that writing a
//! number and reading it back changes nothing, and rounding is done on the
//! digits, to the nearest value with the wanted number of places.

use crate::text::{
    all_digits, digits_only, find_byte, find_from, is_digit, lemma_find_from, lemma_find_from_is,
    push_range, FIVE, MINUS, NINE, ONE, POINT, ZERO,
};
use vstd::prelude::*;

verus! {

/// What a `Decimal` holds: whether a minus sign leads, the digits before the
/// point and the digits after it, each digit as its ASCII byte.
pub struct DecimalView {
    pub negative: bool,
    pub int_digits: Seq<u8>,
    pub frac_digits: Seq<u8>,
}

/// `n` times the digit `0`.
pub open spec fn zeros(n: nat) -> Seq<u8> {
    Seq::new(n, |i: int| ZERO)
}

/// The digits of the number one larger than the one `digits` spell. The
/// result is one digit longer where every digit was a `9`.
pub open spec fn increment(digits: Seq<u8>) -> Seq<u8>
    decreases digits.len(),
{
    if digits.len() == 0 {
        seq![ONE]
    } else if digits.last() == NINE {
        increment(digits.drop_last()).push(ZERO)
    } else {
        digits.drop_last().push((digits.last() + 1) as u8)
    }
}

/// Whether cutting `dropped` off behind `kept` rounds away from zero: the cut
/// part is more than half a unit of the last kept digit, or exactly half and
/// the last kept digit is odd.
pub open spec fn rounds_up(kept: Seq<u8>, dropped: Seq<u8>) -> bool {
    dropped.len() >= 1 && (dropped[0] > FIVE || (dropped[0] == FIVE && ((exists|i: int|
        1 <= i < dropped.len() && dropped[i] != ZERO) || (kept.len() >= 1 && kept.last() % 2 == 1))))
}

/// The text of the sign: `-` for a negative number, nothing for any other.
pub open spec fn sign_text(negative: bool) -> Seq<u8> {
    if negative {
        seq![MINUS]
    } else {
        Seq::<u8>::empty()
    }
}

impl DecimalView {
    /// At least one digit stands before the point, and all digits are digits.
    pub open spec fn wf(self) -> bool {
        &&& self.int_digits.len() >= 1
        &&& all_digits(self.int_digits)
        &&& all_digits(self.frac_digits)
    }

    /// The text of the number: `-` where it is negative, the digits before
    /// the point and, where there are digits after it, the point and those.
    pub open spec fn text(self) -> Seq<u8> {
        sign_text(self.negative) + self.int_digits + (if self.frac_digits.len() > 0 {
            seq![POINT] + self.frac_digits
        } else {
            Seq::<u8>::empty()
        })
    }

    /// The number with exactly `places` digits after the point: filled up
    /// with zeros where it has fewer, rounded half to even where it has more.
    /// The sign stays, also where the digits become zero.
    pub open spec fn round_to(self, places: nat) -> DecimalView {
        if self.frac_digits.len() <= places {
            DecimalView {
                negative: self.negative,
                int_digits: self.int_digits,
                frac_digits: self.frac_digits + zeros((places - self.frac_digits.len()) as nat),
            }
        } else {
            let kept = self.int_digits + self.frac_digits.take(places as int);
            let dropped = self.frac_digits.skip(places as int);
            let digits = if rounds_up(kept, dropped) {
                increment(kept)
            } else {
                kept
            };
            DecimalView {
                negative: self.negative,
                int_digits: digits.take(digits.len() - places),
                frac_digits: digits.skip(digits.len() - places),
            }
        }
    }
}

/// The number that `t` spells: an optional `-`, one or more digits and,
/// optionally, a point followed by one or more digits. `None` for every
/// other text.
pub open spec fn parse_decimal(t: Seq<u8>) -> Option<DecimalView> {
    let negative = t.len() > 0 && t[0] == MINUS;
    let start: int = if negative {
        1
    } else {
        0
    };
    let dot = find_from(t, POINT, start);
    let int_digits = t.subrange(start, dot);
    let frac_digits = if dot < t.len() {
        t.subrange(dot + 1, t.len() as int)
    } else {
        Seq::<u8>::empty()
    };
    if int_digits.len() >= 1 && all_digits(int_digits) && all_digits(frac_digits) && (dot < t.len()
        ==> frac_digits.len() >= 1) {
        Some(DecimalView { negative, int_digits, frac_digits })
    } else {
        None
    }
}

/// Adding one to digits gives digits, as many or one more.
pub proof fn lemma_increment(digits: Seq<u8>)
    requires
        all_digits(digits),
    ensures
        all_digits(increment(digits)),
        digits.len() <= increment(digits).len() <= digits.len() + 1,
    decreases digits.len(),
{
    if digits.len() > 0 && digits.last() == NINE {
        lemma_increment(digits.drop_last());
    }
}

/// Rounding gives a number with exactly the wanted places and the same sign.
pub proof fn lemma_round_to(d: DecimalView, places: nat)
    requires
        d.wf(),
    ensures
        d.round_to(places).wf(),
        d.round_to(places).frac_digits.len() == places,
        d.round_to(places).negative == d.negative,
{
    if d.frac_digits.len() > places {
        let kept = d.int_digits + d.frac_digits.take(places as int);
        lemma_increment(kept);
    }
}

/// A number that has the wanted places already is left as it is.
pub proof fn lemma_round_to_same_places(d: DecimalView)
    ensures
        d.round_to(d.frac_digits.len()) == d,
{
    assert(d.frac_digits + zeros(0) =~= d.frac_digits);
}

/// Reading the text of a number gives that number.
pub proof fn lemma_parse_decimal_text(d: DecimalView)
    requires
        d.wf(),
    ensures
        parse_decimal(d.text()) == Some(d),
{
    let t = d.text();
    let start: int = if d.negative {
        1
    } else {
        0
    };
    let dot = start + d.int_digits.len();
    assert(is_digit(d.int_digits[0]));
    assert(t.len() > 0 && (t[0] == MINUS) == d.negative);
    assert forall|i: int| start <= i < dot implies t[i] != POINT by {
        assert(is_digit(d.int_digits[i - start]));
    }
    lemma_find_from_is(t, POINT, start, dot);
    assert(t.subrange(start, dot) =~= d.int_digits);
    if d.frac_digits.len() > 0 {
        assert(t.subrange(dot + 1, t.len() as int) =~= d.frac_digits);
    } else {
        assert(d.frac_digits =~= Seq::<u8>::empty());
    }
}

/// A text that reads as a number is the text of that number.
pub proof fn lemma_text_parse_decimal(t: Seq<u8>)
    requires
        parse_decimal(t) is Some,
    ensures
        parse_decimal(t).unwrap().wf(),
        parse_decimal(t).unwrap().text() == t,
{
    let negative = t.len() > 0 && t[0] == MINUS;
    let start: int = if negative {
        1
    } else {
        0
    };
    lemma_find_from(t, POINT, start);
    let d = parse_decimal(t).unwrap();
    assert(d.text() =~= t);
}

/// A decimal number, held as its digits. Two numbers are equal where they
/// are written alike: `1.5` and `1.50` are not.
#[derive(Debug, PartialEq, Eq)]
pub struct Decimal {
    negative: bool,
    int_digits: Vec<u8>,
    frac_digits: Vec<u8>,
}

impl View for Decimal {
    type V = DecimalView;

    closed spec fn view(&self) -> DecimalView {
        DecimalView {
            negative: self.negative,
            int_digits: self.int_digits@,
            frac_digits: self.frac_digits@,
        }
    }
}

/// Adds one to the number that the digits of `digits` spell.
fn increment_digits(digits: &mut Vec<u8>)
    requires
        all_digits(old(digits)@),
    ensures
        final(digits)@ == increment(old(digits)@),
{
    let ghost before = digits@;
    let mut i: usize = digits.len();
    proof {
        assert(before.take(i as int) =~= before);
        assert(increment(before) + digits@.skip(i as int) =~= increment(before));
    }
    while i > 0 && digits[i - 1] == NINE
        invariant
            0 <= i <= digits@.len(),
            digits@.len() == before.len(),
            digits@.take(i as int) == before.take(i as int),
            all_digits(before),
            increment(before) == increment(before.take(i as int)) + digits@.skip(i as int),
        decreases i,
    {
        let ghost head = before.take(i as int);
        let ghost tail = digits@.skip(i as int);
        proof {
            assert(head.last() == digits@.take(i as int)[i - 1]);
        }
        digits.set(i - 1, ZERO);
        i -= 1;
        proof {
            assert(head.drop_last() =~= before.take(i as int));
            assert(increment(head) == increment(before.take(i as int)).push(ZERO));
            assert(digits@.take(i as int) =~= before.take(i as int));
            assert(digits@.skip(i as int) =~= seq![ZERO] + tail);
            assert(increment(before.take(i as int)).push(ZERO) + tail =~= increment(
                before.take(i as int),
            ) + (seq![ZERO] + tail));
        }
    }
    if i == 0 {
        digits.insert(0, ONE);
        proof {
            assert(before.take(0) =~= Seq::<u8>::empty());
            assert(digits@ =~= increment(before));
        }
    } else {
        let ghost head = before.take(i as int);
        let ghost tail = digits@.skip(i as int);
        let last: u8 = digits[i - 1];
        proof {
            assert(last == digits@.take(i as int)[i - 1]);
            assert(last == head.last());
            assert(is_digit(before[i - 1]));
        }
        digits.set(i - 1, last + 1);
        proof {
            assert(increment(head) == head.drop_last().push((head.last() + 1) as u8));
            assert(digits@ =~= increment(head) + tail);
        }
    }
}

impl Clone for Decimal {
    fn clone(&self) -> (r: Self)
        ensures
            r@ == self@,
    {
        proof {
            use_type_invariant(self);
        }
        let mut int_digits: Vec<u8> = Vec::new();
        push_range(&mut int_digits, self.int_digits.as_slice(), 0, self.int_digits.len());
        let mut frac_digits: Vec<u8> = Vec::new();
        push_range(&mut frac_digits, self.frac_digits.as_slice(), 0, self.frac_digits.len());
        assert(int_digits@ =~= self.int_digits@);
        assert(frac_digits@ =~= self.frac_digits@);
        Decimal { negative: self.negative, int_digits, frac_digits }
    }
}

impl Decimal {
    #[verifier::type_invariant]
    spec fn inv(self) -> bool {
        self@.wf()
    }

    /// Reads a number from its text; `None` where the text is no number.
    pub fn parse(token: &[u8]) -> (r: Option<Decimal>)
        ensures
            match r {
                Some(d) => parse_decimal(token@) == Some(d@),
                None => parse_decimal(token@) is None,
            },
    {
        let n: usize = token.len();
        let negative: bool = n > 0 && token[0] == MINUS;
        let start: usize = if negative {
            1
        } else {
            0
        };
        let dot: usize = find_byte(token, POINT, start);
        proof {
            lemma_find_from(token@, POINT, start as int);
        }
        if dot == start || !digits_only(token, start, dot) {
            return None;
        }
        let mut int_digits: Vec<u8> = Vec::new();
        push_range(&mut int_digits, token, start, dot);
        let mut frac_digits: Vec<u8> = Vec::new();
        if dot < n {
            if dot + 1 == n || !digits_only(token, dot + 1, n) {
                return None;
            }
            push_range(&mut frac_digits, token, dot + 1, n);
        }
        assert(int_digits@ =~= token@.subrange(start as int, dot as int));
        assert(dot < n ==> frac_digits@ =~= token@.subrange(dot + 1, n as int));
        Some(Decimal { negative, int_digits, frac_digits })
    }

    /// Appends the text of the number to `out`.
    pub fn write_to(&self, out: &mut Vec<u8>)
        ensures
            final(out)@ == old(out)@ + self@.text(),
            self@.wf(),
    {
        proof {
            use_type_invariant(self);
        }
        if self.negative {
            out.push(MINUS);
        }
        push_range(out, self.int_digits.as_slice(), 0, self.int_digits.len());
        if self.frac_digits.len() > 0 {
            out.push(POINT);
            push_range(out, self.frac_digits.as_slice(), 0, self.frac_digits.len());
        }
        proof {
            assert(self.int_digits@.subrange(0, self.int_digits@.len() as int)
                =~= self.int_digits@);
            assert(self.frac_digits@.subrange(0, self.frac_digits@.len() as int)
                =~= self.frac_digits@);
            assert(out@ =~= old(out)@ + self@.text());
        }
    }

    /// The text of the number.
    pub fn to_text(&self) -> (text: Vec<u8>)
        ensures
            text@ == self@.text(),
            self@.wf(),
    {
        let mut text: Vec<u8> = Vec::new();
        self.write_to(&mut text);
        assert(text@ =~= self@.text());
        text
    }

    /// The number with exactly `places` digits after the point: filled up
    /// with zeros, or rounded half to even.
    pub fn rounded(&self, places: usize) -> (r: Decimal)
        ensures
            r@ == self@.round_to(places as nat),
            self@.wf(),
    {
        proof {
            use_type_invariant(self);
            lemma_round_to(self@, places as nat);
        }
        let int_len: usize = self.int_digits.len();
        let frac_len: usize = self.frac_digits.len();
        if frac_len <= places {
            let mut int_digits: Vec<u8> = Vec::new();
            push_range(&mut int_digits, self.int_digits.as_slice(), 0, int_len);
            let mut frac_digits: Vec<u8> = Vec::new();
            push_range(&mut frac_digits, self.frac_digits.as_slice(), 0, frac_len);
            let mut k: usize = frac_len;
            while k < places
                invariant
                    frac_len <= k <= places,
                    frac_len == self.frac_digits@.len(),
                    frac_digits@ == self.frac_digits@ + zeros((k - frac_len) as nat),
                decreases places - k,
            {
                frac_digits.push(ZERO);
                k += 1;
                assert(frac_digits@ =~= self.frac_digits@ + zeros((k - frac_len) as nat));
            }
            assert(int_digits@ =~= self.int_digits@);
            Decimal { negative: self.negative, int_digits, frac_digits }
        } else {
            let ghost kept = self.int_digits@ + self.frac_digits@.take(places as int);
            let ghost dropped = self.frac_digits@.skip(places as int);
            let mut digits: Vec<u8> = Vec::new();
            push_range(&mut digits, self.int_digits.as_slice(), 0, int_len);
            push_range(&mut digits, self.frac_digits.as_slice(), 0, places);
            assert(digits@ =~= kept);
            let first: u8 = self.frac_digits[places];
            let mut sticky: bool = false;
            let mut j: usize = places + 1;
            while j < frac_len
                invariant
                    places + 1 <= j <= frac_len,
                    frac_len == self.frac_digits@.len(),
                    dropped == self.frac_digits@.skip(places as int),
                    sticky <==> exists|i: int| 1 <= i < j - places && dropped[i] != ZERO,
                decreases frac_len - j,
            {
                if self.frac_digits[j] != ZERO {
                    assert(dropped[j - places] != ZERO);
                    sticky = true;
                }
                j += 1;
            }
            let odd: bool = digits[digits.len() - 1] % 2 == 1;
            let up: bool = first > FIVE || (first == FIVE && (sticky || odd));
            assert(first == dropped[0]);
            assert(up == rounds_up(kept, dropped));
            proof {
                lemma_increment(kept);
            }
            if up {
                increment_digits(&mut digits);
            }
            let split: usize = digits.len() - places;
            let mut int_digits: Vec<u8> = Vec::new();
            push_range(&mut int_digits, digits.as_slice(), 0, split);
            let mut frac_digits: Vec<u8> = Vec::new();
            push_range(&mut frac_digits, digits.as_slice(), split, digits.len());
            assert(int_digits@ =~= digits@.take(split as int));
            assert(frac_digits@ =~= digits@.skip(split as int));
            Decimal { negative: self.negative, int_digits, frac_digits }
        }
    }

    /// Whether the number is written with a minus sign.
    pub fn is_negative(&self) -> (negative: bool)
        ensures
            negative == self@.negative,
    {
        self.negative
    }

    /// How many digits stand after the point.
    pub fn places(&self) -> (places: usize)
        ensures
            places == self@.frac_digits.len(),
    {
        self.frac_digits.len()
    }
}

} // verus!
