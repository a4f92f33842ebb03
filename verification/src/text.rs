//! Decimal digits, unsigned numbers and byte searches: the small pieces of
//! text that both the writer and the reader of the interchange format use.

use vstd::prelude::*;

verus! {

/// The line feed, which ends a line.
pub const LINE_FEED: u8 = 10;

/// The space, which stands between the two values of a peak.
pub const SPACE: u8 = 32;

/// The sign `+`.
pub const PLUS: u8 = 43;

/// The sign `-`.
pub const MINUS: u8 = 45;

/// The decimal point.
pub const POINT: u8 = 46;

/// The digit `0`.
pub const ZERO: u8 = 48;

/// The digit `1`.
pub const ONE: u8 = 49;

/// The digit `5`.
pub const FIVE: u8 = 53;

/// The digit `9`.
pub const NINE: u8 = 57;

/// Whether `b` is one of the ASCII digits `0` to `9`.
pub open spec fn is_digit(b: u8) -> bool {
    ZERO <= b <= NINE
}

/// Whether every byte of `s` is an ASCII digit.
pub open spec fn all_digits(s: Seq<u8>) -> bool {
    forall|i: int| 0 <= i < s.len() ==> is_digit(#[trigger] s[i])
}

/// The value of one ASCII digit; 0 for any other byte.
pub open spec fn digit_value(b: u8) -> nat {
    if is_digit(b) {
        (b - ZERO) as nat
    } else {
        0
    }
}

/// The number that the digits of `s` spell in base ten; 0 for no digits.
pub open spec fn digits_value(s: Seq<u8>) -> nat
    decreases s.len(),
{
    if s.len() == 0 {
        0
    } else {
        digits_value(s.drop_last()) * 10 + digit_value(s.last())
    }
}

/// The decimal digits of `n`, without leading zeros; `0` for zero.
pub open spec fn uint_text(n: nat) -> Seq<u8>
    decreases n,
{
    if n < 10 {
        seq![(ZERO + n) as u8]
    } else {
        uint_text(n / 10).push((ZERO + n % 10) as u8)
    }
}

/// The number that `t` spells, where `t` is one or more digits and the
/// number is at most `max`; `None` for every other text.
pub open spec fn parse_uint(t: Seq<u8>, max: nat) -> Option<nat> {
    if t.len() >= 1 && all_digits(t) && digits_value(t) <= max {
        Some(digits_value(t))
    } else {
        None
    }
}

/// The first position at or after `start` where `s` holds `b`; the length of
/// `s` where it holds none.
pub open spec fn find_from(s: Seq<u8>, b: u8, start: int) -> int
    decreases s.len() - start,
{
    if start < 0 || start >= s.len() {
        s.len() as int
    } else if s[start] == b {
        start
    } else {
        find_from(s, b, start + 1)
    }
}

/// The digits of a number are digits, and spell that number.
pub proof fn lemma_uint_text(n: nat)
    ensures
        uint_text(n).len() >= 1,
        all_digits(uint_text(n)),
        digits_value(uint_text(n)) == n,
    decreases n,
{
    let s = uint_text(n);
    if n < 10 {
        assert(s.drop_last() =~= Seq::<u8>::empty());
        assert(digits_value(s.drop_last()) == 0);
        assert(s.last() == (ZERO + n) as u8);
    } else {
        lemma_uint_text(n / 10);
        assert(s.drop_last() =~= uint_text(n / 10));
        assert(s.last() == (ZERO + n % 10) as u8);
        assert(digit_value(s.last()) == n % 10);
    }
    assert(digits_value(s) == digits_value(s.drop_last()) * 10 + digit_value(s.last()));
}

/// Reading back the digits that were written for `n` gives `n`.
pub proof fn lemma_parse_uint_text(n: nat, max: nat)
    requires
        n <= max,
    ensures
        parse_uint(uint_text(n), max) == Some(n),
{
    lemma_uint_text(n);
}

/// A longer run of digits spells a number at least as large as any of its
/// beginnings.
pub proof fn lemma_digits_value_prefix(s: Seq<u8>, k: int)
    requires
        0 <= k <= s.len(),
    ensures
        digits_value(s.take(k)) <= digits_value(s),
    decreases s.len() - k,
{
    if k == s.len() {
        assert(s.take(k) =~= s);
    } else {
        lemma_digits_value_prefix(s, k + 1);
        assert(s.take(k + 1).drop_last() =~= s.take(k));
    }
}

/// What `find_from` finds: no `b` before it, and `b` at it unless it is the end.
pub proof fn lemma_find_from(s: Seq<u8>, b: u8, start: int)
    requires
        0 <= start <= s.len(),
    ensures
        start <= find_from(s, b, start) <= s.len(),
        forall|i: int| start <= i < find_from(s, b, start) ==> s[i] != b,
        find_from(s, b, start) < s.len() ==> s[find_from(s, b, start)] == b,
    decreases s.len() - start,
{
    if start < s.len() && s[start] != b {
        lemma_find_from(s, b, start + 1);
    }
}

/// A position with no `b` before it, and with `b` at it or at the end, is the
/// one that `find_from` finds.
pub proof fn lemma_find_from_is(s: Seq<u8>, b: u8, start: int, at: int)
    requires
        0 <= start <= at <= s.len(),
        forall|i: int| start <= i < at ==> s[i] != b,
        at < s.len() ==> s[at] == b,
    ensures
        find_from(s, b, start) == at,
    decreases at - start,
{
    if start < at {
        lemma_find_from_is(s, b, start + 1, at);
    }
}

/// The first position at or after `start` where `bytes` holds `b`, or the
/// length of `bytes`.
pub fn find_byte(bytes: &[u8], b: u8, start: usize) -> (at: usize)
    requires
        start <= bytes@.len(),
    ensures
        at == find_from(bytes@, b, start as int),
{
    let mut i: usize = start;
    while i < bytes.len() && bytes[i] != b
        invariant
            start <= i <= bytes@.len(),
            find_from(bytes@, b, start as int) == find_from(bytes@, b, i as int),
        decreases bytes@.len() - i,
    {
        i += 1;
    }
    i
}

/// Whether the bytes of `token` from `from` up to `to` are all digits.
pub fn digits_only(token: &[u8], from: usize, to: usize) -> (yes: bool)
    requires
        from <= to <= token@.len(),
    ensures
        yes == all_digits(token@.subrange(from as int, to as int)),
{
    let ghost part = token@.subrange(from as int, to as int);
    let mut i: usize = from;
    while i < to
        invariant
            from <= i <= to <= token@.len(),
            part == token@.subrange(from as int, to as int),
            forall|j: int| 0 <= j < i - from ==> is_digit(#[trigger] part[j]),
        decreases to - i,
    {
        if token[i] < ZERO || token[i] > NINE {
            assert(!is_digit(part[i - from]));
            return false;
        }
        i += 1;
    }
    true
}

/// Appends the bytes of `bytes` from `from` up to `to` to `out`.
pub fn push_range(out: &mut Vec<u8>, bytes: &[u8], from: usize, to: usize)
    requires
        from <= to <= bytes@.len(),
    ensures
        final(out)@ == old(out)@ + bytes@.subrange(from as int, to as int),
{
    let mut i: usize = from;
    while i < to
        invariant
            from <= i <= to <= bytes@.len(),
            out@ == old(out)@ + bytes@.subrange(from as int, i as int),
        decreases to - i,
    {
        out.push(bytes[i]);
        i += 1;
        assert(out@ =~= old(out)@ + bytes@.subrange(from as int, i as int));
    }
}

/// Appends the decimal digits of `n` to `out`.
pub fn push_uint(out: &mut Vec<u8>, n: u32)
    ensures
        final(out)@ == old(out)@ + uint_text(n as nat),
    decreases n,
{
    if n < 10 {
        out.push(ZERO + n as u8);
        assert(final(out)@ =~= old(out)@ + uint_text(n as nat));
    } else {
        push_uint(out, n / 10);
        out.push(ZERO + (n % 10) as u8);
        assert(out@ =~= old(out)@ + uint_text(n as nat));
    }
}

/// Reads an unsigned number of at most `max` from a run of digits.
pub fn parse_u32(token: &[u8], max: u32) -> (r: Option<u32>)
    ensures
        match r {
            Some(v) => parse_uint(token@, max as nat) == Some(v as nat),
            None => parse_uint(token@, max as nat) is None,
        },
{
    let n: usize = token.len();
    if n == 0 {
        return None;
    }
    let mut acc: u64 = 0;
    let mut i: usize = 0;
    while i < n
        invariant
            n == token@.len(),
            0 <= i <= n,
            all_digits(token@.take(i as int)),
            acc == digits_value(token@.take(i as int)),
            acc <= max,
        decreases n - i,
    {
        let b: u8 = token[i];
        if b < ZERO || b > NINE {
            assert(!is_digit(token@[i as int]));
            return None;
        }
        assert(token@.take(i + 1).drop_last() =~= token@.take(i as int));
        let next: u64 = acc * 10 + (b - ZERO) as u64;
        if next > max as u64 {
            proof {
                lemma_digits_value_prefix(token@, i + 1);
            }
            return None;
        }
        acc = next;
        i += 1;
    }
    assert(token@.take(n as int) =~= token@);
    Some(acc as u32)
}

} // verus!
