//! Decimal digit runs: what they denote, how they are scanned and how a
//! number is written as one.

use crate::marks::{DIGIT_NINE, DIGIT_ZERO};
use vstd::prelude::*;

verus! {

/// True of the ASCII digits `0` to `9`.
pub open spec fn is_digit(byte: u8) -> bool {
    DIGIT_ZERO <= byte <= DIGIT_NINE
}

/// The index of the first byte at or after `from` that is no digit, or the
/// length of `bytes` where every byte from `from` on is one.
pub open spec fn digit_run_end(bytes: Seq<u8>, from: int) -> int
    decreases bytes.len() - from,
{
    if 0 <= from < bytes.len() && is_digit(bytes[from]) {
        digit_run_end(bytes, from + 1)
    } else {
        from
    }
}

/// The number that a run of digits denotes, most significant digit first.
/// Leading zeros do not change it and the empty run denotes zero.
pub open spec fn digits_value(digits: Seq<u8>) -> nat
    decreases digits.len(),
{
    if digits.len() == 0 {
        0
    } else {
        (10 * digits_value(digits.drop_last()) + (digits.last() - DIGIT_ZERO)) as nat
    }
}

/// The shortest run of digits that denotes `n`.
pub open spec fn decimal(n: nat) -> Seq<u8>
    decreases n,
{
    if n < 10 {
        seq![(DIGIT_ZERO + n) as u8]
    } else {
        decimal(n / 10).push((DIGIT_ZERO + n % 10) as u8)
    }
}

/// `decimal(n)` is a non-empty run of digits that starts with `0` only for
/// zero itself.
pub proof fn lemma_decimal_shape(n: nat)
    ensures
        decimal(n).len() >= 1,
        forall|i: int| 0 <= i < decimal(n).len() ==> is_digit(#[trigger] decimal(n)[i]),
        decimal(n)[0] == DIGIT_ZERO <==> n == 0,
        n == 0 ==> decimal(n).len() == 1,
    decreases n,
{
    if n >= 10 {
        lemma_decimal_shape(n / 10);
    }
}

/// Reading back what `decimal` wrote gives the number again.
pub proof fn lemma_decimal_value(n: nat)
    ensures
        digits_value(decimal(n)) == n,
    decreases n,
{
    if n < 10 {
        assert(decimal(n).drop_last() =~= Seq::<u8>::empty());
        reveal_with_fuel(digits_value, 2);
    } else {
        lemma_decimal_value(n / 10);
        assert(decimal(n).drop_last() =~= decimal(n / 10));
    }
}

/// A longer run of digits never denotes less than one of its prefixes.
pub proof fn lemma_digits_value_prefix(digits: Seq<u8>, k: int)
    requires
        0 <= k <= digits.len(),
        forall|i: int| 0 <= i < digits.len() ==> is_digit(#[trigger] digits[i]),
    ensures
        digits_value(digits.subrange(0, k)) <= digits_value(digits),
    decreases digits.len(),
{
    if k == digits.len() {
        assert(digits.subrange(0, k) =~= digits);
    } else {
        lemma_digits_value_prefix(digits.drop_last(), k);
        assert(digits.drop_last().subrange(0, k) =~= digits.subrange(0, k));
    }
}

/// What `digit_run_end` returns: the run `from..end` holds digits only and
/// is not followed by one.
pub proof fn lemma_digit_run_end(bytes: Seq<u8>, from: int)
    requires
        0 <= from,
    ensures
        from <= digit_run_end(bytes, from),
        from <= bytes.len() ==> digit_run_end(bytes, from) <= bytes.len(),
        forall|i: int|
            from <= i < digit_run_end(bytes, from) ==> 0 <= i < bytes.len() && is_digit(
                #[trigger] bytes[i],
            ),
        digit_run_end(bytes, from) < bytes.len() ==> !is_digit(
            bytes[digit_run_end(bytes, from)],
        ),
    decreases bytes.len() - from,
{
    if from < bytes.len() && is_digit(bytes[from]) {
        lemma_digit_run_end(bytes, from + 1);
    }
}

/// A run of `count` digits that no digit follows ends where it ends.
pub proof fn lemma_digit_run_found(bytes: Seq<u8>, from: int, count: int)
    requires
        0 <= from,
        0 <= count,
        from + count <= bytes.len(),
        forall|i: int| from <= i < from + count ==> is_digit(#[trigger] bytes[i]),
        from + count < bytes.len() ==> !is_digit(bytes[from + count]),
    ensures
        digit_run_end(bytes, from) == from + count,
    decreases count,
{
    if count > 0 {
        lemma_digit_run_found(bytes, from + 1, count - 1);
    }
}

/// Scans the run of digits that starts at `from`.
pub fn scan_digits(bytes: &[u8], from: usize) -> (end: usize)
    ensures
        end == digit_run_end(bytes@, from as int),
        from <= end,
        from <= bytes.len() ==> end <= bytes.len(),
{
    let mut end: usize = from;
    while end < bytes.len() && bytes[end] >= DIGIT_ZERO && bytes[end] <= DIGIT_NINE
        invariant
            from <= end,
            from <= bytes.len() ==> end <= bytes.len(),
            digit_run_end(bytes@, from as int) == digit_run_end(bytes@, end as int),
        decreases bytes.len() - end,
    {
        end = end + 1;
    }
    end
}

/// The number that the digits at `from..end` denote, or `None` where it does
/// not fit.
pub(crate) fn digits_to_u64(bytes: &[u8], from: usize, end: usize) -> (value: Option<u64>)
    requires
        from <= end <= bytes.len(),
        forall|i: int| from <= i < end ==> is_digit(#[trigger] bytes@[i]),
    ensures
        match value {
            Some(v) => v == digits_value(bytes@.subrange(from as int, end as int)),
            None => digits_value(bytes@.subrange(from as int, end as int)) > u64::MAX,
        },
{
    let ghost run = bytes@.subrange(from as int, end as int);
    let mut acc: u64 = 0;
    let mut at: usize = from;
    while at < end
        invariant
            from <= at <= end <= bytes.len(),
            run == bytes@.subrange(from as int, end as int),
            forall|i: int| from <= i < end ==> is_digit(#[trigger] bytes@[i]),
            acc == digits_value(bytes@.subrange(from as int, at as int)),
        decreases end - at,
    {
        let digit: u64 = (bytes[at] - DIGIT_ZERO) as u64;
        proof {
            let longer = bytes@.subrange(from as int, at + 1);
            assert(longer.drop_last() =~= bytes@.subrange(from as int, at as int));
            assert(longer.last() == bytes@[at as int]);
            assert(digits_value(longer) == 10 * acc + digit);
            assert(longer =~= run.subrange(0, at + 1 - from));
            lemma_digits_value_prefix(run, at + 1 - from);
        }
        let scaled = match acc.checked_mul(10) {
            Some(s) => s,
            None => { return None; },
        };
        acc = match scaled.checked_add(digit) {
            Some(s) => s,
            None => { return None; },
        };
        at = at + 1;
    }
    Some(acc)
}

/// The bytes in the opposite order.
pub open spec fn backwards(bytes: Seq<u8>) -> Seq<u8> {
    Seq::new(bytes.len(), |i: int| bytes[bytes.len() - 1 - i])
}

/// Appends the decimal digits of `n` to `out`.
pub fn push_decimal(out: &mut Vec<u8>, n: u64)
    ensures
        final(out)@ == old(out)@ + decimal(n as nat),
{
    let mut low_first: Vec<u8> = Vec::new();
    low_first.push(DIGIT_ZERO + (n % 10) as u8);
    let mut rest: u64 = n / 10;
    while rest > 0
        invariant
            low_first.len() >= 1,
            decimal(n as nat) == (if rest > 0 {
                decimal(rest as nat)
            } else {
                Seq::<u8>::empty()
            }) + backwards(low_first@),
        decreases rest,
    {
        let ghost shown = backwards(low_first@);
        low_first.push(DIGIT_ZERO + (rest % 10) as u8);
        proof {
            let digit = (DIGIT_ZERO + rest % 10) as u8;
            assert(backwards(low_first@) =~= seq![digit] + shown);
            if rest >= 10 {
                assert(decimal(rest as nat) =~= decimal((rest / 10) as nat) + seq![digit]);
            } else {
                assert(decimal(rest as nat) =~= seq![digit]);
            }
        }
        rest = rest / 10;
    }
    let ghost start = out@;
    let ghost digits = decimal(n as nat);
    let mut left: usize = low_first.len();
    while left > 0
        invariant
            left <= low_first.len(),
            digits == backwards(low_first@),
            out@ == start + digits.subrange(0, low_first.len() - left),
        decreases left,
    {
        left = left - 1;
        out.push(low_first[left]);
        assert(out@ =~= start + digits.subrange(0, low_first.len() - left));
    }
    assert(digits.subrange(0, low_first.len() as int) =~= digits);
}

} // verus!
