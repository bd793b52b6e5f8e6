//! Decimal digits, as they appear in length and count lines.
use vstd::prelude::*;

verus! {

/// The ASCII code of the digit `0`.
pub const ZERO: u8 = 48;

/// True when the byte is an ASCII decimal digit.
pub open spec fn is_digit(c: u8) -> bool {
    ZERO <= c <= ZERO + 9
}

/// True when every byte of `s` is an ASCII decimal digit.
pub open spec fn all_digits(s: Seq<u8>) -> bool {
    forall|i: int| 0 <= i < s.len() ==> is_digit(#[trigger] s[i])
}

/// The number that a string of decimal digits denotes.
pub open spec fn digits_value(s: Seq<u8>) -> nat
    decreases s.len(),
{
    if s.len() == 0 {
        0
    } else {
        digits_value(s.drop_last()) * 10 + (s.last() - ZERO) as nat
    }
}

/// The shortest decimal spelling of `n`.
pub open spec fn decimal(n: nat) -> Seq<u8>
    decreases n,
{
    if n < 10 {
        seq![(ZERO + n) as u8]
    } else {
        decimal(n / 10).push((ZERO + n % 10) as u8)
    }
}

/// What a count line denotes: an optional `+` followed by one or more digits,
/// whose value fits in a `usize`.
pub open spec fn count_value(line: Seq<u8>) -> Option<nat> {
    number_value(line, usize::MAX as nat)
}

/// What a number denotes: an optional `+` followed by one or more digits,
/// whose value is at most `max`.
pub open spec fn number_value(line: Seq<u8>, max: nat) -> Option<nat> {
    let digits = if line.len() > 0 && line[0] == 43u8 {
        line.drop_first()
    } else {
        line
    };
    if digits.len() > 0 && all_digits(digits) && digits_value(digits) <= max {
        Some(digits_value(digits))
    } else {
        None
    }
}

/// The decimal spelling of a number is a non-empty string of digits that denotes it.
pub proof fn lemma_decimal(n: nat)
    ensures
        decimal(n).len() >= 1,
        all_digits(decimal(n)),
        digits_value(decimal(n)) == n,
    decreases n,
{
    if n >= 10 {
        lemma_decimal(n / 10);
        let d = decimal(n / 10);
        assert(decimal(n).drop_last() =~= d);
        assert(decimal(n).last() == (ZERO + n % 10) as u8);
        assert(digits_value(decimal(n)) == digits_value(d) * 10 + n % 10);
        assert(n == (n / 10) * 10 + n % 10);
    } else {
        assert(decimal(n).drop_last() =~= Seq::<u8>::empty());
        assert(decimal(n).last() == (ZERO + n) as u8);
        assert(((ZERO + n) as u8) as int == ZERO + n);
        assert(digits_value(Seq::<u8>::empty()) == 0);
        assert(digits_value(decimal(n)) == digits_value(decimal(n).drop_last()) * 10 + n);
    }
}

/// A count line written in shortest form reads back as its number.
pub proof fn lemma_count_of_decimal(n: nat)
    requires
        n <= usize::MAX,
    ensures
        count_value(decimal(n)) == Some(n),
{
    lemma_decimal(n);
    assert(is_digit(decimal(n)[0]));
}

/// A longer prefix of digits never denotes a smaller number.
proof fn lemma_digits_prefix_le(s: Seq<u8>, i: int, j: int)
    requires
        0 <= i <= j <= s.len(),
        all_digits(s),
    ensures
        digits_value(s.take(i)) <= digits_value(s.take(j)),
    decreases j - i,
{
    if i < j {
        lemma_digits_prefix_le(s, i, j - 1);
        assert(s.take(j).drop_last() =~= s.take(j - 1));
    }
}

/// Appends the shortest decimal spelling of `n` to `out`.
pub fn push_decimal(out: &mut Vec<u8>, n: usize)
    ensures
        final(out)@ == old(out)@ + decimal(n as nat),
    decreases n,
{
    if n >= 10 {
        push_decimal(out, n / 10);
    }
    out.push(ZERO + (n % 10) as u8);
    assert(final(out)@ =~= old(out)@ + decimal(n as nat));
}

/// Reads a count line: an optional `+` and decimal digits whose value fits in a `usize`.
pub fn parse_count(line: &[u8]) -> (r: Option<usize>)
    ensures
        match count_value(line@) {
            Some(n) => r == Some(n as usize),
            None => r is None,
        },
{
    match parse_number(line, usize::MAX as u64) {
        Some(n) => Some(n as usize),
        None => None,
    }
}

/// Reads an optional `+` and decimal digits whose value is at most `max`.
pub fn parse_number(line: &[u8], max: u64) -> (r: Option<u64>)
    ensures
        match number_value(line@, max as nat) {
            Some(n) => r == Some(n as u64),
            None => r is None,
        },
{
    let len = line.len();
    let start: usize = if len > 0 && line[0] == 43u8 { 1 } else { 0 };
    let ghost digits = line@.subrange(start as int, len as int);
    assert(digits =~= (if len > 0 && line@[0] == 43u8 { line@.drop_first() } else { line@ }));
    assert(number_value(line@, max as nat) == if digits.len() > 0 && all_digits(digits) && digits_value(digits) <= max {
        Some(digits_value(digits))
    } else {
        None
    });
    if start == len {
        assert(digits.len() == 0);
        return None;
    }
    let mut i: usize = start;
    while i < len
        invariant
            start <= i <= len,
            len == line@.len(),
            digits == line@.subrange(start as int, len as int),
            forall|k: int| start <= k < i ==> is_digit(#[trigger] line@[k]),
            number_value(line@, max as nat) == if digits.len() > 0 && all_digits(digits) && digits_value(digits) <= max {
                Some(digits_value(digits))
            } else {
                None::<nat>
            },
        decreases len - i,
    {
        if line[i] < ZERO || line[i] > ZERO + 9 {
            assert(!is_digit(digits[i - start]));
            assert(!all_digits(digits));
            assert(number_value(line@, max as nat) is None);
            return None;
        }
        i = i + 1;
    }
    assert(all_digits(digits)) by {
        assert forall|k: int| 0 <= k < digits.len() implies is_digit(#[trigger] digits[k]) by {
            assert(digits[k] == line@[k + start]);
        }
    }
    let mut value: u64 = 0;
    let mut j: usize = start;
    while j < len
        invariant
            start <= j <= len,
            len == line@.len(),
            digits == line@.subrange(start as int, len as int),
            all_digits(digits),
            value as nat == digits_value(digits.take(j - start)),
            value <= max,
            number_value(line@, max as nat) == if digits.len() > 0 && all_digits(digits) && digits_value(digits) <= max {
                Some(digits_value(digits))
            } else {
                None::<nat>
            },
        decreases len - j,
    {
        assert(digits[j - start] == line@[j as int]);
        assert(is_digit(digits[j - start]));
        let d = line[j] - ZERO;
        assert(digits.take(j + 1 - start).drop_last() =~= digits.take(j - start));
        proof {
            lemma_digits_prefix_le(digits, j + 1 - start, digits.len() as int);
            assert(digits.take(digits.len() as int) =~= digits);
        }
        if d as u64 > max || value > (max - d as u64) / 10 {
            assert(digits_value(digits.take(j + 1 - start)) > max) by (nonlinear_arith)
                requires
                    d > max || value > (max - d) / 10,
                    digits_value(digits.take(j + 1 - start)) == value * 10 + d,
                    d <= 9,
            ;
            assert(digits_value(digits) > max);
            assert(number_value(line@, max as nat) is None);
            return None;
        }
        assert(value * 10 + d <= max) by (nonlinear_arith)
            requires
                value <= (max - d as u64) / 10,
                d <= 9,
        ;
        value = value * 10 + d as u64;
        j = j + 1;
    }
    assert(digits.take(digits.len() as int) =~= digits);
    Some(value)
}

} // verus!
