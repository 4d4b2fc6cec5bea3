//! Numbers written as text, in base ten and base sixteen.

use vstd::prelude::*;

verus! {

/// Why a text is not a number of the wanted size.
#[derive(Clone, Copy, Debug, PartialEq, Eq, Structural)]
pub enum NumberError {
    /// There is no text at all.
    Empty,
    /// A character is not a digit, or a sign stands alone.
    InvalidDigit,
    /// The number is too large.
    TooLarge,
}

/// Whether `c` is a decimal digit.
pub open spec fn is_digit(c: char) -> bool {
    '0' <= c <= '9'
}

/// What the decimal digit `c` counts.
pub open spec fn digit_value(c: char) -> nat {
    (c as u32 - '0' as u32) as nat
}

/// The decimal digit that counts `n`.
pub open spec fn digit(n: nat) -> char {
    (('0' as u32 + n) as u32) as char
}

/// Reads decimal digits from left to right, up to the first character that is
/// not a digit or that makes the number larger than `max`.
pub open spec fn scan_decimal(s: Seq<char>, max: nat) -> Result<nat, NumberError>
    decreases s.len(),
{
    if s.len() == 0 {
        Ok(0)
    } else {
        match scan_decimal(s.drop_last(), max) {
            Err(error) => Err(error),
            Ok(high) => if !is_digit(s.last()) {
                Err(NumberError::InvalidDigit)
            } else if high * 10 + digit_value(s.last()) > max {
                Err(NumberError::TooLarge)
            } else {
                Ok(high * 10 + digit_value(s.last()))
            },
        }
    }
}

/// The decimal digits of `s`: all of it but one plus sign in front.
pub open spec fn unsigned_part(s: Seq<char>) -> Seq<char> {
    if s.len() > 0 && s[0] == '+' {
        s.skip(1)
    } else {
        s
    }
}

/// The number that `s` writes in base ten, if it is at most `max`.
pub open spec fn decimal_value(s: Seq<char>, max: nat) -> Result<nat, NumberError> {
    if s.len() == 0 {
        Err(NumberError::Empty)
    } else if unsigned_part(s).len() == 0 {
        Err(NumberError::InvalidDigit)
    } else {
        scan_decimal(unsigned_part(s), max)
    }
}

/// Reads the number that `s` writes in base ten.
pub fn parse_decimal(s: &[char], max: u32) -> (result: Result<u32, NumberError>)
    ensures
        match result {
            Ok(value) => decimal_value(s@, max as nat) == Ok::<nat, NumberError>(value as nat)
                && value <= max,
            Err(error) => decimal_value(s@, max as nat) == Err::<nat, NumberError>(error),
        },
{
    if s.len() == 0 {
        return Err(NumberError::Empty);
    }
    let start: usize = if s[0] == '+' {
        1
    } else {
        0
    };
    if start == s.len() {
        return Err(NumberError::InvalidDigit);
    }
    let ghost digits = unsigned_part(s@);
    assert(digits =~= s@.skip(start as int));
    let mut value: u32 = 0;
    let mut i: usize = start;
    while i < s.len()
        invariant
            start <= i <= s@.len(),
            0 < digits.len(),
            0 < s@.len(),
            digits == unsigned_part(s@),
            digits == s@.skip(start as int),
            scan_decimal(digits.take(i - start), max as nat) == Ok::<nat, NumberError>(
                value as nat,
            ),
            value <= max,
        decreases s@.len() - i,
    {
        let c: char = s[i];
        assert(digits.take(i + 1 - start).drop_last() =~= digits.take(i - start));
        assert(digits.take(i + 1 - start).last() == c);
        if !(('0' <= c) && (c <= '9')) {
            proof {
                lemma_scan_stops(digits, i + 1 - start, max as nat);
            }
            return Err(NumberError::InvalidDigit);
        }
        let next: u64 = value as u64 * 10 + (c as u32 - '0' as u32) as u64;
        if next > max as u64 {
            proof {
                lemma_scan_stops(digits, i + 1 - start, max as nat);
            }
            return Err(NumberError::TooLarge);
        }
        value = next as u32;
        i = i + 1;
    }
    assert(digits.take(i - start) =~= digits);
    Ok(value)
}

/// A reading that stops with an error stops so whatever follows.
proof fn lemma_scan_stops(s: Seq<char>, k: int, max: nat)
    requires
        0 <= k <= s.len(),
        scan_decimal(s.take(k), max) is Err,
    ensures
        scan_decimal(s, max) == scan_decimal(s.take(k), max),
    decreases s.len(),
{
    if k == s.len() {
        assert(s.take(k) =~= s);
    } else {
        assert(s.drop_last().take(k) =~= s.take(k));
        lemma_scan_stops(s.drop_last(), k, max);
    }
}

/// The number that the decimal digits of `s` write, whatever its size.
pub open spec fn digits_value(s: Seq<char>) -> nat
    decreases s.len(),
{
    if s.len() == 0 {
        0
    } else {
        digits_value(s.drop_last()) * 10 + digit_value(s.last())
    }
}

/// A text is a number if and only if what follows the optional plus sign is one
/// or more digits whose value is within the limit.
pub proof fn law_decimal_accepts(s: Seq<char>, max: nat, value: nat)
    ensures
        decimal_value(s, max) == Ok::<nat, NumberError>(value) <==> {
            &&& unsigned_part(s).len() > 0
            &&& forall|i: int|
                0 <= i < unsigned_part(s).len() ==> is_digit(#[trigger] unsigned_part(s)[i])
            &&& digits_value(unsigned_part(s)) == value
            &&& value <= max
        },
{
    lemma_scan_accepts(unsigned_part(s), max);
}

proof fn lemma_scan_accepts(s: Seq<char>, max: nat)
    ensures
        match scan_decimal(s, max) {
            Ok(value) => {
                &&& forall|i: int| 0 <= i < s.len() ==> is_digit(#[trigger] s[i])
                &&& value == digits_value(s)
                &&& value <= max
            },
            Err(_) => {
                ||| digits_value(s) > max
                ||| exists|i: int| 0 <= i < s.len() && !is_digit(#[trigger] s[i])
            },
        },
    decreases s.len(),
{
    if s.len() > 0 {
        let t = s.drop_last();
        lemma_scan_accepts(t, max);
        match scan_decimal(t, max) {
            Ok(_) => {
                assert forall|i: int| 0 <= i < s.len() && is_digit(s.last()) implies is_digit(
                    #[trigger] s[i],
                ) by {
                    if i < t.len() {
                        assert(is_digit(t[i]));
                    }
                }
                if !is_digit(s.last()) {
                    assert(!is_digit(s[s.len() - 1]));
                }
            },
            Err(_) => {
                if digits_value(t) <= max {
                    let i = choose|i: int| 0 <= i < t.len() && !is_digit(#[trigger] t[i]);
                    assert(!is_digit(s[i]));
                }
            },
        }
    }
}

/// `n` in base ten, without leading zeros.
pub open spec fn decimal(n: nat) -> Seq<char>
    decreases n,
{
    if n < 10 {
        seq![digit(n)]
    } else {
        decimal(n / 10).push(digit(n % 10))
    }
}

/// Writes `n` in base ten.
pub fn decimal_chars(n: u128) -> (chars: Vec<char>)
    ensures
        chars@ == decimal(n as nat),
    decreases n,
{
    let c: char = (('0' as u8) + (n % 10) as u8) as char;
    if n < 10 {
        let mut chars: Vec<char> = Vec::new();
        chars.push(c);
        assert(chars@ =~= seq![digit(n as nat)]);
        chars
    } else {
        let mut chars: Vec<char> = decimal_chars(n / 10);
        chars.push(c);
        chars
    }
}

/// A number written in base ten is digits only, and starts with no zero unless
/// it is zero itself.
pub proof fn lemma_decimal_digits(n: nat)
    ensures
        decimal(n).len() > 0,
        n > 0 ==> decimal(n)[0] != '0',
        n < 10 ==> decimal(n).len() == 1,
        n < 100 ==> decimal(n).len() <= 2,
        n < 1000 ==> decimal(n).len() <= 3,
        forall|i: int| 0 <= i < decimal(n).len() ==> is_digit(#[trigger] decimal(n)[i]),
    decreases n,
{
    if n >= 10 {
        lemma_decimal_digits(n / 10);
    }
}

/// Reading a number back from what was written gives the number, or that it is
/// too large if it is beyond the limit.
pub proof fn law_decimal_round_trip(n: nat, max: nat)
    ensures
        decimal_value(decimal(n), max) == if n <= max {
            Ok::<nat, NumberError>(n)
        } else {
            Err(NumberError::TooLarge)
        },
{
    lemma_decimal_digits(n);
    lemma_scan_decimal(n, max);
    assert(is_digit(decimal(n)[0]));
}

/// Reading digits back gives the number that they were written for, if it is
/// within the limit.
pub proof fn lemma_scan_decimal(n: nat, max: nat)
    ensures
        scan_decimal(decimal(n), max) == if n <= max {
            Ok::<nat, NumberError>(n)
        } else {
            Err(NumberError::TooLarge)
        },
    decreases n,
{
    if n < 10 {
        assert(decimal(n).drop_last() =~= Seq::<char>::empty());
        assert(scan_decimal(Seq::<char>::empty(), max) == Ok::<nat, NumberError>(0));
    } else {
        lemma_scan_decimal(n / 10, max);
        assert(decimal(n).drop_last() =~= decimal(n / 10));
    }
}

/// What the hexadecimal digit `c` counts, in either case.
pub open spec fn hex_digit_value(c: char) -> Option<nat> {
    if '0' <= c <= '9' {
        Some((c as u32 - '0' as u32) as nat)
    } else if 'a' <= c <= 'f' {
        Some((c as u32 - 'a' as u32 + 10) as nat)
    } else if 'A' <= c <= 'F' {
        Some((c as u32 - 'A' as u32 + 10) as nat)
    } else {
        None
    }
}

/// The lower-case hexadecimal digit that counts `n`.
pub open spec fn hex_digit(n: nat) -> char {
    if n < 10 {
        (('0' as u32 + n) as u32) as char
    } else {
        (('a' as u32 + (n - 10)) as u32) as char
    }
}

/// The number that hexadecimal digits write; no digits write zero.
pub open spec fn hex_value(s: Seq<char>) -> Option<nat>
    decreases s.len(),
{
    if s.len() == 0 {
        Some(0)
    } else {
        match (hex_value(s.drop_last()), hex_digit_value(s.last())) {
            (Some(high), Some(low)) => Some(high * 16 + low),
            _ => None,
        }
    }
}

/// `n` in base sixteen, without leading zeros.
pub open spec fn hex(n: nat) -> Seq<char>
    decreases n,
{
    if n < 16 {
        seq![hex_digit(n)]
    } else {
        hex(n / 16).push(hex_digit(n % 16))
    }
}

/// What the hexadecimal digit `c` counts.
pub fn parse_hex_digit(c: char) -> (result: Option<u32>)
    ensures
        match result {
            Some(value) => hex_digit_value(c) == Some(value as nat) && value < 16,
            None => hex_digit_value(c) is None,
        },
{
    if '0' <= c && c <= '9' {
        Some(c as u32 - '0' as u32)
    } else if 'a' <= c && c <= 'f' {
        Some(c as u32 - 'a' as u32 + 10)
    } else if 'A' <= c && c <= 'F' {
        Some(c as u32 - 'A' as u32 + 10)
    } else {
        None
    }
}

/// Writes `n` in base sixteen.
pub fn hex_chars(n: u16) -> (chars: Vec<char>)
    ensures
        chars@ == hex(n as nat),
    decreases n,
{
    let low: u8 = (n % 16) as u8;
    let c: char = if low < 10 {
        (('0' as u8) + low) as char
    } else {
        (('a' as u8) + (low - 10)) as char
    };
    if n < 16 {
        let mut chars: Vec<char> = Vec::new();
        chars.push(c);
        assert(chars@ =~= seq![hex_digit(n as nat)]);
        chars
    } else {
        let mut chars: Vec<char> = hex_chars(n / 16);
        chars.push(c);
        chars
    }
}

/// Reading hexadecimal digits back gives the number that they were written for.
pub proof fn lemma_hex_round_trip(n: nat)
    ensures
        hex_value(hex(n)) == Some(n),
        hex(n).len() > 0,
        n < 0x10 ==> hex(n).len() <= 1,
        n < 0x100 ==> hex(n).len() <= 2,
        n < 0x1000 ==> hex(n).len() <= 3,
        n < 0x10000 ==> hex(n).len() <= 4,
        forall|i: int|
            0 <= i < hex(n).len() ==> hex_digit_value(#[trigger] hex(n)[i]) is Some,
    decreases n,
{
    if n < 16 {
        assert(hex(n).drop_last() =~= Seq::<char>::empty());
        assert(hex_value(Seq::<char>::empty()) == Some(0nat));
    } else {
        lemma_hex_round_trip(n / 16);
        assert(hex(n).drop_last() =~= hex(n / 16));
    }
}

/// A plus sign in front of digits counts for nothing; a text that is empty, or that
/// has anything but digits behind the sign before it grows too large, is no number.
pub proof fn law_decimal_errors(s: Seq<char>, max: nat)
    ensures
        decimal_value(s, max) == Err::<nat, NumberError>(NumberError::Empty) <==> s.len() == 0,
        s.len() > 0 && is_digit(s[0]) ==> decimal_value(seq!['+'] + s, max) == decimal_value(
            s,
            max,
        ),
        decimal_value(seq!['-'] + s, max) == Err::<nat, NumberError>(NumberError::InvalidDigit),
        decimal_value(s, max) == Err::<nat, NumberError>(NumberError::TooLarge) ==> digits_value(
            unsigned_part(s),
        ) > max,
{
    assert((seq!['+'] + s).skip(1) =~= s);
    lemma_bad_digit(seq!['-'] + s, max);
    lemma_too_large(unsigned_part(s), max);
}

/// A text whose first character is no digit has an invalid digit.
proof fn lemma_bad_digit(s: Seq<char>, max: nat)
    requires
        s.len() > 0,
        !is_digit(s[0]),
    ensures
        scan_decimal(s, max) == Err::<nat, NumberError>(NumberError::InvalidDigit),
    decreases s.len(),
{
    if s.len() > 1 {
        assert(s.drop_last()[0] == s[0]);
        lemma_bad_digit(s.drop_last(), max);
    } else {
        assert(s.drop_last() =~= Seq::empty());
        assert(scan_decimal(Seq::empty(), max) == Ok::<nat, NumberError>(0));
    }
}

/// Only a number beyond the limit is too large, and nothing else is an error of
/// reading digits but a character that is none.
proof fn lemma_too_large(s: Seq<char>, max: nat)
    ensures
        scan_decimal(s, max) == Err::<nat, NumberError>(NumberError::TooLarge) ==> digits_value(s)
            > max,
        scan_decimal(s, max) != Err::<nat, NumberError>(NumberError::Empty),
        scan_decimal(s, max) matches Ok(value) ==> value == digits_value(s),
    decreases s.len(),
{
    if s.len() > 0 {
        lemma_too_large(s.drop_last(), max);
    }
}

/// One digit in base sixteen counts its place among `0` to `9` and `a` to `f`, in
/// either case; another digit behind digits makes them count sixteen times as much
/// and adds itself. Any other character makes a text no number.
pub proof fn law_hex_digit_by_digit(s: Seq<char>, c: char)
    ensures
        hex_value(Seq::empty()) == Some(0nat),
        '0' <= c <= '9' && hex_value(s) is Some ==> hex_value(s.push(c)) == Some(
            (hex_value(s)->Some_0 * 16 + (c as u32 - '0' as u32)) as nat,
        ),
        'a' <= c <= 'f' && hex_value(s) is Some ==> hex_value(s.push(c)) == Some(
            (hex_value(s)->Some_0 * 16 + 10 + (c as u32 - 'a' as u32)) as nat,
        ),
        'A' <= c <= 'F' && hex_value(s) is Some ==> hex_value(s.push(c)) == Some(
            (hex_value(s)->Some_0 * 16 + 10 + (c as u32 - 'A' as u32)) as nat,
        ),
        hex_value(s) is None || !('0' <= c <= '9' || 'a' <= c <= 'f' || 'A' <= c <= 'F')
            ==> hex_value(s.push(c)) is None,
{
    assert(s.push(c).drop_last() =~= s);
}

/// Digits without a leading zero are what their number is written as.
pub proof fn law_decimal_exact(s: Seq<char>, max: nat)
    requires
        s.len() > 0,
        s.len() > 1 ==> s[0] != '0',
    ensures
        scan_decimal(s, max) matches Ok(value) ==> s == decimal(value) && (s[0] != '0' ==> value > 0),
    decreases s.len(),
{
    if scan_decimal(s, max) is Ok {
        let front = s.drop_last();
        let value = scan_decimal(s, max)->Ok_0;
        let c = s.last();
        assert(is_digit(c));
        assert(digit(digit_value(c)) == c);
        if s.len() == 1 {
            assert(front =~= Seq::empty());
            assert(scan_decimal(Seq::empty(), max) == Ok::<nat, NumberError>(0));
            assert(s =~= seq![c]);
        } else {
            assert(front[0] == s[0]);
            law_decimal_exact(front, max);
            let high = scan_decimal(front, max)->Ok_0;
            assert(value / 10 == high && value % 10 == digit_value(c));
            assert(s =~= front.push(c));
        }
    }
}

} // verus!
