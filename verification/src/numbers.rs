//! Numbers in text.

use crate::text::{lemma_ascii_valid, push_text, text_of};
use vstd::prelude::*;
use vstd::string::StringSliceAdditionalSpecFns;
use vstd::utf8::*;

verus! {

/// `n` in decimal digits, without leading zeros.
pub open spec fn decimal(n: nat) -> Seq<u8>
    decreases n,
{
    if n < 10 {
        seq![(48 + n) as u8]
    } else {
        decimal(n / 10).push((48 + n % 10) as u8)
    }
}

/// The hexadecimal digit `d`, in lower case.
pub open spec fn hex_digit(d: nat) -> u8 {
    if d < 10 {
        (48 + d) as u8
    } else {
        (87 + d) as u8
    }
}

/// `n` in lower-case hexadecimal digits, without leading zeros.
pub open spec fn hexadecimal(n: nat) -> Seq<u8>
    decreases n,
{
    if n < 16 {
        seq![hex_digit(n)]
    } else {
        hexadecimal(n / 16).push(hex_digit(n % 16))
    }
}

/// Every byte is a decimal digit.
pub open spec fn all_digits(s: Seq<u8>) -> bool {
    forall|i: int| 0 <= i < s.len() ==> 48 <= #[trigger] s[i] <= 57
}

/// The number that decimal digits stand for.
pub open spec fn digits_value(s: Seq<u8>) -> nat
    decreases s.len(),
{
    if s.len() == 0 {
        0
    } else {
        (digits_value(s.drop_last()) * 10 + (s.last() - 48)) as nat
    }
}

/// `s` without a plus sign in front.
pub open spec fn without_plus(s: Seq<u8>) -> Seq<u8> {
    if s.len() > 0 && s[0] == 43 {
        s.skip(1)
    } else {
        s
    }
}

/// The number that `s` stands for: one or more decimal digits, perhaps behind a
/// plus sign, of a value up to `max`.
pub open spec fn number_in(s: Seq<u8>, max: nat) -> Option<nat> {
    let digits = without_plus(s);
    if digits.len() > 0 && all_digits(digits) && digits_value(digits) <= max {
        Some(digits_value(digits))
    } else {
        None
    }
}

/// `n` in decimal digits.
pub fn format_u64(n: u64) -> (r: Vec<u8>)
    ensures
        r@ == decimal(n as nat),
{
    let mut low_first: Vec<u8> = Vec::new();
    let mut rest: u64 = n;
    while rest >= 10
        invariant
            decimal(n as nat) == decimal(rest as nat) + low_first@.reverse(),
        decreases rest,
    {
        let ghost before = low_first@;
        low_first.push(48 + (rest % 10) as u8);
        assert(decimal(rest as nat) =~= decimal((rest / 10) as nat).push((48 + rest % 10) as u8));
        assert(low_first@.reverse() =~= seq![(48 + rest % 10) as u8] + before.reverse());
        assert(decimal((rest / 10) as nat).push((48 + rest % 10) as u8) + before.reverse()
            =~= decimal((rest / 10) as nat) + low_first@.reverse());
        rest = rest / 10;
    }
    let ghost before = low_first@;
    low_first.push(48 + rest as u8);
    assert(low_first@.reverse() =~= decimal(rest as nat) + before.reverse());
    reversed(&low_first)
}

/// The bytes of `v` from the last to the first.
fn reversed(v: &Vec<u8>) -> (r: Vec<u8>)
    ensures
        r@ == v@.reverse(),
{
    let mut r: Vec<u8> = Vec::with_capacity(v.len());
    let mut i: usize = v.len();
    while i > 0
        invariant
            i <= v@.len(),
            r@.len() == v@.len() - i,
            forall|j: int| 0 <= j < r@.len() ==> r@[j] == v@[v@.len() - 1 - j],
        decreases i,
    {
        i -= 1;
        r.push(v[i]);
    }
    assert(r@ =~= v@.reverse());
    r
}

/// The line that announces a chunk of `n` bytes: its hexadecimal digits and a
/// line end.
pub fn format_hex(n: usize) -> (r: Vec<u8>)
    ensures
        r@ == hexadecimal(n as nat) + "\r\n".spec_bytes(),
{
    let mut low_first: Vec<u8> = Vec::new();
    let mut rest: usize = n;
    while rest >= 16
        invariant
            hexadecimal(n as nat) == hexadecimal(rest as nat) + low_first@.reverse(),
        decreases rest,
    {
        let ghost before = low_first@;
        let digit: u8 = (rest % 16) as u8;
        low_first.push(if digit < 10 { 48 + digit } else { 87 + digit });
        assert(hexadecimal(rest as nat) =~= hexadecimal((rest / 16) as nat).push(
            hex_digit((rest % 16) as nat),
        ));
        assert(low_first@.reverse() =~= seq![hex_digit((rest % 16) as nat)] + before.reverse());
        assert(hexadecimal((rest / 16) as nat).push(hex_digit((rest % 16) as nat))
            + before.reverse() =~= hexadecimal((rest / 16) as nat) + low_first@.reverse());
        rest = rest / 16;
    }
    let ghost before = low_first@;
    let digit: u8 = rest as u8;
    low_first.push(if digit < 10 { 48 + digit } else { 87 + digit });
    assert(low_first@.reverse() =~= hexadecimal(rest as nat) + before.reverse());
    let mut r: Vec<u8> = reversed(&low_first);
    r.extend_from_slice("\r\n".as_bytes());
    assert(r@ =~= hexadecimal(n as nat) + "\r\n".spec_bytes());
    r
}

/// Decimal digits are digits.
pub proof fn lemma_decimal_digits(n: nat)
    ensures
        decimal(n).len() > 0,
        all_digits(decimal(n)),
    decreases n,
{
    if n >= 10 {
        lemma_decimal_digits(n / 10);
    }
}

/// Reading the decimal digits of a number gives the number back.
pub proof fn law_decimal_reads_back(n: nat, max: nat)
    requires
        n <= max,
    ensures
        number_in(decimal(n), max) == Some(n),
{
    lemma_decimal_digits(n);
    lemma_decimal_value(n);
    assert(decimal(n)[0] != 43);
}

proof fn lemma_decimal_value(n: nat)
    ensures
        digits_value(decimal(n)) == n,
    decreases n,
{
    if n < 10 {
        assert(decimal(n).drop_last() =~= Seq::<u8>::empty());
        assert(digits_value(decimal(n).drop_last()) == 0);
    } else {
        lemma_decimal_value(n / 10);
        assert(decimal(n).drop_last() =~= decimal(n / 10));
        assert(decimal(n).last() == (48 + n % 10) as u8);
    }
}

/// `n` in decimal digits, as text.
pub fn number_text(n: u64) -> (r: String)
    ensures
        encode_utf8(r@) == decimal(n as nat),
{
    let digits: Vec<u8> = format_u64(n);
    proof {
        lemma_decimal_digits(n as nat);
        lemma_ascii_valid(digits@);
    }
    text_of(digits)
}

/// A text and a number.
pub fn numbered(text: &str, n: usize) -> (r: String)
    ensures
        encode_utf8(r@) == text.spec_bytes() + decimal(n as nat),
{
    let mut buf: Vec<u8> = Vec::new();
    push_text(&mut buf, text);
    push_text(&mut buf, number_text(n as u64).as_str());
    assert(buf@ =~= text.spec_bytes() + decimal(n as nat));
    text_of(buf)
}

/// A longer run of digits stands for no smaller a number.
proof fn lemma_digits_grow(s: Seq<u8>, i: int)
    requires
        0 <= i <= s.len(),
        all_digits(s),
    ensures
        digits_value(s.take(i)) <= digits_value(s),
    decreases s.len() - i,
{
    if i == s.len() {
        assert(s.take(i) =~= s);
    } else {
        lemma_digits_grow(s, i + 1);
        assert(s.take(i + 1).drop_last() =~= s.take(i));
    }
}

/// Reads a decimal number of a value up to `max`, as `str::parse` does for an
/// unsigned integer.
pub fn parse_number(s: &[u8], max: u64) -> (r: Option<u64>)
    ensures
        match r {
            Some(n) => number_in(s@, max as nat) == Some(n as nat),
            None => number_in(s@, max as nat) is None,
        },
{
    let from: usize = if s.len() > 0 && s[0] == 43 { 1 } else { 0 };
    let ghost digits = without_plus(s@);
    assert(digits =~= s@.skip(from as int));
    if s.len() == from {
        return None;
    }
    let mut value: u64 = 0;
    let mut i: usize = from;
    assert(digits.take(0) =~= Seq::<u8>::empty());
    while i < s.len()
        invariant
            digits == s@.skip(from as int),
            from <= i <= s@.len(),
            forall|j: int| 0 <= j < i - from ==> 48 <= #[trigger] digits[j] <= 57,
            value == digits_value(digits.take(i - from)),
            value <= max,
            number_in(s@, max as nat) == (if digits.len() > 0 && all_digits(digits)
                && digits_value(digits) <= max { Some(digits_value(digits)) } else { None }),
        decreases s@.len() - i,
    {
        let b: u8 = s[i];
        assert(b == digits[i - from]);
        if b < 48 || b > 57 {
            return None;
        }
        let d: u64 = (b - 48) as u64;
        assert(digits.take(i - from + 1).drop_last() =~= digits.take(i - from));
        assert(digits_value(digits.take(i - from + 1)) == value * 10 + d);
        if value > max / 10 || d > max - value * 10 {
            proof {
                if all_digits(digits) {
                    lemma_digits_grow(digits, i - from + 1);
                }
            }
            return None;
        }
        value = value * 10 + d;
        i += 1;
    }
    assert(digits.take(digits.len() as int) =~= digits);
    Some(value)
}

/// The value of a hexadecimal digit in either case; 16 for any other byte.
pub open spec fn hex_digit_value(b: u8) -> nat {
    if 48 <= b <= 57 {
        (b - 48) as nat
    } else if 97 <= b <= 102 {
        (b - 87) as nat
    } else if 65 <= b <= 70 {
        (b - 55) as nat
    } else {
        16
    }
}

pub open spec fn all_hex(s: Seq<u8>) -> bool {
    forall|i: int| 0 <= i < s.len() ==> hex_digit_value(#[trigger] s[i]) < 16
}

/// The number that hexadecimal digits stand for.
pub open spec fn hex_value(s: Seq<u8>) -> nat
    decreases s.len(),
{
    if s.len() == 0 {
        0
    } else {
        hex_value(s.drop_last()) * 16 + hex_digit_value(s.last())
    }
}

/// The number that `s` stands for: one or more hexadecimal digits of a value up
/// to `max`.
pub open spec fn hex_number_in(s: Seq<u8>, max: nat) -> Option<nat> {
    if s.len() > 0 && all_hex(s) && hex_value(s) <= max {
        Some(hex_value(s))
    } else {
        None
    }
}

proof fn lemma_hex_grow(s: Seq<u8>, i: int)
    requires
        0 <= i <= s.len(),
    ensures
        hex_value(s.take(i)) <= hex_value(s),
    decreases s.len() - i,
{
    if i == s.len() {
        assert(s.take(i) =~= s);
    } else {
        lemma_hex_grow(s, i + 1);
        assert(s.take(i + 1).drop_last() =~= s.take(i));
    }
}

/// Reads a hexadecimal number of a value up to `max`.
pub fn parse_hex(s: &[u8], max: usize) -> (r: Option<usize>)
    ensures
        match r {
            Some(n) => hex_number_in(s@, max as nat) == Some(n as nat),
            None => hex_number_in(s@, max as nat) is None,
        },
{
    if s.len() == 0 {
        return None;
    }
    let mut value: usize = 0;
    let mut i: usize = 0;
    assert(s@.take(0) =~= Seq::<u8>::empty());
    while i < s.len()
        invariant
            i <= s@.len(),
            s@.len() > 0,
            forall|j: int| 0 <= j < i ==> hex_digit_value(#[trigger] s@[j]) < 16,
            value == hex_value(s@.take(i as int)),
            value <= max,
        decreases s@.len() - i,
    {
        let b: u8 = s[i];
        let d: usize = if 48 <= b && b <= 57 {
            (b - 48) as usize
        } else if 97 <= b && b <= 102 {
            (b - 87) as usize
        } else if 65 <= b && b <= 70 {
            (b - 55) as usize
        } else {
            return None;
        };
        assert(s@.take(i + 1).drop_last() =~= s@.take(i as int));
        if value > max / 16 || d > max - value * 16 {
            proof {
                lemma_hex_grow(s@, i + 1);
            }
            return None;
        }
        value = value * 16 + d;
        i += 1;
    }
    assert(s@.take(s@.len() as int) =~= s@);
    Some(value)
}

proof fn lemma_hexadecimal(n: nat)
    ensures
        hexadecimal(n).len() > 0,
        all_hex(hexadecimal(n)),
        hex_value(hexadecimal(n)) == n,
    decreases n,
{
    if n < 16 {
        assert(hexadecimal(n).drop_last() =~= Seq::<u8>::empty());
        assert(hex_value(hexadecimal(n).drop_last()) == 0);
    } else {
        lemma_hexadecimal(n / 16);
        assert(hexadecimal(n).drop_last() =~= hexadecimal(n / 16));
    }
}

/// Reading the hexadecimal digits of a number gives the number back.
pub proof fn law_hexadecimal_reads_back(n: nat, max: nat)
    requires
        n <= max,
    ensures
        hex_number_in(hexadecimal(n), max) == Some(n),
{
    lemma_hexadecimal(n);
}

// ── Laws ───────────────────────────────────────────────────────────────────

/// A number below ten is one digit, and any other is the number without its last
/// digit followed by that digit.
pub proof fn law_decimal_digits(n: nat, d: nat)
    requires
        d < 10,
    ensures
        decimal(d) == seq![(48 + d) as u8],
        n > 0 ==> decimal(10 * n + d) == decimal(n).push((48 + d) as u8),
{
    assert((10 * n + d) / 10 == n && (10 * n + d) % 10 == d);
}

/// A number is read digit by digit: one digit stands for itself, and a digit
/// behind a number makes it ten times as large and adds the digit, as long as that
/// is not over the limit.
pub proof fn law_number_by_digits(s: Seq<u8>, n: nat, d: nat, max: nat)
    requires
        d < 10,
    ensures
        d <= max ==> number_in(seq![(48 + d) as u8], max) == Some(d),
        number_in(s, max) == Some(n) ==> n <= max && number_in(s.push((48 + d) as u8), max) == (
        if 10 * n + d <= max {
            Some((10 * n + d) as nat)
        } else {
            None
        }),
{
    let one = seq![(48 + d) as u8];
    assert(one.drop_last() =~= Seq::<u8>::empty());
    assert(digits_value(Seq::<u8>::empty()) == 0);
    let longer = s.push((48 + d) as u8);
    let digits = without_plus(s);
    if number_in(s, max) == Some(n) {
        assert(without_plus(longer) =~= digits.push((48 + d) as u8));
        assert(digits.push((48 + d) as u8).drop_last() =~= digits);
    }
}

/// A plus sign in front of digits makes no difference.
pub proof fn law_number_plus(s: Seq<u8>, max: nat)
    requires
        s.len() > 0,
        s[0] != 43,
    ensures
        number_in(seq![43u8] + s, max) == number_in(s, max),
{
    assert((seq![43u8] + s).skip(1) =~= s);
}

/// Nothing is no number, nor is a text with anything but digits behind its first
/// byte, or with a first byte that is neither a digit nor a plus sign in front of
/// digits.
pub proof fn law_no_number(s: Seq<u8>, i: int, max: nat)
    requires
        s.len() == 0 || s == seq![43u8] || (0 <= i < s.len() && !(48 <= s[i] <= 57) && (i > 0 || s[i]
            != 43)),
    ensures
        number_in(s, max) is None,
{
    let digits = without_plus(s);
    if s == seq![43u8] {
        assert(digits.len() == 0);
    } else if s.len() > 0 {
        if s[0] == 43 {
            assert(digits[i - 1] == s[i]);
        } else {
            assert(digits[i] == s[i]);
        }
    }
}

/// A number below sixteen is one hexadecimal digit, of `0` to `9` and `a` to `f`;
/// any other is the number without its last digit followed by that digit.
pub proof fn law_hexadecimal_digits(n: nat, d: nat)
    requires
        d < 16,
    ensures
        hexadecimal(d) == seq![
            if d < 10 {
                (48 + d) as u8
            } else {
                (97 + d - 10) as u8
            },
        ],
        n > 0 ==> hexadecimal(16 * n + d) == hexadecimal(n) + hexadecimal(d),
{
    assert((16 * n + d) / 16 == n && (16 * n + d) % 16 == d);
    assert(hexadecimal(n).push(hex_digit(d)) =~= hexadecimal(n) + seq![hex_digit(d)]);
}

/// A hexadecimal number is read digit by digit, in either case.
pub proof fn law_hexadecimal_by_digits(s: Seq<u8>, n: nat, b: u8, d: nat, max: nat)
    requires
        d < 16,
        b == 48 + d && d < 10 || b == 97 + d - 10 && d >= 10 || b == 65 + d - 10 && d >= 10,
    ensures
        d <= max ==> hex_number_in(seq![b], max) == Some(d),
        hex_number_in(s, max) == Some(n) ==> n <= max && hex_number_in(s.push(b), max) == (if 16
            * n + d <= max {
            Some((16 * n + d) as nat)
        } else {
            None
        }),
{
    assert(seq![b].drop_last() =~= Seq::<u8>::empty());
    assert(hex_value(Seq::<u8>::empty()) == 0);
    assert(hex_digit_value(b) == d);
    if hex_number_in(s, max) == Some(n) {
        let longer = s.push(b);
        assert(longer.drop_last() =~= s);
        assert forall|i: int| 0 <= i < longer.len() implies hex_digit_value(#[trigger] longer[i])
            < 16 by {
            if i < s.len() {
                assert(longer[i] == s[i]);
            }
        }
        assert(hex_value(longer) == n * 16 + d);
        assert(all_hex(longer));
    }
}

/// Nothing is no hexadecimal number, nor is a text with a byte that is no
/// hexadecimal digit.
pub proof fn law_no_hexadecimal(s: Seq<u8>, i: int, max: nat)
    requires
        s.len() == 0 || (0 <= i < s.len() && !(48 <= s[i] <= 57) && !(97 <= s[i] <= 102) && !(65
            <= s[i] <= 70)),
    ensures
        hex_number_in(s, max) is None,
{
    if s.len() > 0 {
        assert(hex_digit_value(s[i]) == 16);
    }
}

} // verus!
