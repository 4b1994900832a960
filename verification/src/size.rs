//! Sizes: sector counts read from text, byte counts, and the decimal and
//! human-readable forms in which a byte count is shown.

use crate::text::{is_whitespace, to_chars, trim_range, trimmed, trimmed_start};
use vstd::prelude::*;

verus! {

/// Bytes in one sector.
pub const SECTOR_BYTES: u64 = 512;

/// Whether `c` is one of the ASCII digits `0` to `9`.
pub open spec fn is_digit(c: char) -> bool {
    0x30 <= c as u32 <= 0x39
}

/// The number that the ASCII digit `c` stands for.
pub open spec fn digit_value(c: char) -> nat {
    (c as u32 - 0x30) as nat
}

/// The ASCII digit that stands for `d`, for `d` below ten.
pub open spec fn digit_char(d: nat) -> char {
    if d == 0 {
        '0'
    } else if d == 1 {
        '1'
    } else if d == 2 {
        '2'
    } else if d == 3 {
        '3'
    } else if d == 4 {
        '4'
    } else if d == 5 {
        '5'
    } else if d == 6 {
        '6'
    } else if d == 7 {
        '7'
    } else if d == 8 {
        '8'
    } else {
        '9'
    }
}

/// Whether every character of `s` is an ASCII digit.
pub open spec fn all_digits(s: Seq<char>) -> bool {
    forall|i: int| 0 <= i < s.len() ==> is_digit(#[trigger] s[i])
}

/// The number that the digits of `s` write in base ten.
pub open spec fn digits_value(s: Seq<char>) -> nat
    decreases s.len(),
{
    if s.len() == 0 {
        0
    } else {
        10 * digits_value(s.drop_last()) + digit_value(s.last())
    }
}

/// `s` without one plus sign at its start.
pub open spec fn unsigned_part(s: Seq<char>) -> Seq<char> {
    if s.len() > 0 && s.first() == '+' {
        s.drop_first()
    } else {
        s
    }
}

/// The number that `s` writes, if `s` is an optional plus sign followed by
/// one or more ASCII digits and the number fits in 64 bits.
pub open spec fn parsed_u64(s: Seq<char>) -> Option<u64> {
    let digits = unsigned_part(s);
    if digits.len() > 0 && all_digits(digits) && digits_value(digits) <= u64::MAX {
        Some(digits_value(digits) as u64)
    } else {
        None
    }
}

/// The decimal digits of `n`, without leading zeros.
pub open spec fn decimal(n: nat) -> Seq<char>
    decreases n,
{
    if n < 10 {
        seq![digit_char(n)]
    } else {
        decimal(n / 10).push(digit_char(n % 10))
    }
}

/// The sector count that the text of a size attribute gives: the number
/// written in it, whitespace around it aside, and zero if it writes none.
pub open spec fn sector_count(text: Seq<char>) -> u64 {
    match parsed_u64(trimmed(text)) {
        Some(n) => n,
        None => 0,
    }
}

/// The byte count of `sectors` sectors, reduced to 64 bits.
pub open spec fn sectors_to_bytes(sectors: u64) -> u64 {
    ((sectors * SECTOR_BYTES) % 0x1_0000_0000_0000_0000) as u64
}

/// The distance between neighbouring numbers with 53 significant bits
/// around `n`: one below 2^53, and doubling with each further bit of `n`.
pub open spec fn spacing(n: nat) -> nat
    decreases n,
{
    if n < 0x20_0000_0000_0000 {
        1
    } else {
        2 * spacing(n / 2)
    }
}

/// `n / unit` rounded to the nearest whole number, a tie going to the even
/// one.
pub open spec fn rounded_quotient(n: nat, unit: nat) -> nat {
    let q = n / unit;
    let r = n % unit;
    if 2 * r > unit || (2 * r == unit && q % 2 == 1) {
        q + 1
    } else {
        q
    }
}

/// `n` rounded to 53 significant bits, a tie going to the even neighbour:
/// the number that a double-precision value holds for `n`. Below 2^53 that
/// is `n` itself.
pub open spec fn rounded_to_53_bits(n: nat) -> nat {
    if n < 0x20_0000_0000_0000 {
        n
    } else {
        rounded_quotient(n, spacing(n)) * spacing(n)
    }
}

/// 1024 to the power `k`.
pub open spec fn pow1024(k: nat) -> nat
    decreases k,
{
    if k == 0 {
        1
    } else {
        1024 * pow1024((k - 1) as nat)
    }
}

/// Number of divisions by 1024 that bring `v` below 1024, counting on from
/// `k` divisions already made and stopping at six.
pub open spec fn divisions_from(v: nat, k: nat) -> nat
    decreases 6 - k,
{
    if k < 6 && v >= pow1024(k + 1) {
        divisions_from(v, k + 1)
    } else {
        k
    }
}

/// Index of the unit in which `v` is shown: the number of divisions by 1024
/// that bring `v` below 1024, at most six.
pub open spec fn unit_index(v: nat) -> nat {
    divisions_from(v, 0)
}

/// The letter of the unit with index `k`: B, K, M, G, T, P, E.
pub open spec fn unit_symbol(k: nat) -> char {
    if k == 0 {
        'B'
    } else if k == 1 {
        'K'
    } else if k == 2 {
        'M'
    } else if k == 3 {
        'G'
    } else if k == 4 {
        'T'
    } else if k == 5 {
        'P'
    } else {
        'E'
    }
}

/// The human-readable form of a byte count. The count is taken with 53
/// significant bits and divided by 1024 while it is at least 1024 and a
/// larger unit is left. In bytes it is shown whole; in a larger unit with one
/// decimal place, rounded to the nearest tenth, a tie going to the even one.
pub open spec fn human_readable(bytes: nat) -> Seq<char> {
    let v = rounded_to_53_bits(bytes);
    let k = unit_index(v);
    if k == 0 {
        decimal(v).push(unit_symbol(0))
    } else {
        let tenths = rounded_quotient(10 * v, pow1024(k));
        decimal(tenths / 10).push('.').push(digit_char(tenths % 10)).push(unit_symbol(k))
    }
}

/// The value of a digit string is at least the value of each of its
/// prefixes.
proof fn lemma_digits_value_prefix(s: Seq<char>, i: int)
    requires
        0 <= i <= s.len(),
    ensures
        digits_value(s.take(i)) <= digits_value(s),
    decreases s.len() - i,
{
    if i == s.len() {
        assert(s.take(i) == s);
    } else {
        lemma_digits_value_prefix(s, i + 1);
        assert(s.take(i + 1).drop_last() == s.take(i));
    }
}

/// The decimal digits of a number are digits, at least one, and write that
/// number.
pub proof fn lemma_decimal_digits(n: nat)
    ensures
        decimal(n).len() > 0,
        all_digits(decimal(n)),
        digits_value(decimal(n)) == n,
    decreases n,
{
    if n < 10 {
        assert(decimal(n).drop_last() == Seq::<char>::empty());
        assert(digits_value(decimal(n).drop_last()) == 0);
    } else {
        lemma_decimal_digits(n / 10);
        assert(decimal(n).drop_last() == decimal(n / 10));
    }
}

/// Reading the decimal form of a 64-bit number gives that number back.
pub proof fn lemma_decimal_round_trip(n: u64)
    ensures
        parsed_u64(decimal(n as nat)) == Some(n),
        sector_count(decimal(n as nat)) == n,
{
    lemma_decimal_digits(n as nat);
    let d = decimal(n as nat);
    assert(is_digit(d[0]));
    assert(unsigned_part(d) == d);
    assert(!is_whitespace(d[0]));
    assert(!is_whitespace(d.last())) by {
        assert(is_digit(d[d.len() - 1]));
    }
    assert(trimmed_start(d) == d);
    assert(trimmed(d) == d);
}

proof fn lemma_pow1024_values()
    ensures
        pow1024(0) == 1,
        pow1024(1) == 0x400,
        pow1024(2) == 0x10_0000,
        pow1024(3) == 0x4000_0000,
        pow1024(4) == 0x100_0000_0000,
        pow1024(5) == 0x4_0000_0000_0000,
        pow1024(6) == 0x1000_0000_0000_0000,
{
    reveal_with_fuel(pow1024, 7);
}

/// The unit index is the least number of divisions by 1024, up to six, that
/// brings the value below 1024.
pub proof fn lemma_unit_index(v: nat)
    ensures
        unit_index(v) <= 6,
        v >= pow1024(unit_index(v)) || unit_index(v) == 0,
        unit_index(v) < 6 ==> v < pow1024(unit_index(v) + 1),
{
    lemma_pow1024_values();
    reveal_with_fuel(divisions_from, 7);
}

fn digit_to_char(d: u8) -> (c: char)
    requires
        d < 10,
    ensures
        c == digit_char(d as nat),
{
    if d == 0 {
        '0'
    } else if d == 1 {
        '1'
    } else if d == 2 {
        '2'
    } else if d == 3 {
        '3'
    } else if d == 4 {
        '4'
    } else if d == 5 {
        '5'
    } else if d == 6 {
        '6'
    } else if d == 7 {
        '7'
    } else if d == 8 {
        '8'
    } else {
        '9'
    }
}

fn unit_to_char(k: usize) -> (c: char)
    ensures
        c == unit_symbol(k as nat),
{
    if k == 0 {
        'B'
    } else if k == 1 {
        'K'
    } else if k == 2 {
        'M'
    } else if k == 3 {
        'G'
    } else if k == 4 {
        'T'
    } else if k == 5 {
        'P'
    } else {
        'E'
    }
}

/// Appends the decimal digits of `n` to `out`.
pub(crate) fn push_decimal(out: &mut String, n: u128)
    ensures
        final(out)@ == old(out)@ + decimal(n as nat),
    decreases n,
{
    if n >= 10 {
        push_decimal(out, n / 10);
    }
    out.push(digit_to_char((n % 10) as u8));
}

/// The decimal digits of `n`, without leading zeros.
pub fn to_decimal(n: u64) -> (text: String)
    ensures
        text@ == decimal(n as nat),
{
    let mut text = String::new();
    push_decimal(&mut text, n as u128);
    text
}

/// Reads an unsigned 64-bit number: an optional plus sign, then one or more
/// ASCII digits. Anything else, or a number that does not fit, gives `None`.
pub fn parse_u64(s: &str) -> (r: Option<u64>)
    ensures
        r == parsed_u64(s@),
{
    let v = to_chars(s);
    assert(v@.subrange(0, v.len() as int) == v@);
    parse_u64_range(&v, 0, v.len())
}

/// Reads the characters `v[from..to]` as `parse_u64` reads a string.
pub(crate) fn parse_u64_range(v: &Vec<char>, from: usize, to: usize) -> (r: Option<u64>)
    requires
        from <= to <= v.len(),
    ensures
        r == parsed_u64(v@.subrange(from as int, to as int)),
{
    let ghost s = v@.subrange(from as int, to as int);
    let start: usize = if from < to && v[from] == '+' {
        from + 1
    } else {
        from
    };
    let ghost digits = unsigned_part(s);
    assert(digits == v@.subrange(start as int, to as int));
    if start == to {
        return None;
    }
    let mut acc: u64 = 0;
    let mut i: usize = start;
    while i < to
        invariant
            from <= start <= i <= to <= v.len(),
            digits == unsigned_part(v@.subrange(from as int, to as int)),
            digits == v@.subrange(start as int, to as int),
            all_digits(digits.take(i - start)),
            acc == digits_value(digits.take(i - start)),
        decreases to - i,
    {
        let c: u32 = v[i] as u32;
        assert(digits[i - start] == v@[i as int]);
        if c < 0x30 || c > 0x39 {
            assert(!is_digit(digits[i - start]));
            return None;
        }
        let d: u64 = (c - 0x30) as u64;
        let ghost next = digits.take(i - start + 1);
        assert(next.drop_last() == digits.take(i - start));
        assert(next.last() == digits[i - start]);
        assert(digits_value(next) == 10 * acc + d);
        assert(all_digits(next)) by {
            assert forall|j: int| 0 <= j < next.len() implies is_digit(#[trigger] next[j]) by {
                if j < i - start {
                    assert(next[j] == digits.take(i - start)[j]);
                }
            }
        }
        if acc > (u64::MAX - d) / 10 {
            proof {
                lemma_digits_value_prefix(digits, i - start + 1);
            }
            return None;
        }
        acc = acc * 10 + d;
        i += 1;
    }
    assert(digits.take(i - start) == digits);
    Some(acc)
}

/// The byte count that the text of a size attribute stands for: its sector
/// count times 512, where text that writes no number counts as zero sectors.
pub fn convert_size_to_bytes(size_str: &str) -> (bytes: u64)
    ensures
        bytes == sectors_to_bytes(sector_count(size_str@)),
        sector_count(size_str@) * SECTOR_BYTES <= u64::MAX ==> bytes == sector_count(size_str@)
            * SECTOR_BYTES,
{
    let v = to_chars(size_str);
    let (from, to) = trim_range(&v);
    let sectors: u64 = match parse_u64_range(&v, from, to) {
        Some(n) => n,
        None => 0,
    };
    sectors.wrapping_mul(SECTOR_BYTES)
}

/// The human-readable form of a byte count: whole bytes below 1024, else the
/// count in the largest unit of K, M, G, T, P, E that leaves it below 1024,
/// with one decimal place. The count is taken as a double-precision value
/// holds it, which is exact below 2^53.
pub fn convert_bytes_to_human_readable(bytes: u64) -> (text: String)
    ensures
        text@ == human_readable(bytes as nat),
{
    let unit: u64 = spacing_of(bytes);
    let q: u128 = (bytes / unit) as u128;
    let r: u128 = (bytes % unit) as u128;
    let up: bool = 2 * r > unit as u128 || (2 * r == unit as u128 && q % 2 == 1);
    let mantissa: u128 = if up {
        q + 1
    } else {
        q
    };
    assert(mantissa * unit <= 0x1_0000_0000_0000_0000 * 0x1000) by (nonlinear_arith)
        requires
            mantissa <= 0x1_0000_0000_0000_0000,
            unit <= 0x1000,
    ;
    let v: u128 = mantissa * (unit as u128);
    assert(v == rounded_quotient(bytes as nat, spacing(bytes as nat)) * spacing(bytes as nat));
    assert(v == rounded_to_53_bits(bytes as nat)) by {
        if bytes < 0x20_0000_0000_0000 {
            assert(spacing(bytes as nat) == 1);
            assert(unit == 1);
            assert(q == bytes && r == 0) by (nonlinear_arith)
                requires
                    unit == 1,
                    q == bytes / unit,
                    r == bytes % unit,
            ;
            assert(v == bytes) by (nonlinear_arith)
                requires
                    unit == 1,
                    mantissa == bytes,
                    v == mantissa * unit,
            ;
        }
    }

    let mut k: usize = 0;
    let mut d: u128 = 1;
    proof {
        lemma_pow1024_values();
    }
    while k < 6 && v >= d * 1024
        invariant
            k <= 6,
            d == pow1024(k as nat),
            d <= 0x1000_0000_0000_0000,
            unit_index(v as nat) == divisions_from(v as nat, k as nat),
        decreases 6 - k,
    {
        proof {
            lemma_pow1024_values();
        }
        d = d * 1024;
        k += 1;
    }
    let mut text = String::new();
    if k == 0 {
        push_decimal(&mut text, v);
        text.push('B');
    } else {
        let n: u128 = 10 * v;
        let q10: u128 = n / d;
        let r10: u128 = n % d;
        let tenths: u128 = if 2 * r10 > d || (2 * r10 == d && q10 % 2 == 1) {
            q10 + 1
        } else {
            q10
        };
        assert(tenths == rounded_quotient(10 * (v as nat), pow1024(k as nat)));
        push_decimal(&mut text, tenths / 10);
        text.push('.');
        text.push(digit_to_char((tenths % 10) as u8));
        text.push(unit_to_char(k));
    }
    text
}

/// The spacing of the numbers with 53 significant bits around `n`.
fn spacing_of(n: u64) -> (unit: u64)
    ensures
        unit == spacing(n as nat),
        1 <= unit < 0x1000,
{
    let mut unit: u64 = 1;
    let mut m: u64 = n;
    while m >= 0x20_0000_0000_0000
        invariant
            1 <= unit < 0x1000,
            m == n / unit,
            spacing(n as nat) == unit * spacing(m as nat),
        decreases m,
    {
        proof {
            vstd::arithmetic::div_mod::lemma_div_denominator(n as int, unit as int, 2);
            assert(unit * 0x20_0000_0000_0000 <= n) by (nonlinear_arith)
                requires
                    m >= 0x20_0000_0000_0000,
                    m == n / unit,
                    unit >= 1,
            ;
            assert(unit * spacing(m as nat) == (unit * 2) * spacing((m / 2) as nat))
                by (nonlinear_arith)
                requires
                    spacing(m as nat) == 2 * spacing((m / 2) as nat),
            ;
        }
        m = m / 2;
        unit = unit * 2;
    }
    assert(spacing(m as nat) == 1);
    assert(unit * spacing(m as nat) == unit) by (nonlinear_arith)
        requires
            spacing(m as nat) == 1,
    ;
    unit
}

} // verus!
