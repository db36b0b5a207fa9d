//! Sizes and durations as text.

use vstd::prelude::*;
use vstd::string::*;

verus! {

/// The character of a decimal digit.
pub open spec fn digit_char(digit: int) -> char {
    if digit == 0 {
        '0'
    } else if digit == 1 {
        '1'
    } else if digit == 2 {
        '2'
    } else if digit == 3 {
        '3'
    } else if digit == 4 {
        '4'
    } else if digit == 5 {
        '5'
    } else if digit == 6 {
        '6'
    } else if digit == 7 {
        '7'
    } else if digit == 8 {
        '8'
    } else {
        '9'
    }
}

/// The decimal digits of `n`, without leading zeros.
pub open spec fn decimal(n: nat) -> Seq<char>
    decreases n,
{
    if n < 10 {
        seq![digit_char(n as int)]
    } else {
        decimal(n / 10).push(digit_char((n % 10) as int))
    }
}

/// The last two decimal digits of `n`.
pub open spec fn two_digits(n: nat) -> Seq<char> {
    seq![digit_char(((n / 10) % 10) as int), digit_char((n % 10) as int)]
}

/// The decimal digits of `n`, or nothing for zero.
pub open spec fn leading_digits(n: nat) -> Seq<char> {
    if n == 0 {
        Seq::empty()
    } else {
        decimal(n)
    }
}

fn digit_of(digit: u8) -> (ch: char)
    requires
        digit < 10,
    ensures
        ch == digit_char(digit as int),
{
    if digit == 0 {
        '0'
    } else if digit == 1 {
        '1'
    } else if digit == 2 {
        '2'
    } else if digit == 3 {
        '3'
    } else if digit == 4 {
        '4'
    } else if digit == 5 {
        '5'
    } else if digit == 6 {
        '6'
    } else if digit == 7 {
        '7'
    } else if digit == 8 {
        '8'
    } else {
        '9'
    }
}

/// Appends the decimal digits of `n` to `text`.
pub fn push_decimal(text: &mut String, n: u128)
    ensures
        final(text)@ == old(text)@ + decimal(n as nat),
{
    let mut digits: Vec<char> = Vec::new();
    let mut rest: u128 = n;
    if n == 0 {
        text.push('0');
        assert(text@ =~= old(text)@ + decimal(0));
        return ;
    }
    while rest > 0
        invariant
            leading_digits(rest as nat) + digits@.reverse() == decimal(n as nat),
        decreases rest,
    {
        let ghost before = digits@;
        let ghost whole = rest;
        digits.push(digit_of((rest % 10) as u8));
        rest = rest / 10;
        proof {
            let d = digit_char((whole % 10) as int);
            assert(digits@.reverse() =~= seq![d] + before.reverse());
            assert(leading_digits(whole as nat) =~= leading_digits(rest as nat).push(d));
            assert(leading_digits(rest as nat) + digits@.reverse() =~= leading_digits(
                whole as nat,
            ) + before.reverse());
        }
    }
    let mut i: usize = digits.len();
    while i > 0
        invariant
            i <= digits@.len(),
            text@ == old(text)@ + digits@.reverse().subrange(0, digits@.len() - i),
        decreases i,
    {
        i -= 1;
        let ghost earlier = text@;
        text.push(digits[i]);
        proof {
            let turned = digits@.reverse();
            assert(turned[digits@.len() - 1 - i] == digits@[i as int]);
            assert(turned.subrange(0, digits@.len() - i) =~= turned.subrange(
                0,
                digits@.len() - 1 - i,
            ).push(digits@[i as int]));
            assert(text@ =~= old(text)@ + turned.subrange(0, digits@.len() - i));
        }
    }
    proof {
        assert(digits@.reverse().subrange(0, digits@.len() as int) =~= digits@.reverse());
        assert(leading_digits(0) + digits@.reverse() =~= digits@.reverse());
    }
}

/// Appends the last two decimal digits of `n` to `text`.
pub fn push_two_digits(text: &mut String, n: u128)
    ensures
        final(text)@ == old(text)@ + two_digits(n as nat),
{
    text.push(digit_of(((n / 10) % 10) as u8));
    text.push(digit_of((n % 10) as u8));
    assert(text@ =~= old(text)@ + two_digits(n as nat));
}

/// A duration of `total_seconds` seconds in short form: `"1h 02m 03s"`,
/// `"2m 03s"` or `"3s"`, the largest unit first and never zero.
pub open spec fn duration_text(total_seconds: u64) -> Seq<char> {
    let hours = (total_seconds / 3600) as nat;
    let minutes = ((total_seconds % 3600) / 60) as nat;
    let seconds = (total_seconds % 60) as nat;
    if hours > 0 {
        decimal(hours) + "h "@ + two_digits(minutes) + "m "@ + two_digits(seconds) + "s"@
    } else if minutes > 0 {
        decimal(minutes) + "m "@ + two_digits(seconds) + "s"@
    } else {
        decimal(seconds) + "s"@
    }
}

/// A duration of `total_seconds` seconds in short form.
pub fn format_duration_compact(total_seconds: u64) -> (text: String)
    ensures
        text@ == duration_text(total_seconds),
{
    let hours = total_seconds / 3600;
    let minutes = (total_seconds % 3600) / 60;
    let seconds = total_seconds % 60;
    let mut text = String::new();
    if hours > 0 {
        push_decimal(&mut text, hours as u128);
        text.append("h ");
        push_two_digits(&mut text, minutes as u128);
        text.append("m ");
        push_two_digits(&mut text, seconds as u128);
        text.append("s");
        assert(text@ =~= duration_text(total_seconds));
        return text;
    }
    if minutes > 0 {
        push_decimal(&mut text, minutes as u128);
        text.append("m ");
        push_two_digits(&mut text, seconds as u128);
        text.append("s");
        assert(text@ =~= duration_text(total_seconds));
        return text;
    }
    push_decimal(&mut text, seconds as u128);
    text.append("s");
    assert(text@ =~= duration_text(total_seconds));
    text
}


/// `n / d` rounded to the nearest whole number, a tie to the even one.
pub open spec fn round_half_even(n: nat, d: nat) -> nat {
    let q = n / d;
    let r = n % d;
    if 2 * r > d || (2 * r == d && q % 2 == 1) {
        q + 1
    } else {
        q
    }
}

/// The distance between neighbouring double-precision numbers around
/// `bytes`: numbers below 2^53 are all there, above it only every second,
/// then every fourth, and so on.
pub open spec fn double_spacing(bytes: u64) -> nat {
    if bytes < 0x20_0000_0000_0000 {
        1
    } else if bytes < 0x40_0000_0000_0000 {
        2
    } else if bytes < 0x80_0000_0000_0000 {
        4
    } else if bytes < 0x100_0000_0000_0000 {
        8
    } else if bytes < 0x200_0000_0000_0000 {
        16
    } else if bytes < 0x400_0000_0000_0000 {
        32
    } else if bytes < 0x800_0000_0000_0000 {
        64
    } else if bytes < 0x1000_0000_0000_0000 {
        128
    } else if bytes < 0x2000_0000_0000_0000 {
        256
    } else if bytes < 0x4000_0000_0000_0000 {
        512
    } else if bytes < 0x8000_0000_0000_0000 {
        1024
    } else {
        2048
    }
}

/// The double-precision number nearest to `bytes`, a tie to the one with
/// the even last bit: the number that sizes are shown from.
pub open spec fn nearest_double(bytes: u64) -> nat {
    round_half_even(bytes as nat, double_spacing(bytes)) * double_spacing(bytes)
}

/// The unit that a size of 1024 bytes or more is shown in: 1 for KB, up to
/// 5 for PB, the largest that the size reaches.
pub open spec fn unit_index(size: nat) -> int {
    if size < 0x10_0000 {
        1
    } else if size < 0x4000_0000 {
        2
    } else if size < 0x100_0000_0000 {
        3
    } else if size < 0x4_0000_0000_0000 {
        4
    } else {
        5
    }
}

/// The number of bytes in a unit.
pub open spec fn unit_size(unit: int) -> nat {
    if unit == 1 {
        0x400
    } else if unit == 2 {
        0x10_0000
    } else if unit == 3 {
        0x4000_0000
    } else if unit == 4 {
        0x100_0000_0000
    } else {
        0x4_0000_0000_0000
    }
}

/// The name of a unit.
pub open spec fn unit_name(unit: int) -> Seq<char> {
    if unit == 1 {
        "KB"@
    } else if unit == 2 {
        "MB"@
    } else if unit == 3 {
        "GB"@
    } else if unit == 4 {
        "TB"@
    } else {
        "PB"@
    }
}

/// A size in bytes as text. Below 1024 the bytes are shown as they are:
/// `"512 B"`. From there on the size is shown in the largest unit that it
/// reaches, with one decimal where that gives 10 units or more and with two
/// where it gives less: `"10.5 KB"`, `"1.50 MB"`. The last digit is
/// rounded to nearest, a tie to even.
pub open spec fn human_text(bytes: u64) -> Seq<char> {
    if bytes < 1024 {
        decimal(bytes as nat) + " B"@
    } else {
        let size = nearest_double(bytes);
        let unit = unit_index(size);
        if size >= 10 * unit_size(unit) {
            let tenths = round_half_even(size * 10, unit_size(unit));
            decimal(tenths / 10) + "."@ + seq![digit_char((tenths % 10) as int)] + " "@
                + unit_name(unit)
        } else {
            let hundredths = round_half_even(size * 100, unit_size(unit));
            decimal(hundredths / 100) + "."@ + two_digits(hundredths % 100) + " "@ + unit_name(
                unit,
            )
        }
    }
}

fn rounded_half_even(n: u128, d: u128) -> (rounded: u128)
    requires
        0 < d <= 0x4_0000_0000_0000,
        n <= 0xffff_ffff_ffff_ffff_ffff,
    ensures
        rounded == round_half_even(n as nat, d as nat),
        rounded * d <= n + d,
{
    let q = n / d;
    let r = n % d;
    assert(q * d <= n && (q + 1) * d == q * d + d) by (nonlinear_arith)
        requires
            q == n / d,
            d > 0,
    ;
    if 2 * r > d || (2 * r == d && q % 2 == 1) {
        q + 1
    } else {
        q
    }
}

fn spacing_of(bytes: u64) -> (spacing: u128)
    ensures
        spacing == double_spacing(bytes),
{
    let mut spacing: u128 = 1;
    let mut top: u128 = 0x20_0000_0000_0000;
    while (bytes as u128) >= top
        invariant
            0x20_0000_0000_0000 <= top <= 0x1_0000_0000_0000_0000,
            top == spacing * 0x20_0000_0000_0000,
            spacing == 1 || spacing == 2 || spacing == 4 || spacing == 8 || spacing == 16
                || spacing == 32 || spacing == 64 || spacing == 128 || spacing == 256 || spacing
                == 512 || spacing == 1024 || spacing == 2048,
            spacing > 1 ==> bytes >= top / 2,
        decreases 0x1_0000_0000_0000_0000 - top,
    {
        spacing = spacing * 2;
        top = top * 2;
    }
    spacing
}

fn unit_of(size: u128) -> (unit: (u8, u128))
    ensures
        unit.0 == unit_index(size as nat),
        unit.1 == unit_size(unit.0 as int),
{
    if size < 0x10_0000 {
        (1, 0x400)
    } else if size < 0x4000_0000 {
        (2, 0x10_0000)
    } else if size < 0x100_0000_0000 {
        (3, 0x4000_0000)
    } else if size < 0x4_0000_0000_0000 {
        (4, 0x100_0000_0000)
    } else {
        (5, 0x4_0000_0000_0000)
    }
}

fn push_unit(text: &mut String, unit: u8)
    ensures
        final(text)@ == old(text)@ + unit_name(unit as int),
{
    if unit == 1 {
        text.append("KB");
    } else if unit == 2 {
        text.append("MB");
    } else if unit == 3 {
        text.append("GB");
    } else if unit == 4 {
        text.append("TB");
    } else {
        text.append("PB");
    }
}

/// A size in bytes as text, in the largest unit that it reaches.
pub fn human_size(bytes: u64) -> (text: String)
    ensures
        text@ == human_text(bytes),
{
    let mut text = String::new();
    if bytes < 1024 {
        push_decimal(&mut text, bytes as u128);
        text.append(" B");
        assert(text@ =~= human_text(bytes));
        return text;
    }
    let spacing = spacing_of(bytes);
    assert(spacing <= 2048);
    let size: u128 = rounded_half_even(bytes as u128, spacing) * spacing;
    let (unit, unit_bytes) = unit_of(size);
    if size >= 10 * unit_bytes {
        let tenths = rounded_half_even(size * 10, unit_bytes);
        push_decimal(&mut text, tenths / 10);
        text.append(".");
        text.push(digit_of((tenths % 10) as u8));
        text.append(" ");
        push_unit(&mut text, unit);
        proof {
            assert(text@ =~= human_text(bytes));
        }
    } else {
        let hundredths = rounded_half_even(size * 100, unit_bytes);
        push_decimal(&mut text, hundredths / 100);
        text.append(".");
        push_two_digits(&mut text, hundredths % 100);
        text.append(" ");
        push_unit(&mut text, unit);
        proof {
            assert(text@ =~= human_text(bytes));
        }
    }
    text
}

} // verus!
