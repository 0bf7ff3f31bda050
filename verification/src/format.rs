//! Integer values as text: decimal, or hexadecimal with a `0x` prefix.
use crate::text::push_char;
use vstd::prelude::*;

verus! {

/// The character for one digit: `0` to `9`, then `A` to `F`.
pub open spec fn digit_char(d: int) -> char {
    if d == 0 {
        '0'
    } else if d == 1 {
        '1'
    } else if d == 2 {
        '2'
    } else if d == 3 {
        '3'
    } else if d == 4 {
        '4'
    } else if d == 5 {
        '5'
    } else if d == 6 {
        '6'
    } else if d == 7 {
        '7'
    } else if d == 8 {
        '8'
    } else if d == 9 {
        '9'
    } else if d == 10 {
        'A'
    } else if d == 11 {
        'B'
    } else if d == 12 {
        'C'
    } else if d == 13 {
        'D'
    } else if d == 14 {
        'E'
    } else {
        'F'
    }
}

/// The digits of `n` in the given base, most significant first, without
/// leading zeros; zero is the single digit `0`.
pub open spec fn digits(n: nat, base: nat) -> Seq<char>
    decreases n,
    via digits_terminates
{
    if base < 2 || n < base {
        seq![digit_char(n as int)]
    } else {
        digits(n / base, base).push(digit_char((n % base) as int))
    }
}

#[via_fn]
proof fn digits_terminates(n: nat, base: nat) {
    if base >= 2 && n >= base {
        assert(n / base < n) by (nonlinear_arith)
            requires
                base >= 2,
                n >= base,
        ;
    }
}

/// A value in decimal, with a minus sign in front of a negative one.
pub open spec fn decimal_text(value: int) -> Seq<char> {
    if value < 0 {
        seq!['-'] + digits((-value) as nat, 10)
    } else {
        digits(value as nat, 10)
    }
}

/// A value in upper-case hexadecimal at its natural width, after `0x`.
pub open spec fn hex_text(value: nat) -> Seq<char> {
    seq!['0', 'x'] + digits(value, 16)
}

/// The bit pattern of `value` read as an unsigned number: a negative value
/// counts from `modulus` downwards, as in two's complement.
pub open spec fn bit_pattern(value: int, modulus: int) -> nat {
    if value < 0 {
        (value + modulus) as nat
    } else {
        value as nat
    }
}

/// The text of an integer: [`decimal_text`] of the value, or, if `is_hex`,
/// [`hex_text`] of its bit pattern in a type of `modulus` values.
pub open spec fn formatted(value: int, modulus: int, is_hex: bool) -> Seq<char> {
    if is_hex {
        hex_text(bit_pattern(value, modulus))
    } else {
        decimal_text(value)
    }
}

fn digit(d: u64) -> (c: char)
    requires
        d < 16,
    ensures
        c == digit_char(d as int),
{
    if d == 0 {
        '0'
    } else if d == 1 {
        '1'
    } else if d == 2 {
        '2'
    } else if d == 3 {
        '3'
    } else if d == 4 {
        '4'
    } else if d == 5 {
        '5'
    } else if d == 6 {
        '6'
    } else if d == 7 {
        '7'
    } else if d == 8 {
        '8'
    } else if d == 9 {
        '9'
    } else if d == 10 {
        'A'
    } else if d == 11 {
        'B'
    } else if d == 12 {
        'C'
    } else if d == 13 {
        'D'
    } else if d == 14 {
        'E'
    } else {
        'F'
    }
}

fn push_digits(out: &mut String, n: u64, base: u64)
    requires
        base == 10 || base == 16,
    ensures
        final(out)@ == old(out)@ + digits(n as nat, base as nat),
    decreases n,
{
    if n >= base {
        push_digits(out, n / base, base);
    }
    push_char(out, digit(n % base));
    assert(final(out)@ =~= old(out)@ + digits(n as nat, base as nat));
}

/// Writes `magnitude` in decimal, behind a minus sign if `negative`, or
/// `pattern` in hexadecimal.
fn format_parts(negative: bool, magnitude: u64, pattern: u64, is_hex: bool) -> (out: String)
    ensures
        is_hex ==> out@ == hex_text(pattern as nat),
        !is_hex && negative ==> out@ == seq!['-'] + digits(magnitude as nat, 10),
        !is_hex && !negative ==> out@ == digits(magnitude as nat, 10),
{
    let mut out = String::new();
    if is_hex {
        push_char(&mut out, '0');
        push_char(&mut out, 'x');
        push_digits(&mut out, pattern, 16);
        assert(out@ =~= hex_text(pattern as nat));
    } else {
        if negative {
            push_char(&mut out, '-');
        }
        push_digits(&mut out, magnitude, 10);
        assert(negative ==> out@ =~= seq!['-'] + digits(magnitude as nat, 10));
        assert(!negative ==> out@ =~= digits(magnitude as nat, 10));
    }
    out
}

fn format_unsigned(value: u64, is_hex: bool) -> (out: String)
    ensures
        out@ == formatted(value as int, 0, is_hex),
{
    format_parts(false, value, value, is_hex)
}

fn format_signed(value: i64, pattern: u64, is_hex: bool) -> (out: String)
    requires
        value >= 0 ==> pattern == value,
    ensures
        is_hex ==> out@ == hex_text(pattern as nat),
        !is_hex ==> out@ == decimal_text(value as int),
{
    if value < 0 {
        let magnitude: u64 = (-(value + 1)) as u64 + 1;
        format_parts(true, magnitude, pattern, is_hex)
    } else {
        format_parts(false, value as u64, pattern, is_hex)
    }
}

/// Formats an 8-bit unsigned value.
pub fn format_u8(val_format: (u8, bool)) -> (out: String)
    ensures
        out@ == formatted(val_format.0 as int, 0x100, val_format.1),
{
    let (value, is_hex) = val_format;
    format_unsigned(value as u64, is_hex)
}

/// Formats a 16-bit unsigned value.
pub fn format_u16(val_format: (u16, bool)) -> (out: String)
    ensures
        out@ == formatted(val_format.0 as int, 0x1_0000, val_format.1),
{
    let (value, is_hex) = val_format;
    format_unsigned(value as u64, is_hex)
}

/// Formats a 32-bit unsigned value.
pub fn format_u32(val_format: (u32, bool)) -> (out: String)
    ensures
        out@ == formatted(val_format.0 as int, 0x1_0000_0000, val_format.1),
{
    let (value, is_hex) = val_format;
    format_unsigned(value as u64, is_hex)
}

/// Formats a 64-bit unsigned value.
pub fn format_u64(val_format: (u64, bool)) -> (out: String)
    ensures
        out@ == formatted(val_format.0 as int, 0x1_0000_0000_0000_0000, val_format.1),
{
    let (value, is_hex) = val_format;
    format_unsigned(value, is_hex)
}

/// Formats an 8-bit signed value. In hexadecimal a negative value shows its
/// two's complement bit pattern: `-1` is `0xFF`.
pub fn format_i8(val_format: (i8, bool)) -> (out: String)
    ensures
        out@ == formatted(val_format.0 as int, 0x100, val_format.1),
{
    let (value, is_hex) = val_format;
    let pattern: u64 = if value < 0 {
        (value as i64 + 0x100) as u64
    } else {
        value as u64
    };
    format_signed(value as i64, pattern, is_hex)
}

/// Formats a 16-bit signed value. In hexadecimal a negative value shows its
/// two's complement bit pattern: `-1` is `0xFFFF`.
pub fn format_i16(val_format: (i16, bool)) -> (out: String)
    ensures
        out@ == formatted(val_format.0 as int, 0x1_0000, val_format.1),
{
    let (value, is_hex) = val_format;
    let pattern: u64 = if value < 0 {
        (value as i64 + 0x1_0000) as u64
    } else {
        value as u64
    };
    format_signed(value as i64, pattern, is_hex)
}

/// Formats a 32-bit signed value. In hexadecimal a negative value shows its
/// two's complement bit pattern: `-1` is `0xFFFFFFFF`.
pub fn format_i32(val_format: (i32, bool)) -> (out: String)
    ensures
        out@ == formatted(val_format.0 as int, 0x1_0000_0000, val_format.1),
{
    let (value, is_hex) = val_format;
    let pattern: u64 = if value < 0 {
        (value as i64 + 0x1_0000_0000) as u64
    } else {
        value as u64
    };
    format_signed(value as i64, pattern, is_hex)
}

/// Formats a 64-bit signed value. In hexadecimal a negative value shows its
/// two's complement bit pattern: `-1` is `0xFFFFFFFFFFFFFFFF`.
pub fn format_i64(val_format: (i64, bool)) -> (out: String)
    ensures
        out@ == formatted(val_format.0 as int, 0x1_0000_0000_0000_0000, val_format.1),
{
    let (value, is_hex) = val_format;
    let pattern: u64 = if value < 0 {
        (value as i128 + 0x1_0000_0000_0000_0000) as u64
    } else {
        value as u64
    };
    format_signed(value, pattern, is_hex)
}

} // verus!
