//! Decimal text for counts and byte sizes.
use crate::rounding::{
    lemma_spacing_bound, nearest, round_half_even, round_ratio, round_to_limit, times_power_of_two,
};
use vstd::arithmetic::power2::pow2;
use vstd::prelude::*;

verus! {

/// The decimal digit of a number below ten.
pub open spec fn digit_char(d: nat) -> char {
    (48 + d) as char
}

/// The decimal numeral of `n`, without leading zeros.
pub open spec fn decimal(n: nat) -> Seq<char>
    decreases n,
{
    if n < 10 {
        seq![digit_char(n)]
    } else {
        decimal(n / 10) + seq![digit_char(n % 10)]
    }
}

/// The quotient `n / d` with one digit after the point, rounded half to even.
pub open spec fn one_decimal(n: nat, d: nat) -> Seq<char> {
    let tenths = round_half_even(10 * n, d);
    decimal(tenths / 10) + "."@ + decimal(tenths % 10)
}

fn digit_str(d: u128) -> (text: &'static str)
    requires
        d < 10,
    ensures
        text@ == seq![digit_char(d as nat)],
{
    proof {
        reveal_strlit("0");
        reveal_strlit("1");
        reveal_strlit("2");
        reveal_strlit("3");
        reveal_strlit("4");
        reveal_strlit("5");
        reveal_strlit("6");
        reveal_strlit("7");
        reveal_strlit("8");
        reveal_strlit("9");
    }
    let text = match d {
        0 => "0",
        1 => "1",
        2 => "2",
        3 => "3",
        4 => "4",
        5 => "5",
        6 => "6",
        7 => "7",
        8 => "8",
        _ => "9",
    };
    assert(text@ =~= seq![digit_char(d as nat)]);
    text
}

/// Appends the decimal numeral of `n` to `out`.
pub fn push_decimal(out: &mut String, n: u128)
    ensures
        final(out)@ == old(out)@ + decimal(n as nat),
    decreases n,
{
    if n >= 10 {
        push_decimal(out, n / 10);
    }
    out.append(digit_str(n % 10));
    assert(out@ =~= old(out)@ + decimal(n as nat));
}

/// The decimal numeral of `n`.
pub fn decimal_text(n: u128) -> (text: String)
    ensures
        text@ == decimal(n as nat),
{
    let mut text = String::new();
    push_decimal(&mut text, n);
    assert(text@ =~= decimal(n as nat));
    text
}

/// Appends `tenths / 10` with one digit after the point to `out`.
pub fn push_tenths(out: &mut String, tenths: u128)
    ensures
        final(out)@ == old(out)@ + (decimal(tenths as nat / 10) + "."@ + decimal(
            tenths as nat % 10,
        )),
{
    push_decimal(out, tenths / 10);
    out.append(".");
    push_decimal(out, tenths % 10);
    assert(out@ =~= old(out)@ + (decimal(tenths as nat / 10) + "."@ + decimal(tenths as nat % 10)));
}

// Byte sizes

pub const KB: u64 = 1024;

pub const MB: u64 = 1_048_576;

pub const GB: u64 = 1_073_741_824;

/// The double-precision number nearest to `n`, a tie going to the even neighbour.
pub open spec fn nearest_double(n: nat) -> nat {
    nearest(n, 0x20_0000_0000_0000)
}

/// The text of a size of `bytes` bytes.
///
/// From a gibibyte and from a mebibyte up, the size is given in that unit with one digit after
/// the point; from a kibibyte up, in whole kibibytes; below, in bytes. The size is taken as a
/// double-precision number, and the digits are rounded half to even.
pub open spec fn bytes_text(bytes: nat) -> Seq<char> {
    if bytes >= GB {
        one_decimal(nearest_double(bytes), GB as nat) + " GB"@
    } else if bytes >= MB {
        one_decimal(nearest_double(bytes), MB as nat) + " MB"@
    } else if bytes >= KB {
        decimal(round_half_even(nearest_double(bytes), KB as nat)) + " KB"@
    } else {
        decimal(bytes) + " B"@
    }
}

fn to_nearest_double(n: u64) -> (double: u128)
    ensures
        double == nearest_double(n as nat),
        double <= 0x4000_0000_0000_0000_0000,
{
    let rounded = round_to_limit(n as u128, 0x20_0000_0000_0000);
    proof {
        lemma_spacing_bound(n as nat, 0x20_0000_0000_0000);
        assert(rounded.count * pow2(rounded.doublings as nat) <= 0x4000_0000_0000_0000_0000)
            by (nonlinear_arith)
            requires
                rounded.count <= 0x20_0000_0000_0000,
                pow2(rounded.doublings as nat) <= 0x1000,
        ;
    }
    times_power_of_two(rounded.count, rounded.doublings)
}

/// The text of a size of `bytes` bytes, in the largest fitting unit.
pub fn format_bytes(bytes: u64) -> (text: String)
    ensures
        text@ == bytes_text(bytes as nat),
{
    let mut text = String::new();
    let size: u128 = to_nearest_double(bytes);
    if bytes >= GB {
        push_tenths(&mut text, round_ratio(10 * size, GB as u128));
        text.append(" GB");
    } else if bytes >= MB {
        push_tenths(&mut text, round_ratio(10 * size, MB as u128));
        text.append(" MB");
    } else if bytes >= KB {
        push_decimal(&mut text, round_ratio(size, KB as u128));
        text.append(" KB");
    } else {
        push_decimal(&mut text, bytes as u128);
        text.append(" B");
    }
    assert(text@ =~= bytes_text(bytes as nat));
    text
}

} // verus!
