//! What holds of rounding, of sizes and of CPU usages.
use crate::percent::{one_percent, scaled_magnitude, CpuPercent};
use crate::rounding::{excess_bits, nearest, round_half_even};
use crate::text::{bytes_text, decimal, nearest_double, one_decimal};
use vstd::arithmetic::power2::{
    lemma2_to64, lemma2_to64_rest, lemma_pow2_adds, lemma_pow2_pos, lemma_pow2_unfold, pow2,
};
use vstd::math::abs;
use vstd::prelude::*;

verus! {

// Rounding

/// `whole` is the whole number nearest to `n / d`, and the even one where two are.
pub open spec fn is_rounded(n: nat, d: nat, whole: nat) -> bool {
    &&& 2 * abs(n - whole * d) <= d
    &&& 2 * abs(n - whole * d) == d ==> whole % 2 == 0
}

/// Rounding goes to the nearest whole number, a tie to the even one.
pub proof fn law_rounding_breaks_ties_to_even(n: nat, d: nat)
    requires
        0 < d,
    ensures
        is_rounded(n, d, round_half_even(n, d)),
{
    vstd::arithmetic::div_mod::lemma_fundamental_div_mod(n as int, d as int);
    let below = n / d;
    assert(below * d == d * below) by (nonlinear_arith);
    assert((below + 1) * d == below * d + d) by (nonlinear_arith);
}

/// A number has the spacing of the binade that it lies in.
proof fn lemma_excess_bits(n: nat, bits: nat)
    requires
        0 < bits,
    ensures
        ({
            let spacing = pow2(excess_bits(n, pow2(bits)));
            &&& 0 < spacing
            &&& n < pow2(bits) * spacing
            &&& excess_bits(n, pow2(bits)) > 0 ==> pow2((bits - 1) as nat) * spacing <= n
            &&& excess_bits(n, pow2(bits)) == 0 ==> spacing == 1
        }),
    decreases n,
{
    let limit = pow2(bits);
    lemma2_to64();
    lemma_pow2_unfold(bits);
    lemma_pow2_pos((bits - 1) as nat);
    if n >= limit {
        let half = n / 2;
        let fewer = excess_bits(half, limit);
        lemma_excess_bits(half, bits);
        lemma_pow2_unfold(fewer + 1);
        let unit = pow2(fewer);
        let spacing = pow2(fewer + 1);
        assert(limit * spacing == 2 * (limit * unit)) by (nonlinear_arith)
            requires
                spacing == 2 * unit,
        ;
        let lower = pow2((bits - 1) as nat);
        assert(lower * spacing == 2 * (lower * unit)) by (nonlinear_arith)
            requires
                spacing == 2 * unit,
        ;
        if fewer == 0 {
            assert(lower * unit == lower) by (nonlinear_arith)
                requires
                    unit == 1,
            ;
        }
    }
}

/// No number of the form `count * 2^doublings` with so many bits for `count` is nearer to `n`.
pub proof fn law_nearest_is_nearest(n: nat, bits: nat, count: nat, doublings: nat)
    requires
        0 < bits,
        count <= pow2(bits),
    ensures
        abs(nearest(n, pow2(bits)) - n) <= abs(count * pow2(doublings) - n),
{
    let excess = excess_bits(n, pow2(bits));
    let spacing = pow2(excess);
    let other = count * pow2(doublings);
    lemma_excess_bits(n, bits);
    law_rounding_breaks_ties_to_even(n, spacing);
    vstd::arithmetic::div_mod::lemma_fundamental_div_mod(n as int, spacing as int);
    let below = n / spacing;
    let rest = n % spacing;
    let rounded = nearest(n, pow2(bits));
    assert(spacing * below == below * spacing) by (nonlinear_arith);
    assert((below + 1) * spacing == below * spacing + spacing) by (nonlinear_arith);
    assert(abs(rounded - n) <= rest && abs(rounded - n) <= spacing - rest);
    if excess == 0 {
        assert(rest == 0);
    } else if doublings >= excess {
        let more = (doublings - excess) as nat;
        lemma_pow2_adds(more, excess);
        let multiple = count * pow2(more);
        assert(other == multiple * spacing) by (nonlinear_arith)
            requires
                other == count * pow2(doublings),
                pow2(doublings) == pow2(more) * spacing,
                multiple == count * pow2(more),
        ;
        if multiple <= below {
            assert(multiple * spacing <= below * spacing) by (nonlinear_arith)
                requires
                    multiple <= below,
            ;
        } else {
            assert((below + 1) * spacing <= multiple * spacing) by (nonlinear_arith)
                requires
                    below + 1 <= multiple,
            ;
        }
    } else {
        // The other number lies in a lower binade, or at the start of this one.
        let lower = pow2((bits - 1) as nat);
        lemma_pow2_unfold(bits);
        lemma_pow2_unfold(excess);
        let half = pow2((excess - 1) as nat);
        if doublings < excess - 1 {
            vstd::arithmetic::power2::lemma_pow2_strictly_increases(
                doublings,
                (excess - 1) as nat,
            );
        }
        assert(other <= lower * spacing) by (nonlinear_arith)
            requires
                other == count * pow2(doublings),
                count <= 2 * lower,
                pow2(doublings) <= half,
                spacing == 2 * half,
        ;
        assert(lower <= below) by (nonlinear_arith)
            requires
                lower * spacing <= n,
                n == below * spacing + rest,
                0 <= rest < spacing,
        ;
        assert(lower * spacing <= below * spacing) by (nonlinear_arith)
            requires
                lower <= below,
        ;
    }
}

/// What a number is rounded to has the form `count * 2^doublings` with so many bits for `count`.
/// Where another number of that form is as near, `count` is even.
pub proof fn law_nearest_has_so_many_bits(n: nat, bits: nat)
    requires
        1 < bits,
    ensures
        exists|count: nat, doublings: nat|
            {
                &&& nearest(n, pow2(bits)) == #[trigger] (count * pow2(doublings))
                &&& count <= pow2(bits)
                &&& doublings > 0 ==> count >= pow2((bits - 1) as nat)
                &&& doublings == 0 ==> count == n
                &&& forall|c: nat, d: nat|
                    c <= pow2(bits) && #[trigger] (c * pow2(d)) != nearest(n, pow2(bits)) && abs(
                        c * pow2(d) - n,
                    ) == abs(nearest(n, pow2(bits)) - n) ==> count % 2 == 0
            },
{
    let limit = pow2(bits);
    let excess = excess_bits(n, limit);
    let spacing = pow2(excess);
    let count = round_half_even(n, spacing);
    let rounded = nearest(n, limit);
    lemma_excess_bits(n, bits);
    law_rounding_breaks_ties_to_even(n, spacing);
    vstd::arithmetic::div_mod::lemma_fundamental_div_mod(n as int, spacing as int);
    let below = n / spacing;
    let rest = n % spacing;
    let lower = pow2((bits - 1) as nat);
    lemma_pow2_unfold(bits);
    lemma_pow2_pos((bits - 1) as nat);
    assert(spacing * below == below * spacing) by (nonlinear_arith);
    assert(below < limit) by (nonlinear_arith)
        requires
            below * spacing + rest == n,
            n < limit * spacing,
            0 <= rest,
            0 < spacing,
    ;
    if excess > 0 {
        assert(lower <= below) by (nonlinear_arith)
            requires
                lower * spacing <= n,
                n == below * spacing + rest,
                0 <= rest < spacing,
        ;
    } else {
        assert(below == n) by (nonlinear_arith)
            requires
                n == below * spacing + rest,
                0 <= rest < spacing,
                spacing == 1,
        ;
    }
    assert forall|c: nat, d: nat|
        c <= limit && #[trigger] (c * pow2(d)) != rounded && abs(c * pow2(d) - n) == abs(
            rounded - n,
        ) implies count % 2 == 0 by {
        let other = c * pow2(d);
        if excess > 0 && 2 * abs(rounded - n) != spacing {
            if d >= excess {
                let more = (d - excess) as nat;
                lemma_pow2_adds(more, excess);
                let multiple = c * pow2(more);
                assert(other == multiple * spacing) by (nonlinear_arith)
                    requires
                        other == c * pow2(d),
                        pow2(d) == pow2(more) * spacing,
                        multiple == c * pow2(more),
                ;
                // Two multiples of the spacing are not less than it apart.
                assert(abs(other - rounded) >= spacing) by (nonlinear_arith)
                    requires
                        other == multiple * spacing,
                        rounded == count * spacing,
                        other != rounded,
                        0 < spacing,
                ;
            } else {
                lemma_pow2_unfold(excess);
                let half = pow2((excess - 1) as nat);
                if d < excess - 1 {
                    vstd::arithmetic::power2::lemma_pow2_strictly_increases(
                        d,
                        (excess - 1) as nat,
                    );
                }
                assert(other <= lower * spacing) by (nonlinear_arith)
                    requires
                        other == c * pow2(d),
                        c <= 2 * lower,
                        pow2(d) <= half,
                        spacing == 2 * half,
                ;
                law_nearest_is_nearest(n, bits, lower, excess);
                assert(other == lower * spacing);
                assert(abs(other - rounded) >= spacing) by (nonlinear_arith)
                    requires
                        other == lower * spacing,
                        rounded == count * spacing,
                        other != rounded,
                        0 < spacing,
                ;
            }
        }
    }
    assert(rounded == count * pow2(excess));
}

/// No more bits are dropped than it takes to get below the limit.
pub proof fn law_excess_bits_are_few(n: nat, limit: nat)
    requires
        0 < limit,
    ensures
        n < limit * pow2(excess_bits(n, limit)),
        excess_bits(n, limit) > 0 ==> limit * pow2((excess_bits(n, limit) - 1) as nat) <= n,
    decreases n,
{
    lemma2_to64();
    if n < limit {
        assert(limit * pow2(0) == limit) by (nonlinear_arith)
            requires
                pow2(0) == 1,
        ;
    } else {
        let fewer = excess_bits(n / 2, limit);
        law_excess_bits_are_few(n / 2, limit);
        lemma_pow2_unfold(fewer + 1);
        assert(limit * pow2(fewer + 1) == 2 * (limit * pow2(fewer))) by (nonlinear_arith)
            requires
                pow2(fewer + 1) == 2 * pow2(fewer),
        ;
        if fewer == 0 {
            assert(limit * pow2(0) == limit) by (nonlinear_arith)
                requires
                    pow2(0) == 1,
            ;
        } else {
            lemma_pow2_unfold(fewer);
            assert(limit * pow2(fewer) == 2 * (limit * pow2((fewer - 1) as nat)))
                by (nonlinear_arith)
                requires
                    pow2(fewer) == 2 * pow2((fewer - 1) as nat),
            ;
        }
    }
}

/// A size is taken as the nearest of all numbers with 53 significant bits.
pub proof fn law_sizes_are_taken_as_doubles(bytes: nat, count: nat, doublings: nat)
    requires
        count <= 0x20_0000_0000_0000,
    ensures
        abs(nearest_double(bytes) - bytes) <= abs(count * pow2(doublings) - bytes),
        bytes <= 0x20_0000_0000_0000 ==> nearest_double(bytes) == bytes,
        exists|c: nat, d: nat|
            c <= 0x20_0000_0000_0000 && nearest_double(bytes) == #[trigger] (c * pow2(d)),
        forall|c: nat, d: nat|
            c <= 0x20_0000_0000_0000 && #[trigger] (c * pow2(d)) != nearest_double(bytes) && abs(
                c * pow2(d) - bytes,
            ) == abs(nearest_double(bytes) - bytes) ==> exists|even: nat, e: nat|
                0x10_0000_0000_0000 <= even <= 0x20_0000_0000_0000 && even % 2 == 0
                    && nearest_double(bytes) == #[trigger] (even * pow2(e)),
{
    lemma2_to64();
    lemma2_to64_rest();
    law_nearest_is_nearest(bytes, 53, count, doublings);
    law_nearest_has_so_many_bits(bytes, 53);
    let (c, d) = choose|c: nat, d: nat|
        {
            &&& nearest(bytes, pow2(53)) == #[trigger] (c * pow2(d))
            &&& c <= pow2(53)
            &&& d > 0 ==> c >= pow2(52)
            &&& d == 0 ==> c == bytes
            &&& forall|x: nat, y: nat|
                x <= pow2(53) && #[trigger] (x * pow2(y)) != nearest(bytes, pow2(53)) && abs(
                    x * pow2(y) - bytes,
                ) == abs(nearest(bytes, pow2(53)) - bytes) ==> c % 2 == 0
        };
    assert(nearest_double(bytes) == c * pow2(d));
    if bytes <= 0x20_0000_0000_0000 {
        law_nearest_is_nearest(bytes, 53, bytes, 0);
        assert(bytes * pow2(0) == bytes) by (nonlinear_arith)
            requires
                pow2(0) == 1,
        ;
    }
    assert(d == 0 ==> c * pow2(d) == bytes) by (nonlinear_arith)
        requires
            pow2(0) == 1,
            d == 0 ==> c == bytes,
    ;
}

// Texts

/// A text with one digit after the point is that of the nearest number of tenths.
pub proof fn law_one_decimal_is_rounded(n: nat, d: nat)
    requires
        0 < d,
    ensures
        exists|tenths: nat| #[trigger]
            is_rounded(10 * n, d, tenths) && one_decimal(n, d) == decimal(tenths / 10) + seq![
                '.',
                ('0' as nat + tenths % 10) as char,
            ],
{
    let tenths = round_half_even(10 * n, d);
    law_rounding_breaks_ties_to_even(10 * n, d);
    reveal_strlit(".");
    assert(one_decimal(n, d) =~= decimal(tenths / 10) + seq![
        '.',
        ('0' as nat + tenths % 10) as char,
    ]);
}

/// Sizes below a kibibyte are given in bytes and those below a mebibyte in whole kibibytes. From
/// there on they are given in mebibytes, and from a gibibyte on in gibibytes, with one digit after
/// the point.
pub proof fn law_sizes_have_units(bytes: nat)
    ensures
        bytes < 1024 ==> bytes_text(bytes) == decimal(bytes) + seq![' ', 'B'],
        1024 <= bytes < 1024 * 1024 ==> exists|whole: nat| #[trigger]
            is_rounded(bytes, 1024, whole) && bytes_text(bytes) == decimal(whole) + seq![
                ' ',
                'K',
                'B',
            ],
        1024 * 1024 <= bytes < 1024 * 1024 * 1024 ==> exists|tenths: nat| #[trigger]
            is_rounded(10 * bytes, 1024 * 1024, tenths) && bytes_text(bytes) == decimal(tenths / 10)
                + seq!['.', ('0' as nat + tenths % 10) as char, ' ', 'M', 'B'],
        1024 * 1024 * 1024 <= bytes ==> exists|tenths: nat| #[trigger]
            is_rounded(10 * nearest_double(bytes), 1024 * 1024 * 1024, tenths) && bytes_text(bytes)
                == decimal(tenths / 10) + seq![
                '.',
                ('0' as nat + tenths % 10) as char,
                ' ',
                'G',
                'B',
            ],
{
    reveal_strlit(" B");
    reveal_strlit(" KB");
    reveal_strlit(" MB");
    reveal_strlit(" GB");
    law_sizes_are_taken_as_doubles(bytes, 0, 0);
    let double = nearest_double(bytes);
    if bytes < 1024 {
        assert(bytes_text(bytes) =~= decimal(bytes) + seq![' ', 'B']);
    } else if bytes < 1024 * 1024 {
        let whole = round_half_even(bytes, 1024);
        law_rounding_breaks_ties_to_even(bytes, 1024);
        assert(bytes_text(bytes) =~= decimal(whole) + seq![' ', 'K', 'B']);
    } else if bytes < 1024 * 1024 * 1024 {
        law_one_decimal_is_rounded(bytes, 1024 * 1024);
        let tenths = choose|tenths: nat| #[trigger]
            is_rounded(10 * bytes, 1024 * 1024, tenths) && one_decimal(bytes, 1024 * 1024)
                == decimal(tenths / 10) + seq!['.', ('0' as nat + tenths % 10) as char];
        assert(bytes_text(bytes) =~= decimal(tenths / 10) + seq![
            '.',
            ('0' as nat + tenths % 10) as char,
            ' ',
            'M',
            'B',
        ]);
    } else {
        law_one_decimal_is_rounded(double, 1024 * 1024 * 1024);
        let tenths = choose|tenths: nat| #[trigger]
            is_rounded(10 * double, 1024 * 1024 * 1024, tenths) && one_decimal(
                double,
                1024 * 1024 * 1024,
            ) == decimal(tenths / 10) + seq!['.', ('0' as nat + tenths % 10) as char];
        assert(bytes_text(bytes) =~= decimal(tenths / 10) + seq![
            '.',
            ('0' as nat + tenths % 10) as char,
            ' ',
            'G',
            'B',
        ]);
    }
}

// CPU usages

/// Patterns count up by one unit in the first two binades, and stand for twice as much from each
/// binade to the next.
pub proof fn law_binades_double(m: nat)
    ensures
        m < 0x100_0000 ==> scaled_magnitude(m) == m,
        m >= 0x80_0000 ==> scaled_magnitude(m + 0x80_0000) == 2 * scaled_magnitude(m),
{
    lemma2_to64();
    if m >= 0x80_0000 {
        let exponent = m / 0x80_0000;
        let fraction = m % 0x80_0000;
        assert((m + 0x80_0000) / 0x80_0000 == exponent + 1);
        assert((m + 0x80_0000) % 0x80_0000 == fraction);
        lemma_pow2_unfold(exponent);
        let unit = pow2((exponent - 1) as nat);
        assert((0x80_0000 + fraction) * (2 * unit) == 2 * ((0x80_0000 + fraction) * unit))
            by (nonlinear_arith);
        if m < 0x100_0000 {
            assert(exponent == 1);
            assert((0x80_0000 + fraction) * pow2(0) == 0x80_0000 + fraction) by (nonlinear_arith)
                requires
                    pow2(0) == 1,
            ;
        }
    }
}

/// The value of a CPU usage has the sign of its top bit and the magnitude of the other bits.
pub proof fn law_top_bit_is_the_sign(cpu: CpuPercent)
    ensures
        cpu.bits < 0x8000_0000 ==> cpu.value() == scaled_magnitude(cpu.bits as nat),
        cpu.bits >= 0x8000_0000 ==> cpu.value() == -(scaled_magnitude(
            (cpu.bits - 0x8000_0000) as nat,
        ) as int),
{
}

/// A whole number of percent has the pattern of the single-precision number of that value.
pub proof fn law_whole_percents(percent: nat, exponent: nat)
    requires
        exponent <= 23,
        pow2(exponent) <= percent < pow2(exponent + 1),
    ensures
        ({
            let magnitude = (127 + exponent) * 0x80_0000 + (percent - pow2(exponent)) * pow2(
                (23 - exponent) as nat,
            );
            &&& 0 <= magnitude < 0x7f80_0000
            &&& CpuPercent { bits: magnitude as u32 }.value() == percent * one_percent()
        }),
{
    let rest = (23 - exponent) as nat;
    let unit = pow2(rest);
    lemma2_to64();
    lemma_pow2_pos(rest);
    lemma_pow2_adds(exponent, rest);
    lemma_pow2_unfold(exponent + 1);
    lemma_pow2_adds(rest, 126 + exponent);
    let fraction = (percent - pow2(exponent)) * unit;
    let magnitude = (127 + exponent) * 0x80_0000 + fraction;
    assert(pow2(exponent) * unit == 0x80_0000);
    assert(0 <= fraction < 0x80_0000) by (nonlinear_arith)
        requires
            fraction == (percent - pow2(exponent)) * unit,
            pow2(exponent) <= percent < 2 * pow2(exponent),
            pow2(exponent) * unit == 0x80_0000,
            0 < unit,
    ;
    assert(magnitude / 0x80_0000 == 127 + exponent);
    assert(magnitude % 0x80_0000 == fraction);
    assert(0x80_0000 + fraction == percent * unit) by (nonlinear_arith)
        requires
            fraction == (percent - pow2(exponent)) * unit,
            pow2(exponent) * unit == 0x80_0000,
    ;
    let scale = pow2(126 + exponent);
    assert((percent * unit) * scale == percent * (unit * scale)) by (nonlinear_arith);
    assert(rest + (126 + exponent) == 149);
}

/// A CPU usage is shown with one digit after the point, the nearest number of tenths. A minus sign
/// stands before whatever has its top bit set, unless it is not a number.
pub proof fn law_cpu_usages_are_rounded(cpu: CpuPercent)
    ensures
        ({
            let magnitude = cpu.bits as nat % 0x8000_0000;
            let sign = if cpu.bits < 0x8000_0000 {
                Seq::empty()
            } else {
                seq!['-']
            };
            &&& magnitude > 0x7f80_0000 ==> cpu.shown() == seq!['N', 'a', 'N']
            &&& magnitude == 0x7f80_0000 ==> cpu.shown() == sign + seq!['i', 'n', 'f']
            &&& magnitude < 0x7f80_0000 ==> exists|tenths: nat| #[trigger]
                is_rounded(10 * abs(cpu.value()) as nat, pow2(149), tenths) && cpu.shown() == sign
                    + decimal(tenths / 10) + seq!['.', ('0' as nat + tenths % 10) as char]
        }),
{
    reveal_strlit("");
    reveal_strlit("-");
    reveal_strlit("NaN");
    reveal_strlit("inf");
    lemma_pow2_pos(149);
    let magnitude = cpu.bits as nat % 0x8000_0000;
    let sign: Seq<char> = if cpu.bits < 0x8000_0000 {
        Seq::empty()
    } else {
        seq!['-']
    };
    let written = if cpu.spec_negative() {
        "-"@
    } else {
        ""@
    };
    assert(written =~= sign);
    if magnitude == 0x7f80_0000 {
        assert(cpu.shown() =~= sign + seq!['i', 'n', 'f']);
    } else if magnitude < 0x7f80_0000 {
        let scaled = scaled_magnitude(magnitude);
        assert(abs(cpu.value()) == scaled);
        law_one_decimal_is_rounded(scaled, pow2(149));
        let tenths = choose|tenths: nat| #[trigger]
            is_rounded(10 * scaled, pow2(149), tenths) && one_decimal(scaled, pow2(149)) == decimal(
                tenths / 10,
            ) + seq!['.', ('0' as nat + tenths % 10) as char];
        assert(cpu.shown() =~= sign + decimal(tenths / 10) + seq![
            '.',
            ('0' as nat + tenths % 10) as char,
        ]);
    } else {
        assert(cpu.shown() =~= seq!['N', 'a', 'N']);
    }
}

} // verus!
