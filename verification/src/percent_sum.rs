//! Adding CPU percentages, each sum rounded to single precision.
use crate::percent::{
    lemma_scaled_magnitude_increases, scaled_magnitude, CpuPercent, INFINITE_MAGNITUDE,
};
use crate::rounding::{
    excess_bits, lemma_round_half_even_scales, nearest, round_half_even, round_to_limit,
    times_power_of_two,
};
use vstd::arithmetic::power2::{
    lemma2_to64, lemma_pow2_adds, lemma_pow2_pos, lemma_pow2_strictly_increases, lemma_pow2_unfold,
    pow2,
};
use vstd::prelude::*;

verus! {

/// A magnitude rounded to the nearest one that has a pattern: to 24 significant bits, and to
/// infinity from the value of the pattern of infinity up.
pub open spec fn nearest_magnitude(magnitude: nat) -> nat {
    let rounded = nearest(magnitude, 0x100_0000);
    if rounded < scaled_magnitude(INFINITE_MAGNITUDE as nat) {
        rounded
    } else {
        scaled_magnitude(INFINITE_MAGNITUDE as nat)
    }
}

/// `sum` is the single-precision sum of `a` and `b`.
///
/// Which not-a-number comes out, where one does, is left open.
pub open spec fn adds_to(a: CpuPercent, b: CpuPercent, sum: CpuPercent) -> bool {
    let exact = a.value() + b.value();
    if a.spec_is_nan() || b.spec_is_nan() {
        sum.spec_is_nan()
    } else if a.spec_is_infinite() && b.spec_is_infinite() {
        if a == b {
            sum == a
        } else {
            sum.spec_is_nan()
        }
    } else if a.spec_is_infinite() {
        sum == a
    } else if b.spec_is_infinite() {
        sum == b
    } else if exact == 0 {
        sum.spec_magnitude() == 0 && sum.spec_negative() == (a.spec_negative()
            && b.spec_negative())
    } else {
        &&& sum.spec_negative() == (exact < 0)
        &&& scaled_magnitude(sum.spec_magnitude()) == nearest_magnitude(
            if exact < 0 {
                (-exact) as nat
            } else {
                exact as nat
            },
        )
    }
}

/// `sums` are the running sums of `percents`, starting from a negative zero.
pub open spec fn running_sums(sums: Seq<CpuPercent>, percents: Seq<CpuPercent>) -> bool {
    &&& sums.len() == percents.len() + 1
    &&& sums[0].bits == 0x8000_0000
    &&& forall|i: int|
        0 <= i < percents.len() ==> adds_to(sums[i], #[trigger] percents[i], sums[i + 1])
}

/// `total` is the sum of `percents`, added one after the other.
pub open spec fn sums_to(percents: Seq<CpuPercent>, total: CpuPercent) -> bool {
    exists|sums: Seq<CpuPercent>| #[trigger]
        running_sums(sums, percents) && sums.last() == total
}

// Rounding to 24 bits

/// A number is rounded to the spacing of the binade that it lies in.
proof fn lemma_excess_bits_of_binade(n: nat, bits: nat)
    requires
        0x80_0000 * pow2(bits) <= n < 0x100_0000 * pow2(bits),
    ensures
        excess_bits(n, 0x100_0000) == bits,
    decreases bits,
{
    lemma2_to64();
    if bits > 0 {
        lemma_pow2_unfold(bits);
        lemma_pow2_pos((bits - 1) as nat);
        lemma_excess_bits_of_binade(n / 2, (bits - 1) as nat);
    }
}

proof fn lemma_excess_bits_shift(n: nat, doublings: nat)
    ensures
        n >= 0x100_0000 ==> excess_bits(n * pow2(doublings), 0x100_0000) == excess_bits(
            n,
            0x100_0000,
        ) + doublings,
        n < 0x100_0000 ==> excess_bits(n * pow2(doublings), 0x100_0000) <= doublings,
    decreases doublings,
{
    lemma2_to64();
    if doublings > 0 {
        let less = (doublings - 1) as nat;
        lemma_excess_bits_shift(n, less);
        lemma_pow2_unfold(doublings);
        lemma_pow2_pos(less);
        assert(n * pow2(doublings) == 2 * (n * pow2(less))) by (nonlinear_arith)
            requires
                pow2(doublings) == 2 * pow2(less),
        ;
        if n >= 0x100_0000 {
            assert(n * pow2(less) >= 0x100_0000) by (nonlinear_arith)
                requires
                    n >= 0x100_0000,
                    pow2(less) >= 1,
            ;
        }
    } else {
        assert(n * pow2(0) == n) by (nonlinear_arith)
            requires
                pow2(0) == 1,
        ;
    }
}

/// Doubling before or after rounding comes to the same.
proof fn lemma_nearest_shift(n: nat, doublings: nat)
    ensures
        nearest(n * pow2(doublings), 0x100_0000) == round_half_even(
            n,
            pow2(excess_bits(n, 0x100_0000)),
        ) * pow2(excess_bits(n, 0x100_0000) + doublings),
{
    lemma2_to64();
    lemma_excess_bits_shift(n, doublings);
    let bits = excess_bits(n, 0x100_0000);
    if n >= 0x100_0000 {
        lemma_pow2_adds(bits, doublings);
        lemma_pow2_pos(bits);
        lemma_pow2_pos(doublings);
        lemma_round_half_even_scales(n, pow2(bits), pow2(doublings));
    } else {
        // `n` is short enough, and so is every multiple of it by a power of two.
        let product = n * pow2(doublings);
        let spare = excess_bits(product, 0x100_0000);
        let kept = (doublings - spare) as nat;
        lemma_pow2_adds(kept, spare);
        lemma_pow2_pos(spare);
        assert(product == (n * pow2(kept)) * pow2(spare)) by (nonlinear_arith)
            requires
                product == n * pow2(doublings),
                pow2(doublings) == pow2(kept) * pow2(spare),
        ;
        lemma_round_half_even_scales(n * pow2(kept), 1, pow2(spare));
        assert(1 * pow2(spare) == pow2(spare));
        assert(round_half_even(n * pow2(kept), 1) == n * pow2(kept));
        assert(round_half_even(n, 1) == n);
    }
}

/// A number with 24 significant bits swallows one that is too small to matter.
proof fn lemma_nearest_swallows(significand: nat, doublings: nat, small: nat)
    requires
        0x80_0000 <= significand < 0x100_0000,
        2 <= doublings,
        4 * small < pow2(doublings),
    ensures
        nearest(significand * pow2(doublings) + small, 0x100_0000) == significand * pow2(doublings),
        nearest((significand * pow2(doublings) - small) as nat, 0x100_0000) == significand * pow2(
            doublings,
        ),
{
    let unit = pow2(doublings);
    let whole = significand * unit;
    let above = whole + small;
    let below = (whole - small) as nat;
    lemma_pow2_pos(doublings);
    assert(0x80_0000 * unit <= whole && whole + unit <= 0x100_0000 * unit) by (nonlinear_arith)
        requires
            whole == significand * unit,
            0x80_0000 <= significand < 0x100_0000,
            0 < unit,
    ;
    lemma_excess_bits_of_binade(above, doublings);
    vstd::arithmetic::div_mod::lemma_fundamental_div_mod_converse(
        above as int,
        unit as int,
        significand as int,
        small as int,
    );
    if small == 0 {
    } else if significand > 0x80_0000 {
        assert(whole - unit == (significand - 1) * unit && 0x80_0000 * unit <= (significand - 1)
            * unit) by (nonlinear_arith)
            requires
                whole == significand * unit,
                0x80_0000 < significand,
        ;
        lemma_excess_bits_of_binade(below, doublings);
        vstd::arithmetic::div_mod::lemma_fundamental_div_mod_converse(
            below as int,
            unit as int,
            significand - 1,
            unit - small,
        );
    } else {
        // Below a power of two the numbers lie twice as close.
        let half = pow2((doublings - 1) as nat);
        lemma_pow2_unfold(doublings);
        lemma_pow2_pos((doublings - 1) as nat);
        lemma_excess_bits_of_binade(below, (doublings - 1) as nat);
        vstd::arithmetic::div_mod::lemma_fundamental_div_mod_converse(
            below as int,
            half as int,
            0xff_ffff,
            half - small,
        );
    }
}

// Parts of a pattern

/// A magnitude as a count of at most 24 bits and a number of doublings.
struct Parts {
    significand: u32,
    doublings: u32,
}

fn parts_of(magnitude: u32) -> (parts: Parts)
    requires
        magnitude < INFINITE_MAGNITUDE,
    ensures
        scaled_magnitude(magnitude as nat) == parts.significand * pow2(parts.doublings as nat),
        parts.significand < 0x100_0000,
        parts.doublings > 0 ==> parts.significand >= 0x80_0000,
        parts.doublings == (if magnitude < 0x80_0000 {
            0
        } else {
            magnitude / 0x80_0000 - 1
        }),
{
    let exponent: u32 = magnitude / 0x80_0000;
    let fraction: u32 = magnitude % 0x80_0000;
    proof {
        lemma2_to64();
        assert(fraction * pow2(0) == fraction) by (nonlinear_arith)
            requires
                pow2(0) == 1,
        ;
    }
    if exponent == 0 {
        Parts { significand: fraction, doublings: 0 }
    } else {
        Parts { significand: 0x80_0000 + fraction, doublings: exponent - 1 }
    }
}

proof fn lemma_infinite_magnitude()
    ensures
        scaled_magnitude(INFINITE_MAGNITUDE as nat) == 0x80_0000 * pow2(254),
{
    assert(INFINITE_MAGNITUDE as nat / 0x80_0000 == 255);
    assert(INFINITE_MAGNITUDE as nat % 0x80_0000 == 0);
}

/// The pattern of `count * 2^doublings`, or of infinity where that is too large.
fn pack(count: u128, doublings: u32) -> (magnitude: u32)
    requires
        0 < count <= 0x100_0000,
        doublings <= 400,
    ensures
        magnitude <= INFINITE_MAGNITUDE,
        ({
            let value = count * pow2(doublings as nat);
            let infinite = scaled_magnitude(INFINITE_MAGNITUDE as nat);
            scaled_magnitude(magnitude as nat) == (if value < infinite {
                value
            } else {
                infinite as int
            })
        }),
{
    let ghost value = count * pow2(doublings as nat);
    let mut significand: u128 = count;
    let mut rest: u32 = doublings;
    if significand == 0x100_0000 {
        proof {
            lemma_pow2_unfold((doublings + 1) as nat);
        }
        significand = 0x80_0000;
        rest = rest + 1;
    }
    assert(significand * pow2(rest as nat) == value);
    while significand < 0x80_0000 && rest > 0
        invariant
            0 < significand < 0x100_0000,
            rest <= 401,
            significand * pow2(rest as nat) == value,
        decreases rest,
    {
        proof {
            lemma_pow2_unfold(rest as nat);
            assert(significand * pow2(rest as nat) == (2 * significand) * pow2((rest - 1) as nat))
                by (nonlinear_arith)
                requires
                    pow2(rest as nat) == 2 * pow2((rest - 1) as nat),
            ;
        }
        significand = significand * 2;
        rest = rest - 1;
    }
    proof {
        lemma2_to64();
        lemma_infinite_magnitude();
        lemma_pow2_pos(rest as nat);
    }
    if rest >= 254 {
        proof {
            if rest > 254 {
                lemma_pow2_strictly_increases(254, rest as nat);
            }
            assert(0x80_0000 * pow2(254) <= significand * pow2(rest as nat)) by (nonlinear_arith)
                requires
                    0x80_0000 <= significand,
                    pow2(254) <= pow2(rest as nat),
            ;
        }
        return INFINITE_MAGNITUDE;
    }
    let magnitude: u32 = if significand < 0x80_0000 {
        significand as u32
    } else {
        (rest + 1) * 0x80_0000 + (significand as u32 - 0x80_0000)
    };
    proof {
        if significand >= 0x80_0000 {
            assert(magnitude as nat / 0x80_0000 == rest + 1);
            assert(magnitude as nat % 0x80_0000 == significand - 0x80_0000);
        }
        assert(scaled_magnitude(magnitude as nat) == value) by {
            if significand < 0x80_0000 {
                assert(significand * pow2(0) == significand) by (nonlinear_arith)
                    requires
                        pow2(0) == 1,
                ;
            }
        }
        lemma_scaled_magnitude_increases(magnitude as nat, INFINITE_MAGNITUDE as nat);
    }
    magnitude
}

// Addition

/// The magnitude of the sum, or of the difference, of two finite magnitudes that are not equal
/// where they are subtracted. The first is not the smaller one.
fn combine(large: u32, small: u32, subtract: bool) -> (magnitude: u32)
    requires
        small <= large < INFINITE_MAGNITUDE,
        0 < large,
        subtract ==> small < large,
    ensures
        magnitude <= INFINITE_MAGNITUDE,
        ({
            let exact = if subtract {
                (scaled_magnitude(large as nat) - scaled_magnitude(small as nat)) as nat
            } else {
                scaled_magnitude(large as nat) + scaled_magnitude(small as nat)
            };
            scaled_magnitude(magnitude as nat) == nearest_magnitude(exact)
        }),
{
    let a = parts_of(large);
    let b = parts_of(small);
    let ghost scaled_large = scaled_magnitude(large as nat);
    let ghost scaled_small = scaled_magnitude(small as nat);
    proof {
        lemma2_to64();
        lemma_scaled_magnitude_increases(large as nat, INFINITE_MAGNITUDE as nat);
        if small < large {
            lemma_scaled_magnitude_increases(small as nat, large as nat);
        }
        assert(scaled_magnitude(0) == 0);
        lemma_scaled_magnitude_increases(0, large as nat);
    }
    let gap: u32 = a.doublings - b.doublings;
    if gap > 40 {
        proof {
            lemma_pow2_adds(b.doublings as nat, gap as nat);
            lemma_pow2_strictly_increases(26, gap as nat);
            lemma_pow2_pos(b.doublings as nat);
            let unit = pow2(b.doublings as nat);
            assert(4 * scaled_small < pow2(a.doublings as nat)) by (nonlinear_arith)
                requires
                    scaled_small == b.significand * unit,
                    b.significand < 0x100_0000,
                    pow2(a.doublings as nat) == unit * pow2(gap as nat),
                    0x400_0000 < pow2(gap as nat),
                    0 < unit,
            ;
            lemma_nearest_swallows(a.significand as nat, a.doublings as nat, scaled_small);
        }
        return large;
    }
    let ghost unit = pow2(b.doublings as nat);
    let ghost gap_unit = pow2(gap as nat);
    proof {
        lemma_pow2_adds(gap as nat, b.doublings as nat);
        lemma_pow2_pos(gap as nat);
        lemma_pow2_pos(b.doublings as nat);
        assert(pow2(40) == 0x100_0000_0000) by {
            vstd::arithmetic::power2::lemma2_to64_rest();
        }
        if gap < 40 {
            lemma_pow2_strictly_increases(gap as nat, 40);
        }
        assert(a.significand * gap_unit <= 0x100_0000 * 0x100_0000_0000) by (nonlinear_arith)
            requires
                a.significand < 0x100_0000,
                gap_unit <= 0x100_0000_0000,
        ;
        assert(scaled_large == (a.significand * gap_unit) * unit) by (nonlinear_arith)
            requires
                scaled_large == a.significand * pow2(a.doublings as nat),
                pow2(a.doublings as nat) == gap_unit * unit,
        ;
    }
    let moved: u128 = times_power_of_two(a.significand as u128, gap);
    proof {
        // Both magnitudes are counted in the same unit now.
        assert(scaled_small < scaled_large ==> b.significand < moved) by (nonlinear_arith)
            requires
                scaled_small == b.significand * unit,
                scaled_large == moved * unit,
                0 < unit,
        ;
        assert(moved > 0) by (nonlinear_arith)
            requires
                0 < scaled_large,
                scaled_large == moved * unit,
        ;
        assert((moved - b.significand) * unit == scaled_large - scaled_small && (moved
            + b.significand) * unit == scaled_large + scaled_small) by (nonlinear_arith)
            requires
                scaled_small == b.significand * unit,
                scaled_large == moved * unit,
        ;
    }
    let exact: u128 = if subtract {
        moved - b.significand as u128
    } else {
        moved + b.significand as u128
    };
    proof {
        lemma_nearest_shift(exact as nat, b.doublings as nat);
    }
    let rounded = round_to_limit(exact, 0x100_0000);
    pack(rounded.count, rounded.doublings + b.doublings)
}

impl CpuPercent {
    /// The sum of two percentages, rounded to single precision.
    pub fn plus(self, other: CpuPercent) -> (sum: CpuPercent)
        ensures
            adds_to(self, other, sum),
    {
        let not_a_number = CpuPercent { bits: 0x7fc0_0000 };
        if self.is_nan() || other.is_nan() {
            return not_a_number;
        }
        let mine: u32 = self.bits % 0x8000_0000;
        let theirs: u32 = other.bits % 0x8000_0000;
        if mine == INFINITE_MAGNITUDE {
            return if theirs == INFINITE_MAGNITUDE && self.bits != other.bits {
                not_a_number
            } else {
                self
            };
        }
        if theirs == INFINITE_MAGNITUDE {
            return other;
        }
        let negative: bool = self.bits >= 0x8000_0000;
        let other_negative: bool = other.bits >= 0x8000_0000;
        proof {
            assert(scaled_magnitude(0) == 0);
            if mine < theirs {
                lemma_scaled_magnitude_increases(mine as nat, theirs as nat);
            } else if theirs < mine {
                lemma_scaled_magnitude_increases(theirs as nat, mine as nat);
            }
            if mine > 0 {
                lemma_scaled_magnitude_increases(0, mine as nat);
            }
            if theirs > 0 {
                lemma_scaled_magnitude_increases(0, theirs as nat);
            }
        }
        if mine == theirs && (negative != other_negative || mine == 0) {
            return if negative && other_negative {
                CpuPercent { bits: 0x8000_0000 }
            } else {
                CpuPercent { bits: 0 }
            };
        }
        let subtract: bool = negative != other_negative;
        if mine >= theirs {
            let magnitude: u32 = combine(mine, theirs, subtract);
            if negative {
                CpuPercent { bits: 0x8000_0000 + magnitude }
            } else {
                CpuPercent { bits: magnitude }
            }
        } else {
            let magnitude: u32 = combine(theirs, mine, subtract);
            if other_negative {
                CpuPercent { bits: 0x8000_0000 + magnitude }
            } else {
                CpuPercent { bits: magnitude }
            }
        }
    }
}

} // verus!
