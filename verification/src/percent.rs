//! CPU percentages, held as the bit patterns of single-precision numbers.
use crate::rounding::{
    lemma_round_half_even_scales, round_half_even, round_ratio, times_power_of_two,
};
use crate::text::{decimal, one_decimal, push_decimal, push_tenths};
use vstd::arithmetic::power2::{
    lemma_pow2_adds, lemma_pow2_pos, lemma_pow2_strictly_increases, lemma_pow2_unfold, pow2,
};
use vstd::prelude::*;

verus! {

/// A CPU percentage: the bit pattern of an IEEE 754 single-precision number.
#[derive(Debug, Clone, Copy, PartialEq, Eq, Structural)]
pub struct CpuPercent {
    pub bits: u32,
}

/// The largest finite magnitudes lie below this pattern, and the not-a-numbers above it.
pub const INFINITE_MAGNITUDE: u32 = 0x7f80_0000;

/// The magnitude that the 31 low bits `m` stand for, counted in units of `2^-149`.
///
/// The eight bits from bit 23 up are the biased exponent and the 23 bits below are the fraction.
/// The pattern of infinity is given the value that its exponent would have, which is above every
/// finite one.
pub open spec fn scaled_magnitude(m: nat) -> nat {
    let exponent = m / 0x80_0000;
    let fraction = m % 0x80_0000;
    if exponent == 0 {
        fraction
    } else {
        (0x80_0000 + fraction) * pow2((exponent - 1) as nat)
    }
}

/// How many of the units in which values are counted make up one percent.
pub open spec fn one_percent() -> nat {
    pow2(149)
}

impl CpuPercent {
    pub open spec fn spec_negative(self) -> bool {
        self.bits >= 0x8000_0000
    }

    pub open spec fn spec_magnitude(self) -> nat {
        self.bits as nat % 0x8000_0000
    }

    pub open spec fn spec_is_nan(self) -> bool {
        self.spec_magnitude() > INFINITE_MAGNITUDE
    }

    pub open spec fn spec_is_infinite(self) -> bool {
        self.spec_magnitude() == INFINITE_MAGNITUDE
    }

    /// The value in units of `2^-149`, in which every finite value is whole. Both zeros are zero.
    pub open spec fn value(self) -> int {
        if self.spec_negative() {
            -(scaled_magnitude(self.spec_magnitude()) as int)
        } else {
            scaled_magnitude(self.spec_magnitude()) as int
        }
    }

    /// The order of numbers; a not-a-number is neither below nor above anything.
    pub open spec fn below(self, other: CpuPercent) -> bool {
        &&& !self.spec_is_nan()
        &&& !other.spec_is_nan()
        &&& self.value() < other.value()
    }

    /// More than `percent` percent.
    pub open spec fn above_whole(self, percent: nat) -> bool {
        !self.spec_is_nan() && self.value() > percent * one_percent()
    }

    /// The text with one digit after the point.
    pub open spec fn shown(self) -> Seq<char> {
        let sign = if self.spec_negative() {
            "-"@
        } else {
            ""@
        };
        if self.spec_is_nan() {
            "NaN"@
        } else if self.spec_is_infinite() {
            sign + "inf"@
        } else {
            sign + one_decimal(scaled_magnitude(self.spec_magnitude()), one_percent())
        }
    }
}

// Order

proof fn lemma_scaled_magnitude_bounds(m: nat)
    ensures
        m / 0x80_0000 > 0 ==> 0x80_0000 * pow2((m / 0x80_0000 - 1) as nat) <= scaled_magnitude(m),
        scaled_magnitude(m) < 0x80_0000 * pow2(m / 0x80_0000),
{
    let exponent = m / 0x80_0000;
    let fraction = m % 0x80_0000;
    if exponent == 0 {
        assert(pow2(0) == 1) by {
            vstd::arithmetic::power2::lemma2_to64();
        }
    } else {
        let unit = pow2((exponent - 1) as nat);
        lemma_pow2_pos((exponent - 1) as nat);
        lemma_pow2_unfold(exponent);
        assert(0x80_0000 * unit <= (0x80_0000 + fraction) * unit < 0x80_0000 * (2 * unit))
            by (nonlinear_arith)
            requires
                0 <= fraction < 0x80_0000,
                0 < unit,
        ;
    }
}

/// A larger pattern stands for a larger magnitude.
pub proof fn lemma_scaled_magnitude_increases(low: nat, high: nat)
    requires
        low < high,
    ensures
        scaled_magnitude(low) < scaled_magnitude(high),
{
    let low_exponent = low / 0x80_0000;
    let high_exponent = high / 0x80_0000;
    if low_exponent == high_exponent {
        if low_exponent > 0 {
            let unit = pow2((low_exponent - 1) as nat);
            lemma_pow2_pos((low_exponent - 1) as nat);
            assert((0x80_0000 + low % 0x80_0000) * unit < (0x80_0000 + high % 0x80_0000) * unit)
                by (nonlinear_arith)
                requires
                    low % 0x80_0000 < high % 0x80_0000,
                    0 < unit,
            ;
        }
    } else {
        lemma_scaled_magnitude_bounds(low);
        lemma_scaled_magnitude_bounds(high);
        if low_exponent < high_exponent - 1 {
            lemma_pow2_strictly_increases(low_exponent, (high_exponent - 1) as nat);
        }
    }
}

impl CpuPercent {
    /// The percentage whose single-precision bit pattern is `bits`.
    pub fn from_bits(bits: u32) -> (percent: CpuPercent)
        ensures
            percent.bits == bits,
    {
        CpuPercent { bits }
    }

    /// Whether this is not a number.
    pub fn is_nan(self) -> (r: bool)
        ensures
            r == self.spec_is_nan(),
    {
        self.bits % 0x8000_0000 > INFINITE_MAGNITUDE
    }

    /// Whether this is a smaller number than `other`.
    pub fn is_below(self, other: CpuPercent) -> (r: bool)
        ensures
            r == self.below(other),
    {
        if self.is_nan() || other.is_nan() {
            return false;
        }
        let mine: u32 = self.bits % 0x8000_0000;
        let theirs: u32 = other.bits % 0x8000_0000;
        proof {
            if mine < theirs {
                lemma_scaled_magnitude_increases(mine as nat, theirs as nat);
            } else if theirs < mine {
                lemma_scaled_magnitude_increases(theirs as nat, mine as nat);
            }
            assert(scaled_magnitude(0) == 0);
            if mine > 0 {
                lemma_scaled_magnitude_increases(0, mine as nat);
            }
            if theirs > 0 {
                lemma_scaled_magnitude_increases(0, theirs as nat);
            }
        }
        if self.bits < 0x8000_0000 {
            other.bits < 0x8000_0000 && mine < theirs
        } else if other.bits < 0x8000_0000 {
            mine > 0 || theirs > 0
        } else {
            theirs < mine
        }
    }

    /// Whether this is more than fifty percent.
    pub fn is_above_fifty(self) -> (r: bool)
        ensures
            r == self.above_whole(50),
    {
        proof {
            // The pattern of fifty: fraction bits 0x48_0000 above exponent 132.
            lemma_pow2_adds(18, 131);
            assert(pow2(18) == 0x4_0000) by {
                vstd::arithmetic::power2::lemma2_to64();
            }
            assert(0xc8_0000 * pow2(131) == 50 * (0x4_0000 * pow2(131)));
        }
        CpuPercent { bits: 0x4248_0000 }.is_below(self)
    }

    /// Whether this is more than twenty percent.
    pub fn is_above_twenty(self) -> (r: bool)
        ensures
            r == self.above_whole(20),
    {
        proof {
            // The pattern of twenty: fraction bits 0x20_0000 above exponent 131.
            lemma_pow2_adds(19, 130);
            assert(pow2(19) == 0x8_0000) by {
                vstd::arithmetic::power2::lemma2_to64();
            }
            assert(0xa0_0000 * pow2(130) == 20 * (0x8_0000 * pow2(130)));
        }
        CpuPercent { bits: 0x41a0_0000 }.is_below(self)
    }
}

// Text

/// A magnitude of at least `2^23` is a whole number of percent.
proof fn lemma_whole_percent(significand: nat, doublings: nat)
    ensures
        one_decimal(significand * pow2(doublings + 149), one_percent()) == decimal(
            significand * pow2(doublings),
        ) + "."@ + decimal(0),
{
    let whole = significand * pow2(doublings);
    lemma_pow2_adds(doublings, 149);
    lemma_pow2_pos(149);
    assert(10 * (significand * pow2(doublings + 149)) == (10 * whole) * pow2(149))
        by (nonlinear_arith)
        requires
            whole == significand * pow2(doublings),
            pow2(doublings + 149) == pow2(doublings) * pow2(149),
    ;
    lemma_round_half_even_scales(10 * whole, 1, pow2(149));
}

/// A magnitude below `2^23` in lowest terms.
proof fn lemma_fractional_percent(significand: nat, exponent: nat)
    requires
        exponent <= 149,
    ensures
        round_half_even(10 * (significand * pow2(exponent)), one_percent()) == round_half_even(
            10 * significand,
            pow2((149 - exponent) as nat),
        ),
{
    lemma_pow2_adds((149 - exponent) as nat, exponent);
    lemma_pow2_pos(exponent);
    lemma_pow2_pos((149 - exponent) as nat);
    assert(10 * (significand * pow2(exponent)) == (10 * significand) * pow2(exponent))
        by (nonlinear_arith);
    lemma_round_half_even_scales(10 * significand, pow2((149 - exponent) as nat), pow2(exponent));
}

impl CpuPercent {
    /// Appends the text with one digit after the point to `out`.
    pub fn push_text(self, out: &mut String)
        ensures
            final(out)@ == old(out)@ + self.shown(),
    {
        let magnitude: u32 = self.bits % 0x8000_0000;
        if self.is_nan() {
            out.append("NaN");
            return;
        }
        if self.bits >= 0x8000_0000 {
            out.append("-");
        } else {
            out.append("");
        }
        let ghost signed = out@;
        if magnitude == INFINITE_MAGNITUDE {
            out.append("inf");
            assert(out@ =~= old(out)@ + self.shown());
            return;
        }
        let exponent: u32 = magnitude / 0x80_0000;
        let fraction: u32 = magnitude % 0x80_0000;
        let significand: u32 = if exponent == 0 { fraction } else { 0x80_0000 + fraction };
        if exponent >= 150 {
            proof {
                lemma_whole_percent(significand as nat, (exponent - 150) as nat);
                assert((exponent - 150) as nat + 149 == (exponent - 1) as nat);
                // At most 24 significant bits, moved up by at most 104 places.
                if exponent < 254 {
                    lemma_pow2_strictly_increases((exponent - 150) as nat, 104);
                }
                lemma_pow2_adds(52, 52);
                assert(pow2(52) == 0x10_0000_0000_0000) by {
                    vstd::arithmetic::power2::lemma2_to64_rest();
                }
                assert(pow2(104) == 0x1_0000_0000_0000_0000_0000_0000_00);
                assert(significand * pow2((exponent - 150) as nat) <= u128::MAX)
                    by (nonlinear_arith)
                    requires
                        significand < 0x100_0000,
                        pow2((exponent - 150) as nat) <= 0x1_0000_0000_0000_0000_0000_0000_00,
                ;
            }
            let whole: u128 = times_power_of_two(significand as u128, exponent - 150);
            push_decimal(out, whole);
            out.append(".");
            push_decimal(out, 0);
        } else {
            // The magnitude is `significand / 2^places`.
            let places: u32 = if exponent == 0 { 149 } else { 150 - exponent };
            proof {
                assert(pow2(0) == 1) by {
                    vstd::arithmetic::power2::lemma2_to64();
                }
                lemma_fractional_percent(significand as nat, (149 - places) as nat);
                lemma_pow2_pos(places as nat);
            }
            let tenths: u128 = if places <= 64 {
                proof {
                    if places < 64 {
                        lemma_pow2_strictly_increases(places as nat, 64);
                    }
                    assert(pow2(64) == 0x1_0000_0000_0000_0000) by {
                        vstd::arithmetic::power2::lemma2_to64();
                    }
                }
                let unit: u128 = times_power_of_two(1, places);
                round_ratio(10 * (significand as u128), unit)
            } else {
                proof {
                    lemma_pow2_strictly_increases(64, places as nat);
                    assert(pow2(64) == 0x1_0000_0000_0000_0000) by {
                        vstd::arithmetic::power2::lemma2_to64();
                    }
                    vstd::arithmetic::div_mod::lemma_basic_div(
                        10 * significand as int,
                        pow2(places as nat) as int,
                    );
                    vstd::arithmetic::div_mod::lemma_small_mod(
                        10 * significand as nat,
                        pow2(places as nat),
                    );
                }
                0
            };
            push_tenths(out, tenths);
        }
        assert(out@ =~= signed + one_decimal(
            scaled_magnitude(self.spec_magnitude()),
            one_percent(),
        ));
        assert(out@ =~= old(out)@ + self.shown());
    }

    /// The text with one digit after the point.
    pub fn text(self) -> (text: String)
        ensures
            text@ == self.shown(),
    {
        let mut text = String::new();
        self.push_text(&mut text);
        assert(text@ =~= self.shown());
        text
    }
}

} // verus!
