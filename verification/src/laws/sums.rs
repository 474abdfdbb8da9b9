//! What holds of sums of CPU usages, told by their patterns and values.
use crate::laws::numbers::{law_nearest_has_so_many_bits, law_nearest_is_nearest};
use crate::percent::{lemma_scaled_magnitude_increases, scaled_magnitude, CpuPercent};
use crate::percent_sum::{adds_to, nearest_magnitude};
use crate::rounding::nearest;
use vstd::arithmetic::power2::{lemma2_to64, lemma_pow2_unfold, pow2};
use vstd::math::abs;
use vstd::prelude::*;

verus! {

/// Sums with what is not a finite number: a not-a-number, and infinities of opposite sign, give a
/// not-a-number; any other infinity is kept.
pub proof fn law_cpu_sum_of_infinities(a: CpuPercent, b: CpuPercent, sum: CpuPercent)
    requires
        adds_to(a, b, sum),
    ensures
        ({
            let x = a.bits as int % 0x8000_0000;
            let y = b.bits as int % 0x8000_0000;
            let z = sum.bits as int % 0x8000_0000;
            &&& x > 0x7f80_0000 || y > 0x7f80_0000 ==> z > 0x7f80_0000
            &&& x == 0x7f80_0000 && y == 0x7f80_0000 && a.bits != b.bits ==> z > 0x7f80_0000
            &&& x == 0x7f80_0000 && (y < 0x7f80_0000 || a.bits == b.bits) ==> sum.bits == a.bits
            &&& x < 0x7f80_0000 && y == 0x7f80_0000 ==> sum.bits == b.bits
        }),
{
}

/// A finite sum has the sign of what is exact. Where that is zero, the sum is a negative zero only
/// if both numbers have their top bits set.
pub proof fn law_cpu_sum_has_the_sign(a: CpuPercent, b: CpuPercent, sum: CpuPercent)
    requires
        adds_to(a, b, sum),
        a.bits as int % 0x8000_0000 < 0x7f80_0000,
        b.bits as int % 0x8000_0000 < 0x7f80_0000,
    ensures
        a.value() + b.value() < 0 ==> sum.bits >= 0x8000_0000,
        a.value() + b.value() > 0 ==> sum.bits < 0x8000_0000,
        a.value() + b.value() == 0 ==> sum.bits == (if a.bits >= 0x8000_0000 && b.bits
            >= 0x8000_0000 {
            0x8000_0000u32
        } else {
            0u32
        }),
{
}

/// Any magnitude is a count of 24 bits times a power of two.
proof fn lemma_magnitude_form(m: nat) -> (form: (nat, nat))
    ensures
        scaled_magnitude(m) == form.0 * pow2(form.1),
        form.0 < 0x100_0000,
{
    lemma2_to64();
    if m < 0x80_0000 {
        assert(m * pow2(0) == m) by (nonlinear_arith)
            requires
                pow2(0) == 1,
        ;
        (m, 0)
    } else {
        (0x80_0000 + m % 0x80_0000, (m / 0x80_0000 - 1) as nat)
    }
}

/// Different patterns have different magnitudes.
proof fn lemma_magnitude_tells_patterns(a: nat, b: nat)
    requires
        scaled_magnitude(a) == scaled_magnitude(b),
    ensures
        a == b,
{
    if a < b {
        lemma_scaled_magnitude_increases(a, b);
    } else if b < a {
        lemma_scaled_magnitude_increases(b, a);
    }
}

/// An even count makes an even pattern.
proof fn lemma_even_count(m: nat, count: nat, doublings: nat)
    requires
        0x80_0000 <= count <= 0x100_0000,
        count % 2 == 0,
        scaled_magnitude(m) == count * pow2(doublings),
    ensures
        m % 2 == 0,
{
    let pattern: nat = if count < 0x100_0000 {
        (doublings + 1) * 0x80_0000 + (count - 0x80_0000) as nat
    } else {
        (doublings + 2) * 0x80_0000
    };
    if count < 0x100_0000 {
        assert(pattern / 0x80_0000 == doublings + 1);
        assert(pattern % 0x80_0000 == count - 0x80_0000);
    } else {
        lemma_pow2_unfold(doublings + 1);
        assert(pattern / 0x80_0000 == doublings + 2);
        assert(pattern % 0x80_0000 == 0);
        assert(0x80_0000 * pow2(doublings + 1) == 0x100_0000 * pow2(doublings));
    }
    lemma_magnitude_tells_patterns(m, pattern);
}

/// No magnitude up to that of infinity is nearer to `exact` than what it is rounded to, and one
/// that is as near makes the pattern even.
proof fn lemma_magnitude_is_nearest(exact: nat, m: nat, other: nat)
    requires
        0 < exact,
        scaled_magnitude(m) == nearest_magnitude(exact),
        other <= 0x7f80_0000,
    ensures
        m <= 0x7f80_0000,
        abs(scaled_magnitude(m) - exact) <= exact,
        abs(scaled_magnitude(m) - exact) <= abs(scaled_magnitude(other) - exact),
        other != m && abs(scaled_magnitude(m) - exact) == abs(scaled_magnitude(other) - exact)
            ==> m % 2 == 0,
{
    lemma2_to64();
    let rounded = nearest(exact, 0x100_0000);
    let infinite = scaled_magnitude(0x7f80_0000);
    let chosen = scaled_magnitude(m);
    let value = scaled_magnitude(other);
    if m > 0x7f80_0000 {
        lemma_scaled_magnitude_increases(0x7f80_0000, m);
    }
    if other < 0x7f80_0000 {
        lemma_scaled_magnitude_increases(other, 0x7f80_0000);
    }
    let (count, doublings) = lemma_magnitude_form(other);
    law_nearest_is_nearest(exact, 24, count, doublings);
    let (limit_count, limit_doublings) = lemma_magnitude_form(0x7f80_0000);
    law_nearest_is_nearest(exact, 24, limit_count, limit_doublings);
    law_nearest_is_nearest(exact, 24, 0, 0);
    assert(0 * pow2(0) == 0);
    if other != m && abs(chosen - exact) == abs(value - exact) {
        if chosen == value {
            lemma_magnitude_tells_patterns(m, other);
        }
        if rounded < infinite {
            law_nearest_has_so_many_bits(exact, 24);
            let (c, d) = choose|c: nat, d: nat|
                {
                    &&& nearest(exact, pow2(24)) == #[trigger] (c * pow2(d))
                    &&& c <= pow2(24)
                    &&& d > 0 ==> c >= pow2(23)
                    &&& d == 0 ==> c == exact
                    &&& forall|x: nat, y: nat|
                        x <= pow2(24) && #[trigger] (x * pow2(y)) != nearest(exact, pow2(24))
                            && abs(x * pow2(y) - exact) == abs(nearest(exact, pow2(24)) - exact)
                            ==> c % 2 == 0
                };
            assert(count * pow2(doublings) == value);
            assert(c % 2 == 0);
            if d == 0 {
                assert(c * pow2(d) == exact) by (nonlinear_arith)
                    requires
                        pow2(0) == 1,
                        c == exact,
                        d == 0,
                ;
            } else {
                lemma_even_count(m, c, d);
            }
        } else {
            lemma_magnitude_tells_patterns(m, 0x7f80_0000);
        }
    }
}

/// The sum of two finite CPU usages is a number, and no number is nearer to what is exact; where
/// another is as near, the pattern of the sum is even. Infinity counts as the power of two above
/// all finite numbers.
pub proof fn law_cpu_sum_is_nearest(
    a: CpuPercent,
    b: CpuPercent,
    sum: CpuPercent,
    other: CpuPercent,
)
    requires
        adds_to(a, b, sum),
        a.bits as int % 0x8000_0000 < 0x7f80_0000,
        b.bits as int % 0x8000_0000 < 0x7f80_0000,
        other.bits as int % 0x8000_0000 <= 0x7f80_0000,
    ensures
        ({
            let exact = a.value() + b.value();
            &&& sum.bits as int % 0x8000_0000 <= 0x7f80_0000
            &&& abs(sum.value() - exact) <= abs(other.value() - exact)
            &&& other.value() != sum.value() && abs(sum.value() - exact) == abs(
                other.value() - exact,
            ) ==> sum.bits % 2 == 0
        }),
{
    let exact = a.value() + b.value();
    assert(scaled_magnitude(0) == 0);
    if exact != 0 {
        let m = sum.bits as nat % 0x8000_0000;
        let size = if exact < 0 {
            (-exact) as nat
        } else {
            exact as nat
        };
        let against = other.bits as nat % 0x8000_0000;
        lemma_magnitude_is_nearest(size, m, against);
    }
}

} // verus!
