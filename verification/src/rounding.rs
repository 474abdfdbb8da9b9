//! Rounding to the nearest, ties to even.
use vstd::arithmetic::power2::{
    lemma2_to64, lemma_pow2_adds, lemma_pow2_strictly_increases, lemma_pow2_unfold, pow2,
};
use vstd::prelude::*;

verus! {

/// The quotient `n / d` rounded to the nearest whole number, a tie going to the even neighbour.
pub open spec fn round_half_even(n: nat, d: nat) -> nat {
    let below = n / d;
    let rest = n % d;
    if 2 * rest < d || (2 * rest == d && below % 2 == 0) {
        below
    } else {
        below + 1
    }
}

/// Rounding does not depend on the unit in which both numbers are counted.
pub proof fn lemma_round_half_even_scales(n: nat, d: nat, unit: nat)
    requires
        0 < d,
        0 < unit,
    ensures
        round_half_even(n * unit, d * unit) == round_half_even(n, d),
{
    let below = n / d;
    let rest = n % d;
    vstd::arithmetic::div_mod::lemma_fundamental_div_mod(n as int, d as int);
    assert(n * unit == below * (d * unit) + rest * unit) by (nonlinear_arith)
        requires
            n == d * below + rest,
    ;
    assert(0 <= rest * unit < d * unit) by (nonlinear_arith)
        requires
            0 <= rest < d,
            0 < unit,
    ;
    vstd::arithmetic::div_mod::lemma_fundamental_div_mod_converse(
        (n * unit) as int,
        (d * unit) as int,
        below as int,
        (rest * unit) as int,
    );
    assert(2 * (rest * unit) < d * unit <==> 2 * rest < d) by (nonlinear_arith)
        requires
            0 < unit,
    ;
    assert(2 * (rest * unit) == d * unit <==> 2 * rest == d) by (nonlinear_arith)
        requires
            0 < unit,
    ;
}

/// `n / d` rounded to the nearest whole number, a tie going to the even neighbour.
pub fn round_ratio(n: u128, d: u128) -> (q: u128)
    requires
        0 < d,
        d <= 0x8000_0000_0000_0000_0000_0000_0000_0000,
        n < 0x8000_0000_0000_0000_0000_0000_0000_0000,
    ensures
        q == round_half_even(n as nat, d as nat),
{
    let below: u128 = n / d;
    let rest: u128 = n % d;
    assert(below <= n) by (nonlinear_arith)
        requires
            below == n / d,
            0 < d,
    ;
    if rest < d - rest || (rest == d - rest && below % 2 == 0) {
        below
    } else {
        below + 1
    }
}

/// How many low bits of `n` have to go for the rest to be below `limit`.
pub open spec fn excess_bits(n: nat, limit: nat) -> nat
    decreases n,
{
    if n < limit || limit == 0 {
        0
    } else {
        1 + excess_bits(n / 2, limit)
    }
}

/// The number nearest to `n` among those that are below `limit` up to a power of two, a tie going
/// to the even neighbour. With a power of two for `limit`, these are the numbers with so many
/// significant bits.
pub open spec fn nearest(n: nat, limit: nat) -> nat {
    let spacing = pow2(excess_bits(n, limit));
    round_half_even(n, spacing) * spacing
}

/// `n * 2^doublings`.
pub fn times_power_of_two(n: u128, doublings: u32) -> (product: u128)
    requires
        n * pow2(doublings as nat) <= u128::MAX,
    ensures
        product == n * pow2(doublings as nat),
{
    let mut product: u128 = n;
    let mut done: u32 = 0;
    assert(pow2(0) == 1) by {
        vstd::arithmetic::power2::lemma2_to64();
    }
    while done < doublings
        invariant
            done <= doublings,
            product == n * pow2(done as nat),
            n * pow2(doublings as nat) <= u128::MAX,
        decreases doublings - done,
    {
        proof {
            lemma_pow2_unfold((done + 1) as nat);
            if done + 1 < doublings {
                lemma_pow2_strictly_increases((done + 1) as nat, doublings as nat);
            }
            assert(n * pow2((done + 1) as nat) == 2 * (n * pow2(done as nat))) by (nonlinear_arith)
                requires
                    pow2((done + 1) as nat) == 2 * pow2(done as nat),
            ;
            assert(n * pow2((done + 1) as nat) <= n * pow2(doublings as nat)) by (nonlinear_arith)
                requires
                    pow2((done + 1) as nat) <= pow2(doublings as nat),
            ;
        }
        product = product * 2;
        done = done + 1;
    }
    product
}

/// A number that is `count * 2^doublings`.
pub struct Scaled {
    pub count: u128,
    pub doublings: u32,
}

/// The number nearest to `n` among those that are below `limit` up to a power of two.
pub fn round_to_limit(n: u128, limit: u128) -> (rounded: Scaled)
    requires
        n < 0x10_0000_0000_0000_0000_0000_0000,
        2 <= limit,
        limit % 2 == 0,
    ensures
        rounded.doublings == excess_bits(n as nat, limit as nat),
        rounded.doublings <= 100,
        rounded.count == round_half_even(n as nat, pow2(rounded.doublings as nat)),
        rounded.count <= limit,
        rounded.doublings > 0 ==> rounded.count >= limit / 2,
        rounded.doublings == 0 ==> rounded.count == n,
{
    let mut high: u128 = n;
    let mut spacing: u128 = 1;
    let mut doublings: u32 = 0;
    proof {
        lemma2_to64();
    }
    while high >= limit
        invariant
            2 <= limit,
            limit % 2 == 0,
            n < 0x10_0000_0000_0000_0000_0000_0000,
            excess_bits(n as nat, limit as nat) == doublings + excess_bits(
                high as nat,
                limit as nat,
            ),
            spacing == pow2(doublings as nat),
            1 <= spacing,
            doublings <= 100,
            doublings > 0 ==> high >= limit / 2,
            high * spacing <= n < (high + 1) * spacing,
        decreases high,
    {
        proof {
            lemma_pow2_unfold((doublings + 1) as nat);
            assert(spacing <= n) by (nonlinear_arith)
                requires
                    high * spacing <= n,
                    high >= 1,
            ;
            if doublings == 100 {
                lemma_pow2_adds(50, 50);
                assert(pow2(50) == 0x4_0000_0000_0000) by {
                    vstd::arithmetic::power2::lemma2_to64_rest();
                }
                assert(pow2(100) == 0x10_0000_0000_0000_0000_0000_0000);
            }
            let half: int = high as int / 2;
            assert(half * (2 * spacing) <= high * spacing) by (nonlinear_arith)
                requires
                    2 * half <= high,
                    1 <= spacing,
            ;
            assert((high + 1) * spacing <= (half + 1) * (2 * spacing)) by (nonlinear_arith)
                requires
                    high + 1 <= 2 * (half + 1),
                    1 <= spacing,
            ;
        }
        high = high / 2;
        spacing = spacing * 2;
        doublings = doublings + 1;
    }
    proof {
        assert(high * spacing <= n < high * spacing + spacing) by (nonlinear_arith)
            requires
                high * spacing <= n < (high + 1) * spacing,
        ;
        vstd::arithmetic::div_mod::lemma_fundamental_div_mod_converse(
            n as int,
            spacing as int,
            high as int,
            n - high * spacing,
        );
        assert(spacing <= 0x10_0000_0000_0000_0000_0000_0000) by {
            lemma_pow2_adds(50, 50);
            assert(pow2(50) == 0x4_0000_0000_0000) by {
                vstd::arithmetic::power2::lemma2_to64_rest();
            }
            if doublings < 100 {
                lemma_pow2_strictly_increases(doublings as nat, 100);
            }
        }
    }
    Scaled { count: round_ratio(n, spacing), doublings }
}

/// Rounding spaces numbers no further apart than they are large.
pub proof fn lemma_spacing_bound(n: nat, limit: nat)
    requires
        0 < limit,
    ensures
        excess_bits(n, limit) > 0 ==> limit * pow2(excess_bits(n, limit)) <= 2 * n,
        excess_bits(n, limit) == 0 ==> pow2(excess_bits(n, limit)) == 1,
    decreases n,
{
    lemma2_to64();
    if n >= limit {
        lemma_spacing_bound(n / 2, limit);
        lemma_pow2_unfold(excess_bits(n, limit));
        let below = pow2(excess_bits(n / 2, limit));
        assert(limit * (2 * below) == 2 * (limit * below)) by (nonlinear_arith);
    }
}

} // verus!
