//! How exactly powers of one half are computed, and that they fall.

use crate::double::{series, Double, LEADING, LN_2, TERMS};
use vstd::arithmetic::div_mod::*;
use vstd::arithmetic::mul::*;
use vstd::arithmetic::power2::*;
use vstd::prelude::*;

verus! {

/// Two to the power 64: what stands for one in sums of the series.
pub open spec fn unit() -> nat {
    0x1_0000_0000_0000_0000
}

/// The denominator of the exponential series from its term `k` to its term
/// `n`.
pub open spec fn below(k: nat, n: nat) -> nat
    decreases n + 1 - k,
{
    if k > n {
        1
    } else {
        k * unit() * below(k + 1, n)
    }
}

/// The numerator of the exponential series from its term `k` to its term `n`,
/// without any rounding: `1 - y/k (1 - y/(k+1) (1 - ...))`, where `y` counts
/// units of two to the power -64. From the first term on this is the
/// exponential of `-y`, up to the terms that are left out.
pub open spec fn above(y: nat, k: nat, n: nat) -> int
    decreases n + 1 - k,
{
    if k > n {
        1
    } else {
        below(k, n) - y * above(y, k + 1, n)
    }
}

/// Whether the sum of the series is off by at most some units from the series
/// that is not rounded and goes on to the term `n`.
pub open spec fn close(y: nat, k: nat, n: nat, units: nat) -> bool {
    &&& series(y, k) * below(k, n) - unit() * above(y, k, n) <= units * below(k, n)
    &&& unit() * above(y, k, n) - series(y, k) * below(k, n) <= units * below(k, n)
}

/// The series lies between nothing and one.
proof fn lemma_range(y: nat, k: nat, n: nat)
    requires
        y <= LN_2,
        k >= 1,
    ensures
        0 < below(k, n),
        0 <= above(y, k, n) <= below(k, n),
    decreases n + 1 - k,
{
    if k <= n {
        lemma_range(y, k + 1, n);
        let d = below(k + 1, n) as int;
        let v = above(y, k + 1, n);
        let one = unit() as int;
        assert(0 < (k * one) * d && y * v <= (k * one) * d && 0 <= y * v) by (nonlinear_arith)
            requires
                0 < d,
                0 <= v <= d,
                0 <= y <= one,
                k >= 1,
                one > 0,
        ;
    }
}

/// The sum of the series lies between nothing and one.
proof fn lemma_sum_range(y: nat, k: nat)
    requires
        y <= LN_2,
        k >= 1,
    ensures
        series(y, k) <= unit(),
        k <= TERMS ==> k * unit() * (unit() - series(y, k)) <= y * series(y, k + 1),
        k <= TERMS ==> y * series(y, k + 1) < k * unit() * (unit() - series(y, k)) + k * unit(),
        k <= TERMS ==> k * (unit() - series(y, k)) <= y,
    decreases TERMS + 1 - k,
{
    if k <= TERMS {
        lemma_sum_range(y, k + 1);
        let one = unit() as int;
        let t = series(y, k + 1) as int;
        let num = y * t;
        let den = k * one;
        assert(den > 0 && 0 <= num && num <= y * one) by (nonlinear_arith)
            requires
                k >= 1,
                one > 0,
                0 <= t <= one,
                y >= 0,
                num == y * t,
                den == k * one,
        ;
        lemma_fundamental_div_mod(num, den);
        lemma_mod_bound(num, den);
        lemma_div_pos_is_pos(num, den);
        let q = num / den;
        assert(k * q <= y) by (nonlinear_arith)
            requires
                den * q <= num,
                num <= y * one,
                den == k * one,
                one > 0,
        ;
        assert(q <= one) by (nonlinear_arith)
            requires
                k * q <= y,
                k >= 1,
                y <= one,
                q >= 0,
        ;
        assert(series(y, k) == one - q);
    }
}

/// One more term in front.
proof fn lemma_close_step(y: nat, k: nat, n: nat, rest: nat, units: nat)
    requires
        y <= LN_2,
        1 <= k <= TERMS,
        n >= TERMS,
        close(y, k + 1, n, rest),
        units * (k * unit()) >= k * unit() + LN_2 * rest,
    ensures
        close(y, k, n, units),
{
    lemma_range(y, k + 1, n);
    lemma_sum_range(y, k);
    let one = unit() as int;
    let d = below(k + 1, n) as int;
    let v = above(y, k + 1, n);
    let t = series(y, k + 1) as int;
    let s = series(y, k) as int;
    let den = k * one;
    let q = one - s;
    let remainder = y * t - den * q;
    assert(below(k, n) == den * d);
    // What is left of the division, and the error of the rest times y.
    assert(s * (den * d) - one * (den * d - y * v) == y * (one * v - t * d) + remainder * d) by {
        assert(s * (den * d) == one * (den * d) - (den * q) * d) by (nonlinear_arith)
            requires
                s == one - q,
        ;
        assert((den * q) * d == (y * t) * d - remainder * d) by (nonlinear_arith)
            requires
                den * q == y * t - remainder,
        ;
        assert(one * (den * d - y * v) == one * (den * d) - one * (y * v)) by (nonlinear_arith);
        assert(y * (one * v - t * d) == one * (y * v) - (y * t) * d) by (nonlinear_arith);
    }
    let error = one * v - t * d;
    assert(-(y * (rest * d)) <= y * error && y * error <= y * (rest * d)) by (nonlinear_arith)
        requires
            -(rest * d) <= error <= rest * d,
            y >= 0,
    ;
    assert(0 <= remainder * d && remainder * d <= den * d) by (nonlinear_arith)
        requires
            0 <= remainder <= den,
            d > 0,
    ;
    assert(y * (rest * d) + den * d <= units * (den * d)) by (nonlinear_arith)
        requires
            units * den >= den + LN_2 * rest,
            0 <= y <= LN_2,
            rest >= 0,
            d > 0,
    ;
}

/// The sum of the series is off by at most three units of two to the power -64
/// from every longer sum that is not rounded, and so from the exponential of
/// `-y`.
pub proof fn law_sum_is_close(y: nat, n: nat)
    requires
        y <= LN_2,
        n >= TERMS,
    ensures
        close(y, 1, n, 3),
{
    assert(close(y, 25, n, 0x719_0B32_DF6E_B2F3)) by {
        lemma_range(y, 25, n);
        if n >= 25 {
            lemma_range(y, 26, n);
            let d = below(26, n) as int;
            let v = above(y, 26, n);
            let one = unit() as int;
            assert(0 <= one * (y * v) && one * (y * v) <= 0x719_0B32_DF6E_B2F3int * ((25 * one)
                * d)) by (nonlinear_arith)
                requires
                    0 <= v <= d,
                    0 <= y <= 0xB172_17F7_D1CF_79AC,
                    one == 0x1_0000_0000_0000_0000,
            ;
            assert(one * ((25 * one) * d - y * v) == one * ((25 * one) * d) - one * (y * v))
                by (nonlinear_arith);
            assert(below(25, n) == (25 * one) * d);
        }
    }
    lemma_close_step(y, 24, n, 0x719_0B32_DF6E_B2F3, 0x34_7A70_A301_512C);
    lemma_close_step(y, 23, n, 0x34_7A70_A301_512C, 0x1_94DF_19C4_9934);
    lemma_close_step(y, 22, n, 0x1_94DF_19C4_9934, 0xCC1_93BB_0474);
    lemma_close_step(y, 21, n, 0xCC1_93BB_0474, 0x6B_C974_4718);
    lemma_close_step(y, 20, n, 0x6B_C974_4718, 0x3_BC50_F5BA);
    lemma_close_step(y, 19, n, 0x3_BC50_F5BA, 0x22E3_45E0);
    lemma_close_step(y, 18, n, 0x22E3_45E0, 0x157_ED54);
    lemma_close_step(y, 17, n, 0x157_ED54, 0xE_05E9);
    lemma_close_step(y, 16, n, 0xE_05E9, 0x9B87);
    lemma_close_step(y, 15, n, 0x9B87, 0x731);
    lemma_close_step(y, 14, n, 0x731, 0x5D);
    lemma_close_step(y, 13, n, 0x5D, 0x6);
    lemma_close_step(y, 12, n, 0x6, 0x2);
    lemma_close_step(y, 11, n, 0x2, 0x2);
    lemma_close_step(y, 10, n, 0x2, 0x2);
    lemma_close_step(y, 9, n, 0x2, 0x2);
    lemma_close_step(y, 8, n, 0x2, 0x2);
    lemma_close_step(y, 7, n, 0x2, 0x2);
    lemma_close_step(y, 6, n, 0x2, 0x2);
    lemma_close_step(y, 5, n, 0x2, 0x2);
    lemma_close_step(y, 4, n, 0x2, 0x2);
    lemma_close_step(y, 3, n, 0x2, 0x2);
    lemma_close_step(y, 2, n, 0x2, 0x2);
    lemma_close_step(y, 1, n, 0x2, 0x3);
}

proof fn lemma_term(k: nat, quotient: nat, rest: nat)
    requires
        1 <= k <= TERMS,
        LN_2 * series(LN_2 as nat, k + 1) == quotient * (k * unit()) + rest,
        rest < k * unit(),
        quotient <= unit(),
    ensures
        series(LN_2 as nat, k) == unit() - quotient,
{
    lemma_fundamental_div_mod_converse(
        LN_2 * series(LN_2 as nat, k + 1),
        (k * unit()) as int,
        quotient as int,
        rest as int,
    );
}

/// The sum at the logarithm of two is exactly one half.
pub proof fn law_sum_at_the_logarithm_of_two()
    ensures
        2 * series(LN_2 as nat, 1) == unit(),
{
    lemma_term(24, 0x764_C0FF_A8BD_FA67, 0x4_0000_0000_0000_0000);
    lemma_term(23, 0x77E_0185_368D_2780, 0x10_07EF_180C_44B8_13CC);
    lemma_term(22, 0x7D4_6475_910A_B0F8, 0x12_04A1_0DD4_30FD_F600);
    lemma_term(21, 0x830_FD02_632E_64B2, 0x2_F5AF_E60C_EEA3_E160);
    lemma_term(20, 0x896_A0EC_355F_8374, 0xD_0985_A90D_B14E_3668);
    lemma_term(19, 0x906_A34E_7934_6F1E, 0x11_408A_D898_FFE5_DA10);
    lemma_term(18, 0x982_B183_A3A4_D3E2, 0x4_CE03_77ED_70FE_29D8);
    lemma_term(17, 0xA0C_DA3E_667B_8986, 0xA_8488_E2E4_4F5D_D228);
    lemma_term(16, 0xAA7_ABA6_89AE_B9BD, 0xE3DD_6C2E_27A5_43F8);
    lemma_term(15, 0xB56_5C71_0EA2_8CE8, 0x4_E7B6_CAC1_6BFD_E004);
    lemma_term(14, 0xC1D_0609_C49A_09A0, 0x6_A31C_1DCD_FE97_AC20);
    lemma_term(13, 0xD00_F8AC_00D9_B552, 0x3_D880_EFB9_B194_E880);
    lemma_term(12, 0xE09_3808_34F9_679C, 0x7_7C2C_E2D8_F7B8_6AE8);
    lemma_term(11, 0xF3F_3958_9DBC_6E66, 0xA_B006_0AAD_6351_A730);
    lemma_term(10, 0x10B0_0EF9_41DD_2B28, 0x2_59D6_85FF_6ABD_9D78);
    lemma_term(9, 0x126E_534B_6D43_CAB6, 0x4_AD3B_12BC_A8A9_1920);
    lemma_term(8, 0x1495_7330_BA54_7978, 0x3_EBA4_C0C4_0C79_C7B8);
    lemma_term(7, 0x174F_A7D5_C868_D717, 0x4_2DC3_F6EF_B1CC_AB60);
    lemma_term(6, 0x1AE1_9AE0_ECAA_F23F, 0x2_F9F3_F413_194C_9D8C);
    lemma_term(5, 0x1FC3_39C7_CF14_416D, 0x1_4D5F_4F3B_E0B4_76AC);
    lemma_term(4, 0x26DB_7D46_E9C4_9B79, 0x2_6BEF_D6EA_6754_85C4);
    lemma_term(3, 0x322B_AC52_E393_80FE, 0xD994_E636_8294_59B4);
    lemma_term(2, 0x4755_C4D6_A3E8_0F44, 0xC05F_5317_B58B_4758);
    lemma_term(1, 0x8000_0000_0000_0000, 0x5469_789A_54E2_9A50);
}

/// One unit more lowers the sum by at most one unit, and never raises it.
proof fn lemma_sum_falls_slowly(y: nat, k: nat)
    requires
        y + 1 <= LN_2,
        k >= 1,
    ensures
        series(y, k) - 1 <= series(y + 1, k) <= series(y, k),
    decreases TERMS + 1 - k,
{
    if k <= TERMS {
        lemma_sum_falls_slowly(y, k + 1);
        lemma_sum_range(y, k);
        lemma_sum_range(y + 1, k);
        lemma_sum_range(y, k + 1);
        lemma_sum_exceeds(y, k + 1);
        let one = unit() as int;
        let den = k * one;
        let t = series(y, k + 1) as int;
        let u = series(y + 1, k + 1) as int;
        let a = one - series(y, k);
        let b = one - series(y + 1, k);
        assert(y * t <= (y + 1) * u && (y + 1) * u <= y * t + one) by (nonlinear_arith)
            requires
                t - 1 <= u <= t,
                y + 1 <= t <= one,
                y >= 0,
        ;
        assert(den >= one) by (nonlinear_arith)
            requires
                k >= 1,
                one > 0,
                den == k * one,
        ;
        assert(a <= b) by (nonlinear_arith)
            requires
                den * a <= y * t,
                (y + 1) * u < den * b + den,
                y * t <= (y + 1) * u,
                den > 0,
        ;
        assert(b <= a + 1) by (nonlinear_arith)
            requires
                den * b <= (y + 1) * u,
                y * t < den * a + den,
                (y + 1) * u <= y * t + den,
                den > 0,
        ;
    }
}

/// From the second term on the sum is larger than `y`.
proof fn lemma_sum_exceeds(y: nat, k: nat)
    requires
        y + 1 <= LN_2,
        k >= 2,
    ensures
        y + 1 <= series(y, k),
{
    if k <= TERMS {
        lemma_sum_range(y, k);
        let q = unit() - series(y, k);
        if k >= 3 {
            assert(3 * q <= k * q) by (nonlinear_arith)
                requires
                    k >= 3,
                    q >= 0,
            ;
        } else if y < 0xA800_0000_0000_0000 {
            assert(2 * q == k * q);
        } else {
            lemma_second(y);
        }
    }
}

/// The second sum is larger than `y` where that is close to the logarithm of
/// two: the fourth is at least 0.81, so the third is at most 0.83.
proof fn lemma_second(y: nat)
    requires
        0xA800_0000_0000_0000 <= y < LN_2,
    ensures
        y + 1 <= series(y, 2),
{
    let third = series(y, 3) as int;
    let fourth = series(y, 4) as int;
    lemma_sum_range(y, 2);
    lemma_sum_range(y, 3);
    lemma_sum_range(y, 4);
    let one = unit() as int;
    assert(fourth >= 0xD000_0000_0000_0000);
    assert(third <= 0xD300_0000_0000_0000) by (nonlinear_arith)
        requires
            y >= 0xA800_0000_0000_0000,
            fourth >= 0xD000_0000_0000_0000,
            y * fourth < 3 * one * (one - third) + 3 * one,
            one == 0x1_0000_0000_0000_0000,
    ;
    let second = series(y, 2) as int;
    assert(second >= 0xB200_0000_0000_0000) by (nonlinear_arith)
        requires
            0 <= y <= 0xB172_17F7_D1CF_79AC,
            0 <= third <= 0xD300_0000_0000_0000,
            2 * one * (one - second) <= y * third,
            one == 0x1_0000_0000_0000_0000,
    ;
}

/// The sum never rises.
proof fn lemma_sum_falls(low: nat, high: nat)
    requires
        low <= high <= LN_2,
    ensures
        series(high, 1) <= series(low, 1),
    decreases high - low,
{
    if low < high {
        lemma_sum_falls(low, (high - 1) as nat);
        lemma_sum_falls_slowly((high - 1) as nat, 1);
    }
}

/// What the series is summed for: the part of a number behind the point, times
/// the logarithm of two.
pub open spec fn exponent(a: Double) -> nat {
    (a.places() % pow2(64)) * (LN_2 as nat) / pow2(64)
}

/// The exponent is below the logarithm of two, and the sum at least one half.
proof fn lemma_exponent(a: Double)
    ensures
        exponent(a) <= LN_2,
        unit() <= 2 * series(exponent(a), 1),
        series(exponent(a), 1) <= unit(),
{
    let f = a.places() % pow2(64);
    lemma2_to64_rest();
    lemma_mod_bound(a.places() as int, pow2(64) as int);
    assert(f * (LN_2 as nat) <= LN_2 * pow2(64)) by (nonlinear_arith)
        requires
            f <= pow2(64),
    ;
    lemma_div_is_ordered((f * (LN_2 as nat)) as int, LN_2 * pow2(64), pow2(64) as int);
    lemma_div_multiples_vanish(LN_2 as int, pow2(64) as int);
    lemma_mul_is_commutative(LN_2 as int, pow2(64) as int);
    law_sum_at_the_logarithm_of_two();
    lemma_sum_falls(exponent(a), LN_2 as nat);
    lemma_sum_range(exponent(a), 1);
}

/// Powers of one half never rise: of two numbers the larger has the smaller
/// power, or the same.
pub proof fn law_halving_falls(a: Double, b: Double)
    requires
        a.bits <= b.bits,
    ensures
        b.halved().bits <= a.halved().bits,
{
    let (s, t) = (a.places(), b.places());
    let one = pow2(64);
    let p = pow2(1074);
    lemma2_to64_rest();
    lemma_pow2_pos(1074);
    crate::double::lemma_order(a, b);
    lemma_mul_inequality(a.units() as int, b.units() as int, one as int);
    lemma_div_is_ordered((a.units() * one) as int, (b.units() * one) as int, p as int);
    assert(s <= t);
    lemma_div_is_ordered(s as int, t as int, one as int);
    let (m, n) = (s / one, t / one);
    lemma_exponent(a);
    lemma_exponent(b);
    let x = series(exponent(a), 1);
    let y = series(exponent(b), 1);
    lemma_pow2_pos(64 + m);
    lemma_pow2_pos(64 + n);
    assert(y * pow2(64 + m) <= x * pow2(64 + n)) by {
        if m == n {
            lemma_fundamental_div_mod(s as int, one as int);
            lemma_fundamental_div_mod(t as int, one as int);
            lemma_mul_inequality((s % one) as int, (t % one) as int, LN_2 as int);
            lemma_div_is_ordered((s % one) * LN_2, (t % one) * LN_2, one as int);
            lemma_sum_falls(exponent(a), exponent(b));
            lemma_mul_inequality(y as int, x as int, pow2(64 + m) as int);
        } else {
            let more = (n - m - 1) as nat;
            lemma_pow2_unfold(64 + m + 1);
            lemma_pow2_adds(64 + m + 1, more);
            lemma_pow2_pos(more);
            assert(y * pow2(64 + m) <= x * pow2(64 + n)) by (nonlinear_arith)
                requires
                    y <= 2 * x,
                    pow2(64 + n) == (2 * pow2(64 + m)) * pow2(more),
                    pow2(more) >= 1,
                    x >= 0,
            ;
        }
    }
    assert((y * p) * pow2(64 + m) <= (x * p) * pow2(64 + n)) by (nonlinear_arith)
        requires
            y * pow2(64 + m) <= x * pow2(64 + n),
            p >= 0,
    ;
    crate::double::lemma_monotone(y * p, pow2(64 + n), x * p, pow2(64 + m));
}

/// Two to the power of minus a number, times two to the power of its whole
/// part, is off by at most one part in two to the power 50 of one from the
/// exponential of minus the rest, which is the logarithm of two times the part
/// behind the point up to one unit of two to the power -64. This covers the
/// powers that are not below the smallest normal number;
/// [`law_small_powers_are_close`] covers the others.
pub proof fn law_halving_is_close(a: Double, n: nat)
    requires
        n >= TERMS,
        a.places() / pow2(64) <= 1020,
    ensures
        ({
            let y = exponent(a);
            let power = a.halved().units() * pow2(a.places() / pow2(64));
            let bits = 0x4_0000_0000_0000int;
            &&& bits * (power * below(1, n) - pow2(1074) * above(y, 1, n)) <= pow2(1074) * below(
                1,
                n,
            )
            &&& bits * (pow2(1074) * above(y, 1, n) - power * below(1, n)) <= pow2(1074) * below(
                1,
                n,
            )
            &&& y * pow2(64) <= (a.places() % pow2(64)) * LN_2 < (y + 1) * pow2(64)
        }),
{
    let p = pow2(1074);
    let w = a.places() / pow2(64);
    let y = exponent(a);
    let s = series(y, 1);
    let num = s * p;
    let den = pow2(64 + w);
    let r = a.halved().units();
    lemma2_to64();
    lemma2_to64_rest();
    lemma_exponent(a);
    law_sum_is_close(y, n);
    lemma_range(y, 1, n);
    lemma_pow2_pos(1074);
    lemma_pow2_pos(64 + w);
    lemma_pow2_adds(64, w);
    lemma_fundamental_div_mod(((a.places() % pow2(64)) * (LN_2 as nat)) as int, pow2(64) as int);
    lemma_mod_bound(((a.places() % pow2(64)) * (LN_2 as nat)) as int, pow2(64) as int);
    assert(LEADING * den <= num) by {
        lemma_pow2_adds(52, 64 + w);
        lemma_pow2_adds(62, 1074);
        lemma_pow2_monotone(116 + w, 1136);
        lemma_mul_inequality(pow2(62) as int, s as int, p as int);
    }
    assert(num < pow2(4000) * den) by {
        lemma_pow2_adds(64, 1074);
        lemma_pow2_strictly_increases(1138, 4000);
        lemma_mul_inequality(s as int, pow2(64) as int, p as int);
        lemma_mul_inequality(1, den as int, pow2(4000) as int);
        lemma_mul_is_commutative(pow2(4000) as int, den as int);
    }
    crate::precision::lemma_rounding(num, den);
    // What rounding loses, and what the sum loses.
    let x = (r * den) as int;
    let error = x - num;
    let one = unit() as int;
    let d = below(1, n) as int;
    let v = above(y, 1, n);
    assert(num <= one * p) by (nonlinear_arith)
        requires
            num == s * p,
            s <= one,
            p >= 0,
    ;
    assert(-(8192 * p) <= error && error <= 8192 * p);
    let power = (r * pow2(w)) as int;
    assert(x == one * power) by (nonlinear_arith)
        requires
            x == r * den,
            den == one * pow2(w),
            power == r * pow2(w),
    ;
    let gap = s * d - one * v;
    assert(one * (power * d - p * v) == error * d + p * gap) by (nonlinear_arith)
        requires
            one * power == error + s * p,
            gap == s * d - one * v,
    ;
    assert(-(8192 * (p * d)) <= error * d && error * d <= 8192 * (p * d)) by (nonlinear_arith)
        requires
            -(8192 * p) <= error <= 8192 * p,
            d > 0,
    ;
    assert(-(3 * (p * d)) <= p * gap && p * gap <= 3 * (p * d)) by (nonlinear_arith)
        requires
            -(3 * d) <= gap <= 3 * d,
            p >= 0,
    ;
    assert(p * d >= 0) by (nonlinear_arith)
        requires
            p >= 0,
            d >= 0,
    ;
}

/// Two to the power of minus a number of 1021 or more is off by at most half of
/// the smallest number, and what the sum of the series is off by, which is three
/// parts in two to the power 64.
pub proof fn law_small_powers_are_close(a: Double, n: nat)
    requires
        n >= TERMS,
        a.places() / pow2(64) >= 1021,
    ensures
        ({
            let y = exponent(a);
            let scale = pow2(a.places() / pow2(64));
            let gap = (a.halved().units() * scale) * below(1, n) - pow2(1074) * above(y, 1, n);
            let most = unit() * (scale * below(1, n)) + 6 * (pow2(1074) * below(1, n));
            -most <= 2 * (unit() * gap) <= most
        }),
{
    let p = pow2(1074);
    let w = a.places() / pow2(64);
    let y = exponent(a);
    let s = series(y, 1);
    let num = s * p;
    let scale = pow2(w);
    let den = pow2(64 + w);
    let r = a.halved().units();
    lemma2_to64_rest();
    lemma_exponent(a);
    law_sum_is_close(y, n);
    lemma_range(y, 1, n);
    lemma_pow2_pos(1074);
    lemma_pow2_pos(64 + w);
    lemma_pow2_adds(64, w);
    assert(num <= pow2(53 + 0) * den) by {
        lemma_pow2_adds(53, 64 + w);
        lemma_pow2_adds(64, 1074);
        lemma_pow2_monotone(1138, 117 + w);
        lemma_mul_inequality(s as int, pow2(64) as int, p as int);
    }
    crate::precision::lemma_rounding_below(num, den, 0);
    lemma2_to64();
    assert(den * pow2(0) == den) by (nonlinear_arith)
        requires
            pow2(0) == 1,
    ;
    let one = unit() as int;
    let d = below(1, n) as int;
    let v = above(y, 1, n);
    let error = r * den - num;
    let power = r * scale;
    assert(r * den == one * power) by (nonlinear_arith)
        requires
            den == one * scale,
            power == r * scale,
    ;
    let gap = s * d - one * v;
    assert(one * (power * d - p * v) == error * d + p * gap) by (nonlinear_arith)
        requires
            one * power == error + s * p,
            gap == s * d - one * v,
    ;
    assert(-(den * d) <= 2 * (error * d) && 2 * (error * d) <= den * d) by (nonlinear_arith)
        requires
            -den <= 2 * error <= den,
            d > 0,
    ;
    assert(den * d == one * (scale * d)) by (nonlinear_arith)
        requires
            den == one * scale,
    ;
    assert(-(3 * (p * d)) <= p * gap && p * gap <= 3 * (p * d)) by (nonlinear_arith)
        requires
            -(3 * d) <= gap <= 3 * d,
            p >= 0,
    ;
}

proof fn lemma_pow2_monotone(a: nat, b: nat)
    requires
        a <= b,
    ensures
        pow2(a) <= pow2(b),
{
    if a < b {
        lemma_pow2_strictly_increases(a, b);
    }
}

} // verus!
