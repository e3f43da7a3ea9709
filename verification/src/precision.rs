//! How far rounded results are from exact ones.
//!
//! Two quantities are near each other up to one part in `m`. Every rounding is
//! near up to one part in two to the power 53, and steps that are combined lose
//! as much as their parts add up to.

use crate::double::{encoded, nearest, Double, LEADING};
use crate::time::{Duration, MAX_NANOS};
use vstd::arithmetic::div_mod::*;
use vstd::arithmetic::mul::*;
use vstd::arithmetic::power2::*;
use vstd::prelude::*;

verus! {

/// Whether two quantities differ by at most one part in `m`.
pub open spec fn near(x: int, y: int, m: int) -> bool {
    &&& m * x <= (m + 1) * y
    &&& m * y <= (m + 1) * x
}

/// Two steps lose as much as their parts add up to.
pub proof fn lemma_near_combine(x: int, y: int, z: int, a: int, b: int, c: int)
    requires
        a > 0,
        b > 0,
        c >= 0,
        x >= 0,
        y >= 0,
        z >= 0,
        near(x, y, a),
        near(y, z, b),
        c * (a + b + 1) <= a * b,
    ensures
        near(x, z, c),
{
    lemma_combine_one_way(x, y, z, a, b, c);
    assert(c * (b + a + 1) <= b * a) by {
        assert(a + b + 1 == b + a + 1);
        lemma_mul_is_commutative(a, b);
    }
    lemma_combine_one_way(z, y, x, b, a, c);
}

proof fn lemma_combine_one_way(x: int, y: int, z: int, a: int, b: int, c: int)
    requires
        a > 0,
        b > 0,
        c >= 0,
        z >= 0,
        a * x <= (a + 1) * y,
        b * y <= (b + 1) * z,
        c * (a + b + 1) <= a * b,
    ensures
        c * x <= (c + 1) * z,
{
    let n = (a + 1) * (b + 1);
    assert(b * (a * x) <= n * z) by (nonlinear_arith)
        requires
            a * x <= (a + 1) * y,
            b * y <= (b + 1) * z,
            a > 0,
            b > 0,
            n == (a + 1) * (b + 1),
    ;
    assert(n == a * b + (a + b + 1)) by (nonlinear_arith)
        requires
            n == (a + 1) * (b + 1),
    ;
    let ab = a * b;
    assert(ab > 0) by (nonlinear_arith)
        requires
            a > 0,
            b > 0,
            ab == a * b,
    ;
    assert(b * (a * x) == ab * x) by (nonlinear_arith)
        requires
            ab == a * b,
    ;
    assert(ab * (c * x) <= ab * ((c + 1) * z)) by (nonlinear_arith)
        requires
            ab * x <= n * z,
            n == ab + (a + b + 1),
            c * (a + b + 1) <= ab,
            c >= 0,
            z >= 0,
    ;
    if c * x > (c + 1) * z {
        lemma_mul_strict_inequality((c + 1) * z, c * x, ab);
        lemma_mul_is_commutative(ab, c * x);
        lemma_mul_is_commutative(ab, (c + 1) * z);
    }
}

/// Scaling both keeps the precision.
pub proof fn lemma_near_scale(x: int, y: int, m: int, f: int)
    requires
        f >= 0,
        near(x, y, m),
    ensures
        near(x * f, y * f, m),
{
    assert(m * (x * f) <= (m + 1) * (y * f)) by (nonlinear_arith)
        requires
            m * x <= (m + 1) * y,
            f >= 0,
    ;
    assert(m * (y * f) <= (m + 1) * (x * f)) by (nonlinear_arith)
        requires
            m * y <= (m + 1) * x,
            f >= 0,
    ;
}

/// A common factor can be dropped.
pub proof fn lemma_near_cancel(x: int, y: int, m: int, f: int)
    requires
        f > 0,
        near(x * f, y * f, m),
    ensures
        near(x, y, m),
{
    assert(m * (x * f) == (m * x) * f && (m + 1) * (y * f) == ((m + 1) * y) * f) by (nonlinear_arith);
    assert(m * (y * f) == (m * y) * f && (m + 1) * (x * f) == ((m + 1) * x) * f) by (nonlinear_arith);
    if m * x > (m + 1) * y {
        lemma_mul_strict_inequality((m + 1) * y, m * x, f);
    }
    if m * y > (m + 1) * x {
        lemma_mul_strict_inequality((m + 1) * x, m * y, f);
    }
}

/// Sums keep the precision of their terms.
pub proof fn lemma_near_sum(a: int, b: int, c: int, d: int, m: int)
    requires
        near(a, b, m),
        near(c, d, m),
    ensures
        near(a + c, b + d, m),
{
    assert(m * (a + c) == m * a + m * c && (m + 1) * (b + d) == (m + 1) * b + (m + 1) * d)
        by (nonlinear_arith);
    assert(m * (b + d) == m * b + m * d && (m + 1) * (a + c) == (m + 1) * a + (m + 1) * c)
        by (nonlinear_arith);
}

/// What an encoding stands for.
pub proof fn lemma_encoded(mantissa: nat, scale: nat)
    requires
        mantissa <= 2 * LEADING,
        scale > 0 ==> mantissa >= LEADING,
        scale <= 4093,
    ensures
        encoded(mantissa, scale).units() == mantissa * pow2(scale),
{
    let a = encoded(mantissa, scale);
    if mantissa == 2 * LEADING {
        assert(a.bits == (scale + 2) * LEADING);
        lemma_div_by_multiple((scale + 2) as int, LEADING as int);
        assert(a.scale() == scale + 1);
        assert(a.mantissa() == LEADING);
        lemma_pow2_unfold(scale + 1);
        assert(LEADING * (2 * pow2(scale)) == (2 * LEADING) * pow2(scale)) by (nonlinear_arith);
    } else if mantissa >= LEADING {
        lemma_fundamental_div_mod_converse(
            a.bits as int,
            LEADING as int,
            (scale + 1) as int,
            mantissa - LEADING,
        );
        assert(a.scale() == scale);
    } else {
        assert(a.scale() == 0);
    }
}

/// Half a unit in the last place: one part in two to the power 53, less one.
pub const HALF_PLACE: u64 = 0x1F_FFFF_FFFF_FFFF;

/// A rounded quotient is off by at most half a unit in the last place, which is
/// one part in two to the power 53.
pub proof fn lemma_rounding(num: nat, den: nat)
    requires
        den > 0,
        LEADING * den <= num,
        num < pow2(4000) * den,
    ensures
        near((nearest(num, den).units() * den) as int, num as int, LEADING as int),
        near((nearest(num, den).units() * den) as int, num as int, HALF_PLACE as int),
        (HALF_PLACE + 1) * (nearest(num, den).units() * den - num) <= num,
{
    let (m, k) = crate::double::lemma_found(num, den);
    crate::double::lemma_nearest(num, den, k, m);
    lemma_pow2_pos(k);
    let p = pow2(k);
    let step = den * p;
    assert(step > 0) by (nonlinear_arith)
        requires
            den > 0,
            p > 0,
            step == den * p,
    ;
    assert(m >= LEADING) by {
        if m < LEADING {
            assert(k == 0);
            lemma2_to64();
            assert(step == den) by (nonlinear_arith)
                requires
                    step == den * p,
                    p == 1,
            ;
            lemma_mul_inequality((m + 1) as int, LEADING as int, den as int);
        }
    }
    assert(k <= 4093) by {
        if k > 4000 {
            lemma_pow2_strictly_increases(4000, k);
            assert(m * step >= pow2(4000) * den) by (nonlinear_arith)
                requires
                    m >= 1,
                    step == den * p,
                    p > pow2(4000),
            ;
        }
    }
    let rest = num - m * step;
    let up: nat = if 2 * rest > step || (2 * rest == step && m % 2 == 1) { 1 } else { 0 };
    lemma_encoded(m + up, k);
    let x = nearest(num, den).units() * den;
    assert(x == (m + up) * step) by (nonlinear_arith)
        requires
            x == ((m + up) * p) * den,
            step == den * p,
    ;
    assert((m + up) * step == m * step + up * step) by (nonlinear_arith);
    assert(up * step == if up == 1 { step as int } else { 0int }) by (nonlinear_arith)
        requires
            up == 0 || up == 1,
    ;
    assert((m + 1) * step == m * step + step) by (nonlinear_arith);
    assert(2 * (x - num) <= step && 2 * (num - x) <= step);
    assert(LEADING * step <= m * step) by (nonlinear_arith)
        requires
            LEADING <= m,
    ;
    let h = HALF_PLACE as int;
    assert((h + 1) * (x - num) <= num && (h + 1) * (num - x) <= num);
    assert(0x20_0000_0000_0000 * (x - num) <= num && 0x20_0000_0000_0000 * (num - x) <= num);
    assert(0x1F_FFFF_FFFF_FFFF * x <= 0x20_0000_0000_0000 * num);
    assert(0x1F_FFFF_FFFF_FFFF * num <= 0x20_0000_0000_0000 * x);
    let c = LEADING as int;
    assert(2 * (c * x) <= 2 * (c * num) + c * step && 2 * (c * num) <= 2 * (c * x) + c * step)
        by (nonlinear_arith)
        requires
            2 * (x - num) <= step,
            2 * (num - x) <= step,
            c > 0,
    ;
    assert((c + 1) * num == c * num + num && (c + 1) * x == c * x + x) by (nonlinear_arith);
    assert(c * step <= num);
}

/// A whole number is near the number that stands for it.
pub proof fn lemma_near_whole(n: nat)
    requires
        0 < n < pow2(128),
    ensures
        near(Double::whole(n).units() as int, (n * pow2(1074)) as int, HALF_PLACE as int),
{
    let p = pow2(1074);
    lemma_pow2_adds(52, 1022);
    lemma_pow2_pos(1022);
    lemma2_to64_rest();
    assert(LEADING * 1 <= n * p) by (nonlinear_arith)
        requires
            n >= 1,
            p == LEADING * pow2(1022),
            pow2(1022) >= 1,
    ;
    lemma_pow2_adds(128, 1074);
    lemma_pow2_strictly_increases(1202, 4000);
    assert(n * p < pow2(4000) * 1) by (nonlinear_arith)
        requires
            n < pow2(128),
            pow2(128) * p < pow2(4000),
            p > 0,
    ;
    lemma_rounding(n * p, 1);
    assert(Double::whole(n).units() * 1 == Double::whole(n).units()) by (nonlinear_arith);
}

/// Whole numbers below two to the power 53 are exact.
pub proof fn lemma_whole_exact(n: nat)
    requires
        n < 2 * LEADING,
    ensures
        Double::whole(n).units() == n * pow2(1074),
{
    let p = pow2(1074);
    let num = n * p;
    let (m, k) = crate::double::lemma_found(num, 1);
    crate::double::lemma_nearest(num, 1, k, m);
    lemma_pow2_pos(1074);
    lemma_pow2_pos(k);
    let step = 1 * pow2(k);
    assert(step == pow2(k));
    assert(k <= 1074) by {
        if k > 1074 {
            lemma_pow2_adds(1074, (k - 1074) as nat);
            lemma_pow2_pos((k - 1075) as nat);
            lemma_pow2_unfold((k - 1074) as nat);
            assert(m * step > num) by (nonlinear_arith)
                requires
                    m >= LEADING,
                    step == p * pow2((k - 1074) as nat),
                    pow2((k - 1074) as nat) >= 2,
                    num == n * p,
                    n < 2 * LEADING,
                    p > 0,
            ;
        }
    }
    let e = (1074 - k) as nat;
    lemma_pow2_adds(k, e);
    let rest = num - m * step;
    assert((m + 1) * step == m * step + step) by (nonlinear_arith);
    assert(rest == 0) by {
        let q = n * pow2(e) - m;
        assert(rest == q * step) by (nonlinear_arith)
            requires
                rest == num - m * step,
                num == n * p,
                p == step * pow2(e),
                q == n * pow2(e) - m,
        ;
        assert(q == 0) by (nonlinear_arith)
            requires
                0 <= rest < step,
                rest == q * step,
        ;
        assert(0 * step == 0) by (nonlinear_arith);
    }
    lemma_encoded(m, k);
}

/// A number that is rounded where numbers are spaced by two to the power `k` is
/// off by at most half of that.
pub proof fn lemma_rounding_below(num: nat, den: nat, k: nat)
    requires
        den > 0,
        num <= pow2(53 + k) * den,
        k <= 4000,
    ensures
        2 * (nearest(num, den).units() * den - num) <= den * pow2(k),
        2 * (num - nearest(num, den).units() * den) <= den * pow2(k),
{
    let (m, j) = crate::double::lemma_found(num, den);
    crate::double::lemma_nearest(num, den, j, m);
    lemma_pow2_pos(j);
    lemma_pow2_pos(k);
    let p = pow2(j);
    let step = den * p;
    assert(step > 0) by (nonlinear_arith)
        requires
            den > 0,
            p > 0,
            step == den * p,
    ;
    let rest = num - m * step;
    assert((m + 1) * step == m * step + step) by (nonlinear_arith);
    lemma2_to64_rest();
    if j > k {
        lemma_pow2_adds(52, j);
        lemma_pow2_adds(53, k);
        lemma_pow2_adds(1, k);
        lemma2_to64();
        assert(j == k + 1 && rest == 0 && m == LEADING) by {
            if j > k + 1 {
                lemma_pow2_strictly_increases(k + 1, j);
            }
            assert(m * step >= LEADING * step) by (nonlinear_arith)
                requires
                    m >= LEADING,
                    step > 0,
            ;
            assert(pow2(53 + k) * den == LEADING * (den * pow2(k + 1))) by (nonlinear_arith)
                requires
                    pow2(53 + k) == 2 * LEADING * pow2(k),
                    pow2(k + 1) == 2 * pow2(k),
            ;
            if j > k + 1 {
                assert(LEADING * step > LEADING * (den * pow2(k + 1))) by (nonlinear_arith)
                    requires
                        step == den * p,
                        p > pow2(k + 1),
                        den > 0,
                ;
            } else if m > LEADING {
                assert(m * step > LEADING * step) by (nonlinear_arith)
                    requires
                        m > LEADING,
                        step > 0,
                ;
            }
        }
    } else {
        if j < k {
            lemma_pow2_strictly_increases(j, k);
        }
        lemma_mul_inequality(p as int, pow2(k) as int, den as int);
        lemma_mul_is_commutative(p as int, den as int);
        lemma_mul_is_commutative(pow2(k) as int, den as int);
    }
    let up: nat = if 2 * rest > step || (2 * rest == step && m % 2 == 1) { 1 } else { 0 };
    lemma_encoded(m + up, j);
    let x = nearest(num, den).units() * den;
    assert(x == (m + up) * step) by (nonlinear_arith)
        requires
            x == ((m + up) * p) * den,
            step == den * p,
    ;
    assert((m + up) * step == m * step + if up == 1 { step as int } else { 0int })
        by (nonlinear_arith)
        requires
            up == 0 || up == 1,
    ;
    assert(0 <= den * pow2(k)) by (nonlinear_arith);
}

/// The precision of a number of seconds.
pub const SECONDS_PRECISION: u64 = 0xF_FFFF_FFFF_FFFF;

/// The seconds below one that some nanoseconds make are near their exact value.
proof fn lemma_near_fraction(rest: nat)
    requires
        rest < 1_000_000_000,
    ensures
        ({
            let part = Double::whole(rest).quotient(Double::whole(1_000_000_000));
            let exact = rest * pow2(1074);
            &&& near((part.units() * 1_000_000_000) as int, exact as int, HALF_PLACE as int)
            &&& 0x20_0000_0000_0000 * (part.units() * 1_000_000_000 - exact) <= exact
            &&& part.units() < pow2(1074)
        }),
{
    let p = pow2(1074);
    let billion = Double::whole(1_000_000_000);
    let part = Double::whole(rest).quotient(billion);
    lemma_pow2_pos(1074);
    crate::double::lemma_whole_positive(1_000_000_000);
    if rest == 0 {
        crate::double::lemma_nothing(billion);
        assert((Double { bits: 0 }).units() == 0) by {
            lemma2_to64();
        }
        assert(0 * 1_000_000_000 == 0 && 0 * p == 0) by (nonlinear_arith);
    } else {
        lemma2_to64();
        lemma2_to64_rest();
        lemma_whole_exact(rest);
        lemma_whole_exact(1_000_000_000);
        let a = Double::whole(rest).units();
        let b = billion.units();
        let f = part.units();
        lemma_pow2_strictly_increases(90, 1074);
        lemma_pow2_adds(52, 38);
        assert(LEADING * b <= a * p) by (nonlinear_arith)
            requires
                b == 1_000_000_000 * p,
                a == rest * p,
                rest >= 1,
                LEADING * 1_000_000_000 <= p,
        ;
        assert(a * p < pow2(4000) * b) by {
            lemma_pow2_strictly_increases(1074, 4000);
            assert(a * p <= p * b) by (nonlinear_arith)
                requires
                    a == rest * p,
                    rest < 1_000_000_000,
                    b == 1_000_000_000 * p,
            ;
            lemma_mul_strict_inequality(p as int, pow2(4000) as int, b as int);
        }
        lemma_rounding(a * p, b);
        // f * 1e9 * p ~ rest * p * p.
        let x = f * 1_000_000_000;
        let y = rest * p;
        assert(f * b == x * p && a * p == y * p) by (nonlinear_arith)
            requires
                b == 1_000_000_000 * p,
                a == rest * p,
                x == f * 1_000_000_000,
                y == rest * p,
        ;
        lemma_near_cancel(x as int, y as int, HALF_PLACE as int, p as int);
        let c = 0x20_0000_0000_0000int;
        assert((c * (x - y)) * p <= y * p) by (nonlinear_arith)
            requires
                c * (x * p - y * p) <= y * p,
        ;
        if c * (x - y) > y {
            lemma_mul_strict_inequality(y as int, c * (x - y), p as int);
        }
        assert(y <= 999_999_999 * p) by (nonlinear_arith)
            requires
                y == rest * p,
                rest <= 999_999_999,
        ;
    }
}

/// Whatever is rounded is off by at most one part in two to the power 53, or by
/// half of the smallest number.
pub proof fn lemma_rounding_any(num: nat, den: nat)
    requires
        den > 0,
        num < pow2(4000),
    ensures
        ({
            let gap = nearest(num, den).units() * den - num;
            let most = num + 0x10_0000_0000_0000 * den;
            -most <= 0x20_0000_0000_0000 * gap <= most
        }),
{
    let (m, k) = crate::double::lemma_found(num, den);
    crate::double::lemma_nearest(num, den, k, m);
    lemma_pow2_pos(k);
    let p = pow2(k);
    let step = den * p;
    assert(step >= p && step > 0) by (nonlinear_arith)
        requires
            den > 0,
            p > 0,
            step == den * p,
    ;
    assert(k <= 4093) by {
        if k > 4000 {
            lemma_pow2_strictly_increases(4000, k);
            assert(m * step >= step) by (nonlinear_arith)
                requires
                    m >= 1,
                    step > 0,
            ;
        }
    }
    let rest = num - m * step;
    let up: nat = if 2 * rest > step || (2 * rest == step && m % 2 == 1) { 1 } else { 0 };
    lemma_encoded(m + up, k);
    let x = nearest(num, den).units() * den;
    assert(x == (m + up) * step) by (nonlinear_arith)
        requires
            x == ((m + up) * p) * den,
            step == den * p,
    ;
    assert((m + 1) * step == m * step + step) by (nonlinear_arith);
    assert((m + up) * step == m * step + if up == 1 { step as int } else { 0int })
        by (nonlinear_arith)
        requires
            up == 0 || up == 1,
    ;
    if k == 0 {
        lemma2_to64();
        assert(step == den) by (nonlinear_arith)
            requires
                step == den * p,
                p == 1,
        ;
    } else {
        assert(LEADING * step <= m * step) by (nonlinear_arith)
            requires
                LEADING <= m,
        ;
    }
}

/// What is not rounded away keeps at least half of itself.
pub proof fn lemma_at_least_half(num: nat, den: nat)
    requires
        den > 0,
        num < pow2(4000),
        nearest(num, den).bits > 0,
    ensures
        num <= 2 * (nearest(num, den).units() * den),
{
    let (m, k) = crate::double::lemma_found(num, den);
    crate::double::lemma_nearest(num, den, k, m);
    lemma_pow2_pos(k);
    let p = pow2(k);
    let step = den * p;
    assert(step >= p && step > 0) by (nonlinear_arith)
        requires
            den > 0,
            p > 0,
            step == den * p,
    ;
    assert(k <= 4093) by {
        if k > 4000 {
            lemma_pow2_strictly_increases(4000, k);
            assert(m * step >= step) by (nonlinear_arith)
                requires
                    m >= 1,
                    step > 0,
            ;
        }
    }
    let rest = num - m * step;
    let up: nat = if 2 * rest > step || (2 * rest == step && m % 2 == 1) { 1 } else { 0 };
    lemma_encoded(m + up, k);
    assert(m + up >= 1);
    let x = nearest(num, den).units() * den;
    assert(x == (m + up) * step) by (nonlinear_arith)
        requires
            x == ((m + up) * p) * den,
            step == den * p,
    ;
    assert((m + 1) * step <= 2 * ((m + up) * step)) by (nonlinear_arith)
        requires
            m + up >= 1,
            m >= 0,
            up >= 0,
            step > 0,
    ;
}

/// A number of seconds is near its exact value.
pub proof fn lemma_near_seconds(duration: Duration)
    requires
        duration.nanos <= MAX_NANOS,
    ensures
        near(
            (duration.in_seconds().units() * 1_000_000_000) as int,
            (duration.nanos * pow2(1074)) as int,
            SECONDS_PRECISION as int,
        ),
{
    let p = pow2(1074);
    let n = duration.nanos as nat;
    let whole = n / 1_000_000_000;
    let rest = n % 1_000_000_000;
    let a = Double::whole(whole).units();
    let part = Double::whole(rest).quotient(Double::whole(1_000_000_000));
    let f = part.units();
    let s = duration.in_seconds().units();
    lemma_near_fraction(rest);
    lemma_pow2_pos(1074);
    lemma2_to64();
    lemma2_to64_rest();
    let m = HALF_PLACE as int;
    assert(near((a * 1_000_000_000) as int, ((whole * p) * 1_000_000_000) as int, m)) by {
        if whole == 0 {
            crate::double::lemma_nothing(part);
            assert(0 * pow2(0) == 0) by (nonlinear_arith);
            assert((Double { bits: 0 }).units() == 0);
            assert(0 * p == 0) by (nonlinear_arith);
        } else {
            lemma_pow2_strictly_increases(64, 128);
            lemma_near_whole(whole);
            assert(whole * p >= 0) by (nonlinear_arith);
            lemma_near_scale(a as int, (whole * p) as int, m, 1_000_000_000);
        }
    }
    let exact = (whole * p) * 1_000_000_000 + rest * p;
    assert(exact == n * p) by (nonlinear_arith)
        requires
            exact == (whole * p) * 1_000_000_000 + rest * p,
            n == whole * 1_000_000_000 + rest,
    ;
    lemma_near_sum(
        (a * 1_000_000_000) as int,
        ((whole * p) * 1_000_000_000) as int,
        (f * 1_000_000_000) as int,
        (rest * p) as int,
        m,
    );
    let sum = (a + f) * 1_000_000_000;
    assert(near(s as int, (a + f) as int, m)) by {
        if n == 0 {
            crate::double::lemma_nothing(Double::whole(1_000_000_000));
            crate::double::lemma_whole_positive(1_000_000_000);
            crate::double::lemma_nothing(part);
            assert((Double { bits: 0 }).units() == 0);
        } else {
            lemma_sum_in_range(sum as int, n as int, a + f);
            lemma_rounding(a + f, 1);
            assert(s * 1 == s) by (nonlinear_arith);
        }
    }
    lemma_near_scale(s as int, (a + f) as int, m, 1_000_000_000);
    assert(n * p >= 0) by (nonlinear_arith);
    lemma_near_combine(
        (s * 1_000_000_000) as int,
        sum as int,
        (n * p) as int,
        m,
        m,
        SECONDS_PRECISION as int,
    );
}

proof fn lemma_sum_in_range(scaled: int, n: int, sum: nat)
    requires
        scaled == sum * 1_000_000_000,
        0 < n <= MAX_NANOS,
        near(scaled, n * pow2(1074), HALF_PLACE as int),
    ensures
        LEADING * 1 <= sum,
        sum < pow2(4000) * 1,
{
    let p = pow2(1074);
    lemma2_to64();
    lemma2_to64_rest();
    lemma_pow2_adds(90, 984);
    lemma_pow2_adds(64, 26);
    lemma_pow2_pos(984);
    assert(p <= n * p && n * p <= MAX_NANOS * p) by (nonlinear_arith)
        requires
            0 < n <= MAX_NANOS,
            p >= 0,
    ;
    assert(0x1F_FFFF_FFFF_FFFF * scaled <= 0x20_0000_0000_0000 * (n * p));
    assert(0x1F_FFFF_FFFF_FFFF * (n * p) <= 0x20_0000_0000_0000 * scaled);
    assert(n * p <= 2 * scaled && scaled <= 2 * (n * p));
    assert(pow2(90) <= p) by (nonlinear_arith)
        requires
            p == pow2(90) * pow2(984),
            pow2(984) >= 1,
    ;
    lemma_pow2_adds(1074, 100);
    lemma_pow2_adds(64, 36);
    lemma_pow2_strictly_increases(1174, 4000);
    assert(2 * (MAX_NANOS * p) <= p * pow2(100)) by (nonlinear_arith)
        requires
            2 * MAX_NANOS <= pow2(100),
            p >= 0,
    ;
}

/// How small and how large a number of seconds is.
pub proof fn lemma_seconds_range(duration: Duration)
    requires
        0 < duration.nanos <= MAX_NANOS,
    ensures
        pow2(1074) <= pow2(32) * duration.in_seconds().units(),
        duration.in_seconds().units() <= pow2(66) * pow2(1074),
{
    let p = pow2(1074);
    let n = duration.nanos as int;
    let u = duration.in_seconds().units() as int;
    lemma_near_seconds(duration);
    lemma2_to64();
    lemma2_to64_rest();
    lemma_pow2_adds(64, 2);
    assert(p <= n * p && n * p <= MAX_NANOS * p) by (nonlinear_arith)
        requires
            0 < n <= MAX_NANOS,
            p >= 0,
    ;
    assert(pow2(32) * u >= 2 * (u * 1_000_000_000)) by (nonlinear_arith)
        requires
            pow2(32) == 0x1_0000_0000,
            u >= 0,
    ;
    assert(2 * (MAX_NANOS * p) <= (pow2(66) * p) * 1_000_000_000) by (nonlinear_arith)
        requires
            pow2(66) == 4 * 0x1_0000_0000_0000_0000,
            p >= 0,
    ;
}

/// The precision of a scaled duration.
pub const SCALED_PRECISION: u64 = 0x3_FFFF_FFFF_FFFE;

/// A part of one duration, taken of another one, is near its exact value.
pub proof fn lemma_near_scaled(part: Duration, of: Duration, to: Duration)
    requires
        0 < part.nanos <= MAX_NANOS,
        0 < of.nanos <= MAX_NANOS,
        0 < to.nanos <= MAX_NANOS,
    ensures
        near(
            (part.in_seconds().quotient(of.in_seconds()).product(to.in_seconds()).units()
                * 1_000_000_000) * of.nanos,
            (part.nanos * to.nanos) * pow2(1074),
            SCALED_PRECISION as int,
        ),
{
    let p = pow2(1074);
    let w = part.in_seconds().units();
    let i = of.in_seconds().units();
    let j = to.in_seconds().units();
    let v = part.in_seconds().quotient(of.in_seconds()).units();
    let x = part.in_seconds().quotient(of.in_seconds()).product(to.in_seconds()).units();
    let (pn, on, tn) = (part.nanos as int, of.nanos as int, to.nanos as int);
    let b = 1_000_000_000int;
    lemma_pow2_pos(1074);
    lemma_near_seconds(part);
    lemma_near_seconds(of);
    lemma_near_seconds(to);
    lemma_seconds_range(part);
    lemma_seconds_range(of);
    lemma_seconds_range(to);
    crate::time::lemma_seconds(of);
    lemma_quotient_in_range(w, i);
    assert(i > 0) by (nonlinear_arith)
        requires
            p <= pow2(32) * i,
            p > 0,
    ;
    lemma_rounding(w * p, i);
    let m0 = SECONDS_PRECISION as int;
    let m1 = 0xA_AAAA_AAAA_AAA9;
    let m2 = 0x6_6666_6666_6665;
    let l = HALF_PLACE as int;
    // v * on * p ~ v * i * b ~ w * p * b ~ pn * p * p.
    lemma_near_scale((i * b) as int, on * p, m0, v as int);
    lemma_near_scale((v * i) as int, (w * p) as int, l, b);
    lemma_near_scale((w * b) as int, pn * p, m0, p as int);
    assert((i * b) * v == (v * i) * b && (on * p) * v == (v * on) * p && (w * b) * p == (w * p)
        * b) by (nonlinear_arith);
    let q0 = (v * on) * p;
    let q1 = (v * i) * b;
    let q2 = (w * p) * b;
    let q3 = (pn * p) * p;
    assert(q0 >= 0 && q1 >= 0 && q2 >= 0 && q3 >= 0) by (nonlinear_arith)
        requires
            q0 == (v * on) * p,
            q1 == (v * i) * b,
            q2 == (w * p) * b,
            q3 == (pn * p) * p,
            on >= 0,
            pn >= 0,
            b >= 0,
            v >= 0,
            w >= 0,
            i >= 0,
            p >= 0,
    ;
    assert(near(q0, q1, m0)) by {
        assert(near(q1, q0, m0));
    }
    lemma_near_combine(q0, q1, q2, m0, l, m1);
    lemma_near_combine(q0, q2, q3, m1, m0, m2);
    lemma_near_cancel(v * on, pn * p, m2, p as int);
    // x * p * b * on ~ v * j * b * on ~ v * tn * p * on ~ pn * p * tn * p.
    lemma_product_in_range(v, j, pn, on);
    lemma_rounding(v * j, p);
    let r0 = ((x * b) * on) * p;
    let r1 = ((v * j) * b) * on;
    let r2 = ((v * tn) * p) * on;
    let r3 = ((pn * tn) * p) * p;
    lemma_near_scale((x * p) as int, (v * j) as int, l, b * on);
    assert((x * p) * (b * on) == r0 && (v * j) * (b * on) == r1) by (nonlinear_arith)
        requires
            r0 == ((x * b) * on) * p,
            r1 == ((v * j) * b) * on,
    ;
    lemma_near_scale((j * b) as int, tn * p, m0, v * on);
    assert((j * b) * (v * on) == r1 && (tn * p) * (v * on) == r2) by (nonlinear_arith)
        requires
            r1 == ((v * j) * b) * on,
            r2 == ((v * tn) * p) * on,
    ;
    lemma_near_scale(v * on, pn * p, m2, tn * p);
    assert((v * on) * (tn * p) == r2 && (pn * p) * (tn * p) == r3) by (nonlinear_arith)
        requires
            r2 == ((v * tn) * p) * on,
            r3 == ((pn * tn) * p) * p,
    ;
    assert(r0 >= 0 && r1 >= 0 && r2 >= 0 && r3 >= 0) by (nonlinear_arith)
        requires
            r0 == ((x * b) * on) * p,
            r1 == ((v * j) * b) * on,
            r2 == ((v * tn) * p) * on,
            r3 == ((pn * tn) * p) * p,
            on >= 0,
            pn >= 0,
            tn >= 0,
            b >= 0,
            v >= 0,
            x >= 0,
            j >= 0,
            p >= 0,
    ;
    lemma_near_combine(r0, r1, r2, l, m0, m1);
    lemma_near_combine(r0, r2, r3, m1, m2, SCALED_PRECISION as int);
    lemma_near_cancel((x * b) * on, (pn * tn) * p, SCALED_PRECISION as int, p as int);
}

proof fn lemma_quotient_in_range(w: nat, i: nat)
    requires
        pow2(1074) <= pow2(32) * w,
        w <= pow2(66) * pow2(1074),
        pow2(1074) <= pow2(32) * i,
        i <= pow2(66) * pow2(1074),
    ensures
        LEADING * i <= w * pow2(1074),
        w * pow2(1074) < pow2(4000) * i,
{
    let p = pow2(1074);
    lemma2_to64();
    lemma2_to64_rest();
    lemma_pow2_adds(52, 66);
    lemma_pow2_adds(118, 32);
    lemma_pow2_pos(32);
    lemma_pow2_strictly_increases(150, 1074);
    // 2^52 i <= 2^118 p, and 2^150 p <= p p <= 2^32 w p.
    assert(pow2(32) * (LEADING * i) <= pow2(32) * (w * p)) by (nonlinear_arith)
        requires
            i <= pow2(66) * p,
            p <= pow2(32) * w,
            pow2(118) == LEADING * pow2(66),
            pow2(150) == pow2(118) * pow2(32),
            pow2(150) < p,
    ;
    if LEADING * i > w * p {
        lemma_mul_strict_inequality((w * p) as int, LEADING * i, pow2(32) as int);
        lemma_mul_is_commutative(pow2(32) as int, LEADING * i);
        lemma_mul_is_commutative(pow2(32) as int, (w * p) as int);
    }
    lemma_pow2_adds(66, 32);
    lemma_pow2_adds(98, 1074);
    lemma_pow2_strictly_increases(1172, 4000);
    assert(w * p <= pow2(1172) * i) by (nonlinear_arith)
        requires
            w <= pow2(66) * p,
            p <= pow2(32) * i,
            pow2(98) == pow2(66) * pow2(32),
            pow2(1172) == pow2(98) * p,
    ;
    assert(i > 0) by (nonlinear_arith)
        requires
            p <= pow2(32) * i,
            p > 0,
    ;
    lemma_mul_strict_inequality(pow2(1172) as int, pow2(4000) as int, i as int);
}

proof fn lemma_product_in_range(v: nat, j: nat, pn: int, on: int)
    requires
        0 < pn <= MAX_NANOS,
        0 < on <= MAX_NANOS,
        near(v * on, pn * pow2(1074), 0x6_6666_6666_6665),
        pow2(1074) <= pow2(32) * j,
        j <= pow2(66) * pow2(1074),
    ensures
        LEADING * pow2(1074) <= v * j,
        v * j < pow2(4000) * pow2(1074),
{
    let p = pow2(1074);
    lemma_pow2_pos(1074);
    lemma2_to64();
    lemma2_to64_rest();
    lemma_pow2_adds(64, 31);
    assert(p <= pn * p && pn * p <= MAX_NANOS * p) by (nonlinear_arith)
        requires
            0 < pn <= MAX_NANOS,
            p >= 0,
    ;
    assert(pn * p <= 2 * (v * on) && v * on <= 2 * (pn * p));
    assert(p <= pow2(95) * v) by (nonlinear_arith)
        requires
            p <= 2 * (v * on),
            0 < on,
            2 * on <= pow2(95),
            v >= 0,
    ;
    assert(v <= pow2(95) * p) by (nonlinear_arith)
        requires
            v * on <= 2 * (MAX_NANOS * p),
            on >= 1,
            2 * MAX_NANOS <= pow2(95),
            v >= 0,
            p >= 0,
    ;
    lemma_pow2_adds(95, 32);
    lemma_pow2_adds(52, 127);
    lemma_pow2_pos(127);
    lemma_pow2_strictly_increases(179, 1074);
    assert(pow2(127) * (LEADING * p) <= pow2(127) * (v * j)) by (nonlinear_arith)
        requires
            p <= pow2(95) * v,
            p <= pow2(32) * j,
            pow2(127) == pow2(95) * pow2(32),
            pow2(179) == LEADING * pow2(127),
            pow2(179) < p,
    ;
    if LEADING * p > v * j {
        lemma_mul_strict_inequality((v * j) as int, LEADING * p, pow2(127) as int);
        lemma_mul_is_commutative(pow2(127) as int, LEADING * p);
        lemma_mul_is_commutative(pow2(127) as int, (v * j) as int);
    }
    lemma_pow2_adds(95, 66);
    lemma_pow2_adds(161, 1074);
    lemma_pow2_strictly_increases(1235, 4000);
    assert(v * j <= pow2(1235) * p) by (nonlinear_arith)
        requires
            v <= pow2(95) * p,
            j <= pow2(66) * p,
            pow2(161) == pow2(95) * pow2(66),
            pow2(1235) == pow2(161) * p,
            p >= 0,
    ;
    lemma_mul_strict_inequality(pow2(1235) as int, pow2(4000) as int, p as int);
}

/// A whole number that is rounded to is off by at most a half.
pub proof fn lemma_rounded(num: nat, den: nat)
    requires
        den > 0,
    ensures
        2 * (crate::double::rounded(num, den) * den) <= 2 * num + den,
        2 * num <= 2 * (crate::double::rounded(num, den) * den) + den,
{
    let q = num / den;
    lemma_fundamental_div_mod(num as int, den as int);
    lemma_mod_bound(num as int, den as int);
    lemma_mul_is_commutative(q as int, den as int);
    assert((q + 1) * den == q * den + den) by (nonlinear_arith);
}

/// Rounding to whole numbers keeps the order.
pub proof fn lemma_rounded_monotone(a: nat, b: nat, den: nat)
    requires
        den > 0,
        a <= b,
    ensures
        crate::double::rounded(a, den) <= crate::double::rounded(b, den),
{
    lemma_div_is_ordered(a as int, b as int, den as int);
    lemma_fundamental_div_mod(a as int, den as int);
    lemma_fundamental_div_mod(b as int, den as int);
}

/// More seconds never make a shorter duration.
pub proof fn lemma_of_seconds_monotone(a: Double, b: Double)
    requires
        a.bits <= b.bits,
    ensures
        Duration::of_seconds(a).nanos <= Duration::of_seconds(b).nanos,
{
    crate::double::lemma_order(a, b);
    lemma_pow2_pos(1074);
    lemma_rounded_monotone(
        a.units() * 1_000_000_000,
        b.units() * 1_000_000_000,
        pow2(1074),
    );
}

/// A quotient of more than half a unit is positive.
pub proof fn lemma_more_than_half(num: nat, den: nat)
    requires
        0 < den,
        den < 2 * num,
    ensures
        nearest(num, den).bits > 0,
{
    if num >= den {
        crate::double::lemma_positive(num, den);
    } else {
        lemma2_to64();
        assert(den * 1 == den && 0 * (den * 1) == 0 && (0 + 1) * (den * 1) == den)
            by (nonlinear_arith);
        crate::double::lemma_nearest(num, den, 0, 0);
    }
}

/// A rounded whole number of units is off by at most one part in two to the
/// power 53.
pub proof fn lemma_rounding_units(n: nat)
    requires
        n < pow2(4000),
    ensures
        0x20_0000_0000_0000 * (nearest(n, 1).units() - n) <= n,
        0x20_0000_0000_0000 * (n - nearest(n, 1).units()) <= n,
{
    let (m, k) = crate::double::lemma_found(n, 1);
    crate::double::lemma_nearest(n, 1, k, m);
    lemma_pow2_pos(k);
    let step = 1 * pow2(k);
    assert(step == pow2(k)) by (nonlinear_arith)
        requires
            step == 1 * pow2(k),
    ;
    let rest = n - m * step;
    assert((m + 1) * step == m * step + step) by (nonlinear_arith);
    if k == 0 {
        lemma2_to64();
        assert(rest == 0);
        lemma_encoded(m, 0);
    } else {
        assert(k <= 4093) by {
            if k > 4000 {
                lemma_pow2_strictly_increases(4000, k);
                assert(m * step >= step) by (nonlinear_arith)
                    requires
                        m >= 1,
                        step > 0,
                ;
            }
        }
        assert(LEADING * step <= m * step) by (nonlinear_arith)
            requires
                LEADING <= m,
        ;
        let up: nat = if 2 * rest > step || (2 * rest == step && m % 2 == 1) { 1 } else { 0 };
        lemma_encoded(m + up, k);
        assert((m + up) * step == m * step + if up == 1 { step as int } else { 0int })
            by (nonlinear_arith)
            requires
                up == 0 || up == 1,
        ;
    }
}

/// Finite numbers are below two to the power 3000 in units.
pub proof fn lemma_finite(a: Double)
    requires
        a.bits < crate::double::INFINITY,
    ensures
        a.units() < pow2(3000),
{
    crate::double::lemma_parts(a);
    let (m, k) = (a.mantissa(), a.scale());
    lemma2_to64_rest();
    lemma_pow2_pos(k);
    lemma_pow2_adds(53, k);
    lemma_pow2_strictly_increases(53 + k, 3000);
    lemma_mul_inequality(m as int, pow2(53) as int, pow2(k) as int);
}

/// The next number is one unit in the last place away.
pub proof fn lemma_next(a: Double)
    requires
        a.bits < crate::double::INFINITY,
    ensures
        (Double { bits: (a.bits + 1) as u64 }).units() == a.units() + pow2(a.scale()),
{
    crate::double::lemma_parts(a);
    let (m, k) = (a.mantissa(), a.scale());
    lemma_encoded(m + 1, k);
    assert(encoded(m + 1, k) == (Double { bits: (a.bits + 1) as u64 }));
    assert((m + 1) * pow2(k) == m * pow2(k) + pow2(k)) by (nonlinear_arith);
}

/// How far a number of seconds below two to the power `t` is from its exact
/// value: half of the spacing of such numbers, and some more for the part
/// behind the point.
pub proof fn lemma_seconds_close(duration: Duration, t: nat)
    requires
        t <= 23,
        duration.nanos < pow2(t) * 1_000_000_000,
    ensures
        ({
            let gap = duration.in_seconds().units() * 1_000_000_000 - duration.nanos * pow2(1074);
            let most = 1_000_000_000 * (pow2(1020 + t) + pow2(1022));
            -most <= gap <= most
        }),
        duration.in_seconds().units() <= pow2(t) * pow2(1074),
{
    let p = pow2(1074);
    let n = duration.nanos as nat;
    let whole = n / 1_000_000_000;
    let rest = n % 1_000_000_000;
    let a = Double::whole(whole).units();
    let part = Double::whole(rest).quotient(Double::whole(1_000_000_000));
    let f = part.units();
    let s = duration.in_seconds().units();
    lemma2_to64();
    lemma2_to64_rest();
    if t < 23 {
        lemma_pow2_strictly_increases(t, 23);
    }
    lemma_near_fraction(rest);
    lemma_whole_exact(whole);
    lemma_pow2_adds(t, 1074);
    lemma_pow2_adds(52, 1022);
    assert(whole + 1 <= pow2(t));
    assert((whole + 1) * p == a + p) by (nonlinear_arith)
        requires
            a == whole * p,
    ;
    lemma_mul_inequality((whole + 1) as int, pow2(t) as int, p as int);
    assert(a + f <= pow2(t) * p);
    lemma_rounding_below(a + f, 1, 1021 + t);
    lemma_pow2_unfold(1021 + t);
    assert(s * 1 == s);
    assert(a * 1_000_000_000 + rest * p == n * p) by (nonlinear_arith)
        requires
            a == whole * p,
            n == whole * 1_000_000_000 + rest,
    ;
    let x = f * 1_000_000_000;
    let y = rest * p;
    assert(y <= 1_000_000_000 * p) by (nonlinear_arith)
        requires
            y == rest * p,
            rest <= 1_000_000_000,
    ;
    assert(0x1F_FFFF_FFFF_FFFF * y <= 0x20_0000_0000_0000 * x);
    assert(0x1F_FFFF_FFFF_FFFF * x <= 0x20_0000_0000_0000 * y);
    assert(p == 0x10_0000_0000_0000 * pow2(1022));
    // No sum passes the next power of two.
    lemma_whole_exact(pow2(t));
    crate::double::lemma_monotone(a + f, 1, pow2(t) * p, 1);
    crate::double::lemma_order(duration.in_seconds(), Double::whole(pow2(t)));
}

/// A longer duration is not fewer seconds.
pub proof fn lemma_seconds_monotone(a: Duration, b: Duration)
    requires
        a.nanos <= b.nanos,
    ensures
        a.in_seconds().bits <= b.in_seconds().bits,
{
    let p = pow2(1074);
    let (m, n) = (a.nanos as nat / 1_000_000_000, b.nanos as nat / 1_000_000_000);
    let (q, r) = (a.nanos as nat % 1_000_000_000, b.nanos as nat % 1_000_000_000);
    let billion = Double::whole(1_000_000_000);
    let (x, y) = (Double::whole(m), Double::whole(n));
    let f = Double::whole(q).quotient(billion);
    let g = Double::whole(r).quotient(billion);
    lemma_near_fraction(q);
    crate::double::lemma_whole_positive(1_000_000_000);
    crate::double::lemma_whole_monotone(m, n);
    crate::double::lemma_order(x, y);
    crate::double::lemma_order(Double { bits: 0 }, billion);
    lemma_pow2_pos(1074);
    if m == n {
        crate::double::lemma_whole_monotone(q, r);
        crate::double::lemma_order(Double::whole(q), Double::whole(r));
        let (c, d) = (Double::whole(q).units() * p, Double::whole(r).units() * p);
        lemma_mul_inequality(
            Double::whole(q).units() as int,
            Double::whole(r).units() as int,
            p as int,
        );
        lemma_mul_inequality(c as int, d as int, billion.units() as int);
        crate::double::lemma_monotone(c, billion.units(), d, billion.units());
        crate::double::lemma_order(f, g);
        crate::double::lemma_monotone(x.units() + f.units(), 1, y.units() + g.units(), 1);
    } else if m + 1 < 2 * LEADING {
        lemma_whole_exact(m);
        lemma_whole_exact(m + 1);
        crate::double::lemma_whole_monotone(m + 1, n);
        crate::double::lemma_order(Double::whole(m + 1), y);
        assert((m + 1) * p == m * p + p) by (nonlinear_arith);
        crate::double::lemma_monotone(x.units() + f.units(), 1, y.units() + g.units(), 1);
    } else {
        lemma_long_seconds(m, f);
        if m + 1 == 2 * LEADING {
            crate::double::lemma_whole_monotone(2 * LEADING as nat, n);
        }
        crate::double::lemma_sum_at_least(y, g);
    }
}

/// From two to the power 53 seconds on the part behind the point is lost.
proof fn lemma_long_seconds(m: nat, f: Double)
    requires
        2 * LEADING <= m + 1,
        m < u128::MAX,
        f.units() < pow2(1074),
    ensures
        m >= 2 * LEADING ==> Double::whole(m).sum(f).bits <= Double::whole(m).bits,
        m + 1 == 2 * LEADING ==> Double::whole(m).sum(f).bits <= Double::whole(
            2 * LEADING as nat,
        ).bits,
{
    let p = pow2(1074);
    let x = Double::whole(m);
    // Two to the power 53.
    let top = Double { bits: (1076 * LEADING) as u64 };
    crate::double::lemma_power(1076);
    lemma2_to64_rest();
    lemma_pow2_adds(53, 1074);
    lemma_pow2_pos(1074);
    assert(top.units() == 2 * LEADING * p);
    crate::double::lemma_itself(top, 1);
    assert(top.units() * 1 == top.units());
    assert(Double::whole(2 * LEADING as nat) == top);
    if m + 1 == 2 * LEADING {
        lemma_whole_exact(m);
        assert((m + 1) * p == m * p + p) by (nonlinear_arith);
        crate::double::lemma_monotone(x.units() + f.units(), 1, top.units(), 1);
    } else {
        crate::double::lemma_whole_monotone(2 * LEADING as nat, m);
        lemma_pow2_adds(64, 64);
        crate::double::lemma_whole_at_most(m, 128);
        crate::double::lemma_parts(x);
        let s = x.scale();
        assert(s >= 1075) by {
            lemma_div_is_ordered(top.bits as int, x.bits as int, LEADING as int);
            lemma_div_by_multiple(1076, LEADING as int);
        }
        lemma_pow2_adds(1, 1074);
        lemma2_to64();
        if s > 1075 {
            lemma_pow2_strictly_increases(1075, s);
        }
        assert(pow2(s) >= 2 * p);
        lemma_next(x);
        lemma_pow2_adds(53, s);
        let mantissa = x.mantissa();
        assert(x.units() + pow2(s) <= 2 * LEADING * pow2(s)) by (nonlinear_arith)
            requires
                x.units() == mantissa * pow2(s),
                mantissa + 1 <= 2 * LEADING,
        ;
        let c = x.sum(f);
        lemma_rounding_below(x.units() + f.units(), 1, s);
        assert(c.units() * 1 == c.units());
        if c.bits > x.bits {
            crate::double::lemma_order(Double { bits: (x.bits + 1) as u64 }, c);
        }
    }
}

/// A part of one duration, taken of one that is not longer, exceeds the part by
/// at most one unit in the last place.
pub proof fn lemma_scaled_down(part: Duration, of: Duration, to: Duration)
    requires
        0 < part.nanos <= MAX_NANOS,
        0 < to.nanos <= of.nanos <= MAX_NANOS,
    ensures
        part.in_seconds().quotient(of.in_seconds()).product(to.in_seconds()).units()
            <= part.in_seconds().units() + pow2(part.in_seconds().scale()),
{
    let p = pow2(1074);
    let whole = part.in_seconds();
    let w = whole.units();
    let i = of.in_seconds().units();
    let j = to.in_seconds().units();
    let v = whole.quotient(of.in_seconds()).units();
    lemma_pow2_pos(1074);
    lemma_pow2_pos(32);
    lemma_seconds_range(part);
    lemma_seconds_range(of);
    lemma_seconds_range(to);
    crate::time::lemma_seconds(of);
    lemma_quotient_in_range(w, i);
    assert(i > 0) by (nonlinear_arith)
        requires
            p <= pow2(32) * i,
            p > 0,
    ;
    lemma_rounding(w * p, i);
    lemma_seconds_monotone(to, of);
    crate::double::lemma_order(to.in_seconds(), of.in_seconds());
    crate::double::lemma_parts(whole);
    let (m, k) = (whole.mantissa(), whole.scale());
    let u = pow2(k);
    lemma_pow2_pos(k);
    // The error of the division is below one unit in the last place.
    let wp = w * p;
    assert(0x20_0000_0000_0000 * (v * i - wp) <= wp);
    assert(wp < 0x20_0000_0000_0000 * (u * p)) by (nonlinear_arith)
        requires
            wp == w * p,
            w == m * u,
            m < 0x20_0000_0000_0000,
            u > 0,
            p > 0,
    ;
    assert(v * i <= wp + u * p);
    lemma_mul_inequality(j as int, i as int, v as int);
    lemma_mul_is_commutative(v as int, i as int);
    lemma_mul_is_commutative(v as int, j as int);
    assert((w + u) * p == wp + u * p) by (nonlinear_arith)
        requires
            wp == w * p,
    ;
    assert(whole.bits < crate::double::INFINITY) by {
        lemma_seconds_finite(whole);
    }
    lemma_next(whole);
    let next = Double { bits: (whole.bits + 1) as u64 };
    let x = whole.quotient(of.in_seconds()).product(to.in_seconds());
    lemma_itself_at_least(v * j, p, next);
    crate::double::lemma_order(x, next);
}

proof fn lemma_itself_at_least(num: nat, den: nat, a: Double)
    requires
        den > 0,
        num <= a.units() * den,
    ensures
        nearest(num, den).bits <= a.bits,
{
    crate::double::lemma_itself(a, den);
    lemma_mul_inequality(num as int, (a.units() * den) as int, den as int);
    crate::double::lemma_monotone(num, den, a.units() * den, den);
}

proof fn lemma_seconds_finite(a: Double)
    requires
        a.units() <= pow2(66) * pow2(1074),
    ensures
        a.bits < crate::double::INFINITY,
{
    let top = Double { bits: (2000 * LEADING) as u64 };
    crate::double::lemma_power(2000);
    lemma_pow2_adds(66, 1074);
    lemma_pow2_strictly_increases(1140, 2051);
    crate::double::lemma_order(a, top);
}

/// A share of less than all of a rounded quantity is at most the quantity.
proof fn lemma_share(d: nat, alpha: Double)
    requires
        alpha.bits < crate::double::ONE,
        d < pow2(3000),
    ensures
        alpha.product(nearest(d, 1)).units() <= d,
{
    let e = nearest(d, 1);
    let p = pow2(1074);
    let z = alpha.product(e);
    lemma_pow2_pos(1074);
    lemma_mul_is_commutative(alpha.units() as int, e.units() as int);
    crate::double::lemma_product_at_most(e, alpha);
    crate::double::lemma_order(z, e);
    if e.units() > d {
        assert(e.bits > 0) by {
            assert(0 * pow2(0) == 0) by (nonlinear_arith);
            assert((Double { bits: 0 }).units() == 0);
        }
        let c = Double { bits: (e.bits - 1) as u64 };
        assert(c.units() <= d) by {
            if c.units() > d {
                lemma_itself_at_least(d, 1, c);
            }
        }
        crate::double::lemma_parts(e);
        let (m, s) = (e.mantissa(), e.scale());
        lemma2_to64();
        lemma2_to64_rest();
        assert(s > 0) by {
            if s == 0 {
                assert(m * 1 == m);
                lemma_rounding_below(d, 1, 0);
            }
        }
        let u = pow2(s);
        lemma_pow2_pos(s);
        // A number below one is below it by one part in two to the power 53.
        let below = Double { bits: (crate::double::ONE - 1) as u64 };
        assert(below.units() == 0x1F_FFFF_FFFF_FFFF * pow2(1021)) by {
            assert(below.scale() == 1021);
        }
        crate::double::lemma_order(alpha, below);
        lemma_pow2_adds(1021, 53);
        let num = alpha.units() * e.units();
        let full = e.units() * p;
        assert(0x20_0000_0000_0000 * num <= 0x1F_FFFF_FFFF_FFFF * full) by (nonlinear_arith)
            requires
                num == alpha.units() * e.units(),
                full == e.units() * p,
                alpha.units() <= 0x1F_FFFF_FFFF_FFFF * pow2(1021),
                p == pow2(1021) * 0x20_0000_0000_0000,
        ;
        let up = u * p;
        assert(full == m * up) by (nonlinear_arith)
            requires
                full == e.units() * p,
                e.units() == m * u,
                up == u * p,
        ;
        assert(up > 0) by (nonlinear_arith)
            requires
                u > 0,
                p > 0,
                up == u * p,
        ;
        lemma_mul_is_commutative(u as int, p as int);
        if z.units() >= e.units() {
            lemma_mul_inequality(e.units() as int, z.units() as int, p as int);
            let zp = z.units() * p;
            if m > LEADING {
                assert(m * up >= (LEADING + 1) * up && m * up <= 2 * LEADING * up)
                    by (nonlinear_arith)
                    requires
                        LEADING + 1 <= m <= 2 * LEADING,
                        up > 0,
                ;
                lemma_pow2_adds(53, s);
                assert(num <= pow2(53 + s) * p) by (nonlinear_arith)
                    requires
                        num <= full,
                        full <= 2 * LEADING * up,
                        up == u * p,
                        pow2(53 + s) == 2 * LEADING * u,
                ;
                lemma_rounded_scale(d);
                lemma_rounding_below(num, p, s);
                assert(2 * (zp - num) <= up);
            } else {
                assert(full == LEADING * up);
                let k = (s - 1) as nat;
                lemma_pow2_unfold(s);
                lemma_pow2_adds(53, k);
                assert(num <= pow2(53 + k) * p) by (nonlinear_arith)
                    requires
                        num <= full,
                        full == LEADING * up,
                        up == u * p,
                        u == 2 * pow2(k),
                        pow2(53 + k) == 2 * LEADING * pow2(k),
                ;
                lemma_rounded_scale(d);
                lemma_rounding_below(num, p, k);
                assert(4 * (zp - num) <= up) by (nonlinear_arith)
                    requires
                        2 * (zp - num) <= p * pow2(k),
                        up == u * p,
                        u == 2 * pow2(k),
                ;
            }
        }
        crate::double::lemma_order(z, e);
        crate::double::lemma_order(z, c);
    }
}

proof fn lemma_rounded_scale(d: nat)
    requires
        d < pow2(3000),
    ensures
        nearest(d, 1).scale() <= 3000,
{
    let top = Double { bits: (2949 * LEADING) as u64 };
    crate::double::lemma_power(2949);
    lemma_itself_at_least(d, 1, top);
    lemma_div_is_ordered(nearest(d, 1).bits as int, top.bits as int, LEADING as int);
    lemma_div_by_multiple(2949, LEADING as int);
}

/// An average that gives the sample less than all weight lies between its old
/// value and the sample, exactly.
pub proof fn lemma_average_exact(previous: Double, sample: Double, alpha: Double)
    requires
        alpha.bits < crate::double::ONE,
        previous.units() < pow2(3000),
        sample.units() < pow2(3000),
    ensures
        ({
            let r = crate::latency::averaged(previous, sample, alpha);
            &&& sample.bits >= previous.bits ==> previous.bits <= r.bits <= sample.bits
            &&& sample.bits < previous.bits ==> sample.bits <= r.bits <= previous.bits
        }),
{
    let (o, v) = (previous.units(), sample.units());
    crate::double::lemma_order(previous, sample);
    if sample.bits >= previous.bits {
        let share = alpha.product(sample.difference(previous));
        lemma_share((v - o) as nat, alpha);
        crate::double::lemma_sum_at_least(previous, share);
        lemma_itself_at_least(o + share.units(), 1, sample);
    } else {
        let share = alpha.product(previous.difference(sample));
        lemma_share((o - v) as nat, alpha);
        crate::double::lemma_difference_at_most(previous, share);
        crate::double::lemma_itself(sample, 1);
        crate::double::lemma_monotone(v * 1, 1, (o - share.units()) as nat, 1);
    }
}

/// An average of numbers below two to the power 21 passes the sample by at most
/// two to the power -32.
pub proof fn lemma_average_small(previous: Double, sample: Double, alpha: Double)
    requires
        alpha.bits <= crate::double::ONE,
        previous.units() + pow2(1042) <= pow2(1095),
        sample.units() + pow2(1042) <= pow2(1095),
    ensures
        ({
            let r = crate::latency::averaged(previous, sample, alpha);
            &&& sample.bits >= previous.bits ==> {
                &&& r.bits >= previous.bits
                &&& r.units() <= sample.units() + pow2(1042)
            }
            &&& sample.bits < previous.bits ==> {
                &&& r.bits <= previous.bits
                &&& sample.units() <= r.units() + pow2(1042)
            }
        }),
{
    let (o, v) = (previous.units(), sample.units());
    crate::double::lemma_order(previous, sample);
    lemma_pow2_unfold(1042);
    lemma_pow2_pos(1041);
    if sample.bits >= previous.bits {
        let d = (v - o) as nat;
        let gap = sample.difference(previous);
        let share = alpha.product(gap);
        lemma_mul_is_commutative(alpha.units() as int, gap.units() as int);
        crate::double::lemma_product_at_most(gap, alpha);
        crate::double::lemma_order(share, gap);
        crate::double::lemma_sum_at_least(previous, share);
        lemma_rounding_below(d, 1, 1042);
        assert(gap.units() * 1 == gap.units());
        lemma_rounding_below(o + share.units(), 1, 1042);
        let r = previous.sum(share).units();
        assert(r * 1 == r);
    } else {
        let d = (o - v) as nat;
        let gap = previous.difference(sample);
        let share = alpha.product(gap);
        lemma_mul_is_commutative(alpha.units() as int, gap.units() as int);
        crate::double::lemma_product_at_most(gap, alpha);
        crate::double::lemma_order(share, gap);
        crate::double::lemma_difference_at_most(previous, sample);
        crate::double::lemma_order(gap, previous);
        crate::double::lemma_difference_at_most(previous, share);
        lemma_rounding_below(d, 1, 1042);
        assert(gap.units() * 1 == gap.units());
        lemma_rounding_below((o - share.units()) as nat, 1, 1042);
        let r = previous.difference(share).units();
        assert(r * 1 == r);
    }
}

/// An average lies between its old value and the sample: it never moves away
/// from the sample, and it passes the sample by no more than rounding does.
pub proof fn lemma_average(previous: Double, sample: Double, alpha: Double)
    requires
        alpha.bits <= crate::double::ONE,
        previous.units() < pow2(3000),
        sample.units() < pow2(3000),
    ensures
        ({
            let r = crate::latency::averaged(previous, sample, alpha);
            &&& sample.bits >= previous.bits ==> {
                &&& r.bits >= previous.bits
                &&& 0x8_0000_0000_0000 * r.units() <= 0x8_0000_0000_0001 * sample.units()
            }
            &&& sample.bits < previous.bits ==> {
                &&& r.bits <= previous.bits
                &&& 0x10_0000_0000_0000 * r.units() + previous.units() >= 0x10_0000_0000_0000
                    * sample.units()
            }
        }),
{
    let (o, v) = (previous.units(), sample.units());
    crate::double::lemma_order(previous, sample);
    lemma_pow2_strictly_increases(3000, 4000);
    lemma_pow2_unfold(3001);
    lemma_pow2_strictly_increases(3001, 4000);
    if sample.bits >= previous.bits {
        let d = (v - o) as nat;
        let gap = sample.difference(previous);
        let share = alpha.product(gap);
        lemma_mul_is_commutative(alpha.units() as int, gap.units() as int);
        crate::double::lemma_product_at_most(gap, alpha);
        crate::double::lemma_order(share, gap);
        crate::double::lemma_sum_at_least(previous, share);
        lemma_rounding_units(d);
        lemma_rounding_units(o + share.units());
    } else {
        let d = (o - v) as nat;
        let gap = previous.difference(sample);
        let share = alpha.product(gap);
        lemma_mul_is_commutative(alpha.units() as int, gap.units() as int);
        crate::double::lemma_product_at_most(gap, alpha);
        crate::double::lemma_order(share, gap);
        crate::double::lemma_difference_at_most(previous, sample);
        crate::double::lemma_order(gap, previous);
        crate::double::lemma_difference_at_most(previous, share);
        lemma_rounding_units(d);
        lemma_rounding_units((o - share.units()) as nat);
    }
}

} // verus!
