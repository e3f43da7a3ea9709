//! Non-negative double-precision numbers, computed on their bit patterns.
//!
//! Rates, concurrencies and smoothed latencies are double-precision numbers
//! that are never negative. A [`Double`] holds such a number as the integer
//! that encodes it, and its arithmetic is integer arithmetic with the usual
//! rounding: to the nearest representable number, ties to the even one.
//!
//! The bit that holds the sign in the ordinary encoding is an exponent bit
//! here, so a result too large for the ordinary range stays an ordinary number
//! instead of becoming an infinity. Within the ordinary range the encoding and
//! every result agree bit for bit with binary64.

use vstd::prelude::*;
use vstd::arithmetic::power2::*;
use vstd::arithmetic::div_mod::*;
use vstd::arithmetic::mul::*;

verus! {

/// The weight of the leading mantissa bit, two to the power 52.
pub const LEADING: u64 = 0x10_0000_0000_0000;

/// A non-negative double-precision number.
#[derive(Clone, Copy, Debug, PartialEq, Eq, PartialOrd, Ord, Structural)]
pub struct Double {
    /// The encoding: `scale * 2^52 + mantissa`.
    pub bits: u64,
}

/// How often `q` is halved until it fits in 53 bits.
pub open spec fn excess(q: nat) -> nat
    decreases q,
{
    if q < 0x20_0000_0000_0000 {
        0
    } else {
        1 + excess(q / 2)
    }
}

/// The number `mantissa * 2^scale` in units of two to the power -1074, or the
/// largest number where that is out of range.
pub open spec fn encoded(mantissa: nat, scale: nat) -> Double {
    let bits = scale * LEADING + mantissa;
    if bits <= u64::MAX {
        Double { bits: bits as u64 }
    } else {
        Double { bits: u64::MAX }
    }
}

/// Whether the quotient `num / step` is rounded up to the next whole number:
/// to the nearest one, ties to the even one.
pub open spec fn rounds_up(num: nat, step: nat) -> bool {
    let rest = num % step;
    2 * rest > step || (2 * rest == step && (num / step) % 2 == 1)
}

/// The number nearest to `num / den` units, ties to the even mantissa.
#[verifier::opaque]
pub open spec fn nearest(num: nat, den: nat) -> Double {
    let scale = excess(num / den);
    let step = den * pow2(scale);
    let up: nat = if rounds_up(num, step) { 1 } else { 0 };
    encoded(num / step + up, scale)
}

impl Double {
    /// The power of two, in units, that the mantissa is multiplied by.
    pub open spec fn scale(self) -> nat {
        let field = self.bits / LEADING;
        if field == 0 {
            0
        } else {
            (field - 1) as nat
        }
    }

    /// The mantissa, below two to the power 53.
    pub open spec fn mantissa(self) -> nat {
        (self.bits - self.scale() * LEADING) as nat
    }

    /// The number itself, in units of two to the power -1074.
    pub open spec fn units(self) -> nat {
        self.mantissa() * pow2(self.scale())
    }
}

/// A mantissa with a positive scale has its leading bit set.
pub proof fn lemma_parts(a: Double)
    ensures
        a.mantissa() < 2 * LEADING,
        a.scale() > 0 ==> a.mantissa() >= LEADING,
        a.scale() <= 4094,
        a.bits == a.scale() * LEADING + a.mantissa(),
        encoded(a.mantissa(), a.scale()) == a,
{
}

proof fn lemma_excess(q: nat, k: nat)
    requires
        k == 0 ==> q < 2 * LEADING,
        k > 0 ==> LEADING * pow2(k) <= q < 2 * LEADING * pow2(k),
    ensures
        excess(q) == k,
    decreases k,
{
    if k > 0 {
        lemma_pow2_unfold(k);
        lemma_pow2_pos((k - 1) as nat);
        let p = pow2((k - 1) as nat);
        assert(LEADING * (2 * p) == 2 * (LEADING * p)) by (nonlinear_arith);
        assert(2 * LEADING * (2 * p) == 2 * (2 * LEADING * p)) by (nonlinear_arith);
        assert(2 * LEADING <= LEADING * (2 * p)) by (nonlinear_arith)
            requires
                p >= 1,
        ;
        if k == 1 {
            lemma2_to64();
            assert(q / 2 < 2 * LEADING);
        }
        lemma_excess(q / 2, (k - 1) as nat);
    }
}

/// The bracketing form of rounding: a mantissa and a scale that bracket the
/// quotient determine the nearest number.
pub proof fn lemma_nearest(num: nat, den: nat, k: nat, m: nat)
    requires
        den > 0,
        m < 2 * LEADING,
        k > 0 ==> m >= LEADING,
        m * (den * pow2(k)) <= num < (m + 1) * (den * pow2(k)),
    ensures
        ({
            let step = den * pow2(k);
            let rest = num - m * step;
            let up: nat = if 2 * rest > step || (2 * rest == step && m % 2 == 1) { 1 } else { 0 };
            nearest(num, den) == encoded(m + up, k)
        }),
{
    reveal(nearest);
    lemma_pow2_pos(k);
    let p = pow2(k);
    let step = den * p;
    assert(step > 0) by (nonlinear_arith)
        requires
            den > 0,
            p > 0,
            step == den * p,
    ;
    let q = num / den;
    lemma_fundamental_div_mod(num as int, den as int);
    assert(m * p <= q) by {
        assert(m * step == (m * p) * den) by (nonlinear_arith)
            requires
                step == den * p,
        ;
        lemma_div_is_ordered(((m * p) * den) as int, num as int, den as int);
        lemma_div_by_multiple((m * p) as int, den as int);
    }
    assert(q < (m + 1) * p) by {
        assert((m + 1) * step == ((m + 1) * p) * den) by (nonlinear_arith)
            requires
                step == den * p,
        ;
        if q >= (m + 1) * p {
            lemma_mul_inequality(((m + 1) * p) as int, q as int, den as int);
            lemma_mul_is_commutative(q as int, den as int);
            assert(false);
        }
    }
    if k == 0 {
        lemma2_to64();
        assert(p == 1);
        assert((m + 1) * p == m + 1) by (nonlinear_arith)
            requires
                p == 1,
        ;
    } else {
        lemma_mul_inequality(LEADING as int, m as int, p as int);
        lemma_mul_inequality((m + 1) as int, 2 * LEADING, p as int);
    }
    lemma_excess(q, k);
    let rest = num - m * step;
    assert((m + 1) * step == m * step + step) by (nonlinear_arith);
    lemma_fundamental_div_mod_converse(num as int, step as int, m as int, rest);
}

/// Whether `num / den` units lie in the interval of width one that starts at
/// `v`, both counted in steps of `2^e` units, and whether they lie at its start.
spec fn brackets(v: nat, exact: bool, e: int, num: nat, den: nat) -> bool {
    if e >= 0 {
        let step = pow2(e as nat) * den;
        &&& v * step <= num < (v + 1) * step
        &&& exact <==> num == v * step
    } else {
        let scaled = num * pow2((-e) as nat);
        &&& v * den <= scaled < (v + 1) * den
        &&& exact <==> scaled == v * den
    }
}

/// Dropping the lowest places of a bracketed quotient keeps enough to round it.
proof fn lemma_drop(v: nat, exact: bool, e: int, num: nat, den: nat, drop: nat, m: nat, rest: nat)
    requires
        den > 0,
        brackets(v, exact, e, num, den),
        e + drop >= 0,
        v == m * pow2(drop) + rest,
        rest < pow2(drop),
        drop == 0 ==> exact,
    ensures
        ({
            let step = den * pow2((e + drop) as nat);
            &&& m * step <= num < (m + 1) * step
            &&& (2 * (num - m * step) > step) <==> (2 * rest > pow2(drop) || (2 * rest == pow2(
                drop,
            ) && !exact))
            &&& (2 * (num - m * step) == step) <==> (2 * rest == pow2(drop) && exact)
        }),
{
    let d = pow2(drop);
    let k = (e + drop) as nat;
    let step = den * pow2(k);
    // Both cases are one after the quotient is scaled by `f`.
    let f: nat = if e >= 0 { 1 } else { pow2((-e) as nat) };
    let p: nat = if e >= 0 { pow2(e as nat) * den } else { den };
    let n = num * f;
    lemma_pow2_pos(drop);
    lemma_pow2_pos(k);
    if e >= 0 {
        lemma_pow2_adds(e as nat, drop);
        lemma_pow2_pos(e as nat);
        assert(d * (pow2(e as nat) * den) == den * (pow2(e as nat) * d)) by (nonlinear_arith);
        assert(pow2(e as nat) * den > 0) by (nonlinear_arith)
            requires
                pow2(e as nat) > 0,
                den > 0,
        ;
        assert(n == num) by (nonlinear_arith)
            requires
                n == num * f,
                f == 1,
        ;
        assert(step * f == step) by (nonlinear_arith)
            requires
                f == 1,
        ;
    } else {
        lemma_pow2_pos((-e) as nat);
        lemma_pow2_adds((-e) as nat, k);
        assert(((-e) as nat + k) as nat == drop);
        assert((den * pow2(k)) * f == (f * pow2(k)) * den) by (nonlinear_arith);
    }
    assert(step * f == d * p);
    assert(v * p <= n < (v + 1) * p);
    assert(exact <==> n == v * p);
    // Counted in steps of `d * p`, the scaled quotient lies at `m` and a rest.
    let s = d * p;
    let r = n - m * s;
    assert(rest * p <= r < (rest + 1) * p && (exact <==> r == rest * p)) by {
        assert(v * p == m * (d * p) + rest * p) by (nonlinear_arith)
            requires
                v == m * d + rest,
        ;
        assert((v + 1) * p == v * p + p) by (nonlinear_arith);
        assert((rest + 1) * p == rest * p + p) by (nonlinear_arith);
    }
    assert(r < s) by {
        lemma_mul_inequality((rest + 1) as int, d as int, p as int);
    }
    assert(0 <= rest * p) by (nonlinear_arith);
    if drop > 0 {
        lemma_pow2_unfold(drop);
        let h = pow2((drop - 1) as nat);
        assert(d == 2 * h);
        assert(2 * h * p == 2 * (h * p)) by (nonlinear_arith);
        if rest > h {
            lemma_mul_inequality((h + 1) as int, rest as int, p as int);
            assert((h + 1) * p == h * p + p) by (nonlinear_arith);
        } else if rest < h {
            lemma_mul_inequality((rest + 1) as int, h as int, p as int);
        }
        assert((2 * r > s) <==> (2 * rest > d || (2 * rest == d && !exact)));
        assert((2 * r == s) <==> (2 * rest == d && exact));
    } else {
        lemma2_to64();
        assert(d == 1);
        assert(rest == 0);
        assert(rest * p == 0) by (nonlinear_arith)
            requires
                rest == 0,
        ;
        assert(s > 0) by (nonlinear_arith)
            requires
                s == d * p,
                d > 0,
                p > 0,
        ;
    }
    // Undo the scaling.
    assert(m * s == (m * step) * f && (m + 1) * s == ((m + 1) * step) * f) by (nonlinear_arith)
        requires
            step * f == s,
    ;
    assert((m + 1) * s == m * s + s) by (nonlinear_arith);
    let t = num - m * step;
    assert(t * f == r) by (nonlinear_arith)
        requires
            t == num - m * step,
            r == num * f - (m * step) * f,
    ;
    assert((2 * t) * f == 2 * r) by (nonlinear_arith)
        requires
            t * f == r,
    ;
    if m * step > num {
        lemma_mul_strict_inequality(num as int, (m * step) as int, f as int);
    }
    if num >= (m + 1) * step {
        lemma_mul_inequality(((m + 1) * step) as int, num as int, f as int);
    }
    if 2 * t > step {
        lemma_mul_strict_inequality(step as int, 2 * t, f as int);
    } else {
        lemma_mul_inequality(2 * t, step as int, f as int);
        if 2 * t < step {
            lemma_mul_strict_inequality(2 * t, step as int, f as int);
        }
    }
}

proof fn lemma_halvings(v: nat, a: nat, b: nat)
    ensures
        (v / pow2(a)) / pow2(b) == v / pow2(a + b),
{
    lemma_pow2_pos(a);
    lemma_pow2_pos(b);
    lemma_pow2_adds(a, b);
    lemma_div_denominator(v as int, pow2(a) as int, pow2(b) as int);
}

/// How often `v` is halved until it fits in 53 bits.
fn excess_of(v: u128) -> (k: u32)
    requires
        v < 0x8000_0000_0000_0000_0000_0000_0000_0000,
    ensures
        k <= 74,
        v as nat / pow2(k as nat) < 2 * LEADING,
        k > 0 ==> v as nat / pow2(k as nat) >= LEADING,
{
    let mut w: u128 = v;
    let mut k: u32 = 0;
    proof {
        lemma2_to64();
        lemma2_to64_rest();
        assert(v as nat / pow2(0) == v);
    }
    // Below 2^127, then 2^85, 2^69, 2^61, 2^57, 2^55 and 2^54.
    if w >= 0x20_0000_0000_0000_0000_0000 {
        // 2^85
        proof {
            lemma_halvings(v as nat, k as nat, 32);
            lemma_halvings(v as nat, 32, 32);
        }
        w = w / 0x1_0000_0000;
        k = k + 32;
        if w >= 0x20_0000_0000_0000_0000_0000 {
            w = w / 0x1_0000_0000;
            k = k + 32;
        }
    }
    assert(w == v as nat / pow2(k as nat) && w < 0x20_0000_0000_0000_0000_0000 && k <= 64);
    if w >= 0x20_0000_0000_0000_0000 {
        proof {
            lemma_halvings(v as nat, k as nat, 16);
        }
        w = w / 0x1_0000;
        k = k + 16;
    }
    if w >= 0x2000_0000_0000_0000 {
        proof {
            lemma_halvings(v as nat, k as nat, 8);
        }
        w = w / 0x100;
        k = k + 8;
    }
    if w >= 0x200_0000_0000_0000 {
        proof {
            lemma_halvings(v as nat, k as nat, 4);
        }
        w = w / 0x10;
        k = k + 4;
    }
    if w >= 0x80_0000_0000_0000 {
        proof {
            lemma_halvings(v as nat, k as nat, 2);
        }
        w = w / 4;
        k = k + 2;
    }
    if w >= 0x40_0000_0000_0000 {
        proof {
            lemma_halvings(v as nat, k as nat, 1);
        }
        w = w / 2;
        k = k + 1;
    }
    if w >= 0x20_0000_0000_0000 {
        proof {
            lemma_halvings(v as nat, k as nat, 1);
        }
        w = w / 2;
        k = k + 1;
    }
    k
}

proof fn lemma_shl(x: u128, n: u128)
    requires
        n < 128,
        x * pow2(n as nat) <= u128::MAX,
    ensures
        x << n == x * pow2(n as nat),
    decreases n,
{
    if n == 0 {
        assert(x << 0u128 == x) by (bit_vector);
        lemma2_to64();
    } else {
        let prev = (n - 1) as u128;
        lemma_pow2_unfold(n as nat);
        let p = pow2(prev as nat);
        assert(x * (2 * p) == 2 * (x * p)) by (nonlinear_arith);
        lemma_shl(x, prev);
        let y = x << prev;
        assert(x << n == 2 * y) by (bit_vector)
            requires
                n < 128,
                n == prev + 1,
                y == x << prev,
                y <= 0x7fff_ffff_ffff_ffff_ffff_ffff_ffff_ffff,
        ;
    }
}

/// `x * 2^n`.
fn shifted_up(x: u128, n: u32) -> (r: u128)
    requires
        n < 128,
        x * pow2(n as nat) <= u128::MAX,
    ensures
        r == x * pow2(n as nat),
{
    proof {
        lemma_shl(x, n as u128);
    }
    x << (n as u128)
}

/// The quotient and the remainder of `v` by `2^n`.
fn split_places(v: u128, n: u32) -> (r: (u128, u128))
    requires
        n < 128,
    ensures
        v == r.0 * pow2(n as nat) + r.1,
        r.1 < pow2(n as nat),
{
    proof {
        vstd::bits::lemma_u128_shr_is_div(v, n as u128);
        lemma_pow2_pos(n as nat);
        lemma_fundamental_div_mod(v as int, pow2(n as nat) as int);
        lemma_mod_bound(v as int, pow2(n as nat) as int);
        lemma_mul_is_commutative(pow2(n as nat) as int, (v >> (n as u128)) as int);
    }
    let quotient: u128 = v >> (n as u128);
    let rest: u128 = v - shifted_up(quotient, n);
    (quotient, rest)
}

/// `mantissa * 2^scale` units, or the largest number.
fn encode(mantissa: u64, scale: u32) -> (r: Double)
    requires
        mantissa <= 2 * LEADING,
    ensures
        r == encoded(mantissa as nat, scale as nat),
{
    assert(scale * LEADING <= 0xffff_ffff * 0x10_0000_0000_0000) by (nonlinear_arith)
        requires
            scale <= 0xffff_ffff,
            LEADING == 0x10_0000_0000_0000,
    ;
    let wide: u128 = (scale as u128) * (LEADING as u128) + mantissa as u128;
    if wide <= u64::MAX as u128 {
        Double { bits: wide as u64 }
    } else {
        Double { bits: u64::MAX }
    }
}

proof fn lemma_raise(v: nat, e: nat, s: nat, num: nat, den: nat)
    requires
        s <= e,
        brackets(v, true, e as int, num, den),
        den > 0,
    ensures
        brackets(v * pow2(s), true, e - s, num, den),
{
    let k = (e - s) as nat;
    lemma_pow2_adds(k, s);
    lemma_pow2_pos(k);
    assert((v * pow2(s)) * (pow2(k) * den) == v * ((pow2(k) * pow2(s)) * den)) by (nonlinear_arith);
    let step = pow2(k) * den;
    let w = v * pow2(s);
    assert(step > 0) by (nonlinear_arith)
        requires
            step == pow2(k) * den,
            pow2(k) > 0,
            den > 0,
    ;
    assert((w + 1) * step == w * step + step) by (nonlinear_arith);
}

/// Moves places from the step to the count, until the count fills a mantissa
/// or the step is one unit.
fn raise(v: u128, e: i32, Ghost(num): Ghost<nat>, Ghost(den): Ghost<nat>) -> (r: (u128, i32))
    requires
        0 < v < LEADING,
        0 <= e <= 100_000,
        den > 0,
        brackets(v as nat, true, e as int, num, den),
    ensures
        brackets(r.0 as nat, true, r.1 as int, num, den),
        r.0 < 2 * LEADING,
        0 <= r.1 <= e,
        r.1 > 0 ==> r.0 >= LEADING,
{
    let mut v: u128 = v;
    let mut e: i32 = e;
    proof {
        lemma2_to64();
    }
    if v < 0x20_0000 && e >= 32 {
        proof {
            lemma_raise(v as nat, e as nat, 32, num, den);
        }
        v = v * 0x1_0000_0000;
        e = e - 32;
    }
    if v < 0x20_0000_0000 && e >= 16 {
        proof {
            lemma_raise(v as nat, e as nat, 16, num, den);
        }
        v = v * 0x1_0000;
        e = e - 16;
    }
    if v < 0x2000_0000_0000 && e >= 8 {
        proof {
            lemma_raise(v as nat, e as nat, 8, num, den);
        }
        v = v * 0x100;
        e = e - 8;
    }
    if v < 0x2_0000_0000_0000 && e >= 4 {
        proof {
            lemma_raise(v as nat, e as nat, 4, num, den);
        }
        v = v * 0x10;
        e = e - 4;
    }
    let ghost most = e;
    while v < LEADING as u128 && e > 0
        invariant
            brackets(v as nat, true, e as int, num, den),
            v < 2 * LEADING,
            0 <= e <= most,
            den > 0,
        decreases e,
    {
        proof {
            lemma2_to64();
            lemma_raise(v as nat, e as nat, 1, num, den);
        }
        v = v * 2;
        e = e - 1;
    }
    (v, e)
}

/// Rounds the quotient that `v` brackets in steps of `2^e` units.
fn settle(v: u128, exact: bool, e: i32, Ghost(num): Ghost<nat>, Ghost(den): Ghost<nat>) -> (r:
    Double)
    requires
        v < 0x8000_0000_0000_0000_0000_0000_0000_0000,
        -100_000 <= e <= 100_000,
        den > 0,
        brackets(v as nat, exact, e as int, num, den),
        !exact ==> v >= 2 * LEADING || e < 0,
    ensures
        r == nearest(num, den),
{
    if v == 0 && e >= 0 {
        proof {
            lemma_pow2_pos(e as nat);
            assert(0 * (pow2(e as nat) * den) == 0) by (nonlinear_arith);
            assert(0 * (den * pow2(0)) == 0) by (nonlinear_arith);
            lemma2_to64();
            lemma_nearest(0, den, 0, 0);
        }
        return encode(0, 0);
    }
    let (v, e) = if v < LEADING as u128 && e > 0 {
        raise(v, e, Ghost(num), Ghost(den))
    } else {
        (v, e)
    };
    let fit: u32 = excess_of(v);
    let drop: u32 = if e < 0 && fit < (-e) as u32 {
        (-e) as u32
    } else {
        fit
    };
    let scale: u32 = (drop as i32 + e) as u32;
    if drop >= 128 {
        // Less than half a unit.
        proof {
            lemma_pow2_strictly_increases(127, drop as nat);
            assert(pow2(127) == 0x8000_0000_0000_0000_0000_0000_0000_0000) by {
                lemma2_to64();
                lemma2_to64_rest();
                lemma_pow2_adds(63, 64);
            }
            lemma_pow2_unfold(drop as nat);
            if drop > 128 {
                lemma_pow2_strictly_increases(127, (drop - 1) as nat);
            }
            assert(0 * pow2(drop as nat) == 0);
            lemma_drop(v as nat, exact, e as int, num, den, drop as nat, 0, v as nat);
            assert(scale == 0);
            lemma_nearest(num, den, 0, 0);
            assert(0 * (den * pow2(0)) == 0) by (nonlinear_arith);
        }
        return encode(0, 0);
    }
    let (kept, rest) = split_places(v, drop);
    proof {
        lemma_pow2_pos(drop as nat);
        let d = pow2(drop as nat);
        lemma_fundamental_div_mod_converse(v as int, d as int, kept as int, rest as int);
        if drop != fit {
            if fit > 0 {
                lemma_pow2_strictly_increases(fit as nat, drop as nat);
            } else {
                lemma2_to64();
                lemma_pow2_strictly_increases(0, drop as nat);
            }
            lemma_pow2_pos(fit as nat);
            lemma_div_is_ordered_by_denominator(v as int, pow2(fit as nat) as int, d as int);
        }
        assert(kept < 2 * LEADING);
        if drop == 0 {
            lemma2_to64();
            assert(kept == v) by (nonlinear_arith)
                requires
                    v == kept * d + rest,
                    d == 1,
                    rest < d,
            ;
        }
        lemma_drop(
            v as nat,
            exact,
            e as int,
            num,
            den,
            drop as nat,
            kept as nat,
            rest as nat,
        );
        assert(scale > 0 ==> kept >= LEADING);
        lemma_nearest(num, den, scale as nat, kept as nat);
        lemma_mul_is_commutative(den as int, pow2(scale as nat) as int);
    }
    let half: u128 = if drop == 0 {
        1
    } else {
        proof {
            lemma_pow2_unfold(drop as nat);
            if drop < 128 {
                lemma_pow2_strictly_increases((drop - 1) as nat, 127);
            }
            assert(pow2(127) == 0x8000_0000_0000_0000_0000_0000_0000_0000) by {
                lemma2_to64();
                lemma2_to64_rest();
                lemma_pow2_adds(63, 64);
            }
        }
        shifted_up(1, drop - 1)
    };
    let up: bool = rest > half || (rest == half && (!exact || kept % 2 == 1));
    if up {
        encode(kept as u64 + 1, scale)
    } else {
        encode(kept as u64, scale)
    }
}


impl Double {
    /// The rounded sum.
    pub open spec fn sum(self, other: Double) -> Double {
        nearest(self.units() + other.units(), 1)
    }

    /// The rounded difference, zero where `other` is the larger number.
    pub open spec fn difference(self, other: Double) -> Double {
        if self.units() >= other.units() {
            nearest((self.units() - other.units()) as nat, 1)
        } else {
            Double { bits: 0 }
        }
    }

    /// The rounded product.
    pub open spec fn product(self, other: Double) -> Double {
        nearest(self.units() * other.units(), pow2(1074))
    }

    /// The rounded quotient, the largest number where `other` is zero.
    pub open spec fn quotient(self, other: Double) -> Double {
        if other.bits == 0 {
            Double { bits: u64::MAX }
        } else {
            nearest(self.units() * pow2(1074), other.units())
        }
    }

    /// The number nearest to a whole number.
    pub open spec fn whole(n: nat) -> Double {
        nearest(n * pow2(1074), 1)
    }

    /// The mantissa and the scale.
    fn parts(self) -> (r: (u64, u32))
        ensures
            r.0 == self.mantissa(),
            r.1 == self.scale(),
            r.0 < 2 * LEADING,
            r.1 > 0 ==> r.0 >= LEADING,
            r.1 <= 4094,
    {
        proof {
            lemma_parts(self);
        }
        let field: u64 = self.bits / LEADING;
        if field == 0 {
            (self.bits, 0)
        } else {
            let scale: u64 = field - 1;
            (self.bits - scale * LEADING, scale as u32)
        }
    }

    /// Adds two numbers.
    pub fn plus(self, other: Double) -> (r: Double)
        ensures
            r == self.sum(other),
    {
        let (ma, sa) = self.parts();
        let (mb, sb) = other.parts();
        if sa >= sb {
            add_aligned(self, ma, sa, mb, sb)
        } else {
            add_aligned(other, mb, sb, ma, sa)
        }
    }
}

/// Adds `low` to `high` where `high` has the larger scale.
fn add_aligned(high: Double, mh: u64, sh: u32, ml: u64, sl: u32) -> (r: Double)
    requires
        mh == high.mantissa(),
        sh == high.scale(),
        sl <= sh <= 4094,
        ml < 2 * LEADING,
    ensures
        r == nearest(high.units() + ml as nat * pow2(sl as nat), 1),
{
    let d: u32 = sh - sl;
    let ghost num = (high.units() + ml * pow2(sl as nat)) as nat;
    proof {
        lemma_parts(high);
        lemma_pow2_adds(sl as nat, d as nat);
        lemma_pow2_pos(sl as nat);
    }
    if d <= 64 {
        proof {
            lemma_shift_bound(mh as nat, d as nat);
        }
        let v: u128 = shifted_up(mh as u128, d) + ml as u128;
        proof {
            let p = pow2(sl as nat);
            let q = pow2(d as nat);
            assert((mh * q + ml) * (p * 1) == mh * (p * q) + ml * p) by (nonlinear_arith);
            assert((v + 1) * (p * 1) == v * (p * 1) + p) by (nonlinear_arith);
        }
        settle(v, true, sl as i32, Ghost(num), Ghost(1))
    } else {
        proof {
            lemma_far(ml as nat, sl as nat, sh as nat);
            let step = pow2(sh as nat);
            assert((mh + 1) * (1 * step) == mh * (1 * step) + step) by (nonlinear_arith);
            assert(mh * (1 * step) == mh * step) by (nonlinear_arith);
            lemma_nearest(num, 1, sh as nat, mh as nat);
        }
        high
    }
}

proof fn lemma_shift_bound(m: nat, d: nat)
    requires
        m < 2 * LEADING,
        d <= 73,
    ensures
        m * pow2(d) < 0x4000_0000_0000_0000_0000_0000_0000_0000,
{
    assert(pow2(73) == 0x200_0000_0000_0000_0000) by {
        lemma2_to64();
        lemma_pow2_adds(64, 9);
        lemma2_to64_rest();
    }
    if d < 73 {
        lemma_pow2_strictly_increases(d, 73);
    }
    assert(m * pow2(d) < 2 * LEADING * 0x200_0000_0000_0000_0000) by (nonlinear_arith)
        requires
            m < 2 * LEADING,
            0 <= pow2(d) <= 0x200_0000_0000_0000_0000,
            LEADING == 0x10_0000_0000_0000,
    ;
}

/// A number whose scale is far smaller is less than a quarter of a step.
proof fn lemma_far(m: nat, low: nat, high: nat)
    requires
        m < 2 * LEADING,
        low + 64 < high,
    ensures
        4 * (m * pow2(low)) < pow2(high),
{
    lemma_pow2_adds(low, (high - low) as nat);
    lemma_pow2_pos(low);
    lemma2_to64();
    lemma2_to64_rest();
    lemma_pow2_strictly_increases(64, (high - low) as nat);
    assert(4 * (m * pow2(low)) < pow2(low) * pow2((high - low) as nat)) by (nonlinear_arith)
        requires
            4 * m < pow2((high - low) as nat),
            pow2(low) > 0,
    ;
}


/// Takes `low` from `high` where `high` is the larger number.
fn subtract_aligned(high: Double, mh: u64, sh: u32, ml: u64, sl: u32) -> (r: Double)
    requires
        mh == high.mantissa(),
        sh == high.scale(),
        sl <= sh <= 4094,
        ml < 2 * LEADING,
        ml * pow2(sl as nat) <= high.units(),
    ensures
        r == nearest((high.units() - ml * pow2(sl as nat)) as nat, 1),
{
    let d: u32 = sh - sl;
    let ghost num = (high.units() - ml * pow2(sl as nat)) as nat;
    proof {
        lemma_parts(high);
        lemma_pow2_adds(sl as nat, d as nat);
        lemma_pow2_pos(sl as nat);
    }
    if d <= 64 {
        proof {
            lemma_shift_bound(mh as nat, d as nat);
            let p = pow2(sl as nat);
            let q = pow2(d as nat);
            assert(mh * (p * q) == (mh * q) * p) by (nonlinear_arith);
            if mh * q < ml {
                lemma_mul_strict_inequality(mh * q, ml as int, p as int);
            }
        }
        let v: u128 = shifted_up(mh as u128, d) - ml as u128;
        proof {
            let p = pow2(sl as nat);
            let q = pow2(d as nat);
            assert((mh * q - ml) * (p * 1) == (mh * q) * p - ml * p) by (nonlinear_arith);
            assert((v + 1) * (p * 1) == v * (p * 1) + p) by (nonlinear_arith);
        }
        settle(v, true, sl as i32, Ghost(num), Ghost(1))
    } else {
        proof {
            lemma_far(ml as nat, sl as nat, sh as nat);
            assert(0 <= ml * pow2(sl as nat)) by (nonlinear_arith);
            let step = pow2(sh as nat);
            if ml == 0 {
                assert(ml * pow2(sl as nat) == 0) by (nonlinear_arith)
                    requires
                        ml == 0,
                ;
                assert((mh + 1) * (1 * step) == mh * (1 * step) + step) by (nonlinear_arith);
                assert(mh * (1 * step) == mh * step) by (nonlinear_arith);
                lemma_nearest(num, 1, sh as nat, mh as nat);
            } else {
                assert(0 < ml * pow2(sl as nat)) by (nonlinear_arith)
                    requires
                        ml > 0,
                        pow2(sl as nat) > 0,
                ;
                if mh > LEADING {
                    let m = (mh - 1) as nat;
                    assert((m + 1) * (1 * step) == mh * step) by (nonlinear_arith)
                        requires
                            m + 1 == mh,
                    ;
                    assert(m * (1 * step) == mh * step - step) by (nonlinear_arith)
                        requires
                            m + 1 == mh,
                    ;
                    lemma_nearest(num, 1, sh as nat, m);
                } else {
                    let k = (sh - 1) as nat;
                    let half = pow2(k);
                    lemma_pow2_unfold(sh as nat);
                    let m = (2 * LEADING - 1) as nat;
                    assert((m + 1) * (1 * half) == mh * step) by (nonlinear_arith)
                        requires
                            m + 1 == 2 * mh,
                            step == 2 * half,
                    ;
                    assert(m * (1 * half) == mh * step - half) by (nonlinear_arith)
                        requires
                            m + 1 == 2 * mh,
                            step == 2 * half,
                    ;
                    lemma_nearest(num, 1, k, m);
                }
            }
        }
        high
    }
}

/// A mantissa moved up until its leading bit is set, and by how many places.
fn lifted(m: u64) -> (r: (u64, u32))
    requires
        0 < m < 2 * LEADING,
    ensures
        r.0 == m * pow2(r.1 as nat),
        LEADING <= r.0 < 2 * LEADING,
        r.1 <= 52,
{
    let mut w: u64 = m;
    let mut k: u32 = 0;
    proof {
        lemma2_to64();
    }
    if w < 0x20_0000 {
        w = w * 0x1_0000_0000;
        k = 32;
    }
    if w < 0x20_0000_0000 {
        proof {
            lemma_lift(m as nat, k as nat, 16);
        }
        w = w * 0x1_0000;
        k = k + 16;
    }
    if w < 0x2000_0000_0000 {
        proof {
            lemma_lift(m as nat, k as nat, 8);
        }
        w = w * 0x100;
        k = k + 8;
    }
    if w < 0x2_0000_0000_0000 {
        proof {
            lemma_lift(m as nat, k as nat, 4);
        }
        w = w * 0x10;
        k = k + 4;
    }
    while w < LEADING
        invariant
            w == m * pow2(k as nat),
            0 < w < 2 * LEADING,
            0 < m,
            k <= 60,
        decreases 2 * LEADING - w,
    {
        proof {
            lemma2_to64();
            lemma_lift(m as nat, k as nat, 1);
            lemma_lift_bound(m as nat, k as nat);
        }
        w = w * 2;
        k = k + 1;
    }
    proof {
        if k > 52 {
            lemma2_to64();
            lemma2_to64_rest();
            lemma_pow2_strictly_increases(52, k as nat);
            assert(m * pow2(k as nat) >= pow2(k as nat)) by (nonlinear_arith)
                requires
                    m > 0,
                    pow2(k as nat) >= 0,
            ;
            lemma_pow2_strictly_increases(52, k as nat);
            if k > 53 {
                lemma_pow2_strictly_increases(53, k as nat);
            }
        }
    }
    (w, k)
}

proof fn lemma_lift(m: nat, k: nat, s: nat)
    ensures
        (m * pow2(k)) * pow2(s) == m * pow2(k + s),
{
    lemma_pow2_adds(k, s);
    assert((m * pow2(k)) * pow2(s) == m * (pow2(k) * pow2(s))) by (nonlinear_arith);
}

proof fn lemma_lift_bound(m: nat, k: nat)
    requires
        m > 0,
        m * pow2(k) < LEADING,
    ensures
        k < 52,
{
    lemma2_to64();
    lemma2_to64_rest();
    if k >= 52 {
        if k > 52 {
            lemma_pow2_strictly_increases(52, k);
        }
        assert(m * pow2(k) >= pow2(k)) by (nonlinear_arith)
            requires
                m > 0,
                pow2(k) >= 0,
        ;
    }
}

/// A whole quotient of two scaled numbers brackets their quotient.
proof fn lemma_quotient(w: nat, mb: nat, sb: nat, e: int, num: nat)
    requires
        mb > 0,
        e >= 0 ==> num == w * pow2((e + sb) as nat),
        e < 0 ==> num * pow2((-e) as nat) == w * pow2(sb),
    ensures
        mb * pow2(sb) > 0,
        brackets(w / mb, w % mb == 0, e, num, mb * pow2(sb)),
{
    let v = w / mb;
    let r = w % mb;
    lemma_fundamental_div_mod(w as int, mb as int);
    lemma_mul_is_commutative(mb as int, v as int);
    lemma_pow2_pos(sb);
    let p: nat = if e >= 0 { pow2((e + sb) as nat) } else { pow2(sb) };
    if e >= 0 {
        lemma_pow2_adds(e as nat, sb);
        lemma_pow2_pos((e + sb) as nat);
        assert(pow2(e as nat) * (mb * pow2(sb)) == mb * (pow2(e as nat) * pow2(sb)))
            by (nonlinear_arith);
    }
    assert(mb * pow2(sb) > 0) by (nonlinear_arith)
        requires
            mb > 0,
            pow2(sb) > 0,
    ;
    assert(w * p == v * (mb * p) + r * p) by (nonlinear_arith)
        requires
            w == v * mb + r,
    ;
    assert((v + 1) * (mb * p) == v * (mb * p) + mb * p) by (nonlinear_arith);
    lemma_mul_strict_inequality(r as int, mb as int, p as int);
    assert(0 <= r * p) by (nonlinear_arith);
    assert(r == 0 <==> r * p == 0) by (nonlinear_arith)
        requires
            p > 0,
    ;
}

impl Double {
    /// Subtracts a number, to zero at the least.
    pub fn minus(self, other: Double) -> (r: Double)
        ensures
            r == self.difference(other),
    {
        proof {
            lemma_order(other, self);
        }
        if self.bits < other.bits {
            return Double { bits: 0 };
        }
        proof {
            lemma_scales(other, self);
        }
        let (ma, sa) = self.parts();
        let (mb, sb) = other.parts();
        subtract_aligned(self, ma, sa, mb, sb)
    }

    /// Multiplies two numbers.
    pub fn times(self, other: Double) -> (r: Double)
        ensures
            r == self.product(other),
    {
        let (ma, sa) = self.parts();
        let (mb, sb) = other.parts();
        assert(ma * mb < 0x40_0000_0000_0000_0000_0000_0000_0000) by (nonlinear_arith)
            requires
                ma < 0x20_0000_0000_0000,
                mb < 0x20_0000_0000_0000,
        ;
        let v: u128 = ma as u128 * mb as u128;
        let e: i32 = sa as i32 + sb as i32 - 1074;
        let ghost num = self.units() * other.units();
        proof {
            let (pa, pb) = (pow2(sa as nat), pow2(sb as nat));
            lemma_pow2_adds(sa as nat, sb as nat);
            let both = pow2((sa + sb) as nat);
            assert((ma * pa) * (mb * pb) == (ma * mb) * (pa * pb)) by (nonlinear_arith);
            assert(num == v * both);
            lemma_pow2_pos(1074);
            lemma_exact(v as nat, e as int, (sa + sb) as nat, num);
        }
        settle(v, true, e, Ghost(num), Ghost(pow2(1074)))
    }

    /// Divides two numbers.
    pub fn over(self, other: Double) -> (r: Double)
        ensures
            r == self.quotient(other),
    {
        if other.bits == 0 {
            return Double { bits: u64::MAX };
        }
        let (ma, sa) = self.parts();
        let (mb, sb) = other.parts();
        let ghost num = self.units() * pow2(1074);
        proof {
            lemma_pow2_pos(sb as nat);
            assert(mb > 0);
            assert(mb * pow2(sb as nat) > 0) by (nonlinear_arith)
                requires
                    mb > 0,
                    pow2(sb as nat) > 0,
            ;
        }
        if ma == 0 {
            proof {
                assert(0 * pow2(sa as nat) == 0) by (nonlinear_arith);
                assert(0 * pow2(1074) == 0) by (nonlinear_arith);
                lemma_zero(other.units());
            }
            return Double { bits: 0 };
        }
        let (m, lift) = lifted(ma);
        proof {
            lemma_shift_bound(m as nat, 73);
        }
        let w: u128 = shifted_up(m as u128, 73);
        let v: u128 = w / mb as u128;
        let e: i32 = sa as i32 - lift as i32 - sb as i32 + 1001;
        proof {
            let wide = (lift + 73) as nat;
            lemma_lift(ma as nat, lift as nat, 73);
            assert(w == ma * pow2(wide));
            lemma_lift(ma as nat, sa as nat, 1074);
            assert(num == ma * pow2((sa + 1074) as nat));
            if e >= 0 {
                lemma_lift(ma as nat, wide, (e + sb) as nat);
                assert(wide + (e + sb) as nat == (sa + 1074) as nat);
            } else {
                lemma_lift(ma as nat, (sa + 1074) as nat, (-e) as nat);
                lemma_lift(ma as nat, wide, sb as nat);
                assert((sa + 1074) as nat + (-e) as nat == wide + sb as nat);
            }
            lemma_quotient(w as nat, mb as nat, sb as nat, e as int, num);
            assert(v >= 2 * LEADING) by {
                assert(pow2(73) == 0x200_0000_0000_0000_0000) by {
                    lemma2_to64();
                    lemma_pow2_adds(64, 9);
                    lemma2_to64_rest();
                }
                assert(w >= 0x2000_0000_0000_0000_0000_0000_0000_0000) by (nonlinear_arith)
                    requires
                        w == m * 0x200_0000_0000_0000_0000,
                        m >= 0x10_0000_0000_0000,
                ;
                lemma_div_is_ordered_by_denominator(w as int, mb as int, 0x20_0000_0000_0000);
                lemma_div_is_ordered(
                    0x2000_0000_0000_0000_0000_0000_0000_0000,
                    w as int,
                    0x20_0000_0000_0000,
                );
            }
            assert(v <= w) by {
                lemma_div_is_ordered_by_denominator(w as int, 1, mb as int);
            }
        }
        settle(v, w % mb as u128 == 0, e, Ghost(num), Ghost(other.units()))
    }

    /// Converts a whole number.
    pub fn from_int(n: u128) -> (r: Double)
        requires
            n < 0x8000_0000_0000_0000_0000_0000_0000_0000,
        ensures
            r == Double::whole(n as nat),
    {
        let ghost num = n as nat * pow2(1074);
        proof {
            lemma_pow2_pos(1074);
            lemma_mul_is_commutative(pow2(1074) as int, 1);
            assert((n + 1) * (pow2(1074) * 1) == n * (pow2(1074) * 1) + pow2(1074))
                by (nonlinear_arith);
        }
        settle(n, true, 1074, Ghost(num), Ghost(1))
    }
}

/// A product of a count and a power of two, counted in steps.
proof fn lemma_exact(v: nat, e: int, p: nat, num: nat)
    requires
        e == p - 1074,
        num == v * pow2(p),
    ensures
        brackets(v, true, e, num, pow2(1074)),
{
    lemma_pow2_pos(1074);
    lemma_pow2_pos(p);
    if e >= 0 {
        lemma_pow2_adds(e as nat, 1074);
        assert((v + 1) * pow2(p) == v * pow2(p) + pow2(p)) by (nonlinear_arith);
    } else {
        lemma_lift(v, p, (-e) as nat);
        assert((v + 1) * pow2(1074) == v * pow2(1074) + pow2(1074)) by (nonlinear_arith);
    }
}

proof fn lemma_zero(den: nat)
    requires
        den > 0,
    ensures
        nearest(0, den) == (Double { bits: 0 }),
{
    lemma2_to64();
    assert(0 * (den * pow2(0)) == 0) by (nonlinear_arith);
    assert(den * pow2(0) == den) by (nonlinear_arith)
        requires
            pow2(0) == 1,
    ;
    assert((0 + 1) * (den * pow2(0)) == den * pow2(0)) by (nonlinear_arith);
    lemma_nearest(0, den, 0, 0);
}

/// The larger encoding has the larger scale.
proof fn lemma_scales(a: Double, b: Double)
    requires
        a.bits <= b.bits,
    ensures
        a.scale() <= b.scale(),
{
    lemma_div_is_ordered(a.bits as int, b.bits as int, LEADING as int);
}

/// Numbers are ordered as their encodings are.
pub proof fn lemma_order(a: Double, b: Double)
    ensures
        a.bits <= b.bits <==> a.units() <= b.units(),
        a.bits < b.bits <==> a.units() < b.units(),
{
    if a.bits < b.bits {
        lemma_order_strict(a, b);
    } else if b.bits < a.bits {
        lemma_order_strict(b, a);
    }
}

proof fn lemma_order_strict(a: Double, b: Double)
    requires
        a.bits < b.bits,
    ensures
        a.units() < b.units(),
{
    lemma_scales(a, b);
    lemma_parts(a);
    lemma_parts(b);
    let (ma, sa) = (a.mantissa(), a.scale());
    let (mb, sb) = (b.mantissa(), b.scale());
    lemma_pow2_pos(sa);
    let p = pow2(sa);
    if sa == sb {
        lemma_mul_strict_inequality(ma as int, mb as int, p as int);
    } else {
        lemma_pow2_unfold(sb);
        if sa < sb - 1 {
            lemma_pow2_strictly_increases(sa, (sb - 1) as nat);
        }
        assert(ma * p < mb * (2 * pow2((sb - 1) as nat))) by (nonlinear_arith)
            requires
                ma < 2 * 0x10_0000_0000_0000,
                mb >= 0x10_0000_0000_0000,
                0 < p <= pow2((sb - 1) as nat),
        ;
    }
}


/// The whole number nearest to `num / den`, ties to the even one.
pub open spec fn rounded(num: nat, den: nat) -> nat {
    num / den + if rounds_up(num, den) {
        1nat
    } else {
        0nat
    }
}

/// The natural logarithm of two, in units of two to the power -64.
pub const LN_2: u64 = 0xB172_17F7_D1CF_79AC;

/// How many terms of the exponential series are summed.
pub const TERMS: u64 = 24;

/// The tail of the exponential series `1 - y/k (1 - y/(k+1) (1 - ...))` from
/// its term `k` on, where `y` and the result count units of two to the power
/// -64.
pub open spec fn series(y: nat, k: nat) -> nat
    decreases TERMS + 1 - k,
{
    if k > TERMS {
        0x1_0000_0000_0000_0000
    } else {
        (0x1_0000_0000_0000_0000 - y * series(y, k + 1) / (k * 0x1_0000_0000_0000_0000)) as nat
    }
}

impl Double {
    /// The number counted in units of two to the power -64, rounded down.
    pub open spec fn places(self) -> nat {
        self.units() * pow2(64) / pow2(1074)
    }

    /// Two to the power of minus this number: the whole part halves the
    /// exponential of the rest.
    pub open spec fn halved(self) -> Double {
        let y = (self.places() % pow2(64)) * (LN_2 as nat) / pow2(64);
        nearest(series(y, 1) * pow2(1074), pow2(64 + self.places() / pow2(64)))
    }
}

proof fn lemma_series(y: nat, k: nat)
    requires
        y <= LN_2,
        k >= 1,
    ensures
        0x4000_0000_0000_0000 <= series(y, k) <= 0x1_0000_0000_0000_0000,
        k <= TERMS ==> y * series(y, k + 1) / (k * 0x1_0000_0000_0000_0000) <= LN_2,
    decreases TERMS + 1 - k,
{
    if k <= TERMS {
        lemma_series(y, k + 1);
        let h = series(y, k + 1);
        let one = 0x1_0000_0000_0000_0000int;
        assert(y * h <= LN_2 * one) by (nonlinear_arith)
            requires
                y <= LN_2,
                h <= one,
        ;
        assert(0 <= y * h) by (nonlinear_arith);
        assert(k * one >= one) by (nonlinear_arith)
            requires
                k >= 1,
                one > 0,
        ;
        lemma_div_is_ordered_by_denominator((y * h) as int, one, k * one);
        lemma_div_is_ordered((y * h) as int, LN_2 * one, one);
        lemma_div_by_multiple(LN_2 as int, one);
        lemma_div_pos_is_pos((y * h) as int, k * one);
    }
}

/// Sums the exponential series.
fn sum_series(y: u64) -> (r: u128)
    requires
        y <= LN_2,
    ensures
        r == series(y as nat, 1),
        0x4000_0000_0000_0000 <= r <= 0x1_0000_0000_0000_0000,
{
    let mut k: u64 = TERMS;
    let mut tail: u128 = 0x1_0000_0000_0000_0000;
    while k >= 1
        invariant
            y <= LN_2,
            k <= TERMS,
            tail == series(y as nat, k as nat + 1),
        decreases k,
    {
        proof {
            lemma_series(y as nat, k as nat);
            lemma_series(y as nat, k as nat + 1);
            assert(y * tail <= 0xB172_17F7_D1CF_79AC * 0x1_0000_0000_0000_0000) by (nonlinear_arith)
                requires
                    y <= 0xB172_17F7_D1CF_79AC,
                    tail <= 0x1_0000_0000_0000_0000,
            ;
            assert(0 <= y * tail) by (nonlinear_arith);
        }
        let q: u128 = y as u128 * tail / (k as u128 * 0x1_0000_0000_0000_0000);
        tail = 0x1_0000_0000_0000_0000 - q;
        k = k - 1;
    }
    proof {
        lemma_series(y as nat, 1);
    }
    tail
}

impl Double {
    /// The number counted in units of two to the power -64, for a number below
    /// two to the power 12.
    fn places_of(self) -> (r: u128)
        requires
            self.scale() <= 1033,
        ensures
            r == self.places(),
            r < 0x1_0000_0000_0000_0000_0000,
    {
        let (m, s) = self.parts();
        proof {
            lemma_lift(m as nat, s as nat, 64);
        }
        if s >= 1010 {
            let up: u32 = s - 1010;
            proof {
                lemma_pow2_adds(1074, up as nat);
                lemma_pow2_pos(1074);
                let p = pow2(1074);
                let q = pow2(up as nat);
                assert(m * (p * q) == (m * q) * p) by (nonlinear_arith);
                lemma_div_by_multiple(m * q, p as int);
                lemma2_to64();
                if up < 23 {
                    lemma_pow2_strictly_increases(up as nat, 23);
                }
                assert(m * q < 0x1_0000_0000_0000_0000_0000) by (nonlinear_arith)
                    requires
                        m < 0x20_0000_0000_0000,
                        q <= 0x80_0000,
                ;
            }
            shifted_up(m as u128, up)
        } else {
            let down: u32 = 1010 - s;
            proof {
                lemma_pow2_adds((s + 64) as nat, down as nat);
                lemma_pow2_pos((s + 64) as nat);
                lemma_pow2_pos(down as nat);
                let p = pow2((s + 64) as nat);
                let q = pow2(down as nat);
                lemma_div_denominator(m * p, p as int, q as int);
                lemma_div_by_multiple(m as int, p as int);
                assert(self.places() == m as nat / q);
            }
            if down >= 64 {
                proof {
                    lemma2_to64();
                    lemma2_to64_rest();
                    if down > 64 {
                        lemma_pow2_strictly_increases(64, down as nat);
                    }
                    lemma_basic_div(m as int, pow2(down as nat) as int);
                }
                0
            } else {
                let (r, rest) = split_places(m as u128, down);
                proof {
                    lemma_fundamental_div_mod_converse(
                        m as int,
                        pow2(down as nat) as int,
                        r as int,
                        rest as int,
                    );
                    lemma_pow2_pos(down as nat);
                    lemma_div_is_ordered_by_denominator(m as int, 1, pow2(down as nat) as int);
                }
                r
            }
        }
    }

    /// Two to the power of minus this number. The laws of [`crate::powers`] say
    /// how close that is, and that it never rises.
    pub fn halve(self) -> (r: Double)
        ensures
            r == self.halved(),
    {
        let (_, s) = self.parts();
        let ghost t = self.places();
        let ghost y = (t % pow2(64)) * (LN_2 as nat) / pow2(64);
        proof {
            lemma2_to64_rest();
            lemma_pow2_pos(1074);
            assert(y <= LN_2) by {
                lemma_mod_bound(t as int, pow2(64) as int);
                let f = t % pow2(64);
                assert(f * LN_2 <= LN_2 * pow2(64)) by (nonlinear_arith)
                    requires
                        f <= pow2(64),
                ;
                lemma_div_is_ordered(f * LN_2, LN_2 * pow2(64), pow2(64) as int);
                lemma_div_by_multiple(LN_2 as int, pow2(64) as int);
            }
            lemma_series(y, 1);
        }
        if s >= 1034 {
            proof {
                lemma_large(self);
                let n = t / pow2(64);
                let num = series(y, 1) * pow2(1074);
                let den = pow2(64 + n);
                lemma_pow2_adds(64, 1074);
                lemma_pow2_strictly_increases(64 + 1074 + 1, 64 + n);
                lemma_pow2_unfold(64 + 1074 + 1);
                assert(num <= pow2(64) * pow2(1074)) by (nonlinear_arith)
                    requires
                        num == series(y, 1) * pow2(1074),
                        series(y, 1) <= pow2(64),
                ;
                lemma2_to64();
                lemma_pow2_pos(64 + n);
                assert(0 * (den * pow2(0)) == 0) by (nonlinear_arith);
                assert((0 + 1) * (den * pow2(0)) == den) by (nonlinear_arith)
                    requires
                        pow2(0) == 1,
                ;
                assert(den * pow2(0) == den) by (nonlinear_arith)
                    requires
                        pow2(0) == 1,
                ;
                lemma_nearest(num, den, 0, 0);
            }
            return Double { bits: 0 };
        }
        let places: u128 = self.places_of();
        let n: u128 = places / 0x1_0000_0000_0000_0000;
        let f: u128 = places % 0x1_0000_0000_0000_0000;
        assert(f * LN_2 < 0x1_0000_0000_0000_0000 * 0x1_0000_0000_0000_0000) by (nonlinear_arith)
            requires
                f < 0x1_0000_0000_0000_0000,
                LN_2 < 0x1_0000_0000_0000_0000,
        ;
        let scaled: u64 = (f * LN_2 as u128 / 0x1_0000_0000_0000_0000) as u64;
        let p: u128 = sum_series(scaled);
        let e: i32 = 1010 - n as i32;
        let ghost num = p as nat * pow2(1074);
        proof {
            let whole = (64 + n) as nat;
            lemma_pow2_pos(whole);
            if e >= 0 {
                lemma_pow2_adds(e as nat, whole);
                let step = pow2(1074);
                assert((p + 1) * step == p * step + step) by (nonlinear_arith);
            } else {
                lemma_lift(p as nat, 1074, (-e) as nat);
                assert(1074 + (-e) as nat == whole);
                let step = pow2(whole);
                assert((p + 1) * step == p * step + step) by (nonlinear_arith);
            }
        }
        settle(p, true, e, Ghost(num), Ghost(pow2((64 + n) as nat)))
    }
}

/// A number with a scale of 1034 or more has a whole part above 1075.
proof fn lemma_large(a: Double)
    requires
        a.scale() >= 1034,
    ensures
        a.places() / pow2(64) > 1075,
{
    lemma_parts(a);
    let (m, s) = (a.mantissa(), a.scale());
    lemma2_to64();
    lemma2_to64_rest();
    lemma_pow2_pos(1074);
    lemma_lift(m, s, 64);
    if s > 1034 {
        lemma_pow2_strictly_increases(1034 + 64, s + 64);
    }
    lemma_pow2_adds(1074, 24);
    let p = pow2(1074);
    assert(m * pow2(s + 64) >= (0x10_0000_0000_0000 * 0x100_0000) * p) by (nonlinear_arith)
        requires
            m >= 0x10_0000_0000_0000,
            pow2(s + 64) >= p * 0x100_0000,
            p > 0,
    ;
    let q = 0x10_0000_0000_0000int * 0x100_0000;
    lemma_div_is_ordered(q * p, (m * pow2(s + 64)) as int, p as int);
    lemma_div_by_multiple(q, p as int);
    lemma_div_is_ordered(
        q,
        a.places() as int,
        0x1_0000_0000_0000_0000,
    );
}


/// The encoding of one.
pub const ONE: u64 = 0x3FF0_0000_0000_0000;

/// The encoding of infinity in the ordinary range: the numbers below it are
/// the finite ones there.
pub const INFINITY: u64 = 0x7FF0_0000_0000_0000;

impl Double {
    /// The whole number nearest to this number times a thousand million, at
    /// most `limit`.
    pub open spec fn billionths(self, limit: nat) -> nat {
        let r = rounded(self.units() * 1_000_000_000, pow2(1074));
        if r <= limit {
            r
        } else {
            limit
        }
    }

    /// The larger of two numbers.
    pub open spec fn greater(self, other: Double) -> Double {
        if self.bits >= other.bits {
            self
        } else {
            other
        }
    }

    /// The smaller of two numbers.
    pub open spec fn lesser(self, other: Double) -> Double {
        if self.bits <= other.bits {
            self
        } else {
            other
        }
    }

    /// The number in the range from `low` to `high` that is closest to this.
    pub open spec fn confined(self, low: Double, high: Double) -> Double {
        if self.bits < low.bits {
            low
        } else if self.bits > high.bits {
            high
        } else {
            self
        }
    }

    /// Counts thousand-millionths, rounded to the nearest.
    pub fn to_billionths(self, limit: u128) -> (r: u128)
        requires
            limit < 0x4000_0000_0000_0000_0000_0000,
        ensures
            r == self.billionths(limit as nat),
    {
        let (m, s) = self.parts();
        let ghost num = self.units() * 1_000_000_000;
        let ghost den = pow2(1074);
        let v: u128 = m as u128 * 1_000_000_000;
        proof {
            lemma_pow2_pos(1074);
            let p = pow2(s as nat);
            assert((m * p) * 1_000_000_000 == (m * 1_000_000_000) * p) by (nonlinear_arith);
            assert(num == v * p);
        }
        if s >= 1074 {
            let up: u32 = s - 1074;
            let ghost q = pow2(up as nat);
            proof {
                lemma_pow2_adds(1074, up as nat);
                assert(v * (den * q) == (v * q) * den) by (nonlinear_arith);
                lemma_div_by_multiple(v * q, den as int);
                lemma_mod_multiples_basic(v * q, den as int);
                assert(rounded(num, den) == v * q);
                lemma2_to64_rest();
            }
            if up > 40 {
                proof {
                    if up > 41 {
                        lemma_pow2_strictly_increases(41, up as nat);
                    }
                    assert(v * q >= 0x4000_0000_0000_0000_0000_0000) by (nonlinear_arith)
                        requires
                            v >= 0x10_0000_0000_0000 * 1_000_000_000,
                            q >= 0x200_0000_0000,
                    ;
                }
                return limit;
            }
            proof {
                if up < 40 {
                    lemma_pow2_strictly_increases(up as nat, 40);
                }
                assert(0 <= v * q < 0x8000_0000_0000_0000_0000_0000_0000_0000) by (nonlinear_arith)
                    requires
                        v < 0x20_0000_0000_0000 * 1_000_000_000,
                        0 <= q <= 0x100_0000_0000,
                ;
            }
            let exact: u128 = shifted_up(v, up);
            if exact <= limit {
                exact
            } else {
                limit
            }
        } else {
            let down: u32 = 1074 - s;
            let ghost q = pow2(down as nat);
            let ghost p = pow2(s as nat);
            proof {
                lemma_pow2_adds(s as nat, down as nat);
                lemma_pow2_pos(s as nat);
                lemma_pow2_pos(down as nat);
                lemma_scaled_rounding(v as nat, q, p);
            }
            if down >= 128 {
                proof {
                    lemma2_to64();
                    lemma2_to64_rest();
                    lemma_pow2_adds(64, 63);
                    if down > 128 {
                        lemma_pow2_strictly_increases(127, (down - 1) as nat);
                    }
                    lemma_pow2_unfold(down as nat);
                    lemma_basic_div(v as int, q as int);
                    lemma_small_mod(v as nat, q);
                }
                return 0;
            }
            let (kept, rest) = split_places(v, down);
            let half: u128 = {
                proof {
                    lemma_pow2_unfold(down as nat);
                    lemma_pow2_adds(64, 63);
                    lemma2_to64();
                    lemma2_to64_rest();
                    if down < 128 {
                        lemma_pow2_strictly_increases((down - 1) as nat, 127);
                    }
                }
                shifted_up(1, down - 1)
            };
            proof {
                lemma_fundamental_div_mod_converse(v as int, q as int, kept as int, rest as int);
                lemma_div_is_ordered_by_denominator(v as int, 1, q as int);
            }
            let nearest_whole: u128 = if rest > half || (rest == half && kept % 2 == 1) {
                kept + 1
            } else {
                kept
            };
            if nearest_whole <= limit {
                nearest_whole
            } else {
                limit
            }
        }
    }

    /// Returns the larger of two numbers.
    pub fn larger(self, other: Double) -> (r: Double)
        ensures
            r == self.greater(other),
    {
        if self.bits >= other.bits {
            self
        } else {
            other
        }
    }

    /// Returns the smaller of two numbers.
    pub fn smaller(self, other: Double) -> (r: Double)
        ensures
            r == self.lesser(other),
    {
        if self.bits <= other.bits {
            self
        } else {
            other
        }
    }

    /// Moves the number into the range from `low` to `high`.
    pub fn confine(self, low: Double, high: Double) -> (r: Double)
        ensures
            r == self.confined(low, high),
    {
        if self.bits < low.bits {
            low
        } else if self.bits > high.bits {
            high
        } else {
            self
        }
    }
}

/// Rounding depends on the quotient alone.
proof fn lemma_scaled_rounding(v: nat, q: nat, p: nat)
    requires
        q > 0,
        p > 0,
    ensures
        rounded(v * p, p * q) == rounded(v, q),
{
    let k = v / q;
    let r = v % q;
    lemma_fundamental_div_mod(v as int, q as int);
    lemma_mul_is_commutative(q as int, k as int);
    assert(v * p == k * (p * q) + r * p) by (nonlinear_arith)
        requires
            v == k * q + r,
    ;
    lemma_mod_bound(v as int, q as int);
    lemma_mul_strict_inequality(r as int, q as int, p as int);
    lemma_mul_is_commutative(q as int, p as int);
    assert(0 <= r * p) by (nonlinear_arith);
    lemma_fundamental_div_mod_converse((v * p) as int, (p * q) as int, k as int, (r * p) as int);
    assert((2 * (r * p) > p * q) <==> 2 * r > q) by (nonlinear_arith)
        requires
            p > 0,
    ;
    assert((2 * (r * p) == p * q) <==> 2 * r == q) by (nonlinear_arith)
        requires
            p > 0,
    ;
}

/// The mantissa and the scale that a quotient is rounded at.
pub proof fn lemma_found(num: nat, den: nat) -> (r: (nat, nat))
    requires
        den > 0,
    ensures
        r.0 < 2 * LEADING,
        r.1 > 0 ==> r.0 >= LEADING,
        r.0 * (den * pow2(r.1)) <= num < (r.0 + 1) * (den * pow2(r.1)),
{
    let k = lemma_excess_found(num / den);
    let step = den * pow2(k);
    lemma_pow2_pos(k);
    assert(step > 0) by (nonlinear_arith)
        requires
            den > 0,
            pow2(k) > 0,
            step == den * pow2(k),
    ;
    let m = num / step;
    lemma_fundamental_div_mod(num as int, step as int);
    lemma_mod_bound(num as int, step as int);
    assert((m + 1) * step == step * m + step) by (nonlinear_arith);
    lemma_mul_is_commutative(m as int, step as int);
    lemma_div_denominator(num as int, den as int, pow2(k) as int);
    let q = num / den;
    let p = pow2(k);
    assert(m == q / p);
    if k > 0 {
        lemma_div_is_ordered(LEADING * p, q as int, p as int);
        lemma_div_by_multiple(LEADING as int, p as int);
        assert(m < 2 * LEADING) by {
            lemma_fundamental_div_mod(q as int, p as int);
            lemma_mod_bound(q as int, p as int);
            if m >= 2 * LEADING {
                lemma_mul_inequality(2 * LEADING, m as int, p as int);
                lemma_mul_is_commutative(m as int, p as int);
            }
        }
    } else {
        lemma2_to64();
    }
    (m, k)
}

proof fn lemma_excess_found(q: nat) -> (k: nat)
    ensures
        k == 0 ==> q < 2 * LEADING,
        k > 0 ==> LEADING * pow2(k) <= q < 2 * LEADING * pow2(k),
    decreases q,
{
    if q < 2 * LEADING {
        0
    } else {
        let j = lemma_excess_found(q / 2);
        lemma_pow2_unfold(j + 1);
        let p = pow2(j);
        assert(LEADING * (2 * p) == 2 * (LEADING * p)) by (nonlinear_arith);
        assert(2 * LEADING * (2 * p) == 2 * (2 * LEADING * p)) by (nonlinear_arith);
        lemma2_to64();
        j + 1
    }
}

/// Rounding keeps the order of quotients.
pub proof fn lemma_monotone(a: nat, b: nat, c: nat, d: nat)
    requires
        b > 0,
        d > 0,
        a * d <= c * b,
    ensures
        nearest(a, b).bits <= nearest(c, d).bits,
{
    let (m, k) = lemma_found(a, b);
    let (n, l) = lemma_found(c, d);
    lemma_nearest(a, b, k, m);
    lemma_nearest(c, d, l, n);
    lemma_pow2_pos(k);
    lemma_pow2_pos(l);
    let p = pow2(k);
    let q = pow2(l);
    // Both bounds, over the common denominator.
    assert(m * p * (b * d) < (n + 1) * q * (b * d)) by {
        assert(m * (b * p) * d == m * p * (b * d)) by (nonlinear_arith);
        assert((n + 1) * (d * q) * b == (n + 1) * q * (b * d)) by (nonlinear_arith);
        lemma_mul_inequality((m * (b * p)) as int, a as int, d as int);
        lemma_mul_strict_inequality(c as int, ((n + 1) * (d * q)) as int, b as int);
    }
    assert(b * d > 0) by (nonlinear_arith)
        requires
            b > 0,
            d > 0,
    ;
    assert(m * p < (n + 1) * q) by {
        if m * p >= (n + 1) * q {
            lemma_mul_inequality(((n + 1) * q) as int, (m * p) as int, (b * d) as int);
        }
    }
    if k > l {
        lemma_pow2_unfold(k);
        if l < k - 1 {
            lemma_pow2_strictly_increases(l, (k - 1) as nat);
        }
        assert(m * p >= (n + 1) * q) by (nonlinear_arith)
            requires
                m >= 0x10_0000_0000_0000,
                n < 2 * 0x10_0000_0000_0000,
                p >= 2 * q,
                q > 0,
        ;
    } else if k == l {
        assert(m <= n) by {
            if m > n {
                lemma_mul_inequality((n + 1) as int, m as int, p as int);
            }
        }
        if m == n {
            let s = b * p;
            let t = d * p;
            let x = a - m * s;
            let y = c - n * t;
            // x / s <= y / t.
            assert(x * t <= y * s) by (nonlinear_arith)
                requires
                    x == a - m * s,
                    y == c - m * t,
                    s == b * p,
                    t == d * p,
                    a * d <= c * b,
                    p > 0,
            ;
            assert(s > 0 && t > 0) by (nonlinear_arith)
                requires
                    s == b * p,
                    t == d * p,
                    b > 0,
                    d > 0,
                    p > 0,
            ;
            if 2 * x > s {
                assert(2 * y > t) by (nonlinear_arith)
                    requires
                        2 * x > s,
                        x * t <= y * s,
                        s > 0,
                        t > 0,
                ;
            } else if 2 * x == s {
                assert(2 * y >= t) by (nonlinear_arith)
                    requires
                        2 * x == s,
                        x * t <= y * s,
                        s > 0,
                        t > 0,
                ;
            }
        }
    }
}

/// A number is nearest to itself.
pub proof fn lemma_itself(a: Double, den: nat)
    requires
        den > 0,
    ensures
        nearest(a.units() * den, den) == a,
{
    lemma_parts(a);
    let (m, k) = (a.mantissa(), a.scale());
    lemma_pow2_pos(k);
    let p = pow2(k);
    assert((m * p) * den == m * (den * p)) by (nonlinear_arith);
    assert((m + 1) * (den * p) == m * (den * p) + den * p) by (nonlinear_arith);
    assert(den * p > 0) by (nonlinear_arith)
        requires
            den > 0,
            p > 0,
    ;
    lemma_nearest(a.units() * den, den, k, m);
}

/// The encoding of a power of two.
pub proof fn lemma_power(field: u64)
    requires
        1 <= field <= 4095,
    ensures
        (Double { bits: (field * LEADING) as u64 }).units() == pow2((51 + field) as nat),
{
    lemma2_to64_rest();
    lemma_pow2_adds(52, (field - 1) as nat);
    let a = Double { bits: (field * LEADING) as u64 };
    lemma_div_by_multiple(field as int, LEADING as int);
    assert(a.scale() == field - 1);
    assert(a.mantissa() == LEADING);
}

/// The number one holds `2^1074` units.
pub proof fn lemma_one()
    ensures
        (Double { bits: ONE }).units() == pow2(1074),
{
    lemma_power(1023);
}

/// A positive whole number is at least one.
pub proof fn lemma_whole_positive(n: nat)
    requires
        n > 0,
    ensures
        Double::whole(n).bits >= ONE,
{
    lemma_one();
    lemma_itself(Double { bits: ONE }, 1);
    let p = pow2(1074);
    assert(p * 1 * 1 <= n * p * 1) by (nonlinear_arith)
        requires
            n > 0,
    ;
    lemma_monotone(p * 1, 1, n * p, 1);
}

/// Whole numbers keep their order.
pub proof fn lemma_whole_monotone(a: nat, b: nat)
    requires
        a <= b,
    ensures
        Double::whole(a).bits <= Double::whole(b).bits,
{
    let p = pow2(1074);
    assert((a * p) * 1 <= (b * p) * 1) by (nonlinear_arith)
        requires
            a <= b,
    ;
    lemma_monotone(a * p, 1, b * p, 1);
}

/// A whole number up to a power of two is at most the encoding of that power.
pub proof fn lemma_whole_at_most(n: nat, k: nat)
    requires
        n <= pow2(k),
        k <= 1023,
    ensures
        Double::whole(n).bits <= (1023 + k) * LEADING,
{
    let field = (1023 + k) as u64;
    let limit = Double { bits: (field * LEADING) as u64 };
    lemma_power(field);
    lemma_pow2_adds(k, 1074);
    lemma_itself(limit, 1);
    let p = pow2(1074);
    assert((n * p) * 1 <= (pow2(k) * p) * 1) by (nonlinear_arith)
        requires
            n <= pow2(k),
    ;
    lemma_monotone(n * p, 1, pow2(k) * p * 1, 1);
}

/// A quotient of at least one unit is positive.
pub proof fn lemma_positive(num: nat, den: nat)
    requires
        0 < den <= num,
    ensures
        nearest(num, den).bits > 0,
{
    let least = Double { bits: 1 };
    lemma2_to64();
    assert(least.scale() == 0 && least.mantissa() == 1);
    assert(1 * pow2(0) == 1) by (nonlinear_arith)
        requires
            pow2(0) == 1,
    ;
    lemma_itself(least, den);
    assert(den * den <= num * den) by (nonlinear_arith)
        requires
            den <= num,
    ;
    lemma_monotone(1 * den, den, num, den);
}

/// Nothing, scaled, is nothing.
pub proof fn lemma_nothing(a: Double)
    ensures
        a.bits > 0 ==> (Double { bits: 0 }).quotient(a).bits == 0,
        (Double { bits: 0 }).product(a).bits == 0,
        (Double { bits: 0 }).sum(Double { bits: 0 }).bits == 0,
        Double::whole(0).bits == 0,
{
    let zero = Double { bits: 0 };
    lemma2_to64();
    assert(zero.units() == 0);
    assert(0 * pow2(1074) == 0) by (nonlinear_arith);
    assert(0 * a.units() == 0) by (nonlinear_arith);
    lemma_pow2_pos(1074);
    lemma_zero(1);
    lemma_zero(pow2(1074));
    if a.bits > 0 {
        lemma_order(a, zero);
        lemma_zero(a.units());
    }
}

/// A factor of at most one never raises a number; one leaves it as it is.
pub proof fn lemma_product_at_most(a: Double, f: Double)
    requires
        f.bits <= ONE,
    ensures
        a.product(f).bits <= a.bits,
        a.product(Double { bits: ONE }) == a,
{
    lemma_one();
    lemma_order(f, Double { bits: ONE });
    lemma_pow2_pos(1074);
    lemma_itself(a, pow2(1074));
    let den = pow2(1074);
    assert((a.units() * f.units()) * den <= (a.units() * den) * den) by (nonlinear_arith)
        requires
            f.units() <= den,
    ;
    lemma_monotone(a.units() * f.units(), den, a.units() * den, den);
}

/// A sum is at least each of its terms.
pub proof fn lemma_sum_at_least(a: Double, b: Double)
    ensures
        a.sum(b).bits >= a.bits,
        a.sum(b).bits >= b.bits,
{
    lemma_itself(a, 1);
    lemma_itself(b, 1);
    lemma_monotone(a.units() * 1, 1, a.units() + b.units(), 1);
    lemma_monotone(b.units() * 1, 1, a.units() + b.units(), 1);
}

/// A difference is at most the number it is taken from.
pub proof fn lemma_difference_at_most(a: Double, b: Double)
    ensures
        a.difference(b).bits <= a.bits,
{
    lemma_itself(a, 1);
    if a.units() >= b.units() {
        lemma_monotone((a.units() - b.units()) as nat, 1, a.units() * 1, 1);
    }
}

/// A number up to two to the power 45 is the half-life of an average that
/// gives one sample some weight.
proof fn lemma_half_life(s: Double)
    requires
        ONE <= s.bits <= 1068 * LEADING,
    ensures
        (Double { bits: ONE }).quotient(s).halved().bits < ONE,
{
    let one = Double { bits: ONE };
    let x = one.quotient(s);
    let p = pow2(1074);
    lemma_one();
    lemma_pow2_pos(1074);
    // The reciprocal is at least two to the power -45.
    lemma_power(1068);
    lemma_order(s, Double { bits: (1068 * LEADING) as u64 });
    lemma_order(one, s);
    let least = Double { bits: (978 * LEADING) as u64 };
    lemma_power(978);
    lemma_itself(least, s.units());
    assert(least.units() * s.units() <= p * p) by {
        lemma_pow2_adds(1029, 1119);
        lemma_pow2_adds(1074, 1074);
        lemma_mul_inequality(s.units() as int, pow2(1119) as int, pow2(1029) as int);
        lemma_mul_is_commutative(s.units() as int, pow2(1029) as int);
        lemma_mul_is_commutative(pow2(1119) as int, pow2(1029) as int);
    }
    lemma_mul_inequality(
        (least.units() * s.units()) as int,
        (p * p) as int,
        s.units() as int,
    );
    lemma_monotone(least.units() * s.units(), s.units(), p * p, s.units());
    lemma_order(least, x);
    assert(x.units() >= pow2(1029));
    // So it has at least two to the power 19 places.
    lemma2_to64();
    lemma2_to64_rest();
    let t = x.places();
    assert(t >= 0x8_0000) by {
        lemma_pow2_adds(1029, 64);
        lemma_pow2_adds(19, 1074);
        lemma_mul_inequality(pow2(1029) as int, x.units() as int, pow2(64) as int);
        lemma_div_is_ordered(
            (pow2(19) * pow2(1074)) as int,
            (x.units() * pow2(64)) as int,
            pow2(1074) as int,
        );
        lemma_div_by_multiple(pow2(19) as int, pow2(1074) as int);
    }
    let n = t / pow2(64);
    let f = t % pow2(64);
    let y = f * (LN_2 as nat) / pow2(64);
    let num = series(y, 1) * p;
    let den = pow2(64 + n);
    let below = Double { bits: (ONE - 1) as u64 };
    lemma_mod_bound(t as int, pow2(64) as int);
    assert(y <= LN_2) by {
        assert(f * (LN_2 as nat) <= LN_2 * pow2(64)) by (nonlinear_arith)
            requires
                f <= pow2(64),
        ;
        lemma_div_is_ordered((f * (LN_2 as nat)) as int, LN_2 * pow2(64), pow2(64) as int);
        lemma_div_by_multiple(LN_2 as int, pow2(64) as int);
    }
    lemma_series(y, 1);
    lemma_series(y, 2);
    lemma_pow2_pos(64 + n);
    lemma_pow2_adds(64, n);
    // Its power of two is below one by at least one place of the mantissa.
    assert(below.units() == 0x1F_FFFF_FFFF_FFFF * pow2(1021)) by {
        assert(below.scale() == 1021);
    }
    lemma_pow2_adds(1021, 53);
    let q = pow2(1021);
    let top = 0x1_0000_0000_0000_0000nat;
    let limit = 0xFFFF_FFFF_FFFF_F800nat;
    assert(p == q * 0x20_0000_0000_0000);
    assert(below.units() * top == limit * p) by (nonlinear_arith)
        requires
            below.units() == 0x1F_FFFF_FFFF_FFFF * q,
            p == q * 0x20_0000_0000_0000,
            top == 0x1_0000_0000_0000_0000,
            limit == 0xFFFF_FFFF_FFFF_F800,
    ;
    assert(num <= below.units() * den) by {
        if n == 0 {
            lemma_small_mod(t, pow2(64));
            lemma_fundamental_div_mod(t as int, pow2(64) as int);
            assert(pow2(64) * 0 == 0) by (nonlinear_arith);
            assert(f == t);
            assert(y >= 0x1_0000) by {
                assert(f * (LN_2 as nat) >= 0x1_0000 * pow2(64)) by (nonlinear_arith)
                    requires
                        f >= 0x8_0000,
                        LN_2 >= 0x8000_0000_0000_0000,
                        pow2(64) == 0x1_0000_0000_0000_0000,
                ;
                lemma_div_is_ordered(
                    0x1_0000int * pow2(64),
                    (f * (LN_2 as nat)) as int,
                    pow2(64) as int,
                );
                lemma_div_by_multiple(0x1_0000, pow2(64) as int);
            }
            let h = series(y, 2);
            assert(y * h >= 0x800 * top) by (nonlinear_arith)
                requires
                    y >= 0x1_0000,
                    h >= 0x4000_0000_0000_0000,
                    top == 0x1_0000_0000_0000_0000,
            ;
            assert(y * h / (1 * top) >= 0x800) by {
                lemma_div_is_ordered(0x800int * top, (y * h) as int, top as int);
                lemma_div_by_multiple(0x800, top as int);
            }
            assert(series(y, 1) <= limit);
            lemma_mul_inequality(series(y, 1) as int, limit as int, p as int);
        } else {
            lemma_pow2_unfold(n);
            lemma_pow2_pos((n - 1) as nat);
            assert(num <= below.units() * den) by (nonlinear_arith)
                requires
                    num == series(y, 1) * p,
                    series(y, 1) <= top,
                    den == top * pow2(n),
                    pow2(n) >= 2,
                    below.units() * top == limit * p,
                    2 * limit >= top,
                    p > 0,
            ;
        }
    }
    lemma_itself(below, den);
    lemma_mul_inequality(num as int, (below.units() * den) as int, den as int);
    lemma_monotone(num, den, below.units() * den, den);
}

/// The weight of one sample is positive for an ordinary number of samples per
/// RTT and a half-life of one to 32 RTTs.
pub proof fn lemma_weight_positive(samples: Double, rtts: Double)
    requires
        ONE <= samples.bits <= 1063 * LEADING,
        ONE <= rtts.bits <= 1028 * LEADING,
    ensures
        ({
            let one = Double { bits: ONE };
            one.difference(one.quotient(samples.product(rtts)).halved()).bits > 0
        }),
{
    let one = Double { bits: ONE };
    let s = samples.product(rtts);
    let p = pow2(1074);
    lemma_one();
    lemma_pow2_pos(1074);
    lemma_order(one, samples);
    lemma_order(one, rtts);
    lemma_power(1063);
    lemma_power(1028);
    lemma_order(samples, Double { bits: (1063 * LEADING) as u64 });
    lemma_order(rtts, Double { bits: (1028 * LEADING) as u64 });
    let product = samples.units() * rtts.units();
    lemma_mul_inequality(p as int, rtts.units() as int, samples.units() as int);
    lemma_mul_is_commutative(samples.units() as int, rtts.units() as int);
    lemma_mul_inequality(p as int, samples.units() as int, p as int);
    lemma_mul_is_commutative(p as int, samples.units() as int);
    assert(product >= p * p);
    lemma_itself(one, p);
    lemma_mul_inequality((p * p) as int, product as int, p as int);
    lemma_monotone(p * p, p, product, p);
    let high = Double { bits: (1068 * LEADING) as u64 };
    lemma_power(1068);
    assert(product <= high.units() * p) by {
        lemma_pow2_adds(1114, 1079);
        lemma_pow2_adds(1119, 1074);
        lemma_mul_upper_bound(
            samples.units() as int,
            pow2(1114) as int,
            rtts.units() as int,
            pow2(1079) as int,
        );
    }
    lemma_itself(high, p);
    lemma_mul_inequality(product as int, (high.units() * p) as int, p as int);
    lemma_monotone(product, p, high.units() * p, p);
    lemma_half_life(s);
    let h = one.quotient(s).halved();
    lemma_order(h, one);
    lemma_positive((one.units() - h.units()) as nat, 1);
}

/// Two to the power of minus a number is at most one.
pub proof fn lemma_halved_at_most(a: Double)
    ensures
        a.halved().bits <= ONE,
{
    let one = Double { bits: ONE };
    let t = a.places();
    let n = t / pow2(64);
    let f = t % pow2(64);
    let y = f * (LN_2 as nat) / pow2(64);
    lemma2_to64_rest();
    lemma_mod_bound(t as int, pow2(64) as int);
    assert(y <= LN_2) by {
        assert(f * (LN_2 as nat) <= LN_2 * pow2(64)) by (nonlinear_arith)
            requires
                f <= pow2(64),
        ;
        lemma_div_is_ordered((f * (LN_2 as nat)) as int, LN_2 * pow2(64), pow2(64) as int);
        lemma_div_by_multiple(LN_2 as int, pow2(64) as int);
    }
    lemma_series(y, 1);
    let p = pow2(1074);
    let num = series(y, 1) * p;
    let den = pow2(64 + n);
    lemma_pow2_adds(64, n);
    lemma_pow2_pos(64 + n);
    lemma_pow2_pos(n);
    lemma_pow2_pos(1074);
    lemma_one();
    assert(num <= p * den) by (nonlinear_arith)
        requires
            num == series(y, 1) * p,
            series(y, 1) <= pow2(64),
            den == pow2(64) * pow2(n),
            pow2(n) >= 1,
            p > 0,
    ;
    lemma_itself(one, den);
    lemma_mul_inequality(num as int, (p * den) as int, den as int);
    lemma_monotone(num, den, p * den, den);
}

/// Two to the power of minus a whole number is exact.
pub proof fn lemma_halved_whole(a: Double, k: nat)
    requires
        k <= 1074,
        a.units() == k * pow2(1074),
    ensures
        a.halved().units() * pow2(k) == pow2(1074),
{
    lemma2_to64();
    lemma2_to64_rest();
    let p = pow2(1074);
    lemma_pow2_pos(1074);
    let t = a.places();
    assert(t == k * pow2(64)) by {
        assert((k * p) * pow2(64) == (k * pow2(64)) * p) by (nonlinear_arith);
        lemma_div_by_multiple((k * pow2(64)) as int, p as int);
    }
    lemma_div_by_multiple(k as int, pow2(64) as int);
    lemma_mod_multiples_basic(k as int, pow2(64) as int);
    assert(t / pow2(64) == k && t % pow2(64) == 0);
    assert(0 * (LN_2 as nat) == 0) by (nonlinear_arith);
    lemma_basic_div(0, pow2(64) as int);
    assert(series(0, 1) == pow2(64)) by {
        assert(0 * series(0, 2) == 0) by (nonlinear_arith);
        lemma_basic_div(0, 0x1_0000_0000_0000_0000);
    }
    // The power of two with this exponent, in units.
    let e = (1074 - k) as nat;
    let exact = if e >= 52 {
        Double { bits: ((e - 51) * LEADING) as u64 }
    } else {
        Double { bits: pow2(e) as u64 }
    };
    assert(exact.units() == pow2(e)) by {
        if e >= 52 {
            lemma_power((e - 51) as u64);
        } else {
            if e < 52 {
                lemma_pow2_strictly_increases(e, 52);
            }
            lemma_pow2_pos(e);
            assert(exact.scale() == 0);
            assert(exact.mantissa() == pow2(e));
            assert(pow2(e) * pow2(0) == pow2(e)) by (nonlinear_arith)
                requires
                    pow2(0) == 1,
            ;
        }
    }
    lemma_pow2_adds(e, k);
    lemma_pow2_adds(64, k);
    let den = pow2(64 + k);
    lemma_pow2_pos(64 + k);
    assert(pow2(64) * p == pow2(e) * den) by (nonlinear_arith)
        requires
            p == pow2(e) * pow2(k),
            den == pow2(64) * pow2(k),
    ;
    lemma_itself(exact, den);
    assert(a.halved() == exact);
}

} // verus!
