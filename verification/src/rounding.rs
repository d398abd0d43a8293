//! Rounding quotients of whole numbers the way IEEE 754 binary64 arithmetic
//! rounds: to 53 significant bits, to nearest, ties to even.
use vstd::arithmetic::div_mod::*;
use vstd::arithmetic::mul::*;
use vstd::arithmetic::power2::*;
use vstd::prelude::*;

verus! {

/// `n / d` rounded to the nearest whole number, ties to the even one.
pub open spec fn half_even(n: nat, d: nat) -> nat
    recommends
        d > 0,
{
    let q = n / d;
    let r = n % d;
    if 2 * r < d || (2 * r == d && q % 2 == 0) {
        q
    } else {
        q + 1
    }
}

/// `n / d` rounded to 53 significant bits, or to a whole number where that is
/// coarser. With `n / d` counted in units of the smallest positive binary64
/// value this is the binary64 value nearest to it, ties to even, wherever no
/// overflow occurs.
pub open spec fn nearest(n: nat, d: nat) -> nat
    recommends
        d > 0,
    decreases n - d,
{
    if d == 0 || n < d * 0x20_0000_0000_0000 {
        half_even(n, d)
    } else {
        2 * nearest(n, 2 * d)
    }
}

proof fn lemma_half_even_bounds(n: nat, d: nat)
    requires
        d > 0,
    ensures
        n / d <= half_even(n, d),
        2 * (half_even(n, d) * d) <= 2 * n + d,
{
    let q = (n / d) as int;
    lemma_fundamental_div_mod(n as int, d as int);
    assert((q + 1) * d == q * d + d) by (nonlinear_arith);
    assert(q * d == d * q) by (nonlinear_arith);
}

/// Scaling numerator and denominator alike changes nothing.
pub proof fn lemma_half_even_scaled(n: nat, d: nat, c: nat)
    requires
        d > 0,
        c > 0,
    ensures
        c * d > 0,
        half_even(c * n, c * d) == half_even(n, d),
{
    lemma_mul_strictly_positive(c as int, d as int);
    lemma_div_denominator((c * n) as int, c as int, d as int);
    lemma_div_multiples_vanish(n as int, c as int);
    lemma_truncate_middle(n as int, c as int, d as int);
    let r = (n % d) as int;
    assert((c * n) / (c * d) == n / d);
    assert((c * n) % (c * d) == c * r);
    assert(2 * (c * r) < c * d <==> 2 * r < d) by (nonlinear_arith)
        requires
            c > 0,
    ;
    assert(2 * (c * r) == c * d <==> 2 * r == d) by (nonlinear_arith)
        requires
            c > 0,
    ;
}

/// Only the quotient counts, not what it is a quotient of.
pub proof fn lemma_nearest_scaled(n: nat, d: nat, c: nat)
    requires
        d > 0,
        c > 0,
    ensures
        nearest(c * n, c * d) == nearest(n, d),
    decreases n - d,
{
    lemma_mul_strictly_positive(c as int, d as int);
    assert(c * n < (c * d) * 0x20_0000_0000_0000 <==> n < d * 0x20_0000_0000_0000)
        by (nonlinear_arith)
        requires
            c > 0,
    ;
    if n < d * 0x20_0000_0000_0000 {
        lemma_half_even_scaled(n, d, c);
    } else {
        lemma_nearest_scaled(n, 2 * d, c);
        assert(2 * (c * d) == c * (2 * d)) by (nonlinear_arith);
    }
}

/// A quotient with at least 53 significant bits keeps its rounding when it is
/// scaled up by a power of two.
pub proof fn lemma_nearest_shifted(n: nat, d: nat, j: nat)
    requires
        d > 0,
        n >= d * 0x10_0000_0000_0000,
    ensures
        nearest(n * pow2(j), d) == nearest(n, d) * pow2(j),
    decreases j,
{
    if j == 0 {
        lemma2_to64();
        assert(n * 1 == n);
        assert(nearest(n, d) * 1 == nearest(n, d));
    } else {
        let p = pow2((j - 1) as nat);
        lemma_pow2_unfold(j);
        assert(n * pow2(j) == (2 * n) * p) by (nonlinear_arith)
            requires
                pow2(j) == 2 * p,
        ;
        lemma_nearest_shifted(2 * n, d, (j - 1) as nat);
        lemma_nearest_scaled(n, d, 2);
        assert((2 * nearest(n, d)) * p == nearest(n, d) * pow2(j)) by (nonlinear_arith)
            requires
                pow2(j) == 2 * p,
        ;
    }
}

/// A whole number of at most 53 bits, times a power of two, is kept as it is.
pub proof fn lemma_nearest_exact(m: nat, j: nat)
    requires
        m < 0x20_0000_0000_0000,
    ensures
        nearest(m * pow2(j), 1) == m * pow2(j),
    decreases j,
{
    let n = m * pow2(j);
    if n < 0x20_0000_0000_0000 {
        assert(n / 1 == n && n % 1 == 0);
    } else {
        if j == 0 {
            lemma2_to64();
        }
        let half = m * pow2((j - 1) as nat);
        lemma_pow2_unfold(j);
        assert(n == 2 * half) by (nonlinear_arith)
            requires
                n == m * pow2(j),
                half == m * pow2((j - 1) as nat),
                pow2(j) == 2 * pow2((j - 1) as nat),
        ;
        lemma_nearest_exact(m, (j - 1) as nat);
        lemma_nearest_scaled(half, 1, 2);
    }
}

/// Rounding stays within a factor of two of the quotient.
pub proof fn lemma_nearest_within_double(n: nat, d: nat)
    requires
        d > 0,
    ensures
        nearest(n, d) * d <= 2 * n,
        n >= d ==> n <= 2 * (nearest(n, d) * d),
    decreases n - d,
{
    if n < d * 0x20_0000_0000_0000 {
        let q = n / d;
        let r = half_even(n, d);
        lemma_fundamental_div_mod(n as int, d as int);
        lemma_half_even_bounds(n, d);
        assert(q * d == d * q) by (nonlinear_arith);
        assert(q * d <= r * d) by (nonlinear_arith)
            requires
                q <= r,
        ;
        if n >= d {
            assert(q >= 1) by {
                lemma_div_is_ordered(d as int, n as int, d as int);
                lemma_div_by_self(d as int);
            }
            assert(q * d >= d) by (nonlinear_arith)
                requires
                    q >= 1,
            ;
        } else {
            lemma_basic_div(n as int, d as int);
            lemma_small_mod(n, d);
            assert(0 * d == 0 && 1 * d == d);
        }
    } else {
        lemma_nearest_within_double(n, 2 * d);
        let h = nearest(n, 2 * d);
        assert((2 * h) * d == h * (2 * d)) by (nonlinear_arith);
    }
}

/// Rounding to a whole number is off by at most half, and by half only to an
/// even number.
pub proof fn half_even_is_nearest(n: nat, d: nat)
    requires
        d > 0,
    ensures
        2 * (half_even(n, d) * d - n) <= d,
        2 * (n - half_even(n, d) * d) <= d,
        2 * (half_even(n, d) * d - n) == d ==> half_even(n, d) % 2 == 0,
        2 * (n - half_even(n, d) * d) == d ==> half_even(n, d) % 2 == 0,
{
    let q = (n / d) as int;
    lemma_fundamental_div_mod(n as int, d as int);
    lemma_mod_bound(n as int, d as int);
    assert((q + 1) * d == q * d + d) by (nonlinear_arith);
    assert(q * d == d * q) by (nonlinear_arith);
}

/// A quotient of fewer than 54 bits is rounded to a whole number, off by at most
/// half, and by half only to an even number. With `lemma_nearest_shifted` and
/// `lemma_nearest_scaled` this fixes the rounding of every quotient.
pub proof fn nearest_is_nearest(n: nat, d: nat)
    requires
        d > 0,
        n < d * 0x20_0000_0000_0000,
    ensures
        2 * (nearest(n, d) * d - n) <= d,
        2 * (n - nearest(n, d) * d) <= d,
        2 * (nearest(n, d) * d - n) == d ==> nearest(n, d) % 2 == 0,
        2 * (n - nearest(n, d) * d) == d ==> nearest(n, d) % 2 == 0,
{
    half_even_is_nearest(n, d);
}

/// Rounding a quotient of 53 bits and more is off by at most one part in
/// `pow2(53)`.
pub proof fn nearest_is_close(n: nat, d: nat)
    requires
        d > 0,
        n >= d * 0x10_0000_0000_0000,
    ensures
        0x20_0000_0000_0000 * (nearest(n, d) * d - n) <= n,
        0x20_0000_0000_0000 * (n - nearest(n, d) * d) <= n,
    decreases n - d,
{
    if n < d * 0x20_0000_0000_0000 {
        half_even_is_nearest(n, d);
    } else {
        nearest_is_close(n, 2 * d);
        let h = nearest(n, 2 * d);
        assert((2 * h) * d == h * (2 * d)) by (nonlinear_arith);
    }
}

/// How far the recursion of `nearest` goes: the quotient is rounded to a whole
/// number of `pow2(k)`, and it has 53 bits counted in those, unless `k` is 0.
proof fn lemma_nearest_step(n: nat, d: nat) -> (k: nat)
    requires
        d > 0,
    ensures
        nearest(n, d) == half_even(n, d * pow2(k)) * pow2(k),
        n < (d * pow2(k)) * 0x20_0000_0000_0000,
        k > 0 ==> n >= (d * pow2(k)) * 0x10_0000_0000_0000,
    decreases n - d,
{
    lemma2_to64();
    if n < d * 0x20_0000_0000_0000 {
        assert(d * 1 == d);
        assert(half_even(n, d) * 1 == half_even(n, d));
        0
    } else {
        let k = lemma_nearest_step(n, 2 * d);
        lemma_pow2_unfold(k + 1);
        let p = pow2(k);
        assert(2 * p == pow2(k + 1));
        assert((2 * d) * p == d * (2 * p)) by (nonlinear_arith);
        let h = half_even(n, d * pow2(k + 1));
        assert(2 * (h * p) == h * (2 * p)) by (nonlinear_arith);
        if k == 0 {
            assert((2 * d) * 1 == 2 * d);
        }
        k + 1
    }
}

/// Rounding a quotient never carries it over to the next whole number, where
/// the divisor is a whole multiple of what the last bit of the dividend is worth
/// (`m` of 53 bits, the last one worth `pow2(j)`; a one is worth `pow2(o)`).
pub proof fn lemma_nearest_keeps_floor(m: nat, j: nat, o: nat, d: nat, c: nat)
    requires
        m < 0x20_0000_0000_0000,
        o >= 54,
        d > 0,
        d * pow2(o) == c * pow2(j),
    ensures
        d * pow2(o) > 0,
        nearest(m * pow2(j), d) / pow2(o) == (m * pow2(j)) / (d * pow2(o)),
{
    let u = m * pow2(j);
    let p = pow2(j);
    let one = pow2(o);
    lemma_pow2_pos(j);
    lemma_pow2_pos(o);
    lemma_mul_strictly_positive(d as int, one as int);
    assert(c >= 1) by (nonlinear_arith)
        requires
            c * p > 0,
            p > 0,
    ;
    let k = lemma_nearest_step(u, d);
    let s = pow2(k);
    lemma_pow2_pos(k);
    let dd = d * s;
    lemma_mul_strictly_positive(d as int, s as int);
    let he = half_even(u, dd);
    lemma_half_even_bounds(u, dd);
    // The rounding step divides one.
    assert(u < 0x20_0000_0000_0000 * p) by (nonlinear_arith)
        requires
            u == m * p,
            m < 0x20_0000_0000_0000,
            p > 0,
    ;
    assert(p <= d * one) by (nonlinear_arith)
        requires
            d * one == c * p,
            c >= 1,
            p > 0,
    ;
    assert(k <= o) by {
        if k > o {
            lemma_pow2_unfold(o + 1);
            if k > o + 1 {
                lemma_pow2_strictly_increases(o + 1, k);
            }
            assert(dd >= 2 * (d * one)) by (nonlinear_arith)
                requires
                    dd == d * s,
                    s >= 2 * one,
            ;
        }
    }
    lemma_pow2_adds(k, (o - k) as nat);
    let w = pow2((o - k) as nat);
    lemma_pow2_pos((o - k) as nat);
    assert(one == s * w);
    assert(d * one == dd * w) by (nonlinear_arith)
        requires
            one == s * w,
            dd == d * s,
    ;
    let k1 = u / (d * one);
    lemma_fundamental_div_mod(u as int, (d * one) as int);
    lemma_mod_bound(u as int, (d * one) as int);
    let top = (k1 + 1) * (d * one);
    assert(top == (d * one) * k1 + d * one) by (nonlinear_arith)
        requires
            top == (k1 + 1) * (d * one),
    ;
    assert(u < top);
    // At least k1.
    assert(k1 * w <= he) by {
        assert((k1 * w) * dd == (d * one) * k1) by (nonlinear_arith)
            requires
                d * one == dd * w,
        ;
        lemma_div_is_ordered(((k1 * w) * dd) as int, u as int, dd as int);
        lemma_div_by_multiple((k1 * w) as int, dd as int);
    }
    // Less than k1 + 1.
    assert(he < (k1 + 1) * w) by {
        if he >= (k1 + 1) * w {
            assert(top <= he * dd) by (nonlinear_arith)
                requires
                    he >= (k1 + 1) * w,
                    top == (k1 + 1) * (d * one),
                    d * one == dd * w,
            ;
            assert(2 * (top - u) <= dd);
            if k == 0 {
                lemma2_to64();
                lemma2_to64_rest();
                assert(dd == d);
                if o > 54 {
                    lemma_pow2_strictly_increases(54, o);
                }
                assert(d * one >= d * 0x40_0000_0000_0000) by (nonlinear_arith)
                    requires
                        one >= 0x40_0000_0000_0000,
                ;
                assert(top >= d * one) by (nonlinear_arith)
                    requires
                        top == (k1 + 1) * (d * one),
                        d * one > 0,
                        k1 >= 0,
                ;
            } else {
                let a = (k1 + 1) * c - m;
                assert(top - u == p * a) by (nonlinear_arith)
                    requires
                        top == (k1 + 1) * (d * one),
                        d * one == c * p,
                        u == m * p,
                        a == (k1 + 1) * c - m,
                ;
                assert(a >= 1) by (nonlinear_arith)
                    requires
                        p * a > 0,
                        p > 0,
                ;
                assert(p * a >= p) by (nonlinear_arith)
                    requires
                        a >= 1,
                        p > 0,
                ;
            }
        }
    }
    assert(nearest(u, d) == s * he) by (nonlinear_arith)
        requires
            nearest(u, d) == he * s,
    ;
    lemma_half_open_quotient(he, w, k1);
    lemma_div_denominator((s * he) as int, s as int, w as int);
    lemma_div_multiples_vanish(he as int, s as int);
}

proof fn lemma_half_open_quotient(x: nat, d: nat, q: nat)
    requires
        d > 0,
        q * d <= x < (q + 1) * d,
    ensures
        x / d == q,
{
    let r = x - q * d;
    assert(0 <= r < d) by (nonlinear_arith)
        requires
            r == x - q * d,
            q * d <= x < (q + 1) * d,
    ;
    lemma_fundamental_div_mod_converse(x as int, d as int, q as int, r);
}

/// Computes `half_even`.
pub fn round_half_even(n: u128, d: u128) -> (r: u128)
    requires
        d > 0,
        n < 0x8000_0000_0000_0000_0000_0000_0000_0000,
    ensures
        r == half_even(n as nat, d as nat),
{
    let q: u128 = n / d;
    let r: u128 = n % d;
    proof {
        lemma_div_nonincreasing(n as int, d as int);
    }
    if r < d - r || (r == d - r && q % 2 == 0) {
        q
    } else {
        q + 1
    }
}

/// Computes `nearest`.
pub fn round_quotient(n: u128, d: u128) -> (r: u128)
    requires
        d > 0,
        n < 0x4000_0000_0000_0000_0000_0000_0000_0000,
    ensures
        r == nearest(n as nat, d as nat),
    decreases n - d,
{
    if n / 0x20_0000_0000_0000 < d {
        round_half_even(n, d)
    } else {
        proof {
            lemma_nearest_within_double(n as nat, 2 * d as nat);
            let h = nearest(n as nat, 2 * d as nat);
            assert(2 * h <= h * (2 * d as nat)) by (nonlinear_arith)
                requires
                    d > 0,
            ;
        }
        2 * round_quotient(n, 2 * d)
    }
}

/// Computes a power of two.
pub fn power_of_two(k: u64) -> (p: u128)
    requires
        k <= 126,
    ensures
        p == pow2(k as nat),
        p > 0,
        p <= 0x4000_0000_0000_0000_0000_0000_0000_0000,
    decreases k,
{
    proof {
        lemma2_to64();
        lemma2_to64_rest();
        lemma_pow2_pos(k as nat);
        lemma_pow2_adds(63, 63);
        if k < 126 {
            lemma_pow2_strictly_increases(k as nat, 126);
        }
    }
    if k == 0 {
        1
    } else {
        proof {
            lemma_pow2_unfold(k as nat);
        }
        2 * power_of_two(k - 1)
    }
}

} // verus!
