//! Splitting a number of seconds into the two units that a reader wants to see.
//!
//! The split is carried out in binary64 arithmetic, so `reading` says for each
//! step which number the step rounds to. `tenths_are_nearest`, `split_minutes`
//! and `split_hours` say what comes of it for every duration below `pow2(57)`
//! seconds: the nearest tenth, and the plain division into hours, minutes and
//! seconds.
use crate::rounding::{
    half_even, lemma_half_even_scaled, lemma_nearest_exact, lemma_nearest_keeps_floor,
    lemma_nearest_shifted, lemma_nearest_within_double, nearest, nearest_is_close, power_of_two,
    round_half_even, round_quotient,
};
use crate::seconds::{
    lemma_magnitude_order, magnitude, one_second, scale, significand, Seconds,
};
use vstd::arithmetic::div_mod::*;
use vstd::arithmetic::mul::*;
use vstd::arithmetic::power2::*;
use vstd::prelude::*;

verus! {

/// What is shown of a duration.
#[derive(Debug, Clone, Copy, PartialEq, Eq, Structural)]
pub enum Reading {
    /// Below a minute: tenths of a second.
    Tenths { tenths: u64 },
    /// Below an hour.
    Minutes { minutes: u64, seconds: u64 },
    /// An hour and more.
    Hours { hours: u64, minutes: u64 },
}

/// The whole part of `u`, cut off at the largest 64-bit number.
pub open spec fn truncated(u: nat) -> nat {
    if u / one_second() > u64::MAX {
        u64::MAX as nat
    } else {
        u / one_second()
    }
}

/// How many times `per` seconds go into `u`: the rounded quotient, truncated.
pub open spec fn times(u: nat, per: nat) -> nat {
    truncated(nearest(u, per))
}

/// What is left of `u` after `count` times `per` seconds; nothing where the
/// rounded product is more than `u`.
pub open spec fn left_over(u: nat, count: nat, per: nat) -> nat {
    let taken = nearest(nearest(count * one_second(), 1) * per, 1);
    if u < taken {
        0
    } else {
        nearest((u - taken) as nat, 1)
    }
}

/// What is shown of a duration of `u`.
pub open spec fn reading(u: nat) -> Reading {
    if u < 60 * one_second() {
        Reading::Tenths { tenths: half_even(10 * u, one_second()) as u64 }
    } else if u < 3600 * one_second() {
        let minutes = times(u, 60);
        Reading::Minutes {
            minutes: minutes as u64,
            seconds: truncated(left_over(u, minutes, 60)) as u64,
        }
    } else {
        let hours = times(u, 3600);
        Reading::Hours {
            hours: hours as u64,
            minutes: times(left_over(u, hours, 3600), 60) as u64,
        }
    }
}

proof fn lemma_nested_division(u: nat, a: nat, b: nat)
    requires
        a > 0,
        b > 0,
    ensures
        a * b > 0,
        (u % (a * b)) / a == (u / a) % b,
        u / (a * b) == (u / a) / b,
{
    lemma_mul_strictly_positive(a as int, b as int);
    lemma_div_denominator(u as int, a as int, b as int);
    let q = u / (a * b);
    let r = u % (a * b);
    lemma_fundamental_div_mod(u as int, (a * b) as int);
    lemma_mod_bound(u as int, (a * b) as int);
    assert((a * b) * q == (b * q) * a) by (nonlinear_arith);
    lemma_hoist_over_denominator(r as int, (b * q) as int, a);
    assert(u / a == r / a + b * q);
    lemma_div_denominator(r as int, a as int, b as int);
    lemma_basic_div(r as int, (a * b) as int);
    assert((r / a) / b == 0);
    lemma_fundamental_div_mod((r / a) as int, b as int);
    lemma_mod_bound((r / a) as int, b as int);
    assert(b * 0 == 0);
    assert(r / a < b);
    assert(b * q == q * b) by (nonlinear_arith);
    lemma_fundamental_div_mod_converse((u / a) as int, b as int, q as int, (r / a) as int);
}

/// Taking whole multiples of `per` seconds out of a duration loses nothing to
/// rounding, where `per` seconds are a whole multiple of what the last bit of
/// the duration is worth.
proof fn lemma_left_over_exact(m: nat, j: nat, per: nat, c: nat)
    requires
        m < 0x20_0000_0000_0000,
        0 < per,
        per * one_second() == c * pow2(j),
    ensures
        per * one_second() > 0,
        ({
            let u = m * pow2(j);
            let rest = u % (per * one_second());
            &&& left_over(u, u / (per * one_second()), per) == rest
            &&& exists|n: nat| n < 0x20_0000_0000_0000 && rest == #[trigger] (n * pow2(j))
        }),
{
    let u = m * pow2(j);
    let one = one_second();
    let p = pow2(j);
    lemma_pow2_pos(j);
    lemma_pow2_pos(1074);
    lemma_mul_strictly_positive(per as int, one as int);
    let q = u / (per * one);
    let rest = u % (per * one);
    lemma_fundamental_div_mod(u as int, (per * one) as int);
    lemma_mod_bound(u as int, (per * one) as int);
    assert((per * one) * q == (q * c) * p) by (nonlinear_arith)
        requires
            per * one == c * p,
    ;
    assert(q * c <= m) by (nonlinear_arith)
        requires
            (q * c) * p <= m * p,
            p > 0,
    ;
    assert(q <= q * c) by (nonlinear_arith)
        requires
            c * p > 0,
            p > 0,
            q >= 0,
    ;
    lemma_nearest_exact(q, 1074);
    lemma_nearest_exact(q * c, j);
    assert((q * one) * per == (q * c) * p) by (nonlinear_arith)
        requires
            per * one == c * p,
    ;
    let n = (m - q * c) as nat;
    assert(rest == n * p) by (nonlinear_arith)
        requires
            rest == m * p - (q * c) * p,
            n == m - q * c,
    ;
    lemma_nearest_exact(n, j);
    assert(rest == n * pow2(j));
}

proof fn lemma_split_minutes(m: nat, j: nat)
    requires
        m < 0x20_0000_0000_0000,
        j <= 1074,
        60 * one_second() <= m * pow2(j) < 3600 * one_second(),
    ensures
        reading(m * pow2(j)) == (Reading::Minutes {
            minutes: (m * pow2(j) / one_second() / 60) as u64,
            seconds: (m * pow2(j) / one_second() % 60) as u64,
        }),
{
    let u = m * pow2(j);
    let one = one_second();
    lemma_pow2_pos(1074);
    lemma_pow2_adds(j, (1074 - j) as nat);
    let c = pow2((1074 - j) as nat);
    assert(60 * one == (60 * c) * pow2(j)) by (nonlinear_arith)
        requires
            one == pow2(j) * c,
    ;
    lemma_nearest_keeps_floor(m, j, 1074, 60, 60 * c);
    lemma_left_over_exact(m, j, 60, 60 * c);
    lemma_nested_division(u, one, 60);
    assert(one * 60 == 60 * one);
    lemma_div_is_ordered(u as int, (3600 * one) as int, one as int);
    lemma_div_by_multiple(3600, one as int);
}

proof fn lemma_split_hours(m: nat, j: nat)
    requires
        m < 0x20_0000_0000_0000,
        j <= 1078,
        3600 * one_second() <= m * pow2(j) < 0x200_0000_0000_0000 * one_second(),
    ensures
        reading(m * pow2(j)) == (Reading::Hours {
            hours: (m * pow2(j) / one_second() / 3600) as u64,
            minutes: (m * pow2(j) / one_second() / 60 % 60) as u64,
        }),
{
    let u = m * pow2(j);
    let one = one_second();
    lemma_pow2_pos(1074);
    lemma_pow2_pos(j);
    lemma2_to64();
    lemma_pow2_adds(4, 1074);
    lemma_pow2_adds(j, (1078 - j) as nat);
    let c = pow2((1078 - j) as nat);
    assert(3600 * one == (225 * c) * pow2(j)) by (nonlinear_arith)
        requires
            16 * one == pow2(j) * c,
    ;
    lemma_nearest_keeps_floor(m, j, 1074, 3600, 225 * c);
    lemma_left_over_exact(m, j, 3600, 225 * c);
    let rest = u % (3600 * one);
    lemma_mod_bound(u as int, (3600 * one) as int);
    let n = choose|n: nat| n < 0x20_0000_0000_0000 && rest == #[trigger] (n * pow2(j));
    assert(nearest(rest, 60) / one == rest / (60 * one)) by {
        if j <= 1074 {
            lemma_pow2_adds(j, (1074 - j) as nat);
            let b = pow2((1074 - j) as nat);
            assert(60 * one == (60 * b) * pow2(j)) by (nonlinear_arith)
                requires
                    one == pow2(j) * b,
            ;
            lemma_nearest_keeps_floor(n, j, 1074, 60, 60 * b);
        } else {
            lemma_pow2_adds((j - 1074) as nat, 1074);
            let b = pow2((j - 1074) as nat);
            assert(rest == (n * b) * one) by (nonlinear_arith)
                requires
                    rest == n * pow2(j),
                    pow2(j) == b * one,
            ;
            assert(n * b < 3600) by (nonlinear_arith)
                requires
                    (n * b) * one < 3600 * one,
                    one > 0,
            ;
            lemma_nearest_keeps_floor(n * b, 1074, 1074, 60, 60);
        }
    }
    lemma_nested_division(u, one, 60);
    lemma_nested_division(u, one, 3600);
    lemma_nested_division(u, 60 * one, 60);
    assert((60 * one) * 60 == 3600 * one);
    assert(one * 60 == 60 * one);
    assert(one * 3600 == 3600 * one);
    lemma_div_is_ordered(u as int, (0x200_0000_0000_0000 * one) as int, one as int);
    lemma_div_by_multiple(0x200_0000_0000_0000, one as int);
}

/// Rounding a whole number of seconds is rounding its count.
proof fn lemma_nearest_whole(n: nat)
    ensures
        nearest(n * one_second(), 1) == nearest(n, 1) * one_second(),
{
    if n < 0x20_0000_0000_0000 {
        lemma_nearest_exact(n, 1074);
        lemma_nearest_exact(n, 0);
        lemma2_to64();
        assert(n * 1 == n);
    } else {
        lemma_nearest_shifted(n, 1, 1074);
    }
}

/// The quotient of a whole number of seconds, in counts of `pow2(b)` to one.
proof fn lemma_times_whole(n: nat, d: nat, b: nat)
    requires
        d > 0,
        b <= 1074,
        n * pow2(b) >= d * 0x10_0000_0000_0000,
    ensures
        pow2(b) > 0,
        nearest(n * one_second(), d) / one_second() == nearest(n * pow2(b), d) / pow2(b),
{
    let rest = pow2((1074 - b) as nat);
    lemma_pow2_pos(b);
    lemma_pow2_pos((1074 - b) as nat);
    lemma_pow2_adds(b, (1074 - b) as nat);
    let q = nearest(n * pow2(b), d);
    assert(n * one_second() == (n * pow2(b)) * rest) by (nonlinear_arith)
        requires
            one_second() == pow2(b) * rest,
    ;
    lemma_nearest_shifted(n * pow2(b), d, (1074 - b) as nat);
    assert(one_second() == rest * pow2(b)) by (nonlinear_arith)
        requires
            one_second() == pow2(b) * rest,
    ;
    lemma_div_denominator((q * rest) as int, rest as int, pow2(b) as int);
    lemma_div_by_multiple(q as int, rest as int);
}

/// Tenths of a second of a duration below a minute.
fn read_tenths(m: u64, j: u64) -> (tenths: u64)
    requires
        m < 0x20_0000_0000_0000,
        j <= 1074,
        m * pow2(j as nat) < 60 * one_second(),
    ensures
        tenths == half_even(10 * (m as nat * pow2(j as nat)), one_second()),
{
    let ghost u: nat = m as nat * pow2(j as nat);
    let ghost one: nat = one_second();
    proof {
        lemma_pow2_pos(1074);
        lemma_pow2_pos(j as nat);
        lemma_pow2_adds(j as nat, (1074 - j) as nat);
    }
    if j < 1010 {
        proof {
            lemma2_to64_rest();
            lemma_pow2_strictly_increases(64, (1074 - j) as nat);
            let p = pow2(j as nat);
            let c = pow2((1074 - j) as nat);
            assert(2 * (10 * (m * p)) < one) by (nonlinear_arith)
                requires
                    one == p * c,
                    p > 0,
                    m < 0x20_0000_0000_0000,
                    c > 0x1_0000_0000_0000_0000,
            ;
            lemma_basic_div((10 * u) as int, one as int);
            lemma_small_mod(10 * u, one);
        }
        return 0;
    }
    let unit: u128 = power_of_two(1074 - j);
    let tenths: u128 = round_half_even(10 * (m as u128), unit);
    proof {
        let p = pow2(j as nat);
        lemma_half_even_scaled((10 * m) as nat, unit as nat, p);
        assert(p * (10 * m as nat) == 10 * (m as nat * p)) by (nonlinear_arith);
        assert(tenths <= 10 * m + 1) by {
            lemma_div_nonincreasing(10 * m as int, unit as int);
        }
    }
    tenths as u64
}

/// Whole seconds of a duration.
fn whole_seconds(m: u64, j: u64) -> (total: u64)
    requires
        m < 0x20_0000_0000_0000,
        1000 <= j <= 1074,
    ensures
        one_second() > 0,
        total == m as nat * pow2(j as nat) / one_second(),
        total <= m,
{
    let unit: u128 = power_of_two(1074 - j);
    let total: u128 = (m as u128) / unit;
    proof {
        let p = pow2(j as nat);
        lemma_pow2_pos(1074);
        lemma_pow2_pos(j as nat);
        lemma_pow2_adds(j as nat, (1074 - j) as nat);
        lemma_div_denominator((m as nat * p) as int, p as int, unit as int);
        lemma_div_by_multiple(m as int, p as int);
        lemma_div_nonincreasing(m as int, unit as int);
    }
    total as u64
}

/// A count of at most `pow2(64) - 1`.
fn saturate(n: u128) -> (r: u64)
    ensures
        r == if n > u64::MAX { u64::MAX as u128 } else { n },
{
    if n > u64::MAX as u128 {
        u64::MAX
    } else {
        n as u64
    }
}

/// The reading of a whole number of seconds, from `pow2(53)` to `pow2(77)`.
fn read_whole(n: u128) -> (r: Reading)
    requires
        0x20_0000_0000_0000 <= n < 0x2000_0000_0000_0000_0000,
    ensures
        r == reading(n as nat * one_second()),
{
    let ghost one: nat = one_second();
    proof {
        lemma_pow2_pos(1074);
        lemma2_to64();
        lemma_times_whole(n as nat, 3600, 12);
        assert(n * one >= 3600 * one) by (nonlinear_arith)
            requires
                n >= 3600,
                one > 0,
        ;
    }
    let hours: u64 = saturate(round_quotient(n * 4096, 3600) / 4096);
    proof {
        lemma_nearest_within_double(hours as nat, 1);
        lemma_nearest_whole(hours as nat);
    }
    let hours_rounded: u128 = round_quotient(hours as u128, 1);
    proof {
        lemma_nearest_whole((hours_rounded * 3600) as nat);
        assert((hours_rounded as nat * one) * 3600 == (hours_rounded as nat * 3600) * one)
            by (nonlinear_arith);
    }
    let taken: u128 = round_quotient(hours_rounded * 3600, 1);
    proof {
        assert(n < taken <==> n as nat * one < taken as nat * one) by (nonlinear_arith)
            requires
                one > 0,
        ;
    }
    let rest: u128 = if n < taken {
        0
    } else {
        proof {
            lemma_nearest_whole((n - taken) as nat);
            assert(n as nat * one - taken as nat * one == (n - taken) as nat * one)
                by (nonlinear_arith)
                requires
                    n >= taken,
            ;
            lemma_nearest_within_double((n - taken) as nat, 1);
        }
        round_quotient(n - taken, 1)
    };
    assert(0 * one == 0);
    assert(left_over(n as nat * one, hours as nat, 3600) == rest as nat * one);
    let minutes: u64 = if rest < 0x20_0000_0000_0000 {
        proof {
            lemma_nearest_keeps_floor(rest as nat, 1074, 1074, 60, 60);
            lemma_mul_is_commutative(60, one as int);
            lemma_div_denominator((rest as nat * one) as int, one as int, 60);
            lemma_div_by_multiple(rest as int, one as int);
        }
        saturate(rest / 60)
    } else {
        proof {
            lemma_times_whole(rest as nat, 60, 6);
        }
        saturate(round_quotient(rest * 64, 60) / 64)
    };
    Reading::Hours { hours, minutes }
}

/// From `pow2(57)` seconds on, the hours shown are still within one hour, and one
/// part in `pow2(53)`, of the duration, up to the largest number there is; the
/// minutes shown come of what is left after them, each step rounded.
pub proof fn very_long_durations(u: nat)
    requires
        u >= 0x200_0000_0000_0000 * one_second(),
    ensures
        reading(u) matches Reading::Hours { hours, minutes } && {
            let one = one_second();
            let taken = nearest(nearest(hours as nat * one, 1) * 3600, 1);
            let shown = nearest(nearest((u - taken) as nat, 1), 60) / one;
            &&& 0x20_0000_0000_0000 * (3600 * (hours * one) - u) <= u
            &&& hours < u64::MAX ==> 0x20_0000_0000_0000 * (u - 3600 * ((hours + 1) * one)) <= u
            &&& u < taken ==> minutes == 0
            &&& u >= taken && shown <= u64::MAX ==> minutes == shown
            &&& u >= taken && shown > u64::MAX ==> minutes == u64::MAX
        },
{
    let one = one_second();
    lemma2_to64();
    lemma2_to64_rest();
    lemma_pow2_pos(1074);
    lemma_pow2_strictly_increases(64, 1074);
    nearest_is_close(u, 3600);
    let q = nearest(u, 3600);
    let whole = q / one;
    let hours = times(u, 3600);
    lemma_fundamental_div_mod(q as int, one as int);
    lemma_mod_bound(q as int, one as int);
    assert(hours * one <= q) by (nonlinear_arith)
        requires
            hours <= whole,
            one * whole <= q,
    ;
    if hours < u64::MAX {
        assert(q < (hours + 1) * one) by (nonlinear_arith)
            requires
                hours == whole,
                q < one * whole + one,
        ;
    }
    let taken = nearest(nearest(hours * one, 1) * 3600, 1);
    if u < taken {
        assert(nearest(0, 60) == 0);
        lemma_basic_div(0, one as int);
    }
}

/// From `pow2(77)` seconds on, up to infinity, both counts shown are the largest
/// there are.
pub proof fn endless_durations_show_the_largest_counts(u: nat)
    requires
        u >= 0x2000_0000_0000_0000_0000 * one_second(),
    ensures
        reading(u) == (Reading::Hours { hours: u64::MAX, minutes: u64::MAX }),
{
    lemma_reading_saturates(u);
}

/// Both counts are cut off from `pow2(77)` seconds on.
proof fn lemma_reading_saturates(u: nat)
    requires
        u >= 0x2000_0000_0000_0000_0000 * one_second(),
    ensures
        reading(u) == (Reading::Hours { hours: u64::MAX, minutes: u64::MAX }),
{
    let one = one_second();
    lemma_pow2_pos(1074);
    lemma_nearest_within_double(u, 3600);
    let q = nearest(u, 3600);
    assert(q >= 0x1_0000_0000_0000_0000 * one);
    lemma_div_is_ordered((0x1_0000_0000_0000_0000 * one) as int, q as int, one as int);
    lemma_div_by_multiple(0x1_0000_0000_0000_0000, one as int);
    assert(times(u, 3600) == u64::MAX);
    lemma_nearest_whole(u64::MAX as nat);
    assert(nearest(u64::MAX as nat, 1) == 0x1_0000_0000_0000_0000) by {
        reveal_with_fuel(nearest, 13);
    }
    let big: nat = 0x1_0000_0000_0000_0000 * 3600;
    lemma_nearest_whole(big);
    assert(nearest(big, 1) == big) by {
        lemma2_to64_rest();
        lemma_nearest_exact(3600, 64);
    }
    assert((0x1_0000_0000_0000_0000 * one) * 3600 == big * one) by (nonlinear_arith)
        requires
            big == 0x1_0000_0000_0000_0000 * 3600,
    ;
    let rest = (u - big * one) as nat;
    lemma_nearest_within_double(rest, 1);
    let kept = nearest(rest, 1);
    lemma_nearest_within_double(kept, 60);
    let t = nearest(kept, 60);
    assert(t >= 0x1_0000_0000_0000_0000 * one);
    lemma_div_is_ordered((0x1_0000_0000_0000_0000 * one) as int, t as int, one as int);
}

/// The bit patterns of the durations at which the reading changes its form.
proof fn lemma_bounds()
    ensures
        magnitude(0x404E_0000_0000_0000) == 60 * one_second(),
        magnitude(0x40AC_2000_0000_0000) == 3600 * one_second(),
        magnitude(0x4340_0000_0000_0000) == 0x20_0000_0000_0000 * one_second(),
        magnitude(0x4380_0000_0000_0000) == 0x200_0000_0000_0000 * one_second(),
        magnitude(0x44C0_0000_0000_0000) == 0x2000_0000_0000_0000_0000 * one_second(),
{
    lemma2_to64();
    lemma2_to64_rest();
    lemma_pow2_adds(47, 1027);
    assert(magnitude(0x404E_0000_0000_0000) == 0x1E_0000_0000_0000 * pow2(1027));
    lemma_pow2_adds(41, 1033);
    assert(magnitude(0x40AC_2000_0000_0000) == 0x1C_2000_0000_0000 * pow2(1033));
    lemma_pow2_adds(1, 1074);
    assert(magnitude(0x4340_0000_0000_0000) == 0x10_0000_0000_0000 * pow2(1075));
    lemma_pow2_adds(5, 1074);
    assert(magnitude(0x4380_0000_0000_0000) == 0x10_0000_0000_0000 * pow2(1079));
    lemma_pow2_adds(25, 1074);
    assert(magnitude(0x44C0_0000_0000_0000) == 0x10_0000_0000_0000 * pow2(1099));
}

/// Below a minute, a duration reads as the tenths of a second that are nearest
/// to it: at most half a tenth away.
pub proof fn tenths_are_nearest(u: nat)
    requires
        u < 60 * one_second(),
    ensures
        reading(u) matches Reading::Tenths { tenths } && tenths <= 600 && {
            &&& 2 * (tenths * one_second() - 10 * u) <= one_second()
            &&& 2 * (10 * u - tenths * one_second()) <= one_second()
        },
{
    let one = one_second() as int;
    lemma_pow2_pos(1074);
    let q = (10 * u) as int / one;
    lemma_fundamental_div_mod((10 * u) as int, one);
    lemma_mod_bound((10 * u) as int, one);
    assert(q < 600) by (nonlinear_arith)
        requires
            one * q <= 10 * u,
            10 * u < 600 * one,
            one > 0,
    ;
    assert((q + 1) * one == one * q + one) by (nonlinear_arith);
    assert(q * one == one * q) by (nonlinear_arith);
}

/// From a minute up to an hour, a duration reads as its whole minutes and the
/// whole seconds beyond them.
pub proof fn split_minutes(secs: Seconds)
    requires
        60 * one_second() <= secs.clamped() < 3600 * one_second(),
    ensures
        reading(secs.clamped()) == (Reading::Minutes {
            minutes: (secs.clamped() / one_second() / 60) as u64,
            seconds: (secs.clamped() / one_second() % 60) as u64,
        }),
{
    let pattern = secs.pattern();
    lemma_pow2_pos(1074);
    lemma_bounds();
    lemma_magnitude_order(pattern, 0x40AC_2000_0000_0000);
    lemma_split_minutes(significand(pattern), scale(pattern));
}

/// From an hour up, a duration reads as its whole hours and the whole minutes
/// beyond them, as long as it is below `pow2(57)` seconds. From there on the
/// binary64 arithmetic loses some of the minutes.
pub proof fn split_hours(secs: Seconds)
    requires
        3600 * one_second() <= secs.clamped() < 0x200_0000_0000_0000 * one_second(),
    ensures
        reading(secs.clamped()) == (Reading::Hours {
            hours: (secs.clamped() / one_second() / 3600) as u64,
            minutes: (secs.clamped() / one_second() / 60 % 60) as u64,
        }),
{
    let pattern = secs.pattern();
    lemma_pow2_pos(1074);
    lemma_bounds();
    lemma_magnitude_order(pattern, 0x4380_0000_0000_0000);
    lemma_split_hours(significand(pattern), scale(pattern));
}

/// Computes the reading of a duration.
pub fn read(secs: Seconds) -> (r: Reading)
    ensures
        r == reading(secs.clamped()),
{
    proof {
        lemma_pow2_pos(1074);
        lemma_bounds();
    }
    if secs.bits > 0x7FF0_0000_0000_0000 {
        // Negative, or not a number.
        proof {
            lemma_basic_div(0, one_second() as int);
            lemma_small_mod(0, one_second());
        }
        return Reading::Tenths { tenths: 0 };
    }
    let ghost pattern: nat = secs.pattern();
    proof {
        lemma_magnitude_order(pattern, 0x404E_0000_0000_0000);
        lemma_magnitude_order(pattern, 0x40AC_2000_0000_0000);
        lemma_magnitude_order(pattern, 0x4340_0000_0000_0000);
        lemma_magnitude_order(pattern, 0x44C0_0000_0000_0000);
    }
    if secs.bits >= 0x44C0_0000_0000_0000 {
        proof {
            lemma_reading_saturates(secs.clamped());
        }
        return Reading::Hours { hours: u64::MAX, minutes: u64::MAX };
    }
    let exponent: u64 = secs.bits / 0x10_0000_0000_0000;
    let m: u64 = if exponent == 0 {
        secs.bits
    } else {
        0x10_0000_0000_0000 + secs.bits % 0x10_0000_0000_0000
    };
    let j: u64 = if exponent == 0 {
        0
    } else {
        exponent - 1
    };
    if secs.bits < 0x404E_0000_0000_0000 {
        Reading::Tenths { tenths: read_tenths(m, j) }
    } else if secs.bits < 0x40AC_2000_0000_0000 {
        let total: u64 = whole_seconds(m, j);
        proof {
            split_minutes(secs);
        }
        Reading::Minutes { minutes: total / 60, seconds: total % 60 }
    } else if secs.bits < 0x4340_0000_0000_0000 {
        let total: u64 = whole_seconds(m, j);
        proof {
            split_hours(secs);
        }
        Reading::Hours { hours: total / 3600, minutes: total / 60 % 60 }
    } else {
        let step: u128 = power_of_two(j - 1074);
        proof {
            lemma2_to64();
            lemma_pow2_adds((j - 1074) as nat, 1074);
            if j < 1098 {
                lemma_pow2_strictly_increases((j - 1074) as nat, 24);
            }
            assert(m * step < 0x2000_0000_0000_0000_0000) by (nonlinear_arith)
                requires
                    m < 0x20_0000_0000_0000,
                    step <= 0x100_0000,
            ;
            assert(m * step >= 0x20_0000_0000_0000) by (nonlinear_arith)
                requires
                    m >= 0x10_0000_0000_0000,
                    step >= 2,
            ;
            assert((m as nat * step as nat) * one_second() == m as nat * (step as nat
                * one_second())) by (nonlinear_arith);
        }
        read_whole(m as u128 * step)
    }
}

} // verus!
