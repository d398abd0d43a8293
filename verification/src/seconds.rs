//! Ages and thresholds in seconds, as IEEE 754 binary64 numbers held by their
//! bit patterns. Every such number but NaN is modelled by a whole number: its
//! value counted in the smallest positive binary64 number.
use vstd::arithmetic::power2::*;
use vstd::prelude::*;

verus! {

/// A number of seconds: sign in the top bit, then eleven bits of exponent, then
/// fifty-two bits of fraction.
#[derive(Debug, Clone, Copy)]
pub struct Seconds {
    pub bits: u64,
}

/// One second, counted in the smallest positive binary64 number.
pub open spec fn one_second() -> nat {
    pow2(1074)
}

/// The significant digits of a number whose bits but the sign are `pattern`.
pub open spec fn significand(pattern: nat) -> nat {
    if pattern / 0x10_0000_0000_0000 == 0 {
        pattern
    } else {
        0x10_0000_0000_0000 + pattern % 0x10_0000_0000_0000
    }
}

/// The power of two that the last significant digit is worth.
pub open spec fn scale(pattern: nat) -> nat {
    if pattern / 0x10_0000_0000_0000 == 0 {
        0
    } else {
        (pattern / 0x10_0000_0000_0000 - 1) as nat
    }
}

/// The absolute value of a number whose bits but the sign are `pattern`.
/// The pattern of infinity gets a value above that of every finite number.
pub open spec fn magnitude(pattern: nat) -> nat {
    significand(pattern) * pow2(scale(pattern))
}

impl Seconds {
    pub open spec fn pattern(self) -> nat {
        self.bits as nat % 0x8000_0000_0000_0000
    }

    pub open spec fn is_negative(self) -> bool {
        self.bits >= 0x8000_0000_0000_0000
    }

    pub open spec fn is_nan(self) -> bool {
        self.pattern() > 0x7FF0_0000_0000_0000
    }

    /// The value of anything but NaN.
    pub open spec fn value(self) -> int {
        if self.is_negative() {
            -magnitude(self.pattern())
        } else {
            magnitude(self.pattern()) as int
        }
    }

    /// The value with everything below zero, and NaN, taken as zero.
    pub open spec fn clamped(self) -> nat {
        if self.is_nan() || self.is_negative() {
            0
        } else {
            magnitude(self.pattern())
        }
    }

    /// The numbers that are at least `threshold`. NaN is never at least
    /// anything, and nothing is at least NaN.
    pub open spec fn reaches(self, threshold: Seconds) -> bool {
        !self.is_nan() && !threshold.is_nan() && self.value() >= threshold.value()
    }

    pub fn from_bits(bits: u64) -> (s: Seconds)
        ensures
            s.bits == bits,
    {
        Seconds { bits }
    }

    /// Is this `threshold` or more?
    pub fn at_least(self, threshold: Seconds) -> (b: bool)
        ensures
            b == self.reaches(threshold),
    {
        let a: u64 = self.bits % 0x8000_0000_0000_0000;
        let b: u64 = threshold.bits % 0x8000_0000_0000_0000;
        proof {
            lemma_magnitude_order(a as nat, b as nat);
            lemma_magnitude_order(0, a as nat);
            lemma_magnitude_order(0, b as nat);
            lemma_magnitude_zero();
        }
        if a > 0x7FF0_0000_0000_0000 || b > 0x7FF0_0000_0000_0000 {
            return false;
        }
        let below: bool = self.bits >= 0x8000_0000_0000_0000;
        let threshold_below: bool = threshold.bits >= 0x8000_0000_0000_0000;
        if below && threshold_below {
            a <= b
        } else if below {
            a == 0 && b == 0
        } else if threshold_below {
            true
        } else {
            a >= b
        }
    }
}

pub proof fn lemma_magnitude_zero()
    ensures
        magnitude(0) == 0,
{
    assert(0 * pow2(0) == 0);
}

/// Absolute values are ordered as their bit patterns are.
pub proof fn lemma_magnitude_order(a: nat, b: nat)
    ensures
        a < b <==> magnitude(a) < magnitude(b),
        a == b <==> magnitude(a) == magnitude(b),
{
    if a < b {
        lemma_magnitude_increases(a, b);
    } else if b < a {
        lemma_magnitude_increases(b, a);
    }
}

proof fn lemma_magnitude_increases(a: nat, b: nat)
    requires
        a < b,
    ensures
        magnitude(a) < magnitude(b),
{
    let p = pow2(scale(a));
    let q = pow2(scale(b));
    lemma_pow2_pos(scale(a));
    lemma_pow2_pos(scale(b));
    let s = significand(a);
    let t = significand(b);
    if scale(a) == scale(b) {
        assert(s * p < t * p) by (nonlinear_arith)
            requires
                s < t,
                p > 0,
        ;
    } else {
        assert(scale(a) < scale(b));
        lemma_pow2_unfold(scale(a) + 1);
        if scale(a) + 1 < scale(b) {
            lemma_pow2_strictly_increases(scale(a) + 1, scale(b));
        }
        assert(2 * p <= q);
        assert(s < 0x20_0000_0000_0000);
        assert(t >= 0x10_0000_0000_0000);
        assert(s * p < t * q) by (nonlinear_arith)
            requires
                s < 0x20_0000_0000_0000,
                t >= 0x10_0000_0000_0000,
                2 * p <= q,
                p > 0,
        ;
    }
}

/// Numbers are equal as numbers: the two zeros are, and NaN is equal to nothing.
impl PartialEq for Seconds {
    fn eq(&self, other: &Seconds) -> (b: bool) {
        self.at_least(*other) && other.at_least(*self)
    }
}

impl vstd::std_specs::cmp::PartialEqSpecImpl for Seconds {
    open spec fn obeys_eq_spec() -> bool {
        true
    }

    open spec fn eq_spec(&self, other: &Seconds) -> bool {
        !self.is_nan() && !other.is_nan() && self.value() == other.value()
    }
}

impl Default for Seconds {
    fn default() -> (s: Seconds)
        ensures
            s.bits == 0,
    {
        Seconds { bits: 0 }
    }
}

/// The order of the numbers, read off their bits. NaN is out of the order.
/// Numbers without a sign are ordered as their bits are, numbers with one the
/// other way round, and of two numbers of unlike sign only the zeros are equal.
pub proof fn order_read_off_the_bits(a: Seconds, b: Seconds)
    ensures
        a.bits % 0x8000_0000_0000_0000 > 0x7FF0_0000_0000_0000 ==> !a.reaches(b),
        b.bits % 0x8000_0000_0000_0000 > 0x7FF0_0000_0000_0000 ==> !a.reaches(b),
        a.bits <= 0x7FF0_0000_0000_0000 && b.bits <= 0x7FF0_0000_0000_0000 ==> (a.reaches(b)
            <==> a.bits >= b.bits),
        0x8000_0000_0000_0000 <= a.bits <= 0xFFF0_0000_0000_0000 && 0x8000_0000_0000_0000
            <= b.bits <= 0xFFF0_0000_0000_0000 ==> (a.reaches(b) <==> a.bits <= b.bits),
        a.bits <= 0x7FF0_0000_0000_0000 && 0x8000_0000_0000_0000 <= b.bits
            <= 0xFFF0_0000_0000_0000 ==> a.reaches(b),
        0x8000_0000_0000_0000 <= a.bits <= 0xFFF0_0000_0000_0000 && b.bits
            <= 0x7FF0_0000_0000_0000 ==> (a.reaches(b) <==> a.bits == 0x8000_0000_0000_0000
            && b.bits == 0),
{
    lemma_magnitude_order(a.pattern(), b.pattern());
    lemma_magnitude_order(0, a.pattern());
    lemma_magnitude_order(0, b.pattern());
    lemma_magnitude_zero();
}

/// Two numbers are equal when each is at least the other.
pub proof fn equal_numbers_reach_each_other(a: Seconds, b: Seconds)
    ensures
        vstd::std_specs::cmp::PartialEqSpec::eq_spec(&a, &b) <==> a.reaches(b) && b.reaches(a),
{
}

/// The value of a number read off its bits: the fraction, with the bit before it
/// where the exponent is not 0, times the power of two that the exponent gives,
/// with the sign of the top bit.
pub proof fn value_read_off_the_bits(secs: Seconds, exponent: nat, fraction: nat)
    requires
        exponent < 2048,
        fraction < 0x10_0000_0000_0000,
        secs.bits % 0x8000_0000_0000_0000 == exponent * 0x10_0000_0000_0000 + fraction,
    ensures
        exponent == 0 && secs.bits < 0x8000_0000_0000_0000 ==> secs.value() == fraction,
        exponent == 0 && secs.bits >= 0x8000_0000_0000_0000 ==> secs.value() == -fraction,
        exponent > 0 && secs.bits < 0x8000_0000_0000_0000 ==> secs.value() == (
        0x10_0000_0000_0000 + fraction) * pow2((exponent - 1) as nat),
        exponent > 0 && secs.bits >= 0x8000_0000_0000_0000 ==> secs.value() == -((
        0x10_0000_0000_0000 + fraction) * pow2((exponent - 1) as nat)),
        secs.is_nan() <==> exponent == 2047 && fraction > 0,
{
    vstd::arithmetic::div_mod::lemma_fundamental_div_mod_converse(
        secs.pattern() as int,
        0x10_0000_0000_0000,
        exponent as int,
        fraction as int,
    );
    lemma2_to64();
    if exponent == 0 {
        assert(fraction * pow2(0) == fraction);
    }
}

/// A whole number of seconds has that many times the value of one second.
/// (`n` lies between `pow2(k)` and twice that.)
pub proof fn whole_seconds_have_their_value(secs: Seconds, n: nat, k: nat)
    requires
        k <= 52,
        pow2(k) <= n < 2 * pow2(k),
        secs.bits == (1023 + k) * 0x10_0000_0000_0000 + (n - pow2(k)) * pow2((52 - k) as nat),
    ensures
        !secs.is_nan(),
        secs.value() == n * one_second(),
        secs.clamped() == n * one_second(),
{
    let p = pow2(k);
    let q = pow2((52 - k) as nat);
    lemma2_to64();
    lemma_pow2_pos(k);
    lemma_pow2_pos((52 - k) as nat);
    lemma_pow2_adds(k, (52 - k) as nat);
    lemma2_to64_rest();
    let fraction = (n - p) * q;
    assert(p * q == 0x10_0000_0000_0000);
    assert(0 <= fraction < 0x10_0000_0000_0000) by (nonlinear_arith)
        requires
            fraction == (n - p) * q,
            p <= n < 2 * p,
            q > 0,
            p * q == 0x10_0000_0000_0000,
    ;
    assert(secs.bits < 0x7FF0_0000_0000_0000);
    value_read_off_the_bits(secs, 1023 + k, fraction as nat);
    assert(0x10_0000_0000_0000 + fraction == n * q) by (nonlinear_arith)
        requires
            fraction == (n - p) * q,
            p * q == 0x10_0000_0000_0000,
    ;
    lemma_pow2_adds((52 - k) as nat, (1022 + k) as nat);
    assert((n * q) * pow2((1022 + k) as nat) == n * (q * pow2((1022 + k) as nat)))
        by (nonlinear_arith);
}

/// Clamping keeps what is not below zero, and takes the rest, and NaN, for zero.
pub proof fn clamping_keeps_what_is_not_below_zero(secs: Seconds)
    ensures
        secs.bits <= 0x7FF0_0000_0000_0000 ==> secs.clamped() == secs.value(),
        secs.bits > 0x7FF0_0000_0000_0000 ==> secs.clamped() == 0,
{
}

} // verus!
