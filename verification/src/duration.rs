//! Spans of time in nanoseconds.
use crate::binary64::{
    self, Binary64, EXPONENT_WEIGHT, INFINITY_BITS, ONE_BITS, SIGN_WEIGHT, TWO_64_BITS,
};
use vstd::arithmetic::div_mod::*;
use vstd::arithmetic::power2::*;
use vstd::prelude::*;

verus! {

/// Nanoseconds in a second.
pub const NANOS_PER_SEC: u128 = 1_000_000_000;

/// The longest span: `u64::MAX` seconds and 999,999,999 nanoseconds.
pub const MAX_NANOS: u128 = 18_446_744_073_709_551_615_999_999_999;

/// A span of time, from nothing to `MAX_NANOS`. Its view is its length in nanoseconds.
#[derive(Clone, Copy, Debug, PartialEq, Eq, Structural)]
pub struct Duration {
    nanos: u128,
}

impl View for Duration {
    type V = nat;

    closed spec fn view(&self) -> nat {
        self.nanos as nat
    }
}

/// The span as a binary64 number of seconds: the whole seconds and the fraction, each rounded,
/// then added.
pub open spec fn seconds_bits(nanos: nat) -> u64 {
    binary64::sum_bits(
        binary64::rounded(nanos / NANOS_PER_SEC as nat, 1),
        binary64::rounded(nanos % NANOS_PER_SEC as nat, NANOS_PER_SEC as nat),
    )
}

/// A span, told in seconds, is no more than 2^64, and so are its parts.
pub proof fn lemma_seconds_bounded(nanos: nat)
    requires
        nanos <= MAX_NANOS,
    ensures
        binary64::rounded(nanos / NANOS_PER_SEC as nat, 1) <= TWO_64_BITS,
        binary64::rounded(nanos % NANOS_PER_SEC as nat, NANOS_PER_SEC as nat) <= ONE_BITS,
        seconds_bits(nanos) <= TWO_64_BITS,
        binary64::units(seconds_bits(nanos)) <= pow2(64) * pow2(1074),
{
    let n = NANOS_PER_SEC as nat;
    let secs = nanos / n;
    let rest = nanos % n;
    let whole = binary64::rounded(secs, 1);
    let fraction = binary64::rounded(rest, n);
    let p = pow2(1074);
    binary64::lemma_rounded_nearest(secs, 1);
    binary64::lemma_rounded_nearest(rest, n);
    binary64::lemma_landmarks();
    lemma_pow2_pos(1074);
    assert(secs * p <= 1 * (pow2(64) * p)) by (nonlinear_arith)
        requires
            secs <= pow2(64),
    ;
    binary64::lemma_nearest_bounded(secs, 1, whole, TWO_64_BITS);
    assert(rest * p <= n * p) by (nonlinear_arith)
        requires
            rest <= n,
    ;
    binary64::lemma_nearest_bounded(rest, n, fraction, ONE_BITS);
    let exact = binary64::units(whole) + binary64::units(fraction);
    let middle = binary64::units(TWO_64_BITS) + binary64::units((TWO_64_BITS + 1) as u64);
    assert(2 * exact * p < p * middle) by (nonlinear_arith)
        requires
            exact <= pow2(64) * p + p,
            middle == pow2(64) * p + (pow2(64) + 4096) * p,
            p > 0,
    ;
    binary64::lemma_rounded_nearest(exact, p);
    binary64::lemma_nearest_at_most(exact, p, seconds_bits(nanos), TWO_64_BITS);
}

/// The span times a factor, as a binary64 number of seconds.
pub open spec fn scaled_bits(nanos: nat, factor: Binary64) -> u64 {
    binary64::product_bits(factor.bits, seconds_bits(nanos))
}

/// Whether a non-negative binary64 number of seconds is a span: it is less than 2^64.
pub open spec fn is_span(bits: u64) -> bool {
    binary64::units(bits) < pow2(64) * pow2(1074)
}

/// The length in nanoseconds of a binary64 number of seconds.
pub open spec fn span_of(bits: u64) -> nat {
    binary64::half_even(binary64::units(bits) * NANOS_PER_SEC as nat, pow2(1074))
}

/// A span of `nanos` times a factor: the rounded product, where it is a span.
pub open spec fn scaled_nanos(nanos: nat, factor: Binary64) -> Option<nat> {
    if factor.bits == SIGN_WEIGHT {
        Some(0)
    } else if factor.plain() && is_span(scaled_bits(nanos, factor)) {
        Some(span_of(scaled_bits(nanos, factor)))
    } else {
        None
    }
}

/// A span in seconds, as a binary64 number, is larger than the span by no more than three
/// roundings can make it.
pub proof fn lemma_seconds_error(nanos: nat, p: nat, k: nat, n: nat)
    requires
        p == pow2(1074),
        k == 0x20_0000_0000_0000,
        n == NANOS_PER_SEC,
    ensures
        n * binary64::units(seconds_bits(nanos)) * ((k - 1) * (k - 1)) <= (nanos * p + 2
            * n) * (k * k),
{
    let secs = nanos / n;
    let rest = nanos % n;
    let a = binary64::units(binary64::rounded(secs, 1));
    let c = binary64::units(binary64::rounded(rest, n));
    let s = binary64::units(seconds_bits(nanos));
    binary64::lemma_rounded_error(secs, 1);
    binary64::lemma_rounded_error(rest, n);
    lemma_pow2_pos(1074);
    binary64::lemma_rounded_error(a + c, p);
    let w = 0x10_0000_0000_0000nat;
    assert(a * (k - 1) <= secs * p * k + w);
    assert(n * c * (k - 1) <= rest * p * k + n * w);
    assert(s * (k - 1) <= (a + c) * k + w) by (nonlinear_arith)
        requires
            p * s * (k - 1) <= (a + c) * p * k + p * w,
            p > 0,
    {
        assert(p * (s * (k - 1)) <= p * ((a + c) * k + w));
    }
    lemma_fundamental_div_mod(nanos as int, n as int);
    assert(n * (a + c) * (k - 1) <= nanos * p * k + 2 * n * w) by (nonlinear_arith)
        requires
            a * (k - 1) <= secs * p * k + w,
            n * c * (k - 1) <= rest * p * k + n * w,
            nanos == n * secs + rest,
            n > 0,
    {
        assert(n * (a * (k - 1)) <= n * (secs * p * k + w));
        assert(n * (a + c) * (k - 1) == n * (a * (k - 1)) + n * c * (k - 1));
        assert(nanos * p * k == n * (secs * p * k) + rest * p * k);
    }
    assert(n * s * ((k - 1) * (k - 1)) <= (nanos * p + 2 * n) * (k * k)) by (nonlinear_arith)
        requires
            s * (k - 1) <= (a + c) * k + w,
            n * (a + c) * (k - 1) <= nanos * p * k + 2 * n * w,
            k == 2 * w,
            n > 0,
            w > 0,
    {
        assert(n * (k - 1) * (s * (k - 1)) <= n * (k - 1) * ((a + c) * k + w));
        assert(n * s * ((k - 1) * (k - 1)) == n * (k - 1) * (s * (k - 1)));
        assert(n * (k - 1) * ((a + c) * k + w) == n * (a + c) * (k - 1) * k + n * (k - 1) * w);
        assert(n * (a + c) * (k - 1) * k <= (nanos * p * k + 2 * n * w) * k);
        assert(n * (k - 1) * w <= n * k * w);
        assert((nanos * p * k + 2 * n * w) * k == nanos * p * (k * k) + n * (k * k));
        assert(n * k * w <= n * (k * k));
        assert((nanos * p + 2 * n) * (k * k) == nanos * p * (k * k) + 2 * n * (k * k));
    }
}

/// A span in seconds, as a binary64 number, is smaller than the span by no more than three
/// roundings can make it.
pub proof fn lemma_seconds_loss(nanos: nat, p: nat, k: nat, n: nat)
    requires
        p == pow2(1074),
        k == 0x20_0000_0000_0000,
        n == NANOS_PER_SEC,
        nanos <= MAX_NANOS,
    ensures
        nanos * p * ((k - 2) * (k - 2)) <= n * binary64::units(seconds_bits(nanos)) * ((k - 1) * (k
            - 1)) + 2 * n * (k * k),
{
    let secs = nanos / n;
    let rest = nanos % n;
    let a = binary64::units(binary64::rounded(secs, 1));
    let c = binary64::units(binary64::rounded(rest, n));
    let s = binary64::units(seconds_bits(nanos));
    lemma_seconds_bounded(nanos);
    binary64::lemma_rounded_loss(secs, 1);
    binary64::lemma_rounded_loss(rest, n);
    lemma_pow2_pos(1074);
    binary64::lemma_rounded_loss(a + c, p);
    let w = 0x10_0000_0000_0000nat;
    assert(secs * p * (k - 2) <= a * (k - 1) + w);
    assert(rest * p * (k - 2) <= n * c * (k - 1) + n * w);
    assert((a + c) * (k - 2) <= s * (k - 1) + w) by (nonlinear_arith)
        requires
            (a + c) * p * (k - 2) <= p * s * (k - 1) + p * w,
            p > 0,
    {
        assert(p * ((a + c) * (k - 2)) <= p * (s * (k - 1) + w));
    }
    lemma_fundamental_div_mod(nanos as int, n as int);
    assert(nanos * p * (k - 2) <= n * (a + c) * (k - 1) + 2 * n * w) by (nonlinear_arith)
        requires
            secs * p * (k - 2) <= a * (k - 1) + w,
            rest * p * (k - 2) <= n * c * (k - 1) + n * w,
            nanos == n * secs + rest,
            n > 0,
    {
        assert(n * (secs * p * (k - 2)) <= n * (a * (k - 1) + w));
        assert(nanos * p * (k - 2) == n * (secs * p * (k - 2)) + rest * p * (k - 2));
        assert(n * (a + c) * (k - 1) == n * (a * (k - 1)) + n * c * (k - 1));
    }
    let y = n * (a + c);
    assert(y * (k - 2) <= n * s * (k - 1) + n * w) by (nonlinear_arith)
        requires
            y == n * (a + c),
            (a + c) * (k - 2) <= s * (k - 1) + w,
    {
        assert(n * ((a + c) * (k - 2)) <= n * (s * (k - 1) + w));
    }
    let z = nanos * p;
    assert(z * ((k - 2) * (k - 2)) <= n * s * ((k - 1) * (k - 1)) + 2 * n * (k * k))
        by (nonlinear_arith)
        requires
            z * (k - 2) <= y * (k - 1) + 2 * n * w,
            y * (k - 2) <= n * s * (k - 1) + n * w,
            k == 2 * w,
            w > 2,
            n > 0,
    {
        assert(z * (k - 2) * (k - 2) <= (y * (k - 1) + 2 * n * w) * (k - 2));
        assert((y * (k - 1) + 2 * n * w) * (k - 2) == y * (k - 2) * (k - 1) + 2 * n * w * (k - 2));
        assert(y * (k - 2) * (k - 1) <= (n * s * (k - 1) + n * w) * (k - 1));
        assert((n * s * (k - 1) + n * w) * (k - 1) == n * s * ((k - 1) * (k - 1)) + n * w * (k
            - 1));
        assert(n * w * (k - 1) <= n * (k * k));
        assert(2 * n * w * (k - 2) <= n * (k * k));
    }
}

/// A span times a factor, as a binary64 number of seconds, differs from the product by no more than
/// four roundings can make it.
pub proof fn lemma_scaled_close(nanos: nat, factor: u64, p: nat, k: nat, n: nat)
    requires
        p == pow2(1074),
        k == 0x20_0000_0000_0000,
        n == NANOS_PER_SEC,
        nanos <= MAX_NANOS,
        binary64::units(factor) <= 0x1_0000_0000_0000_0000 * p,
    ensures
        ({
            let x = binary64::units(binary64::product_bits(factor, seconds_bits(nanos)));
            let f = binary64::units(factor);
            &&& f * nanos * ((k - 2) * (k - 2) * (k - 2)) <= n * x * ((k - 1) * (k - 1) * (k - 1))
                + p
            &&& n * x * ((k - 1) * (k - 1) * (k - 1)) <= f * nanos * (k * k * k) + p
        }),
{
    let f = binary64::units(factor);
    let s = binary64::units(seconds_bits(nanos));
    let bits = binary64::product_bits(factor, seconds_bits(nanos));
    let x = binary64::units(bits);
    let w = 0x10_0000_0000_0000nat;
    let g = 0x1_0000_0000_0000_0000nat;
    let pp = pow2(2148);
    lemma_pow2_pos(1074);
    lemma_pow2_pos(2148);
    lemma_pow2_adds(1074, 1074);
    assert(pp == p * p);
    lemma_seconds_bounded(nanos);
    binary64::lemma_landmarks();
    lemma_product_finite(f, s, bits);
    lemma_seconds_loss(nanos, p, k, n);
    lemma_seconds_error(nanos, p, k, n);
    binary64::lemma_rounded_loss(f * s, pp);
    binary64::lemma_rounded_error(f * s, pp);
    assert(f * s * (k - 2) <= p * (x * (k - 1) + w)) by (nonlinear_arith)
        requires
            f * s * p * (k - 2) <= p * p * x * (k - 1) + p * p * w,
            p > 0,
    {
        assert(p * (f * s * (k - 2)) <= p * (p * (x * (k - 1) + w)));
    }
    assert(p * (x * (k - 1)) <= f * s * k + p * w) by (nonlinear_arith)
        requires
            p * p * x * (k - 1) <= f * s * p * k + p * p * w,
            p > 0,
    {
        assert(p * (p * (x * (k - 1))) <= p * (f * s * k + p * w));
    }
    lemma_large(p);
    let j = (k - 1) * (k - 1);
    let m = (k - 2) * (k - 2);
    // Below the product by little.
    assert(f * nanos * (m * (k - 2)) <= n * x * (j * (k - 1)) + p) by {
        let c = 2 * n * (k * k);
        let fn_ = f * nanos;
        let fs = f * s;
        assert(p * (fn_ * m) <= n * fs * j + f * c) by (nonlinear_arith)
            requires
                nanos * p * m <= n * s * j + c,
                fn_ == f * nanos,
                fs == f * s,
        {
            assert(f * (nanos * p * m) <= f * (n * s * j + c));
        }
        assert(f * c <= p * (g * c)) by (nonlinear_arith)
            requires
                f <= g * p,
                c >= 0,
        ;
        let q = p * (x * (k - 1) + w);
        assert(p * (fn_ * m) * (k - 2) <= n * j * q + p * (g * c) * (k - 2)) by (nonlinear_arith)
            requires
                p * (fn_ * m) <= n * fs * j + f * c,
                f * c <= p * (g * c),
                fs * (k - 2) <= q,
                k > 2,
                n * j >= 0,
        {
            assert(p * (fn_ * m) * (k - 2) <= (n * fs * j + p * (g * c)) * (k - 2));
            assert((n * fs * j) * (k - 2) == n * j * (fs * (k - 2)));
            assert(n * j * (fs * (k - 2)) <= n * j * q);
        }
        let d = n * j * w + g * c * (k - 2);
        assert(fn_ * (m * (k - 2)) <= n * x * (j * (k - 1)) + d) by (nonlinear_arith)
            requires
                p * (fn_ * m) * (k - 2) <= n * j * q + p * (g * c) * (k - 2),
                q == p * (x * (k - 1) + w),
                d == n * j * w + g * c * (k - 2),
                p > 0,
        {
            assert(p * (fn_ * (m * (k - 2))) == p * (fn_ * m) * (k - 2));
            assert(n * j * q == p * (n * x * (j * (k - 1))) + p * (n * j * w));
            assert(p * (g * c) * (k - 2) == p * (g * c * (k - 2)));
            assert(p * (fn_ * (m * (k - 2))) <= p * (n * x * (j * (k - 1)) + d));
        }
        assert(d <= p) by (nonlinear_arith)
            requires
                d == n * j * w + g * c * (k - 2),
                c == 2 * n * (k * k),
                j == (k - 1) * (k - 1),
                n == 1_000_000_000,
                k == 0x20_0000_0000_0000,
                w == 0x10_0000_0000_0000,
                g == 0x1_0000_0000_0000_0000,
                p
                    >= 0x1_0000_0000_0000_0000_0000_0000_0000_0000_0000_0000_0000_0000_0000_0000_0000_0000nat,
        ;
    }
    // Above the product by little.
    assert(n * x * (j * (k - 1)) <= f * nanos * (k * k * k) + p) by {
        let kk = k * k;
        let fn_ = f * nanos;
        let fs = f * s;
        assert(n * fs * j <= p * (fn_ * kk) + f * (2 * n * kk)) by (nonlinear_arith)
            requires
                n * s * j <= (nanos * p + 2 * n) * kk,
                fn_ == f * nanos,
                fs == f * s,
        {
            assert(f * (n * s * j) <= f * ((nanos * p + 2 * n) * kk));
        }
        let c = 2 * n * kk;
        assert(f * c <= p * (g * c)) by (nonlinear_arith)
            requires
                f <= g * p,
                c >= 0,
        ;
        let d = g * c * k + n * j * w;
        assert(p * (n * x * (j * (k - 1))) <= p * (fn_ * (kk * k) + d)) by (nonlinear_arith)
            requires
                p * (x * (k - 1)) <= fs * k + p * w,
                n * fs * j <= p * (fn_ * kk) + f * c,
                f * c <= p * (g * c),
                d == g * c * k + n * j * w,
                n * j >= 0,
                k > 0,
        {
            assert(n * j * (p * (x * (k - 1))) <= n * j * (fs * k + p * w));
            assert(p * (n * x * (j * (k - 1))) == n * j * (p * (x * (k - 1))));
            assert(n * j * (fs * k + p * w) == n * fs * j * k + p * (n * j * w));
            assert(n * fs * j * k <= (p * (fn_ * kk) + p * (g * c)) * k);
            assert((p * (fn_ * kk) + p * (g * c)) * k == p * (fn_ * (kk * k)) + p * (g * c * k));
        }
        assert(n * x * (j * (k - 1)) <= fn_ * (kk * k) + d) by (nonlinear_arith)
            requires
                p * (n * x * (j * (k - 1))) <= p * (fn_ * (kk * k) + d),
                p > 0,
        ;
        assert(d <= p) by (nonlinear_arith)
            requires
                d == g * c * k + n * j * w,
                c == 2 * n * kk,
                kk == k * k,
                j == (k - 1) * (k - 1),
                n == 1_000_000_000,
                k == 0x20_0000_0000_0000,
                w == 0x10_0000_0000_0000,
                g == 0x1_0000_0000_0000_0000,
                p
                    >= 0x1_0000_0000_0000_0000_0000_0000_0000_0000_0000_0000_0000_0000_0000_0000_0000_0000nat,
        ;
    }
}

/// The scale of the smallest numbers is larger than what four roundings leave out.
pub proof fn lemma_large(p: nat)
    requires
        p == pow2(1074),
    ensures
        p >= 0x1_0000_0000_0000_0000_0000_0000_0000_0000_0000_0000_0000_0000_0000_0000_0000_0000nat,
{
    binary64::lemma_landmarks();
    lemma_pow2_adds(64, 64);
    lemma_pow2_adds(128, 128);
    lemma_pow2_adds(256, 818);
    lemma_pow2_pos(818);
    let q = pow2(256);
    let g = pow2(64);
    assert((g * g) * (g * g)
        == 0x1_0000_0000_0000_0000_0000_0000_0000_0000_0000_0000_0000_0000_0000_0000_0000_0000nat)
        by (nonlinear_arith)
        requires
            g == 0x1_0000_0000_0000_0000,
    ;
    let r = pow2(818);
    assert(q * r >= q) by (nonlinear_arith)
        requires
            r > 0,
    ;
}

/// A product of two numbers up to 2^64 is finite.
pub proof fn lemma_product_finite(f: nat, s: nat, bits: u64)
    requires
        f <= 0x1_0000_0000_0000_0000 * pow2(1074),
        s <= 0x1_0000_0000_0000_0000 * pow2(1074),
        bits == binary64::rounded(f * s, pow2(2148)),
    ensures
        bits < INFINITY_BITS,
{
    let p = pow2(1074);
    let pp = pow2(2148);
    let g = 0x1_0000_0000_0000_0000nat;
    lemma_pow2_pos(1074);
    lemma_pow2_pos(2148);
    lemma_pow2_adds(1074, 1074);
    lemma2_to64_rest();
    lemma_pow2_adds(64, 64);
    lemma_pow2_adds(52, 1150);
    lemma_pow2_adds(128, 1074);
    let top = 0x47f0_0000_0000_0000u64;
    assert(top / EXPONENT_WEIGHT == 1151 && top % EXPONENT_WEIGHT == 0);
    assert(binary64::units(top) == (g * g) * p);
    assert(f * s <= (g * p) * (g * p)) by (nonlinear_arith)
        requires
            f <= g * p,
            s <= g * p,
    ;
    assert(f * s * p <= pp * ((g * g) * p)) by (nonlinear_arith)
        requires
            f * s <= (g * p) * (g * p),
            pp == p * p,
    {
        assert((g * p) * (g * p) * p == pp * ((g * g) * p));
        assert(f * s * p <= (g * p) * (g * p) * p);
    }
    binary64::lemma_rounded_nearest(f * s, pp);
    binary64::lemma_nearest_bounded(f * s, pp, bits, top);
}

/// A quotient that is at most an integer is rounded to no more than that integer.
pub proof fn lemma_half_even_bounded(num: nat, den: nat, bound: nat)
    requires
        den > 0,
        num <= bound * den,
    ensures
        binary64::half_even(num, den) <= bound,
{
    lemma_fundamental_div_mod(num as int, den as int);
    let quotient = num / den;
    let remainder = num % den;
    assert(quotient <= bound) by (nonlinear_arith)
        requires
            den * quotient + remainder <= bound * den,
            den > 0,
    ;
    if quotient == bound {
        assert(den * quotient == bound * den) by (nonlinear_arith)
            requires
                quotient == bound,
        ;
    }
}

/// A rounded quotient differs from the quotient by less than one.
pub proof fn lemma_half_even_close(num: nat, den: nat)
    requires
        den > 0,
    ensures
        binary64::half_even(num, den) * den <= num + den,
        num <= binary64::half_even(num, den) * den + den,
{
    lemma_fundamental_div_mod(num as int, den as int);
    let q = num / den;
    assert(den * q == q * den) by (nonlinear_arith);
    assert((q + 1) * den == q * den + den) by (nonlinear_arith);
}

/// The longer of two spans.
pub open spec fn longer(a: nat, b: nat) -> nat {
    if a >= b {
        a
    } else {
        b
    }
}

/// The shorter of two spans.
pub open spec fn shorter(a: nat, b: nat) -> nat {
    if a <= b {
        a
    } else {
        b
    }
}

impl Duration {
    #[verifier::type_invariant]
    spec fn within_range(self) -> bool {
        self.nanos <= MAX_NANOS
    }

    /// No time at all.
    pub fn zero() -> (result: Duration)
        ensures
            result@ == 0,
    {
        Duration { nanos: 0 }
    }

    /// The longest span.
    pub fn longest() -> (result: Duration)
        ensures
            result@ == MAX_NANOS,
    {
        Duration { nanos: MAX_NANOS }
    }

    /// A span of `nanos` nanoseconds, where there is one.
    pub fn from_total_nanos(nanos: u128) -> (result: Option<Duration>)
        ensures
            result is Some <==> nanos <= MAX_NANOS,
            result matches Some(duration) ==> duration@ == nanos,
    {
        if nanos <= MAX_NANOS {
            Some(Duration { nanos })
        } else {
            None
        }
    }

    pub fn from_secs(secs: u64) -> (result: Duration)
        ensures
            result@ == secs * NANOS_PER_SEC,
    {
        Duration { nanos: secs as u128 * NANOS_PER_SEC }
    }

    pub fn from_millis(millis: u64) -> (result: Duration)
        ensures
            result@ == millis * 1_000_000,
    {
        Duration { nanos: millis as u128 * 1_000_000 }
    }

    pub fn from_micros(micros: u64) -> (result: Duration)
        ensures
            result@ == micros * 1_000,
    {
        Duration { nanos: micros as u128 * 1_000 }
    }

    pub fn from_nanos(nanos: u64) -> (result: Duration)
        ensures
            result@ == nanos,
    {
        Duration { nanos: nanos as u128 }
    }

    pub fn as_nanos(&self) -> (result: u128)
        ensures
            result == self@,
            result <= MAX_NANOS,
    {
        proof {
            use_type_invariant(self);
        }
        self.nanos
    }

    pub fn as_micros(&self) -> (result: u128)
        ensures
            result == self@ / 1_000,
    {
        self.nanos / 1_000
    }

    pub fn as_millis(&self) -> (result: u128)
        ensures
            result == self@ / 1_000_000,
    {
        self.nanos / 1_000_000
    }

    pub fn as_secs(&self) -> (result: u64)
        ensures
            result == self@ / NANOS_PER_SEC as nat,
    {
        proof {
            use_type_invariant(self);
        }
        (self.nanos / NANOS_PER_SEC) as u64
    }

    pub fn subsec_nanos(&self) -> (result: u32)
        ensures
            result == self@ % NANOS_PER_SEC as nat,
    {
        (self.nanos % NANOS_PER_SEC) as u32
    }

    pub fn is_zero(&self) -> (result: bool)
        ensures
            result == (self@ == 0),
    {
        self.nanos == 0
    }

    /// Whether this span is longer than `other`.
    pub fn exceeds(&self, other: &Duration) -> (result: bool)
        ensures
            result == (self@ > other@),
    {
        self.nanos > other.nanos
    }

    pub fn min(self, other: Duration) -> (result: Duration)
        ensures
            result@ == shorter(self@, other@),
    {
        if self.nanos <= other.nanos {
            self
        } else {
            other
        }
    }

    pub fn max(self, other: Duration) -> (result: Duration)
        ensures
            result@ == longer(self@, other@),
    {
        if self.nanos >= other.nanos {
            self
        } else {
            other
        }
    }

    /// The span times `factor`, no longer than the longest span.
    pub fn saturating_mul(self, factor: u32) -> (result: Duration)
        ensures
            result@ == shorter(self@ * factor as nat, MAX_NANOS as nat),
    {
        proof {
            use_type_invariant(&self);
            assert(self.nanos * factor <= MAX_NANOS * 0xffff_ffff) by (nonlinear_arith)
                requires
                    self.nanos <= MAX_NANOS,
                    factor <= 0xffff_ffff,
            ;
        }
        let product = self.nanos * factor as u128;
        if product <= MAX_NANOS {
            Duration { nanos: product }
        } else {
            Duration { nanos: MAX_NANOS }
        }
    }

    /// How much longer this span is than `other`, or nothing where it is not.
    pub fn saturating_sub(self, other: Duration) -> (result: Duration)
        ensures
            result@ == if self@ >= other@ {
                self@ - other@
            } else {
                0
            },
    {
        proof {
            use_type_invariant(&self);
        }
        if self.nanos >= other.nanos {
            Duration { nanos: self.nanos - other.nanos }
        } else {
            Duration { nanos: 0 }
        }
    }

    /// The span as a binary64 number of seconds.
    pub fn as_secs_binary64(&self) -> (result: Binary64)
        ensures
            result.bits == seconds_bits(self@),
            result.plain(),
            binary64::units(result.bits) <= pow2(64) * pow2(1074),
    {
        let secs = self.as_secs();
        let subsec = self.subsec_nanos();
        let whole = Binary64::from_u64(secs);
        let fraction = Binary64::from_ratio(subsec, 1_000_000_000);
        proof {
            lemma_seconds_bounded(self@);
            binary64::lemma_landmarks();
        }
        let sum = whole.plus(&fraction);
        sum
    }

    /// The span of a non-negative binary64 number of seconds, where there is one.
    fn from_seconds(seconds: &Binary64) -> (result: Option<Duration>)
        requires
            seconds.bits <= INFINITY_BITS,
        ensures
            result is Some <==> is_span(seconds.bits),
            result matches Some(duration) ==> duration@ == span_of(seconds.bits),
    {
        proof {
            binary64::lemma_landmarks();
            lemma_pow2_pos(1074);
            binary64::lemma_units_order(TWO_64_BITS, seconds.bits);
        }
        if seconds.bits >= TWO_64_BITS {
            return None;
        }
        proof {
            let last = (TWO_64_BITS - 1) as u64;
            binary64::lemma_units_order(seconds.bits, last);
            binary64::lemma_units_order(last, TWO_64_BITS);
            lemma2_to64();
            lemma2_to64_rest();
            lemma_pow2_adds(11, 1074);
            assert(last / EXPONENT_WEIGHT == 1086);
            assert(last % EXPONENT_WEIGHT == EXPONENT_WEIGHT - 1);
            let p = pow2(1074);
            let count = 18_446_744_073_709_549_568_000_000_000nat;
            assert(binary64::units(last) * 1_000_000_000 == count * p) by (nonlinear_arith)
                requires
                    binary64::units(last) == 0x1f_ffff_ffff_ffff * (0x800 * p),
                    count == 18_446_744_073_709_549_568_000_000_000,
            ;
            lemma_half_even_bounded(
                binary64::units(seconds.bits) * NANOS_PER_SEC as nat,
                p,
                count,
            );
        }
        Some(Duration { nanos: seconds.times_rounded(1_000_000_000) })
    }

    /// The span times a factor, where that is a span: the product of the factor and of the
    /// seconds as binary64 numbers, rounded to the nanosecond.
    pub fn mul_binary64(&self, factor: &Binary64) -> (result: Option<Duration>)
        ensures
            result is Some <==> scaled_nanos(self@, *factor) is Some,
            result matches Some(duration) ==> Some(duration@) == scaled_nanos(self@, *factor),
    {
        if factor.bits == SIGN_WEIGHT {
            return Some(Duration { nanos: 0 });
        }
        if factor.bits >= INFINITY_BITS {
            return None;
        }
        let seconds = self.as_secs_binary64();
        Self::from_seconds(&factor.times(&seconds))
    }

    /// The span between two events of a rate, where there is one: the reciprocal of the rate in
    /// seconds, rounded to the nanosecond.
    pub fn between_events(rate: &Binary64) -> (result: Option<Duration>)
        requires
            rate.plain(),
            rate.bits > 0,
        ensures
            result is Some <==> is_span(binary64::reciprocal_bits(rate.bits)),
            result matches Some(duration) ==> duration@ == span_of(binary64::reciprocal_bits(rate.bits)),
    {
        Self::from_seconds(&rate.reciprocal())
    }
}

/// Factors that are as one to one part in `q` may be left out to that part.
pub proof fn lemma_cancel(a: nat, b: nat, m: nat, j: nat, q: nat)
    requires
        a * m <= b * j,
        j * q <= m * (q + 1),
        m > 0,
    ensures
        a * q <= b * (q + 1),
{
    assert((a * q) * m <= (b * (q + 1)) * m) by (nonlinear_arith)
        requires
            a * m <= b * j,
            j * q <= m * (q + 1),
    {
        assert((a * m) * q <= (b * j) * q);
        assert(b * (j * q) <= b * (m * (q + 1)));
    }
    assert(a * q <= b * (q + 1)) by (nonlinear_arith)
        requires
            (a * q) * m <= (b * (q + 1)) * m,
            m > 0,
    ;
}

/// A span times a factor is their product, to two nanoseconds and one part in 2^50.
pub proof fn law_scaled_spans_are_products(nanos: nat, factor: Binary64)
    requires
        nanos <= MAX_NANOS,
        factor.plain(),
        binary64::units(factor.bits) <= 0x1_0000_0000_0000_0000 * pow2(1074),
        scaled_nanos(nanos, factor) is Some,
    ensures
        binary64::units(factor.bits) * nanos * 0x4_0000_0000_0000 <= (scaled_nanos(nanos, factor)->0
            + 2) * pow2(1074) * 0x4_0000_0000_0001,
        scaled_nanos(nanos, factor)->0 * pow2(1074) * 0x4_0000_0000_0000 <= (binary64::units(
            factor.bits,
        ) * nanos + 2 * pow2(1074)) * 0x4_0000_0000_0001,
{
    let p = pow2(1074);
    let k = 0x20_0000_0000_0000nat;
    let n = NANOS_PER_SEC as nat;
    let q = 0x4_0000_0000_0000nat;
    let f = binary64::units(factor.bits);
    let x = binary64::units(scaled_bits(nanos, factor));
    let span = scaled_nanos(nanos, factor)->0;
    lemma_pow2_pos(1074);
    lemma_scaled_close(nanos, factor.bits, p, k, n);
    lemma_half_even_close(x * n, p);
    assert(x * n == n * x) by (nonlinear_arith);
    let y = n * x;
    let a = f * nanos;
    let i = (k - 1) as nat;
    let h = (k - 2) as nat;
    let j = i * i * i;
    let m = h * h * h;
    let l = k * k * k;
    assert(j > 1 && m > 1 && j * q <= m * (q + 1) && l * q <= j * (q + 1)) by (nonlinear_arith)
        requires
            i == 0x1f_ffff_ffff_ffff,
            h == 0x1f_ffff_ffff_fffe,
            k == 0x20_0000_0000_0000,
            j == i * i * i,
            m == h * h * h,
            l == k * k * k,
            q == 0x4_0000_0000_0000,
    ;
    let b = (span + 2) * p;
    assert(a * m <= b * j) by (nonlinear_arith)
        requires
            a * m <= y * j + p,
            y <= span * p + p,
            b == (span + 2) * p,
            j > 1,
            p > 0,
    {
        assert(y * j <= (span * p + p) * j);
        assert(p <= p * j);
        assert(b * j == (span * p + p) * j + p * j);
    }
    lemma_cancel(a, b, m, j, q);
    let c = span * p;
    let d = a + 2 * p;
    assert(c * j <= d * l) by (nonlinear_arith)
        requires
            c <= y + p,
            y * j <= a * l + p,
            d == a + 2 * p,
            j < l,
            l > 1,
    {
        assert(c * j <= y * j + p * j);
        assert(p * j <= p * l);
        assert(p <= p * l);
        assert(d * l == a * l + p * l + p * l);
    }
    lemma_cancel(c, d, j, l, q);
}

/// The span between two events of a rate is the time that the rate leaves for one event, to two
/// nanoseconds and one part in 2^50.
pub proof fn law_spans_between_events(rate: Binary64)
    requires
        rate.plain(),
        rate.bits > 0,
        binary64::units(rate.bits) * 0x8000_0000_0000_0000 >= pow2(1074),
    ensures
        is_span(binary64::reciprocal_bits(rate.bits)),
        NANOS_PER_SEC * pow2(1074) * 0x4_0000_0000_0000 <= binary64::units(rate.bits) * (span_of(
            binary64::reciprocal_bits(rate.bits),
        ) + 2) * 0x4_0000_0000_0001,
        binary64::units(rate.bits) * span_of(binary64::reciprocal_bits(rate.bits))
            * 0x4_0000_0000_0000 <= (NANOS_PER_SEC * pow2(1074) + 2 * binary64::units(rate.bits))
            * 0x4_0000_0000_0001,
{
    let p = pow2(1074);
    let k = 0x20_0000_0000_0000nat;
    let n = NANOS_PER_SEC as nat;
    let q = 0x4_0000_0000_0000nat;
    let w = 0x10_0000_0000_0000nat;
    let u = binary64::units(rate.bits);
    let bits = binary64::reciprocal_bits(rate.bits);
    let g = 0x8000_0000_0000_0000nat;
    lemma_pow2_pos(1074);
    lemma_large(p);
    binary64::lemma_units_order(0, rate.bits);
    assert(u > 0);
    lemma2_to64();
    lemma2_to64_rest();
    lemma_pow2_adds(52, 1085);
    lemma_pow2_adds(63, 1074);
    lemma_pow2_adds(64, 1074);
    let top = 0x43e0_0000_0000_0000u64;
    assert(top / EXPONENT_WEIGHT == 1086 && top % EXPONENT_WEIGHT == 0);
    assert(binary64::units(top) == g * p);
    binary64::lemma_rounded_nearest(p, u);
    assert(p * p <= u * (g * p)) by (nonlinear_arith)
        requires
            p <= u * g,
    ;
    binary64::lemma_nearest_bounded(p, u, bits, top);
    let b = binary64::units(bits);
    assert(b < pow2(64) * p) by (nonlinear_arith)
        requires
            b <= g * p,
            g < pow2(64),
            p > 0,
    ;
    binary64::lemma_rounded_loss(p, u);
    binary64::lemma_rounded_error(p, u);
    let span = span_of(bits);
    lemma_half_even_close(b * n, p);
    let i = (k - 1) as nat;
    let h = (k - 2) as nat;
    let ub = u * b;
    let np = n * p;
    assert(i * q <= h * (q + 1) && k * q <= i * (q + 1));
    assert(u * (b * n) == n * ub) by (nonlinear_arith)
        requires
            ub == u * b,
    ;
    assert(n * w <= p);
    // No less than the time for one event.
    assert(u * (b * n) <= u * (span * p + p)) by (nonlinear_arith)
        requires
            b * n <= span * p + p,
    ;
    let e = u * (span + 2);
    assert(np * h <= e * i) by (nonlinear_arith)
        requires
            p * p * h <= ub * i + u * w,
            n * ub <= u * (span * p + p),
            np == n * p,
            e == u * (span + 2),
            n * w <= p,
            i > 1,
            p > 0,
    {
        assert(n * (p * p * h) <= n * (ub * i + u * w));
        assert(n * (ub * i + u * w) == (n * ub) * i + u * (n * w));
        assert((n * ub) * i <= (u * (span * p + p)) * i);
        assert(u * (n * w) <= u * p);
        assert(u * p <= (u * p) * i);
        assert((u * (span * p + p)) * i + (u * p) * i == p * (e * i));
        assert(n * (p * p * h) == p * (np * h));
    }
    lemma_cancel(np, e, h, i, q);
    // No more than the time for one event.
    assert(u * (span * p) <= u * (b * n + p)) by (nonlinear_arith)
        requires
            span * p <= b * n + p,
    ;
    let c = u * span;
    let d = np + 2 * u;
    let up = u * p;
    assert(u * (span * p) == p * c) by (nonlinear_arith)
        requires
            c == u * span,
    ;
    assert(u * (b * n + p) == n * ub + up) by (nonlinear_arith)
        requires
            u * (b * n) == n * ub,
            up == u * p,
    ;
    assert((p * c) * i <= (n * ub + up) * i) by (nonlinear_arith)
        requires
            p * c <= n * ub + up,
    ;
    assert((n * ub + up) * i == n * (ub * i) + up * i) by (nonlinear_arith);
    assert(n * (ub * i) <= n * (p * p * k + u * w)) by (nonlinear_arith)
        requires
            ub * i <= p * p * k + u * w,
    ;
    assert(n * (p * p * k + u * w) == p * (np * k) + u * (n * w)) by (nonlinear_arith)
        requires
            np == n * p,
    ;
    assert(u * (n * w) <= up * k) by (nonlinear_arith)
        requires
            n * w <= p,
            up == u * p,
            k > 1,
    {
        assert(u * (n * w) <= u * p);
    }
    assert(up * i <= up * k) by (nonlinear_arith)
        requires
            i < k,
    ;
    assert(p * (np * k) + up * k + up * k == p * (d * k)) by (nonlinear_arith)
        requires
            up == u * p,
            d == np + 2 * u,
    ;
    assert(c * i <= d * k) by (nonlinear_arith)
        requires
            (p * c) * i <= p * (d * k),
            p > 0,
    {
        assert(p * (c * i) <= p * (d * k));
    }
    lemma_cancel(c, d, i, k, q);
}

} // verus!
