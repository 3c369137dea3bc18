//! Binary64 numbers held as bit patterns.
//!
//! Rates, ratios and latencies in milliseconds are IEEE 754 binary64 numbers. This module keeps
//! such a number as its bit pattern and computes on it with integers alone: comparison, sum,
//! product, quotient and reciprocal, each rounded to the nearest representable number with ties
//! going to the even pattern.
use vstd::arithmetic::div_mod::*;
use vstd::arithmetic::power2::*;
use vstd::prelude::*;

verus! {

/// The pattern of positive infinity, and the number of patterns below it.
pub const INFINITY_BITS: u64 = 0x7ff0_0000_0000_0000;

/// The weight of the sign bit.
pub const SIGN_WEIGHT: u64 = 0x8000_0000_0000_0000;

/// The weight of the lowest exponent bit.
pub const EXPONENT_WEIGHT: u64 = 0x0010_0000_0000_0000;

/// The pattern of 1.
pub const ONE_BITS: u64 = 0x3ff0_0000_0000_0000;

/// The pattern of 2^64.
pub const TWO_64_BITS: u64 = 0x43f0_0000_0000_0000;

/// A binary64 number, by its bit pattern.
#[derive(Clone, Copy, Debug, PartialEq, Eq, Structural)]
pub struct Binary64 {
    pub bits: u64,
}

/// The magnitude of a pattern without sign, counted in units of 2^-1074.
///
/// Infinity counts as 2^1024, the number that would follow the largest finite one.
pub open spec fn units(pattern: u64) -> nat {
    let exponent = pattern / EXPONENT_WEIGHT;
    let fraction = pattern % EXPONENT_WEIGHT;
    if exponent == 0 {
        fraction as nat
    } else {
        (EXPONENT_WEIGHT + fraction) as nat * pow2((exponent - 1) as nat)
    }
}

/// Whether `pattern` is the non-negative binary64 number nearest to `num / den`.
///
/// Of two numbers equally near, it is the one whose pattern is even. Everything that lies at or
/// beyond the middle between the largest finite number and 2^1024 rounds to infinity.
pub open spec fn nearest(num: nat, den: nat, pattern: u64) -> bool {
    let twice = 2 * num * pow2(1074);
    &&& pattern <= INFINITY_BITS
    &&& pattern > 0 ==> {
        let middle = den * (units((pattern - 1) as u64) + units(pattern));
        twice > middle || (twice == middle && pattern % 2 == 0)
    }
    &&& pattern < INFINITY_BITS ==> {
        let middle = den * (units(pattern) + units((pattern + 1) as u64));
        twice < middle || (twice == middle && pattern % 2 == 0)
    }
}

/// The pattern of the binary64 number nearest to `num / den`.
pub open spec fn rounded(num: nat, den: nat) -> u64 {
    choose|pattern: u64| nearest(num, den, pattern)
}

/// The pattern of the rounded sum of two non-negative numbers.
pub open spec fn sum_bits(a: u64, b: u64) -> u64 {
    rounded(units(a) + units(b), pow2(1074))
}

/// The pattern of the rounded product of two non-negative numbers.
pub open spec fn product_bits(a: u64, b: u64) -> u64 {
    rounded(units(a) * units(b), pow2(2148))
}

/// The pattern of the rounded reciprocal of a positive number.
pub open spec fn reciprocal_bits(a: u64) -> u64 {
    rounded(pow2(1074), units(a))
}

/// `num / den` rounded to an integer, ties to even.
pub open spec fn half_even(num: nat, den: nat) -> nat {
    let quotient = num / den;
    let remainder = num % den;
    if 2 * remainder < den || (2 * remainder == den && quotient % 2 == 0) {
        quotient
    } else {
        quotient + 1
    }
}

proof fn lemma_pow2_monotone(a: nat, b: nat)
    requires
        a <= b,
    ensures
        0 < pow2(a) <= pow2(b),
{
    lemma_pow2_pos(a);
    if a < b {
        lemma_pow2_strictly_increases(a, b);
    }
}

/// The order of patterns is the order of the numbers.
pub proof fn lemma_units_increase(a: u64, b: u64)
    requires
        a < b,
    ensures
        units(a) < units(b),
{
    let ka = a / EXPONENT_WEIGHT;
    let kb = b / EXPONENT_WEIGHT;
    let fa = a % EXPONENT_WEIGHT;
    let fb = b % EXPONENT_WEIGHT;
    let w = EXPONENT_WEIGHT;
    lemma_pow2_pos((if kb == 0 { 0 } else { kb - 1 }) as nat);
    if kb > 0 {
        let pb = pow2((kb - 1) as nat);
        assert((w + fb) * pb >= w * pb) by (nonlinear_arith)
            requires
                pb > 0,
        ;
        assert(w * pb >= w) by (nonlinear_arith)
            requires
                pb > 0,
        ;
        if ka == 0 {
        } else if ka == kb {
            assert((w + fa) * pb < (w + fb) * pb) by (nonlinear_arith)
                requires
                    pb > 0,
                    fa < fb,
            ;
        } else {
            let pa = pow2((ka - 1) as nat);
            lemma_pow2_pos((ka - 1) as nat);
            lemma_pow2_unfold(ka as nat);
            lemma_pow2_monotone(ka as nat, (kb - 1) as nat);
            assert((w + fa) * pa < w * pb) by (nonlinear_arith)
                requires
                    pa > 0,
                    2 * pa <= pb,
                    fa < w,
            ;
        }
    }
}

/// Two patterns that are both nearest to one number are the same pattern.
pub proof fn lemma_nearest_unique(num: nat, den: nat, a: u64, b: u64)
    requires
        den > 0,
        nearest(num, den, a),
        nearest(num, den, b),
    ensures
        a == b,
{
    lemma_nearest_ordered(num, den, a, b);
    lemma_nearest_ordered(num, den, b, a);
}

proof fn lemma_nearest_ordered(num: nat, den: nat, a: u64, b: u64)
    requires
        den > 0,
        nearest(num, den, a),
        nearest(num, den, b),
    ensures
        b <= a,
{
    if a < b {
        let low = units(a) + units((a + 1) as u64);
        let high = units((b - 1) as u64) + units(b);
        if a + 1 < b {
            lemma_units_increase(a, (b - 1) as u64);
            lemma_units_increase((a + 1) as u64, b);
            assert(den * low < den * high) by (nonlinear_arith)
                requires
                    den > 0,
                    low < high,
            ;
        }
    }
}

/// What is nearest to a number is at most what is nearest to a larger one.
pub proof fn lemma_nearest_monotone(
    num: nat,
    den: nat,
    pattern: u64,
    larger_num: nat,
    larger_den: nat,
    larger: u64,
)
    requires
        den > 0,
        larger_den > 0,
        nearest(num, den, pattern),
        nearest(larger_num, larger_den, larger),
        num * larger_den <= larger_num * den,
    ensures
        pattern <= larger,
{
    if pattern > larger {
        let p = pow2(1074);
        let below = units((pattern - 1) as u64) + units(pattern);
        let above = units(larger) + units((larger + 1) as u64);
        lemma_units_order(larger, (pattern - 1) as u64);
        lemma_units_order((larger + 1) as u64, pattern);
        let left = 2 * num * p;
        let right = 2 * larger_num * p;
        assert(left * larger_den <= right * den) by (nonlinear_arith)
            requires
                left == 2 * num * p,
                right == 2 * larger_num * p,
                num * larger_den <= larger_num * den,
        ;
        assert(left * larger_den >= (den * below) * larger_den) by (nonlinear_arith)
            requires
                left >= den * below,
        ;
        assert(right * den <= (larger_den * above) * den) by (nonlinear_arith)
            requires
                right <= larger_den * above,
        ;
        if below > above {
            assert((den * below) * larger_den > (larger_den * above) * den) by (nonlinear_arith)
                requires
                    below > above,
                    den > 0,
                    larger_den > 0,
            ;
        } else {
            assert((den * below) * larger_den == (larger_den * above) * den) by (nonlinear_arith)
                requires
                    below == above,
            ;
            if left > den * below {
                assert(left * larger_den > (den * below) * larger_den) by (nonlinear_arith)
                    requires
                        left > den * below,
                        larger_den > 0,
                ;
            }
            if right < larger_den * above {
                assert(right * den < (larger_den * above) * den) by (nonlinear_arith)
                    requires
                        right < larger_den * above,
                        den > 0,
                ;
            }
        }
    }
}

/// Whether the middle above a pattern bounds `num / den`, so that nothing higher is nearest.
spec fn suffices(num: nat, den: nat, pattern: u64) -> bool {
    let twice = 2 * num * pow2(1074);
    let middle = den * (units(pattern) + units((pattern + 1) as u64));
    pattern == INFINITY_BITS || twice < middle || (twice == middle && pattern % 2 == 0)
}

/// At or below a pattern that suffices there is a nearest one.
proof fn lemma_nearest_below(num: nat, den: nat, pattern: u64) -> (found: u64)
    requires
        pattern <= INFINITY_BITS,
        suffices(num, den, pattern),
    ensures
        nearest(num, den, found),
    decreases pattern,
{
    if pattern > 0 && suffices(num, den, (pattern - 1) as u64) {
        lemma_nearest_below(num, den, (pattern - 1) as u64)
    } else {
        pattern
    }
}

/// Every non-negative number has a nearest pattern, and that is its rounding.
pub proof fn lemma_rounded_nearest(num: nat, den: nat)
    ensures
        nearest(num, den, rounded(num, den)),
{
    let found = lemma_nearest_below(num, den, INFINITY_BITS);
    assert(nearest(num, den, found));
}

/// A larger number rounds to no smaller number.
pub proof fn lemma_rounded_monotone(num: nat, den: nat, larger_num: nat, larger_den: nat)
    requires
        den > 0,
        larger_den > 0,
        num * larger_den <= larger_num * den,
    ensures
        rounded(num, den) <= rounded(larger_num, larger_den),
        units(rounded(num, den)) <= units(rounded(larger_num, larger_den)),
{
    lemma_rounded_nearest(num, den);
    lemma_rounded_nearest(larger_num, larger_den);
    lemma_nearest_monotone(
        num,
        den,
        rounded(num, den),
        larger_num,
        larger_den,
        rounded(larger_num, larger_den),
    );
    lemma_units_order(rounded(num, den), rounded(larger_num, larger_den));
}

/// A pattern that is nearest to a number is the rounding of that number.
pub proof fn lemma_rounded(num: nat, den: nat, pattern: u64)
    requires
        den > 0,
        nearest(num, den, pattern),
    ensures
        rounded(num, den) == pattern,
{
    lemma_nearest_unique(num, den, rounded(num, den), pattern);
}

/// The units of the pattern whose exponent field starts at `k` and whose significand is `s`.
proof fn lemma_units_at(k: nat, s: nat)
    requires
        k <= 2045,
        s <= 2 * EXPONENT_WEIGHT,
        k == 0 || s >= EXPONENT_WEIGHT,
    ensures
        k * EXPONENT_WEIGHT + s <= INFINITY_BITS,
        units((k * EXPONENT_WEIGHT + s) as u64) == s * pow2(k),
{
    let w = EXPONENT_WEIGHT;
    let pattern = (k * w + s) as u64;
    lemma2_to64();
    lemma_pow2_unfold(k + 1);
    lemma_pow2_pos(k);
    if s == 2 * w {
        assert(pattern / w == k + 2);
        assert(pattern % w == 0);
        assert(w * (2 * pow2(k)) == (2 * w) * pow2(k)) by (nonlinear_arith);
    } else if s >= w {
        assert(pattern / w == k + 1);
        assert(pattern % w == s - w);
    } else {
        assert(pattern / w == 0);
        assert(pattern % w == s);
    }
}

/// `num / den`, measured in steps of 2^e, as a quotient of naturals.
spec fn steps_num(num: nat, e: int) -> nat {
    if e >= 0 {
        num
    } else {
        num * pow2((-e) as nat)
    }
}

spec fn steps_den(den: nat, e: int) -> nat {
    if e >= 0 {
        den * pow2(e as nat)
    } else {
        den
    }
}

/// `num / den` is `q` steps of 2^e exactly, or lies strictly between `q` and `q + 1` of them.
spec fn in_step(num: nat, den: nat, q: nat, inexact: bool, e: int) -> bool {
    let a = steps_num(num, e);
    let c = steps_den(den, e);
    if inexact {
        c * q < a < c * (q + 1)
    } else {
        a == c * q
    }
}

/// Comparing `num / den` with `m / 2` quanta of 2^(k - 1074) is comparing it, in steps of 2^e,
/// with `m / 2` times the number of steps in a quantum.
proof fn lemma_compare_at(num: nat, den: nat, e: int, shift: nat, k: nat, m: nat)
    requires
        k == e + shift + 1074,
    ensures
        (2 * num * pow2(1074) < den * (m * pow2(k))) <==> (2 * steps_num(num, e) < steps_den(
            den,
            e,
        ) * (m * pow2(shift))),
        (2 * num * pow2(1074) == den * (m * pow2(k))) <==> (2 * steps_num(num, e) == steps_den(
            den,
            e,
        ) * (m * pow2(shift))),
{
    let p = pow2(1074);
    lemma_pow2_pos(1074);
    if e >= 0 {
        let pe = pow2(e as nat);
        let ps = pow2(shift);
        lemma_pow2_adds(e as nat, shift);
        lemma_pow2_adds((e + shift) as nat, 1074);
        assert(pow2(k) == pe * ps * p);
        assert(den * (m * (pe * ps * p)) == ((den * pe) * (m * ps)) * p) by (nonlinear_arith);
        let right = (den * pe) * (m * ps);
        assert((2 * num * p < right * p) <==> (2 * num < right)) by (nonlinear_arith)
            requires
                p > 0,
        ;
        assert((2 * num * p == right * p) <==> (2 * num == right)) by (nonlinear_arith)
            requires
                p > 0,
        ;
    } else {
        let pn = pow2((-e) as nat);
        let ps = pow2(shift);
        lemma_pow2_pos((-e) as nat);
        lemma_pow2_adds(k, (-e) as nat);
        lemma_pow2_adds(shift, 1074);
        assert(k + (-e) as nat == shift + 1074);
        let pk = pow2(k);
        assert(pk * pn == ps * p);
        let left = 2 * num * p;
        let right = den * (m * pk);
        assert(left * pn == 2 * (num * pn) * p) by (nonlinear_arith)
            requires
                left == 2 * num * p,
        ;
        assert(right * pn == (den * (m * ps)) * p) by (nonlinear_arith)
            requires
                right == den * (m * pk),
                pk * pn == ps * p,
        ;
        let a2 = 2 * (num * pn);
        let c2 = den * (m * ps);
        assert((left < right) <==> (left * pn < right * pn)) by (nonlinear_arith)
            requires
                pn > 0,
        ;
        assert((left == right) <==> (left * pn == right * pn)) by (nonlinear_arith)
            requires
                pn > 0,
        ;
        assert((a2 * p < c2 * p) <==> (a2 < c2)) by (nonlinear_arith)
            requires
                p > 0,
        ;
        assert((a2 * p == c2 * p) <==> (a2 == c2)) by (nonlinear_arith)
            requires
                p > 0,
        ;
    }
}

/// Where `num / den` lies against `m / 2` quanta follows from where its step lies.
proof fn lemma_step_against(
    num: nat,
    den: nat,
    q: nat,
    inexact: bool,
    e: int,
    shift: nat,
    k: nat,
    m: nat,
)
    requires
        den > 0,
        in_step(num, den, q, inexact, e),
        k == e + shift + 1074,
        inexact ==> shift > 0,
    ensures
        2 * q > m * pow2(shift) ==> 2 * num * pow2(1074) > den * (m * pow2(k)),
        2 * q == m * pow2(shift) ==> if inexact {
            2 * num * pow2(1074) > den * (m * pow2(k))
        } else {
            2 * num * pow2(1074) == den * (m * pow2(k))
        },
        2 * q < m * pow2(shift) ==> 2 * num * pow2(1074) < den * (m * pow2(k)),
{
    lemma_compare_at(num, den, e, shift, k, m);
    let a = steps_num(num, e);
    let c = steps_den(den, e);
    let line = m * pow2(shift);
    if e >= 0 {
        lemma_pow2_pos(e as nat);
        assert(den * pow2(e as nat) > 0) by (nonlinear_arith)
            requires
                den > 0,
                pow2(e as nat) > 0,
        ;
    }
    assert(c > 0);
    if 2 * q > line {
        assert(2 * a > c * line) by (nonlinear_arith)
            requires
                a >= c * q,
                2 * q > line,
                c > 0,
        ;
    } else if 2 * q == line {
        assert(2 * (c * q) == c * line) by (nonlinear_arith)
            requires
                2 * q == line,
        ;
    } else if inexact {
        lemma_pow2_unfold(shift);
        let half = pow2((shift - 1) as nat);
        assert(line == 2 * (m * half)) by (nonlinear_arith)
            requires
                line == m * (2 * half),
        ;
        assert(2 * a < c * line) by (nonlinear_arith)
            requires
                a < c * (q + 1),
                2 * (q + 1) <= line,
                c > 0,
        ;
    } else {
        assert(2 * a < c * line) by (nonlinear_arith)
            requires
                a == c * q,
                2 * q < line,
                c > 0,
        ;
    }
}

/// Rounding `q` steps to `s` quanta is rounding to the nearest number.
proof fn lemma_round_step(
    num: nat,
    den: nat,
    q: nat,
    inexact: bool,
    e: int,
    shift: nat,
    k: nat,
    floor: nat,
    remainder: nat,
    up: bool,
)
    requires
        den > 0,
        in_step(num, den, q, inexact, e),
        k == e + shift + 1074,
        k <= 2045,
        inexact ==> shift > 0,
        q == floor * pow2(shift) + remainder,
        remainder < pow2(shift),
        floor < 2 * EXPONENT_WEIGHT,
        k == 0 || floor >= EXPONENT_WEIGHT,
        up <==> (2 * remainder > pow2(shift) || (2 * remainder == pow2(shift) && (inexact || floor
            % 2 == 1))),
    ensures
        nearest(
            num,
            den,
            (k * EXPONENT_WEIGHT + floor + if up {
                1nat
            } else {
                0nat
            }) as u64,
        ),
{
    let w = EXPONENT_WEIGHT;
    let base = (k * w + floor) as u64;
    let ps = pow2(shift);
    let pk = pow2(k);
    let twice = 2 * num * pow2(1074);
    lemma_units_at(k, floor);
    lemma_units_at(k, floor + 1);
    lemma_pow2_pos(shift);
    lemma_pow2_pos(k);
    assert((k * EXPONENT_WEIGHT) % 2 == 0);
    // Against the number below, the number above, and the middle between the two.
    let middle = 2 * floor + 1;
    lemma_step_against(num, den, q, inexact, e, shift, k, middle);
    assert(middle * ps == 2 * (floor * ps) + ps) by (nonlinear_arith)
        requires
            middle == 2 * floor + 1,
    ;
    assert(den * (middle * pk) == den * (floor * pk + (floor + 1) * pk)) by (nonlinear_arith)
        requires
            middle == 2 * floor + 1,
    ;
    if up {
        let pattern = (base + 1) as u64;
        assert((pattern - 1) as u64 == base);
        if pattern < INFINITY_BITS {
            lemma_step_against(num, den, q, inexact, e, shift, k, 2 * (floor + 1));
            assert(2 * (floor + 1) * ps == 2 * (floor * ps) + 2 * ps) by (nonlinear_arith);
            lemma_units_increase(pattern, (pattern + 1) as u64);
            let above = units(pattern) + units((pattern + 1) as u64);
            assert(den * (2 * (floor + 1) * pk) < den * above) by (nonlinear_arith)
                requires
                    den > 0,
                    2 * ((floor + 1) * pk) < above,
            ;
        }
    } else {
        if base > 0 {
            lemma_step_against(num, den, q, inexact, e, shift, k, 2 * floor);
            assert(2 * floor * ps == 2 * (floor * ps)) by (nonlinear_arith);
            lemma_units_increase((base - 1) as u64, base);
            let below = units((base - 1) as u64) + units(base);
            assert(den * below < den * (2 * floor * pk)) by (nonlinear_arith)
                requires
                    den > 0,
                    below < 2 * (floor * pk),
            ;
        }
    }
}

/// The number of binary digits of `q`.
fn bit_length(q: u128) -> (length: u32)
    requires
        q > 0,
    ensures
        1 <= length <= 128,
        pow2((length - 1) as nat) <= q < pow2(length as nat),
{
    let mut length: u32 = 1;
    let mut rest: u128 = q / 2;
    let ghost mut low: nat = (q % 2) as nat;
    proof {
        lemma2_to64();
        lemma_pow2_unfold(128);
        lemma_pow2_adds(64, 64);
        lemma2_to64_rest();
    }
    while rest > 0
        invariant
            1 <= length,
            low < pow2(length as nat),
            q == rest * pow2(length as nat) + low,
            rest == 0 ==> pow2((length - 1) as nat) <= q,
            pow2(128) == 0x1_0000_0000_0000_0000_0000_0000_0000_0000,
        decreases rest,
    {
        let bit = rest % 2;
        let half = rest / 2;
        proof {
            let p = pow2(length as nat);
            assert(p <= q) by (nonlinear_arith)
                requires
                    rest > 0,
                    q == rest * p + low,
            ;
            if length >= 128 {
                lemma_pow2_monotone(128, length as nat);
            }
            lemma_pow2_unfold((length + 1) as nat);
            assert(rest * p + low == half * (2 * p) + (bit * p + low)) by (nonlinear_arith)
                requires
                    rest == 2 * half + bit,
            ;
            assert(bit * p <= p) by (nonlinear_arith)
                requires
                    bit <= 1,
            ;
            low = bit as nat * p + low;
        }
        rest = half;
        length = length + 1;
    }
    proof {
        assert(0 * pow2(length as nat) == 0);
        if length > 128 {
            lemma_pow2_monotone(128, (length - 1) as nat);
        }
    }
    length
}

/// 2 to the power of `n`.
fn power_of_two(n: u32) -> (power: u128)
    requires
        n < 128,
    ensures
        power == pow2(n as nat),
{
    let mut power: u128 = 1;
    let mut i: u32 = 0;
    proof {
        lemma2_to64();
        lemma2_to64_rest();
        lemma_pow2_adds(64, 64);
    }
    while i < n
        invariant
            i <= n < 128,
            power == pow2(i as nat),
            pow2(128) == 0x1_0000_0000_0000_0000_0000_0000_0000_0000,
        decreases n - i,
    {
        proof {
            lemma_pow2_unfold((i + 1) as nat);
            lemma_pow2_strictly_increases((i + 1) as nat, 129);
            lemma_pow2_monotone((i + 1) as nat, 128);
            if i + 1 < 128 {
                lemma_pow2_strictly_increases((i + 1) as nat, 128);
            }
        }
        power = power * 2;
        i = i + 1;
    }
    power
}

/// The binary64 number nearest to a value that is `q` steps of 2^e, or, where `inexact` holds,
/// lies strictly between `q` and `q + 1` of them.
fn round_steps(q: u128, inexact: bool, e: i32) -> (result: Binary64)
    requires
        q > 0,
        -8000 <= e <= 8000,
        inexact ==> q >= 0x40_0000_0000_0000,
    ensures
        forall|num: nat, den: nat|
            den > 0 && #[trigger] in_step(num, den, q as nat, inexact, e as int) ==> nearest(
                num,
                den,
                result.bits,
            ),
{
    let length = bit_length(q);
    proof {
        lemma2_to64();
        lemma2_to64_rest();
        lemma_pow2_adds(64, 64);
        if inexact && length < 55 {
            lemma_pow2_monotone(length as nat, 54);
        }
    }
    let exponent: i32 = if length as i32 + e - 53 > -1074 {
        length as i32 + e - 53
    } else {
        -1074
    };
    let k: i32 = exponent + 1074;
    let shift: i32 = exponent - e;
    if k > 2045 {
        proof {
            assert forall|num: nat, den: nat|
                den > 0 && #[trigger] in_step(num, den, q as nat, inexact, e as int) implies nearest(
                num,
                den,
                INFINITY_BITS,
            ) by {
                lemma_overflow(num, den, q as nat, inexact, e as int, length as nat);
            }
        }
        return Binary64 { bits: INFINITY_BITS };
    }
    if shift <= 0 {
        let factor = power_of_two((-shift) as u32);
        proof {
            lemma_pow2_adds(length as nat, (-shift) as nat);
            lemma_pow2_monotone((length - shift) as nat, 53);
            assert(q * factor < pow2(length as nat) * factor) by (nonlinear_arith)
                requires
                    q < pow2(length as nat),
                    factor > 0,
            ;
            lemma_pow2_pos((-shift) as nat);
        }
        let floor = q * factor;
        proof {
            if k > 0 {
                lemma_pow2_adds((length - 1) as nat, (-shift) as nat);
                assert(pow2(52) == pow2((length - 1) as nat) * factor);
                assert(q * factor >= pow2((length - 1) as nat) * factor) by (nonlinear_arith)
                    requires
                        q >= pow2((length - 1) as nat),
                ;
            }
            assert forall|num: nat, den: nat|
                den > 0 && #[trigger] in_step(num, den, q as nat, inexact, e as int) implies nearest(
                num,
                den,
                (k * EXPONENT_WEIGHT + floor) as u64,
            ) by {
                lemma_refine_step(num, den, q as nat, e as int, (-shift) as nat);
                assert(e + shift == exponent);
                assert(floor * pow2(0) == floor) by {
                    assert(floor * 1 == floor);
                }
                lemma_round_step(
                    num,
                    den,
                    floor as nat,
                    false,
                    exponent as int,
                    0,
                    k as nat,
                    floor as nat,
                    0,
                    false,
                );
            }
            lemma_units_at(k as nat, floor as nat);
        }
        return Binary64 { bits: k as u64 * EXPONENT_WEIGHT + floor as u64 };
    }
    if shift > 128 {
        proof {
            assert forall|num: nat, den: nat|
                den > 0 && #[trigger] in_step(num, den, q as nat, inexact, e as int) implies nearest(
                num,
                den,
                0,
            ) by {
                lemma_pow2_monotone(129, shift as nat);
                lemma_pow2_unfold(129);
                assert(0 * pow2(shift as nat) == 0);
                lemma_round_step(
                    num,
                    den,
                    q as nat,
                    inexact,
                    e as int,
                    shift as nat,
                    0,
                    0,
                    q as nat,
                    false,
                );
            }
        }
        return Binary64 { bits: 0 };
    }
    let half = power_of_two((shift - 1) as u32);
    proof {
        lemma_pow2_pos((shift - 1) as nat);
        lemma_pow2_unfold(shift as nat);
    }
    let coarse = q / half;
    let rest = q % half;
    let floor = coarse / 2;
    let bit = coarse % 2;
    let up = bit == 1 && (rest > 0 || inexact || floor % 2 == 1);
    proof {
        let ps = pow2(shift as nat);
        let remainder = (bit * half + rest) as nat;
        lemma_fundamental_div_mod(q as int, half as int);
        assert(q == floor * ps + remainder) by (nonlinear_arith)
            requires
                q == half * coarse + rest,
                coarse == 2 * floor + bit,
                ps == 2 * half,
                remainder == bit * half + rest,
        ;
        assert(bit * half == if bit == 1 {
            half as int
        } else {
            0int
        }) by (nonlinear_arith)
            requires
                bit <= 1,
        ;
        lemma_pow2_adds(shift as nat, 53);
        lemma_pow2_monotone(length as nat, (shift + 53) as nat);
        assert(floor < pow2(53)) by (nonlinear_arith)
            requires
                floor * ps <= q,
                q < ps * pow2(53),
                ps > 0,
        ;
        if k > 0 {
            lemma_pow2_adds(shift as nat, 52);
            assert(floor >= pow2(52)) by (nonlinear_arith)
                requires
                    q >= ps * pow2(52),
                    q == floor * ps + remainder,
                    remainder < ps,
            ;
        }
        assert forall|num: nat, den: nat|
            den > 0 && #[trigger] in_step(num, den, q as nat, inexact, e as int) implies nearest(
            num,
            den,
            (k * EXPONENT_WEIGHT + floor + if up {
                1nat
            } else {
                0nat
            }) as u64,
        ) by {
            lemma_round_step(
                num,
                den,
                q as nat,
                inexact,
                e as int,
                shift as nat,
                k as nat,
                floor as nat,
                remainder,
                up,
            );
        }
        lemma_units_at(k as nat, (floor + 1) as nat);
    }
    let carry: u64 = if up {
        1
    } else {
        0
    };
    Binary64 { bits: k as u64 * EXPONENT_WEIGHT + floor as u64 + carry }
}

/// A number of at least 2^1024 rounds to infinity.
proof fn lemma_overflow(num: nat, den: nat, q: nat, inexact: bool, e: int, length: nat)
    requires
        den > 0,
        in_step(num, den, q, inexact, e),
        1 <= length <= 128,
        pow2((length - 1) as nat) <= q,
        length + e - 53 + 1074 > 2045,
    ensures
        nearest(num, den, INFINITY_BITS),
{
    let k = (e + 1074) as nat;
    let pk = pow2(k);
    let a = steps_num(num, e);
    let c = steps_den(den, e);
    lemma2_to64();
    lemma2_to64_rest();
    lemma_pow2_pos(k);
    lemma_compare_at(num, den, e, 0, k, 2 * q);
    assert(2 * a >= c * (2 * q * 1)) by (nonlinear_arith)
        requires
            a >= c * q,
    ;
    lemma_units_at(2045, (2 * EXPONENT_WEIGHT) as nat);
    lemma_pow2_adds(53, 2045);
    lemma_pow2_adds((length - 1) as nat, k);
    lemma_pow2_monotone(2098, (length - 1 + k) as nat);
    let top = units(INFINITY_BITS);
    assert(2 * q * pk >= 2 * top) by (nonlinear_arith)
        requires
            q >= pow2((length - 1) as nat),
            pow2((length - 1) as nat) * pk >= top,
    ;
    lemma_units_increase((INFINITY_BITS - 1) as u64, INFINITY_BITS);
    let middle = units((INFINITY_BITS - 1) as u64) + top;
    assert(den * middle < den * (2 * q * pk)) by (nonlinear_arith)
        requires
            den > 0,
            middle < 2 * q * pk,
    ;
}

/// Steps of 2^e, each divided into 2^by finer ones.
proof fn lemma_refine_step(num: nat, den: nat, q: nat, e: int, by: nat)
    requires
        in_step(num, den, q, false, e),
    ensures
        in_step(num, den, q * pow2(by), false, e - by),
{
    let pb = pow2(by);
    if e - by >= 0 {
        lemma_pow2_adds((e - by) as nat, by);
        let pf = pow2((e - by) as nat);
        assert(den * (pf * pb) * q == den * pf * (q * pb)) by (nonlinear_arith);
    } else if e >= 0 {
        let pe = pow2(e as nat);
        let pn = pow2((by - e) as nat);
        lemma_pow2_adds(e as nat, (by - e) as nat);
        assert((den * pe * q) * pn == den * (q * (pe * pn))) by (nonlinear_arith);
    } else {
        let pn = pow2((-e) as nat);
        lemma_pow2_adds((-e) as nat, by);
        assert(num * (pn * pb) == (num * pn) * pb) by (nonlinear_arith);
        assert((den * q) * pb == den * (q * pb)) by (nonlinear_arith);
    }
}

impl Binary64 {
    /// Not a number at all.
    pub open spec fn nan(self) -> bool {
        self.bits % SIGN_WEIGHT > INFINITY_BITS
    }

    /// The number in units of 2^-1074, with its sign; the infinities count as 2^1024.
    pub open spec fn signed_units(self) -> int {
        if self.bits >= SIGN_WEIGHT {
            -(units((self.bits % SIGN_WEIGHT) as u64) as int)
        } else {
            units(self.bits) as int
        }
    }

    /// Whether the number is neither negative nor infinite nor undefined. Negative zero is not
    /// among these.
    pub open spec fn plain(self) -> bool {
        self.bits < INFINITY_BITS
    }

    /// Whether `self > other`.
    pub open spec fn greater(self, other: Binary64) -> bool {
        !self.nan() && !other.nan() && self.signed_units() > other.signed_units()
    }

    /// `self > other`, which never holds of an undefined number.
    pub fn exceeds(&self, other: &Binary64) -> (result: bool)
        ensures
            result == self.greater(*other),
    {
        let left = self.bits % SIGN_WEIGHT;
        let right = other.bits % SIGN_WEIGHT;
        proof {
            lemma_units_order(left, right);
            lemma_units_order(right, left);
            lemma_units_order(0, left);
            lemma_units_order(0, right);
        }
        if left > INFINITY_BITS || right > INFINITY_BITS {
            return false;
        }
        match (self.bits >= SIGN_WEIGHT, other.bits >= SIGN_WEIGHT) {
            (false, false) => left > right,
            (false, true) => left > 0 || right > 0,
            (true, false) => false,
            (true, true) => left < right,
        }
    }

    /// The number nearest to an integer.
    pub fn from_u64(value: u64) -> (result: Binary64)
        ensures
            result.bits == rounded(value as nat, 1),
            nearest(value as nat, 1, result.bits),
    {
        if value == 0 {
            proof {
                lemma_nearest_zero(1);
                lemma_rounded(0, 1, 0);
            }
            return Binary64 { bits: 0 };
        }
        let result = round_steps(value as u128, false, 0);
        proof {
            lemma2_to64();
            assert(steps_den(1, 0) == 1);
            assert(1 * value == value);
            assert(in_step(value as nat, 1, value as nat, false, 0));
            lemma_rounded(value as nat, 1, result.bits);
        }
        result
    }

    /// The number nearest to `num / den`.
    pub fn from_ratio(num: u32, den: u32) -> (result: Binary64)
        requires
            den > 0,
        ensures
            result.bits == rounded(num as nat, den as nat),
            nearest(num as nat, den as nat, result.bits),
    {
        if num == 0 {
            proof {
                lemma_nearest_zero(den as nat);
                lemma_rounded(0, den as nat, 0);
            }
            return Binary64 { bits: 0 };
        }
        let scale = power_of_two(96);
        proof {
            lemma2_to64();
            lemma2_to64_rest();
            lemma_pow2_adds(32, 64);
            lemma_pow2_adds(32, 96);
            lemma_pow2_adds(64, 64);
            assert(num * scale < 0x1_0000_0000 * scale) by (nonlinear_arith)
                requires
                    num < 0x1_0000_0000,
                    scale > 0,
            ;
        }
        let scaled = num as u128 * scale;
        let q = scaled / den as u128;
        let rest = scaled % den as u128;
        proof {
            lemma_fundamental_div_mod(scaled as int, den as int);
            assert(q >= 0x40_0000_0000_0000) by (nonlinear_arith)
                requires
                    scaled == den * q + rest,
                    rest < den,
                    den < 0x1_0000_0000,
                    scaled >= 0x1_0000_0000_0000_0000_0000_0000,
            ;
            assert(num * scale >= scale) by (nonlinear_arith)
                requires
                    num >= 1,
            ;
        }
        let result = round_steps(q, rest > 0, -96);
        proof {
            assert(den * q + rest < den * (q + 1)) by (nonlinear_arith)
                requires
                    rest < den,
            ;
            assert(in_step(num as nat, den as nat, q as nat, rest > 0, -96));
            lemma_rounded(num as nat, den as nat, result.bits);
        }
        result
    }

    /// The significand and the exponent of a non-negative number.
    fn unpack(&self) -> (parts: (u64, u32))
        requires
            self.bits <= INFINITY_BITS,
        ensures
            units(self.bits) == parts.0 * pow2(parts.1 as nat),
            parts.1 == if self.bits < EXPONENT_WEIGHT {
                0
            } else {
                self.bits / EXPONENT_WEIGHT - 1
            },
            parts.0 < 2 * EXPONENT_WEIGHT,
            parts.1 <= 2046,
            parts.1 > 0 ==> parts.0 >= EXPONENT_WEIGHT,
            self.bits < INFINITY_BITS ==> parts.1 <= 2045,
            self.bits > 0 ==> parts.0 > 0,
            self.bits == 0 ==> parts.0 == 0,
    {
        let exponent = self.bits / EXPONENT_WEIGHT;
        let fraction = self.bits % EXPONENT_WEIGHT;
        proof {
            lemma2_to64();
            assert(fraction * pow2(0) == fraction);
        }
        if exponent == 0 {
            (fraction, 0)
        } else {
            (EXPONENT_WEIGHT + fraction, (exponent - 1) as u32)
        }
    }

    /// The product of two non-negative finite numbers.
    pub fn times(&self, other: &Binary64) -> (result: Binary64)
        requires
            self.plain(),
            other.plain(),
        ensures
            result.bits == product_bits(self.bits, other.bits),
            nearest(units(self.bits) * units(other.bits), pow2(2148), result.bits),
    {
        let (sa, ea) = self.unpack();
        let (sb, eb) = other.unpack();
        let ghost num = units(self.bits) * units(other.bits);
        proof {
            lemma_pow2_pos(2148);
        }
        if sa == 0 || sb == 0 {
            proof {
                assert(num == 0) by (nonlinear_arith)
                    requires
                        num == units(self.bits) * units(other.bits),
                        units(self.bits) == sa * pow2(ea as nat),
                        units(other.bits) == sb * pow2(eb as nat),
                        sa == 0 || sb == 0,
                ;
                lemma_nearest_zero(pow2(2148));
                lemma_rounded(0, pow2(2148), 0);
            }
            return Binary64 { bits: 0 };
        }
        proof {
            assert(0 < sa * sb < 0x1_0000_0000_0000_0000_0000_0000_0000_0000) by (nonlinear_arith)
                requires
                    0 < sa < 0x20_0000_0000_0000,
                    0 < sb < 0x20_0000_0000_0000,
            ;
        }
        let q = sa as u128 * sb as u128;
        let e = ea as i32 + eb as i32 - 2148;
        let result = round_steps(q, false, e);
        proof {
            let pa = pow2(ea as nat);
            let pb = pow2(eb as nat);
            lemma_pow2_adds(ea as nat, eb as nat);
            assert(num == q * (pa * pb)) by (nonlinear_arith)
                requires
                    num == (sa * pa) * (sb * pb),
                    q == sa * sb,
            ;
            if e >= 0 {
                lemma_pow2_adds(2148, e as nat);
            } else {
                lemma_pow2_adds((ea + eb) as nat, (-e) as nat);
                let pn = pow2((-e) as nat);
                assert(num * pn == pow2(2148) * q) by (nonlinear_arith)
                    requires
                        num == q * (pa * pb),
                        pow2(2148) == (pa * pb) * pn,
                ;
            }
            assert(in_step(num, pow2(2148), q as nat, false, e as int)) by {
                if e >= 0 {
                    assert(q * pow2((ea + eb) as nat) == pow2(2148) * pow2(e as nat) * q)
                        by (nonlinear_arith)
                        requires
                            pow2((ea + eb) as nat) == pow2(2148) * pow2(e as nat),
                    ;
                }
            }
            lemma_rounded(num, pow2(2148), result.bits);
        }
        result
    }

    /// The reciprocal of a positive finite number.
    pub fn reciprocal(&self) -> (result: Binary64)
        requires
            self.plain(),
            self.bits > 0,
        ensures
            result.bits == reciprocal_bits(self.bits),
            nearest(pow2(1074), units(self.bits), result.bits),
    {
        let (s, ex) = self.unpack();
        let scale = power_of_two(127);
        let q = scale / s as u128;
        let rest = scale % s as u128;
        proof {
            lemma2_to64();
            lemma2_to64_rest();
            lemma_pow2_adds(63, 64);
            lemma_fundamental_div_mod(scale as int, s as int);
            assert(q >= 0x40_0000_0000_0000) by (nonlinear_arith)
                requires
                    scale == s * q + rest,
                    rest < s,
                    s < 0x20_0000_0000_0000,
                    scale == 0x8000_0000_0000_0000 * 0x1_0000_0000_0000_0000,
            ;
        }
        let e: i32 = 1074 - 127 - ex as i32;
        let result = round_steps(q, rest > 0, e);
        proof {
            let num = pow2(1074);
            let den = units(self.bits);
            let px = pow2(ex as nat);
            lemma_pow2_pos(ex as nat);
            assert(den > 0) by (nonlinear_arith)
                requires
                    den == s * px,
                    s > 0,
                    px > 0,
            ;
            assert(s * q + rest < s * (q + 1)) by (nonlinear_arith)
                requires
                    rest < s,
            ;
            if e >= 0 {
                let pe = pow2(e as nat);
                lemma_pow2_pos(e as nat);
                lemma_pow2_adds(127, (ex + e) as nat);
                lemma_pow2_adds(ex as nat, e as nat);
                let g = px * pe;
                assert(num == scale * g);
                assert(den * pe == s * g) by (nonlinear_arith)
                    requires
                        den == s * px,
                        g == px * pe,
                ;
                assert(g > 0) by (nonlinear_arith)
                    requires
                        g == px * pe,
                        px > 0,
                        pe > 0,
                ;
                lemma_scale_step(scale as nat, s as nat, q as nat, rest as nat, g);
            } else {
                let pn = pow2((-e) as nat);
                lemma_pow2_adds(1074, (-e) as nat);
                lemma_pow2_adds(127, ex as nat);
                assert(num * pn == scale * px);
                lemma_scale_step(scale as nat, s as nat, q as nat, rest as nat, px);
            }
            assert(in_step(num, den, q as nat, rest > 0, e as int));
            lemma_rounded(num, den, result.bits);
        }
        result
    }

    /// The sum of two non-negative finite numbers.
    pub fn plus(&self, other: &Binary64) -> (result: Binary64)
        requires
            self.plain(),
            other.plain(),
        ensures
            result.bits == sum_bits(self.bits, other.bits),
            nearest(units(self.bits) + units(other.bits), pow2(1074), result.bits),
    {
        if self.bits >= other.bits {
            Self::add_smaller(self, other)
        } else {
            Self::add_smaller(other, self)
        }
    }

    fn add_smaller(large: &Binary64, small: &Binary64) -> (result: Binary64)
        requires
            large.plain(),
            small.plain(),
            large.bits >= small.bits,
        ensures
            result.bits == sum_bits(large.bits, small.bits),
            nearest(units(large.bits) + units(small.bits), pow2(1074), result.bits),
    {
        let (sa, ea) = large.unpack();
        let (sb, eb) = small.unpack();
        let ghost num = units(large.bits) + units(small.bits);
        let ghost den = pow2(1074);
        proof {
            lemma_pow2_pos(1074);
            lemma2_to64();
            lemma2_to64_rest();
            lemma_pow2_adds(60, 60);
        }
        if sa == 0 {
            proof {
                assert(num == 0) by {
                    assert(0 * pow2(ea as nat) == 0);
                    assert(0 * pow2(eb as nat) == 0);
                }
                lemma_nearest_zero(den);
                lemma_rounded(0, den, 0);
            }
            return Binary64 { bits: 0 };
        }
        // Sixty more binary digits than the larger significand has.
        let gap = ea - eb;
        let scale: u128 = 0x1000_0000_0000_0000;
        let (whole, rest) = if gap <= 120 {
            let divisor = power_of_two(gap);
            proof {
                lemma_pow2_pos(gap as nat);
                lemma_fundamental_div_mod(sb * scale, divisor as int);
            }
            ((sb as u128 * scale) / divisor, (sb as u128 * scale) % divisor)
        } else {
            proof {
                lemma_pow2_monotone(120, gap as nat);
            }
            (0, sb as u128 * scale)
        };
        let ghost pg = pow2(gap as nat);
        proof {
            lemma_pow2_pos(gap as nat);
            assert(pg * whole >= whole) by (nonlinear_arith)
                requires
                    pg >= 1,
            ;
            assert(pg * whole + rest == sb * scale);
            assert(rest < pg);
            if gap == 0 {
                assert(rest == 0);
            }
        }
        let q = sa as u128 * scale + whole;
        let e: i32 = ea as i32 - 60 - 1074;
        let result = round_steps(q, rest > 0, e);
        proof {
            let pb = pow2(eb as nat);
            lemma_pow2_pos(eb as nat);
            lemma_pow2_adds(eb as nat, gap as nat);
            // The sum in steps of 2^e, times the steps' denominator.
            let scaled = (sa * scale * pg + sb * scale) as nat;
            assert(num * scale == scaled * pb) by (nonlinear_arith)
                requires
                    num == sa * (pb * pg) + sb * pb,
                    scaled == sa * scale * pg + sb * scale,
            ;
            assert(scaled == pg * q + rest) by (nonlinear_arith)
                requires
                    scaled == sa * scale * pg + sb * scale,
                    q == sa * scale + whole,
                    pg * whole + rest == sb * scale,
            ;
            lemma_scale_step(scaled, pg, q as nat, rest as nat, pb);
            lemma_pow2_adds(60, 1074);
            lemma_sum_in_step(num, scaled, q as nat, rest as nat, pg, pb, ea as nat);
            lemma_rounded(num, den, result.bits);
        }
        result
    }

    /// A number of at least 2^64, which is an integer: an integer and how often it is doubled.
    pub fn as_doubled(&self) -> (parts: (u64, u32))
        requires
            TWO_64_BITS <= self.bits < INFINITY_BITS,
        ensures
            parts.0 > 0,
            units(self.bits) == (parts.0 * pow2(parts.1 as nat)) * pow2(1074),
    {
        let (s, ex) = self.unpack();
        let shift = ex - 1074;
        proof {
            lemma_pow2_adds(shift as nat, 1074);
            assert(s * (pow2(shift as nat) * pow2(1074)) == (s * pow2(shift as nat)) * pow2(1074))
                by (nonlinear_arith);
        }
        (s, shift)
    }

    /// The number times `factor`, rounded to an integer with ties to even.
    pub fn times_rounded(&self, factor: u32) -> (result: u128)
        requires
            self.plain(),
            units(self.bits) < pow2(64) * pow2(1074),
        ensures
            result == half_even(units(self.bits) * factor as nat, pow2(1074)),
    {
        let (s, ex) = self.unpack();
        let ghost num = units(self.bits) * factor as nat;
        let ghost den = pow2(1074);
        let ghost px = pow2(ex as nat);
        proof {
            lemma_pow2_pos(ex as nat);
            lemma_pow2_pos(1074);
            lemma2_to64();
            lemma2_to64_rest();
            lemma_pow2_adds(64, 64);
            assert(s * factor < 0x20_0000_0000_0000 * 0x1_0000_0000) by (nonlinear_arith)
                requires
                    s < 0x20_0000_0000_0000,
                    factor < 0x1_0000_0000,
            ;
            assert(num == (s * factor) as nat * px) by (nonlinear_arith)
                requires
                    num == (s * px) * factor,
            ;
        }
        let product = s as u128 * factor as u128;
        if ex >= 1074 {
            let growth = ex - 1074;
            proof {
                lemma_pow2_adds(1074, growth as nat);
                let pg = pow2(growth as nat);
                lemma_pow2_pos(growth as nat);
                // A number below 2^64 has at most eleven digits past its significand.
                if growth >= 12 {
                    lemma_pow2_monotone(12, growth as nat);
                    assert(s * px >= pow2(64) * den) by (nonlinear_arith)
                        requires
                            s >= 0x10_0000_0000_0000,
                            px == den * pg,
                            pg >= 0x1000,
                            pow2(64) == 0x10_0000_0000_0000 * 0x1000,
                            den > 0,
                    ;
                }
                lemma_pow2_monotone(growth as nat, 11);
                assert(product * pg < 0x1_0000_0000_0000_0000_0000_0000_0000_0000)
                    by (nonlinear_arith)
                    requires
                        product < 0x20_0000_0000_0000 * 0x1_0000_0000,
                        pg <= 0x800,
                ;
                assert(num == den * (product * pg) + 0) by (nonlinear_arith)
                    requires
                        num == product * px,
                        px == den * pg,
                ;
                lemma_fundamental_div_mod_converse(
                    num as int,
                    den as int,
                    (product * pg) as int,
                    0,
                );
            }
            return product * power_of_two(growth);
        }
        let shift: u32 = 1074 - ex;
        proof {
            lemma_pow2_adds(ex as nat, shift as nat);
        }
        if shift > 100 {
            proof {
                lemma_pow2_monotone(101, shift as nat);
                lemma_pow2_adds(64, 37);
                let ps = pow2(shift as nat);
                assert(2 * num < den) by (nonlinear_arith)
                    requires
                        num == product * px,
                        den == px * ps,
                        2 * product < ps,
                        px > 0,
                ;
                lemma_fundamental_div_mod_converse(
                    num as int,
                    den as int,
                    0,
                    num as int,
                );
            }
            return 0;
        }
        let divisor = power_of_two(shift);
        proof {
            lemma_pow2_pos(shift as nat);
            lemma_fundamental_div_mod(product as int, divisor as int);
        }
        let quotient = product / divisor;
        let remainder = product % divisor;
        proof {
            let ps = divisor as nat;
            lemma_pow2_monotone(shift as nat, 100);
            lemma_pow2_adds(64, 36);
            assert(num == den * quotient + remainder * px) by (nonlinear_arith)
                requires
                    num == product * px,
                    product == divisor * quotient + remainder,
                    den == px * divisor,
            ;
            assert(remainder * px < den) by (nonlinear_arith)
                requires
                    remainder < divisor,
                    den == px * divisor,
                    px > 0,
            ;
            lemma_fundamental_div_mod_converse(
                num as int,
                den as int,
                quotient as int,
                remainder * px,
            );
            assert((2 * (remainder * px) < den) <==> (2 * remainder < divisor)) by (nonlinear_arith)
                requires
                    den == px * divisor,
                    px > 0,
            ;
            assert((2 * (remainder * px) == den) <==> (2 * remainder == divisor))
                by (nonlinear_arith)
                requires
                    den == px * divisor,
                    px > 0,
            ;
            assert(quotient <= product) by (nonlinear_arith)
                requires
                    product == divisor * quotient + remainder,
                    divisor >= 1,
            ;
        }
        if 2 * remainder < divisor || (2 * remainder == divisor && quotient % 2 == 0) {
            quotient
        } else {
            quotient + 1
        }
    }
}

/// A sum that is `q` and a rest of its finer steps lies in the step `q` of 2^(ea - 60 - 1074).
proof fn lemma_sum_in_step(
    num: nat,
    scaled: nat,
    q: nat,
    rest: nat,
    pg: nat,
    pb: nat,
    ea: nat,
)
    requires
        num * pow2(60) == scaled * pb,
        scaled == pg * q + rest,
        rest < pg,
        pb > 0,
        pow2(ea) == pb * pg,
    ensures
        in_step(num, pow2(1074), q, rest > 0, ea - 60 - 1074),
{
    let e = ea - 60 - 1074;
    let p = pow2(1074);
    let pa = pow2(ea);
    let s60 = pow2(60);
    lemma_pow2_pos(60);
    lemma_pow2_adds(60, 1074);
    lemma_scale_step(scaled, pg, q, rest, pb);
    assert(pg * pb == pa) by (nonlinear_arith)
        requires
            pa == pb * pg,
    ;
    if e >= 0 {
        let pe = pow2(e as nat);
        lemma_pow2_adds(1134, e as nat);
        let c = p * pe;
        assert(pa == s60 * c) by (nonlinear_arith)
            requires
                pa == (s60 * p) * pe,
                c == p * pe,
        ;
        lemma_divide_step(num, s60, c, q, pa);
    } else {
        let pn = pow2((-e) as nat);
        lemma_pow2_pos((-e) as nat);
        lemma_pow2_adds(ea, (-e) as nat);
        let a = num * pn;
        // Both sides times 2^60: a * 2^60 against p * 2^60 * q, with pa * pn = 2^60 * p.
        assert(a * s60 == (num * s60) * pn) by (nonlinear_arith)
            requires
                a == num * pn,
        ;
        assert(pa * pn == s60 * p);
        assert((pa * q) * pn == (s60 * p) * q) by (nonlinear_arith)
            requires
                pa * pn == s60 * p,
        ;
        assert((pa * (q + 1)) * pn == (s60 * p) * (q + 1)) by (nonlinear_arith)
            requires
                pa * pn == s60 * p,
        ;
        let t = num * s60;
        assert((pa * q < t) ==> ((pa * q) * pn < t * pn)) by (nonlinear_arith)
            requires
                pn > 0,
        ;
        assert((t < pa * (q + 1)) ==> (t * pn < (pa * (q + 1)) * pn)) by (nonlinear_arith)
            requires
                pn > 0,
        ;
        assert(a * s60 == t * pn);
        lemma_divide_step(a, s60, p, q, s60 * p);
    }
}

/// Cancels the factor `g` of both sides.
proof fn lemma_divide_step(a: nat, g: nat, c: nat, q: nat, gc: nat)
    requires
        g > 0,
        gc == g * c,
    ensures
        a * g == gc * q ==> a == c * q,
        gc * q < a * g ==> c * q < a,
        a * g < gc * (q + 1) ==> a < c * (q + 1),
{
    assert(gc * q == (c * q) * g) by (nonlinear_arith)
        requires
            gc == g * c,
    ;
    assert(gc * (q + 1) == (c * (q + 1)) * g) by (nonlinear_arith)
        requires
            gc == g * c,
    ;
    let x = c * q;
    let y = c * (q + 1);
    assert(a * g == x * g ==> a == x) by (nonlinear_arith)
        requires
            g > 0,
    ;
    assert(x * g < a * g ==> x < a) by (nonlinear_arith)
        requires
            g > 0,
    ;
    assert(a * g < y * g ==> a < y) by (nonlinear_arith)
        requires
            g > 0,
    ;
}

/// Equal patterns, or the same order of patterns and of numbers.
pub proof fn lemma_units_order(a: u64, b: u64)
    ensures
        a < b ==> units(a) < units(b),
        a == b ==> units(a) == units(b),
{
    if a < b {
        lemma_units_increase(a, b);
    }
}

/// Nothing rounds to zero.
pub proof fn lemma_nearest_zero(den: nat)
    requires
        den > 0,
    ensures
        nearest(0, den, 0),
        rounded(0, den) == 0,
        units(0) == 0,
{
    assert(0 * pow2(1074) == 0);
    assert(units(0) == 0);
    assert(units(1) == 1);
    assert(den * 1 == den);
    lemma_rounded(0, den, 0);
}

/// A division with remainder stays one when both sides are multiplied by `g`.
proof fn lemma_scale_step(scale: nat, s: nat, q: nat, rest: nat, g: nat)
    requires
        scale == s * q + rest,
        rest < s,
        g > 0,
    ensures
        rest == 0 ==> scale * g == (s * g) * q,
        rest > 0 ==> (s * g) * q < scale * g < (s * g) * (q + 1),
{
    assert((s * g) * q == (s * q) * g) by (nonlinear_arith);
    assert((s * g) * (q + 1) == (s * q) * g + s * g) by (nonlinear_arith);
    assert(scale * g == (s * q) * g + rest * g) by (nonlinear_arith)
        requires
            scale == s * q + rest,
    ;
    assert(rest * g < s * g) by (nonlinear_arith)
        requires
            rest < s,
            g > 0,
    ;
    assert(rest > 0 ==> rest * g > 0) by (nonlinear_arith)
        requires
            g > 0,
    ;
}

/// What lies below the middle between a number and the next one rounds to that number or less.
pub proof fn lemma_nearest_at_most(num: nat, den: nat, pattern: u64, bound: u64)
    requires
        den > 0,
        nearest(num, den, pattern),
        bound < INFINITY_BITS,
        2 * num * pow2(1074) < den * (units(bound) + units((bound + 1) as u64)),
    ensures
        pattern <= bound,
        units(pattern) <= units(bound),
{
    if pattern > bound {
        let below = units((pattern - 1) as u64) + units(pattern);
        let middle = units(bound) + units((bound + 1) as u64);
        lemma_units_order(bound, (pattern - 1) as u64);
        lemma_units_order((bound + 1) as u64, pattern);
        assert(den * middle <= den * below) by (nonlinear_arith)
            requires
                middle <= below,
        ;
    }
    lemma_units_order(pattern, bound);
}

/// What is no more than a number rounds to no more than that number.
pub proof fn lemma_nearest_bounded(num: nat, den: nat, pattern: u64, bound: u64)
    requires
        den > 0,
        nearest(num, den, pattern),
        bound < INFINITY_BITS,
        num * pow2(1074) <= den * units(bound),
    ensures
        pattern <= bound,
        units(pattern) <= units(bound),
{
    lemma_units_increase(bound, (bound + 1) as u64);
    let middle = units(bound) + units((bound + 1) as u64);
    assert(2 * num * pow2(1074) < den * middle) by (nonlinear_arith)
        requires
            num * pow2(1074) <= den * units(bound),
            middle > 2 * units(bound),
            den > 0,
    ;
    lemma_nearest_at_most(num, den, pattern, bound);
}

/// A number lies above the next lower one by no more than 2^-52 of itself and the smallest unit.
proof fn lemma_gap(pattern: u64)
    requires
        0 < pattern <= INFINITY_BITS,
    ensures
        (units(pattern) - units((pattern - 1) as u64)) * EXPONENT_WEIGHT <= units(pattern)
            + EXPONENT_WEIGHT,
{
    let w = EXPONENT_WEIGHT;
    let below = (pattern - 1) as u64;
    let e = pattern / w;
    let f = pattern % w;
    if e > 0 {
        let p = pow2((e - 1) as nat);
        lemma_pow2_pos((e - 1) as nat);
        if f > 0 {
            assert(below / w == e && below % w == f - 1);
            assert((w + f) * p - (w + (f - 1)) * p == p) by (nonlinear_arith)
                requires
                    f > 0,
            ;
            assert(p * w <= (w + f) * p) by (nonlinear_arith)
                requires
                    f > 0,
                    p > 0,
            ;
        } else if e == 1 {
            assert(below / w == 0 && below % w == w - 1);
            lemma2_to64();
            assert((w + f) * p == w);
        } else {
            assert(below / w == e - 1 && below % w == w - 1);
            let h = pow2((e - 2) as nat);
            lemma_pow2_pos((e - 2) as nat);
            lemma_pow2_unfold((e - 1) as nat);
            assert((w + f) * p - (w + (w - 1)) * h == h) by (nonlinear_arith)
                requires
                    f == 0,
                    p == 2 * h,
            ;
            assert(h * w <= (w + f) * p) by (nonlinear_arith)
                requires
                    f == 0,
                    p == 2 * h,
                    h > 0,
            ;
        }
    } else {
        assert(below / w == 0 && below % w == f - 1);
    }
}

/// Rounding makes a number larger by no more than about 2^-53 of it.
pub proof fn lemma_rounded_error(num: nat, den: nat)
    requires
        den > 0,
    ensures
        den * units(rounded(num, den)) * 0x1f_ffff_ffff_ffff <= num * pow2(1074)
            * 0x20_0000_0000_0000 + den * 0x10_0000_0000_0000,
{
    lemma_rounded_nearest(num, den);
    let pattern = rounded(num, den);
    let u = units(pattern);
    let n = num * pow2(1074);
    if pattern > 0 {
        lemma_gap(pattern);
        lemma_units_increase((pattern - 1) as u64, pattern);
        let v = units((pattern - 1) as u64);
        assert(2 * num * pow2(1074) == 2 * n) by (nonlinear_arith)
            requires
                n == num * pow2(1074),
        ;
        let w = 0x10_0000_0000_0000nat;
        assert(den * (u * (2 * w - 1)) <= n * (2 * w) + den * w) by (nonlinear_arith)
            requires
                2 * n >= den * (v + u),
                (u - v) * w <= u + w,
                den > 0,
        {
            assert(2 * n * w >= den * (v + u) * w);
            assert(den * ((u - v) * w) <= den * (u + w));
            assert(den * (v + u) * w == den * (2 * u * w) - den * ((u - v) * w));
        }
        assert(den * u * (2 * w - 1) == den * (u * (2 * w - 1))) by (nonlinear_arith);
    } else {
        assert(units(0) == 0);
        assert(den * u == 0) by (nonlinear_arith)
            requires
                u == 0,
        ;
        assert(n * 0x20_0000_0000_0000 + den * 0x10_0000_0000_0000 >= 0) by (nonlinear_arith)
            requires
                n >= 0,
                den > 0,
        ;
    }
}

/// The patterns of 1 and of 2^64.
pub proof fn lemma_landmarks()
    ensures
        units(ONE_BITS) == pow2(1074),
        units(TWO_64_BITS) == pow2(64) * pow2(1074),
        units((TWO_64_BITS + 1) as u64) == (pow2(64) + 4096) * pow2(1074),
        pow2(64) == 0x1_0000_0000_0000_0000,
{
    lemma2_to64();
    lemma2_to64_rest();
    lemma_pow2_adds(52, 1022);
    lemma_pow2_adds(12, 1074);
    lemma_pow2_adds(52, 1086);
    lemma_pow2_adds(64, 1074);
    assert(TWO_64_BITS / EXPONENT_WEIGHT == 1087);
    assert(((TWO_64_BITS + 1) as u64) / EXPONENT_WEIGHT == 1087);
    assert(((TWO_64_BITS + 1) as u64) % EXPONENT_WEIGHT == 1);
    let p = pow2(1074);
    assert((EXPONENT_WEIGHT + 1) * (4096 * p) == (0x1_0000_0000_0000_0000 + 4096) * p)
        by (nonlinear_arith)
        requires
            EXPONENT_WEIGHT == 0x10_0000_0000_0000,
    ;
}

/// What is no less than a number rounds to no less than that number.
pub proof fn lemma_nearest_reaches(num: nat, den: nat, pattern: u64, bound: u64)
    requires
        den > 0,
        nearest(num, den, pattern),
        bound <= INFINITY_BITS,
        num * pow2(1074) >= den * units(bound),
    ensures
        pattern >= bound,
        units(pattern) >= units(bound),
{
    if pattern < bound {
        let next = (pattern + 1) as u64;
        lemma_units_order(pattern, bound);
        lemma_units_order(next, bound);
        let middle = units(pattern) + units(next);
        assert(2 * num * pow2(1074) > den * middle) by (nonlinear_arith)
            requires
                num * pow2(1074) >= den * units(bound),
                middle < 2 * units(bound),
                den > 0,
        ;
    }
    lemma_units_order(bound, pattern);
}

/// Rounding makes a number smaller by no more than about 2^-53 of it.
pub proof fn lemma_rounded_loss(num: nat, den: nat)
    requires
        den > 0,
        rounded(num, den) < INFINITY_BITS,
    ensures
        num * pow2(1074) * 0x1f_ffff_ffff_fffe <= den * units(rounded(num, den))
            * 0x1f_ffff_ffff_ffff + den * 0x10_0000_0000_0000,
{
    lemma_rounded_nearest(num, den);
    let pattern = rounded(num, den);
    let next = (pattern + 1) as u64;
    let u = units(pattern);
    let v = units(next);
    let n = num * pow2(1074);
    let w = 0x10_0000_0000_0000nat;
    lemma_gap(next);
    assert(2 * num * pow2(1074) == 2 * n) by (nonlinear_arith)
        requires
            n == num * pow2(1074),
    ;
    assert(v * (w - 1) <= u * w + w) by (nonlinear_arith)
        requires
            (v - u) * w <= v + w,
    ;
    assert(n * (2 * w - 2) <= den * (u * (2 * w - 1)) + den * w) by (nonlinear_arith)
        requires
            2 * n <= den * (u + v),
            v * (w - 1) <= u * w + w,
            den > 0,
            w > 1,
    {
        assert(2 * n * (w - 1) <= den * (u + v) * (w - 1));
        assert(den * (u + v) * (w - 1) == den * (u * (w - 1)) + den * (v * (w - 1)));
        assert(den * (v * (w - 1)) <= den * (u * w + w));
        assert(den * (u * (w - 1)) + den * (u * w + w) == den * (u * (2 * w - 1)) + den * w);
    }
    assert(den * u * (2 * w - 1) == den * (u * (2 * w - 1))) by (nonlinear_arith);
}

} // verus!
